use vstd::prelude::*;
use vstd::utf8::{decode_utf8, encode_utf8, encode_utf8_decode_utf8, encode_utf8_valid_utf8, valid_utf8};
use crate::integer::{lemma_be_bytes_len, lemma_be_round_trip, lemma_i64_width, lemma_width_bounds};
use crate::spec::{
    be_bytes, be_value, enc_int, enc_item, enc_items, escape, int_tag_width, magnitude, parse_int,
    parse_item, parse_nested, parse_tuple, pow256, unescape, wf_item, wf_items, width, ItemView,
    ESCAPE, INT_ZERO,
};

verus! {

/// What may follow an item in any encoding: nothing, or a byte that cannot
/// extend the item (no encoding starts with `0xff`).
pub open spec fn may_follow(s: Seq<u8>) -> bool {
    s.len() == 0 || s[0] != ESCAPE
}

/// The width and tag of a well-formed integer's encoding.
pub proof fn lemma_enc_int_shape(i: int)
    requires
        i64::MIN <= i <= i64::MAX,
    ensures
        enc_int(i).len() == 1 + width(magnitude(i)),
        width(magnitude(i)) <= 8,
        i == 0 ==> width(magnitude(i)) == 0 && enc_int(i)[0] == INT_ZERO,
        i > 0 ==> width(magnitude(i)) >= 1 && enc_int(i)[0] == INT_ZERO + width(magnitude(i)),
        i < 0 ==> width(magnitude(i)) >= 1 && enc_int(i)[0] == INT_ZERO - width(magnitude(i)),
        enc_int(i).subrange(1, enc_int(i).len() as int) == (if i >= 0 {
            be_bytes(magnitude(i), width(magnitude(i)))
        } else {
            be_bytes((pow256(width(magnitude(i))) - 1 + i) as nat, width(magnitude(i)))
        }),
{
    let m = magnitude(i);
    let n = width(m);
    lemma_i64_width(i);
    lemma_width_bounds(m);
    if i == 0 {
        assert(be_bytes(0, 0) =~= Seq::<u8>::empty());
        assert(enc_int(i).subrange(1, 1) =~= Seq::<u8>::empty());
    } else if i > 0 {
        lemma_be_bytes_len(i as nat, n);
        assert(enc_int(i).subrange(1, enc_int(i).len() as int) =~= be_bytes(m, n));
    } else {
        lemma_be_bytes_len((pow256(n) - 1 + i) as nat, n);
        assert(enc_int(i).subrange(1, enc_int(i).len() as int) =~= be_bytes(
            (pow256(n) - 1 + i) as nat,
            n,
        ));
    }
}

/// Every item encoding has a first byte, which is never `0xff`, and is zero
/// only for the unit item.
pub proof fn lemma_first_byte(v: ItemView, nested: bool)
    requires
        wf_item(v),
    ensures
        enc_item(v, nested).len() > 0,
        enc_item(v, nested)[0] != ESCAPE,
        enc_item(v, nested)[0] == 0 ==> v is Empty,
{
    if let ItemView::Int(i) = v {
        lemma_enc_int_shape(i);
    }
}

/// The encoding of a non-empty sequence starts as that of its first item.
pub proof fn lemma_first_byte_items(t: Seq<ItemView>, nested: bool)
    requires
        wf_items(t),
        t.len() > 0,
    ensures
        enc_items(t, nested).len() > 0,
        enc_items(t, nested)[0] == enc_item(t[0], nested)[0],
        enc_items(t, nested)[0] != ESCAPE,
        enc_items(t, nested)[0] == 0 ==> t[0] is Empty,
{
    lemma_first_byte(t[0], nested);
}

/// An escaped payload, its terminator and whatever may follow read back as
/// the payload.
pub proof fn lemma_unescape_escape(p: Seq<u8>, s: Seq<u8>)
    requires
        may_follow(s),
    ensures
        unescape(escape(p) + seq![0u8] + s) == Some((p, escape(p).len() + 1)),
    decreases p.len(),
{
    let b = escape(p) + seq![0u8] + s;
    if p.len() == 0 {
        assert(b =~= seq![0u8] + s);
        assert(b[0] == 0);
    } else {
        let rest = p.subrange(1, p.len() as int);
        lemma_unescape_escape(rest, s);
        let tail = escape(rest) + seq![0u8] + s;
        if p[0] == 0 {
            assert(b =~= seq![0u8, ESCAPE] + tail);
            assert(b.subrange(2, b.len() as int) =~= tail);
            assert(seq![0u8] + rest =~= p);
        } else {
            assert(b =~= seq![p[0]] + tail);
            assert(b.subrange(1, b.len() as int) =~= tail);
            assert(seq![p[0]] + rest =~= p);
        }
    }
}

/// A well-formed integer's encoding, followed by anything, reads back as it.
pub proof fn lemma_parse_enc_int(i: int, s: Seq<u8>)
    requires
        i64::MIN <= i <= i64::MAX,
    ensures
        parse_int(enc_int(i) + s) == Ok::<(ItemView, nat), crate::error::Error>(
            (ItemView::Int(i), enc_int(i).len()),
        ),
{
    let e = enc_int(i);
    let b = e + s;
    lemma_enc_int_shape(i);
    let m = magnitude(i);
    let n = width(m);
    lemma_width_bounds(m);
    assert(int_tag_width(b[0]) == n);
    assert(b.subrange(1, 1 + n as int) =~= e.subrange(1, e.len() as int));
    if i >= 0 {
        lemma_be_round_trip(m, n);
        assert(m % pow256(n) == m) by {
            vstd::arithmetic::div_mod::lemma_small_mod(m, pow256(n));
        }
    } else {
        let x = (pow256(n) - 1 + i) as nat;
        lemma_be_round_trip(x, n);
        vstd::arithmetic::div_mod::lemma_small_mod(x, pow256(n));
    }
}

/// An item's encoding, followed by anything that may follow it, reads back as
/// the item and its length.
pub proof fn lemma_parse_enc_item(v: ItemView, nested: bool, s: Seq<u8>)
    requires
        wf_item(v),
        may_follow(s),
    ensures
        parse_item(enc_item(v, nested) + s, nested) == Ok::<(ItemView, nat), crate::error::Error>(
            (v, enc_item(v, nested).len()),
        ),
    decreases v, 0nat,
{
    let e = enc_item(v, nested);
    let b = e + s;
    lemma_first_byte(v, nested);
    match v {
        ItemView::Empty => {},
        ItemView::Bytes(p) => {
            lemma_unescape_escape(p, s);
            assert(b.subrange(1, b.len() as int) =~= escape(p) + seq![0u8] + s);
        },
        ItemView::Str(t) => {
            let p = encode_utf8(t);
            lemma_unescape_escape(p, s);
            assert(b.subrange(1, b.len() as int) =~= escape(p) + seq![0u8] + s);
            encode_utf8_valid_utf8(t);
            encode_utf8_decode_utf8(t);
        },
        ItemView::Nested(t) => {
            lemma_parse_enc_nested(t, s);
            assert(b.subrange(1, b.len() as int) =~= enc_items(t, true) + seq![0u8] + s);
        },
        ItemView::Int(i) => {
            lemma_enc_int_shape(i);
            lemma_parse_enc_int(i, s);
        },
        ItemView::Bool(_) => {},
    }
}

/// A nested tuple's items, its terminator and whatever may follow read back
/// as the items.
pub proof fn lemma_parse_enc_nested(t: Seq<ItemView>, s: Seq<u8>)
    requires
        wf_items(t),
        may_follow(s),
    ensures
        parse_nested(enc_items(t, true) + seq![0u8] + s) == Ok::<
            (Seq<ItemView>, nat),
            crate::error::Error,
        >((t, enc_items(t, true).len() + 1)),
    decreases t, 1nat,
{
    let b = enc_items(t, true) + seq![0u8] + s;
    if t.len() == 0 {
        assert(b =~= seq![0u8] + s);
        assert(t =~= Seq::<ItemView>::empty());
    } else {
        let rest = t.subrange(1, t.len() as int);
        assert(wf_items(rest)) by {
            assert forall|k: int| 0 <= k < rest.len() implies wf_item(#[trigger] rest[k]) by {
                assert(rest[k] == t[k + 1]);
            }
        }
        assert(wf_item(t[0]));
        let tail = enc_items(rest, true) + seq![0u8] + s;
        let e0 = enc_item(t[0], true);
        assert(b =~= e0 + tail);
        if rest.len() > 0 {
            lemma_first_byte_items(rest, true);
        }
        assert(may_follow(tail));
        lemma_parse_enc_item(t[0], true, tail);
        lemma_first_byte(t[0], true);
        assert(b.subrange(e0.len() as int, b.len() as int) =~= tail);
        lemma_parse_enc_nested(rest, s);
        assert(seq![t[0]] + rest =~= t);
        assert(b[0] == e0[0]);
        if e0[0] == 0 {
            assert(b[1] == e0[1]);
        }
        assert(!crate::spec::at_terminator(b));
    }
}

/// Decoding a tuple's encoding gives back the tuple.
pub proof fn lemma_parse_enc_tuple(t: Seq<ItemView>)
    requires
        wf_items(t),
    ensures
        parse_tuple(enc_items(t, false)) == Ok::<Seq<ItemView>, crate::error::Error>(t),
    decreases t.len(),
{
    let b = enc_items(t, false);
    if t.len() == 0 {
        assert(t =~= Seq::<ItemView>::empty());
    } else {
        let rest = t.subrange(1, t.len() as int);
        assert(wf_items(rest)) by {
            assert forall|k: int| 0 <= k < rest.len() implies wf_item(#[trigger] rest[k]) by {
                assert(rest[k] == t[k + 1]);
            }
        }
        assert(wf_item(t[0]));
        let tail = enc_items(rest, false);
        let e0 = enc_item(t[0], false);
        if rest.len() > 0 {
            lemma_first_byte_items(rest, false);
        }
        lemma_parse_enc_item(t[0], false, tail);
        lemma_first_byte(t[0], false);
        assert(b.subrange(e0.len() as int, b.len() as int) =~= tail);
        lemma_parse_enc_tuple(rest);
        assert(seq![t[0]] + rest =~= t);
    }
}

} // verus!
