use vstd::prelude::*;
use vstd::utf8::{encode_utf8, encode_utf8_decode_utf8};
use crate::integer::{lemma_pow256_monotone, lemma_width_bounds};
use crate::round_trip::{lemma_enc_int_shape, lemma_first_byte, lemma_first_byte_items, may_follow};
use crate::spec::{
    be_bytes, enc_int, enc_item, enc_items, escape, magnitude, pow256, wf_item, wf_items, width,
    ItemView, ESCAPE,
};

verus! {

/// Byte-wise order: the first differing byte decides, and a proper prefix
/// comes first.
pub open spec fn bytes_lt(a: Seq<u8>, b: Seq<u8>) -> bool
    decreases a.len(),
{
    if a.len() == 0 {
        b.len() > 0
    } else if b.len() == 0 {
        false
    } else if a[0] != b[0] {
        a[0] < b[0]
    } else {
        bytes_lt(a.subrange(1, a.len() as int), b.subrange(1, b.len() as int))
    }
}

/// Where each kind of item sorts relative to the other kinds.
pub open spec fn rank(v: ItemView) -> int {
    match v {
        ItemView::Empty => 0,
        ItemView::Bytes(_) => 1,
        ItemView::Str(_) => 2,
        ItemView::Nested(_) => 3,
        ItemView::Int(_) => 4,
        ItemView::Bool(_) => 5,
    }
}

/// The order of items: by kind first; then byte strings byte-wise, text by
/// its UTF-8 bytes (which is code-point order), nested tuples as tuples,
/// integers by value, and `false` before `true`.
pub open spec fn item_lt(a: ItemView, b: ItemView) -> bool
    decreases a, 0nat,
{
    match (a, b) {
        (ItemView::Bytes(x), ItemView::Bytes(y)) => bytes_lt(x, y),
        (ItemView::Str(x), ItemView::Str(y)) => bytes_lt(encode_utf8(x), encode_utf8(y)),
        (ItemView::Nested(x), ItemView::Nested(y)) => tuple_lt(x, y),
        (ItemView::Int(x), ItemView::Int(y)) => x < y,
        (ItemView::Bool(x), ItemView::Bool(y)) => !x && y,
        _ => rank(a) < rank(b),
    }
}

/// The order of tuples: the first differing item decides, and a proper
/// prefix comes first.
pub open spec fn tuple_lt(a: Seq<ItemView>, b: Seq<ItemView>) -> bool
    decreases a, 1nat,
{
    if a.len() == 0 {
        b.len() > 0
    } else if b.len() == 0 {
        false
    } else if a[0] != b[0] {
        item_lt(a[0], b[0])
    } else {
        tuple_lt(a.subrange(1, a.len() as int), b.subrange(1, b.len() as int))
    }
}

/// A common prefix does not change the byte-wise order.
pub proof fn lemma_bytes_lt_prefix(p: Seq<u8>, u: Seq<u8>, v: Seq<u8>)
    ensures
        bytes_lt(p + u, p + v) == bytes_lt(u, v),
    decreases p.len(),
{
    if p.len() > 0 {
        let q = p.subrange(1, p.len() as int);
        lemma_bytes_lt_prefix(q, u, v);
        assert((p + u).subrange(1, (p + u).len() as int) =~= q + u);
        assert((p + v).subrange(1, (p + v).len() as int) =~= q + v);
    } else {
        assert(p + u =~= u);
        assert(p + v =~= v);
    }
}

/// Non-empty sequences whose first bytes differ are ordered by those bytes.
pub proof fn lemma_bytes_lt_first(a: Seq<u8>, b: Seq<u8>)
    requires
        a.len() > 0,
        b.len() > 0,
        a[0] < b[0],
    ensures
        bytes_lt(a, b),
{
}

/// Two byte sequences of one length keep their order whatever follows each.
pub proof fn lemma_bytes_lt_same_len(a: Seq<u8>, b: Seq<u8>, s: Seq<u8>, t: Seq<u8>)
    requires
        bytes_lt(a, b),
        a.len() == b.len(),
    ensures
        bytes_lt(a + s, b + t),
    decreases a.len(),
{
    if a[0] == b[0] {
        let a1 = a.subrange(1, a.len() as int);
        let b1 = b.subrange(1, b.len() as int);
        lemma_bytes_lt_same_len(a1, b1, s, t);
        assert((a + s).subrange(1, (a + s).len() as int) =~= a1 + s);
        assert((b + t).subrange(1, (b + t).len() as int) =~= b1 + t);
    }
}

/// No sequence comes before itself, and of two sequences at most one comes first.
pub proof fn lemma_bytes_lt_asym(a: Seq<u8>, b: Seq<u8>)
    ensures
        !bytes_lt(a, a),
        bytes_lt(a, b) ==> !bytes_lt(b, a),
    decreases a.len(),
{
    if a.len() > 0 && b.len() > 0 {
        lemma_bytes_lt_asym(a.subrange(1, a.len() as int), b.subrange(1, b.len() as int));
        lemma_bytes_lt_asym(a.subrange(1, a.len() as int), a.subrange(1, a.len() as int));
    } else if a.len() > 0 {
        lemma_bytes_lt_asym(a.subrange(1, a.len() as int), a.subrange(1, a.len() as int));
    }
}

/// Of two different sequences one comes first.
pub proof fn lemma_bytes_lt_total(a: Seq<u8>, b: Seq<u8>)
    ensures
        a == b || bytes_lt(a, b) || bytes_lt(b, a),
    decreases a.len(),
{
    if a.len() > 0 && b.len() > 0 {
        let a1 = a.subrange(1, a.len() as int);
        let b1 = b.subrange(1, b.len() as int);
        lemma_bytes_lt_total(a1, b1);
        if a[0] == b[0] && a1 == b1 {
            assert(a =~= seq![a[0]] + a1);
            assert(b =~= seq![b[0]] + b1);
        }
    } else if a.len() == 0 && b.len() == 0 {
        assert(a =~= b);
    }
}

/// Escaped payloads, each with its terminator, keep the order of the payloads
/// whatever follows them, so long as what follows the first may follow an item.
pub proof fn lemma_escape_order(x: Seq<u8>, y: Seq<u8>, s: Seq<u8>, t: Seq<u8>)
    requires
        bytes_lt(x, y),
        may_follow(s),
    ensures
        bytes_lt(escape(x) + seq![0u8] + s, escape(y) + seq![0u8] + t),
    decreases x.len(),
{
    let a = escape(x) + seq![0u8] + s;
    let b = escape(y) + seq![0u8] + t;
    let y1 = y.subrange(1, y.len() as int);
    if x.len() == 0 {
        assert(a =~= seq![0u8] + s);
        if y[0] == 0 {
            assert(b =~= seq![0u8] + (seq![ESCAPE] + (escape(y1) + seq![0u8] + t)));
            lemma_bytes_lt_prefix(seq![0u8], s, seq![ESCAPE] + (escape(y1) + seq![0u8] + t));
            if s.len() > 0 {
                lemma_bytes_lt_first(s, seq![ESCAPE] + (escape(y1) + seq![0u8] + t));
            }
        } else {
            assert(b =~= seq![y[0]] + (escape(y1) + seq![0u8] + t));
        }
    } else {
        let x1 = x.subrange(1, x.len() as int);
        let cx = if x[0] == 0 {
            seq![0u8, ESCAPE]
        } else {
            seq![x[0]]
        };
        let cy = if y[0] == 0 {
            seq![0u8, ESCAPE]
        } else {
            seq![y[0]]
        };
        assert(a =~= cx + (escape(x1) + seq![0u8] + s));
        assert(b =~= cy + (escape(y1) + seq![0u8] + t));
        if x[0] == y[0] {
            lemma_escape_order(x1, y1, s, t);
            lemma_bytes_lt_prefix(cx, escape(x1) + seq![0u8] + s, escape(y1) + seq![0u8] + t);
        }
    }
}

/// A larger magnitude never needs fewer bytes.
pub proof fn lemma_width_monotone(a: nat, b: nat)
    requires
        a <= b,
    ensures
        width(a) <= width(b),
    decreases b,
{
    if a > 0 {
        assert(a / 256 <= b / 256) by (nonlinear_arith)
            requires
                a <= b,
        ;
        lemma_width_monotone(a / 256, b / 256);
    }
}

/// Big-endian bytes of one width keep the order of the numbers they hold.
pub proof fn lemma_be_order(x: nat, y: nat, n: nat)
    requires
        x < y < pow256(n),
    ensures
        bytes_lt(be_bytes(x, n), be_bytes(y, n)),
        be_bytes(x, n).len() == n,
        be_bytes(y, n).len() == n,
    decreases n,
{
    crate::integer::lemma_be_bytes_len(x, n);
    crate::integer::lemma_be_bytes_len(y, n);
    if n == 0 {
    } else {
        let m = (n - 1) as nat;
        let p = pow256(m);
        assert(x / 256 <= y / 256 < p) by (nonlinear_arith)
            requires
                x < y,
                y < 256 * p,
        ;
        let bx = be_bytes(x / 256, m);
        let by_ = be_bytes(y / 256, m);
        crate::integer::lemma_be_bytes_len(x / 256, m);
        crate::integer::lemma_be_bytes_len(y / 256, m);
        if x / 256 < y / 256 {
            lemma_be_order(x / 256, y / 256, m);
            lemma_bytes_lt_same_len(bx, by_, seq![(x % 256) as u8], seq![(y % 256) as u8]);
            assert(be_bytes(x, n) =~= bx + seq![(x % 256) as u8]);
            assert(be_bytes(y, n) =~= by_ + seq![(y % 256) as u8]);
        } else {
            assert(x % 256 < y % 256) by (nonlinear_arith)
                requires
                    x < y,
                    x / 256 == y / 256,
            ;
            assert(be_bytes(x, n) =~= bx + seq![(x % 256) as u8]);
            assert(be_bytes(y, n) =~= bx + seq![(y % 256) as u8]);
            lemma_bytes_lt_prefix(bx, seq![(x % 256) as u8], seq![(y % 256) as u8]);
        }
    }
}

/// Integer encodings keep the order of the integers, whatever follows them.
pub proof fn lemma_int_order(i: int, j: int, s: Seq<u8>, t: Seq<u8>)
    requires
        i64::MIN <= i < j <= i64::MAX,
    ensures
        bytes_lt(enc_int(i) + s, enc_int(j) + t),
{
    let a = enc_int(i) + s;
    let b = enc_int(j) + t;
    lemma_enc_int_shape(i);
    lemma_enc_int_shape(j);
    let mi = magnitude(i);
    let mj = magnitude(j);
    let ni = width(mi);
    let nj = width(mj);
    if 0 <= i {
        lemma_width_monotone(mi, mj);
    } else if j <= 0 {
        lemma_width_monotone(mj, mi);
    }
    if a[0] != b[0] {
        lemma_bytes_lt_first(a, b);
    } else {
        // same tag: same sign and same width
        assert(ni == nj);
        assert(i != 0);
        let ri = enc_int(i).subrange(1, enc_int(i).len() as int);
        let rj = enc_int(j).subrange(1, enc_int(j).len() as int);
        lemma_width_bounds(mi);
        lemma_width_bounds(mj);
        if i > 0 {
            lemma_be_order(mi, mj, ni);
        } else {
            lemma_be_order((pow256(ni) - 1 + i) as nat, (pow256(ni) - 1 + j) as nat, ni);
        }
        lemma_bytes_lt_same_len(ri, rj, s, t);
        assert(a =~= seq![a[0]] + (ri + s));
        assert(b =~= seq![a[0]] + (rj + t));
        lemma_bytes_lt_prefix(seq![a[0]], ri + s, rj + t);
    }
}

/// The first item and the rest of a well-formed sequence are well formed.
pub proof fn lemma_wf_split(t: Seq<ItemView>)
    requires
        wf_items(t),
        t.len() > 0,
    ensures
        wf_item(t[0]),
        wf_items(t.subrange(1, t.len() as int)),
{
    let rest = t.subrange(1, t.len() as int);
    assert forall|k: int| 0 <= k < rest.len() implies wf_item(#[trigger] rest[k]) by {
        assert(rest[k] == t[k + 1]);
    }
}

/// The first byte of each kind of item, in the order of the kinds.
pub proof fn lemma_tag_order(a: ItemView, b: ItemView, nested: bool)
    requires
        wf_item(a),
        wf_item(b),
        rank(a) < rank(b),
    ensures
        enc_item(a, nested)[0] < enc_item(b, nested)[0],
{
    if let ItemView::Int(i) = a {
        lemma_enc_int_shape(i);
    }
    if let ItemView::Int(j) = b {
        lemma_enc_int_shape(j);
    }
}

/// Item encodings keep the order of the items, whatever follows them, so long
/// as what follows the first may follow an item.
pub proof fn lemma_item_order(a: ItemView, b: ItemView, nested: bool, s: Seq<u8>, t: Seq<u8>)
    requires
        wf_item(a),
        wf_item(b),
        item_lt(a, b),
        may_follow(s),
    ensures
        bytes_lt(enc_item(a, nested) + s, enc_item(b, nested) + t),
    decreases a, 0nat,
{
    let ea = enc_item(a, nested) + s;
    let eb = enc_item(b, nested) + t;
    lemma_first_byte(a, nested);
    lemma_first_byte(b, nested);
    if rank(a) != rank(b) {
        lemma_tag_order(a, b, nested);
        lemma_bytes_lt_first(ea, eb);
    } else {
        match (a, b) {
            (ItemView::Bytes(x), ItemView::Bytes(y)) => {
                lemma_escape_order(x, y, s, t);
                assert(ea =~= seq![ea[0]] + (escape(x) + seq![0u8] + s));
                assert(eb =~= seq![ea[0]] + (escape(y) + seq![0u8] + t));
                lemma_bytes_lt_prefix(seq![ea[0]], escape(x) + seq![0u8] + s, escape(y) + seq![0u8] + t);
            },
            (ItemView::Str(x), ItemView::Str(y)) => {
                let px = encode_utf8(x);
                let py = encode_utf8(y);
                lemma_escape_order(px, py, s, t);
                assert(ea =~= seq![ea[0]] + (escape(px) + seq![0u8] + s));
                assert(eb =~= seq![ea[0]] + (escape(py) + seq![0u8] + t));
                lemma_bytes_lt_prefix(seq![ea[0]], escape(px) + seq![0u8] + s, escape(py) + seq![0u8] + t);
            },
            (ItemView::Nested(x), ItemView::Nested(y)) => {
                lemma_nested_order(x, y, s, t);
                assert(ea =~= seq![ea[0]] + (enc_items(x, true) + seq![0u8] + s));
                assert(eb =~= seq![ea[0]] + (enc_items(y, true) + seq![0u8] + t));
                lemma_bytes_lt_prefix(
                    seq![ea[0]],
                    enc_items(x, true) + seq![0u8] + s,
                    enc_items(y, true) + seq![0u8] + t,
                );
            },
            (ItemView::Int(i), ItemView::Int(j)) => {
                lemma_int_order(i, j, s, t);
            },
            (ItemView::Bool(x), ItemView::Bool(y)) => {
                lemma_bytes_lt_first(ea, eb);
            },
            _ => {},
        }
    }
}

/// The items of nested tuples, each with its terminator, keep the order of
/// the tuples, whatever follows them, so long as what follows the first may
/// follow an item.
pub proof fn lemma_nested_order(x: Seq<ItemView>, y: Seq<ItemView>, s: Seq<u8>, t: Seq<u8>)
    requires
        wf_items(x),
        wf_items(y),
        tuple_lt(x, y),
        may_follow(s),
    ensures
        bytes_lt(enc_items(x, true) + seq![0u8] + s, enc_items(y, true) + seq![0u8] + t),
    decreases x, 1nat,
{
    let a = enc_items(x, true) + seq![0u8] + s;
    let b = enc_items(y, true) + seq![0u8] + t;
    lemma_wf_split(y);
    let y1 = y.subrange(1, y.len() as int);
    let ry = enc_items(y1, true) + seq![0u8] + t;
    lemma_first_byte(y[0], true);
    assert(b =~= enc_item(y[0], true) + ry);
    if x.len() == 0 {
        assert(a =~= seq![0u8] + s);
        if enc_item(y[0], true)[0] == 0 {
            assert(b =~= seq![0u8] + (seq![ESCAPE] + ry));
            lemma_bytes_lt_prefix(seq![0u8], s, seq![ESCAPE] + ry);
            if s.len() > 0 {
                lemma_bytes_lt_first(s, seq![ESCAPE] + ry);
            }
        } else {
            lemma_bytes_lt_first(a, b);
        }
    } else {
        lemma_wf_split(x);
        let x1 = x.subrange(1, x.len() as int);
        let rx = enc_items(x1, true) + seq![0u8] + s;
        assert(a =~= enc_item(x[0], true) + rx);
        if x1.len() > 0 {
            lemma_first_byte_items(x1, true);
        }
        assert(may_follow(rx));
        if x[0] != y[0] {
            lemma_item_order(x[0], y[0], true, rx, ry);
        } else {
            lemma_nested_order(x1, y1, s, t);
            lemma_bytes_lt_prefix(enc_item(x[0], true), rx, ry);
        }
    }
}

/// Tuple encodings keep the order of the tuples.
pub proof fn lemma_tuple_order(x: Seq<ItemView>, y: Seq<ItemView>)
    requires
        wf_items(x),
        wf_items(y),
        tuple_lt(x, y),
    ensures
        bytes_lt(enc_items(x, false), enc_items(y, false)),
    decreases x.len(),
{
    let a = enc_items(x, false);
    let b = enc_items(y, false);
    lemma_wf_split(y);
    let y1 = y.subrange(1, y.len() as int);
    let ry = enc_items(y1, false);
    lemma_first_byte(y[0], false);
    if x.len() > 0 {
        lemma_wf_split(x);
        let x1 = x.subrange(1, x.len() as int);
        let rx = enc_items(x1, false);
        if x1.len() > 0 {
            lemma_first_byte_items(x1, false);
        }
        if x[0] != y[0] {
            lemma_item_order(x[0], y[0], false, rx, ry);
        } else {
            lemma_tuple_order(x1, y1);
            lemma_bytes_lt_prefix(enc_item(x[0], false), rx, ry);
        }
    }
}

/// Of two different items one comes first.
pub proof fn lemma_item_total(a: ItemView, b: ItemView)
    ensures
        a == b || item_lt(a, b) || item_lt(b, a),
    decreases a, 0nat,
{
    match (a, b) {
        (ItemView::Bytes(x), ItemView::Bytes(y)) => {
            lemma_bytes_lt_total(x, y);
        },
        (ItemView::Str(x), ItemView::Str(y)) => {
            lemma_bytes_lt_total(encode_utf8(x), encode_utf8(y));
            encode_utf8_decode_utf8(x);
            encode_utf8_decode_utf8(y);
        },
        (ItemView::Nested(x), ItemView::Nested(y)) => {
            lemma_tuple_total(x, y);
        },
        _ => {},
    }
}

/// Of two different tuples one comes first.
pub proof fn lemma_tuple_total(x: Seq<ItemView>, y: Seq<ItemView>)
    ensures
        x == y || tuple_lt(x, y) || tuple_lt(y, x),
    decreases x, 1nat,
{
    if x.len() == 0 && y.len() == 0 {
        assert(x =~= y);
    } else if x.len() > 0 && y.len() > 0 {
        let x1 = x.subrange(1, x.len() as int);
        let y1 = y.subrange(1, y.len() as int);
        if x[0] != y[0] {
            lemma_item_total(x[0], y[0]);
        } else {
            lemma_tuple_total(x1, y1);
            if x1 == y1 {
                assert(x =~= seq![x[0]] + x1);
                assert(y =~= seq![y[0]] + y1);
            }
        }
    }
}

/// Order preservation: one tuple's encoding comes before another's, byte-wise,
/// exactly when the first tuple comes before the second.
pub proof fn lemma_order_preserved(a: Seq<ItemView>, b: Seq<ItemView>)
    requires
        wf_items(a),
        wf_items(b),
    ensures
        bytes_lt(enc_items(a, false), enc_items(b, false)) <==> tuple_lt(a, b),
{
    if tuple_lt(a, b) {
        lemma_tuple_order(a, b);
    } else {
        lemma_tuple_total(a, b);
        lemma_bytes_lt_asym(enc_items(a, false), enc_items(b, false));
        if tuple_lt(b, a) {
            lemma_tuple_order(b, a);
        }
    }
}

} // verus!
