use vstd::prelude::*;
use crate::error::Error;
use crate::integer::{read_int, write_int};
use vstd::utf8::{decode_utf8, valid_utf8};
use crate::spec::{
    wf_item, wf_items,
    enc_item, enc_items, escape, lemma_enc_items_concat, lemma_enc_items_single,
    lemma_escape_concat, lemma_escape_single, parse_item, parse_nested, unescape, at_terminator,
    is_int_tag, ItemView, NEG_INT_START, POS_INT_END, BYTES, ESCAPE, FALSE, NESTED, NIL, STRING,
    TRUE,
};

verus! {

/// One value of a tuple.
#[derive(Debug)]
pub enum Item {
    Empty,
    Bytes(Vec<u8>),
    Str(String),
    Nested(Vec<Item>),
    Int(i64),
    Bool(bool),
}

/// The mathematical value of an item.
pub open spec fn view_item(x: Item) -> ItemView
    decreases x,
{
    match x {
        Item::Empty => ItemView::Empty,
        Item::Bytes(b) => ItemView::Bytes(b@),
        Item::Str(s) => ItemView::Str(s@),
        Item::Nested(v) => ItemView::Nested(view_items(v@)),
        Item::Int(i) => ItemView::Int(i as int),
        Item::Bool(b) => ItemView::Bool(b),
    }
}

/// The mathematical values of a sequence of items.
pub open spec fn view_items(s: Seq<Item>) -> Seq<ItemView>
    decreases s,
{
    if s.len() == 0 {
        Seq::empty()
    } else {
        seq![view_item(s[0])] + view_items(s.subrange(1, s.len() as int))
    }
}

impl View for Item {
    type V = ItemView;

    open spec fn view(&self) -> ItemView {
        view_item(*self)
    }
}

/// The views of a sequence of items, one by one.
pub proof fn lemma_view_items(s: Seq<Item>)
    ensures
        view_items(s).len() == s.len(),
        forall|k: int| 0 <= k < s.len() ==> view_items(s)[k] == view_item(#[trigger] s[k]),
    decreases s.len(),
{
    if s.len() > 0 {
        let rest = s.subrange(1, s.len() as int);
        lemma_view_items(rest);
        assert forall|k: int| 0 <= k < s.len() implies view_items(s)[k] == view_item(
            #[trigger] s[k],
        ) by {
            if k > 0 {
                assert(s[k] == rest[k - 1]);
            }
        }
    }
}

/// Appends `b` with each zero escaped.
fn write_escaped(out: &mut Vec<u8>, b: &[u8])
    ensures
        final(out)@ == old(out)@ + escape(b@),
{
    let mut i: usize = 0;
    while i < b.len()
        invariant
            i <= b@.len(),
            out@ == old(out)@ + escape(b@.subrange(0, i as int)),
        decreases b.len() - i,
    {
        let x = b[i];
        proof {
            assert(b@.subrange(0, i + 1) =~= b@.subrange(0, i as int) + seq![x]);
            lemma_escape_concat(b@.subrange(0, i as int), seq![x]);
            lemma_escape_single(x);
        }
        if x == 0 {
            out.push(0);
            out.push(ESCAPE);
        } else {
            out.push(x);
        }
        i = i + 1;
        assert(out@ =~= old(out)@ + escape(b@.subrange(0, i as int)));
    }
    assert(b@.subrange(0, b@.len() as int) =~= b@);
}

/// Appends a tag, then `b` escaped, then the terminating zero.
pub(crate) fn write_payload(out: &mut Vec<u8>, tag: u8, b: &[u8])
    ensures
        final(out)@ == old(out)@ + seq![tag] + escape(b@) + seq![0u8],
{
    out.push(tag);
    write_escaped(out, b);
    out.push(0);
    assert(final(out)@ =~= old(out)@ + seq![tag] + escape(b@) + seq![0u8]);
}

impl Item {
    /// Appends the encoding of this item; `nested` tells whether it stands
    /// inside a nested tuple.
    pub fn encode_into(&self, out: &mut Vec<u8>, nested: bool)
        ensures
            final(out)@ == old(out)@ + enc_item(self@, nested),
        decreases self,
    {
        match self {
            Item::Empty => {
                out.push(NIL);
                if nested {
                    out.push(ESCAPE);
                }
            },
            Item::Bytes(b) => {
                write_payload(out, BYTES, b.as_slice());
            },
            Item::Str(s) => {
                write_payload(out, STRING, s.as_str().as_bytes());
            },
            Item::Nested(v) => {
                out.push(NESTED);
                let ghost start = out@;
                let ghost t = view_items(v@);
                proof {
                    lemma_view_items(v@);
                }
                let mut k: usize = 0;
                while k < v.len()
                    invariant
                        k <= v@.len(),
                        *self == Item::Nested(*v),
                        t == view_items(v@),
                        t.len() == v@.len(),
                        forall|j: int| 0 <= j < v@.len() ==> t[j] == view_item(#[trigger] v@[j]),
                        out@ == start + enc_items(t.subrange(0, k as int), true),
                    decreases v.len() - k,
                {
                    proof {
                        broadcast use vstd::std_specs::vec::axiom_vec_index_decreases;

                        assert(decreases_to!(*self => self->Nested_0));
                        assert(decreases_to!(*v => v[k as int]));
                        assert(decreases_to!(*self => v[k as int]));
                    }
                    let ghost before = out@;
                    v[k].encode_into(out, true);
                    proof {
                        assert(t.subrange(0, k + 1) =~= t.subrange(0, k as int) + seq![t[k as int]]);
                        lemma_enc_items_concat(t.subrange(0, k as int), seq![t[k as int]], true);
                        lemma_enc_items_single(t[k as int], true);
                    }
                    k = k + 1;
                    assert(out@ =~= start + enc_items(t.subrange(0, k as int), true));
                }
                assert(t.subrange(0, v@.len() as int) =~= t);
                out.push(0);
            },
            Item::Int(i) => {
                write_int(out, *i);
            },
            Item::Bool(b) => {
                if *b {
                    out.push(TRUE);
                } else {
                    out.push(FALSE);
                }
            },
        }
        assert(final(out)@ =~= old(out)@ + enc_item(self@, nested));
    }
}

/// A decoded item as its value and the count of bytes it took.
pub open spec fn item_result_view(r: Result<(Item, usize), Error>) -> Result<(ItemView, nat), Error> {
    match r {
        Ok((x, n)) => Ok((x@, n as nat)),
        Err(e) => Err(e),
    }
}

/// Decoded items as their values and the count of bytes they took.
pub open spec fn items_result_view(r: Result<(Vec<Item>, usize), Error>) -> Result<
    (Seq<ItemView>, nat),
    Error,
> {
    match r {
        Ok((v, n)) => Ok((view_items(v@), n as nat)),
        Err(e) => Err(e),
    }
}

/// What a whole parse gives, once `d` bytes and the items `acc` are already read.
pub open spec fn after_nested(acc: Seq<ItemView>, d: nat, r: Result<(Seq<ItemView>, nat), Error>) -> Result<
    (Seq<ItemView>, nat),
    Error,
> {
    match r {
        Ok((rest, m)) => Ok((acc + rest, m + d)),
        Err(e) => Err(e),
    }
}

/// The value of a sequence grown by one item.
pub proof fn lemma_view_items_push(s: Seq<Item>, x: Item)
    ensures
        view_items(s.push(x)) == view_items(s).push(view_item(x)),
{
    lemma_view_items(s);
    lemma_view_items(s.push(x));
    assert forall|k: int| 0 <= k < s.len() + 1 implies view_items(s.push(x))[k] == view_items(
        s,
    ).push(view_item(x))[k] by {
        assert(s.push(x)[k] == if k < s.len() {
            s[k]
        } else {
            x
        });
    }
    assert(view_items(s.push(x)) =~= view_items(s).push(view_item(x)));
}

/// Relies on `std::str::from_utf8`: it accepts exactly the valid UTF-8
/// sequences and gives the text that those bytes encode.
#[verifier::external_body]
fn str_from_utf8(b: &[u8]) -> (r: Option<&str>)
    ensures
        match r {
            Some(s) => valid_utf8(b@) && s@ == decode_utf8(b@),
            None => !valid_utf8(b@),
        },
{
    match std::str::from_utf8(b) {
        Ok(s) => Some(s),
        Err(_) => None,
    }
}

/// Reads an escaped payload that starts at `pos`, up to its terminator.
fn read_escaped(buf: &[u8], pos: usize) -> (r: Option<(Vec<u8>, usize)>)
    requires
        pos <= buf@.len(),
    ensures
        match unescape(buf@.subrange(pos as int, buf@.len() as int)) {
            Some((p, n)) => match r {
                Some((q, m)) => q@ == p && m == n && m <= buf@.len() - pos,
                None => false,
            },
            None => r is None,
        },
{
    let mut out: Vec<u8> = Vec::new();
    let mut i: usize = pos;
    let ghost whole = buf@.subrange(pos as int, buf@.len() as int);
    while i < buf.len()
        invariant
            pos <= i <= buf@.len(),
            whole == buf@.subrange(pos as int, buf@.len() as int),
            unescape(whole) == match unescape(buf@.subrange(i as int, buf@.len() as int)) {
                Some((p, n)) => Some((out@ + p, n + (i - pos) as nat)),
                None => None,
            },
        decreases buf.len() - i,
    {
        let ghost b = buf@.subrange(i as int, buf@.len() as int);
        if buf[i] == 0 {
            if i + 1 < buf.len() && buf[i + 1] == ESCAPE {
                assert(b.subrange(2, b.len() as int) =~= buf@.subrange(i + 2, buf@.len() as int));
                proof {
                    match unescape(buf@.subrange(i + 2, buf@.len() as int)) {
                        Some((p, n)) => {
                            assert(out@ + (seq![0u8] + p) =~= out@.push(0) + p);
                        },
                        None => {},
                    }
                }
                out.push(0);
                i = i + 2;
            } else {
                assert(out@ + Seq::<u8>::empty() =~= out@);
                return Some((out, i + 1 - pos));
            }
        } else {
            assert(b.subrange(1, b.len() as int) =~= buf@.subrange(i + 1, buf@.len() as int));
            proof {
                match unescape(buf@.subrange(i + 1, buf@.len() as int)) {
                    Some((p, n)) => {
                        assert(out@ + (seq![buf@[i as int]] + p) =~= out@.push(buf@[i as int]) + p);
                    },
                    None => {},
                }
            }
            out.push(buf[i]);
            i = i + 1;
        }
    }
    None
}

/// Decodes the item that starts at `pos`: the item, and how many bytes it took.
pub fn decode_item(buf: &[u8], pos: usize, nested: bool) -> (r: Result<(Item, usize), Error>)
    requires
        pos <= buf@.len(),
    ensures
        item_result_view(r) == parse_item(buf@.subrange(pos as int, buf@.len() as int), nested),
        match r {
            Ok((_, n)) => 0 < n <= buf@.len() - pos,
            Err(_) => true,
        },
    decreases buf@.len() - pos, 0nat,
{
    let ghost b = buf@.subrange(pos as int, buf@.len() as int);
    if pos >= buf.len() {
        return Err(Error::EOF);
    }
    let tag = buf[pos];
    if tag == NIL {
        if nested && pos + 1 < buf.len() && buf[pos + 1] == ESCAPE {
            Ok((Item::Empty, 2))
        } else {
            Ok((Item::Empty, 1))
        }
    } else if tag == BYTES || tag == STRING {
        assert(b.subrange(1, b.len() as int) =~= buf@.subrange(pos + 1, buf@.len() as int));
        match read_escaped(buf, pos + 1) {
            None => Err(Error::EOF),
            Some((p, n)) => {
                if tag == BYTES {
                    Ok((Item::Bytes(p), n + 1))
                } else {
                    match str_from_utf8(p.as_slice()) {
                        Some(s) => Ok((Item::Str(s.to_owned()), n + 1)),
                        None => Err(Error::FromUtf8Error),
                    }
                }
            },
        }
    } else if tag == NESTED {
        assert(b.subrange(1, b.len() as int) =~= buf@.subrange(pos + 1, buf@.len() as int));
        match decode_nested(buf, pos + 1) {
            Ok((v, n)) => {
                let r = Ok((Item::Nested(v), n + 1));
                assert(item_result_view(r) == parse_item(b, nested));
                r
            },
            Err(e) => Err(e),
        }
    } else if NEG_INT_START <= tag && tag <= POS_INT_END {
        match read_int(buf, pos) {
            Ok((i, n)) => Ok((Item::Int(i), n)),
            Err(e) => Err(e),
        }
    } else if tag == FALSE {
        Ok((Item::Bool(false), 1))
    } else if tag == TRUE {
        Ok((Item::Bool(true), 1))
    } else {
        Err(Error::InvalidType { value: tag })
    }
}

/// Decodes the items of a nested tuple whose first item starts at `pos`, up
/// to and including its terminator.
pub fn decode_nested(buf: &[u8], pos: usize) -> (r: Result<(Vec<Item>, usize), Error>)
    requires
        pos <= buf@.len(),
    ensures
        items_result_view(r) == parse_nested(buf@.subrange(pos as int, buf@.len() as int)),
        match r {
            Ok((_, n)) => n <= buf@.len() - pos,
            Err(_) => true,
        },
    decreases buf@.len() - pos, 1nat,
{
    let mut items: Vec<Item> = Vec::new();
    let mut i: usize = pos;
    let ghost whole = buf@.subrange(pos as int, buf@.len() as int);
    assert(view_items(items@) =~= Seq::<ItemView>::empty());
    assert(after_nested(Seq::empty(), 0, parse_nested(whole)) =~= parse_nested(whole)) by {
        match parse_nested(whole) {
            Ok((rest, m)) => {
                assert(Seq::<ItemView>::empty() + rest =~= rest);
            },
            Err(e) => {},
        }
    }
    loop
        invariant
            pos <= i <= buf@.len(),
            whole == buf@.subrange(pos as int, buf@.len() as int),
            parse_nested(whole) == after_nested(
                view_items(items@),
                (i - pos) as nat,
                parse_nested(buf@.subrange(i as int, buf@.len() as int)),
            ),
        decreases buf@.len() - i,
    {
        let ghost b = buf@.subrange(i as int, buf@.len() as int);
        if i >= buf.len() {
            return Err(Error::EOF);
        }
        if buf[i] == 0 && !(i + 1 < buf.len() && buf[i + 1] == ESCAPE) {
            assert(at_terminator(b));
            assert(view_items(items@) + Seq::<ItemView>::empty() =~= view_items(items@));
            return Ok((items, i + 1 - pos));
        }
        match decode_item(buf, i, true) {
            Err(e) => {
                return Err(e);
            },
            Ok((x, n)) => {
                if n == 0 || n > buf.len() - i {
                    return Err(Error::InvalidData);
                }
                assert(b.subrange(n as int, b.len() as int) =~= buf@.subrange(
                    i + n,
                    buf@.len() as int,
                ));
                proof {
                    lemma_view_items_push(items@, x);
                    match parse_nested(buf@.subrange(i + n, buf@.len() as int)) {
                        Ok((rest, m)) => {
                            assert(view_items(items@) + (seq![view_item(x)] + rest) =~= view_items(
                                items@,
                            ).push(view_item(x)) + rest);
                        },
                        Err(e) => {},
                    }
                }
                items.push(x);
                i = i + n;
            },
        }
    }
}

/// The value of an item holds only integers that fit in an `i64`.
pub proof fn lemma_view_item_wf(x: Item)
    ensures
        wf_item(view_item(x)),
    decreases x, 1nat,
{
    if let Item::Nested(v) = x {
        assert(decreases_to!(x => v));
        assert(decreases_to!(v => v@));
        lemma_view_items_wf(v@);
    }
}

/// The values of a sequence of items hold only integers that fit in an `i64`.
pub proof fn lemma_view_items_wf(s: Seq<Item>)
    ensures
        wf_items(view_items(s)),
    decreases s, 0nat,
{
    lemma_view_items(s);
    assert forall|k: int| 0 <= k < view_items(s).len() implies wf_item(#[trigger] view_items(s)[k]) by {
        lemma_view_item_wf(s[k]);
    }
}

} // verus!
