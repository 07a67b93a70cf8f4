use vstd::prelude::*;
use vstd::utf8::{decode_utf8, encode_utf8, valid_utf8};
use crate::error::Error;

verus! {

/// Tag of the unit item.
pub const NIL: u8 = 0x00;
/// Tag of a byte string.
pub const BYTES: u8 = 0x01;
/// Tag of a UTF-8 text.
pub const STRING: u8 = 0x02;
/// Tag of a nested tuple.
pub const NESTED: u8 = 0x05;
/// Tag of the most negative integer width (eight magnitude bytes).
pub const NEG_INT_START: u8 = 0x0c;
/// Tag of the integer zero; other integers sit at `INT_ZERO ± width`.
pub const INT_ZERO: u8 = 0x14;
/// Tag of the widest positive integer (eight magnitude bytes).
pub const POS_INT_END: u8 = 0x1c;
/// Tag of `false`.
pub const FALSE: u8 = 0x26;
/// Tag of `true`.
pub const TRUE: u8 = 0x27;
/// Second byte of an escaped zero, and of a unit inside a nested tuple.
pub const ESCAPE: u8 = 0xff;

/// The mathematical value of one item.
pub enum ItemView {
    Empty,
    Bytes(Seq<u8>),
    Str(Seq<char>),
    Nested(Seq<ItemView>),
    Int(int),
    Bool(bool),
}

/// An item whose integers, at any depth, fit in an `i64`.
pub open spec fn wf_item(v: ItemView) -> bool
    decreases v,
{
    match v {
        ItemView::Int(i) => i64::MIN <= i <= i64::MAX,
        ItemView::Nested(t) => wf_items(t),
        _ => true,
    }
}

/// Every item of the sequence is well formed.
pub open spec fn wf_items(t: Seq<ItemView>) -> bool
    decreases t,
{
    forall|k: int| 0 <= k < t.len() ==> wf_item(#[trigger] t[k])
}

/// `256^n`.
pub open spec fn pow256(n: nat) -> nat
    decreases n,
{
    if n == 0 {
        1
    } else {
        256 * pow256((n - 1) as nat)
    }
}

/// The least number of bytes that hold the magnitude `m`.
pub open spec fn width(m: nat) -> nat
    decreases m,
{
    if m == 0 {
        0
    } else {
        1 + width(m / 256)
    }
}

/// `x` written big-endian in exactly `n` bytes (higher bytes of `x` are dropped).
pub open spec fn be_bytes(x: nat, n: nat) -> Seq<u8>
    decreases n,
{
    if n == 0 {
        Seq::empty()
    } else {
        be_bytes(x / 256, (n - 1) as nat).push((x % 256) as u8)
    }
}

/// The number that the big-endian bytes `b` stand for.
pub open spec fn be_value(b: Seq<u8>) -> nat
    decreases b.len(),
{
    if b.len() == 0 {
        0
    } else {
        be_value(b.drop_last()) * 256 + b.last() as nat
    }
}

/// The absolute value of `i`.
pub open spec fn magnitude(i: int) -> nat {
    if i < 0 {
        (-i) as nat
    } else {
        i as nat
    }
}

/// The encoding of an integer: a tag that gives sign and width, then the
/// magnitude (or its complement to `256^n - 1` when negative), big-endian.
pub open spec fn enc_int(i: int) -> Seq<u8> {
    let n = width(magnitude(i));
    if i == 0 {
        seq![INT_ZERO]
    } else if i > 0 {
        seq![(INT_ZERO + n) as u8] + be_bytes(i as nat, n)
    } else {
        seq![(INT_ZERO - n) as u8] + be_bytes((pow256(n) - 1 + i) as nat, n)
    }
}

/// The payload bytes with each zero written as `0x00 0xff`.
pub open spec fn escape(b: Seq<u8>) -> Seq<u8>
    decreases b.len(),
{
    if b.len() == 0 {
        Seq::empty()
    } else {
        let first = if b[0] == 0 {
            seq![0u8, ESCAPE]
        } else {
            seq![b[0]]
        };
        first + escape(b.subrange(1, b.len() as int))
    }
}

/// The encoding of one item. Inside a nested tuple (`nested`) the unit item
/// is written `0x00 0xff`, so that a lone `0x00` can end the nested tuple.
pub open spec fn enc_item(v: ItemView, nested: bool) -> Seq<u8>
    decreases v,
{
    match v {
        ItemView::Empty => if nested {
            seq![NIL, ESCAPE]
        } else {
            seq![NIL]
        },
        ItemView::Bytes(b) => seq![BYTES] + escape(b) + seq![0u8],
        ItemView::Str(s) => seq![STRING] + escape(encode_utf8(s)) + seq![0u8],
        ItemView::Nested(t) => seq![NESTED] + enc_items(t, true) + seq![0u8],
        ItemView::Int(i) => enc_int(i),
        ItemView::Bool(b) => if b {
            seq![TRUE]
        } else {
            seq![FALSE]
        },
    }
}

/// The items' encodings, one after the other.
pub open spec fn enc_items(t: Seq<ItemView>, nested: bool) -> Seq<u8>
    decreases t,
{
    if t.len() == 0 {
        Seq::empty()
    } else {
        enc_item(t[0], nested) + enc_items(t.subrange(1, t.len() as int), nested)
    }
}

/// Reads an escaped payload up to its terminating zero: the payload, and how
/// many bytes were read, terminator included. `None` when no terminator comes.
pub open spec fn unescape(b: Seq<u8>) -> Option<(Seq<u8>, nat)>
    decreases b.len(),
{
    if b.len() == 0 {
        None
    } else if b[0] == 0 {
        if b.len() > 1 && b[1] == ESCAPE {
            match unescape(b.subrange(2, b.len() as int)) {
                Some((p, n)) => Some((seq![0u8] + p, n + 2)),
                None => None,
            }
        } else {
            Some((Seq::empty(), 1))
        }
    } else {
        match unescape(b.subrange(1, b.len() as int)) {
            Some((p, n)) => Some((seq![b[0]] + p, n + 1)),
            None => None,
        }
    }
}

/// The tag of an integer item.
pub open spec fn is_int_tag(tag: u8) -> bool {
    NEG_INT_START <= tag <= POS_INT_END
}

/// How many magnitude bytes follow an integer tag.
pub open spec fn int_tag_width(tag: u8) -> nat {
    if tag >= INT_ZERO {
        (tag - INT_ZERO) as nat
    } else {
        (INT_ZERO - tag) as nat
    }
}

/// Decodes an integer item whose tag is `b[0]`.
pub open spec fn parse_int(b: Seq<u8>) -> Result<(ItemView, nat), Error> {
    let tag = b[0];
    let n = int_tag_width(tag);
    if b.len() < 1 + n {
        Err(Error::EOF)
    } else {
        let m = be_value(b.subrange(1, 1 + n as int));
        let v: int = if tag >= INT_ZERO {
            m as int
        } else {
            m - (pow256(n) - 1)
        };
        if i64::MIN <= v <= i64::MAX {
            Ok((ItemView::Int(v), 1 + n))
        } else {
            Err(Error::InvalidData)
        }
    }
}

/// Decodes the item at the start of `b`: the item, and how many bytes it took.
pub open spec fn parse_item(b: Seq<u8>, nested: bool) -> Result<(ItemView, nat), Error>
    decreases b.len(), 0nat,
{
    if b.len() == 0 {
        Err(Error::EOF)
    } else {
        let tag = b[0];
        if tag == NIL {
            if nested && b.len() > 1 && b[1] == ESCAPE {
                Ok((ItemView::Empty, 2))
            } else {
                Ok((ItemView::Empty, 1))
            }
        } else if tag == BYTES || tag == STRING {
            match unescape(b.subrange(1, b.len() as int)) {
                None => Err(Error::EOF),
                Some((p, n)) => if tag == BYTES {
                    Ok((ItemView::Bytes(p), n + 1))
                } else if valid_utf8(p) {
                    Ok((ItemView::Str(decode_utf8(p)), n + 1))
                } else {
                    Err(Error::FromUtf8Error)
                },
            }
        } else if tag == NESTED {
            match parse_nested(b.subrange(1, b.len() as int)) {
                Ok((t, n)) => Ok((ItemView::Nested(t), n + 1)),
                Err(e) => Err(e),
            }
        } else if is_int_tag(tag) {
            parse_int(b)
        } else if tag == FALSE {
            Ok((ItemView::Bool(false), 1))
        } else if tag == TRUE {
            Ok((ItemView::Bool(true), 1))
        } else {
            Err(Error::InvalidType { value: tag })
        }
    }
}

/// A lone zero (not followed by `0xff`) at the start of `b`: the end of a
/// nested tuple.
pub open spec fn at_terminator(b: Seq<u8>) -> bool {
    b.len() > 0 && b[0] == 0 && !(b.len() > 1 && b[1] == ESCAPE)
}

/// Decodes the items of a nested tuple up to its terminator: the items, and
/// how many bytes were read, terminator included.
pub open spec fn parse_nested(b: Seq<u8>) -> Result<(Seq<ItemView>, nat), Error>
    decreases b.len(), 1nat,
{
    if b.len() == 0 {
        Err(Error::EOF)
    } else if at_terminator(b) {
        Ok((Seq::empty(), 1))
    } else {
        match parse_item(b, true) {
            Err(e) => Err(e),
            Ok((x, n)) => if 0 < n <= b.len() {
                match parse_nested(b.subrange(n as int, b.len() as int)) {
                    Err(e) => Err(e),
                    Ok((rest, m)) => Ok((seq![x] + rest, n + m)),
                }
            } else {
                Err(Error::InvalidData)
            },
        }
    }
}

/// Decodes a whole buffer as a tuple: items one after another up to its end.
pub open spec fn parse_tuple(b: Seq<u8>) -> Result<Seq<ItemView>, Error>
    decreases b.len(),
{
    if b.len() == 0 {
        Ok(Seq::empty())
    } else {
        match parse_item(b, false) {
            Err(e) => Err(e),
            Ok((x, n)) => if 0 < n <= b.len() {
                match parse_tuple(b.subrange(n as int, b.len() as int)) {
                    Err(e) => Err(e),
                    Ok(rest) => Ok(seq![x] + rest),
                }
            } else {
                Err(Error::InvalidData)
            },
        }
    }
}

/// Escaping works byte by byte.
pub proof fn lemma_escape_concat(a: Seq<u8>, b: Seq<u8>)
    ensures
        escape(a + b) == escape(a) + escape(b),
    decreases a.len(),
{
    if a.len() == 0 {
        assert(a + b =~= b);
    } else {
        let rest = a.subrange(1, a.len() as int);
        lemma_escape_concat(rest, b);
        assert((a + b).subrange(1, (a + b).len() as int) =~= rest + b);
        let first = if a[0] == 0 {
            seq![0u8, ESCAPE]
        } else {
            seq![a[0]]
        };
        assert(escape(a + b) == first + escape(rest + b));
        assert(escape(a) == first + escape(rest));
        assert(first + (escape(rest) + escape(b)) =~= (first + escape(rest)) + escape(b));
    }
}

/// A sequence's encoding is that of its first part, then that of the rest.
pub proof fn lemma_enc_items_concat(a: Seq<ItemView>, b: Seq<ItemView>, nested: bool)
    ensures
        enc_items(a + b, nested) == enc_items(a, nested) + enc_items(b, nested),
    decreases a.len(),
{
    if a.len() == 0 {
        assert(a + b =~= b);
        assert(enc_items(a, nested) + enc_items(b, nested) =~= enc_items(b, nested));
    } else {
        let rest = a.subrange(1, a.len() as int);
        lemma_enc_items_concat(rest, b, nested);
        assert((a + b).subrange(1, (a + b).len() as int) =~= rest + b);
        assert((a + b)[0] == a[0]);
        let e0 = enc_item(a[0], nested);
        assert(e0 + (enc_items(rest, nested) + enc_items(b, nested)) =~= (e0 + enc_items(
            rest,
            nested,
        )) + enc_items(b, nested));
    }
}

/// The encoding of a one-item sequence is that item's encoding.
pub proof fn lemma_enc_items_single(x: ItemView, nested: bool)
    ensures
        enc_items(seq![x], nested) == enc_item(x, nested),
{
    let t = seq![x];
    assert(t.subrange(1, 1) =~= Seq::<ItemView>::empty());
    assert(enc_items(Seq::<ItemView>::empty(), nested) == Seq::<u8>::empty());
    assert(t[0] == x);
    assert(enc_items(t, nested) == enc_item(x, nested) + enc_items(t.subrange(1, 1), nested));
    assert(enc_items(t, nested) =~= enc_item(x, nested));
}

/// The escaping of a single byte.
pub proof fn lemma_escape_single(x: u8)
    ensures
        escape(seq![x]) == (if x == 0 {
            seq![0u8, ESCAPE]
        } else {
            seq![x]
        }),
{
    let b = seq![x];
    assert(b.subrange(1, 1) =~= Seq::<u8>::empty());
    assert(escape(Seq::<u8>::empty()) == Seq::<u8>::empty());
    assert(escape(b) =~= (if x == 0 {
        seq![0u8, ESCAPE]
    } else {
        seq![x]
    }));
}

} // verus!
