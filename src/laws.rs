use vstd::prelude::*;
use crate::error::Error;
use crate::integer::lemma_width_bounds;
use crate::item::{lemma_view_item_wf, lemma_view_items_wf, Item};
use crate::order::{bytes_lt, lemma_order_preserved, tuple_lt};
use crate::round_trip::{lemma_enc_int_shape, lemma_parse_enc_int, lemma_parse_enc_item, lemma_parse_enc_tuple};
use crate::spec::{
    enc_int, enc_item, magnitude, parse_item, parse_tuple, pow256, width, ItemView, INT_ZERO,
};
use crate::tuple::{Encode, Value};

verus! {

/// Round trip of tuples: decoding the encoding of a tuple gives back its items.
pub proof fn tuple_round_trip(v: &Value)
    ensures
        parse_tuple(v.encoding()) == Ok::<Seq<ItemView>, Error>(v@),
{
    lemma_view_items_wf(v.0@);
    lemma_parse_enc_tuple(v@);
}

/// Round trip of items: decoding the encoding of an item, followed by nothing,
/// gives back the item and the whole length.
pub proof fn item_round_trip(x: &Item, nested: bool)
    ensures
        parse_item(enc_item(x@, nested), nested) == Ok::<(ItemView, nat), Error>(
            (x@, enc_item(x@, nested).len()),
        ),
{
    lemma_view_item_wf(*x);
    lemma_parse_enc_item(x@, nested, Seq::empty());
    assert(enc_item(x@, nested) + Seq::<u8>::empty() =~= enc_item(x@, nested));
}

/// Order preservation: one tuple's encoding sorts byte-wise before another's
/// exactly when the first tuple sorts before the second.
pub proof fn order_preserved(a: &Value, b: &Value)
    ensures
        bytes_lt(a.encoding(), b.encoding()) <==> tuple_lt(a@, b@),
{
    lemma_view_items_wf(a.0@);
    lemma_view_items_wf(b.0@);
    lemma_order_preserved(a@, b@);
}

/// Minimal integer width: an integer's encoding carries exactly as many
/// magnitude bytes as its magnitude needs, and not one more.
pub proof fn int_width_minimal(i: i64)
    ensures
        enc_int(i as int).len() == 1 + width(magnitude(i as int)),
        magnitude(i as int) < pow256(width(magnitude(i as int))),
        i != 0 ==> pow256((width(magnitude(i as int)) - 1) as nat) <= magnitude(i as int),
{
    lemma_enc_int_shape(i as int);
    lemma_width_bounds(magnitude(i as int));
}

/// Distinct integers never share an encoding.
pub proof fn int_encoding_injective(i: i64, j: i64)
    ensures
        enc_int(i as int) == enc_int(j as int) ==> i == j,
{
    lemma_parse_enc_int(i as int, Seq::empty());
    lemma_parse_enc_int(j as int, Seq::empty());
}

/// Truncation: after the tag of a two-byte positive integer, fewer than two
/// bytes is the end of input; two bytes or more decode.
pub proof fn two_byte_int_truncation(b: Seq<u8>, nested: bool)
    requires
        b.len() >= 1,
        b[0] == INT_ZERO + 2,
    ensures
        b.len() < 3 ==> parse_item(b, nested) == Err::<(ItemView, nat), Error>(Error::EOF),
        b.len() >= 3 ==> parse_item(b, nested) is Ok,
{
    if b.len() >= 3 {
        crate::integer::lemma_be_value_bound(b.subrange(1, 3));
        reveal_with_fuel(pow256, 3);
    }
}

} // verus!
