use vstd::prelude::*;
use crate::error::Error;
use crate::integer::write_int;
use crate::item::{lemma_view_item_wf, decode_item, write_payload, Item};
use crate::spec::{wf_item, enc_item, parse_item, ItemView, BYTES, FALSE, NIL, STRING, TRUE};

verus! {

/// A native type that stands for one kind of item, and so can be a field of a
/// fixed-size tuple.
pub trait Field: Sized {
    /// The item that this value stands for.
    spec fn field_view(&self) -> ItemView;

    /// The items that this type can hold.
    spec fn accepts(v: ItemView) -> bool;

    /// Every value stands for an item of its own kind, with integers that fit
    /// in an `i64`.
    proof fn lemma_field_view(&self)
        ensures
            Self::accepts(self.field_view()),
            wf_item(self.field_view()),
    ;

    /// Appends the encoding of this value as a top-level item.
    fn encode_field(&self, out: &mut Vec<u8>)
        ensures
            final(out)@ == old(out)@ + enc_item(self.field_view(), false),
    ;

    /// Takes the value out of an item of the kind this type holds.
    fn from_item(x: Item) -> (r: Option<Self>)
        ensures
            Self::accepts(x@) <==> r is Some,
            match r {
                Some(y) => y.field_view() == x@,
                None => true,
            },
    ;
}

/// Decodes the item at the start of `b` as a field of type `T`: the item, and
/// how many bytes it took. An item of another kind is refused with its tag.
pub open spec fn parse_field<T: Field>(b: Seq<u8>) -> Result<(ItemView, nat), Error> {
    match parse_item(b, false) {
        Ok((v, n)) => if T::accepts(v) {
            Ok((v, n))
        } else {
            Err(Error::InvalidType { value: b[0] })
        },
        Err(e) => Err(e),
    }
}

/// Decodes the item that starts at `pos` as a field of type `T`.
pub fn decode_field<T: Field>(buf: &[u8], pos: usize) -> (r: Result<(T, usize), Error>)
    requires
        pos <= buf@.len(),
    ensures
        match parse_field::<T>(buf@.subrange(pos as int, buf@.len() as int)) {
            Ok((v, n)) => match r {
                Ok((x, m)) => x.field_view() == v && m == n && 0 < m <= buf@.len() - pos,
                Err(_) => false,
            },
            Err(e) => r == Err::<(T, usize), Error>(e),
        },
        match r {
            Ok((_, m)) => 0 < m <= buf@.len() - pos,
            Err(_) => true,
        },
{
    match decode_item(buf, pos, false) {
        Ok((x, n)) => {
            let tag = buf[pos];
            match T::from_item(x) {
                Some(y) => Ok((y, n)),
                None => Err(Error::InvalidType { value: tag }),
            }
        },
        Err(e) => Err(e),
    }
}

impl Field for i64 {
    open spec fn field_view(&self) -> ItemView {
        ItemView::Int(*self as int)
    }

    open spec fn accepts(v: ItemView) -> bool {
        v is Int
    }

    proof fn lemma_field_view(&self) {
    }

    fn encode_field(&self, out: &mut Vec<u8>) {
        write_int(out, *self);
    }

    fn from_item(x: Item) -> (r: Option<Self>) {
        match x {
            Item::Int(i) => Some(i),
            _ => None,
        }
    }
}

impl Field for bool {
    open spec fn field_view(&self) -> ItemView {
        ItemView::Bool(*self)
    }

    open spec fn accepts(v: ItemView) -> bool {
        v is Bool
    }

    proof fn lemma_field_view(&self) {
    }

    fn encode_field(&self, out: &mut Vec<u8>) {
        if *self {
            out.push(TRUE);
        } else {
            out.push(FALSE);
        }
        assert(final(out)@ =~= old(out)@ + enc_item(self.field_view(), false));
    }

    fn from_item(x: Item) -> (r: Option<Self>) {
        match x {
            Item::Bool(b) => Some(b),
            _ => None,
        }
    }
}

impl Field for () {
    open spec fn field_view(&self) -> ItemView {
        ItemView::Empty
    }

    open spec fn accepts(v: ItemView) -> bool {
        v is Empty
    }

    proof fn lemma_field_view(&self) {
    }

    fn encode_field(&self, out: &mut Vec<u8>) {
        out.push(NIL);
        assert(final(out)@ =~= old(out)@ + enc_item(self.field_view(), false));
    }

    fn from_item(x: Item) -> (r: Option<Self>) {
        match x {
            Item::Empty => Some(()),
            _ => None,
        }
    }
}

impl Field for String {
    open spec fn field_view(&self) -> ItemView {
        ItemView::Str(self@)
    }

    open spec fn accepts(v: ItemView) -> bool {
        v is Str
    }

    proof fn lemma_field_view(&self) {
    }

    fn encode_field(&self, out: &mut Vec<u8>) {
        write_payload(out, STRING, self.as_str().as_bytes());
    }

    fn from_item(x: Item) -> (r: Option<Self>) {
        match x {
            Item::Str(s) => Some(s),
            _ => None,
        }
    }
}

impl Field for Vec<u8> {
    open spec fn field_view(&self) -> ItemView {
        ItemView::Bytes(self@)
    }

    open spec fn accepts(v: ItemView) -> bool {
        v is Bytes
    }

    proof fn lemma_field_view(&self) {
    }

    fn encode_field(&self, out: &mut Vec<u8>) {
        write_payload(out, BYTES, self.as_slice());
    }

    fn from_item(x: Item) -> (r: Option<Self>) {
        match x {
            Item::Bytes(b) => Some(b),
            _ => None,
        }
    }
}

impl Field for Item {
    open spec fn field_view(&self) -> ItemView {
        self@
    }

    open spec fn accepts(v: ItemView) -> bool {
        true
    }

    proof fn lemma_field_view(&self) {
        lemma_view_item_wf(*self);
    }

    fn encode_field(&self, out: &mut Vec<u8>) {
        self.encode_into(out, false);
    }

    fn from_item(x: Item) -> (r: Option<Self>) {
        Some(x)
    }
}

} // verus!
