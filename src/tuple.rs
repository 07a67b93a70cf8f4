use vstd::prelude::*;
use crate::error::Error;
use crate::field::{decode_field, parse_field, Field};
use crate::item::{decode_item, view_item, view_items, lemma_view_items_push, Item};
use crate::round_trip::{lemma_first_byte, lemma_parse_enc_item};
use crate::spec::{enc_item, enc_items, lemma_enc_items_concat, lemma_enc_items_single, parse_tuple, ItemView};

verus! {

/// A value that has a tuple encoding.
pub trait Encode {
    /// The bytes that encode this value.
    spec fn encoding(&self) -> Seq<u8>;

    /// Appends the encoding of this value.
    fn encode(&self, out: &mut Vec<u8>)
        ensures
            final(out)@ == old(out)@ + self.encoding(),
    ;

    /// The encoding of this value in a new vector.
    fn encode_to_vec(&self) -> (r: Vec<u8>)
        ensures
            r@ == self.encoding(),
    {
        let mut v: Vec<u8> = Vec::new();
        self.encode(&mut v);
        assert(v@ =~= self.encoding());
        v
    }
}

/// A value that can be read back from a whole tuple encoding.
pub trait Decode: Sized {
    /// Whether `r` is what decoding the buffer `b` gives.
    spec fn decodes_to(b: Seq<u8>, r: Result<Self, Error>) -> bool;

    /// Decodes the whole buffer.
    fn decode(buf: &[u8]) -> (r: Result<Self, Error>)
        ensures
            Self::decodes_to(buf@, r),
    ;
}

/// A tuple of a fixed number of fields, each of a native type.
pub trait FixedTuple: Encode + Decode {
    /// Each field of `self` has the value of the same field of `other`.
    spec fn same_fields(&self, other: &Self) -> bool;

    /// Round trip: decoding the encoding of a fixed tuple succeeds, with the
    /// same value in each field.
    proof fn lemma_round_trip(&self)
        ensures
            forall|r: Result<Self, Error>| #[trigger]
                Self::decodes_to(self.encoding(), r) ==> (r matches Ok(y) && self.same_fields(&y)),
    ;
}

/// One field of a fixed tuple decodes from where its encoding starts, and
/// leaves what follows it.
pub proof fn lemma_field_step<T: Field>(x: &T, b: Seq<u8>, p: int, rest: Seq<u8>)
    requires
        0 <= p <= b.len(),
        b.subrange(p, b.len() as int) == enc_item(x.field_view(), false) + rest,
        rest.len() == 0 || rest[0] != crate::spec::ESCAPE,
    ensures
        parse_field::<T>(b.subrange(p, b.len() as int)) == Ok::<(ItemView, nat), Error>(
            (x.field_view(), enc_item(x.field_view(), false).len()),
        ),
        b.subrange(p + enc_item(x.field_view(), false).len(), b.len() as int) == rest,
{
    let e = enc_item(x.field_view(), false);
    x.lemma_field_view();
    lemma_parse_enc_item(x.field_view(), false, rest);
    assert(b.subrange(p + e.len(), b.len() as int) =~= b.subrange(p, b.len() as int).subrange(
        e.len() as int,
        (e + rest).len() as int,
    ));
    assert((e + rest).subrange(e.len() as int, (e + rest).len() as int) =~= rest);
}

/// A tuple of any length, of items of any kind.
#[derive(Debug)]
pub struct Value(pub Vec<Item>);

impl View for Value {
    type V = Seq<ItemView>;

    open spec fn view(&self) -> Seq<ItemView> {
        view_items(self.0@)
    }
}

impl Encode for Value {
    open spec fn encoding(&self) -> Seq<u8> {
        enc_items(self@, false)
    }

    fn encode(&self, out: &mut Vec<u8>) {
        let v = &self.0;
        let ghost t = self@;
        proof {
            crate::item::lemma_view_items(v@);
        }
        let mut k: usize = 0;
        while k < v.len()
            invariant
                k <= v@.len(),
                t == view_items(v@),
                t.len() == v@.len(),
                forall|j: int| 0 <= j < v@.len() ==> t[j] == view_item(#[trigger] v@[j]),
                out@ == old(out)@ + enc_items(t.subrange(0, k as int), false),
            decreases v.len() - k,
        {
            v[k].encode_into(out, false);
            proof {
                assert(t.subrange(0, k + 1) =~= t.subrange(0, k as int) + seq![t[k as int]]);
                lemma_enc_items_concat(t.subrange(0, k as int), seq![t[k as int]], false);
                lemma_enc_items_single(t[k as int], false);
            }
            k = k + 1;
            assert(out@ =~= old(out)@ + enc_items(t.subrange(0, k as int), false));
        }
        assert(t.subrange(0, v@.len() as int) =~= t);
    }
}

/// What a whole parse gives, once the items `acc` are already read.
pub open spec fn after_items(acc: Seq<ItemView>, r: Result<Seq<ItemView>, Error>) -> Result<Seq<ItemView>, Error> {
    match r {
        Ok(rest) => Ok(acc + rest),
        Err(e) => Err(e),
    }
}

impl Decode for Value {
    open spec fn decodes_to(b: Seq<u8>, r: Result<Self, Error>) -> bool {
        match parse_tuple(b) {
            Ok(t) => match r {
                Ok(v) => v@ == t,
                Err(_) => false,
            },
            Err(e) => r == Err::<Self, Error>(e),
        }
    }

    fn decode(buf: &[u8]) -> (r: Result<Self, Error>) {
        let mut items: Vec<Item> = Vec::new();
        let mut i: usize = 0;
        assert(buf@.subrange(0, buf@.len() as int) =~= buf@);
        assert(view_items(items@) =~= Seq::<ItemView>::empty());
        assert(after_items(Seq::empty(), parse_tuple(buf@)) =~= parse_tuple(buf@)) by {
            match parse_tuple(buf@) {
                Ok(rest) => {
                    assert(Seq::<ItemView>::empty() + rest =~= rest);
                },
                Err(e) => {},
            }
        }
        while i < buf.len()
            invariant
                i <= buf@.len(),
                parse_tuple(buf@) == after_items(
                    view_items(items@),
                    parse_tuple(buf@.subrange(i as int, buf@.len() as int)),
                ),
            decreases buf@.len() - i,
        {
            let ghost b = buf@.subrange(i as int, buf@.len() as int);
            match decode_item(buf, i, false) {
                Err(e) => {
                    return Err(e);
                },
                Ok((x, n)) => {
                    assert(b.subrange(n as int, b.len() as int) =~= buf@.subrange(
                        i + n,
                        buf@.len() as int,
                    ));
                    proof {
                        lemma_view_items_push(items@, x);
                        match parse_tuple(buf@.subrange(i + n, buf@.len() as int)) {
                            Ok(rest) => {
                                assert(view_items(items@) + (seq![view_item(x)] + rest)
                                    =~= view_items(items@).push(view_item(x)) + rest);
                            },
                            Err(e) => {},
                        }
                    }
                    items.push(x);
                    i = i + n;
                },
            }
        }
        assert(buf@.subrange(i as int, buf@.len() as int) =~= Seq::<u8>::empty());
        assert(view_items(items@) + Seq::<ItemView>::empty() =~= view_items(items@));
        Ok(Value(items))
    }
}

impl<T0: Field> Encode for (T0,) {
    open spec fn encoding(&self) -> Seq<u8> {
        enc_items(seq![self.0.field_view()], false)
    }

    fn encode(&self, out: &mut Vec<u8>) {
        let ghost t = seq![self.0.field_view()];
        assert(t.take(0) =~= Seq::<ItemView>::empty());
        assert(old(out)@ + enc_items(t.take(0), false) =~= old(out)@);
        self.0.encode_field(out);
        proof {
            assert(t.take(1) =~= t.take(0) + seq![t[0]]);
            lemma_enc_items_concat(t.take(0), seq![t[0]], false);
            lemma_enc_items_single(t[0], false);
        }
        assert(out@ =~= old(out)@ + enc_items(t.take(1), false));
        assert(t.take(1) =~= t);
    }
}

impl<T0: Field> Decode for (T0,) {
    open spec fn decodes_to(b: Seq<u8>, r: Result<Self, Error>) -> bool {
        match parse_field::<T0>(b.subrange(0, b.len() as int)) {
            Err(e) => r == Err::<Self, Error>(e),
            Ok((v0, n0)) => if n0 as int == b.len() {
                match r {
                    Ok(x) => x.0.field_view() == v0,
                    Err(_) => false,
                }
            } else {
                r == Err::<Self, Error>(Error::InvalidData)
            },
        }
    }

    fn decode(buf: &[u8]) -> (r: Result<Self, Error>) {
        let len: usize = buf.len();
        let p0: usize = 0;
        assert(buf@.subrange(0, buf@.len() as int) =~= buf@);
        let (f0, n0) = match decode_field::<T0>(buf, p0) {
            Ok((f, n)) => (f, n),
            Err(e) => {
                return Err(e);
            },
        };
        let p1: usize = p0 + n0;
        if p1 != len {
            return Err(Error::InvalidData);
        }
        Ok((f0,))
    }
}

impl<T0: Field> FixedTuple for (T0,) {
    open spec fn same_fields(&self, other: &Self) -> bool {
        self.0.field_view() == other.0.field_view()
    }

    proof fn lemma_round_trip(&self) {
        let t = seq![self.0.field_view()];
        let b = self.encoding();
        assert(t.skip(1) =~= Seq::<ItemView>::empty());
        assert(t.take(0) =~= Seq::<ItemView>::empty());
        assert(b.subrange(0, b.len() as int) == enc_items(t.skip(0), false)) by {
            assert(b.subrange(0, b.len() as int) =~= b);
            assert(t.skip(0) =~= t);
        }
        assert(parse_field::<T0>(b.subrange(0, b.len() as int)) == Ok::<(ItemView, nat), Error>(
            (self.0.field_view(), enc_item(self.0.field_view(), false).len()),
        ) && b.subrange(enc_item(self.0.field_view(), false).len() as int, b.len() as int) == enc_items(t.skip(1), false)) by {
            assert(t[0] == self.0.field_view());
            assert(t.skip(0)[0] == t[0]);
            assert(t.skip(0).subrange(1, t.skip(0).len() as int) =~= t.skip(1));
            self.0.lemma_field_view();
            lemma_field_step(&self.0, b, 0, enc_items(t.skip(1), false));
        }
    }
}

impl<T0: Field, T1: Field> Encode for (T0, T1) {
    open spec fn encoding(&self) -> Seq<u8> {
        enc_items(seq![self.0.field_view(), self.1.field_view()], false)
    }

    fn encode(&self, out: &mut Vec<u8>) {
        let ghost t = seq![self.0.field_view(), self.1.field_view()];
        assert(t.take(0) =~= Seq::<ItemView>::empty());
        assert(old(out)@ + enc_items(t.take(0), false) =~= old(out)@);
        self.0.encode_field(out);
        proof {
            assert(t.take(1) =~= t.take(0) + seq![t[0]]);
            lemma_enc_items_concat(t.take(0), seq![t[0]], false);
            lemma_enc_items_single(t[0], false);
        }
        assert(out@ =~= old(out)@ + enc_items(t.take(1), false));
        self.1.encode_field(out);
        proof {
            assert(t.take(2) =~= t.take(1) + seq![t[1]]);
            lemma_enc_items_concat(t.take(1), seq![t[1]], false);
            lemma_enc_items_single(t[1], false);
        }
        assert(out@ =~= old(out)@ + enc_items(t.take(2), false));
        assert(t.take(2) =~= t);
    }
}

impl<T0: Field, T1: Field> Decode for (T0, T1) {
    open spec fn decodes_to(b: Seq<u8>, r: Result<Self, Error>) -> bool {
        match parse_field::<T0>(b.subrange(0, b.len() as int)) {
            Err(e) => r == Err::<Self, Error>(e),
            Ok((v0, n0)) => 
                match parse_field::<T1>(b.subrange(n0 as int, b.len() as int)) {
                    Err(e) => r == Err::<Self, Error>(e),
                    Ok((v1, n1)) => if n0 as int + n1 as int == b.len() {
                        match r {
                            Ok(x) => x.0.field_view() == v0
                                && x.1.field_view() == v1,
                            Err(_) => false,
                        }
                    } else {
                        r == Err::<Self, Error>(Error::InvalidData)
                    },
                },
        }
    }

    fn decode(buf: &[u8]) -> (r: Result<Self, Error>) {
        let len: usize = buf.len();
        let p0: usize = 0;
        assert(buf@.subrange(0, buf@.len() as int) =~= buf@);
        let (f0, n0) = match decode_field::<T0>(buf, p0) {
            Ok((f, n)) => (f, n),
            Err(e) => {
                return Err(e);
            },
        };
        let p1: usize = p0 + n0;
        let (f1, n1) = match decode_field::<T1>(buf, p1) {
            Ok((f, n)) => (f, n),
            Err(e) => {
                return Err(e);
            },
        };
        let p2: usize = p1 + n1;
        if p2 != len {
            return Err(Error::InvalidData);
        }
        Ok((f0, f1))
    }
}

impl<T0: Field, T1: Field> FixedTuple for (T0, T1) {
    open spec fn same_fields(&self, other: &Self) -> bool {
        self.0.field_view() == other.0.field_view()
            && self.1.field_view() == other.1.field_view()
    }

    proof fn lemma_round_trip(&self) {
        let t = seq![self.0.field_view(), self.1.field_view()];
        let b = self.encoding();
        assert(t.skip(2) =~= Seq::<ItemView>::empty());
        assert(t.take(0) =~= Seq::<ItemView>::empty());
        assert(b.subrange(0, b.len() as int) == enc_items(t.skip(0), false)) by {
            assert(b.subrange(0, b.len() as int) =~= b);
            assert(t.skip(0) =~= t);
        }
        assert(parse_field::<T0>(b.subrange(0, b.len() as int)) == Ok::<(ItemView, nat), Error>(
            (self.0.field_view(), enc_item(self.0.field_view(), false).len()),
        ) && b.subrange(enc_item(self.0.field_view(), false).len() as int, b.len() as int) == enc_items(t.skip(1), false)) by {
            assert(t[0] == self.0.field_view());
            assert(t.skip(0)[0] == t[0]);
            assert(t.skip(0).subrange(1, t.skip(0).len() as int) =~= t.skip(1));
            self.0.lemma_field_view();
            assert(t.skip(1)[0] == self.1.field_view());
            self.1.lemma_field_view();
            lemma_first_byte(self.1.field_view(), false);
            lemma_field_step(&self.0, b, 0, enc_items(t.skip(1), false));
        }
        assert(parse_field::<T1>(b.subrange(enc_item(self.0.field_view(), false).len() as int, b.len() as int)) == Ok::<(ItemView, nat), Error>(
            (self.1.field_view(), enc_item(self.1.field_view(), false).len()),
        ) && b.subrange(enc_item(self.0.field_view(), false).len() as int + enc_item(self.1.field_view(), false).len() as int, b.len() as int) == enc_items(t.skip(2), false)) by {
            assert(t[1] == self.1.field_view());
            assert(t.skip(1)[0] == t[1]);
            assert(t.skip(1).subrange(1, t.skip(1).len() as int) =~= t.skip(2));
            self.1.lemma_field_view();
            lemma_field_step(&self.1, b, enc_item(self.0.field_view(), false).len() as int, enc_items(t.skip(2), false));
        }
    }
}

impl<T0: Field, T1: Field, T2: Field> Encode for (T0, T1, T2) {
    open spec fn encoding(&self) -> Seq<u8> {
        enc_items(seq![self.0.field_view(), self.1.field_view(), self.2.field_view()], false)
    }

    fn encode(&self, out: &mut Vec<u8>) {
        let ghost t = seq![self.0.field_view(), self.1.field_view(), self.2.field_view()];
        assert(t.take(0) =~= Seq::<ItemView>::empty());
        assert(old(out)@ + enc_items(t.take(0), false) =~= old(out)@);
        self.0.encode_field(out);
        proof {
            assert(t.take(1) =~= t.take(0) + seq![t[0]]);
            lemma_enc_items_concat(t.take(0), seq![t[0]], false);
            lemma_enc_items_single(t[0], false);
        }
        assert(out@ =~= old(out)@ + enc_items(t.take(1), false));
        self.1.encode_field(out);
        proof {
            assert(t.take(2) =~= t.take(1) + seq![t[1]]);
            lemma_enc_items_concat(t.take(1), seq![t[1]], false);
            lemma_enc_items_single(t[1], false);
        }
        assert(out@ =~= old(out)@ + enc_items(t.take(2), false));
        self.2.encode_field(out);
        proof {
            assert(t.take(3) =~= t.take(2) + seq![t[2]]);
            lemma_enc_items_concat(t.take(2), seq![t[2]], false);
            lemma_enc_items_single(t[2], false);
        }
        assert(out@ =~= old(out)@ + enc_items(t.take(3), false));
        assert(t.take(3) =~= t);
    }
}

impl<T0: Field, T1: Field, T2: Field> Decode for (T0, T1, T2) {
    open spec fn decodes_to(b: Seq<u8>, r: Result<Self, Error>) -> bool {
        match parse_field::<T0>(b.subrange(0, b.len() as int)) {
            Err(e) => r == Err::<Self, Error>(e),
            Ok((v0, n0)) => 
                match parse_field::<T1>(b.subrange(n0 as int, b.len() as int)) {
                    Err(e) => r == Err::<Self, Error>(e),
                    Ok((v1, n1)) => 
                        match parse_field::<T2>(b.subrange(n0 as int + n1 as int, b.len() as int)) {
                            Err(e) => r == Err::<Self, Error>(e),
                            Ok((v2, n2)) => if n0 as int + n1 as int + n2 as int == b.len() {
                                match r {
                                    Ok(x) => x.0.field_view() == v0
                                        && x.1.field_view() == v1
                                        && x.2.field_view() == v2,
                                    Err(_) => false,
                                }
                            } else {
                                r == Err::<Self, Error>(Error::InvalidData)
                            },
                        },
                },
        }
    }

    fn decode(buf: &[u8]) -> (r: Result<Self, Error>) {
        let len: usize = buf.len();
        let p0: usize = 0;
        assert(buf@.subrange(0, buf@.len() as int) =~= buf@);
        let (f0, n0) = match decode_field::<T0>(buf, p0) {
            Ok((f, n)) => (f, n),
            Err(e) => {
                return Err(e);
            },
        };
        let p1: usize = p0 + n0;
        let (f1, n1) = match decode_field::<T1>(buf, p1) {
            Ok((f, n)) => (f, n),
            Err(e) => {
                return Err(e);
            },
        };
        let p2: usize = p1 + n1;
        let (f2, n2) = match decode_field::<T2>(buf, p2) {
            Ok((f, n)) => (f, n),
            Err(e) => {
                return Err(e);
            },
        };
        let p3: usize = p2 + n2;
        if p3 != len {
            return Err(Error::InvalidData);
        }
        Ok((f0, f1, f2))
    }
}

impl<T0: Field, T1: Field, T2: Field> FixedTuple for (T0, T1, T2) {
    open spec fn same_fields(&self, other: &Self) -> bool {
        self.0.field_view() == other.0.field_view()
            && self.1.field_view() == other.1.field_view()
            && self.2.field_view() == other.2.field_view()
    }

    proof fn lemma_round_trip(&self) {
        let t = seq![self.0.field_view(), self.1.field_view(), self.2.field_view()];
        let b = self.encoding();
        assert(t.skip(3) =~= Seq::<ItemView>::empty());
        assert(t.take(0) =~= Seq::<ItemView>::empty());
        assert(b.subrange(0, b.len() as int) == enc_items(t.skip(0), false)) by {
            assert(b.subrange(0, b.len() as int) =~= b);
            assert(t.skip(0) =~= t);
        }
        assert(parse_field::<T0>(b.subrange(0, b.len() as int)) == Ok::<(ItemView, nat), Error>(
            (self.0.field_view(), enc_item(self.0.field_view(), false).len()),
        ) && b.subrange(enc_item(self.0.field_view(), false).len() as int, b.len() as int) == enc_items(t.skip(1), false)) by {
            assert(t[0] == self.0.field_view());
            assert(t.skip(0)[0] == t[0]);
            assert(t.skip(0).subrange(1, t.skip(0).len() as int) =~= t.skip(1));
            self.0.lemma_field_view();
            assert(t.skip(1)[0] == self.1.field_view());
            self.1.lemma_field_view();
            lemma_first_byte(self.1.field_view(), false);
            lemma_field_step(&self.0, b, 0, enc_items(t.skip(1), false));
        }
        assert(parse_field::<T1>(b.subrange(enc_item(self.0.field_view(), false).len() as int, b.len() as int)) == Ok::<(ItemView, nat), Error>(
            (self.1.field_view(), enc_item(self.1.field_view(), false).len()),
        ) && b.subrange(enc_item(self.0.field_view(), false).len() as int + enc_item(self.1.field_view(), false).len() as int, b.len() as int) == enc_items(t.skip(2), false)) by {
            assert(t[1] == self.1.field_view());
            assert(t.skip(1)[0] == t[1]);
            assert(t.skip(1).subrange(1, t.skip(1).len() as int) =~= t.skip(2));
            self.1.lemma_field_view();
            assert(t.skip(2)[0] == self.2.field_view());
            self.2.lemma_field_view();
            lemma_first_byte(self.2.field_view(), false);
            lemma_field_step(&self.1, b, enc_item(self.0.field_view(), false).len() as int, enc_items(t.skip(2), false));
        }
        assert(parse_field::<T2>(b.subrange(enc_item(self.0.field_view(), false).len() as int + enc_item(self.1.field_view(), false).len() as int, b.len() as int)) == Ok::<(ItemView, nat), Error>(
            (self.2.field_view(), enc_item(self.2.field_view(), false).len()),
        ) && b.subrange(enc_item(self.0.field_view(), false).len() as int + enc_item(self.1.field_view(), false).len() as int + enc_item(self.2.field_view(), false).len() as int, b.len() as int) == enc_items(t.skip(3), false)) by {
            assert(t[2] == self.2.field_view());
            assert(t.skip(2)[0] == t[2]);
            assert(t.skip(2).subrange(1, t.skip(2).len() as int) =~= t.skip(3));
            self.2.lemma_field_view();
            lemma_field_step(&self.2, b, enc_item(self.0.field_view(), false).len() as int + enc_item(self.1.field_view(), false).len() as int, enc_items(t.skip(3), false));
        }
    }
}

impl<T0: Field, T1: Field, T2: Field, T3: Field> Encode for (T0, T1, T2, T3) {
    open spec fn encoding(&self) -> Seq<u8> {
        enc_items(seq![self.0.field_view(), self.1.field_view(), self.2.field_view(), self.3.field_view()], false)
    }

    fn encode(&self, out: &mut Vec<u8>) {
        let ghost t = seq![self.0.field_view(), self.1.field_view(), self.2.field_view(), self.3.field_view()];
        assert(t.take(0) =~= Seq::<ItemView>::empty());
        assert(old(out)@ + enc_items(t.take(0), false) =~= old(out)@);
        self.0.encode_field(out);
        proof {
            assert(t.take(1) =~= t.take(0) + seq![t[0]]);
            lemma_enc_items_concat(t.take(0), seq![t[0]], false);
            lemma_enc_items_single(t[0], false);
        }
        assert(out@ =~= old(out)@ + enc_items(t.take(1), false));
        self.1.encode_field(out);
        proof {
            assert(t.take(2) =~= t.take(1) + seq![t[1]]);
            lemma_enc_items_concat(t.take(1), seq![t[1]], false);
            lemma_enc_items_single(t[1], false);
        }
        assert(out@ =~= old(out)@ + enc_items(t.take(2), false));
        self.2.encode_field(out);
        proof {
            assert(t.take(3) =~= t.take(2) + seq![t[2]]);
            lemma_enc_items_concat(t.take(2), seq![t[2]], false);
            lemma_enc_items_single(t[2], false);
        }
        assert(out@ =~= old(out)@ + enc_items(t.take(3), false));
        self.3.encode_field(out);
        proof {
            assert(t.take(4) =~= t.take(3) + seq![t[3]]);
            lemma_enc_items_concat(t.take(3), seq![t[3]], false);
            lemma_enc_items_single(t[3], false);
        }
        assert(out@ =~= old(out)@ + enc_items(t.take(4), false));
        assert(t.take(4) =~= t);
    }
}

impl<T0: Field, T1: Field, T2: Field, T3: Field> Decode for (T0, T1, T2, T3) {
    open spec fn decodes_to(b: Seq<u8>, r: Result<Self, Error>) -> bool {
        match parse_field::<T0>(b.subrange(0, b.len() as int)) {
            Err(e) => r == Err::<Self, Error>(e),
            Ok((v0, n0)) => 
                match parse_field::<T1>(b.subrange(n0 as int, b.len() as int)) {
                    Err(e) => r == Err::<Self, Error>(e),
                    Ok((v1, n1)) => 
                        match parse_field::<T2>(b.subrange(n0 as int + n1 as int, b.len() as int)) {
                            Err(e) => r == Err::<Self, Error>(e),
                            Ok((v2, n2)) => 
                                match parse_field::<T3>(b.subrange(n0 as int + n1 as int + n2 as int, b.len() as int)) {
                                    Err(e) => r == Err::<Self, Error>(e),
                                    Ok((v3, n3)) => if n0 as int + n1 as int + n2 as int + n3 as int == b.len() {
                                        match r {
                                            Ok(x) => x.0.field_view() == v0
                                                && x.1.field_view() == v1
                                                && x.2.field_view() == v2
                                                && x.3.field_view() == v3,
                                            Err(_) => false,
                                        }
                                    } else {
                                        r == Err::<Self, Error>(Error::InvalidData)
                                    },
                                },
                        },
                },
        }
    }

    fn decode(buf: &[u8]) -> (r: Result<Self, Error>) {
        let len: usize = buf.len();
        let p0: usize = 0;
        assert(buf@.subrange(0, buf@.len() as int) =~= buf@);
        let (f0, n0) = match decode_field::<T0>(buf, p0) {
            Ok((f, n)) => (f, n),
            Err(e) => {
                return Err(e);
            },
        };
        let p1: usize = p0 + n0;
        let (f1, n1) = match decode_field::<T1>(buf, p1) {
            Ok((f, n)) => (f, n),
            Err(e) => {
                return Err(e);
            },
        };
        let p2: usize = p1 + n1;
        let (f2, n2) = match decode_field::<T2>(buf, p2) {
            Ok((f, n)) => (f, n),
            Err(e) => {
                return Err(e);
            },
        };
        let p3: usize = p2 + n2;
        let (f3, n3) = match decode_field::<T3>(buf, p3) {
            Ok((f, n)) => (f, n),
            Err(e) => {
                return Err(e);
            },
        };
        let p4: usize = p3 + n3;
        if p4 != len {
            return Err(Error::InvalidData);
        }
        Ok((f0, f1, f2, f3))
    }
}

impl<T0: Field, T1: Field, T2: Field, T3: Field> FixedTuple for (T0, T1, T2, T3) {
    open spec fn same_fields(&self, other: &Self) -> bool {
        self.0.field_view() == other.0.field_view()
            && self.1.field_view() == other.1.field_view()
            && self.2.field_view() == other.2.field_view()
            && self.3.field_view() == other.3.field_view()
    }

    proof fn lemma_round_trip(&self) {
        let t = seq![self.0.field_view(), self.1.field_view(), self.2.field_view(), self.3.field_view()];
        let b = self.encoding();
        assert(t.skip(4) =~= Seq::<ItemView>::empty());
        assert(t.take(0) =~= Seq::<ItemView>::empty());
        assert(b.subrange(0, b.len() as int) == enc_items(t.skip(0), false)) by {
            assert(b.subrange(0, b.len() as int) =~= b);
            assert(t.skip(0) =~= t);
        }
        assert(parse_field::<T0>(b.subrange(0, b.len() as int)) == Ok::<(ItemView, nat), Error>(
            (self.0.field_view(), enc_item(self.0.field_view(), false).len()),
        ) && b.subrange(enc_item(self.0.field_view(), false).len() as int, b.len() as int) == enc_items(t.skip(1), false)) by {
            assert(t[0] == self.0.field_view());
            assert(t.skip(0)[0] == t[0]);
            assert(t.skip(0).subrange(1, t.skip(0).len() as int) =~= t.skip(1));
            self.0.lemma_field_view();
            assert(t.skip(1)[0] == self.1.field_view());
            self.1.lemma_field_view();
            lemma_first_byte(self.1.field_view(), false);
            lemma_field_step(&self.0, b, 0, enc_items(t.skip(1), false));
        }
        assert(parse_field::<T1>(b.subrange(enc_item(self.0.field_view(), false).len() as int, b.len() as int)) == Ok::<(ItemView, nat), Error>(
            (self.1.field_view(), enc_item(self.1.field_view(), false).len()),
        ) && b.subrange(enc_item(self.0.field_view(), false).len() as int + enc_item(self.1.field_view(), false).len() as int, b.len() as int) == enc_items(t.skip(2), false)) by {
            assert(t[1] == self.1.field_view());
            assert(t.skip(1)[0] == t[1]);
            assert(t.skip(1).subrange(1, t.skip(1).len() as int) =~= t.skip(2));
            self.1.lemma_field_view();
            assert(t.skip(2)[0] == self.2.field_view());
            self.2.lemma_field_view();
            lemma_first_byte(self.2.field_view(), false);
            lemma_field_step(&self.1, b, enc_item(self.0.field_view(), false).len() as int, enc_items(t.skip(2), false));
        }
        assert(parse_field::<T2>(b.subrange(enc_item(self.0.field_view(), false).len() as int + enc_item(self.1.field_view(), false).len() as int, b.len() as int)) == Ok::<(ItemView, nat), Error>(
            (self.2.field_view(), enc_item(self.2.field_view(), false).len()),
        ) && b.subrange(enc_item(self.0.field_view(), false).len() as int + enc_item(self.1.field_view(), false).len() as int + enc_item(self.2.field_view(), false).len() as int, b.len() as int) == enc_items(t.skip(3), false)) by {
            assert(t[2] == self.2.field_view());
            assert(t.skip(2)[0] == t[2]);
            assert(t.skip(2).subrange(1, t.skip(2).len() as int) =~= t.skip(3));
            self.2.lemma_field_view();
            assert(t.skip(3)[0] == self.3.field_view());
            self.3.lemma_field_view();
            lemma_first_byte(self.3.field_view(), false);
            lemma_field_step(&self.2, b, enc_item(self.0.field_view(), false).len() as int + enc_item(self.1.field_view(), false).len() as int, enc_items(t.skip(3), false));
        }
        assert(parse_field::<T3>(b.subrange(enc_item(self.0.field_view(), false).len() as int + enc_item(self.1.field_view(), false).len() as int + enc_item(self.2.field_view(), false).len() as int, b.len() as int)) == Ok::<(ItemView, nat), Error>(
            (self.3.field_view(), enc_item(self.3.field_view(), false).len()),
        ) && b.subrange(enc_item(self.0.field_view(), false).len() as int + enc_item(self.1.field_view(), false).len() as int + enc_item(self.2.field_view(), false).len() as int + enc_item(self.3.field_view(), false).len() as int, b.len() as int) == enc_items(t.skip(4), false)) by {
            assert(t[3] == self.3.field_view());
            assert(t.skip(3)[0] == t[3]);
            assert(t.skip(3).subrange(1, t.skip(3).len() as int) =~= t.skip(4));
            self.3.lemma_field_view();
            lemma_field_step(&self.3, b, enc_item(self.0.field_view(), false).len() as int + enc_item(self.1.field_view(), false).len() as int + enc_item(self.2.field_view(), false).len() as int, enc_items(t.skip(4), false));
        }
    }
}

impl<T0: Field, T1: Field, T2: Field, T3: Field, T4: Field> Encode for (T0, T1, T2, T3, T4) {
    open spec fn encoding(&self) -> Seq<u8> {
        enc_items(seq![self.0.field_view(), self.1.field_view(), self.2.field_view(), self.3.field_view(), self.4.field_view()], false)
    }

    #[verifier::rlimit(100)]
    #[verifier::spinoff_prover]
    fn encode(&self, out: &mut Vec<u8>) {
        let ghost t = seq![self.0.field_view(), self.1.field_view(), self.2.field_view(), self.3.field_view(), self.4.field_view()];
        assert(t.take(0) =~= Seq::<ItemView>::empty());
        assert(old(out)@ + enc_items(t.take(0), false) =~= old(out)@);
        self.0.encode_field(out);
        proof {
            assert(t.take(1) =~= t.take(0) + seq![t[0]]);
            lemma_enc_items_concat(t.take(0), seq![t[0]], false);
            lemma_enc_items_single(t[0], false);
        }
        assert(out@ =~= old(out)@ + enc_items(t.take(1), false));
        self.1.encode_field(out);
        proof {
            assert(t.take(2) =~= t.take(1) + seq![t[1]]);
            lemma_enc_items_concat(t.take(1), seq![t[1]], false);
            lemma_enc_items_single(t[1], false);
        }
        assert(out@ =~= old(out)@ + enc_items(t.take(2), false));
        self.2.encode_field(out);
        proof {
            assert(t.take(3) =~= t.take(2) + seq![t[2]]);
            lemma_enc_items_concat(t.take(2), seq![t[2]], false);
            lemma_enc_items_single(t[2], false);
        }
        assert(out@ =~= old(out)@ + enc_items(t.take(3), false));
        self.3.encode_field(out);
        proof {
            assert(t.take(4) =~= t.take(3) + seq![t[3]]);
            lemma_enc_items_concat(t.take(3), seq![t[3]], false);
            lemma_enc_items_single(t[3], false);
        }
        assert(out@ =~= old(out)@ + enc_items(t.take(4), false));
        self.4.encode_field(out);
        proof {
            assert(t.take(5) =~= t.take(4) + seq![t[4]]);
            lemma_enc_items_concat(t.take(4), seq![t[4]], false);
            lemma_enc_items_single(t[4], false);
        }
        assert(out@ =~= old(out)@ + enc_items(t.take(5), false));
        assert(t.take(5) =~= t);
    }
}

impl<T0: Field, T1: Field, T2: Field, T3: Field, T4: Field> Decode for (T0, T1, T2, T3, T4) {
    open spec fn decodes_to(b: Seq<u8>, r: Result<Self, Error>) -> bool {
        match parse_field::<T0>(b.subrange(0, b.len() as int)) {
            Err(e) => r == Err::<Self, Error>(e),
            Ok((v0, n0)) => 
                match parse_field::<T1>(b.subrange(n0 as int, b.len() as int)) {
                    Err(e) => r == Err::<Self, Error>(e),
                    Ok((v1, n1)) => 
                        match parse_field::<T2>(b.subrange(n0 as int + n1 as int, b.len() as int)) {
                            Err(e) => r == Err::<Self, Error>(e),
                            Ok((v2, n2)) => 
                                match parse_field::<T3>(b.subrange(n0 as int + n1 as int + n2 as int, b.len() as int)) {
                                    Err(e) => r == Err::<Self, Error>(e),
                                    Ok((v3, n3)) => 
                                        match parse_field::<T4>(b.subrange(n0 as int + n1 as int + n2 as int + n3 as int, b.len() as int)) {
                                            Err(e) => r == Err::<Self, Error>(e),
                                            Ok((v4, n4)) => if n0 as int + n1 as int + n2 as int + n3 as int + n4 as int == b.len() {
                                                match r {
                                                    Ok(x) => x.0.field_view() == v0
                                                        && x.1.field_view() == v1
                                                        && x.2.field_view() == v2
                                                        && x.3.field_view() == v3
                                                        && x.4.field_view() == v4,
                                                    Err(_) => false,
                                                }
                                            } else {
                                                r == Err::<Self, Error>(Error::InvalidData)
                                            },
                                        },
                                },
                        },
                },
        }
    }

    fn decode(buf: &[u8]) -> (r: Result<Self, Error>) {
        let len: usize = buf.len();
        let p0: usize = 0;
        assert(buf@.subrange(0, buf@.len() as int) =~= buf@);
        let (f0, n0) = match decode_field::<T0>(buf, p0) {
            Ok((f, n)) => (f, n),
            Err(e) => {
                return Err(e);
            },
        };
        let p1: usize = p0 + n0;
        let (f1, n1) = match decode_field::<T1>(buf, p1) {
            Ok((f, n)) => (f, n),
            Err(e) => {
                return Err(e);
            },
        };
        let p2: usize = p1 + n1;
        let (f2, n2) = match decode_field::<T2>(buf, p2) {
            Ok((f, n)) => (f, n),
            Err(e) => {
                return Err(e);
            },
        };
        let p3: usize = p2 + n2;
        let (f3, n3) = match decode_field::<T3>(buf, p3) {
            Ok((f, n)) => (f, n),
            Err(e) => {
                return Err(e);
            },
        };
        let p4: usize = p3 + n3;
        let (f4, n4) = match decode_field::<T4>(buf, p4) {
            Ok((f, n)) => (f, n),
            Err(e) => {
                return Err(e);
            },
        };
        let p5: usize = p4 + n4;
        if p5 != len {
            return Err(Error::InvalidData);
        }
        Ok((f0, f1, f2, f3, f4))
    }
}

impl<T0: Field, T1: Field, T2: Field, T3: Field, T4: Field> FixedTuple for (T0, T1, T2, T3, T4) {
    open spec fn same_fields(&self, other: &Self) -> bool {
        self.0.field_view() == other.0.field_view()
            && self.1.field_view() == other.1.field_view()
            && self.2.field_view() == other.2.field_view()
            && self.3.field_view() == other.3.field_view()
            && self.4.field_view() == other.4.field_view()
    }

    #[verifier::rlimit(100)]
    #[verifier::spinoff_prover]
    proof fn lemma_round_trip(&self) {
        let t = seq![self.0.field_view(), self.1.field_view(), self.2.field_view(), self.3.field_view(), self.4.field_view()];
        let b = self.encoding();
        assert(t.skip(5) =~= Seq::<ItemView>::empty());
        assert(t.take(0) =~= Seq::<ItemView>::empty());
        assert(b.subrange(0, b.len() as int) == enc_items(t.skip(0), false)) by {
            assert(b.subrange(0, b.len() as int) =~= b);
            assert(t.skip(0) =~= t);
        }
        assert(parse_field::<T0>(b.subrange(0, b.len() as int)) == Ok::<(ItemView, nat), Error>(
            (self.0.field_view(), enc_item(self.0.field_view(), false).len()),
        ) && b.subrange(enc_item(self.0.field_view(), false).len() as int, b.len() as int) == enc_items(t.skip(1), false)) by {
            assert(t[0] == self.0.field_view());
            assert(t.skip(0)[0] == t[0]);
            assert(t.skip(0).subrange(1, t.skip(0).len() as int) =~= t.skip(1));
            self.0.lemma_field_view();
            assert(t.skip(1)[0] == self.1.field_view());
            self.1.lemma_field_view();
            lemma_first_byte(self.1.field_view(), false);
            lemma_field_step(&self.0, b, 0, enc_items(t.skip(1), false));
        }
        assert(parse_field::<T1>(b.subrange(enc_item(self.0.field_view(), false).len() as int, b.len() as int)) == Ok::<(ItemView, nat), Error>(
            (self.1.field_view(), enc_item(self.1.field_view(), false).len()),
        ) && b.subrange(enc_item(self.0.field_view(), false).len() as int + enc_item(self.1.field_view(), false).len() as int, b.len() as int) == enc_items(t.skip(2), false)) by {
            assert(t[1] == self.1.field_view());
            assert(t.skip(1)[0] == t[1]);
            assert(t.skip(1).subrange(1, t.skip(1).len() as int) =~= t.skip(2));
            self.1.lemma_field_view();
            assert(t.skip(2)[0] == self.2.field_view());
            self.2.lemma_field_view();
            lemma_first_byte(self.2.field_view(), false);
            lemma_field_step(&self.1, b, enc_item(self.0.field_view(), false).len() as int, enc_items(t.skip(2), false));
        }
        assert(parse_field::<T2>(b.subrange(enc_item(self.0.field_view(), false).len() as int + enc_item(self.1.field_view(), false).len() as int, b.len() as int)) == Ok::<(ItemView, nat), Error>(
            (self.2.field_view(), enc_item(self.2.field_view(), false).len()),
        ) && b.subrange(enc_item(self.0.field_view(), false).len() as int + enc_item(self.1.field_view(), false).len() as int + enc_item(self.2.field_view(), false).len() as int, b.len() as int) == enc_items(t.skip(3), false)) by {
            assert(t[2] == self.2.field_view());
            assert(t.skip(2)[0] == t[2]);
            assert(t.skip(2).subrange(1, t.skip(2).len() as int) =~= t.skip(3));
            self.2.lemma_field_view();
            assert(t.skip(3)[0] == self.3.field_view());
            self.3.lemma_field_view();
            lemma_first_byte(self.3.field_view(), false);
            lemma_field_step(&self.2, b, enc_item(self.0.field_view(), false).len() as int + enc_item(self.1.field_view(), false).len() as int, enc_items(t.skip(3), false));
        }
        assert(parse_field::<T3>(b.subrange(enc_item(self.0.field_view(), false).len() as int + enc_item(self.1.field_view(), false).len() as int + enc_item(self.2.field_view(), false).len() as int, b.len() as int)) == Ok::<(ItemView, nat), Error>(
            (self.3.field_view(), enc_item(self.3.field_view(), false).len()),
        ) && b.subrange(enc_item(self.0.field_view(), false).len() as int + enc_item(self.1.field_view(), false).len() as int + enc_item(self.2.field_view(), false).len() as int + enc_item(self.3.field_view(), false).len() as int, b.len() as int) == enc_items(t.skip(4), false)) by {
            assert(t[3] == self.3.field_view());
            assert(t.skip(3)[0] == t[3]);
            assert(t.skip(3).subrange(1, t.skip(3).len() as int) =~= t.skip(4));
            self.3.lemma_field_view();
            assert(t.skip(4)[0] == self.4.field_view());
            self.4.lemma_field_view();
            lemma_first_byte(self.4.field_view(), false);
            lemma_field_step(&self.3, b, enc_item(self.0.field_view(), false).len() as int + enc_item(self.1.field_view(), false).len() as int + enc_item(self.2.field_view(), false).len() as int, enc_items(t.skip(4), false));
        }
        assert(parse_field::<T4>(b.subrange(enc_item(self.0.field_view(), false).len() as int + enc_item(self.1.field_view(), false).len() as int + enc_item(self.2.field_view(), false).len() as int + enc_item(self.3.field_view(), false).len() as int, b.len() as int)) == Ok::<(ItemView, nat), Error>(
            (self.4.field_view(), enc_item(self.4.field_view(), false).len()),
        ) && b.subrange(enc_item(self.0.field_view(), false).len() as int + enc_item(self.1.field_view(), false).len() as int + enc_item(self.2.field_view(), false).len() as int + enc_item(self.3.field_view(), false).len() as int + enc_item(self.4.field_view(), false).len() as int, b.len() as int) == enc_items(t.skip(5), false)) by {
            assert(t[4] == self.4.field_view());
            assert(t.skip(4)[0] == t[4]);
            assert(t.skip(4).subrange(1, t.skip(4).len() as int) =~= t.skip(5));
            self.4.lemma_field_view();
            lemma_field_step(&self.4, b, enc_item(self.0.field_view(), false).len() as int + enc_item(self.1.field_view(), false).len() as int + enc_item(self.2.field_view(), false).len() as int + enc_item(self.3.field_view(), false).len() as int, enc_items(t.skip(5), false));
        }
    }
}

impl<T0: Field, T1: Field, T2: Field, T3: Field, T4: Field, T5: Field> Encode for (T0, T1, T2, T3, T4, T5) {
    open spec fn encoding(&self) -> Seq<u8> {
        enc_items(seq![self.0.field_view(), self.1.field_view(), self.2.field_view(), self.3.field_view(), self.4.field_view(), self.5.field_view()], false)
    }

    #[verifier::rlimit(100)]
    #[verifier::spinoff_prover]
    fn encode(&self, out: &mut Vec<u8>) {
        let ghost t = seq![self.0.field_view(), self.1.field_view(), self.2.field_view(), self.3.field_view(), self.4.field_view(), self.5.field_view()];
        assert(t.take(0) =~= Seq::<ItemView>::empty());
        assert(old(out)@ + enc_items(t.take(0), false) =~= old(out)@);
        self.0.encode_field(out);
        proof {
            assert(t.take(1) =~= t.take(0) + seq![t[0]]);
            lemma_enc_items_concat(t.take(0), seq![t[0]], false);
            lemma_enc_items_single(t[0], false);
        }
        assert(out@ =~= old(out)@ + enc_items(t.take(1), false));
        self.1.encode_field(out);
        proof {
            assert(t.take(2) =~= t.take(1) + seq![t[1]]);
            lemma_enc_items_concat(t.take(1), seq![t[1]], false);
            lemma_enc_items_single(t[1], false);
        }
        assert(out@ =~= old(out)@ + enc_items(t.take(2), false));
        self.2.encode_field(out);
        proof {
            assert(t.take(3) =~= t.take(2) + seq![t[2]]);
            lemma_enc_items_concat(t.take(2), seq![t[2]], false);
            lemma_enc_items_single(t[2], false);
        }
        assert(out@ =~= old(out)@ + enc_items(t.take(3), false));
        self.3.encode_field(out);
        proof {
            assert(t.take(4) =~= t.take(3) + seq![t[3]]);
            lemma_enc_items_concat(t.take(3), seq![t[3]], false);
            lemma_enc_items_single(t[3], false);
        }
        assert(out@ =~= old(out)@ + enc_items(t.take(4), false));
        self.4.encode_field(out);
        proof {
            assert(t.take(5) =~= t.take(4) + seq![t[4]]);
            lemma_enc_items_concat(t.take(4), seq![t[4]], false);
            lemma_enc_items_single(t[4], false);
        }
        assert(out@ =~= old(out)@ + enc_items(t.take(5), false));
        self.5.encode_field(out);
        proof {
            assert(t.take(6) =~= t.take(5) + seq![t[5]]);
            lemma_enc_items_concat(t.take(5), seq![t[5]], false);
            lemma_enc_items_single(t[5], false);
        }
        assert(out@ =~= old(out)@ + enc_items(t.take(6), false));
        assert(t.take(6) =~= t);
    }
}

impl<T0: Field, T1: Field, T2: Field, T3: Field, T4: Field, T5: Field> Decode for (T0, T1, T2, T3, T4, T5) {
    open spec fn decodes_to(b: Seq<u8>, r: Result<Self, Error>) -> bool {
        match parse_field::<T0>(b.subrange(0, b.len() as int)) {
            Err(e) => r == Err::<Self, Error>(e),
            Ok((v0, n0)) => 
                match parse_field::<T1>(b.subrange(n0 as int, b.len() as int)) {
                    Err(e) => r == Err::<Self, Error>(e),
                    Ok((v1, n1)) => 
                        match parse_field::<T2>(b.subrange(n0 as int + n1 as int, b.len() as int)) {
                            Err(e) => r == Err::<Self, Error>(e),
                            Ok((v2, n2)) => 
                                match parse_field::<T3>(b.subrange(n0 as int + n1 as int + n2 as int, b.len() as int)) {
                                    Err(e) => r == Err::<Self, Error>(e),
                                    Ok((v3, n3)) => 
                                        match parse_field::<T4>(b.subrange(n0 as int + n1 as int + n2 as int + n3 as int, b.len() as int)) {
                                            Err(e) => r == Err::<Self, Error>(e),
                                            Ok((v4, n4)) => 
                                                match parse_field::<T5>(b.subrange(n0 as int + n1 as int + n2 as int + n3 as int + n4 as int, b.len() as int)) {
                                                    Err(e) => r == Err::<Self, Error>(e),
                                                    Ok((v5, n5)) => if n0 as int + n1 as int + n2 as int + n3 as int + n4 as int + n5 as int == b.len() {
                                                        match r {
                                                            Ok(x) => x.0.field_view() == v0
                                                                && x.1.field_view() == v1
                                                                && x.2.field_view() == v2
                                                                && x.3.field_view() == v3
                                                                && x.4.field_view() == v4
                                                                && x.5.field_view() == v5,
                                                            Err(_) => false,
                                                        }
                                                    } else {
                                                        r == Err::<Self, Error>(Error::InvalidData)
                                                    },
                                                },
                                        },
                                },
                        },
                },
        }
    }

    fn decode(buf: &[u8]) -> (r: Result<Self, Error>) {
        let len: usize = buf.len();
        let p0: usize = 0;
        assert(buf@.subrange(0, buf@.len() as int) =~= buf@);
        let (f0, n0) = match decode_field::<T0>(buf, p0) {
            Ok((f, n)) => (f, n),
            Err(e) => {
                return Err(e);
            },
        };
        let p1: usize = p0 + n0;
        let (f1, n1) = match decode_field::<T1>(buf, p1) {
            Ok((f, n)) => (f, n),
            Err(e) => {
                return Err(e);
            },
        };
        let p2: usize = p1 + n1;
        let (f2, n2) = match decode_field::<T2>(buf, p2) {
            Ok((f, n)) => (f, n),
            Err(e) => {
                return Err(e);
            },
        };
        let p3: usize = p2 + n2;
        let (f3, n3) = match decode_field::<T3>(buf, p3) {
            Ok((f, n)) => (f, n),
            Err(e) => {
                return Err(e);
            },
        };
        let p4: usize = p3 + n3;
        let (f4, n4) = match decode_field::<T4>(buf, p4) {
            Ok((f, n)) => (f, n),
            Err(e) => {
                return Err(e);
            },
        };
        let p5: usize = p4 + n4;
        let (f5, n5) = match decode_field::<T5>(buf, p5) {
            Ok((f, n)) => (f, n),
            Err(e) => {
                return Err(e);
            },
        };
        let p6: usize = p5 + n5;
        if p6 != len {
            return Err(Error::InvalidData);
        }
        Ok((f0, f1, f2, f3, f4, f5))
    }
}

impl<T0: Field, T1: Field, T2: Field, T3: Field, T4: Field, T5: Field> FixedTuple for (T0, T1, T2, T3, T4, T5) {
    open spec fn same_fields(&self, other: &Self) -> bool {
        self.0.field_view() == other.0.field_view()
            && self.1.field_view() == other.1.field_view()
            && self.2.field_view() == other.2.field_view()
            && self.3.field_view() == other.3.field_view()
            && self.4.field_view() == other.4.field_view()
            && self.5.field_view() == other.5.field_view()
    }

    #[verifier::rlimit(100)]
    #[verifier::spinoff_prover]
    proof fn lemma_round_trip(&self) {
        let t = seq![self.0.field_view(), self.1.field_view(), self.2.field_view(), self.3.field_view(), self.4.field_view(), self.5.field_view()];
        let b = self.encoding();
        assert(t.skip(6) =~= Seq::<ItemView>::empty());
        assert(t.take(0) =~= Seq::<ItemView>::empty());
        assert(b.subrange(0, b.len() as int) == enc_items(t.skip(0), false)) by {
            assert(b.subrange(0, b.len() as int) =~= b);
            assert(t.skip(0) =~= t);
        }
        assert(parse_field::<T0>(b.subrange(0, b.len() as int)) == Ok::<(ItemView, nat), Error>(
            (self.0.field_view(), enc_item(self.0.field_view(), false).len()),
        ) && b.subrange(enc_item(self.0.field_view(), false).len() as int, b.len() as int) == enc_items(t.skip(1), false)) by {
            assert(t[0] == self.0.field_view());
            assert(t.skip(0)[0] == t[0]);
            assert(t.skip(0).subrange(1, t.skip(0).len() as int) =~= t.skip(1));
            self.0.lemma_field_view();
            assert(t.skip(1)[0] == self.1.field_view());
            self.1.lemma_field_view();
            lemma_first_byte(self.1.field_view(), false);
            lemma_field_step(&self.0, b, 0, enc_items(t.skip(1), false));
        }
        assert(parse_field::<T1>(b.subrange(enc_item(self.0.field_view(), false).len() as int, b.len() as int)) == Ok::<(ItemView, nat), Error>(
            (self.1.field_view(), enc_item(self.1.field_view(), false).len()),
        ) && b.subrange(enc_item(self.0.field_view(), false).len() as int + enc_item(self.1.field_view(), false).len() as int, b.len() as int) == enc_items(t.skip(2), false)) by {
            assert(t[1] == self.1.field_view());
            assert(t.skip(1)[0] == t[1]);
            assert(t.skip(1).subrange(1, t.skip(1).len() as int) =~= t.skip(2));
            self.1.lemma_field_view();
            assert(t.skip(2)[0] == self.2.field_view());
            self.2.lemma_field_view();
            lemma_first_byte(self.2.field_view(), false);
            lemma_field_step(&self.1, b, enc_item(self.0.field_view(), false).len() as int, enc_items(t.skip(2), false));
        }
        assert(parse_field::<T2>(b.subrange(enc_item(self.0.field_view(), false).len() as int + enc_item(self.1.field_view(), false).len() as int, b.len() as int)) == Ok::<(ItemView, nat), Error>(
            (self.2.field_view(), enc_item(self.2.field_view(), false).len()),
        ) && b.subrange(enc_item(self.0.field_view(), false).len() as int + enc_item(self.1.field_view(), false).len() as int + enc_item(self.2.field_view(), false).len() as int, b.len() as int) == enc_items(t.skip(3), false)) by {
            assert(t[2] == self.2.field_view());
            assert(t.skip(2)[0] == t[2]);
            assert(t.skip(2).subrange(1, t.skip(2).len() as int) =~= t.skip(3));
            self.2.lemma_field_view();
            assert(t.skip(3)[0] == self.3.field_view());
            self.3.lemma_field_view();
            lemma_first_byte(self.3.field_view(), false);
            lemma_field_step(&self.2, b, enc_item(self.0.field_view(), false).len() as int + enc_item(self.1.field_view(), false).len() as int, enc_items(t.skip(3), false));
        }
        assert(parse_field::<T3>(b.subrange(enc_item(self.0.field_view(), false).len() as int + enc_item(self.1.field_view(), false).len() as int + enc_item(self.2.field_view(), false).len() as int, b.len() as int)) == Ok::<(ItemView, nat), Error>(
            (self.3.field_view(), enc_item(self.3.field_view(), false).len()),
        ) && b.subrange(enc_item(self.0.field_view(), false).len() as int + enc_item(self.1.field_view(), false).len() as int + enc_item(self.2.field_view(), false).len() as int + enc_item(self.3.field_view(), false).len() as int, b.len() as int) == enc_items(t.skip(4), false)) by {
            assert(t[3] == self.3.field_view());
            assert(t.skip(3)[0] == t[3]);
            assert(t.skip(3).subrange(1, t.skip(3).len() as int) =~= t.skip(4));
            self.3.lemma_field_view();
            assert(t.skip(4)[0] == self.4.field_view());
            self.4.lemma_field_view();
            lemma_first_byte(self.4.field_view(), false);
            lemma_field_step(&self.3, b, enc_item(self.0.field_view(), false).len() as int + enc_item(self.1.field_view(), false).len() as int + enc_item(self.2.field_view(), false).len() as int, enc_items(t.skip(4), false));
        }
        assert(parse_field::<T4>(b.subrange(enc_item(self.0.field_view(), false).len() as int + enc_item(self.1.field_view(), false).len() as int + enc_item(self.2.field_view(), false).len() as int + enc_item(self.3.field_view(), false).len() as int, b.len() as int)) == Ok::<(ItemView, nat), Error>(
            (self.4.field_view(), enc_item(self.4.field_view(), false).len()),
        ) && b.subrange(enc_item(self.0.field_view(), false).len() as int + enc_item(self.1.field_view(), false).len() as int + enc_item(self.2.field_view(), false).len() as int + enc_item(self.3.field_view(), false).len() as int + enc_item(self.4.field_view(), false).len() as int, b.len() as int) == enc_items(t.skip(5), false)) by {
            assert(t[4] == self.4.field_view());
            assert(t.skip(4)[0] == t[4]);
            assert(t.skip(4).subrange(1, t.skip(4).len() as int) =~= t.skip(5));
            self.4.lemma_field_view();
            assert(t.skip(5)[0] == self.5.field_view());
            self.5.lemma_field_view();
            lemma_first_byte(self.5.field_view(), false);
            lemma_field_step(&self.4, b, enc_item(self.0.field_view(), false).len() as int + enc_item(self.1.field_view(), false).len() as int + enc_item(self.2.field_view(), false).len() as int + enc_item(self.3.field_view(), false).len() as int, enc_items(t.skip(5), false));
        }
        assert(parse_field::<T5>(b.subrange(enc_item(self.0.field_view(), false).len() as int + enc_item(self.1.field_view(), false).len() as int + enc_item(self.2.field_view(), false).len() as int + enc_item(self.3.field_view(), false).len() as int + enc_item(self.4.field_view(), false).len() as int, b.len() as int)) == Ok::<(ItemView, nat), Error>(
            (self.5.field_view(), enc_item(self.5.field_view(), false).len()),
        ) && b.subrange(enc_item(self.0.field_view(), false).len() as int + enc_item(self.1.field_view(), false).len() as int + enc_item(self.2.field_view(), false).len() as int + enc_item(self.3.field_view(), false).len() as int + enc_item(self.4.field_view(), false).len() as int + enc_item(self.5.field_view(), false).len() as int, b.len() as int) == enc_items(t.skip(6), false)) by {
            assert(t[5] == self.5.field_view());
            assert(t.skip(5)[0] == t[5]);
            assert(t.skip(5).subrange(1, t.skip(5).len() as int) =~= t.skip(6));
            self.5.lemma_field_view();
            lemma_field_step(&self.5, b, enc_item(self.0.field_view(), false).len() as int + enc_item(self.1.field_view(), false).len() as int + enc_item(self.2.field_view(), false).len() as int + enc_item(self.3.field_view(), false).len() as int + enc_item(self.4.field_view(), false).len() as int, enc_items(t.skip(6), false));
        }
    }
}

impl<T0: Field, T1: Field, T2: Field, T3: Field, T4: Field, T5: Field, T6: Field> Encode for (T0, T1, T2, T3, T4, T5, T6) {
    open spec fn encoding(&self) -> Seq<u8> {
        enc_items(seq![self.0.field_view(), self.1.field_view(), self.2.field_view(), self.3.field_view(), self.4.field_view(), self.5.field_view(), self.6.field_view()], false)
    }

    #[verifier::rlimit(100)]
    #[verifier::spinoff_prover]
    fn encode(&self, out: &mut Vec<u8>) {
        let ghost t = seq![self.0.field_view(), self.1.field_view(), self.2.field_view(), self.3.field_view(), self.4.field_view(), self.5.field_view(), self.6.field_view()];
        assert(t.take(0) =~= Seq::<ItemView>::empty());
        assert(old(out)@ + enc_items(t.take(0), false) =~= old(out)@);
        self.0.encode_field(out);
        proof {
            assert(t.take(1) =~= t.take(0) + seq![t[0]]);
            lemma_enc_items_concat(t.take(0), seq![t[0]], false);
            lemma_enc_items_single(t[0], false);
        }
        assert(out@ =~= old(out)@ + enc_items(t.take(1), false));
        self.1.encode_field(out);
        proof {
            assert(t.take(2) =~= t.take(1) + seq![t[1]]);
            lemma_enc_items_concat(t.take(1), seq![t[1]], false);
            lemma_enc_items_single(t[1], false);
        }
        assert(out@ =~= old(out)@ + enc_items(t.take(2), false));
        self.2.encode_field(out);
        proof {
            assert(t.take(3) =~= t.take(2) + seq![t[2]]);
            lemma_enc_items_concat(t.take(2), seq![t[2]], false);
            lemma_enc_items_single(t[2], false);
        }
        assert(out@ =~= old(out)@ + enc_items(t.take(3), false));
        self.3.encode_field(out);
        proof {
            assert(t.take(4) =~= t.take(3) + seq![t[3]]);
            lemma_enc_items_concat(t.take(3), seq![t[3]], false);
            lemma_enc_items_single(t[3], false);
        }
        assert(out@ =~= old(out)@ + enc_items(t.take(4), false));
        self.4.encode_field(out);
        proof {
            assert(t.take(5) =~= t.take(4) + seq![t[4]]);
            lemma_enc_items_concat(t.take(4), seq![t[4]], false);
            lemma_enc_items_single(t[4], false);
        }
        assert(out@ =~= old(out)@ + enc_items(t.take(5), false));
        self.5.encode_field(out);
        proof {
            assert(t.take(6) =~= t.take(5) + seq![t[5]]);
            lemma_enc_items_concat(t.take(5), seq![t[5]], false);
            lemma_enc_items_single(t[5], false);
        }
        assert(out@ =~= old(out)@ + enc_items(t.take(6), false));
        self.6.encode_field(out);
        proof {
            assert(t.take(7) =~= t.take(6) + seq![t[6]]);
            lemma_enc_items_concat(t.take(6), seq![t[6]], false);
            lemma_enc_items_single(t[6], false);
        }
        assert(out@ =~= old(out)@ + enc_items(t.take(7), false));
        assert(t.take(7) =~= t);
    }
}

impl<T0: Field, T1: Field, T2: Field, T3: Field, T4: Field, T5: Field, T6: Field> Decode for (T0, T1, T2, T3, T4, T5, T6) {
    open spec fn decodes_to(b: Seq<u8>, r: Result<Self, Error>) -> bool {
        match parse_field::<T0>(b.subrange(0, b.len() as int)) {
            Err(e) => r == Err::<Self, Error>(e),
            Ok((v0, n0)) => 
                match parse_field::<T1>(b.subrange(n0 as int, b.len() as int)) {
                    Err(e) => r == Err::<Self, Error>(e),
                    Ok((v1, n1)) => 
                        match parse_field::<T2>(b.subrange(n0 as int + n1 as int, b.len() as int)) {
                            Err(e) => r == Err::<Self, Error>(e),
                            Ok((v2, n2)) => 
                                match parse_field::<T3>(b.subrange(n0 as int + n1 as int + n2 as int, b.len() as int)) {
                                    Err(e) => r == Err::<Self, Error>(e),
                                    Ok((v3, n3)) => 
                                        match parse_field::<T4>(b.subrange(n0 as int + n1 as int + n2 as int + n3 as int, b.len() as int)) {
                                            Err(e) => r == Err::<Self, Error>(e),
                                            Ok((v4, n4)) => 
                                                match parse_field::<T5>(b.subrange(n0 as int + n1 as int + n2 as int + n3 as int + n4 as int, b.len() as int)) {
                                                    Err(e) => r == Err::<Self, Error>(e),
                                                    Ok((v5, n5)) => 
                                                        match parse_field::<T6>(b.subrange(n0 as int + n1 as int + n2 as int + n3 as int + n4 as int + n5 as int, b.len() as int)) {
                                                            Err(e) => r == Err::<Self, Error>(e),
                                                            Ok((v6, n6)) => if n0 as int + n1 as int + n2 as int + n3 as int + n4 as int + n5 as int + n6 as int == b.len() {
                                                                match r {
                                                                    Ok(x) => x.0.field_view() == v0
                                                                        && x.1.field_view() == v1
                                                                        && x.2.field_view() == v2
                                                                        && x.3.field_view() == v3
                                                                        && x.4.field_view() == v4
                                                                        && x.5.field_view() == v5
                                                                        && x.6.field_view() == v6,
                                                                    Err(_) => false,
                                                                }
                                                            } else {
                                                                r == Err::<Self, Error>(Error::InvalidData)
                                                            },
                                                        },
                                                },
                                        },
                                },
                        },
                },
        }
    }

    fn decode(buf: &[u8]) -> (r: Result<Self, Error>) {
        let len: usize = buf.len();
        let p0: usize = 0;
        assert(buf@.subrange(0, buf@.len() as int) =~= buf@);
        let (f0, n0) = match decode_field::<T0>(buf, p0) {
            Ok((f, n)) => (f, n),
            Err(e) => {
                return Err(e);
            },
        };
        let p1: usize = p0 + n0;
        let (f1, n1) = match decode_field::<T1>(buf, p1) {
            Ok((f, n)) => (f, n),
            Err(e) => {
                return Err(e);
            },
        };
        let p2: usize = p1 + n1;
        let (f2, n2) = match decode_field::<T2>(buf, p2) {
            Ok((f, n)) => (f, n),
            Err(e) => {
                return Err(e);
            },
        };
        let p3: usize = p2 + n2;
        let (f3, n3) = match decode_field::<T3>(buf, p3) {
            Ok((f, n)) => (f, n),
            Err(e) => {
                return Err(e);
            },
        };
        let p4: usize = p3 + n3;
        let (f4, n4) = match decode_field::<T4>(buf, p4) {
            Ok((f, n)) => (f, n),
            Err(e) => {
                return Err(e);
            },
        };
        let p5: usize = p4 + n4;
        let (f5, n5) = match decode_field::<T5>(buf, p5) {
            Ok((f, n)) => (f, n),
            Err(e) => {
                return Err(e);
            },
        };
        let p6: usize = p5 + n5;
        let (f6, n6) = match decode_field::<T6>(buf, p6) {
            Ok((f, n)) => (f, n),
            Err(e) => {
                return Err(e);
            },
        };
        let p7: usize = p6 + n6;
        if p7 != len {
            return Err(Error::InvalidData);
        }
        Ok((f0, f1, f2, f3, f4, f5, f6))
    }
}

impl<T0: Field, T1: Field, T2: Field, T3: Field, T4: Field, T5: Field, T6: Field> FixedTuple for (T0, T1, T2, T3, T4, T5, T6) {
    open spec fn same_fields(&self, other: &Self) -> bool {
        self.0.field_view() == other.0.field_view()
            && self.1.field_view() == other.1.field_view()
            && self.2.field_view() == other.2.field_view()
            && self.3.field_view() == other.3.field_view()
            && self.4.field_view() == other.4.field_view()
            && self.5.field_view() == other.5.field_view()
            && self.6.field_view() == other.6.field_view()
    }

    #[verifier::rlimit(100)]
    #[verifier::spinoff_prover]
    proof fn lemma_round_trip(&self) {
        let t = seq![self.0.field_view(), self.1.field_view(), self.2.field_view(), self.3.field_view(), self.4.field_view(), self.5.field_view(), self.6.field_view()];
        let b = self.encoding();
        assert(t.skip(7) =~= Seq::<ItemView>::empty());
        assert(t.take(0) =~= Seq::<ItemView>::empty());
        assert(b.subrange(0, b.len() as int) == enc_items(t.skip(0), false)) by {
            assert(b.subrange(0, b.len() as int) =~= b);
            assert(t.skip(0) =~= t);
        }
        assert(parse_field::<T0>(b.subrange(0, b.len() as int)) == Ok::<(ItemView, nat), Error>(
            (self.0.field_view(), enc_item(self.0.field_view(), false).len()),
        ) && b.subrange(enc_item(self.0.field_view(), false).len() as int, b.len() as int) == enc_items(t.skip(1), false)) by {
            assert(t[0] == self.0.field_view());
            assert(t.skip(0)[0] == t[0]);
            assert(t.skip(0).subrange(1, t.skip(0).len() as int) =~= t.skip(1));
            self.0.lemma_field_view();
            assert(t.skip(1)[0] == self.1.field_view());
            self.1.lemma_field_view();
            lemma_first_byte(self.1.field_view(), false);
            lemma_field_step(&self.0, b, 0, enc_items(t.skip(1), false));
        }
        assert(parse_field::<T1>(b.subrange(enc_item(self.0.field_view(), false).len() as int, b.len() as int)) == Ok::<(ItemView, nat), Error>(
            (self.1.field_view(), enc_item(self.1.field_view(), false).len()),
        ) && b.subrange(enc_item(self.0.field_view(), false).len() as int + enc_item(self.1.field_view(), false).len() as int, b.len() as int) == enc_items(t.skip(2), false)) by {
            assert(t[1] == self.1.field_view());
            assert(t.skip(1)[0] == t[1]);
            assert(t.skip(1).subrange(1, t.skip(1).len() as int) =~= t.skip(2));
            self.1.lemma_field_view();
            assert(t.skip(2)[0] == self.2.field_view());
            self.2.lemma_field_view();
            lemma_first_byte(self.2.field_view(), false);
            lemma_field_step(&self.1, b, enc_item(self.0.field_view(), false).len() as int, enc_items(t.skip(2), false));
        }
        assert(parse_field::<T2>(b.subrange(enc_item(self.0.field_view(), false).len() as int + enc_item(self.1.field_view(), false).len() as int, b.len() as int)) == Ok::<(ItemView, nat), Error>(
            (self.2.field_view(), enc_item(self.2.field_view(), false).len()),
        ) && b.subrange(enc_item(self.0.field_view(), false).len() as int + enc_item(self.1.field_view(), false).len() as int + enc_item(self.2.field_view(), false).len() as int, b.len() as int) == enc_items(t.skip(3), false)) by {
            assert(t[2] == self.2.field_view());
            assert(t.skip(2)[0] == t[2]);
            assert(t.skip(2).subrange(1, t.skip(2).len() as int) =~= t.skip(3));
            self.2.lemma_field_view();
            assert(t.skip(3)[0] == self.3.field_view());
            self.3.lemma_field_view();
            lemma_first_byte(self.3.field_view(), false);
            lemma_field_step(&self.2, b, enc_item(self.0.field_view(), false).len() as int + enc_item(self.1.field_view(), false).len() as int, enc_items(t.skip(3), false));
        }
        assert(parse_field::<T3>(b.subrange(enc_item(self.0.field_view(), false).len() as int + enc_item(self.1.field_view(), false).len() as int + enc_item(self.2.field_view(), false).len() as int, b.len() as int)) == Ok::<(ItemView, nat), Error>(
            (self.3.field_view(), enc_item(self.3.field_view(), false).len()),
        ) && b.subrange(enc_item(self.0.field_view(), false).len() as int + enc_item(self.1.field_view(), false).len() as int + enc_item(self.2.field_view(), false).len() as int + enc_item(self.3.field_view(), false).len() as int, b.len() as int) == enc_items(t.skip(4), false)) by {
            assert(t[3] == self.3.field_view());
            assert(t.skip(3)[0] == t[3]);
            assert(t.skip(3).subrange(1, t.skip(3).len() as int) =~= t.skip(4));
            self.3.lemma_field_view();
            assert(t.skip(4)[0] == self.4.field_view());
            self.4.lemma_field_view();
            lemma_first_byte(self.4.field_view(), false);
            lemma_field_step(&self.3, b, enc_item(self.0.field_view(), false).len() as int + enc_item(self.1.field_view(), false).len() as int + enc_item(self.2.field_view(), false).len() as int, enc_items(t.skip(4), false));
        }
        assert(parse_field::<T4>(b.subrange(enc_item(self.0.field_view(), false).len() as int + enc_item(self.1.field_view(), false).len() as int + enc_item(self.2.field_view(), false).len() as int + enc_item(self.3.field_view(), false).len() as int, b.len() as int)) == Ok::<(ItemView, nat), Error>(
            (self.4.field_view(), enc_item(self.4.field_view(), false).len()),
        ) && b.subrange(enc_item(self.0.field_view(), false).len() as int + enc_item(self.1.field_view(), false).len() as int + enc_item(self.2.field_view(), false).len() as int + enc_item(self.3.field_view(), false).len() as int + enc_item(self.4.field_view(), false).len() as int, b.len() as int) == enc_items(t.skip(5), false)) by {
            assert(t[4] == self.4.field_view());
            assert(t.skip(4)[0] == t[4]);
            assert(t.skip(4).subrange(1, t.skip(4).len() as int) =~= t.skip(5));
            self.4.lemma_field_view();
            assert(t.skip(5)[0] == self.5.field_view());
            self.5.lemma_field_view();
            lemma_first_byte(self.5.field_view(), false);
            lemma_field_step(&self.4, b, enc_item(self.0.field_view(), false).len() as int + enc_item(self.1.field_view(), false).len() as int + enc_item(self.2.field_view(), false).len() as int + enc_item(self.3.field_view(), false).len() as int, enc_items(t.skip(5), false));
        }
        assert(parse_field::<T5>(b.subrange(enc_item(self.0.field_view(), false).len() as int + enc_item(self.1.field_view(), false).len() as int + enc_item(self.2.field_view(), false).len() as int + enc_item(self.3.field_view(), false).len() as int + enc_item(self.4.field_view(), false).len() as int, b.len() as int)) == Ok::<(ItemView, nat), Error>(
            (self.5.field_view(), enc_item(self.5.field_view(), false).len()),
        ) && b.subrange(enc_item(self.0.field_view(), false).len() as int + enc_item(self.1.field_view(), false).len() as int + enc_item(self.2.field_view(), false).len() as int + enc_item(self.3.field_view(), false).len() as int + enc_item(self.4.field_view(), false).len() as int + enc_item(self.5.field_view(), false).len() as int, b.len() as int) == enc_items(t.skip(6), false)) by {
            assert(t[5] == self.5.field_view());
            assert(t.skip(5)[0] == t[5]);
            assert(t.skip(5).subrange(1, t.skip(5).len() as int) =~= t.skip(6));
            self.5.lemma_field_view();
            assert(t.skip(6)[0] == self.6.field_view());
            self.6.lemma_field_view();
            lemma_first_byte(self.6.field_view(), false);
            lemma_field_step(&self.5, b, enc_item(self.0.field_view(), false).len() as int + enc_item(self.1.field_view(), false).len() as int + enc_item(self.2.field_view(), false).len() as int + enc_item(self.3.field_view(), false).len() as int + enc_item(self.4.field_view(), false).len() as int, enc_items(t.skip(6), false));
        }
        assert(parse_field::<T6>(b.subrange(enc_item(self.0.field_view(), false).len() as int + enc_item(self.1.field_view(), false).len() as int + enc_item(self.2.field_view(), false).len() as int + enc_item(self.3.field_view(), false).len() as int + enc_item(self.4.field_view(), false).len() as int + enc_item(self.5.field_view(), false).len() as int, b.len() as int)) == Ok::<(ItemView, nat), Error>(
            (self.6.field_view(), enc_item(self.6.field_view(), false).len()),
        ) && b.subrange(enc_item(self.0.field_view(), false).len() as int + enc_item(self.1.field_view(), false).len() as int + enc_item(self.2.field_view(), false).len() as int + enc_item(self.3.field_view(), false).len() as int + enc_item(self.4.field_view(), false).len() as int + enc_item(self.5.field_view(), false).len() as int + enc_item(self.6.field_view(), false).len() as int, b.len() as int) == enc_items(t.skip(7), false)) by {
            assert(t[6] == self.6.field_view());
            assert(t.skip(6)[0] == t[6]);
            assert(t.skip(6).subrange(1, t.skip(6).len() as int) =~= t.skip(7));
            self.6.lemma_field_view();
            lemma_field_step(&self.6, b, enc_item(self.0.field_view(), false).len() as int + enc_item(self.1.field_view(), false).len() as int + enc_item(self.2.field_view(), false).len() as int + enc_item(self.3.field_view(), false).len() as int + enc_item(self.4.field_view(), false).len() as int + enc_item(self.5.field_view(), false).len() as int, enc_items(t.skip(7), false));
        }
    }
}

impl<T0: Field, T1: Field, T2: Field, T3: Field, T4: Field, T5: Field, T6: Field, T7: Field> Encode for (T0, T1, T2, T3, T4, T5, T6, T7) {
    open spec fn encoding(&self) -> Seq<u8> {
        enc_items(seq![self.0.field_view(), self.1.field_view(), self.2.field_view(), self.3.field_view(), self.4.field_view(), self.5.field_view(), self.6.field_view(), self.7.field_view()], false)
    }

    #[verifier::rlimit(100)]
    #[verifier::spinoff_prover]
    fn encode(&self, out: &mut Vec<u8>) {
        let ghost t = seq![self.0.field_view(), self.1.field_view(), self.2.field_view(), self.3.field_view(), self.4.field_view(), self.5.field_view(), self.6.field_view(), self.7.field_view()];
        assert(t.take(0) =~= Seq::<ItemView>::empty());
        assert(old(out)@ + enc_items(t.take(0), false) =~= old(out)@);
        self.0.encode_field(out);
        proof {
            assert(t.take(1) =~= t.take(0) + seq![t[0]]);
            lemma_enc_items_concat(t.take(0), seq![t[0]], false);
            lemma_enc_items_single(t[0], false);
        }
        assert(out@ =~= old(out)@ + enc_items(t.take(1), false));
        self.1.encode_field(out);
        proof {
            assert(t.take(2) =~= t.take(1) + seq![t[1]]);
            lemma_enc_items_concat(t.take(1), seq![t[1]], false);
            lemma_enc_items_single(t[1], false);
        }
        assert(out@ =~= old(out)@ + enc_items(t.take(2), false));
        self.2.encode_field(out);
        proof {
            assert(t.take(3) =~= t.take(2) + seq![t[2]]);
            lemma_enc_items_concat(t.take(2), seq![t[2]], false);
            lemma_enc_items_single(t[2], false);
        }
        assert(out@ =~= old(out)@ + enc_items(t.take(3), false));
        self.3.encode_field(out);
        proof {
            assert(t.take(4) =~= t.take(3) + seq![t[3]]);
            lemma_enc_items_concat(t.take(3), seq![t[3]], false);
            lemma_enc_items_single(t[3], false);
        }
        assert(out@ =~= old(out)@ + enc_items(t.take(4), false));
        self.4.encode_field(out);
        proof {
            assert(t.take(5) =~= t.take(4) + seq![t[4]]);
            lemma_enc_items_concat(t.take(4), seq![t[4]], false);
            lemma_enc_items_single(t[4], false);
        }
        assert(out@ =~= old(out)@ + enc_items(t.take(5), false));
        self.5.encode_field(out);
        proof {
            assert(t.take(6) =~= t.take(5) + seq![t[5]]);
            lemma_enc_items_concat(t.take(5), seq![t[5]], false);
            lemma_enc_items_single(t[5], false);
        }
        assert(out@ =~= old(out)@ + enc_items(t.take(6), false));
        self.6.encode_field(out);
        proof {
            assert(t.take(7) =~= t.take(6) + seq![t[6]]);
            lemma_enc_items_concat(t.take(6), seq![t[6]], false);
            lemma_enc_items_single(t[6], false);
        }
        assert(out@ =~= old(out)@ + enc_items(t.take(7), false));
        self.7.encode_field(out);
        proof {
            assert(t.take(8) =~= t.take(7) + seq![t[7]]);
            lemma_enc_items_concat(t.take(7), seq![t[7]], false);
            lemma_enc_items_single(t[7], false);
        }
        assert(out@ =~= old(out)@ + enc_items(t.take(8), false));
        assert(t.take(8) =~= t);
    }
}

impl<T0: Field, T1: Field, T2: Field, T3: Field, T4: Field, T5: Field, T6: Field, T7: Field> Decode for (T0, T1, T2, T3, T4, T5, T6, T7) {
    open spec fn decodes_to(b: Seq<u8>, r: Result<Self, Error>) -> bool {
        match parse_field::<T0>(b.subrange(0, b.len() as int)) {
            Err(e) => r == Err::<Self, Error>(e),
            Ok((v0, n0)) => 
                match parse_field::<T1>(b.subrange(n0 as int, b.len() as int)) {
                    Err(e) => r == Err::<Self, Error>(e),
                    Ok((v1, n1)) => 
                        match parse_field::<T2>(b.subrange(n0 as int + n1 as int, b.len() as int)) {
                            Err(e) => r == Err::<Self, Error>(e),
                            Ok((v2, n2)) => 
                                match parse_field::<T3>(b.subrange(n0 as int + n1 as int + n2 as int, b.len() as int)) {
                                    Err(e) => r == Err::<Self, Error>(e),
                                    Ok((v3, n3)) => 
                                        match parse_field::<T4>(b.subrange(n0 as int + n1 as int + n2 as int + n3 as int, b.len() as int)) {
                                            Err(e) => r == Err::<Self, Error>(e),
                                            Ok((v4, n4)) => 
                                                match parse_field::<T5>(b.subrange(n0 as int + n1 as int + n2 as int + n3 as int + n4 as int, b.len() as int)) {
                                                    Err(e) => r == Err::<Self, Error>(e),
                                                    Ok((v5, n5)) => 
                                                        match parse_field::<T6>(b.subrange(n0 as int + n1 as int + n2 as int + n3 as int + n4 as int + n5 as int, b.len() as int)) {
                                                            Err(e) => r == Err::<Self, Error>(e),
                                                            Ok((v6, n6)) => 
                                                                match parse_field::<T7>(b.subrange(n0 as int + n1 as int + n2 as int + n3 as int + n4 as int + n5 as int + n6 as int, b.len() as int)) {
                                                                    Err(e) => r == Err::<Self, Error>(e),
                                                                    Ok((v7, n7)) => if n0 as int + n1 as int + n2 as int + n3 as int + n4 as int + n5 as int + n6 as int + n7 as int == b.len() {
                                                                        match r {
                                                                            Ok(x) => x.0.field_view() == v0
                                                                                && x.1.field_view() == v1
                                                                                && x.2.field_view() == v2
                                                                                && x.3.field_view() == v3
                                                                                && x.4.field_view() == v4
                                                                                && x.5.field_view() == v5
                                                                                && x.6.field_view() == v6
                                                                                && x.7.field_view() == v7,
                                                                            Err(_) => false,
                                                                        }
                                                                    } else {
                                                                        r == Err::<Self, Error>(Error::InvalidData)
                                                                    },
                                                                },
                                                        },
                                                },
                                        },
                                },
                        },
                },
        }
    }

    fn decode(buf: &[u8]) -> (r: Result<Self, Error>) {
        let len: usize = buf.len();
        let p0: usize = 0;
        assert(buf@.subrange(0, buf@.len() as int) =~= buf@);
        let (f0, n0) = match decode_field::<T0>(buf, p0) {
            Ok((f, n)) => (f, n),
            Err(e) => {
                return Err(e);
            },
        };
        let p1: usize = p0 + n0;
        let (f1, n1) = match decode_field::<T1>(buf, p1) {
            Ok((f, n)) => (f, n),
            Err(e) => {
                return Err(e);
            },
        };
        let p2: usize = p1 + n1;
        let (f2, n2) = match decode_field::<T2>(buf, p2) {
            Ok((f, n)) => (f, n),
            Err(e) => {
                return Err(e);
            },
        };
        let p3: usize = p2 + n2;
        let (f3, n3) = match decode_field::<T3>(buf, p3) {
            Ok((f, n)) => (f, n),
            Err(e) => {
                return Err(e);
            },
        };
        let p4: usize = p3 + n3;
        let (f4, n4) = match decode_field::<T4>(buf, p4) {
            Ok((f, n)) => (f, n),
            Err(e) => {
                return Err(e);
            },
        };
        let p5: usize = p4 + n4;
        let (f5, n5) = match decode_field::<T5>(buf, p5) {
            Ok((f, n)) => (f, n),
            Err(e) => {
                return Err(e);
            },
        };
        let p6: usize = p5 + n5;
        let (f6, n6) = match decode_field::<T6>(buf, p6) {
            Ok((f, n)) => (f, n),
            Err(e) => {
                return Err(e);
            },
        };
        let p7: usize = p6 + n6;
        let (f7, n7) = match decode_field::<T7>(buf, p7) {
            Ok((f, n)) => (f, n),
            Err(e) => {
                return Err(e);
            },
        };
        let p8: usize = p7 + n7;
        if p8 != len {
            return Err(Error::InvalidData);
        }
        Ok((f0, f1, f2, f3, f4, f5, f6, f7))
    }
}

impl<T0: Field, T1: Field, T2: Field, T3: Field, T4: Field, T5: Field, T6: Field, T7: Field> FixedTuple for (T0, T1, T2, T3, T4, T5, T6, T7) {
    open spec fn same_fields(&self, other: &Self) -> bool {
        self.0.field_view() == other.0.field_view()
            && self.1.field_view() == other.1.field_view()
            && self.2.field_view() == other.2.field_view()
            && self.3.field_view() == other.3.field_view()
            && self.4.field_view() == other.4.field_view()
            && self.5.field_view() == other.5.field_view()
            && self.6.field_view() == other.6.field_view()
            && self.7.field_view() == other.7.field_view()
    }

    #[verifier::rlimit(100)]
    #[verifier::spinoff_prover]
    proof fn lemma_round_trip(&self) {
        let t = seq![self.0.field_view(), self.1.field_view(), self.2.field_view(), self.3.field_view(), self.4.field_view(), self.5.field_view(), self.6.field_view(), self.7.field_view()];
        let b = self.encoding();
        assert(t.skip(8) =~= Seq::<ItemView>::empty());
        assert(t.take(0) =~= Seq::<ItemView>::empty());
        assert(b.subrange(0, b.len() as int) == enc_items(t.skip(0), false)) by {
            assert(b.subrange(0, b.len() as int) =~= b);
            assert(t.skip(0) =~= t);
        }
        assert(parse_field::<T0>(b.subrange(0, b.len() as int)) == Ok::<(ItemView, nat), Error>(
            (self.0.field_view(), enc_item(self.0.field_view(), false).len()),
        ) && b.subrange(enc_item(self.0.field_view(), false).len() as int, b.len() as int) == enc_items(t.skip(1), false)) by {
            assert(t[0] == self.0.field_view());
            assert(t.skip(0)[0] == t[0]);
            assert(t.skip(0).subrange(1, t.skip(0).len() as int) =~= t.skip(1));
            self.0.lemma_field_view();
            assert(t.skip(1)[0] == self.1.field_view());
            self.1.lemma_field_view();
            lemma_first_byte(self.1.field_view(), false);
            lemma_field_step(&self.0, b, 0, enc_items(t.skip(1), false));
        }
        assert(parse_field::<T1>(b.subrange(enc_item(self.0.field_view(), false).len() as int, b.len() as int)) == Ok::<(ItemView, nat), Error>(
            (self.1.field_view(), enc_item(self.1.field_view(), false).len()),
        ) && b.subrange(enc_item(self.0.field_view(), false).len() as int + enc_item(self.1.field_view(), false).len() as int, b.len() as int) == enc_items(t.skip(2), false)) by {
            assert(t[1] == self.1.field_view());
            assert(t.skip(1)[0] == t[1]);
            assert(t.skip(1).subrange(1, t.skip(1).len() as int) =~= t.skip(2));
            self.1.lemma_field_view();
            assert(t.skip(2)[0] == self.2.field_view());
            self.2.lemma_field_view();
            lemma_first_byte(self.2.field_view(), false);
            lemma_field_step(&self.1, b, enc_item(self.0.field_view(), false).len() as int, enc_items(t.skip(2), false));
        }
        assert(parse_field::<T2>(b.subrange(enc_item(self.0.field_view(), false).len() as int + enc_item(self.1.field_view(), false).len() as int, b.len() as int)) == Ok::<(ItemView, nat), Error>(
            (self.2.field_view(), enc_item(self.2.field_view(), false).len()),
        ) && b.subrange(enc_item(self.0.field_view(), false).len() as int + enc_item(self.1.field_view(), false).len() as int + enc_item(self.2.field_view(), false).len() as int, b.len() as int) == enc_items(t.skip(3), false)) by {
            assert(t[2] == self.2.field_view());
            assert(t.skip(2)[0] == t[2]);
            assert(t.skip(2).subrange(1, t.skip(2).len() as int) =~= t.skip(3));
            self.2.lemma_field_view();
            assert(t.skip(3)[0] == self.3.field_view());
            self.3.lemma_field_view();
            lemma_first_byte(self.3.field_view(), false);
            lemma_field_step(&self.2, b, enc_item(self.0.field_view(), false).len() as int + enc_item(self.1.field_view(), false).len() as int, enc_items(t.skip(3), false));
        }
        assert(parse_field::<T3>(b.subrange(enc_item(self.0.field_view(), false).len() as int + enc_item(self.1.field_view(), false).len() as int + enc_item(self.2.field_view(), false).len() as int, b.len() as int)) == Ok::<(ItemView, nat), Error>(
            (self.3.field_view(), enc_item(self.3.field_view(), false).len()),
        ) && b.subrange(enc_item(self.0.field_view(), false).len() as int + enc_item(self.1.field_view(), false).len() as int + enc_item(self.2.field_view(), false).len() as int + enc_item(self.3.field_view(), false).len() as int, b.len() as int) == enc_items(t.skip(4), false)) by {
            assert(t[3] == self.3.field_view());
            assert(t.skip(3)[0] == t[3]);
            assert(t.skip(3).subrange(1, t.skip(3).len() as int) =~= t.skip(4));
            self.3.lemma_field_view();
            assert(t.skip(4)[0] == self.4.field_view());
            self.4.lemma_field_view();
            lemma_first_byte(self.4.field_view(), false);
            lemma_field_step(&self.3, b, enc_item(self.0.field_view(), false).len() as int + enc_item(self.1.field_view(), false).len() as int + enc_item(self.2.field_view(), false).len() as int, enc_items(t.skip(4), false));
        }
        assert(parse_field::<T4>(b.subrange(enc_item(self.0.field_view(), false).len() as int + enc_item(self.1.field_view(), false).len() as int + enc_item(self.2.field_view(), false).len() as int + enc_item(self.3.field_view(), false).len() as int, b.len() as int)) == Ok::<(ItemView, nat), Error>(
            (self.4.field_view(), enc_item(self.4.field_view(), false).len()),
        ) && b.subrange(enc_item(self.0.field_view(), false).len() as int + enc_item(self.1.field_view(), false).len() as int + enc_item(self.2.field_view(), false).len() as int + enc_item(self.3.field_view(), false).len() as int + enc_item(self.4.field_view(), false).len() as int, b.len() as int) == enc_items(t.skip(5), false)) by {
            assert(t[4] == self.4.field_view());
            assert(t.skip(4)[0] == t[4]);
            assert(t.skip(4).subrange(1, t.skip(4).len() as int) =~= t.skip(5));
            self.4.lemma_field_view();
            assert(t.skip(5)[0] == self.5.field_view());
            self.5.lemma_field_view();
            lemma_first_byte(self.5.field_view(), false);
            lemma_field_step(&self.4, b, enc_item(self.0.field_view(), false).len() as int + enc_item(self.1.field_view(), false).len() as int + enc_item(self.2.field_view(), false).len() as int + enc_item(self.3.field_view(), false).len() as int, enc_items(t.skip(5), false));
        }
        assert(parse_field::<T5>(b.subrange(enc_item(self.0.field_view(), false).len() as int + enc_item(self.1.field_view(), false).len() as int + enc_item(self.2.field_view(), false).len() as int + enc_item(self.3.field_view(), false).len() as int + enc_item(self.4.field_view(), false).len() as int, b.len() as int)) == Ok::<(ItemView, nat), Error>(
            (self.5.field_view(), enc_item(self.5.field_view(), false).len()),
        ) && b.subrange(enc_item(self.0.field_view(), false).len() as int + enc_item(self.1.field_view(), false).len() as int + enc_item(self.2.field_view(), false).len() as int + enc_item(self.3.field_view(), false).len() as int + enc_item(self.4.field_view(), false).len() as int + enc_item(self.5.field_view(), false).len() as int, b.len() as int) == enc_items(t.skip(6), false)) by {
            assert(t[5] == self.5.field_view());
            assert(t.skip(5)[0] == t[5]);
            assert(t.skip(5).subrange(1, t.skip(5).len() as int) =~= t.skip(6));
            self.5.lemma_field_view();
            assert(t.skip(6)[0] == self.6.field_view());
            self.6.lemma_field_view();
            lemma_first_byte(self.6.field_view(), false);
            lemma_field_step(&self.5, b, enc_item(self.0.field_view(), false).len() as int + enc_item(self.1.field_view(), false).len() as int + enc_item(self.2.field_view(), false).len() as int + enc_item(self.3.field_view(), false).len() as int + enc_item(self.4.field_view(), false).len() as int, enc_items(t.skip(6), false));
        }
        assert(parse_field::<T6>(b.subrange(enc_item(self.0.field_view(), false).len() as int + enc_item(self.1.field_view(), false).len() as int + enc_item(self.2.field_view(), false).len() as int + enc_item(self.3.field_view(), false).len() as int + enc_item(self.4.field_view(), false).len() as int + enc_item(self.5.field_view(), false).len() as int, b.len() as int)) == Ok::<(ItemView, nat), Error>(
            (self.6.field_view(), enc_item(self.6.field_view(), false).len()),
        ) && b.subrange(enc_item(self.0.field_view(), false).len() as int + enc_item(self.1.field_view(), false).len() as int + enc_item(self.2.field_view(), false).len() as int + enc_item(self.3.field_view(), false).len() as int + enc_item(self.4.field_view(), false).len() as int + enc_item(self.5.field_view(), false).len() as int + enc_item(self.6.field_view(), false).len() as int, b.len() as int) == enc_items(t.skip(7), false)) by {
            assert(t[6] == self.6.field_view());
            assert(t.skip(6)[0] == t[6]);
            assert(t.skip(6).subrange(1, t.skip(6).len() as int) =~= t.skip(7));
            self.6.lemma_field_view();
            assert(t.skip(7)[0] == self.7.field_view());
            self.7.lemma_field_view();
            lemma_first_byte(self.7.field_view(), false);
            lemma_field_step(&self.6, b, enc_item(self.0.field_view(), false).len() as int + enc_item(self.1.field_view(), false).len() as int + enc_item(self.2.field_view(), false).len() as int + enc_item(self.3.field_view(), false).len() as int + enc_item(self.4.field_view(), false).len() as int + enc_item(self.5.field_view(), false).len() as int, enc_items(t.skip(7), false));
        }
        assert(parse_field::<T7>(b.subrange(enc_item(self.0.field_view(), false).len() as int + enc_item(self.1.field_view(), false).len() as int + enc_item(self.2.field_view(), false).len() as int + enc_item(self.3.field_view(), false).len() as int + enc_item(self.4.field_view(), false).len() as int + enc_item(self.5.field_view(), false).len() as int + enc_item(self.6.field_view(), false).len() as int, b.len() as int)) == Ok::<(ItemView, nat), Error>(
            (self.7.field_view(), enc_item(self.7.field_view(), false).len()),
        ) && b.subrange(enc_item(self.0.field_view(), false).len() as int + enc_item(self.1.field_view(), false).len() as int + enc_item(self.2.field_view(), false).len() as int + enc_item(self.3.field_view(), false).len() as int + enc_item(self.4.field_view(), false).len() as int + enc_item(self.5.field_view(), false).len() as int + enc_item(self.6.field_view(), false).len() as int + enc_item(self.7.field_view(), false).len() as int, b.len() as int) == enc_items(t.skip(8), false)) by {
            assert(t[7] == self.7.field_view());
            assert(t.skip(7)[0] == t[7]);
            assert(t.skip(7).subrange(1, t.skip(7).len() as int) =~= t.skip(8));
            self.7.lemma_field_view();
            lemma_field_step(&self.7, b, enc_item(self.0.field_view(), false).len() as int + enc_item(self.1.field_view(), false).len() as int + enc_item(self.2.field_view(), false).len() as int + enc_item(self.3.field_view(), false).len() as int + enc_item(self.4.field_view(), false).len() as int + enc_item(self.5.field_view(), false).len() as int + enc_item(self.6.field_view(), false).len() as int, enc_items(t.skip(8), false));
        }
    }
}

impl<T0: Field, T1: Field, T2: Field, T3: Field, T4: Field, T5: Field, T6: Field, T7: Field, T8: Field> Encode for (T0, T1, T2, T3, T4, T5, T6, T7, T8) {
    open spec fn encoding(&self) -> Seq<u8> {
        enc_items(seq![self.0.field_view(), self.1.field_view(), self.2.field_view(), self.3.field_view(), self.4.field_view(), self.5.field_view(), self.6.field_view(), self.7.field_view(), self.8.field_view()], false)
    }

    #[verifier::rlimit(100)]
    #[verifier::spinoff_prover]
    fn encode(&self, out: &mut Vec<u8>) {
        let ghost t = seq![self.0.field_view(), self.1.field_view(), self.2.field_view(), self.3.field_view(), self.4.field_view(), self.5.field_view(), self.6.field_view(), self.7.field_view(), self.8.field_view()];
        assert(t.take(0) =~= Seq::<ItemView>::empty());
        assert(old(out)@ + enc_items(t.take(0), false) =~= old(out)@);
        self.0.encode_field(out);
        proof {
            assert(t.take(1) =~= t.take(0) + seq![t[0]]);
            lemma_enc_items_concat(t.take(0), seq![t[0]], false);
            lemma_enc_items_single(t[0], false);
        }
        assert(out@ =~= old(out)@ + enc_items(t.take(1), false));
        self.1.encode_field(out);
        proof {
            assert(t.take(2) =~= t.take(1) + seq![t[1]]);
            lemma_enc_items_concat(t.take(1), seq![t[1]], false);
            lemma_enc_items_single(t[1], false);
        }
        assert(out@ =~= old(out)@ + enc_items(t.take(2), false));
        self.2.encode_field(out);
        proof {
            assert(t.take(3) =~= t.take(2) + seq![t[2]]);
            lemma_enc_items_concat(t.take(2), seq![t[2]], false);
            lemma_enc_items_single(t[2], false);
        }
        assert(out@ =~= old(out)@ + enc_items(t.take(3), false));
        self.3.encode_field(out);
        proof {
            assert(t.take(4) =~= t.take(3) + seq![t[3]]);
            lemma_enc_items_concat(t.take(3), seq![t[3]], false);
            lemma_enc_items_single(t[3], false);
        }
        assert(out@ =~= old(out)@ + enc_items(t.take(4), false));
        self.4.encode_field(out);
        proof {
            assert(t.take(5) =~= t.take(4) + seq![t[4]]);
            lemma_enc_items_concat(t.take(4), seq![t[4]], false);
            lemma_enc_items_single(t[4], false);
        }
        assert(out@ =~= old(out)@ + enc_items(t.take(5), false));
        self.5.encode_field(out);
        proof {
            assert(t.take(6) =~= t.take(5) + seq![t[5]]);
            lemma_enc_items_concat(t.take(5), seq![t[5]], false);
            lemma_enc_items_single(t[5], false);
        }
        assert(out@ =~= old(out)@ + enc_items(t.take(6), false));
        self.6.encode_field(out);
        proof {
            assert(t.take(7) =~= t.take(6) + seq![t[6]]);
            lemma_enc_items_concat(t.take(6), seq![t[6]], false);
            lemma_enc_items_single(t[6], false);
        }
        assert(out@ =~= old(out)@ + enc_items(t.take(7), false));
        self.7.encode_field(out);
        proof {
            assert(t.take(8) =~= t.take(7) + seq![t[7]]);
            lemma_enc_items_concat(t.take(7), seq![t[7]], false);
            lemma_enc_items_single(t[7], false);
        }
        assert(out@ =~= old(out)@ + enc_items(t.take(8), false));
        self.8.encode_field(out);
        proof {
            assert(t.take(9) =~= t.take(8) + seq![t[8]]);
            lemma_enc_items_concat(t.take(8), seq![t[8]], false);
            lemma_enc_items_single(t[8], false);
        }
        assert(out@ =~= old(out)@ + enc_items(t.take(9), false));
        assert(t.take(9) =~= t);
    }
}

impl<T0: Field, T1: Field, T2: Field, T3: Field, T4: Field, T5: Field, T6: Field, T7: Field, T8: Field> Decode for (T0, T1, T2, T3, T4, T5, T6, T7, T8) {
    open spec fn decodes_to(b: Seq<u8>, r: Result<Self, Error>) -> bool {
        match parse_field::<T0>(b.subrange(0, b.len() as int)) {
            Err(e) => r == Err::<Self, Error>(e),
            Ok((v0, n0)) => 
                match parse_field::<T1>(b.subrange(n0 as int, b.len() as int)) {
                    Err(e) => r == Err::<Self, Error>(e),
                    Ok((v1, n1)) => 
                        match parse_field::<T2>(b.subrange(n0 as int + n1 as int, b.len() as int)) {
                            Err(e) => r == Err::<Self, Error>(e),
                            Ok((v2, n2)) => 
                                match parse_field::<T3>(b.subrange(n0 as int + n1 as int + n2 as int, b.len() as int)) {
                                    Err(e) => r == Err::<Self, Error>(e),
                                    Ok((v3, n3)) => 
                                        match parse_field::<T4>(b.subrange(n0 as int + n1 as int + n2 as int + n3 as int, b.len() as int)) {
                                            Err(e) => r == Err::<Self, Error>(e),
                                            Ok((v4, n4)) => 
                                                match parse_field::<T5>(b.subrange(n0 as int + n1 as int + n2 as int + n3 as int + n4 as int, b.len() as int)) {
                                                    Err(e) => r == Err::<Self, Error>(e),
                                                    Ok((v5, n5)) => 
                                                        match parse_field::<T6>(b.subrange(n0 as int + n1 as int + n2 as int + n3 as int + n4 as int + n5 as int, b.len() as int)) {
                                                            Err(e) => r == Err::<Self, Error>(e),
                                                            Ok((v6, n6)) => 
                                                                match parse_field::<T7>(b.subrange(n0 as int + n1 as int + n2 as int + n3 as int + n4 as int + n5 as int + n6 as int, b.len() as int)) {
                                                                    Err(e) => r == Err::<Self, Error>(e),
                                                                    Ok((v7, n7)) => 
                                                                        match parse_field::<T8>(b.subrange(n0 as int + n1 as int + n2 as int + n3 as int + n4 as int + n5 as int + n6 as int + n7 as int, b.len() as int)) {
                                                                            Err(e) => r == Err::<Self, Error>(e),
                                                                            Ok((v8, n8)) => if n0 as int + n1 as int + n2 as int + n3 as int + n4 as int + n5 as int + n6 as int + n7 as int + n8 as int == b.len() {
                                                                                match r {
                                                                                    Ok(x) => x.0.field_view() == v0
                                                                                        && x.1.field_view() == v1
                                                                                        && x.2.field_view() == v2
                                                                                        && x.3.field_view() == v3
                                                                                        && x.4.field_view() == v4
                                                                                        && x.5.field_view() == v5
                                                                                        && x.6.field_view() == v6
                                                                                        && x.7.field_view() == v7
                                                                                        && x.8.field_view() == v8,
                                                                                    Err(_) => false,
                                                                                }
                                                                            } else {
                                                                                r == Err::<Self, Error>(Error::InvalidData)
                                                                            },
                                                                        },
                                                                },
                                                        },
                                                },
                                        },
                                },
                        },
                },
        }
    }

    fn decode(buf: &[u8]) -> (r: Result<Self, Error>) {
        let len: usize = buf.len();
        let p0: usize = 0;
        assert(buf@.subrange(0, buf@.len() as int) =~= buf@);
        let (f0, n0) = match decode_field::<T0>(buf, p0) {
            Ok((f, n)) => (f, n),
            Err(e) => {
                return Err(e);
            },
        };
        let p1: usize = p0 + n0;
        let (f1, n1) = match decode_field::<T1>(buf, p1) {
            Ok((f, n)) => (f, n),
            Err(e) => {
                return Err(e);
            },
        };
        let p2: usize = p1 + n1;
        let (f2, n2) = match decode_field::<T2>(buf, p2) {
            Ok((f, n)) => (f, n),
            Err(e) => {
                return Err(e);
            },
        };
        let p3: usize = p2 + n2;
        let (f3, n3) = match decode_field::<T3>(buf, p3) {
            Ok((f, n)) => (f, n),
            Err(e) => {
                return Err(e);
            },
        };
        let p4: usize = p3 + n3;
        let (f4, n4) = match decode_field::<T4>(buf, p4) {
            Ok((f, n)) => (f, n),
            Err(e) => {
                return Err(e);
            },
        };
        let p5: usize = p4 + n4;
        let (f5, n5) = match decode_field::<T5>(buf, p5) {
            Ok((f, n)) => (f, n),
            Err(e) => {
                return Err(e);
            },
        };
        let p6: usize = p5 + n5;
        let (f6, n6) = match decode_field::<T6>(buf, p6) {
            Ok((f, n)) => (f, n),
            Err(e) => {
                return Err(e);
            },
        };
        let p7: usize = p6 + n6;
        let (f7, n7) = match decode_field::<T7>(buf, p7) {
            Ok((f, n)) => (f, n),
            Err(e) => {
                return Err(e);
            },
        };
        let p8: usize = p7 + n7;
        let (f8, n8) = match decode_field::<T8>(buf, p8) {
            Ok((f, n)) => (f, n),
            Err(e) => {
                return Err(e);
            },
        };
        let p9: usize = p8 + n8;
        if p9 != len {
            return Err(Error::InvalidData);
        }
        Ok((f0, f1, f2, f3, f4, f5, f6, f7, f8))
    }
}

impl<T0: Field, T1: Field, T2: Field, T3: Field, T4: Field, T5: Field, T6: Field, T7: Field, T8: Field> FixedTuple for (T0, T1, T2, T3, T4, T5, T6, T7, T8) {
    open spec fn same_fields(&self, other: &Self) -> bool {
        self.0.field_view() == other.0.field_view()
            && self.1.field_view() == other.1.field_view()
            && self.2.field_view() == other.2.field_view()
            && self.3.field_view() == other.3.field_view()
            && self.4.field_view() == other.4.field_view()
            && self.5.field_view() == other.5.field_view()
            && self.6.field_view() == other.6.field_view()
            && self.7.field_view() == other.7.field_view()
            && self.8.field_view() == other.8.field_view()
    }

    #[verifier::rlimit(100)]
    #[verifier::spinoff_prover]
    proof fn lemma_round_trip(&self) {
        let t = seq![self.0.field_view(), self.1.field_view(), self.2.field_view(), self.3.field_view(), self.4.field_view(), self.5.field_view(), self.6.field_view(), self.7.field_view(), self.8.field_view()];
        let b = self.encoding();
        assert(t.skip(9) =~= Seq::<ItemView>::empty());
        assert(t.take(0) =~= Seq::<ItemView>::empty());
        assert(b.subrange(0, b.len() as int) == enc_items(t.skip(0), false)) by {
            assert(b.subrange(0, b.len() as int) =~= b);
            assert(t.skip(0) =~= t);
        }
        assert(parse_field::<T0>(b.subrange(0, b.len() as int)) == Ok::<(ItemView, nat), Error>(
            (self.0.field_view(), enc_item(self.0.field_view(), false).len()),
        ) && b.subrange(enc_item(self.0.field_view(), false).len() as int, b.len() as int) == enc_items(t.skip(1), false)) by {
            assert(t[0] == self.0.field_view());
            assert(t.skip(0)[0] == t[0]);
            assert(t.skip(0).subrange(1, t.skip(0).len() as int) =~= t.skip(1));
            self.0.lemma_field_view();
            assert(t.skip(1)[0] == self.1.field_view());
            self.1.lemma_field_view();
            lemma_first_byte(self.1.field_view(), false);
            lemma_field_step(&self.0, b, 0, enc_items(t.skip(1), false));
        }
        assert(parse_field::<T1>(b.subrange(enc_item(self.0.field_view(), false).len() as int, b.len() as int)) == Ok::<(ItemView, nat), Error>(
            (self.1.field_view(), enc_item(self.1.field_view(), false).len()),
        ) && b.subrange(enc_item(self.0.field_view(), false).len() as int + enc_item(self.1.field_view(), false).len() as int, b.len() as int) == enc_items(t.skip(2), false)) by {
            assert(t[1] == self.1.field_view());
            assert(t.skip(1)[0] == t[1]);
            assert(t.skip(1).subrange(1, t.skip(1).len() as int) =~= t.skip(2));
            self.1.lemma_field_view();
            assert(t.skip(2)[0] == self.2.field_view());
            self.2.lemma_field_view();
            lemma_first_byte(self.2.field_view(), false);
            lemma_field_step(&self.1, b, enc_item(self.0.field_view(), false).len() as int, enc_items(t.skip(2), false));
        }
        assert(parse_field::<T2>(b.subrange(enc_item(self.0.field_view(), false).len() as int + enc_item(self.1.field_view(), false).len() as int, b.len() as int)) == Ok::<(ItemView, nat), Error>(
            (self.2.field_view(), enc_item(self.2.field_view(), false).len()),
        ) && b.subrange(enc_item(self.0.field_view(), false).len() as int + enc_item(self.1.field_view(), false).len() as int + enc_item(self.2.field_view(), false).len() as int, b.len() as int) == enc_items(t.skip(3), false)) by {
            assert(t[2] == self.2.field_view());
            assert(t.skip(2)[0] == t[2]);
            assert(t.skip(2).subrange(1, t.skip(2).len() as int) =~= t.skip(3));
            self.2.lemma_field_view();
            assert(t.skip(3)[0] == self.3.field_view());
            self.3.lemma_field_view();
            lemma_first_byte(self.3.field_view(), false);
            lemma_field_step(&self.2, b, enc_item(self.0.field_view(), false).len() as int + enc_item(self.1.field_view(), false).len() as int, enc_items(t.skip(3), false));
        }
        assert(parse_field::<T3>(b.subrange(enc_item(self.0.field_view(), false).len() as int + enc_item(self.1.field_view(), false).len() as int + enc_item(self.2.field_view(), false).len() as int, b.len() as int)) == Ok::<(ItemView, nat), Error>(
            (self.3.field_view(), enc_item(self.3.field_view(), false).len()),
        ) && b.subrange(enc_item(self.0.field_view(), false).len() as int + enc_item(self.1.field_view(), false).len() as int + enc_item(self.2.field_view(), false).len() as int + enc_item(self.3.field_view(), false).len() as int, b.len() as int) == enc_items(t.skip(4), false)) by {
            assert(t[3] == self.3.field_view());
            assert(t.skip(3)[0] == t[3]);
            assert(t.skip(3).subrange(1, t.skip(3).len() as int) =~= t.skip(4));
            self.3.lemma_field_view();
            assert(t.skip(4)[0] == self.4.field_view());
            self.4.lemma_field_view();
            lemma_first_byte(self.4.field_view(), false);
            lemma_field_step(&self.3, b, enc_item(self.0.field_view(), false).len() as int + enc_item(self.1.field_view(), false).len() as int + enc_item(self.2.field_view(), false).len() as int, enc_items(t.skip(4), false));
        }
        assert(parse_field::<T4>(b.subrange(enc_item(self.0.field_view(), false).len() as int + enc_item(self.1.field_view(), false).len() as int + enc_item(self.2.field_view(), false).len() as int + enc_item(self.3.field_view(), false).len() as int, b.len() as int)) == Ok::<(ItemView, nat), Error>(
            (self.4.field_view(), enc_item(self.4.field_view(), false).len()),
        ) && b.subrange(enc_item(self.0.field_view(), false).len() as int + enc_item(self.1.field_view(), false).len() as int + enc_item(self.2.field_view(), false).len() as int + enc_item(self.3.field_view(), false).len() as int + enc_item(self.4.field_view(), false).len() as int, b.len() as int) == enc_items(t.skip(5), false)) by {
            assert(t[4] == self.4.field_view());
            assert(t.skip(4)[0] == t[4]);
            assert(t.skip(4).subrange(1, t.skip(4).len() as int) =~= t.skip(5));
            self.4.lemma_field_view();
            assert(t.skip(5)[0] == self.5.field_view());
            self.5.lemma_field_view();
            lemma_first_byte(self.5.field_view(), false);
            lemma_field_step(&self.4, b, enc_item(self.0.field_view(), false).len() as int + enc_item(self.1.field_view(), false).len() as int + enc_item(self.2.field_view(), false).len() as int + enc_item(self.3.field_view(), false).len() as int, enc_items(t.skip(5), false));
        }
        assert(parse_field::<T5>(b.subrange(enc_item(self.0.field_view(), false).len() as int + enc_item(self.1.field_view(), false).len() as int + enc_item(self.2.field_view(), false).len() as int + enc_item(self.3.field_view(), false).len() as int + enc_item(self.4.field_view(), false).len() as int, b.len() as int)) == Ok::<(ItemView, nat), Error>(
            (self.5.field_view(), enc_item(self.5.field_view(), false).len()),
        ) && b.subrange(enc_item(self.0.field_view(), false).len() as int + enc_item(self.1.field_view(), false).len() as int + enc_item(self.2.field_view(), false).len() as int + enc_item(self.3.field_view(), false).len() as int + enc_item(self.4.field_view(), false).len() as int + enc_item(self.5.field_view(), false).len() as int, b.len() as int) == enc_items(t.skip(6), false)) by {
            assert(t[5] == self.5.field_view());
            assert(t.skip(5)[0] == t[5]);
            assert(t.skip(5).subrange(1, t.skip(5).len() as int) =~= t.skip(6));
            self.5.lemma_field_view();
            assert(t.skip(6)[0] == self.6.field_view());
            self.6.lemma_field_view();
            lemma_first_byte(self.6.field_view(), false);
            lemma_field_step(&self.5, b, enc_item(self.0.field_view(), false).len() as int + enc_item(self.1.field_view(), false).len() as int + enc_item(self.2.field_view(), false).len() as int + enc_item(self.3.field_view(), false).len() as int + enc_item(self.4.field_view(), false).len() as int, enc_items(t.skip(6), false));
        }
        assert(parse_field::<T6>(b.subrange(enc_item(self.0.field_view(), false).len() as int + enc_item(self.1.field_view(), false).len() as int + enc_item(self.2.field_view(), false).len() as int + enc_item(self.3.field_view(), false).len() as int + enc_item(self.4.field_view(), false).len() as int + enc_item(self.5.field_view(), false).len() as int, b.len() as int)) == Ok::<(ItemView, nat), Error>(
            (self.6.field_view(), enc_item(self.6.field_view(), false).len()),
        ) && b.subrange(enc_item(self.0.field_view(), false).len() as int + enc_item(self.1.field_view(), false).len() as int + enc_item(self.2.field_view(), false).len() as int + enc_item(self.3.field_view(), false).len() as int + enc_item(self.4.field_view(), false).len() as int + enc_item(self.5.field_view(), false).len() as int + enc_item(self.6.field_view(), false).len() as int, b.len() as int) == enc_items(t.skip(7), false)) by {
            assert(t[6] == self.6.field_view());
            assert(t.skip(6)[0] == t[6]);
            assert(t.skip(6).subrange(1, t.skip(6).len() as int) =~= t.skip(7));
            self.6.lemma_field_view();
            assert(t.skip(7)[0] == self.7.field_view());
            self.7.lemma_field_view();
            lemma_first_byte(self.7.field_view(), false);
            lemma_field_step(&self.6, b, enc_item(self.0.field_view(), false).len() as int + enc_item(self.1.field_view(), false).len() as int + enc_item(self.2.field_view(), false).len() as int + enc_item(self.3.field_view(), false).len() as int + enc_item(self.4.field_view(), false).len() as int + enc_item(self.5.field_view(), false).len() as int, enc_items(t.skip(7), false));
        }
        assert(parse_field::<T7>(b.subrange(enc_item(self.0.field_view(), false).len() as int + enc_item(self.1.field_view(), false).len() as int + enc_item(self.2.field_view(), false).len() as int + enc_item(self.3.field_view(), false).len() as int + enc_item(self.4.field_view(), false).len() as int + enc_item(self.5.field_view(), false).len() as int + enc_item(self.6.field_view(), false).len() as int, b.len() as int)) == Ok::<(ItemView, nat), Error>(
            (self.7.field_view(), enc_item(self.7.field_view(), false).len()),
        ) && b.subrange(enc_item(self.0.field_view(), false).len() as int + enc_item(self.1.field_view(), false).len() as int + enc_item(self.2.field_view(), false).len() as int + enc_item(self.3.field_view(), false).len() as int + enc_item(self.4.field_view(), false).len() as int + enc_item(self.5.field_view(), false).len() as int + enc_item(self.6.field_view(), false).len() as int + enc_item(self.7.field_view(), false).len() as int, b.len() as int) == enc_items(t.skip(8), false)) by {
            assert(t[7] == self.7.field_view());
            assert(t.skip(7)[0] == t[7]);
            assert(t.skip(7).subrange(1, t.skip(7).len() as int) =~= t.skip(8));
            self.7.lemma_field_view();
            assert(t.skip(8)[0] == self.8.field_view());
            self.8.lemma_field_view();
            lemma_first_byte(self.8.field_view(), false);
            lemma_field_step(&self.7, b, enc_item(self.0.field_view(), false).len() as int + enc_item(self.1.field_view(), false).len() as int + enc_item(self.2.field_view(), false).len() as int + enc_item(self.3.field_view(), false).len() as int + enc_item(self.4.field_view(), false).len() as int + enc_item(self.5.field_view(), false).len() as int + enc_item(self.6.field_view(), false).len() as int, enc_items(t.skip(8), false));
        }
        assert(parse_field::<T8>(b.subrange(enc_item(self.0.field_view(), false).len() as int + enc_item(self.1.field_view(), false).len() as int + enc_item(self.2.field_view(), false).len() as int + enc_item(self.3.field_view(), false).len() as int + enc_item(self.4.field_view(), false).len() as int + enc_item(self.5.field_view(), false).len() as int + enc_item(self.6.field_view(), false).len() as int + enc_item(self.7.field_view(), false).len() as int, b.len() as int)) == Ok::<(ItemView, nat), Error>(
            (self.8.field_view(), enc_item(self.8.field_view(), false).len()),
        ) && b.subrange(enc_item(self.0.field_view(), false).len() as int + enc_item(self.1.field_view(), false).len() as int + enc_item(self.2.field_view(), false).len() as int + enc_item(self.3.field_view(), false).len() as int + enc_item(self.4.field_view(), false).len() as int + enc_item(self.5.field_view(), false).len() as int + enc_item(self.6.field_view(), false).len() as int + enc_item(self.7.field_view(), false).len() as int + enc_item(self.8.field_view(), false).len() as int, b.len() as int) == enc_items(t.skip(9), false)) by {
            assert(t[8] == self.8.field_view());
            assert(t.skip(8)[0] == t[8]);
            assert(t.skip(8).subrange(1, t.skip(8).len() as int) =~= t.skip(9));
            self.8.lemma_field_view();
            lemma_field_step(&self.8, b, enc_item(self.0.field_view(), false).len() as int + enc_item(self.1.field_view(), false).len() as int + enc_item(self.2.field_view(), false).len() as int + enc_item(self.3.field_view(), false).len() as int + enc_item(self.4.field_view(), false).len() as int + enc_item(self.5.field_view(), false).len() as int + enc_item(self.6.field_view(), false).len() as int + enc_item(self.7.field_view(), false).len() as int, enc_items(t.skip(9), false));
        }
    }
}

impl<T0: Field, T1: Field, T2: Field, T3: Field, T4: Field, T5: Field, T6: Field, T7: Field, T8: Field, T9: Field> Encode for (T0, T1, T2, T3, T4, T5, T6, T7, T8, T9) {
    open spec fn encoding(&self) -> Seq<u8> {
        enc_items(seq![self.0.field_view(), self.1.field_view(), self.2.field_view(), self.3.field_view(), self.4.field_view(), self.5.field_view(), self.6.field_view(), self.7.field_view(), self.8.field_view(), self.9.field_view()], false)
    }

    #[verifier::rlimit(100)]
    #[verifier::spinoff_prover]
    fn encode(&self, out: &mut Vec<u8>) {
        let ghost t = seq![self.0.field_view(), self.1.field_view(), self.2.field_view(), self.3.field_view(), self.4.field_view(), self.5.field_view(), self.6.field_view(), self.7.field_view(), self.8.field_view(), self.9.field_view()];
        assert(t.take(0) =~= Seq::<ItemView>::empty());
        assert(old(out)@ + enc_items(t.take(0), false) =~= old(out)@);
        self.0.encode_field(out);
        proof {
            assert(t.take(1) =~= t.take(0) + seq![t[0]]);
            lemma_enc_items_concat(t.take(0), seq![t[0]], false);
            lemma_enc_items_single(t[0], false);
        }
        assert(out@ =~= old(out)@ + enc_items(t.take(1), false));
        self.1.encode_field(out);
        proof {
            assert(t.take(2) =~= t.take(1) + seq![t[1]]);
            lemma_enc_items_concat(t.take(1), seq![t[1]], false);
            lemma_enc_items_single(t[1], false);
        }
        assert(out@ =~= old(out)@ + enc_items(t.take(2), false));
        self.2.encode_field(out);
        proof {
            assert(t.take(3) =~= t.take(2) + seq![t[2]]);
            lemma_enc_items_concat(t.take(2), seq![t[2]], false);
            lemma_enc_items_single(t[2], false);
        }
        assert(out@ =~= old(out)@ + enc_items(t.take(3), false));
        self.3.encode_field(out);
        proof {
            assert(t.take(4) =~= t.take(3) + seq![t[3]]);
            lemma_enc_items_concat(t.take(3), seq![t[3]], false);
            lemma_enc_items_single(t[3], false);
        }
        assert(out@ =~= old(out)@ + enc_items(t.take(4), false));
        self.4.encode_field(out);
        proof {
            assert(t.take(5) =~= t.take(4) + seq![t[4]]);
            lemma_enc_items_concat(t.take(4), seq![t[4]], false);
            lemma_enc_items_single(t[4], false);
        }
        assert(out@ =~= old(out)@ + enc_items(t.take(5), false));
        self.5.encode_field(out);
        proof {
            assert(t.take(6) =~= t.take(5) + seq![t[5]]);
            lemma_enc_items_concat(t.take(5), seq![t[5]], false);
            lemma_enc_items_single(t[5], false);
        }
        assert(out@ =~= old(out)@ + enc_items(t.take(6), false));
        self.6.encode_field(out);
        proof {
            assert(t.take(7) =~= t.take(6) + seq![t[6]]);
            lemma_enc_items_concat(t.take(6), seq![t[6]], false);
            lemma_enc_items_single(t[6], false);
        }
        assert(out@ =~= old(out)@ + enc_items(t.take(7), false));
        self.7.encode_field(out);
        proof {
            assert(t.take(8) =~= t.take(7) + seq![t[7]]);
            lemma_enc_items_concat(t.take(7), seq![t[7]], false);
            lemma_enc_items_single(t[7], false);
        }
        assert(out@ =~= old(out)@ + enc_items(t.take(8), false));
        self.8.encode_field(out);
        proof {
            assert(t.take(9) =~= t.take(8) + seq![t[8]]);
            lemma_enc_items_concat(t.take(8), seq![t[8]], false);
            lemma_enc_items_single(t[8], false);
        }
        assert(out@ =~= old(out)@ + enc_items(t.take(9), false));
        self.9.encode_field(out);
        proof {
            assert(t.take(10) =~= t.take(9) + seq![t[9]]);
            lemma_enc_items_concat(t.take(9), seq![t[9]], false);
            lemma_enc_items_single(t[9], false);
        }
        assert(out@ =~= old(out)@ + enc_items(t.take(10), false));
        assert(t.take(10) =~= t);
    }
}

impl<T0: Field, T1: Field, T2: Field, T3: Field, T4: Field, T5: Field, T6: Field, T7: Field, T8: Field, T9: Field> Decode for (T0, T1, T2, T3, T4, T5, T6, T7, T8, T9) {
    open spec fn decodes_to(b: Seq<u8>, r: Result<Self, Error>) -> bool {
        match parse_field::<T0>(b.subrange(0, b.len() as int)) {
            Err(e) => r == Err::<Self, Error>(e),
            Ok((v0, n0)) => 
                match parse_field::<T1>(b.subrange(n0 as int, b.len() as int)) {
                    Err(e) => r == Err::<Self, Error>(e),
                    Ok((v1, n1)) => 
                        match parse_field::<T2>(b.subrange(n0 as int + n1 as int, b.len() as int)) {
                            Err(e) => r == Err::<Self, Error>(e),
                            Ok((v2, n2)) => 
                                match parse_field::<T3>(b.subrange(n0 as int + n1 as int + n2 as int, b.len() as int)) {
                                    Err(e) => r == Err::<Self, Error>(e),
                                    Ok((v3, n3)) => 
                                        match parse_field::<T4>(b.subrange(n0 as int + n1 as int + n2 as int + n3 as int, b.len() as int)) {
                                            Err(e) => r == Err::<Self, Error>(e),
                                            Ok((v4, n4)) => 
                                                match parse_field::<T5>(b.subrange(n0 as int + n1 as int + n2 as int + n3 as int + n4 as int, b.len() as int)) {
                                                    Err(e) => r == Err::<Self, Error>(e),
                                                    Ok((v5, n5)) => 
                                                        match parse_field::<T6>(b.subrange(n0 as int + n1 as int + n2 as int + n3 as int + n4 as int + n5 as int, b.len() as int)) {
                                                            Err(e) => r == Err::<Self, Error>(e),
                                                            Ok((v6, n6)) => 
                                                                match parse_field::<T7>(b.subrange(n0 as int + n1 as int + n2 as int + n3 as int + n4 as int + n5 as int + n6 as int, b.len() as int)) {
                                                                    Err(e) => r == Err::<Self, Error>(e),
                                                                    Ok((v7, n7)) => 
                                                                        match parse_field::<T8>(b.subrange(n0 as int + n1 as int + n2 as int + n3 as int + n4 as int + n5 as int + n6 as int + n7 as int, b.len() as int)) {
                                                                            Err(e) => r == Err::<Self, Error>(e),
                                                                            Ok((v8, n8)) => 
                                                                                match parse_field::<T9>(b.subrange(n0 as int + n1 as int + n2 as int + n3 as int + n4 as int + n5 as int + n6 as int + n7 as int + n8 as int, b.len() as int)) {
                                                                                    Err(e) => r == Err::<Self, Error>(e),
                                                                                    Ok((v9, n9)) => if n0 as int + n1 as int + n2 as int + n3 as int + n4 as int + n5 as int + n6 as int + n7 as int + n8 as int + n9 as int == b.len() {
                                                                                        match r {
                                                                                            Ok(x) => x.0.field_view() == v0
                                                                                                && x.1.field_view() == v1
                                                                                                && x.2.field_view() == v2
                                                                                                && x.3.field_view() == v3
                                                                                                && x.4.field_view() == v4
                                                                                                && x.5.field_view() == v5
                                                                                                && x.6.field_view() == v6
                                                                                                && x.7.field_view() == v7
                                                                                                && x.8.field_view() == v8
                                                                                                && x.9.field_view() == v9,
                                                                                            Err(_) => false,
                                                                                        }
                                                                                    } else {
                                                                                        r == Err::<Self, Error>(Error::InvalidData)
                                                                                    },
                                                                                },
                                                                        },
                                                                },
                                                        },
                                                },
                                        },
                                },
                        },
                },
        }
    }

    fn decode(buf: &[u8]) -> (r: Result<Self, Error>) {
        let len: usize = buf.len();
        let p0: usize = 0;
        assert(buf@.subrange(0, buf@.len() as int) =~= buf@);
        let (f0, n0) = match decode_field::<T0>(buf, p0) {
            Ok((f, n)) => (f, n),
            Err(e) => {
                return Err(e);
            },
        };
        let p1: usize = p0 + n0;
        let (f1, n1) = match decode_field::<T1>(buf, p1) {
            Ok((f, n)) => (f, n),
            Err(e) => {
                return Err(e);
            },
        };
        let p2: usize = p1 + n1;
        let (f2, n2) = match decode_field::<T2>(buf, p2) {
            Ok((f, n)) => (f, n),
            Err(e) => {
                return Err(e);
            },
        };
        let p3: usize = p2 + n2;
        let (f3, n3) = match decode_field::<T3>(buf, p3) {
            Ok((f, n)) => (f, n),
            Err(e) => {
                return Err(e);
            },
        };
        let p4: usize = p3 + n3;
        let (f4, n4) = match decode_field::<T4>(buf, p4) {
            Ok((f, n)) => (f, n),
            Err(e) => {
                return Err(e);
            },
        };
        let p5: usize = p4 + n4;
        let (f5, n5) = match decode_field::<T5>(buf, p5) {
            Ok((f, n)) => (f, n),
            Err(e) => {
                return Err(e);
            },
        };
        let p6: usize = p5 + n5;
        let (f6, n6) = match decode_field::<T6>(buf, p6) {
            Ok((f, n)) => (f, n),
            Err(e) => {
                return Err(e);
            },
        };
        let p7: usize = p6 + n6;
        let (f7, n7) = match decode_field::<T7>(buf, p7) {
            Ok((f, n)) => (f, n),
            Err(e) => {
                return Err(e);
            },
        };
        let p8: usize = p7 + n7;
        let (f8, n8) = match decode_field::<T8>(buf, p8) {
            Ok((f, n)) => (f, n),
            Err(e) => {
                return Err(e);
            },
        };
        let p9: usize = p8 + n8;
        let (f9, n9) = match decode_field::<T9>(buf, p9) {
            Ok((f, n)) => (f, n),
            Err(e) => {
                return Err(e);
            },
        };
        let p10: usize = p9 + n9;
        if p10 != len {
            return Err(Error::InvalidData);
        }
        Ok((f0, f1, f2, f3, f4, f5, f6, f7, f8, f9))
    }
}

impl<T0: Field, T1: Field, T2: Field, T3: Field, T4: Field, T5: Field, T6: Field, T7: Field, T8: Field, T9: Field> FixedTuple for (T0, T1, T2, T3, T4, T5, T6, T7, T8, T9) {
    open spec fn same_fields(&self, other: &Self) -> bool {
        self.0.field_view() == other.0.field_view()
            && self.1.field_view() == other.1.field_view()
            && self.2.field_view() == other.2.field_view()
            && self.3.field_view() == other.3.field_view()
            && self.4.field_view() == other.4.field_view()
            && self.5.field_view() == other.5.field_view()
            && self.6.field_view() == other.6.field_view()
            && self.7.field_view() == other.7.field_view()
            && self.8.field_view() == other.8.field_view()
            && self.9.field_view() == other.9.field_view()
    }

    #[verifier::rlimit(100)]
    #[verifier::spinoff_prover]
    proof fn lemma_round_trip(&self) {
        let t = seq![self.0.field_view(), self.1.field_view(), self.2.field_view(), self.3.field_view(), self.4.field_view(), self.5.field_view(), self.6.field_view(), self.7.field_view(), self.8.field_view(), self.9.field_view()];
        let b = self.encoding();
        assert(t.skip(10) =~= Seq::<ItemView>::empty());
        assert(t.take(0) =~= Seq::<ItemView>::empty());
        assert(b.subrange(0, b.len() as int) == enc_items(t.skip(0), false)) by {
            assert(b.subrange(0, b.len() as int) =~= b);
            assert(t.skip(0) =~= t);
        }
        assert(parse_field::<T0>(b.subrange(0, b.len() as int)) == Ok::<(ItemView, nat), Error>(
            (self.0.field_view(), enc_item(self.0.field_view(), false).len()),
        ) && b.subrange(enc_item(self.0.field_view(), false).len() as int, b.len() as int) == enc_items(t.skip(1), false)) by {
            assert(t[0] == self.0.field_view());
            assert(t.skip(0)[0] == t[0]);
            assert(t.skip(0).subrange(1, t.skip(0).len() as int) =~= t.skip(1));
            self.0.lemma_field_view();
            assert(t.skip(1)[0] == self.1.field_view());
            self.1.lemma_field_view();
            lemma_first_byte(self.1.field_view(), false);
            lemma_field_step(&self.0, b, 0, enc_items(t.skip(1), false));
        }
        assert(parse_field::<T1>(b.subrange(enc_item(self.0.field_view(), false).len() as int, b.len() as int)) == Ok::<(ItemView, nat), Error>(
            (self.1.field_view(), enc_item(self.1.field_view(), false).len()),
        ) && b.subrange(enc_item(self.0.field_view(), false).len() as int + enc_item(self.1.field_view(), false).len() as int, b.len() as int) == enc_items(t.skip(2), false)) by {
            assert(t[1] == self.1.field_view());
            assert(t.skip(1)[0] == t[1]);
            assert(t.skip(1).subrange(1, t.skip(1).len() as int) =~= t.skip(2));
            self.1.lemma_field_view();
            assert(t.skip(2)[0] == self.2.field_view());
            self.2.lemma_field_view();
            lemma_first_byte(self.2.field_view(), false);
            lemma_field_step(&self.1, b, enc_item(self.0.field_view(), false).len() as int, enc_items(t.skip(2), false));
        }
        assert(parse_field::<T2>(b.subrange(enc_item(self.0.field_view(), false).len() as int + enc_item(self.1.field_view(), false).len() as int, b.len() as int)) == Ok::<(ItemView, nat), Error>(
            (self.2.field_view(), enc_item(self.2.field_view(), false).len()),
        ) && b.subrange(enc_item(self.0.field_view(), false).len() as int + enc_item(self.1.field_view(), false).len() as int + enc_item(self.2.field_view(), false).len() as int, b.len() as int) == enc_items(t.skip(3), false)) by {
            assert(t[2] == self.2.field_view());
            assert(t.skip(2)[0] == t[2]);
            assert(t.skip(2).subrange(1, t.skip(2).len() as int) =~= t.skip(3));
            self.2.lemma_field_view();
            assert(t.skip(3)[0] == self.3.field_view());
            self.3.lemma_field_view();
            lemma_first_byte(self.3.field_view(), false);
            lemma_field_step(&self.2, b, enc_item(self.0.field_view(), false).len() as int + enc_item(self.1.field_view(), false).len() as int, enc_items(t.skip(3), false));
        }
        assert(parse_field::<T3>(b.subrange(enc_item(self.0.field_view(), false).len() as int + enc_item(self.1.field_view(), false).len() as int + enc_item(self.2.field_view(), false).len() as int, b.len() as int)) == Ok::<(ItemView, nat), Error>(
            (self.3.field_view(), enc_item(self.3.field_view(), false).len()),
        ) && b.subrange(enc_item(self.0.field_view(), false).len() as int + enc_item(self.1.field_view(), false).len() as int + enc_item(self.2.field_view(), false).len() as int + enc_item(self.3.field_view(), false).len() as int, b.len() as int) == enc_items(t.skip(4), false)) by {
            assert(t[3] == self.3.field_view());
            assert(t.skip(3)[0] == t[3]);
            assert(t.skip(3).subrange(1, t.skip(3).len() as int) =~= t.skip(4));
            self.3.lemma_field_view();
            assert(t.skip(4)[0] == self.4.field_view());
            self.4.lemma_field_view();
            lemma_first_byte(self.4.field_view(), false);
            lemma_field_step(&self.3, b, enc_item(self.0.field_view(), false).len() as int + enc_item(self.1.field_view(), false).len() as int + enc_item(self.2.field_view(), false).len() as int, enc_items(t.skip(4), false));
        }
        assert(parse_field::<T4>(b.subrange(enc_item(self.0.field_view(), false).len() as int + enc_item(self.1.field_view(), false).len() as int + enc_item(self.2.field_view(), false).len() as int + enc_item(self.3.field_view(), false).len() as int, b.len() as int)) == Ok::<(ItemView, nat), Error>(
            (self.4.field_view(), enc_item(self.4.field_view(), false).len()),
        ) && b.subrange(enc_item(self.0.field_view(), false).len() as int + enc_item(self.1.field_view(), false).len() as int + enc_item(self.2.field_view(), false).len() as int + enc_item(self.3.field_view(), false).len() as int + enc_item(self.4.field_view(), false).len() as int, b.len() as int) == enc_items(t.skip(5), false)) by {
            assert(t[4] == self.4.field_view());
            assert(t.skip(4)[0] == t[4]);
            assert(t.skip(4).subrange(1, t.skip(4).len() as int) =~= t.skip(5));
            self.4.lemma_field_view();
            assert(t.skip(5)[0] == self.5.field_view());
            self.5.lemma_field_view();
            lemma_first_byte(self.5.field_view(), false);
            lemma_field_step(&self.4, b, enc_item(self.0.field_view(), false).len() as int + enc_item(self.1.field_view(), false).len() as int + enc_item(self.2.field_view(), false).len() as int + enc_item(self.3.field_view(), false).len() as int, enc_items(t.skip(5), false));
        }
        assert(parse_field::<T5>(b.subrange(enc_item(self.0.field_view(), false).len() as int + enc_item(self.1.field_view(), false).len() as int + enc_item(self.2.field_view(), false).len() as int + enc_item(self.3.field_view(), false).len() as int + enc_item(self.4.field_view(), false).len() as int, b.len() as int)) == Ok::<(ItemView, nat), Error>(
            (self.5.field_view(), enc_item(self.5.field_view(), false).len()),
        ) && b.subrange(enc_item(self.0.field_view(), false).len() as int + enc_item(self.1.field_view(), false).len() as int + enc_item(self.2.field_view(), false).len() as int + enc_item(self.3.field_view(), false).len() as int + enc_item(self.4.field_view(), false).len() as int + enc_item(self.5.field_view(), false).len() as int, b.len() as int) == enc_items(t.skip(6), false)) by {
            assert(t[5] == self.5.field_view());
            assert(t.skip(5)[0] == t[5]);
            assert(t.skip(5).subrange(1, t.skip(5).len() as int) =~= t.skip(6));
            self.5.lemma_field_view();
            assert(t.skip(6)[0] == self.6.field_view());
            self.6.lemma_field_view();
            lemma_first_byte(self.6.field_view(), false);
            lemma_field_step(&self.5, b, enc_item(self.0.field_view(), false).len() as int + enc_item(self.1.field_view(), false).len() as int + enc_item(self.2.field_view(), false).len() as int + enc_item(self.3.field_view(), false).len() as int + enc_item(self.4.field_view(), false).len() as int, enc_items(t.skip(6), false));
        }
        assert(parse_field::<T6>(b.subrange(enc_item(self.0.field_view(), false).len() as int + enc_item(self.1.field_view(), false).len() as int + enc_item(self.2.field_view(), false).len() as int + enc_item(self.3.field_view(), false).len() as int + enc_item(self.4.field_view(), false).len() as int + enc_item(self.5.field_view(), false).len() as int, b.len() as int)) == Ok::<(ItemView, nat), Error>(
            (self.6.field_view(), enc_item(self.6.field_view(), false).len()),
        ) && b.subrange(enc_item(self.0.field_view(), false).len() as int + enc_item(self.1.field_view(), false).len() as int + enc_item(self.2.field_view(), false).len() as int + enc_item(self.3.field_view(), false).len() as int + enc_item(self.4.field_view(), false).len() as int + enc_item(self.5.field_view(), false).len() as int + enc_item(self.6.field_view(), false).len() as int, b.len() as int) == enc_items(t.skip(7), false)) by {
            assert(t[6] == self.6.field_view());
            assert(t.skip(6)[0] == t[6]);
            assert(t.skip(6).subrange(1, t.skip(6).len() as int) =~= t.skip(7));
            self.6.lemma_field_view();
            assert(t.skip(7)[0] == self.7.field_view());
            self.7.lemma_field_view();
            lemma_first_byte(self.7.field_view(), false);
            lemma_field_step(&self.6, b, enc_item(self.0.field_view(), false).len() as int + enc_item(self.1.field_view(), false).len() as int + enc_item(self.2.field_view(), false).len() as int + enc_item(self.3.field_view(), false).len() as int + enc_item(self.4.field_view(), false).len() as int + enc_item(self.5.field_view(), false).len() as int, enc_items(t.skip(7), false));
        }
        assert(parse_field::<T7>(b.subrange(enc_item(self.0.field_view(), false).len() as int + enc_item(self.1.field_view(), false).len() as int + enc_item(self.2.field_view(), false).len() as int + enc_item(self.3.field_view(), false).len() as int + enc_item(self.4.field_view(), false).len() as int + enc_item(self.5.field_view(), false).len() as int + enc_item(self.6.field_view(), false).len() as int, b.len() as int)) == Ok::<(ItemView, nat), Error>(
            (self.7.field_view(), enc_item(self.7.field_view(), false).len()),
        ) && b.subrange(enc_item(self.0.field_view(), false).len() as int + enc_item(self.1.field_view(), false).len() as int + enc_item(self.2.field_view(), false).len() as int + enc_item(self.3.field_view(), false).len() as int + enc_item(self.4.field_view(), false).len() as int + enc_item(self.5.field_view(), false).len() as int + enc_item(self.6.field_view(), false).len() as int + enc_item(self.7.field_view(), false).len() as int, b.len() as int) == enc_items(t.skip(8), false)) by {
            assert(t[7] == self.7.field_view());
            assert(t.skip(7)[0] == t[7]);
            assert(t.skip(7).subrange(1, t.skip(7).len() as int) =~= t.skip(8));
            self.7.lemma_field_view();
            assert(t.skip(8)[0] == self.8.field_view());
            self.8.lemma_field_view();
            lemma_first_byte(self.8.field_view(), false);
            lemma_field_step(&self.7, b, enc_item(self.0.field_view(), false).len() as int + enc_item(self.1.field_view(), false).len() as int + enc_item(self.2.field_view(), false).len() as int + enc_item(self.3.field_view(), false).len() as int + enc_item(self.4.field_view(), false).len() as int + enc_item(self.5.field_view(), false).len() as int + enc_item(self.6.field_view(), false).len() as int, enc_items(t.skip(8), false));
        }
        assert(parse_field::<T8>(b.subrange(enc_item(self.0.field_view(), false).len() as int + enc_item(self.1.field_view(), false).len() as int + enc_item(self.2.field_view(), false).len() as int + enc_item(self.3.field_view(), false).len() as int + enc_item(self.4.field_view(), false).len() as int + enc_item(self.5.field_view(), false).len() as int + enc_item(self.6.field_view(), false).len() as int + enc_item(self.7.field_view(), false).len() as int, b.len() as int)) == Ok::<(ItemView, nat), Error>(
            (self.8.field_view(), enc_item(self.8.field_view(), false).len()),
        ) && b.subrange(enc_item(self.0.field_view(), false).len() as int + enc_item(self.1.field_view(), false).len() as int + enc_item(self.2.field_view(), false).len() as int + enc_item(self.3.field_view(), false).len() as int + enc_item(self.4.field_view(), false).len() as int + enc_item(self.5.field_view(), false).len() as int + enc_item(self.6.field_view(), false).len() as int + enc_item(self.7.field_view(), false).len() as int + enc_item(self.8.field_view(), false).len() as int, b.len() as int) == enc_items(t.skip(9), false)) by {
            assert(t[8] == self.8.field_view());
            assert(t.skip(8)[0] == t[8]);
            assert(t.skip(8).subrange(1, t.skip(8).len() as int) =~= t.skip(9));
            self.8.lemma_field_view();
            assert(t.skip(9)[0] == self.9.field_view());
            self.9.lemma_field_view();
            lemma_first_byte(self.9.field_view(), false);
            lemma_field_step(&self.8, b, enc_item(self.0.field_view(), false).len() as int + enc_item(self.1.field_view(), false).len() as int + enc_item(self.2.field_view(), false).len() as int + enc_item(self.3.field_view(), false).len() as int + enc_item(self.4.field_view(), false).len() as int + enc_item(self.5.field_view(), false).len() as int + enc_item(self.6.field_view(), false).len() as int + enc_item(self.7.field_view(), false).len() as int, enc_items(t.skip(9), false));
        }
        assert(parse_field::<T9>(b.subrange(enc_item(self.0.field_view(), false).len() as int + enc_item(self.1.field_view(), false).len() as int + enc_item(self.2.field_view(), false).len() as int + enc_item(self.3.field_view(), false).len() as int + enc_item(self.4.field_view(), false).len() as int + enc_item(self.5.field_view(), false).len() as int + enc_item(self.6.field_view(), false).len() as int + enc_item(self.7.field_view(), false).len() as int + enc_item(self.8.field_view(), false).len() as int, b.len() as int)) == Ok::<(ItemView, nat), Error>(
            (self.9.field_view(), enc_item(self.9.field_view(), false).len()),
        ) && b.subrange(enc_item(self.0.field_view(), false).len() as int + enc_item(self.1.field_view(), false).len() as int + enc_item(self.2.field_view(), false).len() as int + enc_item(self.3.field_view(), false).len() as int + enc_item(self.4.field_view(), false).len() as int + enc_item(self.5.field_view(), false).len() as int + enc_item(self.6.field_view(), false).len() as int + enc_item(self.7.field_view(), false).len() as int + enc_item(self.8.field_view(), false).len() as int + enc_item(self.9.field_view(), false).len() as int, b.len() as int) == enc_items(t.skip(10), false)) by {
            assert(t[9] == self.9.field_view());
            assert(t.skip(9)[0] == t[9]);
            assert(t.skip(9).subrange(1, t.skip(9).len() as int) =~= t.skip(10));
            self.9.lemma_field_view();
            lemma_field_step(&self.9, b, enc_item(self.0.field_view(), false).len() as int + enc_item(self.1.field_view(), false).len() as int + enc_item(self.2.field_view(), false).len() as int + enc_item(self.3.field_view(), false).len() as int + enc_item(self.4.field_view(), false).len() as int + enc_item(self.5.field_view(), false).len() as int + enc_item(self.6.field_view(), false).len() as int + enc_item(self.7.field_view(), false).len() as int + enc_item(self.8.field_view(), false).len() as int, enc_items(t.skip(10), false));
        }
    }
}

impl<T0: Field, T1: Field, T2: Field, T3: Field, T4: Field, T5: Field, T6: Field, T7: Field, T8: Field, T9: Field, T10: Field> Encode for (T0, T1, T2, T3, T4, T5, T6, T7, T8, T9, T10) {
    open spec fn encoding(&self) -> Seq<u8> {
        enc_items(seq![self.0.field_view(), self.1.field_view(), self.2.field_view(), self.3.field_view(), self.4.field_view(), self.5.field_view(), self.6.field_view(), self.7.field_view(), self.8.field_view(), self.9.field_view(), self.10.field_view()], false)
    }

    #[verifier::rlimit(100)]
    #[verifier::spinoff_prover]
    fn encode(&self, out: &mut Vec<u8>) {
        let ghost t = seq![self.0.field_view(), self.1.field_view(), self.2.field_view(), self.3.field_view(), self.4.field_view(), self.5.field_view(), self.6.field_view(), self.7.field_view(), self.8.field_view(), self.9.field_view(), self.10.field_view()];
        assert(t.take(0) =~= Seq::<ItemView>::empty());
        assert(old(out)@ + enc_items(t.take(0), false) =~= old(out)@);
        self.0.encode_field(out);
        proof {
            assert(t.take(1) =~= t.take(0) + seq![t[0]]);
            lemma_enc_items_concat(t.take(0), seq![t[0]], false);
            lemma_enc_items_single(t[0], false);
        }
        assert(out@ =~= old(out)@ + enc_items(t.take(1), false));
        self.1.encode_field(out);
        proof {
            assert(t.take(2) =~= t.take(1) + seq![t[1]]);
            lemma_enc_items_concat(t.take(1), seq![t[1]], false);
            lemma_enc_items_single(t[1], false);
        }
        assert(out@ =~= old(out)@ + enc_items(t.take(2), false));
        self.2.encode_field(out);
        proof {
            assert(t.take(3) =~= t.take(2) + seq![t[2]]);
            lemma_enc_items_concat(t.take(2), seq![t[2]], false);
            lemma_enc_items_single(t[2], false);
        }
        assert(out@ =~= old(out)@ + enc_items(t.take(3), false));
        self.3.encode_field(out);
        proof {
            assert(t.take(4) =~= t.take(3) + seq![t[3]]);
            lemma_enc_items_concat(t.take(3), seq![t[3]], false);
            lemma_enc_items_single(t[3], false);
        }
        assert(out@ =~= old(out)@ + enc_items(t.take(4), false));
        self.4.encode_field(out);
        proof {
            assert(t.take(5) =~= t.take(4) + seq![t[4]]);
            lemma_enc_items_concat(t.take(4), seq![t[4]], false);
            lemma_enc_items_single(t[4], false);
        }
        assert(out@ =~= old(out)@ + enc_items(t.take(5), false));
        self.5.encode_field(out);
        proof {
            assert(t.take(6) =~= t.take(5) + seq![t[5]]);
            lemma_enc_items_concat(t.take(5), seq![t[5]], false);
            lemma_enc_items_single(t[5], false);
        }
        assert(out@ =~= old(out)@ + enc_items(t.take(6), false));
        self.6.encode_field(out);
        proof {
            assert(t.take(7) =~= t.take(6) + seq![t[6]]);
            lemma_enc_items_concat(t.take(6), seq![t[6]], false);
            lemma_enc_items_single(t[6], false);
        }
        assert(out@ =~= old(out)@ + enc_items(t.take(7), false));
        self.7.encode_field(out);
        proof {
            assert(t.take(8) =~= t.take(7) + seq![t[7]]);
            lemma_enc_items_concat(t.take(7), seq![t[7]], false);
            lemma_enc_items_single(t[7], false);
        }
        assert(out@ =~= old(out)@ + enc_items(t.take(8), false));
        self.8.encode_field(out);
        proof {
            assert(t.take(9) =~= t.take(8) + seq![t[8]]);
            lemma_enc_items_concat(t.take(8), seq![t[8]], false);
            lemma_enc_items_single(t[8], false);
        }
        assert(out@ =~= old(out)@ + enc_items(t.take(9), false));
        self.9.encode_field(out);
        proof {
            assert(t.take(10) =~= t.take(9) + seq![t[9]]);
            lemma_enc_items_concat(t.take(9), seq![t[9]], false);
            lemma_enc_items_single(t[9], false);
        }
        assert(out@ =~= old(out)@ + enc_items(t.take(10), false));
        self.10.encode_field(out);
        proof {
            assert(t.take(11) =~= t.take(10) + seq![t[10]]);
            lemma_enc_items_concat(t.take(10), seq![t[10]], false);
            lemma_enc_items_single(t[10], false);
        }
        assert(out@ =~= old(out)@ + enc_items(t.take(11), false));
        assert(t.take(11) =~= t);
    }
}

impl<T0: Field, T1: Field, T2: Field, T3: Field, T4: Field, T5: Field, T6: Field, T7: Field, T8: Field, T9: Field, T10: Field> Decode for (T0, T1, T2, T3, T4, T5, T6, T7, T8, T9, T10) {
    open spec fn decodes_to(b: Seq<u8>, r: Result<Self, Error>) -> bool {
        match parse_field::<T0>(b.subrange(0, b.len() as int)) {
            Err(e) => r == Err::<Self, Error>(e),
            Ok((v0, n0)) => 
                match parse_field::<T1>(b.subrange(n0 as int, b.len() as int)) {
                    Err(e) => r == Err::<Self, Error>(e),
                    Ok((v1, n1)) => 
                        match parse_field::<T2>(b.subrange(n0 as int + n1 as int, b.len() as int)) {
                            Err(e) => r == Err::<Self, Error>(e),
                            Ok((v2, n2)) => 
                                match parse_field::<T3>(b.subrange(n0 as int + n1 as int + n2 as int, b.len() as int)) {
                                    Err(e) => r == Err::<Self, Error>(e),
                                    Ok((v3, n3)) => 
                                        match parse_field::<T4>(b.subrange(n0 as int + n1 as int + n2 as int + n3 as int, b.len() as int)) {
                                            Err(e) => r == Err::<Self, Error>(e),
                                            Ok((v4, n4)) => 
                                                match parse_field::<T5>(b.subrange(n0 as int + n1 as int + n2 as int + n3 as int + n4 as int, b.len() as int)) {
                                                    Err(e) => r == Err::<Self, Error>(e),
                                                    Ok((v5, n5)) => 
                                                        match parse_field::<T6>(b.subrange(n0 as int + n1 as int + n2 as int + n3 as int + n4 as int + n5 as int, b.len() as int)) {
                                                            Err(e) => r == Err::<Self, Error>(e),
                                                            Ok((v6, n6)) => 
                                                                match parse_field::<T7>(b.subrange(n0 as int + n1 as int + n2 as int + n3 as int + n4 as int + n5 as int + n6 as int, b.len() as int)) {
                                                                    Err(e) => r == Err::<Self, Error>(e),
                                                                    Ok((v7, n7)) => 
                                                                        match parse_field::<T8>(b.subrange(n0 as int + n1 as int + n2 as int + n3 as int + n4 as int + n5 as int + n6 as int + n7 as int, b.len() as int)) {
                                                                            Err(e) => r == Err::<Self, Error>(e),
                                                                            Ok((v8, n8)) => 
                                                                                match parse_field::<T9>(b.subrange(n0 as int + n1 as int + n2 as int + n3 as int + n4 as int + n5 as int + n6 as int + n7 as int + n8 as int, b.len() as int)) {
                                                                                    Err(e) => r == Err::<Self, Error>(e),
                                                                                    Ok((v9, n9)) => 
                                                                                        match parse_field::<T10>(b.subrange(n0 as int + n1 as int + n2 as int + n3 as int + n4 as int + n5 as int + n6 as int + n7 as int + n8 as int + n9 as int, b.len() as int)) {
                                                                                            Err(e) => r == Err::<Self, Error>(e),
                                                                                            Ok((v10, n10)) => if n0 as int + n1 as int + n2 as int + n3 as int + n4 as int + n5 as int + n6 as int + n7 as int + n8 as int + n9 as int + n10 as int == b.len() {
                                                                                                match r {
                                                                                                    Ok(x) => x.0.field_view() == v0
                                                                                                        && x.1.field_view() == v1
                                                                                                        && x.2.field_view() == v2
                                                                                                        && x.3.field_view() == v3
                                                                                                        && x.4.field_view() == v4
                                                                                                        && x.5.field_view() == v5
                                                                                                        && x.6.field_view() == v6
                                                                                                        && x.7.field_view() == v7
                                                                                                        && x.8.field_view() == v8
                                                                                                        && x.9.field_view() == v9
                                                                                                        && x.10.field_view() == v10,
                                                                                                    Err(_) => false,
                                                                                                }
                                                                                            } else {
                                                                                                r == Err::<Self, Error>(Error::InvalidData)
                                                                                            },
                                                                                        },
                                                                                },
                                                                        },
                                                                },
                                                        },
                                                },
                                        },
                                },
                        },
                },
        }
    }

    fn decode(buf: &[u8]) -> (r: Result<Self, Error>) {
        let len: usize = buf.len();
        let p0: usize = 0;
        assert(buf@.subrange(0, buf@.len() as int) =~= buf@);
        let (f0, n0) = match decode_field::<T0>(buf, p0) {
            Ok((f, n)) => (f, n),
            Err(e) => {
                return Err(e);
            },
        };
        let p1: usize = p0 + n0;
        let (f1, n1) = match decode_field::<T1>(buf, p1) {
            Ok((f, n)) => (f, n),
            Err(e) => {
                return Err(e);
            },
        };
        let p2: usize = p1 + n1;
        let (f2, n2) = match decode_field::<T2>(buf, p2) {
            Ok((f, n)) => (f, n),
            Err(e) => {
                return Err(e);
            },
        };
        let p3: usize = p2 + n2;
        let (f3, n3) = match decode_field::<T3>(buf, p3) {
            Ok((f, n)) => (f, n),
            Err(e) => {
                return Err(e);
            },
        };
        let p4: usize = p3 + n3;
        let (f4, n4) = match decode_field::<T4>(buf, p4) {
            Ok((f, n)) => (f, n),
            Err(e) => {
                return Err(e);
            },
        };
        let p5: usize = p4 + n4;
        let (f5, n5) = match decode_field::<T5>(buf, p5) {
            Ok((f, n)) => (f, n),
            Err(e) => {
                return Err(e);
            },
        };
        let p6: usize = p5 + n5;
        let (f6, n6) = match decode_field::<T6>(buf, p6) {
            Ok((f, n)) => (f, n),
            Err(e) => {
                return Err(e);
            },
        };
        let p7: usize = p6 + n6;
        let (f7, n7) = match decode_field::<T7>(buf, p7) {
            Ok((f, n)) => (f, n),
            Err(e) => {
                return Err(e);
            },
        };
        let p8: usize = p7 + n7;
        let (f8, n8) = match decode_field::<T8>(buf, p8) {
            Ok((f, n)) => (f, n),
            Err(e) => {
                return Err(e);
            },
        };
        let p9: usize = p8 + n8;
        let (f9, n9) = match decode_field::<T9>(buf, p9) {
            Ok((f, n)) => (f, n),
            Err(e) => {
                return Err(e);
            },
        };
        let p10: usize = p9 + n9;
        let (f10, n10) = match decode_field::<T10>(buf, p10) {
            Ok((f, n)) => (f, n),
            Err(e) => {
                return Err(e);
            },
        };
        let p11: usize = p10 + n10;
        if p11 != len {
            return Err(Error::InvalidData);
        }
        Ok((f0, f1, f2, f3, f4, f5, f6, f7, f8, f9, f10))
    }
}

impl<T0: Field, T1: Field, T2: Field, T3: Field, T4: Field, T5: Field, T6: Field, T7: Field, T8: Field, T9: Field, T10: Field> FixedTuple for (T0, T1, T2, T3, T4, T5, T6, T7, T8, T9, T10) {
    open spec fn same_fields(&self, other: &Self) -> bool {
        self.0.field_view() == other.0.field_view()
            && self.1.field_view() == other.1.field_view()
            && self.2.field_view() == other.2.field_view()
            && self.3.field_view() == other.3.field_view()
            && self.4.field_view() == other.4.field_view()
            && self.5.field_view() == other.5.field_view()
            && self.6.field_view() == other.6.field_view()
            && self.7.field_view() == other.7.field_view()
            && self.8.field_view() == other.8.field_view()
            && self.9.field_view() == other.9.field_view()
            && self.10.field_view() == other.10.field_view()
    }

    #[verifier::rlimit(100)]
    #[verifier::spinoff_prover]
    proof fn lemma_round_trip(&self) {
        let t = seq![self.0.field_view(), self.1.field_view(), self.2.field_view(), self.3.field_view(), self.4.field_view(), self.5.field_view(), self.6.field_view(), self.7.field_view(), self.8.field_view(), self.9.field_view(), self.10.field_view()];
        let b = self.encoding();
        assert(t.skip(11) =~= Seq::<ItemView>::empty());
        assert(t.take(0) =~= Seq::<ItemView>::empty());
        assert(b.subrange(0, b.len() as int) == enc_items(t.skip(0), false)) by {
            assert(b.subrange(0, b.len() as int) =~= b);
            assert(t.skip(0) =~= t);
        }
        assert(parse_field::<T0>(b.subrange(0, b.len() as int)) == Ok::<(ItemView, nat), Error>(
            (self.0.field_view(), enc_item(self.0.field_view(), false).len()),
        ) && b.subrange(enc_item(self.0.field_view(), false).len() as int, b.len() as int) == enc_items(t.skip(1), false)) by {
            assert(t[0] == self.0.field_view());
            assert(t.skip(0)[0] == t[0]);
            assert(t.skip(0).subrange(1, t.skip(0).len() as int) =~= t.skip(1));
            self.0.lemma_field_view();
            assert(t.skip(1)[0] == self.1.field_view());
            self.1.lemma_field_view();
            lemma_first_byte(self.1.field_view(), false);
            lemma_field_step(&self.0, b, 0, enc_items(t.skip(1), false));
        }
        assert(parse_field::<T1>(b.subrange(enc_item(self.0.field_view(), false).len() as int, b.len() as int)) == Ok::<(ItemView, nat), Error>(
            (self.1.field_view(), enc_item(self.1.field_view(), false).len()),
        ) && b.subrange(enc_item(self.0.field_view(), false).len() as int + enc_item(self.1.field_view(), false).len() as int, b.len() as int) == enc_items(t.skip(2), false)) by {
            assert(t[1] == self.1.field_view());
            assert(t.skip(1)[0] == t[1]);
            assert(t.skip(1).subrange(1, t.skip(1).len() as int) =~= t.skip(2));
            self.1.lemma_field_view();
            assert(t.skip(2)[0] == self.2.field_view());
            self.2.lemma_field_view();
            lemma_first_byte(self.2.field_view(), false);
            lemma_field_step(&self.1, b, enc_item(self.0.field_view(), false).len() as int, enc_items(t.skip(2), false));
        }
        assert(parse_field::<T2>(b.subrange(enc_item(self.0.field_view(), false).len() as int + enc_item(self.1.field_view(), false).len() as int, b.len() as int)) == Ok::<(ItemView, nat), Error>(
            (self.2.field_view(), enc_item(self.2.field_view(), false).len()),
        ) && b.subrange(enc_item(self.0.field_view(), false).len() as int + enc_item(self.1.field_view(), false).len() as int + enc_item(self.2.field_view(), false).len() as int, b.len() as int) == enc_items(t.skip(3), false)) by {
            assert(t[2] == self.2.field_view());
            assert(t.skip(2)[0] == t[2]);
            assert(t.skip(2).subrange(1, t.skip(2).len() as int) =~= t.skip(3));
            self.2.lemma_field_view();
            assert(t.skip(3)[0] == self.3.field_view());
            self.3.lemma_field_view();
            lemma_first_byte(self.3.field_view(), false);
            lemma_field_step(&self.2, b, enc_item(self.0.field_view(), false).len() as int + enc_item(self.1.field_view(), false).len() as int, enc_items(t.skip(3), false));
        }
        assert(parse_field::<T3>(b.subrange(enc_item(self.0.field_view(), false).len() as int + enc_item(self.1.field_view(), false).len() as int + enc_item(self.2.field_view(), false).len() as int, b.len() as int)) == Ok::<(ItemView, nat), Error>(
            (self.3.field_view(), enc_item(self.3.field_view(), false).len()),
        ) && b.subrange(enc_item(self.0.field_view(), false).len() as int + enc_item(self.1.field_view(), false).len() as int + enc_item(self.2.field_view(), false).len() as int + enc_item(self.3.field_view(), false).len() as int, b.len() as int) == enc_items(t.skip(4), false)) by {
            assert(t[3] == self.3.field_view());
            assert(t.skip(3)[0] == t[3]);
            assert(t.skip(3).subrange(1, t.skip(3).len() as int) =~= t.skip(4));
            self.3.lemma_field_view();
            assert(t.skip(4)[0] == self.4.field_view());
            self.4.lemma_field_view();
            lemma_first_byte(self.4.field_view(), false);
            lemma_field_step(&self.3, b, enc_item(self.0.field_view(), false).len() as int + enc_item(self.1.field_view(), false).len() as int + enc_item(self.2.field_view(), false).len() as int, enc_items(t.skip(4), false));
        }
        assert(parse_field::<T4>(b.subrange(enc_item(self.0.field_view(), false).len() as int + enc_item(self.1.field_view(), false).len() as int + enc_item(self.2.field_view(), false).len() as int + enc_item(self.3.field_view(), false).len() as int, b.len() as int)) == Ok::<(ItemView, nat), Error>(
            (self.4.field_view(), enc_item(self.4.field_view(), false).len()),
        ) && b.subrange(enc_item(self.0.field_view(), false).len() as int + enc_item(self.1.field_view(), false).len() as int + enc_item(self.2.field_view(), false).len() as int + enc_item(self.3.field_view(), false).len() as int + enc_item(self.4.field_view(), false).len() as int, b.len() as int) == enc_items(t.skip(5), false)) by {
            assert(t[4] == self.4.field_view());
            assert(t.skip(4)[0] == t[4]);
            assert(t.skip(4).subrange(1, t.skip(4).len() as int) =~= t.skip(5));
            self.4.lemma_field_view();
            assert(t.skip(5)[0] == self.5.field_view());
            self.5.lemma_field_view();
            lemma_first_byte(self.5.field_view(), false);
            lemma_field_step(&self.4, b, enc_item(self.0.field_view(), false).len() as int + enc_item(self.1.field_view(), false).len() as int + enc_item(self.2.field_view(), false).len() as int + enc_item(self.3.field_view(), false).len() as int, enc_items(t.skip(5), false));
        }
        assert(parse_field::<T5>(b.subrange(enc_item(self.0.field_view(), false).len() as int + enc_item(self.1.field_view(), false).len() as int + enc_item(self.2.field_view(), false).len() as int + enc_item(self.3.field_view(), false).len() as int + enc_item(self.4.field_view(), false).len() as int, b.len() as int)) == Ok::<(ItemView, nat), Error>(
            (self.5.field_view(), enc_item(self.5.field_view(), false).len()),
        ) && b.subrange(enc_item(self.0.field_view(), false).len() as int + enc_item(self.1.field_view(), false).len() as int + enc_item(self.2.field_view(), false).len() as int + enc_item(self.3.field_view(), false).len() as int + enc_item(self.4.field_view(), false).len() as int + enc_item(self.5.field_view(), false).len() as int, b.len() as int) == enc_items(t.skip(6), false)) by {
            assert(t[5] == self.5.field_view());
            assert(t.skip(5)[0] == t[5]);
            assert(t.skip(5).subrange(1, t.skip(5).len() as int) =~= t.skip(6));
            self.5.lemma_field_view();
            assert(t.skip(6)[0] == self.6.field_view());
            self.6.lemma_field_view();
            lemma_first_byte(self.6.field_view(), false);
            lemma_field_step(&self.5, b, enc_item(self.0.field_view(), false).len() as int + enc_item(self.1.field_view(), false).len() as int + enc_item(self.2.field_view(), false).len() as int + enc_item(self.3.field_view(), false).len() as int + enc_item(self.4.field_view(), false).len() as int, enc_items(t.skip(6), false));
        }
        assert(parse_field::<T6>(b.subrange(enc_item(self.0.field_view(), false).len() as int + enc_item(self.1.field_view(), false).len() as int + enc_item(self.2.field_view(), false).len() as int + enc_item(self.3.field_view(), false).len() as int + enc_item(self.4.field_view(), false).len() as int + enc_item(self.5.field_view(), false).len() as int, b.len() as int)) == Ok::<(ItemView, nat), Error>(
            (self.6.field_view(), enc_item(self.6.field_view(), false).len()),
        ) && b.subrange(enc_item(self.0.field_view(), false).len() as int + enc_item(self.1.field_view(), false).len() as int + enc_item(self.2.field_view(), false).len() as int + enc_item(self.3.field_view(), false).len() as int + enc_item(self.4.field_view(), false).len() as int + enc_item(self.5.field_view(), false).len() as int + enc_item(self.6.field_view(), false).len() as int, b.len() as int) == enc_items(t.skip(7), false)) by {
            assert(t[6] == self.6.field_view());
            assert(t.skip(6)[0] == t[6]);
            assert(t.skip(6).subrange(1, t.skip(6).len() as int) =~= t.skip(7));
            self.6.lemma_field_view();
            assert(t.skip(7)[0] == self.7.field_view());
            self.7.lemma_field_view();
            lemma_first_byte(self.7.field_view(), false);
            lemma_field_step(&self.6, b, enc_item(self.0.field_view(), false).len() as int + enc_item(self.1.field_view(), false).len() as int + enc_item(self.2.field_view(), false).len() as int + enc_item(self.3.field_view(), false).len() as int + enc_item(self.4.field_view(), false).len() as int + enc_item(self.5.field_view(), false).len() as int, enc_items(t.skip(7), false));
        }
        assert(parse_field::<T7>(b.subrange(enc_item(self.0.field_view(), false).len() as int + enc_item(self.1.field_view(), false).len() as int + enc_item(self.2.field_view(), false).len() as int + enc_item(self.3.field_view(), false).len() as int + enc_item(self.4.field_view(), false).len() as int + enc_item(self.5.field_view(), false).len() as int + enc_item(self.6.field_view(), false).len() as int, b.len() as int)) == Ok::<(ItemView, nat), Error>(
            (self.7.field_view(), enc_item(self.7.field_view(), false).len()),
        ) && b.subrange(enc_item(self.0.field_view(), false).len() as int + enc_item(self.1.field_view(), false).len() as int + enc_item(self.2.field_view(), false).len() as int + enc_item(self.3.field_view(), false).len() as int + enc_item(self.4.field_view(), false).len() as int + enc_item(self.5.field_view(), false).len() as int + enc_item(self.6.field_view(), false).len() as int + enc_item(self.7.field_view(), false).len() as int, b.len() as int) == enc_items(t.skip(8), false)) by {
            assert(t[7] == self.7.field_view());
            assert(t.skip(7)[0] == t[7]);
            assert(t.skip(7).subrange(1, t.skip(7).len() as int) =~= t.skip(8));
            self.7.lemma_field_view();
            assert(t.skip(8)[0] == self.8.field_view());
            self.8.lemma_field_view();
            lemma_first_byte(self.8.field_view(), false);
            lemma_field_step(&self.7, b, enc_item(self.0.field_view(), false).len() as int + enc_item(self.1.field_view(), false).len() as int + enc_item(self.2.field_view(), false).len() as int + enc_item(self.3.field_view(), false).len() as int + enc_item(self.4.field_view(), false).len() as int + enc_item(self.5.field_view(), false).len() as int + enc_item(self.6.field_view(), false).len() as int, enc_items(t.skip(8), false));
        }
        assert(parse_field::<T8>(b.subrange(enc_item(self.0.field_view(), false).len() as int + enc_item(self.1.field_view(), false).len() as int + enc_item(self.2.field_view(), false).len() as int + enc_item(self.3.field_view(), false).len() as int + enc_item(self.4.field_view(), false).len() as int + enc_item(self.5.field_view(), false).len() as int + enc_item(self.6.field_view(), false).len() as int + enc_item(self.7.field_view(), false).len() as int, b.len() as int)) == Ok::<(ItemView, nat), Error>(
            (self.8.field_view(), enc_item(self.8.field_view(), false).len()),
        ) && b.subrange(enc_item(self.0.field_view(), false).len() as int + enc_item(self.1.field_view(), false).len() as int + enc_item(self.2.field_view(), false).len() as int + enc_item(self.3.field_view(), false).len() as int + enc_item(self.4.field_view(), false).len() as int + enc_item(self.5.field_view(), false).len() as int + enc_item(self.6.field_view(), false).len() as int + enc_item(self.7.field_view(), false).len() as int + enc_item(self.8.field_view(), false).len() as int, b.len() as int) == enc_items(t.skip(9), false)) by {
            assert(t[8] == self.8.field_view());
            assert(t.skip(8)[0] == t[8]);
            assert(t.skip(8).subrange(1, t.skip(8).len() as int) =~= t.skip(9));
            self.8.lemma_field_view();
            assert(t.skip(9)[0] == self.9.field_view());
            self.9.lemma_field_view();
            lemma_first_byte(self.9.field_view(), false);
            lemma_field_step(&self.8, b, enc_item(self.0.field_view(), false).len() as int + enc_item(self.1.field_view(), false).len() as int + enc_item(self.2.field_view(), false).len() as int + enc_item(self.3.field_view(), false).len() as int + enc_item(self.4.field_view(), false).len() as int + enc_item(self.5.field_view(), false).len() as int + enc_item(self.6.field_view(), false).len() as int + enc_item(self.7.field_view(), false).len() as int, enc_items(t.skip(9), false));
        }
        assert(parse_field::<T9>(b.subrange(enc_item(self.0.field_view(), false).len() as int + enc_item(self.1.field_view(), false).len() as int + enc_item(self.2.field_view(), false).len() as int + enc_item(self.3.field_view(), false).len() as int + enc_item(self.4.field_view(), false).len() as int + enc_item(self.5.field_view(), false).len() as int + enc_item(self.6.field_view(), false).len() as int + enc_item(self.7.field_view(), false).len() as int + enc_item(self.8.field_view(), false).len() as int, b.len() as int)) == Ok::<(ItemView, nat), Error>(
            (self.9.field_view(), enc_item(self.9.field_view(), false).len()),
        ) && b.subrange(enc_item(self.0.field_view(), false).len() as int + enc_item(self.1.field_view(), false).len() as int + enc_item(self.2.field_view(), false).len() as int + enc_item(self.3.field_view(), false).len() as int + enc_item(self.4.field_view(), false).len() as int + enc_item(self.5.field_view(), false).len() as int + enc_item(self.6.field_view(), false).len() as int + enc_item(self.7.field_view(), false).len() as int + enc_item(self.8.field_view(), false).len() as int + enc_item(self.9.field_view(), false).len() as int, b.len() as int) == enc_items(t.skip(10), false)) by {
            assert(t[9] == self.9.field_view());
            assert(t.skip(9)[0] == t[9]);
            assert(t.skip(9).subrange(1, t.skip(9).len() as int) =~= t.skip(10));
            self.9.lemma_field_view();
            assert(t.skip(10)[0] == self.10.field_view());
            self.10.lemma_field_view();
            lemma_first_byte(self.10.field_view(), false);
            lemma_field_step(&self.9, b, enc_item(self.0.field_view(), false).len() as int + enc_item(self.1.field_view(), false).len() as int + enc_item(self.2.field_view(), false).len() as int + enc_item(self.3.field_view(), false).len() as int + enc_item(self.4.field_view(), false).len() as int + enc_item(self.5.field_view(), false).len() as int + enc_item(self.6.field_view(), false).len() as int + enc_item(self.7.field_view(), false).len() as int + enc_item(self.8.field_view(), false).len() as int, enc_items(t.skip(10), false));
        }
        assert(parse_field::<T10>(b.subrange(enc_item(self.0.field_view(), false).len() as int + enc_item(self.1.field_view(), false).len() as int + enc_item(self.2.field_view(), false).len() as int + enc_item(self.3.field_view(), false).len() as int + enc_item(self.4.field_view(), false).len() as int + enc_item(self.5.field_view(), false).len() as int + enc_item(self.6.field_view(), false).len() as int + enc_item(self.7.field_view(), false).len() as int + enc_item(self.8.field_view(), false).len() as int + enc_item(self.9.field_view(), false).len() as int, b.len() as int)) == Ok::<(ItemView, nat), Error>(
            (self.10.field_view(), enc_item(self.10.field_view(), false).len()),
        ) && b.subrange(enc_item(self.0.field_view(), false).len() as int + enc_item(self.1.field_view(), false).len() as int + enc_item(self.2.field_view(), false).len() as int + enc_item(self.3.field_view(), false).len() as int + enc_item(self.4.field_view(), false).len() as int + enc_item(self.5.field_view(), false).len() as int + enc_item(self.6.field_view(), false).len() as int + enc_item(self.7.field_view(), false).len() as int + enc_item(self.8.field_view(), false).len() as int + enc_item(self.9.field_view(), false).len() as int + enc_item(self.10.field_view(), false).len() as int, b.len() as int) == enc_items(t.skip(11), false)) by {
            assert(t[10] == self.10.field_view());
            assert(t.skip(10)[0] == t[10]);
            assert(t.skip(10).subrange(1, t.skip(10).len() as int) =~= t.skip(11));
            self.10.lemma_field_view();
            lemma_field_step(&self.10, b, enc_item(self.0.field_view(), false).len() as int + enc_item(self.1.field_view(), false).len() as int + enc_item(self.2.field_view(), false).len() as int + enc_item(self.3.field_view(), false).len() as int + enc_item(self.4.field_view(), false).len() as int + enc_item(self.5.field_view(), false).len() as int + enc_item(self.6.field_view(), false).len() as int + enc_item(self.7.field_view(), false).len() as int + enc_item(self.8.field_view(), false).len() as int + enc_item(self.9.field_view(), false).len() as int, enc_items(t.skip(11), false));
        }
    }
}

impl<T0: Field, T1: Field, T2: Field, T3: Field, T4: Field, T5: Field, T6: Field, T7: Field, T8: Field, T9: Field, T10: Field, T11: Field> Encode for (T0, T1, T2, T3, T4, T5, T6, T7, T8, T9, T10, T11) {
    open spec fn encoding(&self) -> Seq<u8> {
        enc_items(seq![self.0.field_view(), self.1.field_view(), self.2.field_view(), self.3.field_view(), self.4.field_view(), self.5.field_view(), self.6.field_view(), self.7.field_view(), self.8.field_view(), self.9.field_view(), self.10.field_view(), self.11.field_view()], false)
    }

    #[verifier::rlimit(100)]
    #[verifier::spinoff_prover]
    fn encode(&self, out: &mut Vec<u8>) {
        let ghost t = seq![self.0.field_view(), self.1.field_view(), self.2.field_view(), self.3.field_view(), self.4.field_view(), self.5.field_view(), self.6.field_view(), self.7.field_view(), self.8.field_view(), self.9.field_view(), self.10.field_view(), self.11.field_view()];
        assert(t.take(0) =~= Seq::<ItemView>::empty());
        assert(old(out)@ + enc_items(t.take(0), false) =~= old(out)@);
        self.0.encode_field(out);
        proof {
            assert(t.take(1) =~= t.take(0) + seq![t[0]]);
            lemma_enc_items_concat(t.take(0), seq![t[0]], false);
            lemma_enc_items_single(t[0], false);
        }
        assert(out@ =~= old(out)@ + enc_items(t.take(1), false));
        self.1.encode_field(out);
        proof {
            assert(t.take(2) =~= t.take(1) + seq![t[1]]);
            lemma_enc_items_concat(t.take(1), seq![t[1]], false);
            lemma_enc_items_single(t[1], false);
        }
        assert(out@ =~= old(out)@ + enc_items(t.take(2), false));
        self.2.encode_field(out);
        proof {
            assert(t.take(3) =~= t.take(2) + seq![t[2]]);
            lemma_enc_items_concat(t.take(2), seq![t[2]], false);
            lemma_enc_items_single(t[2], false);
        }
        assert(out@ =~= old(out)@ + enc_items(t.take(3), false));
        self.3.encode_field(out);
        proof {
            assert(t.take(4) =~= t.take(3) + seq![t[3]]);
            lemma_enc_items_concat(t.take(3), seq![t[3]], false);
            lemma_enc_items_single(t[3], false);
        }
        assert(out@ =~= old(out)@ + enc_items(t.take(4), false));
        self.4.encode_field(out);
        proof {
            assert(t.take(5) =~= t.take(4) + seq![t[4]]);
            lemma_enc_items_concat(t.take(4), seq![t[4]], false);
            lemma_enc_items_single(t[4], false);
        }
        assert(out@ =~= old(out)@ + enc_items(t.take(5), false));
        self.5.encode_field(out);
        proof {
            assert(t.take(6) =~= t.take(5) + seq![t[5]]);
            lemma_enc_items_concat(t.take(5), seq![t[5]], false);
            lemma_enc_items_single(t[5], false);
        }
        assert(out@ =~= old(out)@ + enc_items(t.take(6), false));
        self.6.encode_field(out);
        proof {
            assert(t.take(7) =~= t.take(6) + seq![t[6]]);
            lemma_enc_items_concat(t.take(6), seq![t[6]], false);
            lemma_enc_items_single(t[6], false);
        }
        assert(out@ =~= old(out)@ + enc_items(t.take(7), false));
        self.7.encode_field(out);
        proof {
            assert(t.take(8) =~= t.take(7) + seq![t[7]]);
            lemma_enc_items_concat(t.take(7), seq![t[7]], false);
            lemma_enc_items_single(t[7], false);
        }
        assert(out@ =~= old(out)@ + enc_items(t.take(8), false));
        self.8.encode_field(out);
        proof {
            assert(t.take(9) =~= t.take(8) + seq![t[8]]);
            lemma_enc_items_concat(t.take(8), seq![t[8]], false);
            lemma_enc_items_single(t[8], false);
        }
        assert(out@ =~= old(out)@ + enc_items(t.take(9), false));
        self.9.encode_field(out);
        proof {
            assert(t.take(10) =~= t.take(9) + seq![t[9]]);
            lemma_enc_items_concat(t.take(9), seq![t[9]], false);
            lemma_enc_items_single(t[9], false);
        }
        assert(out@ =~= old(out)@ + enc_items(t.take(10), false));
        self.10.encode_field(out);
        proof {
            assert(t.take(11) =~= t.take(10) + seq![t[10]]);
            lemma_enc_items_concat(t.take(10), seq![t[10]], false);
            lemma_enc_items_single(t[10], false);
        }
        assert(out@ =~= old(out)@ + enc_items(t.take(11), false));
        self.11.encode_field(out);
        proof {
            assert(t.take(12) =~= t.take(11) + seq![t[11]]);
            lemma_enc_items_concat(t.take(11), seq![t[11]], false);
            lemma_enc_items_single(t[11], false);
        }
        assert(out@ =~= old(out)@ + enc_items(t.take(12), false));
        assert(t.take(12) =~= t);
    }
}

impl<T0: Field, T1: Field, T2: Field, T3: Field, T4: Field, T5: Field, T6: Field, T7: Field, T8: Field, T9: Field, T10: Field, T11: Field> Decode for (T0, T1, T2, T3, T4, T5, T6, T7, T8, T9, T10, T11) {
    open spec fn decodes_to(b: Seq<u8>, r: Result<Self, Error>) -> bool {
        match parse_field::<T0>(b.subrange(0, b.len() as int)) {
            Err(e) => r == Err::<Self, Error>(e),
            Ok((v0, n0)) => 
                match parse_field::<T1>(b.subrange(n0 as int, b.len() as int)) {
                    Err(e) => r == Err::<Self, Error>(e),
                    Ok((v1, n1)) => 
                        match parse_field::<T2>(b.subrange(n0 as int + n1 as int, b.len() as int)) {
                            Err(e) => r == Err::<Self, Error>(e),
                            Ok((v2, n2)) => 
                                match parse_field::<T3>(b.subrange(n0 as int + n1 as int + n2 as int, b.len() as int)) {
                                    Err(e) => r == Err::<Self, Error>(e),
                                    Ok((v3, n3)) => 
                                        match parse_field::<T4>(b.subrange(n0 as int + n1 as int + n2 as int + n3 as int, b.len() as int)) {
                                            Err(e) => r == Err::<Self, Error>(e),
                                            Ok((v4, n4)) => 
                                                match parse_field::<T5>(b.subrange(n0 as int + n1 as int + n2 as int + n3 as int + n4 as int, b.len() as int)) {
                                                    Err(e) => r == Err::<Self, Error>(e),
                                                    Ok((v5, n5)) => 
                                                        match parse_field::<T6>(b.subrange(n0 as int + n1 as int + n2 as int + n3 as int + n4 as int + n5 as int, b.len() as int)) {
                                                            Err(e) => r == Err::<Self, Error>(e),
                                                            Ok((v6, n6)) => 
                                                                match parse_field::<T7>(b.subrange(n0 as int + n1 as int + n2 as int + n3 as int + n4 as int + n5 as int + n6 as int, b.len() as int)) {
                                                                    Err(e) => r == Err::<Self, Error>(e),
                                                                    Ok((v7, n7)) => 
                                                                        match parse_field::<T8>(b.subrange(n0 as int + n1 as int + n2 as int + n3 as int + n4 as int + n5 as int + n6 as int + n7 as int, b.len() as int)) {
                                                                            Err(e) => r == Err::<Self, Error>(e),
                                                                            Ok((v8, n8)) => 
                                                                                match parse_field::<T9>(b.subrange(n0 as int + n1 as int + n2 as int + n3 as int + n4 as int + n5 as int + n6 as int + n7 as int + n8 as int, b.len() as int)) {
                                                                                    Err(e) => r == Err::<Self, Error>(e),
                                                                                    Ok((v9, n9)) => 
                                                                                        match parse_field::<T10>(b.subrange(n0 as int + n1 as int + n2 as int + n3 as int + n4 as int + n5 as int + n6 as int + n7 as int + n8 as int + n9 as int, b.len() as int)) {
                                                                                            Err(e) => r == Err::<Self, Error>(e),
                                                                                            Ok((v10, n10)) => 
                                                                                                match parse_field::<T11>(b.subrange(n0 as int + n1 as int + n2 as int + n3 as int + n4 as int + n5 as int + n6 as int + n7 as int + n8 as int + n9 as int + n10 as int, b.len() as int)) {
                                                                                                    Err(e) => r == Err::<Self, Error>(e),
                                                                                                    Ok((v11, n11)) => if n0 as int + n1 as int + n2 as int + n3 as int + n4 as int + n5 as int + n6 as int + n7 as int + n8 as int + n9 as int + n10 as int + n11 as int == b.len() {
                                                                                                        match r {
                                                                                                            Ok(x) => x.0.field_view() == v0
                                                                                                                && x.1.field_view() == v1
                                                                                                                && x.2.field_view() == v2
                                                                                                                && x.3.field_view() == v3
                                                                                                                && x.4.field_view() == v4
                                                                                                                && x.5.field_view() == v5
                                                                                                                && x.6.field_view() == v6
                                                                                                                && x.7.field_view() == v7
                                                                                                                && x.8.field_view() == v8
                                                                                                                && x.9.field_view() == v9
                                                                                                                && x.10.field_view() == v10
                                                                                                                && x.11.field_view() == v11,
                                                                                                            Err(_) => false,
                                                                                                        }
                                                                                                    } else {
                                                                                                        r == Err::<Self, Error>(Error::InvalidData)
                                                                                                    },
                                                                                                },
                                                                                        },
                                                                                },
                                                                        },
                                                                },
                                                        },
                                                },
                                        },
                                },
                        },
                },
        }
    }

    fn decode(buf: &[u8]) -> (r: Result<Self, Error>) {
        let len: usize = buf.len();
        let p0: usize = 0;
        assert(buf@.subrange(0, buf@.len() as int) =~= buf@);
        let (f0, n0) = match decode_field::<T0>(buf, p0) {
            Ok((f, n)) => (f, n),
            Err(e) => {
                return Err(e);
            },
        };
        let p1: usize = p0 + n0;
        let (f1, n1) = match decode_field::<T1>(buf, p1) {
            Ok((f, n)) => (f, n),
            Err(e) => {
                return Err(e);
            },
        };
        let p2: usize = p1 + n1;
        let (f2, n2) = match decode_field::<T2>(buf, p2) {
            Ok((f, n)) => (f, n),
            Err(e) => {
                return Err(e);
            },
        };
        let p3: usize = p2 + n2;
        let (f3, n3) = match decode_field::<T3>(buf, p3) {
            Ok((f, n)) => (f, n),
            Err(e) => {
                return Err(e);
            },
        };
        let p4: usize = p3 + n3;
        let (f4, n4) = match decode_field::<T4>(buf, p4) {
            Ok((f, n)) => (f, n),
            Err(e) => {
                return Err(e);
            },
        };
        let p5: usize = p4 + n4;
        let (f5, n5) = match decode_field::<T5>(buf, p5) {
            Ok((f, n)) => (f, n),
            Err(e) => {
                return Err(e);
            },
        };
        let p6: usize = p5 + n5;
        let (f6, n6) = match decode_field::<T6>(buf, p6) {
            Ok((f, n)) => (f, n),
            Err(e) => {
                return Err(e);
            },
        };
        let p7: usize = p6 + n6;
        let (f7, n7) = match decode_field::<T7>(buf, p7) {
            Ok((f, n)) => (f, n),
            Err(e) => {
                return Err(e);
            },
        };
        let p8: usize = p7 + n7;
        let (f8, n8) = match decode_field::<T8>(buf, p8) {
            Ok((f, n)) => (f, n),
            Err(e) => {
                return Err(e);
            },
        };
        let p9: usize = p8 + n8;
        let (f9, n9) = match decode_field::<T9>(buf, p9) {
            Ok((f, n)) => (f, n),
            Err(e) => {
                return Err(e);
            },
        };
        let p10: usize = p9 + n9;
        let (f10, n10) = match decode_field::<T10>(buf, p10) {
            Ok((f, n)) => (f, n),
            Err(e) => {
                return Err(e);
            },
        };
        let p11: usize = p10 + n10;
        let (f11, n11) = match decode_field::<T11>(buf, p11) {
            Ok((f, n)) => (f, n),
            Err(e) => {
                return Err(e);
            },
        };
        let p12: usize = p11 + n11;
        if p12 != len {
            return Err(Error::InvalidData);
        }
        Ok((f0, f1, f2, f3, f4, f5, f6, f7, f8, f9, f10, f11))
    }
}

impl<T0: Field, T1: Field, T2: Field, T3: Field, T4: Field, T5: Field, T6: Field, T7: Field, T8: Field, T9: Field, T10: Field, T11: Field> FixedTuple for (T0, T1, T2, T3, T4, T5, T6, T7, T8, T9, T10, T11) {
    open spec fn same_fields(&self, other: &Self) -> bool {
        self.0.field_view() == other.0.field_view()
            && self.1.field_view() == other.1.field_view()
            && self.2.field_view() == other.2.field_view()
            && self.3.field_view() == other.3.field_view()
            && self.4.field_view() == other.4.field_view()
            && self.5.field_view() == other.5.field_view()
            && self.6.field_view() == other.6.field_view()
            && self.7.field_view() == other.7.field_view()
            && self.8.field_view() == other.8.field_view()
            && self.9.field_view() == other.9.field_view()
            && self.10.field_view() == other.10.field_view()
            && self.11.field_view() == other.11.field_view()
    }

    #[verifier::rlimit(100)]
    #[verifier::spinoff_prover]
    proof fn lemma_round_trip(&self) {
        let t = seq![self.0.field_view(), self.1.field_view(), self.2.field_view(), self.3.field_view(), self.4.field_view(), self.5.field_view(), self.6.field_view(), self.7.field_view(), self.8.field_view(), self.9.field_view(), self.10.field_view(), self.11.field_view()];
        let b = self.encoding();
        assert(t.skip(12) =~= Seq::<ItemView>::empty());
        assert(t.take(0) =~= Seq::<ItemView>::empty());
        assert(b.subrange(0, b.len() as int) == enc_items(t.skip(0), false)) by {
            assert(b.subrange(0, b.len() as int) =~= b);
            assert(t.skip(0) =~= t);
        }
        assert(parse_field::<T0>(b.subrange(0, b.len() as int)) == Ok::<(ItemView, nat), Error>(
            (self.0.field_view(), enc_item(self.0.field_view(), false).len()),
        ) && b.subrange(enc_item(self.0.field_view(), false).len() as int, b.len() as int) == enc_items(t.skip(1), false)) by {
            assert(t[0] == self.0.field_view());
            assert(t.skip(0)[0] == t[0]);
            assert(t.skip(0).subrange(1, t.skip(0).len() as int) =~= t.skip(1));
            self.0.lemma_field_view();
            assert(t.skip(1)[0] == self.1.field_view());
            self.1.lemma_field_view();
            lemma_first_byte(self.1.field_view(), false);
            lemma_field_step(&self.0, b, 0, enc_items(t.skip(1), false));
        }
        assert(parse_field::<T1>(b.subrange(enc_item(self.0.field_view(), false).len() as int, b.len() as int)) == Ok::<(ItemView, nat), Error>(
            (self.1.field_view(), enc_item(self.1.field_view(), false).len()),
        ) && b.subrange(enc_item(self.0.field_view(), false).len() as int + enc_item(self.1.field_view(), false).len() as int, b.len() as int) == enc_items(t.skip(2), false)) by {
            assert(t[1] == self.1.field_view());
            assert(t.skip(1)[0] == t[1]);
            assert(t.skip(1).subrange(1, t.skip(1).len() as int) =~= t.skip(2));
            self.1.lemma_field_view();
            assert(t.skip(2)[0] == self.2.field_view());
            self.2.lemma_field_view();
            lemma_first_byte(self.2.field_view(), false);
            lemma_field_step(&self.1, b, enc_item(self.0.field_view(), false).len() as int, enc_items(t.skip(2), false));
        }
        assert(parse_field::<T2>(b.subrange(enc_item(self.0.field_view(), false).len() as int + enc_item(self.1.field_view(), false).len() as int, b.len() as int)) == Ok::<(ItemView, nat), Error>(
            (self.2.field_view(), enc_item(self.2.field_view(), false).len()),
        ) && b.subrange(enc_item(self.0.field_view(), false).len() as int + enc_item(self.1.field_view(), false).len() as int + enc_item(self.2.field_view(), false).len() as int, b.len() as int) == enc_items(t.skip(3), false)) by {
            assert(t[2] == self.2.field_view());
            assert(t.skip(2)[0] == t[2]);
            assert(t.skip(2).subrange(1, t.skip(2).len() as int) =~= t.skip(3));
            self.2.lemma_field_view();
            assert(t.skip(3)[0] == self.3.field_view());
            self.3.lemma_field_view();
            lemma_first_byte(self.3.field_view(), false);
            lemma_field_step(&self.2, b, enc_item(self.0.field_view(), false).len() as int + enc_item(self.1.field_view(), false).len() as int, enc_items(t.skip(3), false));
        }
        assert(parse_field::<T3>(b.subrange(enc_item(self.0.field_view(), false).len() as int + enc_item(self.1.field_view(), false).len() as int + enc_item(self.2.field_view(), false).len() as int, b.len() as int)) == Ok::<(ItemView, nat), Error>(
            (self.3.field_view(), enc_item(self.3.field_view(), false).len()),
        ) && b.subrange(enc_item(self.0.field_view(), false).len() as int + enc_item(self.1.field_view(), false).len() as int + enc_item(self.2.field_view(), false).len() as int + enc_item(self.3.field_view(), false).len() as int, b.len() as int) == enc_items(t.skip(4), false)) by {
            assert(t[3] == self.3.field_view());
            assert(t.skip(3)[0] == t[3]);
            assert(t.skip(3).subrange(1, t.skip(3).len() as int) =~= t.skip(4));
            self.3.lemma_field_view();
            assert(t.skip(4)[0] == self.4.field_view());
            self.4.lemma_field_view();
            lemma_first_byte(self.4.field_view(), false);
            lemma_field_step(&self.3, b, enc_item(self.0.field_view(), false).len() as int + enc_item(self.1.field_view(), false).len() as int + enc_item(self.2.field_view(), false).len() as int, enc_items(t.skip(4), false));
        }
        assert(parse_field::<T4>(b.subrange(enc_item(self.0.field_view(), false).len() as int + enc_item(self.1.field_view(), false).len() as int + enc_item(self.2.field_view(), false).len() as int + enc_item(self.3.field_view(), false).len() as int, b.len() as int)) == Ok::<(ItemView, nat), Error>(
            (self.4.field_view(), enc_item(self.4.field_view(), false).len()),
        ) && b.subrange(enc_item(self.0.field_view(), false).len() as int + enc_item(self.1.field_view(), false).len() as int + enc_item(self.2.field_view(), false).len() as int + enc_item(self.3.field_view(), false).len() as int + enc_item(self.4.field_view(), false).len() as int, b.len() as int) == enc_items(t.skip(5), false)) by {
            assert(t[4] == self.4.field_view());
            assert(t.skip(4)[0] == t[4]);
            assert(t.skip(4).subrange(1, t.skip(4).len() as int) =~= t.skip(5));
            self.4.lemma_field_view();
            assert(t.skip(5)[0] == self.5.field_view());
            self.5.lemma_field_view();
            lemma_first_byte(self.5.field_view(), false);
            lemma_field_step(&self.4, b, enc_item(self.0.field_view(), false).len() as int + enc_item(self.1.field_view(), false).len() as int + enc_item(self.2.field_view(), false).len() as int + enc_item(self.3.field_view(), false).len() as int, enc_items(t.skip(5), false));
        }
        assert(parse_field::<T5>(b.subrange(enc_item(self.0.field_view(), false).len() as int + enc_item(self.1.field_view(), false).len() as int + enc_item(self.2.field_view(), false).len() as int + enc_item(self.3.field_view(), false).len() as int + enc_item(self.4.field_view(), false).len() as int, b.len() as int)) == Ok::<(ItemView, nat), Error>(
            (self.5.field_view(), enc_item(self.5.field_view(), false).len()),
        ) && b.subrange(enc_item(self.0.field_view(), false).len() as int + enc_item(self.1.field_view(), false).len() as int + enc_item(self.2.field_view(), false).len() as int + enc_item(self.3.field_view(), false).len() as int + enc_item(self.4.field_view(), false).len() as int + enc_item(self.5.field_view(), false).len() as int, b.len() as int) == enc_items(t.skip(6), false)) by {
            assert(t[5] == self.5.field_view());
            assert(t.skip(5)[0] == t[5]);
            assert(t.skip(5).subrange(1, t.skip(5).len() as int) =~= t.skip(6));
            self.5.lemma_field_view();
            assert(t.skip(6)[0] == self.6.field_view());
            self.6.lemma_field_view();
            lemma_first_byte(self.6.field_view(), false);
            lemma_field_step(&self.5, b, enc_item(self.0.field_view(), false).len() as int + enc_item(self.1.field_view(), false).len() as int + enc_item(self.2.field_view(), false).len() as int + enc_item(self.3.field_view(), false).len() as int + enc_item(self.4.field_view(), false).len() as int, enc_items(t.skip(6), false));
        }
        assert(parse_field::<T6>(b.subrange(enc_item(self.0.field_view(), false).len() as int + enc_item(self.1.field_view(), false).len() as int + enc_item(self.2.field_view(), false).len() as int + enc_item(self.3.field_view(), false).len() as int + enc_item(self.4.field_view(), false).len() as int + enc_item(self.5.field_view(), false).len() as int, b.len() as int)) == Ok::<(ItemView, nat), Error>(
            (self.6.field_view(), enc_item(self.6.field_view(), false).len()),
        ) && b.subrange(enc_item(self.0.field_view(), false).len() as int + enc_item(self.1.field_view(), false).len() as int + enc_item(self.2.field_view(), false).len() as int + enc_item(self.3.field_view(), false).len() as int + enc_item(self.4.field_view(), false).len() as int + enc_item(self.5.field_view(), false).len() as int + enc_item(self.6.field_view(), false).len() as int, b.len() as int) == enc_items(t.skip(7), false)) by {
            assert(t[6] == self.6.field_view());
            assert(t.skip(6)[0] == t[6]);
            assert(t.skip(6).subrange(1, t.skip(6).len() as int) =~= t.skip(7));
            self.6.lemma_field_view();
            assert(t.skip(7)[0] == self.7.field_view());
            self.7.lemma_field_view();
            lemma_first_byte(self.7.field_view(), false);
            lemma_field_step(&self.6, b, enc_item(self.0.field_view(), false).len() as int + enc_item(self.1.field_view(), false).len() as int + enc_item(self.2.field_view(), false).len() as int + enc_item(self.3.field_view(), false).len() as int + enc_item(self.4.field_view(), false).len() as int + enc_item(self.5.field_view(), false).len() as int, enc_items(t.skip(7), false));
        }
        assert(parse_field::<T7>(b.subrange(enc_item(self.0.field_view(), false).len() as int + enc_item(self.1.field_view(), false).len() as int + enc_item(self.2.field_view(), false).len() as int + enc_item(self.3.field_view(), false).len() as int + enc_item(self.4.field_view(), false).len() as int + enc_item(self.5.field_view(), false).len() as int + enc_item(self.6.field_view(), false).len() as int, b.len() as int)) == Ok::<(ItemView, nat), Error>(
            (self.7.field_view(), enc_item(self.7.field_view(), false).len()),
        ) && b.subrange(enc_item(self.0.field_view(), false).len() as int + enc_item(self.1.field_view(), false).len() as int + enc_item(self.2.field_view(), false).len() as int + enc_item(self.3.field_view(), false).len() as int + enc_item(self.4.field_view(), false).len() as int + enc_item(self.5.field_view(), false).len() as int + enc_item(self.6.field_view(), false).len() as int + enc_item(self.7.field_view(), false).len() as int, b.len() as int) == enc_items(t.skip(8), false)) by {
            assert(t[7] == self.7.field_view());
            assert(t.skip(7)[0] == t[7]);
            assert(t.skip(7).subrange(1, t.skip(7).len() as int) =~= t.skip(8));
            self.7.lemma_field_view();
            assert(t.skip(8)[0] == self.8.field_view());
            self.8.lemma_field_view();
            lemma_first_byte(self.8.field_view(), false);
            lemma_field_step(&self.7, b, enc_item(self.0.field_view(), false).len() as int + enc_item(self.1.field_view(), false).len() as int + enc_item(self.2.field_view(), false).len() as int + enc_item(self.3.field_view(), false).len() as int + enc_item(self.4.field_view(), false).len() as int + enc_item(self.5.field_view(), false).len() as int + enc_item(self.6.field_view(), false).len() as int, enc_items(t.skip(8), false));
        }
        assert(parse_field::<T8>(b.subrange(enc_item(self.0.field_view(), false).len() as int + enc_item(self.1.field_view(), false).len() as int + enc_item(self.2.field_view(), false).len() as int + enc_item(self.3.field_view(), false).len() as int + enc_item(self.4.field_view(), false).len() as int + enc_item(self.5.field_view(), false).len() as int + enc_item(self.6.field_view(), false).len() as int + enc_item(self.7.field_view(), false).len() as int, b.len() as int)) == Ok::<(ItemView, nat), Error>(
            (self.8.field_view(), enc_item(self.8.field_view(), false).len()),
        ) && b.subrange(enc_item(self.0.field_view(), false).len() as int + enc_item(self.1.field_view(), false).len() as int + enc_item(self.2.field_view(), false).len() as int + enc_item(self.3.field_view(), false).len() as int + enc_item(self.4.field_view(), false).len() as int + enc_item(self.5.field_view(), false).len() as int + enc_item(self.6.field_view(), false).len() as int + enc_item(self.7.field_view(), false).len() as int + enc_item(self.8.field_view(), false).len() as int, b.len() as int) == enc_items(t.skip(9), false)) by {
            assert(t[8] == self.8.field_view());
            assert(t.skip(8)[0] == t[8]);
            assert(t.skip(8).subrange(1, t.skip(8).len() as int) =~= t.skip(9));
            self.8.lemma_field_view();
            assert(t.skip(9)[0] == self.9.field_view());
            self.9.lemma_field_view();
            lemma_first_byte(self.9.field_view(), false);
            lemma_field_step(&self.8, b, enc_item(self.0.field_view(), false).len() as int + enc_item(self.1.field_view(), false).len() as int + enc_item(self.2.field_view(), false).len() as int + enc_item(self.3.field_view(), false).len() as int + enc_item(self.4.field_view(), false).len() as int + enc_item(self.5.field_view(), false).len() as int + enc_item(self.6.field_view(), false).len() as int + enc_item(self.7.field_view(), false).len() as int, enc_items(t.skip(9), false));
        }
        assert(parse_field::<T9>(b.subrange(enc_item(self.0.field_view(), false).len() as int + enc_item(self.1.field_view(), false).len() as int + enc_item(self.2.field_view(), false).len() as int + enc_item(self.3.field_view(), false).len() as int + enc_item(self.4.field_view(), false).len() as int + enc_item(self.5.field_view(), false).len() as int + enc_item(self.6.field_view(), false).len() as int + enc_item(self.7.field_view(), false).len() as int + enc_item(self.8.field_view(), false).len() as int, b.len() as int)) == Ok::<(ItemView, nat), Error>(
            (self.9.field_view(), enc_item(self.9.field_view(), false).len()),
        ) && b.subrange(enc_item(self.0.field_view(), false).len() as int + enc_item(self.1.field_view(), false).len() as int + enc_item(self.2.field_view(), false).len() as int + enc_item(self.3.field_view(), false).len() as int + enc_item(self.4.field_view(), false).len() as int + enc_item(self.5.field_view(), false).len() as int + enc_item(self.6.field_view(), false).len() as int + enc_item(self.7.field_view(), false).len() as int + enc_item(self.8.field_view(), false).len() as int + enc_item(self.9.field_view(), false).len() as int, b.len() as int) == enc_items(t.skip(10), false)) by {
            assert(t[9] == self.9.field_view());
            assert(t.skip(9)[0] == t[9]);
            assert(t.skip(9).subrange(1, t.skip(9).len() as int) =~= t.skip(10));
            self.9.lemma_field_view();
            assert(t.skip(10)[0] == self.10.field_view());
            self.10.lemma_field_view();
            lemma_first_byte(self.10.field_view(), false);
            lemma_field_step(&self.9, b, enc_item(self.0.field_view(), false).len() as int + enc_item(self.1.field_view(), false).len() as int + enc_item(self.2.field_view(), false).len() as int + enc_item(self.3.field_view(), false).len() as int + enc_item(self.4.field_view(), false).len() as int + enc_item(self.5.field_view(), false).len() as int + enc_item(self.6.field_view(), false).len() as int + enc_item(self.7.field_view(), false).len() as int + enc_item(self.8.field_view(), false).len() as int, enc_items(t.skip(10), false));
        }
        assert(parse_field::<T10>(b.subrange(enc_item(self.0.field_view(), false).len() as int + enc_item(self.1.field_view(), false).len() as int + enc_item(self.2.field_view(), false).len() as int + enc_item(self.3.field_view(), false).len() as int + enc_item(self.4.field_view(), false).len() as int + enc_item(self.5.field_view(), false).len() as int + enc_item(self.6.field_view(), false).len() as int + enc_item(self.7.field_view(), false).len() as int + enc_item(self.8.field_view(), false).len() as int + enc_item(self.9.field_view(), false).len() as int, b.len() as int)) == Ok::<(ItemView, nat), Error>(
            (self.10.field_view(), enc_item(self.10.field_view(), false).len()),
        ) && b.subrange(enc_item(self.0.field_view(), false).len() as int + enc_item(self.1.field_view(), false).len() as int + enc_item(self.2.field_view(), false).len() as int + enc_item(self.3.field_view(), false).len() as int + enc_item(self.4.field_view(), false).len() as int + enc_item(self.5.field_view(), false).len() as int + enc_item(self.6.field_view(), false).len() as int + enc_item(self.7.field_view(), false).len() as int + enc_item(self.8.field_view(), false).len() as int + enc_item(self.9.field_view(), false).len() as int + enc_item(self.10.field_view(), false).len() as int, b.len() as int) == enc_items(t.skip(11), false)) by {
            assert(t[10] == self.10.field_view());
            assert(t.skip(10)[0] == t[10]);
            assert(t.skip(10).subrange(1, t.skip(10).len() as int) =~= t.skip(11));
            self.10.lemma_field_view();
            assert(t.skip(11)[0] == self.11.field_view());
            self.11.lemma_field_view();
            lemma_first_byte(self.11.field_view(), false);
            lemma_field_step(&self.10, b, enc_item(self.0.field_view(), false).len() as int + enc_item(self.1.field_view(), false).len() as int + enc_item(self.2.field_view(), false).len() as int + enc_item(self.3.field_view(), false).len() as int + enc_item(self.4.field_view(), false).len() as int + enc_item(self.5.field_view(), false).len() as int + enc_item(self.6.field_view(), false).len() as int + enc_item(self.7.field_view(), false).len() as int + enc_item(self.8.field_view(), false).len() as int + enc_item(self.9.field_view(), false).len() as int, enc_items(t.skip(11), false));
        }
        assert(parse_field::<T11>(b.subrange(enc_item(self.0.field_view(), false).len() as int + enc_item(self.1.field_view(), false).len() as int + enc_item(self.2.field_view(), false).len() as int + enc_item(self.3.field_view(), false).len() as int + enc_item(self.4.field_view(), false).len() as int + enc_item(self.5.field_view(), false).len() as int + enc_item(self.6.field_view(), false).len() as int + enc_item(self.7.field_view(), false).len() as int + enc_item(self.8.field_view(), false).len() as int + enc_item(self.9.field_view(), false).len() as int + enc_item(self.10.field_view(), false).len() as int, b.len() as int)) == Ok::<(ItemView, nat), Error>(
            (self.11.field_view(), enc_item(self.11.field_view(), false).len()),
        ) && b.subrange(enc_item(self.0.field_view(), false).len() as int + enc_item(self.1.field_view(), false).len() as int + enc_item(self.2.field_view(), false).len() as int + enc_item(self.3.field_view(), false).len() as int + enc_item(self.4.field_view(), false).len() as int + enc_item(self.5.field_view(), false).len() as int + enc_item(self.6.field_view(), false).len() as int + enc_item(self.7.field_view(), false).len() as int + enc_item(self.8.field_view(), false).len() as int + enc_item(self.9.field_view(), false).len() as int + enc_item(self.10.field_view(), false).len() as int + enc_item(self.11.field_view(), false).len() as int, b.len() as int) == enc_items(t.skip(12), false)) by {
            assert(t[11] == self.11.field_view());
            assert(t.skip(11)[0] == t[11]);
            assert(t.skip(11).subrange(1, t.skip(11).len() as int) =~= t.skip(12));
            self.11.lemma_field_view();
            lemma_field_step(&self.11, b, enc_item(self.0.field_view(), false).len() as int + enc_item(self.1.field_view(), false).len() as int + enc_item(self.2.field_view(), false).len() as int + enc_item(self.3.field_view(), false).len() as int + enc_item(self.4.field_view(), false).len() as int + enc_item(self.5.field_view(), false).len() as int + enc_item(self.6.field_view(), false).len() as int + enc_item(self.7.field_view(), false).len() as int + enc_item(self.8.field_view(), false).len() as int + enc_item(self.9.field_view(), false).len() as int + enc_item(self.10.field_view(), false).len() as int, enc_items(t.skip(12), false));
        }
    }
}

} // verus!
