use vstd::prelude::*;
use vstd::slice::slice_subrange;
use crate::error::Error;
use crate::wire::{be32, be32_value, be64, be64_value, get_u32, get_u64, put_u32, put_u64};

verus! {

/// Serialization into XDR.
///
/// A value that is `packable` has the wire encoding `encoding`, whose length
/// is a multiple of four; `pack` appends exactly that encoding to the output
/// and returns its length, and fails on values that are not packable.
pub trait Pack {
    /// Whether the value's own length does not fit the wire's 32-bit count:
    /// it then fails with `InvalidLen` before writing anything.
    spec fn oversized(&self) -> bool;

    /// Whether the value can be encoded (its lengths fit the wire's counts).
    spec fn packable(&self) -> bool;

    /// The wire encoding of the value.
    spec fn encoding(&self) -> Seq<u8>;

    /// Every encoding is aligned to four bytes.
    proof fn lemma_aligned(&self)
        requires
            self.packable(),
        ensures
            self.encoding().len() % 4 == 0,
    ;

    fn pack(&self, out: &mut Vec<u8>) -> (r: Result<usize, Error>)
        ensures
            r is Ok <==> self.packable(),
            r is Ok ==> final(out)@ == old(out)@ + self.encoding() && r->Ok_0 == self.encoding().len(),
            self.oversized() ==> r == Err::<usize, Error>(Error::InvalidLen) && final(out)@ == old(out)@,
    ;
}

/// Deserialization from XDR.
///
/// Each type states what decoding any input gives: whether it succeeds
/// (`decodable`), the value (`decodes_to`), the bytes consumed
/// (`decoded_len`) and, on failure, the error (`rejects`). On an input that
/// starts with the encoding of a packable value it succeeds, with a value of
/// that same encoding and consuming exactly it.
pub trait Unpack: Pack + Sized {
    /// Whether decoding the front of `input` succeeds.
    spec fn decodable(input: Seq<u8>) -> bool;

    /// The number of bytes that decoding the front of `input` consumes.
    spec fn decoded_len(input: Seq<u8>) -> nat;

    /// Whether `v` is the value that decoding the front of `input` gives.
    spec fn decodes_to(input: Seq<u8>, v: Self) -> bool;

    /// Whether `e` is the error that decoding the front of `input` fails with.
    spec fn rejects(input: Seq<u8>, e: Error) -> bool;

    fn unpack(input: &[u8]) -> (r: Result<(Self, usize), Error>)
        ensures
            r is Ok <==> Self::decodable(input@),
            r is Ok ==> Self::decodes_to(input@, r->Ok_0.0) && r->Ok_0.1 == Self::decoded_len(input@),
            r is Err ==> Self::rejects(input@, r->Err_0),
            r is Ok ==> r->Ok_0.0.packable() && r->Ok_0.1 == r->Ok_0.0.encoding().len()
                && r->Ok_0.1 <= input@.len(),
            forall|v: Self|
                v.packable() && #[trigger] v.encoding().is_prefix_of(input@) ==> r is Ok
                    && r->Ok_0.0.encoding() == v.encoding() && r->Ok_0.1 == v.encoding().len(),
    ;
}

impl Pack for u32 {
    open spec fn oversized(&self) -> bool {
        false
    }

    open spec fn packable(&self) -> bool {
        true
    }

    open spec fn encoding(&self) -> Seq<u8> {
        be32(*self)
    }

    proof fn lemma_aligned(&self) {
    }

    fn pack(&self, out: &mut Vec<u8>) -> (r: Result<usize, Error>) {
        put_u32(out, *self);
        Ok(4)
    }
}

impl Unpack for u32 {
    open spec fn decodable(input: Seq<u8>) -> bool {
        input.len() >= 4
    }

    open spec fn decoded_len(input: Seq<u8>) -> nat {
        4
    }

    open spec fn decodes_to(input: Seq<u8>, v: Self) -> bool {
        v == be32_value(input)
    }

    open spec fn rejects(input: Seq<u8>, e: Error) -> bool {
        e is IOError
    }

    fn unpack(input: &[u8]) -> (r: Result<(Self, usize), Error>) {
        match get_u32(input) {
            Some(v) => Ok((v, 4)),
            None => Err(Error::eof()),
        }
    }
}

impl Pack for i32 {
    open spec fn oversized(&self) -> bool {
        false
    }

    open spec fn packable(&self) -> bool {
        true
    }

    open spec fn encoding(&self) -> Seq<u8> {
        be32(*self as u32)
    }

    proof fn lemma_aligned(&self) {
    }

    fn pack(&self, out: &mut Vec<u8>) -> (r: Result<usize, Error>) {
        put_u32(out, *self as u32);
        Ok(4)
    }
}

impl Unpack for i32 {
    open spec fn decodable(input: Seq<u8>) -> bool {
        input.len() >= 4
    }

    open spec fn decoded_len(input: Seq<u8>) -> nat {
        4
    }

    open spec fn decodes_to(input: Seq<u8>, v: Self) -> bool {
        v == be32_value(input) as i32
    }

    open spec fn rejects(input: Seq<u8>, e: Error) -> bool {
        e is IOError
    }

    fn unpack(input: &[u8]) -> (r: Result<(Self, usize), Error>) {
        match get_u32(input) {
            Some(v) => {
                let x = v as i32;
                assert(x as u32 == v) by (bit_vector)
                    requires
                        x == v as i32,
                ;
                Ok((x, 4))
            },
            None => Err(Error::eof()),
        }
    }
}

impl Pack for u64 {
    open spec fn oversized(&self) -> bool {
        false
    }

    open spec fn packable(&self) -> bool {
        true
    }

    open spec fn encoding(&self) -> Seq<u8> {
        be64(*self)
    }

    proof fn lemma_aligned(&self) {
    }

    fn pack(&self, out: &mut Vec<u8>) -> (r: Result<usize, Error>) {
        put_u64(out, *self);
        Ok(8)
    }
}

impl Unpack for u64 {
    open spec fn decodable(input: Seq<u8>) -> bool {
        input.len() >= 8
    }

    open spec fn decoded_len(input: Seq<u8>) -> nat {
        8
    }

    open spec fn decodes_to(input: Seq<u8>, v: Self) -> bool {
        v == be64_value(input)
    }

    open spec fn rejects(input: Seq<u8>, e: Error) -> bool {
        e is IOError
    }

    fn unpack(input: &[u8]) -> (r: Result<(Self, usize), Error>) {
        match get_u64(input) {
            Some(v) => Ok((v, 8)),
            None => Err(Error::eof()),
        }
    }
}

impl Pack for i64 {
    open spec fn oversized(&self) -> bool {
        false
    }

    open spec fn packable(&self) -> bool {
        true
    }

    open spec fn encoding(&self) -> Seq<u8> {
        be64(*self as u64)
    }

    proof fn lemma_aligned(&self) {
    }

    fn pack(&self, out: &mut Vec<u8>) -> (r: Result<usize, Error>) {
        put_u64(out, *self as u64);
        Ok(8)
    }
}

impl Unpack for i64 {
    open spec fn decodable(input: Seq<u8>) -> bool {
        input.len() >= 8
    }

    open spec fn decoded_len(input: Seq<u8>) -> nat {
        8
    }

    open spec fn decodes_to(input: Seq<u8>, v: Self) -> bool {
        v == be64_value(input) as i64
    }

    open spec fn rejects(input: Seq<u8>, e: Error) -> bool {
        e is IOError
    }

    fn unpack(input: &[u8]) -> (r: Result<(Self, usize), Error>) {
        match get_u64(input) {
            Some(v) => {
                let x = v as i64;
                assert(x as u64 == v) by (bit_vector)
                    requires
                        x == v as i64,
                ;
                Ok((x, 8))
            },
            None => Err(Error::eof()),
        }
    }
}

impl Pack for bool {
    open spec fn oversized(&self) -> bool {
        false
    }

    open spec fn packable(&self) -> bool {
        true
    }

    open spec fn encoding(&self) -> Seq<u8> {
        be32(if *self { 1u32 } else { 0u32 })
    }

    proof fn lemma_aligned(&self) {
    }

    fn pack(&self, out: &mut Vec<u8>) -> (r: Result<usize, Error>) {
        put_u32(out, if *self { 1u32 } else { 0u32 });
        Ok(4)
    }
}

impl Unpack for bool {
    open spec fn decodable(input: Seq<u8>) -> bool {
        input.len() >= 4 && be32_value(input) <= 1
    }

    open spec fn decoded_len(input: Seq<u8>) -> nat {
        4
    }

    open spec fn decodes_to(input: Seq<u8>, v: Self) -> bool {
        v == (be32_value(input) == 1)
    }

    open spec fn rejects(input: Seq<u8>, e: Error) -> bool {
        if input.len() < 4 {
            e is IOError
        } else {
            e is InvalidEnum
        }
    }

    fn unpack(input: &[u8]) -> (r: Result<(Self, usize), Error>) {
        match get_u32(input) {
            Some(v) => {
                if v == 0 {
                    Ok((false, 4))
                } else if v == 1 {
                    Ok((true, 4))
                } else {
                    proof {
                        crate::wire::lemma_be32_round_trip(0);
                        crate::wire::lemma_be32_round_trip(1);
                    }
                    Err(Error::InvalidEnum)
                }
            },
            None => Err(Error::eof()),
        }
    }
}

impl Pack for () {
    open spec fn oversized(&self) -> bool {
        false
    }

    open spec fn packable(&self) -> bool {
        true
    }

    open spec fn encoding(&self) -> Seq<u8> {
        Seq::empty()
    }

    proof fn lemma_aligned(&self) {
    }

    fn pack(&self, out: &mut Vec<u8>) -> (r: Result<usize, Error>) {
        assert(out@ =~= out@ + Seq::<u8>::empty());
        Ok(0)
    }
}

impl Unpack for () {
    open spec fn decodable(input: Seq<u8>) -> bool {
        true
    }

    open spec fn decoded_len(input: Seq<u8>) -> nat {
        0
    }

    open spec fn decodes_to(input: Seq<u8>, v: Self) -> bool {
        true
    }

    open spec fn rejects(input: Seq<u8>, e: Error) -> bool {
        false
    }

    fn unpack(input: &[u8]) -> (r: Result<(Self, usize), Error>) {
        Ok(((), 0))
    }
}

/// A machine-word value goes on the wire as a 32-bit unsigned integer,
/// keeping its low 32 bits.
impl Pack for usize {
    open spec fn oversized(&self) -> bool {
        false
    }

    open spec fn packable(&self) -> bool {
        true
    }

    open spec fn encoding(&self) -> Seq<u8> {
        be32(*self as u32)
    }

    proof fn lemma_aligned(&self) {
    }

    fn pack(&self, out: &mut Vec<u8>) -> (r: Result<usize, Error>) {
        put_u32(out, *self as u32);
        Ok(4)
    }
}

impl Unpack for usize {
    open spec fn decodable(input: Seq<u8>) -> bool {
        input.len() >= 4
    }

    open spec fn decoded_len(input: Seq<u8>) -> nat {
        4
    }

    open spec fn decodes_to(input: Seq<u8>, v: Self) -> bool {
        v == be32_value(input) as usize
    }

    open spec fn rejects(input: Seq<u8>, e: Error) -> bool {
        e is IOError
    }

    fn unpack(input: &[u8]) -> (r: Result<(Self, usize), Error>) {
        match get_u32(input) {
            Some(v) => Ok((v as usize, 4)),
            None => Err(Error::eof()),
        }
    }
}

/// An optional value goes on the wire as a presence flag, then the value's
/// encoding if there is one.
impl<T: Pack> Pack for Option<T> {
    open spec fn oversized(&self) -> bool {
        false
    }

    open spec fn packable(&self) -> bool {
        match self {
            Some(v) => v.packable(),
            None => true,
        }
    }

    open spec fn encoding(&self) -> Seq<u8> {
        match self {
            Some(v) => be32(1) + v.encoding(),
            None => be32(0),
        }
    }

    proof fn lemma_aligned(&self) {
        match self {
            Some(v) => v.lemma_aligned(),
            None => {},
        }
    }

    fn pack(&self, out: &mut Vec<u8>) -> (r: Result<usize, Error>) {
        match self {
            None => false.pack(out),
            Some(v) => {
                let start = out.len();
                match true.pack(out) {
                    Ok(_) => {},
                    Err(e) => {
                        return Err(e);
                    },
                }
                match v.pack(out) {
                    Ok(_) => {},
                    Err(e) => {
                        return Err(e);
                    },
                }
                assert(out@ =~= old(out)@ + self.encoding());
                Ok(out.len() - start)
            },
        }
    }
}

impl<T: Unpack> Unpack for Option<T> {
    open spec fn decodable(input: Seq<u8>) -> bool {
        bool::decodable(input) && (be32_value(input) == 1 ==> T::decodable(input.skip(4)))
    }

    open spec fn decoded_len(input: Seq<u8>) -> nat {
        if be32_value(input) == 1 {
            4 + T::decoded_len(input.skip(4))
        } else {
            4
        }
    }

    open spec fn decodes_to(input: Seq<u8>, v: Self) -> bool {
        if be32_value(input) == 1 {
            v is Some && T::decodes_to(input.skip(4), v->Some_0)
        } else {
            v is None
        }
    }

    open spec fn rejects(input: Seq<u8>, e: Error) -> bool {
        if !bool::decodable(input) {
            bool::rejects(input, e)
        } else {
            T::rejects(input.skip(4), e)
        }
    }

    fn unpack(input: &[u8]) -> (r: Result<(Self, usize), Error>) {
        proof {
            crate::wire::lemma_be32_round_trip(0);
            crate::wire::lemma_be32_round_trip(1);
        }
        let (have, sz) = match bool::unpack(input) {
            Ok(x) => x,
            Err(e) => {
                proof {
                    assert forall|v: Self| v.packable() && #[trigger] v.encoding().is_prefix_of(input@)
                        implies false by {
                        let flag = v is Some;
                        assert(flag.encoding() =~= v.encoding().take(4));
                        assert(flag.encoding().is_prefix_of(input@));
                    }
                }
                return Err(e);
            },
        };
        if !have {
            proof {
                assert forall|v: Self| v.packable() && #[trigger] v.encoding().is_prefix_of(input@)
                    implies v is None by {
                    if v is Some {
                        assert(true.encoding() =~= v.encoding().take(4));
                        assert(true.encoding().is_prefix_of(input@));
                    }
                }
            }
            return Ok((None, sz));
        }
        let rest = slice_subrange(input, 4, input.len());
        assert(rest@ =~= input@.skip(4));
        proof {
            assert forall|v: Self| v.packable() && #[trigger] v.encoding().is_prefix_of(input@)
                implies v is Some && v->Some_0.encoding().is_prefix_of(rest@) by {
                if v is None {
                    assert(false.encoding().is_prefix_of(input@));
                } else {
                    assert(true.encoding() =~= v.encoding().take(4));
                    assert(true.encoding().is_prefix_of(input@));
                    let e = v->Some_0.encoding();
                    assert(e =~= v.encoding().subrange(4, 4 + e.len() as int));
                    assert(e =~= rest@.subrange(0, e.len() as int));
                }
            }
        }
        match T::unpack(rest) {
            Ok((v, n)) => {
                assert(be32(1) + v.encoding() == Some(v).encoding());
                Ok((Some(v), 4 + n))
            },
            Err(e) => Err(e),
        }
    }
}

// A copy-on-write value (`std::borrow::Cow`) would go on the wire exactly as
// the value it holds, as a box does; it gets no impl here because vstd gives
// `Cow` no specification, so verified code cannot hold one.

/// A boxed value goes on the wire exactly as the value itself.
impl<T: Pack> Pack for Box<T> {
    open spec fn oversized(&self) -> bool {
        (**self).oversized()
    }

    open spec fn packable(&self) -> bool {
        (**self).packable()
    }

    open spec fn encoding(&self) -> Seq<u8> {
        (**self).encoding()
    }

    proof fn lemma_aligned(&self) {
        (**self).lemma_aligned();
    }

    fn pack(&self, out: &mut Vec<u8>) -> (r: Result<usize, Error>) {
        let t: &T = &**self;
        t.pack(out)
    }
}

impl<T: Unpack> Unpack for Box<T> {
    open spec fn decodable(input: Seq<u8>) -> bool {
        T::decodable(input)
    }

    open spec fn decoded_len(input: Seq<u8>) -> nat {
        T::decoded_len(input)
    }

    open spec fn decodes_to(input: Seq<u8>, v: Self) -> bool {
        T::decodes_to(input, *v)
    }

    open spec fn rejects(input: Seq<u8>, e: Error) -> bool {
        T::rejects(input, e)
    }

    fn unpack(input: &[u8]) -> (r: Result<(Self, usize), Error>) {
        match T::unpack(input) {
            Ok((v, n)) => Ok((Box::new(v), n)),
            Err(e) => {
                proof {
                    assert forall|v: Self| v.packable() && #[trigger] v.encoding().is_prefix_of(input@)
                        implies false by {
                        assert((*v).encoding().is_prefix_of(input@));
                    }
                }
                Err(e)
            },
        }
    }
}

/// Packs `val` onto the end of `out`.
pub fn pack<T: Pack>(val: &T, out: &mut Vec<u8>) -> (r: Result<(), Error>)
    ensures
        r is Ok <==> val.packable(),
        r is Ok ==> final(out)@ == old(out)@ + val.encoding(),
{
    match val.pack(out) {
        Ok(_) => Ok(()),
        Err(e) => Err(e),
    }
}

/// Unpacks a value from the front of `input`: on an input that starts with
/// the encoding of a packable value, a value of that same encoding.
pub fn unpack<T: Unpack>(input: &[u8]) -> (r: Result<T, Error>)
    ensures
        r is Ok <==> T::decodable(input@),
        r is Ok ==> T::decodes_to(input@, r->Ok_0),
        r is Err ==> T::rejects(input@, r->Err_0),
        r is Ok ==> r->Ok_0.packable() && r->Ok_0.encoding().len() <= input@.len(),
        forall|v: T|
            v.packable() && #[trigger] v.encoding().is_prefix_of(input@) ==> r is Ok
                && r->Ok_0.encoding() == v.encoding(),
{
    match T::unpack(input) {
        Ok((v, _)) => Ok(v),
        Err(e) => Err(e),
    }
}

} // verus!
