use vstd::prelude::*;
use vstd::utf8::encode_utf8;
use crate::array::{all_packable, elems_pos, encodings, lemma_encodings_step, lemma_encodings_take_prefix};
use crate::codec::{Pack, Unpack};
use crate::opaque::Opaque;
use crate::wire::{be32, be32_value, be64, be64_value, lemma_be32_round_trip, lemma_be64_round_trip, pad_len};

verus! {

/// The encoding of every packable value is a whole number of four-byte
/// words.
pub proof fn law_aligned<T: Pack>(v: T)
    requires
        v.packable(),
    ensures
        v.encoding().len() % 4 == 0,
{
    v.lemma_aligned();
}

/// Padding has between zero and three bytes and brings any length to a
/// multiple of four.
pub proof fn law_padding_range(n: nat)
    ensures
        0 <= pad_len(n as int) <= 3,
        (n + pad_len(n as int)) % 4 == 0,
{
}

/// Two 32-bit unsigned integers with the same encoding are equal.
pub proof fn law_u32_injective(a: u32, b: u32)
    requires
        a.encoding() == b.encoding(),
    ensures
        a == b,
{
    lemma_be32_round_trip(a);
    lemma_be32_round_trip(b);
}

/// Two 32-bit signed integers with the same encoding are equal.
pub proof fn law_i32_injective(a: i32, b: i32)
    requires
        a.encoding() == b.encoding(),
    ensures
        a == b,
{
    lemma_be32_round_trip(a as u32);
    lemma_be32_round_trip(b as u32);
    assert(a as u32 == b as u32 ==> a == b) by (bit_vector);
}

/// Two 64-bit unsigned integers with the same encoding are equal.
pub proof fn law_u64_injective(a: u64, b: u64)
    requires
        a.encoding() == b.encoding(),
    ensures
        a == b,
{
    lemma_be64_round_trip(a);
    lemma_be64_round_trip(b);
}

/// Two 64-bit signed integers with the same encoding are equal.
pub proof fn law_i64_injective(a: i64, b: i64)
    requires
        a.encoding() == b.encoding(),
    ensures
        a == b,
{
    lemma_be64_round_trip(a as u64);
    lemma_be64_round_trip(b as u64);
    assert(a as u64 == b as u64 ==> a == b) by (bit_vector);
}

/// Two booleans with the same encoding are equal.
pub proof fn law_bool_injective(a: bool, b: bool)
    requires
        a.encoding() == b.encoding(),
    ensures
        a == b,
{
    lemma_be32_round_trip(0);
    lemma_be32_round_trip(1);
}

/// Two strings with the same encoding hold the same characters.
pub proof fn law_string_injective(a: String, b: String)
    requires
        a.packable(),
        b.packable(),
        a.encoding() == b.encoding(),
    ensures
        a@ == b@,
{
    let ea = encode_utf8(a@);
    let eb = encode_utf8(b@);
    lemma_be32_round_trip(ea.len() as u32);
    lemma_be32_round_trip(eb.len() as u32);
    assert(be32(ea.len() as u32) =~= a.encoding().take(4));
    assert(be32(eb.len() as u32) =~= b.encoding().take(4));
    assert(ea =~= a.encoding().subrange(4, 4 + ea.len() as int));
    assert(eb =~= b.encoding().subrange(4, 4 + eb.len() as int));
    vstd::utf8::encode_utf8_decode_utf8(a@);
    vstd::utf8::encode_utf8_decode_utf8(b@);
}

/// Two opaque values with the same encoding hold the same bytes.
pub proof fn law_opaque_injective(a: Opaque, b: Opaque)
    requires
        a.packable(),
        b.packable(),
        a.encoding() == b.encoding(),
    ensures
        a.bytes() == b.bytes(),
{
    let ea = a.bytes();
    let eb = b.bytes();
    lemma_be32_round_trip(ea.len() as u32);
    lemma_be32_round_trip(eb.len() as u32);
    assert(be32(ea.len() as u32) =~= a.encoding().take(4));
    assert(be32(eb.len() as u32) =~= b.encoding().take(4));
    assert(ea =~= a.encoding().subrange(4, 4 + ea.len() as int));
    assert(eb =~= b.encoding().subrange(4, 4 + eb.len() as int));
}

/// Decoding the encoding of a 32-bit unsigned integer, followed by any bytes,
/// gives that integer back and consumes exactly its encoding.
pub proof fn law_u32_round_trip(v: u32, rest: Seq<u8>)
    ensures
        u32::decodable(v.encoding() + rest),
        u32::decodes_to(v.encoding() + rest, v),
        u32::decoded_len(v.encoding() + rest) == v.encoding().len(),
{
    lemma_be32_round_trip(v);
    assert(be32_value(v.encoding() + rest) == be32_value(v.encoding()));
}

/// Decoding the encoding of a 32-bit signed integer, followed by any bytes,
/// gives that integer back and consumes exactly its encoding.
pub proof fn law_i32_round_trip(v: i32, rest: Seq<u8>)
    ensures
        i32::decodable(v.encoding() + rest),
        i32::decodes_to(v.encoding() + rest, v),
        i32::decoded_len(v.encoding() + rest) == v.encoding().len(),
{
    lemma_be32_round_trip(v as u32);
    assert(be32_value(v.encoding() + rest) == be32_value(v.encoding()));
    assert((v as u32) as i32 == v) by (bit_vector);
}

/// Decoding the encoding of a 64-bit unsigned integer, followed by any bytes,
/// gives that integer back and consumes exactly its encoding.
pub proof fn law_u64_round_trip(v: u64, rest: Seq<u8>)
    ensures
        u64::decodable(v.encoding() + rest),
        u64::decodes_to(v.encoding() + rest, v),
        u64::decoded_len(v.encoding() + rest) == v.encoding().len(),
{
    lemma_be64_round_trip(v);
    assert(be64_value(v.encoding() + rest) == be64_value(v.encoding()));
}

/// Decoding the encoding of a 64-bit signed integer, followed by any bytes,
/// gives that integer back and consumes exactly its encoding.
pub proof fn law_i64_round_trip(v: i64, rest: Seq<u8>)
    ensures
        i64::decodable(v.encoding() + rest),
        i64::decodes_to(v.encoding() + rest, v),
        i64::decoded_len(v.encoding() + rest) == v.encoding().len(),
{
    lemma_be64_round_trip(v as u64);
    assert(be64_value(v.encoding() + rest) == be64_value(v.encoding()));
    assert((v as u64) as i64 == v) by (bit_vector);
}

/// Decoding the encoding of a machine-word value that fits in 32 bits,
/// followed by any bytes, gives that value back and consumes exactly its
/// encoding.
pub proof fn law_usize_round_trip(v: usize, rest: Seq<u8>)
    requires
        v <= u32::MAX,
    ensures
        usize::decodable(v.encoding() + rest),
        usize::decodes_to(v.encoding() + rest, v),
        usize::decoded_len(v.encoding() + rest) == v.encoding().len(),
{
    lemma_be32_round_trip(v as u32);
    assert(be32_value(v.encoding() + rest) == be32_value(v.encoding()));
}

/// Decoding the encoding of a boolean, followed by any bytes, gives that
/// boolean back and consumes exactly its encoding.
pub proof fn law_bool_round_trip(v: bool, rest: Seq<u8>)
    ensures
        bool::decodable(v.encoding() + rest),
        bool::decodes_to(v.encoding() + rest, v),
        bool::decoded_len(v.encoding() + rest) == v.encoding().len(),
{
    lemma_be32_round_trip(0);
    lemma_be32_round_trip(1);
    assert(be32_value(v.encoding() + rest) == be32_value(v.encoding()));
}

/// Decoding the encoding of opaque data, followed by any bytes, succeeds,
/// consumes exactly the encoding and gives owned data with the same bytes.
pub proof fn law_opaque_round_trip(v: Opaque, rest: Seq<u8>)
    requires
        v.packable(),
    ensures
        Opaque::decodable(v.encoding() + rest),
        Opaque::decoded_len(v.encoding() + rest) == v.encoding().len(),
        forall|w: Opaque| Opaque::decodes_to(v.encoding() + rest, w) ==> w is Owned && w.bytes() == v.bytes(),
{
    let s = v.encoding() + rest;
    let b = v.bytes();
    lemma_be32_round_trip(b.len() as u32);
    assert(be32_value(s) == be32_value(v.encoding()));
    assert(b =~= s.subrange(4, 4 + b.len() as int));
}

/// Decoding the encoding of a string, followed by any bytes, succeeds,
/// consumes exactly the encoding and gives a string of the same characters.
pub proof fn law_string_round_trip(v: String, rest: Seq<u8>)
    requires
        v.packable(),
    ensures
        String::decodable(v.encoding() + rest),
        String::decoded_len(v.encoding() + rest) == v.encoding().len(),
        forall|w: String| String::decodes_to(v.encoding() + rest, w) ==> w@ == v@,
{
    let s = v.encoding() + rest;
    let b = encode_utf8(v@);
    lemma_be32_round_trip(b.len() as u32);
    assert(be32_value(s) == be32_value(v.encoding()));
    assert(b =~= s.subrange(4, 4 + b.len() as int));
    vstd::utf8::encode_utf8_valid_utf8(v@);
    vstd::utf8::encode_utf8_decode_utf8(v@);
}

/// An optional value decodes back from its encoding whenever the value it
/// holds does: absent gives absent, and present gives a present value that
/// the held value's own decoding gives.
pub proof fn law_option_round_trip<T: Unpack>(v: Option<T>, rest: Seq<u8>)
    requires
        v is Some ==> T::decodable(v->Some_0.encoding() + rest) && T::decoded_len(
            v->Some_0.encoding() + rest,
        ) == v->Some_0.encoding().len(),
    ensures
        Option::<T>::decodable(v.encoding() + rest),
        Option::<T>::decoded_len(v.encoding() + rest) == v.encoding().len(),
        v is None ==> Option::<T>::decodes_to(v.encoding() + rest, v),
        forall|w: Option<T>|
            Option::<T>::decodes_to(v.encoding() + rest, w) && v is Some ==> w is Some && T::decodes_to(
                v->Some_0.encoding() + rest,
                w->Some_0,
            ),
{
    lemma_be32_round_trip(0);
    lemma_be32_round_trip(1);
    let s = v.encoding() + rest;
    assert(be32_value(s) == be32_value(v.encoding()));
    if v is Some {
        assert(s.skip(4) =~= v->Some_0.encoding() + rest);
    }
}

proof fn lemma_elems_pos_of_encodings<T: Unpack>(v: Seq<T>, b: Seq<u8>, i: nat)
    requires
        i <= v.len(),
        all_packable(v),
        encodings(v).is_prefix_of(b),
        forall|x: T, r: Seq<u8>|
            x.packable() ==> T::decodable(#[trigger] (x.encoding() + r)) && T::decoded_len(x.encoding() + r)
                == x.encoding().len(),
    ensures
        elems_pos::<T>(b, i) == encodings(v.take(i as int)).len(),
        forall|j: nat| j < i ==> T::decodable(b.skip(#[trigger] elems_pos::<T>(b, j) as int)),
        forall|j: nat|
            j < i ==> b.skip(#[trigger] elems_pos::<T>(b, j) as int) == v[j as int].encoding() + b.skip(
                (elems_pos::<T>(b, j) + v[j as int].encoding().len()) as int,
            ),
    decreases i,
{
    if i == 0 {
        assert(v.take(0) =~= Seq::<T>::empty());
    } else {
        let k = (i - 1) as nat;
        lemma_elems_pos_of_encodings(v, b, k);
        let p = elems_pos::<T>(b, k);
        let x = v[k as int];
        lemma_encodings_step(v, k as int);
        lemma_encodings_take_prefix(v, i as int);
        let a = encodings(v.take(i as int));
        assert(a =~= b.subrange(0, a.len() as int)) by {
            assert(a =~= encodings(v).subrange(0, a.len() as int));
            assert(encodings(v) =~= b.subrange(0, encodings(v).len() as int));
        }
        assert(p == encodings(v.take(k as int)).len());
        assert(a.len() <= b.len());
        assert(x.encoding() =~= a.subrange(p as int, a.len() as int));
        assert(x.encoding() =~= b.subrange(p as int, (p + x.encoding().len()) as int));
        assert(b.skip(p as int) =~= x.encoding() + b.skip((p + x.encoding().len()) as int));
        assert(x.packable());
        assert(T::decodable(x.encoding() + b.skip((p + x.encoding().len()) as int)));
    }
}

/// A counted array decodes back from its encoding whenever every value of
/// its element type does: the decoding succeeds, consumes exactly the
/// encoding and gives as many values, the `j`-th being what decoding the
/// `j`-th value's encoding, followed by the bytes after it, gives.
pub proof fn law_vec_round_trip<T: Unpack>(v: Vec<T>, rest: Seq<u8>)
    requires
        v.packable(),
        forall|x: T, r: Seq<u8>|
            x.packable() ==> T::decodable(#[trigger] (x.encoding() + r)) && T::decoded_len(x.encoding() + r)
                == x.encoding().len(),
    ensures
        Vec::<T>::decodable(v.encoding() + rest),
        Vec::<T>::decoded_len(v.encoding() + rest) == v.encoding().len(),
        forall|w: Vec<T>| #[trigger] Vec::<T>::decodes_to(v.encoding() + rest, w) ==> w@.len() == v@.len(),
        forall|w: Vec<T>, j: int|
            Vec::<T>::decodes_to(v.encoding() + rest, w) && 0 <= j < v@.len() ==> T::decodes_to(
                v@[j].encoding() + (v.encoding() + rest).skip(4 + encodings(v@.take(j + 1)).len() as int),
                #[trigger] w@[j],
            ),
{
    let s = v.encoding() + rest;
    let n = v@.len();
    lemma_be32_round_trip(n as u32);
    assert(be32_value(s) == be32_value(v.encoding()));
    let b = s.skip(4);
    assert(encodings(v@) =~= b.subrange(0, encodings(v@).len() as int));
    lemma_elems_pos_of_encodings(v@, b, n);
    assert(v@.take(n as int) =~= v@);
    assert forall|w: Vec<T>, j: int|
        Vec::<T>::decodes_to(s, w) && 0 <= j < v@.len() implies T::decodes_to(
            v@[j].encoding() + s.skip(4 + encodings(v@.take(j + 1)).len() as int),
            #[trigger] w@[j],
        ) by {
        lemma_elems_pos_of_encodings(v@, b, j as nat);
        lemma_encodings_step(v@, j);
        let p = elems_pos::<T>(b, j as nat);
        assert(p + v@[j].encoding().len() == encodings(v@.take(j + 1)).len());
        lemma_encodings_take_prefix(v@, j + 1);
        assert(b.skip((p + v@[j].encoding().len()) as int) =~= s.skip(4 + encodings(v@.take(j + 1)).len() as int));
        assert(T::decodes_to(b.skip(p as int), w@[j]));
    }
}

} // verus!
