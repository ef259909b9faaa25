use vstd::prelude::*;
use byteorder::{BigEndian, ByteOrder};

verus! {

/// Number of zero bytes that bring `n` up to a multiple of four.
pub open spec fn pad_len(n: int) -> int {
    (4 - n % 4) % 4
}

/// `n` zero bytes.
pub open spec fn zeros(n: int) -> Seq<u8> {
    Seq::new(n as nat, |i: int| 0u8)
}

/// The four bytes of `n`, most significant first.
pub open spec fn be32(n: u32) -> Seq<u8> {
    seq![(n >> 24u32) as u8, (n >> 16u32) as u8, (n >> 8u32) as u8, n as u8]
}

/// The value of the first four bytes of `s`, most significant first.
pub open spec fn be32_value(s: Seq<u8>) -> u32 {
    ((s[0] as u32) << 24u32) | ((s[1] as u32) << 16u32) | ((s[2] as u32) << 8u32) | (s[3] as u32)
}

/// The eight bytes of `n`, most significant first.
pub open spec fn be64(n: u64) -> Seq<u8> {
    seq![
        (n >> 56u64) as u8, (n >> 48u64) as u8, (n >> 40u64) as u8, (n >> 32u64) as u8,
        (n >> 24u64) as u8, (n >> 16u64) as u8, (n >> 8u64) as u8, n as u8,
    ]
}

/// The value of the first eight bytes of `s`, most significant first.
pub open spec fn be64_value(s: Seq<u8>) -> u64 {
    ((s[0] as u64) << 56u64) | ((s[1] as u64) << 48u64) | ((s[2] as u64) << 40u64)
        | ((s[3] as u64) << 32u64) | ((s[4] as u64) << 24u64) | ((s[5] as u64) << 16u64)
        | ((s[6] as u64) << 8u64) | (s[7] as u64)
}

pub proof fn lemma_be32_round_trip(n: u32)
    ensures
        be32_value(be32(n)) == n,
{
    let b0 = (n >> 24u32) as u8;
    let b1 = (n >> 16u32) as u8;
    let b2 = (n >> 8u32) as u8;
    let b3 = n as u8;
    assert((((b0 as u32) << 24u32) | ((b1 as u32) << 16u32) | ((b2 as u32) << 8u32) | (b3 as u32))
        == n) by (bit_vector)
        requires
            b0 == (n >> 24u32) as u8,
            b1 == (n >> 16u32) as u8,
            b2 == (n >> 8u32) as u8,
            b3 == n as u8,
    ;
}

pub proof fn lemma_be32_of_value(s: Seq<u8>)
    requires
        s.len() >= 4,
    ensures
        be32(be32_value(s)) == s.take(4),
{
    let (b0, b1, b2, b3) = (s[0], s[1], s[2], s[3]);
    let v = be32_value(s);
    assert((v >> 24u32) as u8 == b0 && (v >> 16u32) as u8 == b1 && (v >> 8u32) as u8 == b2
        && v as u8 == b3) by (bit_vector)
        requires
            v == ((b0 as u32) << 24u32) | ((b1 as u32) << 16u32) | ((b2 as u32) << 8u32) | (b3 as u32),
    ;
    assert(be32(v) =~= s.take(4));
}

pub proof fn lemma_be64_round_trip(n: u64)
    ensures
        be64_value(be64(n)) == n,
{
    let b0 = (n >> 56u64) as u8;
    let b1 = (n >> 48u64) as u8;
    let b2 = (n >> 40u64) as u8;
    let b3 = (n >> 32u64) as u8;
    let b4 = (n >> 24u64) as u8;
    let b5 = (n >> 16u64) as u8;
    let b6 = (n >> 8u64) as u8;
    let b7 = n as u8;
    assert((((b0 as u64) << 56u64) | ((b1 as u64) << 48u64) | ((b2 as u64) << 40u64)
        | ((b3 as u64) << 32u64) | ((b4 as u64) << 24u64) | ((b5 as u64) << 16u64)
        | ((b6 as u64) << 8u64) | (b7 as u64)) == n) by (bit_vector)
        requires
            b0 == (n >> 56u64) as u8,
            b1 == (n >> 48u64) as u8,
            b2 == (n >> 40u64) as u8,
            b3 == (n >> 32u64) as u8,
            b4 == (n >> 24u64) as u8,
            b5 == (n >> 16u64) as u8,
            b6 == (n >> 8u64) as u8,
            b7 == n as u8,
    ;
}

pub proof fn lemma_be64_of_value(s: Seq<u8>)
    requires
        s.len() >= 8,
    ensures
        be64(be64_value(s)) == s.take(8),
{
    let (b0, b1, b2, b3, b4, b5, b6, b7) = (s[0], s[1], s[2], s[3], s[4], s[5], s[6], s[7]);
    let v = be64_value(s);
    assert((v >> 56u64) as u8 == b0 && (v >> 48u64) as u8 == b1 && (v >> 40u64) as u8 == b2
        && (v >> 32u64) as u8 == b3 && (v >> 24u64) as u8 == b4 && (v >> 16u64) as u8 == b5
        && (v >> 8u64) as u8 == b6 && v as u8 == b7) by (bit_vector)
        requires
            v == ((b0 as u64) << 56u64) | ((b1 as u64) << 48u64) | ((b2 as u64) << 40u64)
                | ((b3 as u64) << 32u64) | ((b4 as u64) << 24u64) | ((b5 as u64) << 16u64)
                | ((b6 as u64) << 8u64) | (b7 as u64),
    ;
    assert(be64(v) =~= s.take(8));
}

/// Relies on byteorder's `BigEndian::write_u32`: it stores the four bytes of
/// `n`, most significant first.
#[verifier::external_body]
fn write_be32(n: u32) -> (r: [u8; 4])
    ensures
        r@ == be32(n),
{
    let mut buf = [0u8; 4];
    BigEndian::write_u32(&mut buf, n);
    buf
}

/// Relies on byteorder's `BigEndian::write_u64`: it stores the eight bytes of
/// `n`, most significant first.
#[verifier::external_body]
fn write_be64(n: u64) -> (r: [u8; 8])
    ensures
        r@ == be64(n),
{
    let mut buf = [0u8; 8];
    BigEndian::write_u64(&mut buf, n);
    buf
}

/// Relies on byteorder's `BigEndian::read_u32`: the value of the first four
/// bytes, most significant first (it panics on fewer than four).
#[verifier::external_body]
fn read_be32(buf: &[u8]) -> (r: u32)
    requires
        buf@.len() >= 4,
    ensures
        r == be32_value(buf@),
{
    BigEndian::read_u32(buf)
}

/// Relies on byteorder's `BigEndian::read_u64`: the value of the first eight
/// bytes, most significant first (it panics on fewer than eight).
#[verifier::external_body]
fn read_be64(buf: &[u8]) -> (r: u64)
    requires
        buf@.len() >= 8,
    ensures
        r == be64_value(buf@),
{
    BigEndian::read_u64(buf)
}

/// Appends `bytes` to `out`.
pub fn put_bytes(out: &mut Vec<u8>, bytes: &[u8])
    ensures
        final(out)@ == old(out)@ + bytes@,
{
    let mut i: usize = 0;
    while i < bytes.len()
        invariant
            i <= bytes@.len(),
            out@ == old(out)@ + bytes@.take(i as int),
        decreases bytes@.len() - i,
    {
        out.push(bytes[i]);
        i = i + 1;
        assert(out@ =~= old(out)@ + bytes@.take(i as int));
    }
    assert(bytes@.take(i as int) =~= bytes@);
}

/// Appends the big-endian encoding of `n` to `out`.
pub fn put_u32(out: &mut Vec<u8>, n: u32)
    ensures
        final(out)@ == old(out)@ + be32(n),
{
    let buf = write_be32(n);
    put_bytes(out, &buf);
}

/// Appends the big-endian encoding of `n` to `out`.
pub fn put_u64(out: &mut Vec<u8>, n: u64)
    ensures
        final(out)@ == old(out)@ + be64(n),
{
    let buf = write_be64(n);
    put_bytes(out, &buf);
}

/// Reads a big-endian `u32` from the front of `input`, if it holds four bytes.
pub fn get_u32(input: &[u8]) -> (r: Option<u32>)
    ensures
        input@.len() >= 4 <==> r is Some,
        r is Some ==> r->Some_0 == be32_value(input@) && be32(r->Some_0) == input@.take(4),
{
    if input.len() < 4 {
        None
    } else {
        proof {
            lemma_be32_of_value(input@);
        }
        Some(read_be32(input))
    }
}

/// Reads a big-endian `u64` from the front of `input`, if it holds eight bytes.
pub fn get_u64(input: &[u8]) -> (r: Option<u64>)
    ensures
        input@.len() >= 8 <==> r is Some,
        r is Some ==> r->Some_0 == be64_value(input@) && be64(r->Some_0) == input@.take(8),
{
    if input.len() < 8 {
        None
    } else {
        proof {
            lemma_be64_of_value(input@);
        }
        Some(read_be64(input))
    }
}

/// Zero padding that brings `sz` up to a multiple of four; empty if `sz`
/// already is one.
pub fn padding(sz: usize) -> (r: &'static [u8])
    ensures
        r@ == zeros(pad_len(sz as int)),
        0 <= r@.len() <= 3,
        (sz + r@.len()) % 4 == 0,
{
    let k = sz % 4;
    let r: &'static [u8] = if k == 0 {
        &[]
    } else if k == 1 {
        &[0u8, 0u8, 0u8]
    } else if k == 2 {
        &[0u8, 0u8]
    } else {
        &[0u8]
    };
    assert(r@ =~= zeros(pad_len(sz as int)));
    r
}

} // verus!
