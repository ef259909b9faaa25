use vstd::prelude::*;
use vstd::math::min;
use vstd::slice::{slice_subrange, slice_to_vec};
use vstd::utf8::{decode_utf8, encode_utf8, valid_utf8};
use crate::array::within;
use crate::codec::{Pack, Unpack};
use crate::error::Error;
use crate::wire::{be32, be32_value, get_u32, pad_len, padding, put_bytes, put_u32, zeros};

verus! {

/// XDR opaque data: bytes packed as tightly as possible and padded once to
/// a four-byte boundary, either borrowed from the caller or owned.
///
/// Two values are equal when their bytes are, whatever their variant.
pub enum Opaque<'a> {
    Borrowed(&'a [u8]),
    Owned(Vec<u8>),
}

impl<'a> Opaque<'a> {
    /// The bytes held, whatever the variant.
    pub open spec fn bytes(&self) -> Seq<u8> {
        match self {
            Opaque::Borrowed(b) => b@,
            Opaque::Owned(v) => v@,
        }
    }

    pub fn owned(v: Vec<u8>) -> (r: Opaque<'a>)
        ensures
            r is Owned,
            r.bytes() == v@,
    {
        Opaque::Owned(v)
    }

    pub fn borrowed(v: &'a [u8]) -> (r: Opaque<'a>)
        ensures
            r is Borrowed,
            r.bytes() == v@,
    {
        Opaque::Borrowed(v)
    }

    /// The bytes held, as a slice.
    pub fn as_slice(&self) -> (r: &[u8])
        ensures
            r@ == self.bytes(),
    {
        match self {
            Opaque::Borrowed(b) => b,
            Opaque::Owned(v) => v.as_slice(),
        }
    }
}

impl<'a> PartialEq for Opaque<'a> {
    fn eq(&self, other: &Opaque<'a>) -> (r: bool) {
        let a = self.as_slice();
        let b = other.as_slice();
        if a.len() != b.len() {
            return false;
        }
        let mut i: usize = 0;
        while i < a.len()
            invariant
                a@ == self.bytes(),
                b@ == other.bytes(),
                a@.len() == b@.len(),
                i <= a@.len(),
                a@.take(i as int) == b@.take(i as int),
            decreases a@.len() - i,
        {
            if a[i] != b[i] {
                return false;
            }
            assert(a@.take(i + 1) =~= a@.take(i as int).push(a@[i as int]));
            assert(b@.take(i + 1) =~= b@.take(i as int).push(b@[i as int]));
            i = i + 1;
        }
        assert(a@ =~= a@.take(i as int));
        assert(b@ =~= b@.take(i as int));
        true
    }
}

impl<'a> vstd::std_specs::cmp::PartialEqSpecImpl for Opaque<'a> {
    open spec fn obeys_eq_spec() -> bool {
        true
    }

    open spec fn eq_spec(&self, other: &Opaque<'a>) -> bool {
        self.bytes() == other.bytes()
    }
}

impl<'a> From<&'a [u8]> for Opaque<'a> {
    fn from(v: &'a [u8]) -> (r: Opaque<'a>) {
        Opaque::Borrowed(v)
    }
}

impl<'a> vstd::std_specs::convert::FromSpecImpl<&'a [u8]> for Opaque<'a> {
    open spec fn obeys_from_spec() -> bool {
        true
    }

    open spec fn from_spec(v: &'a [u8]) -> Opaque<'a> {
        Opaque::Borrowed(v)
    }
}

/// The encoding of opaque data: its byte count, its bytes and the padding.
pub open spec fn opaque_encoding(b: Seq<u8>) -> Seq<u8> {
    be32(b.len() as u32) + b + zeros(pad_len(b.len() as int))
}

/// The encoding of a fixed-size opaque array of `sz` bytes: the first `sz`
/// bytes of `b`, zeros for those that `b` lacks, and the padding.
pub open spec fn fixed_opaque_encoding(b: Seq<u8>, sz: int) -> Seq<u8> {
    b.take(min(sz, b.len() as int)) + zeros(sz - min(sz, b.len() as int)) + zeros(pad_len(sz))
}

proof fn lemma_opaque_aligned(b: Seq<u8>)
    ensures
        opaque_encoding(b).len() % 4 == 0,
{
}

/// Appends the encoding of `bytes` as opaque data, failing with `InvalidLen`
/// before writing anything if its length does not fit in 32 bits.
fn pack_opaque(bytes: &[u8], out: &mut Vec<u8>) -> (r: Result<usize, Error>)
    ensures
        bytes@.len() > u32::MAX ==> r == Err::<usize, Error>(Error::InvalidLen) && final(out)@
            == old(out)@,
        bytes@.len() <= u32::MAX ==> r is Ok && r->Ok_0 == opaque_encoding(bytes@).len() && final(out)@
            == old(out)@ + opaque_encoding(bytes@),
{
    if bytes.len() > u32::MAX as usize {
        return Err(Error::InvalidLen);
    }
    let start = out.len();
    put_u32(out, bytes.len() as u32);
    put_bytes(out, bytes);
    let pad = padding(out.len() - start);
    put_bytes(out, pad);
    assert(out@ =~= old(out)@ + opaque_encoding(bytes@));
    Ok(out.len() - start)
}

impl<'a> Pack for Opaque<'a> {
    open spec fn oversized(&self) -> bool {
        self.bytes().len() > u32::MAX
    }

    open spec fn packable(&self) -> bool {
        self.bytes().len() <= u32::MAX
    }

    open spec fn encoding(&self) -> Seq<u8> {
        opaque_encoding(self.bytes())
    }

    proof fn lemma_aligned(&self) {
        lemma_opaque_aligned(self.bytes());
    }

    fn pack(&self, out: &mut Vec<u8>) -> (r: Result<usize, Error>) {
        pack_opaque(self.as_slice(), out)
    }
}

impl<'a> Opaque<'a> {
    proof fn lemma_complete(input: Seq<u8>)
        ensures
            forall|v: Opaque<'a>|
                v.packable() && #[trigger] v.encoding().is_prefix_of(input) ==> opaque_fits(input, None)
                    && v.bytes() == input.subrange(4, 4 + be32_value(input)),
    {
        assert forall|v: Opaque<'a>|
            v.packable() && #[trigger] v.encoding().is_prefix_of(input) implies opaque_fits(input, None)
                && v.bytes() == input.subrange(4, 4 + be32_value(input)) by {
            let b = v.bytes();
            assert(be32(b.len() as u32) =~= input.take(4));
            crate::wire::lemma_be32_round_trip(b.len() as u32);
            assert(b =~= v.encoding().subrange(4, 4 + b.len() as int));
            assert(b =~= input.subrange(4, 4 + b.len() as int));
        }
    }
}

impl<'a> Unpack for Opaque<'a> {
    open spec fn decodable(input: Seq<u8>) -> bool {
        opaque_fits(input, None)
    }

    open spec fn decoded_len(input: Seq<u8>) -> nat {
        (4 + be32_value(input) + pad_len(be32_value(input) as int)) as nat
    }

    /// Decoding always gives the owned variant.
    open spec fn decodes_to(input: Seq<u8>, v: Self) -> bool {
        v is Owned && v.bytes() == input.subrange(4, 4 + be32_value(input))
    }

    open spec fn rejects(input: Seq<u8>, e: Error) -> bool {
        e is IOError
    }

    fn unpack(input: &[u8]) -> (r: Result<(Self, usize), Error>) {
        match unpack_opaque_flex(input, None) {
            Ok((v, n)) => {
                proof {
                    crate::wire::lemma_be32_round_trip(v@.len() as u32);
                    Self::lemma_complete(input@);
                }
                Ok((Opaque::Owned(v), n))
            },
            Err(e) => {
                proof {
                    Self::lemma_complete(input@);
                }
                Err(e)
            },
        }
    }
}

/// Packs a fixed-size opaque array of `sz` bytes, with no count: `val`
/// truncated or filled with zero bytes to `sz`, then padded.
pub fn pack_opaque_array(val: &[u8], sz: usize, out: &mut Vec<u8>) -> (r: Result<usize, Error>)
    requires
        sz + pad_len(sz as int) <= usize::MAX,
    ensures
        r is Ok,
        final(out)@ == old(out)@ + fixed_opaque_encoding(val@, sz as int),
        r->Ok_0 == fixed_opaque_encoding(val@, sz as int).len(),
        r->Ok_0 % 4 == 0,
{
    let start = out.len();
    let k = if sz < val.len() {
        sz
    } else {
        val.len()
    };
    put_bytes(out, slice_subrange(val, 0, k));
    let mid = out.len();
    let p = padding(sz).len();
    let mut i: usize = k;
    while i < sz || i - sz < p
        invariant
            k <= i <= sz + p,
            sz + p <= usize::MAX,
            p == pad_len(sz as int),
            mid == old(out)@.len() + k,
            start == old(out)@.len(),
            out@ == old(out)@ + val@.take(k as int) + zeros(i - k),
        decreases sz + p - i,
    {
        out.push(0u8);
        assert(zeros(i + 1 - k) =~= zeros(i - k).push(0u8));
        i = i + 1;
    }
    assert(zeros(i - k) =~= zeros(sz - k) + zeros(pad_len(sz as int)));
    assert(out@ =~= old(out)@ + fixed_opaque_encoding(val@, sz as int));
    Ok(out.len() - start)
}

/// Unpacks a fixed-size opaque array of `sz` bytes and its padding.
pub fn unpack_opaque_array(input: &[u8], sz: usize) -> (r: Result<(Vec<u8>, usize), Error>)
    ensures
        r is Ok <==> input@.len() >= sz + pad_len(sz as int),
        r is Err ==> r->Err_0 is IOError,
        r is Ok ==> r->Ok_0.0@ == input@.take(sz as int) && r->Ok_0.1 == sz + pad_len(sz as int),
{
    let p = padding(sz).len();
    if input.len() < sz || input.len() - sz < p {
        return Err(Error::eof());
    }
    let v = slice_to_vec(slice_subrange(input, 0, sz));
    Ok((v, sz + p))
}

/// Packs opaque data whose length may be limited: with a limit `maxsz` that
/// `val` exceeds it fails with `InvalidLen` and writes nothing.
pub fn pack_opaque_flex(val: &[u8], maxsz: Option<usize>, out: &mut Vec<u8>) -> (r: Result<usize, Error>)
    ensures
        !within(val@.len() as int, maxsz) || val@.len() > u32::MAX ==> r == Err::<usize, Error>(
            Error::InvalidLen,
        ) && final(out)@ == old(out)@,
        within(val@.len() as int, maxsz) && val@.len() <= u32::MAX ==> r is Ok && r->Ok_0
            == opaque_encoding(val@).len() && final(out)@ == old(out)@ + opaque_encoding(val@),
{
    match maxsz {
        Some(m) => {
            if val.len() > m {
                return Err(Error::InvalidLen);
            }
        },
        None => {},
    }
    pack_opaque(val, out)
}

/// Whether `input` holds a whole opaque encoding within the limit: a count
/// within `maxsz`, then that many bytes and their padding.
pub open spec fn opaque_fits(input: Seq<u8>, maxsz: Option<usize>) -> bool {
    &&& input.len() >= 4
    &&& within(be32_value(input) as int, maxsz)
    &&& input.len() >= 4 + be32_value(input) + pad_len(be32_value(input) as int)
}

/// Unpacks opaque data whose length may be limited. A length over the limit
/// fails with `InvalidLen` before any byte of the data is read.
pub fn unpack_opaque_flex(input: &[u8], maxsz: Option<usize>) -> (r: Result<(Vec<u8>, usize), Error>)
    ensures
        r is Ok <==> opaque_fits(input@, maxsz),
        input@.len() >= 4 && !within(be32_value(input@) as int, maxsz) ==> r == Err::<
            (Vec<u8>, usize),
            Error,
        >(Error::InvalidLen),
        input@.len() >= 4 && within(be32_value(input@) as int, maxsz) && r is Err ==> r->Err_0 is IOError,
        input@.len() < 4 ==> r is Err && r->Err_0 is IOError,
        r is Ok ==> r->Ok_0.0@ == input@.subrange(4, 4 + be32_value(input@)) && r->Ok_0.1 == 4
            + be32_value(input@) + pad_len(be32_value(input@) as int),
{
    let len = match get_u32(input) {
        Some(n) => n as usize,
        None => {
            return Err(Error::eof());
        },
    };
    match maxsz {
        Some(m) => {
            if len > m {
                return Err(Error::InvalidLen);
            }
        },
        None => {},
    }
    let p = padding(len).len();
    if input.len() - 4 < len || input.len() - 4 - len < p {
        return Err(Error::eof());
    }
    let v = slice_to_vec(slice_subrange(input, 4, 4 + len));
    Ok((v, 4 + len + p))
}

/// Relies on `String::from_utf8`: it succeeds exactly when the bytes are
/// valid UTF-8, and the string then holds the characters they encode.
#[verifier::external_body]
fn string_from_utf8(bytes: Vec<u8>) -> (r: Result<String, std::string::FromUtf8Error>)
    ensures
        r is Ok <==> valid_utf8(bytes@),
        r is Ok ==> r->Ok_0@ == decode_utf8(bytes@),
{
    String::from_utf8(bytes)
}

impl Pack for String {
    open spec fn oversized(&self) -> bool {
        encode_utf8(self@).len() > u32::MAX
    }

    open spec fn packable(&self) -> bool {
        encode_utf8(self@).len() <= u32::MAX
    }

    open spec fn encoding(&self) -> Seq<u8> {
        opaque_encoding(encode_utf8(self@))
    }

    proof fn lemma_aligned(&self) {
        lemma_opaque_aligned(encode_utf8(self@));
    }

    fn pack(&self, out: &mut Vec<u8>) -> (r: Result<usize, Error>) {
        pack_opaque(self.as_str().as_bytes(), out)
    }
}

impl Unpack for String {
    open spec fn decodable(input: Seq<u8>) -> bool {
        opaque_fits(input, None) && valid_utf8(input.subrange(4, 4 + be32_value(input)))
    }

    open spec fn decoded_len(input: Seq<u8>) -> nat {
        (4 + be32_value(input) + pad_len(be32_value(input) as int)) as nat
    }

    open spec fn decodes_to(input: Seq<u8>, v: Self) -> bool {
        v@ == decode_utf8(input.subrange(4, 4 + be32_value(input)))
    }

    open spec fn rejects(input: Seq<u8>, e: Error) -> bool {
        if opaque_fits(input, None) {
            e is InvalidUtf8
        } else {
            e is IOError
        }
    }

    fn unpack(input: &[u8]) -> (r: Result<(Self, usize), Error>) {
        let r = unpack_string(input, None);
        proof {
            assert forall|v: Self| v.packable() && #[trigger] v.encoding().is_prefix_of(input@) implies r is Ok
                && r->Ok_0.0.encoding() == v.encoding() && r->Ok_0.1 == v.encoding().len() by {
                let b = encode_utf8(v@);
                assert(be32(b.len() as u32) =~= input@.take(4));
                assert(b =~= v.encoding().subrange(4, 4 + b.len() as int));
                crate::wire::lemma_be32_round_trip(b.len() as u32);
                assert(b =~= input@.subrange(4, 4 + b.len() as int));
                vstd::utf8::encode_utf8_valid_utf8(v@);
                vstd::utf8::encode_utf8_decode_utf8(v@);
            }
            if r is Ok {
                vstd::utf8::decode_utf8_encode_utf8(input@.subrange(4, 4 + be32_value(input@)));
            }
        }
        r
    }
}

/// Packs a string whose length in bytes may be limited, as the opaque data
/// of its UTF-8 bytes.
pub fn pack_string(val: &str, maxsz: Option<usize>, out: &mut Vec<u8>) -> (r: Result<usize, Error>)
    ensures
        !within(encode_utf8(val@).len() as int, maxsz) || encode_utf8(val@).len() > u32::MAX ==> r
            == Err::<usize, Error>(Error::InvalidLen) && final(out)@ == old(out)@,
        within(encode_utf8(val@).len() as int, maxsz) && encode_utf8(val@).len() <= u32::MAX ==> r is Ok
            && r->Ok_0 == opaque_encoding(encode_utf8(val@)).len() && final(out)@ == old(out)@
            + opaque_encoding(encode_utf8(val@)),
{
    pack_opaque_flex(val.as_bytes(), maxsz, out)
}

/// Unpacks a string whose length in bytes may be limited. A length over the
/// limit fails with `InvalidLen` before any byte is read; bytes that are not
/// UTF-8 fail with `InvalidUtf8`.
pub fn unpack_string(input: &[u8], maxsz: Option<usize>) -> (r: Result<(String, usize), Error>)
    ensures
        r is Ok <==> opaque_fits(input@, maxsz) && valid_utf8(
            input@.subrange(4, 4 + be32_value(input@)),
        ),
        input@.len() >= 4 && !within(be32_value(input@) as int, maxsz) ==> r == Err::<
            (String, usize),
            Error,
        >(Error::InvalidLen),
        opaque_fits(input@, maxsz) && !valid_utf8(input@.subrange(4, 4 + be32_value(input@))) ==> r is Err
            && r->Err_0 is InvalidUtf8,
        input@.len() < 4 ==> r is Err && r->Err_0 is IOError,
        input@.len() >= 4 && within(be32_value(input@) as int, maxsz) && !opaque_fits(input@, maxsz) ==> r is Err
            && r->Err_0 is IOError,
        r is Ok ==> r->Ok_0.0@ == decode_utf8(input@.subrange(4, 4 + be32_value(input@))) && r->Ok_0.1
            == 4 + be32_value(input@) + pad_len(be32_value(input@) as int),
{
    let (v, n) = match unpack_opaque_flex(input, maxsz) {
        Ok(x) => x,
        Err(e) => {
            return Err(e);
        },
    };
    match string_from_utf8(v) {
        Ok(s) => Ok((s, n)),
        Err(e) => Err(Error::InvalidUtf8(e)),
    }
}

} // verus!
