use vstd::prelude::*;
use vstd::math::min;
use vstd::slice::slice_subrange;
use crate::codec::{Pack, Unpack};
use crate::error::Error;
use crate::wire::{be32, be32_value, get_u32, pad_len, padding, put_bytes, put_u32, zeros};

verus! {

/// The encodings of the values of `s`, one after another.
pub open spec fn encodings<T: Pack>(s: Seq<T>) -> Seq<u8>
    decreases s.len(),
{
    if s.len() == 0 {
        Seq::empty()
    } else {
        encodings(s.drop_last()) + s.last().encoding()
    }
}

/// Whether every value of `s` is packable.
pub open spec fn all_packable<T: Pack>(s: Seq<T>) -> bool {
    forall|i: int| 0 <= i < s.len() ==> #[trigger] s[i].packable()
}

/// The encoding of a counted sequence: its count, its values' encodings and
/// the padding that aligns the whole.
pub open spec fn counted_encoding<T: Pack>(s: Seq<T>) -> Seq<u8> {
    be32(s.len() as u32) + encodings(s) + zeros(pad_len(encodings(s).len() as int))
}

/// Where the `i`-th of the values decoded one after another from `s` starts.
pub open spec fn elems_pos<T: Unpack>(s: Seq<u8>, i: nat) -> nat
    decreases i,
{
    if i == 0 {
        0
    } else {
        let p = elems_pos::<T>(s, (i - 1) as nat);
        p + T::decoded_len(s.skip(p as int))
    }
}

/// Whether `count` values can be decoded one after another from `s`.
pub open spec fn elems_decodable<T: Unpack>(s: Seq<u8>, count: nat) -> bool {
    forall|i: nat| i < count ==> T::decodable(s.skip(#[trigger] elems_pos::<T>(s, i) as int))
}

/// Whether `xs` are the values decoded one after another from `s`.
pub open spec fn elems_decode<T: Unpack>(s: Seq<u8>, xs: Seq<T>) -> bool {
    forall|i: int| 0 <= i < xs.len() ==> T::decodes_to(s.skip(elems_pos::<T>(s, i as nat) as int), #[trigger] xs[i])
}

/// Whether `e` is the error of the first of `count` values that cannot be
/// decoded from `s`.
pub open spec fn elems_rejects<T: Unpack>(s: Seq<u8>, count: nat, e: Error) -> bool {
    exists|i: nat|
        i < count && elems_decodable::<T>(s, i) && !T::decodable(s.skip(#[trigger] elems_pos::<T>(s, i) as int))
            && T::rejects(s.skip(elems_pos::<T>(s, i) as int), e)
}

/// The length of the values of a counted array in `input`.
pub open spec fn flex_body_len<T: Unpack>(input: Seq<u8>) -> nat {
    elems_pos::<T>(input.skip(4), be32_value(input) as nat)
}

/// Whether a counted array within the limit can be decoded from `input`.
pub open spec fn flex_decodable<T: Unpack>(input: Seq<u8>, maxsz: Option<usize>) -> bool {
    &&& input.len() >= 4
    &&& within(be32_value(input) as int, maxsz)
    &&& elems_decodable::<T>(input.skip(4), be32_value(input) as nat)
    &&& input.len() >= 4 + flex_body_len::<T>(input) + pad_len(flex_body_len::<T>(input) as int)
}

/// The bytes that decoding a counted array from `input` consumes.
pub open spec fn flex_decoded_len<T: Unpack>(input: Seq<u8>) -> nat {
    (4 + flex_body_len::<T>(input) + pad_len(flex_body_len::<T>(input) as int)) as nat
}

/// Whether `xs` are the values of the counted array decoded from `input`.
pub open spec fn flex_decodes<T: Unpack>(input: Seq<u8>, xs: Seq<T>) -> bool {
    xs.len() == be32_value(input) && elems_decode::<T>(input.skip(4), xs)
}

/// Whether `e` is the error that decoding a counted array within the limit
/// from `input` fails with.
pub open spec fn flex_rejects<T: Unpack>(input: Seq<u8>, maxsz: Option<usize>, e: Error) -> bool {
    if input.len() < 4 {
        e is IOError
    } else if !within(be32_value(input) as int, maxsz) {
        e is InvalidLen
    } else if !elems_decodable::<T>(input.skip(4), be32_value(input) as nat) {
        elems_rejects::<T>(input.skip(4), be32_value(input) as nat, e)
    } else {
        e is IOError
    }
}

pub proof fn lemma_encodings_step<T: Pack>(s: Seq<T>, i: int)
    requires
        0 <= i < s.len(),
    ensures
        encodings(s.take(i + 1)) == encodings(s.take(i)) + s[i].encoding(),
{
    assert(s.take(i + 1).drop_last() =~= s.take(i));
}

pub proof fn lemma_encodings_take_prefix<T: Pack>(s: Seq<T>, i: int)
    requires
        0 <= i <= s.len(),
    ensures
        encodings(s.take(i)).is_prefix_of(encodings(s)),
    decreases s.len(),
{
    if i == s.len() {
        assert(s.take(i) =~= s);
    } else {
        lemma_encodings_take_prefix(s.drop_last(), i);
        assert(s.drop_last().take(i) =~= s.take(i));
        assert(encodings(s.take(i)).is_prefix_of(encodings(s.drop_last())));
        assert(encodings(s.take(i)) =~= encodings(s).subrange(0, encodings(s.take(i)).len() as int));
    }
}

pub proof fn lemma_encodings_aligned<T: Pack>(s: Seq<T>)
    requires
        all_packable(s),
    ensures
        encodings(s).len() % 4 == 0,
    decreases s.len(),
{
    if s.len() > 0 {
        assert forall|j: int| 0 <= j < s.len() - 1 implies #[trigger] s.drop_last()[j].packable() by {
            assert(s.drop_last()[j] == s[j]);
        }
        lemma_encodings_aligned(s.drop_last());
        assert(s[s.len() - 1].packable());
        s.last().lemma_aligned();
    }
}

/// Appends the encodings of the values of `val`, stopping at the first that
/// fails.
fn pack_elems<T: Pack>(val: &[T], out: &mut Vec<u8>) -> (r: Result<(), Error>)
    ensures
        r is Ok <==> all_packable(val@),
        r is Ok ==> final(out)@ == old(out)@ + encodings(val@),
{
    let mut i: usize = 0;
    assert(val@.take(0) =~= Seq::<T>::empty());
    assert(out@ =~= old(out)@ + encodings(val@.take(0)));
    while i < val.len()
        invariant
            i <= val@.len(),
            out@ == old(out)@ + encodings(val@.take(i as int)),
            all_packable(val@.take(i as int)),
        decreases val@.len() - i,
    {
        match val[i].pack(out) {
            Ok(_) => {},
            Err(e) => {
                return Err(e);
            },
        }
        proof {
            lemma_encodings_step(val@, i as int);
            assert(out@ =~= old(out)@ + encodings(val@.take(i + 1)));
            assert forall|j: int| 0 <= j < i + 1 implies #[trigger] val@.take(i + 1)[j].packable() by {
                if j < i {
                    assert(val@.take(i as int)[j] == val@.take(i + 1)[j]);
                }
            }
        }
        i = i + 1;
    }
    assert(val@.take(i as int) =~= val@);
    Ok(())
}

/// Reads `count` values one after another from the front of `input`.
fn unpack_elems<T: Unpack>(input: &[u8], count: usize) -> (r: Result<(Vec<T>, usize), Error>)
    ensures
        r is Ok <==> elems_decodable::<T>(input@, count as nat),
        r is Ok ==> elems_decode::<T>(input@, r->Ok_0.0@) && r->Ok_0.1 == elems_pos::<T>(input@, count as nat),
        r is Err ==> elems_rejects::<T>(input@, count as nat, r->Err_0),
        r is Ok ==> r->Ok_0.0@.len() == count && all_packable(r->Ok_0.0@) && r->Ok_0.1
            == encodings(r->Ok_0.0@).len() && r->Ok_0.1 <= input@.len(),
        forall|s: Seq<T>|
            s.len() == count && all_packable(s) && #[trigger] encodings(s).is_prefix_of(input@)
                ==> r is Ok && encodings(r->Ok_0.0@) == encodings(s),
{
    let mut elems: Vec<T> = Vec::new();
    let mut pos: usize = 0;
    let mut i: usize = 0;
    while i < count
        invariant
            elems@.len() == i,
            i <= count,
            all_packable(elems@),
            pos == encodings(elems@).len(),
            pos <= input@.len(),
            forall|s: Seq<T>|
                s.len() == count && all_packable(s) && #[trigger] encodings(s).is_prefix_of(input@)
                    ==> encodings(elems@) == encodings(s.take(i as int)),
            pos == elems_pos::<T>(input@, i as nat),
            elems_decodable::<T>(input@, i as nat),
            elems_decode::<T>(input@, elems@),
        decreases count - i,
    {
        let rest = slice_subrange(input, pos, input.len());
        assert(rest@ =~= input@.skip(pos as int));
        proof {
            assert forall|s: Seq<T>|
                s.len() == count && all_packable(s) && #[trigger] encodings(s).is_prefix_of(input@)
                    implies s[i as int].packable() && s[i as int].encoding().is_prefix_of(rest@) by {
                lemma_encodings_step(s, i as int);
                lemma_encodings_take_prefix(s, i + 1);
                let e = s[i as int].encoding();
                let a = encodings(s.take(i + 1));
                assert(a =~= input@.subrange(0, a.len() as int)) by {
                    assert(a =~= encodings(s).subrange(0, a.len() as int));
                    assert(encodings(s) =~= input@.subrange(0, encodings(s).len() as int));
                }
                assert(e =~= a.subrange(pos as int, a.len() as int));
                assert(e =~= input@.subrange(pos as int, pos + e.len()));
                assert(e =~= rest@.subrange(0, e.len() as int));
            }
        }
        match T::unpack(rest) {
            Ok((e, n)) => {
                let ghost old_elems = elems@;
                elems.push(e);
                proof {
                    assert(elems@.drop_last() =~= old_elems);
                    assert forall|s: Seq<T>|
                        s.len() == count && all_packable(s) && #[trigger] encodings(s).is_prefix_of(
                            input@,
                        ) implies encodings(elems@) == encodings(s.take(i + 1)) by {
                        lemma_encodings_step(s, i as int);
                    }
                    assert forall|j: int| 0 <= j < elems@.len() implies #[trigger] elems@[j].packable() by {
                        if j < i {
                            assert(elems@[j] == old_elems[j]);
                        }
                    }
                    assert(elems_pos::<T>(input@, (i + 1) as nat) == pos + n);
                    assert forall|j: nat| j < i + 1 implies T::decodable(
                        input@.skip(#[trigger] elems_pos::<T>(input@, j) as int),
                    ) by {}
                    assert forall|j: int| 0 <= j < elems@.len() implies T::decodes_to(
                        input@.skip(elems_pos::<T>(input@, j as nat) as int),
                        #[trigger] elems@[j],
                    ) by {
                        if j < i {
                            assert(elems@[j] == old_elems[j]);
                        }
                    }
                }
                pos = pos + n;
                i = i + 1;
            },
            Err(err) => {
                proof {
                    assert(elems_pos::<T>(input@, i as nat) == pos);
                    assert(elems_rejects::<T>(input@, count as nat, err));
                    assert(!elems_decodable::<T>(input@, count as nat));
                }
                return Err(err);
            },
        }
    }
    proof {
        assert forall|s: Seq<T>|
            s.len() == count && all_packable(s) && #[trigger] encodings(s).is_prefix_of(input@)
                implies encodings(elems@) == encodings(s) by {
            assert(s.take(i as int) =~= s);
        }
    }
    Ok((elems, pos))
}

proof fn lemma_pad_len_shift(n: int)
    requires
        n >= 0,
    ensures
        pad_len(4 + n) == pad_len(n),
        0 <= pad_len(n) <= 3,
        (n + pad_len(n)) % 4 == 0,
{
}

/// Appends the count of `val`, the encodings of its values and the padding,
/// failing with `InvalidLen` before writing anything if the count does not
/// fit in 32 bits.
fn pack_counted<T: Pack>(val: &[T], out: &mut Vec<u8>) -> (r: Result<usize, Error>)
    ensures
        r is Ok <==> val@.len() <= u32::MAX && all_packable(val@),
        r is Ok ==> final(out)@ == old(out)@ + counted_encoding(val@) && r->Ok_0
            == counted_encoding(val@).len(),
        val@.len() > u32::MAX ==> r == Err::<usize, Error>(Error::InvalidLen) && final(out)@
            == old(out)@,
{
    if val.len() > u32::MAX as usize {
        return Err(Error::InvalidLen);
    }
    let start = out.len();
    put_u32(out, val.len() as u32);
    match pack_elems(val, out) {
        Ok(()) => {},
        Err(e) => {
            return Err(e);
        },
    }
    proof {
        lemma_pad_len_shift(encodings(val@).len() as int);
    }
    let pad = padding(out.len() - start);
    put_bytes(out, pad);
    assert(out@ =~= old(out)@ + counted_encoding(val@));
    Ok(out.len() - start)
}

impl<T: Pack> Pack for Vec<T> {
    open spec fn oversized(&self) -> bool {
        self@.len() > u32::MAX
    }

    open spec fn packable(&self) -> bool {
        self@.len() <= u32::MAX && all_packable(self@)
    }

    open spec fn encoding(&self) -> Seq<u8> {
        counted_encoding(self@)
    }

    proof fn lemma_aligned(&self) {
        lemma_pad_len_shift(encodings(self@).len() as int);
    }

    fn pack(&self, out: &mut Vec<u8>) -> (r: Result<usize, Error>) {
        pack_counted(self.as_slice(), out)
    }
}

impl<T: Unpack> Unpack for Vec<T> {
    open spec fn decodable(input: Seq<u8>) -> bool {
        flex_decodable::<T>(input, None)
    }

    open spec fn decoded_len(input: Seq<u8>) -> nat {
        flex_decoded_len::<T>(input)
    }

    open spec fn decodes_to(input: Seq<u8>, v: Self) -> bool {
        flex_decodes::<T>(input, v@)
    }

    open spec fn rejects(input: Seq<u8>, e: Error) -> bool {
        flex_rejects::<T>(input, None, e)
    }

    fn unpack(input: &[u8]) -> (r: Result<(Self, usize), Error>) {
        let r = unpack_flex(input, None);
        proof {
            assert forall|v: Self| v.packable() && #[trigger] v.encoding().is_prefix_of(input@) implies r is Ok
                && r->Ok_0.0.encoding() == v.encoding() && r->Ok_0.1 == v.encoding().len() by {
                assert(counted_encoding(v@).is_prefix_of(input@));
            }
        }
        r
    }
}

/// Whether a count is within an optional limit.
pub open spec fn within(len: int, maxsz: Option<usize>) -> bool {
    match maxsz {
        Some(m) => len <= m,
        None => true,
    }
}

/// Packs a counted array of values whose count may be limited: with a limit
/// `maxsz` that `val` exceeds it fails with `InvalidLen` and writes nothing.
pub fn pack_flex<T: Pack>(val: &[T], maxsz: Option<usize>, out: &mut Vec<u8>) -> (r: Result<usize, Error>)
    ensures
        !within(val@.len() as int, maxsz) || val@.len() > u32::MAX ==> r == Err::<usize, Error>(
            Error::InvalidLen,
        ) && final(out)@ == old(out)@,
        r is Ok <==> within(val@.len() as int, maxsz) && val@.len() <= u32::MAX && all_packable(val@),
        r is Ok ==> final(out)@ == old(out)@ + counted_encoding(val@) && r->Ok_0
            == counted_encoding(val@).len(),
{
    match maxsz {
        Some(m) => {
            if val.len() > m {
                return Err(Error::InvalidLen);
            }
        },
        None => {},
    }
    pack_counted(val, out)
}

/// Unpacks a counted array of values whose count may be limited. A count
/// over the limit fails with `InvalidLen` before any value is read.
pub fn unpack_flex<T: Unpack>(input: &[u8], maxsz: Option<usize>) -> (r: Result<(Vec<T>, usize), Error>)
    ensures
        r is Ok <==> flex_decodable::<T>(input@, maxsz),
        r is Ok ==> flex_decodes::<T>(input@, r->Ok_0.0@) && r->Ok_0.1 == flex_decoded_len::<T>(input@),
        r is Err ==> flex_rejects::<T>(input@, maxsz, r->Err_0),
        input@.len() < 4 ==> r is Err && r->Err_0 is IOError,
        input@.len() >= 4 && !within(be32_value(input@) as int, maxsz) ==> r == Err::<
            (Vec<T>, usize),
            Error,
        >(Error::InvalidLen),
        r is Ok ==> r->Ok_0.0.packable() && within(r->Ok_0.0@.len() as int, maxsz) && r->Ok_0.1
            == counted_encoding(r->Ok_0.0@).len() && r->Ok_0.1 <= input@.len(),
        forall|s: Seq<T>|
            s.len() <= u32::MAX && all_packable(s) && within(s.len() as int, maxsz)
                && #[trigger] counted_encoding(s).is_prefix_of(input@) ==> r is Ok && encodings(
                r->Ok_0.0@,
            ) == encodings(s) && r->Ok_0.0@.len() == s.len() && r->Ok_0.1 == counted_encoding(
                s,
            ).len(),
{
    let count = match get_u32(input) {
        Some(c) => c,
        None => {
            return Err(Error::eof());
        },
    };
    proof {
        assert forall|s: Seq<T>|
            s.len() <= u32::MAX && #[trigger] counted_encoding(s).is_prefix_of(input@) implies count
                == s.len() by {
            assert(be32(s.len() as u32) =~= input@.take(4));
            crate::wire::lemma_be32_round_trip(s.len() as u32);
        }
    }
    match maxsz {
        Some(m) => {
            if count as usize > m {
                return Err(Error::InvalidLen);
            }
        },
        None => {},
    }
    let rest = slice_subrange(input, 4, input.len());
    assert(rest@ =~= input@.skip(4));
    proof {
        assert forall|s: Seq<T>|
            s.len() <= u32::MAX && #[trigger] counted_encoding(s).is_prefix_of(input@) implies encodings(
                s,
            ).is_prefix_of(rest@) by {
            let e = encodings(s);
            assert(e =~= counted_encoding(s).subrange(4, 4 + e.len() as int));
            assert(e =~= rest@.subrange(0, e.len() as int));
        }
    }
    let (elems, n) = match unpack_elems::<T>(rest, count as usize) {
        Ok(x) => x,
        Err(e) => {
            return Err(e);
        },
    };
    proof {
        lemma_pad_len_shift(n as int);
    }
    let p = padding(4 + n).len();
    if input.len() - 4 - n < p {
        return Err(Error::eof());
    }
    Ok((elems, 4 + n + p))
}

/// Packs a fixed-size array of `sz` values, with no count: the first `sz`
/// values of `val`, then as many default values as `val` falls short.
pub fn pack_array<T: Pack + Default>(val: &[T], sz: usize, out: &mut Vec<u8>) -> (r: Result<usize, Error>)
    ensures
        !all_packable(val@.take(min(sz as int, val@.len() as int))) ==> r is Err,
        sz <= val@.len() ==> (r is Ok <==> all_packable(val@.take(sz as int))),
        all_packable(val@.take(min(sz as int, val@.len() as int))) && (forall|d: T|
            call_ensures(T::default, (), d) ==> #[trigger] d.packable()) ==> r is Ok,
        r is Ok ==> r->Ok_0 % 4 == 0 && r->Ok_0 == final(out)@.len() - old(out)@.len()
            && exists|ds: Seq<T>|
            ds.len() == sz - min(sz as int, val@.len() as int) && all_packable(ds) && (forall|j: int|
                0 <= j < ds.len() ==> call_ensures(T::default, (), #[trigger] ds[j])) && final(out)@
                == old(out)@ + encodings(val@.take(min(sz as int, val@.len() as int))) + encodings(ds),
{
    let start = out.len();
    let k = if sz < val.len() {
        sz
    } else {
        val.len()
    };
    let head = slice_subrange(val, 0, k);
    match pack_elems(head, out) {
        Ok(()) => {},
        Err(e) => {
            return Err(e);
        },
    }
    proof {
        lemma_encodings_aligned(head@);
    }
    let ghost mid = out@;
    let ghost mut ds: Seq<T> = Seq::empty();
    let mut i: usize = k;
    while i < sz
        invariant
            k <= i <= sz,
            sz <= val@.len() ==> k == sz,
            ds.len() == i - k,
            all_packable(ds),
            forall|j: int| 0 <= j < ds.len() ==> call_ensures(T::default, (), #[trigger] ds[j]),
            out@ == mid + encodings(ds),
            mid == old(out)@ + encodings(head@),
            encodings(head@).len() % 4 == 0,
            start == old(out)@.len(),
            all_packable(head@),
            head@ == val@.take(k as int),
            k == min(sz as int, val@.len() as int),
        decreases sz - i,
    {
        let d = T::default();
        match d.pack(out) {
            Ok(_) => {},
            Err(e) => {
                assert(!(forall|d: T| call_ensures(T::default, (), d) ==> #[trigger] d.packable()));
                return Err(e);
            },
        }
        proof {
            let ghost old_ds = ds;
            ds = ds.push(d);
            assert(ds.drop_last() =~= old_ds);
            assert forall|j: int| 0 <= j < ds.len() implies #[trigger] ds[j].packable() by {
                if j < old_ds.len() {
                    assert(ds[j] == old_ds[j]);
                }
            }
            assert forall|j: int| 0 <= j < ds.len() implies call_ensures(T::default, (), #[trigger] ds[j]) by {
                if j < old_ds.len() {
                    assert(ds[j] == old_ds[j]);
                }
            }
        }
        i = i + 1;
    }
    proof {
        lemma_encodings_aligned(ds);
    }
    assert(out@ =~= old(out)@ + encodings(head@) + encodings(ds));
    Ok(out.len() - start)
}

/// Unpacks a fixed-size array of `sz` values, with no count.
pub fn unpack_array<T: Unpack>(input: &[u8], sz: usize) -> (r: Result<(Vec<T>, usize), Error>)
    ensures
        r is Ok <==> elems_decodable::<T>(input@, sz as nat),
        r is Ok ==> r->Ok_0.0@.len() == sz && elems_decode::<T>(input@, r->Ok_0.0@) && r->Ok_0.1
            == elems_pos::<T>(input@, sz as nat),
        r is Err ==> elems_rejects::<T>(input@, sz as nat, r->Err_0),
        r is Ok ==> r->Ok_0.0@.len() == sz && all_packable(r->Ok_0.0@) && r->Ok_0.1 == encodings(
            r->Ok_0.0@,
        ).len() && r->Ok_0.1 <= input@.len() && r->Ok_0.1 % 4 == 0,
        forall|s: Seq<T>|
            s.len() == sz && all_packable(s) && #[trigger] encodings(s).is_prefix_of(input@) ==> r is Ok
                && encodings(r->Ok_0.0@) == encodings(s),
{
    let r = unpack_elems(input, sz);
    proof {
        if r is Ok {
            lemma_encodings_aligned(r->Ok_0.0@);
        }
    }
    r
}

} // verus!
