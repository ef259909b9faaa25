use xdr_codec::{
    pack, pack_array, pack_flex, pack_opaque_array, pack_opaque_flex, pack_string, padding, unpack,
    unpack_array, unpack_flex, unpack_opaque_array, unpack_opaque_flex, unpack_string, Error, Opaque,
    Pack, Unpack,
};

fn packed<T: Pack>(v: &T) -> Vec<u8> {
    let mut out = Vec::new();
    let n = v.pack(&mut out).unwrap();
    assert_eq!(n, out.len());
    assert_eq!(n % 4, 0);
    out
}

#[test]
fn pack_u32_one() {
    assert_eq!(packed(&1u32), vec![0, 0, 0, 1]);
}

#[test]
fn pack_string_ab() {
    assert_eq!(packed(&String::from("ab")), vec![0, 0, 0, 2, 0x61, 0x62, 0, 0]);
}

#[test]
fn pack_option_none_and_some() {
    assert_eq!(packed(&None::<u32>), vec![0, 0, 0, 0]);
    assert_eq!(packed(&Some(5u32)), vec![0, 0, 0, 1, 0, 0, 0, 5]);
}

#[test]
fn pack_opaque_array_fills_with_zeros() {
    let mut out = Vec::new();
    let n = pack_opaque_array(&[0xAA], 4, &mut out).unwrap();
    assert_eq!(n, 4);
    assert_eq!(out, vec![0xAA, 0, 0, 0]);
}

#[test]
fn pack_opaque_array_truncates_and_pads() {
    let mut out = Vec::new();
    let n = pack_opaque_array(&[1, 2, 3, 4, 5, 6], 5, &mut out).unwrap();
    assert_eq!(n, 8);
    assert_eq!(out, vec![1, 2, 3, 4, 5, 0, 0, 0]);
}

#[test]
fn unpack_bool_values() {
    assert_eq!(bool::unpack(&[0, 0, 0, 0]).unwrap(), (false, 4));
    assert_eq!(bool::unpack(&[0, 0, 0, 1]).unwrap(), (true, 4));
    assert!(matches!(bool::unpack(&[0, 0, 0, 2]), Err(Error::InvalidEnum)));
}

#[test]
fn unpack_short_input_is_io_error() {
    assert!(matches!(u32::unpack(&[0, 0, 1]), Err(Error::IOError(_))));
    assert!(matches!(u64::unpack(&[0, 0, 0, 0, 0, 0, 1]), Err(Error::IOError(_))));
}

#[test]
fn integers_round_trip() {
    let b = packed(&-2i32);
    assert_eq!(b, vec![0xff, 0xff, 0xff, 0xfe]);
    assert_eq!(i32::unpack(&b).unwrap(), (-2, 4));

    let b = packed(&0x0102030405060708u64);
    assert_eq!(b, vec![1, 2, 3, 4, 5, 6, 7, 8]);
    assert_eq!(u64::unpack(&b).unwrap(), (0x0102030405060708, 8));

    let b = packed(&-1i64);
    assert_eq!(b, vec![0xff; 8]);
    assert_eq!(i64::unpack(&b).unwrap(), (-1, 8));

    let b = packed(&7usize);
    assert_eq!(b, vec![0, 0, 0, 7]);
    assert_eq!(usize::unpack(&b).unwrap(), (7, 4));
}

#[test]
fn unit_is_empty() {
    assert_eq!(packed(&()), Vec::<u8>::new());
    assert_eq!(<()>::unpack(&[]).unwrap(), ((), 0));
}

#[test]
fn vec_round_trip() {
    let v = vec![1u32, 2, 3];
    let b = packed(&v);
    assert_eq!(b, vec![0, 0, 0, 3, 0, 0, 0, 1, 0, 0, 0, 2, 0, 0, 0, 3]);
    let (w, n) = Vec::<u32>::unpack(&b).unwrap();
    assert_eq!(w, v);
    assert_eq!(n, 16);
}

#[test]
fn string_round_trip_with_trailing_bytes() {
    let mut b = packed(&String::from("héllo"));
    assert_eq!(b.len(), 12);
    b.extend_from_slice(&[9, 9, 9, 9]);
    let (s, n) = String::unpack(&b).unwrap();
    assert_eq!(s, "héllo");
    assert_eq!(n, 12);
}

#[test]
fn opaque_round_trip_and_equality() {
    let data = [1u8, 2, 3];
    let o = Opaque::borrowed(&data);
    let b = packed(&o);
    assert_eq!(b, vec![0, 0, 0, 3, 1, 2, 3, 0]);
    let (w, n) = Opaque::unpack(&b).unwrap();
    assert_eq!(n, 8);
    assert!(matches!(w, Opaque::Owned(_)));
    assert!(w == o);
    assert!(Opaque::owned(vec![1, 2]) != o);
    assert_eq!(w.as_slice(), &[1, 2, 3]);
}

#[test]
fn option_and_box_round_trip() {
    let b = packed(&Some(Box::new(9u32)));
    assert_eq!(b, vec![0, 0, 0, 1, 0, 0, 0, 9]);
    let (v, n) = Option::<Box<u32>>::unpack(&b).unwrap();
    assert_eq!(v, Some(Box::new(9)));
    assert_eq!(n, 8);
    assert_eq!(Option::<u32>::unpack(&[0, 0, 0, 0]).unwrap(), (None, 4));
    assert!(matches!(Option::<u32>::unpack(&[0, 0, 0, 3]), Err(Error::InvalidEnum)));
}

#[test]
fn top_level_pack_and_unpack() {
    let mut out = Vec::new();
    pack(&String::from("xyz"), &mut out).unwrap();
    assert_eq!(out, vec![0, 0, 0, 3, b'x', b'y', b'z', 0]);
    let s: String = unpack(&out).unwrap();
    assert_eq!(s, "xyz");
}

#[test]
fn padding_lengths() {
    assert_eq!(padding(0), &[] as &[u8]);
    assert_eq!(padding(1), &[0, 0, 0]);
    assert_eq!(padding(2), &[0, 0]);
    assert_eq!(padding(3), &[0]);
    assert_eq!(padding(4), &[] as &[u8]);
    for n in 0..20usize {
        let p = padding(n).len();
        assert!(p <= 3);
        assert_eq!((n + p) % 4, 0);
    }
}

#[test]
fn pack_array_truncates() {
    let mut out = Vec::new();
    let n = pack_array(&[1u32, 2, 3], 2, &mut out).unwrap();
    assert_eq!(n, 8);
    assert_eq!(out, vec![0, 0, 0, 1, 0, 0, 0, 2]);
}

#[test]
fn pack_array_fills_with_defaults() {
    let mut out = Vec::new();
    let n = pack_array(&[7u32], 3, &mut out).unwrap();
    assert_eq!(n, 12);
    assert_eq!(out, vec![0, 0, 0, 7, 0, 0, 0, 0, 0, 0, 0, 0]);
}

#[test]
fn unpack_array_reads_fixed_count() {
    let b = [0, 0, 0, 1, 0, 0, 0, 2, 0xee];
    let (v, n) = unpack_array::<u32>(&b, 2).unwrap();
    assert_eq!(v, vec![1, 2]);
    assert_eq!(n, 8);
    assert!(matches!(unpack_array::<u32>(&b, 3), Err(Error::IOError(_))));
}

#[test]
fn unpack_opaque_array_reads_fixed_bytes() {
    let (v, n) = unpack_opaque_array(&[5, 6, 7, 0, 9], 3).unwrap();
    assert_eq!(v, vec![5, 6, 7]);
    assert_eq!(n, 4);
    assert!(matches!(unpack_opaque_array(&[5, 6, 7], 3), Err(Error::IOError(_))));
}

#[test]
fn flex_limits_on_pack() {
    let mut out = vec![0xaa];
    assert!(matches!(pack_flex(&[1u32, 2, 3], Some(2), &mut out), Err(Error::InvalidLen)));
    assert!(matches!(pack_opaque_flex(&[1, 2, 3], Some(2), &mut out), Err(Error::InvalidLen)));
    assert!(matches!(pack_string("abc", Some(2), &mut out), Err(Error::InvalidLen)));
    assert_eq!(out, vec![0xaa]);
    assert_eq!(pack_flex(&[1u32, 2], Some(2), &mut out).unwrap(), 12);
    assert_eq!(pack_opaque_flex(&[1, 2], None, &mut out).unwrap(), 8);
    assert_eq!(pack_string("ab", Some(2), &mut out).unwrap(), 8);
    assert_eq!(out.len(), 29);
}

#[test]
fn flex_limits_on_unpack() {
    // A count of 1000 with no payload: the limit is checked before reading.
    let b = [0, 0, 3, 0xe8];
    assert!(matches!(unpack_flex::<u32>(&b, Some(10)), Err(Error::InvalidLen)));
    assert!(matches!(unpack_opaque_flex(&b, Some(10)), Err(Error::InvalidLen)));
    assert!(matches!(unpack_string(&b, Some(10)), Err(Error::InvalidLen)));
    assert!(matches!(unpack_opaque_flex(&b, None), Err(Error::IOError(_))));
    let ok = [0, 0, 0, 2, b'h', b'i', 0, 0];
    assert_eq!(unpack_string(&ok, Some(2)).unwrap(), (String::from("hi"), 8));
    assert_eq!(unpack_opaque_flex(&ok, Some(2)).unwrap(), (vec![b'h', b'i'], 8));
    let v = [0, 0, 0, 1, 0, 0, 0, 4];
    assert_eq!(unpack_flex::<u32>(&v, Some(1)).unwrap(), (vec![4], 8));
}

#[test]
fn invalid_utf8_is_reported() {
    let b = [0, 0, 0, 2, 0xff, 0xfe, 0, 0];
    assert!(matches!(unpack_string(&b, None), Err(Error::InvalidUtf8(_))));
    assert!(matches!(String::unpack(&b), Err(Error::InvalidUtf8(_))));
}

#[test]
fn error_constructors() {
    assert!(matches!(Error::invalidcase(), Error::InvalidCase));
    assert!(matches!(Error::invalidenum(), Error::InvalidEnum));
    assert!(matches!(Error::invalidlen(), Error::InvalidLen));
    match Error::generic(String::from("boom")) {
        Error::Generic(m) => assert_eq!(m, "boom"),
        _ => panic!("expected a generic error"),
    }
    let e = std::io::Error::new(std::io::ErrorKind::Other, "x");
    assert!(matches!(Error::byteorder(e), Error::IOError(_)));
    let u = String::from_utf8(vec![0xff]).unwrap_err();
    assert!(matches!(Error::badutf8(u), Error::InvalidUtf8(_)));
    assert!(matches!(Error::eof(), Error::IOError(_)));
}

#[test]
fn error_descriptions() {
    assert_eq!(Error::InvalidCase.description(), "invalid switch case");
    assert_eq!(Error::InvalidEnum.description(), "invalid enum value");
    assert_eq!(Error::InvalidLen.description(), "invalid string/array length");
    assert_eq!(Error::from(String::from("oops")).description(), "oops");
    let io = std::io::Error::new(std::io::ErrorKind::Other, "disk gone");
    assert_eq!(Error::from(io).description(), "disk gone");
    let u = String::from_utf8(vec![0xff]).unwrap_err();
    assert!(matches!(Error::from(u), Error::InvalidUtf8(_)));
}

#[test]
fn opaque_from_slice_borrows() {
    let data = [4u8, 5];
    let o = Opaque::from(&data[..]);
    assert!(matches!(o, Opaque::Borrowed(_)));
    assert_eq!(packed(&o), vec![0, 0, 0, 2, 4, 5, 0, 0]);
}

#[test]
fn element_errors_pass_through() {
    let b = [0, 0, 0, 2, 0, 0, 0, 1, 0, 0, 0, 5];
    assert!(matches!(Vec::<bool>::unpack(&b), Err(Error::InvalidEnum)));
    assert!(matches!(unpack_flex::<bool>(&b, Some(4)), Err(Error::InvalidEnum)));
    assert!(matches!(unpack_array::<bool>(&b[4..], 2), Err(Error::InvalidEnum)));
    assert_eq!(unpack_array::<bool>(&b[4..], 1).unwrap(), (vec![true], 4));
}

#[test]
fn opaque_accepts_any_padding_bytes() {
    let b = [0, 0, 0, 1, 7, 9, 9, 9, 1];
    let (o, n) = Opaque::unpack(&b).unwrap();
    assert_eq!(o.as_slice(), &[7]);
    assert_eq!(n, 8);
    assert!(matches!(Opaque::unpack(&b[..7]), Err(Error::IOError(_))));
}

#[test]
fn nested_sequences_round_trip() {
    let v = vec![vec![1u32], vec![], vec![2, 3]];
    let b = packed(&v);
    assert_eq!(b.len(), 4 + 8 + 4 + 12);
    assert_eq!(Vec::<Vec<u32>>::unpack(&b).unwrap(), (v, 28));
    let w = vec![String::from("a"), String::from("bcde")];
    let b = packed(&w);
    assert_eq!(b, vec![0, 0, 0, 2, 0, 0, 0, 1, b'a', 0, 0, 0, 0, 0, 0, 4, b'b', b'c', b'd', b'e']);
    assert_eq!(Vec::<String>::unpack(&b).unwrap(), (w, 20));
}
