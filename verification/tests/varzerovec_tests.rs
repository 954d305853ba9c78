use asciitrie::varzerovec::{
    compute_serializable_len, get_serializable_bytes, write_serializable_bytes,
    VarZeroVecComponents, ZeroVecError,
};

const ELEMENTS: [&[u8]; 3] = [b"bar", b"baz", b"foobar"];

fn expected_bytes() -> Vec<u8> {
    let mut v = vec![3, 0, 0, 0, 4];
    v.extend_from_slice(&[0, 0, 0, 0, 3, 0, 0, 0, 6, 0, 0, 0]);
    v.extend_from_slice(b"barbazfoobar");
    v
}

#[test]
fn vzv_serialize_layout() {
    assert_eq!(compute_serializable_len(&ELEMENTS), Some(29));
    let bytes = get_serializable_bytes(&ELEMENTS).unwrap();
    assert_eq!(bytes, expected_bytes());
    let mut out = vec![0u8; 29];
    write_serializable_bytes(&ELEMENTS, &mut out);
    assert_eq!(out, expected_bytes());
}

#[test]
fn vzv_serialize_then_parse() {
    let bytes = get_serializable_bytes(&ELEMENTS).unwrap();
    let c = VarZeroVecComponents::<[u8]>::parse_byte_slice(&bytes).unwrap();
    assert_eq!(c.len(), 3);
    assert!(!c.is_empty());
    assert_eq!(c.to_vec(), ELEMENTS.to_vec());
    assert_eq!(c.get(1), Some(&b"baz"[..]));
    assert_eq!(c.get(3), None);
}

#[test]
fn vzv_empty() {
    let c = VarZeroVecComponents::<[u8]>::parse_byte_slice(&[]).unwrap();
    assert_eq!(c.len(), 0);
    assert!(c.is_empty());
    let n = VarZeroVecComponents::<[u8]>::new();
    assert!(n.is_empty());
    let none: [&[u8]; 0] = [];
    assert_eq!(get_serializable_bytes(&none), Some(vec![0, 0, 0, 0, 4]));
    let c = VarZeroVecComponents::<[u8]>::parse_byte_slice(&[0, 0, 0, 0, 4]).unwrap();
    assert!(c.is_empty());
}

#[test]
fn vzv_format_errors() {
    let e = Err(ZeroVecError::VarZeroVecFormatError);
    assert_eq!(VarZeroVecComponents::<[u8]>::parse_byte_slice(&[1, 0, 0]).map(|c| c.len()), e);
    assert_eq!(VarZeroVecComponents::<[u8]>::parse_byte_slice(&[1, 0, 0, 0]).map(|c| c.len()), e);
    assert_eq!(VarZeroVecComponents::<[u8]>::parse_byte_slice(&[1, 0, 0, 0, 2, 0, 0, 0, 0]).map(|c| c.len()), e);
    assert_eq!(VarZeroVecComponents::<[u8]>::parse_byte_slice(&[2, 0, 0, 0, 4, 0, 0, 0, 0]).map(|c| c.len()), e);
    // The second element starts past the end of the data.
    assert_eq!(
        VarZeroVecComponents::<[u8]>::parse_byte_slice(&[2, 0, 0, 0, 4, 0, 0, 0, 0, 9, 0, 0, 0, b'a']).map(|c| c.len()),
        e
    );
    // The elements' starts go backwards.
    assert_eq!(
        VarZeroVecComponents::<[u8]>::parse_byte_slice(&[2, 0, 0, 0, 4, 1, 0, 0, 0, 0, 0, 0, 0, b'a']).map(|c| c.len()),
        e
    );
}

#[test]
fn vzv_binary_search() {
    let bytes = get_serializable_bytes(&ELEMENTS).unwrap();
    let c = VarZeroVecComponents::<[u8]>::parse_byte_slice(&bytes).unwrap();
    assert_eq!(c.binary_search(b"bar"), Ok(0));
    assert_eq!(c.binary_search(b"baz"), Ok(1));
    assert_eq!(c.binary_search(b"foobar"), Ok(2));
    assert_eq!(c.binary_search(b"a"), Err(0));
    assert_eq!(c.binary_search(b"bb"), Err(2));
    assert_eq!(c.binary_search(b"zzz"), Err(3));
    assert_eq!(c.binary_search_in_range(b"foobar", 1..3), Some(Ok(1)));
    assert_eq!(c.binary_search_in_range(b"bar", 1..3), Some(Err(0)));
    assert_eq!(c.binary_search_in_range(b"bar", 2..4), None);
    assert_eq!(c.binary_search_in_range(b"bar", 2..1), None);
}

#[test]
fn vzv_from_bytes_unchecked() {
    let bytes = get_serializable_bytes(&ELEMENTS).unwrap();
    let c = VarZeroVecComponents::<[u8]>::from_bytes_unchecked(&bytes);
    assert_eq!(c.len(), 3);
    assert_eq!(c.to_vec(), ELEMENTS.to_vec());
    assert_eq!(c.get(2), Some(&b"foobar"[..]));
    let e = VarZeroVecComponents::<[u8]>::from_bytes_unchecked(&[]);
    assert!(e.is_empty());
}

#[test]
fn vzv_binary_search_by() {
    let bytes = get_serializable_bytes(&ELEMENTS).unwrap();
    let c = VarZeroVecComponents::<[u8]>::parse_byte_slice(&bytes).unwrap();
    let target: &[u8] = b"baz";
    assert_eq!(c.binary_search_by(|probe| probe.cmp(target)), Ok(1));
    let missing: &[u8] = b"bb";
    assert_eq!(c.binary_search_by(|probe| probe.cmp(missing)), Err(2));
    // Ordering by length: elements of length 3 come before "foobar".
    assert_eq!(c.binary_search_by(|probe| probe.len().cmp(&6)), Ok(2));
    assert_eq!(c.binary_search_by(|probe| probe.len().cmp(&9)), Err(3));
    let first: &[u8] = b"bar";
    assert_eq!(c.binary_search_in_range_by(|probe| probe.cmp(first), 0..2), Some(Ok(0)));
    assert_eq!(c.binary_search_in_range_by(|probe| probe.cmp(first), 1..3), Some(Err(0)));
    assert_eq!(c.binary_search_in_range_by(|probe| probe.cmp(first), 1..4), None);
}

#[test]
fn vzv_binary_search_with_repeats() {
    let elements: [&[u8]; 5] = [b"a", b"b", b"b", b"b", b"d"];
    let bytes = get_serializable_bytes(&elements).unwrap();
    let c = VarZeroVecComponents::<[u8]>::parse_byte_slice(&bytes).unwrap();
    let found = c.binary_search(b"b").unwrap();
    assert!((1..4).contains(&found));
    assert_eq!(c.binary_search(b"a"), Ok(0));
    assert_eq!(c.binary_search(b"c"), Err(4));
    assert_eq!(c.binary_search(b"e"), Err(5));
    assert_eq!(c.binary_search(b""), Err(0));
}

#[test]
fn vzv_iter_gives_the_elements() {
    let bytes = get_serializable_bytes(&ELEMENTS).unwrap();
    let c = VarZeroVecComponents::<[u8]>::parse_byte_slice(&bytes).unwrap();
    assert_eq!(c.iter(), ELEMENTS.to_vec());
    assert_eq!(c.to_vec(), ELEMENTS.to_vec());
}
