use asciitrie::ascii::AsciiStr;
use asciitrie::builder3::AsciiTrieBuilder3;
use asciitrie::reader3;

fn pairs<'a>(items: &[(&'a str, usize)]) -> Vec<(AsciiStr<'a>, usize)> {
    items
        .iter()
        .map(|(k, v)| (AsciiStr::try_from_str(k).unwrap(), *v))
        .collect()
}

#[test]
fn builder3_empty_and_single() {
    assert_eq!(AsciiTrieBuilder3::from_tuple_slice(&[]).as_bytes(), Vec::<u8>::new());
    assert_eq!(AsciiTrieBuilder3::new().as_bytes(), Vec::<u8>::new());
    let bytes = AsciiTrieBuilder3::from_tuple_slice(&pairs(&[("x", 10)])).as_bytes();
    assert_eq!(bytes, vec![b'x', 0xA8, 0x0A]);
    assert_eq!(reader3::get(&bytes, b"x"), Some(10));
    assert_eq!(reader3::get(&bytes, b""), None);
}

#[test]
fn builder3_prefix_keys_use_an_intermediate_value() {
    let bytes = AsciiTrieBuilder3::from_tuple_slice(&pairs(&[("x", 0), ("xy", 1)])).as_bytes();
    assert_eq!(bytes, vec![b'x', 0x80, b'y', 0xA1]);
    assert_eq!(reader3::get(&bytes, b"x"), Some(0));
    assert_eq!(reader3::get(&bytes, b"xy"), Some(1));
    assert_eq!(reader3::get(&bytes, b"xz"), None);
}

#[test]
fn builder3_two_and_three_targets() {
    let bytes = AsciiTrieBuilder3::from_tuple_slice(&pairs(&[("a", 1), ("b", 2)])).as_bytes();
    assert_eq!(bytes, vec![0xE2, b'b', b'a', 0xA1, 0xA2]);
    assert_eq!(reader3::get(&bytes, b"a"), Some(1));
    assert_eq!(reader3::get(&bytes, b"b"), Some(2));

    let bytes =
        AsciiTrieBuilder3::from_tuple_slice(&pairs(&[("a", 1), ("b", 2), ("c", 3)])).as_bytes();
    assert_eq!(bytes, vec![0xC2, b'b', b'a', 0xA1, 0xE2, b'c', b'b', 0xA2, 0xA3]);
    assert_eq!(reader3::get(&bytes, b"a"), Some(1));
    assert_eq!(reader3::get(&bytes, b"b"), Some(2));
    assert_eq!(reader3::get(&bytes, b"c"), Some(3));
}

#[test]
fn builder3_reads_back_every_key() {
    let items = pairs(&[
        ("", 7),
        ("ab", 1),
        ("abc", 2),
        ("abd", 3),
        ("b", 4),
        ("bazzoo", 5),
        ("c", 6),
        ("d", 70),
        ("e", 500),
        ("foo", 100000),
    ]);
    let bytes = AsciiTrieBuilder3::from_tuple_slice(&items).as_bytes();
    for (k, v) in items.iter() {
        assert_eq!(reader3::get(&bytes, k.as_bytes()), Some(*v));
    }
    assert_eq!(reader3::get(&bytes, b"a"), None);
}

#[test]
fn builder3_final_branch_takes_the_byte_along() {
    // Past a final branch the reader does not compare the byte it takes along, so a key
    // that is not among the pairs can read as the last target's value.
    let bytes = AsciiTrieBuilder3::from_tuple_slice(&pairs(&[("a", 1), ("b", 2)])).as_bytes();
    assert_eq!(reader3::get(&bytes, b"c"), Some(2));
    assert_eq!(reader3::get(&bytes, b"0"), None);
}
