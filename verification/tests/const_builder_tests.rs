use asciitrie::ascii::AsciiStr;
use asciitrie::const_builder::AsciiTrieBuilder;
use asciitrie::reader::{get, AsciiTrieIterator};
use asciitrie::zerotrie::ZeroTrieSimpleAscii;

fn pairs<'a>(items: &[(&'a str, usize)]) -> Vec<(AsciiStr<'a>, usize)> {
    items
        .iter()
        .map(|(k, v)| (AsciiStr::try_from_str(k).unwrap(), *v))
        .collect()
}

#[test]
fn const_builder_value_and_branch_bytes() {
    let items = pairs(&[("", 0), ("a", 1), ("b", 2)]);
    let mut builder = AsciiTrieBuilder::<8>::from_tuple_slice(&items);
    assert_eq!(
        builder.as_bytes(),
        &[0b10000000, 0b11000010, b'a', b'b', 0, 1, 0b10000001, 0b10000010]
    );
    let trie = builder.into_ascii_trie_or_panic();
    let bytes = trie.as_bytes();
    assert_eq!(get(bytes, b""), Some(0));
    assert_eq!(get(bytes, b"a"), Some(1));
    assert_eq!(get(bytes, b"b"), Some(2));
    assert_eq!(get(bytes, b"c"), None);
    assert_eq!(get(bytes, b"ab"), None);
}

#[test]
fn const_builder_empty() {
    let items: Vec<(AsciiStr, usize)> = Vec::new();
    let mut builder = AsciiTrieBuilder::<0>::from_tuple_slice(&items);
    assert_eq!(builder.as_bytes(), &[] as &[u8]);
    let trie = builder.into_ascii_trie_or_panic();
    assert!(trie.is_empty());
    assert_eq!(get(trie.as_bytes(), b""), None);
}

#[test]
fn const_builder_bar_bazzoo_foo() {
    let items = pairs(&[("bar", 2), ("bazzoo", 3), ("foo", 1)]);
    let mut builder = AsciiTrieBuilder::<19>::from_tuple_slice(&items);
    assert_eq!(builder.to_ascii_trie().byte_len(), 19);
    let trie = builder.into_ascii_trie_or_panic();
    let bytes = trie.as_bytes();
    assert_eq!(get(bytes, b"foo"), Some(1));
    assert_eq!(get(bytes, b"bar"), Some(2));
    assert_eq!(get(bytes, b"bazzoo"), Some(3));
    assert_eq!(get(bytes, b"ba"), None);
    assert_eq!(get(bytes, b"unknown"), None);
}

#[test]
fn const_builder_large_values_and_wide_branch() {
    // Forty keys of two letters with values past what one varint byte holds, under a
    // branch whose targets need more than 255 bytes.
    let mut owned: Vec<(String, usize)> = Vec::new();
    for a in b'a'..=b'e' {
        for b in b'a'..=b'h' {
            let key = String::from_utf8(vec![a, b, b'x', b'y', b'z']).unwrap();
            owned.push((key, (a as usize) * 100_000 + (b as usize) * 1000));
        }
    }
    let items: Vec<(AsciiStr, usize)> = owned
        .iter()
        .map(|(k, v)| (AsciiStr::try_from_str(k).unwrap(), *v))
        .collect();
    // Each leaf: 3 ASCII bytes and a 4-byte varint; each inner branch over 8 leaves:
    // head 1, 8 bytes, 8 offsets, 56 bytes of tries = 73; the root branch over 5 of
    // them: head 1, 5 bytes, 10 offset bytes (365 bytes of tries), 365 = 381.
    let mut builder = AsciiTrieBuilder::<381>::from_tuple_slice(&items);
    let bytes = builder.as_bytes().to_vec();
    assert_eq!(bytes.len(), 381);
    assert_eq!(bytes[0], 0b11000101);
    for (k, v) in owned.iter() {
        assert_eq!(get(&bytes, k.as_bytes()), Some(*v));
    }
    assert_eq!(get(&bytes, b"aa"), None);
    assert_eq!(get(&bytes, b"fa"), None);
    assert_eq!(get(&bytes, b"aixyz"), None);
}

#[test]
fn const_builder_from_str_value_array() {
    let trie: ZeroTrieSimpleAscii<[u8; 17]> =
        ZeroTrieSimpleAscii::from_str_value_array([("bar", 2), ("bazzoo", 3), ("foo", 1)]);
    assert_eq!(trie.get(b"foo"), Some(1));
    assert_eq!(trie.get(b"bar"), Some(2));
    assert_eq!(trie.get(b"bazzoo"), Some(3));
    assert_eq!(trie.get(b"unknown"), None);
}

#[test]
fn const_builder_from_asciistr_value_slice() {
    let items = pairs(&[("bar", 2), ("bazzoo", 3), ("foo", 1)]);
    let trie: ZeroTrieSimpleAscii<[u8; 17]> = ZeroTrieSimpleAscii::from_asciistr_value_slice(&items);
    assert_eq!(trie.as_bytes().len(), 17);
    assert_eq!(
        trie.as_bytes(),
        &[0b11000010, b'b', b'f', 10, b'a', 0b11000010, b'r', b'z', 1, 0x82, b'z', b'o', b'o', 0x83, b'o', b'o', 0x81]
    );
    assert_eq!(trie.get(b"foo"), Some(1));
    assert_eq!(trie.get(b"bar"), Some(2));
    assert_eq!(trie.get(b"unknown"), None);
    assert_eq!(trie.get(b"bazzoo"), Some(3));
    assert_eq!(trie.get(b"baz"), None);
}

fn walk(bytes: &[u8]) -> Vec<(Vec<u8>, usize)> {
    let mut out = Vec::new();
    let mut iter = AsciiTrieIterator::new(bytes);
    while let Some(pair) = iter.next() {
        out.push(pair);
    }
    assert_eq!(iter.next(), None);
    out
}

#[test]
fn const_builder_iter_gives_back_the_pairs() {
    let items = pairs(&[
        ("", 7),
        ("axb", 1),
        ("ayc", 2),
        ("azd", 3),
        ("bxe", 4),
        ("bxefg", 500),
        ("bxefh", 6),
        ("bxei", 7),
        ("bxeikl", 8),
    ]);
    let expected: Vec<(Vec<u8>, usize)> = items
        .iter()
        .map(|(k, v)| (k.as_bytes().to_vec(), *v))
        .collect();
    let mut single = AsciiTrieBuilder::<1>::from_tuple_slice(&items[..1]);
    assert_eq!(single.as_bytes(), &[0b10000111]);
    // The root value (1 byte), then a branch over 'a' (13 bytes) and 'b' (20 bytes):
    // head, 2 target bytes, 2 offsets and 33 bytes of tries.
    let mut whole = AsciiTrieBuilder::<39>::from_tuple_slice(&items);
    let bytes = whole.as_bytes().to_vec();
    assert_eq!(bytes.len(), 39);
    for (k, v) in expected.iter() {
        assert_eq!(get(&bytes, k), Some(*v));
    }
    assert_eq!(walk(&bytes), expected);
}

#[test]
fn iter_over_hand_written_trie() {
    let bytes: &[u8] = b"abc\x85";
    assert_eq!(walk(bytes), vec![(b"abc".to_vec(), 5)]);
    assert_eq!(walk(&[]), vec![]);
    let trie = ZeroTrieSimpleAscii::from_bytes(bytes);
    assert_eq!(trie.iter(), vec![(b"abc".to_vec(), 5)]);
    assert_eq!(ZeroTrieSimpleAscii::from_bytes(&[]).iter(), vec![]);
}

#[test]
fn from_asciistr_pairs_takes_any_order() {
    let items = pairs(&[("foo", 1), ("bar", 2), ("bazzoo", 3), ("internationalization", 18)]);
    let trie = ZeroTrieSimpleAscii::from_asciistr_pairs(items).unwrap();
    assert_eq!(trie.get(b"foo"), Some(1));
    assert_eq!(trie.get(b"bar"), Some(2));
    assert_eq!(trie.get(b"bazzoo"), Some(3));
    assert_eq!(trie.get(b"internationalization"), Some(18));
    assert_eq!(trie.get(b"unknown"), None);
    let sorted = pairs(&[("bar", 2), ("bazzoo", 3), ("foo", 1), ("internationalization", 18)]);
    let expected = ZeroTrieSimpleAscii::try_from_litemap(&sorted).unwrap();
    assert_eq!(trie.as_bytes(), expected.as_bytes());
}
