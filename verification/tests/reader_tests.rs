use asciitrie::reader::{get, AsciiTrieIterator};
use asciitrie::trie::AsciiTrie;
use asciitrie::zerotrie::{
    ZeroTrieExtendedCapacity, ZeroTriePerfectHash, ZeroTrieSimpleAscii,
};

// "" -> 0, "a" -> 1, "b" -> 2: a value node, then a branch over 'a' and 'b'.
const SMALL: &[u8] = &[0b10000000, 0b11000010, b'a', b'b', 0, 1, 0b10000001, 0b10000010];

// The same pairs as the tries of `zerotrie` lay them out: the offset of the first target
// is left out.
const SMALL6: &[u8] = &[0b10000000, 0b11000010, b'a', b'b', 1, 0b10000001, 0b10000010];

#[test]
fn reader_get_small() {
    assert_eq!(get(SMALL, b""), Some(0));
    assert_eq!(get(SMALL, b"a"), Some(1));
    assert_eq!(get(SMALL, b"b"), Some(2));
    assert_eq!(get(SMALL, b"c"), None);
    assert_eq!(get(SMALL, b"ab"), None);
    assert_eq!(get(&[], b""), None);
    // A value node whose varint is cut short reads as nothing.
    assert_eq!(get(&[b'x', 0b10100000], b"x"), None);
}

#[test]
fn reader_iter_small() {
    let mut iter = AsciiTrieIterator::new(SMALL);
    assert_eq!(iter.next(), Some((b"".to_vec(), 0)));
    assert_eq!(iter.next(), Some((b"a".to_vec(), 1)));
    assert_eq!(iter.next(), Some((b"b".to_vec(), 2)));
    assert_eq!(iter.next(), None);
}

#[test]
fn reader3_inline_branches() {
    let trie: &[u8] = &[b'a', b'b', b'c', 0x85];
    assert_eq!(asciitrie::reader3::get(trie, b"abc"), Some(5));
    assert_eq!(asciitrie::reader3::get(trie, b"ab"), None);
    assert_eq!(asciitrie::reader3::get(trie, b"abcd"), None);
    assert_eq!(asciitrie::reader3::get(trie, b"x"), None);
}

#[test]
fn trie_wrappers() {
    let t = AsciiTrie::from_store(SMALL.to_vec());
    assert_eq!(t.get(b"a"), Some(1));
    assert_eq!(t.get_str("b"), Some(2));
    assert_eq!(t.byte_len(), 8);
    assert!(!t.is_empty());
    assert_eq!(t.as_bytes(), SMALL);
    assert_eq!(t.take_store(), SMALL.to_vec());

    let z = ZeroTrieSimpleAscii::from_bytes(SMALL6);
    assert_eq!(z.get_str("a"), Some(1));
    let owned = z.to_owned();
    assert_eq!(owned.as_bytes(), SMALL6);
    assert_eq!(owned.as_borrowed().get(b"b"), Some(2));
    let cow = owned.wrap_bytes_into_cow();
    assert_eq!(cow.get(b""), Some(0));
    let whole = ZeroTrieSimpleAscii::from_store(SMALL6.to_vec()).into_zerotrie();
    assert_eq!(whole.get(b"b"), Some(2));
    assert_eq!(whole.byte_len(), 7);

    let p = ZeroTriePerfectHash::from_bytes(SMALL6);
    assert_eq!(p.get(b"a"), Some(1));
    assert_eq!(p.into_zerotrie().get_str("b"), Some(2));
    let e = ZeroTrieExtendedCapacity::from_bytes(SMALL6);
    assert_eq!(e.get(b"c"), None);
    assert!(ZeroTrieExtendedCapacity::from_bytes(&[]).into_zerotrie().is_empty());
}

#[test]
fn zerotrie_iter_small() {
    let z = ZeroTrieSimpleAscii::from_bytes(SMALL6);
    assert_eq!(
        z.iter(),
        vec![(b"".to_vec(), 0), (b"a".to_vec(), 1), (b"b".to_vec(), 2)]
    );
    assert_eq!(ZeroTriePerfectHash::from_bytes(SMALL6).iter().len(), 3);
    assert_eq!(ZeroTrieExtendedCapacity::from_bytes(SMALL6).iter().len(), 3);
    // A branch whose offset points past its targets gives no pair from that target.
    let bad: &[u8] = &[0b11000010, b'a', b'b', 9, 0b10000001, 0b10000010];
    assert_eq!(ZeroTrieSimpleAscii::from_bytes(bad).iter(), vec![]);
}
