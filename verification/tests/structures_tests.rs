use asciitrie::ascii::{AsciiByte, AsciiStr};
use asciitrie::bytestr::ByteStr;
use asciitrie::byte_phf::PerfectByteHashMap;
use asciitrie::error::Error;
use asciitrie::phf_cache::PerfectByteHashMapCacheOwned;
use asciitrie::store::{ConstAsciiTrieBuilderStore, ConstLengthsStack1b};
use asciitrie::tstore::{BranchMeta, MutableLengthsStack1b, TrieBuilderStore};
use std::collections::VecDeque;

fn meta(ascii: u8, n: usize) -> BranchMeta {
    BranchMeta { ascii, length: n, local_length: n, count: n }
}

#[test]
fn const_stack_push_peek_pop() {
    let stack = ConstLengthsStack1b::<3>::new();
    assert!(stack.is_empty());
    let stack = stack.push(meta(b'a', 1)).unwrap();
    let stack = stack.push(meta(b'b', 2)).unwrap();
    let stack = stack.push_or_panic(meta(b'c', 3));
    assert_eq!(stack.peek_or_panic().ascii, b'c');
    match stack.push(meta(b'd', 4)) {
        Err(e) => assert_eq!(e, Error::ConstBuilder("AsciiTrie Builder: Need more stack (max N)")),
        Ok(_) => panic!("a full stack took another record"),
    }
    let stack = ConstLengthsStack1b::<3>::new()
        .push_or_panic(meta(b'a', 1))
        .push_or_panic(meta(b'b', 2))
        .push_or_panic(meta(b'c', 3));
    let (rest, popped) = stack.pop_many_or_panic(2);
    assert_eq!(rest.peek_or_panic().ascii, b'a');
    let keys = popped.map_to_ascii_bytes();
    assert_eq!(keys.as_slice(), b"cb");
    let (rest, _) = rest.pop_many_or_panic(1);
    assert!(rest.is_empty());
}

#[test]
fn mutable_stack_push_peek_pop() {
    let mut stack = MutableLengthsStack1b::new();
    assert!(stack.is_empty());
    stack.push(meta(b'x', 5));
    stack.push(meta(b'y', 6));
    assert_eq!(stack.peek_or_panic().length, 6);
    let popped = stack.pop_many_or_panic(2);
    assert_eq!(popped.len(), 2);
    assert!(stack.is_empty());
    assert_eq!(BranchMeta::const_default().count, 0);
}

#[test]
fn const_store_grows_at_the_front() {
    let store = ConstAsciiTrieBuilderStore::<4>::atbs_new_empty();
    assert_eq!(store.atbs_len(), 0);
    let store = store.atbs_push_front(3);
    let store = store.atbs_push_front(2);
    let store = store.atbs_bitor_assign(1, 0x80);
    assert_eq!(store.atbs_as_bytes().as_slice(), &[2, 0x83]);
    let store = store.atbs_push_front(1).atbs_push_front(0);
    assert_eq!(store.take_or_panic(), [0, 1, 2, 0x83]);
}

#[test]
fn deque_store_operations() {
    let mut store = <VecDeque<u8> as TrieBuilderStore>::atbs_new_empty();
    store.atbs_extend_front(b"cd");
    store.atbs_push_front(b'b');
    store.atbs_extend_front(b"a");
    assert_eq!(store.atbs_to_bytes(), b"abcd".to_vec());
    store.atbs_bitor_assign(0, 0x20);
    assert_eq!(store.atbs_split_first(), Some(b'a' | 0x20));
    store.atbs_prepend_n_zeros(2);
    assert_eq!(store.atbs_to_bytes(), vec![0, 0, b'b', b'c', b'd']);
    assert_eq!(store.atbs_len(), 5);
}

#[test]
fn ascii_types() {
    assert!(AsciiByte::try_from_u8(0x80).is_err());
    assert_eq!(AsciiByte::try_from_u8(b'q').unwrap().get(), b'q');
    assert_eq!(AsciiByte::nul().get(), 0);
    assert!(AsciiStr::try_from_str("ab\u{e9}").is_err());
    let s = AsciiStr::try_from_str("hello").unwrap();
    assert_eq!(s.len(), 5);
    assert!(!s.is_empty());
    assert!(AsciiStr::empty().is_empty());
    assert_eq!(s.substring(1..3).unwrap().as_bytes(), b"el");
    assert!(s.substring(3..9).is_none());
    assert_eq!(s.ascii_at(4).unwrap().get(), b'o');
    assert!(s.ascii_at(5).is_none());
    assert!(AsciiStr::try_from_str("ab").unwrap().is_less_then(&AsciiStr::try_from_str("abc").unwrap()));
    assert!(!AsciiStr::try_from_str("b").unwrap().is_less_then(&AsciiStr::try_from_str("abc").unwrap()));
    assert_eq!(s.to_boxed(), b"hello".to_vec());
    let (v, n) = AsciiStr::try_from_str_with_value(("k", 9)).unwrap();
    assert_eq!((v.as_bytes(), n), (&b"k"[..], 9));
}

#[test]
fn byte_strings() {
    let a = ByteStr::from_bytes(b"abcx");
    let b = ByteStr::from_bytes(b"abcy");
    assert_eq!(a.len(), 4);
    assert!(a.prefix_eq(&b, 3));
    assert!(!a.prefix_eq(&b, 4));
    assert_eq!(a.byte_at(3), Some(b'x'));
    assert_eq!(a.byte_at(4), None);
}

#[test]
fn phf_cache_keeps_maps() {
    let mut cache = PerfectByteHashMapCacheOwned::new_empty();
    let first = cache.try_get_or_insert(b"abd".to_vec()).unwrap().as_bytes().to_vec();
    let again = cache.try_get_or_insert(b"abd".to_vec()).unwrap().as_bytes().to_vec();
    assert_eq!(first, again);
    assert_eq!(first, vec![0, 0, 1, 3, b'a', b'b', b'd']);
    assert_eq!(cache.get(b"abd").unwrap().as_bytes(), &first[..]);
    assert!(cache.get(b"xyz").is_none());
}

#[test]
fn phf_lookup_and_check() {
    let map = PerfectByteHashMap::try_new(b"ac").unwrap();
    assert_eq!(map.len(), 2);
    assert!(map.get(b'a').is_some());
    assert!(map.get(b'c').is_some());
    assert_eq!(map.get(b'b'), None);
    assert!(map.check().is_ok());
    // A table that sends `a` to the slot of `c` fails `check`.
    let broken = PerfectByteHashMap::from_store(vec![1u8, 0, 1, b'c', b'a']);
    assert!(broken.check().is_err());
}

#[test]
fn ascii_str_as_str_gives_the_same_text() {
    let s = AsciiStr::from_str_or_panic("bazzoo");
    assert_eq!(s.as_str(), "bazzoo");
    assert_eq!(AsciiStr::empty().as_str(), "");
}
