use asciitrie::path::{PathIterator, StdPathIterator};
use std::path::PathBuf;

#[test]
fn test_relative() {
    let path = PathBuf::from("foo/bar/baz.txt");
    let mut iter: StdPathIterator<PathBuf> = StdPathIterator::from(&path);

    assert!(!iter.is_absolute());
    assert_eq!(iter.next(), Some("foo"));
    assert_eq!(iter.next(), Some("bar"));
    assert_eq!(iter.next(), Some("baz.txt"));
    assert_eq!(iter.next(), None);
    assert_eq!(iter.next(), None);

    iter.reset();
    assert!(!iter.is_absolute());
    assert_eq!(iter.next(), Some("foo"));
    assert_eq!(iter.next(), Some("bar"));
    assert_eq!(iter.next(), Some("baz.txt"));
    assert_eq!(iter.next(), None);
    assert_eq!(iter.next(), None);
}

#[test]
fn test_absolute() {
    let path = PathBuf::from("/foo/bar/baz.txt");
    let mut iter: StdPathIterator<PathBuf> = StdPathIterator::from(&path);

    assert!(iter.is_absolute());
    assert_eq!(iter.next(), Some("foo"));
    assert_eq!(iter.next(), Some("bar"));
    assert_eq!(iter.next(), Some("baz.txt"));
    assert_eq!(iter.next(), None);
    assert_eq!(iter.next(), None);

    iter.reset();
    assert!(iter.is_absolute());
    assert_eq!(iter.next(), Some("foo"));
    assert_eq!(iter.next(), Some("bar"));
    assert_eq!(iter.next(), Some("baz.txt"));
    assert_eq!(iter.next(), None);
    assert_eq!(iter.next(), None);
}

#[test]
fn path_next_before_reset_starts_at_first_part() {
    let path = PathBuf::from("a");
    let mut iter: StdPathIterator<PathBuf> = StdPathIterator::from(&path);
    assert_eq!(iter.next(), Some("a"));
    assert_eq!(iter.next(), None);
    iter.reset();
    iter.reset();
    assert_eq!(iter.next(), Some("a"));
}
