use asciitrie::ascii::AsciiStr;
use asciitrie::zerotrie::{ZeroTrieExtendedCapacity, ZeroTriePerfectHash, ZeroTrieSimpleAscii};

fn ascii_map<'a>(items: &[(&'a str, usize)]) -> Vec<(AsciiStr<'a>, usize)> {
    let mut v: Vec<(AsciiStr<'a>, usize)> = items
        .iter()
        .map(|(k, v)| (AsciiStr::try_from_str(k).unwrap(), *v))
        .collect();
    v.sort_by(|a, b| a.0.as_bytes().cmp(b.0.as_bytes()));
    v
}

fn byte_map<'a>(items: &[(&'a [u8], usize)]) -> Vec<(&'a [u8], usize)> {
    let mut v = items.to_vec();
    v.sort_by(|a, b| a.0.cmp(b.0));
    v
}

fn byte_keys<'a>(items: &[(AsciiStr<'a>, usize)]) -> Vec<(&'a [u8], usize)> {
    items.iter().map(|(k, v)| (k.as_bytes(), *v)).collect()
}

fn check_ascii_trie(items: &[(AsciiStr, usize)], trie: &ZeroTrieSimpleAscii<Vec<u8>>) {
    for (k, v) in items.iter() {
        assert_eq!(trie.get(k.as_bytes()), Some(*v));
    }
    let expected: Vec<(Vec<u8>, usize)> = items.iter().map(|(k, v)| (k.as_bytes().to_vec(), *v)).collect();
    assert_eq!(trie.iter(), expected);
}

fn check_ascii_trie6(items: &[(AsciiStr, usize)], trie: &ZeroTriePerfectHash<Vec<u8>>) {
    check_ascii_trie6_bytes(&byte_keys(items), trie);
}

fn check_ascii_trie6_bytes(items: &[(&[u8], usize)], trie: &ZeroTriePerfectHash<Vec<u8>>) {
    for (k, v) in items.iter() {
        assert_eq!(trie.get(k), Some(*v));
    }
    // The pairs may come out in another order: compare them as maps.
    let mut recovered = trie.iter();
    recovered.sort();
    let expected: Vec<(Vec<u8>, usize)> = items.iter().map(|(k, v)| (k.to_vec(), *v)).collect();
    assert_eq!(recovered, expected);
}

fn check_bytes_eq(len: usize, a: &[u8], b: &[u8]) {
    assert_eq!(len, a.len());
    assert_eq!(a, b);
}

fn utf8_byte(ch: char, i: usize) -> u8 {
    let mut buf = [0u8; 4];
    ch.encode_utf8(&mut buf);
    buf[i]
}

#[test]
fn builder_test_test_empty() {
    let trie = ZeroTrieSimpleAscii::try_from_litemap(&[]).unwrap();
    assert_eq!(trie.byte_len(), 0);
    assert!(trie.is_empty());
    assert_eq!(trie.get(b""), None);
    assert_eq!(trie.as_bytes(), &[]);
}

#[test]
fn builder_test_test_single_empty_value() {
    let litemap = ascii_map(&[
        ("", 10), //
    ]);
    let trie = ZeroTrieSimpleAscii::try_from_litemap(&litemap).unwrap();
    assert_eq!(trie.get(b""), Some(10));
    assert_eq!(trie.get(b"x"), None);
    let expected_bytes = &[0b10001010];
    assert_eq!(trie.as_bytes(), expected_bytes);

    let expected_bytes6 = &[0b10001010];
    let trie6 = ZeroTriePerfectHash::try_from_litemap(&byte_keys(&litemap)).unwrap();
    check_bytes_eq(1, trie6.as_bytes(), expected_bytes6);
    check_ascii_trie6(&litemap, &trie6);
}

#[test]
fn builder_test_test_single_byte_string() {
    let litemap = ascii_map(&[
        ("x", 10), //
    ]);
    let trie = ZeroTrieSimpleAscii::try_from_litemap(&litemap).unwrap();
    assert_eq!(trie.get(b""), None);
    assert_eq!(trie.get(b"xy"), None);
    check_ascii_trie(&litemap, &trie);
    let expected_bytes = &[b'x', 0b10001010];
    check_bytes_eq(2, trie.as_bytes(), expected_bytes);

    let expected_bytes6 = &[b'x', 0b10001010];
    let trie6 = ZeroTriePerfectHash::try_from_litemap(&byte_keys(&litemap)).unwrap();
    check_bytes_eq(2, trie6.as_bytes(), expected_bytes6);
    check_ascii_trie6(&litemap, &trie6);
}

#[test]
fn builder_test_test_single_string() {
    let litemap = ascii_map(&[
        ("xyz", 10), //
    ]);
    let trie = ZeroTrieSimpleAscii::try_from_litemap(&litemap).unwrap();
    assert_eq!(trie.get(b""), None);
    assert_eq!(trie.get(b"x"), None);
    assert_eq!(trie.get(b"xy"), None);
    assert_eq!(trie.get(b"xyzz"), None);
    check_ascii_trie(&litemap, &trie);
    let expected_bytes = &[b'x', b'y', b'z', 0b10001010];
    check_bytes_eq(4, trie.as_bytes(), expected_bytes);

    let expected_bytes6 = &[b'x', b'y', b'z', 0b10001010];
    let trie6 = ZeroTriePerfectHash::try_from_litemap(&byte_keys(&litemap)).unwrap();
    check_bytes_eq(4, trie6.as_bytes(), expected_bytes6);
    check_ascii_trie6(&litemap, &trie6);
}

#[test]
fn builder_test_test_prefix_strings() {
    let litemap = ascii_map(&[
        ("x", 0),
        ("xy", 1),
    ]);
    let trie = ZeroTrieSimpleAscii::try_from_litemap(&litemap).unwrap();
    assert_eq!(trie.get(b""), None);
    assert_eq!(trie.get(b"xyz"), None);
    check_ascii_trie(&litemap, &trie);
    let expected_bytes = &[b'x', 0b10000000, b'y', 0b10000001];
    check_bytes_eq(4, trie.as_bytes(), expected_bytes);

    let expected_bytes6 = &[b'x', 0b10000000, b'y', 0b10000001];
    let trie6 = ZeroTriePerfectHash::try_from_litemap(&byte_keys(&litemap)).unwrap();
    check_bytes_eq(4, trie6.as_bytes(), expected_bytes6);
    check_ascii_trie6(&litemap, &trie6);
}

#[test]
fn builder_test_test_single_byte_branch() {
    let litemap = ascii_map(&[
        ("x", 0),
        ("y", 1),
    ]);
    let trie = ZeroTrieSimpleAscii::try_from_litemap(&litemap).unwrap();
    assert_eq!(trie.get(b""), None);
    assert_eq!(trie.get(b"xy"), None);
    check_ascii_trie(&litemap, &trie);
    let expected_bytes = &[0b11000010, b'x', b'y', 1, 0b10000000, 0b10000001];
    check_bytes_eq(6, trie.as_bytes(), expected_bytes);

    let expected_bytes6 = &[0b11000010, b'x', b'y', 1, 0b10000000, 0b10000001];
    let trie6 = ZeroTriePerfectHash::try_from_litemap(&byte_keys(&litemap)).unwrap();
    check_bytes_eq(6, trie6.as_bytes(), expected_bytes6);
    check_ascii_trie6(&litemap, &trie6);
}

#[test]
fn builder_test_test_multi_byte_branch() {
    let litemap = ascii_map(&[
        ("axb", 0),
        ("ayc", 1),
    ]);
    let trie = ZeroTrieSimpleAscii::try_from_litemap(&litemap).unwrap();
    assert_eq!(trie.get(b""), None);
    assert_eq!(trie.get(b"a"), None);
    assert_eq!(trie.get(b"ax"), None);
    assert_eq!(trie.get(b"ay"), None);
    check_ascii_trie(&litemap, &trie);
    let expected_bytes = &[
        b'a', 0b11000010, b'x', b'y', 2, b'b', 0b10000000, b'c', 0b10000001,
    ];
    check_bytes_eq(9, trie.as_bytes(), expected_bytes);

    let expected_bytes6 = &[
        b'a', 0b11000010, b'x', b'y', 2, b'b', 0b10000000, b'c', 0b10000001,
    ];
    let trie6 = ZeroTriePerfectHash::try_from_litemap(&byte_keys(&litemap)).unwrap();
    check_bytes_eq(9, trie6.as_bytes(), expected_bytes6);
    check_ascii_trie6(&litemap, &trie6);
}

#[test]
fn test_linear_varint_values() {
    let litemap = ascii_map(&[
        ("", 100),
        ("x", 500),
        ("xyz", 5000),
    ]);
    let trie = ZeroTrieSimpleAscii::try_from_litemap(&litemap).unwrap();
    assert_eq!(trie.get(b"xy"), None);
    assert_eq!(trie.get(b"xz"), None);
    assert_eq!(trie.get(b"xyzz"), None);
    check_ascii_trie(&litemap, &trie);
    let expected_bytes = &[0x90, 0x54, b'x', 0x93, 0x64, b'y', b'z', 0x90, 0x96, 0x78];
    check_bytes_eq(10, trie.as_bytes(), expected_bytes);

    let expected_bytes6 = &[0x90, 0x54, b'x', 0x93, 0x64, b'y', b'z', 0x90, 0x96, 0x78];
    let trie6 = ZeroTriePerfectHash::try_from_litemap(&byte_keys(&litemap)).unwrap();
    check_bytes_eq(10, trie6.as_bytes(), expected_bytes6);
    check_ascii_trie6(&litemap, &trie6);
}

#[test]
fn test_varint_branch() {
    let chars = "ABCDEFGHIJKLMNOPQRSTUVWXYZabcdefghijklmnopqrstuvwxyz";
    let owned: Vec<(&str, usize)> = (0..chars.len()).map(|i| (&chars[i..i + 1], i)).collect();
    let litemap = ascii_map(&owned);
    let trie = ZeroTrieSimpleAscii::try_from_litemap(&litemap).unwrap();
    assert_eq!(trie.get(b""), None);
    assert_eq!(trie.get(b"ax"), None);
    assert_eq!(trie.get(b"ay"), None);
    check_ascii_trie(&litemap, &trie);
    let expected_bytes = &[
        0b11100000, // branch varint lead
        0x14,       // branch varint trail
        // search array:
        b'A', b'B', b'C', b'D', b'E', b'F', b'G', b'H', b'I', b'J',
        b'K', b'L', b'M', b'N', b'O', b'P', b'Q', b'R', b'S', b'T',
        b'U', b'V', b'W', b'X', b'Y', b'Z',
        b'a', b'b', b'c', b'd', b'e', b'f', b'g', b'h', b'i', b'j',
        b'k', b'l', b'm', b'n', b'o', b'p', b'q', b'r', b's', b't',
        b'u', b'v', b'w', b'x', b'y', b'z',
        // offset array:
        1, 2, 3, 4, 5, 6, 7, 8, 9,
        10, 11, 12, 13, 14, 15, 16, 18, 20, 22, 24, 26, 28, 30, 32, 34, 36, 38, 40, 42, 44, 46, 48, 50, 52, 54, 56, 58, 60, 62, 64, 66, 68, 70, 72, 74, 76, 78, 80, 82, 84, 86,
        // single-byte values:
        (0x80 | 0), (0x80 | 1), (0x80 | 2), (0x80 | 3), (0x80 | 4),
        (0x80 | 5), (0x80 | 6), (0x80 | 7), (0x80 | 8), (0x80 | 9),
        (0x80 | 10), (0x80 | 11), (0x80 | 12), (0x80 | 13), (0x80 | 14),
        (0x80 | 15),
        // multi-byte values:
        0x90, 0,
        0x90, 17-16, 0x90, 18-16, 0x90, 19-16,
        0x90, 20-16, 0x90, 21-16, 0x90, 22-16, 0x90, 23-16, 0x90, 24-16,
        0x90, 25-16, 0x90, 26-16, 0x90, 27-16, 0x90, 28-16, 0x90, 29-16,
        0x90, 30-16, 0x90, 31-16,
        0x90, 16+0, 0x90, 16+1, 0x90, 16+2, 0x90, 16+3, 0x90, 16+4,
        0x90, 16+5, 0x90, 16+6, 0x90, 16+7, 0x90, 16+8, 0x90, 16+9,
        0x90, 16+10, 0x90, 16+11, 0x90, 16+12, 0x90, 16+13, 0x90, 16+14,
        0x90, 16+15, 0x90, 16+16, 0x90, 16+17, 0x90, 16+18, 0x90, 16+19,
    ];
    check_bytes_eq(193, trie.as_bytes(), expected_bytes);

    let expected_bytes6 = &[
        0b11100000, // branch varint lead
        0x14,       // branch varint trail
        // PHF metadata:
        0, 0, 0, 0, 0, 0, 0, 0, 0, 0, 6, 10, 12, 16, 4, 4, 4, 4, 4, 4, 8, 4, 4, 4, 16, 16, 16, 16, 16, 0, 0, 0, 0, 0, 0, 0, 0, 0, 0, 0, 0, 0, 0, 0, 0, 0, 0, 0, 0, 1, 2, 0, 7,
        // search array:
        b'h', b'i', b'j', b'k', b'l', b'm', b'n', b'o',
        b'p', b'u', b'v', b'w', b'D', b'E', b'F', b'q',
        b'r', b'A', b'B', b'C', b'x', b'y', b'z', b's',
        b'H', b'I', b'J', b'G', b'P', b'Q', b'R', b'S',
        b'T', b'U', b'V', b'W', b'X', b'Y', b'Z', b'K',
        b'L', b'M', b'N', b'O', b'g', b'a', b'b', b'c',
        b't', b'd', b'f', b'e',
        // offset array:
        2, 4, 6, 8, 10, 12, 14,
        16, 18, 20, 22, 24, 25, 26, 27,
        29, 31, 32, 33, 34, 36, 38, 40,
        42, 43, 44, 45, 46, 47, 49, 51,
        53, 55, 57, 59, 61, 63, 65, 67,
        68, 69, 70, 71, 72, 74, 76, 78,
        80, 82, 84, 86,
        // values:
        0x90, 16+1, 0x90, 16+2, 0x90, 16+3, 0x90, 16+4, 0x90, 16+5, 0x90, 16+6, 0x90, 16+7, 0x90, 16+8,
        0x90, 16+9, 0x90, 16+14, 0x90, 16+15, 0x90, 16+16, 0x80 | 3, 0x80 | 4, 0x80 | 5, 0x90, 16+10,
        0x90, 16+11, 0x80 | 0, 0x80 | 1, 0x80 | 2, 0x90, 16+17, 0x90, 16+18, 0x90, 16+19, 0x90, 16+12,
        0x80 | 7, 0x80 | 8, 0x80 | 9, 0x80 | 6, 0x80 | 15, 0x90, 16-16, 0x90, 17-16, 0x90, 18-16,
        0x90, 19-16, 0x90, 20-16, 0x90, 21-16, 0x90, 22-16, 0x90, 23-16, 0x90, 24-16, 0x90, 25-16, 0x80 | 10,
        0x80 | 11, 0x80 | 12, 0x80 | 13, 0x80 | 14, 0x90, 16+0, 0x90, 26-16, 0x90, 27-16, 0x90, 28-16,
        0x90, 16+13, 0x90, 29-16, 0x90, 31-16, 0x90, 30-16,
    ];
    let trie6 = ZeroTriePerfectHash::try_from_litemap(&byte_keys(&litemap)).unwrap();
    check_bytes_eq(246, trie6.as_bytes(), expected_bytes6);
    check_ascii_trie6(&litemap, &trie6);
}

#[test]
fn test_below_wide() {
    let litemap = ascii_map(&[
        ("abcdefghijklmnopqrstuvwxyz", 1),
        ("bcdefghijklmnopqrstuvwxyza", 2),
        ("cdefghijklmnopqrstuvwxyzab", 3),
        ("defghijklmnopqrstuvwxyzabc", 4),
        ("efghijklmnopqrstuvwxyzabcd", 5),
        ("fghijklmnopqrstuvwxyzabcde", 6),
        ("ghijklmnopqrstuvwxyzabcdef", 7),
        ("hijklmnopqrstuvwxyzabcdefg", 8),
        ("ijklmnopqrstuvwxyzabcdefgh", 9),
        ("jklmnopqrstuvwxyzabcd", 10),
    ]);
    let trie = ZeroTrieSimpleAscii::try_from_litemap(&litemap).unwrap();
    assert_eq!(trie.get(b""), None);
    assert_eq!(trie.get(b"abc"), None);
    check_ascii_trie(&litemap, &trie);
    let expected_bytes = &[
        0b11001010, // branch
        // search array:
        b'a', b'b', b'c', b'd', b'e', b'f', b'g', b'h', b'i', b'j',
        // offset array:
        26, 52, 78, 104, 130, 156, 182, 208, 234,
        // offset data:
        b'b', b'c', b'd', b'e', b'f', b'g', b'h', b'i', b'j', b'k', b'l', b'm', b'n',
        b'o', b'p', b'q', b'r', b's', b't', b'u', b'v', b'w', b'x', b'y', b'z',
        0x81,
        b'c', b'd', b'e', b'f', b'g', b'h', b'i', b'j', b'k', b'l', b'm', b'n', b'o',
        b'p', b'q', b'r', b's', b't', b'u', b'v', b'w', b'x', b'y', b'z', b'a',
        0x82,
        b'd', b'e', b'f', b'g', b'h', b'i', b'j', b'k', b'l', b'm', b'n', b'o', b'p',
        b'q', b'r', b's', b't', b'u', b'v', b'w', b'x', b'y', b'z', b'a', b'b',
        0x83,
        b'e', b'f', b'g', b'h', b'i', b'j', b'k', b'l', b'm', b'n', b'o', b'p', b'q',
        b'r', b's', b't', b'u', b'v', b'w', b'x', b'y', b'z', b'a', b'b', b'c',
        0x84,
        b'f', b'g', b'h', b'i', b'j', b'k', b'l', b'm', b'n', b'o', b'p', b'q', b'r',
        b's', b't', b'u', b'v', b'w', b'x', b'y', b'z', b'a', b'b', b'c', b'd',
        0x85,
        b'g', b'h', b'i', b'j', b'k', b'l', b'm', b'n', b'o', b'p', b'q', b'r', b's',
        b't', b'u', b'v', b'w', b'x', b'y', b'z', b'a', b'b', b'c', b'd', b'e',
        0x86,
        b'h', b'i', b'j', b'k', b'l', b'm', b'n', b'o', b'p', b'q', b'r', b's', b't',
        b'u', b'v', b'w', b'x', b'y', b'z', b'a', b'b', b'c', b'd', b'e', b'f',
        0x87,
        b'i', b'j', b'k', b'l', b'm', b'n', b'o', b'p', b'q', b'r', b's', b't', b'u',
        b'v', b'w', b'x', b'y', b'z', b'a', b'b', b'c', b'd', b'e', b'f', b'g',
        0x88,
        b'j', b'k', b'l', b'm', b'n', b'o', b'p', b'q', b'r', b's', b't', b'u', b'v',
        b'w', b'x', b'y', b'z', b'a', b'b', b'c', b'd', b'e', b'f', b'g', b'h',
        0x89,
        b'k', b'l', b'm', b'n', b'o', b'p', b'q', b'r', b's', b't', b'u', b'v', b'w',
        b'x', b'y', b'z', b'a', b'b', b'c', b'd',
        0x8A,
    ];
    check_bytes_eq(275, trie.as_bytes(), expected_bytes);
}

#[test]
fn test_at_wide() {
    let litemap = ascii_map(&[
        ("abcdefghijklmnopqrstuvwxyz", 1),
        ("bcdefghijklmnopqrstuvwxyza", 2),
        ("cdefghijklmnopqrstuvwxyzab", 3),
        ("defghijklmnopqrstuvwxyzabc", 4),
        ("efghijklmnopqrstuvwxyzabcd", 5),
        ("fghijklmnopqrstuvwxyzabcde", 6),
        ("ghijklmnopqrstuvwxyzabcdef", 7),
        ("hijklmnopqrstuvwxyzabcdefg", 8),
        ("ijklmnopqrstuvwxyzabcdefgh", 9),
        ("jklmnopqrstuvwxyzabcde", 10),
    ]);
    let trie = ZeroTrieSimpleAscii::try_from_litemap(&litemap).unwrap();
    assert_eq!(trie.get(b""), None);
    assert_eq!(trie.get(b"abc"), None);
    check_ascii_trie(&litemap, &trie);
    let expected_bytes = &[
        0b11100001, // branch lead
        0x6A, // branch trail
        // search array:
        b'a', b'b', b'c', b'd', b'e', b'f', b'g', b'h', b'i', b'j',
        // offset array (wide):
        0, 0, 0, 0, 0, 0, 0, 0, 0,
        26, 52, 78, 104, 130, 156, 182, 208, 234,
        // offset data:
        b'b', b'c', b'd', b'e', b'f', b'g', b'h', b'i', b'j', b'k', b'l', b'm', b'n',
        b'o', b'p', b'q', b'r', b's', b't', b'u', b'v', b'w', b'x', b'y', b'z',
        0x81,
        b'c', b'd', b'e', b'f', b'g', b'h', b'i', b'j', b'k', b'l', b'm', b'n', b'o',
        b'p', b'q', b'r', b's', b't', b'u', b'v', b'w', b'x', b'y', b'z', b'a',
        0x82,
        b'd', b'e', b'f', b'g', b'h', b'i', b'j', b'k', b'l', b'm', b'n', b'o', b'p',
        b'q', b'r', b's', b't', b'u', b'v', b'w', b'x', b'y', b'z', b'a', b'b',
        0x83,
        b'e', b'f', b'g', b'h', b'i', b'j', b'k', b'l', b'm', b'n', b'o', b'p', b'q',
        b'r', b's', b't', b'u', b'v', b'w', b'x', b'y', b'z', b'a', b'b', b'c',
        0x84,
        b'f', b'g', b'h', b'i', b'j', b'k', b'l', b'm', b'n', b'o', b'p', b'q', b'r',
        b's', b't', b'u', b'v', b'w', b'x', b'y', b'z', b'a', b'b', b'c', b'd',
        0x85,
        b'g', b'h', b'i', b'j', b'k', b'l', b'm', b'n', b'o', b'p', b'q', b'r', b's',
        b't', b'u', b'v', b'w', b'x', b'y', b'z', b'a', b'b', b'c', b'd', b'e',
        0x86,
        b'h', b'i', b'j', b'k', b'l', b'm', b'n', b'o', b'p', b'q', b'r', b's', b't',
        b'u', b'v', b'w', b'x', b'y', b'z', b'a', b'b', b'c', b'd', b'e', b'f',
        0x87,
        b'i', b'j', b'k', b'l', b'm', b'n', b'o', b'p', b'q', b'r', b's', b't', b'u',
        b'v', b'w', b'x', b'y', b'z', b'a', b'b', b'c', b'd', b'e', b'f', b'g',
        0x88,
        b'j', b'k', b'l', b'm', b'n', b'o', b'p', b'q', b'r', b's', b't', b'u', b'v',
        b'w', b'x', b'y', b'z', b'a', b'b', b'c', b'd', b'e', b'f', b'g', b'h',
        0x89,
        b'k', b'l', b'm', b'n', b'o', b'p', b'q', b'r', b's', b't', b'u', b'v', b'w',
        b'x', b'y', b'z', b'a', b'b', b'c', b'd', b'e',
        0x8A,
    ];
    check_bytes_eq(286, trie.as_bytes(), expected_bytes);
}

#[test]
fn test_at_wide_plus() {
    let litemap = ascii_map(&[
        ("abcdefghijklmnopqrstuvwxyz", 1),
        ("bcdefghijklmnopqrstuvwxyza", 2),
        ("cdefghijklmnopqrstuvwxyzab", 3),
        ("defghijklmnopqrstuvwxyzabc", 4),
        ("efghijklmnopqrstuvwxyzabcd", 5),
        ("fghijklmnopqrstuvwxyzabcde", 6),
        ("ghijklmnopqrstuvwxyzabcdef", 7),
        ("hijklmnopqrstuvwxyzabcdefg", 8),
        ("ijklmnopqrstuvwxyzabcdefgh", 9),
        ("jklmnopqrstuvwxyzabcdef", 10),
    ]);
    let trie = ZeroTrieSimpleAscii::try_from_litemap(&litemap).unwrap();
    assert_eq!(trie.get(b""), None);
    assert_eq!(trie.get(b"abc"), None);
    check_ascii_trie(&litemap, &trie);
    let expected_bytes = &[
        0b11100001, // branch lead
        0x6A, // branch trail
        // search array:
        b'a', b'b', b'c', b'd', b'e', b'f', b'g', b'h', b'i', b'j',
        // offset array (wide):
        0, 0, 0, 0, 0, 0, 0, 0, 0,
        26, 52, 78, 104, 130, 156, 182, 208, 234,
        // offset data:
        b'b', b'c', b'd', b'e', b'f', b'g', b'h', b'i', b'j', b'k', b'l', b'm', b'n',
        b'o', b'p', b'q', b'r', b's', b't', b'u', b'v', b'w', b'x', b'y', b'z',
        0x81,
        b'c', b'd', b'e', b'f', b'g', b'h', b'i', b'j', b'k', b'l', b'm', b'n', b'o',
        b'p', b'q', b'r', b's', b't', b'u', b'v', b'w', b'x', b'y', b'z', b'a',
        0x82,
        b'd', b'e', b'f', b'g', b'h', b'i', b'j', b'k', b'l', b'm', b'n', b'o', b'p',
        b'q', b'r', b's', b't', b'u', b'v', b'w', b'x', b'y', b'z', b'a', b'b',
        0x83,
        b'e', b'f', b'g', b'h', b'i', b'j', b'k', b'l', b'm', b'n', b'o', b'p', b'q',
        b'r', b's', b't', b'u', b'v', b'w', b'x', b'y', b'z', b'a', b'b', b'c',
        0x84,
        b'f', b'g', b'h', b'i', b'j', b'k', b'l', b'm', b'n', b'o', b'p', b'q', b'r',
        b's', b't', b'u', b'v', b'w', b'x', b'y', b'z', b'a', b'b', b'c', b'd',
        0x85,
        b'g', b'h', b'i', b'j', b'k', b'l', b'm', b'n', b'o', b'p', b'q', b'r', b's',
        b't', b'u', b'v', b'w', b'x', b'y', b'z', b'a', b'b', b'c', b'd', b'e',
        0x86,
        b'h', b'i', b'j', b'k', b'l', b'm', b'n', b'o', b'p', b'q', b'r', b's', b't',
        b'u', b'v', b'w', b'x', b'y', b'z', b'a', b'b', b'c', b'd', b'e', b'f',
        0x87,
        b'i', b'j', b'k', b'l', b'm', b'n', b'o', b'p', b'q', b'r', b's', b't', b'u',
        b'v', b'w', b'x', b'y', b'z', b'a', b'b', b'c', b'd', b'e', b'f', b'g',
        0x88,
        b'j', b'k', b'l', b'm', b'n', b'o', b'p', b'q', b'r', b's', b't', b'u', b'v',
        b'w', b'x', b'y', b'z', b'a', b'b', b'c', b'd', b'e', b'f', b'g', b'h',
        0x89,
        b'k', b'l', b'm', b'n', b'o', b'p', b'q', b'r', b's', b't', b'u', b'v', b'w',
        b'x', b'y', b'z', b'a', b'b', b'c', b'd', b'e', b'f',
        0x8A,
    ];
    check_bytes_eq(287, trie.as_bytes(), expected_bytes);
}

#[test]
fn builder_test_test_everything() {
    let litemap = ascii_map(&[
        ("", 0),
        ("axb", 100),
        ("ayc", 2),
        ("azd", 3),
        ("bxe", 4),
        ("bxefg", 500),
        ("bxefh", 6),
        ("bxei", 7),
        ("bxeikl", 8),
    ]);
    let trie = ZeroTrieSimpleAscii::try_from_litemap(&litemap).unwrap();
    assert_eq!(trie.get(b""), Some(0));
    assert_eq!(trie.get(b"a"), None);
    assert_eq!(trie.get(b"ax"), None);
    assert_eq!(trie.get(b"ay"), None);
    check_ascii_trie(&litemap, &trie);
    let expected_bytes = &[
        0b10000000, // value 0
        0b11000010, // branch of 2
        b'a',       //
        b'b',       //
        13,         //
        0b11000011, // branch of 3
        b'x',       //
        b'y',       //
        b'z',       //
        3,          //
        5,          //
        b'b',       //
        0b10010000, // value 100 (lead)
        0x54,       // value 100 (trail)
        b'c',       //
        0b10000010, // value 2
        b'd',       //
        0b10000011, // value 3
        b'x',       //
        b'e',       //
        0b10000100, // value 4
        0b11000010, // branch of 2
        b'f',       //
        b'i',       //
        7,          //
        0b11000010, // branch of 2
        b'g',       //
        b'h',       //
        2,          //
        0b10010011, // value 500 (lead)
        0x64,       // value 500 (trail)
        0b10000110, // value 6
        0b10000111, // value 7
        b'k',       //
        b'l',       //
        0b10001000, // value 8
    ];
    check_bytes_eq(36, trie.as_bytes(), expected_bytes);

    let expected_bytes6 = &[
        0b10000000, // value 0
        0b11000010, // branch of 2
        b'a',       //
        b'b',       //
        13,         //
        0b11000011, // start of 'a' subtree: branch of 3
        b'x',       //
        b'y',       //
        b'z',       //
        3,          //
        5,          //
        b'b',       //
        0b10010000, // value 100 (lead)
        0x54,       // value 100 (trail)
        b'c',       //
        0b10000010, // value 2
        b'd',       //
        0b10000011, // value 3
        b'x',       // start of 'b' subtree
        b'e',       //
        0b10000100, // value 4
        0b11000010, // branch of 2
        b'f',       //
        b'i',       //
        7,          //
        0b11000010, // branch of 2
        b'g',       //
        b'h',       //
        2,          //
        0b10010011, // value 500 (lead)
        0x64,       // value 500 (trail)
        0b10000110, // value 6
        0b10000111, // value 7
        b'k',       //
        b'l',       //
        0b10001000, // value 8
    ];
    let trie6 = ZeroTriePerfectHash::try_from_litemap(&byte_keys(&litemap)).unwrap();
    check_bytes_eq(36, trie6.as_bytes(), expected_bytes6);
    check_ascii_trie6(&litemap, &trie6);
}

#[test]
fn test_non_ascii() {
    let litemap = byte_map(&[
        ("".as_bytes(), 0),
        ("axb".as_bytes(), 100),
        ("ayc".as_bytes(), 2),
        ("azd".as_bytes(), 3),
        ("bxe".as_bytes(), 4),
        ("bxefg".as_bytes(), 500),
        ("bxefh".as_bytes(), 6),
        ("bxei".as_bytes(), 7),
        ("bxeikl".as_bytes(), 8),
        ("bxeiklmΚαλημέρααα".as_bytes(), 9),
        ("bxeiklmαnλo".as_bytes(), 10),
        ("bxeiklmη".as_bytes(), 11),
    ]);

    let expected_bytes6 = &[
        0b10000000, // value 0
        0b11000010, // branch of 2
        b'a',       //
        b'b',       //
        13,         //
        0b11000011, // start of 'a' subtree: branch of 3
        b'x',       //
        b'y',       //
        b'z',       //
        3,          //
        5,          //
        b'b',       //
        0b10010000, // value 100 (lead)
        0x54,       // value 100 (trail)
        b'c',       //
        0b10000010, // value 2
        b'd',       //
        0b10000011, // value 3
        b'x',       // start of 'b' subtree
        b'e',       //
        0b10000100, // value 4
        0b11000010, // branch of 2
        b'f',       //
        b'i',       //
        7,          //
        0b11000010, // branch of 2
        b'g',       //
        b'h',       //
        2,          //
        0b10010011, // value 500 (lead)
        0x64,       // value 500 (trail)
        0b10000110, // value 6
        0b10000111, // value 7
        b'k',       //
        b'l',       //
        0b10001000, // value 8
        b'm',       //
        0b10100001, // span of length 1
        utf8_byte('Κ', 0), // NOTE: all three letters have the same lead byte
        0b11000011, // branch of 3
        utf8_byte('Κ', 1),
        utf8_byte('α', 1),
        utf8_byte('η', 1),
        21,
        27,
        0b10110000, // span of length 18 (lead)
        0b00000010, // span of length 18 (trail)
        utf8_byte('α', 0),
        utf8_byte('α', 1),
        utf8_byte('λ', 0),
        utf8_byte('λ', 1),
        utf8_byte('η', 0),
        utf8_byte('η', 1),
        utf8_byte('μ', 0),
        utf8_byte('μ', 1),
        utf8_byte('έ', 0),
        utf8_byte('έ', 1),
        utf8_byte('ρ', 0),
        utf8_byte('ρ', 1),
        utf8_byte('α', 0),
        utf8_byte('α', 1),
        utf8_byte('α', 0),
        utf8_byte('α', 1),
        utf8_byte('α', 0),
        utf8_byte('α', 1),
        0b10001001, // value 9
        b'n',
        0b10100010, // span of length 2
        utf8_byte('λ', 0),
        utf8_byte('λ', 1),
        b'o',
        0b10001010, // value 10
        0b10001011, // value 11
    ];
    let trie6 = ZeroTriePerfectHash::try_from_litemap(&litemap).unwrap();
    check_bytes_eq(73, trie6.as_bytes(), expected_bytes6);
    check_ascii_trie6_bytes(&litemap, &trie6);
}

#[test]
fn test_max_branch() {
    // Evaluate a branch with all 256 possible children
    let all_bytes: Vec<u8> = (u8::MIN..=u8::MAX).collect();
    assert_eq!(all_bytes.len(), 256);
    let all_bytes_prefixed: Vec<[u8; 2]> = (u8::MIN..=u8::MAX).map(|x| [b'\0', x]).collect();
    let mut items: Vec<(&[u8], usize)> = Vec::new();
    for b in all_bytes.iter() {
        items.push((core::slice::from_ref(b), *b as usize));
    }
    for s in all_bytes_prefixed.iter() {
        items.push((s, s[1] as usize));
    }
    let litemap = byte_map(&items);
    let trie6 = ZeroTriePerfectHash::try_from_litemap(&litemap).unwrap();
    assert_eq!(trie6.byte_len(), 3042);
    check_ascii_trie6_bytes(&litemap, &trie6);
}

#[test]
fn extended_capacity_builds_the_same_small_tries() {
    let litemap = ascii_map(&[("", 0), ("axb", 100), ("ayc", 2), ("azd", 3), ("bxe", 4)]);
    let keys = byte_keys(&litemap);
    let t = ZeroTrieExtendedCapacity::try_from_litemap(&keys).unwrap();
    let p = ZeroTriePerfectHash::try_from_litemap(&keys).unwrap();
    assert_eq!(t.as_bytes(), p.as_bytes());
    for (k, v) in keys.iter() {
        assert_eq!(t.get(k), Some(*v));
    }
    assert_eq!(t.get(b"ax"), None);
}

#[test]
fn simple_trie_absent_keys_read_none() {
    let litemap = ascii_map(&[("bar", 2), ("bazzoo", 3), ("foo", 1)]);
    let trie = ZeroTrieSimpleAscii::try_from_litemap(&litemap).unwrap();
    for q in [&b"ba"[..], b"baz", b"bazzo", b"bazzoox", b"f", b"fo", b"fooo", b"g", b"", "bär".as_bytes()] {
        assert_eq!(trie.get(q), None);
    }
}
