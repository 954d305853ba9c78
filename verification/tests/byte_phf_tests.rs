use rand::seq::SliceRandom;
use rand::SeedableRng;
use asciitrie::byte_phf::PerfectByteHashMap;

struct TestCase<'a> {
    keys: &'a [u8],
    expected: &'a [u8],
    reordered_keys: &'a [u8],
}

#[test]
fn test_build_read_small() {
    let cases = [
        TestCase {
            keys: b"ab",
            expected: &[0, 0, 0, b'b', b'a'],
            reordered_keys: b"ba",
        },
        TestCase {
            keys: b"abc",
            expected: &[0, 0, 0, 0, b'c', b'a', b'b'],
            reordered_keys: b"cab",
        },
        TestCase {
            keys: b"ac",
            expected: &[1, 0, 1, b'a', b'c'],
            reordered_keys: b"ac",
        },
        TestCase {
            keys: b"abd",
            expected: &[0, 0, 1, 3, b'a', b'b', b'd'],
            reordered_keys: b"abd",
        },
        TestCase {
            keys: b"def",
            expected: &[0, 0, 0, 0, b'f', b'd', b'e'],
            reordered_keys: b"fde",
        },
        TestCase {
            keys: b"fi",
            expected: &[0, 0, 0, b'f', b'i'],
            reordered_keys: b"fi",
        },
        TestCase {
            keys: b"gh",
            expected: &[0, 0, 0, b'h', b'g'],
            reordered_keys: b"hg",
        },
        TestCase {
            keys: b"lm",
            expected: &[0, 0, 0, b'l', b'm'],
            reordered_keys: b"lm",
        },
        TestCase {
            keys: b"aq",
            expected: &[2, 0, 1, b'a', b'q'],
            reordered_keys: b"aq",
        },
        TestCase {
            keys: b"xy",
            expected: &[0, 0, 0, b'x', b'y'],
            reordered_keys: b"xy",
        },
        TestCase {
            keys: b"xyz",
            expected: &[0, 0, 0, 0, b'x', b'y', b'z'],
            reordered_keys: b"xyz",
        },
        TestCase {
            keys: b"ABCDEFGHIJKLMNOPQRSTUVWXYZabcdefghijklmnopqrstuvwxyz",
            expected: &[0, 0, 0, 0, 0, 0, 0, 0, 0, 0, 6, 10, 12, 16, 4, 4, 4, 4, 4, 4, 8, 4, 4, 4, 16, 16, 16, 16, 16, 0, 0, 0, 0, 0, 0, 0, 0, 0, 0, 0, 0, 0, 0, 0, 0, 0, 0, 0, 0, 1, 2, 0, 7, 104, 105, 106, 107, 108, 109, 110, 111, 112, 117, 118, 119, 68, 69, 70, 113, 114, 65, 66, 67, 120, 121, 122, 115, 72, 73, 74, 71, 80, 81, 82, 83, 84, 85, 86, 87, 88, 89, 90, 75, 76, 77, 78, 79, 103, 97, 98, 99, 116, 100, 102, 101],
            reordered_keys: b"hijklmnopuvwDEFqrABCxyzsHIJGPQRSTUVWXYZKLMNOgabctdfe",
        },
        TestCase {
            keys: b"abcdefghij",
            expected: &[0, 0, 0, 0, 0, 0, 0, 0, 0, 0, 0, 100, 101, 102, 103, 104, 105, 106, 97, 98, 99],
            reordered_keys: b"defghijabc",
        },
    ];
    for cas in cases {
        let computed = PerfectByteHashMap::try_new(cas.keys).unwrap();
        assert_eq!(computed.as_bytes(), cas.expected);
        assert_eq!(computed.keys(), cas.reordered_keys);
        computed
            .check()
            .expect(std::str::from_utf8(cas.keys).unwrap());
    }
}

fn random_alphanums(seed: u64, len: usize) -> Vec<u8> {
    const BYTES: &[u8] = b"ABCDEFGHIJKLMNOPQRSTUVWXYZabcdefghijklmnopqrstuvwxyz0123456789";
    let mut rng = rand_pcg::Lcg64Xsh32::seed_from_u64(seed);
    BYTES.choose_multiple(&mut rng, len).copied().collect()
}

#[test]
fn test_smaller() {
    for len in 0..32 {
        for seed in 0..50 {
            let keys = random_alphanums(seed, len);
            let computed = PerfectByteHashMap::try_new(&keys).unwrap();
            computed.check().expect(std::str::from_utf8(&keys).unwrap());
        }
    }
}

#[test]
fn test_larger() {
    for len in 32..256 {
        for seed in 0..2 {
            let keys = random_alphanums(seed, len);
            let computed = PerfectByteHashMap::try_new(&keys).unwrap();
            computed.check().expect(std::str::from_utf8(&keys).unwrap());
        }
    }
}

#[test]
fn check_reports_a_key_not_found() {
    // "a" lands in slot 1, where "b" is stored, and "b" in slot 0, where "a" is.
    let broken = PerfectByteHashMap::from_store(vec![0u8, 0, 0, b'a', b'b']);
    assert_eq!(broken.check(), Err(("expected to find", b'a')));
    assert_eq!(broken.get(b'a'), None);
    assert_eq!(broken.get(b'b'), None);
}

#[test]
fn repeated_keys_fail_and_spread_keys_use_the_plain_remainder() {
    assert!(matches!(
        PerfectByteHashMap::try_new(b"aba"),
        Err(asciitrie::byte_phf::Error::CouldNotSolve)
    ));
    // 'x', 'y', 'z' leave the remainders 0, 1, 2 when divided by 3.
    let m = PerfectByteHashMap::try_new(b"xyz").unwrap();
    assert_eq!(m.as_bytes()[0], 0);
    m.check().unwrap();
    let (p, qq) = asciitrie::byte_phf::find(b"xyz").unwrap();
    assert_eq!(p, 0);
    assert_eq!(qq.len(), 3);
    assert!(asciitrie::byte_phf::find(b"qq").is_err());
}
