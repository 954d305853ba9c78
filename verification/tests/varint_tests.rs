use asciitrie::varint::{read_varint, write_varint};

#[derive(Debug)]
struct TestCase<'a> {
    bytes: &'a [u8],
    remainder: &'a [u8],
    value: usize,
}

#[test]
fn varint_test_read_write() {
    let cases = [
        TestCase {
            bytes: &[0b00000000],
            remainder: &[],
            value: 0,
        },
        TestCase {
            bytes: &[0b00001010],
            remainder: &[],
            value: 10,
        },
        TestCase {
            bytes: &[0b00011111],
            remainder: &[],
            value: 31,
        },
        TestCase {
            bytes: &[0b00011111, 0b10101010],
            remainder: &[0b10101010],
            value: 31,
        },
        TestCase {
            bytes: &[0b00100000, 0b00000000],
            remainder: &[],
            value: 32,
        },
        TestCase {
            bytes: &[0b00100000, 0b00000001],
            remainder: &[],
            value: 33,
        },
        TestCase {
            bytes: &[0b00100000, 0b00100000],
            remainder: &[],
            value: 64,
        },
        TestCase {
            bytes: &[0b00100000, 0b01111111],
            remainder: &[],
            value: 159,
        },
        TestCase {
            bytes: &[0b00100001, 0b00000000],
            remainder: &[],
            value: 160,
        },
        TestCase {
            bytes: &[0b00100001, 0b00000001],
            remainder: &[],
            value: 161,
        },
        TestCase {
            bytes: &[0b00111111, 0b01111111],
            remainder: &[],
            value: 4127,
        },
        TestCase {
            bytes: &[0b00100000, 0b10000000, 0b00000000],
            remainder: &[],
            value: 4128,
        },
        TestCase {
            bytes: &[0b00100000, 0b10000000, 0b00000001],
            remainder: &[],
            value: 4129,
        },
        TestCase {
            bytes: &[0b00100000, 0b10000000, 0b01111111],
            remainder: &[],
            value: 4255,
        },
        TestCase {
            bytes: &[0b00100000, 0b10000001, 0b00000000],
            remainder: &[],
            value: 4256,
        },
        TestCase {
            bytes: &[0b00100000, 0b10000001, 0b00000001],
            remainder: &[],
            value: 4257,
        },
        TestCase {
            bytes: &[0b00100000, 0b11111111, 0b01111111],
            remainder: &[],
            value: 20511,
        },
        TestCase {
            bytes: &[0b00100001, 0b10000000, 0b00000000],
            remainder: &[],
            value: 20512,
        },
        TestCase {
            bytes: &[0b00111111, 0b11111111, 0b01111111],
            remainder: &[],
            value: 528415,
        },
        TestCase {
            bytes: &[0b00100000, 0b10000000, 0b10000000, 0b00000000],
            remainder: &[],
            value: 528416,
        },
        TestCase {
            bytes: &[0b00100000, 0b10000000, 0b10000000, 0b00000001],
            remainder: &[],
            value: 528417,
        },
        TestCase {
            bytes: &[0b00111111, 0b11111111, 0b11111111, 0b01111111],
            remainder: &[],
            value: 67637279,
        },
        TestCase {
            bytes: &[0b00100000, 0b10000000, 0b10000000, 0b10000000, 0b00000000],
            remainder: &[],
            value: 67637280,
        },
    ];
    for cas in cases {
        let actual = read_varint(cas.bytes[0], &cas.bytes[1..]).unwrap();
        assert_eq!(actual, (cas.value, cas.remainder), "{:?}", cas);
        let (written_len, written_bytes) = write_varint(cas.value);
        assert_eq!(written_len, cas.bytes.len() - cas.remainder.len(), "{:?}", cas);
        assert_eq!(&written_bytes[0..written_len], &cas.bytes[0..written_len], "{:?}", cas);
    }
}

#[test]
fn varint_test_max() {
    let (written_len, written_bytes) = write_varint(usize::MAX);
    let (recovered_value, remainder) =
        read_varint(written_bytes[0], &written_bytes[1..written_len]).unwrap();
    assert!(remainder.is_empty());
    assert_eq!(recovered_value, usize::MAX);
    assert_eq!(
        written_bytes,
        [
            0b00100001, //
            0b11011111, //
            0b11011111, //
            0b11011111, //
            0b11011111, //
            0b11011111, //
            0b11011111, //
            0b11011111, //
            0b11011111, //
            0b01011111, //
        ]
    );
}
