use asciitrie::varintb::{read_varintb_5bits, write_varintb_5bits, MAX_VARINT_LENGTH};

#[derive(Debug)]
struct TestCase<'a> {
    bytes: &'a [u8],
    remainder: &'a [u8],
    value: usize,
}

fn cases() -> Vec<TestCase<'static>> {
    vec![
        TestCase {
            bytes: &[0b00000000],
            remainder: &[],
            value: 0,
        },
        TestCase {
            bytes: &[0b00001010],
            remainder: &[],
            value: 10,
        },
        TestCase {
            bytes: &[0b00011110],
            remainder: &[],
            value: 30,
        },
        TestCase {
            bytes: &[0b00011111, 0b00000000],
            remainder: &[],
            value: 31,
        },
        TestCase {
            bytes: &[0b00011111, 0b00000000, 0b10101010],
            remainder: &[0b10101010],
            value: 31,
        },
        TestCase {
            bytes: &[0b00011111, 0b00000001],
            remainder: &[],
            value: 32,
        },
        TestCase {
            bytes: &[0b00011111, 0b00000010],
            remainder: &[],
            value: 33,
        },
        TestCase {
            bytes: &[0b00011111, 0b00100001],
            remainder: &[],
            value: 64,
        },
        TestCase {
            bytes: &[0b00011111, 0b01000101],
            remainder: &[],
            value: 100,
        },
        TestCase {
            bytes: &[0b00011111, 0b01111111],
            remainder: &[],
            value: 158,
        },
        TestCase {
            bytes: &[0b00011111, 0b10000001, 0b00000000],
            remainder: &[],
            value: 159,
        },
        TestCase {
            bytes: &[0b00011111, 0b10000001, 0b00000001],
            remainder: &[],
            value: 160,
        },
        TestCase {
            bytes: &[0b00011111, 0b10000011, 0b01010101],
            remainder: &[],
            value: 500,
        },
        TestCase {
            bytes: &[0b00011111, 0b11111111, 0b01111111],
            remainder: &[],
            value: 16414,
        },
        TestCase {
            bytes: &[0b00011111, 0b10000001, 0b10000000, 0b00000000],
            remainder: &[],
            value: 16415,
        },
        TestCase {
            bytes: &[0b00011111, 0b10000001, 0b10000000, 0b00000001],
            remainder: &[],
            value: 16416,
        },
    ]
}

#[test]
fn varintb_test_read() {
    for cas in cases() {
        let recovered = read_varintb_5bits(cas.bytes[0], &cas.bytes[1..]);
        assert_eq!(recovered, Some((cas.value, cas.remainder)), "{:?}", cas);
    }
}

#[test]
fn varintb_test_read_write() {
    for cas in cases() {
        let recovered = read_varintb_5bits(cas.bytes[0], &cas.bytes[1..]);
        assert_eq!(recovered, Some((cas.value, cas.remainder)), "{:?}", cas);
        let write_bytes = write_varintb_5bits(cas.value);
        assert_eq!(
            &cas.bytes[0..cas.bytes.len() - cas.remainder.len()],
            write_bytes.as_slice(),
            "{:?}",
            cas
        );
    }
}

#[test]
fn varintb_test_roundtrip() {
    let mut i = 0usize;
    while i < usize::MAX {
        let bytes = write_varintb_5bits(i);
        let recovered = read_varintb_5bits(bytes.as_slice()[0], &bytes.as_slice()[1..]);
        assert!(recovered.is_some(), "{:?}", i);
        assert_eq!(i, recovered.unwrap().0, "{:?}", bytes.as_slice());
        i <<= 1;
        i += 1;
    }
}

#[test]
fn varintb_test_max() {
    let write_bytes = write_varintb_5bits(usize::MAX);
    assert_eq!(write_bytes.len(), MAX_VARINT_LENGTH);
    let subarray = write_bytes
        .as_const_slice()
        .get_subslice_or_panic(1, write_bytes.len());
    let (recovered_value, remainder) = read_varintb_5bits(
        *write_bytes.as_const_slice().first().unwrap(),
        subarray.as_slice(),
    )
    .unwrap();
    assert!(remainder.is_empty());
    assert_eq!(recovered_value, usize::MAX);
    assert_eq!(
        write_bytes.as_slice(),
        &[
            0b00011111, //
            0b10000001, //
            0b11111111, //
            0b11111111, //
            0b11111111, //
            0b11111111, //
            0b11111111, //
            0b11111111, //
            0b11111111, //
            0b11111111, //
            0b01100000, //
        ]
    );
}
