use asciitrie::varintx::{read_varint, write_varint, MAX_VARINT_LENGTH};

#[derive(Debug)]
struct TestCase<'a> {
    bytes: &'a [u8],
    remainder: &'a [u8],
    value: usize,
}

fn cases() -> Vec<TestCase<'static>> {
    vec![
        TestCase {
            bytes: &[0b00000000],
            remainder: &[],
            value: 0,
        },
        TestCase {
            bytes: &[0b00001010],
            remainder: &[],
            value: 10,
        },
        TestCase {
            bytes: &[0b00001111],
            remainder: &[],
            value: 15,
        },
        TestCase {
            bytes: &[0b00010000, 0b00010000, 0b10101010],
            remainder: &[0b10101010],
            value: 16,
        },
        TestCase {
            bytes: &[0b00010000, 0b00100000],
            remainder: &[],
            value: 32,
        },
        TestCase {
            bytes: &[0b00010000, 0b00100001],
            remainder: &[],
            value: 33,
        },
    ]
}

#[test]
fn varintx_test_read() {
    for cas in cases() {
        let recovered = read_varint(cas.bytes[0], &cas.bytes[1..]).expect(&format!("{:?}", cas));
        assert_eq!(recovered, (cas.value, cas.remainder), "{:?}", cas);
    }
}

#[test]
fn varintx_test_read_write() {
    for cas in cases() {
        let recovered = read_varint(cas.bytes[0], &cas.bytes[1..]).expect(&format!("{:?}", cas));
        assert_eq!(recovered, (cas.value, cas.remainder), "{:?}", cas);
        let write_bytes = write_varint(cas.value);
        assert_eq!(
            &cas.bytes[0..(cas.bytes.len() - cas.remainder.len())],
            write_bytes.as_slice(),
            "{:?}",
            cas
        );
    }
}

#[test]
fn varintx_test_roundtrip() {
    let mut i = 0usize;
    while i < u32::MAX as usize {
        let bytes = write_varint(i);
        let recovered = read_varint(bytes.as_slice()[0], &bytes.as_slice()[1..]).expect(&format!("{:?}", i));
        assert_eq!(i, recovered.0, "{:?}", bytes.as_slice());
        i <<= 1;
        i += 1;
    }
}

#[test]
fn varintx_test_max() {
    let write_bytes = write_varint(usize::MAX);
    assert_eq!(write_bytes.len(), MAX_VARINT_LENGTH);
    let subarray = write_bytes
        .as_const_slice()
        .get_subslice_or_panic(1, write_bytes.len());
    let (recovered_value, remainder) = read_varint(
        *write_bytes.as_const_slice().first().unwrap(),
        subarray.as_slice(),
    )
    .unwrap();
    assert!(remainder.is_empty());
    assert_eq!(recovered_value, usize::MAX);
    assert_eq!(
        write_bytes.as_slice(),
        &[
            0b00100001, //
            0b11011111, //
            0b11011111, //
            0b11011111, //
            0b11011111, //
            0b11011111, //
            0b11011111, //
            0b11011111, //
            0b11011111, //
            0b01011111, //
        ]
    );
}

#[test]
fn varintx_short_and_long_layouts_meet() {
    // 4095 is the last value of the short layout, 4096 the first of the long one.
    assert_eq!(write_varint(4095).as_slice(), &[0b00011111, 0xff]);
    let long = write_varint(4096);
    assert_eq!(long.as_slice()[0] & 0b00100000, 0b00100000);
    assert_eq!(read_varint(long.as_slice()[0], &long.as_slice()[1..]), Some((4096, &[][..])));
}
