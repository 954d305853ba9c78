use asciitrie::const_util::ConstArrayBuilder;

#[test]
fn const_util_test_swap_ranges() {
    let s = b"...abcdefghijkl==";
    let s = ConstArrayBuilder::from_manual_slice(*s, 1, 16);
    let s = s.swap_ranges(2, 7, 14);
    assert_eq!(s.as_slice(), b"..fghijklabcde=");
}
