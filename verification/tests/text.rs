use bytecode::text::dec_string;
use bytecode::text::padded_string;

#[test]
fn decimal_rendering() {
    assert_eq!(dec_string(0), "0");
    assert_eq!(dec_string(7), "7");
    assert_eq!(dec_string(10), "10");
    assert_eq!(dec_string(90210), "90210");
    assert_eq!(dec_string(u64::MAX), "18446744073709551615");
}

#[test]
fn zero_padding() {
    assert_eq!(padded_string(0, 5), "00000");
    assert_eq!(padded_string(42, 5), "00042");
    assert_eq!(padded_string(42, 4), "0042");
    assert_eq!(padded_string(12345, 5), "12345");
    assert_eq!(padded_string(123456, 5), "123456");
}
