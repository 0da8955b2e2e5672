use dumpscan::text::{bytes_to_hex, format_number, hex_string_to_bytes, parse_address};

#[test]
fn hex_dump_of_bytes() {
    assert_eq!(bytes_to_hex(&[]), "");
    assert_eq!(bytes_to_hex(&[0x00]), "00 ");
    assert_eq!(bytes_to_hex(&[0x00, 0xAB, 0xFF, 0x09, 0x1a]), "00 AB FF 09 1A ");
    assert_eq!(bytes_to_hex(&[0x50, 0x4B, 0x03, 0x04]), "50 4B 03 04 ");
}

#[test]
fn hex_text_reads_as_bytes() {
    assert_eq!(hex_string_to_bytes("504B0304"), Some(vec![0x50, 0x4B, 0x03, 0x04]));
    assert_eq!(hex_string_to_bytes("504b0304"), Some(vec![0x50, 0x4B, 0x03, 0x04]));
    assert_eq!(hex_string_to_bytes("00ff"), Some(vec![0x00, 0xFF]));
    assert_eq!(hex_string_to_bytes("aF"), Some(vec![0xAF]));
    assert_eq!(hex_string_to_bytes(""), Some(vec![]));
}

#[test]
fn malformed_hex_text_is_refused() {
    assert_eq!(hex_string_to_bytes("5"), None);
    assert_eq!(hex_string_to_bytes("504"), None);
    assert_eq!(hex_string_to_bytes("zz"), None);
    assert_eq!(hex_string_to_bytes("5g"), None);
    assert_eq!(hex_string_to_bytes("g5"), None);
    assert_eq!(hex_string_to_bytes("50 4B"), None);
    assert_eq!(hex_string_to_bytes("+F"), None);
    assert_eq!(hex_string_to_bytes("0x50"), None);
    assert_eq!(hex_string_to_bytes("\u{e9}\u{e9}"), None);
}

#[test]
fn address_text_reads_as_number() {
    assert_eq!(parse_address("0x10"), Some(0x10));
    assert_eq!(parse_address("10"), Some(0x10));
    assert_eq!(parse_address("0"), Some(0));
    assert_eq!(parse_address("0x0"), Some(0));
    assert_eq!(parse_address("ff"), Some(255));
    assert_eq!(parse_address("0xDEADbeef"), Some(0xDEAD_BEEF));
    assert_eq!(parse_address("000000000000000000000000007"), Some(7));
    assert_eq!(parse_address("0x00ff"), Some(255));
}

#[test]
fn malformed_address_text_is_refused() {
    assert_eq!(parse_address(""), None);
    assert_eq!(parse_address("0x"), None);
    assert_eq!(parse_address("xyz"), None);
    assert_eq!(parse_address("12g"), None);
    assert_eq!(parse_address("0x0x10"), None);
    assert_eq!(parse_address("0x0x"), None);
    assert_eq!(parse_address("+"), None);
    assert_eq!(parse_address("+10"), None);
    assert_eq!(parse_address("0x+1f"), None);
    assert_eq!(parse_address("+0x10"), None);
    assert_eq!(parse_address("-10"), None);
    assert_eq!(parse_address(" 10"), None);
    assert_eq!(parse_address("0X10"), None);
    assert_eq!(parse_address("x10"), None);
}

#[test]
fn address_that_does_not_fit_is_refused() {
    let digits = (usize::BITS / 4) as usize;
    let max = "f".repeat(digits);
    assert_eq!(parse_address(&max), Some(usize::MAX));
    let over = format!("1{}", "0".repeat(digits));
    assert_eq!(parse_address(&over), None);
    let far_over = "f".repeat(digits + 5);
    assert_eq!(parse_address(&far_over), None);
}

#[test]
fn numbers_in_both_bases() {
    assert_eq!(format_number(0, true), "0");
    assert_eq!(format_number(0, false), "0");
    assert_eq!(format_number(255, true), "FF");
    assert_eq!(format_number(255, false), "255");
    assert_eq!(format_number(0x1A2B3C, true), "1A2B3C");
    assert_eq!(format_number(1234567890, false), "1234567890");
    assert_eq!(format_number(16, true), "10");
    assert_eq!(format_number(10, false), "10");
    assert_eq!(format_number(usize::MAX, true), format!("{:X}", usize::MAX));
    assert_eq!(format_number(usize::MAX, false), format!("{}", usize::MAX));
}
