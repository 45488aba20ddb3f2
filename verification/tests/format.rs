use num::bigint::ToBigInt;
use num::BigInt;
use radix_conv::convtable::{format_bin, format_hex};

#[test]
fn format_positive_hex() {
    assert_eq!("0x01", format_hex(&1.to_bigint().unwrap()));
    assert_eq!("0x7F", format_hex(&127.to_bigint().unwrap()));
    assert_eq!("0x80", format_hex(&128.to_bigint().unwrap()));
    assert_eq!("0xFACE", format_hex(&64206.to_bigint().unwrap()));
}

#[test]
fn format_negative_hex() {
    assert_eq!("0xFF", format_hex(&-1.to_bigint().unwrap()));
    assert_eq!("0x80", format_hex(&-128.to_bigint().unwrap()));
    assert_eq!("0xFF7F", format_hex(&-129.to_bigint().unwrap()));
    assert_eq!("0xFF0532", format_hex(&-64206.to_bigint().unwrap()));
}

#[test]
fn format_positive_bin() {
    assert_eq!("0b00000001", format_bin(&1.to_bigint().unwrap()));
    assert_eq!("0b01111111", format_bin(&127.to_bigint().unwrap()));
    assert_eq!("0b10000000", format_bin(&128.to_bigint().unwrap()));
    assert_eq!("0b11111010_11001110", format_bin(&64206.to_bigint().unwrap()));
}

#[test]
fn format_negative_bin() {
    assert_eq!("0b11111111", format_bin(&-1.to_bigint().unwrap()));
    assert_eq!("0b10000000", format_bin(&-128.to_bigint().unwrap()));
    assert_eq!("0b11111111_01111111", format_bin(&-129.to_bigint().unwrap()));
    assert_eq!("0b11111111_00000101_00110010", format_bin(&-64206.to_bigint().unwrap()));
}

#[test]
fn zero_takes_one_byte() {
    assert_eq!("0x00", format_hex(&BigInt::from(0)));
    assert_eq!("0b00000000", format_bin(&BigInt::from(0)));
}

#[test]
fn byte_boundaries_of_positive_numbers() {
    assert_eq!("0xFF", format_hex(&BigInt::from(255)));
    assert_eq!("0x0100", format_hex(&BigInt::from(256)));
    assert_eq!("0xFFFF", format_hex(&BigInt::from(65535)));
    assert_eq!("0x010000", format_hex(&BigInt::from(65536)));
    assert_eq!("0b11111111", format_bin(&BigInt::from(255)));
    assert_eq!("0b00000001_00000000", format_bin(&BigInt::from(256)));
}

#[test]
fn byte_boundaries_of_negative_numbers() {
    assert_eq!("0x8000", format_hex(&BigInt::from(-32768)));
    assert_eq!("0xFF7FFF", format_hex(&BigInt::from(-32769)));
    assert_eq!("0xFF00", format_hex(&BigInt::from(-256)));
    assert_eq!("0xFE", format_hex(&BigInt::from(-2)));
    assert_eq!("0b10000000_00000000", format_bin(&BigInt::from(-32768)));
    assert_eq!("0b11111110", format_bin(&BigInt::from(-2)));
}

#[test]
fn numbers_wider_than_a_machine_word() {
    let big: BigInt = "340282366920938463463374607431768211456".parse().unwrap();
    assert_eq!("0x0100000000000000000000000000000000", format_hex(&big));
    let minus: BigInt = "-340282366920938463463374607431768211456".parse().unwrap();
    assert_eq!("0xFF00000000000000000000000000000000", format_hex(&minus));
    let bits = format_bin(&big);
    assert_eq!(2 + 17 * 8 + 16, bits.len());
    assert!(bits.starts_with("0b00000001_00000000_"));
}

#[test]
fn hex_digits_come_in_pairs() {
    for v in -70000i64..70000 {
        let text = format_hex(&BigInt::from(v));
        assert!(text.starts_with("0x"));
        assert_eq!(0, (text.len() - 2) % 2, "{}", v);
    }
}

#[test]
fn binary_digits_come_in_eights() {
    for v in -70000i64..70000 {
        let text = format_bin(&BigInt::from(v));
        assert!(text.starts_with("0b"));
        let digits = text[2..].chars().filter(|c| *c != '_').count();
        assert_eq!(0, digits % 8, "{}", v);
        for group in text[2..].split('_') {
            assert_eq!(8, group.len(), "{}", v);
        }
    }
}

#[test]
fn hex_reads_back_as_the_number() {
    for v in -70000i64..70000 {
        let text = format_hex(&BigInt::from(v));
        let digits = &text[2..];
        let unsigned = i64::from_str_radix(digits, 16).unwrap();
        if v >= 0 {
            assert_eq!(v, unsigned);
        } else {
            assert_eq!(v, unsigned - (1i64 << (4 * digits.len())));
        }
    }
}

#[test]
fn binary_reads_back_as_the_number() {
    for v in -70000i64..70000 {
        let text = format_bin(&BigInt::from(v));
        let digits: String = text[2..].chars().filter(|c| *c != '_').collect();
        let unsigned = i64::from_str_radix(&digits, 2).unwrap();
        if v >= 0 {
            assert_eq!(v, unsigned);
        } else {
            assert_eq!(v, unsigned - (1i64 << digits.len()));
        }
    }
}

#[test]
fn negative_numbers_start_with_a_set_bit_in_the_shortest_frame() {
    for v in -70000i64..0 {
        let text = format_hex(&BigInt::from(v));
        let digits = &text[2..];
        let top = u8::from_str_radix(&digits[..2], 16).unwrap();
        assert!(top >= 0x80, "{}", v);
        if digits.len() > 2 {
            let next = u8::from_str_radix(&digits[2..4], 16).unwrap();
            assert!(top != 0xFF || next < 0x80, "{}", v);
        }
    }
}

#[test]
fn positive_numbers_have_no_leading_zero_byte() {
    for v in 0i64..70000 {
        let text = format_hex(&BigInt::from(v));
        let digits = &text[2..];
        if digits.len() > 2 {
            assert_ne!("00", &digits[..2], "{}", v);
        }
    }
}
