use num::BigInt;
use radix_conv::convtable::ConvTable;
use radix_conv::text::strip_prefix;
use radix_conv::tokens::{convert, push_token, split_radix};

#[test]
fn strip_prefix_takes_a_matching_prefix_off() {
    assert_eq!(Some("FF"), strip_prefix("0xFF", "0x"));
    assert_eq!(Some(""), strip_prefix("0x", "0x"));
    assert_eq!(Some("abc"), strip_prefix("abc", ""));
    assert_eq!(None, strip_prefix("0bFF", "0x"));
    assert_eq!(None, strip_prefix("0", "0x"));
    assert_eq!(None, strip_prefix("", "0x"));
    assert_eq!(Some("é"), strip_prefix("ééé", "éé"));
}

#[test]
fn split_radix_reads_the_prefix() {
    assert_eq!(("FF", 16), split_radix("0xFF"));
    assert_eq!(("101", 2), split_radix("0b101"));
    assert_eq!(("17", 8), split_radix("0o17"));
    assert_eq!(("10", 10), split_radix("10"));
    assert_eq!(("-0x10", 10), split_radix("-0x10"));
    assert_eq!(("", 10), split_radix(""));
    assert_eq!(("", 16), split_radix("0x"));
}

#[test]
fn push_result_shows_three_notations() {
    let mut t = ConvTable::new();
    t.push_result("255", &BigInt::from(255));
    assert_eq!("  255:  255  0xFF  0b11111111\n", t.print());
    let mut t = ConvTable::new();
    t.push_result("-64206", &BigInt::from(-64206));
    assert_eq!(
        "  -64206:  -64206  0xFF0532  0b11111111_00000101_00110010\n",
        t.print()
    );
    let mut t = ConvTable::new();
    t.push_result("0", &BigInt::from(0));
    assert_eq!("  0:  0  0x00  0b00000000\n", t.print());
}

#[test]
fn push_error_shows_the_message_as_a_span() {
    let mut t = ConvTable::new();
    t.push_error("abc", "no number");
    assert_eq!("  abc:  no number\n", t.print());
}

#[test]
fn empty_conv_table_prints_nothing() {
    assert_eq!("", ConvTable::new().print());
}

#[test]
fn tokens_are_read_in_their_radix() {
    let mut t = ConvTable::new();
    push_token(&mut t, "0x10");
    push_token(&mut t, "0o10");
    push_token(&mut t, "0b10");
    push_token(&mut t, "10");
    push_token(&mut t, "-10");
    let lines = [
        "  0x10:   16  0x10  0b00010000\n",
        "  0o10:    8  0x08  0b00001000\n",
        "  0b10:    2  0x02  0b00000010\n",
        "    10:   10  0x0A  0b00001010\n",
        "   -10:  -10  0xF6  0b11110110\n",
    ];
    assert_eq!(lines.concat(), t.print());
}

#[test]
fn white_space_around_a_token_is_dropped() {
    let mut t = ConvTable::new();
    push_token(&mut t, "  7\t");
    assert_eq!("  7:  7  0x07  0b00000111\n", t.print());
}

#[test]
fn text_that_is_no_number_gives_the_parse_message() {
    let mut t = ConvTable::new();
    push_token(&mut t, "abc");
    assert_eq!("  abc:  invalid digit found in string\n", t.print());
    let mut t = ConvTable::new();
    push_token(&mut t, "0x");
    assert_eq!("  0x:  cannot parse integer from empty string\n", t.print());
    let mut t = ConvTable::new();
    push_token(&mut t, "0b102");
    assert_eq!("  0b102:  invalid digit found in string\n", t.print());
}

#[test]
fn four_tokens_make_four_aligned_lines() {
    let tokens: Vec<String> =
        vec!["10".to_string(), "0xFF".to_string(), "0b101".to_string(), "abc".to_string()];
    let text = convert(&tokens).print();
    let expected = [
        "     10:   10  0x0A  0b00001010\n",
        "   0xFF:  255  0xFF  0b11111111\n",
        "  0b101:    5  0x05  0b00000101\n",
        "    abc:  invalid digit found in string\n",
    ];
    assert_eq!(expected.concat(), text);
    let lines: Vec<&str> = text.lines().collect();
    assert_eq!(4, lines.len());
    for line in &lines {
        assert_eq!(Some(7), line.find(':'));
    }
}

#[test]
fn no_tokens_make_no_lines() {
    assert_eq!("", convert(&Vec::new()).print());
}
