use rowops::glyph::{decode_index, leading_char, recover_digits};
use rowops::text::{find, parse_integer, push_integer, space, split_fields, trim, Delimiter};

#[test]
fn space_is_blank_or_control() {
    for b in [b' ', b'\t', b'\n', b'\r', 11u8, 12u8] {
        assert!(space(b));
    }
    for b in [b'a', b'0', 0u8, 8u8, 14u8, 0xA0u8, b'R'] {
        assert!(!space(b));
    }
}

#[test]
fn trim_drops_white_space_at_both_ends() {
    assert_eq!(trim(b"  ab c \n"), b"ab c");
    assert_eq!(trim(b"abc"), b"abc");
    assert_eq!(trim(b"   "), b"");
    assert_eq!(trim(b""), b"");
    assert_eq!(trim(b"\t x"), b"x");
}

#[test]
fn find_gives_the_first_delimiter() {
    assert_eq!(find(b"ab/cd/e", Delimiter::Byte(b'/')), 2);
    assert_eq!(find(b"/ab", Delimiter::Byte(b'/')), 0);
    assert_eq!(find(b"abc", Delimiter::Byte(b'/')), 3);
    assert_eq!(find(b"ab c", Delimiter::Whitespace), 2);
    assert_eq!(find(b"", Delimiter::Whitespace), 0);
}

#[test]
fn split_fields_leaves_out_empty_fields() {
    let r = Delimiter::Byte(b'R');
    assert_eq!(split_fields(b"aRbRc", r), vec![b"a".to_vec(), b"b".to_vec(), b"c".to_vec()]);
    assert_eq!(split_fields(b"RRaRRbR", r), vec![b"a".to_vec(), b"b".to_vec()]);
    assert_eq!(split_fields(b"abc", r), vec![b"abc".to_vec()]);
    assert_eq!(split_fields(b"RRR", r), Vec::<Vec<u8>>::new());
    assert_eq!(split_fields(b"", r), Vec::<Vec<u8>>::new());
}

#[test]
fn split_fields_on_white_space() {
    let w = Delimiter::Whitespace;
    assert_eq!(
        split_fields(b"  a \t bc\nd ", w),
        vec![b"a".to_vec(), b"bc".to_vec(), b"d".to_vec()]
    );
    assert_eq!(split_fields(b" \t ", w), Vec::<Vec<u8>>::new());
}

#[test]
fn parse_integer_reads_signed_decimals() {
    assert_eq!(parse_integer(b"0"), Some(0));
    assert_eq!(parse_integer(b"42"), Some(42));
    assert_eq!(parse_integer(b"-42"), Some(-42));
    assert_eq!(parse_integer(b"+42"), Some(42));
    assert_eq!(parse_integer(b"-0"), Some(0));
    assert_eq!(parse_integer(b"000123"), Some(123));
    assert_eq!(parse_integer(b"9223372036854775807"), Some(i64::MAX));
    assert_eq!(parse_integer(b"-9223372036854775808"), Some(i64::MIN));
    assert_eq!(parse_integer(b"00000000000000000000000000000000000001"), Some(1));
}

#[test]
fn parse_integer_refuses_the_rest() {
    for bad in [
        &b""[..],
        b"+",
        b"-",
        b"--1",
        b"+-1",
        b"1a",
        b"a1",
        b" 1",
        b"1 ",
        b"1_000",
        b"9223372036854775808",
        b"-9223372036854775809",
        b"123456789012345678901234567890",
    ] {
        assert_eq!(parse_integer(bad), None);
    }
}

#[test]
fn push_integer_appends_the_decimal_text() {
    let mut out = b"x=".to_vec();
    push_integer(&mut out, -305);
    assert_eq!(out, b"x=-305".to_vec());
    for (v, text) in [
        (0i64, "0"),
        (7, "7"),
        (10, "10"),
        (-1, "-1"),
        (i64::MAX, "9223372036854775807"),
        (i64::MIN, "-9223372036854775808"),
    ] {
        let mut out = Vec::new();
        push_integer(&mut out, v);
        assert_eq!(out, text.as_bytes().to_vec());
        assert_eq!(parse_integer(&out), Some(v));
    }
}

fn subscript(digits: &str) -> Vec<u8> {
    let mut out = Vec::new();
    for c in digits.bytes() {
        out.extend_from_slice(&[0xE2, 0x82, 0x80 + (c - b'0')]);
    }
    out
}

#[test]
fn subscript_digits_are_what_the_text_holds() {
    assert_eq!("\u{2080}".as_bytes(), &subscript("0")[..]);
    assert_eq!("\u{2081}\u{2082}".as_bytes(), &subscript("12")[..]);
    assert_eq!("\u{2089}".as_bytes(), &subscript("9")[..]);
}

#[test]
fn recover_digits_takes_every_third_byte() {
    assert_eq!(recover_digits(&subscript("407")), b"407".to_vec());
    assert_eq!(recover_digits(b""), Vec::<u8>::new());
    assert_eq!(recover_digits(b"ab"), Vec::<u8>::new());
    assert_eq!(recover_digits(b"abcdef"), Vec::<u8>::new());
    assert_eq!(recover_digits(&[0, 0, 0x83, 0, 0, 0x8A, 1, 2, 0x89, 7]), b"39".to_vec());
}

#[test]
fn decode_index_of_one_digit() {
    for d in 0u64..=9 {
        assert_eq!(decode_index(&subscript(&d.to_string())), Some(d));
    }
}

#[test]
fn decode_index_of_several_digits() {
    assert_eq!(decode_index(&subscript("12")), Some(12));
    assert_eq!(decode_index(&subscript("99")), Some(99));
    assert_eq!(decode_index(&subscript("100")), Some(100));
    assert_eq!(decode_index(&subscript("1024")), Some(1024));
    assert_eq!(decode_index(&subscript("0007")), Some(7));
    assert_eq!(decode_index(&subscript("9876543210")), Some(9876543210));
}

#[test]
fn decode_index_passes_over_what_is_no_subscript_digit() {
    assert_eq!(decode_index(b""), Some(0));
    assert_eq!(decode_index(b"1"), Some(0));
    assert_eq!(decode_index(b"12"), Some(0));
    assert_eq!(decode_index(b"123"), Some(0));
    assert_eq!(decode_index("\u{2192}".as_bytes()), Some(0));
    let mut mixed = subscript("4");
    mixed.extend_from_slice("\u{2192}".as_bytes());
    mixed.extend_from_slice(&subscript("2"));
    mixed.push(b'x');
    assert_eq!(decode_index(&mixed), Some(42));
}

#[test]
fn decode_index_at_the_limit_of_64_bits() {
    assert_eq!(decode_index(&subscript("18446744073709551615")), Some(u64::MAX));
    assert_eq!(decode_index(&subscript("18446744073709551616")), None);
    assert_eq!(decode_index(&subscript("10000000000000000000")), Some(10_000_000_000_000_000_000));
    assert_eq!(decode_index(&subscript("20000000000000000000")), None);
    assert_eq!(decode_index(&subscript("100000000000000000000")), None);
    assert_eq!(decode_index(&subscript("000000000000000000000000000012")), Some(12));
    assert_eq!(decode_index(&subscript("99999999999999999999999")), None);
}

#[test]
fn leading_char_is_the_first_character() {
    assert_eq!(leading_char(b"abc"), b"a");
    assert_eq!(leading_char(b""), b"");
    assert_eq!(leading_char("\u{2081} x".as_bytes()), "\u{2081}".as_bytes());
    assert_eq!(leading_char("\u{e9}t".as_bytes()), "\u{e9}".as_bytes());
    assert_eq!(leading_char("\u{1F600}!".as_bytes()), "\u{1F600}".as_bytes());
    assert_eq!(leading_char(&[0xE2, 0x82]), &[0xE2, 0x82]);
}
