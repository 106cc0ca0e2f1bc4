use file_transfer::common::text::bytes_eq;
use file_transfer::common::text::copy_range;
use file_transfer::common::text::index_of;
use file_transfer::common::text::is_space_byte;
use file_transfer::common::text::last_index_of;
use file_transfer::common::text::parse_u64;
use file_transfer::common::text::push_bytes;
use file_transfer::common::text::push_decimal;
use file_transfer::common::text::space_len_at;
use file_transfer::common::text::space_len_before;
use file_transfer::common::text::split_lines;
use file_transfer::common::text::starts_with;
use file_transfer::common::text::trim_bytes;

fn decimal(n: u64) -> Vec<u8> {
    let mut out = Vec::new();
    push_decimal(&mut out, n);
    out
}

#[test]
fn lines_end_at_line_feeds() {
    assert_eq!(split_lines(b"a\nb\n"), vec![b"a".to_vec(), b"b".to_vec()]);
    assert_eq!(split_lines(b"a\nb"), vec![b"a".to_vec(), b"b".to_vec()]);
}

#[test]
fn empty_text_has_no_line() {
    assert_eq!(split_lines(b""), Vec::<Vec<u8>>::new());
}

#[test]
fn empty_lines_are_lines() {
    assert_eq!(split_lines(b"\n"), vec![b"".to_vec()]);
    assert_eq!(split_lines(b"a\n\nb\n"), vec![b"a".to_vec(), b"".to_vec(), b"b".to_vec()]);
}

#[test]
fn carriage_return_before_line_feed_belongs_to_the_ending() {
    assert_eq!(split_lines(b"a\r\nb\r\n"), vec![b"a".to_vec(), b"b".to_vec()]);
    assert_eq!(split_lines(b"a\r\r\n"), vec![b"a\r".to_vec()]);
}

#[test]
fn carriage_return_at_the_end_of_an_open_line_stays() {
    assert_eq!(split_lines(b"a\nb\r"), vec![b"a".to_vec(), b"b\r".to_vec()]);
    assert_eq!(split_lines(b"a\rb\n"), vec![b"a\rb".to_vec()]);
}

#[test]
fn lines_agree_with_the_standard_library() {
    let texts: [&str; 8] =
        ["", "\n", "x", "x\n", "x\r\n", "x\r", "one\ntwo\r\nthree", "\n\n\r\n\r"];
    for text in texts {
        let want: Vec<Vec<u8>> = text.lines().map(|l| l.as_bytes().to_vec()).collect();
        assert_eq!(split_lines(text.as_bytes()), want);
    }
}

#[test]
fn trim_takes_white_space_from_both_ends() {
    assert_eq!(trim_bytes(b"  FILES 3 \t\r\n"), b"FILES 3");
    assert_eq!(trim_bytes(b"a b"), b"a b");
    assert_eq!(trim_bytes(b" \t "), b"");
    assert_eq!(trim_bytes(b""), b"");
    assert_eq!(trim_bytes(b"\x0bx\x0c"), b"x");
}

#[test]
fn nul_is_no_white_space() {
    assert_eq!(trim_bytes(b"\0 x \0"), b"\0 x \0");
    assert!(!is_space_byte(0));
    assert!(is_space_byte(32));
    assert!(is_space_byte(9));
    assert!(is_space_byte(13));
    assert!(!is_space_byte(14));
    assert!(!is_space_byte(8));
}

#[test]
fn numbers_are_read_in_decimal() {
    assert_eq!(parse_u64(b"0"), Some(0));
    assert_eq!(parse_u64(b"1000"), Some(1000));
    assert_eq!(parse_u64(b"007"), Some(7));
    assert_eq!(parse_u64(b"+5"), Some(5));
    assert_eq!(parse_u64(b"18446744073709551615"), Some(u64::MAX));
}

#[test]
fn what_is_no_number_is_not_read() {
    assert_eq!(parse_u64(b""), None);
    assert_eq!(parse_u64(b"+"), None);
    assert_eq!(parse_u64(b"-1"), None);
    assert_eq!(parse_u64(b"12a"), None);
    assert_eq!(parse_u64(b" 12"), None);
    assert_eq!(parse_u64(b"12 "), None);
    assert_eq!(parse_u64(b"++1"), None);
    assert_eq!(parse_u64(b"1.5"), None);
}

#[test]
fn numbers_too_large_are_not_read() {
    assert_eq!(parse_u64(b"18446744073709551616"), None);
    assert_eq!(parse_u64(b"99999999999999999999999"), None);
    assert_eq!(parse_u64(b"184467440737095516150"), None);
}

#[test]
fn numbers_are_read_as_the_standard_library_reads_them() {
    let fields: [&str; 10] =
        ["", "0", "+0", "-0", "42", "+42", "0042", "4 2", "18446744073709551615", "18446744073709551616"];
    for field in fields {
        assert_eq!(parse_u64(field.as_bytes()), field.parse::<u64>().ok());
    }
}

#[test]
fn numbers_are_written_in_decimal() {
    assert_eq!(decimal(0), b"0".to_vec());
    assert_eq!(decimal(9), b"9".to_vec());
    assert_eq!(decimal(10), b"10".to_vec());
    assert_eq!(decimal(1000), b"1000".to_vec());
    assert_eq!(decimal(u64::MAX), b"18446744073709551615".to_vec());
}

#[test]
fn decimal_is_appended_to_what_stands_there() {
    let mut out = b"size ".to_vec();
    push_decimal(&mut out, 238974619);
    assert_eq!(out, b"size 238974619".to_vec());
}

#[test]
fn a_number_written_is_read_back() {
    let numbers: [u64; 7] = [0, 1, 9, 10, 99, 12345678901234567890, u64::MAX];
    for n in numbers {
        assert_eq!(parse_u64(&decimal(n)), Some(n));
    }
}

#[test]
fn first_and_last_place_of_a_byte() {
    assert_eq!(index_of(b"a b c", 0, b' '), 1);
    assert_eq!(index_of(b"a b c", 2, b' '), 3);
    assert_eq!(index_of(b"a b c", 4, b' '), 5);
    assert_eq!(index_of(b"", 0, b' '), 0);
    assert_eq!(last_index_of(b"a b c", b' '), Some(3));
    assert_eq!(last_index_of(b"abc", b' '), None);
    assert_eq!(last_index_of(b"", b' '), None);
    assert_eq!(last_index_of(b" ", b' '), Some(0));
}

#[test]
fn prefixes_and_equality() {
    assert!(starts_with(b"ACCEPT\n", b"ACCEPT"));
    assert!(starts_with(b"ACCEPT", b""));
    assert!(!starts_with(b"ACCEP", b"ACCEPT"));
    assert!(!starts_with(b"REJECT", b"ACCEPT"));
    assert!(bytes_eq(b"doc.pdf", b"doc.pdf"));
    assert!(!bytes_eq(b"doc.pdf", b"doc.pdg"));
    assert!(!bytes_eq(b"doc.pdf", b"doc.pd"));
    assert!(bytes_eq(b"", b""));
}

#[test]
fn ranges_are_copied_and_bytes_appended() {
    assert_eq!(copy_range(b"doc.pdf 1000", 0, 7), b"doc.pdf".to_vec());
    assert_eq!(copy_range(b"doc.pdf 1000", 8, 12), b"1000".to_vec());
    assert_eq!(copy_range(b"doc.pdf", 3, 3), Vec::<u8>::new());
    let mut out = b"ab".to_vec();
    push_bytes(&mut out, b"cd");
    push_bytes(&mut out, b"");
    assert_eq!(out, b"abcd".to_vec());
}

#[test]
fn white_space_of_more_than_one_byte_is_trimmed_too() {
    assert_eq!(trim_bytes("\u{a0}FILES 3\u{2003}\u{3000}".as_bytes()), b"FILES 3");
    assert_eq!(trim_bytes("\u{85}\u{1680}x\u{2028}\u{2029}\u{202f}\u{205f}".as_bytes()), b"x");
    assert_eq!(trim_bytes("\u{2000}\u{200a} \u{a0}".as_bytes()), b"");
    assert_eq!(trim_bytes("a\u{a0}b".as_bytes()), "a\u{a0}b".as_bytes());
}

#[test]
fn what_only_looks_like_white_space_stays() {
    // The zero-width space and the word joiner are no white space.
    assert_eq!(trim_bytes("\u{200b}x\u{2060}".as_bytes()), "\u{200b}x\u{2060}".as_bytes());
    // Halves of characters are no white space.
    assert_eq!(trim_bytes(&[0xc2, b'x', 0xc2]), &[0xc2, b'x', 0xc2]);
    assert_eq!(trim_bytes(&[0x85, b'x', 0xa0]), &[0x85, b'x', 0xa0]);
    assert_eq!(trim_bytes(&[0xe2, 0x80, b'x', 0xe2, 0x80]), &[0xe2, 0x80, b'x', 0xe2, 0x80]);
    assert_eq!(trim_bytes(&[0x80, 0x80, b'x', 0x80, 0x80]), &[0x80, 0x80, b'x', 0x80, 0x80]);
    assert_eq!(trim_bytes(&[0xe2, 0x80]), &[0xe2, 0x80]);
    assert_eq!(trim_bytes(&[0xc2]), &[0xc2]);
}

#[test]
fn trimming_agrees_with_the_standard_library() {
    let mut spaces: Vec<char> = Vec::new();
    for code in 0..0x3100u32 {
        if let Some(c) = char::from_u32(code) {
            let text = format!("{}a{}b{}", c, c, c);
            assert_eq!(trim_bytes(text.as_bytes()), text.trim().as_bytes(), "U+{:04X}", code);
            let pair = format!("{} {}x {}{}", c, c, c, c);
            assert_eq!(trim_bytes(pair.as_bytes()), pair.trim().as_bytes(), "U+{:04X}", code);
            if c.is_whitespace() {
                spaces.push(c);
            }
        }
    }
    assert_eq!(spaces.len(), 25);
    for a in &spaces {
        for b in &spaces {
            let text = format!("{}{}x{}{}", a, b, b, a);
            assert_eq!(trim_bytes(text.as_bytes()), b"x");
            let only = format!("{}{}", a, b);
            assert_eq!(trim_bytes(only.as_bytes()), b"");
        }
    }
}

#[test]
fn the_length_of_a_white_space_character() {
    let text = "a \u{a0}\u{3000}b".as_bytes();
    assert_eq!(space_len_at(text, 0), 0);
    assert_eq!(space_len_at(text, 1), 1);
    assert_eq!(space_len_at(text, 2), 2);
    assert_eq!(space_len_at(text, 3), 0);
    assert_eq!(space_len_at(text, 4), 3);
    assert_eq!(space_len_at(text, 7), 0);
    assert_eq!(space_len_at(text, 8), 0);
    assert_eq!(space_len_before(text, 8), 0);
    assert_eq!(space_len_before(text, 7), 3);
    assert_eq!(space_len_before(text, 4), 2);
    assert_eq!(space_len_before(text, 2), 1);
    assert_eq!(space_len_before(text, 1), 0);
    assert_eq!(space_len_before(text, 0), 0);
}
