use http_server::bytes::{append_bytes, bytes_eq, copy_bytes, find, matches_at, starts_with};
use http_server::decimal::{parse_digits, parse_usize, to_decimal};
use http_server::headers::Headers;
use http_server::text::{is_space_byte, split_fields, split_whitespace, trimmed};
use http_server::utf8::text_from;

#[test]
fn append_bytes_concatenates() {
    let mut v = b"ab".to_vec();
    append_bytes(&mut v, b"cd");
    append_bytes(&mut v, b"");
    assert_eq!(v, b"abcd".to_vec());
    assert_eq!(copy_bytes(b"xyz"), b"xyz".to_vec());
}

#[test]
fn bytes_eq_compares_content() {
    assert!(bytes_eq(b"", b""));
    assert!(bytes_eq(b"abc", b"abc"));
    assert!(!bytes_eq(b"abc", b"abd"));
    assert!(!bytes_eq(b"abc", b"ab"));
    assert!(!bytes_eq(b"", b"a"));
}

#[test]
fn starts_with_checks_the_prefix() {
    assert!(starts_with(b"/echo/x", b"/echo/"));
    assert!(starts_with(b"/echo/", b"/echo/"));
    assert!(starts_with(b"abc", b""));
    assert!(!starts_with(b"/echo", b"/echo/"));
    assert!(!starts_with(b"x/echo/", b"/echo/"));
}

#[test]
fn find_gives_the_first_occurrence() {
    assert_eq!(find(b"a: b: c", b": "), Some(1));
    assert_eq!(find(b"\r\n", b"\r\n"), Some(0));
    assert_eq!(find(b"ab\r\r\ncd\r\n", b"\r\n"), Some(3));
    assert_eq!(find(b"abc", b"c"), Some(2));
    assert_eq!(find(b"abc", b"d"), None);
    assert_eq!(find(b"ab", b"abc"), None);
    assert_eq!(find(b"", b"a"), None);
    assert_eq!(find(b"abc", b""), Some(0));
    assert_eq!(find(b"", b""), Some(0));
    assert!(matches_at(b"abc", b"bc", 1));
    assert!(!matches_at(b"abc", b"bc", 2));
    assert!(!matches_at(b"abc", b"bc", 7));
}

#[test]
fn numbers_are_written_in_decimal() {
    assert_eq!(to_decimal(0), b"0".to_vec());
    assert_eq!(to_decimal(7), b"7".to_vec());
    assert_eq!(to_decimal(10), b"10".to_vec());
    assert_eq!(to_decimal(404), b"404".to_vec());
    assert_eq!(to_decimal(1234567890), b"1234567890".to_vec());
    assert_eq!(to_decimal(usize::MAX), usize::MAX.to_string().into_bytes());
}

#[test]
fn numbers_are_read_from_decimal() {
    assert_eq!(parse_usize(b"0"), Some(0));
    assert_eq!(parse_usize(b"42"), Some(42));
    assert_eq!(parse_usize(b"+42"), Some(42));
    assert_eq!(parse_usize(b"007"), Some(7));
    assert_eq!(parse_usize(usize::MAX.to_string().as_bytes()), Some(usize::MAX));
    assert_eq!(parse_digits(b"42"), Some(42));
}

#[test]
fn what_is_no_number_is_not_read() {
    for s in [&b""[..], b"+", b"-1", b"++1", b"1+", b"4 2", b" 42", b"42 ", b"4a", b"0x1", b"1.0"] {
        assert_eq!(parse_usize(s), None);
    }
    assert_eq!(parse_digits(b"+42"), None);
    assert_eq!(parse_digits(b""), None);
    let too_big = format!("{}0", usize::MAX);
    assert_eq!(parse_usize(too_big.as_bytes()), None);
    let just_over = (usize::MAX as u128 + 1).to_string();
    assert_eq!(parse_usize(just_over.as_bytes()), None);
}

#[test]
fn written_numbers_read_back() {
    for n in [0usize, 1, 9, 10, 11, 99, 100, 65535, 65536, 4294967295, usize::MAX - 1, usize::MAX] {
        assert_eq!(parse_usize(&to_decimal(n)), Some(n));
    }
}

#[test]
fn whitespace_is_the_six_ascii_bytes() {
    for b in 0u8..=255 {
        let expected = matches!(b, b' ' | b'\t' | b'\n' | 0x0b | 0x0c | b'\r');
        assert_eq!(is_space_byte(b), expected);
    }
}

#[test]
fn words_are_split_on_whitespace() {
    assert_eq!(split_whitespace(b""), Vec::<Vec<u8>>::new());
    assert_eq!(split_whitespace(b" \t\r\n"), Vec::<Vec<u8>>::new());
    assert_eq!(split_whitespace(b"one"), vec![b"one".to_vec()]);
    assert_eq!(
        split_whitespace(b"  one two\t\tthree \n"),
        vec![b"one".to_vec(), b"two".to_vec(), b"three".to_vec()]
    );
}

#[test]
fn trimming_removes_whitespace_at_both_ends_only() {
    assert_eq!(trimmed(b""), Vec::<u8>::new());
    assert_eq!(trimmed(b"   "), Vec::<u8>::new());
    assert_eq!(trimmed(b"a"), b"a".to_vec());
    assert_eq!(trimmed(b" \ta b\r\n"), b"a b".to_vec());
    assert_eq!(trimmed(b"a  "), b"a".to_vec());
    assert_eq!(trimmed(b"  a"), b"a".to_vec());
}

#[test]
fn fields_are_split_on_every_separator() {
    assert_eq!(split_fields(b"", b','), vec![Vec::<u8>::new()]);
    assert_eq!(split_fields(b"a", b','), vec![b"a".to_vec()]);
    assert_eq!(split_fields(b"a,b", b','), vec![b"a".to_vec(), b"b".to_vec()]);
    assert_eq!(
        split_fields(b",a,,b,", b','),
        vec![Vec::new(), b"a".to_vec(), Vec::new(), b"b".to_vec(), Vec::new()]
    );
    assert_eq!(split_fields(b"a/b", b','), vec![b"a/b".to_vec()]);
}

#[test]
fn headers_keep_one_entry_per_name() {
    let mut h = Headers::new();
    assert_eq!(h.len(), 0);
    assert_eq!(h.get("A"), None);
    assert!(!h.contains("A"));
    assert_eq!(h.index_of("A"), None);
    h.insert("A", "1");
    h.insert("B", "2");
    h.insert("a", "3");
    h.insert("A", "4");
    assert_eq!(h.len(), 3);
    assert_eq!(h.index_of("A"), Some(0));
    assert_eq!(h.index_of("B"), Some(1));
    assert_eq!(h.index_of("a"), Some(2));
    assert_eq!(h.get("A"), Some(&"4".to_string()));
    assert_eq!(h.get("B"), Some(&"2".to_string()));
    assert_eq!(h.get("a"), Some(&"3".to_string()));
    assert_eq!(h.name_at(2), &"a".to_string());
    assert_eq!(h.value_at(2), &"3".to_string());
    assert!(h.contains("B"));
    assert!(!h.contains("C"));
    let copy = h.clone();
    assert_eq!(copy.len(), 3);
    assert_eq!(copy.get("A"), Some(&"4".to_string()));
    assert_eq!(copy.name_at(1), &"B".to_string());
}

#[test]
fn bytes_become_text_only_where_they_are_utf8() {
    assert_eq!(text_from(b"plain"), Some("plain".to_string()));
    assert_eq!(text_from(b""), Some(String::new()));
    assert_eq!(text_from("gr\u{fc}n".as_bytes()), Some("gr\u{fc}n".to_string()));
    assert_eq!(text_from(b"\xff"), None);
    assert_eq!(text_from(b"ab\xc3"), None);
    assert_eq!(text_from(b"\xc0\x80"), None);
    assert_eq!(text_from(b"\xed\xa0\x80"), None);
}
