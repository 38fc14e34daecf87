use chat_server::text::{
    append_bytes, bytes_eq, contains_byte, copy_range, find, is_space_byte, to_bytes, trim, NEWLINE,
};

#[test]
fn the_frame_terminator_is_the_line_feed() {
    assert_eq!(NEWLINE, b'\n');
}

#[test]
fn whitespace_is_space_and_tab_to_carriage_return() {
    for b in [b' ', b'\t', b'\n', 0x0b, 0x0c, b'\r'] {
        assert!(is_space_byte(b));
    }
    for b in [0u8, 8, 14, 31, 33, b'a', b'@', 0x7f, 0xa0, 0xff] {
        assert!(!is_space_byte(b));
    }
}

#[test]
fn trim_removes_whitespace_at_both_ends_only() {
    assert_eq!(trim(b"  a b \t\r\n"), b"a b".to_vec());
    assert_eq!(trim(b"a"), b"a".to_vec());
    assert_eq!(trim(b"\na"), b"a".to_vec());
    assert_eq!(trim(b"a\n"), b"a".to_vec());
    assert_eq!(trim(b"no-space"), b"no-space".to_vec());
}

#[test]
fn trim_of_blank_text_is_empty() {
    assert_eq!(trim(b""), b"".to_vec());
    assert_eq!(trim(b" "), b"".to_vec());
    assert_eq!(trim(b" \t\n\r "), b"".to_vec());
}

#[test]
fn trim_twice_is_trim_once() {
    let inputs: [&[u8]; 5] = [b"  x  ", b"x", b"", b" a  b ", b"\t\t"];
    for s in inputs {
        let once = trim(s);
        assert_eq!(trim(&once), once);
    }
}

#[test]
fn trim_keeps_a_nul_byte() {
    assert_eq!(trim(b"a\0"), b"a\0".to_vec());
}

#[test]
fn find_gives_the_first_index_or_the_length() {
    assert_eq!(find(b"a b c", b' '), 1);
    assert_eq!(find(b" ab", b' '), 0);
    assert_eq!(find(b"abc", b' '), 3);
    assert_eq!(find(b"", b' '), 0);
}

#[test]
fn contains_byte_tells_presence() {
    assert!(contains_byte(b"a\nb", b'\n'));
    assert!(!contains_byte(b"ab", b'\n'));
    assert!(!contains_byte(b"", b'\n'));
}

#[test]
fn bytes_eq_compares_length_and_content() {
    assert!(bytes_eq(b"", b""));
    assert!(bytes_eq(b"abc", b"abc"));
    assert!(!bytes_eq(b"abc", b"abd"));
    assert!(!bytes_eq(b"abc", b"ab"));
    assert!(!bytes_eq(b"ab", b"abc"));
}

#[test]
fn copy_range_copies_the_half_open_range() {
    assert_eq!(copy_range(b"hello", 1, 4), b"ell".to_vec());
    assert_eq!(copy_range(b"hello", 0, 5), b"hello".to_vec());
    assert_eq!(copy_range(b"hello", 2, 2), b"".to_vec());
    assert_eq!(to_bytes(b"hello"), b"hello".to_vec());
}

#[test]
fn append_bytes_extends_at_the_back() {
    let mut v = b"ab".to_vec();
    append_bytes(&mut v, b"cd");
    append_bytes(&mut v, b"");
    assert_eq!(v, b"abcd".to_vec());
}
