use git_objects::bytes::{
    append_bytes, bytes_le, find_byte, has_prefix, push_ascii, push_decimal, same_bytes,
};

#[test]
fn append_bytes_adds_at_the_end() {
    let mut buf = vec![1u8, 2];
    append_bytes(&mut buf, &[3, 4, 5]);
    assert_eq!(buf, vec![1, 2, 3, 4, 5]);
    append_bytes(&mut buf, &[]);
    assert_eq!(buf, vec![1, 2, 3, 4, 5]);
}

#[test]
fn push_ascii_writes_one_byte_per_character() {
    let mut buf = Vec::new();
    push_ascii(&mut buf, "tree ");
    assert_eq!(buf, b"tree ".to_vec());
}

#[test]
fn find_byte_gives_the_first_occurrence() {
    let s = b"ab cd ef";
    assert_eq!(find_byte(s, b' ', 0), 2);
    assert_eq!(find_byte(s, b' ', 2), 2);
    assert_eq!(find_byte(s, b' ', 3), 5);
    assert_eq!(find_byte(s, b' ', 6), 8);
    assert_eq!(find_byte(s, b'z', 0), 8);
    assert_eq!(find_byte(s, b'a', 8), 8);
    assert_eq!(find_byte(b"", 0, 0), 0);
}

#[test]
fn push_decimal_writes_digits_without_leading_zeros() {
    let cases: Vec<(usize, &str)> = vec![
        (0, "0"),
        (7, "7"),
        (9, "9"),
        (10, "10"),
        (12, "12"),
        (100, "100"),
        (12345, "12345"),
        (4294967295, "4294967295"),
    ];
    for (n, text) in cases {
        let mut buf = vec![b'x'];
        push_decimal(&mut buf, n);
        assert_eq!(buf, format!("x{}", text).into_bytes());
    }
}

#[test]
fn push_decimal_agrees_with_the_standard_formatting() {
    let mut n: usize = 1;
    while n < usize::MAX / 7 {
        let mut buf = Vec::new();
        push_decimal(&mut buf, n);
        assert_eq!(buf, format!("{}", n).into_bytes());
        n = n * 7 + 3;
    }
    let mut buf = Vec::new();
    push_decimal(&mut buf, usize::MAX);
    assert_eq!(buf, format!("{}", usize::MAX).into_bytes());
}

#[test]
fn bytes_le_is_the_byte_order() {
    assert!(bytes_le(b"a", b"ab"));
    assert!(bytes_le(b"ab", b"b"));
    assert!(bytes_le(b"a", b"b"));
    assert!(!bytes_le(b"ab", b"a"));
    assert!(!bytes_le(b"b", b"ab"));
    assert!(bytes_le(b"", b""));
    assert!(bytes_le(b"", b"a"));
    assert!(!bytes_le(b"a", b""));
    assert!(bytes_le(b"same", b"same"));
    // Upper case comes before lower case, and bytes above 127 come last.
    assert!(bytes_le(b"Z", b"a"));
    assert!(bytes_le(b"z", &[0xc3, 0xa9]));
    assert!(!bytes_le(&[0xff], &[0x7f]));
}

#[test]
fn bytes_le_agrees_with_slice_ordering() {
    let samples: Vec<&[u8]> = vec![b"", b"a", b"ab", b"abc", b"b", b"ba", b"\x00", b"\xff", b"a\x00"];
    for x in &samples {
        for y in &samples {
            assert_eq!(bytes_le(x, y), x <= y);
        }
    }
}

#[test]
fn has_prefix_compares_the_start() {
    assert!(has_prefix(b"tree 12", b"tree "));
    assert!(has_prefix(b"tree ", b"tree "));
    assert!(has_prefix(b"anything", b""));
    assert!(!has_prefix(b"tree", b"tree "));
    assert!(!has_prefix(b"blob 12", b"tree "));
}

#[test]
fn same_bytes_compares_everything() {
    assert!(same_bytes(b".git", b".git"));
    assert!(same_bytes(b"", b""));
    assert!(!same_bytes(b".git", b".gitx"));
    assert!(!same_bytes(b".git", b".giT"));
}
