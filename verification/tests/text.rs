use calisto::number::{
    decimal_of, decimal_of_wide, hex16, hex_of, parse_i32, parse_i64, parse_unsigned, parse_usize,
    signed_decimal_of,
};
use calisto::path::{file_name, is_under, join_path, parent, relate_paths, Rel};
use calisto::text::{chars_of, is_whitespace, join, lines, split, string_of, trim};
use calisto::utf8::{text_of, utf8_bytes};

#[test]
fn whitespace_is_that_of_unicode() {
    for n in 0..0x11_0000u32 {
        if let Some(c) = char::from_u32(n) {
            assert_eq!(is_whitespace(c), c.is_whitespace(), "{n:x}");
        }
    }
}

#[test]
fn texts_are_cut() {
    for s in ["", "a", " a b ", "a\r\nb\n", "\n", "a\n\nb", "\u{2003}x\u{a0}", "a\rb\r"] {
        let c = chars_of(s);
        assert_eq!(string_of(&c), s);
        assert_eq!(string_of(trim(&c)), s.trim());
        let found: Vec<String> = lines(&c).iter().map(|l| string_of(l)).collect();
        let expected: Vec<String> = s.lines().map(|l| l.to_string()).collect();
        assert_eq!(found, expected);
        let parts: Vec<String> = split(&c, 'a').iter().map(|l| string_of(l)).collect();
        let expected: Vec<String> = s.split('a').map(|l| l.to_string()).collect();
        assert_eq!(parts, expected);
    }
    assert_eq!(join(&vec!["a".to_string(), "b".to_string()], "--"), "a--b");
    assert_eq!(join(&vec![], "--"), "");
}

#[test]
fn numbers_are_written_and_read() {
    for n in [0u64, 7, 10, 99, 12345, u64::MAX] {
        assert_eq!(decimal_of(n), n.to_string());
    }
    assert_eq!(decimal_of_wide(u128::MAX), u128::MAX.to_string());
    for n in [0i64, -1, 42, i64::MIN, i64::MAX] {
        assert_eq!(signed_decimal_of(n), n.to_string());
        assert_eq!(parse_i64(&chars_of(&n.to_string())), Some(n));
    }
    for s in ["", "+", "-", "+5", "-5", "--5", "5x", "2147483648", "-2147483648", "007", "٣"] {
        let c = chars_of(s);
        assert_eq!(parse_i32(&c), s.parse::<i32>().ok(), "{s}");
        assert_eq!(parse_usize(&c), s.parse::<usize>().ok(), "{s}");
        assert_eq!(parse_unsigned(&c, u64::MAX), s.parse::<u64>().ok(), "{s}");
        assert_eq!(parse_i64(&c), s.parse::<i64>().ok(), "{s}");
    }
    assert_eq!(hex16(0xabc), "0000000000000abc");
    assert_eq!(hex_of(&[0, 0x1f, 0xff]), "001fff");
}

#[test]
fn bytes_and_texts() {
    assert_eq!(text_of("olá".as_bytes()), "olá");
    assert_eq!(text_of(b"a\xffb"), "a\u{fffd}b");
    assert_eq!(utf8_bytes("é"), vec![0xc3, 0xa9]);
}

#[test]
fn paths_are_those_of_the_system() {
    let all = [
        "", "/", "a", "/a", "a/b", "/a/b", "a/", "a//b", "./a", "a/.", "a/./b", "..", "a/..",
        "//a", "a/b/", ".", "/a/b/../c",
    ];
    for p in all {
        let path = std::path::Path::new(p);
        let expected = path.parent().map(|d| d.to_string_lossy().into_owned());
        assert_eq!(parent(p), expected, "{p:?}");
        let expected = path.file_name().map(|d| d.to_string_lossy().into_owned());
        assert_eq!(file_name(p), expected, "{p:?}");
        for q in all {
            let other = std::path::Path::new(q);
            assert_eq!(join_path(p, q), path.join(other).to_string_lossy(), "{p:?} {q:?}");
            assert_eq!(is_under(p, q), path.starts_with(other), "{p:?} {q:?}");
            let rel = relate_paths(p, q);
            assert_eq!(rel == Rel::Before, path < other, "{p:?} {q:?}");
            assert_eq!(rel == Rel::Same, path == other, "{p:?} {q:?}");
        }
    }
}
