use media_types::bytes::{bytes_equal, bytes_less, find_first, find_last, from_hex, percent_decode, to_lower, trim};
use media_types::grammar::{alpha, bchars, bcharsnospace, boundary, digit, is_undefined, is_whitespace, tchar, token};
use media_types::text::{split_text, text_equal, text_less, to_text};

#[test]
fn test_alpha_and_digit() {
    assert!(alpha('A') && alpha('Z') && alpha('a') && alpha('z') && alpha('m'));
    assert!(!alpha('@') && !alpha('[') && !alpha('`') && !alpha('{') && !alpha('0') && !alpha('é'));
    assert!(digit('0') && digit('9') && digit('5'));
    assert!(!digit('/') && !digit(':') && !digit('a'));
}

#[test]
fn test_tchar() {
    for c in "!#$%&'*+-.^_`|~09azAZ".chars() {
        assert!(tchar(c), "{}", c);
    }
    for c in " \"(),/:;<=>?@[\\]{}\t\u{7f}é".chars() {
        assert!(!tchar(c), "{}", c);
    }
}

#[test]
fn test_bchars() {
    for c in "09azAZ'()+_,-./:=?".chars() {
        assert!(bcharsnospace(c), "{}", c);
        assert!(bchars(c), "{}", c);
    }
    assert!(bchars(' '));
    assert!(!bcharsnospace(' '));
    for c in "\"*;!#\t\\é".chars() {
        assert!(!bchars(c), "{}", c);
        assert!(!bcharsnospace(c), "{}", c);
    }
}

#[test]
fn test_token() {
    assert!(token("US-ASCII"));
    assert!(token("mp4a.E1"));
    assert!(token("1"));
    assert!(!token(""));
    assert!(!token("foo ,"));
    assert!(!token("a\"b"));
    assert!(!token("a;b"));
    assert!(!token("caf\u{e9}"));
}

#[test]
fn test_boundary_grammar() {
    assert!(boundary("simple boundary"));
    assert!(boundary("---- next message ----"));
    assert!(boundary("  foo"));
    assert!(boundary("a"));
    assert!(!boundary(""));
    assert!(!boundary("foo "));
    assert!(!boundary(" "));
    assert!(!boundary("foo\"bar"));
    assert!(!boundary("caf\u{e9}"));
    let seventy = "a".repeat(70);
    assert!(boundary(&seventy));
    let seventy_one = "a".repeat(71);
    assert!(!boundary(&seventy_one));
    let with_spaces = format!("{}b", " ".repeat(69));
    assert!(boundary(&with_spaces));
}

#[test]
fn test_whitespace_and_undefined() {
    assert!(is_whitespace(b' ') && is_whitespace(b'\n') && is_whitespace(b'\r') && is_whitespace(b'\t'));
    assert!(!is_whitespace(0x0b) && !is_whitespace(0x0c) && !is_whitespace(b'a') && !is_whitespace(0));
    assert!(is_undefined(b"", 0));
    assert!(is_undefined(b"ab", 2));
    assert!(is_undefined(b"ab", 7));
    assert!(!is_undefined(b"ab", 1));
}

#[test]
fn test_to_lower() {
    assert_eq!(to_lower(b'A'), b'a');
    assert_eq!(to_lower(b'Z'), b'z');
    assert_eq!(to_lower(b'a'), b'a');
    assert_eq!(to_lower(b'@'), b'@');
    assert_eq!(to_lower(b'['), b'[');
    assert_eq!(to_lower(0xc9), 0xc9);
}

#[test]
fn test_trim() {
    assert_eq!(trim(b"  text/plain \r\n"), b"text/plain");
    assert_eq!(trim(b"text/plain"), b"text/plain");
    assert_eq!(trim(b" \t "), b"");
    assert_eq!(trim(b""), b"");
    assert_eq!(trim(b"a b"), b"a b");
    assert_eq!(trim(b"\x0ba\x0b"), b"\x0ba\x0b");
}

#[test]
fn test_bytes_order() {
    assert!(bytes_equal(b"abc", b"abc"));
    assert!(!bytes_equal(b"abc", b"abd"));
    assert!(!bytes_equal(b"abc", b"ab"));
    assert!(bytes_equal(b"", b""));
    assert!(bytes_less(b"a", b"b"));
    assert!(bytes_less(b"", b"a"));
    assert!(bytes_less(b"ab", b"abc"));
    assert!(bytes_less(b"abc", b"abd"));
    assert!(bytes_less(b"Z", b"a"));
    assert!(!bytes_less(b"b", b"a"));
    assert!(!bytes_less(b"abc", b"abc"));
    assert!(!bytes_less(b"abc", b"ab"));
    assert!(!bytes_less(b"", b""));
    assert!(text_less("boundary", "charset"));
    assert!(text_less("charset", "z"));
    assert!(!text_less("z", "charset"));
    assert!(text_equal("caf\u{e9}", "caf\u{e9}"));
    assert!(!text_equal("cafe", "caf\u{e9}"));
}

#[test]
fn test_find() {
    assert_eq!(find_first(b"a.b.c", b'.', 0), 1);
    assert_eq!(find_first(b"a.b.c", b'.', 2), 3);
    assert_eq!(find_first(b"a.b.c", b'+', 0), 5);
    assert_eq!(find_first(b"a.b.c", b'.', 5), 5);
    assert_eq!(find_last(b"a+b+c", b'+'), Some(3));
    assert_eq!(find_last(b"+ab", b'+'), Some(0));
    assert_eq!(find_last(b"abc", b'+'), None);
    assert_eq!(find_last(b"", b'+'), None);
}

#[test]
fn test_hex() {
    assert_eq!(from_hex(b'0'), Some(0));
    assert_eq!(from_hex(b'9'), Some(9));
    assert_eq!(from_hex(b'a'), Some(10));
    assert_eq!(from_hex(b'f'), Some(15));
    assert_eq!(from_hex(b'A'), Some(10));
    assert_eq!(from_hex(b'F'), Some(15));
    assert_eq!(from_hex(b'g'), None);
    assert_eq!(from_hex(b'G'), None);
    assert_eq!(from_hex(b'/'), None);
    assert_eq!(from_hex(b':'), None);
    assert_eq!(from_hex(b'@'), None);
    assert_eq!(from_hex(b'`'), None);
}

#[test]
fn test_percent_decode() {
    assert_eq!(percent_decode(b"This%20is%20%2A%2A%2Afun%2A%2A%2A"), b"This is ***fun***");
    assert_eq!(percent_decode(b"fo%2e"), b"fo.");
    assert_eq!(percent_decode(b"%25%20xz, gork"), b"% xz, gork");
    assert_eq!(percent_decode(b""), b"");
    assert_eq!(percent_decode(b"plain"), b"plain");
    assert_eq!(percent_decode(b"%"), b"%");
    assert_eq!(percent_decode(b"%4"), b"%4");
    assert_eq!(percent_decode(b"%zz"), b"%zz");
    assert_eq!(percent_decode(b"%4g"), b"%4g");
    assert_eq!(percent_decode(b"%%41"), b"%A");
    assert_eq!(percent_decode(b"%41%"), b"A%");
    assert_eq!(percent_decode(b"%C3%A9"), b"\xc3\xa9");
    assert_eq!(percent_decode(b"%ff"), b"\xff");
    assert_eq!(percent_decode(b"%2541"), b"%41");
}

#[test]
fn test_to_text() {
    assert_eq!(to_text(b"plain"), Ok("plain"));
    assert_eq!(to_text(b"caf\xc3\xa9"), Ok("caf\u{e9}"));
    assert_eq!(to_text(b""), Ok(""));
    let error = to_text(b"ab\xffcd").unwrap_err();
    assert_eq!(error.valid_up_to(), 2);
    assert_eq!(error, std::str::from_utf8(b"ab\xffcd").unwrap_err());
    assert!(to_text(b"\xc3").is_err());
    assert!(to_text(b"\xed\xa0\x80").is_err());
    assert!(to_text(b"\xc0\xaf").is_err());
}

#[test]
fn test_split_text() {
    assert_eq!(split_text("svg+xml", 3), ("svg", "xml"));
    assert_eq!(split_text("+xml", 0), ("", "xml"));
    assert_eq!(split_text("svg+", 3), ("svg", ""));
    assert_eq!(split_text("caf\u{e9}.\u{e9}t\u{e9}", 5), ("caf\u{e9}", "\u{e9}t\u{e9}"));
}
