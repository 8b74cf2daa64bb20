//! Character classes and string-level grammar tests of RFC 2045, RFC 2046 and
//! RFC 7230, shared by the parser and the serializer.

use vstd::prelude::*;

verus! {

/// `ALPHA = %x41-5A / %x61-7A ; A-Z / a-z`
pub open spec fn is_alpha(c: char) -> bool {
    ('A' <= c && c <= 'Z') || ('a' <= c && c <= 'z')
}

/// `DIGIT = %x30-39 ; 0-9`
pub open spec fn is_digit(c: char) -> bool {
    '0' <= c && c <= '9'
}

/// `tchar = "!" / "#" / "$" / "%" / "&" / "'" / "*" / "+" / "-" / "." / "^" /
/// "_" / "`" / "|" / "~" / DIGIT / ALPHA`
pub open spec fn is_tchar(c: char) -> bool {
    c == '!' || c == '#' || c == '$' || c == '%' || c == '&' || c == '\'' || c == '*' || c == '+'
        || c == '-' || c == '.' || c == '^' || c == '_' || c == '`' || c == '|' || c == '~'
        || is_digit(c) || is_alpha(c)
}

/// `bcharsnospace := DIGIT / ALPHA / "'" / "(" / ")" / "+" / "_" / "," / "-" /
/// "." / "/" / ":" / "=" / "?"`
pub open spec fn is_bcharsnospace(c: char) -> bool {
    is_digit(c) || is_alpha(c) || c == '\'' || c == '(' || c == ')' || c == '+' || c == '_' || c
        == ',' || c == '-' || c == '.' || c == '/' || c == ':' || c == '=' || c == '?'
}

/// `bchars := bcharsnospace / " "`
pub open spec fn is_bchars(c: char) -> bool {
    is_bcharsnospace(c) || c == ' '
}

/// `token = 1*tchar`
pub open spec fn is_token(s: Seq<char>) -> bool {
    s.len() > 0 && forall|i: int| 0 <= i < s.len() ==> is_tchar(#[trigger] s[i])
}

/// `boundary := 0*69<bchars> bcharsnospace`: one to seventy characters of the
/// boundary alphabet, the last of which is not a space.
pub open spec fn is_boundary(s: Seq<char>) -> bool {
    &&& 1 <= s.len() <= 70
    &&& forall|i: int| 0 <= i < s.len() ==> is_bchars(#[trigger] s[i])
    &&& is_bcharsnospace(s.last())
}

/// HTTP whitespace: space, line feed, carriage return and horizontal tab.
pub open spec fn is_http_whitespace(c: u8) -> bool {
    c == 0x20 || c == 0x0a || c == 0x0d || c == 0x09
}

/// Tests whether `c` is an ASCII letter.
pub fn alpha(c: char) -> (r: bool)
    ensures
        r == is_alpha(c),
{
    c >= 'A' && c <= 'Z' || c >= 'a' && c <= 'z'
}

/// Tests whether `c` is an ASCII digit.
pub fn digit(c: char) -> (r: bool)
    ensures
        r == is_digit(c),
{
    c >= '0' && c <= '9'
}

/// Tests whether `c` may occur in a token.
pub fn tchar(c: char) -> (r: bool)
    ensures
        r == is_tchar(c),
{
    c == '!' || c == '#' || c == '$' || c == '%' || c == '&' || c == '\'' || c == '*' || c == '+'
        || c == '-' || c == '.' || c == '^' || c == '_' || c == '`' || c == '|' || c == '~'
        || digit(c) || alpha(c)
}

/// Tests whether `c` may occur anywhere in a boundary, its end included.
pub fn bcharsnospace(c: char) -> (r: bool)
    ensures
        r == is_bcharsnospace(c),
{
    digit(c) || alpha(c) || c == '\'' || c == '(' || c == ')' || c == '+' || c == '_' || c == ','
        || c == '-' || c == '.' || c == '/' || c == ':' || c == '=' || c == '?'
}

/// Tests whether `c` may occur in a boundary before its last character.
pub fn bchars(c: char) -> (r: bool)
    ensures
        r == is_bchars(c),
{
    bcharsnospace(c) || c == ' '
}

/// Tests whether `s` is a token: not empty, and made of token characters only.
pub fn token(s: &str) -> (r: bool)
    ensures
        r == is_token(s@),
{
    if !s.is_ascii() {
        assert(!is_token(s@)) by {
            let i = choose|i: int| 0 <= i < s@.len() && !('\0' <= #[trigger] s@[i] <= '\u{7f}');
            assert(!is_tchar(s@[i]));
        }
        return false;
    }
    let n = s.unicode_len();
    if n == 0 {
        return false;
    }
    let mut i: usize = 0;
    while i < n
        invariant
            i <= n,
            n == s@.len(),
            s.is_ascii(),
            forall|j: int| 0 <= j < i ==> is_tchar(#[trigger] s@[j]),
        decreases n - i,
    {
        let b = s.get_ascii(i);
        if !tchar(b as char) {
            assert(!is_tchar(s@[i as int]));
            return false;
        }
        i += 1;
    }
    true
}

/// Tests whether `s` is a multipart boundary.
pub fn boundary(s: &str) -> (r: bool)
    ensures
        r == is_boundary(s@),
{
    if !s.is_ascii() {
        assert(!is_boundary(s@)) by {
            let i = choose|i: int| 0 <= i < s@.len() && !('\0' <= #[trigger] s@[i] <= '\u{7f}');
            assert(!is_bchars(s@[i]));
        }
        return false;
    }
    let n = s.unicode_len();
    if n == 0 || n > 70 {
        return false;
    }
    let mut i: usize = 0;
    while i < n
        invariant
            i <= n,
            n == s@.len(),
            s.is_ascii(),
            forall|j: int| 0 <= j < i ==> is_bchars(#[trigger] s@[j]),
        decreases n - i,
    {
        let b = s.get_ascii(i);
        if !bchars(b as char) {
            assert(!is_bchars(s@[i as int]));
            return false;
        }
        i += 1;
    }
    bcharsnospace(s.get_ascii(n - 1) as char)
}

/// Tests whether `c` is HTTP whitespace.
pub fn is_whitespace(c: u8) -> (r: bool)
    ensures
        r == is_http_whitespace(c),
{
    c == 0x20 || c == 0x0a || c == 0x0d || c == 0x09
}

/// Tests whether position `s` lies past the last byte of `sequence`.
pub fn is_undefined(sequence: &[u8], s: usize) -> (r: bool)
    ensures
        r == (sequence@.len() <= s),
{
    sequence.len() <= s
}

} // verus!
