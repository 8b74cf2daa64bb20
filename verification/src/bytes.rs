//! Small functions on bytes and byte strings: ASCII lower-casing, trimming,
//! comparison, and the decoding of percent escapes.

use vstd::prelude::*;
use crate::grammar::is_http_whitespace;
use crate::grammar::is_whitespace;

verus! {

/// `*`
pub const STAR: u8 = 0x2a;

/// `+`
pub const PLUS: u8 = 0x2b;

/// `.`
pub const DOT: u8 = 0x2e;

/// `/`
pub const SLASH: u8 = 0x2f;

/// `;`
pub const SEMICOLON: u8 = 0x3b;

/// `=`
pub const EQUALS: u8 = 0x3d;

/// `"`
pub const QUOTE: u8 = 0x22;

/// `\`
pub const BACKSLASH: u8 = 0x5c;

/// `'`
pub const APOSTROPHE: u8 = 0x27;

/// `%`
pub const PERCENT: u8 = 0x25;

/// The lower-case form of an ASCII capital letter; any other byte is kept.
pub open spec fn lower(c: u8) -> u8 {
    if 0x41 <= c <= 0x5a {
        (c + 0x20) as u8
    } else {
        c
    }
}

/// `s` with each byte in its lower-case form.
pub open spec fn lower_all(s: Seq<u8>) -> Seq<u8> {
    Seq::new(s.len(), |i: int| lower(s[i]))
}

/// The lower-case form of `c`.
pub fn to_lower(c: u8) -> (r: u8)
    ensures
        r == lower(c),
{
    if 0x41 <= c && c <= 0x5a {
        c + 0x20
    } else {
        c
    }
}

/// The first position at or after `i` that holds the byte `c`, or the end of
/// `s`.
pub open spec fn find_byte(s: Seq<u8>, c: u8, i: int) -> int
    decreases s.len() - i,
{
    if 0 <= i < s.len() && s[i] != c {
        find_byte(s, c, i + 1)
    } else {
        i
    }
}

/// The last position before `n` that holds the byte `c`, or -1 if there is
/// none.
pub open spec fn last_byte(s: Seq<u8>, c: u8, n: int) -> int
    decreases n,
{
    if n <= 0 {
        -1
    } else if n <= s.len() && s[n - 1] == c {
        n - 1
    } else {
        last_byte(s, c, n - 1)
    }
}

/// `find_byte` moves forward only, stops at the end, and passes no `c`.
pub proof fn lemma_find_byte(s: Seq<u8>, c: u8, i: int)
    requires
        0 <= i <= s.len(),
    ensures
        i <= find_byte(s, c, i) <= s.len(),
        forall|j: int| i <= j < find_byte(s, c, i) ==> #[trigger] s[j] != c,
        find_byte(s, c, i) < s.len() ==> s[find_byte(s, c, i)] == c,
    decreases s.len() - i,
{
    if i < s.len() && s[i] != c {
        lemma_find_byte(s, c, i + 1);
    }
}

/// A position with no `c` before it, which holds `c` or is the end, is where
/// `find_byte` stops.
pub proof fn lemma_find_byte_is(s: Seq<u8>, c: u8, i: int, q: int)
    requires
        0 <= i <= q <= s.len(),
        forall|j: int| i <= j < q ==> #[trigger] s[j] != c,
        q < s.len() ==> s[q] == c,
    ensures
        find_byte(s, c, i) == q,
    decreases q - i,
{
    if i < q {
        lemma_find_byte_is(s, c, i + 1, q);
    }
}

/// `last_byte` stops at a `c` with no `c` behind it, or finds none at all.
pub proof fn lemma_last_byte(s: Seq<u8>, c: u8, n: int)
    requires
        0 <= n <= s.len(),
    ensures
        -1 <= last_byte(s, c, n) < n,
        forall|j: int| last_byte(s, c, n) < j < n ==> #[trigger] s[j] != c,
        last_byte(s, c, n) >= 0 ==> s[last_byte(s, c, n)] == c,
    decreases n,
{
    if n > 0 && s[n - 1] != c {
        lemma_last_byte(s, c, n - 1);
    }
}

/// The first position at or after `from` that holds the byte `c`, or the
/// length of `bytes`.
pub fn find_first(bytes: &[u8], c: u8, from: usize) -> (r: usize)
    requires
        from <= bytes@.len(),
    ensures
        r == find_byte(bytes@, c, from as int),
        from <= r <= bytes@.len(),
{
    let n = bytes.len();
    let mut i = from;
    while i < n && bytes[i] != c
        invariant
            from <= i <= n,
            n == bytes@.len(),
            find_byte(bytes@, c, i as int) == find_byte(bytes@, c, from as int),
        decreases n - i,
    {
        i += 1;
    }
    i
}

/// The last position that holds the byte `c`, if there is one.
pub fn find_last(bytes: &[u8], c: u8) -> (r: Option<usize>)
    ensures
        match r {
            Some(at) => at == last_byte(bytes@, c, bytes@.len() as int),
            None => last_byte(bytes@, c, bytes@.len() as int) == -1,
        },
{
    let n = bytes.len();
    let mut i = n;
    while i > 0 && bytes[i - 1] != c
        invariant
            i <= n,
            n == bytes@.len(),
            last_byte(bytes@, c, i as int) == last_byte(bytes@, c, n as int),
        decreases i,
    {
        i -= 1;
    }
    if i > 0 {
        Some(i - 1)
    } else {
        None
    }
}

/// The first position at or after `i` that holds no whitespace, or the end of
/// `s`.
pub open spec fn skip_whitespace(s: Seq<u8>, i: int) -> int
    decreases s.len() - i,
{
    if 0 <= i < s.len() && is_http_whitespace(s[i]) {
        skip_whitespace(s, i + 1)
    } else {
        i
    }
}

/// The position just after the last byte of `s` that is no whitespace, or 0
/// if there is none. `n` bounds the search from above.
pub open spec fn trim_end(s: Seq<u8>, n: int) -> int
    decreases n,
{
    if 0 < n <= s.len() && is_http_whitespace(s[n - 1]) {
        trim_end(s, n - 1)
    } else {
        n
    }
}

/// `s` without the whitespace at its two ends.
pub open spec fn trimmed(s: Seq<u8>) -> Seq<u8> {
    let from = skip_whitespace(s, 0);
    let to = trim_end(s, s.len() as int);
    if from <= to {
        s.subrange(from, to)
    } else {
        Seq::empty()
    }
}

/// `skip_whitespace` moves forward only, and not past the end.
pub proof fn lemma_skip_whitespace_bounds(s: Seq<u8>, i: int)
    requires
        0 <= i <= s.len(),
    ensures
        i <= skip_whitespace(s, i) <= s.len(),
        forall|j: int| i <= j < skip_whitespace(s, i) ==> is_http_whitespace(#[trigger] s[j]),
        skip_whitespace(s, i) < s.len() ==> !is_http_whitespace(s[skip_whitespace(s, i)]),
    decreases s.len() - i,
{
    if i < s.len() && is_http_whitespace(s[i]) {
        lemma_skip_whitespace_bounds(s, i + 1);
    }
}

/// A position with only whitespace before it, which holds no whitespace or is
/// the end, is where `skip_whitespace` stops.
pub proof fn lemma_skip_whitespace_is(s: Seq<u8>, i: int, q: int)
    requires
        0 <= i <= q <= s.len(),
        forall|j: int| i <= j < q ==> is_http_whitespace(#[trigger] s[j]),
        q < s.len() ==> !is_http_whitespace(s[q]),
    ensures
        skip_whitespace(s, i) == q,
    decreases q - i,
{
    if i < q {
        lemma_skip_whitespace_is(s, i + 1, q);
    }
}

/// Bytes that neither start nor end with whitespace are trimmed already.
pub proof fn lemma_trimmed_is(s: Seq<u8>)
    requires
        s.len() > 0,
        !is_http_whitespace(s[0]),
        !is_http_whitespace(s.last()),
    ensures
        trimmed(s) == s,
{
    assert(s.subrange(0, s.len() as int) =~= s);
}

/// Removes the whitespace at the two ends of `bytes`.
pub fn trim(bytes: &[u8]) -> (r: &[u8])
    ensures
        r@ == trimmed(bytes@),
{
    let n = bytes.len();
    let mut from: usize = 0;
    while from < n && is_whitespace(bytes[from])
        invariant
            from <= n,
            n == bytes@.len(),
            skip_whitespace(bytes@, from as int) == skip_whitespace(bytes@, 0),
        decreases n - from,
    {
        from += 1;
    }
    let mut to: usize = n;
    while to > 0 && is_whitespace(bytes[to - 1])
        invariant
            to <= n,
            n == bytes@.len(),
            trim_end(bytes@, to as int) == trim_end(bytes@, n as int),
        decreases to,
    {
        to -= 1;
    }
    if from <= to {
        vstd::slice::slice_subrange(bytes, from, to)
    } else {
        vstd::slice::slice_subrange(bytes, 0, 0)
    }
}

/// Tests whether two byte strings hold the same bytes.
pub fn bytes_equal(a: &[u8], b: &[u8]) -> (r: bool)
    ensures
        r == (a@ == b@),
{
    if a.len() != b.len() {
        return false;
    }
    let n = a.len();
    let mut i: usize = 0;
    while i < n
        invariant
            i <= n,
            n == a@.len(),
            n == b@.len(),
            forall|j: int| 0 <= j < i ==> a@[j] == b@[j],
        decreases n - i,
    {
        if a[i] != b[i] {
            return false;
        }
        i += 1;
    }
    assert(a@ =~= b@);
    true
}

/// The value of a hexadecimal digit, if `c` is one.
pub open spec fn hex_value(c: u8) -> Option<u8> {
    if 0x30 <= c <= 0x39 {
        Some((c - 0x30) as u8)
    } else if 0x41 <= c <= 0x46 {
        Some((c - 0x41 + 10) as u8)
    } else if 0x61 <= c <= 0x66 {
        Some((c - 0x61 + 10) as u8)
    } else {
        None
    }
}

/// Tests whether a percent escape, `%` and two hexadecimal digits, starts at
/// position `i` of `s`.
pub open spec fn escape_at(s: Seq<u8>, i: int) -> bool {
    &&& 0 <= i
    &&& i + 2 < s.len()
    &&& s[i] == PERCENT
    &&& hex_value(s[i + 1]) is Some
    &&& hex_value(s[i + 2]) is Some
}

/// The bytes of `s` from position `i` on with each percent escape replaced by
/// the byte it stands for. A `%` that starts no escape is kept as it is.
pub open spec fn percent_decoded_from(s: Seq<u8>, i: int) -> Seq<u8>
    decreases s.len() - i,
{
    if i < 0 || i >= s.len() {
        Seq::empty()
    } else if escape_at(s, i) {
        seq![(hex_value(s[i + 1])->0 * 16 + hex_value(s[i + 2])->0) as u8] + percent_decoded_from(
            s,
            i + 3,
        )
    } else {
        seq![s[i]] + percent_decoded_from(s, i + 1)
    }
}

/// `s` with each percent escape replaced by the byte it stands for.
pub open spec fn percent_decoded(s: Seq<u8>) -> Seq<u8> {
    percent_decoded_from(s, 0)
}

/// Decodes one hexadecimal digit.
pub fn from_hex(c: u8) -> (r: Option<u8>)
    ensures
        r == hex_value(c),
{
    if 0x30 <= c && c <= 0x39 {
        Some(c - 0x30)
    } else if 0x41 <= c && c <= 0x46 {
        Some(c - 0x41 + 10)
    } else if 0x61 <= c && c <= 0x66 {
        Some(c - 0x61 + 10)
    } else {
        None
    }
}

/// Replaces each percent escape in `input` by the byte it stands for.
pub fn percent_decode(input: &[u8]) -> (r: Vec<u8>)
    ensures
        r@ == percent_decoded(input@),
{
    let n = input.len();
    let mut output: Vec<u8> = Vec::new();
    let mut i: usize = 0;
    while i < n
        invariant
            i <= n,
            n == input@.len(),
            output@ + percent_decoded_from(input@, i as int) == percent_decoded(input@),
        decreases n - i,
    {
        let c = input[i];
        let ghost before = output@;
        if c == PERCENT && n - i > 2 {
            let high = from_hex(input[i + 1]);
            let low = from_hex(input[i + 2]);
            if high.is_some() && low.is_some() {
                let byte: u8 = high.unwrap() * 16 + low.unwrap();
                output.push(byte);
                assert(output@ + percent_decoded_from(input@, i + 3) =~= before
                    + percent_decoded_from(input@, i as int));
                i += 3;
                continue ;
            }
        }
        output.push(c);
        assert(output@ + percent_decoded_from(input@, i + 1) =~= before + percent_decoded_from(
            input@,
            i as int,
        ));
        i += 1;
    }
    assert(output@ + Seq::<u8>::empty() =~= output@);
    output
}

/// Tests whether `a` comes before `b` in the lexicographic order of bytes,
/// looking only at the bytes from position `i` on.
pub open spec fn before_from(a: Seq<u8>, b: Seq<u8>, i: int) -> bool
    decreases a.len() - i,
{
    if i < 0 || i >= b.len() {
        false
    } else if i >= a.len() {
        true
    } else if a[i] != b[i] {
        a[i] < b[i]
    } else {
        before_from(a, b, i + 1)
    }
}

/// Tests whether `a` comes before `b` in the lexicographic order of bytes.
pub open spec fn bytes_before(a: Seq<u8>, b: Seq<u8>) -> bool {
    before_from(a, b, 0)
}

/// No byte string comes before itself.
pub proof fn lemma_before_irreflexive(a: Seq<u8>, i: int)
    requires
        0 <= i,
    ensures
        !before_from(a, a, i),
    decreases a.len() - i,
{
    if i < a.len() {
        lemma_before_irreflexive(a, i + 1);
    }
}

/// The order is transitive.
pub proof fn lemma_before_transitive(a: Seq<u8>, b: Seq<u8>, c: Seq<u8>, i: int)
    requires
        0 <= i,
        before_from(a, b, i),
        before_from(b, c, i),
    ensures
        before_from(a, c, i),
    decreases a.len() - i,
{
    if i < a.len() && i < b.len() && i < c.len() && a[i] == b[i] && b[i] == c[i] {
        lemma_before_transitive(a, b, c, i + 1);
    }
}

/// Of two different byte strings that agree before position `i`, one comes
/// before the other.
pub proof fn lemma_before_total(a: Seq<u8>, b: Seq<u8>, i: int)
    requires
        0 <= i,
        i <= a.len(),
        i <= b.len(),
        a.subrange(0, i) == b.subrange(0, i),
        a != b,
    ensures
        before_from(a, b, i) || before_from(b, a, i),
    decreases a.len() - i,
{
    if i < a.len() && i < b.len() {
        if a[i] == b[i] {
            assert(a.subrange(0, i + 1) =~= a.subrange(0, i).push(a[i]));
            assert(b.subrange(0, i + 1) =~= b.subrange(0, i).push(b[i]));
            lemma_before_total(a, b, i + 1);
        }
    } else if i == a.len() && i == b.len() {
        assert(a =~= a.subrange(0, i));
        assert(b =~= b.subrange(0, i));
    }
}

/// Tests whether `a` comes before `b` in the lexicographic order of bytes.
pub fn bytes_less(a: &[u8], b: &[u8]) -> (r: bool)
    ensures
        r == bytes_before(a@, b@),
{
    let n = a.len();
    let m = b.len();
    let mut i: usize = 0;
    while i < n && i < m && a[i] == b[i]
        invariant
            i <= n,
            i <= m,
            n == a@.len(),
            m == b@.len(),
            before_from(a@, b@, i as int) == bytes_before(a@, b@),
        decreases n - i,
    {
        i += 1;
    }
    if i >= m {
        false
    } else if i >= n {
        true
    } else {
        a[i] < b[i]
    }
}

} // verus!
