//! The tokenizer: one pass over the bytes of a media type, from left to right
//! and without backtracking, that yields the type token, the subtype token
//! and the raw parameters.
//!
//! A position past the last byte holds no byte: it is neither whitespace nor
//! any of the delimiters. Each scan below ends there at the latest.

use vstd::prelude::*;
use crate::bytes::lower;
use crate::bytes::lower_all;
use crate::bytes::skip_whitespace;
use crate::bytes::lemma_skip_whitespace_bounds;
use crate::bytes::to_lower;
use crate::bytes::bytes_equal;
use crate::bytes::find_byte;
use crate::bytes::lemma_find_byte;
use crate::bytes::BACKSLASH;
use crate::bytes::EQUALS;
use crate::bytes::QUOTE;
use crate::bytes::SEMICOLON;
use crate::bytes::SLASH;
use crate::error::Error;
use crate::grammar::is_http_whitespace;
use crate::grammar::is_undefined;
use crate::grammar::is_whitespace;

verus! {

/// A string of bytes.
pub type Bytes = Vec<u8>;

/// The greatest length of a type token, of a subtype token and of a
/// parameter name.
pub const MAX_TOKEN_LEN: usize = 127;

/// Tests whether `c` ends an unquoted run: whitespace or `;`.
pub open spec fn ends_token(c: u8) -> bool {
    is_http_whitespace(c) || c == SEMICOLON
}

/// The first position at or after `i` that holds whitespace or `;`, or the
/// end of `s`.
pub open spec fn token_end(s: Seq<u8>, i: int) -> int
    decreases s.len() - i,
{
    if 0 <= i < s.len() && !ends_token(s[i]) {
        token_end(s, i + 1)
    } else {
        i
    }
}

/// Tests whether `c` ends a run of name bytes: whitespace or `=`.
pub open spec fn ends_name(c: u8) -> bool {
    is_http_whitespace(c) || c == EQUALS
}

/// The first position at or after `i` that holds whitespace or `=`, or the
/// end of `s`.
pub open spec fn name_run_end(s: Seq<u8>, i: int) -> int
    decreases s.len() - i,
{
    if 0 <= i < s.len() && !ends_name(s[i]) {
        name_run_end(s, i + 1)
    } else {
        i
    }
}

/// The position after the quoted string whose first content byte is at `i`:
/// after the closing `"`, or the end of `s` where none closes it. A backslash
/// that is not the last byte takes the byte after it along.
pub open spec fn quoted_end(s: Seq<u8>, i: int) -> int
    decreases s.len() - i,
{
    if i < 0 || i >= s.len() {
        i
    } else if s[i] == QUOTE {
        i + 1
    } else if s[i] == BACKSLASH && i + 1 < s.len() {
        quoted_end(s, i + 2)
    } else {
        quoted_end(s, i + 1)
    }
}

/// The content of the quoted string whose first content byte is at `i`, with
/// each escaping backslash dropped.
pub open spec fn quoted_content(s: Seq<u8>, i: int) -> Seq<u8>
    decreases s.len() - i,
{
    if i < 0 || i >= s.len() || s[i] == QUOTE {
        Seq::empty()
    } else if s[i] == BACKSLASH && i + 1 < s.len() {
        seq![s[i + 1]] + quoted_content(s, i + 2)
    } else {
        seq![s[i]] + quoted_content(s, i + 1)
    }
}

/// `token_end` moves forward only, stops at the end, and passes neither
/// whitespace nor `;`.
pub proof fn lemma_token_end(s: Seq<u8>, i: int)
    requires
        0 <= i <= s.len(),
    ensures
        i <= token_end(s, i) <= s.len(),
        forall|j: int| i <= j < token_end(s, i) ==> !ends_token(#[trigger] s[j]),
        token_end(s, i) < s.len() ==> ends_token(s[token_end(s, i)]),
    decreases s.len() - i,
{
    if i < s.len() && !ends_token(s[i]) {
        lemma_token_end(s, i + 1);
    }
}

/// A position with neither whitespace nor `;` before it, which holds one of
/// them or is the end, is where `token_end` stops.
pub proof fn lemma_token_end_is(s: Seq<u8>, i: int, q: int)
    requires
        0 <= i <= q <= s.len(),
        forall|j: int| i <= j < q ==> !ends_token(#[trigger] s[j]),
        q < s.len() ==> ends_token(s[q]),
    ensures
        token_end(s, i) == q,
    decreases q - i,
{
    if i < q {
        lemma_token_end_is(s, i + 1, q);
    }
}

/// A position with neither whitespace nor `=` before it, which holds one of
/// them or is the end, is where `name_run_end` stops.
pub proof fn lemma_name_run_end_is(s: Seq<u8>, i: int, q: int)
    requires
        0 <= i <= q <= s.len(),
        forall|j: int| i <= j < q ==> !ends_name(#[trigger] s[j]),
        q < s.len() ==> ends_name(s[q]),
    ensures
        name_run_end(s, i) == q,
    decreases q - i,
{
    if i < q {
        lemma_name_run_end_is(s, i + 1, q);
    }
}

/// `name_run_end` moves forward only, stops at the end, and passes neither
/// whitespace nor `=`.
pub proof fn lemma_name_run_end(s: Seq<u8>, i: int)
    requires
        0 <= i <= s.len(),
    ensures
        i <= name_run_end(s, i) <= s.len(),
        forall|j: int| i <= j < name_run_end(s, i) ==> !ends_name(#[trigger] s[j]),
        name_run_end(s, i) < s.len() ==> ends_name(s[name_run_end(s, i)]),
    decreases s.len() - i,
{
    if i < s.len() && !ends_name(s[i]) {
        lemma_name_run_end(s, i + 1);
    }
}

/// A quoted string with neither `"` nor `\` in it ends with the `"` after it,
/// and its content is what stands before that `"`.
pub proof fn lemma_quoted_is(s: Seq<u8>, i: int, q: int)
    requires
        0 <= i <= q < s.len(),
        forall|j: int| i <= j < q ==> (#[trigger] s[j]) != QUOTE && s[j] != BACKSLASH,
        s[q] == QUOTE,
    ensures
        quoted_end(s, i) == q + 1,
        quoted_content(s, i) == s.subrange(i, q),
    decreases q - i,
{
    if i < q {
        lemma_quoted_is(s, i + 1, q);
        assert(seq![s[i]] + s.subrange(i + 1, q) =~= s.subrange(i, q));
    } else {
        assert(s.subrange(i, q) =~= Seq::<u8>::empty());
    }
}

/// `quoted_end` moves forward only and stops at the end.
pub proof fn lemma_quoted_end(s: Seq<u8>, i: int)
    requires
        0 <= i <= s.len(),
    ensures
        i <= quoted_end(s, i) <= s.len(),
    decreases s.len() - i,
{
    if i < s.len() && s[i] != QUOTE {
        if s[i] == BACKSLASH && i + 1 < s.len() {
            lemma_quoted_end(s, i + 2);
        } else {
            lemma_quoted_end(s, i + 1);
        }
    }
}

/// The type token, the subtype token and the position after the subtype, read
/// from position `start` of `s`.
///
/// The type token runs up to the first `/`, which has to be there; the
/// subtype token runs from there up to whitespace, `;` or the end. Both are
/// lower-cased, and neither may be longer than `MAX_TOKEN_LEN`.
pub open spec fn type_portion(s: Seq<u8>, start: int) -> Result<(Seq<u8>, Seq<u8>, int), Error> {
    let slash = find_byte(s, SLASH, start);
    let end = token_end(s, slash + 1);
    if slash >= s.len() || slash - start > MAX_TOKEN_LEN {
        Err(Error::Invalid)
    } else if end - (slash + 1) > MAX_TOKEN_LEN {
        Err(Error::Invalid)
    } else {
        Ok((lower_all(s.subrange(start, slash)), lower_all(s.subrange(slash + 1, end)), end))
    }
}

/// Reads the type and the subtype token at position `*s` of `sequence`.
///
/// On success the cursor `*s` stands after the subtype token. On failure it
/// stays where it was.
pub fn parse_type_portion(sequence: &[u8], s: &mut usize) -> (r: Result<(Bytes, Bytes), Error>)
    ensures
        match type_portion(sequence@, *old(s) as int) {
            Ok((type_, subtype, end)) => {
                &&& r matches Ok((t, u))
                &&& t@ == type_
                &&& u@ == subtype
                &&& *final(s) == end
            },
            Err(e) => r == Err::<(Bytes, Bytes), Error>(e) && *final(s) == *old(s),
        },
{
    let n = sequence.len();
    let start = *s;
    if is_undefined(sequence, start) {
        return Err(Error::Invalid);
    }
    let mut type_: Vec<u8> = Vec::new();
    let mut i = start;
    while i < n && i - start <= MAX_TOKEN_LEN && sequence[i] != SLASH
        invariant
            start <= i <= n,
            n == sequence@.len(),
            i - start <= MAX_TOKEN_LEN + 1,
            find_byte(sequence@, SLASH, i as int) == find_byte(sequence@, SLASH, start as int),
            type_@ == lower_all(sequence@.subrange(start as int, i as int)),
        decreases n - i,
    {
        type_.push(to_lower(sequence[i]));
        i += 1;
        assert(type_@ =~= lower_all(sequence@.subrange(start as int, i as int)));
    }
    proof {
        lemma_find_byte(sequence@, SLASH, i as int);
    }
    if i >= n || i - start > MAX_TOKEN_LEN {
        return Err(Error::Invalid);
    }
    let first = i + 1;
    let mut subtype: Vec<u8> = Vec::new();
    i = first;
    while i < n && i - first <= MAX_TOKEN_LEN && !is_whitespace(sequence[i]) && sequence[i]
        != SEMICOLON
        invariant
            first <= i <= n,
            n == sequence@.len(),
            i - first <= MAX_TOKEN_LEN + 1,
            token_end(sequence@, i as int) == token_end(sequence@, first as int),
            subtype@ == lower_all(sequence@.subrange(first as int, i as int)),
        decreases n - i,
    {
        subtype.push(to_lower(sequence[i]));
        i += 1;
        assert(subtype@ =~= lower_all(sequence@.subrange(first as int, i as int)));
    }
    proof {
        lemma_token_end(sequence@, i as int);
    }
    if i - first > MAX_TOKEN_LEN {
        return Err(Error::Invalid);
    }
    *s = i;
    Ok((type_, subtype))
}

/// The value that starts at position `i` of `s`, and the position after it.
///
/// Where a `"` stands at `i`, the value is the content of the quoted string
/// that it opens. Otherwise the value runs up to whitespace, `;` or the end.
pub open spec fn value_at(s: Seq<u8>, i: int) -> (Seq<u8>, int) {
    if 0 <= i < s.len() && s[i] == QUOTE {
        (quoted_content(s, i + 1), quoted_end(s, i + 1))
    } else if 0 <= i < s.len() {
        (s.subrange(i, token_end(s, i)), token_end(s, i))
    } else {
        (Seq::empty(), i)
    }
}

/// Reads the parameter value at position `*s` of `sequence` and moves the
/// cursor `*s` past it.
pub fn parse_value(sequence: &[u8], s: &mut usize) -> (value: Bytes)
    ensures
        value@ == value_at(sequence@, *old(s) as int).0,
        *final(s) == value_at(sequence@, *old(s) as int).1,
{
    let n = sequence.len();
    let start = *s;
    let mut value: Vec<u8> = Vec::new();
    if is_undefined(sequence, start) {
        return value;
    }
    let mut i = start;
    if sequence[i] == QUOTE {
        i += 1;
        while i < n && sequence[i] != QUOTE
            invariant
                start < i <= n,
                n == sequence@.len(),
                quoted_end(sequence@, i as int) == quoted_end(sequence@, start + 1),
                value@ + quoted_content(sequence@, i as int) == quoted_content(
                    sequence@,
                    start + 1,
                ),
            decreases n - i,
        {
            let ghost before = value@;
            let ghost at = i as int;
            if sequence[i] == BACKSLASH && !is_undefined(sequence, i + 1) {
                i += 1;
            }
            value.push(sequence[i]);
            i += 1;
            assert(value@ + quoted_content(sequence@, i as int) =~= before + quoted_content(
                sequence@,
                at,
            ));
        }
        assert(value@ + Seq::<u8>::empty() =~= value@);
        if i < n {
            i += 1;
        }
    } else {
        while i < n && !is_whitespace(sequence[i]) && sequence[i] != SEMICOLON
            invariant
                start <= i <= n,
                n == sequence@.len(),
                token_end(sequence@, i as int) == token_end(sequence@, start as int),
                value@ == sequence@.subrange(start as int, i as int),
            decreases n - i,
        {
            value.push(sequence[i]);
            i += 1;
            assert(value@ =~= sequence@.subrange(start as int, i as int));
        }
    }
    *s = i;
    value
}

/// The first position at or after `i` that holds a `;` outside a quoted
/// string, or the end of `s`.
///
/// Whitespace is passed over. A `"` met there opens a quoted string, which is
/// passed over whole. Any other byte starts an unquoted run, which is passed
/// over up to whitespace, `;` or the end; a `"` inside such a run opens
/// nothing.
pub open spec fn next_separator(s: Seq<u8>, i: int) -> int
    decreases s.len() - i,
{
    if i < 0 || i >= s.len() || s[i] == SEMICOLON {
        i
    } else if is_http_whitespace(s[i]) {
        next_separator(s, i + 1)
    } else if s[i] == QUOTE {
        proof {
            lemma_quoted_end(s, i + 1);
        }
        next_separator(s, quoted_end(s, i + 1))
    } else {
        proof {
            lemma_token_end(s, i + 1);
        }
        next_separator(s, token_end(s, i + 1))
    }
}

/// `next_separator` moves forward only and stops at the end.
pub proof fn lemma_next_separator(s: Seq<u8>, i: int)
    requires
        0 <= i <= s.len(),
    ensures
        i <= next_separator(s, i) <= s.len(),
        next_separator(s, i) < s.len() ==> s[next_separator(s, i)] == SEMICOLON,
    decreases s.len() - i,
{
    if i < s.len() && s[i] != SEMICOLON {
        if is_http_whitespace(s[i]) {
            lemma_next_separator(s, i + 1);
        } else if s[i] == QUOTE {
            lemma_quoted_end(s, i + 1);
            lemma_next_separator(s, quoted_end(s, i + 1));
        } else {
            lemma_token_end(s, i + 1);
            lemma_next_separator(s, token_end(s, i + 1));
        }
    }
}

/// How the reading of a parameter name ends.
pub enum NameEnd {
    /// The name is longer than `MAX_TOKEN_LEN`.
    TooLong,
    /// The input ended before any `=`; the name read so far is given.
    EndOfInput(Seq<u8>),
    /// An `=` was met at the given position; the name read before it is given.
    Equals(Seq<u8>, int),
}

/// Reads a parameter name from position `i` of `s`, given the `name` and the
/// whitespace `extra` gathered so far.
///
/// A round first appends all whitespace gathered so far to the name, then
/// takes the bytes up to whitespace, `=` or the end into the name, lower-cased.
/// A name that has then more than `MAX_TOKEN_LEN` bytes is refused. The round
/// then gathers the whitespace that follows. The name is complete when the
/// input ends there or an `=` follows the whitespace; otherwise another round
/// begins.
pub open spec fn name_from(s: Seq<u8>, i: int, name: Seq<u8>, extra: Seq<u8>) -> NameEnd
    decreases s.len() - i,
{
    let run_end = name_run_end(s, i);
    let read = name + extra + lower_all(s.subrange(i, run_end));
    let gap_end = skip_whitespace(s, run_end);
    let gap = s.subrange(run_end, gap_end);
    if read.len() > MAX_TOKEN_LEN {
        NameEnd::TooLong
    } else if i < 0 || run_end >= s.len() {
        NameEnd::EndOfInput(read)
    } else if gap_end < s.len() && s[gap_end] == EQUALS {
        NameEnd::Equals(read, gap_end)
    } else {
        proof {
            lemma_name_run_end(s, i);
            lemma_skip_whitespace_bounds(s, run_end);
        }
        name_from(s, gap_end, read, extra + gap)
    }
}

/// The parameter name that starts at position `i` of `s`.
pub open spec fn name_at(s: Seq<u8>, i: int) -> NameEnd {
    name_from(s, i, Seq::empty(), Seq::empty())
}

/// The name that starts at `i` ends at or after `i`, and within `s`.
pub proof fn lemma_name_from(s: Seq<u8>, i: int, name: Seq<u8>, extra: Seq<u8>)
    requires
        0 <= i <= s.len(),
    ensures
        name_from(s, i, name, extra) matches NameEnd::Equals(_, at) ==> i <= at < s.len() && s[at]
            == EQUALS,
    decreases s.len() - i,
{
    let run_end = name_run_end(s, i);
    lemma_name_run_end(s, i);
    lemma_skip_whitespace_bounds(s, run_end);
    let gap_end = skip_whitespace(s, run_end);
    let read = name + extra + lower_all(s.subrange(i, run_end));
    if read.len() > MAX_TOKEN_LEN || run_end >= s.len() {
    } else if gap_end < s.len() && s[gap_end] == EQUALS {
    } else {
        lemma_name_from(s, gap_end, read, extra + s.subrange(run_end, gap_end));
    }
}

/// What holds of every parameter name that is read: it has at most
/// `MAX_TOKEN_LEN` bytes, none of them is a capital letter or `=`, and the
/// first is no whitespace.
pub open spec fn is_read_name(name: Seq<u8>) -> bool {
    &&& name.len() <= MAX_TOKEN_LEN
    &&& forall|j: int|
        0 <= j < name.len() ==> lower(#[trigger] name[j]) == name[j] && name[j] != EQUALS
    &&& name.len() > 0 ==> !is_http_whitespace(name[0])
}

/// A name that is read is as `is_read_name` says, where the reading starts at
/// no whitespace and what was gathered before is of that kind too.
pub proof fn lemma_name_from_read(s: Seq<u8>, i: int, name: Seq<u8>, extra: Seq<u8>)
    requires
        0 <= i <= s.len(),
        forall|j: int|
            0 <= j < name.len() ==> lower(#[trigger] name[j]) == name[j] && name[j] != EQUALS,
        forall|j: int| 0 <= j < extra.len() ==> is_http_whitespace(#[trigger] extra[j]),
        name.len() > 0 ==> !is_http_whitespace(name[0]),
        name.len() == 0 ==> extra.len() == 0 && (i < s.len() ==> !is_http_whitespace(s[i])),
    ensures
        match name_from(s, i, name, extra) {
            NameEnd::TooLong => true,
            NameEnd::EndOfInput(read) => is_read_name(read),
            NameEnd::Equals(read, _) => is_read_name(read),
        },
    decreases s.len() - i,
{
    let run_end = name_run_end(s, i);
    lemma_name_run_end(s, i);
    lemma_skip_whitespace_bounds(s, run_end);
    let gap_end = skip_whitespace(s, run_end);
    let gap = s.subrange(run_end, gap_end);
    let run = lower_all(s.subrange(i, run_end));
    let read = name + extra + run;
    assert forall|j: int| 0 <= j < read.len() implies lower(#[trigger] read[j]) == read[j]
        && read[j] != EQUALS by {
        if j < name.len() {
            assert(read[j] == name[j]);
        } else if j < name.len() + extra.len() {
            assert(read[j] == extra[j - name.len()]);
        } else {
            let k = j - name.len() - extra.len();
            assert(read[j] == lower(s[i + k]));
            assert(!ends_name(s[i + k]));
        }
    }
    if read.len() > 0 {
        if name.len() > 0 {
            assert(read[0] == name[0]);
        } else {
            assert(read[0] == lower(s[i]));
        }
    }
    if read.len() > MAX_TOKEN_LEN || run_end >= s.len() {
    } else if gap_end < s.len() && s[gap_end] == EQUALS {
    } else {
        let gathered = extra + gap;
        assert forall|j: int| 0 <= j < gathered.len() implies is_http_whitespace(
            #[trigger] gathered[j],
        ) by {
            if j < extra.len() {
                assert(gathered[j] == extra[j]);
            } else {
                assert(gathered[j] == s[run_end + (j - extra.len())]);
            }
        }
        lemma_name_from_read(s, gap_end, read, gathered);
    }
}

/// The value at `i` ends at or after `i`, and within `s`.
pub proof fn lemma_value_at(s: Seq<u8>, i: int)
    requires
        0 <= i <= s.len(),
    ensures
        i <= value_at(s, i).1 <= s.len(),
{
    if i < s.len() {
        lemma_quoted_end(s, i + 1);
        lemma_token_end(s, i);
    }
}

/// A parameter with an `=` ends after the position at which the search for it
/// began, and within `s`.
pub proof fn lemma_parameter_advances(s: Seq<u8>, i: int)
    requires
        0 <= i,
        next_separator(s, i) < s.len(),
    ensures
        name_at(s, skip_whitespace(s, next_separator(s, i) + 1)) matches NameEnd::Equals(_, at)
            ==> i < value_at(s, skip_whitespace(s, at + 1)).1 <= s.len(),
{
    lemma_next_separator(s, i);
    let separator = next_separator(s, i);
    lemma_skip_whitespace_bounds(s, separator + 1);
    let start = skip_whitespace(s, separator + 1);
    lemma_name_from(s, start, Seq::empty(), Seq::empty());
    if let NameEnd::Equals(_, at) = name_at(s, start) {
        lemma_skip_whitespace_bounds(s, at + 1);
        lemma_value_at(s, skip_whitespace(s, at + 1));
    }
}

/// The raw parameters: pairs of a name and a value, in the order in which
/// their names first occurred.
pub type RawParameters = Vec<(Bytes, Bytes)>;

/// The pairs of `ps` as sequences of bytes.
pub open spec fn raw_view(ps: Seq<(Bytes, Bytes)>) -> Seq<(Seq<u8>, Seq<u8>)> {
    Seq::new(ps.len(), |i: int| (ps[i].0@, ps[i].1@))
}

/// The position of the first pair of `ps` at or after `i` whose name is
/// `name`, or the length of `ps` if there is none.
pub open spec fn raw_position(ps: Seq<(Seq<u8>, Seq<u8>)>, name: Seq<u8>, i: int) -> int
    decreases ps.len() - i,
{
    if 0 <= i < ps.len() && ps[i].0 != name {
        raw_position(ps, name, i + 1)
    } else {
        i
    }
}

/// Tests whether `ps` holds a pair whose name is `name`.
pub open spec fn raw_contains(ps: Seq<(Seq<u8>, Seq<u8>)>, name: Seq<u8>) -> bool {
    raw_position(ps, name, 0) < ps.len()
}

/// `ps` with `value` under `name`: in the place of the pair with that name,
/// or at the end if there is none.
pub open spec fn raw_insert(ps: Seq<(Seq<u8>, Seq<u8>)>, name: Seq<u8>, value: Seq<u8>) -> Seq<
    (Seq<u8>, Seq<u8>),
> {
    let at = raw_position(ps, name, 0);
    if at < ps.len() {
        ps.update(at, (name, value))
    } else {
        ps.push((name, value))
    }
}

/// Tests whether no two pairs of `ps` have the same name.
pub open spec fn raw_distinct(ps: Seq<(Seq<u8>, Seq<u8>)>) -> bool {
    forall|i: int, j: int| 0 <= i < j < ps.len() ==> (#[trigger] ps[i]).0 != (#[trigger] ps[j]).0
}

/// `raw_position` moves forward only, stops at the end, and passes no pair
/// named `name`.
pub proof fn lemma_raw_position(ps: Seq<(Seq<u8>, Seq<u8>)>, name: Seq<u8>, i: int)
    requires
        0 <= i <= ps.len(),
    ensures
        i <= raw_position(ps, name, i) <= ps.len(),
        forall|j: int| i <= j < raw_position(ps, name, i) ==> (#[trigger] ps[j]).0 != name,
        raw_position(ps, name, i) < ps.len() ==> ps[raw_position(ps, name, i)].0 == name,
    decreases ps.len() - i,
{
    if i < ps.len() && ps[i].0 != name {
        lemma_raw_position(ps, name, i + 1);
    }
}

/// `raw_insert` keeps names distinct.
pub proof fn lemma_raw_insert_distinct(ps: Seq<(Seq<u8>, Seq<u8>)>, name: Seq<u8>, value: Seq<u8>)
    requires
        raw_distinct(ps),
    ensures
        raw_distinct(raw_insert(ps, name, value)),
{
    lemma_raw_position(ps, name, 0);
    let at = raw_position(ps, name, 0);
    let qs = raw_insert(ps, name, value);
    assert forall|i: int, j: int| 0 <= i < j < qs.len() implies (#[trigger] qs[i]).0 != (
    #[trigger] qs[j]).0 by {
        if at < ps.len() {
            assert(qs[i].0 == ps[i].0);
            assert(qs[j].0 == ps[j].0);
        } else {
            if j < ps.len() {
                assert(qs[i] == ps[i]);
                assert(qs[j] == ps[j]);
            } else {
                assert(qs[i] == ps[i]);
            }
        }
    }
}

/// The position of the pair of `parameters` whose name is `name`, or the
/// length of `parameters` if there is none.
pub fn raw_find(parameters: &RawParameters, name: &[u8]) -> (at: usize)
    ensures
        at == raw_position(raw_view(parameters@), name@, 0),
        at <= parameters@.len(),
{
    let n = parameters.len();
    let mut i: usize = 0;
    while i < n && !bytes_equal(parameters[i].0.as_slice(), name)
        invariant
            i <= n,
            n == parameters@.len(),
            raw_position(raw_view(parameters@), name@, i as int) == raw_position(
                raw_view(parameters@),
                name@,
                0,
            ),
        decreases n - i,
    {
        i += 1;
    }
    i
}

/// Puts `value` under `name`: in the place of the pair with that name, or at
/// the end if there is none.
pub fn raw_put(parameters: &mut RawParameters, name: Bytes, value: Bytes)
    ensures
        raw_view(final(parameters)@) == raw_insert(raw_view(old(parameters)@), name@, value@),
{
    let at = raw_find(parameters, name.as_slice());
    if at < parameters.len() {
        parameters.set(at, (name, value));
    } else {
        parameters.push((name, value));
    }
    assert(raw_view(parameters@) =~= raw_insert(raw_view(old(parameters)@), name@, value@));
}

/// The raw parameters read from position `i` of `s` on, added to those in
/// `found`.
///
/// Each parameter starts after the next `;` outside a quoted string, and the
/// whitespace after that `;`. Where its name ends with the input, it is added
/// with an empty value if the name is not empty and not yet there, and the
/// reading is done. Otherwise its value starts after the `=` and the
/// whitespace behind it, and replaces any earlier value of that name.
pub open spec fn parameters_from(s: Seq<u8>, i: int, found: Seq<(Seq<u8>, Seq<u8>)>) -> Result<
    Seq<(Seq<u8>, Seq<u8>)>,
    Error,
>
    decreases s.len() - i,
{
    let separator = next_separator(s, i);
    if i < 0 || separator >= s.len() {
        Ok(found)
    } else {
        match name_at(s, skip_whitespace(s, separator + 1)) {
            NameEnd::TooLong => Err(Error::Invalid),
            NameEnd::EndOfInput(name) => if name.len() > 0 && !raw_contains(found, name) {
                Ok(found.push((name, Seq::empty())))
            } else {
                Ok(found)
            },
            NameEnd::Equals(name, at) => {
                let (value, after) = value_at(s, skip_whitespace(s, at + 1));
                proof {
                    lemma_parameter_advances(s, i);
                }
                parameters_from(s, after, raw_insert(found, name, value))
            },
        }
    }
}

/// No two of the raw parameters that are read have the same name.
pub proof fn lemma_parameters_distinct(s: Seq<u8>, i: int, found: Seq<(Seq<u8>, Seq<u8>)>)
    requires
        raw_distinct(found),
        parameters_from(s, i, found) is Ok,
    ensures
        raw_distinct(parameters_from(s, i, found)->Ok_0),
    decreases s.len() - i,
{
    let separator = next_separator(s, i);
    if i < 0 || separator >= s.len() {
    } else {
        match name_at(s, skip_whitespace(s, separator + 1)) {
            NameEnd::TooLong => {},
            NameEnd::EndOfInput(name) => {
                if name.len() > 0 && !raw_contains(found, name) {
                    lemma_raw_position(found, name, 0);
                    let all = found.push((name, Seq::empty()));
                    assert forall|a: int, b: int| 0 <= a < b < all.len() implies (
                    #[trigger] all[a]).0 != (#[trigger] all[b]).0 by {
                        assert(all[a] == found[a]);
                        if b < found.len() {
                            assert(all[b] == found[b]);
                        }
                    }
                }
            },
            NameEnd::Equals(name, at) => {
                let (value, after) = value_at(s, skip_whitespace(s, at + 1));
                lemma_parameter_advances(s, i);
                lemma_raw_insert_distinct(found, name, value);
                lemma_parameters_distinct(s, after, raw_insert(found, name, value));
            },
        }
    }
}

/// Tests whether each name of `ps` is as `is_read_name` says.
pub open spec fn names_read(ps: Seq<(Seq<u8>, Seq<u8>)>) -> bool {
    forall|j: int| 0 <= j < ps.len() ==> is_read_name((#[trigger] ps[j]).0)
}

/// Each name of the raw parameters that are read is as `is_read_name` says.
pub proof fn lemma_parameters_names(s: Seq<u8>, i: int, found: Seq<(Seq<u8>, Seq<u8>)>)
    requires
        names_read(found),
        parameters_from(s, i, found) is Ok,
    ensures
        names_read(parameters_from(s, i, found)->Ok_0),
    decreases s.len() - i,
{
    let separator = next_separator(s, i);
    if i < 0 || separator >= s.len() {
    } else {
        lemma_next_separator(s, i);
        lemma_skip_whitespace_bounds(s, separator + 1);
        let start = skip_whitespace(s, separator + 1);
        lemma_name_from_read(s, start, Seq::empty(), Seq::empty());
        match name_at(s, start) {
            NameEnd::TooLong => {},
            NameEnd::EndOfInput(name) => {
                if name.len() > 0 && !raw_contains(found, name) {
                    let all = found.push((name, Seq::empty()));
                    assert forall|j: int| 0 <= j < all.len() implies is_read_name(
                        (#[trigger] all[j]).0,
                    ) by {
                        if j < found.len() {
                            assert(all[j] == found[j]);
                        }
                    }
                }
            },
            NameEnd::Equals(name, at) => {
                let (value, after) = value_at(s, skip_whitespace(s, at + 1));
                lemma_parameter_advances(s, i);
                lemma_raw_position(found, name, 0);
                let all = raw_insert(found, name, value);
                assert forall|j: int| 0 <= j < all.len() implies is_read_name(
                    (#[trigger] all[j]).0,
                ) by {
                    if j < found.len() && j != raw_position(found, name, 0) {
                        assert(all[j] == found[j]);
                    }
                }
                lemma_parameters_names(s, after, all);
            },
        }
    }
}

/// The type token, the subtype token and the raw parameters of `s`.
///
/// Whitespace before the type token is passed over. The input is refused
/// where the type portion is, or where a parameter name grows too long.
pub open spec fn tokens(s: Seq<u8>) -> Result<
    (Seq<u8>, Seq<u8>, Seq<(Seq<u8>, Seq<u8>)>),
    Error,
> {
    match type_portion(s, skip_whitespace(s, 0)) {
        Err(e) => Err(e),
        Ok((type_, subtype, end)) => match parameters_from(s, end, Seq::empty()) {
            Err(e) => Err(e),
            Ok(parameters) => Ok((type_, subtype, parameters)),
        },
    }
}

/// The position after the whitespace that starts at `i`.
fn skip_spaces(sequence: &[u8], i: usize) -> (r: usize)
    requires
        i <= sequence@.len(),
    ensures
        r == skip_whitespace(sequence@, i as int),
        i <= r <= sequence@.len(),
{
    let n = sequence.len();
    let mut j = i;
    while j < n && is_whitespace(sequence[j])
        invariant
            i <= j <= n,
            n == sequence@.len(),
            skip_whitespace(sequence@, j as int) == skip_whitespace(sequence@, i as int),
        decreases n - j,
    {
        j += 1;
    }
    j
}

/// The position after the quoted string whose first content byte is at `i`.
fn skip_quoted(sequence: &[u8], i: usize) -> (r: usize)
    requires
        i <= sequence@.len(),
    ensures
        r == quoted_end(sequence@, i as int),
        i <= r <= sequence@.len(),
{
    let n = sequence.len();
    let mut j = i;
    while j < n && sequence[j] != QUOTE
        invariant
            i <= j <= n,
            n == sequence@.len(),
            quoted_end(sequence@, j as int) == quoted_end(sequence@, i as int),
        decreases n - j,
    {
        if sequence[j] == BACKSLASH && !is_undefined(sequence, j + 1) {
            j += 1;
        }
        j += 1;
    }
    if j < n {
        j += 1;
    }
    j
}

/// The position after the unquoted run that goes on at `i`.
fn skip_token(sequence: &[u8], i: usize) -> (r: usize)
    requires
        i <= sequence@.len(),
    ensures
        r == token_end(sequence@, i as int),
        i <= r <= sequence@.len(),
{
    let n = sequence.len();
    let mut j = i;
    while j < n && !is_whitespace(sequence[j]) && sequence[j] != SEMICOLON
        invariant
            i <= j <= n,
            n == sequence@.len(),
            token_end(sequence@, j as int) == token_end(sequence@, i as int),
        decreases n - j,
    {
        j += 1;
    }
    j
}

/// The position of the next `;` outside a quoted string, from `i` on.
fn skip_to_separator(sequence: &[u8], i: usize) -> (r: usize)
    requires
        i <= sequence@.len(),
    ensures
        r == next_separator(sequence@, i as int),
        i <= r <= sequence@.len(),
{
    let n = sequence.len();
    let mut j = i;
    while j < n && sequence[j] != SEMICOLON
        invariant
            i <= j <= n,
            n == sequence@.len(),
            next_separator(sequence@, j as int) == next_separator(sequence@, i as int),
        decreases n - j,
    {
        if is_whitespace(sequence[j]) {
            j += 1;
        } else if sequence[j] == QUOTE {
            j = skip_quoted(sequence, j + 1);
        } else {
            j = skip_token(sequence, j + 1);
        }
    }
    j
}

/// How the reading of a parameter name ended, with the name as it was read.
enum Name {
    TooLong,
    EndOfInput(Bytes),
    Equals(Bytes, usize),
}

impl View for Name {
    type V = NameEnd;

    closed spec fn view(&self) -> NameEnd {
        match self {
            Name::TooLong => NameEnd::TooLong,
            Name::EndOfInput(name) => NameEnd::EndOfInput(name@),
            Name::Equals(name, at) => NameEnd::Equals(name@, *at as int),
        }
    }
}

/// Reads the parameter name that starts at position `start`.
fn read_name(sequence: &[u8], start: usize) -> (r: Name)
    requires
        start <= sequence@.len(),
    ensures
        r@ == name_at(sequence@, start as int),
{
    let n = sequence.len();
    let mut name: Vec<u8> = Vec::new();
    let mut extra: Vec<u8> = Vec::new();
    let mut i = start;
    loop
        invariant
            start <= i <= n,
            n == sequence@.len(),
            name_from(sequence@, i as int, name@, extra@) == name_at(sequence@, start as int),
        decreases n - i,
    {
        let ghost name0 = name@;
        let ghost extra0 = extra@;
        let first = i;
        name.extend_from_slice(extra.as_slice());
        while i < n && name.len() <= MAX_TOKEN_LEN && !is_whitespace(sequence[i]) && sequence[i]
            != EQUALS
            invariant
                start <= first <= i <= n,
                n == sequence@.len(),
                name_run_end(sequence@, i as int) == name_run_end(sequence@, first as int),
                name@ == name0 + extra0 + lower_all(sequence@.subrange(first as int, i as int)),
            decreases n - i,
        {
            name.push(to_lower(sequence[i]));
            i += 1;
            assert(name@ =~= name0 + extra0 + lower_all(
                sequence@.subrange(first as int, i as int),
            ));
        }
        proof {
            lemma_name_run_end(sequence@, i as int);
        }
        if name.len() > MAX_TOKEN_LEN {
            return Name::TooLong;
        }
        let run_end = i;
        assert(name_run_end(sequence@, first as int) == run_end);
        if i >= n {
            return Name::EndOfInput(name);
        }
        while i < n && is_whitespace(sequence[i])
            invariant
                start <= run_end <= i <= n,
                n == sequence@.len(),
                skip_whitespace(sequence@, i as int) == skip_whitespace(sequence@, run_end as int),
                extra@ == extra0 + sequence@.subrange(run_end as int, i as int),
            decreases n - i,
        {
            extra.push(sequence[i]);
            i += 1;
            assert(extra@ =~= extra0 + sequence@.subrange(run_end as int, i as int));
        }
        assert(skip_whitespace(sequence@, run_end as int) == i);
        if i < n && sequence[i] == EQUALS {
            return Name::Equals(name, i);
        }
    }
}

/// Reads the raw parameters from position `*s` of `sequence` on.
///
/// On success the cursor `*s` stands at the end of `sequence`, unless it stood
/// past the end already. On failure it stays where it was.
pub fn parse_parameters(sequence: &[u8], s: &mut usize) -> (r: Result<RawParameters, Error>)
    ensures
        match parameters_from(sequence@, *old(s) as int, Seq::empty()) {
            Ok(parameters) => {
                &&& r matches Ok(found)
                &&& raw_view(found@) == parameters
                &&& raw_distinct(parameters)
                &&& *final(s) == if *old(s) <= sequence@.len() {
                    sequence@.len()
                } else {
                    *old(s) as nat
                }
            },
            Err(e) => r == Err::<RawParameters, Error>(e) && *final(s) == *old(s),
        },
{
    let n = sequence.len();
    let start = *s;
    let mut parameters: Vec<(Bytes, Bytes)> = Vec::new();
    proof {
        if parameters_from(sequence@, start as int, Seq::empty()) is Ok {
            lemma_parameters_distinct(sequence@, start as int, Seq::empty());
        }
    }
    if is_undefined(sequence, start) {
        assert(raw_view(parameters@) =~= Seq::empty());
        return Ok(parameters);
    }
    let mut i = start;
    assert(raw_view(parameters@) =~= Seq::empty());
    loop
        invariant
            start <= i <= n,
            n == sequence@.len(),
            *s == start,
            *old(s) == start,
            parameters_from(sequence@, start as int, Seq::empty()) is Ok ==> raw_distinct(
                parameters_from(sequence@, start as int, Seq::empty())->Ok_0,
            ),
            parameters_from(sequence@, i as int, raw_view(parameters@)) == parameters_from(
                sequence@,
                start as int,
                Seq::empty(),
            ),
        decreases n - i,
    {
        let ghost from = i as int;
        i = skip_to_separator(sequence, i);
        if i >= n {
            *s = n;
            return Ok(parameters);
        }
        i = skip_spaces(sequence, i + 1);
        match read_name(sequence, i) {
            Name::TooLong => {
                return Err(Error::Invalid);
            },
            Name::EndOfInput(name) => {
                if name.len() > 0 && raw_find(&parameters, name.as_slice()) == parameters.len() {
                    let ghost before = raw_view(parameters@);
                    let ghost key = name@;
                    parameters.push((name, Vec::new()));
                    assert(raw_view(parameters@) =~= before.push((key, Seq::empty())));
                }
                *s = n;
                return Ok(parameters);
            },
            Name::Equals(name, at) => {
                proof {
                    lemma_name_from(sequence@, i as int, Seq::empty(), Seq::empty());
                    lemma_parameter_advances(sequence@, from);
                }
                i = skip_spaces(sequence, at + 1);
                let value = parse_value(sequence, &mut i);
                raw_put(&mut parameters, name, value);
            },
        }
    }
}

/// Splits a media type into its type token, its subtype token and its raw
/// parameters.
pub fn parse_media_type(sequence: &[u8]) -> (r: Result<(Bytes, Bytes, RawParameters), Error>)
    ensures
        match tokens(sequence@) {
            Ok((type_, subtype, parameters)) => {
                &&& r matches Ok((t, u, found))
                &&& t@ == type_
                &&& u@ == subtype
                &&& raw_view(found@) == parameters
                &&& raw_distinct(parameters)
            },
            Err(e) => r == Err::<(Bytes, Bytes, RawParameters), Error>(e),
        },
{
    let mut s: usize = skip_spaces(sequence, 0);
    let (type_, subtype) = match parse_type_portion(sequence, &mut s) {
        Ok(pair) => pair,
        Err(e) => {
            return Err(e);
        },
    };
    let parameters = match parse_parameters(sequence, &mut s) {
        Ok(found) => found,
        Err(e) => {
            return Err(e);
        },
    };
    Ok((type_, subtype, parameters))
}

} // verus!
