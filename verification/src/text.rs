//! Text as sequences of characters: reading UTF-8, trimming, searching, and
//! splitting into lines and words.

use vstd::prelude::*;
use vstd::utf8::{decode_utf8, valid_utf8};

verus! {

/// Appending one character to a `String`: `String::push` leaves the old
/// contents in place and adds the character at the end.
pub assume_specification[ String::push ](text: &mut String, c: char)
    ensures
        final(text)@ == old(text)@.push(c),
;

/// An optional text as a sequence of characters.
pub open spec fn text_view(text: Option<String>) -> Option<Seq<char>> {
    match text {
        Some(text) => Some(text@),
        None => None,
    }
}

/// An optional text as a sequence of characters.
pub open spec fn str_view(text: Option<&str>) -> Option<Seq<char>> {
    match text {
        Some(text) => Some(text@),
        None => None,
    }
}

/// The texts that a list of strings holds.
pub open spec fn texts_view(texts: Seq<String>) -> Seq<Seq<char>> {
    texts.map_values(|text: String| text@)
}

/// The texts that a list of strings holds.
pub open spec fn strs_view(texts: Seq<&str>) -> Seq<Seq<char>> {
    texts.map_values(|text: &str| text@)
}

/// How `std::str::Utf8Error` words what is wrong with bytes that are no UTF-8.
pub uninterp spec fn utf8_error_text(bytes: Seq<u8>) -> Seq<char>;

/// Reads bytes with `std::str::from_utf8`. There is a text where they are
/// UTF-8, and it is what they encode; else the wording of the error, which
/// depends on the bytes alone.
#[verifier::external_body]
pub(crate) fn read_utf8<'a>(bytes: &'a [u8]) -> (text: Result<&'a str, String>)
    ensures
        text is Ok <==> valid_utf8(bytes@),
        text matches Ok(s) ==> s@ == decode_utf8(bytes@),
        text matches Err(e) ==> e@ == utf8_error_text(bytes@),
{
    std::str::from_utf8(bytes).map_err(|e| e.to_string())
}

// ---------------------------------------------------------------------------
// Conversions
// ---------------------------------------------------------------------------

/// The characters of a string, in order.
pub fn chars_of(text: &str) -> (chars: Vec<char>)
    ensures
        chars@ == text@,
{
    let mut chars: Vec<char> = Vec::new();
    for c in it: text.chars()
        invariant
            chars@ == text@.take(it.index()),
            it.seq() == text@,
    {
        chars.push(c);
    }
    chars
}

/// The string made of the given characters.
pub fn text_of(chars: &[char]) -> (text: String)
    ensures
        text@ == chars@,
{
    let mut text = String::new();
    push_chars(&mut text, chars);
    text
}

/// Appends characters to a string.
pub fn push_chars(text: &mut String, chars: &[char])
    ensures
        final(text)@ == old(text)@ + chars@,
{
    let ghost before = text@;
    let mut i: usize = 0;
    while i < chars.len()
        invariant
            i <= chars@.len(),
            text@ == before + chars@.take(i as int),
        decreases chars@.len() - i,
    {
        text.push(chars[i]);
        i += 1;
    }
}

/// Whether two runs of characters are the same.
pub fn same_chars(a: &[char], b: &[char]) -> (same: bool)
    ensures
        same == (a@ == b@),
{
    if a.len() != b.len() {
        return false;
    }
    let mut i: usize = 0;
    while i < a.len()
        invariant
            i <= a@.len(),
            a@.len() == b@.len(),
            a@.take(i as int) == b@.take(i as int),
        decreases a@.len() - i,
    {
        if a[i] != b[i] {
            return false;
        }
        i += 1;
    }
    assert(a@.take(i as int) == a@);
    assert(b@.take(i as int) == b@);
    true
}

/// Whether two strings are the same.
pub fn same_text(a: &str, b: &str) -> (same: bool)
    ensures
        same == (a@ == b@),
{
    same_chars(&chars_of(a), &chars_of(b))
}

// ---------------------------------------------------------------------------
// White space
// ---------------------------------------------------------------------------

/// The characters with the Unicode property `White_Space`.
pub open spec fn is_space(c: char) -> bool {
    ||| '\u{9}' <= c <= '\u{d}'
    ||| c == '\u{20}'
    ||| c == '\u{85}'
    ||| c == '\u{a0}'
    ||| c == '\u{1680}'
    ||| '\u{2000}' <= c <= '\u{200a}'
    ||| c == '\u{2028}'
    ||| c == '\u{2029}'
    ||| c == '\u{202f}'
    ||| c == '\u{205f}'
    ||| c == '\u{3000}'
}

/// Whether a character is white space.
pub fn is_whitespace(c: char) -> (space: bool)
    ensures
        space == is_space(c),
{
    ('\u{9}' <= c && c <= '\u{d}') || c == '\u{20}' || c == '\u{85}' || c == '\u{a0}' || c
        == '\u{1680}' || ('\u{2000}' <= c && c <= '\u{200a}') || c == '\u{2028}' || c == '\u{2029}'
        || c == '\u{202f}' || c == '\u{205f}' || c == '\u{3000}'
}

/// What is left after the white space at the start.
pub open spec fn trim_start(s: Seq<char>) -> Seq<char>
    decreases s.len(),
{
    if s.len() > 0 && is_space(s.first()) {
        trim_start(s.drop_first())
    } else {
        s
    }
}

/// What is left without the white space at the end.
pub open spec fn trim_end(s: Seq<char>) -> Seq<char>
    decreases s.len(),
{
    if s.len() > 0 && is_space(s.last()) {
        trim_end(s.drop_last())
    } else {
        s
    }
}

/// What is left without the white space at both ends.
pub open spec fn trim(s: Seq<char>) -> Seq<char> {
    trim_end(trim_start(s))
}

/// A text with nothing but white space in it.
pub open spec fn is_blank(s: Seq<char>) -> bool {
    trim(s).len() == 0
}

pub fn trim_start_chars(s: &[char]) -> (rest: &[char])
    ensures
        rest@ == trim_start(s@),
        rest@.len() <= s@.len(),
        rest@ == s@.skip(s@.len() - rest@.len()),
{
    let mut i: usize = 0;
    assert(s@.skip(0) == s@);
    while i < s.len() && is_whitespace(s[i])
        invariant
            i <= s@.len(),
            trim_start(s@.skip(i as int)) == trim_start(s@),
        decreases s@.len() - i,
    {
        assert(s@.skip(i as int).drop_first() == s@.skip(i + 1));
        i += 1;
    }
    let rest = &s[i..s.len()];
    rest
}

pub fn trim_end_chars(s: &[char]) -> (rest: &[char])
    ensures
        rest@ == trim_end(s@),
        rest@.len() <= s@.len(),
        rest@ == s@.take(rest@.len() as int),
{
    let mut n: usize = s.len();
    assert(s@.take(s@.len() as int) == s@);
    while n > 0 && is_whitespace(s[n - 1])
        invariant
            n <= s@.len(),
            trim_end(s@.take(n as int)) == trim_end(s@),
        decreases n,
    {
        assert(s@.take(n as int).drop_last() == s@.take(n - 1));
        n -= 1;
    }
    let rest = &s[0..n];
    rest
}

pub fn trim_chars(s: &[char]) -> (rest: &[char])
    ensures
        rest@ == trim(s@),
{
    trim_end_chars(trim_start_chars(s))
}

/// What is left after all leading occurrences of a character.
pub open spec fn trim_start_matches(s: Seq<char>, c: char) -> Seq<char>
    decreases s.len(),
{
    if s.len() > 0 && s.first() == c {
        trim_start_matches(s.drop_first(), c)
    } else {
        s
    }
}

/// What is left without all trailing occurrences of a character.
pub open spec fn trim_end_matches(s: Seq<char>, c: char) -> Seq<char>
    decreases s.len(),
{
    if s.len() > 0 && s.last() == c {
        trim_end_matches(s.drop_last(), c)
    } else {
        s
    }
}

pub fn trim_start_char(s: &[char], c: char) -> (rest: &[char])
    ensures
        rest@ == trim_start_matches(s@, c),
{
    let mut i: usize = 0;
    assert(s@.skip(0) == s@);
    while i < s.len() && s[i] == c
        invariant
            i <= s@.len(),
            trim_start_matches(s@.skip(i as int), c) == trim_start_matches(s@, c),
        decreases s@.len() - i,
    {
        assert(s@.skip(i as int).drop_first() == s@.skip(i + 1));
        i += 1;
    }
    let rest = &s[i..s.len()];
    rest
}

pub fn trim_end_char(s: &[char], c: char) -> (rest: &[char])
    ensures
        rest@ == trim_end_matches(s@, c),
{
    let mut n: usize = s.len();
    assert(s@.take(s@.len() as int) == s@);
    while n > 0 && s[n - 1] == c
        invariant
            n <= s@.len(),
            trim_end_matches(s@.take(n as int), c) == trim_end_matches(s@, c),
        decreases n,
    {
        assert(s@.take(n as int).drop_last() == s@.take(n - 1));
        n -= 1;
    }
    let rest = &s[0..n];
    rest
}

// ---------------------------------------------------------------------------
// Searching
// ---------------------------------------------------------------------------

/// `pattern` stands in `s` at index `i`.
pub open spec fn occurs_at(s: Seq<char>, pattern: Seq<char>, i: int) -> bool {
    &&& 0 <= i <= s.len() - pattern.len()
    &&& s.subrange(i, i + pattern.len()) == pattern
}

pub open spec fn occurs(s: Seq<char>, pattern: Seq<char>) -> bool {
    exists|i: int| occurs_at(s, pattern, i)
}

/// `i` is the first index at which `pattern` stands in `s`.
pub open spec fn first_at(s: Seq<char>, pattern: Seq<char>, i: int) -> bool {
    &&& occurs_at(s, pattern, i)
    &&& forall|j: int| 0 <= j < i ==> !#[trigger] occurs_at(s, pattern, j)
}

/// `i` is the last index at which `pattern` stands in `s`.
pub open spec fn last_at(s: Seq<char>, pattern: Seq<char>, i: int) -> bool {
    &&& occurs_at(s, pattern, i)
    &&& forall|j: int| i < j <= s.len() ==> !#[trigger] occurs_at(s, pattern, j)
}

/// The index of the first occurrence.
pub open spec fn find(s: Seq<char>, pattern: Seq<char>) -> Option<int> {
    if occurs(s, pattern) {
        Some(choose|i: int| first_at(s, pattern, i))
    } else {
        None
    }
}

/// The index of the last occurrence.
pub open spec fn rfind(s: Seq<char>, pattern: Seq<char>) -> Option<int> {
    if occurs(s, pattern) {
        Some(choose|i: int| last_at(s, pattern, i))
    } else {
        None
    }
}

/// The parts before and after the first occurrence of a separator.
pub open spec fn split_once(s: Seq<char>, separator: Seq<char>) -> Option<(Seq<char>, Seq<char>)> {
    match find(s, separator) {
        Some(i) => Some((s.take(i), s.skip(i + separator.len()))),
        None => None,
    }
}

/// The parts before and after the last occurrence of a separator.
pub open spec fn rsplit_once(s: Seq<char>, separator: Seq<char>) -> Option<(Seq<char>, Seq<char>)> {
    match rfind(s, separator) {
        Some(i) => Some((s.take(i), s.skip(i + separator.len()))),
        None => None,
    }
}

pub open spec fn strip_prefix(s: Seq<char>, prefix: Seq<char>) -> Option<Seq<char>> {
    if prefix.is_prefix_of(s) {
        Some(s.skip(prefix.len() as int))
    } else {
        None
    }
}

pub open spec fn strip_suffix(s: Seq<char>, suffix: Seq<char>) -> Option<Seq<char>> {
    if suffix.is_suffix_of(s) {
        Some(s.take(s.len() - suffix.len()))
    } else {
        None
    }
}

/// The first occurrence is what `find` gives.
pub proof fn lemma_find_is(s: Seq<char>, pattern: Seq<char>, i: int)
    requires
        first_at(s, pattern, i),
    ensures
        find(s, pattern) == Some(i),
{
    let k = choose|k: int| first_at(s, pattern, k);
}

/// The last occurrence is what `rfind` gives.
pub proof fn lemma_rfind_is(s: Seq<char>, pattern: Seq<char>, i: int)
    requires
        last_at(s, pattern, i),
    ensures
        rfind(s, pattern) == Some(i),
{
    let k = choose|k: int| last_at(s, pattern, k);
}

/// A pattern that occurs has a first occurrence.
pub proof fn lemma_find_first(s: Seq<char>, pattern: Seq<char>)
    ensures
        match find(s, pattern) {
            Some(i) => first_at(s, pattern, i),
            None => forall|i: int| !occurs_at(s, pattern, i),
        },
{
    if occurs(s, pattern) {
        let i = choose|i: int| occurs_at(s, pattern, i);
        lemma_first_exists(s, pattern, i);
    }
}

proof fn lemma_first_exists(s: Seq<char>, pattern: Seq<char>, i: int)
    requires
        occurs_at(s, pattern, i),
    ensures
        exists|k: int| first_at(s, pattern, k),
    decreases i,
{
    if exists|j: int| 0 <= j < i && occurs_at(s, pattern, j) {
        let j = choose|j: int| 0 <= j < i && occurs_at(s, pattern, j);
        lemma_first_exists(s, pattern, j);
    } else {
        assert(first_at(s, pattern, i));
    }
}

/// A pattern that occurs has a last occurrence.
pub proof fn lemma_rfind_last(s: Seq<char>, pattern: Seq<char>)
    ensures
        match rfind(s, pattern) {
            Some(i) => last_at(s, pattern, i),
            None => forall|i: int| !occurs_at(s, pattern, i),
        },
{
    if occurs(s, pattern) {
        let i = choose|i: int| occurs_at(s, pattern, i);
        lemma_last_exists(s, pattern, i);
    }
}

proof fn lemma_last_exists(s: Seq<char>, pattern: Seq<char>, i: int)
    requires
        occurs_at(s, pattern, i),
    ensures
        exists|k: int| last_at(s, pattern, k),
    decreases s.len() - i,
{
    if exists|j: int| i < j <= s.len() && occurs_at(s, pattern, j) {
        let j = choose|j: int| i < j <= s.len() && occurs_at(s, pattern, j);
        lemma_last_exists(s, pattern, j);
    } else {
        assert(last_at(s, pattern, i));
    }
}

/// Whether `pattern` stands in `s` at index `i`.
fn matches_at(s: &[char], pattern: &[char], i: usize) -> (found: bool)
    requires
        i + pattern@.len() <= s@.len(),
    ensures
        found == occurs_at(s@, pattern@, i as int),
{
    let n: usize = s.len();
    assert(i + pattern@.len() <= n);
    same_chars(&s[i..i + pattern.len()], pattern)
}

pub fn find_chars(s: &[char], pattern: &[char]) -> (index: Option<usize>)
    ensures
        match index {
            Some(i) => find(s@, pattern@) == Some(i as int) && i + pattern@.len() <= s@.len(),
            None => find(s@, pattern@) is None,
        },
{
    if pattern.len() > s.len() {
        return None;
    }
    let last: usize = s.len() - pattern.len();
    let mut i: usize = 0;
    loop
        invariant
            i <= last,
            last == s@.len() - pattern@.len(),
            forall|j: int| 0 <= j < i ==> !#[trigger] occurs_at(s@, pattern@, j),
        ensures
            forall|j: int| 0 <= j <= last ==> !#[trigger] occurs_at(s@, pattern@, j),
        decreases last - i,
    {
        if matches_at(s, pattern, i) {
            proof {
                lemma_find_is(s@, pattern@, i as int);
            }
            return Some(i);
        }
        if i == last {
            break;
        }
        i += 1;
    }
    None
}

pub fn rfind_chars(s: &[char], pattern: &[char]) -> (index: Option<usize>)
    ensures
        match index {
            Some(i) => rfind(s@, pattern@) == Some(i as int) && i + pattern@.len() <= s@.len(),
            None => rfind(s@, pattern@) is None,
        },
{
    if pattern.len() > s.len() {
        return None;
    }
    let mut i: usize = s.len() - pattern.len();
    loop
        invariant
            i + pattern@.len() <= s@.len(),
            forall|j: int| i < j <= s@.len() ==> !#[trigger] occurs_at(s@, pattern@, j),
        ensures
            i == 0,
            !occurs_at(s@, pattern@, 0),
            forall|j: int| i < j <= s@.len() ==> !#[trigger] occurs_at(s@, pattern@, j),
        decreases i,
    {
        if matches_at(s, pattern, i) {
            proof {
                lemma_rfind_is(s@, pattern@, i as int);
            }
            return Some(i);
        }
        if i == 0 {
            break;
        }
        i -= 1;
    }
    None
}

pub fn split_once_chars<'a>(s: &'a [char], separator: &str) -> (parts: Option<
    (&'a [char], &'a [char]),
>)
    ensures
        match parts {
            Some((before, after)) => split_once(s@, separator@) == Some((before@, after@)),
            None => split_once(s@, separator@) is None,
        },
{
    let pattern = chars_of(separator);
    match find_chars(s, &pattern) {
        Some(i) => {
            let n: usize = s.len();
            let before = &s[0..i];
            let after = &s[i + pattern.len()..n];
            Some((before, after))
        },
        None => None,
    }
}

pub fn rsplit_once_chars<'a>(s: &'a [char], separator: &str) -> (parts: Option<
    (&'a [char], &'a [char]),
>)
    ensures
        match parts {
            Some((before, after)) => rsplit_once(s@, separator@) == Some((before@, after@)),
            None => rsplit_once(s@, separator@) is None,
        },
{
    let pattern = chars_of(separator);
    match rfind_chars(s, &pattern) {
        Some(i) => {
            let n: usize = s.len();
            let before = &s[0..i];
            let after = &s[i + pattern.len()..n];
            Some((before, after))
        },
        None => None,
    }
}

pub fn strip_prefix_chars<'a>(s: &'a [char], prefix: &str) -> (rest: Option<&'a [char]>)
    ensures
        match rest {
            Some(rest) => strip_prefix(s@, prefix@) == Some(rest@),
            None => strip_prefix(s@, prefix@) is None,
        },
{
    let pattern = chars_of(prefix);
    if pattern.len() <= s.len() && matches_at(s, &pattern, 0) {
        let rest = &s[pattern.len()..s.len()];
        Some(rest)
    } else {
        None
    }
}

pub fn strip_suffix_chars<'a>(s: &'a [char], suffix: &str) -> (rest: Option<&'a [char]>)
    ensures
        match rest {
            Some(rest) => strip_suffix(s@, suffix@) == Some(rest@),
            None => strip_suffix(s@, suffix@) is None,
        },
{
    let pattern = chars_of(suffix);
    if pattern.len() <= s.len() && matches_at(s, &pattern, s.len() - pattern.len()) {
        let rest = &s[0..s.len() - pattern.len()];
        Some(rest)
    } else {
        None
    }
}

/// Whether `pattern` occurs in `text`.
pub fn contains_text(text: &str, pattern: &str) -> (found: bool)
    ensures
        found == occurs(text@, pattern@),
{
    find_chars(&chars_of(text), &chars_of(pattern)).is_some()
}

// ---------------------------------------------------------------------------
// Lines and words
// ---------------------------------------------------------------------------

/// How many characters stand before the first newline, or before the end.
pub open spec fn line_len(s: Seq<char>) -> nat
    decreases s.len(),
{
    if s.len() == 0 || s.first() == '\n' {
        0
    } else {
        1 + line_len(s.drop_first())
    }
}

pub proof fn lemma_line_len(s: Seq<char>)
    ensures
        line_len(s) <= s.len(),
        line_len(s) < s.len() ==> s[line_len(s) as int] == '\n',
        forall|i: int| 0 <= i < line_len(s) ==> s[i] != '\n',
    decreases s.len(),
{
    if s.len() > 0 && s.first() != '\n' {
        lemma_line_len(s.drop_first());
        assert forall|i: int| 0 <= i < line_len(s) implies s[i] != '\n' by {
            if i > 0 {
                assert(s.drop_first()[i - 1] == s[i]);
            }
        }
    }
}

/// A line that a newline ends loses a carriage return before that newline.
pub open spec fn without_return(line: Seq<char>) -> Seq<char> {
    if line.len() > 0 && line.last() == '\r' {
        line.drop_last()
    } else {
        line
    }
}

/// The lines of a text. A newline, alone or after a carriage return, ends a
/// line; it is optional at the end of the text.
pub open spec fn lines(s: Seq<char>) -> Seq<Seq<char>>
    decreases s.len(),
{
    let n = line_len(s) as int;
    if s.len() == 0 {
        seq![]
    } else if n >= s.len() {
        seq![s]
    } else {
        seq![without_return(s.take(n))] + lines(s.skip(n + 1))
    }
}

/// The texts that a list of character slices stands for.
pub open spec fn slices_view(slices: Seq<&[char]>) -> Seq<Seq<char>> {
    slices.map_values(|slice: &[char]| slice@)
}

pub fn split_lines<'a>(s: &'a [char]) -> (found: Vec<&'a [char]>)
    ensures
        slices_view(found@) == lines(s@),
{
    let mut found: Vec<&'a [char]> = Vec::new();
    let mut start: usize = 0;
    assert(s@.skip(0) == s@);
    while start < s.len()
        invariant
            start <= s@.len(),
            slices_view(found@) + lines(s@.skip(start as int)) == lines(s@),
        decreases s@.len() - start,
    {
        let ghost rest = s@.skip(start as int);
        let mut end: usize = start;
        assert(s@.skip(start as int).skip(0) == rest);
        while end < s.len() && s[end] != '\n'
            invariant
                start <= end <= s@.len(),
                rest == s@.skip(start as int),
                line_len(rest) == (end - start) + line_len(rest.skip(end - start)),
            decreases s@.len() - end,
        {
            assert(rest.skip(end - start).drop_first() == rest.skip(end + 1 - start));
            end += 1;
        }
        if end < s.len() {
            let line = &s[start..end];
            assert(line@ == rest.take(end - start));
            if line.len() > 0 && line[line.len() - 1] == '\r' {
                let line = &s[start..end - 1];
                assert(line@ == rest.take(end - start).drop_last());
                found.push(line);
            } else {
                found.push(line);
            }
            assert(rest.skip(end - start + 1) == s@.skip(end + 1));
            start = end + 1;
        } else {
            let line = &s[start..end];
            found.push(line);
            start = end;
        }
    }
    found
}

/// The run of characters other than white space at the end of a text.
pub open spec fn trailing_word(s: Seq<char>) -> Seq<char>
    decreases s.len(),
{
    if s.len() == 0 || is_space(s.last()) {
        seq![]
    } else {
        trailing_word(s.drop_last()).push(s.last())
    }
}

/// The last of the words that white space separates, if there is one.
pub open spec fn last_word(s: Seq<char>) -> Option<Seq<char>> {
    if trim_end(s).len() == 0 {
        None
    } else {
        Some(trailing_word(trim_end(s)))
    }
}

pub fn last_word_chars<'a>(s: &'a [char]) -> (word: Option<&'a [char]>)
    ensures
        match word {
            Some(word) => last_word(s@) == Some(word@),
            None => last_word(s@) is None,
        },
{
    let body = trim_end_chars(s);
    if body.len() == 0 {
        return None;
    }
    let n: usize = body.len();
    let mut start: usize = n;
    assert(body@.take(n as int) == body@);
    while start > 0 && !is_whitespace(body[start - 1])
        invariant
            start <= n == body@.len(),
            trailing_word(body@) == trailing_word(body@.take(start as int)) + body@.skip(
                start as int,
            ),
        decreases start,
    {
        let ghost shorter = body@.take(start - 1);
        assert(body@.take(start as int).drop_last() == shorter);
        start -= 1;
    }
    let word = &body[start..n];
    Some(word)
}

// ---------------------------------------------------------------------------
// Facts about texts
// ---------------------------------------------------------------------------

/// A text splits at a character where it was put, if that is the first of it.
pub proof fn lemma_split_once_at(before: Seq<char>, c: char, after: Seq<char>)
    requires
        !before.contains(c),
    ensures
        split_once(before + seq![c] + after, seq![c]) == Some((before, after)),
{
    let s = before + seq![c] + after;
    let n = before.len() as int;
    assert(s.subrange(n, n + 1) =~= seq![c]);
    assert forall|j: int| 0 <= j < n implies !#[trigger] occurs_at(s, seq![c], j) by {
        assert(s.subrange(j, j + 1)[0] == before[j]);
    }
    lemma_find_is(s, seq![c], n);
}

/// What occurs in a part of a text occurs in the text.
pub proof fn lemma_occurs_in_part(s: Seq<char>, start: int, end: int, pattern: Seq<char>)
    requires
        0 <= start <= end <= s.len(),
        occurs(s.subrange(start, end), pattern),
    ensures
        occurs(s, pattern),
{
    let part = s.subrange(start, end);
    let i = choose|i: int| occurs_at(part, pattern, i);
    assert(s.subrange(start + i, start + i + pattern.len()) =~= part.subrange(
        i,
        i + pattern.len(),
    ));
    assert(occurs_at(s, pattern, start + i));
}

/// Trimming the start takes away a prefix.
pub proof fn lemma_trim_start_suffix(s: Seq<char>)
    ensures
        trim_start(s).len() <= s.len(),
        trim_start(s) == s.skip(s.len() - trim_start(s).len()),
        trim_start(s).len() > 0 ==> !is_space(trim_start(s).first()),
    decreases s.len(),
{
    if s.len() > 0 && is_space(s.first()) {
        let rest = s.drop_first();
        lemma_trim_start_suffix(rest);
    }
}

/// Trimming the end takes away a suffix.
pub proof fn lemma_trim_end_prefix(s: Seq<char>)
    ensures
        trim_end(s).len() <= s.len(),
        trim_end(s) == s.take(trim_end(s).len() as int),
        trim_end(s).len() > 0 ==> !is_space(trim_end(s).last()),
        s.len() > 0 && !is_space(s.first()) ==> trim_end(s).len() > 0,
    decreases s.len(),
{
    if s.len() > 0 && is_space(s.last()) {
        let rest = s.drop_last();
        lemma_trim_end_prefix(rest);
    }
}

/// A trimmed text stays as it is when it is trimmed again.
pub proof fn lemma_trim_idempotent(s: Seq<char>)
    ensures
        trim(trim(s)) == trim(s),
{
    let middle = trim_start(s);
    lemma_trim_start_suffix(s);
    lemma_trim_end_prefix(middle);
}

/// A text that starts with something else than white space is not blank.
pub proof fn lemma_not_blank(s: Seq<char>)
    requires
        s.len() > 0,
        !is_space(s.first()),
    ensures
        !is_blank(s),
{
    lemma_trim_end_prefix(s);
}

// ---------------------------------------------------------------------------
// Facts about lines
// ---------------------------------------------------------------------------

/// A text of one line, without a newline in it.
pub open spec fn is_one_line(s: Seq<char>) -> bool {
    !s.contains('\n')
}

/// How many newlines a text has.
pub open spec fn newlines(s: Seq<char>) -> nat
    decreases s.len(),
{
    if s.len() == 0 {
        0
    } else {
        newlines(s.drop_last()) + if s.last() == '\n' {
            1nat
        } else {
            0nat
        }
    }
}

pub proof fn lemma_newlines_concat(a: Seq<char>, b: Seq<char>)
    ensures
        newlines(a + b) == newlines(a) + newlines(b),
    decreases b.len(),
{
    if b.len() > 0 {
        lemma_newlines_concat(a, b.drop_last());
        assert((a + b).drop_last() =~= a + b.drop_last());
    }
}

pub proof fn lemma_one_line_has_no_newlines(s: Seq<char>)
    requires
        is_one_line(s),
    ensures
        newlines(s) == 0,
    decreases s.len(),
{
    if s.len() > 0 {
        lemma_one_line_has_no_newlines(s.drop_last());
    }
}

/// A text begins with the same line, whatever follows the newline.
proof fn lemma_line_len_append(a: Seq<char>, b: Seq<char>)
    requires
        line_len(a) < a.len(),
    ensures
        line_len(a + b) == line_len(a),
    decreases a.len(),
{
    if a.first() != '\n' {
        assert((a + b).drop_first() =~= a.drop_first() + b);
        lemma_line_len_append(a.drop_first(), b);
    }
}

/// Where a text ends with a newline, what follows it has lines of its own.
pub proof fn lemma_lines_append(a: Seq<char>, b: Seq<char>)
    requires
        a.len() == 0 || a.last() == '\n',
    ensures
        lines(a + b) == lines(a) + lines(b),
    decreases a.len(),
{
    if a.len() > 0 {
        let n = line_len(a) as int;
        lemma_line_len(a);
        lemma_line_len_append(a, b);
        assert((a + b).take(n) =~= a.take(n));
        assert((a + b).skip(n + 1) =~= a.skip(n + 1) + b);
        lemma_lines_append(a.skip(n + 1), b);
    }
}

/// Each line of a text is a part of it, and has no newline in it.
pub proof fn lemma_lines_are_parts(s: Seq<char>, i: int)
    requires
        0 <= i < lines(s).len(),
    ensures
        is_one_line(lines(s)[i]),
        exists|start: int, end: int|
            0 <= start <= end <= s.len() && lines(s)[i] == #[trigger] s.subrange(start, end),
    decreases s.len(),
{
    let n = line_len(s) as int;
    lemma_line_len(s);
    if n >= s.len() {
        assert(s =~= s.subrange(0, s.len() as int));
    } else {
        let rest = s.skip(n + 1);
        if i == 0 {
            let line = without_return(s.take(n));
            assert(line =~= s.subrange(0, line.len() as int));
        } else {
            lemma_lines_are_parts(rest, i - 1);
            let (start, end) = choose|start: int, end: int|
                0 <= start <= end <= rest.len() && lines(rest)[i - 1] == #[trigger] rest.subrange(
                    start,
                    end,
                );
            assert(rest.subrange(start, end) =~= s.subrange(start + n + 1, end + n + 1));
        }
    }
}

/// A text has one newline between each two of its lines, and one more where it
/// ends with one.
pub proof fn lemma_newlines_between_lines(s: Seq<char>)
    requires
        s.len() > 0,
    ensures
        lines(s).len() > 0,
        newlines(s) == lines(s).len() - 1 + if s.last() == '\n' {
            1int
        } else {
            0int
        },
    decreases s.len(),
{
    let n = line_len(s) as int;
    lemma_line_len(s);
    if n >= s.len() {
        lemma_one_line_has_no_newlines(s);
    } else {
        let rest = s.skip(n + 1);
        let first = s.take(n);
        lemma_one_line_has_no_newlines(first);
        assert(s =~= first + seq!['\n'] + rest);
        lemma_newlines_concat(first + seq!['\n'], rest);
        lemma_newlines_concat(first, seq!['\n']);
        assert(newlines(seq!['\n']) == 1) by {
            reveal_with_fuel(newlines, 2);
        }
        if rest.len() > 0 {
            lemma_newlines_between_lines(rest);
        }
    }
}

// ---------------------------------------------------------------------------
// Laws
// ---------------------------------------------------------------------------

/// White space is what Unicode gives the property `White_Space`: these 25 code
/// points.
pub proof fn law_white_space(c: char)
    ensures
        is_space(c) <==> seq![
            9int,
            10,
            11,
            12,
            13,
            32,
            133,
            160,
            5760,
            8192,
            8193,
            8194,
            8195,
            8196,
            8197,
            8198,
            8199,
            8200,
            8201,
            8202,
            8232,
            8233,
            8239,
            8287,
            12288,
        ].contains(c as int),
{
    let codes = seq![
        9int,
        10,
        11,
        12,
        13,
        32,
        133,
        160,
        5760,
        8192,
        8193,
        8194,
        8195,
        8196,
        8197,
        8198,
        8199,
        8200,
        8201,
        8202,
        8232,
        8233,
        8239,
        8287,
        12288,
    ];
    let n = c as int;
    if is_space(c) {
        let k = if n <= 13 {
            n - 9
        } else if n == 32 {
            5
        } else if n == 133 {
            6
        } else if n == 160 {
            7
        } else if n == 5760 {
            8
        } else if n <= 8202 {
            n - 8192 + 9
        } else if n == 8232 {
            20
        } else if n == 8233 {
            21
        } else if n == 8239 {
            22
        } else if n == 8287 {
            23
        } else {
            24
        };
        assert(codes[k] == n);
    }
}

/// A text is blank if and only if it has nothing but white space in it.
pub proof fn law_blank_is_all_white_space(s: Seq<char>)
    ensures
        is_blank(s) <==> forall|i: int| 0 <= i < s.len() ==> is_space(#[trigger] s[i]),
    decreases s.len(),
{
    let rest = trim_start(s);
    law_trim_takes_white_space_alone(s);
    lemma_trim_start_suffix(s);
    lemma_trim_end_prefix(rest);
    if forall|i: int| 0 <= i < s.len() ==> is_space(#[trigger] s[i]) {
        if rest.len() > 0 {
            assert(rest.first() == s[s.len() - rest.len()]);
        }
    }
}

/// Trimming takes white space away, and nothing else: what is left stands in
/// the text with nothing but white space around it, and has none at its ends.
pub proof fn law_trim_takes_white_space_alone(s: Seq<char>)
    ensures
        exists|a: int, b: int|
            0 <= a <= b <= s.len() && trim(s) == #[trigger] s.subrange(a, b) && (forall|i: int|
                0 <= i < s.len() && !(a <= i < b) ==> is_space(#[trigger] s[i])),
        trim(s).len() > 0 ==> !is_space(trim(s).first()) && !is_space(trim(s).last()),
        exists|a: int|
            0 <= a <= s.len() && trim_start(s) == #[trigger] s.skip(a) && forall|i: int|
                0 <= i < a ==> is_space(#[trigger] s[i]),
        exists|b: int|
            0 <= b <= s.len() && trim_end(s) == #[trigger] s.take(b) && forall|i: int|
                b <= i < s.len() ==> is_space(#[trigger] s[i]),
        trim_start(s).len() > 0 ==> !is_space(trim_start(s).first()),
        trim_end(s).len() > 0 ==> !is_space(trim_end(s).last()),
{
    lemma_trimmed_start(s);
    lemma_trimmed_end(s);
    let rest = trim_start(s);
    lemma_trimmed_end(rest);
    lemma_trim_start_suffix(s);
    lemma_trim_end_prefix(s);
    lemma_trim_end_prefix(rest);
    let a = s.len() - rest.len();
    let b = a + trim(s).len();
    assert(s.subrange(a, b) =~= trim(s));
    assert forall|i: int| 0 <= i < s.len() && !(a <= i < b) implies is_space(#[trigger] s[i]) by {
        if i >= b {
            assert(rest[i - a] == s[i]);
        }
    }
    assert(s.skip(a) == rest);
    assert(s.take(trim_end(s).len() as int) == trim_end(s));
}

proof fn lemma_trimmed_start(s: Seq<char>)
    ensures
        trim_start(s).len() <= s.len(),
        forall|i: int| 0 <= i < s.len() - trim_start(s).len() ==> is_space(#[trigger] s[i]),
    decreases s.len(),
{
    if s.len() > 0 && is_space(s.first()) {
        let rest = s.drop_first();
        lemma_trimmed_start(rest);
        assert forall|i: int| 0 <= i < s.len() - trim_start(s).len() implies is_space(
            #[trigger] s[i],
        ) by {
            if i > 0 {
                assert(rest[i - 1] == s[i]);
            }
        }
    }
}

proof fn lemma_trimmed_end(s: Seq<char>)
    ensures
        trim_end(s).len() <= s.len(),
        forall|i: int| trim_end(s).len() <= i < s.len() ==> is_space(#[trigger] s[i]),
    decreases s.len(),
{
    if s.len() > 0 && is_space(s.last()) {
        let rest = s.drop_last();
        lemma_trimmed_end(rest);
        assert forall|i: int| trim_end(s).len() <= i < s.len() implies is_space(
            #[trigger] s[i],
        ) by {
            if i < s.len() - 1 {
                assert(rest[i] == s[i]);
            }
        }
    }
}

/// Splitting at a separator loses nothing but the separator, and takes its
/// first occurrence, or its last one.
pub proof fn law_split_is_undone_by_joining(s: Seq<char>, separator: Seq<char>)
    ensures
        match split_once(s, separator) {
            Some((a, b)) => s == a + separator + b && forall|k: int|
                0 <= k < a.len() && k + separator.len() <= s.len() ==> #[trigger] s.subrange(
                    k,
                    k + separator.len(),
                ) != separator,
            None => forall|k: int|
                0 <= k && k + separator.len() <= s.len() ==> #[trigger] s.subrange(
                    k,
                    k + separator.len(),
                ) != separator,
        },
        match rsplit_once(s, separator) {
            Some((a, b)) => s == a + separator + b && forall|k: int|
                a.len() < k && k + separator.len() <= s.len() ==> #[trigger] s.subrange(
                    k,
                    k + separator.len(),
                ) != separator,
            None => split_once(s, separator) is None,
        },
{
    lemma_find_first(s, separator);
    lemma_rfind_last(s, separator);
    if let Some(i) = find(s, separator) {
        assert(s =~= s.take(i) + s.subrange(i, i + separator.len()) + s.skip(i + separator.len()));
    }
    if let Some(i) = rfind(s, separator) {
        assert(s =~= s.take(i) + s.subrange(i, i + separator.len()) + s.skip(i + separator.len()));
    }
    assert forall|k: int|
        0 <= k && k + separator.len() <= s.len() && #[trigger] s.subrange(k, k + separator.len())
            == separator implies occurs_at(s, separator, k) by {
    }
}

/// A text of one line is its own only line. A text with a newline in it has
/// the line before that, without a carriage return at its end, and then the
/// lines of what follows.
pub proof fn law_lines_end_at_newlines(line: Seq<char>, rest: Seq<char>)
    requires
        !line.contains('\n'),
    ensures
        line.len() > 0 ==> lines(line) == seq![line],
        lines(Seq::<char>::empty()) == Seq::<Seq<char>>::empty(),
        lines(line + seq!['\n'] + rest) == seq![
            if line.len() > 0 && line.last() == '\r' {
                line.drop_last()
            } else {
                line
            },
        ] + lines(rest),
{
    lemma_line_len(line);
    let s = line + seq!['\n'] + rest;
    lemma_line_len(s);
    let n = line_len(s) as int;
    assert(s[line.len() as int] == '\n');
    if n < line.len() {
        assert(s[n] == line[n]);
        assert(line.contains(line[n]));
    }
    assert(n == line.len());
    assert(s.take(n) =~= line);
    assert(s.skip(n + 1) =~= rest);
    if line_len(line) < line.len() {
        assert(line.contains(line[line_len(line) as int]));
    }
}

/// The last word of a text that ends with one is that word: a run of characters
/// other than white space, behind white space or at the start.
pub proof fn law_last_word(before: Seq<char>, word: Seq<char>, after: Seq<char>)
    requires
        word.len() > 0,
        forall|i: int| 0 <= i < word.len() ==> !is_space(#[trigger] word[i]),
        before.len() == 0 || is_space(before.last()),
        forall|i: int| 0 <= i < after.len() ==> is_space(#[trigger] after[i]),
    ensures
        last_word(before + word + after) == Some(word),
{
    let body = before + word;
    lemma_trim_end_of(body, after);
    assert(before + word + after =~= body + after);
    lemma_trailing_word_of(before, word);
}

/// White space behind a text that does not end with it is trimmed away.
pub proof fn lemma_trim_end_of(body: Seq<char>, after: Seq<char>)
    requires
        body.len() == 0 || !is_space(body.last()),
        forall|i: int| 0 <= i < after.len() ==> is_space(#[trigger] after[i]),
    ensures
        trim_end(body + after) == body,
    decreases after.len(),
{
    if after.len() > 0 {
        assert((body + after).drop_last() =~= body + after.drop_last());
        assert((body + after).last() == after[after.len() - 1]);
        lemma_trim_end_of(body, after.drop_last());
    } else {
        assert(body + after =~= body);
    }
}

/// White space before a text that does not start with it is trimmed away.
pub proof fn lemma_trim_start_of(before: Seq<char>, body: Seq<char>)
    requires
        body.len() == 0 || !is_space(body.first()),
        forall|i: int| 0 <= i < before.len() ==> is_space(#[trigger] before[i]),
    ensures
        trim_start(before + body) == body,
    decreases before.len(),
{
    if before.len() > 0 {
        assert((before + body).drop_first() =~= before.drop_first() + body);
        assert((before + body).first() == before[0]);
        lemma_trim_start_of(before.drop_first(), body);
    } else {
        assert(before + body =~= body);
    }
}

proof fn lemma_trailing_word_of(before: Seq<char>, word: Seq<char>)
    requires
        forall|i: int| 0 <= i < word.len() ==> !is_space(#[trigger] word[i]),
        before.len() == 0 || is_space(before.last()),
    ensures
        trailing_word(before + word) == word,
    decreases word.len(),
{
    if word.len() > 0 {
        assert((before + word).drop_last() =~= before + word.drop_last());
        assert((before + word).last() == word[word.len() - 1]);
        lemma_trailing_word_of(before, word.drop_last());
        assert(word =~= word.drop_last().push(word.last()));
    } else {
        assert(before + word =~= before);
        assert(trailing_word(before) =~= word);
    }
}

/// A text splits at its last separator where no other one begins behind it.
pub proof fn lemma_rsplit_once_at(before: Seq<char>, separator: Seq<char>, after: Seq<char>)
    requires
        separator.len() > 0,
        forall|j: int|
            before.len() < j && j + separator.len() <= before.len() + separator.len() + after.len()
                ==> #[trigger] (before + separator + after).subrange(j, j + separator.len())
                != separator,
    ensures
        rsplit_once(before + separator + after, separator) == Some((before, after)),
{
    let s = before + separator + after;
    let n = before.len() as int;
    assert(s.subrange(n, n + separator.len()) =~= separator);
    assert forall|j: int| n < j <= s.len() implies !#[trigger] occurs_at(s, separator, j) by {
    }
    lemma_rfind_is(s, separator, n);
    assert(s.take(n) =~= before);
    assert(s.skip(n + separator.len()) =~= after);
}

/// A pattern occurs in a text exactly where the text has something before it and
/// something behind it, both of which may be empty.
pub proof fn lemma_occurs_between(s: Seq<char>, pattern: Seq<char>)
    ensures
        occurs(s, pattern) <==> exists|a: Seq<char>, b: Seq<char>|
            s == #[trigger] (a + pattern + b),
{
    if occurs(s, pattern) {
        let i = choose|i: int| occurs_at(s, pattern, i);
        let (a, b) = (s.take(i), s.skip(i + pattern.len()));
        assert(s =~= a + pattern + b);
    }
    if exists|a: Seq<char>, b: Seq<char>| s == #[trigger] (a + pattern + b) {
        let (a, b) = choose|a: Seq<char>, b: Seq<char>| s == #[trigger] (a + pattern + b);
        let i = a.len() as int;
        assert(s.subrange(i, i + pattern.len()) =~= pattern);
        assert(occurs_at(s, pattern, i));
    }
}

/// A prefix that is stripped off is the one that stands there, and so is a suffix: what
/// is left makes the text again with it.
pub proof fn law_stripping_is_undone_by_joining(s: Seq<char>, affix: Seq<char>, rest: Seq<char>)
    ensures
        strip_prefix(s, affix) == Some(rest) <==> s == affix + rest,
        strip_suffix(s, affix) == Some(rest) <==> s == rest + affix,
{
    let n = affix.len() as int;
    if strip_prefix(s, affix) == Some(rest) {
        assert(s =~= affix + rest);
    }
    if s == affix + rest {
        assert(s.subrange(0, n) =~= affix);
        assert(s.skip(n) =~= rest);
    }
    if strip_suffix(s, affix) == Some(rest) {
        assert(s =~= rest + affix);
    }
    if s == rest + affix {
        assert(s.subrange(s.len() - n, s.len() as int) =~= affix);
        assert(s.take(s.len() - n) =~= rest);
    }
}

/// A character is taken away from the start of a text, or from its end, as often as it
/// stands there, and nothing else is.
pub proof fn law_all_of_a_character_is_taken_away(s: Seq<char>, c: char)
    ensures
        exists|k: int|
            0 <= k <= s.len() && trim_start_matches(s, c) == #[trigger] s.skip(k) && (forall|i: int|
                0 <= i < k ==> s[i] == c) && (k < s.len() ==> s[k] != c),
        exists|k: int|
            0 <= k <= s.len() && trim_end_matches(s, c) == #[trigger] s.take(k) && (forall|i: int|
                k <= i < s.len() ==> s[i] == c) && (k > 0 ==> s[k - 1] != c),
{
    lemma_start_matches(s, c);
    lemma_end_matches(s, c);
}

proof fn lemma_start_matches(s: Seq<char>, c: char)
    ensures
        exists|k: int|
            0 <= k <= s.len() && trim_start_matches(s, c) == #[trigger] s.skip(k) && (forall|i: int|
                0 <= i < k ==> s[i] == c) && (k < s.len() ==> s[k] != c),
    decreases s.len(),
{
    if s.len() > 0 && s.first() == c {
        let rest = s.drop_first();
        lemma_start_matches(rest, c);
        let k = choose|k: int|
            0 <= k <= rest.len() && trim_start_matches(rest, c) == #[trigger] rest.skip(k) && (
            forall|i: int| 0 <= i < k ==> rest[i] == c) && (k < rest.len() ==> rest[k] != c);
        assert(rest.skip(k) =~= s.skip(k + 1));
        assert forall|i: int| 0 <= i < k + 1 implies s[i] == c by {
            if i > 0 {
                assert(rest[i - 1] == s[i]);
            }
        }
    } else {
        assert(s.skip(0) =~= s);
    }
}

proof fn lemma_end_matches(s: Seq<char>, c: char)
    ensures
        exists|k: int|
            0 <= k <= s.len() && trim_end_matches(s, c) == #[trigger] s.take(k) && (forall|i: int|
                k <= i < s.len() ==> s[i] == c) && (k > 0 ==> s[k - 1] != c),
    decreases s.len(),
{
    if s.len() > 0 && s.last() == c {
        let rest = s.drop_last();
        lemma_end_matches(rest, c);
        let k = choose|k: int|
            0 <= k <= rest.len() && trim_end_matches(rest, c) == #[trigger] rest.take(k) && (
            forall|i: int| k <= i < rest.len() ==> rest[i] == c) && (k > 0 ==> rest[k - 1] != c);
        assert(rest.take(k) =~= s.take(k));
        assert forall|i: int| k <= i < s.len() implies s[i] == c by {
            if i < s.len() - 1 {
                assert(rest[i] == s[i]);
            }
        }
    } else {
        assert(s.take(s.len() as int) =~= s);
    }
}

} // verus!
