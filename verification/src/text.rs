//! Text as sequences of characters: conversion between strings and
//! character vectors, and the search for a character or a pattern.
//!
//! All positions are counted in characters, never in bytes.

use vstd::prelude::*;

verus! {

/// `String::push` appends one character to the end of the string and leaves
/// the characters before it as they were.
pub assume_specification[ String::push ](s: &mut String, c: char)
    ensures
        final(s)@ == old(s)@.push(c),
;

/// An index of the executable code, read as a mathematical integer.
pub open spec fn index_view(r: Option<usize>) -> Option<int> {
    match r {
        Some(i) => Some(i as int),
        None => None,
    }
}

/// How many times `c` occurs in `text`.
pub open spec fn count(text: Seq<char>, c: char) -> nat
    decreases text.len(),
{
    if text.len() == 0 {
        0
    } else {
        count(text.drop_last(), c) + if text.last() == c {
            1nat
        } else {
            0nat
        }
    }
}

/// `i` is the place of the occurrence of `c` in `text` that has exactly `n`
/// occurrences before it.
pub open spec fn is_nth(text: Seq<char>, c: char, n: nat, i: int) -> bool {
    &&& 0 <= i < text.len()
    &&& text[i] == c
    &&& count(text.take(i), c) == n
}

/// The place of the occurrence of `c` in `text` that has `n` occurrences
/// before it, if `c` occurs more than `n` times.
pub open spec fn nth_index(text: Seq<char>, c: char, n: nat) -> Option<int> {
    if exists|i: int| is_nth(text, c, n, i) {
        Some(choose|i: int| is_nth(text, c, n, i))
    } else {
        None
    }
}

/// `pattern` stands in `text` at place `i`.
pub open spec fn occurs_at(text: Seq<char>, pattern: Seq<char>, i: int) -> bool {
    &&& 0 <= i
    &&& i + pattern.len() <= text.len()
    &&& text.subrange(i, i + pattern.len()) == pattern
}

/// `pattern` stands in `text` at place `i` and at no place before it.
pub open spec fn is_first_occurrence(text: Seq<char>, pattern: Seq<char>, i: int) -> bool {
    &&& occurs_at(text, pattern, i)
    &&& forall|j: int| 0 <= j < i ==> !occurs_at(text, pattern, j)
}

/// The first place at which `pattern` stands in `text`, if there is one.
pub open spec fn first_occurrence(text: Seq<char>, pattern: Seq<char>) -> Option<int> {
    if exists|i: int| is_first_occurrence(text, pattern, i) {
        Some(choose|i: int| is_first_occurrence(text, pattern, i))
    } else {
        None
    }
}

/// One more character counts for one more occurrence exactly when it is `c`.
pub proof fn lemma_count_step(text: Seq<char>, c: char, i: int)
    requires
        0 <= i < text.len(),
    ensures
        count(text.take(i + 1), c) == count(text.take(i), c) + if text[i] == c {
            1nat
        } else {
            0nat
        },
{
    assert(text.take(i + 1).drop_last() =~= text.take(i));
}

/// A longer prefix holds at least as many occurrences.
pub proof fn lemma_count_monotone(text: Seq<char>, c: char, i: int, j: int)
    requires
        0 <= i <= j <= text.len(),
    ensures
        count(text.take(i), c) <= count(text.take(j), c),
    decreases j - i,
{
    if i < j {
        lemma_count_monotone(text, c, i, j - 1);
        lemma_count_step(text, c, j - 1);
    }
}

/// At most one place has exactly `n` occurrences of `c` before it and holds
/// `c` itself.
pub proof fn lemma_nth_unique(text: Seq<char>, c: char, n: nat, i: int, j: int)
    requires
        is_nth(text, c, n, i),
        is_nth(text, c, n, j),
    ensures
        i == j,
{
    if i < j {
        lemma_count_step(text, c, i);
        lemma_count_monotone(text, c, i + 1, j);
    } else if j < i {
        lemma_count_step(text, c, j);
        lemma_count_monotone(text, c, j + 1, i);
    }
}

/// The place that `is_nth` describes is the one that `nth_index` names.
pub proof fn lemma_nth_index(text: Seq<char>, c: char, n: nat, i: int)
    requires
        is_nth(text, c, n, i),
    ensures
        nth_index(text, c, n) == Some(i),
{
    let k = choose|k: int| is_nth(text, c, n, k);
    lemma_nth_unique(text, c, n, i, k);
}

/// With no more than `n` occurrences in all, none of them is the one after
/// `n` others.
pub proof fn lemma_nth_absent(text: Seq<char>, c: char, n: nat)
    requires
        count(text, c) <= n,
    ensures
        nth_index(text, c, n) is None,
{
    assert forall|i: int| !is_nth(text, c, n, i) by {
        if is_nth(text, c, n, i) {
            lemma_count_step(text, c, i);
            lemma_count_monotone(text, c, i + 1, text.len() as int);
            assert(text.take(text.len() as int) =~= text);
        }
    }
}

/// The place that `is_first_occurrence` describes is the one that
/// `first_occurrence` names.
pub proof fn lemma_first_occurrence(text: Seq<char>, pattern: Seq<char>, i: int)
    requires
        is_first_occurrence(text, pattern, i),
    ensures
        first_occurrence(text, pattern) == Some(i),
{
    let k = choose|k: int| is_first_occurrence(text, pattern, k);
    assert(k == i) by {
        if k < i {
            assert(!occurs_at(text, pattern, k));
        } else if i < k {
            assert(!occurs_at(text, pattern, i));
        }
    }
}

/// The characters of `s`, in order.
pub fn chars_of(s: &str) -> (chars: Vec<char>)
    ensures
        chars@ == s@,
{
    let mut chars: Vec<char> = Vec::new();
    for c in it: s.chars()
        invariant
            chars@ == it.seq().take(it.index() as int),
    {
        chars.push(c);
    }
    chars
}

/// The string made of the characters `chars[from..to]`.
pub fn string_of(chars: &Vec<char>, from: usize, to: usize) -> (s: String)
    requires
        from <= to <= chars.len(),
    ensures
        s@ == chars@.subrange(from as int, to as int),
{
    let mut s = String::new();
    let mut i: usize = from;
    while i < to
        invariant
            from <= i <= to <= chars.len(),
            s@ == chars@.subrange(from as int, i as int),
        decreases to - i,
    {
        s.push(chars[i]);
        i += 1;
    }
    s
}

/// Finds the occurrence of `c` in `text` that has `n` occurrences before it.
pub fn find_nth(text: &Vec<char>, c: char, n: usize) -> (r: Option<usize>)
    ensures
        index_view(r) == nth_index(text@, c, n as nat),
{
    let mut seen: usize = 0;
    let mut i: usize = 0;
    while i < text.len()
        invariant
            i <= text.len(),
            seen <= n,
            seen == count(text@.take(i as int), c),
        decreases text.len() - i,
    {
        proof {
            lemma_count_step(text@, c, i as int);
        }
        if text[i] == c {
            if seen == n {
                proof {
                    lemma_nth_index(text@, c, n as nat, i as int);
                }
                return Some(i);
            }
            seen += 1;
        }
        i += 1;
    }
    proof {
        assert(text@.take(i as int) =~= text@);
        lemma_nth_absent(text@, c, n as nat);
    }
    None
}

/// Tells whether `pattern` stands in `text` at place `i`.
pub fn matches_at(text: &Vec<char>, pattern: &Vec<char>, i: usize) -> (b: bool)
    requires
        i + pattern.len() <= text.len(),
    ensures
        b == occurs_at(text@, pattern@, i as int),
{
    let mut k: usize = 0;
    while k < pattern.len()
        invariant
            k <= pattern.len(),
            i + pattern.len() <= text.len(),
            forall|j: int| 0 <= j < k ==> text@[i + j] == pattern@[j],
        decreases pattern.len() - k,
    {
        if text[i + k] != pattern[k] {
            assert(text@.subrange(i as int, i + pattern.len())[k as int] == text@[i + k]);
            return false;
        }
        k += 1;
    }
    assert(text@.subrange(i as int, i + pattern.len()) =~= pattern@);
    true
}

/// Finds the first place at which `pattern` stands in `text`.
pub fn find(text: &Vec<char>, pattern: &Vec<char>) -> (r: Option<usize>)
    ensures
        index_view(r) == first_occurrence(text@, pattern@),
{
    let n = text.len();
    let m = pattern.len();
    if m > n {
        return None;
    }
    let last: usize = n - m;
    let mut i: usize = 0;
    loop
        invariant
            n == text.len(),
            m == pattern.len(),
            last == n - m,
            i <= last,
            forall|j: int| 0 <= j < i ==> !occurs_at(text@, pattern@, j),
        decreases last - i,
    {
        if matches_at(text, pattern, i) {
            proof {
                lemma_first_occurrence(text@, pattern@, i as int);
            }
            return Some(i);
        }
        if i == last {
            return None;
        }
        i += 1;
    }
}

/// The characters that `trim` takes from both ends of a text: those with the
/// Unicode property `White_Space`.
pub open spec fn is_space(c: char) -> bool {
    ||| '\u{9}' <= c <= '\u{D}'
    ||| c == '\u{20}'
    ||| c == '\u{85}'
    ||| c == '\u{A0}'
    ||| c == '\u{1680}'
    ||| '\u{2000}' <= c <= '\u{200A}'
    ||| c == '\u{2028}'
    ||| c == '\u{2029}'
    ||| c == '\u{202F}'
    ||| c == '\u{205F}'
    ||| c == '\u{3000}'
}

/// `text` without the white space at its start.
pub open spec fn trim_start(text: Seq<char>) -> Seq<char>
    decreases text.len(),
{
    if text.len() > 0 && is_space(text.first()) {
        trim_start(text.drop_first())
    } else {
        text
    }
}

/// `text` without the white space at its end.
pub open spec fn trim_end(text: Seq<char>) -> Seq<char>
    decreases text.len(),
{
    if text.len() > 0 && is_space(text.last()) {
        trim_end(text.drop_last())
    } else {
        text
    }
}

/// `text` without the white space at its start and at its end.
pub open spec fn trim(text: Seq<char>) -> Seq<char> {
    trim_end(trim_start(text))
}

/// A line as it stood before a line feed: a carriage return at its end
/// belongs to the line ending.
pub open spec fn without_return(line: Seq<char>) -> Seq<char> {
    if line.len() > 0 && line.last() == '\r' {
        line.drop_last()
    } else {
        line
    }
}

/// The lines of `text`. A line ends at a line feed, or at a carriage return
/// and the line feed that follows it; what stands after the last line feed is
/// a line of its own unless it is empty.
pub open spec fn lines(text: Seq<char>) -> Seq<Seq<char>>
    decreases text.len(),
{
    if text.len() == 0 {
        Seq::empty()
    } else {
        match nth_index(text, '\n', 0) {
            Some(i) => if 0 <= i < text.len() {
                seq![without_return(text.take(i))] + lines(text.skip(i + 1))
            } else {
                seq![text]
            },
            None => seq![text],
        }
    }
}

/// Tells whether `c` is white space.
pub fn is_whitespace(c: char) -> (b: bool)
    ensures
        b == is_space(c),
{
    ('\u{9}' <= c && c <= '\u{D}') || c == '\u{20}' || c == '\u{85}' || c == '\u{A0}' || c
        == '\u{1680}' || ('\u{2000}' <= c && c <= '\u{200A}') || c == '\u{2028}' || c
        == '\u{2029}' || c == '\u{202F}' || c == '\u{205F}' || c == '\u{3000}'
}

/// The bounds of `chars[from..to]` without the white space at its two ends.
pub fn trim_bounds(chars: &Vec<char>, from: usize, to: usize) -> (r: (usize, usize))
    requires
        from <= to <= chars.len(),
    ensures
        from <= r.0 <= r.1 <= to,
        chars@.subrange(r.0 as int, r.1 as int) == trim(chars@.subrange(from as int, to as int)),
{
    let mut lo: usize = from;
    while lo < to && is_whitespace(chars[lo])
        invariant
            from <= lo <= to <= chars.len(),
            trim_start(chars@.subrange(from as int, to as int)) == trim_start(
                chars@.subrange(lo as int, to as int),
            ),
        decreases to - lo,
    {
        assert(chars@.subrange(lo as int, to as int).drop_first() =~= chars@.subrange(
            lo + 1,
            to as int,
        ));
        lo += 1;
    }
    let mut hi: usize = to;
    while lo < hi && is_whitespace(chars[hi - 1])
        invariant
            lo <= hi <= to <= chars.len(),
            trim_end(chars@.subrange(lo as int, to as int)) == trim_end(
                chars@.subrange(lo as int, hi as int),
            ),
        decreases hi - lo,
    {
        assert(chars@.subrange(lo as int, hi as int).drop_last() =~= chars@.subrange(
            lo as int,
            hi - 1,
        ));
        hi -= 1;
    }
    (lo, hi)
}

/// The texts that a vector of character vectors holds.
pub open spec fn texts(rows: Seq<Vec<char>>) -> Seq<Seq<char>> {
    Seq::new(rows.len(), |i: int| rows[i]@)
}

/// Splits `text` into its lines.
pub fn split_lines(text: &Vec<char>) -> (rows: Vec<Vec<char>>)
    ensures
        texts(rows@) == lines(text@),
{
    let mut rows: Vec<Vec<char>> = Vec::new();
    let mut row: Vec<char> = Vec::new();
    let mut start: usize = 0;
    let mut i: usize = 0;
    proof {
        assert(text@.skip(0) =~= text@);
        assert(texts(rows@) + lines(text@) =~= lines(text@));
    }
    while i < text.len()
        invariant
            start <= i <= text.len(),
            row@ == text@.subrange(start as int, i as int),
            forall|j: int| start <= j < i ==> text@[j] != '\n',
            lines(text@) == texts(rows@) + lines(text@.skip(start as int)),
        decreases text.len() - i,
    {
        let c = text[i];
        if c == '\n' {
            let ghost rest = text@.skip(start as int);
            let ghost before = texts(rows@);
            proof {
                lemma_line_feed(rest, i - start);
                assert(rest.take(i - start) =~= row@);
                assert(rest.skip(i - start + 1) =~= text@.skip(i + 1));
            }
            if row.len() > 0 && row[row.len() - 1] == '\r' {
                row.pop();
            }
            rows.push(row);
            proof {
                assert(texts(rows@) =~= before + seq![without_return(rest.take(i - start))]);
            }
            row = Vec::new();
            start = i + 1;
        } else {
            row.push(c);
        }
        i += 1;
    }
    let ghost rest = text@.skip(start as int);
    let ghost before = texts(rows@);
    if row.len() > 0 {
        proof {
            assert(rest =~= row@);
            lemma_no_line_feed(rest);
        }
        rows.push(row);
        proof {
            assert(texts(rows@) =~= before + seq![rest]);
        }
    } else {
        proof {
            assert(rest.len() == 0);
            assert(before + Seq::<Seq<char>>::empty() =~= before);
        }
    }
    rows
}

/// A line feed with none before it is the first one.
pub proof fn lemma_line_feed(text: Seq<char>, i: int)
    requires
        0 <= i < text.len(),
        text[i] == '\n',
        forall|j: int| 0 <= j < i ==> text[j] != '\n',
    ensures
        nth_index(text, '\n', 0) == Some(i),
{
    lemma_count_none(text.take(i), '\n');
    lemma_nth_index(text, '\n', 0, i);
}

/// A text without a line feed has no first one.
pub proof fn lemma_no_line_feed(text: Seq<char>)
    requires
        forall|j: int| 0 <= j < text.len() ==> text[j] != '\n',
    ensures
        nth_index(text, '\n', 0) is None,
{
    lemma_count_none(text, '\n');
    lemma_nth_absent(text, '\n', 0);
}

/// A character that stands nowhere in a text is counted zero times.
pub proof fn lemma_count_none(text: Seq<char>, c: char)
    requires
        forall|j: int| 0 <= j < text.len() ==> text[j] != c,
    ensures
        count(text, c) == 0,
    decreases text.len(),
{
    if text.len() > 0 {
        lemma_count_none(text.drop_last(), c);
    }
}

/// A character that is counted zero times stands nowhere in the text.
pub proof fn lemma_count_zero(text: Seq<char>, c: char)
    requires
        count(text, c) == 0,
    ensures
        forall|j: int| 0 <= j < text.len() ==> text[j] != c,
    decreases text.len(),
{
    if text.len() > 0 {
        lemma_count_zero(text.drop_last(), c);
        assert forall|j: int| 0 <= j < text.len() implies text[j] != c by {
            if j < text.len() - 1 {
                assert(text[j] == text.drop_last()[j]);
            }
        }
    }
}

/// A character that stands somewhere in a text has a first occurrence.
pub proof fn lemma_first_exists(text: Seq<char>, c: char, j: int)
    requires
        0 <= j < text.len(),
        text[j] == c,
    ensures
        nth_index(text, c, 0) is Some,
    decreases j,
{
    if count(text.take(j), c) == 0 {
        lemma_nth_index(text, c, 0, j);
    } else {
        if forall|k: int| 0 <= k < j ==> text.take(j)[k] != c {
            lemma_count_none(text.take(j), c);
        }
        let k = choose|k: int| 0 <= k < j && text.take(j)[k] == c;
        lemma_first_exists(text, c, k);
    }
}

/// No line holds a line feed.
pub proof fn lemma_lines_hold_no_feed(text: Seq<char>)
    ensures
        forall|k: int, j: int|
            0 <= k < lines(text).len() && 0 <= j < lines(text)[k].len() ==> lines(text)[k][j]
                != '\n',
    decreases text.len(),
{
    if text.len() > 0 {
        match nth_index(text, '\n', 0) {
            Some(i) => {
                if 0 <= i < text.len() {
                    let head = without_return(text.take(i));
                    let rest = lines(text.skip(i + 1));
                    lemma_lines_hold_no_feed(text.skip(i + 1));
                    lemma_count_zero(text.take(i), '\n');
                    assert forall|k: int, j: int|
                        0 <= k < lines(text).len() && 0 <= j < lines(text)[k].len() implies lines(
                        text,
                    )[k][j] != '\n' by {
                        if k == 0 {
                            assert(lines(text)[0] == head);
                            assert(head[j] == text.take(i)[j]);
                        } else {
                            assert(lines(text)[k] == rest[k - 1]);
                        }
                    }
                } else {
                    assert(is_nth(text, '\n', 0, i));
                }
            },
            None => {
                assert forall|j: int| 0 <= j < text.len() implies text[j] != '\n' by {
                    if text[j] == '\n' {
                        lemma_first_exists(text, '\n', j);
                    }
                }
            },
        }
    }
}

/// What `trim_start` leaves is the text from some place on, and does not
/// start with white space.
pub proof fn lemma_trim_start_shape(text: Seq<char>) -> (a: int)
    ensures
        0 <= a <= text.len(),
        trim_start(text) == text.skip(a),
        a < text.len() ==> !is_space(text[a]),
    decreases text.len(),
{
    if text.len() > 0 && is_space(text.first()) {
        let a = lemma_trim_start_shape(text.drop_first());
        assert(text.drop_first().skip(a) =~= text.skip(a + 1));
        a + 1
    } else {
        assert(text.skip(0) =~= text);
        0
    }
}

/// What `trim_end` leaves is the text up to some place, and does not end
/// with white space.
pub proof fn lemma_trim_end_shape(text: Seq<char>) -> (b: int)
    ensures
        0 <= b <= text.len(),
        trim_end(text) == text.take(b),
        b > 0 ==> !is_space(text[b - 1]),
    decreases text.len(),
{
    if text.len() > 0 && is_space(text.last()) {
        let b = lemma_trim_end_shape(text.drop_last());
        assert(text.drop_last().take(b) =~= text.take(b));
        b
    } else {
        assert(text.take(text.len() as int) =~= text);
        text.len() as int
    }
}

/// What `trim` leaves is a part of the text that neither starts nor ends
/// with white space.
pub proof fn lemma_trim_shape(text: Seq<char>) -> (r: (int, int))
    ensures
        0 <= r.0 <= r.1 <= text.len(),
        trim(text) == text.subrange(r.0, r.1),
        r.0 < r.1 ==> !is_space(text[r.0]) && !is_space(text[r.1 - 1]),
{
    let a = lemma_trim_start_shape(text);
    let b = lemma_trim_end_shape(text.skip(a));
    assert(text.skip(a).take(b) =~= text.subrange(a, a + b));
    (a, a + b)
}

/// A trimmed text has nothing left to trim.
pub proof fn lemma_trim_idempotent(text: Seq<char>)
    ensures
        trim(trim(text)) == trim(text),
{
    let (a, b) = lemma_trim_shape(text);
    let inner = text.subrange(a, b);
    if a < b {
        assert(inner.first() == text[a]);
        assert(inner.last() == text[b - 1]);
    }
}

} // verus!
