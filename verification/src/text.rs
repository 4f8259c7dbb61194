//! Text as sequences of characters: conversion from and to strings, search,
//! splitting at a separator and trimming of whitespace.

use vstd::prelude::*;

verus! {

/// Whether `c` is whitespace: one of the characters with the Unicode
/// property `White_Space`, which are the tab, the line feed, the vertical
/// tab, the form feed, the carriage return, the space, the next-line
/// character, the no-break space and the spaces of the general punctuation
/// and of the ideographic script.
pub open spec fn is_whitespace(c: char) -> bool {
    ||| '\u{9}' <= c <= '\u{d}'
    ||| c == ' '
    ||| c == '\u{85}'
    ||| c == '\u{a0}'
    ||| c == '\u{1680}'
    ||| '\u{2000}' <= c <= '\u{200a}'
    ||| c == '\u{2028}'
    ||| c == '\u{2029}'
    ||| c == '\u{202f}'
    ||| c == '\u{205f}'
    ||| c == '\u{3000}'
}

/// Where a text is cut into pieces: at one given character, or at every
/// character that is whitespace.
#[derive(Debug, Clone, Copy, PartialEq, Eq, Structural)]
pub enum Separator {
    Char(char),
    Whitespace,
}

impl Separator {
    /// Whether the text is cut at `c`.
    pub open spec fn matches(self, c: char) -> bool {
        match self {
            Separator::Char(sep) => c == sep,
            Separator::Whitespace => is_whitespace(c),
        }
    }

    /// Whether the text is cut at `c`.
    pub fn separates(self, c: char) -> (b: bool)
        ensures
            b == self.matches(c),
    {
        match self {
            Separator::Char(sep) => c == sep,
            Separator::Whitespace => whitespace(c),
        }
    }
}

/// Whether `c` is whitespace.
pub fn whitespace(c: char) -> (b: bool)
    ensures
        b == is_whitespace(c),
{
    ('\u{9}' <= c && c <= '\u{d}') || c == ' ' || c == '\u{85}' || c == '\u{a0}' || c
        == '\u{1680}' || ('\u{2000}' <= c && c <= '\u{200a}') || c == '\u{2028}' || c
        == '\u{2029}' || c == '\u{202f}' || c == '\u{205f}' || c == '\u{3000}'
}

/// `String::push` appends the given character to the end of the string.
pub assume_specification[ String::push ](s: &mut String, c: char)
    ensures
        final(s)@ == old(s)@.push(c),
;

/// The index of the first `x` in `s`, or `s.len()` where `s` holds none.
pub open spec fn position<A>(s: Seq<A>, x: A) -> int
    decreases s.len(),
{
    if s.len() == 0 || s[0] == x {
        0
    } else {
        1 + position(s.drop_first(), x)
    }
}

/// The index of the first separator in `s`, or `s.len()` where `s` holds
/// none.
pub open spec fn first_separator(s: Seq<char>, sep: Separator) -> int
    decreases s.len(),
{
    if s.len() == 0 || sep.matches(s[0]) {
        0
    } else {
        1 + first_separator(s.drop_first(), sep)
    }
}

/// The pieces of `s` between the separators: the text before the first
/// separator, then the pieces of what follows it. Each separator cuts once,
/// so that two of them in a row hold an empty piece between them. A text
/// without a separator is one piece, also where it is empty.
pub open spec fn split(s: Seq<char>, sep: Separator) -> Seq<Seq<char>>
    decreases s.len(),
{
    let k = first_separator(s, sep);
    if 0 <= k < s.len() {
        seq![s.take(k)] + split(s.skip(k + 1), sep)
    } else {
        seq![s]
    }
}

/// `s` without the whitespace at its start.
pub open spec fn trim_start(s: Seq<char>) -> Seq<char>
    decreases s.len(),
{
    if s.len() > 0 && is_whitespace(s[0]) {
        trim_start(s.drop_first())
    } else {
        s
    }
}

/// `s` without the whitespace at its end.
pub open spec fn trim_end(s: Seq<char>) -> Seq<char>
    decreases s.len(),
{
    if s.len() > 0 && is_whitespace(s.last()) {
        trim_end(s.drop_last())
    } else {
        s
    }
}

/// `s` without the whitespace at its start and at its end.
pub open spec fn trim(s: Seq<char>) -> Seq<char> {
    trim_end(trim_start(s))
}

/// What `position` finds: nothing before it is `x`, and `x` stands there
/// unless it is the length.
pub proof fn lemma_position<A>(s: Seq<A>, x: A)
    ensures
        0 <= position(s, x) <= s.len(),
        forall|j: int| 0 <= j < position(s, x) ==> s[j] != x,
        position(s, x) < s.len() ==> s[position(s, x)] == x,
    decreases s.len(),
{
    if s.len() != 0 && s[0] != x {
        lemma_position(s.drop_first(), x);
        assert forall|j: int| 0 <= j < position(s, x) implies s[j] != x by {
            if j > 0 {
                assert(s.drop_first()[j - 1] == s[j]);
            }
        }
    }
}

/// An index with nothing equal to `x` before it, and `x` at it unless it is
/// the length, is the position of `x`.
pub proof fn lemma_position_is<A>(s: Seq<A>, x: A, k: int)
    requires
        0 <= k <= s.len(),
        forall|j: int| 0 <= j < k ==> s[j] != x,
        k < s.len() ==> s[k] == x,
    ensures
        position(s, x) == k,
{
    lemma_position(s, x);
}

/// A value that a list holds keeps its position when the list grows at its
/// end.
pub proof fn lemma_position_kept<A>(small: Seq<A>, large: Seq<A>, x: A)
    requires
        small.is_prefix_of(large),
        small.contains(x),
    ensures
        position(large, x) == position(small, x),
        position(small, x) < small.len(),
        large.contains(x),
{
    lemma_position(small, x);
    let k = position(small, x);
    let w = choose|i: int| 0 <= i < small.len() && small[i] == x;
    assert(k < small.len()) by {
        if k >= small.len() {
            assert(small[w] != x);
        }
    }
    assert forall|j: int| 0 <= j < k implies large[j] != x by {
        assert(small[j] == large[j]);
    }
    assert(small[k] == large[k]);
    lemma_position_is(large, x, k);
}

/// What `first_separator` finds: nothing before it is a separator, and a
/// separator stands there unless it is the length.
pub proof fn lemma_first_separator(s: Seq<char>, sep: Separator)
    ensures
        0 <= first_separator(s, sep) <= s.len(),
        forall|j: int| 0 <= j < first_separator(s, sep) ==> !sep.matches(s[j]),
        first_separator(s, sep) < s.len() ==> sep.matches(s[first_separator(s, sep)]),
    decreases s.len(),
{
    if s.len() != 0 && !sep.matches(s[0]) {
        lemma_first_separator(s.drop_first(), sep);
        assert forall|j: int| 0 <= j < first_separator(s, sep) implies !sep.matches(s[j]) by {
            if j > 0 {
                assert(s.drop_first()[j - 1] == s[j]);
            }
        }
    }
}

/// An index with no separator before it, and a separator at it unless it is
/// the length, is where the first separator stands.
pub proof fn lemma_first_separator_is(s: Seq<char>, sep: Separator, k: int)
    requires
        0 <= k <= s.len(),
        forall|j: int| 0 <= j < k ==> !sep.matches(s[j]),
        k < s.len() ==> sep.matches(s[k]),
    ensures
        first_separator(s, sep) == k,
{
    lemma_first_separator(s, sep);
}

/// A text has at least one piece.
pub proof fn lemma_split_len(s: Seq<char>, sep: Separator)
    ensures
        split(s, sep).len() >= 1,
    decreases s.len(),
{
    let k = first_separator(s, sep);
    if 0 <= k < s.len() {
        lemma_split_len(s.skip(k + 1), sep);
    }
}

/// The characters of `s`, in order.
pub fn chars_of(s: &str) -> (v: Vec<char>)
    ensures
        v@ == s@,
{
    broadcast use vstd::string::group_string_axioms;

    let mut v: Vec<char> = Vec::new();
    for c in it: s.chars()
        invariant
            it.seq() == s@,
            v@ == s@.take(it.index()),
    {
        v.push(c);
        assert(s@.take(it.index() + 1) == s@.take(it.index()).push(s@[it.index()]));
    }
    v
}

/// The string made of the characters `chars[from..to]`.
pub fn string_of(chars: &Vec<char>, from: usize, to: usize) -> (s: String)
    requires
        from <= to <= chars.len(),
    ensures
        s@ == chars@.subrange(from as int, to as int),
{
    let mut s = String::new();
    let mut i: usize = from;
    while i < to
        invariant
            from <= i <= to <= chars.len(),
            s@ == chars@.subrange(from as int, i as int),
        decreases to - i,
    {
        s.push(chars[i]);
        i += 1;
        assert(chars@.subrange(from as int, i as int) == chars@.subrange(
            from as int,
            i - 1,
        ).push(chars@[i - 1]));
    }
    s
}

/// Whether `chars` spells `word`.
pub fn spells(chars: &Vec<char>, word: &str) -> (b: bool)
    ensures
        b == (chars@ == word@),
{
    broadcast use vstd::string::group_string_axioms;

    let mut i: usize = 0;
    for c in it: word.chars()
        invariant
            it.seq() == word@,
            i == it.index(),
            i <= chars.len(),
            chars@.take(i as int) == word@.take(i as int),
    {
        if i >= chars.len() || chars[i] != c {
            return false;
        }
        i += 1;
        assert(chars@.take(i as int) == chars@.take(i - 1).push(chars@[i - 1]));
        assert(word@.take(i as int) == word@.take(i - 1).push(word@[i - 1]));
    }
    assert(word@.take(i as int) == word@);
    if i == chars.len() {
        assert(chars@.take(i as int) == chars@);
    }
    i == chars.len()
}

/// The index in `chars`, at or after `from` and before `to`, of the first
/// separator, or `to` where there is none.
pub fn find(chars: &Vec<char>, from: usize, to: usize, sep: Separator) -> (k: usize)
    requires
        from <= to <= chars.len(),
    ensures
        from <= k <= to,
        k == from + first_separator(chars@.subrange(from as int, to as int), sep),
{
    let ghost s = chars@.subrange(from as int, to as int);
    let mut k: usize = from;
    while k < to && !sep.separates(chars[k])
        invariant
            from <= k <= to <= chars.len(),
            s == chars@.subrange(from as int, to as int),
            forall|j: int| 0 <= j < k - from ==> !sep.matches(s[j]),
        decreases to - k,
    {
        k += 1;
    }
    proof {
        lemma_first_separator_is(s, sep, k - from);
    }
    k
}

/// The strings of the pieces of `chars[from..]` between the separators `sep`.
pub fn split_from(chars: &Vec<char>, from: usize, sep: Separator) -> (pieces: Vec<String>)
    requires
        from <= chars.len(),
    ensures
        pieces.deep_view() == split(chars@.skip(from as int), sep),
{
    let mut pieces: Vec<String> = Vec::new();
    let mut start: usize = from;
    loop
        invariant_except_break
            from <= start <= chars.len(),
            split(chars@.skip(from as int), sep) == pieces.deep_view() + split(
                chars@.skip(start as int),
                sep,
            ),
        ensures
            pieces.deep_view() == split(chars@.skip(from as int), sep),
        decreases chars.len() - start,
    {
        let ghost rest = chars@.skip(start as int);
        let ghost before = pieces.deep_view();
        assert(rest == chars@.subrange(start as int, chars.len() as int));
        let end = find(chars, start, chars.len(), sep);
        let piece = string_of(chars, start, end);
        assert(piece@ == rest.take(end - start));
        pieces.push(piece);
        assert(pieces.deep_view() == before + seq![rest.take(end - start)]);
        if end == chars.len() {
            assert(rest.take(end - start) == rest);
            break;
        }
        assert(rest.skip(end - start + 1) == chars@.skip(end + 1));
        start = end + 1;
    }
    pieces
}

/// The string of `chars[from..to]` without the whitespace at its two ends.
pub fn trimmed(chars: &Vec<char>, from: usize, to: usize) -> (s: String)
    requires
        from <= to <= chars.len(),
    ensures
        s@ == trim(chars@.subrange(from as int, to as int)),
{
    let mut a: usize = from;
    while a < to && whitespace(chars[a])
        invariant
            from <= a <= to <= chars.len(),
            trim_start(chars@.subrange(from as int, to as int)) == trim_start(
                chars@.subrange(a as int, to as int),
            ),
        decreases to - a,
    {
        assert(chars@.subrange(a as int, to as int).drop_first() == chars@.subrange(
            a + 1,
            to as int,
        ));
        a += 1;
    }
    let mut b: usize = to;
    while b > a && whitespace(chars[b - 1])
        invariant
            a <= b <= to <= chars.len(),
            trim_end(chars@.subrange(a as int, to as int)) == trim_end(
                chars@.subrange(a as int, b as int),
            ),
        decreases b - a,
    {
        assert(chars@.subrange(a as int, b as int).drop_last() == chars@.subrange(
            a as int,
            b - 1,
        ));
        b -= 1;
    }
    string_of(chars, a, b)
}

} // verus!
