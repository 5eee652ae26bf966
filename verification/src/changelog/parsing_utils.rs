//! Text primitives over sequences of characters: conversion between strings
//! and character vectors, trimming, line splitting and the parsing of entry
//! identifiers.

use crate::changelog::seq_utils::items_view;
use crate::error::{Error, ErrorView};
use vstd::prelude::*;

verus! {

/// A class of characters that the scanners below recognise.
#[derive(Clone, Copy, Debug)]
pub enum CharClass {
    /// Line feed and carriage return.
    Newline,
    /// Space and horizontal tab.
    Blank,
    /// The ASCII decimal digits.
    Digit,
    /// Every character but the line feed.
    NotLineFeed,
}

impl CharClass {
    /// Whether the character `c` belongs to this class.
    pub open spec fn holds(self, c: char) -> bool {
        match self {
            CharClass::Newline => c == '\n' || c == '\r',
            CharClass::Blank => c == ' ' || c == '\t',
            CharClass::Digit => '0' <= c && c <= '9',
            CharClass::NotLineFeed => c != '\n',
        }
    }

    /// Decides whether the character `c` belongs to this class.
    pub fn contains(self, c: char) -> (r: bool)
        ensures
            r == self.holds(c),
    {
        match self {
            CharClass::Newline => c == '\n' || c == '\r',
            CharClass::Blank => c == ' ' || c == '\t',
            CharClass::Digit => '0' <= c && c <= '9',
            CharClass::NotLineFeed => c != '\n',
        }
    }
}

/// The length of the longest prefix of `s` all of whose characters belong to
/// `class`.
pub open spec fn prefix_len(s: Seq<char>, class: CharClass) -> nat
    decreases s.len(),
{
    if s.len() > 0 && class.holds(s[0]) {
        1 + prefix_len(s.drop_first(), class)
    } else {
        0
    }
}

/// The length of the longest suffix of `s` all of whose characters belong to
/// `class`.
pub open spec fn suffix_len(s: Seq<char>, class: CharClass) -> nat
    decreases s.len(),
{
    if s.len() > 0 && class.holds(s.last()) {
        1 + suffix_len(s.drop_last(), class)
    } else {
        0
    }
}

/// A prefix of `n` characters of the class that ends at the end of `s` or
/// before a character outside the class is the longest one.
pub proof fn lemma_prefix_len(s: Seq<char>, class: CharClass, n: int)
    requires
        0 <= n <= s.len(),
        forall|j: int| 0 <= j < n ==> class.holds(#[trigger] s[j]),
        n == s.len() || !class.holds(s[n]),
    ensures
        prefix_len(s, class) == n,
    decreases n,
{
    if n > 0 {
        let t = s.drop_first();
        assert forall|j: int| 0 <= j < n - 1 implies class.holds(#[trigger] t[j]) by {
            assert(t[j] == s[j + 1]);
        }
        if n < s.len() {
            assert(t[n - 1] == s[n]);
        }
        lemma_prefix_len(t, class, n - 1);
    }
}

/// A suffix of `n` characters of the class that starts at the start of `s`
/// or after a character outside the class is the longest one.
pub proof fn lemma_suffix_len(s: Seq<char>, class: CharClass, n: int)
    requires
        0 <= n <= s.len(),
        forall|j: int| s.len() - n <= j < s.len() ==> class.holds(#[trigger] s[j]),
        n == s.len() || !class.holds(s[s.len() - n - 1]),
    ensures
        suffix_len(s, class) == n,
    decreases n,
{
    if n > 0 {
        let t = s.drop_last();
        assert forall|j: int| t.len() - (n - 1) <= j < t.len() implies class.holds(
            #[trigger] t[j],
        ) by {
            assert(t[j] == s[j]);
        }
        if n < s.len() {
            assert(t[t.len() - (n - 1) - 1] == s[s.len() - n - 1]);
        }
        lemma_suffix_len(t, class, n - 1);
    }
}

/// The longest prefix of the class is no longer than the sequence, holds
/// only characters of the class, and ends where the sequence ends or a
/// character outside the class stands.
pub proof fn lemma_prefix_len_bounds(s: Seq<char>, class: CharClass)
    ensures
        prefix_len(s, class) <= s.len(),
        forall|j: int| 0 <= j < prefix_len(s, class) ==> class.holds(#[trigger] s[j]),
        prefix_len(s, class) < s.len() ==> !class.holds(s[prefix_len(s, class) as int]),
    decreases s.len(),
{
    if s.len() > 0 && class.holds(s[0]) {
        let t = s.drop_first();
        lemma_prefix_len_bounds(t, class);
        assert forall|j: int| 0 <= j < prefix_len(s, class) implies class.holds(
            #[trigger] s[j],
        ) by {
            if j > 0 {
                assert(s[j] == t[j - 1]);
            }
        }
        if prefix_len(s, class) < s.len() {
            assert(s[prefix_len(s, class) as int] == t[prefix_len(t, class) as int]);
        }
    }
}

/// The length of the longest run of characters of `class` that starts at
/// position `from` of `v`.
pub fn count_leading(v: &Vec<char>, from: usize, class: CharClass) -> (n: usize)
    requires
        from <= v.len(),
    ensures
        n == prefix_len(v@.skip(from as int), class),
        from + n <= v.len(),
{
    let mut i: usize = from;
    while i < v.len() && class.contains(v[i])
        invariant
            from <= i <= v.len(),
            forall|j: int| from <= j < i ==> class.holds(#[trigger] v@[j]),
        decreases v.len() - i,
    {
        i += 1;
    }
    proof {
        let t = v@.skip(from as int);
        assert forall|j: int| 0 <= j < i - from implies class.holds(#[trigger] t[j]) by {
            assert(t[j] == v@[from + j]);
        }
        lemma_prefix_len(t, class, i - from);
    }
    i - from
}

/// The length of the longest run of characters of `class` that ends at
/// position `to` (exclusive) of `v` and does not reach back beyond `from`.
pub fn count_trailing(v: &Vec<char>, from: usize, to: usize, class: CharClass) -> (n: usize)
    requires
        from <= to <= v.len(),
    ensures
        n == suffix_len(v@.subrange(from as int, to as int), class),
        from + n <= to,
{
    let mut i: usize = to;
    while i > from && class.contains(v[i - 1])
        invariant
            from <= i <= to <= v.len(),
            forall|j: int| i <= j < to ==> class.holds(#[trigger] v@[j]),
        decreases i,
    {
        i -= 1;
    }
    proof {
        let t = v@.subrange(from as int, to as int);
        assert forall|j: int| t.len() - (to - i) <= j < t.len() implies class.holds(
            #[trigger] t[j],
        ) by {
            assert(t[j] == v@[from + j]);
        }
        if i > from {
            assert(t[t.len() - (to - i) - 1] == v@[i - 1]);
        }
        lemma_suffix_len(t, class, to - i);
    }
    to - i
}

/// Appends one character to a string.
///
/// Trusted: `String::push` of the standard library, which is documented to
/// append the given character to the end of the string.
#[verifier::external_body]
pub(crate) fn push_char(s: &mut String, c: char)
    ensures
        final(s)@ == old(s)@.push(c),
{
    s.push(c);
}

/// The characters of a string, as a vector.
pub fn chars_of(s: &str) -> (v: Vec<char>)
    ensures
        v@ == s@,
{
    let mut v: Vec<char> = Vec::new();
    for c in it: s.chars()
        invariant
            it.seq() == s@,
            v@ == it.seq().take(it.index() as int),
    {
        assert(it.seq().take(it.index() + 1) == it.seq().take(it.index() as int).push(c));
        v.push(c);
    }
    assert(s@.take(s@.len() as int) == s@);
    v
}

/// Appends the characters `v[from..to]` to `out`.
pub fn push_range(out: &mut String, v: &Vec<char>, from: usize, to: usize)
    requires
        from <= to <= v.len(),
    ensures
        final(out)@ == old(out)@ + v@.subrange(from as int, to as int),
{
    let mut i: usize = from;
    assert(v@.subrange(from as int, from as int) == Seq::<char>::empty());
    assert(old(out)@ + Seq::<char>::empty() == old(out)@);
    while i < to
        invariant
            from <= i <= to <= v.len(),
            out@ == old(out)@ + v@.subrange(from as int, i as int),
        decreases to - i,
    {
        push_char(out, v[i]);
        assert(v@.subrange(from as int, i + 1) == v@.subrange(from as int, i as int).push(
            v@[i as int],
        ));
        i += 1;
    }
}

/// Decides whether two strings hold the same text.
pub fn same_text(a: &str, b: &str) -> (r: bool)
    ensures
        r == (a@ == b@),
{
    let x = chars_of(a);
    let y = chars_of(b);
    if x.len() != y.len() {
        return false;
    }
    let mut i: usize = 0;
    while i < x.len()
        invariant
            i <= x.len(),
            x.len() == y.len(),
            x@ == a@,
            y@ == b@,
            forall|j: int| 0 <= j < i ==> x@[j] == y@[j],
        decreases x.len() - i,
    {
        if x[i] != y[i] {
            return false;
        }
        i += 1;
    }
    assert(x@ =~= y@);
    true
}

/// The text `s` without its leading and trailing line feeds and carriage
/// returns. What lies between them is kept as it is.
pub open spec fn trim_newlines_spec(s: Seq<char>) -> Seq<char> {
    let a = prefix_len(s, CharClass::Newline);
    let b = suffix_len(s.skip(a as int), CharClass::Newline);
    s.subrange(a as int, s.len() - b)
}

/// Removes the leading and trailing line feeds and carriage returns of `s`.
pub fn trim_newlines(s: &str) -> (r: String)
    ensures
        r@ == trim_newlines_spec(s@),
{
    let v = chars_of(s);
    let a = count_leading(&v, 0, CharClass::Newline);
    let b = count_trailing(&v, a, v.len(), CharClass::Newline);
    assert(v@.skip(0) == v@);
    assert(v@.subrange(a as int, v.len() as int) == v@.skip(a as int));
    let mut r = String::new();
    push_range(&mut r, &v, a, v.len() - b);
    r
}

/// The number that an ASCII decimal digit stands for.
pub open spec fn digit_value(c: char) -> nat {
    (c as u32 - '0' as u32) as nat
}

/// The number that a sequence of decimal digits denotes; 0 for the empty
/// sequence.
pub open spec fn decimal_value(digits: Seq<char>) -> nat
    decreases digits.len(),
{
    if digits.len() == 0 {
        0
    } else {
        10 * decimal_value(digits.drop_last()) + digit_value(digits.last())
    }
}

/// A prefix of a sequence of digits denotes no larger a number than a longer
/// prefix does.
pub proof fn lemma_decimal_value_monotone(s: Seq<char>, i: int, j: int)
    requires
        0 <= i <= j <= s.len(),
    ensures
        decimal_value(s.take(i)) <= decimal_value(s.take(j)),
    decreases j - i,
{
    if i < j {
        lemma_decimal_value_monotone(s, i, j - 1);
        assert(s.take(j).drop_last() == s.take(j - 1));
    }
}

/// The decimal digits that the name `name` starts with.
pub open spec fn leading_digits(name: Seq<char>) -> Seq<char> {
    name.take(prefix_len(name, CharClass::Digit) as int)
}

/// The identifier that the file name `name` encodes: the number denoted by
/// its leading decimal digits. A name without a leading digit has no
/// identifier, and one whose digits exceed the range of `u64` has an invalid
/// one.
pub open spec fn entry_id_spec(name: Seq<char>) -> Result<u64, ErrorView> {
    let digits = leading_digits(name);
    if digits.len() == 0 {
        Err(ErrorView::InvalidEntryId(name))
    } else if decimal_value(digits) > u64::MAX {
        Err(ErrorView::InvalidEntryNumber(digits))
    } else {
        Ok(decimal_value(digits) as u64)
    }
}

/// The mathematical value of the outcome of [`extract_entry_id`].
pub open spec fn id_result_view(r: Result<u64, Error>) -> Result<u64, ErrorView> {
    match r {
        Ok(id) => Ok(id),
        Err(e) => Err(e@),
    }
}

/// Extracts the identifier of an entry from the name of its file.
pub fn extract_entry_id(name: &str) -> (r: Result<u64, Error>)
    ensures
        id_result_view(r) == entry_id_spec(name@),
{
    let v = chars_of(name);
    let n = count_leading(&v, 0, CharClass::Digit);
    assert(v@.skip(0) == v@);
    if n == 0 {
        return Err(Error::InvalidEntryId(name.to_owned()));
    }
    proof {
        lemma_prefix_len_bounds(v@, CharClass::Digit);
    }
    let mut acc: u64 = 0;
    let mut i: usize = 0;
    while i < n
        invariant
            i <= n <= v.len(),
            0 < n == prefix_len(v@, CharClass::Digit),
            v@ == name@,
            acc == decimal_value(v@.take(i as int)),
            forall|j: int| 0 <= j < n ==> CharClass::Digit.holds(#[trigger] v@[j]),
        decreases n - i,
    {
        let d: u32 = v[i] as u32 - '0' as u32;
        let next: u128 = (acc as u128) * 10 + (d as u128);
        proof {
            assert(v@.take(i + 1).drop_last() == v@.take(i as int));
            assert(next == decimal_value(v@.take(i + 1)));
        }
        if next > u64::MAX as u128 {
            proof {
                lemma_decimal_value_monotone(v@, i + 1, n as int);
            }
            let mut digits = String::new();
            push_range(&mut digits, &v, 0, n);
            assert(digits@ == v@.take(n as int)) by {
                assert(v@.subrange(0, n as int) == v@.take(n as int));
                assert(Seq::<char>::empty() + v@.take(n as int) == v@.take(n as int));
            }
            assert(decimal_value(v@.take(n as int)) > u64::MAX);
            return Err(Error::InvalidEntryNumber(digits));
        }
        acc = next as u64;
        i += 1;
    }
    Ok(acc)
}

/// The lines of the text `s`: the pieces between its line feeds. A text
/// with `k` line feeds has `k + 1` lines, some of which may be empty.
pub open spec fn split_lines_spec(s: Seq<char>) -> Seq<Seq<char>>
    decreases s.len(),
{
    let n = prefix_len(s, CharClass::NotLineFeed);
    if n >= s.len() {
        seq![s]
    } else {
        seq![s.take(n as int)] + split_lines_spec(s.skip(n as int + 1))
    }
}

/// The characters `v[from..to]`, as a vector of their own.
pub fn slice_of(v: &Vec<char>, from: usize, to: usize) -> (r: Vec<char>)
    requires
        from <= to <= v.len(),
    ensures
        r@ == v@.subrange(from as int, to as int),
{
    let mut r: Vec<char> = Vec::new();
    let mut i: usize = from;
    while i < to
        invariant
            from <= i <= to <= v.len(),
            r@ == v@.subrange(from as int, i as int),
        decreases to - i,
    {
        r.push(v[i]);
        i += 1;
    }
    r
}

/// Splits the text `v` into its lines, at each line feed.
pub fn split_lines(v: &Vec<char>) -> (lines: Vec<Vec<char>>)
    ensures
        items_view(lines@) == split_lines_spec(v@),
{
    let mut lines: Vec<Vec<char>> = Vec::new();
    let mut start: usize = 0;
    assert(v@.skip(0) == v@);
    assert(items_view(lines@) + split_lines_spec(v@.skip(0)) == split_lines_spec(v@));
    loop
        invariant
            start <= v.len(),
            items_view(lines@) + split_lines_spec(v@.skip(start as int)) == split_lines_spec(v@),
        decreases v.len() - start,
    {
        let n = count_leading(v, start, CharClass::NotLineFeed);
        let piece = slice_of(v, start, start + n);
        let ghost rest = v@.skip(start as int);
        let ghost before = items_view(lines@);
        assert(piece@ == rest.take(n as int));
        lines.push(piece);
        assert(items_view(lines@) == before + seq![rest.take(n as int)]);
        if start + n >= v.len() {
            assert(rest.take(n as int) == rest);
            return lines;
        }
        assert(rest.skip(n + 1) == v@.skip(start + n + 1));
        assert(before + (seq![rest.take(n as int)] + split_lines_spec(rest.skip(n + 1)))
            == (before + seq![rest.take(n as int)]) + split_lines_spec(rest.skip(n + 1)));
        start = start + n + 1;
    }
}

} // verus!
