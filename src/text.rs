//! Character-level helpers on identifiers and display names: conversion to
//! character vectors, lexicographic order and case-insensitive substring search.
use vstd::prelude::*;

verus! {

/// `a` is strictly greater than `b` in lexicographic order on code points.
pub open spec fn lex_gt(a: Seq<char>, b: Seq<char>) -> bool
    decreases a.len(),
{
    if a.len() == 0 {
        false
    } else if b.len() == 0 {
        true
    } else if a[0] != b[0] {
        (a[0] as int) > (b[0] as int)
    } else {
        lex_gt(a.drop_first(), b.drop_first())
    }
}

/// `needle` occurs in `hay` starting at position `start`.
pub open spec fn occurs_at(hay: Seq<char>, needle: Seq<char>, start: int) -> bool {
    0 <= start && start + needle.len() <= hay.len() && hay.subrange(start, start + needle.len())
        == needle
}

/// `needle` is a contiguous part of `hay`.
pub open spec fn is_substring(hay: Seq<char>, needle: Seq<char>) -> bool {
    exists|start: int| occurs_at(hay, needle, start)
}

/// What `str::to_lowercase` makes of a character sequence.
pub uninterp spec fn lower_of(s: Seq<char>) -> Seq<char>;

/// Relies on `str::to_lowercase`: the full Unicode lower-case mapping, which
/// depends on the characters alone; an empty string stays empty.
#[verifier::external_body]
pub(crate) fn lowercase(s: &String) -> (r: String)
    ensures
        r@ == lower_of(s@),
        s@.len() == 0 ==> r@.len() == 0,
{
    s.to_lowercase()
}

/// Relies on `String::push`: appends the character at the end.
#[verifier::external_body]
pub(crate) fn push_char(s: &mut String, c: char)
    ensures
        final(s)@ == old(s)@.push(c),
{
    s.push(c);
}

/// Relies on `String::pop`: removes and returns the last character, or
/// returns `None` and leaves an empty string as it is.
#[verifier::external_body]
pub(crate) fn pop_char(s: &mut String) -> (r: Option<char>)
    ensures
        old(s)@.len() == 0 ==> r.is_none() && final(s)@ == old(s)@,
        old(s)@.len() > 0 ==> r == Some(old(s)@.last()) && final(s)@ == old(s)@.drop_last(),
{
    s.pop()
}

/// The characters of `s`, one element each.
pub fn chars_of(s: &String) -> (r: Vec<char>)
    ensures
        r@ == s@,
{
    let st = s.as_str();
    let n = st.unicode_len();
    let mut r: Vec<char> = Vec::new();
    let mut i: usize = 0;
    while i < n
        invariant
            n == st@.len(),
            st@ == s@,
            i <= n,
            r@ == s@.subrange(0, i as int),
        decreases n - i,
    {
        r.push(st.get_char(i));
        i = i + 1;
    }
    assert(r@ =~= s@);
    r
}

/// Lexicographic comparison: whether `a` sorts strictly after `b`.
pub fn chars_gt(a: &Vec<char>, b: &Vec<char>) -> (r: bool)
    ensures
        r == lex_gt(a@, b@),
{
    let mut i: usize = 0;
    assert(a@.skip(0) =~= a@);
    assert(b@.skip(0) =~= b@);
    while i < a.len()
        invariant
            i <= a@.len(),
            i <= b@.len(),
            a@.subrange(0, i as int) == b@.subrange(0, i as int),
            lex_gt(a@, b@) == lex_gt(a@.skip(i as int), b@.skip(i as int)),
        decreases a@.len() - i,
    {
        if i >= b.len() {
            assert(a@.skip(i as int).len() > 0);
            return true;
        }
        if a[i] != b[i] {
            return a[i] > b[i];
        }
        assert(a@.skip(i as int).drop_first() =~= a@.skip(i + 1));
        assert(b@.skip(i as int).drop_first() =~= b@.skip(i + 1));
        assert(a@.subrange(0, i + 1) =~= a@.subrange(0, i as int).push(a@[i as int]));
        assert(b@.subrange(0, i + 1) =~= b@.subrange(0, i as int).push(b@[i as int]));
        i = i + 1;
    }
    false
}

/// Whether `needle` occurs as a contiguous run of characters in `hay`.
pub fn contains_chars(hay: &Vec<char>, needle: &Vec<char>) -> (r: bool)
    ensures
        r == is_substring(hay@, needle@),
{
    if needle.len() > hay.len() {
        assert forall|start: int| !occurs_at(hay@, needle@, start) by {}
        return false;
    }
    let hl = hay.len();
    let last = hl - needle.len();
    let mut start: usize = 0;
    while start <= last
        invariant
            hl == hay@.len(),
            last == hay@.len() - needle@.len(),
            needle@.len() <= hay@.len(),
            start <= last + 1,
            forall|s: int| 0 <= s < start ==> !occurs_at(hay@, needle@, s),
        decreases last + 1 - start,
    {
        let mut k: usize = 0;
        while k < needle.len() && hay[start + k] == needle[k]
            invariant
                start <= last,
                hl == hay@.len(),
                needle@.len() <= hay@.len(),
                last == hay@.len() - needle@.len(),
                k <= needle@.len(),
                forall|m: int| 0 <= m < k ==> hay@[start + m] == needle@[m],
            decreases needle@.len() - k,
        {
            k = k + 1;
        }
        if k == needle.len() {
            assert(hay@.subrange(start as int, start + needle@.len()) =~= needle@);
            assert(occurs_at(hay@, needle@, start as int));
            return true;
        }
        assert(hay@.subrange(start as int, start + needle@.len())[k as int] != needle@[k as int]);
        start = start + 1;
    }
    assert forall|s: int| !occurs_at(hay@, needle@, s) by {
        if 0 <= s && s + needle@.len() <= hay@.len() {
            assert(s < start);
        }
    }
    false
}

/// Case-insensitive match: whether the lower-cased `query` occurs in the
/// lower-cased `name`. Both arguments must already be lower-cased.
pub fn matches_folded(folded_query: &String, folded_name: &String) -> (r: bool)
    ensures
        r == is_substring(folded_name@, folded_query@),
{
    let q = chars_of(folded_query);
    let t = chars_of(folded_name);
    contains_chars(&t, &q)
}

/// Case-insensitive substring match of `query` against `name`.
pub fn matches_ignoring_case(query: &String, name: &String) -> (r: bool)
    ensures
        r == is_substring(lower_of(name@), lower_of(query@)),
{
    let q = lowercase(query);
    let t = lowercase(name);
    matches_folded(&q, &t)
}

} // verus!
