//! Character-level text utilities: conversion between strings and character
//! vectors, whitespace trimming, and comma-splitting of location lists.

use vstd::prelude::*;

verus! {

/// The whitespace characters recognized between tokens and around values.
pub open spec fn is_ws(c: char) -> bool {
    c == ' ' || c == '\t' || c == '\n' || c == '\r' || c == '\u{b}' || c == '\u{c}'
}

pub fn is_ws_exec(c: char) -> (r: bool)
    ensures
        r == is_ws(c),
{
    c == ' ' || c == '\t' || c == '\n' || c == '\r' || c == '\u{b}' || c == '\u{c}'
}

/// The characters of a string, in order.
pub fn chars_of(s: &str) -> (r: Vec<char>)
    ensures
        r@ == s@,
{
    let n = s.unicode_len();
    let mut r: Vec<char> = Vec::new();
    let mut i: usize = 0;
    while i < n
        invariant
            i <= n,
            n == s@.len(),
            r@ == s@.take(i as int),
        decreases n - i,
    {
        r.push(s.get_char(i));
        i = i + 1;
        proof {
            assert(r@ =~= s@.take(i as int));
        }
    }
    proof {
        assert(s@.take(n as int) =~= s@);
    }
    r
}

/// Relies on `String::from_iter` over `char`: the string holding exactly the
/// given characters in order.
#[verifier::external_body]
pub(crate) fn string_from_chars(v: &Vec<char>) -> (r: String)
    ensures
        r@ == v@,
{
    v.iter().copied().collect()
}

/// Appends all characters of `src` to `dst`.
pub fn push_all(dst: &mut Vec<char>, src: &Vec<char>)
    ensures
        final(dst)@ == old(dst)@ + src@,
{
    let mut i: usize = 0;
    while i < src.len()
        invariant
            i <= src.len(),
            dst@ == old(dst)@ + src@.take(i as int),
        decreases src.len() - i,
    {
        dst.push(src[i]);
        i = i + 1;
        proof {
            assert(old(dst)@ + src@.take(i as int) =~= (old(dst)@ + src@.take(
                i as int - 1,
            )).push(src@[i as int - 1]));
        }
    }
    proof {
        assert(src@.take(src@.len() as int) =~= src@);
    }
}

/// A string with its leading and trailing whitespace removed.
pub open spec fn trim(s: Seq<char>) -> Seq<char>
    decreases s.len(),
{
    if s.len() > 0 && is_ws(s.first()) {
        trim(s.drop_first())
    } else if s.len() > 0 && is_ws(s.last()) {
        trim(s.drop_last())
    } else {
        s
    }
}

/// The bounds of `v[lo..hi]` once trimmed of whitespace on both ends.
pub fn trim_range(v: &Vec<char>, lo: usize, hi: usize) -> (r: (usize, usize))
    requires
        lo <= hi <= v.len(),
    ensures
        lo <= r.0 <= r.1 <= hi,
        trim(v@.subrange(lo as int, hi as int)) == v@.subrange(r.0 as int, r.1 as int),
    decreases hi - lo,
{
    if lo < hi && is_ws_exec(v[lo]) {
        proof {
            assert(v@.subrange(lo as int, hi as int).drop_first() =~= v@.subrange(
                lo as int + 1,
                hi as int,
            ));
        }
        trim_range(v, lo + 1, hi)
    } else if lo < hi && is_ws_exec(v[hi - 1]) {
        proof {
            assert(v@.subrange(lo as int, hi as int).drop_last() =~= v@.subrange(
                lo as int,
                hi as int - 1,
            ));
        }
        trim_range(v, lo, hi - 1)
    } else {
        (lo, hi)
    }
}

/// A copy of `v[lo..hi]`.
pub fn copy_range(v: &Vec<char>, lo: usize, hi: usize) -> (r: Vec<char>)
    requires
        lo <= hi <= v.len(),
    ensures
        r@ == v@.subrange(lo as int, hi as int),
{
    let mut r: Vec<char> = Vec::new();
    let mut i: usize = lo;
    while i < hi
        invariant
            lo <= i <= hi <= v.len(),
            r@ == v@.subrange(lo as int, i as int),
        decreases hi - i,
    {
        r.push(v[i]);
        i = i + 1;
        proof {
            assert(r@ =~= v@.subrange(lo as int, i as int));
        }
    }
    r
}

/// The position of the first comma at or after `i`, or the length if none.
pub open spec fn find_comma_from(s: Seq<char>, i: int) -> int
    decreases s.len() - i,
    when 0 <= i <= s.len()
{
    if i < s.len() && s[i] != ',' {
        find_comma_from(s, i + 1)
    } else {
        i
    }
}

pub proof fn lemma_find_comma_from_bounds(s: Seq<char>, i: int)
    requires
        0 <= i <= s.len(),
    ensures
        i <= find_comma_from(s, i) <= s.len(),
    decreases s.len() - i,
{
    if i < s.len() && s[i] != ',' {
        lemma_find_comma_from_bounds(s, i + 1);
    }
}

#[via_fn]
proof fn locations_from_decreases(s: Seq<char>, i: int) {
    lemma_find_comma_from_bounds(s, i);
}

/// The comma-separated pieces of `s[i..]`, each trimmed of surrounding
/// whitespace. An input with no comma is a single piece.
pub open spec fn locations_from(s: Seq<char>, i: int) -> Seq<Seq<char>>
    decreases s.len() - i,
    when 0 <= i <= s.len()
    via locations_from_decreases
{
    let j = find_comma_from(s, i);
    if j >= s.len() {
        seq![trim(s.subrange(i, s.len() as int))]
    } else {
        seq![trim(s.subrange(i, j))] + locations_from(s, j + 1)
    }
}

/// The location list named by a `Location:` value: split on commas, each
/// piece trimmed.
pub open spec fn spec_locations(s: Seq<char>) -> Seq<Seq<char>> {
    locations_from(s, 0)
}

fn find_comma_exec(v: &Vec<char>, i: usize) -> (r: usize)
    requires
        i <= v.len(),
    ensures
        i <= r <= v.len(),
        r == find_comma_from(v@, i as int),
{
    let mut j = i;
    while j < v.len() && v[j] != ','
        invariant
            i <= j <= v.len(),
            find_comma_from(v@, i as int) == find_comma_from(v@, j as int),
        decreases v.len() - j,
    {
        j = j + 1;
    }
    j
}

fn locations_from_exec(v: &Vec<char>, i: usize) -> (r: Vec<String>)
    requires
        i <= v.len(),
    ensures
        r.deep_view() == locations_from(v@, i as int),
    decreases v.len() - i,
{
    let j = find_comma_exec(v, i);
    if j >= v.len() {
        let (a, b) = trim_range(v, i, v.len());
        let piece = copy_range(v, a, b);
        let mut r: Vec<String> = Vec::new();
        r.push(string_from_chars(&piece));
        proof {
            assert(r.deep_view() =~= locations_from(v@, i as int));
        }
        r
    } else {
        let (a, b) = trim_range(v, i, j);
        let piece = copy_range(v, a, b);
        let mut r = locations_from_exec(v, j + 1);
        r.insert(0, string_from_chars(&piece));
        proof {
            assert(r.deep_view() =~= locations_from(v@, i as int));
        }
        r
    }
}

/// Splits a `Location:` value into its comma-separated, trimmed place names.
pub fn split_locations(s: &str) -> (r: Vec<String>)
    ensures
        r.deep_view() == spec_locations(s@),
{
    let v = chars_of(s);
    locations_from_exec(&v, 0)
}

} // verus!
