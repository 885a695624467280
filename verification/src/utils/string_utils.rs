//! Delimiter-based slicing of a line of text.
use crate::utils::text::{
    contains_text, find_from, first_occurrence, lemma_first_occurrence_some, to_chars,
};
use vstd::prelude::*;
use vstd::slice::slice_subrange;
use vstd::string::StrSliceExecFns;

verus! {

/// The part of `line` before the first occurrence of `to`; all of `line`
/// where `to` does not occur.
pub open spec fn text_before(line: Seq<char>, to: Seq<char>) -> Seq<char> {
    match first_occurrence(line, to) {
        Some(i) => line.subrange(0, i),
        None => line,
    }
}

/// The part of `line` that follows the first occurrence of `from` and ends
/// before the next occurrence of `to`; empty where either does not occur.
pub open spec fn text_between(line: Seq<char>, from: Seq<char>, to: Seq<char>) -> Seq<char> {
    match first_occurrence(line, from) {
        Some(i) => {
            let rest = line.subrange(i + from.len(), line.len() as int);
            match first_occurrence(rest, to) {
                Some(j) => rest.subrange(0, j),
                None => Seq::empty(),
            }
        },
        None => Seq::empty(),
    }
}

/// `text_before` yields a prefix of the line, and all of it only where it is
/// as long as the line.
pub proof fn lemma_text_before_is_prefix(line: Seq<char>, to: Seq<char>)
    ensures
        text_before(line, to).len() <= line.len(),
        text_before(line, to) == line.subrange(0, text_before(line, to).len() as int),
        text_before(line, to).len() == line.len() ==> text_before(line, to) == line,
{
    if contains_text(line, to) {
        lemma_first_occurrence_some(line, to);
    }
    assert(line.subrange(0, line.len() as int) =~= line);
}

/// `text_between` yields a stretch of the line, and all of it only where it
/// is as long as the line.
pub proof fn lemma_text_between_is_part(line: Seq<char>, from: Seq<char>, to: Seq<char>)
    ensures
        text_between(line, from, to).len() <= line.len(),
        text_between(line, from, to).len() == line.len() ==> text_between(line, from, to) == line,
{
    if contains_text(line, from) {
        lemma_first_occurrence_some(line, from);
        let i = first_occurrence(line, from)->0;
        let rest = line.subrange(i + from.len(), line.len() as int);
        if contains_text(rest, to) {
            lemma_first_occurrence_some(rest, to);
            let j = first_occurrence(rest, to)->0;
            if j == line.len() {
                assert(rest.subrange(0, j) =~= line);
            }
        }
    }
    if line.len() == 0 {
        assert(line =~= Seq::<char>::empty());
    }
}

/// Where `text_before(line, to)` ends in `line`: at the first occurrence of
/// `to`, or at the end of `line`.
pub fn end_before(line: &[char], to: &[char]) -> (end: usize)
    ensures
        end <= line.len(),
        line@.subrange(0, end as int) == text_before(line@, to@),
        end == match first_occurrence(line@, to@) {
            Some(i) => i,
            None => line.len() as int,
        },
{
    assert(line@.subrange(0, line.len() as int) =~= line@);
    match find_from(line, to, 0) {
        Some(i) => i,
        None => line.len(),
    }
}

/// Where `text_between(line, from, to)` lies in `line`: it begins behind
/// the first occurrence of `from`, or at the start of `line` where there is
/// none.
pub fn bounds_between(line: &[char], from: &[char], to: &[char]) -> (r: (usize, usize))
    ensures
        r.0 <= r.1 <= line.len(),
        line@.subrange(r.0 as int, r.1 as int) == text_between(line@, from@, to@),
        r.0 == match first_occurrence(line@, from@) {
            Some(i) => i + from.len(),
            None => 0,
        },
        r.1 == r.0 + text_between(line@, from@, to@).len(),
{
    assert(line@.subrange(0, line.len() as int) =~= line@);
    match find_from(line, from, 0) {
        Some(i) => {
            let start: usize = i + from.len();
            let ghost rest = line@.subrange(start as int, line.len() as int);
            match find_from(line, to, start) {
                Some(j) => {
                    assert(line@.subrange(start as int, j as int) =~= rest.subrange(0, j - start));
                    (start, j)
                },
                None => {
                    assert(line@.subrange(start as int, start as int) =~= Seq::<char>::empty());
                    (start, start)
                },
            }
        },
        None => {
            assert(line@.subrange(0, 0) =~= Seq::<char>::empty());
            (0, 0)
        },
    }
}

/// `text_before(line, to)` as a stretch of `line`.
pub fn before<'a>(line: &'a [char], to: &[char]) -> (r: &'a [char])
    ensures
        r@ == text_before(line@, to@),
{
    let end = end_before(line, to);
    slice_subrange(line, 0, end)
}

/// `text_between(line, from, to)` as a stretch of `line`.
pub fn between<'a>(line: &'a [char], from: &[char], to: &[char]) -> (r: &'a [char])
    ensures
        r@ == text_between(line@, from@, to@),
{
    let (a, b) = bounds_between(line, from, to);
    slice_subrange(line, a, b)
}

/// The part of `line` between the first `from` and the following `to`.
pub fn string_slice_from_pattern<'a>(from: &'a str, to: &'a str, line: &'a str) -> (r: &'a str)
    ensures
        r@ == text_between(line@, from@, to@),
{
    let chars = to_chars(line);
    let from_chars = to_chars(from);
    let to_chars = to_chars(to);
    let (a, b) = bounds_between(chars.as_slice(), from_chars.as_slice(), to_chars.as_slice());
    line.substring_char(a, b)
}

/// The part of `line` before the first `to`.
pub fn string_slice_from_start<'a>(to: &'a str, line: &'a str) -> (r: &'a str)
    ensures
        r@ == text_before(line@, to@),
{
    let chars = to_chars(line);
    let to_chars = to_chars(to);
    let end = end_before(chars.as_slice(), to_chars.as_slice());
    line.substring_char(0, end)
}

} // verus!
