//! Character-sequence primitives: pattern search, trimming and splitting.
//!
//! Every string is modelled by its sequence of `char`s. The executable
//! functions work on slices of `char`s, so that positions found by a search
//! can be used directly as indices.
use vstd::prelude::*;
use vstd::slice::slice_subrange;

verus! {

/// `pat` occurs in `hay` starting at offset `i`.
pub open spec fn occurs_at(hay: Seq<char>, pat: Seq<char>, i: int) -> bool {
    &&& 0 <= i
    &&& i + pat.len() <= hay.len()
    &&& hay.subrange(i, i + pat.len()) == pat
}

/// `pat` occurs somewhere in `hay`.
pub open spec fn contains_text(hay: Seq<char>, pat: Seq<char>) -> bool {
    exists|i: int| occurs_at(hay, pat, i)
}

/// `i` is the leftmost offset at which `pat` occurs in `hay`.
pub open spec fn is_first_occurrence(hay: Seq<char>, pat: Seq<char>, i: int) -> bool {
    &&& occurs_at(hay, pat, i)
    &&& forall|j: int| 0 <= j < i ==> !occurs_at(hay, pat, j)
}

/// The leftmost offset at which `pat` occurs in `hay`, if it occurs at all.
pub open spec fn first_occurrence(hay: Seq<char>, pat: Seq<char>) -> Option<int> {
    if contains_text(hay, pat) {
        Some(choose|i: int| is_first_occurrence(hay, pat, i))
    } else {
        None
    }
}

/// `s` ends with `suffix`.
pub open spec fn ends_with(s: Seq<char>, suffix: Seq<char>) -> bool {
    occurs_at(s, suffix, s.len() - suffix.len())
}

/// The Unicode `White_Space` property of a character.
pub uninterp spec fn is_whitespace(c: char) -> bool;

/// `char::is_whitespace` reports the Unicode `White_Space` property of its
/// argument; the property depends on the character alone.
pub assume_specification[ char::is_whitespace ](c: char) -> (b: bool)
    ensures
        b == is_whitespace(c),
;

/// `s` without its leading whitespace.
pub open spec fn trim_front(s: Seq<char>) -> Seq<char>
    decreases s.len(),
{
    if s.len() > 0 && is_whitespace(s[0]) {
        trim_front(s.drop_first())
    } else {
        s
    }
}

/// `s` without its trailing whitespace.
pub open spec fn trim_back(s: Seq<char>) -> Seq<char>
    decreases s.len(),
{
    if s.len() > 0 && is_whitespace(s.last()) {
        trim_back(s.drop_last())
    } else {
        s
    }
}

/// `s` without leading and trailing whitespace.
pub open spec fn trimmed(s: Seq<char>) -> Seq<char> {
    trim_back(trim_front(s))
}

/// The pieces of `s` between occurrences of `sep`, read left to right: a
/// separator closes the current piece and opens an empty one, any other
/// character extends the current piece. There is always at least one piece.
pub open spec fn split_on(s: Seq<char>, sep: char) -> Seq<Seq<char>>
    decreases s.len(),
{
    if s.len() == 0 {
        seq![Seq::<char>::empty()]
    } else if s.last() == sep {
        split_on(s.drop_last(), sep).push(Seq::<char>::empty())
    } else {
        let before = split_on(s.drop_last(), sep);
        before.drop_last().push(before.last().push(s.last()))
    }
}

/// `line` without one trailing carriage return.
pub open spec fn without_carriage_return(line: Seq<char>) -> Seq<char> {
    if line.len() > 0 && line.last() == '\r' {
        line.drop_last()
    } else {
        line
    }
}

/// The lines of `text`. A line ends at a line feed; a carriage return directly
/// before that line feed belongs to the line ending. The last line needs no
/// line ending, and an empty last line is not a line.
pub open spec fn lines_of(text: Seq<char>) -> Seq<Seq<char>> {
    let pieces = split_on(text, '\n');
    let terminated = pieces.drop_last().map_values(|l: Seq<char>| without_carriage_return(l));
    if pieces.last().len() == 0 {
        terminated
    } else {
        terminated.push(pieces.last())
    }
}

/// The views of a list of strings.
pub open spec fn texts(v: Seq<String>) -> Seq<Seq<char>> {
    v.map_values(|s: String| s@)
}

/// The leftmost occurrence is unique, so naming one determines `first_occurrence`.
pub proof fn lemma_first_occurrence_is(hay: Seq<char>, pat: Seq<char>, i: int)
    requires
        is_first_occurrence(hay, pat, i),
    ensures
        first_occurrence(hay, pat) == Some(i),
{
    let k = choose|k: int| is_first_occurrence(hay, pat, k);
    if k < i {
        assert(!occurs_at(hay, pat, k));
    } else if i < k {
        assert(!occurs_at(hay, pat, i));
    }
}

/// Whenever `pat` occurs at all, `first_occurrence` names its leftmost offset.
pub proof fn lemma_first_occurrence_some(hay: Seq<char>, pat: Seq<char>)
    requires
        contains_text(hay, pat),
    ensures
        first_occurrence(hay, pat) is Some,
        is_first_occurrence(hay, pat, first_occurrence(hay, pat)->0),
{
    let w = choose|i: int| occurs_at(hay, pat, i);
    lemma_leftmost_exists(hay, pat, w);
}

proof fn lemma_leftmost_exists(hay: Seq<char>, pat: Seq<char>, w: int)
    requires
        occurs_at(hay, pat, w),
    ensures
        exists|i: int| is_first_occurrence(hay, pat, i),
    decreases w,
{
    if exists|j: int| 0 <= j < w && occurs_at(hay, pat, j) {
        let j = choose|j: int| 0 <= j < w && occurs_at(hay, pat, j);
        lemma_leftmost_exists(hay, pat, j);
    } else {
        assert(is_first_occurrence(hay, pat, w));
    }
}

/// An occurrence in a suffix of `hay` is an occurrence in `hay`, shifted.
pub proof fn lemma_occurs_in_suffix(hay: Seq<char>, pat: Seq<char>, start: int, i: int)
    requires
        0 <= start <= hay.len(),
        0 <= i,
    ensures
        occurs_at(hay.subrange(start, hay.len() as int), pat, i) == occurs_at(
            hay,
            pat,
            start + i,
        ),
{
    let rest = hay.subrange(start, hay.len() as int);
    if i + pat.len() <= rest.len() {
        assert(rest.subrange(i, i + pat.len()) =~= hay.subrange(
            start + i,
            start + i + pat.len(),
        ));
    }
}

/// A delimiter that follows a field first occurs right after the field,
/// provided that the field holds no character with which the delimiter
/// begins.
pub proof fn lemma_delimiter_after_field(field: Seq<char>, delimiter: Seq<char>, rest: Seq<char>)
    requires
        delimiter.len() > 0,
        !field.contains(delimiter[0]),
    ensures
        is_first_occurrence(field + delimiter + rest, delimiter, field.len() as int),
{
    let line = field + delimiter + rest;
    let at = field.len() as int;
    assert(line.subrange(at, at + delimiter.len()) =~= delimiter);
    assert forall|j: int| 0 <= j < at implies !occurs_at(line, delimiter, j) by {
        if occurs_at(line, delimiter, j) {
            assert(line.subrange(j, j + delimiter.len())[0] == delimiter[0]);
            assert(line[j] == field[j]);
        }
    }
}

/// `s` is empty, or begins and ends with a character that is no whitespace.
pub open spec fn is_trimmed(s: Seq<char>) -> bool {
    s.len() == 0 || (!is_whitespace(s[0]) && !is_whitespace(s.last()))
}

proof fn lemma_trim_front(s: Seq<char>)
    ensures
        trim_front(s).len() == 0 || !is_whitespace(trim_front(s)[0]),
    decreases s.len(),
{
    if s.len() > 0 && is_whitespace(s[0]) {
        lemma_trim_front(s.drop_first());
    }
}

proof fn lemma_trim_back(s: Seq<char>)
    ensures
        trim_back(s).len() <= s.len(),
        trim_back(s) == s.subrange(0, trim_back(s).len() as int),
        trim_back(s).len() == 0 || !is_whitespace(trim_back(s).last()),
    decreases s.len(),
{
    if s.len() > 0 && is_whitespace(s.last()) {
        lemma_trim_back(s.drop_last());
        let t = trim_back(s.drop_last());
        assert(s.drop_last().subrange(0, t.len() as int) =~= s.subrange(0, t.len() as int));
    } else {
        assert(s.subrange(0, s.len() as int) =~= s);
    }
}

/// Trimming leaves a text that begins and ends with a character that is no
/// whitespace, or nothing.
pub proof fn lemma_trimmed_is_trimmed(s: Seq<char>)
    ensures
        is_trimmed(trimmed(s)),
{
    lemma_trim_front(s);
    lemma_trim_back(trim_front(s));
}

/// Trimming changes nothing in a text that is trimmed already.
pub proof fn lemma_trimmed_stays(s: Seq<char>)
    requires
        is_trimmed(s),
    ensures
        trimmed(s) == s,
{
}

/// Two trimmed texts joined are trimmed.
pub proof fn lemma_trimmed_joined(a: Seq<char>, b: Seq<char>)
    requires
        is_trimmed(a),
        is_trimmed(b),
    ensures
        is_trimmed(a + b),
{
    if a.len() == 0 {
        assert(a + b =~= b);
    } else if b.len() == 0 {
        assert(a + b =~= a);
    }
}

/// The characters of a string slice, in order.
pub fn to_chars(s: &str) -> (v: Vec<char>)
    ensures
        v@ == s@,
{
    let mut v: Vec<char> = Vec::new();
    let it = s.chars();
    for c in iter: it
        invariant
            v@ == iter.seq().take(iter.index() as int),
    {
        v.push(c);
    }
    v
}

/// Whether `pat` occurs in `hay` at offset `i`.
pub fn matches_at(hay: &[char], pat: &[char], i: usize) -> (b: bool)
    ensures
        b == occurs_at(hay@, pat@, i as int),
{
    if pat.len() > hay.len() || i > hay.len() - pat.len() {
        return false;
    }
    let mut k: usize = 0;
    while k < pat.len()
        invariant
            k <= pat.len(),
            i + pat.len() <= hay.len(),
            forall|j: int| 0 <= j < k ==> hay@[i + j] == pat@[j],
        decreases pat.len() - k,
    {
        if hay[i + k] != pat[k] {
            assert(hay@.subrange(i as int, i + pat.len())[k as int] == hay@[i + k]);
            return false;
        }
        k += 1;
    }
    assert(hay@.subrange(i as int, i + pat.len()) =~= pat@);
    true
}

/// The leftmost occurrence of `pat` in `hay` at or after offset `start`,
/// as an offset into `hay`; none where `start` lies behind the end of `hay`.
pub fn find_from(hay: &[char], pat: &[char], start: usize) -> (r: Option<usize>)
    ensures
        match r {
            Some(i) => start <= i && i + pat.len() <= hay.len() && first_occurrence(
                hay@.subrange(start as int, hay.len() as int),
                pat@,
            ) == Some(i - start),
            None => start > hay.len() || first_occurrence(
                hay@.subrange(start as int, hay.len() as int),
                pat@,
            ) is None,
        },
{
    if start > hay.len() {
        return None;
    }
    let ghost rest = hay@.subrange(start as int, hay.len() as int);
    if pat.len() > hay.len() - start {
        return None;
    }
    let last: usize = hay.len() - pat.len();
    let mut i: usize = start;
    while i < last
        invariant
            start <= i <= last,
            last == hay.len() - pat.len(),
            rest == hay@.subrange(start as int, hay.len() as int),
            forall|j: int| 0 <= j < i - start ==> !occurs_at(rest, pat@, j),
        decreases last - i,
    {
        proof {
            lemma_occurs_in_suffix(hay@, pat@, start as int, i - start);
        }
        if matches_at(hay, pat, i) {
            proof {
                lemma_first_occurrence_is(rest, pat@, i - start);
            }
            return Some(i);
        }
        i += 1;
    }
    proof {
        lemma_occurs_in_suffix(hay@, pat@, start as int, last - start);
    }
    if matches_at(hay, pat, last) {
        proof {
            lemma_first_occurrence_is(rest, pat@, last - start);
        }
        Some(last)
    } else {
        None
    }
}

/// Whether `pat` occurs somewhere in `hay`.
pub fn contains(hay: &[char], pat: &[char]) -> (b: bool)
    ensures
        b == contains_text(hay@, pat@),
{
    assert(hay@.subrange(0, hay.len() as int) =~= hay@);
    find_from(hay, pat, 0).is_some()
}

/// Whether `s` ends with `suffix`.
pub fn has_suffix(s: &[char], suffix: &[char]) -> (b: bool)
    ensures
        b == ends_with(s@, suffix@),
{
    if suffix.len() > s.len() {
        return false;
    }
    matches_at(s, suffix, s.len() - suffix.len())
}

/// The bounds of `s` without its leading and trailing whitespace: where
/// what is left behind the leading whitespace begins, and where what is
/// left of that before the trailing whitespace ends.
pub fn trim_bounds(s: &[char]) -> (r: (usize, usize))
    ensures
        r.0 <= r.1 <= s.len(),
        s@.subrange(r.0 as int, r.1 as int) == trimmed(s@),
        r.0 == s.len() - trim_front(s@).len(),
        r.1 == r.0 + trimmed(s@).len(),
{
    let n: usize = s.len();
    let mut a: usize = 0;
    assert(s@.subrange(0, n as int) =~= s@);
    while a < n && s[a].is_whitespace()
        invariant
            a <= n,
            n == s.len(),
            trim_front(s@) == trim_front(s@.subrange(a as int, n as int)),
        decreases n - a,
    {
        assert(s@.subrange(a as int, n as int).drop_first() =~= s@.subrange(a + 1, n as int));
        a += 1;
    }
    let mut b: usize = n;
    while b > a && s[b - 1].is_whitespace()
        invariant
            a <= b <= n,
            n == s.len(),
            trim_back(s@.subrange(a as int, n as int)) == trim_back(
                s@.subrange(a as int, b as int),
            ),
        decreases b,
    {
        assert(s@.subrange(a as int, b as int).drop_last() =~= s@.subrange(a as int, b - 1));
        b -= 1;
    }
    (a, b)
}

/// Appends the characters of `src` to `dst`.
pub fn append_chars(dst: &mut Vec<char>, src: &[char])
    ensures
        final(dst)@ == old(dst)@ + src@,
{
    let mut i: usize = 0;
    while i < src.len()
        invariant
            i <= src.len(),
            dst@ == old(dst)@ + src@.take(i as int),
        decreases src.len() - i,
    {
        dst.push(src[i]);
        assert(src@.take(i + 1) =~= src@.take(i as int).push(src@[i as int]));
        i += 1;
    }
    assert(src@.take(src.len() as int) =~= src@);
}

/// `s` without its leading and trailing whitespace.
pub fn trim<'a>(s: &'a [char]) -> (r: &'a [char])
    ensures
        r@ == trimmed(s@),
{
    let (a, b) = trim_bounds(s);
    slice_subrange(s, a, b)
}

/// The stretches of `s` that `bounds` delimits.
pub open spec fn slices(s: Seq<char>, bounds: Seq<(usize, usize)>) -> Seq<Seq<char>> {
    Seq::new(bounds.len(), |k: int| s.subrange(bounds[k].0 as int, bounds[k].1 as int))
}

/// The bounds of the pieces of `s` between occurrences of `sep`: the first
/// piece begins at the start of `s`, every further piece one behind the end
/// of the piece before it, where a separator stands, and the last piece ends
/// at the end of `s`.
pub fn split_bounds(s: &[char], sep: char) -> (r: Vec<(usize, usize)>)
    ensures
        slices(s@, r@) == split_on(s@, sep),
        r.len() > 0,
        r[0].0 == 0,
        r[r.len() - 1].1 == s.len(),
        forall|k: int| 0 <= k < r.len() ==> (#[trigger] r[k]).0 <= r[k].1 <= s.len(),
        forall|k: int| 0 <= k < r.len() - 1 ==> (#[trigger] r[k]).1 + 1 == r[k + 1].0,
{
    let n: usize = s.len();
    let mut done: Vec<(usize, usize)> = Vec::new();
    let mut start: usize = 0;
    let mut i: usize = 0;
    assert(split_on(s@.take(0), sep) =~~= slices(s@, done@).push(s@.subrange(0, 0)));
    while i < n
        invariant
            start <= i <= n,
            n == s.len(),
            forall|k: int| 0 <= k < done.len() ==> (#[trigger] done[k]).0 <= done[k].1 <= n,
            forall|k: int| 0 <= k < done.len() - 1 ==> (#[trigger] done[k]).1 + 1 == done[k + 1].0,
            done.len() > 0 ==> done[0].0 == 0 && done[done.len() - 1].1 + 1 == start,
            done.len() == 0 ==> start == 0,
            split_on(s@.take(i as int), sep) == slices(s@, done@).push(
                s@.subrange(start as int, i as int),
            ),
        decreases n - i,
    {
        let ghost before = split_on(s@.take(i as int), sep);
        assert(s@.take(i + 1).drop_last() =~= s@.take(i as int));
        assert(s@.take(i + 1).last() == s@[i as int]);
        if s[i] == sep {
            done.push((start, i));
            start = i + 1;
            assert(slices(s@, done@) =~= before);
            assert(s@.subrange(start as int, i + 1) =~= Seq::<char>::empty());
        } else {
            assert(before.drop_last() =~= slices(s@, done@));
            assert(before.last().push(s@[i as int]) =~= s@.subrange(start as int, i + 1));
        }
        i += 1;
    }
    assert(s@.take(n as int) =~= s@);
    let ghost pieces = slices(s@, done@);
    done.push((start, n));
    assert(slices(s@, done@) =~= pieces.push(s@.subrange(start as int, n as int)));
    done
}

/// `Iterator::collect` into a `String`, over the characters of a slice,
/// yields the string of exactly those characters, in their order.
#[verifier::external_body]
pub(crate) fn string_from_chars(chars: &[char]) -> (s: String)
    ensures
        s@ == chars@,
{
    chars.iter().collect()
}

/// The lines of `text`, each as a string of its own.
pub fn lines(text: &str) -> (r: Vec<String>)
    ensures
        texts(r@) == lines_of(text@),
{
    let chars = to_chars(text);
    let chars = chars.as_slice();
    let bounds = split_bounds(chars, '\n');
    let ghost pieces = split_on(text@, '\n');
    let mut r: Vec<String> = Vec::new();
    let last: usize = bounds.len() - 1;
    let mut k: usize = 0;
    while k < last
        invariant
            k <= last,
            last + 1 == bounds.len(),
            chars@ == text@,
            pieces == slices(chars@, bounds@),
            forall|j: int|
                0 <= j < bounds.len() ==> (#[trigger] bounds[j]).0 <= bounds[j].1 <= chars.len(),
            texts(r@) == pieces.take(k as int).map_values(
                |l: Seq<char>| without_carriage_return(l),
            ),
        decreases last - k,
    {
        let (a, b) = bounds[k];
        let ghost line = pieces[k as int];
        let end: usize = if b > a && chars[b - 1] == '\r' {
            b - 1
        } else {
            b
        };
        let ghost before = texts(r@);
        let piece = slice_subrange(chars, a, end);
        assert(piece@ =~= without_carriage_return(line));
        r.push(string_from_chars(piece));
        assert(texts(r@) =~= before.push(without_carriage_return(line)));
        assert(pieces.take(k + 1).map_values(|l: Seq<char>| without_carriage_return(l))
            =~= pieces.take(k as int).map_values(|l: Seq<char>| without_carriage_return(l)).push(
            without_carriage_return(line),
        ));
        k += 1;
    }
    assert(pieces.take(last as int) =~= pieces.drop_last());
    let (a, b) = bounds[last];
    if b > a {
        let ghost before = texts(r@);
        r.push(string_from_chars(slice_subrange(chars, a, b)));
        assert(texts(r@) =~= before.push(pieces.last()));
    }
    r
}

} // verus!
