//! Paths inside an archive: joining a directory prefix with a name, taking
//! a path relative to a prefix, and splitting off the first segment.
//!
//! A path is a string whose segments are separated by `/`; `\` is accepted
//! as a separator wherever a path is taken apart.

use vstd::prelude::*;
use crate::text::{
    chars_of, chars_start_with_ignore_case, copy_range, eq_ignore_case, fold_char, is_separator,
    is_separator_char, lemma_eq_ignore_case_concat, lemma_eq_ignore_case_reflexive,
    lemma_eq_ignore_case_subrange, lemma_fold_keeps_separators, lemma_starts_with_like,
    lemma_trim_end_char_is, lemma_trim_start_char_is, starts_with_ignore_case, string_of,
    trim_end_char, trim_start_char,
};

verus! {

/// `s` without the `/` characters at its end.
pub open spec fn trim_end_slashes(s: Seq<char>) -> Seq<char> {
    trim_end_char(s, '/')
}

/// `s` without the `/` characters at its start.
pub open spec fn trim_start_slashes(s: Seq<char>) -> Seq<char> {
    trim_start_char(s, '/')
}

/// `s` without the separators of either kind at its end.
pub open spec fn trim_end_separators(s: Seq<char>) -> Seq<char>
    decreases s.len(),
{
    if s.len() > 0 && is_separator(s.last()) {
        trim_end_separators(s.drop_last())
    } else {
        s
    }
}

/// `s` without the separators of either kind at its start.
pub open spec fn trim_start_separators(s: Seq<char>) -> Seq<char>
    decreases s.len(),
{
    if s.len() > 0 && is_separator(s.first()) {
        trim_start_separators(s.drop_first())
    } else {
        s
    }
}

/// `s` without the separators of either kind at its start and at its end.
pub open spec fn trim_separators(s: Seq<char>) -> Seq<char> {
    trim_end_separators(trim_start_separators(s))
}

/// The text that every path below the directory `prefix` begins with: the
/// prefix without its trailing `/` characters, and one `/`.
pub open spec fn directory_lead(prefix: Seq<char>) -> Seq<char> {
    trim_end_slashes(prefix).push('/')
}

/// The path of `name` inside the directory `prefix`. The root directory is
/// the empty prefix, and a name inside it is its own path.
pub open spec fn join_spec(prefix: Seq<char>, name: Seq<char>) -> Seq<char> {
    if prefix.len() == 0 {
        name
    } else {
        directory_lead(prefix) + trim_start_slashes(name)
    }
}

/// Whether `path` lies below the directory `prefix`. Everything lies below
/// the root.
pub open spec fn falls_under(prefix: Seq<char>, path: Seq<char>) -> bool {
    prefix.len() == 0 || starts_with_ignore_case(path, directory_lead(prefix))
}

/// What is left of `path` once the directory `prefix` is taken from its
/// start, or `None` where `path` does not lie below `prefix`. Below the
/// root the path is left as it is; below any other directory the separators
/// at both ends of the remainder are dropped.
pub open spec fn relative_spec(prefix: Seq<char>, path: Seq<char>) -> Option<Seq<char>> {
    if prefix.len() == 0 {
        Some(path)
    } else if starts_with_ignore_case(path, directory_lead(prefix)) {
        Some(trim_separators(path.skip(directory_lead(prefix).len() as int)))
    } else {
        None
    }
}

/// The index of the first separator in `s`, or the length of `s` where it
/// holds none.
pub open spec fn first_separator(s: Seq<char>) -> int
    decreases s.len(),
{
    if s.len() == 0 || is_separator(s.first()) {
        0
    } else {
        1 + first_separator(s.drop_first())
    }
}

/// The first segment of `s`: what stands before its first separator.
pub open spec fn first_segment(s: Seq<char>) -> Seq<char> {
    s.take(first_separator(s))
}

/// What follows the first separator of `s`; empty where `s` holds none.
pub open spec fn after_first_segment(s: Seq<char>) -> Seq<char> {
    if first_separator(s) < s.len() {
        s.skip(first_separator(s) + 1)
    } else {
        Seq::empty()
    }
}

/// `first_separator` is the least index at which a separator stands.
pub proof fn lemma_first_separator(s: Seq<char>)
    ensures
        0 <= first_separator(s) <= s.len(),
        forall|j: int| 0 <= j < first_separator(s) ==> !is_separator(#[trigger] s[j]),
        first_separator(s) < s.len() ==> is_separator(s[first_separator(s)]),
    decreases s.len(),
{
    if s.len() == 0 || is_separator(s.first()) {
    } else {
        let t = s.drop_first();
        lemma_first_separator(t);
        assert forall|j: int| 0 <= j < first_separator(s) implies !is_separator(#[trigger] s[j]) by {
            if j > 0 {
                assert(s[j] == t[j - 1]);
            }
        }
        if first_separator(s) < s.len() {
            assert(s[first_separator(s)] == t[first_separator(t)]);
        }
    }
}

/// An index before which no separator stands, and at which one stands or
/// the string ends, is `first_separator`.
pub proof fn lemma_first_separator_is(s: Seq<char>, i: int)
    requires
        0 <= i <= s.len(),
        forall|j: int| 0 <= j < i ==> !is_separator(#[trigger] s[j]),
        i < s.len() ==> is_separator(s[i]),
    ensures
        first_separator(s) == i,
{
    lemma_first_separator(s);
    let f = first_separator(s);
    if f < i {
        assert(is_separator(s[f]));
    } else if i < f {
        assert(!is_separator(s[i]));
    }
}

/// A prefix of `s` behind which only separators stand, and which does not
/// itself end in one, is `s` with the separators at its end trimmed.
pub proof fn lemma_trim_end_separators_is(s: Seq<char>, n: int)
    requires
        0 <= n <= s.len(),
        forall|j: int| n <= j < s.len() ==> is_separator(#[trigger] s[j]),
        n > 0 ==> !is_separator(s[n - 1]),
    ensures
        trim_end_separators(s) == s.take(n),
    decreases s.len() - n,
{
    if n == s.len() {
        assert(s.take(n) =~= s);
    } else {
        assert(is_separator(s.last()));
        let t = s.drop_last();
        assert forall|j: int| n <= j < t.len() implies is_separator(#[trigger] t[j]) by {
            assert(t[j] == s[j]);
        }
        if n > 0 {
            assert(t[n - 1] == s[n - 1]);
        }
        lemma_trim_end_separators_is(t, n);
        assert(t.take(n) =~= s.take(n));
    }
}

/// A suffix of `s` before which only separators stand, and which does not
/// itself begin with one, is `s` with the separators at its start trimmed.
pub proof fn lemma_trim_start_separators_is(s: Seq<char>, n: int)
    requires
        0 <= n <= s.len(),
        forall|j: int| 0 <= j < n ==> is_separator(#[trigger] s[j]),
        n < s.len() ==> !is_separator(s[n]),
    ensures
        trim_start_separators(s) == s.skip(n),
    decreases n,
{
    if n == 0 {
        assert(s.skip(0) =~= s);
    } else {
        assert(is_separator(s.first()));
        let t = s.drop_first();
        assert forall|j: int| 0 <= j < n - 1 implies is_separator(#[trigger] t[j]) by {
            assert(t[j] == s[j + 1]);
        }
        if n < s.len() {
            assert(t[n - 1] == s[n]);
        }
        lemma_trim_start_separators_is(t, n - 1);
        assert(t.skip(n - 1) =~= s.skip(n));
    }
}

/// Trimming `/` from the end of two strings that are equal, ASCII case
/// aside, leaves two such strings.
pub proof fn lemma_trim_end_slashes_like(a: Seq<char>, b: Seq<char>)
    requires
        eq_ignore_case(a, b),
    ensures
        eq_ignore_case(trim_end_slashes(a), trim_end_slashes(b)),
    decreases a.len(),
{
    reveal_with_fuel(trim_end_char, 2);
    if a.len() > 0 {
        assert(fold_char(a[a.len() - 1]) == fold_char(b[a.len() - 1]));
        lemma_fold_keeps_separators(a.last(), b.last());
        if a.last() == '/' {
            lemma_eq_ignore_case_subrange(a, b, 0, a.len() - 1);
            assert(a.subrange(0, a.len() - 1) =~= a.drop_last());
            assert(b.subrange(0, a.len() - 1) =~= b.drop_last());
            lemma_trim_end_slashes_like(a.drop_last(), b.drop_last());
        }
    }
}

/// Trimming `/` from the start of two strings that are equal, ASCII case
/// aside, leaves two such strings.
pub proof fn lemma_trim_start_slashes_like(a: Seq<char>, b: Seq<char>)
    requires
        eq_ignore_case(a, b),
    ensures
        eq_ignore_case(trim_start_slashes(a), trim_start_slashes(b)),
    decreases a.len(),
{
    reveal_with_fuel(trim_start_char, 2);
    if a.len() > 0 {
        assert(fold_char(a[0]) == fold_char(b[0]));
        lemma_fold_keeps_separators(a.first(), b.first());
        if a.first() == '/' {
            lemma_eq_ignore_case_subrange(a, b, 1, a.len() as int);
            assert(a.subrange(1, a.len() as int) =~= a.drop_first());
            assert(b.subrange(1, a.len() as int) =~= b.drop_first());
            lemma_trim_start_slashes_like(a.drop_first(), b.drop_first());
        }
    }
}

/// The leads of two prefixes that are equal, ASCII case aside, are equal
/// so too.
pub proof fn lemma_directory_lead_like(a: Seq<char>, b: Seq<char>)
    requires
        eq_ignore_case(a, b),
    ensures
        eq_ignore_case(directory_lead(a), directory_lead(b)),
{
    lemma_trim_end_slashes_like(a, b);
    lemma_eq_ignore_case_reflexive(seq!['/']);
    lemma_eq_ignore_case_concat(trim_end_slashes(a), trim_end_slashes(b), seq!['/'], seq!['/']);
    assert(directory_lead(a) =~= trim_end_slashes(a) + seq!['/']);
    assert(directory_lead(b) =~= trim_end_slashes(b) + seq!['/']);
}

/// Joining prefixes and names that are equal, ASCII case aside, gives
/// paths that are equal so.
pub proof fn lemma_join_like(prefix: Seq<char>, name: Seq<char>, other_prefix: Seq<char>, other_name: Seq<char>)
    requires
        eq_ignore_case(prefix, other_prefix),
        eq_ignore_case(name, other_name),
    ensures
        eq_ignore_case(join_spec(prefix, name), join_spec(other_prefix, other_name)),
{
    if prefix.len() > 0 {
        lemma_directory_lead_like(prefix, other_prefix);
        lemma_trim_start_slashes_like(name, other_name);
        lemma_eq_ignore_case_concat(
            directory_lead(prefix),
            directory_lead(other_prefix),
            trim_start_slashes(name),
            trim_start_slashes(other_name),
        );
    }
}

/// What lies below a directory, and where, does not depend on the casing
/// of the directory's prefix.
pub proof fn lemma_relative_ignores_prefix_case(prefix: Seq<char>, other: Seq<char>, path: Seq<char>)
    requires
        eq_ignore_case(prefix, other),
    ensures
        relative_spec(prefix, path) == relative_spec(other, path),
        falls_under(prefix, path) == falls_under(other, path),
{
    if prefix.len() > 0 {
        lemma_directory_lead_like(prefix, other);
        lemma_starts_with_like(path, directory_lead(prefix), directory_lead(other));
    }
}

/// The length of `s` once the `/` characters at its end are dropped.
pub fn trimmed_end_slashes_len(s: &[char]) -> (n: usize)
    ensures
        n <= s.len(),
        trim_end_slashes(s@) == s@.take(n as int),
{
    let mut n: usize = s.len();
    while n > 0 && s[n - 1] == '/'
        invariant
            n <= s.len(),
            forall|j: int| n <= j < s.len() ==> #[trigger] s@[j] == '/',
        decreases n,
    {
        n -= 1;
    }
    proof {
        lemma_trim_end_char_is(s@, '/', n as int);
    }
    n
}

/// The characters of `directory_lead(prefix)`.
pub fn directory_lead_chars(prefix: &[char]) -> (r: Vec<char>)
    ensures
        r@ == directory_lead(prefix@),
{
    let n = trimmed_end_slashes_len(prefix);
    let mut r = copy_range(prefix, 0, n);
    r.push('/');
    r
}

/// `normalize_join` on characters.
pub fn join_chars(prefix: &[char], name: &[char]) -> (r: Vec<char>)
    ensures
        r@ == join_spec(prefix@, name@),
{
    if prefix.len() == 0 {
        let r = copy_range(name, 0, name.len());
        assert(name@.subrange(0, name.len() as int) =~= name@);
        return r;
    }
    let mut r = directory_lead_chars(prefix);
    let mut start: usize = 0;
    while start < name.len() && name[start] == '/'
        invariant
            start <= name.len(),
            forall|j: int| 0 <= j < start ==> #[trigger] name@[j] == '/',
        decreases name.len() - start,
    {
        start += 1;
    }
    proof {
        lemma_trim_start_char_is(name@, '/', start as int);
    }
    let mut i: usize = start;
    while i < name.len()
        invariant
            start <= i <= name.len(),
            r@ == directory_lead(prefix@) + name@.subrange(start as int, i as int),
        decreases name.len() - i,
    {
        r.push(name[i]);
        i += 1;
    }
    assert(name@.subrange(start as int, name.len() as int) =~= name@.skip(start as int));
    r
}

/// `relative` on characters.
pub fn relative_chars(prefix: &[char], path: &[char]) -> (r: Option<Vec<char>>)
    ensures
        r is Some == relative_spec(prefix@, path@) is Some,
        r is Some ==> r->0@ == relative_spec(prefix@, path@)->0,
{
    if prefix.len() == 0 {
        let r = copy_range(path, 0, path.len());
        assert(path@.subrange(0, path.len() as int) =~= path@);
        return Some(r);
    }
    let lead = directory_lead_chars(prefix);
    if !chars_start_with_ignore_case(path, lead.as_slice()) {
        return None;
    }
    let ghost rest = path@.skip(lead.len() as int);
    let mut from: usize = lead.len();
    while from < path.len() && is_separator_char(path[from])
        invariant
            lead.len() <= from <= path.len(),
            rest == path@.skip(lead.len() as int),
            forall|j: int| 0 <= j < from - lead.len() ==> is_separator(#[trigger] rest[j]),
        decreases path.len() - from,
    {
        from += 1;
    }
    proof {
        lemma_trim_start_separators_is(rest, from - lead.len());
    }
    let ghost mid = path@.skip(from as int);
    assert(mid =~= rest.skip(from - lead.len()));
    let mut to: usize = path.len();
    while to > from && is_separator_char(path[to - 1])
        invariant
            from <= to <= path.len(),
            mid == path@.skip(from as int),
            forall|j: int| to - from <= j < mid.len() ==> is_separator(#[trigger] mid[j]),
        decreases to,
    {
        to -= 1;
    }
    proof {
        lemma_trim_end_separators_is(mid, to - from);
        assert(mid.take(to - from) =~= path@.subrange(from as int, to as int));
    }
    Some(copy_range(path, from, to))
}

/// `split_first_segment` on characters.
pub fn split_first_segment_chars(remainder: &[char]) -> (r: (Vec<char>, Vec<char>))
    ensures
        r.0@ == first_segment(remainder@),
        r.1@ == after_first_segment(remainder@),
{
    let mut i: usize = 0;
    while i < remainder.len() && !is_separator_char(remainder[i])
        invariant
            i <= remainder.len(),
            forall|j: int| 0 <= j < i ==> !is_separator(#[trigger] remainder@[j]),
        decreases remainder.len() - i,
    {
        i += 1;
    }
    proof {
        lemma_first_separator_is(remainder@, i as int);
    }
    let segment = copy_range(remainder, 0, i);
    if i < remainder.len() {
        let rest = copy_range(remainder, i + 1, remainder.len());
        assert(remainder@.subrange(i + 1, remainder.len() as int) =~= remainder@.skip(i + 1));
        (segment, rest)
    } else {
        assert(remainder@.subrange(0, i as int) =~= remainder@.take(i as int));
        (segment, Vec::new())
    }
}

/// Joins a directory prefix and a name into one path. With an empty prefix
/// the name is returned unchanged; otherwise the result is the prefix
/// without its trailing `/` characters, one `/`, and the name without its
/// leading `/` characters.
pub fn normalize_join(prefix: &str, name: &str) -> (path: String)
    ensures
        path@ == join_spec(prefix@, name@),
{
    let p = chars_of(prefix);
    let n = chars_of(name);
    let r = join_chars(p.as_slice(), n.as_slice());
    string_of(r.as_slice())
}

/// The part of `full_path` below the directory `prefix`.
///
/// With an empty prefix this is `full_path` unchanged. Otherwise
/// `full_path` has to begin, ASCII case aside, with the prefix and a `/`;
/// the result is what follows, without the separators of either kind at
/// its two ends. `None` where `full_path` does not begin so.
pub fn relative(prefix: &str, full_path: &str) -> (remainder: Option<String>)
    ensures
        remainder is Some == relative_spec(prefix@, full_path@) is Some,
        remainder is Some ==> remainder->0@ == relative_spec(prefix@, full_path@)->0,
        remainder is Some == falls_under(prefix@, full_path@),
{
    let p = chars_of(prefix);
    let f = chars_of(full_path);
    match relative_chars(p.as_slice(), f.as_slice()) {
        Some(r) => Some(string_of(r.as_slice())),
        None => None,
    }
}

/// Splits a path at its first separator of either kind into the segment
/// before it and the rest after it. Without a separator the segment is the
/// whole path and the rest is empty.
pub fn split_first_segment(remainder: &str) -> (parts: (String, String))
    ensures
        parts.0@ == first_segment(remainder@),
        parts.1@ == after_first_segment(remainder@),
{
    let r = chars_of(remainder);
    let (segment, rest) = split_first_segment_chars(r.as_slice());
    (string_of(segment.as_slice()), string_of(rest.as_slice()))
}

} // verus!
