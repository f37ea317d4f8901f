//! Characters and strings as the library reads them: ASCII case folding,
//! case-insensitive comparison, ordering, and decimal text.

use vstd::prelude::*;

verus! {

/// `String::push` of the standard library, which appends one character to
/// the end of the string. Verus takes this on trust.
pub assume_specification[ String::push ](s: &mut String, ch: char)
    ensures
        final(s)@ == old(s)@.push(ch),
;

/// The two characters that separate the segments of a path.
pub open spec fn is_separator(c: char) -> bool {
    c == '/' || c == '\\'
}

/// The characters that count as blank: those with the Unicode property
/// White_Space.
pub open spec fn is_blank_char(c: char) -> bool {
    ||| ('\u{9}' <= c && c <= '\u{d}')
    ||| c == ' '
    ||| c == '\u{85}'
    ||| c == '\u{a0}'
    ||| c == '\u{1680}'
    ||| ('\u{2000}' <= c && c <= '\u{200a}')
    ||| c == '\u{2028}'
    ||| c == '\u{2029}'
    ||| c == '\u{202f}'
    ||| c == '\u{205f}'
    ||| c == '\u{3000}'
}

/// An ASCII upper-case letter becomes its lower-case letter; every other
/// character stays as it is.
pub open spec fn fold_char(c: char) -> char {
    if 'A' <= c && c <= 'Z' {
        ((c as u8 + 32) as u8) as char
    } else {
        c
    }
}

/// A string with every character folded.
pub open spec fn fold(s: Seq<char>) -> Seq<char> {
    Seq::new(s.len(), |i: int| fold_char(s[i]))
}

/// Two strings are the same but for the case of their ASCII letters.
pub open spec fn eq_ignore_case(a: Seq<char>, b: Seq<char>) -> bool {
    &&& a.len() == b.len()
    &&& forall|i: int| 0 <= i < a.len() ==> fold_char(#[trigger] a[i]) == fold_char(b[i])
}

/// `s` begins with `p`, letter for letter.
pub open spec fn starts_with(s: Seq<char>, p: Seq<char>) -> bool {
    p.len() <= s.len() && s.take(p.len() as int) == p
}

/// `s` begins with `p`, ASCII case aside.
pub open spec fn starts_with_ignore_case(s: Seq<char>, p: Seq<char>) -> bool {
    p.len() <= s.len() && eq_ignore_case(s.take(p.len() as int), p)
}

/// Strict lexicographic order by code point, which is the order of the
/// strings' UTF-8 bytes.
pub open spec fn lex_less(a: Seq<char>, b: Seq<char>) -> bool
    decreases a.len(),
{
    if b.len() == 0 {
        false
    } else if a.len() == 0 {
        true
    } else if a[0] != b[0] {
        a[0] < b[0]
    } else {
        lex_less(a.drop_first(), b.drop_first())
    }
}

/// Strict order of two names by their folded text.
pub open spec fn fold_less(a: Seq<char>, b: Seq<char>) -> bool {
    lex_less(fold(a), fold(b))
}

/// The order in which names are listed: by folded text, and among names
/// that fold to the same text by the text as written.
pub open spec fn name_before(a: Seq<char>, b: Seq<char>) -> bool {
    fold_less(a, b) || (fold(a) == fold(b) && lex_less(a, b))
}

/// How two names stand to each other by their folded text.
#[derive(Debug, Clone, Copy, PartialEq, Eq, Structural)]
pub enum NameOrder {
    Before,
    Same,
    After,
}

/// The order of `a` and `b` by their folded text.
pub open spec fn fold_order(a: Seq<char>, b: Seq<char>) -> NameOrder {
    if fold_less(a, b) {
        NameOrder::Before
    } else if fold_less(b, a) {
        NameOrder::After
    } else {
        NameOrder::Same
    }
}

/// `s` without the characters `c` at its start.
pub open spec fn trim_start_char(s: Seq<char>, c: char) -> Seq<char>
    decreases s.len(),
{
    if s.len() > 0 && s.first() == c {
        trim_start_char(s.drop_first(), c)
    } else {
        s
    }
}

/// `s` without the characters `c` at its end.
pub open spec fn trim_end_char(s: Seq<char>, c: char) -> Seq<char>
    decreases s.len(),
{
    if s.len() > 0 && s.last() == c {
        trim_end_char(s.drop_last(), c)
    } else {
        s
    }
}

/// `s` without the characters `c` at its two ends.
pub open spec fn trim_char(s: Seq<char>, c: char) -> Seq<char> {
    trim_end_char(trim_start_char(s, c), c)
}

/// The character of a decimal digit.
pub open spec fn digit_char(d: nat) -> char {
    ((48 + d) as u8) as char
}

/// A natural number in decimal, without leading zeros.
pub open spec fn decimal(n: nat) -> Seq<char>
    decreases n,
{
    if n < 10 {
        seq![digit_char(n)]
    } else {
        decimal(n / 10).push(digit_char(n % 10))
    }
}

/// Every string equals itself, ASCII case aside.
pub proof fn lemma_eq_ignore_case_reflexive(a: Seq<char>)
    ensures
        eq_ignore_case(a, a),
{
}

/// Equality ASCII case aside does not depend on the side.
pub proof fn lemma_eq_ignore_case_symmetric(a: Seq<char>, b: Seq<char>)
    requires
        eq_ignore_case(a, b),
    ensures
        eq_ignore_case(b, a),
{
    assert forall|i: int| 0 <= i < b.len() implies fold_char(#[trigger] b[i]) == fold_char(a[i]) by {
        assert(fold_char(a[i]) == fold_char(b[i]));
    }
}

/// Equality ASCII case aside is transitive.
pub proof fn lemma_eq_ignore_case_transitive(a: Seq<char>, b: Seq<char>, c: Seq<char>)
    requires
        eq_ignore_case(a, b),
        eq_ignore_case(b, c),
    ensures
        eq_ignore_case(a, c),
{
    assert forall|i: int| 0 <= i < a.len() implies fold_char(#[trigger] a[i]) == fold_char(c[i]) by {
        assert(fold_char(a[i]) == fold_char(b[i]));
        assert(fold_char(b[i]) == fold_char(c[i]));
    }
}

/// Parts of strings that are equal, ASCII case aside, are equal so too.
pub proof fn lemma_eq_ignore_case_subrange(a: Seq<char>, b: Seq<char>, from: int, to: int)
    requires
        eq_ignore_case(a, b),
        0 <= from <= to <= a.len(),
    ensures
        eq_ignore_case(a.subrange(from, to), b.subrange(from, to)),
{
    let x = a.subrange(from, to);
    let y = b.subrange(from, to);
    assert forall|i: int| 0 <= i < x.len() implies fold_char(#[trigger] x[i]) == fold_char(y[i]) by {
        assert(x[i] == a[from + i]);
        assert(y[i] == b[from + i]);
        assert(fold_char(a[from + i]) == fold_char(b[from + i]));
    }
}

/// Strings put together of parts that are equal, ASCII case aside, are
/// equal so too.
pub proof fn lemma_eq_ignore_case_concat(a: Seq<char>, b: Seq<char>, c: Seq<char>, d: Seq<char>)
    requires
        eq_ignore_case(a, b),
        eq_ignore_case(c, d),
    ensures
        eq_ignore_case(a + c, b + d),
{
    let x = a + c;
    let y = b + d;
    assert forall|i: int| 0 <= i < x.len() implies fold_char(#[trigger] x[i]) == fold_char(y[i]) by {
        if i < a.len() {
            assert(x[i] == a[i] && y[i] == b[i]);
            assert(fold_char(a[i]) == fold_char(b[i]));
        } else {
            assert(x[i] == c[i - a.len()] && y[i] == d[i - a.len()]);
            assert(fold_char(c[i - a.len()]) == fold_char(d[i - a.len()]));
        }
    }
}

/// A string begins with `p` exactly when it begins with any other casing of
/// `p`.
pub proof fn lemma_starts_with_like(s: Seq<char>, p: Seq<char>, q: Seq<char>)
    requires
        eq_ignore_case(p, q),
    ensures
        starts_with_ignore_case(s, p) == starts_with_ignore_case(s, q),
{
    if p.len() <= s.len() {
        let head = s.take(p.len() as int);
        assert(head == s.take(q.len() as int));
        lemma_eq_ignore_case_symmetric(p, q);
        if eq_ignore_case(head, p) {
            lemma_eq_ignore_case_transitive(head, p, q);
        }
        if eq_ignore_case(head, q) {
            lemma_eq_ignore_case_transitive(head, q, p);
        }
    }
}

/// Folding turns no character into `/` or `\` and none of the two into
/// another character.
pub proof fn lemma_fold_keeps_separators(a: char, b: char)
    requires
        fold_char(a) == fold_char(b),
    ensures
        (a == '/') == (b == '/'),
        (a == '\\') == (b == '\\'),
        is_separator(a) == is_separator(b),
{
}

/// Two strings fold to the same text exactly when they are equal, ASCII
/// case aside.
pub proof fn lemma_fold_eq(a: Seq<char>, b: Seq<char>)
    ensures
        (fold(a) == fold(b)) == eq_ignore_case(a, b),
{
    if fold(a) == fold(b) {
        assert(fold(a).len() == fold(b).len());
        assert forall|i: int| 0 <= i < a.len() implies fold_char(#[trigger] a[i]) == fold_char(
            b[i],
        ) by {
            assert(fold(a)[i] == fold(b)[i]);
        }
    }
    if eq_ignore_case(a, b) {
        assert(fold(a) =~= fold(b));
    }
}

/// No string stands before itself.
pub proof fn lemma_lex_irreflexive(a: Seq<char>)
    ensures
        !lex_less(a, a),
    decreases a.len(),
{
    if a.len() > 0 {
        lemma_lex_irreflexive(a.drop_first());
    }
}

/// Of two different strings exactly one stands before the other.
pub proof fn lemma_lex_total(a: Seq<char>, b: Seq<char>)
    ensures
        a != b ==> (lex_less(a, b) != lex_less(b, a)),
        a == b ==> !lex_less(a, b) && !lex_less(b, a),
    decreases a.len(),
{
    if a == b {
        lemma_lex_irreflexive(a);
    } else if a.len() == 0 || b.len() == 0 {
        if a.len() == 0 && b.len() == 0 {
            assert(a =~= b);
        }
    } else if a[0] != b[0] {
    } else {
        lemma_lex_total(a.drop_first(), b.drop_first());
        if a.drop_first() == b.drop_first() {
            assert(a =~= seq![a[0]] + a.drop_first());
            assert(b =~= seq![b[0]] + b.drop_first());
        }
    }
}

/// The order is transitive.
pub proof fn lemma_lex_transitive(a: Seq<char>, b: Seq<char>, c: Seq<char>)
    requires
        lex_less(a, b),
        lex_less(b, c),
    ensures
        lex_less(a, c),
    decreases a.len(),
{
    if a.len() == 0 {
    } else if a[0] != b[0] || b[0] != c[0] {
    } else {
        lemma_lex_transitive(a.drop_first(), b.drop_first(), c.drop_first());
    }
}

/// Two strings that agree on their first `k` characters stand to each other
/// as what follows those characters.
pub proof fn lemma_lex_skip(a: Seq<char>, b: Seq<char>, k: int)
    requires
        0 <= k <= a.len(),
        k <= b.len(),
        forall|j: int| 0 <= j < k ==> a[j] == b[j],
    ensures
        lex_less(a, b) == lex_less(a.skip(k), b.skip(k)),
    decreases k,
{
    if k == 0 {
        assert(a.skip(0) =~= a);
        assert(b.skip(0) =~= b);
    } else {
        let a1 = a.drop_first();
        let b1 = b.drop_first();
        assert forall|j: int| 0 <= j < k - 1 implies a1[j] == b1[j] by {
            assert(a1[j] == a[j + 1]);
            assert(b1[j] == b[j + 1]);
        }
        lemma_lex_skip(a1, b1, k - 1);
        assert(a1.skip(k - 1) =~= a.skip(k));
        assert(b1.skip(k - 1) =~= b.skip(k));
        assert(a[0] == b[0]);
    }
}

/// A part of `s` before which only `c` stands and which does not begin
/// with `c` is `s` with `c` trimmed from its start.
pub proof fn lemma_trim_start_char_is(s: Seq<char>, c: char, n: int)
    requires
        0 <= n <= s.len(),
        forall|j: int| 0 <= j < n ==> #[trigger] s[j] == c,
        n < s.len() ==> s[n] != c,
    ensures
        trim_start_char(s, c) == s.skip(n),
    decreases n,
{
    if n == 0 {
        assert(s.skip(0) =~= s);
    } else {
        assert(s.first() == c);
        let t = s.drop_first();
        assert forall|j: int| 0 <= j < n - 1 implies #[trigger] t[j] == c by {
            assert(t[j] == s[j + 1]);
        }
        if n < s.len() {
            assert(t[n - 1] == s[n]);
        }
        lemma_trim_start_char_is(t, c, n - 1);
        assert(t.skip(n - 1) =~= s.skip(n));
    }
}

/// A part of `s` behind which only `c` stands and which does not end in
/// `c` is `s` with `c` trimmed from its end.
pub proof fn lemma_trim_end_char_is(s: Seq<char>, c: char, n: int)
    requires
        0 <= n <= s.len(),
        forall|j: int| n <= j < s.len() ==> #[trigger] s[j] == c,
        n > 0 ==> s[n - 1] != c,
    ensures
        trim_end_char(s, c) == s.take(n),
    decreases s.len() - n,
{
    if n == s.len() {
        assert(s.take(n) =~= s);
    } else {
        assert(s.last() == c);
        let t = s.drop_last();
        assert forall|j: int| n <= j < t.len() implies #[trigger] t[j] == c by {
            assert(t[j] == s[j]);
        }
        if n > 0 {
            assert(t[n - 1] == s[n - 1]);
        }
        lemma_trim_end_char_is(t, c, n);
        assert(t.take(n) =~= s.take(n));
    }
}

/// Whether a character separates the segments of a path.
pub fn is_separator_char(c: char) -> (r: bool)
    ensures
        r == is_separator(c),
{
    c == '/' || c == '\\'
}

/// Whether a character is blank.
pub fn is_blank(c: char) -> (blank: bool)
    ensures
        blank == is_blank_char(c),
{
    ('\u{9}' <= c && c <= '\u{d}') || c == ' ' || c == '\u{85}' || c == '\u{a0}' || c == '\u{1680}'
        || ('\u{2000}' <= c && c <= '\u{200a}') || c == '\u{2028}' || c == '\u{2029}' || c
        == '\u{202f}' || c == '\u{205f}' || c == '\u{3000}'
}

/// The character with an ASCII upper-case letter turned to lower case.
pub fn fold_ascii(c: char) -> (r: char)
    ensures
        r == fold_char(c),
{
    if 'A' <= c && c <= 'Z' {
        ((c as u8) + 32u8) as char
    } else {
        c
    }
}

/// The characters of a string, in order.
pub fn chars_of(s: &str) -> (v: Vec<char>)
    ensures
        v@ == s@,
{
    let mut v: Vec<char> = Vec::new();
    for c in it: s.chars()
        invariant
            v@ == it.seq().take(it.index()),
            it.seq() == s@,
    {
        v.push(c);
    }
    v
}

/// The string made of the given characters.
pub fn string_of(v: &[char]) -> (s: String)
    ensures
        s@ == v@,
{
    let mut s = String::new();
    let mut i: usize = 0;
    while i < v.len()
        invariant
            i <= v.len(),
            s@ == v@.take(i as int),
        decreases v.len() - i,
    {
        s.push(v[i]);
        i += 1;
    }
    s
}

/// A copy of the characters `v[from..to]`.
pub fn copy_range(v: &[char], from: usize, to: usize) -> (r: Vec<char>)
    requires
        from <= to <= v.len(),
    ensures
        r@ == v@.subrange(from as int, to as int),
{
    let mut r: Vec<char> = Vec::new();
    let mut i: usize = from;
    while i < to
        invariant
            from <= i <= to <= v.len(),
            r@ == v@.subrange(from as int, i as int),
        decreases to - i,
    {
        r.push(v[i]);
        i += 1;
    }
    r
}

/// Whether two character slices are equal, ASCII case aside.
pub fn chars_eq_ignore_case(a: &[char], b: &[char]) -> (r: bool)
    ensures
        r == eq_ignore_case(a@, b@),
{
    if a.len() != b.len() {
        return false;
    }
    let mut i: usize = 0;
    while i < a.len()
        invariant
            i <= a.len(),
            a.len() == b.len(),
            forall|j: int| 0 <= j < i ==> fold_char(#[trigger] a@[j]) == fold_char(b@[j]),
        decreases a.len() - i,
    {
        if fold_ascii(a[i]) != fold_ascii(b[i]) {
            return false;
        }
        i += 1;
    }
    true
}

/// Whether a string equals a character slice, ASCII case aside.
pub fn str_eq_ignore_case(s: &str, name: &[char]) -> (r: bool)
    ensures
        r == eq_ignore_case(s@, name@),
{
    let mut i: usize = 0;
    let mut same = true;
    for c in it: s.chars()
        invariant
            it.seq() == s@,
            same ==> i == it.index() && i <= name.len(),
            same ==> forall|j: int| 0 <= j < i ==> fold_char(#[trigger] s@[j]) == fold_char(name@[j]),
            !same ==> !eq_ignore_case(s@, name@),
    {
        if same {
            if i < name.len() && fold_ascii(c) == fold_ascii(name[i]) {
                i += 1;
            } else {
                same = false;
            }
        }
    }
    same && i == name.len()
}

/// Whether `s` begins with `p`, ASCII case aside.
pub fn chars_start_with_ignore_case(s: &[char], p: &[char]) -> (r: bool)
    ensures
        r == starts_with_ignore_case(s@, p@),
{
    if p.len() > s.len() {
        return false;
    }
    let mut i: usize = 0;
    while i < p.len()
        invariant
            i <= p.len() <= s.len(),
            forall|j: int| 0 <= j < i ==> fold_char(#[trigger] s@[j]) == fold_char(p@[j]),
        decreases p.len() - i,
    {
        if fold_ascii(s[i]) != fold_ascii(p[i]) {
            assert(s@.take(p.len() as int)[i as int] == s@[i as int]);
            return false;
        }
        i += 1;
    }
    assert forall|j: int| 0 <= j < p.len() implies fold_char(#[trigger] s@.take(p.len() as int)[j])
        == fold_char(p@[j]) by {
        assert(s@.take(p.len() as int)[j] == s@[j]);
    }
    true
}

/// Compares two names by their folded text.
pub fn compare_folded(a: &[char], b: &[char]) -> (order: NameOrder)
    ensures
        order == fold_order(a@, b@),
        (order == NameOrder::Same) == eq_ignore_case(a@, b@),
{
    let ghost fa = fold(a@);
    let ghost fb = fold(b@);
    let mut i: usize = 0;
    while i < a.len() && i < b.len() && fold_ascii(a[i]) == fold_ascii(b[i])
        invariant
            i <= a.len(),
            i <= b.len(),
            fa == fold(a@),
            fb == fold(b@),
            forall|j: int| 0 <= j < i ==> fa[j] == fb[j],
        decreases a.len() - i,
    {
        i += 1;
    }
    proof {
        lemma_lex_skip(fa, fb, i as int);
        lemma_lex_skip(fb, fa, i as int);
        lemma_fold_eq(a@, b@);
        lemma_lex_total(fa, fb);
        let ra = fa.skip(i as int);
        let rb = fb.skip(i as int);
        if i < a.len() && i < b.len() {
            assert(ra[0] == fold_char(a@[i as int]));
            assert(rb[0] == fold_char(b@[i as int]));
            assert(fa[i as int] != fb[i as int]);
        } else if i == a.len() && i == b.len() {
            assert(fa =~= fb);
        } else {
            assert(fa.len() != fb.len());
        }
    }
    if i == a.len() {
        if i == b.len() {
            NameOrder::Same
        } else {
            NameOrder::Before
        }
    } else if i == b.len() {
        NameOrder::After
    } else if fold_ascii(a[i]) < fold_ascii(b[i]) {
        NameOrder::Before
    } else {
        NameOrder::After
    }
}

/// The characters of `trim_char(s, c)`.
pub fn trim_char_chars(s: &[char], c: char) -> (r: Vec<char>)
    ensures
        r@ == trim_char(s@, c),
{
    let mut from: usize = 0;
    while from < s.len() && s[from] == c
        invariant
            from <= s.len(),
            forall|j: int| 0 <= j < from ==> #[trigger] s@[j] == c,
        decreases s.len() - from,
    {
        from += 1;
    }
    proof {
        lemma_trim_start_char_is(s@, c, from as int);
    }
    let ghost mid = s@.skip(from as int);
    let mut to: usize = s.len();
    while to > from && s[to - 1] == c
        invariant
            from <= to <= s.len(),
            mid == s@.skip(from as int),
            forall|j: int| to - from <= j < mid.len() ==> #[trigger] mid[j] == c,
        decreases to,
    {
        to -= 1;
    }
    proof {
        lemma_trim_end_char_is(mid, c, to - from);
        assert(mid.take(to - from) =~= s@.subrange(from as int, to as int));
    }
    copy_range(s, from, to)
}

/// Appends the decimal text of `n` to `out`.
pub fn push_decimal(out: &mut String, n: u64)
    ensures
        final(out)@ == old(out)@ + decimal(n as nat),
    decreases n,
{
    if n >= 10 {
        push_decimal(out, n / 10);
    }
    let d: u8 = (n % 10) as u8;
    out.push((48u8 + d) as char);
    assert(final(out)@ =~= old(out)@ + decimal(n as nat));
}

} // verus!
