//! Character-level building blocks: conversions between strings and character vectors,
//! substring search, trimming, line splitting and decimal numbers.

use vstd::prelude::*;

verus! {

/// `String::push` appends one character to the end of the string.
pub assume_specification[ String::push ](s: &mut String, c: char)
    ensures
        final(s)@ == old(s)@.push(c),
;

/// Whether a character beyond the ASCII range has the Unicode `White_Space` property, as
/// `char::is_whitespace` reports it.
pub uninterp spec fn white_space(c: char) -> bool;

/// `c` is white space: in the ASCII range the space and the characters U+0009 to U+000D
/// (tab, line feed, vertical tab, form feed, carriage return); beyond it the characters
/// with the Unicode `White_Space` property.
pub open spec fn is_space(c: char) -> bool {
    if (c as u32) < 128 {
        c == ' ' || 9 <= (c as u32) <= 13
    } else {
        white_space(c)
    }
}

/// `char::is_whitespace`: whether the character has the Unicode `White_Space` property. In
/// the ASCII range the characters with that property are the space and U+0009 to U+000D;
/// beyond it the result is taken as a fixed property of the character alone.
#[verifier::external_body]
pub(crate) fn is_white_space(c: char) -> (r: bool)
    ensures
        r == (if (c as u32) < 128 {
            c == ' ' || 9 <= (c as u32) <= 13
        } else {
            white_space(c)
        }),
{
    c.is_whitespace()
}

/// The characters of `s`, in order.
pub fn to_chars(s: &str) -> (r: Vec<char>)
    ensures
        r@ == s@,
{
    let mut out: Vec<char> = Vec::new();
    for c in it: s.chars()
        invariant
            out@ == it.seq().take(it.index() as int),
            it.seq() == s@,
    {
        out.push(c);
    }
    out
}

/// The string made of the characters of `v`, in order.
pub fn from_chars(v: &Vec<char>) -> (r: String)
    ensures
        r@ == v@,
{
    let mut out = String::new();
    let mut i: usize = 0;
    while i < v.len()
        invariant
            i <= v.len(),
            out@ == v@.take(i as int),
        decreases v.len() - i,
    {
        out.push(v[i]);
        i += 1;
    }
    out
}

/// Appends the characters of `s` to `out`.
pub fn push_str(out: &mut Vec<char>, s: &str)
    ensures
        final(out)@ == old(out)@ + s@,
{
    let ghost before = out@;
    for c in it: s.chars()
        invariant
            out@ == before + it.seq().take(it.index() as int),
            it.seq() == s@,
    {
        out.push(c);
    }
}

/// Appends the characters `src[from..to]` to `out`.
pub fn push_range(out: &mut Vec<char>, src: &Vec<char>, from: usize, to: usize)
    requires
        from <= to <= src.len(),
    ensures
        final(out)@ == old(out)@ + src@.subrange(from as int, to as int),
{
    let ghost before = out@;
    let mut i: usize = from;
    while i < to
        invariant
            from <= i <= to <= src.len(),
            out@ == before + src@.subrange(from as int, i as int),
        decreases to - i,
    {
        out.push(src[i]);
        i += 1;
    }
}

/// A copy of the characters `src[from..to]`.
pub fn copy_range(src: &Vec<char>, from: usize, to: usize) -> (r: Vec<char>)
    requires
        from <= to <= src.len(),
    ensures
        r@ == src@.subrange(from as int, to as int),
{
    let mut out: Vec<char> = Vec::new();
    push_range(&mut out, src, from, to);
    out
}

/// Whether two character vectors hold the same characters.
pub fn same_chars(a: &Vec<char>, b: &Vec<char>) -> (r: bool)
    ensures
        r == (a@ == b@),
{
    if a.len() != b.len() {
        return false;
    }
    let mut i: usize = 0;
    while i < a.len()
        invariant
            i <= a.len(),
            a.len() == b.len(),
            a@.take(i as int) == b@.take(i as int),
        decreases a.len() - i,
    {
        if a[i] != b[i] {
            return false;
        }
        assert(a@.take(i + 1) == a@.take(i as int).push(a@[i as int]));
        assert(b@.take(i + 1) == b@.take(i as int).push(b@[i as int]));
        i += 1;
    }
    assert(a@ == a@.take(a.len() as int));
    assert(b@ == b@.take(b.len() as int));
    true
}

/// Whether `s` holds the character `c`.
pub fn has_char(s: &Vec<char>, c: char) -> (r: bool)
    ensures
        r == s@.contains(c),
{
    let mut i: usize = 0;
    while i < s.len()
        invariant
            i <= s.len(),
            forall|j: int| 0 <= j < i ==> s@[j] != c,
        decreases s.len() - i,
    {
        if s[i] == c {
            return true;
        }
        i += 1;
    }
    false
}

/// `pat` stands in `s` at index `i`.
pub open spec fn occurs_at(s: Seq<char>, pat: Seq<char>, i: int) -> bool {
    0 <= i && i + pat.len() <= s.len() && s.subrange(i, i + pat.len()) == pat
}

/// The distance from `from` to the first index at or after it where `pat` stands in `s`.
pub open spec fn first_occurrence(s: Seq<char>, pat: Seq<char>, from: int) -> Option<nat>
    decreases s.len() - from,
{
    if from < 0 {
        None
    } else if occurs_at(s, pat, from) {
        Some(0)
    } else if from < s.len() {
        match first_occurrence(s, pat, from + 1) {
            Some(d) => Some(d + 1),
            None => None,
        }
    } else {
        None
    }
}

/// `first_occurrence` finds an index where `pat` stands, and none stands before it.
pub proof fn lemma_first_occurrence(s: Seq<char>, pat: Seq<char>, from: int)
    requires
        0 <= from,
    ensures
        match first_occurrence(s, pat, from) {
            Some(d) => occurs_at(s, pat, from + d) && forall|k: int|
                from <= k < from + d ==> !occurs_at(s, pat, k),
            None => forall|k: int| from <= k ==> !occurs_at(s, pat, k),
        },
    decreases s.len() - from,
{
    if occurs_at(s, pat, from) {
    } else if from < s.len() {
        lemma_first_occurrence(s, pat, from + 1);
    }
}

/// Whether `pat` stands in `s` at index `i`.
pub fn matches_at(s: &Vec<char>, pat: &Vec<char>, i: usize) -> (r: bool)
    ensures
        r == occurs_at(s@, pat@, i as int),
{
    if pat.len() > s.len() || i > s.len() - pat.len() {
        return false;
    }
    let mut j: usize = 0;
    while j < pat.len()
        invariant
            j <= pat.len(),
            i + pat.len() <= s.len(),
            forall|k: int| 0 <= k < j ==> s@[i + k] == pat@[k],
        decreases pat.len() - j,
    {
        if s[i + j] != pat[j] {
            assert(s@.subrange(i as int, i + pat.len())[j as int] == s@[i + j]);
            return false;
        }
        j += 1;
    }
    assert(s@.subrange(i as int, i + pat.len()) =~= pat@);
    true
}

/// The first index at or after `from` where `pat` stands in `s`.
pub fn find_from(s: &Vec<char>, pat: &Vec<char>, from: usize) -> (r: Option<usize>)
    ensures
        match r {
            Some(k) => first_occurrence(s@, pat@, from as int) == Some((k - from) as nat) && from
                <= k && k + pat.len() <= s.len(),
            None => first_occurrence(s@, pat@, from as int) is None,
        },
{
    let mut k: usize = from;
    while k < s.len()
        invariant
            from <= k,
            match first_occurrence(s@, pat@, k as int) {
                Some(d) => first_occurrence(s@, pat@, from as int) == Some((d + k - from) as nat),
                None => first_occurrence(s@, pat@, from as int) is None,
            },
        decreases s.len() - k,
    {
        if matches_at(s, pat, k) {
            return Some(k);
        }
        k += 1;
    }
    if matches_at(s, pat, k) {
        Some(k)
    } else {
        None
    }
}

/// A class of characters that can be stripped from the ends of a text.
#[derive(Clone, Copy, Debug, PartialEq, Eq)]
pub enum CharClass {
    /// White space.
    Space,
    /// The square brackets `[` and `]`.
    Bracket,
}

impl CharClass {
    /// `c` belongs to the class.
    pub open spec fn holds(self, c: char) -> bool {
        match self {
            CharClass::Space => is_space(c),
            CharClass::Bracket => c == '[' || c == ']',
        }
    }

    /// Whether `c` belongs to the class.
    pub fn has(&self, c: char) -> (r: bool)
        ensures
            r == self.holds(c),
    {
        match self {
            CharClass::Space => is_white_space(c),
            CharClass::Bracket => c == '[' || c == ']',
        }
    }
}

/// The number of characters of `class` that stand in a row from index `i` on.
pub open spec fn leading_run(s: Seq<char>, class: CharClass, i: int) -> nat
    decreases s.len() - i,
{
    if 0 <= i < s.len() && class.holds(s[i]) {
        1 + leading_run(s, class, i + 1)
    } else {
        0
    }
}

/// The number of characters of `class` that stand in a row at the end of the first `j`
/// characters of `s`.
pub open spec fn trailing_run(s: Seq<char>, class: CharClass, j: int) -> nat
    decreases j,
{
    if 0 < j <= s.len() && class.holds(s[j - 1]) {
        1 + trailing_run(s, class, j - 1)
    } else {
        0
    }
}

/// `s` without the characters of `class` at its two ends.
pub open spec fn stripped(s: Seq<char>, class: CharClass) -> Seq<char> {
    let a = leading_run(s, class, 0) as int;
    if a >= s.len() {
        Seq::empty()
    } else {
        s.subrange(a, s.len() - trailing_run(s, class, s.len() as int))
    }
}

/// `s` without its leading and trailing white space.
pub open spec fn trimmed(s: Seq<char>) -> Seq<char> {
    stripped(s, CharClass::Space)
}

/// What is stripped from the end stops behind a character that is not of the class.
proof fn lemma_trailing_bound(s: Seq<char>, class: CharClass, j: int, a: int)
    requires
        0 <= a < j <= s.len(),
        !class.holds(s[a]),
    ensures
        a < j - trailing_run(s, class, j),
    decreases j,
{
    if class.holds(s[j - 1]) {
        lemma_trailing_bound(s, class, j - 1, a);
    }
}

/// The characters `s[from..to]` without the characters of `class` at the two ends.
pub fn strip_range(s: &Vec<char>, class: CharClass, from: usize, to: usize) -> (r: Vec<char>)
    requires
        from <= to <= s.len(),
    ensures
        r@ == stripped(s@.subrange(from as int, to as int), class),
{
    let ghost t = s@.subrange(from as int, to as int);
    let mut a: usize = from;
    while a < to && class.has(s[a])
        invariant
            from <= a <= to <= s.len(),
            t == s@.subrange(from as int, to as int),
            leading_run(t, class, 0) == (a - from) + leading_run(t, class, a - from),
        decreases to - a,
    {
        a += 1;
    }
    if a >= to {
        return Vec::new();
    }
    let mut b: usize = to;
    proof {
        lemma_trailing_bound(t, class, t.len() as int, a - from);
    }
    while b > a + 1 && class.has(s[b - 1])
        invariant
            from <= a < b <= to <= s.len(),
            t == s@.subrange(from as int, to as int),
            trailing_run(t, class, t.len() as int) == (to - b) + trailing_run(
                t,
                class,
                b - from,
            ),
            a - from < t.len() - trailing_run(t, class, t.len() as int),
        decreases b,
    {
        b -= 1;
    }
    assert(t.subrange(a - from, b - from) =~= s@.subrange(a as int, b as int));
    copy_range(s, a, b)
}

/// `s` without the characters of `class` at its two ends.
pub fn strip(s: &Vec<char>, class: CharClass) -> (r: Vec<char>)
    ensures
        r@ == stripped(s@, class),
{
    assert(s@.subrange(0, s.len() as int) =~= s@);
    strip_range(s, class, 0, s.len())
}

/// The number of characters from index `i` up to the next line feed or the end of `s`.
pub open spec fn line_len(s: Seq<char>, i: int) -> nat
    decreases s.len() - i,
{
    if 0 <= i < s.len() && s[i] != '\n' {
        1 + line_len(s, i + 1)
    } else {
        0
    }
}

/// The lines of `s` from index `i` on: the pieces between line feeds, without them.
/// A line feed at the very end opens no further line.
pub open spec fn lines_from(s: Seq<char>, i: int) -> Seq<Seq<char>>
    decreases s.len() - i,
{
    if 0 <= i < s.len() {
        let e = i + line_len(s, i);
        seq![s.subrange(i, e)] + if e < s.len() {
            lines_from(s, e + 1)
        } else {
            Seq::empty()
        }
    } else {
        Seq::empty()
    }
}

/// The lines of `s`.
pub open spec fn lines(s: Seq<char>) -> Seq<Seq<char>> {
    lines_from(s, 0)
}

/// Every line of `s`, trimmed.
pub open spec fn trimmed_lines(s: Seq<char>) -> Seq<Seq<char>> {
    lines(s).map_values(|l: Seq<char>| trimmed(l))
}

/// A line ends at a line feed or at the end of the text.
pub proof fn lemma_line_len_bound(s: Seq<char>, i: int)
    requires
        0 <= i <= s.len(),
    ensures
        i + line_len(s, i) <= s.len(),
        i + line_len(s, i) < s.len() ==> s[i + line_len(s, i)] == '\n',
    decreases s.len() - i,
{
    if i < s.len() && s[i] != '\n' {
        lemma_line_len_bound(s, i + 1);
    }
}

/// There are at most as many lines as characters.
pub proof fn lemma_lines_count(s: Seq<char>, i: int)
    requires
        0 <= i <= s.len(),
    ensures
        lines_from(s, i).len() <= s.len() - i,
    decreases s.len() - i,
{
    if i < s.len() {
        lemma_line_len_bound(s, i);
        let e = i + line_len(s, i);
        if e < s.len() {
            lemma_lines_count(s, e + 1);
        }
    }
}

/// The character sequences that the vectors of `v` hold.
pub open spec fn rows(v: Seq<Vec<char>>) -> Seq<Seq<char>> {
    v.map_values(|r: Vec<char>| r@)
}

/// The lines of `s`.
pub fn split_lines(s: &Vec<char>) -> (r: Vec<Vec<char>>)
    ensures
        rows(r@) == lines(s@),
{
    let mut out: Vec<Vec<char>> = Vec::new();
    let mut i: usize = 0;
    while i < s.len()
        invariant
            i <= s.len(),
            lines(s@) == rows(out@) + lines_from(s@, i as int),
        decreases s.len() - i,
    {
        let mut e: usize = i;
        while e < s.len() && s[e] != '\n'
            invariant
                i <= e <= s.len(),
                line_len(s@, i as int) == (e - i) + line_len(s@, e as int),
            decreases s.len() - e,
        {
            e += 1;
        }
        let line = copy_range(s, i, e);
        let next: usize = if e < s.len() {
            e + 1
        } else {
            e
        };
        proof {
            let rest = lines_from(s@, next as int);
            assert(lines_from(s@, i as int) =~= seq![s@.subrange(i as int, e as int)] + rest);
            assert(rows(out@.push(line)) + rest =~= rows(out@) + (seq![line@] + rest));
        }
        out.push(line);
        i = next;
    }
    assert(rows(out@) + lines_from(s@, i as int) =~= rows(out@));
    out
}

/// The lines of `s`, each trimmed.
pub fn split_trimmed_lines(s: &Vec<char>) -> (r: Vec<Vec<char>>)
    ensures
        rows(r@) == trimmed_lines(s@),
{
    let mut out: Vec<Vec<char>> = Vec::new();
    let mut i: usize = 0;
    while i < s.len()
        invariant
            i <= s.len(),
            trimmed_lines(s@) == rows(out@) + lines_from(s@, i as int).map_values(
                |l: Seq<char>| trimmed(l),
            ),
        decreases s.len() - i,
    {
        let mut e: usize = i;
        while e < s.len() && s[e] != '\n'
            invariant
                i <= e <= s.len(),
                line_len(s@, i as int) == (e - i) + line_len(s@, e as int),
            decreases s.len() - e,
        {
            e += 1;
        }
        let line = strip_range(s, CharClass::Space, i, e);
        let next: usize = if e < s.len() {
            e + 1
        } else {
            e
        };
        proof {
            let rest = lines_from(s@, next as int);
            let f = |l: Seq<char>| trimmed(l);
            assert(lines_from(s@, i as int) =~= seq![s@.subrange(i as int, e as int)] + rest);
            assert((seq![s@.subrange(i as int, e as int)] + rest).map_values(f) =~= seq![
                line@,
            ] + rest.map_values(f));
            assert(rows(out@.push(line)) + rest.map_values(f) =~= rows(out@) + (seq![line@]
                + rest.map_values(f)));
        }
        out.push(line);
        i = next;
    }
    assert(rows(out@) + lines_from(s@, i as int).map_values(|l: Seq<char>| trimmed(l)) =~= rows(
        out@,
    ));
    out
}

/// The character that stands for the digit `d`.
pub open spec fn digit_char(d: nat) -> char {
    if d == 0 {
        '0'
    } else if d == 1 {
        '1'
    } else if d == 2 {
        '2'
    } else if d == 3 {
        '3'
    } else if d == 4 {
        '4'
    } else if d == 5 {
        '5'
    } else if d == 6 {
        '6'
    } else if d == 7 {
        '7'
    } else if d == 8 {
        '8'
    } else {
        '9'
    }
}

/// `n` written in base ten, without leading zeros.
pub open spec fn decimal(n: nat) -> Seq<char>
    decreases n,
{
    if n < 10 {
        seq![digit_char(n)]
    } else {
        decimal(n / 10).push(digit_char(n % 10))
    }
}

/// The character that stands for the digit `d`.
fn digit_of(d: usize) -> (c: char)
    requires
        d < 10,
    ensures
        c == digit_char(d as nat),
{
    if d == 0 {
        '0'
    } else if d == 1 {
        '1'
    } else if d == 2 {
        '2'
    } else if d == 3 {
        '3'
    } else if d == 4 {
        '4'
    } else if d == 5 {
        '5'
    } else if d == 6 {
        '6'
    } else if d == 7 {
        '7'
    } else if d == 8 {
        '8'
    } else {
        '9'
    }
}

/// Appends `n` in base ten to `out`.
pub fn push_decimal(out: &mut Vec<char>, n: usize)
    ensures
        final(out)@ == old(out)@ + decimal(n as nat),
    decreases n,
{
    if n >= 10 {
        push_decimal(out, n / 10);
    }
    let ghost mid = out@;
    out.push(digit_of(n % 10));
    proof {
        if n >= 10 {
            assert(mid.push(digit_char((n % 10) as nat)) =~= old(out)@ + decimal(n as nat));
        } else {
            assert(mid.push(digit_char(n as nat)) =~= old(out)@ + decimal(n as nat));
        }
    }
}

} // verus!
