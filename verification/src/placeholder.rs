//! The placeholder grammar of catalog values, and the three rewrites that rest on it:
//! doubling of literal percent signs, conversion of object specifiers, and positional numbering.
//!
//! A placeholder is a percent sign, an optional argument index (`<digits>$`), an optional flag,
//! an optional width, an optional precision, an optional length modifier and a conversion
//! character. No part but the first holds a percent sign, and no part but the last holds a
//! conversion character, so at most one placeholder starts at a given index and two
//! placeholders never overlap.

use vstd::prelude::*;
use crate::text::{copy_range, decimal, from_chars, push_decimal, push_range, to_chars};

verus! {

/// `c` is one of the digits `0` to `9`.
pub open spec fn is_digit(c: char) -> bool {
    c == '0' || c == '1' || c == '2' || c == '3' || c == '4' || c == '5' || c == '6' || c == '7'
        || c == '8' || c == '9'
}

/// `c` is a flag: `-`, `+`, `0`, `#` or `,`.
pub open spec fn is_flag(c: char) -> bool {
    c == '-' || c == '+' || c == '0' || c == '#' || c == ','
}

/// `c` is a conversion character: one of `d i u f F e E g G x X o s c p a A @`.
pub open spec fn is_conversion(c: char) -> bool {
    c == 'd' || c == 'i' || c == 'u' || c == 'f' || c == 'F' || c == 'e' || c == 'E' || c == 'g'
        || c == 'G' || c == 'x' || c == 'X' || c == 'o' || c == 's' || c == 'c' || c == 'p' || c
        == 'a' || c == 'A' || c == '@'
}

/// `s[from..to]` is one digit or more.
pub open spec fn digits_in(s: Seq<char>, from: int, to: int) -> bool {
    from < to && forall|k: int| from <= k < to ==> is_digit(#[trigger] s[k])
}

/// `s[from..to]` is an argument index: digits and a dollar sign.
pub open spec fn index_in(s: Seq<char>, from: int, to: int) -> bool {
    digits_in(s, from, to - 1) && s[to - 1] == '$'
}

/// `s[from..to]` is a flag: one of `-`, `+`, `0`, `#`, `,`.
pub open spec fn flag_in(s: Seq<char>, from: int, to: int) -> bool {
    to == from + 1 && is_flag(s[from])
}

/// `s[from..to]` is a number: an asterisk, or digits.
pub open spec fn number_in(s: Seq<char>, from: int, to: int) -> bool {
    (to == from + 1 && s[from] == '*') || digits_in(s, from, to)
}

/// `s[from..to]` is a precision: a dot and a number.
pub open spec fn precision_in(s: Seq<char>, from: int, to: int) -> bool {
    s[from] == '.' && number_in(s, from + 1, to)
}

/// `s[from..to]` is a length modifier: `hh`, `h`, `ll`, `l`, `L`, `z`, `j`, `t` or `q`.
pub open spec fn length_in(s: Seq<char>, from: int, to: int) -> bool {
    ||| to == from + 2 && s[from] == 'h' && s[from + 1] == 'h'
    ||| to == from + 2 && s[from] == 'l' && s[from + 1] == 'l'
    ||| to == from + 1 && (s[from] == 'h' || s[from] == 'l' || s[from] == 'L' || s[from] == 'z'
        || s[from] == 'j' || s[from] == 't' || s[from] == 'q')
}

/// `s[i..e5 + 1]` is a placeholder whose parts end at `e1`, ..., `e5`: a percent sign, then
/// each of argument index, flag, width, precision and length modifier or nothing in its
/// place, then a conversion character.
pub open spec fn placeholder_parts(s: Seq<char>, i: int, e1: int, e2: int, e3: int, e4: int, e5: int)
    -> bool {
    &&& 0 <= i < e1 <= e2 <= e3 <= e4 <= e5 < s.len()
    &&& s[i] == '%'
    &&& (e1 == i + 1 || index_in(s, i + 1, e1))
    &&& (e2 == e1 || flag_in(s, e1, e2))
    &&& (e3 == e2 || number_in(s, e2, e3))
    &&& (e4 == e3 || precision_in(s, e3, e4))
    &&& (e5 == e4 || length_in(s, e4, e5))
    &&& is_conversion(s[e5])
}

/// `s[i..i + n]` is a placeholder by the grammar.
pub open spec fn is_placeholder(s: Seq<char>, i: int, n: int) -> bool {
    exists|e1: int, e2: int, e3: int, e4: int, e5: int|
        #[trigger] placeholder_parts(s, i, e1, e2, e3, e4, e5) && e5 + 1 == i + n
}

/// The number of digits that stand in a row from index `i` on.
pub open spec fn digit_run(s: Seq<char>, i: int) -> nat
    decreases s.len() - i,
{
    if 0 <= i < s.len() && is_digit(s[i]) {
        1 + digit_run(s, i + 1)
    } else {
        0
    }
}

/// The length of the argument index at `i`: digits and a dollar sign, or nothing.
pub open spec fn index_len(s: Seq<char>, i: int) -> nat {
    let d = digit_run(s, i);
    if d > 0 && i + d < s.len() && s[i + d] == '$' {
        d + 1
    } else {
        0
    }
}

/// The length of the flag at `i`: one flag character, or nothing.
pub open spec fn flag_len(s: Seq<char>, i: int) -> nat {
    if 0 <= i < s.len() && is_flag(s[i]) {
        1
    } else {
        0
    }
}

/// The length of the number at `i`: an asterisk, or digits, or nothing.
pub open spec fn number_len(s: Seq<char>, i: int) -> nat {
    if 0 <= i < s.len() && s[i] == '*' {
        1
    } else {
        digit_run(s, i)
    }
}

/// The length of the precision at `i`: a dot and a number, or nothing.
pub open spec fn precision_len(s: Seq<char>, i: int) -> nat {
    if 0 <= i < s.len() && s[i] == '.' && number_len(s, i + 1) > 0 {
        1 + number_len(s, i + 1)
    } else {
        0
    }
}

/// The length of the length modifier at `i`: `hh`, `h`, `ll`, `l`, `L`, `z`, `j`, `t`, `q`,
/// or nothing.
pub open spec fn length_len(s: Seq<char>, i: int) -> nat {
    if 0 <= i < s.len() {
        if s[i] == 'h' || s[i] == 'l' {
            if i + 1 < s.len() && s[i + 1] == s[i] {
                2
            } else {
                1
            }
        } else if s[i] == 'L' || s[i] == 'z' || s[i] == 'j' || s[i] == 't' || s[i] == 'q' {
            1
        } else {
            0
        }
    } else {
        0
    }
}

/// The length of flag, width, precision and length modifier together, from `i` on.
pub open spec fn modifiers_len(s: Seq<char>, i: int) -> nat {
    let a = flag_len(s, i);
    let b = a + number_len(s, i + a);
    let c = b + precision_len(s, i + b);
    c + length_len(s, i + c)
}

/// The length of the placeholder that starts at `i`, if one does.
pub open spec fn placeholder_len(s: Seq<char>, i: int) -> Option<nat> {
    if 0 <= i < s.len() && s[i] == '%' {
        let m = 1 + index_len(s, i + 1);
        let t = m + modifiers_len(s, i + m);
        if i + t < s.len() && is_conversion(s[i + t]) {
            Some(t + 1)
        } else {
            None
        }
    } else {
        None
    }
}

/// A run of digits lies in the text, holds digits only, and ends before a character that
/// is no digit.
proof fn lemma_digit_run(s: Seq<char>, i: int)
    requires
        0 <= i <= s.len(),
    ensures
        i + digit_run(s, i) <= s.len(),
        forall|k: int| i <= k < i + digit_run(s, i) ==> is_digit(#[trigger] s[k]),
        i + digit_run(s, i) < s.len() ==> !is_digit(s[i + digit_run(s, i)]),
    decreases s.len() - i,
{
    if i < s.len() && is_digit(s[i]) {
        lemma_digit_run(s, i + 1);
    }
}

/// Digits in front are part of the run of digits.
proof fn lemma_digit_run_covers(s: Seq<char>, from: int, to: int)
    requires
        0 <= from <= to <= s.len(),
        forall|k: int| from <= k < to ==> is_digit(#[trigger] s[k]),
    ensures
        digit_run(s, from) == (to - from) + digit_run(s, to),
    decreases to - from,
{
    if from < to {
        lemma_digit_run_covers(s, from + 1, to);
    }
}

/// What follows the last part of a placeholder but the conversion is no digit, no
/// asterisk, no dot, no dollar sign and no flag.
proof fn lemma_tail_chars(s: Seq<char>, e3: int, e4: int, e5: int)
    requires
        0 <= e3 <= e4 <= e5 < s.len(),
        e4 == e3 || precision_in(s, e3, e4),
        e5 == e4 || length_in(s, e4, e5),
        is_conversion(s[e5]),
    ensures
        e3 == e4 ==> !is_digit(s[e3]) && s[e3] != '*' && s[e3] != '$' && s[e3] != '.'
            && !is_flag(s[e3]),
        !is_digit(s[e4]) && s[e4] != '*' && s[e4] != '$' && s[e4] != '.' && !is_flag(s[e4]),
{
}

/// A number, or nothing, that ends before a character which is no digit and no asterisk
/// is what is found as the number at its place.
proof fn lemma_number_len(s: Seq<char>, from: int, to: int)
    requires
        0 <= from <= to < s.len(),
        to == from || number_in(s, from, to),
        !is_digit(s[to]),
        s[to] != '*',
    ensures
        number_len(s, from) == to - from,
{
    if to > from {
        if s[from] == '*' {
            if digits_in(s, from, to) {
                assert(is_digit(s[from]));
            }
        } else {
            lemma_digit_run_covers(s, from, to);
        }
    }
}

/// Whatever splits into the parts of a placeholder is found as a placeholder of that length.
proof fn lemma_parts_are_greedy(s: Seq<char>, i: int, e1: int, e2: int, e3: int, e4: int, e5: int)
    requires
        placeholder_parts(s, i, e1, e2, e3, e4, e5),
    ensures
        placeholder_len(s, i) == Some((e5 + 1 - i) as nat),
{
    lemma_tail_chars(s, e3, e4, e5);
    // The first character behind flag and width is no digit and no asterisk.
    assert(!is_digit(s[e3]) && s[e3] != '*' && s[e3] != '$') by {
        if e4 > e3 {
            assert(s[e3] == '.');
        }
    }
    // The argument index.
    let m = i + 1;
    assert(m + index_len(s, m) == e1) by {
        if e1 > m {
            lemma_digit_run_covers(s, m, e1 - 1);
            assert(digit_run(s, e1 - 1) == 0);
        } else {
            lemma_digit_run(s, m);
            let d = digit_run(s, m) as int;
            if d > 0 && m + d < s.len() && s[m + d] == '$' {
                // Digits and a dollar sign stand at `m`, yet flag and width end at a
                // dollar sign or before it: no part can hold the dollar sign.
                if e2 > e1 {
                    assert(s[e1] == '0');
                }
                if e3 > e2 {
                    if s[e2] == '*' {
                        assert(is_digit(s[e2]) || e2 == m + d);
                    } else {
                        assert(digits_in(s, e2, e3));
                        if e3 > m + d {
                            assert(is_digit(s[m + d]));
                        }
                    }
                }
                assert(e3 <= m + d);
                assert(is_digit(s[e3]) || s[e3] == '$');
            }
        }
    }
    // Flag and width.
    let a = flag_len(s, e1) as int;
    assert(e1 + a + number_len(s, e1 + a) == e3) by {
        if e2 > e1 {
            lemma_number_len(s, e2, e3);
        } else if is_flag(s[e1]) {
            if e3 > e1 {
                assert(s[e1] != '*');
                assert(digits_in(s, e1, e3));
                assert(is_digit(s[e1]));
                if e3 > e1 + 1 {
                    assert(digits_in(s, e1 + 1, e3));
                }
                lemma_number_len(s, e1 + 1, e3);
            } else {
                lemma_tail_chars(s, e3, e4, e5);
            }
        } else {
            lemma_number_len(s, e1, e3);
        }
    }
    // The precision.
    assert(e3 + precision_len(s, e3) == e4) by {
        if e4 > e3 {
            lemma_number_len(s, e3 + 1, e4);
        }
    }
    // The length modifier.
    assert(e4 + length_len(s, e4) == e5) by {
        if e5 > e4 {
            if e5 == e4 + 1 && (s[e4] == 'h' || s[e4] == 'l') {
                assert(!is_conversion(s[e4]));
            }
        }
    }
}

/// What is found as a placeholder splits into the parts of a placeholder.
proof fn lemma_greedy_is_parts(s: Seq<char>, i: int)
    requires
        placeholder_len(s, i) is Some,
    ensures
        is_placeholder(s, i, placeholder_len(s, i)->0 as int),
{
    let m = i + 1;
    let e1 = m + index_len(s, m);
    let e2 = e1 + flag_len(s, e1);
    let e3 = e2 + number_len(s, e2);
    let e4 = e3 + precision_len(s, e3);
    let e5 = e4 + length_len(s, e4);
    lemma_digit_run(s, m);
    if e2 <= s.len() {
        lemma_digit_run(s, e2);
    }
    if e3 + 1 <= s.len() {
        lemma_digit_run(s, e3 + 1);
    }
    assert(placeholder_parts(s, i, e1, e2, e3, e4, e5));
}

/// The placeholder that is found at `i` is a placeholder by the grammar, and whatever is
/// a placeholder by the grammar is found.
pub proof fn lemma_placeholder_grammar(s: Seq<char>, i: int, n: nat)
    ensures
        placeholder_len(s, i) == Some(n) <==> is_placeholder(s, i, n as int),
{
    if placeholder_len(s, i) == Some(n) {
        lemma_greedy_is_parts(s, i);
    }
    if is_placeholder(s, i, n as int) {
        let (e1, e2, e3, e4, e5) = choose|e1: int, e2: int, e3: int, e4: int, e5: int|
            #[trigger] placeholder_parts(s, i, e1, e2, e3, e4, e5) && e5 + 1 == i + n;
        lemma_parts_are_greedy(s, i, e1, e2, e3, e4, e5);
    }
}

/// The placeholder that starts at `i` carries an argument index of its own.
pub open spec fn is_numbered(s: Seq<char>, i: int) -> bool {
    index_len(s, i + 1) > 0
}

/// A placeholder without an argument index starts at `i`.
pub open spec fn unnumbered_at(s: Seq<char>, i: int) -> bool {
    placeholder_len(s, i) is Some && !is_numbered(s, i)
}

/// Some placeholder starts somewhere in `s`.
pub open spec fn has_placeholder(s: Seq<char>) -> bool {
    exists|i: int| (#[trigger] placeholder_len(s, i)) is Some
}

/// The percent sign at `i` has no percent sign beside it.
pub open spec fn lone_percent(s: Seq<char>, i: int) -> bool {
    &&& 0 <= i < s.len()
    &&& s[i] == '%'
    &&& (i == 0 || s[i - 1] != '%')
    &&& (i + 1 == s.len() || s[i + 1] != '%')
}

/// `s` from `i` on, with every lone percent sign that starts no placeholder doubled.
pub open spec fn doubled_from(s: Seq<char>, i: int) -> Seq<char>
    decreases s.len() - i,
{
    if 0 <= i < s.len() {
        (if lone_percent(s, i) && placeholder_len(s, i) is None {
            seq!['%', '%']
        } else {
            seq![s[i]]
        }) + doubled_from(s, i + 1)
    } else {
        Seq::empty()
    }
}

/// `s` with every lone percent sign that starts no placeholder doubled.
pub open spec fn double_percents(s: Seq<char>) -> Seq<char> {
    doubled_from(s, 0)
}

/// `s` from `i` on, with the conversion `@` of every placeholder replaced by `s`.
pub open spec fn converted_from(s: Seq<char>, i: int) -> Seq<char>
    decreases s.len() - i,
{
    if 0 <= i < s.len() {
        match placeholder_len(s, i) {
            Some(n) => {
                let last = s[i + n - 1];
                s.subrange(i, i + n - 1).push(
                    if last == '@' {
                        's'
                    } else {
                        last
                    },
                ) + converted_from(s, i + n)
            },
            None => seq![s[i]] + converted_from(s, i + 1),
        }
    } else {
        Seq::empty()
    }
}

/// `s` with the conversion `@` of every placeholder replaced by `s`.
pub open spec fn convert_object_specifiers(s: Seq<char>) -> Seq<char> {
    converted_from(s, 0)
}

/// The number of placeholders without an argument index that start in `s[i..to]`.
pub open spec fn unnumbered_count(s: Seq<char>, i: int, to: int) -> nat
    decreases to - i,
{
    if 0 <= i < to <= s.len() {
        (if unnumbered_at(s, i) {
            1nat
        } else {
            0nat
        }) + unnumbered_count(s, i + 1, to)
    } else {
        0
    }
}

/// What `s[i..to]` becomes where the placeholders without an argument index that start
/// in it get the indices `next`, `next + 1`, ... from left to right.
pub open spec fn numbered(s: Seq<char>, i: int, to: int, next: nat) -> Seq<char>
    decreases to - i,
{
    if 0 <= i < to <= s.len() {
        if unnumbered_at(s, i) {
            seq!['%'] + decimal(next) + seq!['$'] + numbered(s, i + 1, to, next + 1)
        } else {
            seq![s[i]] + numbered(s, i + 1, to, next)
        }
    } else {
        Seq::empty()
    }
}

/// `s` unchanged where at most one placeholder lacks an argument index; else `s` with
/// those placeholders numbered from 1, left to right.
pub open spec fn add_positional_numbers(s: Seq<char>) -> Seq<char> {
    if unnumbered_count(s, 0, s.len() as int) <= 1 {
        s
    } else {
        numbered(s, 0, s.len() as int, 1)
    }
}

/// Numbering a stretch of text is numbering its first part, and then its second part
/// from the next free index on.
pub proof fn lemma_numbered_split(s: Seq<char>, i: int, p: int, to: int, next: nat)
    requires
        0 <= i <= p <= to <= s.len(),
    ensures
        numbered(s, i, to, next) == numbered(s, i, p, next) + numbered(
            s,
            p,
            to,
            next + unnumbered_count(s, i, p),
        ),
    decreases p - i,
{
    if i < p {
        if unnumbered_at(s, i) {
            lemma_numbered_split(s, i + 1, p, to, next + 1);
            assert(numbered(s, i, to, next) =~= numbered(s, i, p, next) + numbered(
                s,
                p,
                to,
                next + unnumbered_count(s, i, p),
            ));
        } else {
            lemma_numbered_split(s, i + 1, p, to, next);
            assert(numbered(s, i, to, next) =~= numbered(s, i, p, next) + numbered(
                s,
                p,
                to,
                next + unnumbered_count(s, i, p),
            ));
        }
    } else {
        assert(numbered(s, i, to, next) =~= numbered(s, i, p, next) + numbered(s, p, to, next));
    }
}

/// Where two or more placeholders lack an argument index, each of them gets as index one
/// more than the number of such placeholders to its left: the indices run 1, 2, 3, ...
/// from left to right.
pub proof fn lemma_numbering_order(s: Seq<char>, p: int)
    requires
        unnumbered_at(s, p),
        unnumbered_count(s, 0, s.len() as int) >= 2,
    ensures
        add_positional_numbers(s) == numbered(s, 0, p, 1) + (seq!['%'] + decimal(
            1 + unnumbered_count(s, 0, p),
        ) + seq!['$']) + numbered(s, p + 1, s.len() as int, 2 + unnumbered_count(s, 0, p)),
{
    let n = s.len() as int;
    let k = 1 + unnumbered_count(s, 0, p);
    lemma_numbered_split(s, 0, p, n, 1);
    assert(numbered(s, p, n, k) == seq!['%'] + decimal(k) + seq!['$'] + numbered(
        s,
        p + 1,
        n,
        k + 1,
    ));
    assert(numbered(s, 0, p, 1) + (seq!['%'] + decimal(k) + seq!['$'] + numbered(
        s,
        p + 1,
        n,
        k + 1,
    )) =~= numbered(s, 0, p, 1) + (seq!['%'] + decimal(k) + seq!['$']) + numbered(
        s,
        p + 1,
        n,
        k + 1,
    ));
}

/// Whether `c` is a digit.
fn digit(c: char) -> (r: bool)
    ensures
        r == is_digit(c),
{
    c == '0' || c == '1' || c == '2' || c == '3' || c == '4' || c == '5' || c == '6' || c == '7'
        || c == '8' || c == '9'
}

/// Whether `c` is a flag.
fn flag(c: char) -> (r: bool)
    ensures
        r == is_flag(c),
{
    c == '-' || c == '+' || c == '0' || c == '#' || c == ','
}

/// Whether `c` is a conversion character.
fn conversion(c: char) -> (r: bool)
    ensures
        r == is_conversion(c),
{
    c == 'd' || c == 'i' || c == 'u' || c == 'f' || c == 'F' || c == 'e' || c == 'E' || c == 'g'
        || c == 'G' || c == 'x' || c == 'X' || c == 'o' || c == 's' || c == 'c' || c == 'p' || c
        == 'a' || c == 'A' || c == '@'
}

/// The index behind the digits that stand in a row from `i` on.
fn after_digits(s: &Vec<char>, i: usize) -> (e: usize)
    requires
        i <= s.len(),
    ensures
        e == i + digit_run(s@, i as int),
        e <= s.len(),
{
    let mut e: usize = i;
    while e < s.len() && digit(s[e])
        invariant
            i <= e <= s.len(),
            digit_run(s@, i as int) == (e - i) + digit_run(s@, e as int),
        decreases s.len() - e,
    {
        e += 1;
    }
    e
}

/// The index behind the argument index at `i`, or `i` where there is none.
fn after_index(s: &Vec<char>, i: usize) -> (e: usize)
    requires
        i <= s.len(),
    ensures
        e == i + index_len(s@, i as int),
        e <= s.len(),
{
    let d = after_digits(s, i);
    if d > i && d < s.len() && s[d] == '$' {
        d + 1
    } else {
        i
    }
}

/// The index behind the number at `i`, or `i` where there is none.
fn after_number(s: &Vec<char>, i: usize) -> (e: usize)
    requires
        i <= s.len(),
    ensures
        e == i + number_len(s@, i as int),
        e <= s.len(),
{
    if i < s.len() && s[i] == '*' {
        i + 1
    } else {
        after_digits(s, i)
    }
}

/// The index behind flag, width, precision and length modifier from `i` on.
fn after_modifiers(s: &Vec<char>, i: usize) -> (e: usize)
    requires
        i <= s.len(),
    ensures
        e == i + modifiers_len(s@, i as int),
        e <= s.len(),
{
    let a: usize = if i < s.len() && flag(s[i]) {
        i + 1
    } else {
        i
    };
    let b = after_number(s, a);
    let c: usize = if b < s.len() && s[b] == '.' {
        let n = after_number(s, b + 1);
        if n > b + 1 {
            n
        } else {
            b
        }
    } else {
        b
    };
    if c < s.len() {
        if s[c] == 'h' || s[c] == 'l' {
            if c + 1 < s.len() && s[c + 1] == s[c] {
                c + 2
            } else {
                c + 1
            }
        } else if s[c] == 'L' || s[c] == 'z' || s[c] == 'j' || s[c] == 't' || s[c] == 'q' {
            c + 1
        } else {
            c
        }
    } else {
        c
    }
}

/// The end of the placeholder that starts at `i`, if one does.
pub fn placeholder_end(s: &Vec<char>, i: usize) -> (r: Option<usize>)
    ensures
        match r {
            Some(e) => placeholder_len(s@, i as int) == Some((e - i) as nat) && i + 2 <= e
                <= s.len(),
            None => placeholder_len(s@, i as int) is None,
        },
{
    if i < s.len() && s[i] == '%' {
        let m = after_index(s, i + 1);
        let t = after_modifiers(s, m);
        if t < s.len() && conversion(s[t]) {
            Some(t + 1)
        } else {
            None
        }
    } else {
        None
    }
}

/// Whether a placeholder without an argument index starts at `i`.
pub fn starts_unnumbered(s: &Vec<char>, i: usize) -> (r: bool)
    ensures
        r == unnumbered_at(s@, i as int),
{
    match placeholder_end(s, i) {
        Some(_) => after_index(s, i + 1) == i + 1,
        None => false,
    }
}

/// Whether some placeholder starts somewhere in `s`.
pub fn contains_placeholder(s: &Vec<char>) -> (r: bool)
    ensures
        r == has_placeholder(s@),
{
    let mut i: usize = 0;
    while i < s.len()
        invariant
            i <= s.len(),
            forall|k: int| 0 <= k < i ==> (#[trigger] placeholder_len(s@, k)) is None,
        decreases s.len() - i,
    {
        if placeholder_end(s, i).is_some() {
            return true;
        }
        i += 1;
    }
    false
}

/// Doubles every lone percent sign of `s` that starts no placeholder.
pub fn double_percent_chars(s: &Vec<char>) -> (r: Vec<char>)
    ensures
        r@ == double_percents(s@),
{
    let mut out: Vec<char> = Vec::new();
    let mut i: usize = 0;
    while i < s.len()
        invariant
            i <= s.len(),
            double_percents(s@) == out@ + doubled_from(s@, i as int),
        decreases s.len() - i,
    {
        let c = s[i];
        let lone = c == '%' && (i == 0 || s[i - 1] != '%') && (i + 1 == s.len() || s[i + 1]
            != '%');
        let ghost before = out@;
        if lone && placeholder_end(s, i).is_none() {
            out.push('%');
            out.push('%');
            assert(out@ + doubled_from(s@, i + 1) =~= before + (seq!['%', '%'] + doubled_from(
                s@,
                i + 1,
            )));
        } else {
            out.push(c);
            assert(out@ + doubled_from(s@, i + 1) =~= before + (seq![c] + doubled_from(
                s@,
                i + 1,
            )));
        }
        i += 1;
    }
    assert(out@ + doubled_from(s@, i as int) =~= out@);
    out
}

/// Replaces the conversion `@` of every placeholder of `s` by `s`.
pub fn convert_object_chars(s: &Vec<char>) -> (r: Vec<char>)
    ensures
        r@ == convert_object_specifiers(s@),
{
    let mut out: Vec<char> = Vec::new();
    let mut i: usize = 0;
    while i < s.len()
        invariant
            i <= s.len(),
            convert_object_specifiers(s@) == out@ + converted_from(s@, i as int),
        decreases s.len() - i,
    {
        let ghost before = out@;
        match placeholder_end(s, i) {
            Some(e) => {
                push_range(&mut out, s, i, e - 1);
                let last = s[e - 1];
                let put = if last == '@' {
                    's'
                } else {
                    last
                };
                out.push(put);
                assert(out@ + converted_from(s@, e as int) =~= before + (s@.subrange(
                    i as int,
                    e - 1,
                ).push(put) + converted_from(s@, e as int)));
                i = e;
            },
            None => {
                out.push(s[i]);
                assert(out@ + converted_from(s@, i + 1) =~= before + (seq![s@[i as int]]
                    + converted_from(s@, i + 1)));
                i += 1;
            },
        }
    }
    assert(out@ + converted_from(s@, i as int) =~= out@);
    out
}

/// The number of placeholders of `s` without an argument index.
pub fn count_unnumbered(s: &Vec<char>) -> (r: usize)
    ensures
        r == unnumbered_count(s@, 0, s.len() as int),
{
    let mut n: usize = 0;
    let mut i: usize = 0;
    while i < s.len()
        invariant
            i <= s.len(),
            n <= i,
            unnumbered_count(s@, 0, s.len() as int) == n + unnumbered_count(
                s@,
                i as int,
                s.len() as int,
            ),
        decreases s.len() - i,
    {
        if starts_unnumbered(s, i) {
            n += 1;
        }
        i += 1;
    }
    n
}

/// Numbers the placeholders of `s` that have no argument index, where there are two or more.
pub fn add_positional_number_chars(s: &Vec<char>) -> (r: Vec<char>)
    ensures
        r@ == add_positional_numbers(s@),
{
    if count_unnumbered(s) <= 1 {
        return copy_range(s, 0, s.len());
    }
    let mut out: Vec<char> = Vec::new();
    let mut next: usize = 1;
    let mut i: usize = 0;
    while i < s.len()
        invariant
            i <= s.len(),
            1 <= next <= i + 1,
            numbered(s@, 0, s.len() as int, 1) == out@ + numbered(
                s@,
                i as int,
                s.len() as int,
                next as nat,
            ),
        decreases s.len() - i,
    {
        let ghost before = out@;
        if starts_unnumbered(s, i) {
            out.push('%');
            push_decimal(&mut out, next);
            out.push('$');
            assert(out@ + numbered(s@, i + 1, s.len() as int, (next + 1) as nat) =~= before + (
            seq!['%'] + decimal(next as nat) + seq!['$'] + numbered(
                s@,
                i + 1,
                s.len() as int,
                (next + 1) as nat,
            )));
            next += 1;
        } else {
            out.push(s[i]);
            assert(out@ + numbered(s@, i + 1, s.len() as int, next as nat) =~= before + (seq![
                s@[i as int],
            ] + numbered(s@, i + 1, s.len() as int, next as nat)));
        }
        i += 1;
    }
    assert(out@ + numbered(s@, i as int, s.len() as int, next as nat) =~= out@);
    out
}

/// Doubles every lone percent sign of `input` that starts no placeholder.
pub fn maybe_replace_single_percent_with_double_percent(input: &str) -> (r: String)
    ensures
        r@ == double_percents(input@),
{
    from_chars(&double_percent_chars(&to_chars(input)))
}

/// Rewrites every placeholder `%<modifiers>@` of `raw_value` to `%<modifiers>s`.
pub fn convert_twine_string_placeholder(raw_value: &str) -> (r: String)
    ensures
        r@ == convert_object_specifiers(raw_value@),
{
    from_chars(&convert_object_chars(&to_chars(raw_value)))
}

/// Leaves `input` as it is where at most one of its placeholders lacks an argument index,
/// and else gives those placeholders the indices 1, 2, ... from left to right.
pub fn maybe_add_positional_numbers(input: &str) -> (r: String)
    ensures
        r@ == add_positional_numbers(input@),
        unnumbered_count(input@, 0, input@.len() as int) <= 1 ==> r@ == input@,
        unnumbered_count(input@, 0, input@.len() as int) >= 2 ==> r@ == numbered(
            input@,
            0,
            input@.len() as int,
            1,
        ),
{
    from_chars(&add_positional_number_chars(&to_chars(input)))
}

} // verus!
