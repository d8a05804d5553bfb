//! Splitting text at a separator, and reading and writing decimal numbers as
//! characters, the way the standard library's `split`, `parse` and `{:03}`
//! formatting do.

use vstd::prelude::*;

use crate::decimal::{decimal, decimal_string};

verus! {

/// The pieces of `s` between the occurrences of `c`, as `str::split` gives
/// them: one more piece than there are separators, empty pieces included.
pub open spec fn split_on(s: Seq<char>, c: char) -> Seq<Seq<char>>
    decreases s.len(),
{
    if s.len() == 0 {
        seq![seq![]]
    } else {
        let prior = split_on(s.drop_last(), c);
        if s.last() == c {
            prior.push(seq![])
        } else {
            prior.update(prior.len() - 1, prior.last().push(s.last()))
        }
    }
}

/// A split has at least one piece.
pub proof fn lemma_split_on_len(s: Seq<char>, c: char)
    ensures
        split_on(s, c).len() >= 1,
    decreases s.len(),
{
    if s.len() > 0 {
        lemma_split_on_len(s.drop_last(), c);
    }
}

/// Splitting text with a separator at its end adds an empty piece; adding
/// text without the separator extends the last piece.
pub proof fn lemma_split_append(x: Seq<char>, y: Seq<char>, c: char)
    requires
        forall|i: int| 0 <= i < y.len() ==> y[i] != c,
    ensures
        split_on(x + seq![c] + y, c) == split_on(x, c).push(y),
    decreases y.len(),
{
    if y.len() == 0 {
        assert((x + seq![c] + y).drop_last() =~= x);
        assert(x + seq![c] + y =~= x + seq![c]);
        assert(y =~= Seq::<char>::empty());
        assert((x + seq![c] + y).last() == c);
    } else {
        let y0 = y.drop_last();
        lemma_split_append(x, y0, c);
        assert((x + seq![c] + y).drop_last() =~= x + seq![c] + y0);
        assert(y[y.len() - 1] != c);
        assert((x + seq![c] + y).last() == y.last());
        lemma_split_on_len(x, c);
        assert(y0.push(y.last()) =~= y);
        assert(split_on(x, c).push(y0).update(split_on(x, c).len() as int, y0.push(y.last())) =~= split_on(x, c).push(y));
    }
}

/// Text without the separator is one piece.
pub proof fn lemma_split_single(y: Seq<char>, c: char)
    requires
        forall|i: int| 0 <= i < y.len() ==> y[i] != c,
    ensures
        split_on(y, c) == seq![y],
    decreases y.len(),
{
    if y.len() > 0 {
        lemma_split_single(y.drop_last(), c);
        assert(y[y.len() - 1] != c);
        assert(y.drop_last().push(y.last()) =~= y);
        assert(seq![y.drop_last()].update(0, y.drop_last().push(y.last())) =~= seq![y]);
    } else {
        assert(y =~= Seq::<char>::empty());
    }
}

/// The value of a run of decimal digit characters, most significant first.
pub open spec fn char_digits_value(d: Seq<char>) -> nat
    decreases d.len(),
{
    if d.len() == 0 {
        0
    } else {
        char_digits_value(d.drop_last()) * 10 + (d.last() as nat - 48) as nat
    }
}

/// Whether every character is a decimal digit.
pub open spec fn all_digit_chars(d: Seq<char>) -> bool {
    forall|i: int| 0 <= i < d.len() ==> '0' <= #[trigger] d[i] <= '9'
}

/// The digits that `parse` reads: the text after an optional leading `+`.
pub open spec fn unsigned_digits(t: Seq<char>) -> Seq<char> {
    if t.len() > 0 && t[0] == '+' { t.drop_first() } else { t }
}

/// What `str::parse` gives for an unsigned integer type whose largest value
/// is `max`: an optional `+`, then at least one decimal digit, the whole at
/// most `max`.
pub open spec fn parse_unsigned(t: Seq<char>, max: nat) -> Option<nat> {
    let digits = unsigned_digits(t);
    if digits.len() > 0 && all_digit_chars(digits) && char_digits_value(digits) <= max {
        Some(char_digits_value(digits))
    } else {
        None
    }
}

/// `{:03}`: the text padded on the left with zeros to three characters.
pub open spec fn pad3(t: Seq<char>) -> Seq<char> {
    if t.len() >= 3 { t } else { Seq::new((3 - t.len()) as nat, |i: int| '0') + t }
}

/// Appends `c` to `s`: `String::push`, documented to append the character
/// to the end of the string.
#[verifier::external_body]
pub(crate) fn push_char(s: &mut String, c: char)
    ensures
        final(s)@ == old(s)@.push(c),
{
    s.push(c);
}

/// The text of the characters `v`.
pub fn string_from_chars(v: &Vec<char>) -> (s: String)
    ensures
        s@ == v@,
{
    let mut s = String::new();
    let mut i: usize = 0;
    while i < v.len()
        invariant
            0 <= i <= v.len(),
            s@ =~= v@.take(i as int),
        decreases v.len() - i,
    {
        push_char(&mut s, v[i]);
        i = i + 1;
    }
    assert(v@.take(v.len() as int) =~= v@);
    s
}

/// Whether two runs of characters are the same.
pub fn chars_equal(a: &Vec<char>, b: &Vec<char>) -> (r: bool)
    ensures
        r == (a@ == b@),
{
    if a.len() != b.len() {
        return false;
    }
    let mut i: usize = 0;
    while i < a.len()
        invariant
            a.len() == b.len(),
            0 <= i <= a.len(),
            forall|j: int| 0 <= j < i ==> a@[j] == b@[j],
        decreases a.len() - i,
    {
        if a[i] != b[i] {
            return false;
        }
        i = i + 1;
    }
    assert(a@ =~= b@);
    true
}

/// The characters of `s`.
pub fn str_chars(s: &str) -> (v: Vec<char>)
    ensures
        v@ == s@,
{
    let n = s.unicode_len();
    let mut v: Vec<char> = Vec::with_capacity(n);
    let mut i: usize = 0;
    while i < n
        invariant
            n == s@.len(),
            0 <= i <= n,
            v@ =~= s@.take(i as int),
        decreases n - i,
    {
        v.push(s.get_char(i));
        i = i + 1;
    }
    assert(s@.take(n as int) =~= s@);
    v
}

/// The pieces of `s` between the occurrences of `c`.
pub fn split_chars(s: &Vec<char>, c: char) -> (r: Vec<Vec<char>>)
    ensures
        r@.map_values(|p: Vec<char>| p@) == split_on(s@, c),
{
    let mut r: Vec<Vec<char>> = Vec::new();
    r.push(Vec::new());
    assert(r@.map_values(|p: Vec<char>| p@) =~= split_on(s@.take(0), c));
    let mut i: usize = 0;
    while i < s.len()
        invariant
            0 <= i <= s.len(),
            r.len() >= 1,
            r@.map_values(|p: Vec<char>| p@) =~= split_on(s@.take(i as int), c),
        decreases s.len() - i,
    {
        let ch = s[i];
        assert(s@.take(i + 1).drop_last() =~= s@.take(i as int));
        let ghost before = r@.map_values(|p: Vec<char>| p@);
        if ch == c {
            r.push(Vec::new());
            assert(r@.map_values(|p: Vec<char>| p@) =~= before.push(seq![]));
        } else {
            let last = r.len() - 1;
            let mut piece = r.remove(last);
            piece.push(ch);
            r.push(piece);
            assert(r@.map_values(|p: Vec<char>| p@) =~= before.update(before.len() - 1, before.last().push(ch)));
        }
        i = i + 1;
    }
    assert(s@.take(s.len() as int) =~= s@);
    r
}

/// Parses `t` as an unsigned integer of at most `max`, as `str::parse` does.
pub fn parse_unsigned_chars(t: &Vec<char>, max: u128) -> (r: Option<u128>)
    ensures
        match r {
            Some(v) => parse_unsigned(t@, max as nat) == Some(v as nat),
            None => parse_unsigned(t@, max as nat) is None,
        },
{
    let n = t.len();
    let start: usize = if n > 0 && t[0] == '+' { 1 } else { 0 };
    let ghost digits = unsigned_digits(t@);
    assert(digits =~= t@.subrange(start as int, n as int));
    if start >= n {
        return None;
    }
    let mut value: u128 = 0;
    let mut i: usize = start;
    while i < n
        invariant
            start <= i <= n,
            n == t@.len(),
            digits == t@.subrange(start as int, n as int),
            digits == unsigned_digits(t@),
            all_digit_chars(t@.subrange(start as int, i as int)),
            value as nat == char_digits_value(t@.subrange(start as int, i as int)),
            value <= max,
        decreases n - i,
    {
        let ch = t[i];
        assert(t@.subrange(start as int, i + 1).drop_last() =~= t@.subrange(start as int, i as int));
        if !('0' <= ch && ch <= '9') {
            assert(!all_digit_chars(digits)) by {
                assert(digits[i - start] == t@[i as int]);
            }
            return None;
        }
        let d = (ch as u32 - 48) as u128;
        if d > max || value > (max - d) / 10 {
            proof {
                if d <= max {
                    assert(value * 10 + d > max) by (nonlinear_arith)
                        requires
                            value > (max - d) / 10,
                            d <= max,
                    ;
                }
                if all_digit_chars(digits) {
                    lemma_char_digits_value_grows(digits, i + 1 - start);
                    assert(digits.subrange(0, i + 1 - start) =~= t@.subrange(start as int, i + 1));
                }
            }
            return None;
        }
        proof {
            assert(value * 10 + d <= max) by (nonlinear_arith)
                requires
                    value <= (max - d) / 10,
                    d <= max,
            ;
        }
        value = value * 10 + d;
        i = i + 1;
    }
    assert(t@.subrange(start as int, n as int) =~= digits);
    Some(value)
}

/// A longer run of digits is worth at least as much as its prefix.
pub proof fn lemma_char_digits_value_grows(d: Seq<char>, k: int)
    requires
        0 <= k <= d.len(),
        all_digit_chars(d),
    ensures
        char_digits_value(d) >= char_digits_value(d.subrange(0, k)),
    decreases d.len() - k,
{
    if k < d.len() {
        lemma_char_digits_value_grows(d, k + 1);
        assert(d.subrange(0, k + 1).drop_last() =~= d.subrange(0, k));
        assert(d.subrange(0, k + 1)[k] == d[k]);
    } else {
        assert(d.subrange(0, k) =~= d);
    }
}

/// The decimal text of `n`, padded on the left with zeros to three characters.
pub fn pad3_decimal(n: u128) -> (r: Vec<char>)
    ensures
        r@ == pad3(decimal(n as nat)),
{
    let text = decimal_string(n);
    let digits = str_chars(text.as_str());
    let len = digits.len();
    if len >= 3 {
        return digits;
    }
    let mut r: Vec<char> = Vec::new();
    let mut k: usize = 0;
    while k < 3 - len
        invariant
            len < 3,
            0 <= k <= 3 - len,
            r@ =~= Seq::new(k as nat, |i: int| '0'),
        decreases 3 - len - k,
    {
        r.push('0');
        k = k + 1;
    }
    let mut j: usize = 0;
    while j < len
        invariant
            len == digits@.len(),
            len < 3,
            0 <= j <= len,
            r@ =~= Seq::new((3 - len) as nat, |i: int| '0') + digits@.take(j as int),
        decreases len - j,
    {
        r.push(digits[j]);
        j = j + 1;
    }
    assert(digits@.take(len as int) =~= digits@);
    r
}

} // verus!
