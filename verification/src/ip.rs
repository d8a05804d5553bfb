//! Node identifiers of the ring server: an IPv4 address read as a number by
//! writing each part with three digits, and such a number written back as an
//! address.

use vstd::prelude::*;

use crate::decimal::{decimal, decimal_string, digit_char};
use crate::text::{
    char_digits_value, lemma_split_append, lemma_split_single, pad3, pad3_decimal, parse_unsigned,
    parse_unsigned_chars, split_chars, split_on, str_chars,
};

verus! {

/// The base-1000 digits of `n`, least significant first; none for 0.
pub open spec fn base1000_groups(n: nat) -> Seq<nat>
    decreases n,
{
    if n == 0 {
        seq![]
    } else {
        seq![n % 1000] + base1000_groups(n / 1000)
    }
}

/// `s` with the elements at `i` and `j` exchanged.
pub open spec fn swap_at<A>(s: Seq<A>, i: int, j: int) -> Seq<A> {
    s.update(i, s[j]).update(j, s[i])
}

/// The pieces joined with `.` between them.
pub open spec fn join_dots(parts: Seq<Seq<char>>) -> Seq<char>
    decreases parts.len(),
{
    if parts.len() == 0 {
        seq![]
    } else if parts.len() == 1 {
        parts[0]
    } else {
        join_dots(parts.drop_last()) + seq!['.'] + parts.last()
    }
}

/// The pieces of the address of `n`: its base-1000 digits as decimal text,
/// least significant first, with the first two exchanged with the last two
/// (which turns four pieces round).
pub open spec fn address_parts(n: nat) -> Seq<Seq<char>> {
    let parts = base1000_groups(n).map_values(|g: nat| decimal(g));
    let len = parts.len() as int;
    swap_at(swap_at(parts, 0, len - 1), 1, len - 2)
}

/// The address that `n` stands for.
pub open spec fn address_text(n: nat) -> Seq<char> {
    join_dots(address_parts(n))
}

/// The number of a node written back as its address. Below 1000 a number
/// has fewer than two base-1000 digits, and no address.
pub fn u128_to_ip(number: u128) -> (r: String)
    requires
        number >= 1000,
    ensures
        r@ == address_text(number as nat),
{
    let ghost n0 = number as nat;
    let mut number = number;
    let mut parts: Vec<String> = Vec::new();
    while number != 0
        invariant
            parts@.map_values(|p: String| p@) + base1000_groups(number as nat).map_values(|g: nat| decimal(g))
                =~= base1000_groups(n0).map_values(|g: nat| decimal(g)),
        decreases number,
    {
        let part = number % 1000;
        let ghost before = parts@.map_values(|p: String| p@);
        parts.push(decimal_string(part));
        proof {
            let rest = base1000_groups((number / 1000) as nat).map_values(|g: nat| decimal(g));
            assert(base1000_groups(number as nat).map_values(|g: nat| decimal(g)) =~= seq![decimal((number % 1000) as nat)] + rest);
            assert(parts@.map_values(|p: String| p@) =~= before.push(decimal((number % 1000) as nat)));
        }
        number = number / 1000;
    }
    let ghost all = base1000_groups(n0).map_values(|g: nat| decimal(g));
    assert(parts@.map_values(|p: String| p@) =~= all) by {
        assert(base1000_groups(0).map_values(|g: nat| decimal(g)) =~= seq![]);
    }
    proof {
        assert(base1000_groups(n0) == seq![n0 % 1000] + base1000_groups(n0 / 1000));
        assert(n0 / 1000 > 0);
        assert(base1000_groups(n0 / 1000) == seq![(n0 / 1000) % 1000] + base1000_groups((n0 / 1000) / 1000));
    }
    let n = parts.len();
    let mut i: usize = 0;
    while i < 2
        invariant
            n == parts.len(),
            n >= 2,
            0 <= i <= 2,
            parts@.map_values(|p: String| p@) == (if i == 0 { all } else if i == 1 { swap_at(all, 0, n - 1) } else {
                swap_at(swap_at(all, 0, n - 1), 1, n - 2)
            }),
        decreases 2 - i,
    {
        let ghost before = parts@.map_values(|p: String| p@);
        let temp = parts[i].clone();
        let other = parts[n - i - 1].clone();
        parts.set(i, other);
        parts.set(n - i - 1, temp);
        assert(parts@.map_values(|p: String| p@) =~= swap_at(before, i as int, n - i - 1));
        i = i + 1;
    }
    let mut out = String::new();
    let mut k: usize = 0;
    let ghost done = parts@.map_values(|p: String| p@);
    while k < n
        invariant
            n == parts.len(),
            n >= 2,
            done == parts@.map_values(|p: String| p@),
            0 <= k <= n,
            out@ == join_dots(done.take(k as int)),
        decreases n - k,
    {
        if k > 0 {
            proof {
                reveal_strlit(".");
            }
            out.append(".");
        }
        out.append(parts[k].as_str());
        proof {
            assert(done.take(k + 1).drop_last() =~= done.take(k as int));
            if k == 0 {
                assert(done.take(1) =~= seq![done[0]]);
            }
        }
        assert(out@ =~= join_dots(done.take(k + 1)));
        k = k + 1;
    }
    assert(done.take(n as int) =~= done);
    out
}

/// The three-digit text of each part of an address, as `{:03}` writes the
/// number that the part parses to as a `u32` (0 when it does not parse).
pub open spec fn identifier_digits(parts: Seq<Seq<char>>) -> Seq<char>
    decreases parts.len(),
{
    if parts.len() == 0 {
        seq![]
    } else {
        let value = match parse_unsigned(parts.last(), u32::MAX as nat) {
            Some(v) => v,
            None => 0,
        };
        identifier_digits(parts.drop_last()) + pad3(decimal(value))
    }
}

/// The identifier of the node at address `ip`: the number spelled by the
/// three-digit texts of its `.`-separated parts.
pub open spec fn ip_identifier_value(ip: Seq<char>) -> nat {
    char_digits_value(identifier_digits(split_on(ip, '.')))
}

/// The identifier of the node at address `ip`; `None` when the number does
/// not fit in a `usize`.
pub fn ip_identifier(ip: &str) -> (r: Option<usize>)
    ensures
        r == (if ip_identifier_value(ip@) <= usize::MAX {
            Some(ip_identifier_value(ip@) as usize)
        } else {
            None
        }),
{
    let chars = str_chars(ip);
    let parts = split_chars(&chars, '.');
    let ghost pieces = parts@.map_values(|p: Vec<char>| p@);
    let mut digits: Vec<char> = Vec::new();
    let mut k: usize = 0;
    assert(digits@ =~= identifier_digits(pieces.take(0)));
    while k < parts.len()
        invariant
            pieces == parts@.map_values(|p: Vec<char>| p@),
            0 <= k <= parts.len(),
            digits@ =~= identifier_digits(pieces.take(k as int)),
        decreases parts.len() - k,
    {
        let value: u128 = match parse_unsigned_chars(&parts[k], 0xffff_ffff) {
            Some(v) => v,
            None => 0,
        };
        let padded = pad3_decimal(value);
        let mut j: usize = 0;
        let ghost before = digits@;
        while j < padded.len()
            invariant
                0 <= j <= padded.len(),
                digits@ =~= before + padded@.take(j as int),
            decreases padded.len() - j,
        {
            digits.push(padded[j]);
            j = j + 1;
        }
        proof {
            assert(padded@.take(padded.len() as int) =~= padded@);
            assert(pieces.take(k + 1).drop_last() =~= pieces.take(k as int));
            assert(pieces.take(k + 1).last() == parts@[k as int]@);
        }
        k = k + 1;
    }
    assert(pieces.take(parts.len() as int) =~= pieces);
    let mut value: usize = 0;
    let mut i: usize = 0;
    proof {
        lemma_identifier_digits_are_digits(pieces);
    }
    while i < digits.len()
        invariant
            0 <= i <= digits.len(),
            crate::text::all_digit_chars(digits@),
            char_digits_value(digits@) == ip_identifier_value(ip@),
            value == char_digits_value(digits@.take(i as int)),
        decreases digits.len() - i,
    {
        proof {
            assert(digits@.take(i + 1).drop_last() =~= digits@.take(i as int));
            crate::text::lemma_char_digits_value_grows(digits@, i + 1);
            assert(digits@.subrange(0, i + 1) =~= digits@.take(i + 1));
        }
        let d = (digits[i] as u32 - 48) as usize;
        if value > (usize::MAX - d) / 10 {
            proof {
                assert(value * 10 + d > usize::MAX) by (nonlinear_arith)
                    requires
                        value > (usize::MAX - d) / 10,
                        d <= 9,
                ;
                assert(char_digits_value(digits@.take(i + 1)) == value * 10 + d);
            }
            return None;
        }
        proof {
            assert(value * 10 + d <= usize::MAX) by (nonlinear_arith)
                requires
                    value <= (usize::MAX - d) / 10,
                    d <= 9,
            ;
        }
        value = value * 10 + d;
        i = i + 1;
    }
    assert(digits@.take(digits.len() as int) =~= digits@);
    Some(value)
}

/// The three-digit texts are all digits.
pub proof fn lemma_identifier_digits_are_digits(parts: Seq<Seq<char>>)
    ensures
        crate::text::all_digit_chars(identifier_digits(parts)),
    decreases parts.len(),
{
    if parts.len() > 0 {
        lemma_identifier_digits_are_digits(parts.drop_last());
        let value = match parse_unsigned(parts.last(), u32::MAX as nat) {
            Some(v) => v,
            None => 0,
        };
        lemma_decimal_digits(value);
        let prior = identifier_digits(parts.drop_last());
        let p = pad3(decimal(value));
        assert forall|i: int| 0 <= i < prior.len() + p.len() implies '0' <= #[trigger] (prior + p)[i] <= '9' by {
            if i >= prior.len() {
                assert((prior + p)[i] == p[i - prior.len()]);
            }
        }
    }
}

/// Decimal text is made of digits.
pub proof fn lemma_decimal_digits(n: nat)
    ensures
        crate::text::all_digit_chars(decimal(n)),
        crate::text::all_digit_chars(pad3(decimal(n))),
    decreases n,
{
    if n >= 10 {
        lemma_decimal_digits(n / 10);
    }
}

/// The address with parts `a.b.c.d`, each written in decimal.
pub open spec fn dotted(a: nat, b: nat, c: nat, d: nat) -> Seq<char> {
    decimal(a) + seq!['.'] + decimal(b) + seq!['.'] + decimal(c) + seq!['.'] + decimal(d)
}

/// The identifier whose base-1000 digits are `a`, `b`, `c`, `d`, most
/// significant first.
pub open spec fn identifier_of(a: nat, b: nat, c: nat, d: nat) -> nat {
    ((a * 1000 + b) * 1000 + c) * 1000 + d
}

proof fn lemma_base1000_step(n: nat, q: nat, r: nat)
    requires
        r < 1000,
        n == q * 1000 + r,
        n > 0,
    ensures
        base1000_groups(n) == seq![r] + base1000_groups(q),
{
    vstd::arithmetic::div_mod::lemma_fundamental_div_mod_converse(n as int, 1000, q as int, r as int);
}

/// A node identifier with four base-1000 digits, the first not 0, is written
/// back as the address whose parts are those digits, most significant first.
pub proof fn law_address_of_identifier(a: nat, b: nat, c: nat, d: nat)
    requires
        1 <= a < 1000,
        b < 1000,
        c < 1000,
        d < 1000,
    ensures
        address_text(identifier_of(a, b, c, d)) == dotted(a, b, c, d),
{
    let n1 = a * 1000 + b;
    let n2 = n1 * 1000 + c;
    let n3 = n2 * 1000 + d;
    lemma_base1000_step(n3, n2, d);
    lemma_base1000_step(n2, n1, c);
    lemma_base1000_step(n1, a, b);
    lemma_base1000_step(a, 0, a);
    assert(base1000_groups(0) =~= seq![]);
    let groups = base1000_groups(n3);
    assert(groups =~= seq![d, c, b, a]);
    let parts = groups.map_values(|g: nat| decimal(g));
    assert(parts =~= seq![decimal(d), decimal(c), decimal(b), decimal(a)]);
    let swapped = swap_at(swap_at(parts, 0, 3), 1, 2);
    assert(swapped =~= seq![decimal(a), decimal(b), decimal(c), decimal(d)]);
    assert(swapped.drop_last() =~= seq![decimal(a), decimal(b), decimal(c)]);
    assert(swapped.drop_last().drop_last() =~= seq![decimal(a), decimal(b)]);
    assert(swapped.drop_last().drop_last().drop_last() =~= seq![decimal(a)]);
    assert(join_dots(seq![decimal(a)]) == decimal(a));
    assert(join_dots(seq![decimal(a), decimal(b)]) =~= decimal(a) + seq!['.'] + decimal(b));
    assert(join_dots(seq![decimal(a), decimal(b), decimal(c)]) =~= decimal(a) + seq!['.'] + decimal(b) + seq!['.']
        + decimal(c));
    assert(join_dots(swapped) =~= dotted(a, b, c, d));
}

/// The value of decimal text is the number.
pub proof fn lemma_decimal_value(n: nat)
    ensures
        char_digits_value(decimal(n)) == n,
        1 <= decimal(n).len(),
        n < 10 ==> decimal(n).len() == 1,
        n < 100 ==> decimal(n).len() <= 2,
        n < 1000 ==> decimal(n).len() <= 3,
    decreases n,
{
    lemma_digit_char_value(n % 10);
    let t = decimal(n);
    assert(t.last() == digit_char(n % 10));
    assert(char_digits_value(t) == char_digits_value(t.drop_last()) * 10 + (t.last() as nat - 48) as nat);
    if n >= 10 {
        lemma_decimal_value(n / 10);
        assert(decimal(n).drop_last() =~= decimal(n / 10));
    } else {
        assert(decimal(n).drop_last() =~= Seq::<char>::empty());
    }
}

/// The code of a digit's character.
proof fn lemma_digit_char_value(d: nat)
    requires
        d < 10,
    ensures
        digit_char(d) as nat == 48 + d,
{
}

/// The value of two runs of digits, one after the other.
proof fn lemma_digits_concat(x: Seq<char>, y: Seq<char>)
    ensures
        char_digits_value(x + y) == char_digits_value(x) * vstd::arithmetic::power::pow(10, y.len()) + char_digits_value(y),
    decreases y.len(),
{
    reveal(vstd::arithmetic::power::pow);
    if y.len() == 0 {
        assert(x + y =~= x);
    } else {
        lemma_digits_concat(x, y.drop_last());
        assert((x + y).drop_last() =~= x + y.drop_last());
        let p = vstd::arithmetic::power::pow(10, (y.len() - 1) as nat);
        let vx = char_digits_value(x);
        assert(vx * (10 * p) == vx * p * 10) by (nonlinear_arith);
    }
}

/// A number below 1000 written with three digits has that value.
proof fn lemma_pad3_value(n: nat)
    requires
        n < 1000,
    ensures
        crate::text::pad3(decimal(n)).len() == 3,
        char_digits_value(crate::text::pad3(decimal(n))) == n,
        crate::text::all_digit_chars(crate::text::pad3(decimal(n))),
{
    lemma_decimal_value(n);
    lemma_decimal_digits(n);
    let t = decimal(n);
    if t.len() < 3 {
        let zeros = Seq::new((3 - t.len()) as nat, |i: int| '0');
        lemma_digits_concat(zeros, t);
        assert(char_digits_value(zeros) == 0) by {
            lemma_digit_char_value(0);
            assert(seq!['0'].drop_last() =~= Seq::<char>::empty());
            assert(seq!['0'].last() == '0');
            assert(digit_char(0) == '0');
            assert(char_digits_value(Seq::<char>::empty()) == 0);
            assert(char_digits_value(seq!['0']) == char_digits_value(seq!['0'].drop_last()) * 10 + (seq!['0'].last() as nat - 48) as nat);
            assert(char_digits_value(seq!['0']) == 0);
            if zeros.len() == 2 {
                assert(zeros.drop_last() =~= seq!['0']);
            } else {
                assert(zeros =~= seq!['0']);
            }
        }
    }
}

/// Decimal text parses back to its number.
proof fn lemma_decimal_parses(n: nat)
    requires
        n <= u32::MAX,
    ensures
        parse_unsigned(decimal(n), u32::MAX as nat) == Some(n),
{
    lemma_decimal_value(n);
    lemma_decimal_digits(n);
    assert(crate::text::unsigned_digits(decimal(n)) == decimal(n));
}

/// An address `a.b.c.d` with parts below 1000 is read as the identifier
/// whose base-1000 digits are its parts.
pub proof fn law_identifier_of_address(a: nat, b: nat, c: nat, d: nat)
    requires
        a < 1000,
        b < 1000,
        c < 1000,
        d < 1000,
    ensures
        ip_identifier_value(dotted(a, b, c, d)) == identifier_of(a, b, c, d),
{
    lemma_decimal_digits(a);
    lemma_decimal_digits(b);
    lemma_decimal_digits(c);
    lemma_decimal_digits(d);
    let (da, db, dc, dd) = (decimal(a), decimal(b), decimal(c), decimal(d));
    assert forall|x: nat| #![trigger decimal(x)] x < 1000 ==> forall|i: int| 0 <= i < decimal(x).len() ==> decimal(x)[i] != '.' by {
        lemma_decimal_digits(x);
        if x < 1000 {
            assert forall|i: int| 0 <= i < decimal(x).len() implies decimal(x)[i] != '.' by {
                assert('0' <= decimal(x)[i] <= '9');
            }
        }
    }
    lemma_split_single(da, '.');
    lemma_split_append(da, db, '.');
    lemma_split_append(da + seq!['.'] + db, dc, '.');
    lemma_split_append(da + seq!['.'] + db + seq!['.'] + dc, dd, '.');
    let parts = split_on(dotted(a, b, c, d), '.');
    assert(parts =~= seq![da, db, dc, dd]);
    lemma_decimal_parses(a);
    lemma_decimal_parses(b);
    lemma_decimal_parses(c);
    lemma_decimal_parses(d);
    let (pa, pb, pc, pd) = (pad3(da), pad3(db), pad3(dc), pad3(dd));
    assert(parts.drop_last() =~= seq![da, db, dc]);
    assert(parts.drop_last().drop_last() =~= seq![da, db]);
    assert(parts.drop_last().drop_last().drop_last() =~= seq![da]);
    assert(seq![da].drop_last() =~= Seq::<Seq<char>>::empty());
    let empty = Seq::<Seq<char>>::empty();
    assert(identifier_digits(empty) == Seq::<char>::empty());
    assert(identifier_digits(seq![da]) =~= pa);
    assert(seq![da, db].drop_last() =~= seq![da]);
    assert(identifier_digits(seq![da, db]) =~= pa + pb);
    assert(seq![da, db, dc].drop_last() =~= seq![da, db]);
    assert(identifier_digits(seq![da, db, dc]) =~= pa + pb + pc);
    assert(identifier_digits(parts) =~= pa + pb + pc + pd);
    lemma_pad3_value(a);
    lemma_pad3_value(b);
    lemma_pad3_value(c);
    lemma_pad3_value(d);
    reveal(vstd::arithmetic::power::pow);
    assert(vstd::arithmetic::power::pow(10, 3) == 1000) by {
        reveal_with_fuel(vstd::arithmetic::power::pow, 4);
    }
    lemma_digits_concat(pa, pb);
    lemma_digits_concat(pa + pb, pc);
    lemma_digits_concat(pa + pb + pc, pd);
}

/// An address whose parts are below 1000, the first not 0, comes back
/// unchanged from its identifier: reading the identifier of `a.b.c.d` and
/// writing it as an address gives `a.b.c.d` again. (The identifier is below
/// 10^12; [`ip_identifier`] returns it wherever it fits in a `usize`.)
pub proof fn law_address_round_trip(a: nat, b: nat, c: nat, d: nat)
    requires
        1 <= a < 1000,
        b < 1000,
        c < 1000,
        d < 1000,
    ensures
        address_text(ip_identifier_value(dotted(a, b, c, d))) == dotted(a, b, c, d),
        1000 <= ip_identifier_value(dotted(a, b, c, d)) < 1_000_000_000_000,
{
    law_identifier_of_address(a, b, c, d);
    law_address_of_identifier(a, b, c, d);
    assert(identifier_of(a, b, c, d) >= 1000) by (nonlinear_arith)
        requires
            a >= 1,
    ;
    assert(identifier_of(a, b, c, d) < 1_000_000_000_000) by (nonlinear_arith)
        requires
            a < 1000,
            b < 1000,
            c < 1000,
            d < 1000,
    ;
}

} // verus!
