//! A hasher whose hash is the number written to it as decimal text.

use vstd::prelude::*;
use vstd::utf8::{valid_first_scalar, valid_utf8};

verus! {

/// The value of a run of decimal digits (ASCII bytes), most significant first.
pub open spec fn digits_value(d: Seq<u8>) -> nat
    decreases d.len(),
{
    if d.len() == 0 {
        0
    } else {
        digits_value(d.drop_last()) * 10 + (d.last() - 48) as nat
    }
}

/// Whether every byte is an ASCII decimal digit.
pub open spec fn all_digits(d: Seq<u8>) -> bool {
    forall|i: int| 0 <= i < d.len() ==> 48 <= #[trigger] d[i] <= 57
}

/// What parsing `text` as a `u64` gives: an optional `+`, then at least one
/// decimal digit, the whole at most `u64::MAX`.
pub open spec fn parse_u64_bytes(text: Seq<u8>) -> Option<u64> {
    let digits = if text.len() > 0 && text[0] == 43 { text.drop_first() } else { text };
    if digits.len() > 0 && all_digits(digits) && digits_value(digits) <= u64::MAX {
        Some(digits_value(digits) as u64)
    } else {
        None
    }
}

/// Whether `bytes` are valid UTF-8: `std::str::from_utf8(bytes).is_ok()`,
/// which the standard library documents as true exactly for valid UTF-8.
#[verifier::external_body]
fn is_utf8(bytes: &[u8]) -> (r: bool)
    ensures
        r == valid_utf8(bytes@),
{
    std::str::from_utf8(bytes).is_ok()
}

/// Parses `text` as a `u64` the way `str::parse::<u64>` does.
pub fn parse_u64(text: &[u8]) -> (r: Option<u64>)
    ensures
        r == parse_u64_bytes(text@),
{
    let n = text.len();
    let start: usize = if n > 0 && text[0] == 43u8 { 1 } else { 0 };
    let ghost digits = if text@.len() > 0 && text@[0] == 43 { text@.drop_first() } else { text@ };
    assert(digits =~= text@.subrange(start as int, n as int));
    if start >= n {
        return None;
    }
    let mut value: u64 = 0;
    let mut i: usize = start;
    while i < n
        invariant
            start <= i <= n,
            n == text@.len(),
            digits == text@.subrange(start as int, n as int),
            digits == (if text@.len() > 0 && text@[0] == 43 { text@.drop_first() } else { text@ }),
            all_digits(text@.subrange(start as int, i as int)),
            value as nat == digits_value(text@.subrange(start as int, i as int)),
        decreases n - i,
    {
        let b = text[i];
        assert(text@.subrange(start as int, i + 1).drop_last() =~= text@.subrange(start as int, i as int));
        if b < 48u8 || b > 57u8 {
            assert(!all_digits(digits)) by {
                assert(digits[i - start] == text@[i as int]);
                assert(!(48 <= digits[i - start] <= 57));
            }
            return None;
        }
        let d = (b - 48u8) as u64;
        if value > (u64::MAX - d) / 10 {
            assert(digits_value(text@.subrange(start as int, i + 1)) > u64::MAX) by (nonlinear_arith)
                requires
                    digits_value(text@.subrange(start as int, i + 1)) == value * 10 + d,
                    value > (u64::MAX - d) / 10,
                    d <= 9,
            ;
            proof {
                if all_digits(digits) {
                    lemma_digits_value_grows(digits, i + 1 - start);
                    assert(digits.subrange(0, i + 1 - start) =~= text@.subrange(start as int, i + 1));
                }
            }
            return None;
        }
        proof {
            assert(value * 10 + d <= u64::MAX) by (nonlinear_arith)
                requires
                    value <= (u64::MAX - d) / 10,
                    d <= 9,
            ;
        }
        value = value * 10 + d;
        i = i + 1;
    }
    assert(text@.subrange(start as int, n as int) =~= digits);
    Some(value)
}

/// A longer run of digits is worth at least as much as its prefix.
proof fn lemma_digits_value_grows(d: Seq<u8>, k: int)
    requires
        0 <= k <= d.len(),
        all_digits(d),
    ensures
        digits_value(d) >= digits_value(d.subrange(0, k)),
    decreases d.len() - k,
{
    if k < d.len() {
        lemma_digits_value_grows(d, k + 1);
        assert(d.subrange(0, k + 1).drop_last() =~= d.subrange(0, k));
        assert(d.subrange(0, k + 1)[k] == d[k]);
    } else {
        assert(d.subrange(0, k) =~= d);
    }
}

/// The hash after `bytes` are written to a hasher whose hash was `h`: the
/// number they spell when they are UTF-8 text, `h` otherwise.
pub open spec fn hash_after_write(h: u64, bytes: Seq<u8>) -> u64 {
    if valid_utf8(bytes) {
        parse_u64_bytes(bytes).unwrap()
    } else {
        h
    }
}

/// Hashing a text into an [`IdentityHasher`], which writes the text's bytes
/// and then the single byte 0xff (as `str`'s `Hash` does), gives the number
/// the text spells: 0xff alone is not UTF-8 and leaves the hash alone.
pub proof fn law_hashing_text_gives_its_number(h: u64, text: Seq<u8>)
    requires
        valid_utf8(text),
        parse_u64_bytes(text) is Some,
    ensures
        !valid_utf8(seq![0xffu8]),
        hash_after_write(hash_after_write(h, text), seq![0xffu8]) == parse_u64_bytes(text).unwrap(),
{
    let end = seq![0xffu8];
    assert(!valid_first_scalar(end));
}

/// A hasher whose hash is the last number written to it as decimal text.
#[derive(Debug, Clone)]
pub struct IdentityHasher {
    hash: u64,
}

impl View for IdentityHasher {
    type V = u64;

    closed spec fn view(&self) -> u64 {
        self.hash
    }
}

impl IdentityHasher {
    fn new() -> (r: Self)
        ensures
            r@ == 0,
    {
        IdentityHasher { hash: 0 }
    }

    /// Takes `bytes`: when they are UTF-8 text, the number they spell
    /// becomes the hash; other bytes leave the hash as it was. UTF-8 text
    /// that is not a `u64` is outside what a hasher of numbers accepts.
    pub fn write(&mut self, bytes: &[u8])
        requires
            valid_utf8(bytes@) ==> parse_u64_bytes(bytes@) is Some,
        ensures
            final(self)@ == hash_after_write(old(self)@, bytes@),
    {
        if is_utf8(bytes) {
            self.hash = parse_u64(bytes).unwrap();
        }
    }

    /// The hash.
    pub fn finish(&self) -> (r: u64)
        ensures
            r == self@,
    {
        self.hash
    }
}

impl Default for IdentityHasher {
    /// A fresh hasher, whose hash is 0.
    fn default() -> (r: Self)
        ensures
            r@ == 0,
    {
        IdentityHasher::new()
    }
}

/// Builds fresh [`IdentityHasher`]s.
#[derive(Debug, Clone)]
pub struct IdentityHasherBuilder;

impl IdentityHasherBuilder {
    /// A fresh hasher.
    pub fn build_hasher(&self) -> (r: IdentityHasher)
        ensures
            r@ == 0,
    {
        IdentityHasher::new()
    }
}

} // verus!
