//! Luhn checksum validation.

use vstd::prelude::*;
use crate::strutil::{char_is_whitespace, is_whitespace_char, is_digit_char, digit_value};

verus! {

/// The characters of `s` that are not whitespace, in order.
pub open spec fn luhn_kept(s: Seq<char>) -> Seq<char>
    decreases s.len(),
{
    if s.len() == 0 {
        Seq::empty()
    } else if char_is_whitespace(s[0]) {
        luhn_kept(s.drop_first())
    } else {
        seq![s[0]] + luhn_kept(s.drop_first())
    }
}

/// The Luhn contribution of digit character `c` at distance `i` from the
/// right end of the code: every second digit is doubled, and 9 is
/// subtracted when the double exceeds 9.
pub open spec fn luhn_term(c: char, i: int) -> int {
    let d = digit_value(c);
    if i % 2 == 1 {
        if d * 2 > 9 {
            d * 2 - 9
        } else {
            d * 2
        }
    } else {
        d
    }
}

/// The Luhn sum of the digit characters `s[j..]`, where the last character
/// of `s` is at distance 0 from the right end.
pub open spec fn luhn_sum(s: Seq<char>, j: int) -> int
    decreases s.len() - j,
{
    if j < 0 || j >= s.len() {
        0
    } else {
        luhn_term(s[j], s.len() - 1 - j) + luhn_sum(s, j + 1)
    }
}

/// A code is Luhn-valid when, after stripping whitespace, more than one
/// character remains, every remaining character is an ASCII digit, and the
/// Luhn sum is divisible by ten.
pub open spec fn is_luhn_valid(s: Seq<char>) -> bool {
    let kept = luhn_kept(s);
    &&& kept.len() > 1
    &&& (forall|k: int| 0 <= k < kept.len() ==> is_digit_char(#[trigger] kept[k]))
    &&& luhn_sum(kept, 0) % 10 == 0
}

/// Check a Luhn checksum.
pub fn is_valid(code: &str) -> (r: bool)
    ensures
        r == is_luhn_valid(code@),
{
    let n = code.unicode_len();
    let mut kept: Vec<char> = Vec::new();
    proof {
        assert(code@.skip(0) =~= code@);
    }
    for i in 0..n
        invariant
            n == code@.len(),
            luhn_kept(code@) == kept@ + luhn_kept(code@.skip(i as int)),
    {
        let c = code.get_char(i);
        proof {
            assert(code@.skip(i as int).drop_first() =~= code@.skip(i as int + 1));
            assert(code@.skip(i as int)[0] == c);
        }
        let ghost kept0 = kept@;
        if !is_whitespace_char(c) {
            kept.push(c);
            proof {
                assert(kept@ + luhn_kept(code@.skip(i as int + 1)) =~= kept0 + (seq![c]
                    + luhn_kept(code@.skip(i as int + 1))));
            }
        }
    }
    proof {
        assert(code@.skip(n as int) =~= Seq::<char>::empty());
        assert(kept@ + luhn_kept(code@.skip(n as int)) =~= kept@);
    }
    if kept.len() <= 1 {
        return false;
    }
    let mut acc: u64 = 0;
    let mut j = kept.len();
    while j > 0
        invariant
            luhn_kept(code@) == kept@,
            kept@.len() > 1,
            j <= kept@.len(),
            acc < 10,
            acc == luhn_sum(kept@, j as int) % 10,
            forall|k: int| j <= k < kept@.len() ==> is_digit_char(#[trigger] kept@[k]),
        decreases j,
    {
        j = j - 1;
        let c = kept[j];
        let u = c as u32;
        if !(48 <= u && u <= 57) {
            assert(!is_digit_char(kept@[j as int]));
            return false;
        }
        let d = (u - 48) as u64;
        let right = kept.len() - 1 - j;
        let t: u64 = if right % 2 == 1 {
            if d * 2 > 9 {
                d * 2 - 9
            } else {
                d * 2
            }
        } else {
            d
        };
        proof {
            assert(t == luhn_term(kept@[j as int], kept@.len() - 1 - j));
            lemma_mod_step(luhn_term(kept@[j as int], kept@.len() - 1 - j), luhn_sum(
                kept@,
                j as int + 1,
            ));
        }
        acc = (acc + t) % 10;
    }
    acc == 0
}

/// Adding a term to a running sum commutes with reduction modulo ten.
proof fn lemma_mod_step(t: int, s: int)
    ensures
        (t + s % 10) % 10 == (t + s) % 10,
{
    vstd::arithmetic::div_mod::lemma_add_mod_noop_right(t, s, 10);
}

} // verus!
