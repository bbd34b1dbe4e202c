//! Word capitalization: uppercase the first character of every word of a
//! text, leaving every other character in place. Words are separated by one
//! or more whitespace characters.

use vstd::prelude::*;
use crate::strutil::{char_is_whitespace, char_upper, is_whitespace_char, string_from_chars,
    to_uppercase_chars};

verus! {

/// The capitalized form of `s`: when `at_word_start` holds, the first
/// character is replaced by its uppercase mapping; afterwards a character
/// starts a word exactly when it follows whitespace.
pub open spec fn spec_capitalize(s: Seq<char>, at_word_start: bool) -> Seq<char>
    decreases s.len(),
{
    if s.len() == 0 {
        Seq::empty()
    } else if at_word_start {
        char_upper(s[0]) + spec_capitalize(s.drop_first(), false)
    } else {
        seq![s[0]] + spec_capitalize(s.drop_first(), char_is_whitespace(s[0]))
    }
}

/// Uppercase the first character of every word of `s`, leaving any other
/// character, including further uppercase ones, in place.
pub fn capitalize(s: &str) -> (r: String)
    ensures
        r@ == spec_capitalize(s@, true),
{
    let n = s.unicode_len();
    let mut out: Vec<char> = Vec::new();
    let mut first = true;
    proof {
        assert(s@.skip(0) =~= s@);
    }
    for i in 0..n
        invariant
            n == s@.len(),
            out@ + spec_capitalize(s@.skip(i as int), first) == spec_capitalize(s@, true),
    {
        let c = s.get_char(i);
        proof {
            assert(s@.skip(i as int).drop_first() =~= s@.skip(i as int + 1));
            assert(s@.skip(i as int)[0] == c);
        }
        let ghost out0 = out@;
        if first {
            let mut up = to_uppercase_chars(c);
            let ghost upv = up@;
            out.append(&mut up);
            first = false;
            proof {
                assert(out@ + spec_capitalize(s@.skip(i as int + 1), false) =~= out0 + (upv
                    + spec_capitalize(s@.skip(i as int + 1), false)));
            }
        } else {
            first = is_whitespace_char(c);
            out.push(c);
            proof {
                assert(out@ + spec_capitalize(s@.skip(i as int + 1), char_is_whitespace(c)) =~= out0
                    + (seq![c] + spec_capitalize(s@.skip(i as int + 1), char_is_whitespace(c))));
            }
        }
    }
    proof {
        assert(s@.skip(n as int) =~= Seq::<char>::empty());
        assert(out@ + spec_capitalize(s@.skip(n as int), first) =~= out@);
    }
    string_from_chars(&out)
}

} // verus!
