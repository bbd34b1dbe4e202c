//! Shared character and string helpers: the few places where the library
//! relies on Unicode tables from the standard library, and verified helpers
//! for building strings from character vectors.

use vstd::prelude::*;

verus! {

/// Whether `char::is_whitespace` holds of `c`: the Unicode `White_Space`
/// property of the character.
pub uninterp spec fn char_is_whitespace(c: char) -> bool;

/// Relies on char::is_whitespace: the result depends on the character alone.
/// A space is whitespace; an ASCII digit is not.
#[verifier::external_body]
pub(crate) fn is_whitespace_char(c: char) -> (r: bool)
    ensures
        r == char_is_whitespace(c),
        c == ' ' ==> r,
        '0' as u32 <= c as u32 && c as u32 <= '9' as u32 ==> !r,
{
    c.is_whitespace()
}

/// The uppercase mapping of `c` that `char::to_uppercase` yields: one or
/// more characters, depending on the Unicode table alone.
pub uninterp spec fn char_upper(c: char) -> Seq<char>;

/// Relies on char::to_uppercase: the result depends on the character alone
/// and is never empty.
#[verifier::external_body]
pub(crate) fn to_uppercase_chars(c: char) -> (r: Vec<char>)
    ensures
        r@ == char_upper(c),
        r@.len() >= 1,
{
    c.to_uppercase().collect()
}

/// Relies on FromIterator for String: joining the characters in order.
#[verifier::external_body]
pub(crate) fn string_from_chars(v: &Vec<char>) -> (r: String)
    ensures
        r@ == v@,
{
    v.iter().collect()
}

/// The characters of `s`, in order.
pub(crate) fn str_chars(s: &str) -> (r: Vec<char>)
    ensures
        r@ == s@,
{
    let n = s.unicode_len();
    let mut r: Vec<char> = Vec::new();
    let mut i: usize = 0;
    while i < n
        invariant
            i <= n,
            n == s@.len(),
            r@ == s@.subrange(0, i as int),
        decreases n - i,
    {
        r.push(s.get_char(i));
        proof {
            assert(r@ =~= s@.subrange(0, i as int + 1));
        }
        i = i + 1;
    }
    proof {
        assert(r@ =~= s@);
    }
    r
}

/// The index of the first occurrence of `sep` in `s[j..]`, or the length of
/// `s` when there is none.
pub open spec fn idx_of(s: Seq<char>, sep: char, j: int) -> int
    decreases s.len() - j,
{
    if j < 0 || j >= s.len() {
        s.len() as int
    } else if s[j] == sep {
        j
    } else {
        idx_of(s, sep, j + 1)
    }
}

/// The index of the first occurrence of `sep` in `s[from..]`, or the length
/// of `s`.
pub(crate) fn find_from(s: &Vec<char>, sep: char, from: usize) -> (r: usize)
    requires
        from <= s@.len(),
    ensures
        r == idx_of(s@, sep, from as int),
        from <= r <= s@.len(),
    decreases s@.len() - from,
{
    if from == s.len() {
        return from;
    }
    if s[from] == sep {
        return from;
    }
    find_from(s, sep, from + 1)
}

/// Whether `c` is an ASCII decimal digit.
pub open spec fn is_digit_char(c: char) -> bool {
    '0' as u32 <= c as u32 && c as u32 <= '9' as u32
}

/// The numeric value of an ASCII digit character.
pub open spec fn digit_value(c: char) -> int {
    c as u32 - '0' as u32
}

} // verus!
