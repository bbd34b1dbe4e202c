//! Occurrence counting: the core of the letter- and word-frequency
//! programs. A tally lists each distinct element with its exact number of
//! occurrences, in first-appearance order; the callers split their input and
//! merge or serialize the counts around it.

use vstd::prelude::*;

verus! {

/// How many entries of `s` equal `x`.
pub open spec fn count_in<T>(s: Seq<T>, x: T) -> int
    decreases s.len(),
{
    if s.len() == 0 {
        0
    } else {
        count_in(s.drop_last(), x) + if s.last() == x {
            1int
        } else {
            0int
        }
    }
}

/// The distinct entries of `s`, keeping first appearances in order.
pub open spec fn distinct_firsts<T>(s: Seq<T>) -> Seq<T>
    decreases s.len(),
{
    if s.len() == 0 {
        s
    } else {
        let d = distinct_firsts(s.drop_last());
        if d.contains(s.last()) {
            d
        } else {
            d.push(s.last())
        }
    }
}

/// A count never exceeds the length counted over.
proof fn lemma_count_le_len<T>(s: Seq<T>, x: T)
    ensures
        0 <= count_in(s, x) <= s.len(),
    decreases s.len(),
{
    if s.len() > 0 {
        lemma_count_le_len(s.drop_last(), x);
    }
}

/// An element is among the distinct entries exactly when it occurs, which is
/// exactly when its count is positive.
proof fn lemma_distinct_contains<T>(s: Seq<T>, x: T)
    ensures
        distinct_firsts(s).contains(x) == s.contains(x),
        s.contains(x) == (count_in(s, x) > 0),
    decreases s.len(),
{
    if s.len() == 0 {
        assert(!s.contains(x));
        assert(!distinct_firsts(s).contains(x));
    } else {
        let rest = s.drop_last();
        let d = distinct_firsts(rest);
        lemma_distinct_contains(rest, x);
        lemma_count_le_len(rest, x);
        assert(s.contains(x) == (rest.contains(x) || s.last() == x)) by {
            if s.contains(x) {
                let w = choose|w: int| 0 <= w < s.len() && s[w] == x;
                if w < s.len() - 1 {
                    assert(rest[w] == x);
                }
            }
            if rest.contains(x) {
                let w = choose|w: int| 0 <= w < rest.len() && rest[w] == x;
                assert(s[w] == x);
            }
            if s.last() == x {
                assert(s[s.len() - 1] == x);
            }
        }
        if d.contains(s.last()) {
            assert(distinct_firsts(s) == d);
            lemma_distinct_contains(rest, s.last());
            assert(rest.contains(s.last()));
        } else {
            assert(distinct_firsts(s) == d.push(s.last()));
            assert(d.push(s.last()).contains(x) == (d.contains(x) || s.last() == x)) by {
                if d.push(s.last()).contains(x) {
                    let w = choose|w: int| 0 <= w < d.len() + 1 && d.push(s.last())[w] == x;
                    if w < d.len() {
                        assert(d[w] == x);
                    }
                }
                if d.contains(x) {
                    let w = choose|w: int| 0 <= w < d.len() && d[w] == x;
                    assert(d.push(s.last())[w] == x);
                }
                assert(d.push(s.last())[d.len() as int] == s.last());
            }
        }
    }
}

/// The keys of a character tally, in order.
pub open spec fn char_keys(v: Seq<(char, usize)>) -> Seq<char> {
    Seq::new(v.len(), |i: int| v[i].0)
}

/// Count the occurrences of each character: one entry per distinct
/// character, in first-appearance order, with its exact count.
#[verifier::loop_isolation(false)]
pub fn tally_chars(chars: &Vec<char>) -> (r: Vec<(char, usize)>)
    ensures
        char_keys(r@) == distinct_firsts(chars@),
        forall|i: int| 0 <= i < r@.len() ==> (#[trigger] r@[i]).1 == count_in(chars@, r@[i].0),
{
    let n = chars.len();
    let mut out: Vec<(char, usize)> = Vec::new();
    let mut x: usize = 0;
    proof {
        assert(char_keys(out@) =~= distinct_firsts(chars@.subrange(0, 0)));
    }
    while x < n
        invariant
            x <= n,
            char_keys(out@) == distinct_firsts(chars@.subrange(0, x as int)),
            forall|i: int|
                0 <= i < out@.len() ==> (#[trigger] out@[i]).1 == count_in(
                    chars@.subrange(0, x as int),
                    out@[i].0,
                ),
        decreases n - x,
    {
        let ghost prefix = chars@.subrange(0, x as int);
        let c = chars[x];
        proof {
            assert(chars@.subrange(0, x as int + 1).drop_last() =~= prefix);
            assert(chars@.subrange(0, x as int + 1).last() == c);
            lemma_count_le_len(prefix, c);
            lemma_distinct_contains(prefix, c);
        }
        let m = out.len();
        let mut j: usize = 0;
        let mut found = false;
        while j < m && !found
            invariant
                j <= m,
                m == out@.len(),
                found ==> j < m && out@[j as int].0 == c,
                !found ==> forall|jj: int| 0 <= jj < j ==> (#[trigger] out@[jj]).0 != c,
            decreases m - j + (if found {
                0int
            } else {
                1int
            }),
        {
            if out[j].0 == c {
                found = true;
            } else {
                j = j + 1;
            }
        }
        let ghost out0 = out@;
        if found {
            proof {
                assert(char_keys(out0).contains(c)) by {
                    assert(char_keys(out0)[j as int] == c);
                }
                assert(count_in(prefix, c) <= x);
            }
            let current = out[j].1;
            out[j].1 = current + 1;
            proof {
                assert(char_keys(out@) =~= char_keys(out0));
                assert(distinct_firsts(chars@.subrange(0, x as int + 1)) == char_keys(out@));
            }
        } else {
            proof {
                assert(!char_keys(out0).contains(c)) by {
                    if char_keys(out0).contains(c) {
                        let w = choose|w: int|
                            0 <= w < char_keys(out0).len() && char_keys(out0)[w] == c;
                        assert(out0[w].0 == c);
                    }
                }
                assert(count_in(prefix, c) == 0);
            }
            out.push((c, 1));
            proof {
                assert(char_keys(out@) =~= char_keys(out0).push(c));
            }
        }
        proof {
            assert forall|i: int| 0 <= i < out@.len() implies (#[trigger] out@[i]).1 == count_in(
                chars@.subrange(0, x as int + 1),
                out@[i].0,
            ) by {
                if found && i == j {
                    assert(out@[i].0 == c);
                } else if !found && i == out@.len() - 1 {
                    assert(out@[i] == (c, 1usize));
                } else {
                    assert(out@[i] == out0[i]);
                    assert(out0[i].1 == count_in(prefix, out0[i].0));
                    if out0[i].0 == c {
                        if found {
                            assert(char_keys(out0)[i] == c && char_keys(out0)[j as int] == c);
                            assert(distinct_firsts(prefix)[i] == distinct_firsts(prefix)[j as int]);
                            lemma_distinct_no_dup(prefix, i, j as int);
                        } else {
                            assert(char_keys(out0)[i] == c);
                            assert(char_keys(out0).contains(c));
                        }
                    }
                }
            }
        }
        x = x + 1;
    }
    proof {
        assert(chars@.subrange(0, n as int) =~= chars@);
    }
    out
}

/// Distinct entries hold no entry twice.
proof fn lemma_distinct_no_dup<T>(s: Seq<T>, a: int, b: int)
    requires
        0 <= a < distinct_firsts(s).len(),
        0 <= b < distinct_firsts(s).len(),
        a != b,
    ensures
        distinct_firsts(s)[a] != distinct_firsts(s)[b],
    decreases s.len(),
{
    if s.len() > 0 {
        let d = distinct_firsts(s.drop_last());
        if !d.contains(s.last()) {
            if a < d.len() && b < d.len() {
                lemma_distinct_no_dup(s.drop_last(), a, b);
            } else if a < d.len() {
                if d[a] == s.last() {
                    assert(d.contains(s.last()));
                }
            } else {
                if d[b] == s.last() {
                    assert(d.contains(s.last()));
                }
            }
        } else {
            lemma_distinct_no_dup(s.drop_last(), a, b);
        }
    }
}

/// The keys of a word tally, in order.
pub open spec fn word_keys(v: Seq<(String, usize)>) -> Seq<Seq<char>> {
    Seq::new(v.len(), |i: int| v[i].0@)
}

/// The character sequences of the words.
pub open spec fn words_view(v: Seq<String>) -> Seq<Seq<char>> {
    Seq::new(v.len(), |i: int| v[i]@)
}

/// Count the occurrences of each word: one entry per distinct word, in
/// first-appearance order, with its exact count.
#[verifier::loop_isolation(false)]
pub fn tally_words(words: &Vec<String>) -> (r: Vec<(String, usize)>)
    ensures
        word_keys(r@) == distinct_firsts(words_view(words@)),
        forall|i: int|
            0 <= i < r@.len() ==> (#[trigger] r@[i]).1 == count_in(words_view(words@), r@[i].0@),
{
    let n = words.len();
    let ghost wv = words_view(words@);
    let mut out: Vec<(String, usize)> = Vec::new();
    let mut x: usize = 0;
    proof {
        assert(wv.subrange(0, 0) =~= words_view(words@.subrange(0, 0)));
        assert(word_keys(out@) =~= distinct_firsts(wv.subrange(0, 0)));
    }
    while x < n
        invariant
            x <= n,
            n == words@.len(),
            wv == words_view(words@),
            word_keys(out@) == distinct_firsts(wv.subrange(0, x as int)),
            forall|i: int|
                0 <= i < out@.len() ==> (#[trigger] out@[i]).1 == count_in(
                    wv.subrange(0, x as int),
                    out@[i].0@,
                ),
        decreases n - x,
    {
        let ghost prefix = wv.subrange(0, x as int);
        let w = &words[x];
        proof {
            assert(wv[x as int] == w@);
            assert(wv.subrange(0, x as int + 1).drop_last() =~= prefix);
            assert(wv.subrange(0, x as int + 1).last() == w@);
            lemma_count_le_len(prefix, w@);
            lemma_distinct_contains(prefix, w@);
        }
        let m = out.len();
        let mut j: usize = 0;
        let mut found = false;
        while j < m && !found
            invariant
                j <= m,
                m == out@.len(),
                found ==> j < m && out@[j as int].0@ == w@,
                !found ==> forall|jj: int| 0 <= jj < j ==> (#[trigger] out@[jj]).0@ != w@,
            decreases m - j + (if found {
                0int
            } else {
                1int
            }),
        {
            if out[j].0 == *w {
                found = true;
            } else {
                j = j + 1;
            }
        }
        let ghost out0 = out@;
        if found {
            proof {
                assert(word_keys(out0).contains(w@)) by {
                    assert(word_keys(out0)[j as int] == w@);
                }
                assert(count_in(prefix, w@) <= x);
            }
            let current = out[j].1;
            out[j].1 = current + 1;
            proof {
                assert(word_keys(out@) =~= word_keys(out0));
                assert(distinct_firsts(wv.subrange(0, x as int + 1)) == word_keys(out@));
            }
        } else {
            proof {
                assert(!word_keys(out0).contains(w@)) by {
                    if word_keys(out0).contains(w@) {
                        let y = choose|y: int|
                            0 <= y < word_keys(out0).len() && word_keys(out0)[y] == w@;
                        assert(out0[y].0@ == w@);
                    }
                }
                assert(count_in(prefix, w@) == 0);
            }
            out.push((crate::dirinfo::common::str_string(w.as_str()), 1));
            proof {
                assert(word_keys(out@) =~= word_keys(out0).push(w@));
            }
        }
        proof {
            assert forall|i: int| 0 <= i < out@.len() implies (#[trigger] out@[i]).1 == count_in(
                wv.subrange(0, x as int + 1),
                out@[i].0@,
            ) by {
                if found && i == j {
                    assert(out@[i].0@ == w@);
                } else if !found && i == out@.len() - 1 {
                    assert(out@[i].1 == 1);
                    assert(out@[i].0@ == w@);
                } else {
                    assert(out@[i] == out0[i]);
                    assert(out0[i].1 == count_in(prefix, out0[i].0@));
                    if out0[i].0@ == w@ {
                        if found {
                            assert(word_keys(out0)[i] == w@ && word_keys(out0)[j as int] == w@);
                            lemma_distinct_no_dup(prefix, i, j as int);
                        } else {
                            assert(word_keys(out0)[i] == w@);
                            assert(word_keys(out0).contains(w@));
                        }
                    }
                }
            }
        }
        x = x + 1;
    }
    proof {
        assert(wv.subrange(0, n as int) =~= wv);
    }
    out
}

} // verus!
