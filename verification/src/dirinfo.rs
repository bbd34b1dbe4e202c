//! An in-memory file-system simulator: a tree of directories and files
//! addressed by `/`-separated paths, with creation, removal, lookup and
//! querying. Creation stamps come from a per-instance logical clock; a
//! caller that wants wall-clock stamps drives the clock itself.

pub mod common;
pub mod file;
pub mod node;
pub mod dir;

pub use common::{FileOrDirError, FileType, FsResult};
pub use dir::Dir;
pub use file::File;
pub use node::Node;

use vstd::prelude::*;
use crate::dirinfo::dir::{dir_view, nodes_view, lemma_nodes_view, node_view, DirView, NodeView,
    spec_mk_dir, spec_new_file, spec_rm_dir, spec_rm_file, spec_get_file};
use crate::dirinfo::file::file_view;
use crate::strutil::{find_from, idx_of, is_digit_char, str_chars, string_from_chars};

verus! {

/// What a search returns: the distinct queries that matched some file, and
/// the paths of the matching files.
#[derive(Debug)]
pub struct MatchResult {
    pub queries: Vec<String>,
    pub nodes: Vec<String>,
}

/// A parsed query: its original text, and what it selects.
pub enum QueryType {
    /// Files or directories whose path contains the string.
    Name(String, String),
    /// Text files whose contents contain the string.
    Content(String, String),
    /// Files larger than the size.
    Larger(String, usize),
    /// Files smaller than the size.
    Smaller(String, usize),
    /// Files or directories created after the stamp.
    Newer(String, u64),
    /// Files or directories created before the stamp.
    Older(String, u64),
}

/// What a query selects, mathematically.
pub enum QuerySel {
    Name(Seq<char>),
    Content(Seq<char>),
    Larger(int),
    Smaller(int),
    Newer(u64),
    Older(u64),
}

/// The mathematical value of a query: its text and its selector.
pub struct QueryView {
    pub text: Seq<char>,
    pub sel: QuerySel,
}

/// The mathematical value of `q`.
pub open spec fn query_view(q: QueryType) -> QueryView {
    match q {
        QueryType::Name(t, s) => QueryView { text: t@, sel: QuerySel::Name(s@) },
        QueryType::Content(t, s) => QueryView { text: t@, sel: QuerySel::Content(s@) },
        QueryType::Larger(t, v) => QueryView { text: t@, sel: QuerySel::Larger(v as int) },
        QueryType::Smaller(t, v) => QueryView { text: t@, sel: QuerySel::Smaller(v as int) },
        QueryType::Newer(t, v) => QueryView { text: t@, sel: QuerySel::Newer(v) },
        QueryType::Older(t, v) => QueryView { text: t@, sel: QuerySel::Older(v) },
    }
}

/// Whether `h` holds `n` as a contiguous run.
pub open spec fn contains_seq<T>(h: Seq<T>, n: Seq<T>) -> bool {
    exists|k: int|
        0 <= k && k + n.len() <= h.len() && #[trigger] h.subrange(k, k + n.len() as int) == n
}

/// Whether the query matches the node: names are matched as substrings of
/// the path; contents byte-wise against the encoding of the needle, on text
/// files only; sizes against the content length; stamps against the
/// creation time. Directories match only name and stamp queries.
pub open spec fn query_matches(q: QueryView, n: NodeView) -> bool {
    match n {
        NodeView::File(f) => match q.sel {
            QuerySel::Name(s) => contains_seq(f.name, s),
            QuerySel::Content(s) => f.type_ == FileType::Text && contains_seq(
                f.content,
                vstd::utf8::encode_utf8(s),
            ),
            QuerySel::Larger(v) => f.content.len() > v,
            QuerySel::Smaller(v) => f.content.len() < v,
            QuerySel::Newer(t) => f.creation_time > t,
            QuerySel::Older(t) => f.creation_time < t,
        },
        NodeView::Dir(d) => match q.sel {
            QuerySel::Name(s) => contains_seq(d.name, s),
            QuerySel::Content(_) => false,
            QuerySel::Larger(_) => false,
            QuerySel::Smaller(_) => false,
            QuerySel::Newer(t) => d.creation_time > t,
            QuerySel::Older(t) => d.creation_time < t,
        },
    }
}

/// The first query at or after `j` that matches the node, or the number of
/// queries when none does.
pub open spec fn first_matching(queries: Seq<QueryView>, j: int, n: NodeView) -> int
    decreases queries.len() - j,
{
    if j < 0 || j >= queries.len() {
        queries.len() as int
    } else if query_matches(queries[j], n) {
        j
    } else {
        first_matching(queries, j + 1, n)
    }
}

/// The (query text, file path) hits of a search over the children from `i`
/// onwards, in tree order: a file contributes its first matching query, and
/// a directory contributes the hits of its own children.
pub open spec fn search_children(
    children: Seq<NodeView>,
    i: int,
    queries: Seq<QueryView>,
) -> Seq<(Seq<char>, Seq<char>)>
    decreases children, 1int, children.len() - i,
{
    if i < 0 || i >= children.len() {
        Seq::empty()
    } else {
        (match children[i] {
            NodeView::File(f) => {
                let m = first_matching(queries, 0, children[i]);
                if m < queries.len() {
                    seq![(queries[m].text, f.name)]
                } else {
                    Seq::<(Seq<char>, Seq<char>)>::empty()
                }
            },
            NodeView::Dir(dv) => search_children(dv.children, 0, queries),
        }) + search_children(children, i + 1, queries)
    }
}

/// What parsing one query string yields: `keyword:value`, where the value
/// runs to the next `:` or the end, and size and stamp values are decimal
/// numbers; anything else parses to nothing.
pub open spec fn spec_parse_query(s: Seq<char>) -> Option<QueryView> {
    let i = idx_of(s, ':', 0);
    if i >= s.len() {
        None
    } else {
        let kw = s.subrange(0, i);
        let j = idx_of(s, ':', i + 1);
        let value = s.subrange(i + 1, j);
        if kw == "name"@ {
            Some(QueryView { text: s, sel: QuerySel::Name(value) })
        } else if kw == "content"@ {
            Some(QueryView { text: s, sel: QuerySel::Content(value) })
        } else if kw == "larger"@ {
            match parse_uint(value, usize::MAX as int) {
                Some(v) => Some(QueryView { text: s, sel: QuerySel::Larger(v) }),
                None => None,
            }
        } else if kw == "smaller"@ {
            match parse_uint(value, usize::MAX as int) {
                Some(v) => Some(QueryView { text: s, sel: QuerySel::Smaller(v) }),
                None => None,
            }
        } else if kw == "newer"@ {
            match parse_uint(value, u64::MAX as int) {
                Some(v) => Some(QueryView { text: s, sel: QuerySel::Newer(v as u64) }),
                None => None,
            }
        } else if kw == "older"@ {
            match parse_uint(value, u64::MAX as int) {
                Some(v) => Some(QueryView { text: s, sel: QuerySel::Older(v as u64) }),
                None => None,
            }
        } else {
            None
        }
    }
}

/// The number a non-empty string of decimal digits denotes, when it is at
/// most `bound`.
pub open spec fn parse_uint(s: Seq<char>, bound: int) -> Option<int> {
    if s.len() == 0 {
        None
    } else if !(forall|i: int| 0 <= i < s.len() ==> is_digit_char(#[trigger] s[i])) {
        None
    } else if crate::calendar::digits_value(s) > bound {
        None
    } else {
        Some(crate::calendar::digits_value(s))
    }
}

/// The queries parsed from the strings at `i` onwards, dropping malformed
/// ones.
pub open spec fn parse_queries(qs: Seq<Seq<char>>, i: int) -> Seq<QueryView>
    decreases qs.len() - i,
{
    if i < 0 || i >= qs.len() {
        Seq::empty()
    } else {
        (match spec_parse_query(qs[i]) {
            Some(q) => seq![q],
            None => Seq::<QueryView>::empty(),
        }) + parse_queries(qs, i + 1)
    }
}

/// The character sequences of a list of string slices.
pub open spec fn strs_view(qs: Seq<&str>) -> Seq<Seq<char>> {
    Seq::new(qs.len(), |i: int| qs[i]@)
}

/// The character sequences of a list of strings.
pub open spec fn strings_view(qs: Seq<String>) -> Seq<Seq<char>> {
    Seq::new(qs.len(), |i: int| qs[i]@)
}

/// The character-sequence pairs of a list of string pairs.
pub open spec fn pairs_view(v: Seq<(String, String)>) -> Seq<(Seq<char>, Seq<char>)> {
    Seq::new(v.len(), |i: int| (v[i].0@, v[i].1@))
}

/// The query texts of a list of hits.
pub open spec fn hit_texts(h: Seq<(Seq<char>, Seq<char>)>) -> Seq<Seq<char>> {
    Seq::new(h.len(), |i: int| h[i].0)
}

/// The distinct entries of `s`, keeping first occurrences in order.
pub open spec fn dedup(s: Seq<Seq<char>>) -> Seq<Seq<char>>
    decreases s.len(),
{
    if s.len() == 0 {
        s
    } else {
        let d = dedup(s.drop_last());
        if d.contains(s.last()) {
            d
        } else {
            d.push(s.last())
        }
    }
}

/// The views of a query list.
pub open spec fn queries_view(qs: Seq<QueryType>) -> Seq<QueryView> {
    Seq::new(qs.len(), |i: int| query_view(qs[i]))
}

impl QueryType {
    /// Whether this query matches the node.
    pub fn matches(&self, node: &Node) -> (r: bool)
        ensures
            r == query_matches(query_view(*self), node_view(*node)),
    {
        match node {
            Node::File(f) => {
                match self {
                    QueryType::Name(_, s) => {
                        let h = str_chars(f.name.as_str());
                        let nd = str_chars(s.as_str());
                        chars_contains(&h, &nd)
                    },
                    QueryType::Content(_, s) => {
                        let is_text = match f.filetype() {
                            FileType::Text => true,
                            FileType::Binary => false,
                        };
                        if is_text {
                            bytes_contains(&f.content, s.as_str().as_bytes())
                        } else {
                            false
                        }
                    },
                    QueryType::Larger(_, v) => f.content.len() > *v,
                    QueryType::Smaller(_, v) => f.content.len() < *v,
                    QueryType::Newer(_, t) => f.creation_time > *t,
                    QueryType::Older(_, t) => f.creation_time < *t,
                }
            },
            Node::Dir(d) => {
                match self {
                    QueryType::Name(_, s) => {
                        let h = str_chars(d.name.as_str());
                        let nd = str_chars(s.as_str());
                        chars_contains(&h, &nd)
                    },
                    QueryType::Content(_, _) => false,
                    QueryType::Larger(_, _) => false,
                    QueryType::Smaller(_, _) => false,
                    QueryType::Newer(_, t) => d.creation_time > *t,
                    QueryType::Older(_, t) => d.creation_time < *t,
                }
            },
        }
    }
}

/// Whether `h` holds the characters of `needle` as a contiguous run.
#[verifier::loop_isolation(false)]
fn chars_contains(h: &Vec<char>, needle: &Vec<char>) -> (r: bool)
    ensures
        r == contains_seq(h@, needle@),
{
    let nh = h.len();
    let nn = needle.len();
    if nn > nh {
        return false;
    }
    let mut k: usize = 0;
    while k <= nh - nn
        invariant
            k <= nh - nn + 1,
            nn <= nh,
            nh == h@.len(),
            nn == needle@.len(),
            forall|kk: int|
                0 <= kk < k ==> #[trigger] h@.subrange(kk, kk + needle@.len() as int) != needle@,
        decreases nh - nn - k + 1,
    {
        let mut j: usize = 0;
        let mut ok = true;
        while j < nn
            invariant
                j <= nn,
                k + nn <= nh,
                nh == h@.len(),
                nn == needle@.len(),
                ok == (forall|x: int| 0 <= x < j ==> h@[k + x] == #[trigger] needle@[x]),
            decreases nn - j,
        {
            if h[k + j] != needle[j] {
                proof {
                    assert(h@[k + j as int] != needle@[j as int]);
                }
                ok = false;
            }
            j = j + 1;
        }
        if ok {
            proof {
                assert(h@.subrange(k as int, k + needle@.len() as int) =~= needle@);
            }
            return true;
        }
        proof {
            let x = choose|x: int| 0 <= x < nn && h@[k + x] != needle@[x];
            assert(h@.subrange(k as int, k + needle@.len() as int)[x] != needle@[x]);
        }
        k = k + 1;
    }
    proof {
        assert forall|kk: int|
            0 <= kk && kk + needle@.len() <= h@.len() implies #[trigger] h@.subrange(
            kk,
            kk + needle@.len() as int,
        ) != needle@ by {}
    }
    false
}

/// Whether `h` holds the bytes of `needle` as a contiguous run.
#[verifier::loop_isolation(false)]
fn bytes_contains(h: &Vec<u8>, needle: &[u8]) -> (r: bool)
    ensures
        r == contains_seq(h@, needle@),
{
    let nh = h.len();
    let nn = needle.len();
    if nn > nh {
        return false;
    }
    let mut k: usize = 0;
    while k <= nh - nn
        invariant
            k <= nh - nn + 1,
            nn <= nh,
            nh == h@.len(),
            nn == needle@.len(),
            forall|kk: int|
                0 <= kk < k ==> #[trigger] h@.subrange(kk, kk + needle@.len() as int) != needle@,
        decreases nh - nn - k + 1,
    {
        let mut j: usize = 0;
        let mut ok = true;
        while j < nn
            invariant
                j <= nn,
                k + nn <= nh,
                nh == h@.len(),
                nn == needle@.len(),
                ok == (forall|x: int| 0 <= x < j ==> h@[k + x] == #[trigger] needle@[x]),
            decreases nn - j,
        {
            if h[k + j] != needle[j] {
                proof {
                    assert(h@[k + j as int] != needle@[j as int]);
                }
                ok = false;
            }
            j = j + 1;
        }
        if ok {
            proof {
                assert(h@.subrange(k as int, k + needle@.len() as int) =~= needle@);
            }
            return true;
        }
        proof {
            let x = choose|x: int| 0 <= x < nn && h@[k + x] != needle@[x];
            assert(h@.subrange(k as int, k + needle@.len() as int)[x] != needle@[x]);
        }
        k = k + 1;
    }
    proof {
        assert forall|kk: int|
            0 <= kk && kk + needle@.len() <= h@.len() implies #[trigger] h@.subrange(
            kk,
            kk + needle@.len() as int,
        ) != needle@ by {}
    }
    false
}

/// Parse the decimal number in `chars[from..to]` that is at most `bound`.
#[verifier::loop_isolation(false)]
fn parse_value(chars: &Vec<char>, from: usize, to: usize, bound: u64) -> (r: Option<u64>)
    requires
        from <= to <= chars@.len(),
    ensures
        match r {
            Some(v) => parse_uint(chars@.subrange(from as int, to as int), bound as int) == Some(
                v as int,
            ) && v <= bound,
            None => parse_uint(chars@.subrange(from as int, to as int), bound as int) is None,
        },
{
    let ghost part = chars@.subrange(from as int, to as int);
    if from == to {
        return None;
    }
    let mut acc: u128 = 0;
    let mut over = false;
    let mut i = from;
    while i < to
        invariant
            from <= i <= to <= chars@.len(),
            part == chars@.subrange(from as int, to as int),
            forall|x: int| from <= x < i ==> is_digit_char(#[trigger] chars@[x]),
            over == (crate::calendar::digits_value(part.subrange(0, i - from)) > bound),
            !over ==> acc == crate::calendar::digits_value(part.subrange(0, i - from)),
            acc <= bound,
        decreases to - i,
    {
        let c = chars[i];
        let u = c as u32;
        if !(48 <= u && u <= 57) {
            proof {
                assert(!is_digit_char(part[i - from]));
            }
            return None;
        }
        let d = (u - 48) as u128;
        proof {
            assert(part.subrange(0, i - from + 1).drop_last() =~= part.subrange(0, i - from));
            assert(part.subrange(0, i - from + 1).last() == chars@[i as int]);
            lemma_digits_nonneg_local(part.subrange(0, i - from));
        }
        if over {
            acc = bound as u128;
        } else {
            let next = acc * 10 + d;
            if next > bound as u128 {
                over = true;
            } else {
                acc = next;
            }
        }
        i = i + 1;
    }
    proof {
        assert(part.subrange(0, to - from) =~= part);
        assert forall|x: int| 0 <= x < part.len() implies is_digit_char(#[trigger] part[x]) by {
            assert(part[x] == chars@[from + x]);
        }
    }
    if over {
        None
    } else {
        Some(acc as u64)
    }
}

/// A decimal digit string has a non-negative value.
proof fn lemma_digits_nonneg_local(s: Seq<char>)
    requires
        forall|i: int| 0 <= i < s.len() ==> is_digit_char(#[trigger] s[i]),
    ensures
        crate::calendar::digits_value(s) >= 0,
    decreases s.len(),
{
    if s.len() > 0 {
        lemma_digits_nonneg_local(s.drop_last());
    }
}

/// Parse one query string, or drop it.
#[verifier::loop_isolation(false)]
fn parse_one_query(s: &str) -> (r: Option<QueryType>)
    ensures
        match r {
            Some(q) => spec_parse_query(s@) == Some(query_view(q)),
            None => spec_parse_query(s@) is None,
        },
{
    let chars = str_chars(s);
    let n = chars.len();
    let i = find_from(&chars, ':', 0);
    if i == n {
        return None;
    }
    let j = find_from(&chars, ':', i + 1);
    let mut value: Vec<char> = Vec::new();
    let mut x = i + 1;
    while x < j
        invariant
            i + 1 <= x <= j <= n,
            n == chars@.len(),
            value@ == chars@.subrange(i as int + 1, x as int),
        decreases j - x,
    {
        value.push(chars[x]);
        proof {
            assert(value@ =~= chars@.subrange(i as int + 1, x as int + 1));
        }
        x = x + 1;
    }
    let text = crate::dirinfo::common::str_string(s);
    let value_string = string_from_chars(&value);
    if crate::dirinfo::common::range_eq_str(&chars, 0, i, "name") {
        Some(QueryType::Name(text, value_string))
    } else if crate::dirinfo::common::range_eq_str(&chars, 0, i, "content") {
        Some(QueryType::Content(text, value_string))
    } else if crate::dirinfo::common::range_eq_str(&chars, 0, i, "larger") {
        match parse_value(&chars, i + 1, j, usize::MAX as u64) {
            Some(v) => Some(QueryType::Larger(text, v as usize)),
            None => None,
        }
    } else if crate::dirinfo::common::range_eq_str(&chars, 0, i, "smaller") {
        match parse_value(&chars, i + 1, j, usize::MAX as u64) {
            Some(v) => Some(QueryType::Smaller(text, v as usize)),
            None => None,
        }
    } else if crate::dirinfo::common::range_eq_str(&chars, 0, i, "newer") {
        match parse_value(&chars, i + 1, j, u64::MAX) {
            Some(v) => Some(QueryType::Newer(text, v)),
            None => None,
        }
    } else if crate::dirinfo::common::range_eq_str(&chars, 0, i, "older") {
        match parse_value(&chars, i + 1, j, u64::MAX) {
            Some(v) => Some(QueryType::Older(text, v)),
            None => None,
        }
    } else {
        None
    }
}

/// Parse a list of query strings, dropping malformed ones.
#[verifier::loop_isolation(false)]
fn parse_query_list(queries: &[&str]) -> (r: Vec<QueryType>)
    ensures
        queries_view(r@) == parse_queries(strs_view(queries@), 0),
{
    let n = queries.len();
    let mut out: Vec<QueryType> = Vec::new();
    let mut i: usize = 0;
    proof {
        assert(queries_view(out@) =~= Seq::<QueryView>::empty());
    }
    while i < n
        invariant
            i <= n,
            n == queries@.len(),
            parse_queries(strs_view(queries@), 0) == queries_view(out@) + parse_queries(
                strs_view(queries@),
                i as int,
            ),
        decreases n - i,
    {
        let ghost out0 = queries_view(out@);
        match parse_one_query(queries[i]) {
            Some(q) => {
                out.push(q);
                proof {
                    assert(queries_view(out@) =~= out0.push(query_view(out@.last())));
                    assert(queries_view(out@) + parse_queries(strs_view(queries@), i as int + 1)
                        =~= out0 + (seq![query_view(out@.last())] + parse_queries(
                        strs_view(queries@),
                        i as int + 1,
                    )));
                }
            },
            None => {
                proof {
                    assert(queries_view(out@) + parse_queries(strs_view(queries@), i as int + 1)
                        =~= out0 + (Seq::<QueryView>::empty() + parse_queries(
                        strs_view(queries@),
                        i as int + 1,
                    )));
                }
            },
        }
        i = i + 1;
    }
    proof {
        assert(queries_view(out@) + parse_queries(strs_view(queries@), n as int) =~= queries_view(
            out@,
        ));
    }
    out
}

/// Collect the search hits of the children into `out`, in tree order.
#[verifier::loop_isolation(false)]
fn search_dir_children(
    children: &Vec<Node>,
    queries: &Vec<QueryType>,
    out: &mut Vec<(String, String)>,
)
    ensures
        pairs_view(final(out)@) == pairs_view(old(out)@) + search_children(
            nodes_view(children@),
            0,
            queries_view(queries@),
        ),
    decreases children@,
{
    let ghost cv = nodes_view(children@);
    let ghost qv = queries_view(queries@);
    proof {
        lemma_nodes_view(children@);
    }
    let n = children.len();
    let mut i: usize = 0;
    proof {
        assert(pairs_view(out@) =~= pairs_view(out@) + Seq::<(Seq<char>, Seq<char>)>::empty());
    }
    while i < n
        invariant
            i <= n,
            n == children@.len(),
            pairs_view(out@) + search_children(cv, i as int, qv) == pairs_view(old(out)@)
                + search_children(cv, 0, qv),
        decreases n - i,
    {
        let ghost here = pairs_view(out@);
        proof {
            assert(cv[i as int] == node_view(children@[i as int]));
        }
        match &children[i] {
            Node::File(_) => {
                let nq = queries.len();
                let mut j: usize = 0;
                let mut hit: Option<usize> = None;
                while j < nq && hit.is_none()
                    invariant
                        j <= nq,
                        nq == queries@.len(),
                        match hit {
                            None => first_matching(qv, 0, cv[i as int]) == first_matching(
                                qv,
                                j as int,
                                cv[i as int],
                            ),
                            Some(m) => 0 <= m < nq && first_matching(qv, 0, cv[i as int])
                                == m as int,
                        },
                    decreases nq - j + (if hit is Some {
                        0int
                    } else {
                        1int
                    }),
                {
                    proof {
                        assert(qv[j as int] == query_view(queries@[j as int]));
                    }
                    if queries[j].matches(&children[i]) {
                        hit = Some(j);
                        proof {
                            assert(first_matching(qv, j as int, cv[i as int]) == j as int);
                        }
                    } else {
                        j = j + 1;
                    }
                }
                match hit {
                    Some(m) => {
                        let text = match &queries[m] {
                            QueryType::Name(t, _) => crate::dirinfo::common::str_string(t.as_str()),
                            QueryType::Content(t, _) => crate::dirinfo::common::str_string(
                                t.as_str(),
                            ),
                            QueryType::Larger(t, _) => crate::dirinfo::common::str_string(
                                t.as_str(),
                            ),
                            QueryType::Smaller(t, _) => crate::dirinfo::common::str_string(
                                t.as_str(),
                            ),
                            QueryType::Newer(t, _) => crate::dirinfo::common::str_string(
                                t.as_str(),
                            ),
                            QueryType::Older(t, _) => crate::dirinfo::common::str_string(
                                t.as_str(),
                            ),
                        };
                        let fname = match &children[i] {
                            Node::File(f) => crate::dirinfo::common::str_string(f.name.as_str()),
                            Node::Dir(d) => crate::dirinfo::common::str_string(d.name.as_str()),
                        };
                        out.push((text, fname));
                        proof {
                            assert(text@ == qv[m as int].text);
                            assert(pairs_view(out@) =~= here.push(
                                (qv[m as int].text, cv[i as int]->File_0.name),
                            ));
                            assert(pairs_view(out@) + search_children(cv, i as int + 1, qv)
                                =~= here + (seq![(qv[m as int].text, cv[i as int]->File_0.name)]
                                + search_children(cv, i as int + 1, qv)));
                        }
                    },
                    None => {
                        proof {
                            assert(first_matching(qv, 0, cv[i as int]) == qv.len());
                            assert(pairs_view(out@) + search_children(cv, i as int + 1, qv) =~= here
                                + (Seq::<(Seq<char>, Seq<char>)>::empty() + search_children(
                                cv,
                                i as int + 1,
                                qv,
                            )));
                        }
                    },
                }
            },
            Node::Dir(d) => {
                proof {
                    assert(decreases_to!(children@ => children@[i as int]));
                    assert(decreases_to!(children@[i as int] => *d));
                    assert(decreases_to!(*d => d.children));
                    assert(decreases_to!(d.children => d.children@));
                }
                search_dir_children(&d.children, queries, out);
                proof {
                    assert(cv[i as int] == NodeView::Dir(dir_view(*d)));
                    assert(pairs_view(out@) =~= here + search_children(
                        nodes_view(d.children@),
                        0,
                        qv,
                    ));
                    assert(pairs_view(out@) + search_children(cv, i as int + 1, qv) =~= here + (
                    search_children(nodes_view(d.children@), 0, qv) + search_children(
                        cv,
                        i as int + 1,
                        qv,
                    )));
                }
            },
        }
        i = i + 1;
    }
    proof {
        assert(search_children(cv, n as int, qv) =~= Seq::<(Seq<char>, Seq<char>)>::empty());
        assert(pairs_view(out@) =~= pairs_view(out@) + search_children(cv, n as int, qv));
        assert(pairs_view(out@) =~= pairs_view(old(out)@) + search_children(cv, 0, qv));
    }
}


/// Build a `MatchResult` from the collected hits: every hit's file path, in
/// order, and the distinct query texts, in first-appearance order.
#[verifier::loop_isolation(false)]
fn collect_result(pairs: &Vec<(String, String)>) -> (r: MatchResult)
    ensures
        r.nodes@.len() == pairs@.len(),
        forall|i: int| 0 <= i < pairs@.len() ==> (#[trigger] r.nodes@[i])@ == pairs_view(pairs@)[i].1,
        strings_view(r.queries@) == dedup(hit_texts(pairs_view(pairs@))),
{
    let mut queries_out: Vec<String> = Vec::new();
    let mut nodes_out: Vec<String> = Vec::new();
    let n = pairs.len();
    let mut i: usize = 0;
    proof {
        assert(pairs_view(pairs@.subrange(0, 0)) =~= Seq::<(Seq<char>, Seq<char>)>::empty());
        assert(hit_texts(pairs_view(pairs@.subrange(0, 0))) =~= Seq::<Seq<char>>::empty());
        assert(strings_view(queries_out@) =~= dedup(hit_texts(pairs_view(pairs@.subrange(0, 0)))));
    }
    while i < n
        invariant
            i <= n,
            n == pairs@.len(),
            nodes_out@.len() == i as int,
            forall|x: int| 0 <= x < i ==> (#[trigger] nodes_out@[x])@ == pairs_view(pairs@)[x].1,
            strings_view(queries_out@) == dedup(hit_texts(pairs_view(pairs@.subrange(0, i as int)))),
        decreases n - i,
    {
        proof {
            assert(pairs_view(pairs@)[i as int] == (pairs@[i as int].0@, pairs@[i as int].1@));
            assert(pairs_view(pairs@.subrange(0, i as int + 1)).drop_last() =~= pairs_view(
                pairs@.subrange(0, i as int),
            ));
            assert(hit_texts(pairs_view(pairs@.subrange(0, i as int + 1))).drop_last()
                =~= hit_texts(pairs_view(pairs@.subrange(0, i as int))));
            assert(hit_texts(pairs_view(pairs@.subrange(0, i as int + 1))).last() == pairs@[
                i as int
            ].0@);
        }
        let text = &pairs[i].0;
        let mut seen = false;
        let m = queries_out.len();
        let mut j: usize = 0;
        while j < m
            invariant
                j <= m,
                m == queries_out@.len(),
                seen == (exists|y: int| 0 <= y < j && (#[trigger] queries_out@[y])@ == text@),
            decreases m - j,
        {
            let a = crate::strutil::str_chars(queries_out[j].as_str());
            let b = crate::strutil::str_chars(text.as_str());
            if crate::dirinfo::common::chars_eq(&a, &b) {
                seen = true;
            }
            j = j + 1;
        }
        proof {
            assert(seen == strings_view(queries_out@).contains(text@)) by {
                if seen {
                    let y = choose|y: int| 0 <= y < m && (#[trigger] queries_out@[y])@ == text@;
                    assert(strings_view(queries_out@)[y] == text@);
                } else {
                    if strings_view(queries_out@).contains(text@) {
                        let y = choose|y: int|
                            0 <= y < strings_view(queries_out@).len() && strings_view(
                                queries_out@,
                            )[y] == text@;
                        assert(queries_out@[y]@ == text@);
                    }
                }
            }
        }
        if !seen {
            queries_out.push(crate::dirinfo::common::str_string(text.as_str()));
            proof {
                assert(strings_view(queries_out@) =~= dedup(
                    hit_texts(pairs_view(pairs@.subrange(0, i as int + 1))),
                ));
            }
        } else {
            proof {
                assert(strings_view(queries_out@) =~= dedup(
                    hit_texts(pairs_view(pairs@.subrange(0, i as int + 1))),
                ));
            }
        }
        nodes_out.push(crate::dirinfo::common::str_string(pairs[i].1.as_str()));
        i = i + 1;
    }
    proof {
        assert(pairs@.subrange(0, n as int) =~= pairs@);
    }
    MatchResult { queries: queries_out, nodes: nodes_out }
}

impl Dir {
    /// Run the parsed queries against this directory's subtree: every file
    /// below it that some query matches contributes its path, paired with
    /// its first matching query, in tree order.
    pub fn search(&self, queries: &Vec<QueryType>) -> (r: MatchResult)
        ensures
            ({
                let hits = search_children(
                    dir_view(*self).children,
                    0,
                    queries_view(queries@),
                );
                &&& r.nodes@.len() == hits.len()
                &&& (forall|i: int| 0 <= i < hits.len() ==> (#[trigger] r.nodes@[i])@ == hits[i].1)
                &&& strings_view(r.queries@) == dedup(hit_texts(hits))
            }),
    {
        let mut pairs: Vec<(String, String)> = Vec::new();
        search_dir_children(&self.children, queries, &mut pairs);
        proof {
            assert(pairs_view(pairs@) =~= search_children(
                dir_view(*self).children,
                0,
                queries_view(queries@),
            ));
        }
        collect_result(&pairs)
    }
}

/// The root of a path: the path itself when absolute, otherwise the path
/// with a leading separator.
pub open spec fn rootify(p: Seq<char>) -> Seq<char> {
    if p.len() > 0 && p[0] == '/' {
        p
    } else {
        seq!['/'] + p
    }
}

/// A path made absolute against a base directory: an absolute path stands,
/// and a relative one is appended to the base with a separator.
pub open spec fn absolutize(base: Seq<char>, p: Seq<char>) -> Seq<char> {
    if p.len() > 0 && p[0] == '/' {
        p
    } else {
        base + seq!['/'] + p
    }
}

/// Make `p` absolute against `base`.
#[verifier::loop_isolation(false)]
fn absolutize_chars(base: &Vec<char>, p: &Vec<char>) -> (r: Vec<char>)
    ensures
        r@ == absolutize(base@, p@),
{
    if p.len() > 0 {
        if p[0] == '/' {
            let mut r: Vec<char> = Vec::new();
            let mut i: usize = 0;
            let n = p.len();
            while i < n
                invariant
                    i <= n,
                    n == p@.len(),
                    r@ == p@.subrange(0, i as int),
                decreases n - i,
            {
                r.push(p[i]);
                proof {
                    assert(r@ =~= p@.subrange(0, i as int + 1));
                }
                i = i + 1;
            }
            proof {
                assert(r@ =~= p@);
            }
            return r;
        }
    }
    let mut r: Vec<char> = Vec::new();
    let nb = base.len();
    let mut i: usize = 0;
    while i < nb
        invariant
            i <= nb,
            nb == base@.len(),
            r@ == base@.subrange(0, i as int),
        decreases nb - i,
    {
        r.push(base[i]);
        proof {
            assert(r@ =~= base@.subrange(0, i as int + 1));
        }
        i = i + 1;
    }
    r.push('/');
    let np = p.len();
    let mut j: usize = 0;
    while j < np
        invariant
            j <= np,
            np == p@.len(),
            r@ == base@ + seq!['/'] + p@.subrange(0, j as int),
        decreases np - j,
    {
        r.push(p[j]);
        proof {
            assert(r@ =~= base@ + seq!['/'] + p@.subrange(0, j as int + 1));
        }
        j = j + 1;
    }
    proof {
        assert(base@ =~= base@.subrange(0, nb as int));
        assert(r@ =~= base@ + seq!['/'] + p@);
    }
    r
}

/// The file system: an optional root directory and the logical clock that
/// stamps creations.
#[derive(Debug)]
pub struct FileSystem {
    pub root: Option<Dir>,
    pub clock: u64,
}

/// The mathematical value of the root, if any.
pub open spec fn root_view(fs: FileSystem) -> Option<DirView> {
    match fs.root {
        Some(d) => Some(dir_view(d)),
        None => None,
    }
}

/// The clock after drawing one stamp.
pub open spec fn ticked(clock: u64) -> u64 {
    if clock < u64::MAX {
        (clock + 1) as u64
    } else {
        clock
    }
}

impl FileSystem {
    /// An empty file system: no root yet.
    pub fn new() -> (r: FileSystem)
        ensures
            r.root is None,
            r.clock == 0,
    {
        FileSystem { root: None, clock: 0 }
    }

    /// Draw a fresh creation stamp.
    fn next_stamp(&mut self) -> (r: u64)
        ensures
            r == old(self).clock,
            final(self).clock == ticked(old(self).clock),
            final(self).root == old(self).root,
    {
        let t = self.clock;
        if t < u64::MAX {
            self.clock = t + 1;
        }
        t
    }

    /// Create a directory at `path`. With no root yet, the path (made
    /// absolute) becomes the root; otherwise the path is resolved against
    /// the root and created under its parent, as `spec_mk_dir` states.
    pub fn mk_dir(&mut self, path: &str) -> (r: FsResult<()>)
        ensures
            final(self).clock == ticked(old(self).clock),
            match root_view(*old(self)) {
                None => r == Ok::<(), FileOrDirError>(()) && root_view(*final(self)) == Some(
                    DirView {
                        name: rootify(path@),
                        creation_time: old(self).clock,
                        children: Seq::<NodeView>::empty(),
                    },
                ),
                Some(rv) => ({
                    let (dv2, rr) = spec_mk_dir(rv, absolutize(rv.name, path@), old(self).clock);
                    r == rr && root_view(*final(self)) == Some(dv2)
                }),
            },
    {
        let stamp = self.next_stamp();
        let p = str_chars(path);
        match &mut self.root {
            Some(root) => {
                let base = str_chars(root.name.as_str());
                let pb = absolutize_chars(&base, &p);
                let rr = root.mk_dir_chars(&pb, stamp);
                rr
            },
            None => {
                let mut abs: Vec<char> = Vec::new();
                if p.len() == 0 || p[0] != '/' {
                    abs.push('/');
                }
                let mut i: usize = 0;
                let n = p.len();
                let ghost abs0 = abs@;
                while i < n
                    invariant
                        i <= n,
                        n == p@.len(),
                        abs@ == abs0 + p@.subrange(0, i as int),
                    decreases n - i,
                {
                    abs.push(p[i]);
                    proof {
                        assert(abs@ =~= abs0 + p@.subrange(0, i as int + 1));
                    }
                    i = i + 1;
                }
                proof {
                    assert(abs@ =~= rootify(p@));
                }
                let d = Dir {
                    name: string_from_chars(&abs),
                    creation_time: stamp,
                    children: Vec::new(),
                };
                proof {
                    assert(nodes_view(d.children@) =~= Seq::<NodeView>::empty());
                }
                self.root = Some(d);
                Ok(())
            },
        }
    }

    /// Remove the directory at `path` (resolved against the root): removing
    /// the empty root clears the file system, and otherwise the tree
    /// changes as `spec_rm_dir` states. Without a root, or for a non-empty
    /// root, or a missing path, the errors are those of `spec_rm_dir`.
    pub fn rm_dir(&mut self, path: &str) -> (r: FsResult<()>)
        ensures
            final(self).clock == old(self).clock,
            match root_view(*old(self)) {
                None => r == Err::<(), FileOrDirError>(FileOrDirError::ParentDoesNotExist)
                    && *final(self) == *old(self),
                Some(rv) => ({
                    let pb = absolutize(rv.name, path@);
                    if rv.name == pb {
                        if rv.children.len() > 0 {
                            r == Err::<(), FileOrDirError>(FileOrDirError::DirectoryNotEmpty)
                                && root_view(*final(self)) == Some(rv)
                        } else {
                            r == Ok::<(), FileOrDirError>(()) && root_view(*final(self)) is None
                        }
                    } else {
                        let (dv2, rr) = spec_rm_dir(rv, pb);
                        r == rr && root_view(*final(self)) == Some(dv2)
                    }
                }),
            },
    {
        let p = str_chars(path);
        let mut clear_root = false;
        let mut outcome: FsResult<()> = Err(FileOrDirError::ParentDoesNotExist);
        match &mut self.root {
            None => {
                return Err(FileOrDirError::ParentDoesNotExist);
            },
            Some(root) => {
                let base = str_chars(root.name.as_str());
                let pb = absolutize_chars(&base, &p);
                if crate::dirinfo::common::chars_eq(&base, &pb) {
                    if root.children.len() > 0 {
                        proof {
                            lemma_nodes_view(root.children@);
                        }
                        outcome = Err(FileOrDirError::DirectoryNotEmpty);
                    } else {
                        proof {
                            lemma_nodes_view(root.children@);
                        }
                        clear_root = true;
                        outcome = Ok(());
                    }
                } else {
                    outcome = root.rm_dir_chars(&pb);
                }
            },
        }
        if clear_root {
            self.root = None;
        }
        outcome
    }

    /// Add `file` to the file system: only its path matters, and an empty
    /// file is created at that path (resolved against the root), stamped by
    /// the clock, as `spec_new_file` states. The root's own path reports
    /// `AlreadyExists`; without a root nothing can be added.
    pub fn new_file(&mut self, file: File) -> (r: FsResult<()>)
        ensures
            match root_view(*old(self)) {
                None => r == Err::<(), FileOrDirError>(FileOrDirError::ParentDoesNotExist)
                    && *final(self) == *old(self),
                Some(rv) => ({
                    let pb = absolutize(rv.name, file.name@);
                    &&& final(self).clock == ticked(old(self).clock)
                    &&& if rv.name == pb {
                        r == Err::<(), FileOrDirError>(FileOrDirError::AlreadyExists) && root_view(
                            *final(self),
                        ) == Some(rv)
                    } else {
                        let (dv2, rr) = spec_new_file(rv, pb, old(self).clock);
                        r == rr && root_view(*final(self)) == Some(dv2)
                    }
                }),
            },
    {
        let p = str_chars(file.name.as_str());
        match &mut self.root {
            None => {
                return Err(FileOrDirError::ParentDoesNotExist);
            },
            Some(_) => {},
        }
        let stamp = self.next_stamp();
        match &mut self.root {
            None => Err(FileOrDirError::ParentDoesNotExist),
            Some(root) => {
                let base = str_chars(root.name.as_str());
                let pb = absolutize_chars(&base, &p);
                if crate::dirinfo::common::chars_eq(&base, &pb) {
                    return Err(FileOrDirError::AlreadyExists);
                }
                root.new_file_chars(&pb, stamp)
            },
        }
    }

    /// Remove the file at `path` (resolved against the root), as
    /// `spec_rm_file` states; without a root nothing can be removed.
    pub fn rm_file(&mut self, path: &str) -> (r: FsResult<()>)
        ensures
            final(self).clock == old(self).clock,
            match root_view(*old(self)) {
                None => r == Err::<(), FileOrDirError>(FileOrDirError::ParentDoesNotExist)
                    && *final(self) == *old(self),
                Some(rv) => ({
                    let (dv2, rr) = spec_rm_file(rv, absolutize(rv.name, path@));
                    r == rr && root_view(*final(self)) == Some(dv2)
                }),
            },
    {
        let p = str_chars(path);
        match &mut self.root {
            None => Err(FileOrDirError::ParentDoesNotExist),
            Some(root) => {
                let base = str_chars(root.name.as_str());
                let pb = absolutize_chars(&base, &p);
                root.rm_file_chars(&pb)
            },
        }
    }

    /// Run the textual queries against the tree: each query is
    /// `keyword:value`, with keywords `name`, `content`, `larger`,
    /// `smaller`, `newer` and `older`; malformed queries are dropped. The
    /// result lists the distinct queries that matched some file, and the
    /// path of every matching file, in tree order; a file is matched by its
    /// first matching query.
    #[verifier::loop_isolation(false)]
    pub fn search(&self, queries: &[&str]) -> (r: MatchResult)
        ensures
            ({
                let parsed = parse_queries(strs_view(queries@), 0);
                let hits = match root_view(*self) {
                    None => Seq::<(Seq<char>, Seq<char>)>::empty(),
                    Some(rv) => search_children(rv.children, 0, parsed),
                };
                &&& r.nodes@.len() == hits.len()
                &&& (forall|i: int| 0 <= i < hits.len() ==> (#[trigger] r.nodes@[i])@ == hits[i].1)
                &&& strings_view(r.queries@) == dedup(hit_texts(hits))
            }),
    {
        let parsed = parse_query_list(queries);
        let ghost pq = parse_queries(strs_view(queries@), 0);
        let mut pairs: Vec<(String, String)> = Vec::new();
        match &self.root {
            None => {},
            Some(root) => {
                search_dir_children(&root.children, &parsed, &mut pairs);
            },
        }
        let ghost hits = match root_view(*self) {
            None => Seq::<(Seq<char>, Seq<char>)>::empty(),
            Some(rv) => search_children(rv.children, 0, pq),
        };
        proof {
            assert(pairs_view(pairs@) =~= hits);
        }
        collect_result(&pairs)
    }

    /// Find the file at `path` (resolved against the root), if any.
    pub fn get_file(&self, path: &str) -> (r: Option<&File>)
        ensures
            match root_view(*self) {
                None => r is None,
                Some(rv) => match r {
                    Some(f) => spec_get_file(rv, absolutize(rv.name, path@)) == Some(file_view(*f)),
                    None => spec_get_file(rv, absolutize(rv.name, path@)) is None,
                },
            },
    {
        let p = str_chars(path);
        match &self.root {
            None => None,
            Some(root) => {
                let base = str_chars(root.name.as_str());
                let pb = absolutize_chars(&base, &p);
                root.get_file_chars(&pb)
            },
        }
    }
}

} // verus!
