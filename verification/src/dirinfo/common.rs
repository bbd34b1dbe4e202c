//! Shared pieces of the file-system simulator: the file kinds, the error
//! type, and the path arithmetic over `/`-separated path strings.

use vstd::prelude::*;

verus! {

/// Whether a file holds text or binary data, judged from its extension.
#[derive(Clone, Copy, Debug, PartialEq, Eq, Structural)]
pub enum FileType {
    Text,
    Binary,
}

/// Why a file-system operation failed.
#[derive(Clone, Copy, Debug, PartialEq, Eq, Structural)]
pub enum FileOrDirError {
    /// An underlying read failed; reported only by callers that do real
    /// reading, never by the simulator itself.
    IoError,
    /// A timestamp could not be computed; reported only by callers that
    /// read real clocks.
    SystemTimeError,
    InvalidUtf8,
    AlreadyExists,
    ParentDoesNotExist,
    DirectoryNotEmpty,
    IsDirectory,
}

impl FileOrDirError {
    /// The human-readable description of the error.
    pub fn message(&self) -> (r: String)
        ensures
            *self == FileOrDirError::AlreadyExists ==> r@ =~= "File or directory already exists"@,
    {
        match self {
            FileOrDirError::IoError => str_string("IO error"),
            FileOrDirError::SystemTimeError => str_string("System time error"),
            FileOrDirError::InvalidUtf8 => str_string("Invalid UTF-8 in path"),
            FileOrDirError::AlreadyExists => str_string("File or directory already exists"),
            FileOrDirError::ParentDoesNotExist => str_string("Parent directory does not exist"),
            FileOrDirError::DirectoryNotEmpty => str_string("Directory is not empty"),
            FileOrDirError::IsDirectory => str_string("Is a directory"),
        }
    }
}

/// An owned copy of a string slice.
pub fn str_string(s: &str) -> (r: String)
    ensures
        r@ == s@,
{
    s.to_owned()
}

/// A shorthand for results of file-system operations.
pub type FsResult<T> = Result<T, FileOrDirError>;

/// Whether path `p` starts with path `prefix`, component-wise: either the
/// two are equal, or `prefix` is followed in `p` by a separator. Paths are
/// `/`-separated and never end in a separator.
pub open spec fn path_starts_with(p: Seq<char>, prefix: Seq<char>) -> bool {
    p == prefix || (p.len() > prefix.len() && p.subrange(0, prefix.len() as int) == prefix && p[prefix.len() as int]
        == '/')
}

/// The index of the last `/` of `p`, or -1 when there is none.
pub open spec fn last_slash(p: Seq<char>, j: int) -> int
    decreases j + 1,
{
    if j < 0 || j >= p.len() {
        -1
    } else if p[j] == '/' {
        j
    } else {
        last_slash(p, j - 1)
    }
}

/// The last-separator scan stays within its bounds.
pub proof fn lemma_last_slash_bounds(p: Seq<char>, j: int)
    requires
        j >= -1,
    ensures
        -1 <= last_slash(p, j) <= j,
        last_slash(p, j) < p.len(),
    decreases j + 1,
{
    if 0 <= j < p.len() && p[j] != '/' {
        lemma_last_slash_bounds(p, j - 1);
    }
}

/// The parent path of `p`, mirroring the standard component rules for
/// normalized paths: the root and the empty path have none; a bare name has
/// the empty parent; `/name` has the root; otherwise everything before the
/// last separator.
pub open spec fn parent_of(p: Seq<char>) -> Option<Seq<char>> {
    if p.len() == 0 || p == seq!['/'] {
        None
    } else {
        let i = last_slash(p, p.len() - 1);
        if i == -1 {
            Some(Seq::empty())
        } else if i == 0 {
            Some(seq!['/'])
        } else {
            Some(p.subrange(0, i))
        }
    }
}

/// Whether `p` starts with `prefix`, component-wise.
pub fn starts_with_path(p: &Vec<char>, prefix: &Vec<char>) -> (r: bool)
    ensures
        r == path_starts_with(p@, prefix@),
{
    let np = p.len();
    let nq = prefix.len();
    if np < nq {
        proof {
            assert(!(p@ =~= prefix@));
        }
        return false;
    }
    let mut i: usize = 0;
    while i < nq
        invariant
            i <= nq <= np,
            np == p@.len(),
            nq == prefix@.len(),
            forall|x: int| 0 <= x < i ==> p@[x] == prefix@[x],
        decreases nq - i,
    {
        if p[i] != prefix[i] {
            proof {
                assert(p@.subrange(0, nq as int)[i as int] != prefix@[i as int]);
                assert(!(p@ =~= prefix@));
            }
            return false;
        }
        i = i + 1;
    }
    proof {
        assert(p@.subrange(0, nq as int) =~= prefix@);
    }
    if np == nq {
        proof {
            assert(p@ =~= prefix@);
        }
        true
    } else {
        p[nq] == '/'
    }
}

/// The index of the last `/` of `p`, or the length of `p` when there is
/// none.
fn rfind_slash(p: &Vec<char>) -> (r: usize)
    ensures
        p@.len() > 0 ==> r as int == (if last_slash(p@, p@.len() - 1) == -1 {
            p@.len() as int
        } else {
            last_slash(p@, p@.len() - 1)
        }),
        p@.len() == 0 ==> r == 0,
        r <= p@.len(),
{
    let n = p.len();
    let mut j = n;
    while j > 0
        invariant
            j <= n,
            n == p@.len(),
            last_slash(p@, n - 1) == last_slash(p@, j as int - 1),
        decreases j,
    {
        j = j - 1;
        if p[j] == '/' {
            proof {
                assert(last_slash(p@, j as int) == j as int);
            }
            return j;
        }
        proof {
            assert(last_slash(p@, j as int) == last_slash(p@, j as int - 1));
        }
    }
    proof {
        assert(last_slash(p@, -1) == -1);
    }
    n
}

/// The parent path of `p`, if it has one.
pub fn parent_path(p: &Vec<char>) -> (r: Option<Vec<char>>)
    ensures
        match r {
            Some(q) => parent_of(p@) == Some(q@),
            None => parent_of(p@) is None,
        },
{
    let n = p.len();
    if n == 0 {
        return None;
    }
    if n == 1 && p[0] == '/' {
        proof {
            assert(p@ =~= seq!['/']);
        }
        return None;
    }
    proof {
        if p@ =~= seq!['/'] {
            assert(p@.len() == 1);
            assert(p@[0] == seq!['/'][0]);
            assert(seq!['/'][0] == '/');
            assert(false);
        }
    }
    let i = rfind_slash(p);
    proof {
        lemma_last_slash_bounds(p@, p@.len() - 1);
    }
    if i == n {
        let empty: Vec<char> = Vec::new();
        proof {
            assert(empty@ =~= Seq::<char>::empty());
            assert(parent_of(p@) == Some(empty@));
        }
        Some(empty)
    } else if i == 0 {
        let mut root: Vec<char> = Vec::new();
        root.push('/');
        proof {
            assert(root@ =~= seq!['/']);
            assert(parent_of(p@) == Some(root@));
        }
        Some(root)
    } else {
        let mut q: Vec<char> = Vec::new();
        let mut x: usize = 0;
        while x < i
            invariant
                x <= i < n,
                n == p@.len(),
                q@ == p@.subrange(0, x as int),
            decreases i - x,
        {
            q.push(p[x]);
            proof {
                assert(q@ =~= p@.subrange(0, x as int + 1));
            }
            x = x + 1;
        }
        Some(q)
    }
}

/// Whether two character vectors hold the same characters.
pub fn chars_eq(a: &Vec<char>, b: &Vec<char>) -> (r: bool)
    ensures
        r == (a@ =~= b@),
{
    let na = a.len();
    if na != b.len() {
        return false;
    }
    let mut i: usize = 0;
    while i < na
        invariant
            i <= na,
            na == a@.len() == b@.len(),
            forall|x: int| 0 <= x < i ==> a@[x] == b@[x],
        decreases na - i,
    {
        if a[i] != b[i] {
            return false;
        }
        i = i + 1;
    }
    true
}

/// Whether `chars[from..to]` holds exactly the characters of `lit`.
pub fn range_eq_str(chars: &Vec<char>, from: usize, to: usize, lit: &str) -> (r: bool)
    requires
        from <= to <= chars@.len(),
    ensures
        r == (chars@.subrange(from as int, to as int) == lit@),
{
    let n = lit.unicode_len();
    if n != to - from {
        proof {
            assert(chars@.subrange(from as int, to as int).len() != lit@.len());
        }
        return false;
    }
    let mut i: usize = 0;
    while i < n
        invariant
            i <= n,
            n == lit@.len(),
            from + n <= to <= chars@.len(),
            n == to - from,
            forall|x: int| 0 <= x < i ==> chars@[from + x] == lit@[x],
        decreases n - i,
    {
        if chars[from + i] != lit.get_char(i) {
            proof {
                assert(chars@.subrange(from as int, to as int)[i as int] != lit@[i as int]);
            }
            return false;
        }
        i = i + 1;
    }
    proof {
        assert(chars@.subrange(from as int, to as int) =~= lit@);
    }
    true
}

} // verus!
