//! A file of the simulated file system: a full path, contents, a creation
//! stamp, and a kind derived from the file extension.

use vstd::prelude::*;
use crate::strutil::{str_chars, string_from_chars};
use crate::dirinfo::common::{range_eq_str, FileOrDirError, FileType, FsResult, last_slash};

verus! {

/// A simulated file.
#[derive(Debug)]
pub struct File {
    pub name: String,
    pub content: Vec<u8>,
    pub creation_time: u64,
    pub type_: FileType,
}

/// The mathematical value of a `File`.
pub struct FileView {
    pub name: Seq<char>,
    pub content: Seq<u8>,
    pub creation_time: u64,
    pub type_: FileType,
}

/// The mathematical value of `f`.
pub open spec fn file_view(f: File) -> FileView {
    FileView { name: f.name@, content: f.content@, creation_time: f.creation_time, type_: f.type_ }
}

/// The index of the last `.` of `p` at or before `j`, or -1 when there is
/// none.
pub open spec fn last_dot(p: Seq<char>, j: int) -> int
    decreases j + 1,
{
    if j < 0 || j >= p.len() {
        -1
    } else if p[j] == '.' {
        j
    } else {
        last_dot(p, j - 1)
    }
}

/// The final path component of `p`: everything after the last separator.
pub open spec fn final_component(p: Seq<char>) -> Seq<char> {
    p.subrange(last_slash(p, p.len() - 1) + 1, p.len() as int)
}

/// The extension of the final component of `p`: what follows its last `.`,
/// unless the component starts with that dot or has none.
pub open spec fn extension_of(p: Seq<char>) -> Seq<char> {
    let fname = final_component(p);
    let d = last_dot(fname, fname.len() - 1);
    if d <= 0 {
        Seq::empty()
    } else {
        fname.subrange(d + 1, fname.len() as int)
    }
}

/// The extensions treated as text.
pub open spec fn is_text_extension(ext: Seq<char>) -> bool {
    ||| ext == "txt"@
    ||| ext == "md"@
    ||| ext == "rs"@
    ||| ext == "py"@
    ||| ext == "js"@
    ||| ext == "html"@
    ||| ext == "css"@
    ||| ext == "json"@
    ||| ext == "toml"@
    ||| ext == "yaml"@
    ||| ext == "yml"@
}

/// The kind a path denotes, from its extension.
pub open spec fn type_for(p: Seq<char>) -> FileType {
    if is_text_extension(extension_of(p)) {
        FileType::Text
    } else {
        FileType::Binary
    }
}

/// The index one past the last `/` of `p`, or 0 when there is none.
fn component_start(p: &Vec<char>) -> (r: usize)
    ensures
        r as int == last_slash(p@, p@.len() - 1) + 1,
        r <= p@.len(),
{
    let n = p.len();
    let mut j = n;
    while j > 0
        invariant
            j <= n,
            n == p@.len(),
            last_slash(p@, n - 1) == last_slash(p@, j as int - 1),
        decreases j,
    {
        j = j - 1;
        if p[j] == '/' {
            proof {
                assert(last_slash(p@, j as int) == j as int);
            }
            return j + 1;
        }
        proof {
            assert(last_slash(p@, j as int) == last_slash(p@, j as int - 1));
        }
    }
    proof {
        assert(last_slash(p@, -1) == -1);
    }
    0
}

/// Where the extension of the final component `p[from..]` begins: one past
/// the component's last `.`, or the length of `p` when the component has no
/// extension.
fn ext_start(p: &Vec<char>, from: usize) -> (r: usize)
    requires
        from <= p@.len(),
        from as int == last_slash(p@, p@.len() - 1) + 1,
    ensures
        ({
            let fname = final_component(p@);
            let d = last_dot(fname, fname.len() - 1);
            if d <= 0 {
                r == p@.len()
            } else {
                r as int == from + d + 1
            }
        }),
        from <= r <= p@.len(),
{
    let ghost fname = final_component(p@);
    let n = p.len();
    let mut j = n;
    proof {
        assert(forall|x: int| 0 <= x < fname.len() ==> fname[x] == p@[from + x]);
    }
    while j > from
        invariant
            from <= j <= n,
            n == p@.len(),
            fname == final_component(p@),
            fname.len() == n - from,
            forall|x: int| 0 <= x < fname.len() ==> fname[x] == p@[from + x],
            last_dot(fname, fname.len() - 1) == last_dot(fname, j - from - 1),
        decreases j,
    {
        j = j - 1;
        if p[j] == '.' {
            proof {
                assert(fname[j - from] == '.');
                assert(last_dot(fname, j - from) == j - from);
            }
            if j == from {
                return n;
            }
            return j + 1;
        }
        proof {
            assert(fname[j - from] != '.');
            assert(last_dot(fname, j - from) == last_dot(fname, j - from - 1));
        }
    }
    proof {
        assert(last_dot(fname, -1) == -1);
    }
    n
}

/// The kind a path denotes, from its extension.
pub(crate) fn file_type_for(p: &Vec<char>) -> (r: FileType)
    ensures
        r == type_for(p@),
{
    let from = component_start(p);
    let e = ext_start(p, from);
    let ghost fname = final_component(p@);
    let ghost d = last_dot(fname, fname.len() - 1);
    if e == p.len() {
        proof {
            if d <= 0 {
                assert(extension_of(p@) =~= Seq::<char>::empty());
            } else {
                assert(extension_of(p@) =~= fname.subrange(d + 1, fname.len() as int));
            }
            assert(extension_of(p@) =~= p@.subrange(p@.len() as int, p@.len() as int));
        }
        let is_text = range_is_text(p, p.len(), p.len());
        if is_text {
            FileType::Text
        } else {
            FileType::Binary
        }
    } else {
        proof {
            assert(d > 0);
            assert(extension_of(p@) =~= fname.subrange(d + 1, fname.len() as int));
            assert forall|x: int|
                0 <= x < extension_of(p@).len() implies extension_of(p@)[x] == p@[e + x] by {
                assert(fname[d + 1 + x] == p@[from + d + 1 + x]);
            }
            assert(extension_of(p@) =~= p@.subrange(e as int, p@.len() as int));
        }
        let is_text = range_is_text(p, e, p.len());
        if is_text {
            FileType::Text
        } else {
            FileType::Binary
        }
    }
}

/// Whether `p[from..to]` is one of the text extensions.
fn range_is_text(p: &Vec<char>, from: usize, to: usize) -> (r: bool)
    requires
        from <= to <= p@.len(),
    ensures
        r == is_text_extension(p@.subrange(from as int, to as int)),
{
    if range_eq_str(p, from, to, "txt") {
        return true;
    }
    if range_eq_str(p, from, to, "md") {
        return true;
    }
    if range_eq_str(p, from, to, "rs") {
        return true;
    }
    if range_eq_str(p, from, to, "py") {
        return true;
    }
    if range_eq_str(p, from, to, "js") {
        return true;
    }
    if range_eq_str(p, from, to, "html") {
        return true;
    }
    if range_eq_str(p, from, to, "css") {
        return true;
    }
    if range_eq_str(p, from, to, "json") {
        return true;
    }
    if range_eq_str(p, from, to, "toml") {
        return true;
    }
    if range_eq_str(p, from, to, "yaml") {
        return true;
    }
    if range_eq_str(p, from, to, "yml") {
        return true;
    }
    false
}

impl File {
    /// The full path of the file.
    pub fn name(&self) -> (r: &str)
        ensures
            r@ == self.name@,
    {
        self.name.as_str()
    }

    /// Whether the file holds text or binary data.
    pub fn filetype(&self) -> (r: &FileType)
        ensures
            *r == self.type_,
    {
        &self.type_
    }

    /// The raw contents.
    pub fn content(&self) -> (r: &[u8])
        ensures
            r@ == self.content@,
    {
        self.content.as_slice()
    }

    /// The creation stamp.
    pub fn creation_time(&self) -> (r: u64)
        ensures
            r == self.creation_time,
    {
        self.creation_time
    }

    /// The final component of the file's path, or `InvalidUtf8` when the
    /// path ends in a separator and has no component.
    pub fn filename(&self) -> (r: FsResult<String>)
        ensures
            match r {
                Ok(s) => final_component(self.name@).len() > 0 && s@ == final_component(self.name@),
                Err(e) => final_component(self.name@).len() == 0 && e
                    == FileOrDirError::InvalidUtf8,
            },
    {
        let chars = str_chars(self.name.as_str());
        let from = component_start(&chars);
        let n = chars.len();
        if from == n {
            proof {
                assert(final_component(self.name@).len() == 0);
            }
            return Err(FileOrDirError::InvalidUtf8);
        }
        let mut out: Vec<char> = Vec::new();
        let mut x = from;
        while x < n
            invariant
                from <= x <= n,
                n == chars@.len(),
                out@ == chars@.subrange(from as int, x as int),
            decreases n - x,
        {
            out.push(chars[x]);
            proof {
                assert(out@ =~= chars@.subrange(from as int, x as int + 1));
            }
            x = x + 1;
        }
        proof {
            assert(out@ =~= final_component(self.name@));
        }
        Ok(string_from_chars(&out))
    }

    /// A fresh empty text file at the given path, with creation stamp zero.
    pub fn from_name(name: &str) -> (r: File)
        ensures
            file_view(r) == (FileView {
                name: name@,
                content: Seq::<u8>::empty(),
                creation_time: 0u64,
                type_: FileType::Text,
            }),
    {
        let r = File {
            name: crate::dirinfo::common::str_string(name),
            content: Vec::new(),
            creation_time: 0,
            type_: FileType::Text,
        };
        proof {
            assert(r.content@ =~= Seq::<u8>::empty());
        }
        r
    }

    /// A fresh empty file at the given path with the given creation stamp;
    /// its kind follows the path's extension.
    pub fn empty_from_parts(path: &str, creation_time: u64) -> (r: FsResult<File>)
        ensures
            match r {
                Ok(f) => file_view(f) == (FileView {
                    name: path@,
                    content: Seq::<u8>::empty(),
                    creation_time: creation_time,
                    type_: type_for(path@),
                }),
                Err(_) => false,
            },
    {
        let chars = str_chars(path);
        let t = file_type_for(&chars);
        let r = File {
            name: crate::dirinfo::common::str_string(path),
            content: Vec::new(),
            creation_time,
            type_: t,
        };
        proof {
            assert(r.content@ =~= Seq::<u8>::empty());
        }
        Ok(r)
    }
}

} // verus!
