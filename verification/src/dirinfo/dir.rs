//! A directory of the simulated file system, with the tree operations.

use vstd::prelude::*;
use crate::dirinfo::common::{FileOrDirError, FsResult};
use crate::dirinfo::file::{File, FileView, file_view};
use crate::dirinfo::node::Node;

verus! {

/// A simulated directory: a full path, a creation stamp, and child nodes.
#[derive(Debug)]
pub struct Dir {
    pub name: String,
    pub creation_time: u64,
    pub children: Vec<Node>,
}

/// The mathematical value of a directory.
pub struct DirView {
    pub name: Seq<char>,
    pub creation_time: u64,
    pub children: Seq<NodeView>,
}

/// The mathematical value of a node.
pub enum NodeView {
    File(FileView),
    Dir(DirView),
}

/// The mathematical value of `n`.
pub open spec fn node_view(n: Node) -> NodeView
    decreases n,
{
    match n {
        Node::File(f) => NodeView::File(file_view(f)),
        Node::Dir(d) => NodeView::Dir(dir_view(d)),
    }
}

/// The mathematical values of a child list, in order.
pub open spec fn nodes_view(children: Seq<Node>) -> Seq<NodeView>
    decreases children,
{
    if children.len() == 0 {
        Seq::empty()
    } else {
        nodes_view(children.drop_last()).push(node_view(children.last()))
    }
}

/// The mathematical value of `d`.
pub open spec fn dir_view(d: Dir) -> DirView
    decreases d,
{
    DirView { name: d.name@, creation_time: d.creation_time, children: nodes_view(d.children@) }
}

/// The view of a child list maps the view of each child, in place.
pub proof fn lemma_nodes_view(children: Seq<Node>)
    ensures
        nodes_view(children).len() == children.len(),
        forall|i: int|
            0 <= i < children.len() ==> #[trigger] nodes_view(children)[i] == node_view(
                children[i],
            ),
    decreases children.len(),
{
    if children.len() > 0 {
        lemma_nodes_view(children.drop_last());
        assert forall|i: int|
            0 <= i < children.len() implies #[trigger] nodes_view(children)[i] == node_view(
            children[i],
        ) by {
            if i < children.len() - 1 {
                assert(children.drop_last()[i] == children[i]);
            }
        }
    }
}

/// The path of a node.
pub open spec fn node_name(n: NodeView) -> Seq<char> {
    match n {
        NodeView::File(f) => f.name,
        NodeView::Dir(d) => d.name,
    }
}

/// Whether some child of the list bears the given path.
pub open spec fn has_child_named(children: Seq<NodeView>, path: Seq<char>) -> bool {
    exists|i: int| 0 <= i < children.len() && node_name(#[trigger] children[i]) == path
}

/// What `mk_dir` does to a directory: under the parent named by the path a
/// fresh empty directory appears, unless the path leads outside this
/// directory (`ParentDoesNotExist`), has no parent (`InvalidUtf8`), or is
/// already taken (`AlreadyExists`).
pub open spec fn spec_mk_dir(d: DirView, path: Seq<char>, ctime: u64) -> (DirView, FsResult<()>)
    decreases d, 2int, 0int,
{
    if !crate::dirinfo::common::path_starts_with(path, d.name) {
        (d, Err(FileOrDirError::ParentDoesNotExist))
    } else {
        match crate::dirinfo::common::parent_of(path) {
            None => (d, Err(FileOrDirError::InvalidUtf8)),
            Some(par) => {
                if par == d.name {
                    if has_child_named(d.children, path) {
                        (d, Err(FileOrDirError::AlreadyExists))
                    } else {
                        (
                            DirView {
                                name: d.name,
                                creation_time: d.creation_time,
                                children: d.children.push(
                                    NodeView::Dir(
                                        DirView {
                                            name: path,
                                            creation_time: ctime,
                                            children: Seq::empty(),
                                        },
                                    ),
                                ),
                            },
                            Ok(()),
                        )
                    }
                } else {
                    let (ch2, r) = mk_dir_children(d.children, 0, path, ctime);
                    (DirView { name: d.name, creation_time: d.creation_time, children: ch2 }, r)
                }
            },
        }
    }
}

/// Try `mk_dir` on the child directories from `i` onwards, in order: the
/// first child that succeeds or fails with anything other than
/// `ParentDoesNotExist` decides; otherwise the scan continues, and running
/// out of children means the parent does not exist here.
pub open spec fn mk_dir_children(children: Seq<NodeView>, i: int, path: Seq<char>, ctime: u64) -> (
    Seq<NodeView>,
    FsResult<()>,
)
    decreases children, 1int, children.len() - i,
{
    if i < 0 || i >= children.len() {
        (children, Err(FileOrDirError::ParentDoesNotExist))
    } else {
        match children[i] {
            NodeView::File(_) => mk_dir_children(children, i + 1, path, ctime),
            NodeView::Dir(dv) => {
                let (dv2, r) = spec_mk_dir(dv, path, ctime);
                match r {
                    Ok(()) => (children.update(i, NodeView::Dir(dv2)), Ok(())),
                    Err(FileOrDirError::ParentDoesNotExist) => mk_dir_children(
                        children,
                        i + 1,
                        path,
                        ctime,
                    ),
                    Err(e) => (children, Err(e)),
                }
            },
        }
    }
}

/// A failed `mk_dir` leaves the directory as it was.
proof fn lemma_mk_dir_err_unchanged(d: DirView, path: Seq<char>, ctime: u64)
    ensures
        spec_mk_dir(d, path, ctime).1 is Err ==> spec_mk_dir(d, path, ctime).0 == d,
    decreases d, 2int, 0int,
{
    if crate::dirinfo::common::path_starts_with(path, d.name) {
        match crate::dirinfo::common::parent_of(path) {
            None => {},
            Some(par) => {
                if par != d.name {
                    lemma_mk_children_err_unchanged(d.children, 0, path, ctime);
                }
            },
        }
    }
}

/// A failed scan over the children leaves them as they were.
proof fn lemma_mk_children_err_unchanged(children: Seq<NodeView>, i: int, path: Seq<char>, ctime: u64)
    ensures
        mk_dir_children(children, i, path, ctime).1 is Err ==> mk_dir_children(
            children,
            i,
            path,
            ctime,
        ).0 == children,
    decreases children, 1int, children.len() - i,
{
    if 0 <= i < children.len() {
        match children[i] {
            NodeView::File(_) => {
                lemma_mk_children_err_unchanged(children, i + 1, path, ctime);
            },
            NodeView::Dir(dv) => {
                lemma_mk_dir_err_unchanged(dv, path, ctime);
                lemma_mk_children_err_unchanged(children, i + 1, path, ctime);
            },
        }
    }
}

impl Dir {
    /// The full path of the directory.
    pub fn name(&self) -> (r: &str)
        ensures
            r@ == self.name@,
    {
        self.name.as_str()
    }

    /// The creation stamp.
    pub fn creation_time(&self) -> (r: u64)
        ensures
            r == self.creation_time,
    {
        self.creation_time
    }

    /// The child nodes, in creation order.
    pub fn children(&self) -> (r: &Vec<Node>)
        ensures
            r@ == self.children@,
    {
        &self.children
    }

    /// A fresh empty directory at the given path with the given creation
    /// stamp.
    pub fn empty_from_parts(name: &str, creation_time: u64) -> (r: FsResult<Dir>)
        ensures
            match r {
                Ok(d) => dir_view(d) == (DirView {
                    name: name@,
                    creation_time: creation_time,
                    children: Seq::<NodeView>::empty(),
                }),
                Err(_) => false,
            },
    {
        let d = Dir {
            name: crate::dirinfo::common::str_string(name),
            creation_time,
            children: Vec::new(),
        };
        proof {
            assert(nodes_view(d.children@) =~= Seq::<NodeView>::empty());
        }
        Ok(d)
    }

    /// Create an empty directory at `path` under this directory, stamping it
    /// `creation_time`. The parent named in the path must already exist
    /// below this directory, and nothing may bear the path yet; on failure
    /// the tree is unchanged, as `spec_mk_dir` states.
    pub fn mk_dir(&mut self, path: &str, creation_time: u64) -> (r: FsResult<()>)
        ensures
            ({
                let (dv2, rr) = spec_mk_dir(dir_view(*old(self)), path@, creation_time);
                r == rr && dir_view(*final(self)) == dv2
            }),
    {
        let p = crate::strutil::str_chars(path);
        self.mk_dir_chars(&p, creation_time)
    }

    /// `mk_dir` on a path already split into characters.
    #[verifier::loop_isolation(false)]
    pub(crate) fn mk_dir_chars(&mut self, path: &Vec<char>, creation_time: u64) -> (r: FsResult<
        (),
    >)
        ensures
            ({
                let (dv2, rr) = spec_mk_dir(dir_view(*old(self)), path@, creation_time);
                r == rr && dir_view(*final(self)) == dv2
            }),
        decreases dir_view(*old(self)),
    {
        let ghost ov = dir_view(*old(self));
        let nm = crate::strutil::str_chars(self.name.as_str());
        if !crate::dirinfo::common::starts_with_path(path, &nm) {
            return Err(FileOrDirError::ParentDoesNotExist);
        }
        let par = match crate::dirinfo::common::parent_path(path) {
            None => {
                return Err(FileOrDirError::InvalidUtf8);
            },
            Some(q) => q,
        };
        proof {
            lemma_nodes_view(self.children@);
        }
        if crate::dirinfo::common::chars_eq(&par, &nm) {
            let n = self.children.len();
            let mut i: usize = 0;
            while i < n
                invariant
                    i <= n,
                    forall|x: int| 0 <= x < i ==> node_name(ov.children[x]) != path@,
                decreases n - i,
            {
                proof {
                    assert(ov.children[i as int] == node_view(self.children@[i as int]));
                }
                if node_has_name(&self.children[i], path) {
                    proof {
                        assert(node_name(ov.children[i as int]) == path@);
                        assert(has_child_named(ov.children, path@));
                    }
                    return Err(FileOrDirError::AlreadyExists);
                }
                i = i + 1;
            }
            proof {
                assert(!has_child_named(ov.children, path@));
            }
            self.children.push(
                Node::Dir(
                    Dir {
                        name: crate::strutil::string_from_chars(path),
                        creation_time,
                        children: Vec::new(),
                    },
                ),
            );
            proof {
                lemma_nodes_view(self.children@);
                let newborn = self.children@.last();
                assert(nodes_view(newborn->Dir_0.children@) =~= Seq::<NodeView>::empty());
                assert(node_view(newborn) == NodeView::Dir(
                    DirView {
                        name: path@,
                        creation_time: creation_time,
                        children: Seq::<NodeView>::empty(),
                    },
                ));
                assert(nodes_view(self.children@) =~= ov.children.push(node_view(newborn)));
            }
            Ok(())
        } else {
            let n = self.children.len();
            let mut i: usize = 0;
            while i < n
                invariant
                    i <= n,
                    n == self.children@.len(),
                    self.name == old(self).name,
                    self.creation_time == old(self).creation_time,
                    nodes_view(self.children@) == ov.children,
                    mk_dir_children(ov.children, 0, path@, creation_time) == mk_dir_children(
                        ov.children,
                        i as int,
                        path@,
                        creation_time,
                    ),
                decreases n - i,
            {
                let ghost snap = *self;
                proof {
                    lemma_nodes_view(snap.children@);
                    assert(node_view(snap.children@[i as int]) == ov.children[i as int]);
                }
                let mut verdict: Option<FsResult<()>> = None;
                match &mut self.children[i] {
                    Node::File(_) => {},
                    Node::Dir(d) => {
                        proof {
                            assert(decreases_to!(ov => ov.children));
                            assert(decreases_to!(ov.children => ov.children[i as int]));
                            assert(ov.children[i as int] == NodeView::Dir(dir_view(*d)));
                            assert(decreases_to!(ov.children[i as int] => dir_view(*d)));
                            lemma_mk_dir_err_unchanged(dir_view(*d), path@, creation_time);
                        }
                        let sub = d.mk_dir_chars(path, creation_time);
                        match sub {
                            Ok(()) => {
                                verdict = Some(Ok(()));
                            },
                            Err(FileOrDirError::ParentDoesNotExist) => {},
                            Err(e) => {
                                verdict = Some(Err(e));
                            },
                        }
                    },
                }
                proof {
                    lemma_nodes_view(self.children@);
                    assert forall|x: int|
                        0 <= x < n && x != i implies self.children@[x] == snap.children@[x] by {}
                }
                match verdict {
                    Some(Ok(())) => {
                        proof {
                            assert(nodes_view(self.children@) =~= ov.children.update(
                                i as int,
                                node_view(self.children@[i as int]),
                            ));
                        }
                        return Ok(());
                    },
                    Some(Err(e)) => {
                        proof {
                            assert(nodes_view(self.children@) =~= ov.children);
                        }
                        return Err(e);
                    },
                    None => {
                        proof {
                            assert(nodes_view(self.children@) =~= ov.children);
                        }
                        i = i + 1;
                    },
                }
            }
            Err(FileOrDirError::ParentDoesNotExist)
        }
    }

    /// Create an empty file at `path` under this directory, stamping it
    /// `creation_time`; its kind follows the path's extension. The parent
    /// named in the path must already exist below this directory, and
    /// nothing may bear the path yet; on failure the tree is unchanged, as
    /// `spec_new_file` states.
    pub fn new_file(&mut self, path: &str, creation_time: u64) -> (r: FsResult<()>)
        ensures
            ({
                let (dv2, rr) = spec_new_file(dir_view(*old(self)), path@, creation_time);
                r == rr && dir_view(*final(self)) == dv2
            }),
    {
        let p = crate::strutil::str_chars(path);
        self.new_file_chars(&p, creation_time)
    }

    /// `new_file` on a path already split into characters.
    #[verifier::loop_isolation(false)]
    pub(crate) fn new_file_chars(&mut self, path: &Vec<char>, creation_time: u64) -> (r: FsResult<
        (),
    >)
        ensures
            ({
                let (dv2, rr) = spec_new_file(dir_view(*old(self)), path@, creation_time);
                r == rr && dir_view(*final(self)) == dv2
            }),
        decreases dir_view(*old(self)),
    {
        let ghost ov = dir_view(*old(self));
        let nm = crate::strutil::str_chars(self.name.as_str());
        if !crate::dirinfo::common::starts_with_path(path, &nm) {
            return Err(FileOrDirError::ParentDoesNotExist);
        }
        let par = match crate::dirinfo::common::parent_path(path) {
            None => {
                return Err(FileOrDirError::ParentDoesNotExist);
            },
            Some(q) => q,
        };
        proof {
            lemma_nodes_view(self.children@);
        }
        if crate::dirinfo::common::chars_eq(&nm, path) {
            return Err(FileOrDirError::AlreadyExists);
        }
        if crate::dirinfo::common::chars_eq(&par, &nm) {
            let n = self.children.len();
            let mut i: usize = 0;
            while i < n
                invariant
                    i <= n,
                    forall|x: int| 0 <= x < i ==> node_name(ov.children[x]) != path@,
                decreases n - i,
            {
                proof {
                    assert(ov.children[i as int] == node_view(self.children@[i as int]));
                }
                if node_has_name(&self.children[i], path) {
                    proof {
                        assert(node_name(ov.children[i as int]) == path@);
                        assert(has_child_named(ov.children, path@));
                    }
                    return Err(FileOrDirError::AlreadyExists);
                }
                i = i + 1;
            }
            proof {
                assert(!has_child_named(ov.children, path@));
            }
            let t = crate::dirinfo::file::file_type_for(path);
            self.children.push(
                Node::File(
                    File {
                        name: crate::strutil::string_from_chars(path),
                        content: Vec::new(),
                        creation_time,
                        type_: t,
                    },
                ),
            );
            proof {
                lemma_nodes_view(self.children@);
                let newborn = self.children@.last();
                assert(newborn->File_0.content@ =~= Seq::<u8>::empty());
                assert(node_view(newborn) == NodeView::File(
                    FileView {
                        name: path@,
                        content: Seq::<u8>::empty(),
                        creation_time: creation_time,
                        type_: crate::dirinfo::file::type_for(path@),
                    },
                ));
                assert(nodes_view(self.children@) =~= ov.children.push(node_view(newborn)));
            }
            Ok(())
        } else {
            let n = self.children.len();
            let mut i: usize = 0;
            while i < n
                invariant
                    i <= n,
                    n == self.children@.len(),
                    self.name == old(self).name,
                    self.creation_time == old(self).creation_time,
                    nodes_view(self.children@) == ov.children,
                    new_file_children(ov.children, 0, path@, creation_time) == new_file_children(
                        ov.children,
                        i as int,
                        path@,
                        creation_time,
                    ),
                decreases n - i,
            {
                let ghost snap = *self;
                proof {
                    lemma_nodes_view(snap.children@);
                    assert(node_view(snap.children@[i as int]) == ov.children[i as int]);
                }
                let mut verdict: Option<FsResult<()>> = None;
                match &mut self.children[i] {
                    Node::File(_) => {},
                    Node::Dir(d) => {
                        proof {
                            assert(decreases_to!(ov => ov.children));
                            assert(decreases_to!(ov.children => ov.children[i as int]));
                            assert(ov.children[i as int] == NodeView::Dir(dir_view(*d)));
                            assert(decreases_to!(ov.children[i as int] => dir_view(*d)));
                            lemma_new_file_err_unchanged(dir_view(*d), path@, creation_time);
                        }
                        let sub = d.new_file_chars(path, creation_time);
                        match sub {
                            Ok(()) => {
                                verdict = Some(Ok(()));
                            },
                            Err(FileOrDirError::ParentDoesNotExist) => {},
                            Err(e) => {
                                verdict = Some(Err(e));
                            },
                        }
                    },
                }
                proof {
                    lemma_nodes_view(self.children@);
                    assert forall|x: int|
                        0 <= x < n && x != i implies self.children@[x] == snap.children@[x] by {}
                }
                match verdict {
                    Some(Ok(())) => {
                        proof {
                            assert(nodes_view(self.children@) =~= ov.children.update(
                                i as int,
                                node_view(self.children@[i as int]),
                            ));
                        }
                        return Ok(());
                    },
                    Some(Err(e)) => {
                        proof {
                            assert(nodes_view(self.children@) =~= ov.children);
                        }
                        return Err(e);
                    },
                    None => {
                        proof {
                            assert(nodes_view(self.children@) =~= ov.children);
                        }
                        i = i + 1;
                    },
                }
            }
            Err(FileOrDirError::ParentDoesNotExist)
        }
    }

    /// Remove the empty directory bearing `path` below this directory; a
    /// non-empty one reports `DirectoryNotEmpty`, and a path not found
    /// reports `ParentDoesNotExist`. On failure the tree is unchanged, as
    /// `spec_rm_dir` states.
    pub fn rm_dir(&mut self, path: &str) -> (r: FsResult<()>)
        ensures
            ({
                let (dv2, rr) = spec_rm_dir(dir_view(*old(self)), path@);
                r == rr && dir_view(*final(self)) == dv2
            }),
    {
        let p = crate::strutil::str_chars(path);
        self.rm_dir_chars(&p)
    }

    /// `rm_dir` on a path already split into characters.
    #[verifier::loop_isolation(false)]
    pub(crate) fn rm_dir_chars(&mut self, path: &Vec<char>) -> (r: FsResult<()>)
        ensures
            ({
                let (dv2, rr) = spec_rm_dir(dir_view(*old(self)), path@);
                r == rr && dir_view(*final(self)) == dv2
            }),
        decreases dir_view(*old(self)),
    {
        let ghost ov = dir_view(*old(self));
        let nm = crate::strutil::str_chars(self.name.as_str());
        if !crate::dirinfo::common::starts_with_path(path, &nm) {
            return Err(FileOrDirError::ParentDoesNotExist);
        }
        proof {
            lemma_nodes_view(self.children@);
        }
        let n = self.children.len();
        let mut i: usize = 0;
        while i < n
            invariant
                i <= n,
                n == self.children@.len(),
                self.name == old(self).name,
                self.creation_time == old(self).creation_time,
                nodes_view(self.children@) == ov.children,
                rm_dir_children(ov.children, 0, path@) == rm_dir_children(
                    ov.children,
                    i as int,
                    path@,
                ),
            decreases n - i,
        {
            let ghost snap = *self;
            proof {
                lemma_nodes_view(snap.children@);
                assert(node_view(snap.children@[i as int]) == ov.children[i as int]);
            }
            let mut verdict: Option<FsResult<()>> = None;
            let mut found = false;
            match &mut self.children[i] {
                Node::File(_) => {},
                Node::Dir(d) => {
                    if node_dir_named(d, path) {
                        if d.children.len() > 0 {
                            verdict = Some(Err(FileOrDirError::DirectoryNotEmpty));
                        } else {
                            found = true;
                        }
                    } else {
                        proof {
                            assert(decreases_to!(ov => ov.children));
                            assert(decreases_to!(ov.children => ov.children[i as int]));
                            assert(ov.children[i as int] == NodeView::Dir(dir_view(*d)));
                            assert(decreases_to!(ov.children[i as int] => dir_view(*d)));
                            lemma_rm_dir_err_unchanged(dir_view(*d), path@);
                        }
                        let sub = d.rm_dir_chars(path);
                        match sub {
                            Ok(()) => {
                                verdict = Some(Ok(()));
                            },
                            Err(_) => {},
                        }
                    }
                },
            }
            proof {
                lemma_nodes_view(self.children@);
                assert forall|x: int|
                    0 <= x < n && x != i implies self.children@[x] == snap.children@[x] by {}
            }
            if found {
                proof {
                    assert(nodes_view(self.children@) =~= ov.children);
                }
                self.children.remove(i);
                proof {
                    lemma_nodes_view(self.children@);
                    assert(nodes_view(self.children@) =~= ov.children.remove(i as int));
                }
                return Ok(());
            }
            match verdict {
                Some(Ok(())) => {
                    proof {
                        assert(nodes_view(self.children@) =~= ov.children.update(
                            i as int,
                            node_view(self.children@[i as int]),
                        ));
                    }
                    return Ok(());
                },
                Some(Err(e)) => {
                    proof {
                        assert(nodes_view(self.children@) =~= ov.children);
                    }
                    return Err(e);
                },
                None => {
                    proof {
                        assert(nodes_view(self.children@) =~= ov.children);
                    }
                    i = i + 1;
                },
            }
        }
        Err(FileOrDirError::ParentDoesNotExist)
    }

    /// Remove the file bearing `path` below this directory; this directory's
    /// own path reports `IsDirectory`, and a path not found reports
    /// `ParentDoesNotExist`. On failure the tree is unchanged, as
    /// `spec_rm_file` states.
    pub fn rm_file(&mut self, path: &str) -> (r: FsResult<()>)
        ensures
            ({
                let (dv2, rr) = spec_rm_file(dir_view(*old(self)), path@);
                r == rr && dir_view(*final(self)) == dv2
            }),
    {
        let p = crate::strutil::str_chars(path);
        self.rm_file_chars(&p)
    }

    /// `rm_file` on a path already split into characters.
    #[verifier::loop_isolation(false)]
    pub(crate) fn rm_file_chars(&mut self, path: &Vec<char>) -> (r: FsResult<()>)
        ensures
            ({
                let (dv2, rr) = spec_rm_file(dir_view(*old(self)), path@);
                r == rr && dir_view(*final(self)) == dv2
            }),
        decreases dir_view(*old(self)),
    {
        let ghost ov = dir_view(*old(self));
        let nm = crate::strutil::str_chars(self.name.as_str());
        if crate::dirinfo::common::chars_eq(&nm, path) {
            return Err(FileOrDirError::IsDirectory);
        }
        if !crate::dirinfo::common::starts_with_path(path, &nm) {
            return Err(FileOrDirError::ParentDoesNotExist);
        }
        proof {
            lemma_nodes_view(self.children@);
        }
        let n = self.children.len();
        let mut i: usize = 0;
        while i < n
            invariant
                i <= n,
                n == self.children@.len(),
                self.name == old(self).name,
                self.creation_time == old(self).creation_time,
                nodes_view(self.children@) == ov.children,
                rm_file_children(ov.children, 0, path@) == rm_file_children(
                    ov.children,
                    i as int,
                    path@,
                ),
            decreases n - i,
        {
            let ghost snap = *self;
            proof {
                lemma_nodes_view(snap.children@);
                assert(node_view(snap.children@[i as int]) == ov.children[i as int]);
            }
            let mut verdict: Option<FsResult<()>> = None;
            let mut found = false;
            match &mut self.children[i] {
                Node::File(f) => {
                    let fnm = crate::strutil::str_chars(f.name.as_str());
                    if crate::dirinfo::common::chars_eq(&fnm, path) {
                        found = true;
                    }
                },
                Node::Dir(d) => {
                    proof {
                        assert(decreases_to!(ov => ov.children));
                        assert(decreases_to!(ov.children => ov.children[i as int]));
                        assert(ov.children[i as int] == NodeView::Dir(dir_view(*d)));
                        assert(decreases_to!(ov.children[i as int] => dir_view(*d)));
                        lemma_rm_file_err_unchanged(dir_view(*d), path@);
                    }
                    let sub = d.rm_file_chars(path);
                    match sub {
                        Ok(()) => {
                            verdict = Some(Ok(()));
                        },
                        Err(_) => {},
                    }
                },
            }
            proof {
                lemma_nodes_view(self.children@);
                assert forall|x: int|
                    0 <= x < n && x != i implies self.children@[x] == snap.children@[x] by {}
            }
            if found {
                proof {
                    assert(nodes_view(self.children@) =~= ov.children);
                }
                self.children.remove(i);
                proof {
                    lemma_nodes_view(self.children@);
                    assert(nodes_view(self.children@) =~= ov.children.remove(i as int));
                }
                return Ok(());
            }
            match verdict {
                Some(Ok(())) => {
                    proof {
                        assert(nodes_view(self.children@) =~= ov.children.update(
                            i as int,
                            node_view(self.children@[i as int]),
                        ));
                    }
                    return Ok(());
                },
                Some(Err(e)) => {
                    proof {
                        assert(nodes_view(self.children@) =~= ov.children);
                    }
                    return Err(e);
                },
                None => {
                    proof {
                        assert(nodes_view(self.children@) =~= ov.children);
                    }
                    i = i + 1;
                },
            }
        }
        Err(FileOrDirError::ParentDoesNotExist)
    }

    /// Find the file bearing `path` below this directory, if any.
    pub fn get_file(&self, path: &str) -> (r: Option<&File>)
        ensures
            match r {
                Some(f) => spec_get_file(dir_view(*self), path@) == Some(file_view(*f)),
                None => spec_get_file(dir_view(*self), path@) is None,
            },
    {
        let p = crate::strutil::str_chars(path);
        self.get_file_chars(&p)
    }

    /// `get_file` on a path already split into characters.
    #[verifier::loop_isolation(false)]
    pub(crate) fn get_file_chars(&self, path: &Vec<char>) -> (r: Option<&File>)
        ensures
            match r {
                Some(f) => spec_get_file(dir_view(*self), path@) == Some(file_view(*f)),
                None => spec_get_file(dir_view(*self), path@) is None,
            },
        decreases dir_view(*self),
    {
        let ghost ov = dir_view(*self);
        let nm = crate::strutil::str_chars(self.name.as_str());
        if crate::dirinfo::common::chars_eq(&nm, path) {
            return None;
        }
        if !crate::dirinfo::common::starts_with_path(path, &nm) {
            return None;
        }
        proof {
            lemma_nodes_view(self.children@);
        }
        let n = self.children.len();
        let mut i: usize = 0;
        while i < n
            invariant
                i <= n,
                get_file_children(ov.children, 0, path@) == get_file_children(
                    ov.children,
                    i as int,
                    path@,
                ),
            decreases n - i,
        {
            proof {
                assert(ov.children[i as int] == node_view(self.children@[i as int]));
            }
            match &self.children[i] {
                Node::File(f) => {
                    let fnm = crate::strutil::str_chars(f.name.as_str());
                    if crate::dirinfo::common::chars_eq(&fnm, path) {
                        return Some(f);
                    }
                },
                Node::Dir(d) => {
                    proof {
                        assert(decreases_to!(ov => ov.children));
                        assert(decreases_to!(ov.children => ov.children[i as int]));
                        assert(ov.children[i as int] == NodeView::Dir(dir_view(*d)));
                        assert(decreases_to!(ov.children[i as int] => dir_view(*d)));
                    }
                    let sub = d.get_file_chars(path);
                    match sub {
                        Some(f) => {
                            return Some(f);
                        },
                        None => {},
                    }
                },
            }
            i = i + 1;
        }
        None
    }
}

/// A failed `rm_dir` leaves the directory as it was.
proof fn lemma_rm_dir_err_unchanged(d: DirView, path: Seq<char>)
    ensures
        spec_rm_dir(d, path).1 is Err ==> spec_rm_dir(d, path).0 == d,
    decreases d, 2int, 0int,
{
    if crate::dirinfo::common::path_starts_with(path, d.name) {
        lemma_rm_dir_children_err_unchanged(d.children, 0, path);
    }
}

/// A failed removal scan leaves the children as they were.
proof fn lemma_rm_dir_children_err_unchanged(children: Seq<NodeView>, i: int, path: Seq<char>)
    ensures
        rm_dir_children(children, i, path).1 is Err ==> rm_dir_children(children, i, path).0
            == children,
    decreases children, 1int, children.len() - i,
{
    if 0 <= i < children.len() {
        match children[i] {
            NodeView::File(_) => {
                lemma_rm_dir_children_err_unchanged(children, i + 1, path);
            },
            NodeView::Dir(dv) => {
                if dv.name != path {
                    lemma_rm_dir_children_err_unchanged(children, i + 1, path);
                }
            },
        }
    }
}

/// A failed `rm_file` leaves the directory as it was.
proof fn lemma_rm_file_err_unchanged(d: DirView, path: Seq<char>)
    ensures
        spec_rm_file(d, path).1 is Err ==> spec_rm_file(d, path).0 == d,
    decreases d, 2int, 0int,
{
    if d.name != path && crate::dirinfo::common::path_starts_with(path, d.name) {
        lemma_rm_file_children_err_unchanged(d.children, 0, path);
    }
}

/// A failed removal scan leaves the children as they were.
proof fn lemma_rm_file_children_err_unchanged(children: Seq<NodeView>, i: int, path: Seq<char>)
    ensures
        rm_file_children(children, i, path).1 is Err ==> rm_file_children(children, i, path).0
            == children,
    decreases children, 1int, children.len() - i,
{
    if 0 <= i < children.len() {
        match children[i] {
            NodeView::File(f) => {
                if f.name != path {
                    lemma_rm_file_children_err_unchanged(children, i + 1, path);
                }
            },
            NodeView::Dir(_) => {
                lemma_rm_file_children_err_unchanged(children, i + 1, path);
            },
        }
    }
}

/// Whether the directory bears the given path.
fn node_dir_named(d: &Dir, path: &Vec<char>) -> (r: bool)
    ensures
        r == (dir_view(*d).name == path@),
{
    let nm = crate::strutil::str_chars(d.name.as_str());
    crate::dirinfo::common::chars_eq(&nm, path)
}

/// What `new_file` does to a directory: under the parent named by the path
/// a fresh empty file appears, with a kind following the path's extension,
/// unless the path leads outside this directory or its parent is missing
/// (`ParentDoesNotExist`), or the path is already taken (`AlreadyExists`).
pub open spec fn spec_new_file(d: DirView, path: Seq<char>, ctime: u64) -> (DirView, FsResult<()>)
    decreases d, 2int, 0int,
{
    if !crate::dirinfo::common::path_starts_with(path, d.name) {
        (d, Err(FileOrDirError::ParentDoesNotExist))
    } else {
        match crate::dirinfo::common::parent_of(path) {
            None => (d, Err(FileOrDirError::ParentDoesNotExist)),
            Some(par) => {
                if d.name == path {
                    (d, Err(FileOrDirError::AlreadyExists))
                } else if par == d.name {
                    if has_child_named(d.children, path) {
                        (d, Err(FileOrDirError::AlreadyExists))
                    } else {
                        (
                            DirView {
                                name: d.name,
                                creation_time: d.creation_time,
                                children: d.children.push(
                                    NodeView::File(
                                        FileView {
                                            name: path,
                                            content: Seq::empty(),
                                            creation_time: ctime,
                                            type_: crate::dirinfo::file::type_for(path),
                                        },
                                    ),
                                ),
                            },
                            Ok(()),
                        )
                    }
                } else {
                    let (ch2, r) = new_file_children(d.children, 0, path, ctime);
                    (DirView { name: d.name, creation_time: d.creation_time, children: ch2 }, r)
                }
            },
        }
    }
}

/// Try `new_file` on the child directories from `i` onwards, as
/// `mk_dir_children` does for `mk_dir`.
pub open spec fn new_file_children(children: Seq<NodeView>, i: int, path: Seq<char>, ctime: u64) -> (
    Seq<NodeView>,
    FsResult<()>,
)
    decreases children, 1int, children.len() - i,
{
    if i < 0 || i >= children.len() {
        (children, Err(FileOrDirError::ParentDoesNotExist))
    } else {
        match children[i] {
            NodeView::File(_) => new_file_children(children, i + 1, path, ctime),
            NodeView::Dir(dv) => {
                let (dv2, r) = spec_new_file(dv, path, ctime);
                match r {
                    Ok(()) => (children.update(i, NodeView::Dir(dv2)), Ok(())),
                    Err(FileOrDirError::ParentDoesNotExist) => new_file_children(
                        children,
                        i + 1,
                        path,
                        ctime,
                    ),
                    Err(e) => (children, Err(e)),
                }
            },
        }
    }
}

/// A failed `new_file` leaves the directory as it was.
proof fn lemma_new_file_err_unchanged(d: DirView, path: Seq<char>, ctime: u64)
    ensures
        spec_new_file(d, path, ctime).1 is Err ==> spec_new_file(d, path, ctime).0 == d,
    decreases d, 2int, 0int,
{
    if crate::dirinfo::common::path_starts_with(path, d.name) {
        match crate::dirinfo::common::parent_of(path) {
            None => {},
            Some(par) => {
                if d.name != path && par != d.name {
                    lemma_new_file_children_err_unchanged(d.children, 0, path, ctime);
                }
            },
        }
    }
}

/// A failed scan over the children leaves them as they were.
proof fn lemma_new_file_children_err_unchanged(
    children: Seq<NodeView>,
    i: int,
    path: Seq<char>,
    ctime: u64,
)
    ensures
        new_file_children(children, i, path, ctime).1 is Err ==> new_file_children(
            children,
            i,
            path,
            ctime,
        ).0 == children,
    decreases children, 1int, children.len() - i,
{
    if 0 <= i < children.len() {
        match children[i] {
            NodeView::File(_) => {
                lemma_new_file_children_err_unchanged(children, i + 1, path, ctime);
            },
            NodeView::Dir(dv) => {
                lemma_new_file_err_unchanged(dv, path, ctime);
                lemma_new_file_children_err_unchanged(children, i + 1, path, ctime);
            },
        }
    }
}

/// What `rm_dir` does: the directory bearing the path disappears, provided
/// it exists below this directory and is empty. Removing a non-empty
/// directory reports `DirectoryNotEmpty`; a path not found below this
/// directory reports `ParentDoesNotExist`.
pub open spec fn spec_rm_dir(d: DirView, path: Seq<char>) -> (DirView, FsResult<()>)
    decreases d, 2int, 0int,
{
    if !crate::dirinfo::common::path_starts_with(path, d.name) {
        (d, Err(FileOrDirError::ParentDoesNotExist))
    } else {
        let (ch2, r) = rm_dir_children(d.children, 0, path);
        (DirView { name: d.name, creation_time: d.creation_time, children: ch2 }, r)
    }
}

/// Scan the children from `i` onwards for the directory to remove,
/// descending into child directories; errors of deeper attempts do not stop
/// the scan.
pub open spec fn rm_dir_children(children: Seq<NodeView>, i: int, path: Seq<char>) -> (
    Seq<NodeView>,
    FsResult<()>,
)
    decreases children, 1int, children.len() - i,
{
    if i < 0 || i >= children.len() {
        (children, Err(FileOrDirError::ParentDoesNotExist))
    } else {
        match children[i] {
            NodeView::File(_) => rm_dir_children(children, i + 1, path),
            NodeView::Dir(dv) => {
                if dv.name == path {
                    if dv.children.len() > 0 {
                        (children, Err(FileOrDirError::DirectoryNotEmpty))
                    } else {
                        (children.remove(i), Ok(()))
                    }
                } else {
                    let (dv2, r) = spec_rm_dir(dv, path);
                    match r {
                        Ok(()) => (children.update(i, NodeView::Dir(dv2)), Ok(())),
                        Err(_) => rm_dir_children(children, i + 1, path),
                    }
                }
            },
        }
    }
}

/// What `rm_file` does: the file bearing the path disappears, provided it
/// exists below this directory. The path of this directory itself reports
/// `IsDirectory`; a path not found reports `ParentDoesNotExist`.
pub open spec fn spec_rm_file(d: DirView, path: Seq<char>) -> (DirView, FsResult<()>)
    decreases d, 2int, 0int,
{
    if d.name == path {
        (d, Err(FileOrDirError::IsDirectory))
    } else if !crate::dirinfo::common::path_starts_with(path, d.name) {
        (d, Err(FileOrDirError::ParentDoesNotExist))
    } else {
        let (ch2, r) = rm_file_children(d.children, 0, path);
        (DirView { name: d.name, creation_time: d.creation_time, children: ch2 }, r)
    }
}

/// Scan the children from `i` onwards for the file to remove, descending
/// into child directories; errors of deeper attempts do not stop the scan.
pub open spec fn rm_file_children(children: Seq<NodeView>, i: int, path: Seq<char>) -> (
    Seq<NodeView>,
    FsResult<()>,
)
    decreases children, 1int, children.len() - i,
{
    if i < 0 || i >= children.len() {
        (children, Err(FileOrDirError::ParentDoesNotExist))
    } else {
        match children[i] {
            NodeView::File(f) => if f.name == path {
                (children.remove(i), Ok(()))
            } else {
                rm_file_children(children, i + 1, path)
            },
            NodeView::Dir(dv) => {
                let (dv2, r) = spec_rm_file(dv, path);
                match r {
                    Ok(()) => (children.update(i, NodeView::Dir(dv2)), Ok(())),
                    Err(_) => rm_file_children(children, i + 1, path),
                }
            },
        }
    }
}

/// What `get_file` finds: the file bearing the path below this directory,
/// if any; the directory's own path finds nothing.
pub open spec fn spec_get_file(d: DirView, path: Seq<char>) -> Option<FileView>
    decreases d, 2int, 0int,
{
    if d.name == path {
        None
    } else if !crate::dirinfo::common::path_starts_with(path, d.name) {
        None
    } else {
        get_file_children(d.children, 0, path)
    }
}

/// Scan the children from `i` onwards for the file, descending into child
/// directories.
pub open spec fn get_file_children(children: Seq<NodeView>, i: int, path: Seq<char>) -> Option<
    FileView,
>
    decreases children, 1int, children.len() - i,
{
    if i < 0 || i >= children.len() {
        None
    } else {
        match children[i] {
            NodeView::File(f) => if f.name == path {
                Some(f)
            } else {
                get_file_children(children, i + 1, path)
            },
            NodeView::Dir(dv) => match spec_get_file(dv, path) {
                Some(f) => Some(f),
                None => get_file_children(children, i + 1, path),
            },
        }
    }
}

/// Whether the node bears the given path.
fn node_has_name(n: &Node, path: &Vec<char>) -> (r: bool)
    ensures
        r == (node_name(node_view(*n)) == path@),
{
    let nm = match n {
        Node::File(f) => crate::strutil::str_chars(f.name.as_str()),
        Node::Dir(d) => crate::strutil::str_chars(d.name.as_str()),
    };
    crate::dirinfo::common::chars_eq(&nm, path)
}

} // verus!
