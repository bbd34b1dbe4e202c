//! A node of the simulated file system: a file or a directory.

use vstd::prelude::*;
use crate::dirinfo::file::File;
use crate::dirinfo::dir::Dir;

verus! {

/// A file or a directory.
#[derive(Debug)]
pub enum Node {
    File(File),
    Dir(Dir),
}

} // verus!
