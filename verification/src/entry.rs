//! Entries of a traversal, and the paths that their names make with their
//! parent directories.

use crate::parts::push_all;
use vstd::prelude::*;
use vstd::slice::slice_to_vec;

verus! {

/// The byte that a parent directory and a name are joined with.
pub const SEPARATOR: u8 = 0x2f;

/// One entry of a traversal: the directory it lies in, its own name, and
/// whether it is a directory itself.
#[derive(Clone, Debug, PartialEq, Eq)]
pub struct PathEntry {
    pub parent: Vec<u8>,
    pub file_name: Vec<u8>,
    pub is_dir: bool,
}

/// A traversal entry as plain values.
pub struct PathEntryView {
    pub parent: Seq<u8>,
    pub file_name: Seq<u8>,
    pub is_dir: bool,
}

impl View for PathEntry {
    type V = PathEntryView;

    open spec fn view(&self) -> PathEntryView {
        PathEntryView { parent: self.parent@, file_name: self.file_name@, is_dir: self.is_dir }
    }
}

impl DeepView for PathEntry {
    type V = PathEntryView;

    open spec fn deep_view(&self) -> PathEntryView {
        self@
    }
}

/// The path of `name` in the directory `parent`: the name alone where the
/// parent is empty, else the parent, one separator between the two unless the
/// parent ends in one, and the name.
pub open spec fn joined_path(parent: Seq<u8>, name: Seq<u8>) -> Seq<u8> {
    if parent.len() == 0 {
        name
    } else if parent.last() == SEPARATOR {
        parent + name
    } else {
        parent + seq![SEPARATOR] + name
    }
}

/// Two names make the same path in one directory only if they are the same
/// name.
pub proof fn lemma_joined_path_injective(parent: Seq<u8>, a: Seq<u8>, b: Seq<u8>)
    requires
        joined_path(parent, a) == joined_path(parent, b),
    ensures
        a == b,
{
    let pa = joined_path(parent, a);
    let pb = joined_path(parent, b);
    let skip: int = pa.len() - a.len();
    assert(a.len() == b.len());
    assert forall|i: int| 0 <= i < a.len() implies a[i] == b[i] by {
        assert(pa[skip + i] == a[i]);
        assert(pb[skip + i] == b[i]);
    }
    assert(a =~= b);
}

/// Joins a name to the directory it lies in.
pub fn join_path(parent: &[u8], name: &[u8]) -> (path: Vec<u8>)
    ensures
        path@ == joined_path(parent@, name@),
{
    let mut path: Vec<u8> = slice_to_vec(parent);
    if parent.len() > 0 && parent[parent.len() - 1] != SEPARATOR {
        path.push(SEPARATOR);
    }
    push_all(&mut path, name);
    path
}

impl PathEntry {
    /// An entry from its parts.
    pub fn new(parent: Vec<u8>, file_name: Vec<u8>, is_dir: bool) -> (entry: PathEntry)
        ensures
            entry.parent == parent,
            entry.file_name == file_name,
            entry.is_dir == is_dir,
    {
        PathEntry { parent, file_name, is_dir }
    }

    /// The path of the entry.
    pub open spec fn spec_path(&self) -> Seq<u8> {
        joined_path(self.parent@, self.file_name@)
    }

    /// The path of the entry.
    pub fn path(&self) -> (path: Vec<u8>)
        ensures
            path@ == self.spec_path(),
    {
        join_path(self.parent.as_slice(), self.file_name.as_slice())
    }

    /// A copy of the entry.
    pub fn duplicate(&self) -> (copy: PathEntry)
        ensures
            copy@ == self@,
    {
        PathEntry {
            parent: slice_to_vec(self.parent.as_slice()),
            file_name: slice_to_vec(self.file_name.as_slice()),
            is_dir: self.is_dir,
        }
    }
}

} // verus!
