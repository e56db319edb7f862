//! A snapshot of a directory tree, as read from the filesystem.

use vstd::prelude::*;

verus! {

/// One directory entry. A directory's `children` are listed in the order in
/// which the filesystem enumerated them; `readable` is false for a directory
/// whose listing failed (its `children` are then empty). A directory that was
/// never listed, because rendering does not descend into it, has no children.
#[derive(Debug)]
pub struct Entry {
    pub name: String,
    pub is_dir: bool,
    pub readable: bool,
    pub children: Vec<Entry>,
}

impl Entry {
    /// A file named `name`.
    pub fn file(name: String) -> (r: Entry)
        ensures
            r.name@ == name@,
            !r.is_dir,
            r.readable,
            r.children@.len() == 0,
    {
        Entry { name, is_dir: false, readable: true, children: Vec::new() }
    }

    /// A directory named `name` whose listing gave `children`.
    pub fn dir(name: String, children: Vec<Entry>) -> (r: Entry)
        ensures
            r.name@ == name@,
            r.is_dir,
            r.readable,
            r.children@ == children@,
    {
        Entry { name, is_dir: true, readable: true, children }
    }

    /// A directory named `name` that could not be listed.
    pub fn unreadable_dir(name: String) -> (r: Entry)
        ensures
            r.name@ == name@,
            r.is_dir,
            !r.readable,
            r.children@.len() == 0,
    {
        Entry { name, is_dir: true, readable: false, children: Vec::new() }
    }
}

} // verus!
