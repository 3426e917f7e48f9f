//! A filesystem path reduced to what the navigation logic reads of it: its
//! full textual form, which is its identity, and its file-name component,
//! which may be absent (a root path has none).

use vstd::prelude::*;

verus! {

/// A path as the cache and the directory index see it.
pub struct FsPath {
    /// The whole path as text; two paths are the same entry exactly when
    /// these are equal.
    pub full: String,
    /// The file-name component, or `None` where the path has none.
    pub name: Option<String>,
}

impl FsPath {
    /// A path with a file-name component.
    pub fn with_name(full: String, name: String) -> (p: FsPath)
        ensures
            p.full == full,
            p.name == Some(name),
    {
        FsPath { full, name: Some(name) }
    }

    /// A path without a file-name component, such as a filesystem root.
    pub fn without_name(full: String) -> (p: FsPath)
        ensures
            p.full == full,
            p.name is None,
    {
        FsPath { full, name: None }
    }

    /// The whole path as text.
    pub fn full(&self) -> (f: &String)
        ensures
            f == &self.full,
    {
        &self.full
    }

    /// The file-name component, if the path has one.
    pub fn file_name(&self) -> (n: &Option<String>)
        ensures
            n == &self.name,
    {
        &self.name
    }
}

impl Clone for FsPath {
    /// An equal copy of the path.
    fn clone(&self) -> (p: Self)
        ensures
            p == *self,
    {
        let name = match &self.name {
            Some(n) => Some(n.clone()),
            None => None,
        };
        FsPath { full: self.full.clone(), name }
    }
}

} // verus!
