//! Error model: a kind describing what failed, plus an ordered chain of
//! underlying causes as text for the diagnostic stream.

use vstd::prelude::*;

verus! {

/// The ways a navigation, prefetch or directory operation can fail.
#[derive(Clone, Copy, PartialEq, Eq, Structural, Debug)]
pub enum ErrorKind {
    /// Directory or file access failed.
    Io,
    /// Image data was unsupported or corrupt.
    Decode,
    /// GPU texture creation failed.
    Upload,
    /// The navigation target is absent from the directory listing.
    NotFound,
    /// The path has no file-name component.
    NameExtraction,
    /// Internal invariant violation; never expected in correct operation.
    Unreachable,
}

/// A failure carrying its kind and the ordered chain of underlying causes
/// (outermost first), each as one line of text.
#[derive(Debug)]
pub struct LoadError {
    pub kind: ErrorKind,
    pub causes: Vec<String>,
}

impl LoadError {
    /// An error of the given kind with no recorded causes.
    pub fn new(kind: ErrorKind) -> (e: LoadError)
        ensures
            e.kind == kind,
            e.causes@.len() == 0,
    {
        LoadError { kind, causes: Vec::new() }
    }

    /// An error of the given kind with one recorded cause line.
    pub fn with_cause(kind: ErrorKind, cause: String) -> (e: LoadError)
        ensures
            e.kind == kind,
            e.causes@.len() == 1,
            e.causes@[0] == cause,
    {
        let mut causes: Vec<String> = Vec::new();
        causes.push(cause);
        LoadError { kind, causes }
    }

    /// What failed.
    pub fn kind(&self) -> (k: ErrorKind)
        ensures
            k == self.kind,
    {
        self.kind
    }

    /// The cause chain, outermost first, for the diagnostic stream.
    pub fn cause_lines(&self) -> (c: &Vec<String>)
        ensures
            c == &self.causes,
    {
        &self.causes
    }
}

} // verus!
