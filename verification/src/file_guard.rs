//! Guards for temporary files and directories: they remember what to clean
//! up when an operation fails half-way, until they are defused. The removal
//! itself is done by the caller.
use vstd::prelude::*;

verus! {

/// A temporary directory, removed on failure unless defused.
pub struct TempDirGuard {
    path: String,
    active: bool,
}

impl TempDirGuard {
    /// A guard over `path`, armed.
    pub fn new(path: String) -> (r: TempDirGuard)
        ensures
            r.path()@ == path@,
            r.is_active(),
    {
        TempDirGuard { path, active: true }
    }

    /// The guarded directory.
    pub closed spec fn path(&self) -> String {
        self.path
    }

    /// Whether the directory is still to be removed.
    pub closed spec fn is_active(&self) -> bool {
        self.active
    }

    /// Keeps the directory: nothing is removed any more.
    pub fn defuse(&mut self)
        ensures
            !final(self).is_active(),
            final(self).path() == old(self).path(),
    {
        self.active = false;
    }

    /// The directory to remove when the guard goes away: the path while
    /// armed, nothing once defused.
    pub fn pending(&self) -> (r: Option<&String>)
        ensures
            match r {
                Some(p) => self.is_active() && *p == self.path(),
                None => !self.is_active(),
            },
    {
        if self.active { Some(&self.path) } else { None }
    }
}

/// Temporary files, removed on failure unless defused.
pub struct TempFilesGuard {
    paths: Vec<String>,
    active: bool,
}

impl TempFilesGuard {
    /// A guard over no files, armed.
    pub fn new() -> (r: TempFilesGuard)
        ensures
            r.paths().len() == 0,
            r.is_active(),
    {
        TempFilesGuard { paths: Vec::new(), active: true }
    }

    /// The guarded files, in the order they were added.
    pub closed spec fn paths(&self) -> Seq<String> {
        self.paths@
    }

    /// Whether the files are still to be removed.
    pub closed spec fn is_active(&self) -> bool {
        self.active
    }

    /// Adds a file to the guard.
    pub fn add(&mut self, path: String)
        ensures
            final(self).paths() == old(self).paths().push(path),
            final(self).is_active() == old(self).is_active(),
    {
        self.paths.push(path);
    }

    /// Keeps the files: nothing is removed any more.
    pub fn defuse(&mut self)
        ensures
            !final(self).is_active(),
            final(self).paths() == old(self).paths(),
    {
        self.active = false;
    }

    /// The files to remove when the guard goes away: all of them while
    /// armed, none once defused.
    pub fn pending(&self) -> (r: &[String])
        ensures
            r@ == if self.is_active() { self.paths() } else { Seq::empty() },
    {
        if self.active { self.paths.as_slice() } else { &[] }
    }
}

/// A temporary file, removed on failure unless defused.
pub struct TempFileGuard {
    path: String,
    active: bool,
}

impl TempFileGuard {
    /// A guard over `path`, armed.
    pub fn new(path: String) -> (r: TempFileGuard)
        ensures
            r.path()@ == path@,
            r.is_active(),
    {
        TempFileGuard { path, active: true }
    }

    /// The guarded file.
    pub closed spec fn path(&self) -> String {
        self.path
    }

    /// Whether the file is still to be removed.
    pub closed spec fn is_active(&self) -> bool {
        self.active
    }

    /// Keeps the file: nothing is removed any more.
    pub fn defuse(&mut self)
        ensures
            !final(self).is_active(),
            final(self).path() == old(self).path(),
    {
        self.active = false;
    }

    /// The file to remove when the guard goes away: the path while armed,
    /// nothing once defused.
    pub fn pending(&self) -> (r: Option<&String>)
        ensures
            match r {
                Some(p) => self.is_active() && *p == self.path(),
                None => !self.is_active(),
            },
    {
        if self.active { Some(&self.path) } else { None }
    }
}

} // verus!
