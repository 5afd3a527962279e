//! How files are opened.
use vstd::prelude::*;

verus! {

/// File open options, used in opening a file.
pub struct OpenOptions {
    pub read: bool,
    pub write: bool,
    pub create: bool,
    pub append: bool,
    pub direct: bool,
}

/// What is asked of the operating system when a file is opened.
#[derive(Clone, Copy, Debug, PartialEq, Eq, Structural)]
pub struct OpenFlags {
    pub read: bool,
    pub write: bool,
    pub create: bool,
    pub append: bool,
    pub direct: bool,
}

impl Default for OpenOptions {
    fn default() -> (r: Self)
        ensures
            r == (OpenOptions {
                read: false,
                write: false,
                create: false,
                append: false,
                direct: false,
            }),
    {
        OpenOptions { read: false, write: false, create: false, append: false, direct: false }
    }
}

impl OpenOptions {
    /// Options with nothing set.
    pub fn new() -> (r: Self)
        ensures
            r == (OpenOptions {
                read: false,
                write: false,
                create: false,
                append: false,
                direct: false,
            }),
    {
        Self::default()
    }

    pub fn with_read(self, read: bool) -> (r: Self)
        ensures
            r == (OpenOptions { read, ..self }),
    {
        OpenOptions { read, ..self }
    }

    pub fn with_write(self, write: bool) -> (r: Self)
        ensures
            r == (OpenOptions { write, ..self }),
    {
        OpenOptions { write, ..self }
    }

    pub fn with_create(self, create: bool) -> (r: Self)
        ensures
            r == (OpenOptions { create, ..self }),
    {
        OpenOptions { create, ..self }
    }

    pub fn with_append(self, append: bool) -> (r: Self)
        ensures
            r == (OpenOptions { append, ..self }),
    {
        OpenOptions { append, ..self }
    }

    pub fn with_direct(self, direct: bool) -> (r: Self)
        ensures
            r == (OpenOptions { direct, ..self }),
    {
        OpenOptions { direct, ..self }
    }

    /// What to ask of the operating system for access of the given kind. Only a file that is
    /// opened for writing is created or appended to.
    pub fn flags(&self, read: bool, write: bool) -> (r: OpenFlags)
        ensures
            r == (OpenFlags {
                read,
                write,
                create: write && self.create,
                append: write && self.append,
                direct: self.direct,
            }),
    {
        OpenFlags {
            read,
            write,
            create: write && self.create,
            append: write && self.append,
            direct: self.direct,
        }
    }
}

} // verus!
