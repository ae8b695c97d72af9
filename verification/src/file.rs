//! A project file in memory.

use vstd::prelude::*;

use crate::header;

verus! {

/// The bytes of a `.burp` file, and where they came from.
pub struct ProjectFile<'a> {
    pub path: String,
    pub data: &'a [u8],
    pub is_burp: bool,
}

impl<'a> ProjectFile<'a> {
    /// Whether `is_burp` tells the truth of the bytes.
    pub open spec fn genuine(self) -> bool {
        self.is_burp == header::has_magic(self.data@)
    }

    /// The file of the given path that holds the given bytes.
    pub fn open(path: String, data: &'a [u8]) -> (r: Self)
        ensures
            r.path == path,
            r.data == data,
            r.genuine(),
    {
        let is_burp: bool = header::is_magic(data);
        ProjectFile { path, data, is_burp }
    }

    pub fn bytes(&self) -> (r: &'a [u8])
        ensures
            r == self.data,
    {
        self.data
    }

    pub fn size(&self) -> (r: usize)
        ensures
            r == self.data@.len(),
    {
        self.data.len()
    }
}

} // verus!
