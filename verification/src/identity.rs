//! Filesystem identity of a file's physical storage.

use vstd::prelude::*;

verus! {

/// The OS-level identity of a file's storage: the device it lives on and its
/// inode (file serial number) there.  All hardlinks of one underlying file
/// share a `FileIdentity`; files on different devices never do, even if their
/// inode numbers collide.
#[derive(PartialEq, Eq, Structural, Clone, Copy, Debug)]
pub struct FileIdentity {
    pub dev: u64,
    pub ino: u64,
}

impl FileIdentity {
    /// Returns whether the two identities name storage on the same device.
    pub fn same_device(&self, other: &FileIdentity) -> (r: bool)
        ensures
            r == (self.dev == other.dev),
    {
        self.dev == other.dev
    }
}

} // verus!
