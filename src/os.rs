use vstd::prelude::*;

verus! {

/// Size in bytes of one allocation unit, as the block counts of file
/// metadata are reported.
pub const DEVICE_BLOCKSIZE: u64 = 512;

/// What the tree reads from a file system object's metadata.
#[derive(Clone, Copy, Debug, PartialEq, Eq, Structural)]
pub enum FileKind {
    Directory,
    File,
    Symlink,
    Other,
}

/// The metadata of one file system object, reduced to what size accounting
/// and classification need.
#[derive(Clone, Copy, Debug, PartialEq, Eq, Structural)]
pub struct Metadata {
    pub kind: FileKind,
    /// Number of allocated blocks.
    pub blocks: u64,
}

pub open spec fn spec_size(md: Metadata) -> nat {
    (md.blocks * DEVICE_BLOCKSIZE) as nat
}

/// On-disk size of an object: its block count times the block size.
pub fn size(metadata: &Metadata) -> (r: u64)
    requires
        spec_size(*metadata) <= u64::MAX,
    ensures
        r == spec_size(*metadata),
{
    metadata.blocks * DEVICE_BLOCKSIZE
}

} // verus!
