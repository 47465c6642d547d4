use vstd::prelude::*;

verus! {

/// Every way in which reading an image can fail.
#[derive(Debug, Clone, Copy, PartialEq, Eq, Structural)]
pub enum FsError {
    /// The superblock does not carry the ext4 magic number.
    BadMagic,
    /// An incompatible feature flag outside the supported set, or an
    /// inode flag that is not recognised.
    UnsupportedFeature,
    /// Block size, revision level or descriptor size outside what is handled.
    UnsupportedLayout,
    /// The filesystem was not cleanly unmounted, or has recorded errors.
    UncleanState,
    /// The filesystem was not created by Linux.
    NonLinuxCreator,
    /// A group descriptor claims more free inodes than a group holds.
    CorruptGroup,
    /// The inode number does not name a used inode.
    InodeOutOfRange,
    /// The mode or directory hint names no known file type.
    BadMode,
    /// An extent node does not start with the extent magic.
    BadExtentMagic,
    /// The extent tree root claims a depth above the supported maximum.
    ExtentTooDeep,
    /// An extent node's depth differs from the one its parent implies.
    DepthMismatch,
    /// The trailing checksum of an extent node does not match its contents.
    ChecksumMismatch,
    /// An extent node is too short for its header or its entries.
    CorruptExtentNode,
    /// A directory record runs past the data or overlaps the next one.
    CorruptDirectory,
    /// A name or link target is not valid UTF-8.
    BadUtf8,
    /// The content decryption hook reported a failure.
    DecryptFailed,
    /// A position or block number does not fit the arithmetic it needs.
    Arithmetic,
    /// The image holds no bytes at the requested position.
    Io,
}

} // verus!
