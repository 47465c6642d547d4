use vstd::prelude::*;

use crate::codec::{as_u16, as_u32, le16, le32};
use crate::error::FsError;

verus! {

/// The kind of object an inode describes.
#[derive(Debug, Clone, Copy, PartialEq, Eq, Structural)]
pub enum FileType {
    RegularFile,
    SymbolicLink,
    CharacterDevice,
    BlockDevice,
    Directory,
    Fifo,
    Socket,
}

/// The file type named by the top four bits of an inode's mode.
pub open spec fn file_type_of_mode(mode: u16) -> Option<FileType> {
    let t = mode / 4096;
    if t == 0x1 {
        Some(FileType::Fifo)
    } else if t == 0x2 {
        Some(FileType::CharacterDevice)
    } else if t == 0x4 {
        Some(FileType::Directory)
    } else if t == 0x6 {
        Some(FileType::BlockDevice)
    } else if t == 0x8 {
        Some(FileType::RegularFile)
    } else if t == 0xA {
        Some(FileType::SymbolicLink)
    } else if t == 0xC {
        Some(FileType::Socket)
    } else {
        None
    }
}

/// The file type named by a directory entry's type hint.
pub open spec fn file_type_of_hint(hint: u8) -> Option<FileType> {
    if hint == 1 {
        Some(FileType::RegularFile)
    } else if hint == 2 {
        Some(FileType::Directory)
    } else if hint == 3 {
        Some(FileType::CharacterDevice)
    } else if hint == 4 {
        Some(FileType::BlockDevice)
    } else if hint == 5 {
        Some(FileType::Fifo)
    } else if hint == 6 {
        Some(FileType::Socket)
    } else if hint == 7 {
        Some(FileType::SymbolicLink)
    } else {
        None
    }
}

impl FileType {
    /// Decodes the file type from an inode's mode.
    pub fn from_mode(mode: u16) -> (r: Option<FileType>)
        ensures
            r == file_type_of_mode(mode),
    {
        let t = mode / 4096;
        if t == 0x1 {
            Some(FileType::Fifo)
        } else if t == 0x2 {
            Some(FileType::CharacterDevice)
        } else if t == 0x4 {
            Some(FileType::Directory)
        } else if t == 0x6 {
            Some(FileType::BlockDevice)
        } else if t == 0x8 {
            Some(FileType::RegularFile)
        } else if t == 0xA {
            Some(FileType::SymbolicLink)
        } else if t == 0xC {
            Some(FileType::Socket)
        } else {
            None
        }
    }

    /// Decodes the file type from a directory entry's type hint.
    pub fn from_dir_hint(hint: u8) -> (r: Option<FileType>)
        ensures
            r == file_type_of_hint(hint),
    {
        match hint {
            1 => Some(FileType::RegularFile),
            2 => Some(FileType::Directory),
            3 => Some(FileType::CharacterDevice),
            4 => Some(FileType::BlockDevice),
            5 => Some(FileType::Fifo),
            6 => Some(FileType::Socket),
            7 => Some(FileType::SymbolicLink),
            _ => None,
        }
    }
}

/// A timestamp: seconds since the epoch, and the raw extra word (nanoseconds
/// shifted left by two, with the epoch bits) when the inode stores one.
#[derive(Debug, Clone, Copy, PartialEq, Eq, Structural)]
pub struct Time {
    pub epoch_secs: u32,
    pub nanos: Option<u32>,
}

/// The metadata of an inode.
#[derive(Debug, Clone, Copy, PartialEq, Eq, Structural)]
pub struct Stat {
    pub extracted_type: FileType,
    pub file_mode: u16,
    pub uid: u32,
    pub gid: u32,
    pub size: u64,
    pub atime: Time,
    pub ctime: Time,
    pub mtime: Time,
    pub btime: Option<Time>,
    pub link_count: u16,
}

/// A loaded inode: its metadata, number, flags and 60-byte block payload
/// (the extent tree root, a short link target, or device numbers).
#[derive(Debug)]
pub struct Inode {
    pub stat: Stat,
    pub number: u32,
    pub flags: u32,
    pub block: Vec<u8>,
    pub block_size: u32,
}

/// Size of the fixed part of an on-disk inode.
pub const INODE_CORE_SIZE: usize = 128;

/// Size of the block payload.
pub const INODE_BLOCK_SIZE: usize = 60;

/// Every inode flag this reader recognises.
pub const KNOWN_INODE_FLAGS: u32 = 0xB06F_FFFF;

/// Flags that change how content is stored: compression, encryption,
/// inline data, extents and the like.
pub const LAYOUT_INODE_FLAGS: u32 = 0x106E_AB04;

/// The flag of an inode whose content is mapped by an extent tree.
pub const INODE_EXTENTS: u32 = 0x0008_0000;

/// How far the inode's extended fields reach past the fixed part.
pub open spec fn extra_isize(raw: Seq<u8>) -> int {
    if raw.len() >= 130 {
        le16(raw, 128) as int
    } else {
        0
    }
}

/// The extended `u32` field at `off`, when the extended part covers it.
pub open spec fn extra_field(raw: Seq<u8>, off: int) -> Option<u32> {
    if off + 4 <= 128 + extra_isize(raw) && off + 4 <= raw.len() {
        Some(le32(raw, off))
    } else {
        None
    }
}

/// The metadata stored in the on-disk inode `raw`, given its file type.
pub open spec fn stat_of(raw: Seq<u8>, t: FileType) -> Stat {
    Stat {
        extracted_type: t,
        file_mode: (le16(raw, 0) % 4096) as u16,
        uid: (le16(raw, 2) as int + 65536 * le16(raw, 120) as int) as u32,
        gid: (le16(raw, 24) as int + 65536 * le16(raw, 122) as int) as u32,
        size: (le32(raw, 4) as int + 0x1_0000_0000 * le32(raw, 108) as int) as u64,
        atime: Time { epoch_secs: le32(raw, 8), nanos: extra_field(raw, 140) },
        ctime: Time { epoch_secs: le32(raw, 12), nanos: extra_field(raw, 132) },
        mtime: Time { epoch_secs: le32(raw, 16), nanos: extra_field(raw, 136) },
        btime: match extra_field(raw, 144) {
            Some(secs) => Some(Time { epoch_secs: secs, nanos: extra_field(raw, 148) }),
            None => None,
        },
        link_count: le16(raw, 26),
    }
}

/// Why the on-disk inode `raw` cannot be loaded, if it cannot.
pub open spec fn inode_problem(raw: Seq<u8>) -> Option<FsError> {
    if file_type_of_mode(le16(raw, 0)) is None {
        Some(FsError::BadMode)
    } else if le32(raw, 32) & !KNOWN_INODE_FLAGS != 0 {
        Some(FsError::UnsupportedFeature)
    } else {
        None
    }
}

/// Whether `i` is the inode that `raw` encodes as number `number` of a
/// filesystem with blocks of `block_size` bytes.
pub open spec fn inode_matches(i: Inode, raw: Seq<u8>, number: u32, block_size: u32) -> bool {
    &&& i.stat == stat_of(raw, file_type_of_mode(le16(raw, 0))->Some_0)
    &&& i.number == number
    &&& i.flags == le32(raw, 32)
    &&& i.block@ == raw.subrange(40, 100)
    &&& i.block_size == block_size
}

fn extra_u32(raw: &[u8], extra: u16, off: usize) -> (r: Option<u32>)
    requires
        raw@.len() >= 130 ==> extra == le16(raw@, 128),
        raw@.len() < 130 ==> extra == 0,
        off <= 1024,
    ensures
        r == extra_field(raw@, off as int),
{
    if off + 4 <= INODE_CORE_SIZE + extra as usize && off + 4 <= raw.len() {
        Some(as_u32(raw, off))
    } else {
        None
    }
}

/// Decodes the on-disk inode `raw` (the fixed part and as much of the
/// extended part as there is) as inode number `number`.
pub fn inode(raw: &[u8], number: u32, block_size: u32) -> (r: Result<Inode, FsError>)
    requires
        raw@.len() >= INODE_CORE_SIZE,
    ensures
        match inode_problem(raw@) {
            Some(e) => r == Err::<Inode, FsError>(e),
            None => r matches Ok(i) && inode_matches(i, raw@, number, block_size),
        },
{
    let i_mode = as_u16(raw, 0);
    let i_uid = as_u16(raw, 2);
    let i_size_lo = as_u32(raw, 4);
    let i_atime = as_u32(raw, 8);
    let i_ctime = as_u32(raw, 12);
    let i_mtime = as_u32(raw, 16);
    let i_gid = as_u16(raw, 24);
    let i_links_count = as_u16(raw, 26);
    let i_flags = as_u32(raw, 32);
    let i_size_high = as_u32(raw, 108);
    let l_i_uid_high = as_u16(raw, 120);
    let l_i_gid_high = as_u16(raw, 122);
    let i_extra_isize: u16 = if raw.len() >= 130 {
        as_u16(raw, 128)
    } else {
        0
    };
    let i_ctime_extra = extra_u32(raw, i_extra_isize, 132);
    let i_mtime_extra = extra_u32(raw, i_extra_isize, 136);
    let i_atime_extra = extra_u32(raw, i_extra_isize, 140);
    let i_crtime = extra_u32(raw, i_extra_isize, 144);
    let i_crtime_extra = extra_u32(raw, i_extra_isize, 148);
    let extracted_type = match FileType::from_mode(i_mode) {
        Some(t) => t,
        None => {
            return Err(FsError::BadMode);
        },
    };
    if i_flags & !KNOWN_INODE_FLAGS != 0 {
        return Err(FsError::UnsupportedFeature);
    }
    let btime = match i_crtime {
        Some(epoch_secs) => Some(Time { epoch_secs, nanos: i_crtime_extra }),
        None => None,
    };
    let stat = Stat {
        extracted_type,
        file_mode: i_mode % 4096,
        uid: i_uid as u32 + 65536 * l_i_uid_high as u32,
        gid: i_gid as u32 + 65536 * l_i_gid_high as u32,
        size: i_size_lo as u64 + 0x1_0000_0000 * i_size_high as u64,
        atime: Time { epoch_secs: i_atime, nanos: i_atime_extra },
        ctime: Time { epoch_secs: i_ctime, nanos: i_ctime_extra },
        mtime: Time { epoch_secs: i_mtime, nanos: i_mtime_extra },
        btime,
        link_count: i_links_count,
    };
    let mut block: Vec<u8> = Vec::with_capacity(INODE_BLOCK_SIZE);
    let mut k: usize = 40;
    while k < 100
        invariant
            40 <= k <= 100,
            raw@.len() >= 128,
            block@ =~= raw@.subrange(40, k as int),
        decreases 100 - k,
    {
        block.push(raw[k]);
        k = k + 1;
    }
    Ok(Inode { stat, number, flags: i_flags, block, block_size })
}

/// The major and minor device numbers stored in a device inode's block
/// payload: the old encoding in the first two bytes, else the new one in
/// bytes 4 to 7.
pub open spec fn maj_min_of(block: Seq<u8>) -> (u16, u32) {
    if block[0] != 0 || block[1] != 0 {
        (block[1] as u16, block[0] as u32)
    } else {
        (
            (block[5] as int + 256 * (block[6] % 16) as int) as u16,
            (block[4] as int + 4096 * block[7] as int + 256 * (block[6] / 16) as int) as u32,
        )
    }
}

/// Decodes the device numbers of a character or block device inode.
pub fn load_maj_min(block: &[u8]) -> (r: (u16, u32))
    requires
        block@.len() >= 8,
    ensures
        r == maj_min_of(block@),
{
    if 0 != block[0] || 0 != block[1] {
        (block[1] as u16, block[0] as u32)
    } else {
        (
            block[5] as u16 + 256 * (block[6] % 16) as u16,
            block[4] as u32 + 4096 * block[7] as u32 + 256 * (block[6] / 16) as u32,
        )
    }
}

impl Inode {
    /// Whether, of the flags that change how content is stored, the inode
    /// has exactly the extents flag.
    pub fn only_relevant_flag_is_extents(&self) -> (r: bool)
        ensures
            r == (self.flags & LAYOUT_INODE_FLAGS == INODE_EXTENTS),
    {
        self.flags & LAYOUT_INODE_FLAGS == INODE_EXTENTS
    }
}

} // verus!
