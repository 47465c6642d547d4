use vstd::prelude::*;

use crate::codec::{as_u16, as_u32, le16, le32};
use crate::error::FsError;
use crate::image::{bytes_at, Image};
use crate::directory::{dir_records, parse_directory, utf8_string, DirEntry};
use crate::extents::tree_extents;
use crate::inode::{
    inode_matches, inode_problem, load_maj_min, maj_min_of, inode, FileType, Inode,
    INODE_BLOCK_SIZE, INODE_EXTENTS, LAYOUT_INODE_FLAGS,
};
use crate::reader::{byte_present, file_bytes, Crypto, NoneCrypto, TreeReader};
use vstd::utf8::{decode_utf8, valid_utf8};

verus! {

/// Absolute position of the superblock in the image.
pub const SUPERBLOCK_OFFSET: usize = 1024;

/// Length of the superblock.
pub const SUPERBLOCK_LEN: usize = 1024;

/// The ext2/3/4 superblock magic number.
pub const EXT4_SUPER_MAGIC: u16 = 0xEF53;

/// Incompatible features this reader handles: FILETYPE, EXTENTS, 64BIT and
/// FLEX_BG.
pub const SUPPORTED_INCOMPAT: u32 = 0x0002 | 0x0040 | 0x0080 | 0x0200;

/// The 64BIT incompatible feature: 64-bit block numbers and, possibly,
/// 64-byte group descriptors.
pub const INCOMPAT_64BIT: u32 = 0x0080;

/// Group descriptor flags saying the group's inode table is not in use.
pub const EXT4_BLOCK_GROUP_INODES_UNUSED: u16 = 0b1;

pub const EXT4_BLOCK_GROUP_BLOCKS_UNUSED: u16 = 0b10;

/// Where one group's inodes live, and how many of them are in use.
#[derive(Debug, Clone, Copy, PartialEq, Eq, Structural)]
pub struct BlockGroup {
    pub inode_table_block: u64,
    pub inodes: u32,
}

/// An inode together with what its contents say about it.
#[derive(Debug)]
pub enum Enhanced {
    RegularFile,
    SymbolicLink(String),
    CharacterDevice(u16, u32),
    BlockDevice(u16, u32),
    Directory(Vec<DirEntry>),
    Fifo,
    Socket,
}

/// Whether every byte of a file of `size` bytes laid out by `ex` can be
/// read: its pages are in the image, its blocks are addressable, and it
/// fits in memory.
pub open spec fn contents_readable(img: Seq<u8>, ex: Seq<crate::extents::Extent>, bs: nat, size: int) -> bool {
    &&& size <= usize::MAX
    &&& size <= (u32::MAX + 1) * bs
    &&& forall|o: int| 0 <= o < size ==> #[trigger] byte_present(img, ex, bs, o)
}

/// Whether content is stored through an extent tree and nothing else that
/// changes its layout.
pub open spec fn extents_only(flags: u32) -> bool {
    flags & LAYOUT_INODE_FLAGS == INODE_EXTENTS
}

/// The parts of the superblock and group table that locating inodes needs.
#[derive(Debug)]
pub struct SuperBlock {
    pub block_size: u32,
    pub inode_size: u16,
    pub inodes_per_group: u32,
    pub groups: Vec<BlockGroup>,
}

/// The superblock's `u32` field at `off`.
pub open spec fn sb32(sb: Seq<u8>, off: int) -> u32 {
    le32(sb, off)
}

/// The superblock's `u16` field at `off`.
pub open spec fn sb16(sb: Seq<u8>, off: int) -> u16 {
    le16(sb, off)
}

pub open spec fn sb_incompat(sb: Seq<u8>) -> u32 {
    sb32(sb, 96)
}

pub open spec fn sb_long(sb: Seq<u8>) -> bool {
    sb_incompat(sb) & INCOMPAT_64BIT != 0
}

/// The block size that `log_block_size` selects, if it is supported.
pub open spec fn block_size_of_log(log: u32) -> Option<u32> {
    if log == 0 {
        Some(1024)
    } else if log == 1 {
        Some(2048)
    } else if log == 2 {
        Some(4096)
    } else if log == 6 {
        Some(65536)
    } else {
        None
    }
}

/// Total blocks: the low word, plus the high word on 64-bit filesystems.
pub open spec fn sb_blocks_count(sb: Seq<u8>) -> int {
    sb32(sb, 4) as int + if sb_long(sb) {
        sb32(sb, 336) as int * 0x1_0000_0000
    } else {
        0
    }
}

/// Number of block groups: the blocks after the first data block, divided
/// by blocks per group, rounded up.
pub open spec fn group_count(sb: Seq<u8>) -> int {
    let d = sb_blocks_count(sb) - sb32(sb, 20) as int;
    let per = sb32(sb, 32) as int;
    d / per + if d % per != 0 {
        1int
    } else {
        0
    }
}

/// The first problem with the 1024-byte superblock `sb`, in the order the
/// fields are checked.
pub open spec fn superblock_problem(sb: Seq<u8>) -> Option<FsError> {
    let desc_size = sb16(sb, 254);
    let state = sb16(sb, 58);
    if sb_incompat(sb) & !SUPPORTED_INCOMPAT != 0 {
        Some(FsError::UnsupportedFeature)
    } else if sb16(sb, 56) != EXT4_SUPER_MAGIC {
        Some(FsError::BadMagic)
    } else if sb32(sb, 72) != 0 {
        Some(FsError::NonLinuxCreator)
    } else if state & 1 == 0 || state & 2 != 0 {
        Some(FsError::UncleanState)
    } else if sb32(sb, 40) == 0 {
        Some(FsError::UnsupportedLayout)
    } else if block_size_of_log(sb32(sb, 24)) is None {
        Some(FsError::UnsupportedLayout)
    } else if !sb_long(sb) && desc_size != 0 {
        Some(FsError::UnsupportedLayout)
    } else if desc_size != 0 && desc_size != 32 && desc_size != 64 {
        Some(FsError::UnsupportedLayout)
    } else if sb32(sb, 76) != 1 {
        Some(FsError::UnsupportedLayout)
    } else if sb16(sb, 88) < 128 {
        Some(FsError::UnsupportedLayout)
    } else if sb32(sb, 32) == 0 {
        Some(FsError::UnsupportedLayout)
    } else if sb_blocks_count(sb) < sb32(sb, 20) {
        Some(FsError::Arithmetic)
    } else {
        None
    }
}

/// Where the group descriptor table starts: after the boot sector and the
/// superblock for 1 KiB blocks, else at the second block.
pub open spec fn group_table_pos(block_size: u32) -> int {
    if block_size == 1024 {
        2048
    } else {
        block_size as int
    }
}

/// Bytes per group descriptor.
pub open spec fn desc_stride(sb: Seq<u8>) -> int {
    if sb16(sb, 254) == 0 {
        32
    } else {
        sb16(sb, 254) as int
    }
}

/// The group described by descriptor bytes `d`, in a filesystem with
/// `ipg` inodes per group.
pub open spec fn group_of_desc(d: Seq<u8>, ipg: u32) -> Result<BlockGroup, FsError> {
    let long = d.len() >= 64;
    let table = le32(d, 8) as int + if long {
        le32(d, 40) as int * 0x1_0000_0000
    } else {
        0
    };
    let free = le16(d, 14) as int + if long {
        le16(d, 46) as int * 65536
    } else {
        0
    };
    let flags = le16(d, 18);
    if free > ipg {
        Err(FsError::CorruptGroup)
    } else {
        Ok(
            BlockGroup {
                inode_table_block: table as u64,
                inodes: if flags & 3 != 0 {
                    0
                } else {
                    (ipg - free) as u32
                },
            },
        )
    }
}

/// The first `k` groups of the table at `pos` with descriptors of `stride`
/// bytes, or the first error met reading them.
pub open spec fn groups_of(img: Seq<u8>, pos: int, stride: int, ipg: u32, k: nat) -> Result<
    Seq<BlockGroup>,
    FsError,
>
    decreases k,
{
    if k == 0 {
        Ok(Seq::empty())
    } else {
        match groups_of(img, pos, stride, ipg, (k - 1) as nat) {
            Err(e) => Err(e),
            Ok(prev) => match bytes_at(img, pos + (k - 1) * stride, stride) {
                None => Err(FsError::Io),
                Some(d) => match group_of_desc(d, ipg) {
                    Err(e) => Err(e),
                    Ok(g) => Ok(prev.push(g)),
                },
            },
        }
    }
}

/// What loading the image `img` yields: block size, inode size, inodes per
/// group and the groups, or the first error.
pub open spec fn superblock_of(img: Seq<u8>) -> Result<(u32, u16, u32, Seq<BlockGroup>), FsError> {
    match bytes_at(img, 1024, 1024) {
        None => Err(FsError::Io),
        Some(sb) => match superblock_problem(sb) {
            Some(e) => Err(e),
            None => {
                let bs = block_size_of_log(sb32(sb, 24))->Some_0;
                match groups_of(
                    img,
                    group_table_pos(bs),
                    desc_stride(sb),
                    sb32(sb, 40),
                    group_count(sb) as nat,
                ) {
                    Err(e) => Err(e),
                    Ok(groups) => Ok((bs, sb16(sb, 88), sb32(sb, 40), groups)),
                }
            },
        },
    }
}

proof fn lemma_groups_error_persists(
    img: Seq<u8>,
    pos: int,
    stride: int,
    ipg: u32,
    k: nat,
    m: nat,
)
    requires
        k <= m,
        groups_of(img, pos, stride, ipg, k) is Err,
    ensures
        groups_of(img, pos, stride, ipg, m) == groups_of(img, pos, stride, ipg, k),
    decreases m - k,
{
    if m > k {
        lemma_groups_error_persists(img, pos, stride, ipg, k, (m - 1) as nat);
    }
}

fn parse_group(d: &[u8], ipg: u32) -> (r: Result<BlockGroup, FsError>)
    requires
        d@.len() == 32 || d@.len() == 64,
    ensures
        r == group_of_desc(d@, ipg),
{
    let long = d.len() >= 64;
    let bg_inode_table_lo = as_u32(d, 8);
    let bg_free_inodes_count_lo = as_u16(d, 14);
    let bg_flags = as_u16(d, 18);
    let bg_inode_table_hi: u32 = if long {
        as_u32(d, 40)
    } else {
        0
    };
    let bg_free_inodes_count_hi: u16 = if long {
        as_u16(d, 46)
    } else {
        0
    };
    let inode_table_block: u64 = bg_inode_table_lo as u64 + 0x1_0000_0000 * bg_inode_table_hi as u64;
    let free_inodes_count: u32 = bg_free_inodes_count_lo as u32 + 65536
        * bg_free_inodes_count_hi as u32;
    if free_inodes_count > ipg {
        return Err(FsError::CorruptGroup);
    }
    let unallocated = bg_flags & EXT4_BLOCK_GROUP_INODES_UNUSED != 0 || bg_flags
        & EXT4_BLOCK_GROUP_BLOCKS_UNUSED != 0;
    assert(unallocated == (bg_flags & 3 != 0)) by (bit_vector)
        requires
            unallocated == (bg_flags & 1u16 != 0 || bg_flags & 2u16 != 0),
    ;
    let inodes = if unallocated {
        0
    } else {
        ipg - free_inodes_count
    };
    Ok(BlockGroup { inode_table_block, inodes })
}

/// Reads and validates the superblock at offset 1024 and the group
/// descriptor table after it.
pub fn superblock(inner: &Image) -> (r: Result<SuperBlock, FsError>)
    ensures
        match superblock_of(inner@) {
            Ok((bs, isz, ipg, groups)) => r matches Ok(s) && s.block_size == bs && s.inode_size
                == isz && s.inodes_per_group == ipg && s.groups@ == groups && s.wf(),
            Err(e) => r matches Err(x) && x == e,
        },
{
    let sbv = inner.read_at(SUPERBLOCK_OFFSET as u64, SUPERBLOCK_LEN)?;
    let sb = sbv.as_slice();
    let s_blocks_count_lo = as_u32(sb, 4);
    let s_first_data_block = as_u32(sb, 20);
    let s_log_block_size = as_u32(sb, 24);
    let s_blocks_per_group = as_u32(sb, 32);
    let s_inodes_per_group = as_u32(sb, 40);
    let s_magic = as_u16(sb, 56);
    let s_state = as_u16(sb, 58);
    let s_creator_os = as_u32(sb, 72);
    let s_rev_level = as_u32(sb, 76);
    let s_inode_size = as_u16(sb, 88);
    let s_feature_incompat = as_u32(sb, 96);
    let s_desc_size = as_u16(sb, 254);
    if s_feature_incompat & !SUPPORTED_INCOMPAT != 0 {
        return Err(FsError::UnsupportedFeature);
    }
    let long_structs = s_feature_incompat & INCOMPAT_64BIT != 0;
    if EXT4_SUPER_MAGIC != s_magic {
        return Err(FsError::BadMagic);
    }
    if 0 != s_creator_os {
        return Err(FsError::NonLinuxCreator);
    }
    if s_state & 0b01 == 0 || s_state & 0b10 != 0 {
        return Err(FsError::UncleanState);
    }
    if 0 == s_inodes_per_group {
        return Err(FsError::UnsupportedLayout);
    }
    let block_size: u32 = match s_log_block_size {
        0 => 1024,
        1 => 2048,
        2 => 4096,
        6 => 65536,
        _ => {
            return Err(FsError::UnsupportedLayout);
        },
    };
    if !long_structs && s_desc_size != 0 {
        return Err(FsError::UnsupportedLayout);
    }
    if s_desc_size != 0 && s_desc_size != 32 && s_desc_size != 64 {
        return Err(FsError::UnsupportedLayout);
    }
    if 1 != s_rev_level {
        return Err(FsError::UnsupportedLayout);
    }
    if s_inode_size < 128 {
        return Err(FsError::UnsupportedLayout);
    }
    if s_blocks_per_group == 0 {
        return Err(FsError::UnsupportedLayout);
    }
    let s_blocks_count_hi: u32 = if long_structs {
        as_u32(sb, 336)
    } else {
        0
    };
    let blocks_count: u64 = s_blocks_count_lo as u64 + 0x1_0000_0000 * s_blocks_count_hi as u64;
    if blocks_count < s_first_data_block as u64 {
        return Err(FsError::Arithmetic);
    }
    let data_blocks = blocks_count - s_first_data_block as u64;
    let per = s_blocks_per_group as u64;
    let whole = data_blocks / per;
    let count: u64 = if data_blocks % per != 0 {
        proof {
            vstd::arithmetic::div_mod::lemma_fundamental_div_mod(data_blocks as int, per as int);
            assert(whole < u64::MAX) by (nonlinear_arith)
                requires
                    data_blocks == per * whole + data_blocks % per,
                    data_blocks % per > 0,
                    per >= 2,
                    data_blocks <= u64::MAX,
                    whole >= 0,
            ;
        }
        whole + 1
    } else {
        whole
    };
    let group_table_pos: u64 = if 1024 == block_size {
        // boot sector, then superblock
        1024 + 1024
    } else {
        // boot sector and superblock share the first block
        block_size as u64
    };
    let stride: u64 = if s_desc_size == 0 {
        32
    } else {
        s_desc_size as u64
    };
    let ghost img = inner@;
    let ghost sbs = sbv@;
    proof {
        assert(sbs == img.subrange(1024, 2048));
        assert(superblock_problem(sbs) is None);
        assert(group_count(sbs) == count);
    }
    let img_len = inner.len();
    proof {
        assert(superblock_of(img) == match groups_of(
            img,
            group_table_pos as int,
            stride as int,
            s_inodes_per_group,
            count as nat,
        ) {
            Err(e) => Err(e),
            Ok(gs) => Ok((block_size, s_inode_size, s_inodes_per_group, gs)),
        });
    }
    let mut groups: Vec<BlockGroup> = Vec::new();
    let mut g: u64 = 0;
    while g < count
        invariant
            g <= count,
            inner@ == img,
            img_len == img.len(),
            superblock_of(img) == match groups_of(
                img,
                group_table_pos as int,
                stride as int,
                s_inodes_per_group,
                count as nat,
            ) {
                Err(e) => Err(e),
                Ok(gs) => Ok((block_size, s_inode_size, s_inodes_per_group, gs)),
            },
            stride == 32 || stride == 64,
            groups_of(img, group_table_pos as int, stride as int, s_inodes_per_group, g as nat)
                == Ok::<Seq<BlockGroup>, FsError>(groups@),
        decreases count - g,
    {
        let pos = match g.checked_mul(stride) {
            Some(off) => off.checked_add(group_table_pos),
            None => None,
        };
        let pos = match pos {
            Some(pos) => pos,
            None => {
                proof {
                    assert(bytes_at(img, group_table_pos + g * stride, stride as int) is None)
                        by (nonlinear_arith)
                        requires
                            group_table_pos + g * stride > u64::MAX || g * stride > u64::MAX,
                            g >= 0,
                            group_table_pos >= 0,
                            img.len() <= u64::MAX,
                    ;
                    lemma_groups_error_persists(img, group_table_pos as int, stride as int,
                        s_inodes_per_group, (g + 1) as nat, count as nat);
                }
                return Err(FsError::Io);
            },
        };
        let d = match inner.read_at(pos, stride as usize) {
            Ok(d) => d,
            Err(e) => {
                proof {
                    lemma_groups_error_persists(img, group_table_pos as int, stride as int,
                        s_inodes_per_group, (g + 1) as nat, count as nat);
                }
                return Err(e);
            },
        };
        match parse_group(d.as_slice(), s_inodes_per_group) {
            Ok(group) => {
                groups.push(group);
            },
            Err(e) => {
                proof {
                    lemma_groups_error_persists(img, group_table_pos as int, stride as int,
                        s_inodes_per_group, (g + 1) as nat, count as nat);
                }
                return Err(e);
            },
        }
        g = g + 1;
    }
    Ok(
        SuperBlock {
            block_size,
            inode_size: s_inode_size,
            inodes_per_group: s_inodes_per_group,
            groups,
        },
    )
}

impl SuperBlock {
    /// Whether the fields hold what loading guarantees.
    pub open spec fn wf(&self) -> bool {
        &&& self.block_size == 1024 || self.block_size == 2048 || self.block_size == 4096
            || self.block_size == 65536
        &&& self.inode_size >= 128
        &&& self.inodes_per_group > 0
    }

    /// Reads and validates the superblock at offset 1024 and the group
    /// descriptor table after it.
    pub fn load(inner: &Image) -> (r: Result<SuperBlock, FsError>)
        ensures
            match superblock_of(inner@) {
                Ok((bs, isz, ipg, groups)) => r matches Ok(s) && s.block_size == bs && s.inode_size
                    == isz && s.inodes_per_group == ipg && s.groups@ == groups && s.wf(),
                Err(e) => r matches Err(x) && x == e,
            },
    {
        superblock(inner)
    }

    /// Where inode number `n` is stored, or why it cannot be located: the
    /// number must be positive and name a used slot of an existing group.
    pub open spec fn inode_position(&self, n: u32) -> Result<int, FsError> {
        if n == 0 {
            Err(FsError::InodeOutOfRange)
        } else {
            let g = (n - 1) / (self.inodes_per_group as int);
            let idx = (n - 1) % (self.inodes_per_group as int);
            if g >= self.groups@.len() || idx >= self.groups@[g].inodes {
                Err(FsError::InodeOutOfRange)
            } else {
                Ok(
                    self.groups@[g].inode_table_block as int * self.block_size as int + idx
                        * self.inode_size as int,
                )
            }
        }
    }

    /// Loads inode number `n` (numbers start at 1).
    pub fn load_inode(&self, inner: &Image, n: u32) -> (r: Result<Inode, FsError>)
        requires
            self.wf(),
        ensures
            match self.inode_position(n) {
                Err(e) => r matches Err(x) && x == e,
                Ok(pos) => match bytes_at(inner@, pos, self.inode_size as int) {
                    None => r matches Err(x) && x == FsError::Io,
                    Some(raw) => match inode_problem(raw) {
                        Some(e) => r matches Err(x) && x == e,
                        None => r matches Ok(i) && inode_matches(i, raw, n, self.block_size),
                    },
                },
            },
    {
        if n == 0 {
            return Err(FsError::InodeOutOfRange);
        }
        let k = n - 1;
        let group_number = k / self.inodes_per_group;
        let inode_index_in_group = k % self.inodes_per_group;
        if group_number as usize >= self.groups.len() {
            return Err(FsError::InodeOutOfRange);
        }
        let group = self.groups[group_number as usize];
        if inode_index_in_group >= group.inodes {
            return Err(FsError::InodeOutOfRange);
        }
        let ghost img = inner@;
        let img_len = inner.len();
        let ghost want = group.inode_table_block as int * self.block_size as int
            + inode_index_in_group as int * self.inode_size as int;
        proof {
            assert(inode_index_in_group as int * self.inode_size as int <= 0xffff_ffff * 0xffff)
                by (nonlinear_arith)
                requires
                    inode_index_in_group <= 0xffff_ffffu32,
                    self.inode_size <= 0xffffu16,
            ;
        }
        let pos = match group.inode_table_block.checked_mul(self.block_size as u64) {
            Some(base) => base.checked_add(inode_index_in_group as u64 * self.inode_size as u64),
            None => None,
        };
        let pos = match pos {
            Some(pos) => pos,
            None => {
                proof {
                    assert(want > u64::MAX) by (nonlinear_arith)
                        requires
                            want == group.inode_table_block as int * self.block_size as int
                                + inode_index_in_group as int * self.inode_size as int,
                            group.inode_table_block as int * self.block_size as int > u64::MAX
                                || want > u64::MAX,
                            inode_index_in_group as int * self.inode_size as int >= 0,
                    ;
                }
                return Err(FsError::Io);
            },
        };
        let raw = inner.read_at(pos, self.inode_size as usize)?;
        inode(raw.as_slice(), n, self.block_size)
    }

    /// Loads the root directory's inode, number 2.
    pub fn root(&self, inner: &Image) -> (r: Result<Inode, FsError>)
        requires
            self.wf(),
        ensures
            match self.inode_position(2) {
                Err(e) => r matches Err(x) && x == e,
                Ok(pos) => match bytes_at(inner@, pos, self.inode_size as int) {
                    None => r matches Err(x) && x == FsError::Io,
                    Some(raw) => match inode_problem(raw) {
                        Some(e) => r matches Err(x) && x == e,
                        None => r matches Ok(i) && inode_matches(i, raw, 2, self.block_size),
                    },
                },
            },
    {
        self.load_inode(inner, 2)
    }

    /// A reader over the contents of `inode`, at offset 0.
    pub fn reader_for<'a, C: Crypto>(&self, inner: &'a Image, inode: &Inode, crypto: &'a C) -> (r:
        Result<TreeReader<'a, C>, FsError>)
        requires
            self.wf(),
        ensures
            match tree_extents(inner@, self.block_size as nat, inode.block@, None, false) {
                Ok(found) => r matches Ok(t) && t.wf() && t.extents() == found && t.image()
                    == inner@ && t.position() == 0 && t.size() == inode.stat.size
                    && t.block_size_of() == self.block_size && !t.decrypts() && t.context() is None
                    && t.ino() == inode.number && t.hook() == *crypto,
                Err(e) => r matches Err(x) && x == e,
            },
    {
        TreeReader::new(
            inner,
            self.block_size,
            inode.stat.size,
            inode.block.as_slice(),
            None,
            false,
            None,
            crypto,
            inode.number,
        )
    }

    /// The whole contents of `inode`.
    pub fn load_all(&self, inner: &Image, inode: &Inode) -> (r: Result<Vec<u8>, FsError>)
        requires
            self.wf(),
        ensures
            ({
                let bs = self.block_size as nat;
                let size = inode.stat.size as int;
                if size > usize::MAX {
                    r matches Err(x) && x == FsError::Arithmetic
                } else {
                    match tree_extents(inner@, bs, inode.block@, None, false) {
                        Err(e) => r matches Err(x) && x == e,
                        Ok(ex) => {
                            &&& r matches Ok(v) ==> v@ == file_bytes(inner@, ex, bs, 0, size)
                            &&& contents_readable(inner@, ex, bs, size) ==> r is Ok
                        },
                    }
                }
            }),
    {
        if inode.stat.size > usize::MAX as u64 {
            return Err(FsError::Arithmetic);
        }
        let crypto = NoneCrypto {};
        let mut reader = self.reader_for(inner, inode, &crypto)?;
        let mut ret: Vec<u8> = Vec::new();
        reader.read_to_end(&mut ret)?;
        proof {
            assert(ret@ =~= ret@.subrange(0, ret@.len() as int));
        }
        Ok(ret)
    }

    /// The entries of directory `inode`, whose content must be stored
    /// through an extent tree.
    pub fn read_directory(&self, inner: &Image, inode: &Inode) -> (r: Result<Vec<DirEntry>, FsError>)
        requires
            self.wf(),
        ensures
            !extents_only(inode.flags) ==> (r matches Err(x) && x == FsError::UnsupportedFeature),
            extents_only(inode.flags) && inode.stat.size > usize::MAX ==> (r matches Err(x) && x
                == FsError::Arithmetic),
            extents_only(inode.flags) && inode.stat.size <= usize::MAX ==> ({
                let bs = self.block_size as nat;
                let size = inode.stat.size as int;
                match tree_extents(inner@, bs, inode.block@, None, false) {
                    Err(e) => r matches Err(x) && x == e,
                    Ok(ex) => {
                        let listed = dir_records(file_bytes(inner@, ex, bs, 0, size), 0);
                        &&& r matches Ok(v) ==> listed == Ok::<Seq<(u32, FileType, Seq<char>)>, FsError>(
                            v@.map_values(|e: DirEntry| e@),
                        )
                        &&& contents_readable(inner@, ex, bs, size) ==> match listed {
                            Ok(entries) => r matches Ok(v) && v@.map_values(|e: DirEntry| e@)
                                == entries,
                            Err(e) => r matches Err(x) && x == e,
                        }
                    },
                }
            }),
    {
        if !inode.only_relevant_flag_is_extents() {
            return Err(FsError::UnsupportedFeature);
        }
        let data = self.load_all(inner, inode)?;
        parse_directory(data.as_slice())
    }

    /// Interprets `inode` by its type: a directory's entries, a symbolic
    /// link's target, a device's numbers.
    pub fn enhance(&self, inner: &Image, inode: &Inode) -> (r: Result<Enhanced, FsError>)
        requires
            self.wf(),
            inode.block@.len() == INODE_BLOCK_SIZE,
        ensures
            ({
                let bs = self.block_size as nat;
                let size = inode.stat.size as int;
                let contents = match tree_extents(inner@, bs, inode.block@, None, false) {
                    Ok(ex) => Some(file_bytes(inner@, ex, bs, 0, size)),
                    Err(_) => None,
                };
                match inode.stat.extracted_type {
                    FileType::RegularFile => r matches Ok(Enhanced::RegularFile),
                    FileType::Fifo => r matches Ok(Enhanced::Fifo),
                    FileType::Socket => r matches Ok(Enhanced::Socket),
                    FileType::CharacterDevice => r matches Ok(Enhanced::CharacterDevice(a, b))
                        && (a, b) == maj_min_of(inode.block@),
                    FileType::BlockDevice => r matches Ok(Enhanced::BlockDevice(a, b)) && (a, b)
                        == maj_min_of(inode.block@),
                    FileType::Directory => {
                        &&& r matches Ok(Enhanced::Directory(v)) ==> (extents_only(inode.flags)
                            && contents is Some && dir_records(contents->Some_0, 0) == Ok::<
                            Seq<(u32, FileType, Seq<char>)>,
                            FsError,
                        >(v@.map_values(|e: DirEntry| e@)))
                        &&& r is Ok ==> (r matches Ok(Enhanced::Directory(_)))
                        &&& !extents_only(inode.flags) ==> (r matches Err(x) && x
                            == FsError::UnsupportedFeature)
                        &&& extents_only(inode.flags) && size > usize::MAX ==> (r matches Err(x)
                            && x == FsError::Arithmetic)
                        &&& extents_only(inode.flags) && size <= usize::MAX ==> match tree_extents(
                            inner@,
                            bs,
                            inode.block@,
                            None,
                            false,
                        ) {
                            Err(e) => r matches Err(x) && x == e,
                            Ok(ex) => contents_readable(inner@, ex, bs, size) ==> match dir_records(
                                file_bytes(inner@, ex, bs, 0, size),
                                0,
                            ) {
                                Ok(entries) => r matches Ok(Enhanced::Directory(v)) && v@.map_values(
                                    |e: DirEntry| e@,
                                ) == entries,
                                Err(e) => r matches Err(x) && x == e,
                            },
                        }
                    },
                    FileType::SymbolicLink => if size < 60 {
                        let target = inode.block@.subrange(0, size);
                        if inode.flags != 0 {
                            r matches Err(x) && x == FsError::UnsupportedFeature
                        } else if valid_utf8(target) {
                            r matches Ok(Enhanced::SymbolicLink(s)) && s@ == decode_utf8(target)
                        } else {
                            r matches Err(x) && x == FsError::BadUtf8
                        }
                    } else if !extents_only(inode.flags) {
                        r matches Err(x) && x == FsError::UnsupportedFeature
                    } else if size > usize::MAX {
                        r matches Err(x) && x == FsError::Arithmetic
                    } else {
                        match tree_extents(inner@, bs, inode.block@, None, false) {
                            Err(e) => r matches Err(x) && x == e,
                            Ok(ex) => {
                                let target = file_bytes(inner@, ex, bs, 0, size);
                                &&& r matches Ok(Enhanced::SymbolicLink(s)) ==> valid_utf8(target)
                                    && s@ == decode_utf8(target)
                                &&& r is Ok ==> (r matches Ok(Enhanced::SymbolicLink(_)))
                                &&& contents_readable(inner@, ex, bs, size) ==> if valid_utf8(
                                    target,
                                ) {
                                    r matches Ok(Enhanced::SymbolicLink(s)) && s@ == decode_utf8(
                                        target,
                                    )
                                } else {
                                    r matches Err(x) && x == FsError::BadUtf8
                                }
                            },
                        }
                    },
                }
            }),
    {
        match inode.stat.extracted_type {
            FileType::RegularFile => Ok(Enhanced::RegularFile),
            FileType::Socket => Ok(Enhanced::Socket),
            FileType::Fifo => Ok(Enhanced::Fifo),
            FileType::Directory => {
                let entries = self.read_directory(inner, inode)?;
                Ok(Enhanced::Directory(entries))
            },
            FileType::SymbolicLink => {
                if inode.stat.size < 60 {
                    if inode.flags != 0 {
                        return Err(FsError::UnsupportedFeature);
                    }
                    let size = inode.stat.size as usize;
                    match utf8_string(&inode.block.as_slice()[0..size]) {
                        Some(target) => Ok(Enhanced::SymbolicLink(target)),
                        None => Err(FsError::BadUtf8),
                    }
                } else {
                    if !inode.only_relevant_flag_is_extents() {
                        return Err(FsError::UnsupportedFeature);
                    }
                    let data = self.load_all(inner, inode)?;
                    match utf8_string(data.as_slice()) {
                        Some(target) => Ok(Enhanced::SymbolicLink(target)),
                        None => Err(FsError::BadUtf8),
                    }
                }
            },
            FileType::CharacterDevice => {
                let (maj, min) = load_maj_min(inode.block.as_slice());
                Ok(Enhanced::CharacterDevice(maj, min))
            },
            FileType::BlockDevice => {
                let (maj, min) = load_maj_min(inode.block.as_slice());
                Ok(Enhanced::BlockDevice(maj, min))
            },
        }
    }
}

} // verus!
