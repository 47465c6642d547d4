use ext4::directory::parse_directory;
use ext4::error::FsError;
use ext4::image::Image;
use ext4::inode::{inode, load_maj_min, FileType, Inode, Stat, Time};
use ext4::superblock::{superblock, Enhanced, SuperBlock};

fn put16(img: &mut [u8], at: usize, v: u16) {
    img[at..at + 2].copy_from_slice(&v.to_le_bytes());
}

fn put32(img: &mut [u8], at: usize, v: u32) {
    img[at..at + 4].copy_from_slice(&v.to_le_bytes());
}

fn extent_root(block: &mut [u8], logical: u32, len: u16, start: u32) {
    block[0] = 0x0a;
    block[1] = 0xf3;
    block[2..4].copy_from_slice(&1u16.to_le_bytes());
    block[4..6].copy_from_slice(&4u16.to_le_bytes());
    block[12..16].copy_from_slice(&logical.to_le_bytes());
    block[16..18].copy_from_slice(&len.to_le_bytes());
    block[20..24].copy_from_slice(&start.to_le_bytes());
}

fn dir_record(out: &mut Vec<u8>, ino: u32, rec_len: u16, hint: u8, name: &[u8]) {
    let start = out.len();
    out.extend_from_slice(&ino.to_le_bytes());
    out.extend_from_slice(&rec_len.to_le_bytes());
    out.push(name.len() as u8);
    out.push(hint);
    out.extend_from_slice(name);
    out.resize(start + rec_len as usize, 0);
}

const INODE_TABLE: usize = 4 * 1024;

/// A filesystem of eight 1 KiB blocks: one group, sixteen inodes of which
/// twelve are in use; the root directory (inode 2) in block 6 lists
/// `hello` (inode 12), a five-byte file in block 7.
fn small_fs() -> Vec<u8> {
    let mut img = vec![0u8; 8 * 1024];
    let sb = 1024;
    put32(&mut img, sb + 4, 8);
    put32(&mut img, sb + 20, 1);
    put32(&mut img, sb + 24, 0);
    put32(&mut img, sb + 32, 8192);
    put32(&mut img, sb + 40, 16);
    put16(&mut img, sb + 56, 0xEF53);
    put16(&mut img, sb + 58, 1);
    put32(&mut img, sb + 76, 1);
    put16(&mut img, sb + 88, 128);
    put32(&mut img, sb + 96, 0x42);
    let gd = 2048;
    put32(&mut img, gd + 8, 4);
    put16(&mut img, gd + 14, 4);

    let root = INODE_TABLE + 128;
    put16(&mut img, root, 0x41ED);
    put16(&mut img, root + 2, 1000);
    put32(&mut img, root + 4, 1024);
    put32(&mut img, root + 8, 111);
    put32(&mut img, root + 12, 222);
    put32(&mut img, root + 16, 333);
    put16(&mut img, root + 24, 100);
    put16(&mut img, root + 26, 3);
    put32(&mut img, root + 32, 0x80000);
    put16(&mut img, root + 120, 1);
    extent_root(&mut img[root + 40..root + 100], 0, 1, 6);

    let file = INODE_TABLE + 11 * 128;
    put16(&mut img, file, 0x81A4);
    put32(&mut img, file + 4, 5);
    put16(&mut img, file + 26, 1);
    put32(&mut img, file + 32, 0x80000);
    extent_root(&mut img[file + 40..file + 100], 0, 1, 7);

    let mut dir = Vec::new();
    dir_record(&mut dir, 2, 12, 2, b".");
    dir_record(&mut dir, 2, 12, 2, b"..");
    dir_record(&mut dir, 12, 1000, 1, b"hello");
    img[6 * 1024..7 * 1024].copy_from_slice(&dir);
    img[7 * 1024..7 * 1024 + 5].copy_from_slice(b"world");
    img
}

fn load(img: Vec<u8>) -> Result<SuperBlock, FsError> {
    SuperBlock::load(&Image::new(img))
}

#[test]
fn superblock_loads_groups() {
    let img = Image::new(small_fs());
    let sb = SuperBlock::load(&img).unwrap();
    assert_eq!(1024, sb.block_size);
    assert_eq!(128, sb.inode_size);
    assert_eq!(16, sb.inodes_per_group);
    assert_eq!(1, sb.groups.len());
    assert_eq!(4, sb.groups[0].inode_table_block);
    assert_eq!(12, sb.groups[0].inodes);
    let again = superblock(&img).unwrap();
    assert_eq!(sb.groups, again.groups);
}

#[test]
fn superblock_rejections() {
    let mut img = small_fs();
    put16(&mut img, 1024 + 56, 0xEF54);
    assert_eq!(FsError::BadMagic, load(img).unwrap_err());

    let mut img = small_fs();
    put32(&mut img, 1024 + 96, 0x42 | 0x10);
    assert_eq!(FsError::UnsupportedFeature, load(img).unwrap_err());

    let mut img = small_fs();
    put32(&mut img, 1024 + 72, 3);
    assert_eq!(FsError::NonLinuxCreator, load(img).unwrap_err());

    let mut img = small_fs();
    put16(&mut img, 1024 + 58, 3);
    assert_eq!(FsError::UncleanState, load(img).unwrap_err());

    let mut img = small_fs();
    put32(&mut img, 1024 + 24, 3);
    assert_eq!(FsError::UnsupportedLayout, load(img).unwrap_err());

    let mut img = small_fs();
    put32(&mut img, 1024 + 76, 0);
    assert_eq!(FsError::UnsupportedLayout, load(img).unwrap_err());

    let mut img = small_fs();
    put16(&mut img, 1024 + 254, 32);
    assert_eq!(FsError::UnsupportedLayout, load(img).unwrap_err());

    let mut img = small_fs();
    put32(&mut img, 1024 + 40, 0);
    assert_eq!(FsError::UnsupportedLayout, load(img).unwrap_err());

    let mut img = small_fs();
    put16(&mut img, 2048 + 14, 17);
    assert_eq!(FsError::CorruptGroup, load(img).unwrap_err());

    let mut img = small_fs();
    put32(&mut img, 1024 + 20, 9);
    assert_eq!(FsError::Arithmetic, load(img).unwrap_err());

    assert_eq!(FsError::Io, load(vec![0u8; 1500]).unwrap_err());
}

#[test]
fn group_count_rounds_up_and_unused_groups_hold_no_inodes() {
    let mut img = small_fs();
    put32(&mut img, 1024 + 32, 4);
    put16(&mut img, 2048 + 32 + 18, 1);
    let sb = load(img).unwrap();
    assert_eq!(2, sb.groups.len());
    assert_eq!(0, sb.groups[1].inodes);
}

#[test]
fn sixty_four_bit_descriptors_carry_high_words() {
    let mut img = small_fs();
    put32(&mut img, 1024 + 96, 0x42 | 0x80);
    put16(&mut img, 1024 + 254, 64);
    put32(&mut img, 2048 + 40, 1);
    put16(&mut img, 2048 + 46, 0);
    let sb = load(img).unwrap();
    assert_eq!(0x1_0000_0004, sb.groups[0].inode_table_block);
    assert_eq!(12, sb.groups[0].inodes);
}

#[test]
fn root_inode_is_a_directory() {
    let img = Image::new(small_fs());
    let sb = SuperBlock::load(&img).unwrap();
    let root = sb.root(&img).unwrap();
    assert_eq!(2, root.number);
    let expected = Stat {
        extracted_type: FileType::Directory,
        file_mode: 0o755,
        uid: 1000 + 65536,
        gid: 100,
        size: 1024,
        atime: Time { epoch_secs: 111, nanos: None },
        ctime: Time { epoch_secs: 222, nanos: None },
        mtime: Time { epoch_secs: 333, nanos: None },
        btime: None,
        link_count: 3,
    };
    assert_eq!(expected, root.stat);
    assert!(root.only_relevant_flag_is_extents());
    match sb.enhance(&img, &root).unwrap() {
        Enhanced::Directory(entries) => {
            let names: Vec<(u32, FileType, String)> =
                entries.into_iter().map(|e| (e.inode, e.file_type, e.name)).collect();
            assert_eq!(
                vec![
                    (2, FileType::Directory, ".".to_string()),
                    (2, FileType::Directory, "..".to_string()),
                    (12, FileType::RegularFile, "hello".to_string()),
                ],
                names
            );
        },
        other => panic!("not a directory: {:?}", other),
    }
}

#[test]
fn file_contents_load_in_full() {
    let img = Image::new(small_fs());
    let sb = SuperBlock::load(&img).unwrap();
    let file = sb.load_inode(&img, 12).unwrap();
    assert_eq!(FileType::RegularFile, file.stat.extracted_type);
    assert_eq!(file.stat.size as usize, sb.load_all(&img, &file).unwrap().len());
    assert_eq!(b"world".to_vec(), sb.load_all(&img, &file).unwrap());
    assert!(matches!(sb.enhance(&img, &file), Ok(Enhanced::RegularFile)));
    let crypto = ext4::reader::NoneCrypto {};
    let mut reader = sb.reader_for(&img, &file, &crypto).unwrap();
    let mut buf = [0u8; 3];
    assert_eq!(Ok(3), reader.read(&mut buf));
    assert_eq!(*b"wor", buf);
}

#[test]
fn inode_numbers_out_of_range() {
    let img = Image::new(small_fs());
    let sb = SuperBlock::load(&img).unwrap();
    assert_eq!(FsError::InodeOutOfRange, sb.load_inode(&img, 0).unwrap_err());
    assert_eq!(FsError::InodeOutOfRange, sb.load_inode(&img, 13).unwrap_err());
    assert_eq!(FsError::InodeOutOfRange, sb.load_inode(&img, 100).unwrap_err());
    // a used slot whose mode names no file type
    assert_eq!(FsError::BadMode, sb.load_inode(&img, 1).unwrap_err());
}

#[test]
fn inode_extended_fields_follow_extra_isize() {
    let mut raw = vec![0u8; 160];
    put16(&mut raw, 0, 0x81A4);
    put32(&mut raw, 108, 1);
    put16(&mut raw, 128, 12);
    put32(&mut raw, 132, 7);
    put32(&mut raw, 136, 8);
    put32(&mut raw, 140, 9);
    put32(&mut raw, 144, 10);
    let i = inode(&raw, 5, 4096).unwrap();
    assert_eq!(0x1_0000_0000, i.stat.size);
    assert_eq!(Some(7), i.stat.ctime.nanos);
    assert_eq!(Some(8), i.stat.mtime.nanos);
    assert_eq!(None, i.stat.atime.nanos);
    assert_eq!(None, i.stat.btime);
    assert_eq!(60, i.block.len());
    assert_eq!(5, i.number);
    put32(&mut raw, 32, 0x4000_0000);
    assert_eq!(FsError::UnsupportedFeature, inode(&raw, 5, 4096).unwrap_err());
}

#[test]
fn file_types_decode() {
    assert_eq!(Some(FileType::RegularFile), FileType::from_mode(0x81A4));
    assert_eq!(Some(FileType::SymbolicLink), FileType::from_mode(0xA1FF));
    assert_eq!(Some(FileType::Fifo), FileType::from_mode(0x1000));
    assert_eq!(None, FileType::from_mode(0x3000));
    assert_eq!(Some(FileType::Socket), FileType::from_dir_hint(6));
    assert_eq!(Some(FileType::SymbolicLink), FileType::from_dir_hint(7));
    assert_eq!(None, FileType::from_dir_hint(0));
}

fn bare_inode(mode: u16, size: u64, flags: u32, block: Vec<u8>) -> Inode {
    let t = Time { epoch_secs: 0, nanos: None };
    Inode {
        stat: Stat {
            extracted_type: FileType::from_mode(mode).unwrap(),
            file_mode: mode & 0o7777,
            uid: 0,
            gid: 0,
            size,
            atime: t,
            ctime: t,
            mtime: t,
            btime: None,
            link_count: 1,
        },
        number: 20,
        flags,
        block,
        block_size: 1024,
    }
}

#[test]
fn devices_and_short_links_enhance() {
    let img = Image::new(small_fs());
    let sb = SuperBlock::load(&img).unwrap();
    let mut block = vec![0u8; 60];
    block[0] = 5;
    block[1] = 1;
    let dev = bare_inode(0x2180, 0, 0, block);
    assert!(matches!(sb.enhance(&img, &dev), Ok(Enhanced::CharacterDevice(1, 5))));

    let mut block = vec![0u8; 60];
    block[..5].copy_from_slice(b"there");
    let link = bare_inode(0xA1FF, 5, 0, block.clone());
    match sb.enhance(&img, &link) {
        Ok(Enhanced::SymbolicLink(target)) => assert_eq!("there", target),
        other => panic!("not a link: {:?}", other),
    }
    let flagged = bare_inode(0xA1FF, 5, 0x80000, block);
    assert_eq!(FsError::UnsupportedFeature, sb.enhance(&img, &flagged).unwrap_err());
    let mut bad = vec![0u8; 60];
    bad[0] = 0xff;
    let bad_link = bare_inode(0xA1FF, 1, 0, bad);
    assert_eq!(FsError::BadUtf8, sb.enhance(&img, &bad_link).unwrap_err());
}

#[test]
fn device_numbers_decode_both_encodings() {
    let mut block = [0u8; 60];
    block[0] = 3;
    block[1] = 8;
    assert_eq!((8, 3), load_maj_min(&block));
    let mut block = [0u8; 60];
    block[4] = 0x34;
    block[5] = 0x12;
    block[6] = 0xa5;
    block[7] = 0x01;
    assert_eq!((0x512, 0x1a34), load_maj_min(&block));
}

#[test]
fn directory_records_decode_and_fail() {
    let mut dir = Vec::new();
    dir_record(&mut dir, 0, 12, 1, b"gone");
    dir_record(&mut dir, 7, 16, 2, b"sub");
    let entries = parse_directory(&dir).unwrap();
    assert_eq!(1, entries.len());
    assert_eq!((7, FileType::Directory, "sub"), (entries[0].inode, entries[0].file_type, entries[0].name.as_str()));

    let mut bad = Vec::new();
    dir_record(&mut bad, 7, 12, 1, &[0xc3]);
    assert_eq!(FsError::BadUtf8, parse_directory(&bad).unwrap_err());

    let mut hint = Vec::new();
    dir_record(&mut hint, 7, 12, 9, b"x");
    assert_eq!(FsError::BadMode, parse_directory(&hint).unwrap_err());

    let mut short = Vec::new();
    dir_record(&mut short, 7, 12, 1, b"x");
    short.truncate(10);
    assert_eq!(FsError::CorruptDirectory, parse_directory(&short).unwrap_err());

    let mut zero_len = Vec::new();
    dir_record(&mut zero_len, 7, 12, 1, b"x");
    zero_len[4] = 0;
    assert_eq!(FsError::CorruptDirectory, parse_directory(&zero_len).unwrap_err());
}

#[test]
fn directories_need_the_extents_flag() {
    let img = Image::new(small_fs());
    let sb = SuperBlock::load(&img).unwrap();
    let mut root = sb.root(&img).unwrap();
    root.flags = 0;
    assert_eq!(FsError::UnsupportedFeature, sb.read_directory(&img, &root).unwrap_err());
}

#[test]
fn directory_names_decode_as_utf8() {
    let mut dir = Vec::new();
    dir_record(&mut dir, 9, 16, 1, "café".as_bytes());
    let entries = parse_directory(&dir).unwrap();
    assert_eq!("café", entries[0].name);
    assert_eq!(4, entries[0].name.chars().count());
}
