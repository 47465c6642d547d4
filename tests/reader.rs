use std::convert::TryFrom;

use ext4::codec::ext4_style_crc32c_le;
use ext4::error::FsError;
use ext4::extents::{find_part, load_extent_tree, Extent, FoundPart};
use ext4::image::Image;
use ext4::reader::{zero, Crypto, NoneCrypto, SeekFrom, TreeReader};

fn counting_image() -> Image {
    Image::new((0..255u8).collect::<Vec<u8>>())
}

fn ext(part: u32, start: u64, len: u16) -> Extent {
    Extent { part, start, len }
}

#[test]
fn simple_tree() {
    let size = 4 + 4 * 2;
    let crypto = NoneCrypto {};
    let data = counting_image();
    let mut reader = TreeReader::create(
        &data,
        4,
        u64::try_from(size).expect("infallible u64 conversion"),
        vec![ext(0, 10, 1), ext(1, 20, 2)],
        None,
        &crypto,
        0,
    );

    let mut res = Vec::new();
    assert_eq!(size, reader.read_to_end(&mut res).unwrap());

    assert_eq!(vec![40, 41, 42, 43, 80, 81, 82, 83, 84, 85, 86, 87], res);
}

#[test]
fn zero_buf() {
    let mut buf = [7u8; 5];
    assert_eq!(7, buf[0]);
    zero(&mut buf);
    for i in &buf {
        assert_eq!(0, *i);
    }
}

#[test]
fn sparse_gap_reads_zeros() {
    let crypto = NoneCrypto {};
    let data = counting_image();
    let mut reader =
        TreeReader::create(&data, 4, 16, vec![ext(0, 10, 1), ext(2, 20, 1)], None, &crypto, 0);
    let mut res = Vec::new();
    assert_eq!(16, reader.read_to_end(&mut res).unwrap());
    assert_eq!(vec![40, 41, 42, 43, 0, 0, 0, 0, 80, 81, 82, 83, 0, 0, 0, 0], res);
}

#[test]
fn partial_final_block() {
    let crypto = NoneCrypto {};
    let data = counting_image();
    let mut reader = TreeReader::create(&data, 4, 3, vec![ext(0, 10, 1)], None, &crypto, 0);
    let mut res = Vec::new();
    assert_eq!(3, reader.read_to_end(&mut res).unwrap());
    assert_eq!(vec![40, 41, 42], res);
}

#[test]
fn seek_then_read_to_end() {
    let crypto = NoneCrypto {};
    let data = counting_image();
    let mut reader =
        TreeReader::create(&data, 4, 12, vec![ext(0, 10, 1), ext(1, 20, 2)], None, &crypto, 0);
    let mut res = Vec::new();
    reader.read_to_end(&mut res).unwrap();
    assert_eq!(Ok(5), reader.seek(SeekFrom::Start(5)));
    let mut rest = Vec::new();
    assert_eq!(7, reader.read_to_end(&mut rest).unwrap());
    assert_eq!(vec![81, 82, 83, 84, 85, 86, 87], rest);
}

#[test]
fn small_reads_are_monotone() {
    let crypto = NoneCrypto {};
    let data = counting_image();
    let mut reader =
        TreeReader::create(&data, 4, 16, vec![ext(0, 10, 1), ext(2, 20, 1)], None, &crypto, 0);
    let mut all = Vec::new();
    let mut last = 0u64;
    loop {
        let mut buf = [9u8; 3];
        let n = reader.read(&mut buf).unwrap();
        if n == 0 {
            break;
        }
        assert!(reader.pos() > last);
        assert_eq!(reader.pos(), last + n as u64);
        last = reader.pos();
        all.extend_from_slice(&buf[..n]);
    }
    assert_eq!(16, reader.pos());
    assert_eq!(vec![40, 41, 42, 43, 0, 0, 0, 0, 80, 81, 82, 83, 0, 0, 0, 0], all);
}

#[test]
fn read_stops_at_extent_end() {
    let crypto = NoneCrypto {};
    let data = counting_image();
    let mut reader =
        TreeReader::create(&data, 4, 16, vec![ext(0, 10, 1), ext(2, 20, 1)], None, &crypto, 0);
    let mut buf = [9u8; 10];
    assert_eq!(Ok(4), reader.read(&mut buf));
    assert_eq!([40, 41, 42, 43, 9, 9, 9, 9, 9, 9], buf);
    assert_eq!(Ok(4), reader.read(&mut buf));
    assert_eq!([0, 0, 0, 0, 41, 42, 43, 9, 9, 9][..4], buf[..4]);
}

#[test]
fn hole_after_mid_block_seek_stops_at_next_extent() {
    let crypto = NoneCrypto {};
    let data = counting_image();
    let mut reader =
        TreeReader::create(&data, 4, 16, vec![ext(0, 10, 1), ext(2, 20, 1)], None, &crypto, 0);
    assert_eq!(Ok(6), reader.seek(SeekFrom::Start(6)));
    let mut buf = [9u8; 8];
    assert_eq!(Ok(2), reader.read(&mut buf));
    assert_eq!([0, 0], buf[..2]);
    assert_eq!(Ok(4), reader.read(&mut buf));
    assert_eq!([80, 81, 82, 83], buf[..4]);
}

#[test]
fn empty_buffer_and_end_of_file_read_nothing() {
    let crypto = NoneCrypto {};
    let data = counting_image();
    let mut reader = TreeReader::create(&data, 4, 3, vec![ext(0, 10, 1)], None, &crypto, 0);
    let mut empty: [u8; 0] = [];
    assert_eq!(Ok(0), reader.read(&mut empty));
    assert_eq!(Ok(3), reader.seek(SeekFrom::End(0)));
    let mut buf = [1u8; 4];
    assert_eq!(Ok(0), reader.read(&mut buf));
    assert_eq!([1, 1, 1, 1], buf);
}

#[test]
fn seek_lands_on_every_position() {
    let crypto = NoneCrypto {};
    let data = counting_image();
    let mut reader =
        TreeReader::create(&data, 4, 12, vec![ext(0, 10, 1), ext(1, 20, 2)], None, &crypto, 0);
    for p in 0..=12u64 {
        assert_eq!(Ok(p), reader.seek(SeekFrom::Start(p)));
        assert_eq!(p, reader.pos());
    }
    assert_eq!(Err(FsError::Arithmetic), reader.seek(SeekFrom::Start(13)));
    assert_eq!(12, reader.pos());
    assert_eq!(Ok(10), reader.seek(SeekFrom::Current(-2)));
    assert_eq!(Ok(11), reader.seek(SeekFrom::Current(1)));
    assert_eq!(Err(FsError::Arithmetic), reader.seek(SeekFrom::Current(2)));
    assert_eq!(Err(FsError::Arithmetic), reader.seek(SeekFrom::Current(-12)));
    assert_eq!(Ok(9), reader.seek(SeekFrom::End(3)));
    assert_eq!(Err(FsError::Arithmetic), reader.seek(SeekFrom::End(-1)));
    assert_eq!(Err(FsError::Arithmetic), reader.seek(SeekFrom::End(13)));
    assert_eq!(9, reader.pos());
}

#[test]
fn missing_page_is_io_error_and_keeps_position() {
    let crypto = NoneCrypto {};
    let data = counting_image();
    let mut reader = TreeReader::create(&data, 4, 8, vec![ext(0, 10, 1), ext(1, 100, 1)], None, &crypto, 0);
    let mut buf = [0u8; 8];
    assert_eq!(Ok(4), reader.read(&mut buf));
    assert_eq!(Err(FsError::Io), reader.read(&mut buf));
    assert_eq!(4, reader.pos());
    let mut out = Vec::new();
    assert_eq!(Err(FsError::Io), reader.read_to_end(&mut out));
}

#[test]
fn find_part_locates_extents_and_holes() {
    let extents = vec![ext(2, 10, 2), ext(6, 20, 1)];
    assert_eq!(FoundPart::Sparse(2), find_part(0, &extents));
    assert_eq!(FoundPart::Actual(0), find_part(3, &extents));
    assert_eq!(FoundPart::Sparse(2), find_part(4, &extents));
    assert_eq!(FoundPart::Actual(1), find_part(6, &extents));
    assert_eq!(FoundPart::Sparse(u32::MAX), find_part(7, &extents));
}

struct XorCrypto {}

impl Crypto for XorCrypto {
    fn decrypt_page(
        &self,
        _context: &Vec<u8>,
        page: &mut Vec<u8>,
        _logical_offset: u64,
        physical_offset: u64,
        _ino: u32,
    ) -> Result<(), FsError> {
        for b in page.iter_mut() {
            *b ^= (physical_offset & 0xff) as u8;
        }
        Ok(())
    }
}

#[test]
fn encrypted_page_is_decrypted() {
    let bytes: Vec<u8> = (0..2000u32).map(|i| (i % 251) as u8).collect();
    let data = Image::new(bytes.clone());
    let crypto = XorCrypto {};
    let context = vec![1u8, 2, 3];
    let mut reader =
        TreeReader::create(&data, 16, 16, vec![ext(0, 100, 1)], Some(&context), &crypto, 7);
    let mut buf = [0u8; 16];
    assert_eq!(Ok(16), reader.read(&mut buf));
    let expected: Vec<u8> = bytes[1600..1616].iter().map(|b| b ^ (1600u64 & 0xff) as u8).collect();
    assert_eq!(expected, buf.to_vec());
}

fn header(entries: u16, depth: u16) -> Vec<u8> {
    let mut h = vec![0x0a, 0xf3];
    h.extend_from_slice(&entries.to_le_bytes());
    h.extend_from_slice(&4u16.to_le_bytes());
    h.extend_from_slice(&depth.to_le_bytes());
    h.extend_from_slice(&0u32.to_le_bytes());
    h
}

fn leaf(block: u32, len: u16, start: u64) -> Vec<u8> {
    let mut e = Vec::new();
    e.extend_from_slice(&block.to_le_bytes());
    e.extend_from_slice(&len.to_le_bytes());
    e.extend_from_slice(&((start >> 32) as u16).to_le_bytes());
    e.extend_from_slice(&(start as u32).to_le_bytes());
    e
}

fn index(block: u32, child: u64) -> Vec<u8> {
    let mut e = Vec::new();
    e.extend_from_slice(&block.to_le_bytes());
    e.extend_from_slice(&(child as u32).to_le_bytes());
    e.extend_from_slice(&((child >> 32) as u16).to_le_bytes());
    e.extend_from_slice(&0u16.to_le_bytes());
    e
}

fn padded(mut v: Vec<u8>, len: usize) -> Vec<u8> {
    v.resize(len, 0);
    v
}

/// An image of 64-byte blocks whose block 2 is a leaf node holding one
/// extent, and the inode payload of a depth-1 root pointing at it.
fn two_level_tree(seed: u32, corrupt: bool) -> (Image, Vec<u8>) {
    let mut child = header(1, 0);
    child.extend(leaf(0, 1, 3));
    let mut child = padded(child, 60);
    let mut crc = ext4_style_crc32c_le(seed, &child);
    if corrupt {
        crc ^= 1;
    }
    child.extend_from_slice(&crc.to_le_bytes());
    let mut bytes = vec![0u8; 128];
    bytes.extend(child);
    bytes.resize(256, 0);
    let mut core = header(1, 1);
    core.extend(index(0, 2));
    (Image::new(bytes), padded(core, 60))
}

#[test]
fn checksum_mismatch_fails_only_when_verifying() {
    let (img, core) = two_level_tree(0x1234_5678, true);
    assert_eq!(
        Err(FsError::ChecksumMismatch),
        load_extent_tree(&img, 64, &core, Some(0x1234_5678), true)
    );
    assert_eq!(
        Ok(vec![ext(0, 3, 1)]),
        load_extent_tree(&img, 64, &core, Some(0x1234_5678), false)
    );
}

#[test]
fn valid_checksum_passes_verification() {
    let (img, core) = two_level_tree(0x1234_5678, false);
    assert_eq!(
        Ok(vec![ext(0, 3, 1)]),
        load_extent_tree(&img, 64, &core, Some(0x1234_5678), true)
    );
    let (img, core) = two_level_tree(0x1234_5678, true);
    assert_eq!(Ok(vec![ext(0, 3, 1)]), load_extent_tree(&img, 64, &core, None, true));
}

#[test]
fn loaded_extents_are_sorted() {
    let mut core = header(3, 0);
    core.extend(leaf(9, 1, 30));
    core.extend(leaf(0, 2, 10));
    core.extend(leaf(4, 3, 0x1_0000_0005));
    let core = padded(core, 60);
    let img = Image::new(vec![]);
    assert_eq!(
        Ok(vec![ext(0, 10, 2), ext(4, 0x1_0000_0005, 3), ext(9, 30, 1)]),
        load_extent_tree(&img, 64, &core, None, false)
    );
}

#[test]
fn extent_header_errors() {
    let img = Image::new(vec![0u8; 256]);
    let mut bad_magic = padded(header(0, 0), 60);
    bad_magic[1] = 0xf2;
    assert_eq!(Err(FsError::BadExtentMagic), load_extent_tree(&img, 64, &bad_magic, None, false));
    let too_deep = padded(header(0, 6), 60);
    assert_eq!(Err(FsError::ExtentTooDeep), load_extent_tree(&img, 64, &too_deep, None, false));
    let too_many = padded(header(5, 0), 60);
    assert_eq!(
        Err(FsError::CorruptExtentNode),
        load_extent_tree(&img, 64, &too_many, None, false)
    );
    assert_eq!(Err(FsError::CorruptExtentNode), load_extent_tree(&img, 64, &[0x0a], None, false));
    // the child block is all zeros: no magic
    let mut core = header(1, 1);
    core.extend(index(0, 1));
    let core = padded(core, 60);
    assert_eq!(Err(FsError::BadExtentMagic), load_extent_tree(&img, 64, &core, None, false));
    // the child block lies past the image
    let mut core = header(1, 1);
    core.extend(index(0, 10));
    let core = padded(core, 60);
    assert_eq!(Err(FsError::Io), load_extent_tree(&img, 64, &core, None, false));
}

#[test]
fn child_depth_must_match() {
    let mut child = header(0, 1);
    child.resize(64, 0);
    let mut bytes = vec![0u8; 64];
    bytes.extend(child);
    let img = Image::new(bytes);
    let mut core = header(1, 1);
    core.extend(index(0, 1));
    let core = padded(core, 60);
    assert_eq!(Err(FsError::DepthMismatch), load_extent_tree(&img, 64, &core, None, false));
}

#[test]
fn new_reader_walks_the_tree() {
    let (img, core) = two_level_tree(7, false);
    let crypto = NoneCrypto {};
    let mut reader =
        TreeReader::new(&img, 64, 10, &core, Some(7), true, None, &crypto, 1).unwrap();
    let mut out = Vec::new();
    assert_eq!(Ok(10), reader.read_to_end(&mut out));
    assert_eq!(vec![0u8; 10], out);
    assert_eq!(256, reader.ref_inner().len());
}

#[test]
fn crc32c_matches_the_standard_check_value() {
    assert_eq!(0xE306_9283, ext4_style_crc32c_le(0xFFFF_FFFF, b"123456789") ^ 0xFFFF_FFFF);
    assert_eq!(5, ext4_style_crc32c_le(5, b""));
}

struct FailingCrypto {}

impl Crypto for FailingCrypto {
    fn decrypt_page(
        &self,
        _context: &Vec<u8>,
        _page: &mut Vec<u8>,
        _logical_offset: u64,
        _physical_offset: u64,
        _ino: u32,
    ) -> Result<(), FsError> {
        Err(FsError::Io)
    }
}

struct ShrinkingCrypto {}

impl Crypto for ShrinkingCrypto {
    fn decrypt_page(
        &self,
        _context: &Vec<u8>,
        page: &mut Vec<u8>,
        _logical_offset: u64,
        _physical_offset: u64,
        _ino: u32,
    ) -> Result<(), FsError> {
        page.pop();
        Ok(())
    }
}

#[test]
fn decryption_failures_surface_as_decrypt_failed() {
    let data = counting_image();
    let context = vec![0u8];
    let failing = FailingCrypto {};
    let mut reader =
        TreeReader::create(&data, 4, 4, vec![ext(0, 10, 1)], Some(&context), &failing, 1);
    let mut buf = [0u8; 4];
    assert_eq!(Err(FsError::DecryptFailed), reader.read(&mut buf));
    assert_eq!(0, reader.pos());
    let shrinking = ShrinkingCrypto {};
    let mut reader =
        TreeReader::create(&data, 4, 4, vec![ext(0, 10, 1)], Some(&context), &shrinking, 1);
    assert_eq!(Err(FsError::DecryptFailed), reader.read(&mut buf));
}

#[test]
fn unencrypted_files_ignore_the_hook() {
    let data = counting_image();
    let failing = FailingCrypto {};
    let mut reader = TreeReader::create(&data, 4, 4, vec![ext(0, 10, 1)], None, &failing, 1);
    let mut buf = [0u8; 4];
    assert_eq!(Ok(4), reader.read(&mut buf));
    assert_eq!([40, 41, 42, 43], buf);
}

#[test]
fn holes_read_zeros_even_with_a_failing_hook() {
    let data = counting_image();
    let context = vec![0u8];
    let failing = FailingCrypto {};
    let mut reader =
        TreeReader::create(&data, 4, 12, vec![ext(2, 10, 1)], Some(&context), &failing, 1);
    let mut buf = [9u8; 12];
    assert_eq!(Ok(8), reader.read(&mut buf));
    assert_eq!([0u8; 8], buf[..8]);
    assert_eq!(Err(FsError::DecryptFailed), reader.read(&mut buf));
    assert_eq!(8, reader.pos());
}
