use vstd::prelude::*;

verus! {

/// The little-endian `u16` stored at `off` in `s`.
pub open spec fn le16(s: Seq<u8>, off: int) -> u16 {
    (s[off] as int + 256 * (s[off + 1] as int)) as u16
}

/// The little-endian `u32` stored at `off` in `s`.
pub open spec fn le32(s: Seq<u8>, off: int) -> u32 {
    (s[off] as int + 256 * (s[off + 1] as int) + 65536 * (s[off + 2] as int) + 16777216 * (
    s[off + 3] as int)) as u32
}

/// Reads a little-endian `u16` at `off`.
pub fn as_u16(buf: &[u8], off: usize) -> (r: u16)
    requires
        off + 2 <= buf@.len(),
    ensures
        r == le16(buf@, off as int),
{
    buf[off] as u16 + buf[off + 1] as u16 * 256
}

/// Reads a little-endian `u32` at `off`.
pub fn as_u32(buf: &[u8], off: usize) -> (r: u32)
    requires
        off + 4 <= buf@.len(),
    ensures
        r == le32(buf@, off as int),
{
    buf[off] as u32 + buf[off + 1] as u32 * 256 + buf[off + 2] as u32 * 65536 + buf[off + 3] as u32
        * 16777216
}

/// The reflected CRC32C polynomial.
pub const CRC32C_POLY: u32 = 0x82F63B78;

/// One bit step of the reflected CRC32C shift register.
pub open spec fn crc32c_shift(crc: u32) -> u32 {
    if crc & 1 == 1 {
        (crc >> 1u32) ^ CRC32C_POLY
    } else {
        crc >> 1u32
    }
}

/// `k` bit steps of the shift register.
pub open spec fn crc32c_shifts(crc: u32, k: nat) -> u32
    decreases k,
{
    if k == 0 {
        crc
    } else {
        crc32c_shifts(crc32c_shift(crc), (k - 1) as nat)
    }
}

/// CRC32C of `data` with the register starting at `seed` and no final
/// inversion, as ext4 keys its metadata checksums.
pub open spec fn crc32c(seed: u32, data: Seq<u8>) -> u32
    decreases data.len(),
{
    if data.len() == 0 {
        seed
    } else {
        crc32c_shifts(crc32c(seed, data.drop_last()) ^ (data.last() as u32), 8)
    }
}

/// Computes `crc32c(seed, data)`.
pub fn ext4_style_crc32c_le(seed: u32, data: &[u8]) -> (r: u32)
    ensures
        r == crc32c(seed, data@),
{
    let mut crc: u32 = seed;
    let mut i: usize = 0;
    while i < data.len()
        invariant
            i <= data@.len(),
            crc == crc32c(seed, data@.subrange(0, i as int)),
        decreases data@.len() - i,
    {
        let ghost before = data@.subrange(0, i as int);
        let start: u32 = crc ^ (data[i] as u32);
        crc = start;
        let mut j: u32 = 0;
        while j < 8
            invariant
                j <= 8,
                crc32c_shifts(start, 8) == crc32c_shifts(crc, (8 - j) as nat),
            decreases 8 - j,
        {
            if crc & 1 == 1 {
                crc = (crc >> 1u32) ^ CRC32C_POLY;
            } else {
                crc = crc >> 1u32;
            }
            j = j + 1;
        }
        proof {
            let next = data@.subrange(0, i + 1);
            assert(next.drop_last() =~= before);
        }
        i = i + 1;
    }
    proof {
        assert(data@.subrange(0, data@.len() as int) =~= data@);
    }
    crc
}

} // verus!
