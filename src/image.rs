use vstd::prelude::*;

use crate::error::FsError;

verus! {

/// The raw bytes of a filesystem image, read at absolute positions.
pub struct Image {
    bytes: Vec<u8>,
}

impl View for Image {
    type V = Seq<u8>;

    closed spec fn view(&self) -> Seq<u8> {
        self.bytes@
    }
}

/// The `len` bytes of `img` at `pos`, when the image holds them all.
pub open spec fn bytes_at(img: Seq<u8>, pos: int, len: int) -> Option<Seq<u8>> {
    if 0 <= pos && 0 <= len && pos + len <= img.len() {
        Some(img.subrange(pos, pos + len))
    } else {
        None
    }
}

impl Image {
    /// An image over the given bytes.
    pub fn new(bytes: Vec<u8>) -> (r: Image)
        ensures
            r@ == bytes@,
    {
        Image { bytes }
    }

    /// Number of bytes in the image.
    pub fn len(&self) -> (r: usize)
        ensures
            r == self@.len(),
    {
        self.bytes.len()
    }

    /// Reads exactly `len` bytes at absolute position `pos`; fails with `Io`
    /// when the image ends before them.
    pub fn read_at(&self, pos: u64, len: usize) -> (r: Result<Vec<u8>, FsError>)
        ensures
            r matches Ok(v) ==> bytes_at(self@, pos as int, len as int) == Some(v@),
            r is Err ==> r == Err::<Vec<u8>, FsError>(FsError::Io) && bytes_at(
                self@,
                pos as int,
                len as int,
            ) is None,
    {
        let total = self.bytes.len();
        if pos > total as u64 {
            return Err(FsError::Io);
        }
        let start = pos as usize;
        if len > total - start {
            return Err(FsError::Io);
        }
        let mut out: Vec<u8> = Vec::with_capacity(len);
        let mut i: usize = 0;
        while i < len
            invariant
                start + len <= total,
                total == self.bytes@.len(),
                i <= len,
                out@ =~= self.bytes@.subrange(start as int, start + i),
            decreases len - i,
        {
            out.push(self.bytes[start + i]);
            i = i + 1;
        }
        Ok(out)
    }
}

} // verus!
