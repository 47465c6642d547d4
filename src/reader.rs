use vstd::arithmetic::div_mod::lemma_fundamental_div_mod_converse;
use vstd::prelude::*;

use crate::error::FsError;
use crate::extents::{
    covers, extent_end, find_from, find_part, load_extent_tree, tree_extents, Extent, FoundPart,
};
use crate::image::Image;

verus! {

/// Decryption of file content, one whole block-sized page at a time.
pub trait Crypto {
    /// Decrypts `page` in place. `logical_offset` is the page's offset in the
    /// file, `physical_offset` its absolute position in the image, and `ino`
    /// the number of the inode that owns it.
    fn decrypt_page(
        &self,
        context: &Vec<u8>,
        page: &mut Vec<u8>,
        logical_offset: u64,
        physical_offset: u64,
        ino: u32,
    ) -> Result<(), FsError>;
}

/// Content that is not encrypted: pages pass through unchanged.
pub struct NoneCrypto {}

impl Crypto for NoneCrypto {
    fn decrypt_page(
        &self,
        context: &Vec<u8>,
        page: &mut Vec<u8>,
        logical_offset: u64,
        physical_offset: u64,
        ino: u32,
    ) -> Result<(), FsError> {
        Ok(())
    }
}

/// The bytes of an encryption context, if there is one.
pub open spec fn context_view(c: Option<&Vec<u8>>) -> Option<Seq<u8>> {
    match c {
        Some(v) => Some(v@),
        None => None,
    }
}

pub open spec fn min2(a: int, b: int) -> int {
    if a <= b {
        a
    } else {
        b
    }
}

/// The physical block that holds logical block `b` of extent `e`.
pub open spec fn page_of(e: Extent, b: int) -> int {
    e.start as int + (b - e.part as int)
}

/// The byte at offset `o` of a file of block size `bs` laid out by `ex` over
/// the image `img`: read from the image where an extent maps its block,
/// zero in a hole.
pub open spec fn file_byte(img: Seq<u8>, ex: Seq<Extent>, bs: nat, o: int) -> u8 {
    let b = o / (bs as int);
    if b > u32::MAX {
        0
    } else {
        match find_from(b as u32, ex, 0) {
            FoundPart::Actual(i) => img[page_of(ex[i as int], b) * bs + o % (bs as int)],
            FoundPart::Sparse(_) => 0,
        }
    }
}

/// The file's bytes from offset `from` up to `to`.
pub open spec fn file_bytes(img: Seq<u8>, ex: Seq<Extent>, bs: nat, from: int, to: int) -> Seq<
    u8,
> {
    Seq::new((to - from) as nat, |j: int| file_byte(img, ex, bs, from + j))
}

/// Whether the image holds the whole page behind logical block `b`
/// (always so for a block in a hole).
pub open spec fn page_present(img: Seq<u8>, ex: Seq<Extent>, bs: nat, b: int) -> bool {
    if b > u32::MAX {
        true
    } else {
        match find_from(b as u32, ex, 0) {
            FoundPart::Actual(i) => (page_of(ex[i as int], b) + 1) * bs <= img.len(),
            FoundPart::Sparse(_) => true,
        }
    }
}

/// Whether an extent maps the block that holds the byte at offset `o`.
pub open spec fn byte_mapped(ex: Seq<Extent>, bs: nat, o: int) -> bool {
    let b = o / (bs as int);
    b <= u32::MAX && find_from(b as u32, ex, 0) is Actual
}

/// Whether the image holds the page behind the byte at offset `o`.
pub open spec fn byte_present(img: Seq<u8>, ex: Seq<Extent>, bs: nat, o: int) -> bool {
    page_present(img, ex, bs, o / (bs as int))
}

/// Logical block just past the extent, or past the last addressable
/// logical block.
pub open spec fn mapped_end(e: Extent) -> int {
    min2(extent_end(e), u32::MAX + 1)
}

/// How many bytes one `read` of `want` bytes at `pos` produces: up to the
/// end of the file, the end of the buffer, and the end of the extent or of
/// the hole that holds `pos`.
pub open spec fn read_len(ex: Seq<Extent>, bs: nat, size: int, pos: int, want: int) -> int {
    if want == 0 || pos >= size {
        0
    } else {
        let b = pos / (bs as int);
        match find_from(b as u32, ex, 0) {
            FoundPart::Actual(i) => min2(min2(size - pos, want), mapped_end(ex[i as int]) * bs - pos),
            FoundPart::Sparse(gap) => min2(
                min2(gap * bs - pos % (bs as int), want),
                size - pos,
            ),
        }
    }
}

proof fn lemma_div_mod_of(x: int, bs: int, q: int, r: int)
    requires
        bs > 0,
        0 <= r < bs,
        x == q * bs + r,
    ensures
        x / bs == q,
        x % bs == r,
{
    lemma_fundamental_div_mod_converse(x, bs, q, r);
}

proof fn lemma_find_same_extent(b: u32, c: u32, ex: Seq<Extent>, k: int, i: int)
    requires
        0 <= k,
        0 <= i < ex.len() <= usize::MAX,
        find_from(b, ex, k) == FoundPart::Actual(i as usize),
        b <= c,
        covers(ex[i], c as int),
    ensures
        find_from(c, ex, k) == FoundPart::Actual(i as usize),
    decreases ex.len() - k,
{
    if k < ex.len() && !covers(ex[k], b as int) && b >= ex[k].part {
        lemma_find_same_extent(b, c, ex, k + 1, i);
    }
}

proof fn lemma_find_actual_covers(b: u32, ex: Seq<Extent>, k: int)
    requires
        0 <= k,
        ex.len() <= usize::MAX,
        find_from(b, ex, k) is Actual,
    ensures
        ({
            let i = find_from(b, ex, k)->Actual_0 as int;
            0 <= i < ex.len() && covers(ex[i], b as int)
        }),
    decreases ex.len() - k,
{
    if k < ex.len() && !covers(ex[k], b as int) && b >= ex[k].part {
        lemma_find_actual_covers(b, ex, k + 1);
    }
}

proof fn lemma_find_same_hole(b: u32, c: u32, ex: Seq<Extent>, k: int, gap: u32)
    requires
        0 <= k,
        find_from(b, ex, k) == FoundPart::Sparse(gap),
        b <= c < b as int + gap as int,
    ensures
        find_from(c, ex, k) is Sparse,
    decreases ex.len() - k,
{
    if k < ex.len() && !covers(ex[k], b as int) && b >= ex[k].part {
        lemma_find_same_hole(b, c, ex, k + 1, gap);
    }
}

proof fn lemma_hole_gap_positive(b: u32, ex: Seq<Extent>, k: int)
    requires
        0 <= k,
        find_from(b, ex, k) is Sparse,
    ensures
        find_from(b, ex, k)->Sparse_0 >= 1,
    decreases ex.len() - k,
{
    if k < ex.len() && !covers(ex[k], b as int) && b >= ex[k].part {
        lemma_hole_gap_positive(b, ex, k + 1);
    }
}

proof fn lemma_uncovered_is_hole(b: u32, ex: Seq<Extent>, k: int)
    requires
        0 <= k,
        forall|m: int| k <= m < ex.len() ==> !covers(#[trigger] ex[m], b as int),
    ensures
        find_from(b, ex, k) is Sparse,
    decreases ex.len() - k,
{
    if k < ex.len() && b >= ex[k].part {
        lemma_uncovered_is_hole(b, ex, k + 1);
    }
}

/// Where a seek moves the position: to an offset from the start, by a
/// signed distance from the current position, or back from the end.
#[derive(Debug, Clone, Copy, PartialEq, Eq, Structural)]
pub enum SeekFrom {
    Start(u64),
    Current(i64),
    End(i64),
}

/// The position a seek asks for, before it is checked against the file.
pub open spec fn seek_target(from: SeekFrom, pos: int, size: int) -> int {
    match from {
        SeekFrom::Start(p) => p as int,
        SeekFrom::Current(d) => pos + d,
        SeekFrom::End(n) => size - n,
    }
}

/// The byte at offset `o` of a file, read through extent `e`.
pub open spec fn extent_byte(img: Seq<u8>, e: Extent, bs: nat, o: int) -> u8 {
    img[page_of(e, o / (bs as int)) * bs + o % (bs as int)]
}

/// Whether the image holds the page that extent `e` maps for offset `o`.
pub open spec fn extent_page_present(img: Seq<u8>, e: Extent, bs: nat, o: int) -> bool {
    (page_of(e, o / (bs as int)) + 1) * bs <= img.len()
}

proof fn lemma_block_in_extent(o: int, p: int, bs: int, e: Extent)
    requires
        bs > 0,
        covers(e, p / bs),
        p <= o < mapped_end(e) * bs,
    ensures
        covers(e, o / bs),
        p / bs <= o / bs <= u32::MAX,
{
    vstd::arithmetic::div_mod::lemma_div_is_ordered(p, o, bs);
    assert(mapped_end(e) * bs == bs * mapped_end(e)) by (nonlinear_arith);
    vstd::arithmetic::div_mod::lemma_multiply_divide_lt(o, bs, mapped_end(e));
}

/// Reads `output_len` bytes, or up to the end of extent `e` if that comes
/// first, at file offset `pos` (inside `e`) into the front of `buf`: page by
/// page from the image, each page decrypted when there is a context.
fn read_mapped<C: Crypto>(
    inner: &Image,
    crypto: &C,
    context: Option<&Vec<u8>>,
    ino: u32,
    e: Extent,
    block_size: u32,
    pos: u64,
    output_len: usize,
    buf: &mut [u8],
) -> (r: Result<usize, FsError>)
    requires
        block_size > 0,
        covers(e, pos as int / (block_size as int)),
        pos as int / (block_size as int) <= u32::MAX,
        0 < output_len <= old(buf)@.len(),
    ensures
        final(buf)@.len() == old(buf)@.len(),
        ({
            let bs = block_size as nat;
            let n = min2(output_len as int, mapped_end(e) * bs - pos);
            &&& n > 0
            &&& r matches Ok(k) ==> {
                &&& k == n
                &&& forall|j: int| n <= j < old(buf)@.len() ==> #[trigger] final(buf)@[j] == old(buf)@[j]
                &&& context is None ==> forall|j: int|
                    0 <= j < n ==> #[trigger] final(buf)@[j] == extent_byte(inner@, e, bs, pos + j)
            }
            &&& context is None ==> (r is Ok <==> forall|o: int|
                pos <= o < pos + n ==> #[trigger] extent_page_present(inner@, e, bs, o))
            &&& r matches Err(x) ==> (x == FsError::Io || (x == FsError::DecryptFailed
                && context is Some))
            &&& r == Err::<usize, FsError>(FsError::Io) ==> exists|o: int|
                pos <= o < pos + n && !#[trigger] extent_page_present(inner@, e, bs, o)
        }),
{
    let ghost img = inner@;
    let ghost bsn = block_size as nat;
    let ghost p = pos as int;
    let ghost n = min2(output_len as int, mapped_end(e) * bsn - p);
    let img_len = inner.len();
    let bs64 = block_size as u64;
    let mut block: u64 = pos / bs64;
    let mut off: u64 = pos % bs64;
    proof {
        vstd::arithmetic::div_mod::lemma_fundamental_div_mod(p, bsn as int);
        assert(p == block * bsn + off) by (nonlinear_arith)
            requires
                p == bsn * (p / (bsn as int)) + p % (bsn as int),
                block == p / (bsn as int),
                off == p % (bsn as int),
        ;
        assert(p < mapped_end(e) * bsn) by (nonlinear_arith)
            requires
                p == block * bsn + off,
                block < mapped_end(e),
                off < bsn,
        ;
    }
    let mut max_block: u64 = e.part as u64 + e.len as u64;
    if max_block > u32::MAX as u64 + 1 {
        max_block = u32::MAX as u64 + 1;
    }
    let mut written: usize = 0;
    while written < output_len && block < max_block
        invariant
            inner@ == img,
            p == pos as int,
            img_len == img.len(),
            bsn == block_size,
            bs64 == block_size,
            block_size > 0,
            n == min2(output_len as int, mapped_end(e) * bsn - p),
            n > 0,
            max_block == mapped_end(e),
            e.part <= block <= max_block,
            off < bs64,
            block == max_block ==> off == 0,
            written <= output_len,
            output_len <= buf@.len(),
            p + written == block * bsn + off,
            buf@.len() == old(buf)@.len(),
            forall|j: int| written <= j < buf@.len() ==> #[trigger] buf@[j] == old(buf)@[j],
            context is None ==> forall|j: int|
                0 <= j < written ==> #[trigger] buf@[j] == extent_byte(img, e, bsn, p + j),
            forall|o: int| p <= o < p + written ==> #[trigger] extent_page_present(img, e, bsn, o),
        decreases output_len - written,
    {
        let ghost cur = p + written;
        proof {
            lemma_div_mod_of(cur, bsn as int, block as int, off as int);
            assert(cur < mapped_end(e) * bsn) by (nonlinear_arith)
                requires
                    cur == block * bsn + off,
                    block < mapped_end(e),
                    off < bsn,
            ;
        }
        let phys = match e.start.checked_add(block - e.part as u64) {
            Some(phys) => phys,
            None => {
                proof {
                    let q = page_of(e, block as int);
                    assert((q + 1) * bsn >= q + 1) by (nonlinear_arith)
                        requires
                            q >= 0,
                            bsn >= 1,
                    ;
                    assert(!extent_page_present(img, e, bsn, cur));
                }
                return Err(FsError::Io);
            },
        };
        let page_addr = match phys.checked_mul(bs64) {
            Some(a) => a,
            None => {
                proof {
                    assert((phys + 1) * bsn > img.len()) by (nonlinear_arith)
                        requires
                            phys * bsn > u64::MAX,
                            img.len() <= u64::MAX,
                    ;
                    assert(!extent_page_present(img, e, bsn, cur));
                }
                return Err(FsError::Io);
            },
        };
        proof {
            assert((phys + 1) * bsn == phys * bsn + bsn) by (nonlinear_arith);
        }
        let page = match inner.read_at(page_addr, block_size as usize) {
            Ok(page) => page,
            Err(x) => {
                proof {
                    assert(!extent_page_present(img, e, bsn, cur));
                }
                return Err(x);
            },
        };
        let page = match context {
            Some(ctx) => {
                let mut page = page;
                proof {
                    assert(block * bs64 <= u64::MAX) by (nonlinear_arith)
                        requires
                            block < 0x1_0000_0000,
                            bs64 <= 0xffff_ffff,
                    ;
                }
                let logical = block * bs64;
                match crypto.decrypt_page(ctx, &mut page, logical, page_addr, ino) {
                    Ok(()) => {},
                    Err(_) => {
                        return Err(FsError::DecryptFailed);
                    },
                }
                if page.len() != block_size as usize {
                    return Err(FsError::DecryptFailed);
                }
                page
            },
            None => page,
        };
        let room: usize = (bs64 - off) as usize;
        let want: usize = output_len - written;
        let m: usize = if room < want {
            room
        } else {
            want
        };
        copy_bytes(buf, written, &page, off as usize, m);
        proof {
            if context is None {
                assert forall|j: int| written <= j < written + m implies #[trigger] buf@[j]
                    == extent_byte(img, e, bsn, p + j) by {
                    lemma_div_mod_of(p + j, bsn as int, block as int, off + (j - written));
                }
            }
            assert forall|o: int| p + written <= o < p + written + m implies #[trigger] extent_page_present(
                img,
                e,
                bsn,
                o,
            ) by {
                lemma_div_mod_of(o, bsn as int, block as int, off + (o - p - written));
            }
        }
        written = written + m;
        if m == room {
            proof {
                assert((block + 1) * bsn == block * bsn + bsn) by (nonlinear_arith);
            }
            block = block + 1;
            off = 0;
        } else {
            off = off + m as u64;
        }
    }
    proof {
        assert(mapped_end(e) * bsn >= p + written) by (nonlinear_arith)
            requires
                p + written == block * bsn + off,
                block <= mapped_end(e),
                off < bsn,
                block == mapped_end(e) ==> off == 0,
        ;
    }
    Ok(written)
}

proof fn lemma_extent_matches_file(
    img: Seq<u8>,
    ex: Seq<Extent>,
    bsn: nat,
    p: int,
    n: int,
    block_index: u32,
    i: usize,
    extent: Extent,
)
    requires
        bsn > 0,
        0 <= p,
        find_from(block_index, ex, 0) == FoundPart::Actual(i),
        i < ex.len() <= usize::MAX,
        extent == ex[i as int],
        p / (bsn as int) == block_index,
        covers(extent, block_index as int),
        p + n <= mapped_end(extent) * bsn,
    ensures
        forall|o: int|
            #![trigger byte_present(img, ex, bsn, o)]
            #![trigger extent_page_present(img, extent, bsn, o)]
            p <= o < p + n ==> byte_present(img, ex, bsn, o) == extent_page_present(
                img,
                extent,
                bsn,
                o,
            ),
        forall|o: int|
            p <= o < p + n ==> #[trigger] file_byte(img, ex, bsn, o) == extent_byte(
                img,
                extent,
                bsn,
                o,
            ),
        forall|o: int| p <= o < p + n ==> #[trigger] byte_mapped(ex, bsn, o),
{
    assert forall|o: int| p <= o < p + n implies #[trigger] byte_mapped(ex, bsn, o) by {
        lemma_block_in_extent(o, p, bsn as int, extent);
        lemma_find_same_extent(block_index, (o / (bsn as int)) as u32, ex, 0, i as int);
    }
    assert forall|o: int| p <= o < p + n implies #[trigger] byte_present(img, ex, bsn, o)
        == extent_page_present(img, extent, bsn, o) by {
        lemma_block_in_extent(o, p, bsn as int, extent);
        lemma_find_same_extent(block_index, (o / (bsn as int)) as u32, ex, 0, i as int);
    }
    assert forall|o: int| p <= o < p + n implies #[trigger] file_byte(img, ex, bsn, o)
        == extent_byte(img, extent, bsn, o) by {
        lemma_block_in_extent(o, p, bsn as int, extent);
        lemma_find_same_extent(block_index, (o / (bsn as int)) as u32, ex, 0, i as int);
    }
}

proof fn lemma_hole_matches_file(
    img: Seq<u8>,
    ex: Seq<Extent>,
    bsn: nat,
    p: int,
    bi: int,
    off0: int,
    gap: u32,
    n: int,
)
    requires
        bsn > 0,
        0 <= off0 < bsn,
        0 <= bi <= u32::MAX,
        p == bi * bsn + off0,
        find_from(bi as u32, ex, 0) == FoundPart::Sparse(gap),
        0 <= n <= gap * bsn - off0,
    ensures
        forall|o: int| p <= o < p + n ==> #[trigger] byte_present(img, ex, bsn, o),
        forall|o: int| p <= o < p + n ==> #[trigger] file_byte(img, ex, bsn, o) == 0,
{
    assert forall|o: int| p <= o < p + n implies #[trigger] file_byte(img, ex, bsn, o) == 0
        && byte_present(img, ex, bsn, o) by {
        lemma_hole_byte(img, ex, bsn, p, bi, off0, gap, n, o);
    }
    assert forall|o: int| p <= o < p + n implies #[trigger] byte_present(img, ex, bsn, o) by {
        lemma_hole_byte(img, ex, bsn, p, bi, off0, gap, n, o);
    }
}

proof fn lemma_hole_byte(
    img: Seq<u8>,
    ex: Seq<Extent>,
    bsn: nat,
    p: int,
    bi: int,
    off0: int,
    gap: u32,
    n: int,
    o: int,
)
    requires
        bsn > 0,
        0 <= off0 < bsn,
        0 <= bi <= u32::MAX,
        p == bi * bsn + off0,
        find_from(bi as u32, ex, 0) == FoundPart::Sparse(gap),
        0 <= n <= gap * bsn - off0,
        p <= o < p + n,
    ensures
        file_byte(img, ex, bsn, o) == 0,
        byte_present(img, ex, bsn, o),
{
    let c = o / (bsn as int);
    vstd::arithmetic::div_mod::lemma_div_is_ordered(p, o, bsn as int);
    vstd::arithmetic::div_mod::lemma_fundamental_div_mod(p, bsn as int);
    lemma_div_mod_of(p, bsn as int, bi, off0);
    assert(o < bsn * (bi + gap)) by (nonlinear_arith)
        requires
            p == bi * bsn + off0,
            o < p + n,
            n <= gap * bsn - off0,
    ;
    vstd::arithmetic::div_mod::lemma_multiply_divide_lt(o, bsn as int, bi + gap);
    if c <= u32::MAX {
        lemma_find_same_hole(bi as u32, c as u32, ex, 0, gap);
    }
}

proof fn lemma_pos_split(p: int, bs: int)
    requires
        bs > 0,
        p >= 0,
    ensures
        p == (p / bs) * bs + p % bs,
        0 <= p % bs < bs,
        p / bs >= 0,
{
    vstd::arithmetic::div_mod::lemma_fundamental_div_mod(p, bs);
    vstd::arithmetic::mul::lemma_mul_is_commutative(bs, p / bs);
    vstd::arithmetic::div_mod::lemma_div_pos_is_pos(p, bs);
}

/// How many zeros a read inside a hole of `gap` blocks produces, from
/// offset `off` in its first block, for a request of `want` bytes.
fn hole_len(gap: u32, block_size: u64, off: u64, want: usize) -> (r: usize)
    requires
        gap >= 1,
        0 < block_size <= u32::MAX,
        off < block_size,
    ensures
        r == min2(gap * block_size - off, want as int),
        want > 0 ==> r > 0,
{
    proof {
        assert(gap as int * block_size as int <= u32::MAX as int * u32::MAX as int)
            by (nonlinear_arith)
            requires
                gap <= u32::MAX,
                block_size <= u32::MAX,
        ;
        assert(gap as int * block_size as int >= block_size as int) by (nonlinear_arith)
            requires
                gap >= 1,
                block_size >= 1,
        ;
    }
    let max_bytes: u64 = gap as u64 * block_size - off;
    if max_bytes < want as u64 {
        max_bytes as usize
    } else {
        want
    }
}

/// A byte stream over a file laid out by a sorted list of extents: mapped
/// blocks are read from the image (and decrypted when the file has an
/// encryption context), holes read as zeros.
pub struct TreeReader<'a, C: Crypto> {
    inner: &'a Image,
    pos: u64,
    len: u64,
    block_size: u32,
    extents: Vec<Extent>,
    encryption_context: Option<&'a Vec<u8>>,
    crypto: &'a C,
    ino: u32,
}

/// Copies `count` bytes of `src` from `from` into `dst` at `at`.
fn copy_bytes(dst: &mut [u8], at: usize, src: &Vec<u8>, from: usize, count: usize)
    requires
        at + count <= old(dst)@.len(),
        from + count <= src@.len(),
    ensures
        final(dst)@.len() == old(dst)@.len(),
        forall|j: int|
            0 <= j < old(dst)@.len() ==> #[trigger] final(dst)@[j] == if at <= j < at + count {
                src@[from + j - at]
            } else {
                old(dst)@[j]
            },
{
    let dl = dst.len();
    let sl = src.len();
    let mut t: usize = 0;
    while t < count
        invariant
            dl == dst@.len(),
            sl == src@.len(),
            at + count <= dst@.len(),
            from + count <= src@.len(),
            t <= count,
            dst@.len() == old(dst)@.len(),
            forall|j: int|
                0 <= j < dst@.len() ==> #[trigger] dst@[j] == if at <= j < at + t {
                    src@[from + j - at]
                } else {
                    old(dst)@[j]
                },
        decreases count - t,
    {
        dst[at + t] = src[from + t];
        t = t + 1;
    }
}

/// Sets the first `count` bytes of `buf` to zero.
fn zero_prefix(buf: &mut [u8], count: usize)
    requires
        count <= old(buf)@.len(),
    ensures
        final(buf)@.len() == old(buf)@.len(),
        forall|j: int|
            0 <= j < old(buf)@.len() ==> #[trigger] final(buf)@[j] == if j < count {
                0u8
            } else {
                old(buf)@[j]
            },
{
    let mut t: usize = 0;
    while t < count
        invariant
            count <= buf@.len(),
            t <= count,
            buf@.len() == old(buf)@.len(),
            forall|j: int|
                0 <= j < buf@.len() ==> #[trigger] buf@[j] == if j < t {
                    0u8
                } else {
                    old(buf)@[j]
                },
        decreases count - t,
    {
        buf[t] = 0;
        t = t + 1;
    }
}

/// Sets every byte of `buf` to zero.
pub fn zero(buf: &mut [u8])
    ensures
        final(buf)@.len() == old(buf)@.len(),
        forall|j: int| 0 <= j < final(buf)@.len() ==> #[trigger] final(buf)@[j] == 0u8,
{
    let n = buf.len();
    zero_prefix(buf, n);
}

impl<'a, C: Crypto> TreeReader<'a, C> {
    /// The image the file is read from.
    pub closed spec fn image(&self) -> Seq<u8> {
        self.inner@
    }

    /// The current offset in the file.
    pub closed spec fn position(&self) -> nat {
        self.pos as nat
    }

    /// The file's size in bytes.
    pub closed spec fn size(&self) -> nat {
        self.len as nat
    }

    pub closed spec fn block_size_of(&self) -> nat {
        self.block_size as nat
    }

    /// The extents that lay the file out.
    pub closed spec fn extents(&self) -> Seq<Extent> {
        self.extents@
    }

    /// Whether pages pass through the decryption hook.
    pub closed spec fn decrypts(&self) -> bool {
        self.encryption_context is Some
    }

    /// The encryption context handed to the decryption hook, if any.
    pub closed spec fn context(&self) -> Option<Seq<u8>> {
        context_view(self.encryption_context)
    }

    /// The inode number handed to the decryption hook.
    pub closed spec fn ino(&self) -> u32 {
        self.ino
    }

    /// The decryption hook.
    pub closed spec fn hook(&self) -> C {
        *self.crypto
    }

    /// The position lies within the file and the block size is positive.
    pub closed spec fn wf(&self) -> bool {
        self.pos <= self.len && self.block_size > 0
    }

    /// Everything but the position is the same in both readers.
    pub open spec fn same_file(&self, other: &Self) -> bool {
        &&& self.image() == other.image()
        &&& self.size() == other.size()
        &&& self.block_size_of() == other.block_size_of()
        &&& self.extents() == other.extents()
        &&& self.decrypts() == other.decrypts()
        &&& self.context() == other.context()
        &&& self.ino() == other.ino()
        &&& self.hook() == other.hook()
    }

    /// A well-formed reader's position lies within the file, and its block
    /// size is positive.
    pub proof fn lemma_wf_bounds(&self)
        requires
            self.wf(),
        ensures
            self.position() <= self.size(),
            self.block_size_of() > 0,
            self.decrypts() == self.context() is Some,
    {
    }

    /// The bytes of the file this reader streams, from offset `from` to `to`.
    pub open spec fn bytes(&self, from: int, to: int) -> Seq<u8> {
        file_bytes(self.image(), self.extents(), self.block_size_of(), from, to)
    }

    /// Loads the extent tree rooted in `core` (the inode's block payload)
    /// and returns a reader at offset 0 of a file of `size` bytes.
    pub fn new(
        inner: &'a Image,
        block_size: u32,
        size: u64,
        core: &[u8],
        checksum_prefix: Option<u32>,
        verify_checksums: bool,
        encryption_context: Option<&'a Vec<u8>>,
        crypto: &'a C,
        ino: u32,
    ) -> (r: Result<TreeReader<'a, C>, FsError>)
        requires
            block_size > 0,
        ensures
            match tree_extents(
                inner@,
                block_size as nat,
                core@,
                checksum_prefix,
                verify_checksums,
            ) {
                Ok(found) => r matches Ok(t) && t.wf() && t.extents() == found && t.image()
                    == inner@ && t.position() == 0 && t.size() == size && t.block_size_of()
                    == block_size && t.decrypts() == encryption_context is Some && t.context()
                    == context_view(encryption_context) && t.ino() == ino && t.hook() == *crypto,
                Err(e) => r matches Err(x) && x == e,
            },
    {
        let extents = load_extent_tree(inner, block_size, core, checksum_prefix, verify_checksums)?;
        Ok(TreeReader::create(inner, block_size, size, extents, encryption_context, crypto, ino))
    }

    /// A reader at offset 0 of a file of `size` bytes laid out by `extents`,
    /// which are expected to be sorted by logical block.
    pub fn create(
        inner: &'a Image,
        block_size: u32,
        size: u64,
        extents: Vec<Extent>,
        encryption_context: Option<&'a Vec<u8>>,
        crypto: &'a C,
        ino: u32,
    ) -> (r: TreeReader<'a, C>)
        requires
            block_size > 0,
        ensures
            r.wf(),
            r.image() == inner@,
            r.position() == 0,
            r.position() <= r.size(),
            r.size() == size,
            r.block_size_of() == block_size,
            r.extents() == extents@,
            r.decrypts() == encryption_context is Some,
            r.context() == context_view(encryption_context),
            r.ino() == ino,
            r.hook() == *crypto,
    {
        TreeReader {
            pos: 0,
            len: size,
            inner,
            extents,
            block_size,
            encryption_context,
            crypto,
            ino,
        }
    }

    /// The image this reader reads from.
    pub fn ref_inner(self) -> (r: &'a Image)
        ensures
            r@ == self.image(),
    {
        self.inner
    }

    /// The current offset in the file.
    pub fn pos(&self) -> (r: u64)
        ensures
            r == self.position(),
    {
        self.pos
    }

    /// The file's size in bytes.
    pub fn len(&self) -> (r: u64)
        ensures
            r == self.size(),
    {
        self.len
    }

    /// Reads at the current position into the front of `buf` and advances
    /// past what was read. Inside an extent, whole pages are read from the
    /// image (and decrypted when the file has an encryption context) up to
    /// the end of the extent; inside a hole, zeros are written up to the
    /// next mapped block. Returns 0 only for an empty buffer or at the end
    /// of the file. On failure the position is unchanged.
    #[verifier::spinoff_prover]
    #[verifier::rlimit(40)]
    pub fn read(&mut self, buf: &mut [u8]) -> (r: Result<usize, FsError>)
        requires
            old(self).wf(),
        ensures
            final(self).wf(),
            final(self).position() <= final(self).size(),
            final(self).same_file(old(self)),
            final(buf)@.len() == old(buf)@.len(),
            ({
                let bs = old(self).block_size_of();
                let p = old(self).position() as int;
                let img = old(self).image();
                let ex = old(self).extents();
                let n = read_len(ex, bs, old(self).size() as int, p, old(buf)@.len() as int);
                &&& (old(buf)@.len() == 0 || p == old(self).size()) ==> r == Ok::<usize, FsError>(
                    0,
                ) && final(buf)@ == old(buf)@
                &&& r matches Ok(k) ==> {
                    &&& k == n
                    &&& final(self).position() == p + n
                    &&& forall|j: int|
                        n <= j < old(buf)@.len() ==> #[trigger] final(buf)@[j] == old(buf)@[j]
                    &&& !old(self).decrypts() ==> final(buf)@.subrange(0, n) == old(self).bytes(
                        p,
                        p + n,
                    )
                }
                &&& r matches Ok(k) ==> forall|j: int|
                    0 <= j < n && !#[trigger] byte_mapped(ex, bs, p + j) ==> final(buf)@[j] == 0
                &&& r is Err ==> final(self).position() == p
                &&& r matches Err(e) ==> (e == FsError::Io || e == FsError::Arithmetic || e
                    == FsError::DecryptFailed)
                &&& r == Err::<usize, FsError>(FsError::Arithmetic) ==> p / (bs as int) > u32::MAX
                &&& r == Err::<usize, FsError>(FsError::DecryptFailed) ==> old(self).decrypts()
                &&& r == Err::<usize, FsError>(FsError::Io) ==> exists|o: int|
                    p <= o < p + n && !#[trigger] byte_present(img, ex, bs, o)
                &&& (old(buf)@.len() > 0 && p < old(self).size()) ==> {
                    &&& (p / (bs as int) <= u32::MAX && !byte_mapped(ex, bs, p)) ==> r is Ok
                    &&& p / (bs as int) > u32::MAX ==> r == Err::<usize, FsError>(
                        FsError::Arithmetic,
                    )
                    &&& p / (bs as int) <= u32::MAX ==> n > 0
                    &&& (p / (bs as int) <= u32::MAX && !old(self).decrypts()) ==> (r is Ok <==> (
                    forall|o: int| p <= o < p + n ==> #[trigger] byte_present(img, ex, bs, o)))
                }
            }),
    {
        if buf.len() == 0 || self.pos >= self.len {
            return Ok(0);
        }
        let ghost img = self.inner@;
        let ghost ex = self.extents@;
        let ghost bsn = self.block_size as nat;
        let ghost p = self.pos as int;
        let ghost n = read_len(ex, bsn, self.len as int, p, buf@.len() as int);
        let block_size = self.block_size as u64;
        let bi = self.pos / block_size;
        if bi > u32::MAX as u64 {
            return Err(FsError::Arithmetic);
        }
        let block_index = bi as u32;
        let off0 = self.pos % block_size;
        let n_extents = self.extents.len();
        proof {
            lemma_pos_split(p, bsn as int);
        }
        let remaining = self.len - self.pos;
        let buf_len = buf.len();
        let output_len: usize = if remaining < buf_len as u64 {
            remaining as usize
        } else {
            buf_len
        };
        match find_part(block_index, self.extents.as_slice()) {
            FoundPart::Sparse(gap) => {
                proof {
                    lemma_hole_gap_positive(block_index, ex, 0);
                }
                let read = hole_len(gap, block_size, off0, output_len);
                zero_prefix(buf, read);
                self.pos = self.pos + read as u64;
                proof {
                    assert(output_len > 0);
                    assert(n == read as int);
                    assert(n > 0);
                    assert(read_len(
                        old(self).extents(),
                        old(self).block_size_of(),
                        old(self).size() as int,
                        old(self).position() as int,
                        old(buf)@.len() as int,
                    ) > 0);
                    lemma_hole_matches_file(img, ex, bsn, p, bi as int, off0 as int, gap, n);
                    assert(final(buf)@.subrange(0, read as int) =~= file_bytes(
                        img,
                        ex,
                        bsn,
                        p,
                        p + read,
                    ));
                }
                Ok(read)
            },
            FoundPart::Actual(i) => {
                proof {
                    lemma_find_actual_covers(block_index, ex, 0);
                }
                let extent = self.extents[i];
                let res = read_mapped(
                    self.inner,
                    self.crypto,
                    self.encryption_context,
                    self.ino,
                    extent,
                    self.block_size,
                    self.pos,
                    output_len,
                    buf,
                );
                proof {
                    assert(n == min2(output_len as int, mapped_end(extent) * bsn - p));
                    assert(n > 0);
                    assert(read_len(
                        old(self).extents(),
                        old(self).block_size_of(),
                        old(self).size() as int,
                        old(self).position() as int,
                        old(buf)@.len() as int,
                    ) > 0);
                    lemma_extent_matches_file(img, ex, bsn, p, n, block_index, i, extent);
                }
                match res {
                    Ok(written) => {
                        self.pos = self.pos + written as u64;
                        proof {
                            if self.encryption_context is None {
                                assert(buf@.subrange(0, n) =~= file_bytes(
                                    img,
                                    ex,
                                    bsn,
                                    p,
                                    p + n,
                                ));
                            }
                        }
                        Ok(written)
                    },
                    Err(e) => {
                        proof {
                            if self.encryption_context is None || e == FsError::Io {
                                let o = choose|o: int|
                                    p <= o < p + n && !extent_page_present(img, extent, bsn, o);
                                assert(!byte_present(img, ex, bsn, o));
                            }
                        }
                        Err(e)
                    },
                }
            },
        }
    }

    /// Moves the position and returns it. The target must lie within the
    /// file; otherwise the position is left as it was and `Arithmetic` is
    /// returned. `End(n)` moves to `n` bytes before the end.
    pub fn seek(&mut self, from: SeekFrom) -> (r: Result<u64, FsError>)
        requires
            old(self).wf(),
        ensures
            final(self).wf(),
            final(self).position() <= final(self).size(),
            final(self).same_file(old(self)),
            ({
                let t = seek_target(from, old(self).position() as int, old(self).size() as int);
                if 0 <= t <= old(self).size() {
                    r == Ok::<u64, FsError>(t as u64) && final(self).position() == t
                } else {
                    r == Err::<u64, FsError>(FsError::Arithmetic) && final(self).position()
                        == old(self).position()
                }
            }),
    {
        let target: u64 = match from {
            SeekFrom::Start(set) => {
                if set > self.len {
                    return Err(FsError::Arithmetic);
                }
                set
            },
            SeekFrom::Current(diff) => {
                if diff >= 0 {
                    let forward = diff as u64;
                    if forward > self.len - self.pos {
                        return Err(FsError::Arithmetic);
                    }
                    self.pos + forward
                } else {
                    let back: u64 = (-(diff + 1)) as u64 + 1;
                    if back > self.pos {
                        return Err(FsError::Arithmetic);
                    }
                    self.pos - back
                }
            },
            SeekFrom::End(set) => {
                if set < 0 || set as u64 > self.len {
                    return Err(FsError::Arithmetic);
                }
                self.len - set as u64
            },
        };
        self.pos = target;
        Ok(target)
    }

    /// Reads from the current position to the end of the file, appending
    /// the bytes to `out`, and returns how many were appended.
    pub fn read_to_end(&mut self, out: &mut Vec<u8>) -> (r: Result<usize, FsError>)
        requires
            old(self).wf(),
        ensures
            final(self).wf(),
            final(self).position() <= final(self).size(),
            final(self).same_file(old(self)),
            ({
                let p = old(self).position() as int;
                let size = old(self).size() as int;
                let bs = old(self).block_size_of();
                &&& r matches Ok(k) ==> {
                    &&& k == size - p
                    &&& final(self).position() == size
                    &&& final(out)@.len() == old(out)@.len() + k
                    &&& final(out)@.subrange(0, old(out)@.len() as int) == old(out)@
                    &&& !old(self).decrypts() ==> final(out)@.subrange(
                        old(out)@.len() as int,
                        final(out)@.len() as int,
                    ) == old(self).bytes(p, size)
                }
                &&& r matches Ok(k) ==> forall|j: int|
                    0 <= j < k && !#[trigger] byte_mapped(old(self).extents(), bs, p + j)
                        ==> final(out)@[old(out)@.len() + j] == 0
                &&& (!old(self).decrypts() && size <= (u32::MAX + 1) * bs && forall|o: int|
                    p <= o < size ==> #[trigger] byte_present(
                        old(self).image(),
                        old(self).extents(),
                        bs,
                        o,
                    )) ==> r is Ok
                &&& r == Err::<usize, FsError>(FsError::Arithmetic) ==> size > (u32::MAX + 1) * bs
                &&& r == Err::<usize, FsError>(FsError::DecryptFailed) ==> old(self).decrypts()
                &&& r == Err::<usize, FsError>(FsError::Io) ==> exists|o: int|
                    p <= o < size && !#[trigger] byte_present(
                        old(self).image(),
                        old(self).extents(),
                        bs,
                        o,
                    )
            }),
    {
        let ghost s0 = *self;
        let ghost p0 = self.pos as int;
        let ghost out0 = out@;
        let ghost bsn = self.block_size as nat;
        let n_extents = self.extents.len();
        let mut chunk: Vec<u8> = vec![0u8; 4096];
        let mut total: usize = 0;
        loop
            invariant
                s0.extents@.len() == n_extents,
                self.wf(),
                self.same_file(&s0),
                s0.wf(),
                s0 == *old(self),
                chunk@.len() == 4096,
                p0 <= self.pos,
                p0 == s0.pos,
                bsn == s0.block_size,
                total == self.pos - p0,
                out@.len() == out0.len() + total,
                out@.subrange(0, out0.len() as int) == out0,
                !self.decrypts() ==> out@.subrange(out0.len() as int, out@.len() as int) == s0.bytes(
                    p0,
                    self.pos as int,
                ),
                forall|j: int|
                    0 <= j < total && !#[trigger] byte_mapped(s0.extents(), bsn, p0 + j)
                        ==> out@[out0.len() + j] == 0,
            ensures
                self.wf(),
                self.same_file(&s0),
                total == self.pos - p0,
                self.pos == self.len,
                out@.len() == out0.len() + total,
                out@.subrange(0, out0.len() as int) == out0,
                !self.decrypts() ==> out@.subrange(out0.len() as int, out@.len() as int) == s0.bytes(
                    p0,
                    self.pos as int,
                ),
                forall|j: int|
                    0 <= j < total && !#[trigger] byte_mapped(s0.extents(), bsn, p0 + j)
                        ==> out@[out0.len() + j] == 0,
            decreases self.len - self.pos,
        {
            let ghost q = self.pos as int;
            let ghost before = out@;
            let k = match self.read(chunk.as_mut_slice()) {
                Ok(k) => k,
                Err(e) => {
                    proof {
                        lemma_pos_split(q, bsn as int);
                        if e == FsError::Arithmetic {
                            assert(q >= (u32::MAX + 1) * bsn) by (nonlinear_arith)
                                requires
                                    q == (q / (bsn as int)) * bsn + q % (bsn as int),
                                    q / (bsn as int) >= u32::MAX + 1,
                                    q % (bsn as int) >= 0,
                                    bsn > 0,
                            ;
                        }
                        if e == FsError::Io {
                            lemma_read_len_bounds(s0.extents(), bsn, s0.len as int, q, 4096);
                            let o = choose|o: int|
                                q <= o < q + read_len(s0.extents(), bsn, s0.len as int, q, 4096)
                                    && !byte_present(s0.image(), s0.extents(), bsn, o);
                            assert(p0 <= o < s0.len);
                        }
                        if !s0.decrypts() && s0.len <= (u32::MAX + 1) * bsn && forall|o: int|
                            p0 <= o < s0.len ==> #[trigger] byte_present(
                                s0.image(),
                                s0.extents(),
                                bsn,
                                o,
                            ) {
                            assert(q / (bsn as int) <= u32::MAX) by {
                                vstd::arithmetic::div_mod::lemma_multiply_divide_lt(
                                    q,
                                    bsn as int,
                                    u32::MAX + 1,
                                );
                            }
                        }
                    }
                    return Err(e);
                },
            };
            if k == 0 {
                break;
            }
            let mut t: usize = 0;
            while t < k
                invariant
                    t <= k,
                    k <= chunk@.len(),
                    out@.len() == before.len() + t,
                    out@.subrange(0, before.len() as int) == before,
                    forall|j: int| 0 <= j < t ==> out@[before.len() + j] == chunk@[j],
                decreases k - t,
            {
                out.push(chunk[t]);
                t = t + 1;
            }
            let out_len = out.len();
            proof {
                let mid = before.len() as int;
                assert forall|j: int|
                    0 <= j < total + k && !#[trigger] byte_mapped(s0.extents(), bsn, p0 + j)
                        implies out@[out0.len() + j] == 0 by {
                    if out0.len() + j < mid {
                        assert(out@[out0.len() + j] == before[out0.len() + j]);
                    } else {
                        let t2 = out0.len() + j - mid;
                        assert(out@[mid + t2] == chunk@[t2]);
                        assert(p0 + j == q + t2);
                    }
                }
                if !self.decrypts() {
                    let mid = before.len() as int;
                    let sub = out@.subrange(out0.len() as int, out@.len() as int);
                    assert forall|j: int|
                        0 <= j < sub.len() implies #[trigger] sub[j]
                        == file_byte(s0.image(), s0.extents(), bsn, p0 + j) by {
                        assert(sub[j] == out@[out0.len() + j]);
                        if out0.len() + j < mid {
                            assert(out@[out0.len() + j] == before[out0.len() + j]);
                            assert(before.subrange(out0.len() as int, mid)[j] == file_byte(
                                s0.image(),
                                s0.extents(),
                                bsn,
                                p0 + j,
                            ));
                        } else {
                            let t2 = out0.len() + j - mid;
                            assert(out@[mid + t2] == chunk@[t2]);
                            assert(chunk@.subrange(0, k as int)[t2] == file_byte(
                                s0.image(),
                                s0.extents(),
                                bsn,
                                q + t2,
                            ));
                        }
                    }
                    assert(out@.subrange(out0.len() as int, out@.len() as int) =~= s0.bytes(
                        p0,
                        self.pos as int,
                    ));
                }
                assert(out@.subrange(0, out0.len() as int) =~= out0);
            }
            total = total + k;
        }
        Ok(total)
    }
}

proof fn lemma_read_len_bounds(ex: Seq<Extent>, bs: nat, size: int, pos: int, want: int)
    requires
        bs > 0,
        0 <= pos <= size,
        pos / (bs as int) <= u32::MAX,
        want >= 0,
        ex.len() <= usize::MAX,
    ensures
        0 <= read_len(ex, bs, size, pos, want) <= want,
        read_len(ex, bs, size, pos, want) <= size - pos,
        (want > 0 && pos < size) ==> read_len(
            ex,
            bs,
            size,
            pos,
            want,
        ) > 0,
{
    if want > 0 && pos < size {
        let b = pos / (bs as int);
        vstd::arithmetic::div_mod::lemma_fundamental_div_mod(pos, bs as int);
        if b <= u32::MAX {
            match find_from(b as u32, ex, 0) {
                FoundPart::Actual(i) => {
                    lemma_find_actual_covers(b as u32, ex, 0);
                    assert(mapped_end(ex[i as int]) * bs > pos) by (nonlinear_arith)
                        requires
                            pos == bs * b + pos % (bs as int),
                            pos % (bs as int) < bs,
                            b + 1 <= mapped_end(ex[i as int]),
                    ;
                },
                FoundPart::Sparse(gap) => {
                    lemma_hole_gap_positive(b as u32, ex, 0);
                    assert(gap * bs >= bs) by (nonlinear_arith)
                        requires
                            gap >= 1,
                    ;
                },
            }
        }
    }
}

/// A logical block that no extent covers reads as zeros throughout.
pub proof fn lemma_holes_read_zero(img: Seq<u8>, ex: Seq<Extent>, bs: nat, b: int, j: int)
    requires
        bs > 0,
        0 <= b <= u32::MAX,
        0 <= j < bs,
        forall|m: int| 0 <= m < ex.len() ==> !covers(#[trigger] ex[m], b),
    ensures
        file_byte(img, ex, bs, b * bs + j) == 0,
{
    lemma_div_mod_of(b * bs + j, bs as int, b, j);
    lemma_uncovered_is_hole(b as u32, ex, 0);
}

/// The position after the first `k` of a run of reads that starts at offset
/// 0 and asks for `wants[i]` bytes in read `i`.
pub open spec fn position_after(
    ex: Seq<Extent>,
    bs: nat,
    size: int,
    wants: Seq<int>,
    k: nat,
) -> int
    decreases k,
{
    if k == 0 {
        0
    } else {
        let p = position_after(ex, bs, size, wants, (k - 1) as nat);
        p + read_len(ex, bs, size, p, wants[k - 1])
    }
}

/// What the first `k` reads of such a run produce, one after the other.
pub open spec fn produced(
    img: Seq<u8>,
    ex: Seq<Extent>,
    bs: nat,
    size: int,
    wants: Seq<int>,
    k: nat,
) -> Seq<u8>
    decreases k,
{
    if k == 0 {
        Seq::empty()
    } else {
        produced(img, ex, bs, size, wants, (k - 1) as nat) + file_bytes(
            img,
            ex,
            bs,
            position_after(ex, bs, size, wants, (k - 1) as nat),
            position_after(ex, bs, size, wants, k),
        )
    }
}

/// Reads without a seek move forward through the file: every read starts
/// where the previous one stopped, none passes the end, each one with room
/// in its buffer before the end moves on, and together they produce
/// exactly the file's bytes from offset 0 up to where they stopped.
pub proof fn lemma_reads_cover_prefix(
    img: Seq<u8>,
    ex: Seq<Extent>,
    bs: nat,
    size: int,
    wants: Seq<int>,
    k: nat,
)
    requires
        bs > 0,
        0 <= size <= (u32::MAX + 1) * bs,
        ex.len() <= usize::MAX,
        k <= wants.len(),
        forall|i: int| 0 <= i < wants.len() ==> wants[i] >= 0,
    ensures
        0 <= position_after(ex, bs, size, wants, k) <= size,
        forall|i: nat|
            i < k ==> position_after(ex, bs, size, wants, i) <= #[trigger] position_after(
                ex,
                bs,
                size,
                wants,
                i + 1,
            ),
        forall|i: nat|
            i < k && wants[i as int] > 0 && position_after(ex, bs, size, wants, i) < size
                ==> position_after(ex, bs, size, wants, i) < #[trigger] position_after(
                ex,
                bs,
                size,
                wants,
                i + 1,
            ),
        produced(img, ex, bs, size, wants, k) == file_bytes(
            img,
            ex,
            bs,
            0,
            position_after(ex, bs, size, wants, k),
        ),
    decreases k,
{
    if k > 0 {
        let j = (k - 1) as nat;
        lemma_reads_cover_prefix(img, ex, bs, size, wants, j);
        let p = position_after(ex, bs, size, wants, j);
        if p < size {
            vstd::arithmetic::div_mod::lemma_multiply_divide_lt(p, bs as int, u32::MAX + 1);
            lemma_read_len_bounds(ex, bs, size, p, wants[j as int]);
        } else {
            assert(read_len(ex, bs, size, p, wants[j as int]) == 0);
        }
        assert(produced(img, ex, bs, size, wants, k) =~= file_bytes(
            img,
            ex,
            bs,
            0,
            position_after(ex, bs, size, wants, k),
        ));
    } else {
        assert(produced(img, ex, bs, size, wants, 0) =~= file_bytes(img, ex, bs, 0, 0));
    }
}

} // verus!
