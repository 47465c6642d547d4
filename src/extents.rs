use vstd::prelude::*;

use crate::codec::{as_u16, as_u32, crc32c, ext4_style_crc32c_le, le16, le32};
use crate::error::FsError;
use crate::image::{bytes_at, Image};

verus! {

/// A run of `len` physical blocks starting at `start`, mapped at logical
/// block `part` of a file.
#[derive(Debug, Clone, Copy, PartialEq, Eq, Structural)]
pub struct Extent {
    pub part: u32,
    pub start: u64,
    pub len: u16,
}

/// Logical block just past the extent.
pub open spec fn extent_end(e: Extent) -> int {
    e.part as int + e.len as int
}

/// Whether the extent maps logical block `b`.
pub open spec fn covers(e: Extent, b: int) -> bool {
    e.part as int <= b < extent_end(e)
}

/// Where a logical block lies: inside the extent at an index, or in a hole
/// of a number of blocks before the next extent.
#[derive(Debug, Clone, Copy, PartialEq, Eq, Structural)]
pub enum FoundPart {
    Actual(usize),
    Sparse(u32),
}

/// The scan of `ex` from index `i` for logical block `part`: the first
/// extent that covers it, or the distance to the first extent past it, or
/// `u32::MAX` when none is past it.
pub open spec fn find_from(part: u32, ex: Seq<Extent>, i: int) -> FoundPart
    decreases ex.len() - i,
{
    if i < 0 || i >= ex.len() {
        FoundPart::Sparse(u32::MAX)
    } else if part < ex[i].part {
        FoundPart::Sparse((ex[i].part - part) as u32)
    } else if covers(ex[i], part as int) {
        FoundPart::Actual(i as usize)
    } else {
        find_from(part, ex, i + 1)
    }
}

/// Locates logical block `part` in `extents`.
pub fn find_part(part: u32, extents: &[Extent]) -> (r: FoundPart)
    ensures
        r == find_from(part, extents@, 0),
{
    let mut i: usize = 0;
    while i < extents.len()
        invariant
            i <= extents@.len(),
            find_from(part, extents@, 0) == find_from(part, extents@, i as int),
        decreases extents@.len() - i,
    {
        let extent = extents[i];
        if part < extent.part {
            return FoundPart::Sparse(extent.part - part);
        }
        if (part as u64) < extent.part as u64 + extent.len as u64 {
            return FoundPart::Actual(i);
        }
        i = i + 1;
    }
    FoundPart::Sparse(u32::MAX)
}

/// Length of an extent node header, and of each entry after it.
pub const EXTENT_ENTRY_LEN: usize = 12;

/// Deepest extent tree accepted at the root.
pub const MAX_EXTENT_DEPTH: u16 = 5;

/// Whether a node starts with the extent magic (0xF30A, little-endian).
pub open spec fn has_extent_magic(node: Seq<u8>) -> bool {
    node.len() >= 2 && node[0] == 0x0a && node[1] == 0xf3
}

/// Number of entries a node header declares.
pub open spec fn node_entries(node: Seq<u8>) -> u16 {
    le16(node, 2)
}

/// Depth a node header declares.
pub open spec fn node_depth(node: Seq<u8>) -> u16 {
    le16(node, 6)
}

/// The leaf extent stored as entry `i` of a depth-0 node.
pub open spec fn leaf_at(node: Seq<u8>, i: int) -> Extent {
    let o = 12 + 12 * i;
    Extent {
        part: le32(node, o),
        len: le16(node, o + 4),
        start: (le32(node, o + 8) as int + le16(node, o + 6) as int * 0x1_0000_0000) as u64,
    }
}

/// The first `n` leaf extents of a depth-0 node.
pub open spec fn leaves(node: Seq<u8>, n: nat) -> Seq<Extent> {
    Seq::new(n, |i: int| leaf_at(node, i))
}

/// The child block named by index entry `i` of an inner node.
pub open spec fn child_at(node: Seq<u8>, i: int) -> u64 {
    let o = 12 + 12 * i;
    (le32(node, o + 4) as int + le16(node, o + 8) as int * 0x1_0000_0000) as u64
}

/// Block `b` of the image, when the image holds all of it.
pub open spec fn block_at(img: Seq<u8>, bs: nat, b: u64) -> Option<Seq<u8>> {
    bytes_at(img, b * bs, bs as int)
}

/// Whether a node's trailing checksum disagrees with its contents.
pub open spec fn checksum_fails(node: Seq<u8>, seed: u32) -> bool {
    let end = node.len() - 4;
    crc32c(seed, node.subrange(0, end)) != le32(node, end)
}

/// The first problem with a node's header, in the order they are checked.
/// Only a non-root node with a seed is checksummed, and a mismatch only
/// fails the load when `verify` is set.
pub open spec fn node_problem(
    node: Seq<u8>,
    expected_depth: u16,
    seed: Option<u32>,
    verify: bool,
    root: bool,
) -> Option<FsError> {
    if node.len() < 12 {
        Some(FsError::CorruptExtentNode)
    } else if !has_extent_magic(node) {
        Some(FsError::BadExtentMagic)
    } else if node_depth(node) != expected_depth {
        Some(FsError::DepthMismatch)
    } else if !root && verify && seed is Some && checksum_fails(node, seed->Some_0) {
        Some(FsError::ChecksumMismatch)
    } else if 12 + 12 * (node_entries(node) as int) > node.len() {
        Some(FsError::CorruptExtentNode)
    } else {
        None
    }
}

/// The leaf extents reachable from a node, in tree order, or the first
/// error met on the way.
pub open spec fn collect_node(
    img: Seq<u8>,
    bs: nat,
    node: Seq<u8>,
    depth: u16,
    seed: Option<u32>,
    verify: bool,
    root: bool,
) -> Result<Seq<Extent>, FsError>
    decreases depth, 0x10000int,
{
    match node_problem(node, depth, seed, verify, root) {
        Some(e) => Err(e),
        None => if depth == 0 {
            Ok(leaves(node, node_entries(node) as nat))
        } else {
            collect_children(img, bs, node, depth, seed, verify, node_entries(node) as nat)
        },
    }
}

/// The leaf extents under the first `k` index entries of an inner node.
pub open spec fn collect_children(
    img: Seq<u8>,
    bs: nat,
    node: Seq<u8>,
    depth: u16,
    seed: Option<u32>,
    verify: bool,
    k: nat,
) -> Result<Seq<Extent>, FsError>
    decreases depth, k,
{
    if k == 0 || depth == 0 || k > 0xffff {
        Ok(Seq::empty())
    } else {
        match collect_children(img, bs, node, depth, seed, verify, (k - 1) as nat) {
            Err(e) => Err(e),
            Ok(prev) => match block_at(img, bs, child_at(node, k - 1)) {
                None => Err(FsError::Io),
                Some(child) => match collect_node(
                    img,
                    bs,
                    child,
                    (depth - 1) as u16,
                    seed,
                    verify,
                    false,
                ) {
                    Err(e) => Err(e),
                    Ok(more) => Ok(prev + more),
                },
            },
        }
    }
}

proof fn lemma_children_error_persists(
    img: Seq<u8>,
    bs: nat,
    node: Seq<u8>,
    depth: u16,
    seed: Option<u32>,
    verify: bool,
    k: nat,
    m: nat,
)
    requires
        k <= m <= 0xffff,
        collect_children(img, bs, node, depth, seed, verify, k) is Err,
    ensures
        collect_children(img, bs, node, depth, seed, verify, m) == collect_children(
            img,
            bs,
            node,
            depth,
            seed,
            verify,
            k,
        ),
    decreases m - k,
{
    if m > k {
        lemma_children_error_persists(img, bs, node, depth, seed, verify, k, (m - 1) as nat);
    }
}

/// Reads block `b` of the image.
fn load_block(img: &Image, bs: u32, b: u64) -> (r: Result<Vec<u8>, FsError>)
    ensures
        r matches Ok(v) ==> block_at(img@, bs as nat, b) == Some(v@),
        r is Err ==> r == Err::<Vec<u8>, FsError>(FsError::Io) && block_at(img@, bs as nat, b) is None,
{
    let total = img.len();
    match b.checked_mul(bs as u64) {
        Some(pos) => img.read_at(pos, bs as usize),
        None => {
            proof {
                assert(b * bs + bs > img@.len()) by (nonlinear_arith)
                    requires
                        b * bs > u64::MAX,
                        img@.len() == total,
                        total <= u64::MAX,
                ;
            }
            Err(FsError::Io)
        },
    }
}

/// Walks the node `data` of expected depth `expected_depth`, appending the
/// leaf extents under it to `extents` in tree order. Child blocks are read
/// from the image; with a checksum seed, every node but the root is checked
/// against its trailing CRC32C, and a mismatch fails only when
/// `verify_checksums` is set.
fn add_found_extents(
    img: &Image,
    block_size: u32,
    data: &[u8],
    expected_depth: u16,
    extents: &mut Vec<Extent>,
    checksum_prefix: Option<u32>,
    verify_checksums: bool,
    first_level: bool,
) -> (r: Result<(), FsError>)
    ensures
        ({
            let want = collect_node(
                img@,
                block_size as nat,
                data@,
                expected_depth,
                checksum_prefix,
                verify_checksums,
                first_level,
            );
            &&& r is Ok <==> want is Ok
            &&& want matches Ok(found) ==> final(extents)@ == old(extents)@ + found
            &&& want matches Err(e) ==> r == Err::<(), FsError>(e)
        }),
        old(extents)@.len() <= final(extents)@.len(),
        final(extents)@.subrange(0, old(extents)@.len() as int) == old(extents)@,
        node_problem(data@, expected_depth, checksum_prefix, verify_checksums, first_level)
            is Some ==> final(extents)@ == old(extents)@,
    decreases expected_depth,
{
    if data.len() < EXTENT_ENTRY_LEN {
        return Err(FsError::CorruptExtentNode);
    }
    if !(0x0a == data[0] && 0xf3 == data[1]) {
        return Err(FsError::BadExtentMagic);
    }
    let extent_entries = as_u16(data, 2);
    // 4..: max, not needed for reading
    let depth = as_u16(data, 6);
    // 8..: generation, not used by ext4
    if expected_depth != depth {
        return Err(FsError::DepthMismatch);
    }
    if let Some(checksum_prefix) = checksum_prefix {
        if !first_level && verify_checksums {
            let end_of_entries = data.len() - 4;
            let on_disc = as_u32(data, end_of_entries);
            let computed = ext4_style_crc32c_le(checksum_prefix, &data[0..end_of_entries]);
            if computed != on_disc {
                return Err(FsError::ChecksumMismatch);
            }
        }
    }
    let needed: usize = EXTENT_ENTRY_LEN + EXTENT_ENTRY_LEN * extent_entries as usize;
    if needed > data.len() {
        return Err(FsError::CorruptExtentNode);
    }
    let ghost start = extents@;
    assert(node_problem(data@, expected_depth, checksum_prefix, verify_checksums, first_level)
        is None);
    if 0 == depth {
        let mut en: usize = 0;
        while en < extent_entries as usize
            invariant
                12 + 12 * (extent_entries as int) <= data@.len(),
                extent_entries == node_entries(data@),
                en <= extent_entries,
                extents@ =~= start + leaves(data@, en as nat),
            decreases extent_entries - en,
        {
            let o: usize = EXTENT_ENTRY_LEN + en * EXTENT_ENTRY_LEN;
            let ee_block = as_u32(data, o);
            let ee_len = as_u16(data, o + 4);
            let ee_start_hi = as_u16(data, o + 6);
            let ee_start_lo = as_u32(data, o + 8);
            let ee_start: u64 = ee_start_lo as u64 + 0x1_0000_0000u64 * ee_start_hi as u64;
            extents.push(Extent { part: ee_block, start: ee_start, len: ee_len });
            en = en + 1;
        }
        return Ok(());
    }
    let ghost img_s = img@;
    let ghost bsn = block_size as nat;
    assert(collect_node(img_s, bsn, data@, depth, checksum_prefix, verify_checksums, first_level)
        == collect_children(img_s, bsn, data@, depth, checksum_prefix, verify_checksums,
        extent_entries as nat));
    let mut en: usize = 0;
    while en < extent_entries as usize
        invariant
            12 + 12 * (extent_entries as int) <= data@.len(),
            extent_entries == node_entries(data@),
            depth == expected_depth,
            depth > 0,
            en <= extent_entries,
            img@ == img_s,
            bsn == block_size,
            start == old(extents)@,
            node_problem(data@, expected_depth, checksum_prefix, verify_checksums, first_level)
                is None,
            collect_node(img_s, bsn, data@, depth, checksum_prefix, verify_checksums, first_level)
                == collect_children(img_s, bsn, data@, depth, checksum_prefix, verify_checksums,
                extent_entries as nat),
            collect_children(img_s, bsn, data@, depth, checksum_prefix, verify_checksums, en as nat)
                matches Ok(found) && extents@ == start + found,
        decreases extent_entries - en,
    {
        let o: usize = EXTENT_ENTRY_LEN + en * EXTENT_ENTRY_LEN;
        let ei_leaf_lo = as_u32(data, o + 4);
        let ei_leaf_hi = as_u16(data, o + 8);
        let ee_leaf: u64 = ei_leaf_lo as u64 + 0x1_0000_0000u64 * ei_leaf_hi as u64;
        let ghost prev = extents@;
        let child = match load_block(img, block_size, ee_leaf) {
            Ok(child) => child,
            Err(e) => {
                proof {
                    assert(extents@.subrange(0, start.len() as int) =~= start);
                    assert(child_at(data@, en as int) == ee_leaf);
                    assert(collect_children(img_s, bsn, data@, depth, checksum_prefix,
                        verify_checksums, (en + 1) as nat) == Err::<Seq<Extent>, FsError>(e));
                    lemma_children_error_persists(
                        img_s, bsn, data@, depth, checksum_prefix, verify_checksums,
                        (en + 1) as nat, extent_entries as nat,
                    );
                }
                return Err(e);
            },
        };
        let res = add_found_extents(
            img,
            block_size,
            child.as_slice(),
            depth - 1,
            extents,
            checksum_prefix,
            verify_checksums,
            false,
        );
        match res {
            Ok(()) => {},
            Err(e) => {
                proof {
                    assert(extents@.subrange(0, start.len() as int) =~= extents@.subrange(
                        0,
                        prev.len() as int,
                    ).subrange(0, start.len() as int));
                    assert(child_at(data@, en as int) == ee_leaf);
                    assert(collect_children(img_s, bsn, data@, depth, checksum_prefix,
                        verify_checksums, (en + 1) as nat) == Err::<Seq<Extent>, FsError>(e));
                    lemma_children_error_persists(
                        img_s, bsn, data@, depth, checksum_prefix, verify_checksums,
                        (en + 1) as nat, extent_entries as nat,
                    );
                }
                return Err(e);
            },
        }
        proof {
            assert(extents@ =~= start + collect_children(img_s, bsn, data@, depth, checksum_prefix,
                verify_checksums, (en + 1) as nat)->Ok_0);
        }
        en = en + 1;
    }
    Ok(())
}

/// `x` placed into `s` after every extent whose `part` is not above its own,
/// counting from the end: one step of a stable insertion sort.
pub open spec fn insert_sorted(s: Seq<Extent>, x: Extent) -> Seq<Extent>
    decreases s.len(),
{
    if s.len() == 0 {
        seq![x]
    } else if s.last().part <= x.part {
        s.push(x)
    } else {
        insert_sorted(s.drop_last(), x).push(s.last())
    }
}

/// Where `insert_sorted` places `x`.
pub open spec fn insert_pos(s: Seq<Extent>, x: Extent) -> int
    decreases s.len(),
{
    if s.len() == 0 {
        0
    } else if s.last().part <= x.part {
        s.len() as int
    } else {
        insert_pos(s.drop_last(), x)
    }
}

/// `s` stably sorted by `part`.
pub open spec fn sort_by_part(s: Seq<Extent>) -> Seq<Extent>
    decreases s.len(),
{
    if s.len() == 0 {
        s
    } else {
        insert_sorted(sort_by_part(s.drop_last()), s.last())
    }
}

/// Whether `part` never decreases along `s`.
pub open spec fn sorted_by_part(s: Seq<Extent>) -> bool {
    forall|i: int, j: int| 0 <= i < j < s.len() ==> s[i].part <= s[j].part
}

/// Whether two extents share no logical block.
pub open spec fn disjoint(a: Extent, b: Extent) -> bool {
    extent_end(a) <= b.part || extent_end(b) <= a.part
}

/// Whether every two extents at distinct positions share no logical block.
pub open spec fn pairwise_disjoint(s: Seq<Extent>) -> bool {
    forall|i: int, j: int| 0 <= i < j < s.len() ==> disjoint(#[trigger] s[i], #[trigger] s[j])
}

proof fn lemma_insert_pos(s: Seq<Extent>, x: Extent)
    ensures
        0 <= insert_pos(s, x) <= s.len(),
        insert_sorted(s, x) == s.insert(insert_pos(s, x), x),
        forall|k: int| insert_pos(s, x) <= k < s.len() ==> s[k].part > x.part,
        insert_pos(s, x) > 0 ==> s[insert_pos(s, x) - 1].part <= x.part,
    decreases s.len(),
{
    if s.len() == 0 {
        assert(seq![x] =~= s.insert(0, x));
    } else if s.last().part <= x.part {
        assert(s.push(x) =~= s.insert(s.len() as int, x));
    } else {
        let t = s.drop_last();
        lemma_insert_pos(t, x);
        assert(t.insert(insert_pos(t, x), x).push(s.last()) =~= s.insert(insert_pos(t, x), x));
        assert forall|k: int| insert_pos(s, x) <= k < s.len() implies s[k].part > x.part by {
            if k < t.len() {
                assert(s[k] == t[k]);
            }
        }
    }
}

proof fn lemma_insert_at(s: Seq<Extent>, x: Extent, j: int)
    requires
        0 <= j <= s.len(),
        forall|k: int| j <= k < s.len() ==> s[k].part > x.part,
        j > 0 ==> s[j - 1].part <= x.part,
    ensures
        insert_sorted(s, x) == s.insert(j, x),
    decreases s.len(),
{
    if s.len() == 0 {
        assert(seq![x] =~= s.insert(0, x));
    } else if j == s.len() {
        assert(s.push(x) =~= s.insert(j, x));
    } else {
        let t = s.drop_last();
        lemma_insert_at(t, x, j);
        assert(t.insert(j, x).push(s.last()) =~= s.insert(j, x));
    }
}

proof fn lemma_sort_keeps_elements(s: Seq<Extent>)
    ensures
        sort_by_part(s).to_multiset() =~= s.to_multiset(),
        sort_by_part(s).len() == s.len(),
    decreases s.len(),
{
    broadcast use vstd::seq_lib::group_to_multiset_ensures;
    broadcast use vstd::seq_lib::to_multiset_insert;

    if s.len() > 0 {
        let t = s.drop_last();
        lemma_sort_keeps_elements(t);
        lemma_insert_pos(sort_by_part(t), s.last());
        assert(s =~= t.push(s.last()));
    }
}

proof fn lemma_sort_sorted(s: Seq<Extent>)
    ensures
        sorted_by_part(sort_by_part(s)),
    decreases s.len(),
{
    if s.len() > 0 {
        let t = sort_by_part(s.drop_last());
        let x = s.last();
        lemma_sort_sorted(s.drop_last());
        lemma_insert_pos(t, x);
        let p = insert_pos(t, x);
        let r = t.insert(p, x);
        assert forall|i: int, j: int| 0 <= i < j < r.len() implies r[i].part <= r[j].part by {
            if j < p {
            } else if j == p {
                if i < p - 1 {
                    assert(t[i].part <= t[p - 1].part);
                }
            } else if i < p {
                assert(t[i].part <= t[j - 1].part);
            } else if i == p {
            } else {
                assert(t[i - 1].part <= t[j - 1].part);
            }
        }
    }
}

proof fn lemma_sort_disjoint(s: Seq<Extent>)
    requires
        pairwise_disjoint(s),
    ensures
        pairwise_disjoint(sort_by_part(s)),
    decreases s.len(),
{
    broadcast use vstd::seq_lib::to_multiset_contains;

    if s.len() > 0 {
        let d = s.drop_last();
        let x = s.last();
        assert(pairwise_disjoint(d)) by {
            assert forall|i: int, j: int| 0 <= i < j < d.len() implies disjoint(
                #[trigger] d[i],
                #[trigger] d[j],
            ) by {
                assert(d[i] == s[i] && d[j] == s[j]);
            }
        }
        lemma_sort_disjoint(d);
        lemma_sort_keeps_elements(d);
        let t = sort_by_part(d);
        lemma_insert_pos(t, x);
        let p = insert_pos(t, x);
        let r = t.insert(p, x);
        assert forall|k: int| 0 <= k < t.len() implies disjoint(t[k], x) by {
            assert(t.to_multiset().count(t[k]) > 0);
            assert(d.contains(t[k]));
            let m = choose|m: int| 0 <= m < d.len() && d[m] == t[k];
            assert(s[m] == t[k] && s[s.len() - 1] == x);
        }
        assert forall|i: int, j: int| 0 <= i < j < r.len() implies disjoint(
            #[trigger] r[i],
            #[trigger] r[j],
        ) by {
            if j < p {
                assert(r[i] == t[i] && r[j] == t[j]);
            } else if j == p {
                assert(r[i] == t[i]);
            } else if i < p {
                assert(r[i] == t[i] && r[j] == t[j - 1]);
            } else if i == p {
                assert(r[j] == t[j - 1]);
            } else {
                assert(r[i] == t[i - 1] && r[j] == t[j - 1]);
            }
        }
    }
}

/// Sorts extents by `part`, keeping the order of equal ones.
fn sort_extents(v: Vec<Extent>) -> (r: Vec<Extent>)
    ensures
        r@ == sort_by_part(v@),
{
    let mut out: Vec<Extent> = Vec::with_capacity(v.len());
    let mut i: usize = 0;
    while i < v.len()
        invariant
            i <= v@.len(),
            out@ == sort_by_part(v@.subrange(0, i as int)),
        decreases v@.len() - i,
    {
        let x = v[i];
        let mut j: usize = out.len();
        while j > 0 && out[j - 1].part > x.part
            invariant
                j <= out@.len(),
                forall|k: int| j <= k < out@.len() ==> out@[k].part > x.part,
            decreases j,
        {
            j = j - 1;
        }
        proof {
            lemma_insert_at(out@, x, j as int);
            assert(v@.subrange(0, i + 1).drop_last() =~= v@.subrange(0, i as int));
        }
        out.insert(j, x);
        i = i + 1;
    }
    proof {
        assert(v@.subrange(0, v@.len() as int) =~= v@);
    }
    out
}

/// The extents of the tree whose root node is `core`, sorted by `part`, or
/// the first error met while walking it.
pub open spec fn tree_extents(
    img: Seq<u8>,
    bs: nat,
    core: Seq<u8>,
    seed: Option<u32>,
    verify: bool,
) -> Result<Seq<Extent>, FsError> {
    if core.len() < 12 {
        Err(FsError::CorruptExtentNode)
    } else if !has_extent_magic(core) {
        Err(FsError::BadExtentMagic)
    } else if node_depth(core) > MAX_EXTENT_DEPTH {
        Err(FsError::ExtentTooDeep)
    } else {
        match collect_node(img, bs, core, node_depth(core), seed, verify, true) {
            Ok(found) => Ok(sort_by_part(found)),
            Err(e) => Err(e),
        }
    }
}

/// Loads the extent tree whose root is the inode's block payload `core`,
/// reading inner and leaf nodes from the image, and returns its leaf extents
/// sorted by logical block.
pub fn load_extent_tree(
    img: &Image,
    block_size: u32,
    core: &[u8],
    checksum_prefix: Option<u32>,
    verify_checksums: bool,
) -> (r: Result<Vec<Extent>, FsError>)
    ensures
        match tree_extents(img@, block_size as nat, core@, checksum_prefix, verify_checksums) {
            Ok(found) => r matches Ok(v) && v@ == found,
            Err(e) => r == Err::<Vec<Extent>, FsError>(e),
        },
{
    if core.len() < EXTENT_ENTRY_LEN {
        return Err(FsError::CorruptExtentNode);
    }
    if !(0x0a == core[0] && 0xf3 == core[1]) {
        return Err(FsError::BadExtentMagic);
    }
    let depth = as_u16(core, 6);
    if depth > MAX_EXTENT_DEPTH {
        return Err(FsError::ExtentTooDeep);
    }
    let mut extents: Vec<Extent> = Vec::new();
    let res = add_found_extents(
        img,
        block_size,
        core,
        depth,
        &mut extents,
        checksum_prefix,
        verify_checksums,
        true,
    );
    match res {
        Ok(()) => {
            assert(extents@ =~= Seq::<Extent>::empty() + extents@);
            Ok(sort_extents(extents))
        },
        Err(e) => Err(e),
    }
}

/// After loading, the extents are sorted by logical block, and when the tree
/// maps no logical block twice they are pairwise non-overlapping.
pub proof fn lemma_loaded_extents_sorted(
    img: Seq<u8>,
    bs: nat,
    core: Seq<u8>,
    seed: Option<u32>,
    verify: bool,
)
    requires
        tree_extents(img, bs, core, seed, verify) is Ok,
    ensures
        sorted_by_part(tree_extents(img, bs, core, seed, verify)->Ok_0),
        pairwise_disjoint(collect_node(img, bs, core, node_depth(core), seed, verify, true)->Ok_0)
            ==> pairwise_disjoint(tree_extents(img, bs, core, seed, verify)->Ok_0),
{
    let found = collect_node(img, bs, core, node_depth(core), seed, verify, true)->Ok_0;
    lemma_sort_sorted(found);
    if pairwise_disjoint(found) {
        lemma_sort_disjoint(found);
    }
}

/// Every node the loader accepts, the root and each node below it, begins
/// with the extent magic: a walk that succeeds has checked it on each.
pub proof fn lemma_parsed_nodes_have_magic(
    img: Seq<u8>,
    bs: nat,
    node: Seq<u8>,
    depth: u16,
    seed: Option<u32>,
    verify: bool,
    root: bool,
)
    requires
        collect_node(img, bs, node, depth, seed, verify, root) is Ok,
    ensures
        has_extent_magic(node),
        depth > 0 ==> forall|k: int|
            0 <= k < node_entries(node) ==> (#[trigger] block_at(img, bs, child_at(node, k))
                matches Some(child) && collect_node(
                img,
                bs,
                child,
                (depth - 1) as u16,
                seed,
                verify,
                false,
            ) is Ok && has_extent_magic(child)),
{
    if depth > 0 {
        assert forall|k: int| 0 <= k < node_entries(node) implies (#[trigger] block_at(
            img,
            bs,
            child_at(node, k),
        ) matches Some(child) && collect_node(img, bs, child, (depth - 1) as u16, seed, verify, false)
            is Ok && has_extent_magic(child)) by {
            lemma_children_ok_prefix(img, bs, node, depth, seed, verify, (k + 1) as nat,
                node_entries(node) as nat);
        }
    }
}

proof fn lemma_children_ok_prefix(
    img: Seq<u8>,
    bs: nat,
    node: Seq<u8>,
    depth: u16,
    seed: Option<u32>,
    verify: bool,
    k: nat,
    m: nat,
)
    requires
        depth > 0,
        1 <= k <= m <= 0xffff,
        collect_children(img, bs, node, depth, seed, verify, m) is Ok,
    ensures
        block_at(img, bs, child_at(node, k - 1)) matches Some(child) && collect_node(
            img,
            bs,
            child,
            (depth - 1) as u16,
            seed,
            verify,
            false,
        ) is Ok && has_extent_magic(child),
{
    if collect_children(img, bs, node, depth, seed, verify, k) is Err {
        lemma_children_error_persists(img, bs, node, depth, seed, verify, k, m);
    }
    let child = block_at(img, bs, child_at(node, k - 1))->Some_0;
    if collect_node(img, bs, child, (depth - 1) as u16, seed, verify, false) is Ok {
        assert(node_problem(child, (depth - 1) as u16, seed, verify, false) is None);
    }
}

} // verus!
