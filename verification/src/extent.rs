//! Extent trees: from a file's logical blocks to physical blocks.

use crate::bytes::{le16, le32, u16_at, u32_at, wide, widen};
use crate::error::{corrupt, outcome, Fault, Outcome, Result};
use crate::inode::{Inode, InodeView};
use crate::volume::{block_of, settled, Ext4, VolumeView};
use vstd::prelude::*;

verus! {

pub const EXTENT_MAGIC: u16 = 0xF30A;

/// The most nodes that a path from the root to a leaf may have.
pub const MAX_EXTENT_NODES: u32 = 16;

/// Byte offset of entry `i` in a node.
pub open spec fn extent_entry(i: int) -> int {
    12 + i * 12
}

/// A run of logical blocks and where it lies, as entry `i` of a leaf tells it.
pub struct Extent {
    pub first: u32,
    pub len: u16,
    /// The run is allocated and not yet written: it reads as zeros.
    pub unwritten: bool,
    pub start: u64,
}

pub open spec fn extent_at(buf: Seq<u8>, i: int) -> Extent {
    let e = extent_entry(i);
    Extent {
        first: le32(buf, e),
        len: le16(buf, e + 4) % 0x8000,
        unwritten: le16(buf, e + 4) >= 0x8000,
        start: wide(le32(buf, e + 8), le16(buf, e + 6) as u32),
    }
}

impl Extent {
    pub open spec fn covers(self, logical: u64) -> bool {
        self.first <= logical < self.first + self.len
    }

    /// The physical block of a covered logical block.
    pub open spec fn locate(self, logical: u64) -> Option<u64> {
        if self.unwritten {
            None
        } else {
            Some((self.start + (logical - self.first)) as u64)
        }
    }
}

/// Looks for `logical` in a leaf with `n` entries, from entry `i` on: the first extent
/// that covers it decides, and without one it is a hole.
pub open spec fn leaf_lookup(buf: Seq<u8>, n: int, i: int, logical: u64) -> Outcome<Option<u64>>
    decreases n - i,
{
    if i >= n {
        Ok(None)
    } else if extent_entry(i) + 12 > buf.len() {
        Err(Fault::Corrupt("extent entry outside its node"@))
    } else if extent_at(buf, i).covers(logical) {
        Ok(extent_at(buf, i).locate(logical))
    } else {
        leaf_lookup(buf, n, i + 1, logical)
    }
}

/// How many of the entries from `i` on, out of `n`, start at or before `logical`, counted
/// up to the first that does not; `i` is added.
pub open spec fn index_prefix(buf: Seq<u8>, n: int, i: int, logical: u64) -> Outcome<int>
    decreases n - i,
{
    if i >= n {
        Ok(i)
    } else if extent_entry(i) + 4 > buf.len() {
        Err(Fault::Corrupt("extent entry outside its node"@))
    } else if le32(buf, extent_entry(i)) <= logical {
        index_prefix(buf, n, i + 1, logical)
    } else {
        Ok(i)
    }
}

/// The block of the child node that is responsible for `logical`.
pub open spec fn index_child(buf: Seq<u8>, logical: u64) -> Outcome<u64> {
    match index_prefix(buf, le16(buf, 2) as int, 0, logical) {
        Err(e) => Err(e),
        Ok(k) => {
            let e = extent_entry(k - 1);
            if k == 0 {
                Err(Fault::Corrupt("no extent index covers block"@))
            } else if e + 10 > buf.len() {
                Err(Fault::Corrupt("extent entry outside its node"@))
            } else {
                Ok(wide(le32(buf, e + 4), le16(buf, e + 8) as u32))
            }
        },
    }
}

/// Looks up `logical` below the node in `buf`, to which `above` nodes led.
pub open spec fn node_lookup(v: VolumeView, buf: Seq<u8>, logical: u64, above: int) -> Outcome<
    Option<u64>,
>
    decreases MAX_EXTENT_NODES - above,
{
    if le16(buf, 0) != EXTENT_MAGIC {
        Err(Fault::Corrupt("bad extent header magic"@))
    } else if above >= MAX_EXTENT_NODES {
        Err(Fault::Corrupt("extent tree too deep"@))
    } else if le16(buf, 6) == 0 {
        leaf_lookup(buf, le16(buf, 2) as int, 0, logical)
    } else {
        match index_child(buf, logical) {
            Err(e) => Err(e),
            Ok(p) => match block_of(v, p) {
                Err(e) => Err(e),
                Ok(child) => node_lookup(v, child, logical, above + 1),
            },
        }
    }
}

/// Looks up `logical` in the extent tree that is rooted in the inode.
pub open spec fn extent_lookup(v: VolumeView, inode: InodeView, logical: u64) -> Outcome<
    Option<u64>,
> {
    node_lookup(v, inode.block_raw, logical, 0)
}

/// A lookup in an extent tree is settled.
pub proof fn law_node_settled(
    v: VolumeView,
    w: VolumeView,
    buf: Seq<u8>,
    logical: u64,
    above: int,
)
    requires
        v.grows_to(w),
    ensures
        settled(v, node_lookup(v, buf, logical, above), node_lookup(w, buf, logical, above)),
    decreases MAX_EXTENT_NODES - above,
{
    lemma_leaf_not_pending(buf, le16(buf, 2) as int, 0, logical);
    if le16(buf, 0) == EXTENT_MAGIC && above < MAX_EXTENT_NODES && le16(buf, 6) != 0 {
        lemma_index_not_pending(buf, le16(buf, 2) as int, 0, logical);
        if let Ok(p) = index_child(buf, logical) {
            if let Ok(child) = block_of(v, p) {
                law_node_settled(v, w, child, logical, above + 1);
            }
        }
    }
}

proof fn lemma_leaf_not_pending(buf: Seq<u8>, n: int, i: int, logical: u64)
    ensures
        leaf_lookup(buf, n, i, logical) matches Err(e) ==> e is Corrupt,
    decreases n - i,
{
    if i < n && extent_entry(i) + 12 <= buf.len() && !extent_at(buf, i).covers(logical) {
        lemma_leaf_not_pending(buf, n, i + 1, logical);
    }
}

proof fn lemma_index_not_pending(buf: Seq<u8>, n: int, i: int, logical: u64)
    ensures
        index_prefix(buf, n, i, logical) matches Err(e) ==> e is Corrupt,
        index_prefix(buf, n, i, logical) matches Ok(k) ==> i <= k && (i <= n ==> k <= n),
    decreases n - i,
{
    if i < n && extent_entry(i) + 4 <= buf.len() && le32(buf, extent_entry(i)) <= logical {
        lemma_index_not_pending(buf, n, i + 1, logical);
    }
}

/// The first extent of a leaf that covers a logical block decides where the block lies.
pub proof fn law_first_extent_decides(buf: Seq<u8>, n: int, i: int, logical: u64)
    requires
        0 <= i < n,
        extent_entry(n - 1) + 12 <= buf.len(),
        extent_at(buf, i).covers(logical),
        forall|j: int| 0 <= j < i ==> !(#[trigger] extent_at(buf, j)).covers(logical),
    ensures
        leaf_lookup(buf, n, 0, logical) == Ok::<_, Fault>(extent_at(buf, i).locate(logical)),
{
    lemma_first_extent_from(buf, n, 0, i, logical);
}

proof fn lemma_first_extent_from(buf: Seq<u8>, n: int, from: int, i: int, logical: u64)
    requires
        0 <= from <= i < n,
        extent_entry(n - 1) + 12 <= buf.len(),
        extent_at(buf, i).covers(logical),
        forall|j: int| 0 <= j < i ==> !(#[trigger] extent_at(buf, j)).covers(logical),
    ensures
        leaf_lookup(buf, n, from, logical) == Ok::<_, Fault>(extent_at(buf, i).locate(logical)),
    decreases i - from,
{
    if from < i {
        assert(!extent_at(buf, from).covers(logical));
        lemma_first_extent_from(buf, n, from + 1, i, logical);
    }
}

/// A logical block that no extent of a leaf covers is a hole.
pub proof fn law_uncovered_is_hole(buf: Seq<u8>, n: int, i: int, logical: u64)
    requires
        0 <= i,
        n > 0 ==> extent_entry(n - 1) + 12 <= buf.len(),
        forall|j: int| i <= j < n ==> !(#[trigger] extent_at(buf, j)).covers(logical),
    ensures
        leaf_lookup(buf, n, i, logical) == Ok::<Option<u64>, Fault>(None),
    decreases n - i,
{
    if i < n {
        assert(!extent_at(buf, i).covers(logical));
        law_uncovered_is_hole(buf, n, i + 1, logical);
    }
}

/// In an index node whose entries are in order, the last entry that starts at or before a
/// logical block is responsible for it.
pub proof fn law_index_picks_last_start(buf: Seq<u8>, k: int, logical: u64)
    requires
        0 <= k < le16(buf, 2),
        extent_entry(le16(buf, 2) - 1) + 12 <= buf.len(),
        forall|i: int, j: int|
            0 <= i <= j < le16(buf, 2) ==> #[trigger] le32(buf, extent_entry(i)) <= #[trigger] le32(
                buf,
                extent_entry(j),
            ),
        le32(buf, extent_entry(k)) <= logical,
        k + 1 < le16(buf, 2) ==> le32(buf, extent_entry(k + 1)) > logical,
    ensures
        index_child(buf, logical) == Ok::<_, Fault>(
            wide(le32(buf, extent_entry(k) + 4), le16(buf, extent_entry(k) + 8) as u32),
        ),
{
    lemma_index_prefix(buf, 0, k, logical);
}

proof fn lemma_index_prefix(buf: Seq<u8>, i: int, k: int, logical: u64)
    requires
        0 <= i <= k + 1,
        0 <= k < le16(buf, 2),
        extent_entry(le16(buf, 2) - 1) + 12 <= buf.len(),
        forall|a: int, b: int|
            0 <= a <= b < le16(buf, 2) ==> #[trigger] le32(buf, extent_entry(a)) <= #[trigger] le32(
                buf,
                extent_entry(b),
            ),
        le32(buf, extent_entry(k)) <= logical,
        k + 1 < le16(buf, 2) ==> le32(buf, extent_entry(k + 1)) > logical,
    ensures
        index_prefix(buf, le16(buf, 2) as int, i, logical) == Ok::<_, Fault>(k + 1),
    decreases k + 1 - i,
{
    if i <= k {
        assert(le32(buf, extent_entry(i)) <= le32(buf, extent_entry(k)));
        lemma_index_prefix(buf, i + 1, k, logical);
    }
}

fn lookup_in_leaf(buf: &[u8], n: u16, logical: u64) -> (r: Result<Option<u64>>)
    requires
        buf@.len() <= 0x1_0000,
    ensures
        outcome(r) == leaf_lookup(buf@, n as int, 0, logical),
{
    let mut i: u16 = 0;
    while i < n
        invariant
            i <= n,
            buf@.len() <= 0x1_0000,
            leaf_lookup(buf@, n as int, i as int, logical) == leaf_lookup(
                buf@,
                n as int,
                0,
                logical,
            ),
        decreases n - i,
    {
        let e: usize = 12 + i as usize * 12;
        if e + 12 > buf.len() {
            return Err(corrupt("extent entry outside its node"));
        }
        let first: u64 = u32_at(buf, e) as u64;
        let len_raw: u16 = u16_at(buf, e + 4);
        let start: u64 = widen(u32_at(buf, e + 8), u16_at(buf, e + 6) as u32);
        if logical >= first && logical < first + (len_raw % 0x8000) as u64 {
            if len_raw >= 0x8000 {
                return Ok(None);
            }
            return Ok(Some(start + (logical - first)));
        }
        i = i + 1;
    }
    Ok(None)
}

fn child_for(buf: &[u8], logical: u64) -> (r: Result<u64>)
    requires
        8 <= buf@.len() <= 0x1_0000,
    ensures
        outcome(r) == index_child(buf@, logical),
{
    let n: u16 = u16_at(buf, 2);
    let mut i: u16 = 0;
    while i < n
        invariant_except_break
            i <= n,
            8 <= buf@.len() <= 0x1_0000,
            n == le16(buf@, 2),
            index_prefix(buf@, n as int, i as int, logical) == index_prefix(
                buf@,
                n as int,
                0,
                logical,
            ),
        ensures
            i <= n,
            index_prefix(buf@, n as int, 0, logical) == Ok::<int, Fault>(i as int),
        decreases n - i,
    {
        let e: usize = 12 + i as usize * 12;
        if e + 4 > buf.len() {
            return Err(corrupt("extent entry outside its node"));
        }
        if u32_at(buf, e) as u64 > logical {
            break;
        }
        i = i + 1;
    }
    if i == 0 {
        return Err(corrupt("no extent index covers block"));
    }
    let e: usize = 12 + (i as usize - 1) * 12;
    if e + 10 > buf.len() {
        return Err(corrupt("extent entry outside its node"));
    }
    Ok(widen(u32_at(buf, e + 4), u16_at(buf, e + 8) as u32))
}

impl Ext4 {
    fn walk_node(&self, buf: &[u8], logical: u64, above: u32) -> (r: Result<Option<u64>>)
        requires
            self.wf(),
            8 <= buf@.len() <= 0x1_0000,
            above <= MAX_EXTENT_NODES,
        ensures
            outcome(r) == node_lookup(self@, buf@, logical, above as int),
        decreases MAX_EXTENT_NODES - above,
    {
        if u16_at(buf, 0) != EXTENT_MAGIC {
            return Err(corrupt("bad extent header magic"));
        }
        if above >= MAX_EXTENT_NODES {
            return Err(corrupt("extent tree too deep"));
        }
        if u16_at(buf, 6) == 0 {
            return lookup_in_leaf(buf, u16_at(buf, 2), logical);
        }
        let p: u64 = child_for(buf, logical)?;
        let child = self.peek_block(p)?;
        self.walk_node(child.as_slice(), logical, above + 1)
    }

    pub(crate) fn lookup_extent(&self, inode: &Inode, logical: u64) -> (r: Result<Option<u64>>)
        requires
            self.wf(),
        ensures
            outcome(r) == extent_lookup(self@, inode@, logical),
    {
        self.walk_node(inode.block_raw.as_slice(), logical, 0)
    }
}

} // verus!
