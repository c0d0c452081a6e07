//! Block maps with indirect blocks, as ext2 and ext3 have them.

use crate::bytes::{le32, u32_at};
use crate::error::{corrupt, outcome, unsupported, Fault, Outcome, Result};
use crate::inode::{Inode, InodeView};
use crate::volume::{block_of, settled, Ext4, VolumeView};
use vstd::prelude::*;

verus! {

/// How many logical blocks the inode maps directly.
pub const DIRECT_BLOCKS: u64 = 12;

/// How many pointers an indirect block holds.
pub open spec fn pointers(v: VolumeView) -> int {
    v.block_size as int / 4
}

/// How many logical blocks a pointer tree of this height maps.
pub open spec fn span(v: VolumeView, height: nat) -> int
    decreases height,
{
    if height == 0 {
        1
    } else {
        pointers(v) * span(v, (height - 1) as nat)
    }
}

/// A stored block number; zero stands for a hole.
pub open spec fn pointer(p: u32) -> Option<u64> {
    if p == 0 {
        None
    } else {
        Some(p as u64)
    }
}

/// Pointer `idx` of the indirect block `table`.
pub open spec fn pointer_at(v: VolumeView, table: u64, idx: int) -> Outcome<Option<u64>> {
    if table == 0 {
        Ok(None)
    } else {
        match block_of(v, table) {
            Err(e) => Err(e),
            Ok(b) => if idx * 4 + 4 > b.len() {
                Err(Fault::Corrupt("indirect block index out of range"@))
            } else {
                Ok(pointer(le32(b, idx * 4)))
            },
        }
    }
}

/// Block `n` of those that the pointer tree of the given height under `table` maps.
pub open spec fn tree_lookup(v: VolumeView, table: u64, height: nat, n: int) -> Outcome<
    Option<u64>,
>
    decreases height,
{
    if height == 0 {
        Ok(Some(table))
    } else {
        let below = (height - 1) as nat;
        match pointer_at(v, table, n / span(v, below)) {
            Ok(Some(p)) => tree_lookup(v, p, below, n % span(v, below)),
            other => other,
        }
    }
}

/// Looks up `logical` in the inode's block map: twelve direct blocks, then trees of
/// height one, two and three.
pub open spec fn indirect_lookup(v: VolumeView, inode: InodeView, logical: u64) -> Outcome<
    Option<u64>,
> {
    let n1 = logical - DIRECT_BLOCKS;
    let n2 = n1 - span(v, 1);
    let n3 = n2 - span(v, 2);
    if n1 < 0 {
        Ok(pointer(inode.block[logical as int]))
    } else if n1 < span(v, 1) {
        tree_lookup(v, inode.block[12] as u64, 1, n1)
    } else if n2 < span(v, 2) {
        tree_lookup(v, inode.block[13] as u64, 2, n2)
    } else if n3 < span(v, 3) {
        tree_lookup(v, inode.block[14] as u64, 3, n3)
    } else {
        Err(Fault::Unsupported("file block number too large for indirect mapping"@))
    }
}

proof fn lemma_span_same(v: VolumeView, w: VolumeView, height: nat)
    requires
        v.block_size == w.block_size,
    ensures
        span(v, height) == span(w, height),
    decreases height,
{
    if height > 0 {
        lemma_span_same(v, w, (height - 1) as nat);
    }
}

proof fn lemma_tree_settled(v: VolumeView, w: VolumeView, table: u64, height: nat, n: int)
    requires
        v.grows_to(w),
    ensures
        settled(v, tree_lookup(v, table, height, n), tree_lookup(w, table, height, n)),
    decreases height,
{
    if height > 0 {
        let below = (height - 1) as nat;
        lemma_span_same(v, w, below);
        if let Ok(Some(p)) = pointer_at(v, table, n / span(v, below)) {
            lemma_tree_settled(v, w, p, below, n % span(v, below));
        }
    }
}

/// A lookup in a block map with indirect blocks is settled.
pub proof fn law_indirect_settled(v: VolumeView, w: VolumeView, inode: InodeView, logical: u64)
    requires
        v.grows_to(w),
    ensures
        settled(v, indirect_lookup(v, inode, logical), indirect_lookup(w, inode, logical)),
{
    lemma_span_same(v, w, 1);
    lemma_span_same(v, w, 2);
    lemma_span_same(v, w, 3);
    let n1 = logical - DIRECT_BLOCKS;
    let n2 = n1 - span(v, 1);
    let n3 = n2 - span(v, 2);
    lemma_tree_settled(v, w, inode.block[12] as u64, 1, n1);
    lemma_tree_settled(v, w, inode.block[13] as u64, 2, n2);
    lemma_tree_settled(v, w, inode.block[14] as u64, 3, n3);
}

/// A pointer tree without a root maps holes only.
pub proof fn law_missing_tree_is_hole(v: VolumeView, height: nat, n: int)
    requires
        height > 0,
    ensures
        tree_lookup(v, 0, height, n) == Ok::<Option<u64>, Fault>(None),
{
}

/// Every logical block up to the reach of the triple indirect tree can be mapped, and none
/// beyond it.
pub proof fn law_indirect_reach(v: VolumeView, inode: InodeView, logical: u64)
    ensures
        indirect_lookup(v, inode, logical) matches Err(Fault::Unsupported(_)) <==> logical
            >= DIRECT_BLOCKS + span(v, 1) + span(v, 2) + span(v, 3),
{
    let n1 = logical - DIRECT_BLOCKS;
    let n2 = n1 - span(v, 1);
    let n3 = n2 - span(v, 2);
    lemma_tree_supported(v, inode.block[12] as u64, 1, n1);
    lemma_tree_supported(v, inode.block[13] as u64, 2, n2);
    lemma_tree_supported(v, inode.block[14] as u64, 3, n3);
    assert(span(v, 1) >= 0 && span(v, 2) >= 0 && span(v, 3) >= 0) by {
        lemma_spans(v);
    }
}

proof fn lemma_tree_supported(v: VolumeView, table: u64, height: nat, n: int)
    ensures
        !(tree_lookup(v, table, height, n) matches Err(Fault::Unsupported(_))),
    decreases height,
{
    if height > 0 {
        let below = (height - 1) as nat;
        if let Ok(Some(p)) = pointer_at(v, table, n / span(v, below)) {
            lemma_tree_supported(v, p, below, n % span(v, below));
        }
    }
}

/// What a pointer leads to, if it leads anywhere.
pub open spec fn through(
    v: VolumeView,
    r: Outcome<Option<u64>>,
    idx: int,
) -> Outcome<Option<u64>> {
    match r {
        Ok(Some(p)) => pointer_at(v, p, idx),
        other => other,
    }
}

/// The indices by which a block is found: one under a single indirect block, two under a
/// double and three under a triple one, each the next digit of the block's number in a
/// number system whose base is the number of pointers in a block.
pub proof fn law_tree_indices(v: VolumeView, table: u64, n: int)
    requires
        pointers(v) > 0,
        n >= 0,
    ensures
        tree_lookup(v, table, 1, n) == pointer_at(v, table, n),
        tree_lookup(v, table, 2, n) == through(
            v,
            pointer_at(v, table, n / pointers(v)),
            n % pointers(v),
        ),
        tree_lookup(v, table, 3, n) == through(
            v,
            through(
                v,
                pointer_at(v, table, n / (pointers(v) * pointers(v))),
                n / pointers(v) % pointers(v),
            ),
            n % pointers(v),
        ),
{
    let q = pointers(v);
    lemma_spans(v);
    reveal_with_fuel(tree_lookup, 4);
    assert(n / 1 == n && n % 1 == 0);
    let m = n % (q * q);
    vstd::arithmetic::div_mod::lemma_mod_breakdown(n, q, q);
    assert(m == q * (n / q % q) + n % q);
    assert(n % q / 1 == n % q);
    assert(m / q == n / q % q && m % q == n % q) by {
        vstd::arithmetic::div_mod::lemma_fundamental_div_mod_converse(
            m,
            q,
            n / q % q,
            n % q,
        );
    }
    assert(m % q / 1 == m % q);
}

/// The spans of the three trees, as products.
pub proof fn lemma_spans(v: VolumeView)
    ensures
        span(v, 0) == 1,
        span(v, 1) == pointers(v),
        span(v, 2) == pointers(v) * pointers(v),
        span(v, 3) == pointers(v) * (pointers(v) * pointers(v)),
        span(v, 2) >= 0,
        span(v, 3) >= 0,
{
    reveal_with_fuel(span, 4);
    let q = pointers(v);
    assert(q * 1 == q);
    assert(q * q >= 0) by (nonlinear_arith);
    assert(q * (q * q) >= 0) by (nonlinear_arith)
        requires
            q >= 0,
    ;
}

impl Ext4 {
    fn indirect_ptr(&self, table: u64, idx: u64) -> (r: Result<Option<u64>>)
        requires
            self.wf(),
            idx <= 0x1_0000,
        ensures
            outcome(r) == pointer_at(self@, table, idx as int),
    {
        if table == 0 {
            return Ok(None);
        }
        let buf = self.peek_block(table)?;
        let o: usize = idx as usize * 4;
        if o + 4 > buf.len() {
            return Err(corrupt("indirect block index out of range"));
        }
        let p: u32 = u32_at(buf.as_slice(), o);
        Ok(
            if p == 0 {
                None
            } else {
                Some(p as u64)
            },
        )
    }

    /// Walks down a pointer tree; `below` is the span of each of the root's subtrees.
    fn walk_tree(&self, table: u64, height: u32, below: u64, n: u64) -> (r: Result<Option<u64>>)
        requires
            self.wf(),
            1 <= height <= 3,
            below == span(self@, (height - 1) as nat),
            n < span(self@, height as nat),
        ensures
            outcome(r) == tree_lookup(self@, table, height as nat, n as int),
        decreases height,
    {
        let ptrs: u64 = self.block_size / 4;
        proof {
            reveal_with_fuel(span, 4);
            reveal_with_fuel(tree_lookup, 2);
            lemma_spans(self@);
            assert(below > 0) by (nonlinear_arith)
                requires
                    below == 1 || below == ptrs || below == ptrs * ptrs,
                    ptrs > 0,
            ;
            assert(n / below < ptrs && n % below < below) by (nonlinear_arith)
                requires
                    below > 0,
                    0 <= n < ptrs * below,
            ;
        }
        match self.indirect_ptr(table, n / below)? {
            None => Ok(None),
            Some(p) => if height == 1 {
                Ok(Some(p))
            } else {
                proof {
                    assert(height == 3 ==> below / ptrs == ptrs) by (nonlinear_arith)
                        requires
                            height == 3 ==> below == ptrs * ptrs,
                            ptrs > 0,
                    ;
                    assert(height == 2 ==> below / ptrs == 1) by (nonlinear_arith)
                        requires
                            height == 2 ==> below == ptrs,
                            ptrs > 0,
                    ;
                }
                self.walk_tree(p, height - 1, below / ptrs, n % below)
            },
        }
    }

    pub(crate) fn lookup_indirect(&self, inode: &Inode, logical: u64) -> (r: Result<Option<u64>>)
        requires
            self.wf(),
        ensures
            outcome(r) == indirect_lookup(self@, inode@, logical),
    {
        if logical < DIRECT_BLOCKS {
            let p: u32 = inode.block[logical as usize];
            return Ok(
                if p == 0 {
                    None
                } else {
                    Some(p as u64)
                },
            );
        }
        let ptrs: u64 = self.block_size / 4;
        proof {
            lemma_spans(self@);
            assert(ptrs * ptrs <= 0x4000 * 0x4000 && ptrs * (ptrs * ptrs) <= 0x4000 * 0x4000
                * 0x4000) by (nonlinear_arith)
                requires
                    0 <= ptrs <= 0x4000,
            ;
        }
        let mut n: u64 = logical - DIRECT_BLOCKS;
        if n < ptrs {
            return self.walk_tree(inode.block[12] as u64, 1, 1, n);
        }
        n = n - ptrs;
        if n < ptrs * ptrs {
            return self.walk_tree(inode.block[13] as u64, 2, ptrs, n);
        }
        n = n - ptrs * ptrs;
        if n < ptrs * (ptrs * ptrs) {
            return self.walk_tree(inode.block[14] as u64, 3, ptrs * ptrs, n);
        }
        Err(unsupported("file block number too large for indirect mapping"))
    }
}

} // verus!
