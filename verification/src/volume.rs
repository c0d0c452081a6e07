//! A mounted volume: its geometry, and the blocks of it that have been supplied so far.
//!
//! The library never touches a device. Every operation works on the blocks that the
//! caller has supplied; one that needs another block answers `ExtError::Pending` with its
//! number, and the caller supplies that block and asks again.

use crate::cache::{answer_view, Answer, AnswerView, BlockCache};
use crate::error::{corrupt, outcome, ExtError, Fault, Outcome, Result};
use crate::group::{
    ceil_div, div_ceil, first_gdt_block, group_desc, groups_of, parse_all, spec_first_gdt_block,
    GroupDesc,
};
use crate::inode::{inode_of, Inode, InodeView, GOOD_OLD_INODE_SIZE, MIN_INODE_RECORD};
use crate::superblock::{
    Superblock, EXT4_FEATURE_INCOMPAT_64BIT, EXT4_FEATURE_INCOMPAT_FILETYPE,
};
use crate::text::{decimal, push_decimal};
use vstd::arithmetic::power2::{lemma2_to64, lemma_pow2_strictly_increases, pow2};
use vstd::prelude::*;
use vstd::slice::{slice_subrange, slice_to_vec};
use vstd::string::*;

verus! {

pub const MIN_BLOCK_SIZE: u64 = 1024;

pub const MAX_BLOCK_SIZE: u64 = 65536;

/// Where everything lies on a volume, as its superblock tells; the group descriptor table
/// is still to be read.
pub struct Layout {
    pub start: u64,
    pub sb: Superblock,
    pub block_size: u64,
    pub desc_size: u64,
    pub is_64bit: bool,
    pub groups_count: u64,
    /// Byte position of the group descriptor table on the device.
    pub table_offset: u64,
    /// Its length in bytes, a whole number of blocks.
    pub table_len: u64,
}

pub open spec fn valid_block_size(n: int) -> bool {
    MIN_BLOCK_SIZE <= n <= MAX_BLOCK_SIZE
}

pub open spec fn is_wide(sb: Superblock) -> bool {
    sb.incompat(EXT4_FEATURE_INCOMPAT_64BIT)
}

/// The distance between group descriptors: the superblock of a wide volume must give it as
/// 64 bytes, any other volume has descriptors of 32.
pub open spec fn descriptor_size(sb: Superblock) -> u32 {
    if is_wide(sb) {
        64
    } else {
        32
    }
}

pub open spec fn group_count(sb: Superblock) -> int {
    ceil_div(sb.blocks_count as int, sb.blocks_per_group as int)
}

/// The length of the group descriptor table in whole blocks.
pub open spec fn table_blocks(sb: Superblock) -> int {
    ceil_div(group_count(sb) * descriptor_size(sb), sb.spec_block_size() as int)
}

pub open spec fn table_position(sb: Superblock, start: u64) -> int {
    start + spec_first_gdt_block(sb.spec_block_size() as u64) * sb.spec_block_size()
}

/// Why a volume with this superblock cannot be opened, if it cannot.
pub open spec fn layout_fault(sb: Superblock, start: u64) -> Option<Fault> {
    if sb.log_block_size >= 64 {
        Some(
            Fault::Corrupt("invalid block size exponent "@ + decimal(sb.log_block_size as nat)),
        )
    } else if !valid_block_size(sb.spec_block_size() as int) {
        Some(Fault::Corrupt("invalid block size "@ + decimal(sb.spec_block_size())))
    } else if is_wide(sb) && sb.desc_size < 64 {
        Some(Fault::Corrupt("64bit feature set but s_desc_size < 64"@))
    } else if is_wide(sb) && sb.desc_size > 64 {
        Some(Fault::Corrupt("invalid group descriptor size "@ + decimal(sb.desc_size as nat)))
    } else if sb.blocks_per_group == 0 {
        Some(Fault::Corrupt("blocks per group is 0"@))
    } else if group_count(sb) * descriptor_size(sb) > u64::MAX || table_blocks(sb)
        * sb.spec_block_size() > u64::MAX || table_position(sb, start) > u64::MAX {
        Some(Fault::Corrupt("group descriptor table out of range"@))
    } else {
        None
    }
}

/// A valid block size is 1024 doubled at most six times.
proof fn lemma_small_exponent(sb: Superblock)
    requires
        valid_block_size(sb.spec_block_size() as int),
    ensures
        sb.log_block_size <= 6,
{
    lemma2_to64();
    if sb.log_block_size > 7 {
        lemma_pow2_strictly_increases(7, sb.log_block_size as nat);
    }
}

impl Layout {
    /// Whether this is where the superblock puts everything.
    pub open spec fn describes(self, sb: Superblock, start: u64) -> bool {
        &&& layout_fault(sb, start) is None
        &&& self.start == start
        &&& self.sb == sb
        &&& self.block_size == sb.spec_block_size()
        &&& self.desc_size == descriptor_size(sb)
        &&& self.is_64bit == is_wide(sb)
        &&& self.groups_count == group_count(sb)
        &&& self.table_offset == table_position(sb, start)
        &&& self.table_len == table_blocks(sb) * sb.spec_block_size()
    }

    /// Works out the layout of a volume that begins at byte `start` of its device.
    pub fn of(sb: Superblock, start: u64) -> (r: Result<Layout>)
        ensures
            match r {
                Ok(layout) => layout.describes(sb, start),
                Err(e) => layout_fault(sb, start) == Some(e@),
            },
    {
        if sb.log_block_size >= 64 {
            let mut text = "invalid block size exponent ".to_owned();
            push_decimal(&mut text, sb.log_block_size as u64);
            return Err(ExtError::Corrupt(text));
        }
        let block_size: u64 = sb.block_size();
        if block_size < MIN_BLOCK_SIZE || block_size > MAX_BLOCK_SIZE {
            let mut text = "invalid block size ".to_owned();
            push_decimal(&mut text, block_size);
            return Err(ExtError::Corrupt(text));
        }
        let is_64bit = sb.has_incompat(EXT4_FEATURE_INCOMPAT_64BIT);
        if is_64bit && sb.desc_size < 64 {
            return Err(corrupt("64bit feature set but s_desc_size < 64"));
        }
        if is_64bit && sb.desc_size > 64 {
            let mut text = "invalid group descriptor size ".to_owned();
            push_decimal(&mut text, sb.desc_size as u64);
            return Err(ExtError::Corrupt(text));
        }
        let desc_size: u64 = if is_64bit {
            64
        } else {
            32
        };
        if sb.blocks_per_group == 0 {
            return Err(corrupt("blocks per group is 0"));
        }
        let groups_count: u64 = div_ceil(sb.blocks_count, sb.blocks_per_group as u64);
        let bytes: u64 = match groups_count.checked_mul(desc_size) {
            Some(n) => n,
            None => {
                return Err(corrupt("group descriptor table out of range"));
            },
        };
        let table_len: u64 = match div_ceil(bytes, block_size).checked_mul(block_size) {
            Some(n) => n,
            None => {
                return Err(corrupt("group descriptor table out of range"));
            },
        };
        let first: u64 = first_gdt_block(block_size);
        assert(first * block_size <= 131072) by (nonlinear_arith)
            requires
                first == 1 || first == 2,
                block_size <= 65536,
        ;
        let table_offset: u64 = match start.checked_add(first * block_size) {
            Some(n) => n,
            None => {
                return Err(corrupt("group descriptor table out of range"));
            },
        };
        Ok(
            Layout {
                start,
                sb,
                block_size,
                desc_size,
                is_64bit,
                groups_count,
                table_offset,
                table_len,
            },
        )
    }
}

/// What the operations on a volume depend on.
#[verifier::ext_equal]
pub struct VolumeView {
    pub start: u64,
    pub block_size: u64,
    pub inodes_per_group: u32,
    pub inode_size: u16,
    /// Whether directory entries carry the type of the file.
    pub filetype: bool,
    /// First block of each group's inode table.
    pub tables: Seq<u64>,
    /// The blocks supplied so far, by physical number.
    pub blocks: Map<u64, AnswerView>,
}

impl VolumeView {
    pub open spec fn wf(self) -> bool {
        &&& valid_block_size(self.block_size as int)
        &&& forall|p: u64| #[trigger]
            self.blocks.contains_key(p) && self.blocks[p] is Ok ==> self.blocks[p]->Ok_0.len()
                <= self.block_size
    }

    /// Whether `more` is the same volume with all that was supplied here, and perhaps more.
    pub open spec fn grows_to(self, more: VolumeView) -> bool {
        &&& self.start == more.start
        &&& self.block_size == more.block_size
        &&& self.inodes_per_group == more.inodes_per_group
        &&& self.inode_size == more.inode_size
        &&& self.filetype == more.filetype
        &&& self.tables == more.tables
        &&& forall|p: u64| #[trigger]
            self.blocks.contains_key(p) ==> more.blocks.contains_key(p) && more.blocks[p]
                == self.blocks[p]
    }
}

/// An answer that stays the same whatever else is supplied, or a request for a block that
/// is really missing.
pub open spec fn settled<T>(v: VolumeView, r: Outcome<T>, later: Outcome<T>) -> bool {
    match r {
        Err(Fault::Pending(p)) => !v.blocks.contains_key(p),
        _ => later == r,
    }
}

/// The complaint about a read that goes beyond the end of the device.
pub open spec fn short_read() -> Fault {
    Fault::Io("failed to fill whole buffer"@)
}

/// Where physical block `p` begins on the device.
pub open spec fn block_start(v: VolumeView, p: u64) -> int {
    v.start + p * v.block_size
}

/// What the device has for physical block `p`: all of it, or the front of a block that is cut
/// short by the end of the device.
pub open spec fn device_bytes(v: VolumeView, p: u64) -> Outcome<Seq<u8>> {
    if !v.blocks.contains_key(p) {
        Err(Fault::Pending(p))
    } else {
        match v.blocks[p] {
            Ok(bytes) => Ok(bytes),
            Err(message) => Err(Fault::Io(message)),
        }
    }
}

/// The contents of physical block `p`.
pub open spec fn block_of(v: VolumeView, p: u64) -> Outcome<Seq<u8>> {
    if block_start(v, p) > u64::MAX {
        Err(Fault::Corrupt("block address out of range"@))
    } else {
        match device_bytes(v, p) {
            Err(f) => Err(f),
            Ok(bytes) => if bytes.len() < v.block_size {
                Err(short_read())
            } else {
                Ok(bytes)
            },
        }
    }
}

/// What is read of a block is settled: supplying other blocks does not change it, and
/// only a block that is missing is asked for.
pub proof fn law_block_settled(v: VolumeView, w: VolumeView, p: u64)
    requires
        v.grows_to(w),
    ensures
        settled(v, block_of(v, p), block_of(w, p)),
{
}

/// The bytes `offset..offset + len` of the volume, block by block.
pub open spec fn bytes_across(v: VolumeView, offset: int, len: int) -> Outcome<Seq<u8>>
    decreases len,
{
    let bs = v.block_size as int;
    let from = offset % bs;
    let n = if len <= bs - from {
        len
    } else {
        bs - from
    };
    if len <= 0 || n <= 0 {
        Ok(Seq::empty())
    } else {
        match device_bytes(v, (offset / bs) as u64) {
            Err(f) => Err(f),
            Ok(b) => if from + n > b.len() {
                Err(short_read())
            } else {
                match bytes_across(v, offset + n, len - n) {
                    Err(f) => Err(f),
                    Ok(rest) => Ok(b.subrange(from, from + n) + rest),
                }
            },
        }
    }
}

/// The bytes `offset..offset + len` of the volume. No device reaches beyond the positions that
/// can be addressed.
pub open spec fn bytes_at(v: VolumeView, offset: int, len: int) -> Outcome<Seq<u8>> {
    if v.start + offset + len > u64::MAX {
        Err(short_read())
    } else {
        bytes_across(v, offset, len)
    }
}

proof fn lemma_bytes_settled(v: VolumeView, w: VolumeView, offset: int, len: int)
    requires
        v.grows_to(w),
    ensures
        settled(v, bytes_across(v, offset, len), bytes_across(w, offset, len)),
    decreases len,
{
    let bs = v.block_size as int;
    let from = offset % bs;
    let n = if len <= bs - from {
        len
    } else {
        bs - from
    };
    if len > 0 && n > 0 && device_bytes(v, (offset / bs) as u64) is Ok {
        lemma_bytes_settled(v, w, offset + n, len - n);
    }
}

/// Bytes read across blocks are settled.
pub proof fn law_bytes_settled(v: VolumeView, w: VolumeView, offset: int, len: int)
    requires
        v.grows_to(w),
    ensures
        settled(v, bytes_at(v, offset, len), bytes_at(w, offset, len)),
{
    lemma_bytes_settled(v, w, offset, len);
}

/// The on-disk record of inode `ino`.
pub open spec fn inode_bytes(v: VolumeView, ino: u32) -> Outcome<Seq<u8>> {
    if ino == 0 {
        Err(Fault::Corrupt("inode number 0"@))
    } else if v.inodes_per_group == 0 {
        Err(Fault::Corrupt("inodes per group is 0"@))
    } else {
        let group = (ino - 1) / v.inodes_per_group as int;
        let byte = (ino - 1) % v.inodes_per_group as int * v.inode_size;
        let off = byte % v.block_size as int;
        if group >= v.tables.len() {
            Err(
                Fault::Corrupt(
                    "inode "@ + decimal(ino as nat) + " outside group table"@,
                ),
            )
        } else if v.tables[group] + byte / v.block_size as int > u64::MAX {
            Err(Fault::Corrupt("block address out of range"@))
        } else {
            match block_of(v, (v.tables[group] + byte / v.block_size as int) as u64) {
                Err(e) => Err(e),
                Ok(b) => if off + v.inode_size > b.len() {
                    Err(Fault::Corrupt("inode crosses block boundary"@))
                } else {
                    Ok(b.subrange(off, off + v.inode_size))
                },
            }
        }
    }
}

/// The record of an inode is settled.
pub proof fn law_inode_bytes_settled(v: VolumeView, w: VolumeView, ino: u32)
    requires
        v.grows_to(w),
    ensures
        settled(v, inode_bytes(v, ino), inode_bytes(w, ino)),
{
}

/// Inode `ino`.
pub open spec fn inode_at(v: VolumeView, ino: u32) -> Outcome<InodeView> {
    match inode_bytes(v, ino) {
        Err(e) => Err(e),
        Ok(raw) => if raw.len() < MIN_INODE_RECORD {
            Err(Fault::Corrupt("inode record too short"@))
        } else {
            Ok(inode_of(raw, ino))
        },
    }
}

/// What is read of an inode is settled: an answer stays whatever else is supplied, so that
/// it is the answer for the complete volume, and only a missing block is asked for.
pub proof fn law_inode_settled(v: VolumeView, w: VolumeView, ino: u32)
    requires
        v.grows_to(w),
    ensures
        settled(v, inode_at(v, ino), inode_at(w, ino)),
{
}

/// The complaint about inline data that does not fit its inode.
pub open spec fn inline_overrun(ino: u32, pos: nat, size: nat) -> Seq<char> {
    "inline data of inode "@ + decimal(ino as nat) + " overruns inode (pos "@ + decimal(pos)
        + ", size "@ + decimal(size) + ")"@
}

/// File data that is kept behind the fields of the inode record.
pub open spec fn inline_bytes(v: VolumeView, inode: InodeView) -> Outcome<Seq<u8>> {
    match inode_bytes(v, inode.ino) {
        Err(e) => Err(e),
        Ok(raw) => {
            let pos = GOOD_OLD_INODE_SIZE + inode.extra_isize;
            if pos + inode.size > raw.len() {
                Err(Fault::Corrupt(inline_overrun(inode.ino, pos as nat, inode.size as nat)))
            } else {
                Ok(raw.subrange(pos, pos + inode.size))
            }
        },
    }
}

/// Inline data is settled.
pub proof fn law_inline_settled(v: VolumeView, w: VolumeView, inode: InodeView)
    requires
        v.grows_to(w),
    ensures
        settled(v, inline_bytes(v, inode), inline_bytes(w, inode)),
{
}

pub struct Ext4 {
    pub start: u64,
    pub sb: Superblock,
    pub block_size: u64,
    pub groups: Vec<GroupDesc>,
    /// Size of each group descriptor on disk (32 or 64 bytes).
    pub desc_size: u64,
    pub is_64bit: bool,
    /// The blocks supplied so far.
    pub blocks: BlockCache,
}

impl View for Ext4 {
    type V = VolumeView;

    open spec fn view(&self) -> VolumeView {
        VolumeView {
            start: self.start,
            block_size: self.block_size,
            inodes_per_group: self.sb.inodes_per_group,
            inode_size: self.sb.inode_size,
            filetype: self.sb.incompat(EXT4_FEATURE_INCOMPAT_FILETYPE),
            tables: Seq::new(self.groups@.len(), |g: int| self.groups@[g].inode_table),
            blocks: self.blocks@,
        }
    }
}

impl Ext4 {
    /// Whether the volume is one that can be worked on.
    pub open spec fn wf(self) -> bool {
        self@.wf()
    }

    /// Opens a volume, given its layout and the bytes of its group descriptor table. No
    /// block has been supplied yet.
    pub fn open(layout: Layout, table: &[u8]) -> (fs: Ext4)
        requires
            layout.describes(layout.sb, layout.start),
            table@.len() == layout.table_len,
        ensures
            fs.wf(),
            fs.start == layout.start,
            fs.sb == layout.sb,
            fs.block_size == layout.block_size,
            fs.desc_size == layout.desc_size,
            fs.is_64bit == layout.is_64bit,
            fs.desc_size == 32 || fs.desc_size == 64,
            fs.desc_size == 32 <==> !fs.is_64bit,
            fs.is_64bit == (fs.sb.feature_incompat & EXT4_FEATURE_INCOMPAT_64BIT != 0),
            fs.sb.log_block_size <= 6,
            fs.block_size == 1024 * pow2(fs.sb.log_block_size as nat),
            fs.groups@ == groups_of(
                table@,
                layout.groups_count as nat,
                layout.desc_size as int,
                layout.is_64bit,
            ),
            fs.groups@.len() == layout.groups_count,
            forall|g: int|
                0 <= g < layout.groups_count ==> fs.groups@[g] == #[trigger] group_desc(
                    table@,
                    g * layout.desc_size,
                    layout.is_64bit,
                ),
            fs@.blocks == Map::<u64, AnswerView>::empty(),
    {
        proof {
            lemma_small_exponent(layout.sb);
            let count = layout.groups_count as int;
            let size = layout.desc_size as int;
            let block = layout.block_size as int;
            let whole = ceil_div(count * size, block);
            if count > 0 {
                assert((count - 1) * size + size == count * size) by (nonlinear_arith);
            }
            vstd::arithmetic::div_mod::lemma_fundamental_div_mod(count * size, block);
            assert(count * size <= whole * block) by (nonlinear_arith)
                requires
                    count * size == block * (count * size / block) + count * size % block,
                    0 <= count * size % block < block,
                    whole == count * size / block || whole == count * size / block + 1,
                    count * size % block == 0 || whole == count * size / block + 1,
            ;
        }
        let groups = parse_all(table, layout.groups_count, layout.desc_size, layout.is_64bit);
        Ext4 {
            start: layout.start,
            sb: layout.sb,
            block_size: layout.block_size,
            groups,
            desc_size: layout.desc_size,
            is_64bit: layout.is_64bit,
            blocks: BlockCache::new(),
        }
    }

    /// Takes note of what the device gave for block `pblock`: its bytes, fewer than a block
    /// only where the device ends in it. An earlier answer for the same block is forgotten.
    pub fn supply_block(&mut self, pblock: u64, answer: Answer)
        requires
            old(self).wf(),
            answer is Ok ==> answer->Ok_0@.len() <= old(self).block_size,
        ensures
            final(self).wf(),
            final(self)@ == (VolumeView {
                blocks: old(self)@.blocks.insert(pblock, answer_view(answer)),
                ..old(self)@
            }),
            final(self).sb == old(self).sb,
            final(self).groups == old(self).groups,
            final(self).desc_size == old(self).desc_size,
            final(self).is_64bit == old(self).is_64bit,
            !old(self)@.blocks.contains_key(pblock) ==> old(self)@.grows_to(final(self)@),
    {
        self.blocks.insert(pblock, answer);
        proof {
            let after = old(self)@.blocks.insert(pblock, answer_view(answer));
            assert(self@ =~= (VolumeView { blocks: after, ..old(self)@ }));
        }
    }

    /// Forgets all blocks, to make room. What depends on them asks for them again.
    pub fn forget_blocks(&mut self)
        requires
            old(self).wf(),
        ensures
            final(self).wf(),
            final(self)@ == (VolumeView { blocks: Map::empty(), ..old(self)@ }),
            final(self).sb == old(self).sb,
            final(self).groups == old(self).groups,
            final(self).desc_size == old(self).desc_size,
            final(self).is_64bit == old(self).is_64bit,
            final(self)@.grows_to(old(self)@),
    {
        self.blocks.clear();
    }

    /// Where block `pblock` begins on the device.
    pub fn block_position(&self, pblock: u64) -> (pos: Option<u64>)
        ensures
            match pos {
                Some(n) => n == block_start(self@, pblock),
                None => block_start(self@, pblock) > u64::MAX,
            },
            match pos {
                Some(n) => n == self.start + pblock * self.block_size,
                None => self.start + pblock * self.block_size > u64::MAX,
            },
    {
        proof {
            assert(pblock * self.block_size >= 0) by (nonlinear_arith);
        }
        match pblock.checked_mul(self.block_size) {
            Some(n) => self.start.checked_add(n),
            None => None,
        }
    }

    /// Looks at physical block `pblock` in place.
    pub(crate) fn peek_block(&self, pblock: u64) -> (r: Result<&Vec<u8>>)
        requires
            self.wf(),
        ensures
            outcome(r) == block_of(self@, pblock),
            r is Ok ==> r->Ok_0@.len() == self.block_size,
    {
        if self.block_position(pblock).is_none() {
            return Err(corrupt("block address out of range"));
        }
        let bytes = self.peek_device(pblock)?;
        if (bytes.len() as u64) < self.block_size {
            return Err(ExtError::Io("failed to fill whole buffer".to_owned()));
        }
        Ok(bytes)
    }

    /// Looks at what the device has for physical block `pblock`.
    fn peek_device(&self, pblock: u64) -> (r: Result<&Vec<u8>>)
        requires
            self.wf(),
        ensures
            outcome(r) == device_bytes(self@, pblock),
            r is Ok ==> r->Ok_0@.len() <= self.block_size,
    {
        match self.blocks.get(pblock) {
            None => Err(ExtError::Pending(pblock)),
            Some(answer) => match answer {
                Ok(bytes) => Ok(bytes),
                Err(message) => Err(ExtError::Io(message.clone())),
            },
        }
    }

    /// Reads a whole physical block.
    pub fn read_block(&self, pblock: u64) -> (r: Result<Vec<u8>>)
        requires
            self.wf(),
        ensures
            outcome(r) == block_of(self@, pblock),
    {
        let block = self.peek_block(pblock)?;
        Ok(slice_to_vec(block.as_slice()))
    }

    /// Reads bytes at an offset into the volume.
    pub fn read_bytes_at(&self, offset: u64, len: usize) -> (r: Result<Vec<u8>>)
        requires
            self.wf(),
        ensures
            outcome(r) == bytes_at(self@, offset as int, len as int),
    {
        let end: Option<u64> = match self.start.checked_add(offset) {
            Some(n) => n.checked_add(len as u64),
            None => None,
        };
        if end.is_none() {
            return Err(ExtError::Io("failed to fill whole buffer".to_owned()));
        }
        let mut out: Vec<u8> = Vec::new();
        let mut pos: u64 = offset;
        let mut left: usize = len;
        let ghost all = bytes_across(self@, offset as int, len as int);
        proof {
            if let Ok(rest) = all {
                assert(out@ + rest =~= rest);
            }
        }
        while left > 0
            invariant
                self.wf(),
                pos + left <= u64::MAX,
                all == bytes_across(self@, offset as int, len as int),
                match bytes_across(self@, pos as int, left as int) {
                    Err(f) => all == Err::<Seq<u8>, _>(f),
                    Ok(rest) => all == Ok::<_, Fault>(out@ + rest),
                },
                bytes_at(self@, offset as int, len as int) == all,
            decreases left,
        {
            let block = self.peek_device(pos / self.block_size)?;
            let from: usize = (pos % self.block_size) as usize;
            let room: usize = self.block_size as usize - from;
            let n: usize = if left <= room {
                left
            } else {
                room
            };
            if from + n > block.len() {
                return Err(ExtError::Io("failed to fill whole buffer".to_owned()));
            }
            let ghost before = out@;
            out.extend_from_slice(slice_subrange(block.as_slice(), from, from + n));
            proof {
                if let Ok(rest) = bytes_across(self@, pos + n, left - n) {
                    assert(before + (block@.subrange(from as int, from + n) + rest) =~= out@
                        + rest);
                }
            }
            pos = pos + n as u64;
            left = left - n;
        }
        assert(out@ + Seq::<u8>::empty() =~= out@);
        Ok(out)
    }

    /// Reads the raw on-disk bytes of an inode.
    pub fn read_inode_raw(&self, ino: u32) -> (r: Result<Vec<u8>>)
        requires
            self.wf(),
        ensures
            outcome(r) == inode_bytes(self@, ino),
    {
        if ino == 0 {
            return Err(corrupt("inode number 0"));
        }
        let per_group: u64 = self.sb.inodes_per_group as u64;
        if per_group == 0 {
            return Err(corrupt("inodes per group is 0"));
        }
        let n: u64 = ino as u64 - 1;
        let group: u64 = n / per_group;
        let idx: u64 = n % per_group;
        if group >= self.groups.len() as u64 {
            let mut text = "inode ".to_owned();
            push_decimal(&mut text, ino as u64);
            text.append(" outside group table");
            return Err(ExtError::Corrupt(text));
        }
        let inode_size: u64 = self.sb.inode_size as u64;
        assert(idx * inode_size <= 0xffff_ffff * 0xffff) by (nonlinear_arith)
            requires
                idx <= 0xffff_ffff,
                inode_size <= 0xffff,
        ;
        let byte: u64 = idx * inode_size;
        let table: u64 = self.groups[group as usize].inode_table;
        assert(self@.tables[group as int] == table);
        let pblock: u64 = match table.checked_add(byte / self.block_size) {
            Some(p) => p,
            None => {
                return Err(corrupt("block address out of range"));
            },
        };
        let off: usize = (byte % self.block_size) as usize;
        let block = self.peek_block(pblock)?;
        let end: usize = off + inode_size as usize;
        if end > block.len() {
            return Err(corrupt("inode crosses block boundary"));
        }
        Ok(slice_to_vec(slice_subrange(block.as_slice(), off, end)))
    }

    /// Reads an inode by number (1-based, like the on-disk numbering).
    pub fn read_inode(&self, ino: u32) -> (r: Result<Inode>)
        requires
            self.wf(),
        ensures
            outcome(r) == inode_at(self@, ino),
    {
        let raw = self.read_inode_raw(ino)?;
        if raw.len() < MIN_INODE_RECORD {
            return Err(corrupt("inode record too short"));
        }
        Ok(Inode::parse(raw.as_slice(), ino))
    }

    /// Reads file data that is stored inside the inode itself.
    pub fn inline_data(&self, inode: &Inode) -> (r: Result<Vec<u8>>)
        requires
            self.wf(),
        ensures
            outcome(r) == inline_bytes(self@, inode@),
    {
        let raw = self.read_inode_raw(inode.ino)?;
        let pos: usize = GOOD_OLD_INODE_SIZE as usize + inode.extra_isize as usize;
        let room: usize = if pos <= raw.len() {
            raw.len() - pos
        } else {
            0
        };
        if pos > raw.len() || inode.size > room as u64 {
            let mut text = "inline data of inode ".to_owned();
            push_decimal(&mut text, inode.ino as u64);
            text.append(" overruns inode (pos ");
            push_decimal(&mut text, pos as u64);
            text.append(", size ");
            push_decimal(&mut text, inode.size);
            text.append(")");
            return Err(ExtError::Corrupt(text));
        }
        let end: usize = pos + inode.size as usize;
        Ok(slice_to_vec(slice_subrange(raw.as_slice(), pos, end)))
    }
}

} // verus!
