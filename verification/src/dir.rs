//! Directories: linear scan of classic (unindexed) directories, and traversal of the hash
//! tree of indexed ones.

use crate::bytes::{le16, le32, u16_at, u32_at};
use crate::data::{law_paddr_settled, paddr};
use crate::error::{corrupt, outcome, ExtError, Fault, Outcome, Result};
use crate::group::{ceil_div, div_ceil};
use crate::inode::{Inode, InodeView, EXT4_INDEX_FL};
use crate::superblock::EXT4_FEATURE_INCOMPAT_FILETYPE;
use crate::text::{decimal, from_utf8_lossy, lossy_text, push_decimal};
use crate::volume::{block_of, settled, Ext4, VolumeView};
use vstd::prelude::*;
use vstd::slice::slice_subrange;
use vstd::string::*;
use vstd::utf8::{decode_utf8, valid_utf8};

verus! {

pub const FT_UNKNOWN: u8 = 0;

pub const FT_REG: u8 = 1;

pub const FT_DIR: u8 = 2;

pub const FT_CHRDEV: u8 = 3;

pub const FT_BLKDEV: u8 = 4;

pub const FT_FIFO: u8 = 5;

pub const FT_SOCK: u8 = 6;

pub const FT_SYMLINK: u8 = 7;

#[derive(Debug, Clone)]
pub struct DirEntry {
    pub ino: u32,
    pub rec_len: u16,
    pub name: String,
    pub file_type: u8,
}

#[verifier::ext_equal]
pub struct DirEntryView {
    pub ino: u32,
    pub rec_len: u16,
    pub name: Seq<char>,
    pub file_type: u8,
}

impl View for DirEntry {
    type V = DirEntryView;

    open spec fn view(&self) -> DirEntryView {
        DirEntryView {
            ino: self.ino,
            rec_len: self.rec_len,
            name: self.name@,
            file_type: self.file_type,
        }
    }
}

pub open spec fn entries_view(s: Seq<DirEntry>) -> Seq<DirEntryView> {
    Seq::new(s.len(), |i: int| s[i]@)
}

/// The model of a listing.
pub open spec fn listing(r: Result<Vec<DirEntry>>) -> Outcome<Seq<DirEntryView>> {
    match r {
        Ok(entries) => Ok(entries_view(entries@)),
        Err(e) => Err(e@),
    }
}

/// Bytes before the name of an entry. The same with and without file types.
pub fn entry_header_size(filetype_feature: bool) -> (n: usize)
    ensures
        n == 8,
{
    if filetype_feature {
        8
    } else {
        8
    }
}

/// Where an entry keeps the length of its name. The same with and without file types.
pub fn name_len_offset(filetype_feature: bool) -> (n: usize)
    ensures
        n == 6,
{
    if filetype_feature {
        6
    } else {
        6
    }
}

/// The length of the name of the entry at `off`: a byte where entries carry a file type,
/// else two.
pub open spec fn name_len(filetype: bool, data: Seq<u8>, off: int) -> int {
    if filetype {
        data[off + 6] as int
    } else {
        le16(data, off + 6) as int
    }
}

/// The entry at `off` of a directory block.
pub open spec fn entry_at(filetype: bool, data: Seq<u8>, off: int, rec_len: u16) -> DirEntryView {
    DirEntryView {
        ino: le32(data, off),
        rec_len,
        name: lossy_text(data.subrange(off + 8, off + 8 + name_len(filetype, data, off))),
        file_type: if filetype {
            data[off + 7]
        } else {
            0
        },
    }
}

pub open spec fn entry_overrun(off: nat, rec_len: nat) -> Seq<char> {
    "directory entry overruns block (off "@ + decimal(off) + ", rec_len "@ + decimal(rec_len)
        + ")"@
}

/// `r` with `first` in front of what it lists.
pub open spec fn prepend<T>(first: Seq<T>, r: Outcome<Seq<T>>) -> Outcome<Seq<T>> {
    match r {
        Ok(rest) => Ok(first + rest),
        Err(e) => Err(e),
    }
}

/// The entries in use in a directory block, from offset `off` on. Each record tells where
/// the next begins; one of length zero ends the list.
pub open spec fn block_entries(filetype: bool, data: Seq<u8>, off: int) -> Outcome<
    Seq<DirEntryView>,
>
    decreases data.len() - off,
{
    let rec_len = le16(data, off + 4);
    if off + 8 > data.len() || rec_len == 0 {
        Ok(Seq::empty())
    } else if off + rec_len > data.len() {
        Err(Fault::Corrupt(entry_overrun(off as nat, rec_len as nat)))
    } else if le32(data, off) == 0 {
        block_entries(filetype, data, off + rec_len)
    } else if off + 8 + name_len(filetype, data, off) > data.len() {
        Err(Fault::Corrupt("directory entry name overruns block"@))
    } else {
        prepend(
            seq![entry_at(filetype, data, off, rec_len)],
            block_entries(filetype, data, off + rec_len),
        )
    }
}

/// The entries of the given blocks, from the `i`-th on.
pub open spec fn entries_of_blocks(v: VolumeView, blocks: Seq<u64>, i: int) -> Outcome<
    Seq<DirEntryView>,
>
    decreases blocks.len() - i,
{
    if i >= blocks.len() {
        Ok(Seq::empty())
    } else {
        match block_of(v, blocks[i]) {
            Err(e) => Err(e),
            Ok(data) => match block_entries(v.filetype, data, 0) {
                Err(e) => Err(e),
                Ok(here) => prepend(here, entries_of_blocks(v, blocks, i + 1)),
            },
        }
    }
}

/// The physical blocks of a directory's logical blocks `lb..n`, without the holes.
pub open spec fn blocks_between(v: VolumeView, inode: InodeView, lb: u64, n: u64) -> Outcome<
    Seq<u64>,
>
    decreases n - lb,
{
    if lb >= n {
        Ok(Seq::empty())
    } else {
        match paddr(v, inode, lb) {
            Err(e) => Err(e),
            Ok(None) => blocks_between(v, inode, (lb + 1) as u64, n),
            Ok(Some(p)) => prepend(seq![p], blocks_between(v, inode, (lb + 1) as u64, n)),
        }
    }
}

pub open spec fn dir_blocks(v: VolumeView, inode: InodeView) -> Outcome<Seq<u64>> {
    blocks_between(v, inode, 0, ceil_div(inode.size as int, v.block_size as int) as u64)
}

/// The physical block of a leaf of the hash tree.
pub open spec fn leaf_block(v: VolumeView, inode: InodeView, logical: u64) -> Outcome<u64> {
    match paddr(v, inode, logical) {
        Err(e) => Err(e),
        Ok(None) => Err(Fault::Corrupt("indexed dir leaf block is a hole"@)),
        Ok(Some(p)) => Ok(p),
    }
}

/// The leaves below the index entries `i..count` of a block, whose entries begin at
/// `start`; `level` index blocks lie between them and the leaves.
pub open spec fn index_leaves(
    v: VolumeView,
    inode: InodeView,
    data: Seq<u8>,
    start: int,
    count: int,
    i: int,
    level: nat,
) -> Outcome<Seq<u64>>
    decreases level, 1int, count - i,
{
    let logical = le32(data, start + i * 8 + 4) as u64;
    if i >= count {
        Ok(Seq::empty())
    } else if start + i * 8 + 8 > data.len() {
        Err(Fault::Corrupt("directory index entry outside its block"@))
    } else if level == 0 {
        match leaf_block(v, inode, logical) {
            Err(e) => Err(e),
            Ok(p) => prepend(seq![p], index_leaves(v, inode, data, start, count, i + 1, level)),
        }
    } else {
        match node_leaves(v, inode, logical, (level - 1) as nat) {
            Err(e) => Err(e),
            Ok(here) => prepend(
                here,
                index_leaves(v, inode, data, start, count, i + 1, level),
            ),
        }
    }
}

/// The leaves below the index block that is logical block `logical` of the directory;
/// `below` index blocks lie between it and the leaves.
pub open spec fn node_leaves(v: VolumeView, inode: InodeView, logical: u64, below: nat) -> Outcome<
    Seq<u64>,
>
    decreases below + 1, 0int, 0int,
{
    match paddr(v, inode, logical) {
        Err(e) => Err(e),
        Ok(None) => Err(Fault::Corrupt("indexed dir index block is a hole"@)),
        Ok(Some(p)) => match block_of(v, p) {
            Err(e) => Err(e),
            Ok(data) => index_leaves(v, inode, data, 8, le16(data, 10) as int, 0, below),
        },
    }
}

/// The entry at a fixed place of the root block; none if it is not in use.
pub open spec fn fixed_entry(filetype: bool, data: Seq<u8>, off: int) -> Outcome<
    Seq<DirEntryView>,
> {
    if le32(data, off) == 0 {
        Ok(Seq::empty())
    } else if off + 8 + name_len(filetype, data, off) > data.len() {
        Err(Fault::Corrupt("directory entry name overruns block"@))
    } else {
        Ok(seq![entry_at(filetype, data, off, 0)])
    }
}

/// The listing of an indexed directory. The root block holds `"."` at offset 0, `".."` at
/// offset 12 and, at offset 24, a header that gives its own length and the number of index
/// levels; the index entries follow it, their count in the first one.
pub open spec fn indexed_listing(v: VolumeView, inode: InodeView) -> Outcome<Seq<DirEntryView>> {
    match paddr(v, inode, 0) {
        Err(e) => Err(e),
        Ok(None) => Err(Fault::Corrupt("indexed dir has no root block"@)),
        Ok(Some(root)) => match block_of(v, root) {
            Err(e) => Err(e),
            Ok(data) => match fixed_entry(v.filetype, data, 0) {
                Err(e) => Err(e),
                Ok(dot) => match fixed_entry(v.filetype, data, 12) {
                    Err(e) => Err(e),
                    Ok(dotdot) => {
                        let start = 24 + data[29];
                        match index_leaves(
                            v,
                            inode,
                            data,
                            start,
                            le16(data, start + 2) as int,
                            0,
                            data[30] as nat,
                        ) {
                            Err(e) => Err(e),
                            Ok(leaves) => prepend(
                                dot + dotdot,
                                entries_of_blocks(v, leaves, 0),
                            ),
                        }
                    },
                },
            },
        },
    }
}

/// What a directory lists.
pub open spec fn dir_listing(v: VolumeView, inode: InodeView) -> Outcome<Seq<DirEntryView>> {
    if !inode.is_dir() {
        Err(Fault::NotDir(inode.ino))
    } else if inode.has_index() {
        indexed_listing(v, inode)
    } else {
        match dir_blocks(v, inode) {
            Err(e) => Err(e),
            Ok(blocks) => entries_of_blocks(v, blocks, 0),
        }
    }
}

/// The first entry of that name.
pub open spec fn first_named(entries: Seq<DirEntryView>, name: Seq<char>) -> Option<DirEntryView>
    decreases entries.len(),
{
    if entries.len() == 0 {
        None
    } else if entries[0].name == name {
        Some(entries[0])
    } else {
        first_named(entries.skip(1), name)
    }
}

/// The inode and the file type of the first entry of that name.
pub open spec fn named_target(entries: Seq<DirEntryView>, name: Seq<char>) -> Option<(u32, u8)> {
    match first_named(entries, name) {
        None => None,
        Some(e) => Some((e.ino, e.file_type)),
    }
}

/// Looks for a name in a directory.
pub open spec fn dir_lookup(v: VolumeView, inode: InodeView, name: Seq<char>) -> Outcome<
    Option<(u32, u8)>,
> {
    match dir_listing(v, inode) {
        Err(e) => Err(e),
        Ok(entries) => Ok(named_target(entries, name)),
    }
}

/// A name that is stored as valid UTF-8 is listed as the text it encodes.
pub proof fn law_valid_name_is_decoded(filetype: bool, data: Seq<u8>, off: int, rec_len: u16)
    requires
        valid_utf8(data.subrange(off + 8, off + 8 + name_len(filetype, data, off))),
    ensures
        entry_at(filetype, data, off, rec_len).name == decode_utf8(
            data.subrange(off + 8, off + 8 + name_len(filetype, data, off)),
        ),
{
}

/// Whether `offs` are the places of the records that fill the block `data` from place
/// `offs[0]` to its end, one behind the other.
pub open spec fn records_fill(filetype: bool, data: Seq<u8>, offs: Seq<int>) -> bool {
    forall|i: int|
        0 <= i < offs.len() ==> {
            let next = if i + 1 < offs.len() {
                offs[i + 1]
            } else {
                data.len() as int
            };
            &&& 0 <= #[trigger] offs[i]
            &&& offs[i] + 8 <= data.len()
            &&& le16(data, offs[i] + 4) > 0
            &&& offs[i] + le16(data, offs[i] + 4) == next
            &&& le32(data, offs[i]) != 0 ==> offs[i] + 8 + name_len(filetype, data, offs[i])
                <= data.len()
        }
}

/// The entries at the given places, without those that are not in use.
pub open spec fn entries_at_places(filetype: bool, data: Seq<u8>, offs: Seq<int>) -> Seq<
    DirEntryView,
>
    decreases offs.len(),
{
    if offs.len() == 0 {
        Seq::empty()
    } else {
        let rest = entries_at_places(filetype, data, offs.skip(1));
        if le32(data, offs[0]) == 0 {
            rest
        } else {
            seq![entry_at(filetype, data, offs[0], le16(data, offs[0] + 4))] + rest
        }
    }
}

/// A block that is filled with records lists those that are in use, in their order.
pub proof fn law_filled_block_lists_its_records(filetype: bool, data: Seq<u8>, offs: Seq<int>)
    requires
        records_fill(filetype, data, offs),
        offs.len() > 0,
    ensures
        block_entries(filetype, data, offs[0]) == Ok::<_, Fault>(
            entries_at_places(filetype, data, offs),
        ),
    decreases offs.len(),
{
    reveal_with_fuel(block_entries, 2);
    reveal_with_fuel(entries_at_places, 2);
    let rest = offs.skip(1);
    let off = offs[0];
    if offs.len() > 1 {
        assert forall|i: int| 0 <= i < rest.len() implies {
            let next = if i + 1 < rest.len() {
                rest[i + 1]
            } else {
                data.len() as int
            };
            &&& 0 <= #[trigger] rest[i]
            &&& rest[i] + 8 <= data.len()
            &&& le16(data, rest[i] + 4) > 0
            &&& rest[i] + le16(data, rest[i] + 4) == next
            &&& le32(data, rest[i]) != 0 ==> rest[i] + 8 + name_len(filetype, data, rest[i])
                <= data.len()
        } by {
            assert(rest[i] == offs[i + 1]);
            if i + 1 < rest.len() {
                assert(rest[i + 1] == offs[i + 2]);
            }
        }
        law_filled_block_lists_its_records(filetype, data, rest);
        assert(rest[0] == off + le16(data, off + 4));
    } else {
        assert(off + le16(data, off + 4) == data.len());
        assert(rest.len() == 0);
    }
}

/// A name is found in a directory exactly if the directory lists it.
pub proof fn law_lookup_finds_listed(entries: Seq<DirEntryView>, name: Seq<char>)
    ensures
        first_named(entries, name) matches Some(e) ==> e.name == name && entries.contains(e),
        first_named(entries, name) is None ==> forall|i: int|
            0 <= i < entries.len() ==> (#[trigger] entries[i]).name != name,
    decreases entries.len(),
{
    if entries.len() > 0 && entries[0].name != name {
        law_lookup_finds_listed(entries.skip(1), name);
        if let Some(e) = first_named(entries.skip(1), name) {
            let i = choose|i: int| 0 <= i < entries.skip(1).len() && entries.skip(1)[i] == e;
            assert(entries[i + 1] == e);
        } else {
            assert forall|i: int| 0 <= i < entries.len() implies (#[trigger] entries[i]).name
                != name by {
                if i > 0 {
                    assert(entries[i] == entries.skip(1)[i - 1]);
                }
            }
        }
    } else if entries.len() > 0 {
        assert(entries[0] == entries[0]);
    }
}

proof fn lemma_block_entries_settled(filetype: bool, data: Seq<u8>, off: int)
    ensures
        block_entries(filetype, data, off) matches Err(e) ==> e is Corrupt,
    decreases data.len() - off,
{
    let rec_len = le16(data, off + 4);
    if off + 8 <= data.len() && rec_len != 0 && off + rec_len <= data.len() {
        lemma_block_entries_settled(filetype, data, off + rec_len);
    }
}

proof fn lemma_entries_settled(v: VolumeView, w: VolumeView, blocks: Seq<u64>, i: int)
    requires
        v.grows_to(w),
    ensures
        settled(v, entries_of_blocks(v, blocks, i), entries_of_blocks(w, blocks, i)),
    decreases blocks.len() - i,
{
    if i < blocks.len() {
        if let Ok(data) = block_of(v, blocks[i]) {
            lemma_block_entries_settled(v.filetype, data, 0);
            lemma_entries_settled(v, w, blocks, i + 1);
        }
    }
}

proof fn lemma_blocks_settled(v: VolumeView, w: VolumeView, inode: InodeView, lb: u64, n: u64)
    requires
        v.grows_to(w),
    ensures
        settled(v, blocks_between(v, inode, lb, n), blocks_between(w, inode, lb, n)),
    decreases n - lb,
{
    if lb < n {
        law_paddr_settled(v, w, inode, lb);
        lemma_blocks_settled(v, w, inode, (lb + 1) as u64, n);
    }
}

proof fn lemma_index_settled(
    v: VolumeView,
    w: VolumeView,
    inode: InodeView,
    data: Seq<u8>,
    start: int,
    count: int,
    i: int,
    level: nat,
)
    requires
        v.grows_to(w),
    ensures
        settled(
            v,
            index_leaves(v, inode, data, start, count, i, level),
            index_leaves(w, inode, data, start, count, i, level),
        ),
    decreases level, 1int, count - i,
{
    if i < count && start + i * 8 + 8 <= data.len() {
        let logical = le32(data, start + i * 8 + 4) as u64;
        lemma_index_settled(v, w, inode, data, start, count, i + 1, level);
        if level == 0 {
            law_paddr_settled(v, w, inode, logical);
        } else {
            lemma_node_leaves_settled(v, w, inode, logical, (level - 1) as nat);
        }
    }
}

proof fn lemma_node_leaves_settled(
    v: VolumeView,
    w: VolumeView,
    inode: InodeView,
    logical: u64,
    below: nat,
)
    requires
        v.grows_to(w),
    ensures
        settled(v, node_leaves(v, inode, logical, below), node_leaves(w, inode, logical, below)),
    decreases below + 1, 0int, 0int,
{
    law_paddr_settled(v, w, inode, logical);
    if let Ok(Some(p)) = paddr(v, inode, logical) {
        if let Ok(data) = block_of(v, p) {
            lemma_index_settled(v, w, inode, data, 8, le16(data, 10) as int, 0, below);
        }
    }
}

/// The listing of a directory is settled: unless a block is missing, it stays whatever else
/// is supplied, so that it is the listing on the complete volume.
pub proof fn law_listing_settled(v: VolumeView, w: VolumeView, inode: InodeView)
    requires
        v.grows_to(w),
    ensures
        settled(v, dir_listing(v, inode), dir_listing(w, inode)),
{
    if inode.is_dir() && inode.has_index() {
        law_paddr_settled(v, w, inode, 0);
        if let Ok(Some(root)) = paddr(v, inode, 0) {
            if let Ok(data) = block_of(v, root) {
                let start = 24 + data[29];
                let count = le16(data, start + 2) as int;
                let level = data[30] as nat;
                lemma_index_settled(v, w, inode, data, start, count, 0, level);
                if let Ok(leaves) = index_leaves(v, inode, data, start, count, 0, level) {
                    lemma_entries_settled(v, w, leaves, 0);
                }
            }
        }
    } else if inode.is_dir() {
        let n = ceil_div(inode.size as int, v.block_size as int) as u64;
        lemma_blocks_settled(v, w, inode, 0, n);
        if let Ok(blocks) = dir_blocks(v, inode) {
            lemma_entries_settled(v, w, blocks, 0);
        }
    }
}

/// Looking for a name in a directory is settled.
pub proof fn law_lookup_settled(v: VolumeView, w: VolumeView, inode: InodeView, name: Seq<char>)
    requires
        v.grows_to(w),
    ensures
        settled(v, dir_lookup(v, inode, name), dir_lookup(w, inode, name)),
{
    law_listing_settled(v, w, inode);
}

/// Reads the entry at `off`, whose name is known to lie within the block.
fn read_entry(filetype: bool, data: &[u8], off: usize, nlen: usize, rec_len: u16) -> (e: DirEntry)
    requires
        off + 8 + nlen <= data.len(),
        nlen == name_len(filetype, data@, off as int),
    ensures
        e@ == entry_at(filetype, data@, off as int, rec_len),
{
    let header: usize = entry_header_size(filetype);
    let file_type: u8 = if filetype {
        data[off + name_len_offset(filetype) + 1]
    } else {
        0
    };
    DirEntry {
        ino: u32_at(data, off),
        rec_len,
        name: from_utf8_lossy(slice_subrange(data, off + header, off + header + nlen)),
        file_type,
    }
}

fn read_name_len(filetype: bool, data: &[u8], off: usize) -> (n: usize)
    requires
        off + 8 <= data.len(),
    ensures
        n == name_len(filetype, data@, off as int),
{
    if filetype {
        data[off + name_len_offset(filetype)] as usize
    } else {
        u16_at(data, off + 6) as usize
    }
}

proof fn lemma_entries_push(s: Seq<DirEntry>, e: DirEntry)
    ensures
        entries_view(s.push(e)) == entries_view(s).push(e@),
{
    assert(entries_view(s.push(e)) =~= entries_view(s).push(e@));
}

/// Reads the entries of a directory block and appends them to `out`.
#[verifier::rlimit(40)]
fn parse_entries(filetype: bool, data: &[u8], out: &mut Vec<DirEntry>) -> (r: Result<()>)
    requires
        data@.len() <= 0x1_0000,
    ensures
        match r {
            Ok(_) => block_entries(filetype, data@, 0) is Ok && entries_view(final(out)@)
                == entries_view(old(out)@) + block_entries(filetype, data@, 0)->Ok_0,
            Err(e) => block_entries(filetype, data@, 0) == Err::<Seq<DirEntryView>, _>(e@),
        },
{
    let mut off: usize = 0;
    let header: usize = entry_header_size(filetype);
    let ghost all = block_entries(filetype, data@, 0);
    let ghost before = entries_view(old(out)@);
    proof {
        if let Ok(s) = all {
            assert(before + s =~= entries_view(out@) + s);
        }
    }
    while off + header <= data.len()
        invariant_except_break
            off <= data@.len() <= 0x1_0000,
            header == 8,
            all == block_entries(filetype, data@, 0),
            prepend(before, all) == prepend(
                entries_view(out@),
                block_entries(filetype, data@, off as int),
            ),
        ensures
            prepend(before, all) == Ok::<_, Fault>(entries_view(out@)),
        decreases data@.len() - off,
    {
        let rec_len: u16 = u16_at(data, off + 4);
        if rec_len == 0 {
            assert(entries_view(out@) + Seq::<DirEntryView>::empty() =~= entries_view(out@));
            break;
        }
        if off + rec_len as usize > data.len() {
            let mut text = "directory entry overruns block (off ".to_owned();
            push_decimal(&mut text, off as u64);
            text.append(", rec_len ");
            push_decimal(&mut text, rec_len as u64);
            text.append(")");
            return Err(ExtError::Corrupt(text));
        }
        if u32_at(data, off) != 0 {
            let nlen: usize = read_name_len(filetype, data, off);
            if off + header + nlen > data.len() {
                return Err(corrupt("directory entry name overruns block"));
            }
            let e = read_entry(filetype, data, off, nlen, rec_len);
            let ghost sofar = out@;
            out.push(e);
            proof {
                lemma_entries_push(sofar, e);
                if let Ok(rest) = block_entries(filetype, data@, off + rec_len) {
                    assert(entries_view(sofar) + (seq![e@] + rest) =~= entries_view(out@) + rest);
                }
            }
        }
        off = off + rec_len as usize;
        assert(entries_view(out@) + Seq::<DirEntryView>::empty() =~= entries_view(out@));
    }
    Ok(())
}

/// Finds the first entry of that name: its inode and its file type.
pub fn find_entry(entries: &Vec<DirEntry>, name: &str) -> (r: Option<(u32, u8)>)
    ensures
        r == named_target(entries_view(entries@), name@),
{
    let wanted = name.to_owned();
    let mut i: usize = 0;
    let ghost all = entries_view(entries@);
    assert(all.skip(0) =~= all);
    while i < entries.len()
        invariant
            i <= entries@.len(),
            wanted@ == name@,
            all == entries_view(entries@),
            first_named(all, name@) == first_named(all.skip(i as int), name@),
        decreases entries@.len() - i,
    {
        let e = &entries[i];
        assert(all.skip(i as int)[0] == e@);
        if e.name == wanted {
            return Some((e.ino, e.file_type));
        }
        assert(all.skip(i as int).skip(1) =~= all.skip(i + 1));
        i = i + 1;
    }
    None
}

impl Ext4 {
    pub(crate) fn filetype_feature(&self) -> (b: bool)
        ensures
            b == self@.filetype,
    {
        self.sb.has_incompat(EXT4_FEATURE_INCOMPAT_FILETYPE)
    }

    /// Collects the physical blocks that make up a directory's entries.
    fn collect_dir_blocks(&self, inode: &Inode) -> (r: Result<Vec<u64>>)
        requires
            self.wf(),
        ensures
            outcome(r) == dir_blocks(self@, inode@),
    {
        let n: u64 = div_ceil(inode.size, self.block_size);
        let mut out: Vec<u64> = Vec::new();
        let mut lb: u64 = 0;
        let ghost all = dir_blocks(self@, inode@);
        proof {
            if let Ok(s) = all {
                assert(out@ + s =~= s);
            }
        }
        while lb < n
            invariant
                self.wf(),
                lb <= n,
                all == prepend(out@, blocks_between(self@, inode@, lb, n)),
                all == dir_blocks(self@, inode@),
            decreases n - lb,
        {
            let ghost rest = blocks_between(self@, inode@, (lb + 1) as u64, n);
            match self.block_to_paddr(inode, lb)? {
                Some(p) => {
                    let ghost sofar = out@;
                    out.push(p);
                    proof {
                        if let Ok(s) = rest {
                            assert(sofar + (seq![p] + s) =~= out@ + s);
                        }
                    }
                },
                None => {},
            }
            lb = lb + 1;
        }
        assert(out@ + Seq::<u64>::empty() =~= out@);
        Ok(out)
    }

    /// Appends the entries of the given blocks to `out`.
    fn read_blocks(&self, blocks: &Vec<u64>, out: &mut Vec<DirEntry>) -> (r: Result<()>)
        requires
            self.wf(),
        ensures
            match r {
                Ok(_) => entries_of_blocks(self@, blocks@, 0) is Ok && entries_view(final(out)@)
                    == entries_view(old(out)@) + entries_of_blocks(self@, blocks@, 0)->Ok_0,
                Err(e) => entries_of_blocks(self@, blocks@, 0) == Err::<Seq<DirEntryView>, _>(e@),
            },
    {
        let filetype = self.filetype_feature();
        let mut i: usize = 0;
        let ghost all = entries_of_blocks(self@, blocks@, 0);
        let ghost before = entries_view(old(out)@);
        while i < blocks.len()
            invariant
                self.wf(),
                i <= blocks@.len(),
                filetype == self@.filetype,
                all == entries_of_blocks(self@, blocks@, 0),
                prepend(before, all) == prepend(
                    entries_view(out@),
                    entries_of_blocks(self@, blocks@, i as int),
                ),
            decreases blocks@.len() - i,
        {
            let data = self.peek_block(blocks[i])?;
            let ghost sofar = entries_view(out@);
            parse_entries(filetype, data.as_slice(), out)?;
            proof {
                let here = block_entries(filetype, data@, 0)->Ok_0;
                if let Ok(rest) = entries_of_blocks(self@, blocks@, i + 1) {
                    assert(sofar + (here + rest) =~= entries_view(out@) + rest);
                }
            }
            i = i + 1;
        }
        assert(entries_view(out@) + Seq::<DirEntryView>::empty() =~= entries_view(out@));
        Ok(())
    }

    /// Lists a directory's contents.
    pub fn list_dir(&self, inode: &Inode) -> (r: Result<Vec<DirEntry>>)
        requires
            self.wf(),
        ensures
            listing(r) == dir_listing(self@, inode@),
    {
        if !inode.is_dir() {
            return Err(ExtError::NotDir(inode.ino));
        }
        if inode.flags & EXT4_INDEX_FL != 0 {
            return self.list_dir_indexed(inode);
        }
        let blocks = self.collect_dir_blocks(inode)?;
        let mut out: Vec<DirEntry> = Vec::new();
        self.read_blocks(&blocks, &mut out)?;
        proof {
            let s = entries_of_blocks(self@, blocks@, 0)->Ok_0;
            assert(entries_view(Seq::<DirEntry>::empty()) + s =~= s);
        }
        Ok(out)
    }

    /// Finds a directory entry by name.
    pub fn lookup_dir(&self, inode: &Inode, name: &str) -> (r: Result<Option<(u32, u8)>>)
        requires
            self.wf(),
        ensures
            outcome(r) == dir_lookup(self@, inode@, name@),
    {
        let entries = self.list_dir(inode)?;
        Ok(find_entry(&entries, name))
    }

    /// Reads the entry at a fixed place of an indexed directory's root block.
    fn read_fixed_entry(&self, data: &[u8], off: usize, out: &mut Vec<DirEntry>) -> (r: Result<()>)
        requires
            off + 8 <= data@.len() <= 0x1_0000,
        ensures
            match r {
                Ok(_) => fixed_entry(self@.filetype, data@, off as int) is Ok && entries_view(
                    final(out)@,
                ) == entries_view(old(out)@) + fixed_entry(
                    self@.filetype,
                    data@,
                    off as int,
                )->Ok_0,
                Err(e) => fixed_entry(self@.filetype, data@, off as int) == Err::<
                    Seq<DirEntryView>,
                    _,
                >(e@),
            },
    {
        let filetype = self.filetype_feature();
        if u32_at(data, off) == 0 {
            assert(entries_view(out@) =~= entries_view(out@) + Seq::<DirEntryView>::empty());
            return Ok(());
        }
        let nlen: usize = read_name_len(filetype, data, off);
        if off + entry_header_size(filetype) + nlen > data.len() {
            return Err(corrupt("directory entry name overruns block"));
        }
        let e = read_entry(filetype, data, off, nlen, 0);
        proof {
            lemma_entries_push(out@, e);
        }
        out.push(e);
        assert(entries_view(out@) =~= entries_view(old(out)@) + seq![e@]);
        Ok(())
    }

    #[verifier::rlimit(40)]
    fn list_dir_indexed(&self, inode: &Inode) -> (r: Result<Vec<DirEntry>>)
        requires
            self.wf(),
        ensures
            listing(r) == indexed_listing(self@, inode@),
    {
        let root: u64 = match self.block_to_paddr(inode, 0)? {
            Some(p) => p,
            None => {
                return Err(corrupt("indexed dir has no root block"));
            },
        };
        let data = self.peek_block(root)?;
        let mut out: Vec<DirEntry> = Vec::new();
        self.read_fixed_entry(data.as_slice(), 0, &mut out)?;
        self.read_fixed_entry(data.as_slice(), 12, &mut out)?;
        let start: usize = 24 + data[29] as usize;
        let count: u16 = u16_at(data.as_slice(), start + 2);
        let mut leaves: Vec<u64> = Vec::new();
        self.collect_leaves(inode, data.as_slice(), start, count, data[30], &mut leaves)?;
        let ghost fixed = entries_view(out@);
        self.read_blocks(&leaves, &mut out)?;
        proof {
            let ft = self@.filetype;
            let dot = fixed_entry(ft, data@, 0)->Ok_0;
            let dotdot = fixed_entry(ft, data@, 12)->Ok_0;
            assert(fixed =~= dot + dotdot);
            assert(leaves@ =~= index_leaves(
                self@,
                inode@,
                data@,
                start as int,
                count as int,
                0,
                data@[30] as nat,
            )->Ok_0);
        }
        Ok(out)
    }

    /// Appends the leaf blocks below the index entries of a block to `out`.
    #[verifier::rlimit(40)]
    fn collect_leaves(
        &self,
        inode: &Inode,
        data: &[u8],
        start: usize,
        count: u16,
        level: u8,
        out: &mut Vec<u64>,
    ) -> (r: Result<()>)
        requires
            self.wf(),
            start <= data@.len() <= 0x1_0000,
        ensures
            ({
                let below = index_leaves(
                    self@,
                    inode@,
                    data@,
                    start as int,
                    count as int,
                    0,
                    level as nat,
                );
                match r {
                    Ok(_) => below is Ok && final(out)@ == old(out)@ + below->Ok_0,
                    Err(e) => below == Err::<Seq<u64>, _>(e@),
                }
            }),
        decreases level, 1int,
    {
        let mut i: u16 = 0;
        let ghost all = index_leaves(
            self@,
            inode@,
            data@,
            start as int,
            count as int,
            0,
            level as nat,
        );
        let ghost before = out@;
        while i < count
            invariant
                self.wf(),
                i <= count,
                start <= data@.len() <= 0x1_0000,
                all == index_leaves(
                    self@,
                    inode@,
                    data@,
                    start as int,
                    count as int,
                    0,
                    level as nat,
                ),
                prepend(before, all) == prepend(
                    out@,
                    index_leaves(
                        self@,
                        inode@,
                        data@,
                        start as int,
                        count as int,
                        i as int,
                        level as nat,
                    ),
                ),
            decreases count - i,
        {
            let ent: usize = start + i as usize * 8;
            if ent + 8 > data.len() {
                return Err(corrupt("directory index entry outside its block"));
            }
            let logical: u64 = u32_at(data, ent + 4) as u64;
            let ghost rest = index_leaves(
                self@,
                inode@,
                data@,
                start as int,
                count as int,
                i + 1,
                level as nat,
            );
            let ghost sofar = out@;
            if level == 0 {
                let p: u64 = match self.block_to_paddr(inode, logical)? {
                    Some(p) => p,
                    None => {
                        return Err(corrupt("indexed dir leaf block is a hole"));
                    },
                };
                out.push(p);
                proof {
                    if let Ok(s) = rest {
                        assert(sofar + (seq![p] + s) =~= out@ + s);
                    }
                }
            } else {
                self.collect_index_node(inode, logical, level - 1, out)?;
                proof {
                    let here = node_leaves(self@, inode@, logical, (level - 1) as nat)->Ok_0;
                    if let Ok(s) = rest {
                        assert(sofar + (here + s) =~= out@ + s);
                    }
                }
            }
            i = i + 1;
        }
        assert(out@ + Seq::<u64>::empty() =~= out@);
        Ok(())
    }

    /// Collects the leaf blocks below an index node. `logical` is the logical block of the
    /// index node within the directory file.
    fn collect_index_node(&self, inode: &Inode, logical: u64, below: u8, out: &mut Vec<u64>) -> (r:
        Result<()>)
        requires
            self.wf(),
        ensures
            ({
                let leaves = node_leaves(self@, inode@, logical, below as nat);
                match r {
                    Ok(_) => leaves is Ok && final(out)@ == old(out)@ + leaves->Ok_0,
                    Err(e) => leaves == Err::<Seq<u64>, _>(e@),
                }
            }),
        decreases below + 1, 0int,
    {
        let p: u64 = match self.block_to_paddr(inode, logical)? {
            Some(p) => p,
            None => {
                return Err(corrupt("indexed dir index block is a hole"));
            },
        };
        let data = self.peek_block(p)?;
        let count: u16 = u16_at(data.as_slice(), 10);
        self.collect_leaves(inode, data.as_slice(), 8, count, below, out)
    }
}

} // verus!
