//! File contents: inline data, fast symbolic links, holes and mapped blocks.

use crate::error::{fault_text, outcome, Fault, Outcome, Result};
use crate::extent::{extent_lookup, law_node_settled};
use crate::group::{ceil_div, div_ceil};
use crate::indirect::{indirect_lookup, law_indirect_settled};
use crate::inode::{Inode, InodeView, EXT4_EXTENTS_FL, EXT4_INLINE_DATA_FL};
use crate::volume::{block_of, inline_bytes, law_inline_settled, settled, Ext4, VolumeView};
use vstd::prelude::*;
use vstd::slice::{slice_subrange, slice_to_vec};

verus! {

/// The physical block of a logical file block; `None` is a hole, or a block that has not
/// been written, and reads as zeros.
pub open spec fn paddr(v: VolumeView, inode: InodeView, logical: u64) -> Outcome<Option<u64>> {
    if inode.has_extents() {
        extent_lookup(v, inode, logical)
    } else {
        indirect_lookup(v, inode, logical)
    }
}

/// Where a logical block lies is settled: supplying other blocks does not move it.
pub proof fn law_paddr_settled(v: VolumeView, w: VolumeView, inode: InodeView, logical: u64)
    requires
        v.grows_to(w),
    ensures
        settled(v, paddr(v, inode, logical), paddr(w, inode, logical)),
{
    if inode.has_extents() {
        law_node_settled(v, w, inode.block_raw, logical, 0);
    } else {
        law_indirect_settled(v, w, inode, logical);
    }
}

pub open spec fn zeros(len: int) -> Seq<u8> {
    Seq::new(len as nat, |i: int| 0u8)
}

/// The first `len` bytes of a logical block.
pub open spec fn block_data(v: VolumeView, inode: InodeView, logical: u64, len: int) -> Outcome<
    Seq<u8>,
> {
    match paddr(v, inode, logical) {
        Err(e) => Err(e),
        Ok(None) => Ok(zeros(len)),
        Ok(Some(p)) => match block_of(v, p) {
            Err(e) => Err(e),
            Ok(b) => Ok(b.take(len)),
        },
    }
}

/// What a read has delivered when it ends, and how it ends.
#[verifier::ext_equal]
pub struct Stream {
    pub bytes: Seq<u8>,
    pub end: Outcome<()>,
}

pub open spec fn whole(r: Outcome<Seq<u8>>) -> Stream {
    match r {
        Ok(bytes) => Stream { bytes, end: Ok(()) },
        Err(e) => Stream { bytes: Seq::empty(), end: Err(e) },
    }
}

pub open spec fn min(a: int, b: int) -> int {
    if a <= b {
        a
    } else {
        b
    }
}

/// Reads `remaining` bytes of mapped blocks, beginning with block `logical`, until one
/// cannot be read.
pub open spec fn mapped_data(
    v: VolumeView,
    inode: InodeView,
    logical: u64,
    remaining: int,
) -> Stream
    decreases remaining,
{
    let len = min(remaining, v.block_size as int);
    if remaining <= 0 || len <= 0 {
        Stream { bytes: Seq::empty(), end: Ok(()) }
    } else {
        match block_data(v, inode, logical, len) {
            Err(e) => Stream { bytes: Seq::empty(), end: Err(e) },
            Ok(first) => {
                let rest = mapped_data(v, inode, (logical + 1) as u64, remaining - len);
                Stream { bytes: first + rest.bytes, end: rest.end }
            },
        }
    }
}

/// The contents of a file or the target of a symbolic link.
pub open spec fn file_data(v: VolumeView, inode: InodeView) -> Stream {
    if inode.has_inline_data() {
        whole(inline_bytes(v, inode))
    } else if inode.is_fast_symlink() {
        Stream { bytes: inode.block_raw.take(inode.size as int), end: Ok(()) }
    } else {
        mapped_data(v, inode, 0, inode.size as int)
    }
}

pub open spec fn stream_settled(v: VolumeView, s: Stream, later: Stream) -> bool {
    match s.end {
        Err(Fault::Pending(p)) => !v.blocks.contains_key(p),
        _ => later == s,
    }
}

proof fn lemma_mapped_settled(
    v: VolumeView,
    w: VolumeView,
    inode: InodeView,
    logical: u64,
    remaining: int,
)
    requires
        v.grows_to(w),
    ensures
        stream_settled(
            v,
            mapped_data(v, inode, logical, remaining),
            mapped_data(w, inode, logical, remaining),
        ),
    decreases remaining,
{
    let len = min(remaining, v.block_size as int);
    if remaining > 0 && len > 0 {
        law_paddr_settled(v, w, inode, logical);
        if block_data(v, inode, logical, len) is Ok {
            lemma_mapped_settled(v, w, inode, (logical + 1) as u64, remaining - len);
        }
    }
}

/// The contents of a file are settled: unless a block is missing, both what is delivered
/// and how the read ends stay whatever else is supplied.
pub proof fn law_data_settled(v: VolumeView, w: VolumeView, inode: InodeView)
    requires
        v.grows_to(w),
    ensures
        stream_settled(v, file_data(v, inode), file_data(w, inode)),
{
    law_inline_settled(v, w, inode);
    lemma_mapped_settled(v, w, inode, 0, inode.size as int);
}

/// A read that ends well has delivered as many bytes as the inode says the file has.
pub proof fn law_data_has_file_size(v: VolumeView, inode: InodeView)
    requires
        v.wf(),
        inode.block_raw.len() == 60,
        file_data(v, inode).end is Ok,
    ensures
        file_data(v, inode).bytes.len() == inode.size,
{
    if !inode.has_inline_data() && !inode.is_fast_symlink() {
        lemma_mapped_len(v, inode, 0, inode.size as int);
    }
}

proof fn lemma_mapped_len(v: VolumeView, inode: InodeView, logical: u64, remaining: int)
    requires
        v.wf(),
        remaining >= 0,
        mapped_data(v, inode, logical, remaining).end is Ok,
    ensures
        mapped_data(v, inode, logical, remaining).bytes.len() == remaining,
    decreases remaining,
{
    if remaining > 0 {
        let len = min(remaining, v.block_size as int);
        lemma_mapped_len(v, inode, (logical + 1) as u64, remaining - len);
    }
}

/// A stretch of a file's contents that can be had in one go.
pub enum Piece {
    Bytes(Vec<u8>),
    /// The first `len` bytes of a physical block.
    Block { pblock: u64, len: u64 },
    Zeros(u64),
}

pub enum PieceView {
    Bytes(Seq<u8>),
    Block { pblock: u64, len: u64 },
    Zeros(u64),
}

impl View for Piece {
    type V = PieceView;

    open spec fn view(&self) -> PieceView {
        match *self {
            Piece::Bytes(b) => PieceView::Bytes(b@),
            Piece::Block { pblock, len } => PieceView::Block { pblock, len },
            Piece::Zeros(n) => PieceView::Zeros(n),
        }
    }
}

/// The bytes that a piece stands for.
pub open spec fn piece_bytes(v: VolumeView, piece: PieceView) -> Outcome<Seq<u8>> {
    match piece {
        PieceView::Bytes(b) => Ok(b),
        PieceView::Zeros(n) => Ok(zeros(n as int)),
        PieceView::Block { pblock, len } => match block_of(v, pblock) {
            Err(e) => Err(e),
            Ok(b) => Ok(b.take(len as int)),
        },
    }
}

/// How many pieces a mapped file has.
pub open spec fn piece_count(v: VolumeView, inode: InodeView) -> int {
    ceil_div(inode.size as int, v.block_size as int)
}

/// Piece `k` of a file's contents; `None` past the end.
pub open spec fn piece_at(v: VolumeView, inode: InodeView, k: u64) -> Outcome<Option<PieceView>> {
    if inode.has_inline_data() || inode.is_fast_symlink() {
        if k > 0 {
            Ok(None)
        } else {
            let all = file_data(v, inode);
            match all.end {
                Err(e) => Err(e),
                Ok(_) => Ok(Some(PieceView::Bytes(all.bytes))),
            }
        }
    } else if k >= piece_count(v, inode) {
        Ok(None)
    } else {
        let len = min(inode.size - k * v.block_size, v.block_size as int) as u64;
        match paddr(v, inode, k) {
            Err(e) => Err(e),
            Ok(None) => Ok(Some(PieceView::Zeros(len))),
            Ok(Some(pblock)) => Ok(Some(PieceView::Block { pblock, len })),
        }
    }
}

/// The pieces of a file are settled.
pub proof fn law_piece_settled(v: VolumeView, w: VolumeView, inode: InodeView, k: u64)
    requires
        v.grows_to(w),
    ensures
        settled(v, piece_at(v, inode, k), piece_at(w, inode, k)),
{
    law_inline_settled(v, w, inode);
    law_paddr_settled(v, w, inode, k);
}

/// Reading a file piece by piece gives the same bytes as reading it at once: piece `k` of
/// a file of mapped blocks stands for the bytes from `k` block sizes on, up to the next
/// block boundary or the end of the file, and after the last piece there is none.
pub proof fn law_pieces_make_data(v: VolumeView, inode: InodeView, k: u64)
    requires
        v.wf(),
        !inode.has_inline_data(),
        !inode.is_fast_symlink(),
        file_data(v, inode).end is Ok,
    ensures
        k < piece_count(v, inode) ==> {
            &&& piece_at(v, inode, k) matches Ok(Some(piece))
            &&& piece_bytes(v, piece) == Ok::<_, Fault>(
                file_data(v, inode).bytes.subrange(
                    k * v.block_size,
                    min(inode.size as int, (k + 1) * v.block_size),
                ),
            )
        },
        k >= piece_count(v, inode) ==> piece_at(v, inode, k) == Ok::<_, Fault>(
            None::<PieceView>,
        ),
{
    let size = inode.size as int;
    let bs = v.block_size as int;
    if k < piece_count(v, inode) {
        lemma_count(size, bs, k as int);
        assert(k * bs + bs == (k + 1) * bs) by (nonlinear_arith);
        assert(0 * bs == 0);
        lemma_mapped_block(v, inode, 0, size, k);
    }
}

/// The bytes of the first `k` pieces of a file, one after the other.
pub open spec fn first_pieces(v: VolumeView, inode: InodeView, k: int) -> Seq<u8>
    decreases k,
{
    if k <= 0 {
        Seq::empty()
    } else {
        first_pieces(v, inode, k - 1) + match piece_at(v, inode, (k - 1) as u64) {
            Ok(Some(piece)) => match piece_bytes(v, piece) {
                Ok(bytes) => bytes,
                Err(_) => Seq::empty(),
            },
            _ => Seq::empty(),
        }
    }
}

/// All pieces of a file, one after the other, are its contents.
pub proof fn law_all_pieces_are_the_data(v: VolumeView, inode: InodeView)
    requires
        v.wf(),
        !inode.has_inline_data(),
        !inode.is_fast_symlink(),
        file_data(v, inode).end is Ok,
    ensures
        first_pieces(v, inode, piece_count(v, inode)) == file_data(v, inode).bytes,
{
    let size = inode.size as int;
    let bs = v.block_size as int;
    let n = piece_count(v, inode);
    lemma_mapped_len(v, inode, 0, size);
    vstd::arithmetic::div_mod::lemma_fundamental_div_mod(size, bs);
    assert(0 <= n <= size && n * bs >= size) by (nonlinear_arith)
        requires
            bs >= 1,
            size >= 0,
            size == bs * (size / bs) + size % bs,
            0 <= size % bs < bs,
            n == if size % bs == 0 {
                size / bs
            } else {
                size / bs + 1
            },
    ;
    lemma_first_pieces(v, inode, n);
    assert(file_data(v, inode).bytes.take(size) =~= file_data(v, inode).bytes);
}

/// When the pieces of a file, taken in turn, come to an end, they are its contents.
pub proof fn law_pieces_end_with_the_data(v: VolumeView, inode: InodeView, k: u64)
    requires
        v.wf(),
        file_data(v, inode).end is Ok,
        piece_at(v, inode, k) == Ok::<_, Fault>(None::<PieceView>),
        k > 0 ==> piece_at(v, inode, (k - 1) as u64) matches Ok(Some(_)),
    ensures
        first_pieces(v, inode, k as int) == file_data(v, inode).bytes,
{
    if inode.has_inline_data() || inode.is_fast_symlink() {
        assert(k == 1);
        reveal_with_fuel(first_pieces, 2);
        assert(first_pieces(v, inode, 1) =~= file_data(v, inode).bytes);
    } else {
        let size = inode.size as int;
        let bs = v.block_size as int;
        assert(size / bs >= 0) by (nonlinear_arith)
            requires
                size >= 0,
                bs >= 1,
        ;
        assert(k == piece_count(v, inode));
        law_all_pieces_are_the_data(v, inode);
    }
}

proof fn lemma_first_pieces(v: VolumeView, inode: InodeView, k: int)
    requires
        v.wf(),
        !inode.has_inline_data(),
        !inode.is_fast_symlink(),
        file_data(v, inode).end is Ok,
        0 <= k <= piece_count(v, inode) <= u64::MAX,
    ensures
        first_pieces(v, inode, k) == file_data(v, inode).bytes.take(
            min(inode.size as int, k * v.block_size),
        ),
    decreases k,
{
    let size = inode.size as int;
    let bs = v.block_size as int;
    let all = file_data(v, inode).bytes;
    lemma_mapped_len(v, inode, 0, size);
    if k == 0 {
        assert(0 * bs == 0);
        assert(all.take(0) =~= Seq::empty());
    } else {
        lemma_first_pieces(v, inode, k - 1);
        lemma_count(size, bs, k - 1);
        law_pieces_make_data(v, inode, (k - 1) as u64);
        assert((k - 1) * bs + bs == k * bs) by (nonlinear_arith);
        assert(0 <= (k - 1) * bs) by (nonlinear_arith)
            requires
                k >= 1,
                bs >= 0,
        ;
        let to = min(size, k * bs);
        assert(all.take((k - 1) * bs) + all.subrange((k - 1) * bs, to) =~= all.take(to));
    }
}

/// There are fewer pieces than numbers to count them with.
pub proof fn lemma_piece_number(v: VolumeView, inode: InodeView, k: u64)
    requires
        v.wf(),
        piece_at(v, inode, k) matches Ok(Some(_)),
    ensures
        k < u64::MAX,
{
    let size = inode.size as int;
    let bs = v.block_size as int;
    assert(size / bs <= size && (size % bs != 0 ==> size / bs < size)) by (nonlinear_arith)
        requires
            size >= 0,
            bs >= 2,
    ;
}

/// The bytes that a piece adds to a file.
pub open spec fn piece_contents(v: VolumeView, piece: PieceView) -> Seq<u8> {
    match piece_bytes(v, piece) {
        Ok(bytes) => bytes,
        Err(_) => Seq::empty(),
    }
}

/// The bytes of a file from piece `k` on, as far as its pieces can be found.
pub open spec fn pieces_from(v: VolumeView, inode: InodeView, k: u64) -> Seq<u8>
    decreases u64::MAX - k,
{
    match piece_at(v, inode, k) {
        Ok(Some(piece)) => if k == u64::MAX {
            piece_contents(v, piece)
        } else {
            piece_contents(v, piece) + pieces_from(v, inode, (k + 1) as u64)
        },
        _ => Seq::empty(),
    }
}

/// How reading the contents of an inode ends, from piece `k` on: with an error, or well.
pub open spec fn read_failure(v: VolumeView, inode: InodeView, k: u64) -> Outcome<Option<Seq<char>>>
    decreases u64::MAX - k,
{
    match piece_at(v, inode, k) {
        Err(Fault::Pending(p)) => Err(Fault::Pending(p)),
        Err(f) => Ok(Some(fault_text(f))),
        Ok(None) => Ok(None),
        Ok(Some(_)) => if k == u64::MAX {
            Ok(None)
        } else {
            read_failure(v, inode, (k + 1) as u64)
        },
    }
}

/// The pieces of a file that can be read come to its end without a failure, and together they
/// are its contents.
pub proof fn law_pieces_from_the_start(v: VolumeView, inode: InodeView)
    requires
        v.wf(),
        file_data(v, inode).end is Ok,
    ensures
        pieces_from(v, inode, 0) == file_data(v, inode).bytes,
        read_failure(v, inode, 0) == Ok::<_, Fault>(None::<Seq<char>>),
{
    lemma_pieces_from(v, inode, 0);
    assert(first_pieces(v, inode, 0) + pieces_from(v, inode, 0) =~= pieces_from(v, inode, 0));
}

/// What is left of a readable file after the first `k` pieces, and that nothing keeps it from
/// being read.
proof fn lemma_pieces_from(v: VolumeView, inode: InodeView, k: u64)
    requires
        v.wf(),
        file_data(v, inode).end is Ok,
        k > 0 ==> piece_at(v, inode, (k - 1) as u64) matches Ok(Some(_)),
    ensures
        first_pieces(v, inode, k as int) + pieces_from(v, inode, k) == file_data(v, inode).bytes,
        read_failure(v, inode, k) == Ok::<_, Fault>(None::<Seq<char>>),
    decreases u64::MAX - k,
{
    if !inode.has_inline_data() && !inode.is_fast_symlink() {
        law_pieces_make_data(v, inode, k);
    }
    match piece_at(v, inode, k) {
        Ok(Some(piece)) => {
            lemma_piece_number(v, inode, k);
            let next = (k + 1) as u64;
            lemma_pieces_from(v, inode, next);
            assert(first_pieces(v, inode, next as int) =~= first_pieces(v, inode, k as int)
                + piece_contents(v, piece));
            assert(first_pieces(v, inode, k as int) + pieces_from(v, inode, k) =~= first_pieces(
                v,
                inode,
                next as int,
            ) + pieces_from(v, inode, next));
        },
        Ok(None) => {
            law_pieces_end_with_the_data(v, inode, k);
            assert(first_pieces(v, inode, k as int) + Seq::<u8>::empty() =~= first_pieces(
                v,
                inode,
                k as int,
            ));
        },
        Err(_) => {},
    }
}

/// An inline file, and a fast symbolic link, is a single piece.
pub proof fn law_small_data_is_one_piece(v: VolumeView, inode: InodeView, k: u64)
    requires
        inode.has_inline_data() || inode.is_fast_symlink(),
        file_data(v, inode).end is Ok,
    ensures
        piece_at(v, inode, k) == Ok::<_, Fault>(
            if k == 0 {
                Some(PieceView::Bytes(file_data(v, inode).bytes))
            } else {
                None
            },
        ),
{
}

proof fn lemma_count(size: int, bs: int, k: int)
    requires
        bs > 0,
        0 <= k < ceil_div(size, bs),
        0 <= size,
    ensures
        k * bs < size,
{
    vstd::arithmetic::div_mod::lemma_fundamental_div_mod(size, bs);
    assert(k * bs < size) by (nonlinear_arith)
        requires
            bs > 0,
            size == bs * (size / bs) + size % bs,
            0 <= size % bs,
            k < size / bs || (k == size / bs && size % bs > 0),
    ;
}

/// Block `k` of the data that is read from block `logical` on.
proof fn lemma_mapped_block(v: VolumeView, inode: InodeView, logical: u64, remaining: int, k: u64)
    requires
        v.wf(),
        remaining >= 0,
        logical + remaining <= u64::MAX,
        logical <= k,
        (k - logical) * v.block_size < remaining,
        mapped_data(v, inode, logical, remaining).end is Ok,
    ensures
        mapped_data(v, inode, logical, remaining).bytes.len() == remaining,
        ({
            let from = (k - logical) * v.block_size;
            let to = min(remaining, from + v.block_size);
            block_data(v, inode, k, to - from) == Ok::<_, Fault>(
                mapped_data(v, inode, logical, remaining).bytes.subrange(from, to),
            )
        }),
    decreases remaining,
{
    let bs = v.block_size as int;
    let len = min(remaining, bs);
    let all = mapped_data(v, inode, logical, remaining);
    lemma_mapped_len(v, inode, logical, remaining);
    assert(remaining > 0) by {
        assert((k - logical) * bs >= 0) by (nonlinear_arith)
            requires
                k >= logical,
                bs > 0,
        ;
    }
    let first = block_data(v, inode, logical, len)->Ok_0;
    let rest = mapped_data(v, inode, (logical + 1) as u64, remaining - len);
    let from = (k - logical) * bs;
    let to = min(remaining, from + bs);
    if k == logical {
        assert(from == 0) by (nonlinear_arith)
            requires
                from == (k - logical) * bs,
                k == logical,
        ;
        assert(all.bytes.subrange(0, len) =~= first);
    } else {
        assert(from >= bs && (k - (logical + 1)) * bs == from - bs) by (nonlinear_arith)
            requires
                from == (k - logical) * bs,
                k > logical,
                bs > 0,
        ;
        lemma_mapped_block(v, inode, (logical + 1) as u64, remaining - len, k);
        assert(all.bytes.subrange(from, to) =~= rest.bytes.subrange(from - bs, to - bs));
    }
}

fn zero_bytes(len: usize) -> (v: Vec<u8>)
    ensures
        v@ == zeros(len as int),
{
    let v: Vec<u8> = vec![0u8; len];
    assert(v@ =~= zeros(len as int));
    v
}

impl Ext4 {
    /// Maps a logical file block to a physical block number. `Ok(None)` means that the
    /// block is a hole (or unwritten) and reads as zeros.
    pub fn block_to_paddr(&self, inode: &Inode, logical: u64) -> (r: Result<Option<u64>>)
        requires
            self.wf(),
        ensures
            outcome(r) == paddr(self@, inode@, logical),
    {
        if inode.flags & EXT4_EXTENTS_FL != 0 {
            self.lookup_extent(inode, logical)
        } else {
            self.lookup_indirect(inode, logical)
        }
    }

    /// Appends an inode's data to `out`. On an error, what could be read before it has
    /// been appended.
    #[verifier::rlimit(40)]
    pub fn read_inode_data(&self, inode: &Inode, out: &mut Vec<u8>) -> (r: Result<()>)
        requires
            self.wf(),
        ensures
            final(out)@ == old(out)@ + file_data(self@, inode@).bytes,
            outcome(r) == file_data(self@, inode@).end,
    {
        if inode.flags & EXT4_INLINE_DATA_FL != 0 {
            let data = match self.inline_data(inode) {
                Ok(data) => data,
                Err(e) => {
                    assert(out@ =~= old(out)@ + Seq::<u8>::empty());
                    return Err(e);
                },
            };
            out.extend_from_slice(data.as_slice());
            return Ok(());
        }
        if inode.is_fast_symlink() {
            out.extend_from_slice(
                slice_subrange(inode.block_raw.as_slice(), 0, inode.size as usize),
            );
            assert(inode.block_raw@.subrange(0, inode.size as int)
                =~= inode.block_raw@.take(inode.size as int));
            return Ok(());
        }
        let mut remaining: u64 = inode.size;
        let mut logical: u64 = 0;
        let ghost all = mapped_data(self@, inode@, 0, inode.size as int);
        assert(old(out)@ + all.bytes =~= out@ + all.bytes);
        while remaining > 0
            invariant
                self.wf(),
                logical + remaining <= u64::MAX,
                old(out)@ + all.bytes == out@ + mapped_data(
                    self@,
                    inode@,
                    logical,
                    remaining as int,
                ).bytes,
                all.end == mapped_data(self@, inode@, logical, remaining as int).end,
                all == file_data(self@, inode@),
            decreases remaining,
        {
            let len: u64 = if remaining < self.block_size {
                remaining
            } else {
                self.block_size
            };
            let ghost rest = mapped_data(
                self@,
                inode@,
                (logical + 1) as u64,
                remaining - len,
            ).bytes;
            let ghost before = out@;
            match self.block_to_paddr(inode, logical) {
                Err(e) => {
                    assert(out@ + Seq::<u8>::empty() =~= out@);
                    return Err(e);
                },
                Ok(None) => {
                    let zero = zero_bytes(len as usize);
                    out.extend_from_slice(zero.as_slice());
                    assert(before + (zero@ + rest) =~= out@ + rest);
                },
                Ok(Some(p)) => match self.peek_block(p) {
                    Err(e) => {
                        assert(out@ + Seq::<u8>::empty() =~= out@);
                        return Err(e);
                    },
                    Ok(block) => {
                        out.extend_from_slice(slice_subrange(block.as_slice(), 0, len as usize));
                        assert(block@.subrange(0, len as int) =~= block@.take(len as int));
                        assert(before + (block@.take(len as int) + rest) =~= out@ + rest);
                    },
                },
            }
            remaining = remaining - len;
            logical = logical + 1;
        }
        assert(out@ + Seq::<u8>::empty() =~= out@);
        Ok(())
    }

    /// Piece `k` of an inode's data, for reading a file without holding all of it: the
    /// caller fetches the block that a piece names. `None` comes after the last piece.
    pub fn data_piece(&self, inode: &Inode, k: u64) -> (r: Result<Option<Piece>>)
        requires
            self.wf(),
        ensures
            match r {
                Ok(None) => piece_at(self@, inode@, k) == Ok::<_, Fault>(None::<PieceView>),
                Ok(Some(piece)) => piece_at(self@, inode@, k) == Ok::<_, Fault>(Some(piece@)),
                Err(e) => piece_at(self@, inode@, k) == Err::<Option<PieceView>, _>(e@),
            },
    {
        if inode.flags & EXT4_INLINE_DATA_FL != 0 {
            if k > 0 {
                return Ok(None);
            }
            let data = self.inline_data(inode)?;
            return Ok(Some(Piece::Bytes(data)));
        }
        if inode.is_fast_symlink() {
            if k > 0 {
                return Ok(None);
            }
            assert(inode.block_raw@.subrange(0, inode.size as int)
                =~= inode.block_raw@.take(inode.size as int));
            let target = slice_to_vec(
                slice_subrange(inode.block_raw.as_slice(), 0, inode.size as usize),
            );
            return Ok(Some(Piece::Bytes(target)));
        }
        if k >= div_ceil(inode.size, self.block_size) {
            return Ok(None);
        }
        proof {
            lemma_count(inode.size as int, self.block_size as int, k as int);
        }
        let left: u64 = inode.size - k * self.block_size;
        let len: u64 = if left < self.block_size {
            left
        } else {
            self.block_size
        };
        match self.block_to_paddr(inode, k)? {
            None => Ok(Some(Piece::Zeros(len))),
            Some(pblock) => Ok(Some(Piece::Block { pblock, len })),
        }
    }
}

/// Appends an inode's data to `out`; the same as the method of `fs`.
pub fn read_inode_data(fs: &Ext4, inode: &Inode, out: &mut Vec<u8>) -> (r: Result<()>)
    requires
        fs.wf(),
    ensures
        final(out)@ == old(out)@ + file_data(fs@, inode@).bytes,
        outcome(r) == file_data(fs@, inode@).end,
{
    fs.read_inode_data(inode, out)
}

} // verus!
