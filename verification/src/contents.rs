//! What the blocks of files and directories mean, stated on their bytes: which bytes a file has,
//! and which entries a directory lists.

use crate::data::{file_data, mapped_data, min, paddr, piece_at, piece_bytes, zeros, PieceView};
use crate::dir::{
    block_entries, blocks_between, dir_listing, dir_lookup, entries_of_blocks, entry_at,
    first_named, fixed_entry, index_leaves, node_leaves, DirEntryView,
};
use crate::error::{Fault, Outcome};
use crate::extent::node_lookup;
use crate::group::ceil_div;
use crate::indirect::indirect_lookup;
use crate::inode::InodeView;
use crate::ondisk::{
    is_corrupt, law_fields_are_little_endian, law_kinds_of_files, law_rounding_up, num,
};
use crate::text::lossy_text;
use crate::volume::{block_of, inline_bytes, VolumeView};
use vstd::prelude::*;

verus! {

/// Where the blocks of a file lie is in its extent tree if the inode says that it has one, and
/// else in its block map.
pub proof fn law_mapping_of_a_file(v: VolumeView, n: InodeView, k: u64)
    ensures
        paddr(v, n, k) == if n.flags / 0x8_0000 % 2 == 1 {
            node_lookup(v, n.block_raw, k, 0)
        } else {
            indirect_lookup(v, n, k)
        },
{
    law_kinds_of_files(n);
}

/// Whether the contents of an inode are in blocks of their own.
pub open spec fn in_blocks(n: InodeView) -> bool {
    &&& n.flags / 0x1000_0000 % 2 == 0
    &&& !(n.mode / 0x1000 == 10 && n.size <= 60 && n.blocks == 0)
}

/// Byte `x` of a file is byte `x` modulo the block size of the block where that part of the file
/// lies, and zero where no block does.
pub proof fn law_bytes_of_a_file(v: VolumeView, n: InodeView, x: int)
    requires
        v.wf(),
        in_blocks(n),
        file_data(v, n).end is Ok,
        0 <= x < n.size,
    ensures
        ({
            let bs = v.block_size as int;
            let at = paddr(v, n, (x / bs) as u64);
            &&& file_data(v, n).bytes.len() == n.size
            &&& at is Ok
            &&& at->Ok_0 is None ==> file_data(v, n).bytes[x] == 0
            &&& at->Ok_0 is Some ==> block_of(v, at->Ok_0->Some_0) is Ok && file_data(v, n).bytes[x]
                == block_of(v, at->Ok_0->Some_0)->Ok_0[x % bs]
        }),
{
    law_kinds_of_files(n);
    lemma_mapped_byte(v, n, 0, n.size as int, x);
}

proof fn lemma_mapped_byte(v: VolumeView, n: InodeView, k: int, left: int, x: int)
    requires
        v.wf(),
        0 <= k,
        k + left <= u64::MAX,
        0 <= x < left,
        mapped_data(v, n, k as u64, left).end is Ok,
    ensures
        ({
            let bs = v.block_size as int;
            let at = paddr(v, n, (k + x / bs) as u64);
            let bytes = mapped_data(v, n, k as u64, left).bytes;
            &&& bytes.len() == left
            &&& at is Ok
            &&& at->Ok_0 is None ==> bytes[x] == 0
            &&& at->Ok_0 is Some ==> block_of(v, at->Ok_0->Some_0) is Ok && bytes[x] == block_of(
                v,
                at->Ok_0->Some_0,
            )->Ok_0[x % bs]
        }),
    decreases left,
{
    let bs = v.block_size as int;
    let len = min(left, bs);
    lemma_rest_len(v, n, k + 1, left - len);
    if x < len {
        vstd::arithmetic::div_mod::lemma_basic_div(x, bs);
        vstd::arithmetic::div_mod::lemma_small_mod(x as nat, bs as nat);
    } else {
        lemma_mapped_byte(v, n, k + 1, left - len, x - len);
        vstd::arithmetic::div_mod::lemma_div_minus_one(x, bs);
        vstd::arithmetic::div_mod::lemma_mod_sub_multiples_vanish(x, bs);
    }
}

proof fn lemma_rest_len(v: VolumeView, n: InodeView, k: int, left: int)
    requires
        v.wf(),
        0 <= k,
        0 <= left,
        k + left <= u64::MAX + 1,
        mapped_data(v, n, k as u64, left).end is Ok,
    ensures
        mapped_data(v, n, k as u64, left).bytes.len() == left,
    decreases left,
{
    let len = min(left, v.block_size as int);
    if left > 0 {
        lemma_rest_len(v, n, k + 1, left - len);
    }
}

/// A file all of whose blocks can be found and read can be read.
pub proof fn law_readable_files(v: VolumeView, n: InodeView)
    requires
        v.wf(),
        in_blocks(n),
        forall|k: u64|
            k * v.block_size < n.size ==> (#[trigger] paddr(v, n, k)) is Ok && (paddr(
                v,
                n,
                k,
            )->Ok_0 is Some ==> block_of(v, paddr(v, n, k)->Ok_0->Some_0) is Ok),
    ensures
        file_data(v, n).end is Ok,
{
    law_kinds_of_files(n);
    assert(0 * v.block_size == 0);
    lemma_readable(v, n, 0, n.size as int);
}

proof fn lemma_readable(v: VolumeView, n: InodeView, k: int, left: int)
    requires
        v.wf(),
        0 <= k,
        k + left <= u64::MAX + 1,
        k * v.block_size + left == n.size,
        forall|k: u64|
            k * v.block_size < n.size ==> (#[trigger] paddr(v, n, k)) is Ok && (paddr(
                v,
                n,
                k,
            )->Ok_0 is Some ==> block_of(v, paddr(v, n, k)->Ok_0->Some_0) is Ok),
    ensures
        mapped_data(v, n, k as u64, left).end is Ok,
    decreases left,
{
    let bs = v.block_size as int;
    let len = min(left, bs);
    if left > 0 {
        assert(paddr(v, n, k as u64) is Ok);
        if left > bs {
            assert((k + 1) * bs == k * bs + bs) by (nonlinear_arith);
            lemma_readable(v, n, k + 1, left - len);
        }
    }
}

/// A file is read up to the first block that cannot be found or read, and ends with what keeps it
/// from being so.
pub proof fn law_unreadable_files(v: VolumeView, n: InodeView, k: u64, e: Fault)
    requires
        v.wf(),
        in_blocks(n),
        k * v.block_size < n.size,
        forall|j: u64|
            j < k ==> (#[trigger] paddr(v, n, j)) is Ok && (paddr(v, n, j)->Ok_0 is Some ==> block_of(
                v,
                paddr(v, n, j)->Ok_0->Some_0,
            ) is Ok),
        paddr(v, n, k) == Err::<Option<u64>, _>(e) || (paddr(v, n, k) is Ok && paddr(
            v,
            n,
            k,
        )->Ok_0 is Some && block_of(v, paddr(v, n, k)->Ok_0->Some_0) == Err::<Seq<u8>, _>(e)),
    ensures
        file_data(v, n).end == Err::<(), _>(e),
        file_data(v, n).bytes.len() == k * v.block_size,
{
    law_kinds_of_files(n);
    assert(0 * v.block_size == 0);
    lemma_unreadable(v, n, 0, n.size as int, k, e);
}

proof fn lemma_unreadable(v: VolumeView, n: InodeView, i: int, left: int, k: u64, e: Fault)
    requires
        v.wf(),
        0 <= i <= k,
        i * v.block_size + left == n.size,
        k * v.block_size < n.size,
        forall|j: u64|
            j < k ==> (#[trigger] paddr(v, n, j)) is Ok && (paddr(v, n, j)->Ok_0 is Some ==> block_of(
                v,
                paddr(v, n, j)->Ok_0->Some_0,
            ) is Ok),
        paddr(v, n, k) == Err::<Option<u64>, _>(e) || (paddr(v, n, k) is Ok && paddr(
            v,
            n,
            k,
        )->Ok_0 is Some && block_of(v, paddr(v, n, k)->Ok_0->Some_0) == Err::<Seq<u8>, _>(e)),
    ensures
        mapped_data(v, n, i as u64, left).end == Err::<(), _>(e),
        mapped_data(v, n, i as u64, left).bytes.len() == (k - i) * v.block_size,
    decreases k - i,
{
    let bs = v.block_size as int;
    let len = min(left, bs);
    assert(i * bs <= k * bs && (i < k ==> (i + 1) * bs == i * bs + bs && (i + 1) * bs <= k * bs))
        by (nonlinear_arith)
        requires
            0 <= i <= k,
            bs > 0,
    ;
    if i < k {
        assert(paddr(v, n, i as u64) is Ok);
        lemma_unreadable(v, n, i + 1, left - len, k, e);
        assert((k - i) * bs == (k - i - 1) * bs + bs) by (nonlinear_arith);
    } else {
        assert((k - i) * bs == 0) by (nonlinear_arith)
            requires
                k == i,
        ;
    }
}

/// A short symbolic link keeps its target in the inode, in place of the numbers of blocks.
pub proof fn law_short_links(v: VolumeView, n: InodeView)
    requires
        n.flags / 0x1000_0000 % 2 == 0,
        n.mode / 0x1000 == 10,
        n.size <= 60,
        n.blocks == 0,
        n.block_raw.len() == 60,
    ensures
        file_data(v, n).end is Ok,
        file_data(v, n).bytes.len() == n.size,
        forall|i: int| 0 <= i < n.size ==> file_data(v, n).bytes[i] == #[trigger] n.block_raw[i],
{
    law_kinds_of_files(n);
}

/// Inline data is all that a file with inline data has.
pub proof fn law_inline_files(v: VolumeView, n: InodeView)
    requires
        n.flags / 0x1000_0000 % 2 == 1,
    ensures
        inline_bytes(v, n) is Ok ==> file_data(v, n).end is Ok && file_data(v, n).bytes
            == inline_bytes(v, n)->Ok_0,
        inline_bytes(v, n) is Err ==> file_data(v, n).end == Err::<(), _>(
            inline_bytes(v, n)->Err_0,
        ),
{
    law_kinds_of_files(n);
}

/// A file in blocks has as many pieces as blocks: piece `k` is what the file has of its block
/// `k`, of which only the last may be cut short.
pub proof fn law_pieces_of_a_file(v: VolumeView, n: InodeView, k: u64)
    requires
        v.wf(),
        in_blocks(n),
    ensures
        k * v.block_size >= n.size ==> piece_at(v, n, k) == Ok::<_, Fault>(None::<PieceView>),
        k * v.block_size < n.size ==> ({
            let left = n.size - k * v.block_size;
            let len = if left < v.block_size {
                left
            } else {
                v.block_size as int
            };
            match paddr(v, n, k) {
                Err(e) => piece_at(v, n, k) == Err::<Option<PieceView>, _>(e),
                Ok(None) => piece_at(v, n, k) == Ok::<_, Fault>(
                    Some(PieceView::Zeros(len as u64)),
                ),
                Ok(Some(p)) => piece_at(v, n, k) == Ok::<_, Fault>(
                    Some(PieceView::Block { pblock: p, len: len as u64 }),
                ),
            }
        }),
{
    law_kinds_of_files(n);
    lemma_count_of(n.size as int, v.block_size as int, k as int);
}

proof fn lemma_count_of(size: int, bs: int, k: int)
    requires
        size >= 0,
        bs > 0,
        k >= 0,
    ensures
        k < ceil_div(size, bs) <==> k * bs < size,
        0 <= ceil_div(size, bs) <= size,
{
    law_rounding_up(size, bs);
    let c = ceil_div(size, bs);
    assert((k < c <==> k * bs < size) && c <= size) by (nonlinear_arith)
        requires
            c * bs >= size,
            (c - 1) * bs < size,
            bs > 0,
            size >= 0,
    ;
}

/// What is kept in the inode is one piece.
pub proof fn law_pieces_in_the_inode(v: VolumeView, n: InodeView, k: u64)
    requires
        !in_blocks(n),
    ensures
        k > 0 ==> piece_at(v, n, k) == Ok::<_, Fault>(None::<PieceView>),
        file_data(v, n).end is Ok ==> piece_at(v, n, 0) == Ok::<_, Fault>(
            Some(PieceView::Bytes(file_data(v, n).bytes)),
        ),
        file_data(v, n).end is Err ==> piece_at(v, n, 0) == Err::<Option<PieceView>, _>(
            file_data(v, n).end->Err_0,
        ),
{
    law_kinds_of_files(n);
}

/// What the bytes of a piece are: those that it holds, zeros, or the first of a block.
pub proof fn law_bytes_of_a_piece(v: VolumeView, b: Seq<u8>, p: u64, len: u64)
    ensures
        piece_bytes(v, PieceView::Bytes(b)) == Ok::<_, Fault>(b),
        piece_bytes(v, PieceView::Zeros(len)) == Ok::<_, Fault>(Seq::new(len as nat, |i: int| 0u8)),
        block_of(v, p) is Ok ==> piece_bytes(v, PieceView::Block { pblock: p, len }) == Ok::<
            _,
            Fault,
        >(block_of(v, p)->Ok_0.take(len as int)),
        block_of(v, p) is Err ==> piece_bytes(v, PieceView::Block { pblock: p, len }) == Err::<
            Seq<u8>,
            _,
        >(block_of(v, p)->Err_0),
{
    assert(zeros(len as int) =~= Seq::new(len as nat, |i: int| 0u8));
}

/// The length that the record at `o` gives to its name.
pub open spec fn stored_len(filetype: bool, b: Seq<u8>, o: int) -> int {
    if filetype {
        b[o + 6] as int
    } else {
        num(b, o + 6, 2)
    }
}

/// The entry that the record at `o` of a directory block stands for.
pub open spec fn record(filetype: bool, b: Seq<u8>, o: int, rec_len: u16) -> DirEntryView {
    DirEntryView {
        ino: num(b, o, 4) as u32,
        rec_len,
        name: lossy_text(b.subrange(o + 8, o + 8 + stored_len(filetype, b, o))),
        file_type: if filetype {
            b[o + 7]
        } else {
            0
        },
    }
}

/// Whether records lie at `offs`, each as long as it says, the first at the start of the block
/// and the last up to `end`.
pub open spec fn records(filetype: bool, b: Seq<u8>, offs: Seq<int>, end: int) -> bool {
    &&& if offs.len() == 0 {
        end == 0
    } else {
        offs[0] == 0
    }
    &&& forall|i: int|
        0 <= i < offs.len() ==> {
            let next = if i + 1 < offs.len() {
                offs[i + 1]
            } else {
                end
            };
            &&& 0 <= #[trigger] offs[i] < next <= b.len()
            &&& offs[i] + 8 <= b.len()
            &&& num(b, offs[i] + 4, 2) == next - offs[i]
            &&& num(b, offs[i], 4) != 0 ==> offs[i] + 8 + stored_len(filetype, b, offs[i])
                <= b.len()
        }
}

/// The entries in use among the records at `offs`.
pub open spec fn in_use(filetype: bool, b: Seq<u8>, offs: Seq<int>) -> Seq<DirEntryView> {
    offs.filter(|o: int| num(b, o, 4) != 0).map_values(
        |o: int| record(filetype, b, o, num(b, o + 4, 2) as u16),
    )
}

proof fn lemma_in_use(filetype: bool, b: Seq<u8>, offs: Seq<int>, i: int)
    requires
        0 <= i < offs.len(),
    ensures
        in_use(filetype, b, offs.skip(i)) == if num(b, offs[i], 4) != 0 {
            seq![record(filetype, b, offs[i], num(b, offs[i] + 4, 2) as u16)] + in_use(
                filetype,
                b,
                offs.skip(i + 1),
            )
        } else {
            in_use(filetype, b, offs.skip(i + 1))
        },
{
    let pred = |o: int| num(b, o, 4) != 0;
    let f = |o: int| record(filetype, b, o, num(b, o + 4, 2) as u16);
    let o = offs[i];
    let head = seq![o];
    let rest = offs.skip(i + 1).filter(pred);
    assert(offs.skip(i) =~= head + offs.skip(i + 1));
    Seq::filter_distributes_over_add(head, offs.skip(i + 1), pred);
    reveal_with_fuel(Seq::filter, 2);
    assert(head.drop_last() =~= Seq::empty());
    if pred(o) {
        assert(head.filter(pred) =~= head);
        assert((head + rest).map_values(f) =~= seq![f(o)] + rest.map_values(f));
    } else {
        assert(head.filter(pred) =~= Seq::empty());
        assert(Seq::<int>::empty() + rest =~= rest);
    }
}

proof fn lemma_record_step(filetype: bool, b: Seq<u8>, o: int)
    requires
        0 <= o,
        o + 8 <= b.len(),
        0 < num(b, o + 4, 2) <= b.len() - o,
        num(b, o, 4) != 0 ==> o + 8 + stored_len(filetype, b, o) <= b.len(),
    ensures
        block_entries(filetype, b, o) == match block_entries(filetype, b, o + num(b, o + 4, 2)) {
            Ok(rest) => Ok(
                if num(b, o, 4) != 0 {
                    seq![record(filetype, b, o, num(b, o + 4, 2) as u16)] + rest
                } else {
                    rest
                },
            ),
            Err(e) => Err(e),
        },
{
    law_fields_are_little_endian(b, o);
    law_fields_are_little_endian(b, o + 4);
    law_fields_are_little_endian(b, o + 6);
    assert(record(filetype, b, o, num(b, o + 4, 2) as u16) == entry_at(
        filetype,
        b,
        o,
        num(b, o + 4, 2) as u16,
    ));
}

proof fn lemma_records(filetype: bool, b: Seq<u8>, offs: Seq<int>, end: int, i: int)
    requires
        records(filetype, b, offs, end),
        0 <= i <= offs.len(),
    ensures
        ({
            let at = if i < offs.len() {
                offs[i]
            } else {
                end
            };
            block_entries(filetype, b, at) == match block_entries(filetype, b, end) {
                Ok(rest) => Ok(in_use(filetype, b, offs.skip(i)) + rest),
                Err(e) => Err(e),
            }
        }),
    decreases offs.len() - i,
{
    if i < offs.len() {
        let o = offs[i];
        lemma_records(filetype, b, offs, end, i + 1);
        lemma_in_use(filetype, b, offs, i);
        lemma_record_step(filetype, b, o);
        let here = record(filetype, b, o, num(b, o + 4, 2) as u16);
        let rest = in_use(filetype, b, offs.skip(i + 1));
        if let Ok(tail) = block_entries(filetype, b, end) {
            assert(seq![here] + (rest + tail) =~= (seq![here] + rest) + tail);
        }
    } else {
        assert(offs.skip(i) =~= Seq::empty());
        assert(in_use(filetype, b, offs.skip(i)) =~= Seq::empty()) by {
            reveal_with_fuel(Seq::filter, 2);
        }
        if let Ok(tail) = block_entries(filetype, b, end) {
            assert(Seq::<DirEntryView>::empty() + tail =~= tail);
        }
    }
}

/// A directory block lists its records that are in use, in their order, up to where no more fits
/// or a record has no length.
pub proof fn law_block_lists_its_records(filetype: bool, b: Seq<u8>, offs: Seq<int>, end: int)
    requires
        records(filetype, b, offs, end),
        end + 8 > b.len() || num(b, end + 4, 2) == 0,
    ensures
        block_entries(filetype, b, 0) == Ok::<_, Fault>(in_use(filetype, b, offs)),
{
    law_fields_are_little_endian(b, end + 4);
    lemma_records(filetype, b, offs, end, 0);
    assert(offs.skip(0) =~= offs);
    assert(in_use(filetype, b, offs) + Seq::empty() =~= in_use(filetype, b, offs));
}

/// A record that is longer than what is left of the block, or whose name is, is a defect.
pub proof fn law_records_stay_in_their_block(filetype: bool, b: Seq<u8>, offs: Seq<int>, end: int)
    requires
        records(filetype, b, offs, end),
        end + 8 <= b.len(),
        num(b, end + 4, 2) > 0,
        end + num(b, end + 4, 2) > b.len() || (num(b, end, 4) != 0 && end + 8 + stored_len(
            filetype,
            b,
            end,
        ) > b.len()),
    ensures
        is_corrupt(block_entries(filetype, b, 0)),
{
    law_fields_are_little_endian(b, end);
    law_fields_are_little_endian(b, end + 4);
    law_fields_are_little_endian(b, end + 6);
    lemma_records(filetype, b, offs, end, 0);
}

/// What logical block `lb` of a directory lists, if it can be read: nothing where there is a hole.
pub open spec fn listed_by(v: VolumeView, n: InodeView, lb: u64) -> Outcome<Seq<DirEntryView>> {
    match paddr(v, n, lb) {
        Err(e) => Err(e),
        Ok(None) => Ok(Seq::empty()),
        Ok(Some(p)) => match block_of(v, p) {
            Err(e) => Err(e),
            Ok(b) => block_entries(v.filetype, b, 0),
        },
    }
}

/// Whether the inode is a directory without a hash tree.
pub open spec fn is_linear_dir(n: InodeView) -> bool {
    n.mode / 0x1000 == 4 && n.flags / 0x1000 % 2 == 0
}

proof fn lemma_linear(v: VolumeView, n: InodeView, lb: int, c: int, lists: Seq<Seq<DirEntryView>>)
    requires
        0 <= lb <= c <= u64::MAX,
        lists.len() == c,
        forall|k: u64| k < c ==> #[trigger] listed_by(v, n, k) == Ok::<_, Fault>(lists[k as int]),
    ensures
        ({
            let blocks = blocks_between(v, n, lb as u64, c as u64);
            &&& blocks is Ok
            &&& entries_of_blocks(v, blocks->Ok_0, 0) == Ok::<_, Fault>(lists.skip(lb).flatten())
        }),
    decreases c - lb,
{
    if lb < c {
        lemma_linear(v, n, lb + 1, c, lists);
        let rest = blocks_between(v, n, (lb + 1) as u64, c as u64)->Ok_0;
        assert(listed_by(v, n, lb as u64) == Ok::<_, Fault>(lists[lb]));
        assert(lists.skip(lb).drop_first() =~= lists.skip(lb + 1));
        assert(lists.skip(lb).first() == lists[lb]);
        match paddr(v, n, lb as u64)->Ok_0 {
            None => {
                assert(lists[lb] + lists.skip(lb + 1).flatten() =~= lists.skip(lb + 1).flatten());
            },
            Some(p) => {
                lemma_shifted_blocks(v, seq![p], rest, 0);
                assert((seq![p] + rest)[0] == p);
            },
        }
    } else {
        assert(lists.skip(lb) =~= Seq::empty());
    }
}

proof fn lemma_shifted_blocks(v: VolumeView, first: Seq<u64>, rest: Seq<u64>, i: int)
    requires
        0 <= i,
    ensures
        entries_of_blocks(v, first + rest, first.len() + i) == entries_of_blocks(v, rest, i),
    decreases rest.len() - i,
{
    if i < rest.len() {
        assert((first + rest)[first.len() + i] == rest[i]);
        lemma_shifted_blocks(v, first, rest, i + 1);
    }
}

/// A directory without a hash tree lists what each of its blocks lists, one block after the
/// other, for all the blocks that its size takes.
pub proof fn law_linear_directory(
    v: VolumeView,
    n: InodeView,
    c: int,
    lists: Seq<Seq<DirEntryView>>,
)
    requires
        v.wf(),
        is_linear_dir(n),
        c * v.block_size >= n.size,
        (c - 1) * v.block_size < n.size,
        c >= 0,
        lists.len() == c,
        forall|k: u64| k < c ==> #[trigger] listed_by(v, n, k) == Ok::<_, Fault>(lists[k as int]),
    ensures
        dir_listing(v, n) == Ok::<_, Fault>(lists.flatten()),
{
    law_kinds_of_files(n);
    lemma_count_of(n.size as int, v.block_size as int, c);
    if c > 0 {
        lemma_count_of(n.size as int, v.block_size as int, c - 1);
    }
    assert(c == ceil_div(n.size as int, v.block_size as int));
    lemma_linear(v, n, 0, c, lists);
    assert(lists.skip(0) =~= lists);
}

proof fn lemma_listed(v: VolumeView, n: InodeView, lb: int, c: int, k: int)
    requires
        0 <= lb <= k < c <= u64::MAX,
        blocks_between(v, n, lb as u64, c as u64) is Ok,
        entries_of_blocks(v, blocks_between(v, n, lb as u64, c as u64)->Ok_0, 0) is Ok,
    ensures
        ({
            let all = entries_of_blocks(v, blocks_between(v, n, lb as u64, c as u64)->Ok_0, 0)
                ->Ok_0;
            &&& listed_by(v, n, k as u64) is Ok
            &&& forall|e: DirEntryView| #[trigger]
                listed_by(v, n, k as u64)->Ok_0.contains(e) ==> all.contains(e)
        }),
    decreases c - lb,
{
    let blocks = blocks_between(v, n, lb as u64, c as u64)->Ok_0;
    let rest = blocks_between(v, n, (lb + 1) as u64, c as u64)->Ok_0;
    let all = entries_of_blocks(v, blocks, 0)->Ok_0;
    assert(paddr(v, n, lb as u64) is Ok);
    match paddr(v, n, lb as u64)->Ok_0 {
        None => {
            if k > lb {
                lemma_listed(v, n, lb + 1, c, k);
            }
        },
        Some(p) => {
            assert(blocks =~= seq![p] + rest);
            lemma_shifted_blocks(v, seq![p], rest, 0);
            assert(blocks[0] == p);
            let here = block_entries(v.filetype, block_of(v, p)->Ok_0, 0)->Ok_0;
            let tail = entries_of_blocks(v, rest, 0)->Ok_0;
            assert(all == here + tail);
            if k > lb {
                lemma_listed(v, n, lb + 1, c, k);
                assert forall|e: DirEntryView| #[trigger]
                    listed_by(v, n, k as u64)->Ok_0.contains(e) implies all.contains(e) by {
                    let i = choose|i: int| 0 <= i < tail.len() && tail[i] == e;
                    assert(all[here.len() + i] == e);
                }
            } else {
                assert forall|e: DirEntryView| #[trigger]
                    listed_by(v, n, k as u64)->Ok_0.contains(e) implies all.contains(e) by {
                    let i = choose|i: int| 0 <= i < here.len() && here[i] == e;
                    assert(all[i] == e);
                }
            }
        },
    }
}

/// Nothing that a block of a directory lists is missing from the listing, up to and with the
/// block that the directory's last byte lies in.
pub proof fn law_no_entry_is_left_out(v: VolumeView, n: InodeView, k: u64)
    requires
        v.wf(),
        is_linear_dir(n),
        dir_listing(v, n) is Ok,
        k * v.block_size < n.size,
    ensures
        listed_by(v, n, k) is Ok,
        forall|e: DirEntryView| #[trigger]
            listed_by(v, n, k)->Ok_0.contains(e) ==> dir_listing(v, n)->Ok_0.contains(e),
{
    law_kinds_of_files(n);
    let c = ceil_div(n.size as int, v.block_size as int);
    lemma_count_of(n.size as int, v.block_size as int, k as int);
    lemma_listed(v, n, 0, c, k as int);
}

/// What entry `i` of an index block that begins its entries at `start` leads to: a leaf of the
/// directory, or all the leaves below another index block.
pub open spec fn indexed_by(
    v: VolumeView,
    n: InodeView,
    b: Seq<u8>,
    start: int,
    i: int,
    level: nat,
) -> Outcome<Seq<u64>> {
    let lb = num(b, start + 8 * i + 4, 4) as u64;
    if level > 0 {
        node_leaves(v, n, lb, (level - 1) as nat)
    } else {
        match paddr(v, n, lb) {
            Ok(Some(p)) => Ok(seq![p]),
            Ok(None) => Err(Fault::Corrupt("indexed dir leaf block is a hole"@)),
            Err(e) => Err(e),
        }
    }
}

proof fn lemma_index(
    v: VolumeView,
    n: InodeView,
    b: Seq<u8>,
    start: int,
    i: int,
    level: nat,
    subs: Seq<Seq<u64>>,
)
    requires
        0 <= i <= subs.len(),
        start + 8 * subs.len() <= b.len(),
        forall|k: int|
            0 <= k < subs.len() ==> #[trigger] indexed_by(v, n, b, start, k, level) == Ok::<
                _,
                Fault,
            >(subs[k]),
    ensures
        index_leaves(v, n, b, start, subs.len() as int, i, level) == Ok::<_, Fault>(
            subs.skip(i).flatten(),
        ),
    decreases subs.len() - i,
{
    if i < subs.len() {
        lemma_index(v, n, b, start, i + 1, level, subs);
        law_fields_are_little_endian(b, start + 8 * i + 4);
        assert(indexed_by(v, n, b, start, i, level) == Ok::<_, Fault>(subs[i]));
        assert(subs.skip(i).drop_first() =~= subs.skip(i + 1));
        assert(subs.skip(i).first() == subs[i]);
    } else {
        assert(subs.skip(i) =~= Seq::empty());
    }
}

/// The leaves below an index block are those that its entries lead to, in their order. An entry
/// is eight bytes long, and the last four are the block that it leads to.
pub proof fn law_index_block(
    v: VolumeView,
    n: InodeView,
    b: Seq<u8>,
    start: int,
    level: nat,
    subs: Seq<Seq<u64>>,
)
    requires
        start + 8 * subs.len() <= b.len(),
        forall|k: int|
            0 <= k < subs.len() ==> #[trigger] indexed_by(v, n, b, start, k, level) == Ok::<
                _,
                Fault,
            >(subs[k]),
    ensures
        index_leaves(v, n, b, start, subs.len() as int, 0, level) == Ok::<_, Fault>(
            subs.flatten(),
        ),
{
    lemma_index(v, n, b, start, 0, level, subs);
    assert(subs.skip(0) =~= subs);
}

/// Nothing that an index block leads to is left out: its leaves are had only if each of its
/// entries leads to some.
pub proof fn law_no_leaf_is_left_out(
    v: VolumeView,
    n: InodeView,
    b: Seq<u8>,
    start: int,
    count: int,
    level: nat,
    k: int,
)
    requires
        index_leaves(v, n, b, start, count, 0, level) is Ok,
        0 <= k < count,
    ensures
        start + 8 * k + 8 <= b.len(),
        indexed_by(v, n, b, start, k, level) is Ok,
{
    lemma_no_leaf(v, n, b, start, count, 0, level, k);
}

proof fn lemma_no_leaf(
    v: VolumeView,
    n: InodeView,
    b: Seq<u8>,
    start: int,
    count: int,
    i: int,
    level: nat,
    k: int,
)
    requires
        index_leaves(v, n, b, start, count, i, level) is Ok,
        0 <= i <= k < count,
    ensures
        start + 8 * k + 8 <= b.len(),
        indexed_by(v, n, b, start, k, level) is Ok,
    decreases k - i,
{
    if i < k {
        lemma_no_leaf(v, n, b, start, count, i + 1, level, k);
    } else {
        law_fields_are_little_endian(b, start + 8 * i + 4);
    }
}

/// An index block below the root begins its entries at byte 8, and has their number at byte 10.
pub proof fn law_inner_index_block(
    v: VolumeView,
    n: InodeView,
    lb: u64,
    level: nat,
    p: u64,
    b: Seq<u8>,
    subs: Seq<Seq<u64>>,
)
    requires
        paddr(v, n, lb) == Ok::<_, Fault>(Some(p)),
        block_of(v, p) == Ok::<_, Fault>(b),
        num(b, 10, 2) == subs.len(),
        8 + 8 * subs.len() <= b.len(),
        forall|k: int|
            0 <= k < subs.len() ==> #[trigger] indexed_by(v, n, b, 8, k, level) == Ok::<_, Fault>(
                subs[k],
            ),
    ensures
        node_leaves(v, n, lb, level) == Ok::<_, Fault>(subs.flatten()),
{
    law_fields_are_little_endian(b, 10);
    law_index_block(v, n, b, 8, level, subs);
}

proof fn lemma_leaf_entries(v: VolumeView, leaves: Seq<u64>, i: int, lists: Seq<Seq<DirEntryView>>)
    requires
        0 <= i <= leaves.len(),
        lists.len() == leaves.len(),
        forall|k: int|
            0 <= k < leaves.len() ==> block_of(v, #[trigger] leaves[k]) is Ok && block_entries(
                v.filetype,
                block_of(v, leaves[k])->Ok_0,
                0,
            ) == Ok::<_, Fault>(lists[k]),
    ensures
        entries_of_blocks(v, leaves, i) == Ok::<_, Fault>(lists.skip(i).flatten()),
    decreases leaves.len() - i,
{
    if i < leaves.len() {
        lemma_leaf_entries(v, leaves, i + 1, lists);
        assert(lists.skip(i).drop_first() =~= lists.skip(i + 1));
        assert(lists.skip(i).first() == lists[i]);
        assert(block_of(v, leaves[i]) is Ok);
    } else {
        assert(lists.skip(i) =~= Seq::empty());
    }
}

/// A directory with a hash tree lists the two entries at the start of its first block and what
/// its leaves list. The tree's header is at byte 24 of that block: its length is at byte 29 and
/// the number of its inner levels at byte 30. The entries of the root follow it, and have their
/// number in their third byte.
pub proof fn law_indexed_directory(
    v: VolumeView,
    n: InodeView,
    p: u64,
    b: Seq<u8>,
    subs: Seq<Seq<u64>>,
    lists: Seq<Seq<DirEntryView>>,
)
    requires
        n.mode / 0x1000 == 4,
        n.flags / 0x1000 % 2 == 1,
        paddr(v, n, 0) == Ok::<_, Fault>(Some(p)),
        block_of(v, p) == Ok::<_, Fault>(b),
        num(b, 0, 4) != 0,
        num(b, 12, 4) != 0,
        8 + stored_len(v.filetype, b, 0) <= b.len(),
        20 + stored_len(v.filetype, b, 12) <= b.len(),
        num(b, 26 + b[29], 2) == subs.len(),
        24 + b[29] + 8 * subs.len() <= b.len(),
        forall|k: int|
            0 <= k < subs.len() ==> #[trigger] indexed_by(v, n, b, 24 + b[29], k, b[30] as nat)
                == Ok::<_, Fault>(subs[k]),
        lists.len() == subs.flatten().len(),
        forall|k: int|
            0 <= k < subs.flatten().len() ==> block_of(v, #[trigger] subs.flatten()[k]) is Ok
                && block_entries(v.filetype, block_of(v, subs.flatten()[k])->Ok_0, 0) == Ok::<
                _,
                Fault,
            >(lists[k]),
    ensures
        dir_listing(v, n) == Ok::<_, Fault>(
            seq![record(v.filetype, b, 0, 0), record(v.filetype, b, 12, 0)] + lists.flatten(),
        ),
{
    law_kinds_of_files(n);
    let start = 24 + b[29];
    law_fields_are_little_endian(b, 0);
    law_fields_are_little_endian(b, 6);
    law_fields_are_little_endian(b, 12);
    law_fields_are_little_endian(b, 18);
    law_fields_are_little_endian(b, start + 2);
    law_index_block(v, n, b, start, b[30] as nat, subs);
    lemma_leaf_entries(v, subs.flatten(), 0, lists);
    assert(lists.skip(0) =~= lists);
    let dot = record(v.filetype, b, 0, 0);
    let dotdot = record(v.filetype, b, 12, 0);
    assert(dot == entry_at(v.filetype, b, 0, 0));
    assert(dotdot == entry_at(v.filetype, b, 12, 0));
    assert(seq![dot] + seq![dotdot] =~= seq![dot, dotdot]);
}

/// The two entries at the start of the first block are listed if they are in use.
pub proof fn law_fixed_entries(filetype: bool, b: Seq<u8>, o: int)
    ensures
        num(b, o, 4) == 0 ==> fixed_entry(filetype, b, o) == Ok::<_, Fault>(
            Seq::<DirEntryView>::empty(),
        ),
        num(b, o, 4) != 0 && o + 8 + stored_len(filetype, b, o) <= b.len() ==> fixed_entry(
            filetype,
            b,
            o,
        ) == Ok::<_, Fault>(seq![record(filetype, b, o, 0)]),
        num(b, o, 4) != 0 && o + 8 + stored_len(filetype, b, o) > b.len() ==> is_corrupt(
            fixed_entry(filetype, b, o),
        ),
{
    law_fields_are_little_endian(b, o);
    law_fields_are_little_endian(b, o + 6);
}

/// A hash tree needs its root: without it, or where any part of the tree cannot be had, nothing
/// is listed.
pub proof fn law_indexed_directory_needs_its_tree(v: VolumeView, n: InodeView, p: u64, b: Seq<u8>)
    requires
        n.mode / 0x1000 == 4,
        n.flags / 0x1000 % 2 == 1,
    ensures
        paddr(v, n, 0) == Ok::<_, Fault>(None::<u64>) ==> is_corrupt(dir_listing(v, n)),
        paddr(v, n, 0) is Err ==> dir_listing(v, n) == Err::<Seq<DirEntryView>, _>(
            paddr(v, n, 0)->Err_0,
        ),
        dir_listing(v, n) is Ok && paddr(v, n, 0) == Ok::<_, Fault>(Some(p)) && block_of(v, p)
            == Ok::<_, Fault>(b) ==> {
            let leaves = index_leaves(
                v,
                n,
                b,
                24 + b[29],
                num(b, 26 + b[29], 2),
                0,
                b[30] as nat,
            );
            &&& leaves is Ok
            &&& fixed_entry(v.filetype, b, 0) is Ok
            &&& fixed_entry(v.filetype, b, 12) is Ok
            &&& entries_of_blocks(v, leaves->Ok_0, 0) is Ok
            &&& dir_listing(v, n)->Ok_0 == fixed_entry(v.filetype, b, 0)->Ok_0 + fixed_entry(
                v.filetype,
                b,
                12,
            )->Ok_0 + entries_of_blocks(v, leaves->Ok_0, 0)->Ok_0
        },
{
    law_kinds_of_files(n);
    law_fields_are_little_endian(b, 26 + b[29]);
}

/// What is not a directory lists nothing.
pub proof fn law_only_directories_list(v: VolumeView, n: InodeView)
    requires
        n.mode / 0x1000 != 4,
    ensures
        dir_listing(v, n) == Err::<Seq<DirEntryView>, _>(Fault::NotDir(n.ino)),
{
    law_kinds_of_files(n);
}

/// Looking for a name gives the first entry that has it: its inode and its type.
pub proof fn law_lookup_gives_the_first(v: VolumeView, n: InodeView, name: Seq<char>, i: int)
    requires
        dir_listing(v, n) is Ok,
        0 <= i <= dir_listing(v, n)->Ok_0.len(),
        forall|k: int| 0 <= k < i ==> (#[trigger] dir_listing(v, n)->Ok_0[k]).name != name,
        i < dir_listing(v, n)->Ok_0.len() ==> dir_listing(v, n)->Ok_0[i].name == name,
    ensures
        ({
            let all = dir_listing(v, n)->Ok_0;
            dir_lookup(v, n, name) == Ok::<_, Fault>(
                if i < all.len() {
                    Some((all[i].ino, all[i].file_type))
                } else {
                    None
                },
            )
        }),
{
    lemma_first(dir_listing(v, n)->Ok_0, name, i);
}

proof fn lemma_first(all: Seq<DirEntryView>, name: Seq<char>, i: int)
    requires
        0 <= i <= all.len(),
        forall|k: int| 0 <= k < i ==> (#[trigger] all[k]).name != name,
        i < all.len() ==> all[i].name == name,
    ensures
        first_named(all, name) == if i < all.len() {
            Some(all[i])
        } else {
            None
        },
    decreases all.len(),
{
    if i > 0 {
        assert(all[0].name != name);
        assert forall|k: int| 0 <= k < i - 1 implies (#[trigger] all.skip(1)[k]).name != name by {
            assert(all.skip(1)[k] == all[k + 1]);
        }
        lemma_first(all.skip(1), name, i - 1);
    }
}

} // verus!
