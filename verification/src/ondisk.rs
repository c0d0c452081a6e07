//! What the structures on a disk mean, stated on their bytes: the numbers in them, the fields of
//! superblock, group descriptors and inodes, where inodes and blocks lie, and how a file's blocks
//! are found.

use crate::bytes::{field_text, le16, le32, le64, lemma_before_nul, wide};
use crate::dir::entry_overrun;
use crate::error::{Fault, Outcome};
use crate::extent::{extent_at, extent_entry, index_prefix, leaf_lookup, node_lookup};
use crate::group::{ceil_div, group_desc, groups_of, spec_first_gdt_block};
use crate::indirect::{indirect_lookup, law_tree_indices, lemma_spans};
use crate::inode::{inode_of, Inode, InodeView};
use crate::superblock::{bad_magic_text, has_magic, Superblock};
use crate::text::{decimal, lossy_text, radix};
use crate::volume::{
    block_of, block_start, bytes_across, bytes_at, inline_bytes, inline_overrun, inode_at,
    inode_bytes, layout_fault, Ext4, Layout, VolumeView,
};
use vstd::arithmetic::div_mod::{lemma_fundamental_div_mod, lemma_fundamental_div_mod_converse};
use vstd::arithmetic::power2::{lemma2_to64, lemma_pow2_strictly_increases, lemma_pow2_unfold};
use vstd::prelude::*;
use vstd::string::*;

verus! {

/// The number that `n` bytes from `o` on write, the lowest first.
pub open spec fn num(b: Seq<u8>, o: int, n: nat) -> int
    decreases n,
{
    if n == 0 {
        0
    } else {
        b[o] + 0x100 * num(b, o + 1, (n - 1) as nat)
    }
}

/// Whether the volume was found to be damaged.
pub open spec fn is_corrupt<T>(o: Outcome<T>) -> bool {
    o is Err && o->Err_0 is Corrupt
}

/// A field of two, four or eight bytes is the number that its bytes write.
pub proof fn law_fields_are_little_endian(b: Seq<u8>, o: int)
    ensures
        le16(b, o) == num(b, o, 2),
        le32(b, o) == num(b, o, 4),
        le64(b, o) == num(b, o, 8),
        num(b, o, 2) == b[o] + 0x100 * b[o + 1],
        num(b, o, 4) == b[o] + 0x100 * b[o + 1] + 0x1_0000 * b[o + 2] + 0x100_0000 * b[o + 3],
        num(b, o, 8) == num(b, o, 4) + 0x1_0000_0000 * num(b, o + 4, 4),
{
    reveal_with_fuel(num, 9);
}

/// The two halves of a wide number stay apart.
pub proof fn law_wide_keeps_its_halves(low: u32, high: u32)
    ensures
        wide(low, high) % 0x1_0000_0000 == low,
        wide(low, high) / 0x1_0000_0000 == high,
{
}

/// A text field goes up to its first zero byte, or to its end.
pub proof fn law_field_ends_at_first_zero(b: Seq<u8>, n: int)
    requires
        0 <= n <= b.len(),
        forall|k: int| 0 <= k < n ==> b[k] != 0,
        n < b.len() ==> b[n] == 0,
    ensures
        field_text(b) == lossy_text(b.take(n)),
{
    lemma_before_nul(b, n);
}

/// What a raw superblock says, field by field.
#[verifier::rlimit(40)]
pub proof fn law_superblock_fields(sb: Superblock, b: Seq<u8>)
    requires
        sb.describes(b),
    ensures
        sb.inodes_count == num(b, 0, 4),
        sb.blocks_count == num(b, 4, 4) + 0x1_0000_0000 * num(b, 336, 4),
        sb.r_blocks_count == num(b, 8, 4) + 0x1_0000_0000 * num(b, 340, 4),
        sb.free_blocks_count == num(b, 12, 4) + 0x1_0000_0000 * num(b, 344, 4),
        sb.free_inodes_count == num(b, 16, 4),
        sb.first_data_block == num(b, 20, 4),
        sb.log_block_size == num(b, 24, 4),
        sb.blocks_per_group == num(b, 32, 4),
        sb.clusters_per_group == num(b, 36, 4),
        sb.inodes_per_group == num(b, 40, 4),
        sb.mtime == num(b, 44, 4),
        sb.wtime == num(b, 48, 4),
        sb.mount_count == num(b, 52, 2),
        sb.max_mount_count == num(b, 54, 2),
        sb.magic == num(b, 56, 2),
        sb.state == num(b, 58, 2),
        sb.errors == num(b, 60, 2),
        sb.rev_level == num(b, 76, 4),
        sb.inode_size == num(b, 88, 2),
        sb.feature_compat == num(b, 92, 4),
        sb.feature_incompat == num(b, 96, 4),
        sb.feature_ro_compat == num(b, 100, 4),
        sb.uuid@ == b.subrange(104, 120),
        sb.volume_name@ == field_text(b.subrange(120, 136)),
        sb.last_mounted@ == field_text(b.subrange(136, 200)),
        sb.default_hash_version == b[252],
        sb.desc_size == num(b, 254, 2),
        sb.first_meta_bg == num(b, 260, 4),
        sb.min_extra_isize == num(b, 348, 2),
        sb.want_extra_isize == num(b, 350, 2),
        sb.flags == num(b, 352, 4),
        sb.checksum == num(b, 1020, 4),
{
    lemma_num(b);
}

proof fn lemma_num(b: Seq<u8>)
    ensures
        forall|o: int| #[trigger] le16(b, o) == num(b, o, 2),
        forall|o: int| #[trigger] le32(b, o) == num(b, o, 4),
        forall|o: int| #[trigger] num(b, o, 2) == le16(b, o),
        forall|o: int| #[trigger] num(b, o, 4) == le32(b, o),
{
    assert forall|o: int| #[trigger] le16(b, o) == num(b, o, 2) by {
        law_fields_are_little_endian(b, o);
    }
    assert forall|o: int| #[trigger] le32(b, o) == num(b, o, 4) by {
        law_fields_are_little_endian(b, o);
    }
    assert forall|o: int| #[trigger] num(b, o, 2) == le16(b, o) by {
        law_fields_are_little_endian(b, o);
    }
    assert forall|o: int| #[trigger] num(b, o, 4) == le32(b, o) by {
        law_fields_are_little_endian(b, o);
    }
}

/// Blocks are of 1024 bytes at least, and twice as large for each step of the exponent.
pub proof fn law_block_size_doubles(small: Superblock, large: Superblock)
    requires
        large.log_block_size == small.log_block_size + 1,
        large.log_block_size <= 53,
    ensures
        large.spec_block_size() == 2 * small.spec_block_size(),
        small.log_block_size == 0 ==> small.spec_block_size() == 1024,
{
    lemma2_to64();
    lemma_pow2_unfold(large.log_block_size as nat);
}

/// The whole blocks that so many bytes need: enough for them, and none too many.
pub proof fn law_rounding_up(a: int, b: int)
    requires
        a >= 0,
        b > 0,
    ensures
        ceil_div(a, b) * b >= a,
        (ceil_div(a, b) - 1) * b < a,
        ceil_div(a, b) >= 0,
{
    lemma_fundamental_div_mod(a, b);
    let q = ceil_div(a, b);
    assert(q * b >= a && (q - 1) * b < a && q >= 0) by (nonlinear_arith)
        requires
            a >= 0,
            b > 0,
            a == b * (a / b) + a % b,
            0 <= a % b < b,
            q == if a % b == 0 {
                a / b
            } else {
                a / b + 1
            },
    ;
}

/// Where everything lies on a volume: as many groups as the blocks fill, and a table of their
/// descriptors in the block behind the superblock, over just as many blocks as it needs.
pub proof fn law_layout_of_a_volume(layout: Layout, sb: Superblock, start: u64)
    requires
        layout.describes(sb, start),
    ensures
        layout.groups_count * sb.blocks_per_group >= sb.blocks_count,
        (layout.groups_count - 1) * sb.blocks_per_group < sb.blocks_count,
        layout.table_len >= layout.groups_count * layout.desc_size,
        layout.table_len < layout.groups_count * layout.desc_size + layout.block_size,
        layout.table_len % layout.block_size == 0,
        layout.table_offset == start + if layout.block_size == 1024 {
            2048
        } else {
            layout.block_size as int
        },
        layout.desc_size == if sb.feature_incompat / 0x80 % 2 == 1 {
            64int
        } else {
            32
        },
        layout.is_64bit <==> sb.feature_incompat / 0x80 % 2 == 1,
        layout.start == start,
{
    let f = sb.feature_incompat;
    assert(f & 0x80u32 != 0 <==> f / 0x80u32 % 2 == 1) by (bit_vector);
    let bs = layout.block_size as int;
    let bytes = layout.groups_count * layout.desc_size;
    law_rounding_up(sb.blocks_count as int, sb.blocks_per_group as int);
    assert(bytes >= 0) by (nonlinear_arith)
        requires
            bytes == layout.groups_count * layout.desc_size,
    ;
    law_rounding_up(bytes, bs);
    let whole = ceil_div(bytes, bs);
    assert(whole * bs < bytes + bs) by (nonlinear_arith)
        requires
            (whole - 1) * bs < bytes,
    ;
    vstd::arithmetic::div_mod::lemma_mod_multiples_basic(whole, bs);
    assert(1 * bs == bs);
}

/// A volume with a sound superblock can be opened, and one with any of the known defects cannot.
pub proof fn law_which_volumes_open(sb: Superblock, start: u64)
    ensures
        sb.log_block_size <= 6 && (sb.feature_incompat / 0x80 % 2 == 1 ==> sb.desc_size == 64)
            && sb.blocks_per_group > 0 && sb.blocks_count < 0x1_0000_0000_0000 && start
            < 0x1000_0000_0000_0000 ==> layout_fault(sb, start) is None,
        sb.log_block_size > 6 || (sb.feature_incompat / 0x80 % 2 == 1 && sb.desc_size != 64)
            || sb.blocks_per_group == 0 ==> layout_fault(sb, start) is Some && layout_fault(sb, start)
            ->Some_0 is Corrupt,
{
    lemma2_to64();
    let f = sb.feature_incompat;
    assert(f & 0x80u32 != 0 <==> f / 0x80u32 % 2 == 1) by (bit_vector);
    if sb.log_block_size > 7 {
        lemma_pow2_strictly_increases(7, sb.log_block_size as nat);
    }
    if sb.log_block_size <= 6 && sb.blocks_per_group > 0 && sb.blocks_count < 0x1_0000_0000_0000 {
        let bs = sb.spec_block_size() as int;
        assert(1024 <= bs <= 65536) by {
            if sb.log_block_size < 6 {
                lemma_pow2_strictly_increases(sb.log_block_size as nat, 6);
            }
            if sb.log_block_size > 0 {
                lemma_pow2_strictly_increases(0, sb.log_block_size as nat);
            }
        }
        let n = ceil_div(sb.blocks_count as int, sb.blocks_per_group as int);
        law_rounding_up(sb.blocks_count as int, sb.blocks_per_group as int);
        assert(n <= sb.blocks_count) by (nonlinear_arith)
            requires
                (n - 1) * sb.blocks_per_group < sb.blocks_count,
                sb.blocks_per_group >= 1,
                sb.blocks_count >= 0,
        ;
        law_rounding_up(n * 32, bs);
        law_rounding_up(n * 64, bs);
        let w = ceil_div(n * 32, bs);
        let x = ceil_div(n * 64, bs);
        assert(w * bs < n * 32 + bs && x * bs < n * 64 + bs) by (nonlinear_arith)
            requires
                (w - 1) * bs < n * 32,
                (x - 1) * bs < n * 64,
        ;
        let first = spec_first_gdt_block(sb.spec_block_size() as u64);
        assert(first * sb.spec_block_size() <= 131072) by (nonlinear_arith)
            requires
                first == 1 || first == 2,
                sb.spec_block_size() <= 65536,
        ;
    }
}

/// What a group descriptor says, field by field. The high halves count only in wide volumes.
#[verifier::rlimit(40)]
pub proof fn law_group_fields(d: Seq<u8>, o: int, is_64bit: bool)
    ensures
        ({
            let g = group_desc(d, o, is_64bit);
            let high: int = if is_64bit {
                1
            } else {
                0
            };
            &&& g.block_bitmap == num(d, o, 4) + high * (0x1_0000_0000 * num(d, o + 32, 4))
            &&& g.inode_bitmap == num(d, o + 4, 4) + high * (0x1_0000_0000 * num(d, o + 36, 4))
            &&& g.inode_table == num(d, o + 8, 4) + high * (0x1_0000_0000 * num(d, o + 40, 4))
            &&& g.free_inodes_count == num(d, o + 14, 2) + high * (0x1_0000 * num(d, o + 46, 2))
            &&& g.used_dirs_count == num(d, o + 16, 2) + high * (0x1_0000 * num(d, o + 48, 2))
            &&& g.flags == num(d, o + 18, 2)
            &&& g.checksum == num(d, o + 30, 2)
            &&& !is_64bit ==> g.free_blocks_count == num(d, o + 12, 4)
            &&& is_64bit && num(d, o + 44, 2) == 0 ==> g.free_blocks_count == num(d, o + 12, 4)
            &&& is_64bit && num(d, o + 14, 2) == 0 ==> g.free_blocks_count == num(d, o + 12, 2)
                + 0x1_0000 * num(d, o + 44, 2)
        }),
{
    lemma_num(d);
    law_fields_are_little_endian(d, o + 12);
    law_fields_are_little_endian(d, o + 14);
    let low = le32(d, o + 12);
    let top = le16(d, o + 44) as u32;
    assert(top < 0x1_0000);
    assert(top == 0 ==> low | (top << 16u32) == low) by (bit_vector);
    assert(low < 0x1_0000 && top < 0x1_0000 ==> low | (top << 16u32) == low + 0x1_0000 * top)
        by (bit_vector);
}

/// The descriptors of a table follow each other at the distance that the volume has for them.
pub proof fn law_table_of_groups(d: Seq<u8>, n: nat, size: int, is_64bit: bool, g: int)
    requires
        0 <= g < n,
    ensures
        ({
            let groups = groups_of(d, n, size, is_64bit);
            let o = g * size;
            &&& groups.len() == n
            &&& groups[g].inode_table == num(d, o + 8, 4) + if is_64bit {
                0x1_0000_0000 * num(d, o + 40, 4)
            } else {
                0
            }
            &&& groups[g].block_bitmap == num(d, o, 4) + if is_64bit {
                0x1_0000_0000 * num(d, o + 32, 4)
            } else {
                0
            }
            &&& groups[g] == group_desc(d, o, is_64bit)
        }),
{
    law_group_fields(d, g * size, is_64bit);
}

/// A superblock is known by the bytes 0x53, 0xEF at its byte 56.
pub proof fn law_mark_of_a_superblock(b: Seq<u8>)
    ensures
        has_magic(b) <==> b[56] == 0x53 && b[57] == 0xEF,
{
    law_fields_are_little_endian(b, 56);
}

/// What an inode's record says, field by field.
#[verifier::rlimit(40)]
pub proof fn law_inode_fields(raw: Seq<u8>, ino: u32)
    requires
        raw.len() >= 126,
    ensures
        ({
            let n = inode_of(raw, ino);
            &&& n.ino == ino
            &&& n.mode == num(raw, 0, 2)
            &&& n.uid == num(raw, 2, 2) + 0x1_0000 * num(raw, 120, 2)
            &&& n.size == num(raw, 4, 4) + 0x1_0000_0000 * num(raw, 108, 4)
            &&& n.atime == num(raw, 8, 4)
            &&& n.ctime == num(raw, 12, 4)
            &&& n.mtime == num(raw, 16, 4)
            &&& n.dtime == num(raw, 20, 4)
            &&& n.gid == num(raw, 24, 2) + 0x1_0000 * num(raw, 122, 2)
            &&& n.links_count == num(raw, 26, 2)
            &&& n.blocks == num(raw, 28, 4) + 0x1_0000_0000 * num(raw, 116, 2)
            &&& n.flags == num(raw, 32, 4)
            &&& n.block.len() == 15
            &&& forall|i: int| 0 <= i < 15 ==> #[trigger] n.block[i] == num(raw, 40 + 4 * i, 4)
            &&& n.block_raw.len() == 60
            &&& forall|i: int| 0 <= i < 60 ==> #[trigger] n.block_raw[i] == raw[40 + i]
            &&& n.generation == num(raw, 100, 4)
            &&& n.file_acl == num(raw, 104, 4) + 0x1_0000_0000 * num(raw, 118, 2)
            &&& n.extra_isize == if raw.len() >= 130 {
                num(raw, 128, 2)
            } else {
                0
            }
            &&& n.checksum == num(raw, 124, 2) + if raw.len() >= 132 {
                0x1_0000 * num(raw, 130, 2)
            } else {
                0
            }
        }),
{
    lemma_num(raw);
}

/// The kind of file stands in the top four bits of the mode.
pub proof fn law_kinds_of_files(n: InodeView)
    ensures
        n.kind() == n.mode / 0x1000 * 0x1000,
        n.is_dir() <==> n.mode / 0x1000 == 4,
        n.is_file() <==> n.mode / 0x1000 == 8,
        n.is_symlink() <==> n.mode / 0x1000 == 10,
        n.has_index() <==> n.flags / 0x1000 % 2 == 1,
        n.has_extents() <==> n.flags / 0x8_0000 % 2 == 1,
        n.has_inline_data() <==> n.flags / 0x1000_0000 % 2 == 1,
        n.is_fast_symlink() <==> n.mode / 0x1000 == 10 && n.size <= 60 && n.blocks == 0 && n.flags
            / 0x1000_0000 % 2 == 0,
{
    let m = n.mode;
    let f = n.flags;
    assert(m & 0o170000u16 == m / 0x1000u16 * 0x1000u16) by (bit_vector);
    assert(m & 0o170000u16 == 0o040000u16 <==> m / 0x1000u16 == 4) by (bit_vector);
    assert(m & 0o170000u16 == 0o100000u16 <==> m / 0x1000u16 == 8) by (bit_vector);
    assert(m & 0o170000u16 == 0o120000u16 <==> m / 0x1000u16 == 10) by (bit_vector);
    assert(f & 0x1000u32 != 0 <==> f / 0x1000u32 % 2 == 1) by (bit_vector);
    assert(f & 0x8_0000u32 != 0 <==> f / 0x8_0000u32 % 2 == 1) by (bit_vector);
    assert(f & 0x1000_0000u32 != 0 <==> f / 0x1000_0000u32 % 2 == 1) by (bit_vector);
}

/// The model of an inode has the fields of the inode.
pub proof fn law_inode_model(n: Inode)
    ensures
        n@.ino == n.ino && n@.mode == n.mode && n@.uid == n.uid && n@.size == n.size,
        n@.atime == n.atime && n@.ctime == n.ctime && n@.mtime == n.mtime && n@.dtime == n.dtime,
        n@.gid == n.gid && n@.links_count == n.links_count && n@.blocks == n.blocks,
        n@.flags == n.flags && n@.block == n.block@ && n@.block_raw == n.block_raw@,
        n@.generation == n.generation && n@.file_acl == n.file_acl,
        n@.extra_isize == n.extra_isize && n@.checksum == n.checksum,
{
}

/// The model of an opened volume has what its superblock and its group descriptors say.
pub proof fn law_volume_model(fs: Ext4)
    ensures
        fs@.start == fs.start,
        fs@.block_size == fs.block_size,
        fs@.inodes_per_group == fs.sb.inodes_per_group,
        fs@.inode_size == fs.sb.inode_size,
        fs@.filetype <==> fs.sb.feature_incompat / 2 % 2 == 1,
        fs@.tables.len() == fs.groups@.len(),
        forall|g: int|
            0 <= g < fs.groups@.len() ==> #[trigger] fs@.tables[g] == fs.groups@[g].inode_table,
        fs@.blocks == fs.blocks@,
{
    let f = fs.sb.feature_incompat;
    assert(f & 2u32 != 0 <==> f / 2u32 % 2 == 1) by (bit_vector);
}

/// A feature is there if its bit is set, whichever of the three sets it belongs to.
pub proof fn law_bits_of_features(sb: Superblock, k: u32)
    requires
        k < 32,
    ensures
        sb.incompat(1u32 << k) <==> (sb.feature_incompat >> k) % 2 == 1,
        sb.compat(1u32 << k) <==> (sb.feature_compat >> k) % 2 == 1,
        sb.ro_compat(1u32 << k) <==> (sb.feature_ro_compat >> k) % 2 == 1,
{
    lemma_bit(sb.feature_incompat, k);
    lemma_bit(sb.feature_compat, k);
    lemma_bit(sb.feature_ro_compat, k);
}

proof fn lemma_bit(x: u32, k: u32)
    requires
        k < 32,
    ensures
        x & (1u32 << k) != 0 <==> (x >> k) % 2 == 1,
{
    assert(x & (1u32 << k) != 0 <==> (x >> k) % 2 == 1) by (bit_vector)
        requires
            k < 32,
    ;
}

/// How the defects are put that tell numbers.
pub proof fn law_wording_of_defects(magic: u16, ino: u32, a: nat, b: nat)
    ensures
        bad_magic_text(magic) == "bad superblock magic 0x"@ + radix(magic as nat, 16, 4)
            + " (not an ext2/3/4 filesystem?)"@,
        inline_overrun(ino, a, b) == "inline data of inode "@ + decimal(ino as nat)
            + " overruns inode (pos "@ + decimal(a) + ", size "@ + decimal(b) + ")"@,
        entry_overrun(a, b) == "directory entry overruns block (off "@ + decimal(a) + ", rec_len "@
            + decimal(b) + ")"@,
{
}

/// The blocks of a volume lie side by side from its start on.
pub proof fn law_blocks_lie_side_by_side(v: VolumeView, p: u64)
    ensures
        block_start(v, 0) == v.start,
        p < u64::MAX ==> block_start(v, (p + 1) as u64) == block_start(v, p) + v.block_size,
{
    assert((p + 1) * v.block_size == p * v.block_size + v.block_size) by (nonlinear_arith);
    assert(0 * v.block_size == 0);
}

/// A block that the device gave in full is read as it was given. One that it failed to give is
/// that failure, one that it cut short cannot be read, and one that it has not been asked for is
/// asked for.
pub proof fn law_blocks_are_what_was_given(v: VolumeView, p: u64)
    requires
        v.start + p * v.block_size <= u64::MAX,
    ensures
        v.blocks.contains_key(p) && v.blocks[p] is Ok && v.blocks[p]->Ok_0.len() == v.block_size
            ==> block_of(v, p) == Ok::<_, Fault>(v.blocks[p]->Ok_0),
        v.blocks.contains_key(p) && v.blocks[p] is Err ==> block_of(v, p) == Err::<Seq<u8>, _>(
            Fault::Io(v.blocks[p]->Err_0),
        ),
        v.blocks.contains_key(p) && v.blocks[p] is Ok && v.blocks[p]->Ok_0.len() < v.block_size
            ==> block_of(v, p) == Err::<Seq<u8>, _>(Fault::Io("failed to fill whole buffer"@)),
        !v.blocks.contains_key(p) ==> block_of(v, p) == Err::<Seq<u8>, _>(Fault::Pending(p)),
{
}

/// Byte `j` of what is read at an offset is the byte at that distance from the start of the
/// volume, in the block where it lies.
pub proof fn law_bytes_come_from_their_blocks(v: VolumeView, offset: int, len: int, j: int)
    requires
        v.wf(),
        0 <= offset,
        0 <= j < len,
        bytes_at(v, offset, len) is Ok,
    ensures
        ({
            let s = bytes_at(v, offset, len)->Ok_0;
            let x = offset + j;
            let p = (x / v.block_size as int) as u64;
            &&& s.len() == len
            &&& v.blocks.contains_key(p)
            &&& v.blocks[p] is Ok
            &&& (x % v.block_size as int) < v.blocks[p]->Ok_0.len()
            &&& s[j] == v.blocks[p]->Ok_0[x % v.block_size as int]
        }),
{
    lemma_bytes_across(v, offset, len, j);
}

proof fn lemma_bytes_across(v: VolumeView, offset: int, len: int, j: int)
    requires
        v.wf(),
        0 <= offset,
        0 <= j < len,
        bytes_across(v, offset, len) is Ok,
    ensures
        ({
            let s = bytes_across(v, offset, len)->Ok_0;
            let x = offset + j;
            let p = (x / v.block_size as int) as u64;
            &&& s.len() == len
            &&& v.blocks.contains_key(p)
            &&& v.blocks[p] is Ok
            &&& (x % v.block_size as int) < v.blocks[p]->Ok_0.len()
            &&& s[j] == v.blocks[p]->Ok_0[x % v.block_size as int]
        }),
    decreases len,
{
    let bs = v.block_size as int;
    let from = offset % bs;
    let n = if len <= bs - from {
        len
    } else {
        bs - from
    };
    lemma_fundamental_div_mod(offset, bs);
    lemma_across_len(v, offset + n, len - n);
    if j < n {
        let x = offset + j;
        assert(x == bs * (offset / bs) + (from + j));
        assert(x == (offset / bs) * bs + (from + j)) by (nonlinear_arith)
            requires
                x == bs * (offset / bs) + (from + j),
        ;
        lemma_fundamental_div_mod_converse(x, bs, offset / bs, from + j);
    } else {
        lemma_bytes_across(v, offset + n, len - n, j - n);
    }
}

proof fn lemma_across_len(v: VolumeView, offset: int, len: int)
    requires
        v.wf(),
        0 <= len,
        bytes_across(v, offset, len) is Ok,
    ensures
        bytes_across(v, offset, len)->Ok_0.len() == len,
    decreases len,
{
    let bs = v.block_size as int;
    let from = offset % bs;
    let n = if len <= bs - from {
        len
    } else {
        bs - from
    };
    if len > 0 {
        lemma_across_len(v, offset + n, len - n);
    }
}

/// What the device gave in full can be read, over as many blocks as it takes.
pub proof fn law_given_bytes_can_be_read(v: VolumeView, offset: int, len: int)
    requires
        v.wf(),
        0 <= offset,
        0 <= len,
        v.start + offset + len <= u64::MAX,
        forall|x: int|
            offset <= x < offset + len ==> v.blocks.contains_key(
                #[trigger] (x / v.block_size as int) as u64,
            ) && v.blocks[(x / v.block_size as int) as u64] is Ok
                && v.blocks[(x / v.block_size as int) as u64]->Ok_0.len() == v.block_size,
    ensures
        bytes_at(v, offset, len) is Ok,
{
    lemma_given(v, offset, len);
}

proof fn lemma_given(v: VolumeView, offset: int, len: int)
    requires
        v.wf(),
        0 <= offset,
        0 <= len,
        forall|x: int|
            offset <= x < offset + len ==> v.blocks.contains_key(
                #[trigger] (x / v.block_size as int) as u64,
            ) && v.blocks[(x / v.block_size as int) as u64] is Ok
                && v.blocks[(x / v.block_size as int) as u64]->Ok_0.len() == v.block_size,
    ensures
        bytes_across(v, offset, len) is Ok,
    decreases len,
{
    let bs = v.block_size as int;
    let from = offset % bs;
    let n = if len <= bs - from {
        len
    } else {
        bs - from
    };
    if len > 0 {
        let p = (offset / bs) as u64;
        assert(v.blocks.contains_key(p));
        lemma_given(v, offset + n, len - n);
    }
}

/// The first block that is missing is asked for, and nothing can be read beyond the positions
/// that can be addressed.
pub proof fn law_missing_bytes_are_asked_for(v: VolumeView, offset: int, len: int, x: int)
    requires
        v.wf(),
        0 <= offset <= x < offset + len,
        forall|y: int|
            offset <= y < x ==> v.blocks.contains_key(
                #[trigger] (y / v.block_size as int) as u64,
            ) && v.blocks[(y / v.block_size as int) as u64] is Ok
                && v.blocks[(y / v.block_size as int) as u64]->Ok_0.len() == v.block_size,
        !v.blocks.contains_key((x / v.block_size as int) as u64),
    ensures
        v.start + offset + len <= u64::MAX ==> bytes_at(v, offset, len) == Err::<Seq<u8>, _>(
            Fault::Pending((x / v.block_size as int) as u64),
        ),
        v.start + offset + len > u64::MAX ==> bytes_at(v, offset, len) == Err::<Seq<u8>, _>(
            Fault::Io("failed to fill whole buffer"@),
        ),
{
    lemma_missing(v, offset, len, x);
}

proof fn lemma_missing(v: VolumeView, offset: int, len: int, x: int)
    requires
        v.wf(),
        0 <= offset <= x < offset + len,
        forall|y: int|
            offset <= y < x ==> v.blocks.contains_key(
                #[trigger] (y / v.block_size as int) as u64,
            ) && v.blocks[(y / v.block_size as int) as u64] is Ok
                && v.blocks[(y / v.block_size as int) as u64]->Ok_0.len() == v.block_size,
        !v.blocks.contains_key((x / v.block_size as int) as u64),
    ensures
        bytes_across(v, offset, len) == Err::<Seq<u8>, _>(
            Fault::Pending((x / v.block_size as int) as u64),
        ),
    decreases len,
{
    let bs = v.block_size as int;
    let from = offset % bs;
    let n = if len <= bs - from {
        len
    } else {
        bs - from
    };
    lemma_fundamental_div_mod(offset, bs);
    if x < offset + n {
        assert(x == (offset / bs) * bs + (x - offset + from)) by (nonlinear_arith)
            requires
                offset == bs * (offset / bs) + from,
        ;
        lemma_fundamental_div_mod_converse(x, bs, offset / bs, x - offset + from);
    } else {
        assert(v.blocks.contains_key((offset / bs) as u64));
        lemma_missing(v, offset + n, len - n, x);
    }
}

/// Inode `i` of group `g`, both counted from zero, is what lies in the group's inode table so many
/// inode sizes from the table's start: `p` is the block, and `off` the place in it, where that
/// is.
pub proof fn law_inode_lies_in_its_table(
    v: VolumeView,
    g: int,
    i: int,
    ino: u32,
    p: u64,
    off: int,
    b: Seq<u8>,
)
    requires
        v.block_size > 0,
        0 <= g < v.tables.len(),
        0 <= i < v.inodes_per_group,
        ino == g * v.inodes_per_group + i + 1,
        p >= v.tables[g],
        (p - v.tables[g]) * v.block_size + off == i * v.inode_size,
        0 <= off < v.block_size,
        off + v.inode_size <= b.len(),
        block_of(v, p) == Ok::<_, Fault>(b),
    ensures
        inode_bytes(v, ino) == Ok::<_, Fault>(b.subrange(off, off + v.inode_size)),
        (p - v.tables[g]) * v.block_size + off + v.inode_size <= v.inodes_per_group * v.inode_size,
{
    assert(i * v.inode_size + v.inode_size <= v.inodes_per_group * v.inode_size)
        by (nonlinear_arith)
        requires
            i + 1 <= v.inodes_per_group,
    ;
    let per = v.inodes_per_group as int;
    assert(ino - 1 == per * g + i) by (nonlinear_arith)
        requires
            ino == g * per + i + 1,
    ;
    lemma_fundamental_div_mod_converse(ino - 1, per, g, i);
    let bs = v.block_size as int;
    let byte = i * v.inode_size;
    assert(byte == bs * (p - v.tables[g]) + off) by (nonlinear_arith)
        requires
            (p - v.tables[g]) * bs + off == byte,
    ;
    lemma_fundamental_div_mod_converse(byte, bs, p - v.tables[g], off);
}

/// The first inode of a group is at the very start of the group's table.
pub proof fn law_first_inode_of_a_group(v: VolumeView, g: int, ino: u32, b: Seq<u8>)
    requires
        v.block_size > 0,
        v.inodes_per_group > 0,
        0 <= g < v.tables.len(),
        ino == g * v.inodes_per_group + 1,
        block_of(v, v.tables[g]) == Ok::<_, Fault>(b),
        v.inode_size <= b.len(),
    ensures
        inode_bytes(v, ino) == Ok::<_, Fault>(b.take(v.inode_size as int)),
{
    assert(0 * v.block_size == 0 && 0 * v.inode_size == 0);
    law_inode_lies_in_its_table(v, g, 0, ino, v.tables[g], 0, b);
    assert(b.subrange(0, v.inode_size as int) =~= b.take(v.inode_size as int));
}

/// An inode whose block cannot be read is not had, and one that lies across two blocks is a
/// defect.
pub proof fn law_inode_cannot_be_read(v: VolumeView, g: int, i: int, ino: u32, p: u64, off: int)
    requires
        v.wf(),
        0 <= g < v.tables.len(),
        0 <= i < v.inodes_per_group,
        ino == g * v.inodes_per_group + i + 1,
        p >= v.tables[g],
        (p - v.tables[g]) * v.block_size + off == i * v.inode_size,
        0 <= off < v.block_size,
    ensures
        block_of(v, p) is Err ==> inode_bytes(v, ino) == Err::<Seq<u8>, _>(block_of(v, p)->Err_0),
        block_of(v, p) is Ok && off + v.inode_size > v.block_size ==> is_corrupt(
            inode_bytes(v, ino),
        ),
{
    let per = v.inodes_per_group as int;
    assert(ino - 1 == per * g + i) by (nonlinear_arith)
        requires
            ino == g * per + i + 1,
    ;
    lemma_fundamental_div_mod_converse(ino - 1, per, g, i);
    let bs = v.block_size as int;
    let byte = i * v.inode_size;
    assert(byte == bs * (p - v.tables[g]) + off) by (nonlinear_arith)
        requires
            (p - v.tables[g]) * bs + off == byte,
    ;
    lemma_fundamental_div_mod_converse(byte, bs, p - v.tables[g], off);
}

/// No group has inodes beyond its table, and there is no inode zero.
pub proof fn law_no_inode_outside_the_groups(v: VolumeView, ino: u32)
    requires
        v.inodes_per_group > 0,
        ino == 0 || ino > v.tables.len() * v.inodes_per_group,
    ensures
        is_corrupt(inode_bytes(v, ino)),
{
    if ino > 0 {
        let per = v.inodes_per_group as int;
        let n = v.tables.len() as int;
        lemma_fundamental_div_mod(ino - 1, per);
        assert((ino - 1) / per >= n) by (nonlinear_arith)
            requires
                ino - 1 >= n * per,
                ino - 1 == per * ((ino - 1) / per) + (ino - 1) % per,
                0 <= (ino - 1) % per < per,
        ;
    }
}

/// Reading an inode is reading the fields of its record.
pub proof fn law_inode_is_its_record(v: VolumeView, ino: u32)
    requires
        inode_bytes(v, ino) is Ok,
        inode_bytes(v, ino)->Ok_0.len() >= 126,
    ensures
        inode_at(v, ino) == Ok::<_, Fault>(inode_of(inode_bytes(v, ino)->Ok_0, ino)),
{
}

/// A record that is too short for the fields of an inode is a defect; one that cannot be read is
/// not had.
pub proof fn law_no_inode_without_a_record(v: VolumeView, ino: u32)
    ensures
        inode_bytes(v, ino) is Ok && inode_bytes(v, ino)->Ok_0.len() < 126 ==> is_corrupt(
            inode_at(v, ino),
        ),
        inode_bytes(v, ino) is Err ==> inode_at(v, ino) == Err::<InodeView, _>(
            inode_bytes(v, ino)->Err_0,
        ),
{
}

/// Inline data lies behind the first 128 bytes of the record and as many more as the inode says.
pub proof fn law_inline_data_lies_in_the_record(v: VolumeView, n: InodeView)
    requires
        inode_bytes(v, n.ino) is Ok,
    ensures
        ({
            let raw = inode_bytes(v, n.ino)->Ok_0;
            let from = 128 + n.extra_isize;
            &&& from + n.size <= raw.len() ==> inline_bytes(v, n) == Ok::<_, Fault>(
                raw.subrange(from, from + n.size),
            )
            &&& from + n.size > raw.len() ==> is_corrupt(inline_bytes(v, n))
        }),
{
}

/// Where entry `i` of a node of an extent tree begins.
pub open spec fn slot(i: int) -> int {
    12 + 12 * i
}

/// The length that entry `i` of a leaf gives to its run; from 0x8000 on it is that of a run that
/// has not been written.
pub open spec fn run_len(b: Seq<u8>, i: int) -> int {
    let l = num(b, slot(i) + 4, 2);
    if l < 0x8000 {
        l
    } else {
        l - 0x8000
    }
}

/// Whether the run of entry `i` of a leaf holds logical block `x`.
pub open spec fn run_holds(b: Seq<u8>, i: int, x: int) -> bool {
    num(b, slot(i), 4) <= x < num(b, slot(i), 4) + run_len(b, i)
}

/// Whether `b` is a sound node of an extent tree: its magic number, room for its entries.
pub open spec fn sound_node(b: Seq<u8>) -> bool {
    &&& num(b, 0, 2) == 0xF30A
    &&& slot(num(b, 2, 2)) <= b.len()
}

proof fn lemma_extent(b: Seq<u8>, i: int)
    ensures
        extent_entry(i) == slot(i),
        extent_at(b, i).first == num(b, slot(i), 4),
        extent_at(b, i).len == run_len(b, i),
        extent_at(b, i).unwritten <==> num(b, slot(i) + 4, 2) >= 0x8000,
        extent_at(b, i).start == num(b, slot(i) + 8, 4) + 0x1_0000_0000 * num(b, slot(i) + 6, 2),
        num(b, slot(i) + 6, 2) < 0x1_0000,
{
    law_fields_are_little_endian(b, slot(i));
    law_fields_are_little_endian(b, slot(i) + 4);
    law_fields_are_little_endian(b, slot(i) + 6);
    law_fields_are_little_endian(b, slot(i) + 8);
}

proof fn lemma_leaf_from(b: Seq<u8>, i: int, from: int, x: u64)
    requires
        0 <= from <= i < num(b, 2, 2),
        slot(i + 1) <= b.len(),
        run_holds(b, i, x as int),
        forall|j: int| 0 <= j < i ==> !#[trigger] run_holds(b, j, x as int),
    ensures
        leaf_lookup(b, num(b, 2, 2), from, x) == Ok::<_, Fault>(
            if num(b, slot(i) + 4, 2) >= 0x8000 {
                None
            } else {
                Some(
                    (num(b, slot(i) + 8, 4) + 0x1_0000_0000 * num(b, slot(i) + 6, 2) + (x - num(
                        b,
                        slot(i),
                        4,
                    ))) as u64,
                )
            },
        ),
    decreases i - from,
{
    lemma_extent(b, from);
    if from < i {
        assert(!run_holds(b, from, x as int));
        lemma_leaf_from(b, i, from + 1, x);
    }
}

/// In a leaf of an extent tree the first run that holds a logical block says where the block
/// lies: as far behind the run's start as the logical block is behind the run's first. A run
/// that has not been written holds nothing but zeros.
pub proof fn law_runs_map_their_blocks(v: VolumeView, b: Seq<u8>, i: int, d: int, above: int)
    requires
        num(b, 0, 2) == 0xF30A,
        num(b, 6, 2) == 0,
        above < 16,
        0 <= i < num(b, 2, 2),
        slot(i + 1) <= b.len(),
        0 <= d < run_len(b, i),
        forall|j: int|
            0 <= j < i ==> !#[trigger] run_holds(b, j, num(b, slot(i), 4) + d),
    ensures
        ({
            let x = (num(b, slot(i), 4) + d) as u64;
            let at = num(b, slot(i) + 8, 4) + 0x1_0000_0000 * num(b, slot(i) + 6, 2);
            &&& num(b, slot(i) + 4, 2) < 0x8000 ==> node_lookup(v, b, x, above) == Ok::<_, Fault>(
                Some((at + d) as u64),
            )
            &&& num(b, slot(i) + 4, 2) > 0x8000 ==> node_lookup(v, b, x, above) == Ok::<
                Option<u64>,
                Fault,
            >(None)
        }),
{
    lemma_num(b);
    lemma_leaf_from(b, i, 0, (num(b, slot(i), 4) + d) as u64);
}

/// What no run of a leaf holds is a hole.
pub proof fn law_no_run_is_a_hole(v: VolumeView, b: Seq<u8>, x: u64, above: int)
    requires
        sound_node(b),
        num(b, 6, 2) == 0,
        above < 16,
        forall|j: int| 0 <= j < num(b, 2, 2) ==> !#[trigger] run_holds(b, j, x as int),
    ensures
        node_lookup(v, b, x, above) == Ok::<Option<u64>, Fault>(None),
{
    lemma_num(b);
    lemma_hole_from(b, 0, x);
}

proof fn lemma_hole_from(b: Seq<u8>, from: int, x: u64)
    requires
        0 <= from <= num(b, 2, 2),
        sound_node(b),
        forall|j: int| 0 <= j < num(b, 2, 2) ==> !#[trigger] run_holds(b, j, x as int),
    ensures
        leaf_lookup(b, num(b, 2, 2), from, x) == Ok::<Option<u64>, Fault>(None),
    decreases num(b, 2, 2) - from,
{
    lemma_extent(b, from);
    if from < num(b, 2, 2) {
        assert(!run_holds(b, from, x as int));
        lemma_hole_from(b, from + 1, x);
    }
}

/// An entry that does not fit its leaf is a defect, if no run before it holds the block.
pub proof fn law_no_run_beyond_the_leaf(v: VolumeView, b: Seq<u8>, i: int, x: u64, above: int)
    requires
        num(b, 0, 2) == 0xF30A,
        num(b, 6, 2) == 0,
        above < 16,
        0 <= i < num(b, 2, 2),
        slot(i) <= b.len() < slot(i + 1),
        forall|j: int| 0 <= j < i ==> !#[trigger] run_holds(b, j, x as int),
    ensures
        is_corrupt(node_lookup(v, b, x, above)),
{
    lemma_num(b);
    lemma_beyond(b, 0, i, x);
}

proof fn lemma_beyond(b: Seq<u8>, from: int, i: int, x: u64)
    requires
        0 <= from <= i < num(b, 2, 2),
        slot(i) <= b.len() < slot(i + 1),
        forall|j: int| 0 <= j < i ==> !#[trigger] run_holds(b, j, x as int),
    ensures
        is_corrupt(leaf_lookup(b, num(b, 2, 2), from, x)),
    decreases i - from,
{
    lemma_extent(b, from);
    if from < i {
        assert(!run_holds(b, from, x as int));
        lemma_beyond(b, from + 1, i, x);
    }
}

/// In an inner node of an extent tree the last of the entries that begin at or before a logical
/// block leads on to the node that knows it.
pub proof fn law_index_leads_on(v: VolumeView, b: Seq<u8>, k: int, x: u64, above: int)
    requires
        sound_node(b),
        num(b, 6, 2) > 0,
        above < 16,
        0 <= k < num(b, 2, 2),
        forall|j: int| 0 <= j <= k ==> num(b, #[trigger] slot(j), 4) <= x,
        k + 1 < num(b, 2, 2) ==> num(b, slot(k + 1), 4) > x,
    ensures
        ({
            let p = (num(b, slot(k) + 4, 4) + 0x1_0000_0000 * num(b, slot(k) + 8, 2)) as u64;
            node_lookup(v, b, x, above) == match block_of(v, p) {
                Err(e) => Err(e),
                Ok(child) => node_lookup(v, child, x, above + 1),
            }
        }),
{
    lemma_num(b);
    lemma_prefix(b, 0, k, x);
}

proof fn lemma_prefix(b: Seq<u8>, i: int, k: int, x: u64)
    requires
        sound_node(b),
        0 <= i <= k + 1,
        0 <= k < num(b, 2, 2),
        forall|j: int| 0 <= j <= k ==> num(b, #[trigger] slot(j), 4) <= x,
        k + 1 < num(b, 2, 2) ==> num(b, slot(k + 1), 4) > x,
    ensures
        index_prefix(b, num(b, 2, 2), i, x) == Ok::<_, Fault>(k + 1),
    decreases k + 1 - i,
{
    lemma_num(b);
    if i <= k {
        assert(num(b, slot(i), 4) <= x);
        lemma_prefix(b, i + 1, k, x);
    }
}

/// A node without its magic number, one under sixteen others, and an inner node whose first entry
/// begins too late are defects.
pub proof fn law_unsound_nodes(v: VolumeView, b: Seq<u8>, x: u64, above: int)
    requires
        b.len() >= 16,
    ensures
        num(b, 0, 2) != 0xF30A || above >= 16 ==> is_corrupt(node_lookup(v, b, x, above)),
        num(b, 6, 2) > 0 && num(b, 2, 2) > 0 && num(b, 12, 4) > x ==> is_corrupt(
            node_lookup(v, b, x, above),
        ),
{
    lemma_num(b);
}

/// A stored block number, of which zero stands for a hole.
pub open spec fn stored(n: int) -> Option<u64> {
    if n == 0 {
        None
    } else {
        Some(n as u64)
    }
}

/// The first twelve blocks of a block map are in the inode itself.
pub proof fn law_direct_blocks(v: VolumeView, n: InodeView, k: u64)
    requires
        k < 12,
    ensures
        indirect_lookup(v, n, k) == Ok::<_, Fault>(stored(n.block[k as int] as int)),
{
}

/// The next blocks, as many as a block holds numbers of four bytes, are in the block that the
/// thirteenth number of the inode names.
pub proof fn law_single_indirect_blocks(v: VolumeView, n: InodeView, j: int, b: Seq<u8>)
    requires
        v.wf(),
        0 <= j < v.block_size / 4,
        n.block[12] != 0 ==> block_of(v, n.block[12] as u64) == Ok::<_, Fault>(b),
    ensures
        indirect_lookup(v, n, (12 + j) as u64) == Ok::<_, Fault>(
            if n.block[12] == 0 {
                None
            } else {
                stored(num(b, 4 * j, 4))
            },
        ),
{
    lemma_num(b);
    lemma_spans(v);
    law_tree_indices(v, n.block[12] as u64, j);
}

/// Behind them come as many times as many, over two blocks: the fourteenth number of the inode
/// names a block of numbers of blocks of numbers.
pub proof fn law_double_indirect_blocks(
    v: VolumeView,
    n: InodeView,
    i: int,
    j: int,
    b: Seq<u8>,
    c: Seq<u8>,
)
    requires
        v.wf(),
        0 <= i < v.block_size / 4,
        0 <= j < v.block_size / 4,
        n.block[13] != 0 ==> block_of(v, n.block[13] as u64) == Ok::<_, Fault>(b),
        n.block[13] != 0 && num(b, 4 * i, 4) != 0 ==> block_of(v, num(b, 4 * i, 4) as u64) == Ok::<
            _,
            Fault,
        >(c),
    ensures
        ({
            let q = v.block_size as int / 4;
            indirect_lookup(v, n, (12 + q + i * q + j) as u64) == Ok::<_, Fault>(
                if n.block[13] == 0 || num(b, 4 * i, 4) == 0 {
                    None
                } else {
                    stored(num(c, 4 * j, 4))
                },
            )
        }),
{
    let q = v.block_size as int / 4;
    lemma_num(b);
    lemma_num(c);
    lemma_spans(v);
    let m = i * q + j;
    assert(0 <= m < q * q) by (nonlinear_arith)
        requires
            m == i * q + j,
            0 <= i < q,
            0 <= j < q,
    ;
    assert(q * q <= 0x1000_0000) by (nonlinear_arith)
        requires
            0 <= q <= 16384,
    ;
    assert(m == q * i + j) by (nonlinear_arith)
        requires
            m == i * q + j,
    ;
    lemma_fundamental_div_mod_converse(m, q, i, j);
    law_tree_indices(v, n.block[13] as u64, m);
}

/// And behind those, over three blocks, what the fifteenth number of the inode leads to.
#[verifier::rlimit(40)]
pub proof fn law_triple_indirect_blocks(
    v: VolumeView,
    n: InodeView,
    h: int,
    i: int,
    j: int,
    b: Seq<u8>,
    c: Seq<u8>,
    d: Seq<u8>,
)
    requires
        v.wf(),
        0 <= h < v.block_size / 4,
        0 <= i < v.block_size / 4,
        0 <= j < v.block_size / 4,
        n.block[14] != 0 ==> block_of(v, n.block[14] as u64) == Ok::<_, Fault>(b),
        n.block[14] != 0 && num(b, 4 * h, 4) != 0 ==> block_of(v, num(b, 4 * h, 4) as u64) == Ok::<
            _,
            Fault,
        >(c),
        n.block[14] != 0 && num(b, 4 * h, 4) != 0 && num(c, 4 * i, 4) != 0 ==> block_of(
            v,
            num(c, 4 * i, 4) as u64,
        ) == Ok::<_, Fault>(d),
    ensures
        ({
            let q = v.block_size as int / 4;
            indirect_lookup(v, n, (12 + q + q * q + (h * q + i) * q + j) as u64) == Ok::<_, Fault>(
                if n.block[14] == 0 || num(b, 4 * h, 4) == 0 || num(c, 4 * i, 4) == 0 {
                    None
                } else {
                    stored(num(d, 4 * j, 4))
                },
            )
        }),
{
    let q = v.block_size as int / 4;
    lemma_num(b);
    lemma_num(c);
    lemma_num(d);
    lemma_spans(v);
    let s = h * q + i;
    let m = s * q + j;
    assert(0 <= s < q * q && 0 <= m < q * (q * q)) by (nonlinear_arith)
        requires
            s == h * q + i,
            m == s * q + j,
            0 <= h < q,
            0 <= i < q,
            0 <= j < q,
    ;
    assert(q * q <= 0x1000_0000 && q * (q * q) <= 0x400_0000_0000) by (nonlinear_arith)
        requires
            0 <= q <= 16384,
    ;
    assert(m == q * s + j && s == q * h + i && m == h * (q * q) + (q * i + j) && 0 <= q * i + j < q
        * q) by (nonlinear_arith)
        requires
            s == h * q + i,
            m == s * q + j,
            0 <= i < q,
            0 <= j < q,
    ;
    lemma_fundamental_div_mod_converse(m, q, s, j);
    lemma_fundamental_div_mod_converse(s, q, h, i);
    assert(q * q != 0) by (nonlinear_arith)
        requires
            q > 0,
    ;
    lemma_fundamental_div_mod_converse(m, q * q, h, q * i + j);
    law_tree_indices(v, n.block[14] as u64, m);
}

/// A block of numbers that cannot be read keeps what it maps from being found.
pub proof fn law_unreadable_block_map(v: VolumeView, n: InodeView, m: int)
    requires
        v.wf(),
        ({
            let q = v.block_size as int / 4;
            0 <= m < q * q * q
        }),
    ensures
        ({
            let q = v.block_size as int / 4;
            &&& m < q && n.block[12] != 0 && block_of(v, n.block[12] as u64) is Err
                ==> indirect_lookup(v, n, (12 + m) as u64) == Err::<Option<u64>, _>(
                block_of(v, n.block[12] as u64)->Err_0,
            )
            &&& m < q * q && n.block[13] != 0 && block_of(v, n.block[13] as u64) is Err
                ==> indirect_lookup(v, n, (12 + q + m) as u64) == Err::<Option<u64>, _>(
                block_of(v, n.block[13] as u64)->Err_0,
            )
            &&& n.block[14] != 0 && block_of(v, n.block[14] as u64) is Err ==> indirect_lookup(
                v,
                n,
                (12 + q + q * q + m) as u64,
            ) == Err::<Option<u64>, _>(block_of(v, n.block[14] as u64)->Err_0)
        }),
{
    let q = v.block_size as int / 4;
    lemma_spans(v);
    assert(q * q <= 0x1000_0000 && q * q * q <= 0x400_0000_0000 && q * q * q == q * (q * q))
        by (nonlinear_arith)
        requires
            0 <= q <= 16384,
    ;
}

/// There is nothing beyond them.
pub proof fn law_indirect_blocks_end(v: VolumeView, n: InodeView, k: u64)
    requires
        ({
            let q = v.block_size as int / 4;
            k >= 12 + q + q * q + q * (q * q)
        }),
    ensures
        indirect_lookup(v, n, k) matches Err(f) && f is Unsupported,
{
    lemma_spans(v);
}

} // verus!
