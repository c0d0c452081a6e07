//! Block group descriptors.

use crate::bytes::{le16, le32, u16_at, u32_at, wide, widen};
use vstd::arithmetic::mul::lemma_mul_inequality;
use vstd::prelude::*;

verus! {

#[derive(Debug, Clone, Copy)]
pub struct GroupDesc {
    pub block_bitmap: u64,
    pub inode_bitmap: u64,
    pub inode_table: u64,
    pub free_blocks_count: u32,
    pub free_inodes_count: u32,
    pub used_dirs_count: u32,
    pub flags: u16,
    pub checksum: u16,
}

/// The descriptor stored at offset `o` of the table `d`. The wide form keeps the high
/// halves of its numbers from byte 32 on.
pub open spec fn group_desc(d: Seq<u8>, o: int, is_64bit: bool) -> GroupDesc {
    if is_64bit {
        GroupDesc {
            block_bitmap: wide(le32(d, o), le32(d, o + 32)),
            inode_bitmap: wide(le32(d, o + 4), le32(d, o + 36)),
            inode_table: wide(le32(d, o + 8), le32(d, o + 40)),
            free_blocks_count: le32(d, o + 12) | ((le16(d, o + 44) as u32) << 16u32),
            free_inodes_count: (le16(d, o + 14) + le16(d, o + 46) * 0x1_0000) as u32,
            used_dirs_count: (le16(d, o + 16) + le16(d, o + 48) * 0x1_0000) as u32,
            flags: le16(d, o + 18),
            checksum: le16(d, o + 30),
        }
    } else {
        GroupDesc {
            block_bitmap: le32(d, o) as u64,
            inode_bitmap: le32(d, o + 4) as u64,
            inode_table: le32(d, o + 8) as u64,
            free_blocks_count: le32(d, o + 12),
            free_inodes_count: le16(d, o + 14) as u32,
            used_dirs_count: le16(d, o + 16) as u32,
            flags: le16(d, o + 18),
            checksum: le16(d, o + 30),
        }
    }
}

/// The first `n` descriptors of the table `d`, which lie `size` bytes apart.
pub open spec fn groups_of(d: Seq<u8>, n: nat, size: int, is_64bit: bool) -> Seq<GroupDesc> {
    Seq::new(n, |g: int| group_desc(d, g * size, is_64bit))
}

/// How many bytes of a descriptor carry what is read from it.
pub open spec fn desc_extent(is_64bit: bool) -> int {
    if is_64bit {
        50
    } else {
        32
    }
}

pub open spec fn spec_first_gdt_block(block_size: u64) -> u64 {
    if block_size == 1024 {
        2
    } else {
        1
    }
}

/// First block containing the group descriptor table.
pub fn first_gdt_block(block_size: u64) -> (b: u64)
    ensures
        b == spec_first_gdt_block(block_size),
{
    if block_size == 1024 {
        2
    } else {
        1
    }
}

/// `a / b`, rounded up.
pub open spec fn ceil_div(a: int, b: int) -> int {
    if a % b == 0 {
        a / b
    } else {
        a / b + 1
    }
}

pub(crate) fn div_ceil(a: u64, b: u64) -> (q: u64)
    requires
        b > 0,
    ensures
        q == ceil_div(a as int, b as int),
        q <= a,
{
    proof {
        assert(a / b <= a) by (nonlinear_arith)
            requires
                b > 0,
        ;
        assert(a % b != 0 ==> a / b < a) by (nonlinear_arith)
            requires
                b > 0,
        ;
    }
    if a % b == 0 {
        a / b
    } else {
        a / b + 1
    }
}

fn parse_one(data: &[u8], o: usize, is_64bit: bool) -> (g: GroupDesc)
    requires
        o + desc_extent(is_64bit) <= data.len(),
    ensures
        g == group_desc(data@, o as int, is_64bit),
{
    if is_64bit {
        GroupDesc {
            block_bitmap: widen(u32_at(data, o), u32_at(data, o + 32)),
            inode_bitmap: widen(u32_at(data, o + 4), u32_at(data, o + 36)),
            inode_table: widen(u32_at(data, o + 8), u32_at(data, o + 40)),
            free_blocks_count: u32_at(data, o + 12) | ((u16_at(data, o + 44) as u32) << 16u32),
            free_inodes_count: u16_at(data, o + 14) as u32 + u16_at(data, o + 46) as u32
                * 0x1_0000,
            used_dirs_count: u16_at(data, o + 16) as u32 + u16_at(data, o + 48) as u32
                * 0x1_0000,
            flags: u16_at(data, o + 18),
            checksum: u16_at(data, o + 30),
        }
    } else {
        GroupDesc {
            block_bitmap: u32_at(data, o) as u64,
            inode_bitmap: u32_at(data, o + 4) as u64,
            inode_table: u32_at(data, o + 8) as u64,
            free_blocks_count: u32_at(data, o + 12),
            free_inodes_count: u16_at(data, o + 14) as u32,
            used_dirs_count: u16_at(data, o + 16) as u32,
            flags: u16_at(data, o + 18),
            checksum: u16_at(data, o + 30),
        }
    }
}

/// Reads `groups_count` descriptors that stand `desc_size` bytes apart in `data`.
pub fn parse_all(data: &[u8], groups_count: u64, desc_size: u64, is_64bit: bool) -> (out: Vec<
    GroupDesc,
>)
    requires
        groups_count > 0 ==> (groups_count - 1) * desc_size + desc_extent(is_64bit)
            <= data@.len(),
    ensures
        out@ == groups_of(data@, groups_count as nat, desc_size as int, is_64bit),
        out@.len() == groups_count,
        forall|g: int|
            0 <= g < groups_count ==> out@[g] == #[trigger] group_desc(
                data@,
                g * desc_size,
                is_64bit,
            ),
{
    let mut out: Vec<GroupDesc> = Vec::new();
    let mut g: u64 = 0;
    let len: usize = data.len();
    while g < groups_count
        invariant
            g <= groups_count,
            len == data@.len(),
            out@.len() == g,
            groups_count > 0 ==> (groups_count - 1) * desc_size + desc_extent(is_64bit)
                <= data@.len(),
            forall|k: int|
                0 <= k < g ==> out@[k] == #[trigger] group_desc(data@, k * desc_size, is_64bit),
        decreases groups_count - g,
    {
        proof {
            lemma_mul_inequality(g as int, groups_count - 1, desc_size as int);
            assert(0 <= g * desc_size) by (nonlinear_arith);
        }
        let o: usize = (g * desc_size) as usize;
        out.push(parse_one(data, o, is_64bit));
        g = g + 1;
    }
    out
}

} // verus!
