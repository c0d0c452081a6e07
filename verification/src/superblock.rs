//! The superblock: the filesystem's parameters, 1024 bytes into the volume.

use crate::bytes::{cstr, field_text, le16, le32, u16_at, u32_at, wide, widen};
use crate::error::{ExtError, Fault, Result};
use crate::text::{push_radix, radix};
use vstd::arithmetic::power2::{lemma2_to64_rest, lemma_pow2_strictly_increases, pow2};
use vstd::bits::lemma_u64_shl_is_mul;
use vstd::prelude::*;
use vstd::slice::slice_subrange;
use vstd::string::*;

verus! {

pub const EXT4_SUPER_MAGIC: u16 = 0xEF53;

pub const SUPERBLOCK_OFFSET: u64 = 1024;

/// How many bytes of the volume `Superblock::parse` looks at.
pub const SUPERBLOCK_LEN: usize = 2048;

pub const EXT4_FEATURE_COMPAT_HAS_JOURNAL: u32 = 0x0004;

pub const EXT4_FEATURE_COMPAT_DIR_INDEX: u32 = 0x0020;

pub const EXT4_FEATURE_INCOMPAT_FILETYPE: u32 = 0x0002;

pub const EXT4_FEATURE_INCOMPAT_EXTENTS: u32 = 0x0040;

pub const EXT4_FEATURE_INCOMPAT_64BIT: u32 = 0x0080;

pub const EXT4_FEATURE_INCOMPAT_FLEX_BG: u32 = 0x0200;

pub const EXT4_FEATURE_INCOMPAT_MMP: u32 = 0x0100;

pub const EXT4_FEATURE_INCOMPAT_INLINE_DATA: u32 = 0x8000;

pub const EXT4_FEATURE_RO_COMPAT_SPARSE_SUPER: u32 = 0x0001;

pub const EXT4_FEATURE_RO_COMPAT_LARGE_FILE: u32 = 0x0002;

pub const EXT4_FEATURE_RO_COMPAT_HUGE_FILE: u32 = 0x0008;

pub const EXT4_FEATURE_RO_COMPAT_GDT_CSUM: u32 = 0x0010;

#[derive(Debug, Clone)]
pub struct Superblock {
    pub magic: u16,
    pub inodes_count: u64,
    pub blocks_count: u64,
    pub r_blocks_count: u64,
    pub free_blocks_count: u64,
    pub free_inodes_count: u32,
    pub first_data_block: u32,
    pub log_block_size: u32,
    pub blocks_per_group: u32,
    pub clusters_per_group: u32,
    pub inodes_per_group: u32,
    pub mtime: u32,
    pub wtime: u32,
    pub mount_count: u16,
    pub max_mount_count: u16,
    pub state: u16,
    pub errors: u16,
    pub rev_level: u32,
    pub inode_size: u16,
    pub feature_compat: u32,
    pub feature_incompat: u32,
    pub feature_ro_compat: u32,
    pub uuid: [u8; 16],
    pub volume_name: String,
    pub last_mounted: String,
    pub desc_size: u32,
    pub first_meta_bg: u32,
    pub min_extra_isize: u16,
    pub want_extra_isize: u16,
    pub flags: u32,
    pub default_hash_version: u8,
    pub checksum: u32,
}

/// The complaint about a superblock that starts with the wrong magic number.
pub open spec fn bad_magic_text(magic: u16) -> Seq<char> {
    "bad superblock magic 0x"@ + radix(magic as nat, 16, 4)
        + " (not an ext2/3/4 filesystem?)"@
}

/// Whether the raw superblock `b` has the magic number.
pub open spec fn has_magic(b: Seq<u8>) -> bool {
    le16(b, 56) == EXT4_SUPER_MAGIC
}

impl Superblock {
    /// Whether every field holds what the raw superblock `b` stores for it.
    pub open spec fn describes(self, b: Seq<u8>) -> bool {
        &&& self.magic == le16(b, 56)
        &&& self.inodes_count == le32(b, 0)
        &&& self.blocks_count == wide(le32(b, 4), le32(b, 336))
        &&& self.r_blocks_count == wide(le32(b, 8), le32(b, 340))
        &&& self.free_blocks_count == wide(le32(b, 12), le32(b, 344))
        &&& self.free_inodes_count == le32(b, 16)
        &&& self.first_data_block == le32(b, 20)
        &&& self.log_block_size == le32(b, 24)
        &&& self.blocks_per_group == le32(b, 32)
        &&& self.clusters_per_group == le32(b, 36)
        &&& self.inodes_per_group == le32(b, 40)
        &&& self.mtime == le32(b, 44)
        &&& self.wtime == le32(b, 48)
        &&& self.mount_count == le16(b, 52)
        &&& self.max_mount_count == le16(b, 54)
        &&& self.state == le16(b, 58)
        &&& self.errors == le16(b, 60)
        &&& self.rev_level == le32(b, 76)
        &&& self.inode_size == le16(b, 88)
        &&& self.feature_compat == le32(b, 92)
        &&& self.feature_incompat == le32(b, 96)
        &&& self.feature_ro_compat == le32(b, 100)
        &&& self.uuid@ == b.subrange(104, 120)
        &&& self.volume_name@ == field_text(b.subrange(120, 136))
        &&& self.last_mounted@ == field_text(b.subrange(136, 200))
        &&& self.desc_size == le16(b, 254)
        &&& self.first_meta_bg == le32(b, 260)
        &&& self.min_extra_isize == le16(b, 348)
        &&& self.want_extra_isize == le16(b, 350)
        &&& self.flags == le32(b, 352)
        &&& self.default_hash_version == b[252]
        &&& self.checksum == le32(b, 1020)
    }

    /// Reads the fields of a raw superblock; `b` holds the bytes of the volume from
    /// `SUPERBLOCK_OFFSET` on.
    pub fn parse(b: &[u8]) -> (r: Result<Superblock>)
        requires
            b@.len() == SUPERBLOCK_LEN,
        ensures
            r is Ok <==> has_magic(b@),
            match r {
                Ok(sb) => le16(b@, 56) == EXT4_SUPER_MAGIC && sb.describes(b@),
                Err(e) => le16(b@, 56) != EXT4_SUPER_MAGIC && e@ == Fault::Io(
                    bad_magic_text(le16(b@, 56)),
                ),
            },
    {
        let magic: u16 = u16_at(b, 56);
        if magic != EXT4_SUPER_MAGIC {
            let mut text = "bad superblock magic 0x".to_owned();
            push_radix(&mut text, magic as u64, 16, 4);
            text.append(" (not an ext2/3/4 filesystem?)");
            return Err(ExtError::Io(text));
        }
        let mut uuid: [u8; 16] = [0u8; 16];
        let mut i: usize = 0;
        while i < 16
            invariant
                i <= 16,
                b@.len() == SUPERBLOCK_LEN,
                forall|k: int| 0 <= k < i ==> uuid@[k] == b@[104 + k],
            decreases 16 - i,
        {
            uuid[i] = b[104 + i];
            i = i + 1;
        }
        assert(uuid@ =~= b@.subrange(104, 120));
        Ok(
            Superblock {
                magic,
                inodes_count: u32_at(b, 0) as u64,
                blocks_count: widen(u32_at(b, 4), u32_at(b, 336)),
                r_blocks_count: widen(u32_at(b, 8), u32_at(b, 340)),
                free_blocks_count: widen(u32_at(b, 12), u32_at(b, 344)),
                free_inodes_count: u32_at(b, 16),
                first_data_block: u32_at(b, 20),
                log_block_size: u32_at(b, 24),
                blocks_per_group: u32_at(b, 32),
                clusters_per_group: u32_at(b, 36),
                inodes_per_group: u32_at(b, 40),
                mtime: u32_at(b, 44),
                wtime: u32_at(b, 48),
                mount_count: u16_at(b, 52),
                max_mount_count: u16_at(b, 54),
                state: u16_at(b, 58),
                errors: u16_at(b, 60),
                rev_level: u32_at(b, 76),
                inode_size: u16_at(b, 88),
                feature_compat: u32_at(b, 92),
                feature_incompat: u32_at(b, 96),
                feature_ro_compat: u32_at(b, 100),
                uuid,
                volume_name: cstr(slice_subrange(b, 120, 136)),
                last_mounted: cstr(slice_subrange(b, 136, 200)),
                desc_size: u16_at(b, 254) as u32,
                first_meta_bg: u32_at(b, 260),
                min_extra_isize: u16_at(b, 348),
                want_extra_isize: u16_at(b, 350),
                flags: u32_at(b, 352),
                default_hash_version: b[252],
                checksum: u32_at(b, 1020),
            },
        )
    }

    /// The block size in bytes: 1024 doubled `log_block_size` times, where a size of
    /// 2^64 or more leaves nothing of the shifted bit.
    pub open spec fn spec_block_size(self) -> nat {
        if self.log_block_size <= 53 {
            1024 * pow2(self.log_block_size as nat)
        } else {
            0
        }
    }

    /// Block size in bytes (`1024 << s_log_block_size`).
    pub fn block_size(&self) -> (n: u64)
        requires
            self.log_block_size < 64,
        ensures
            n == self.spec_block_size(),
    {
        let shift: u32 = self.log_block_size;
        proof {
            if shift <= 53 {
                lemma2_to64_rest();
                if shift < 53 {
                    lemma_pow2_strictly_increases(shift as nat, 53);
                }
                lemma_u64_shl_is_mul(1024, shift as u64);
            } else {
                assert(1024u64 << shift == 0) by (bit_vector)
                    requires
                        54 <= shift < 64,
                ;
            }
        }
        1024u64 << shift
    }

    pub open spec fn incompat(self, f: u32) -> bool {
        self.feature_incompat & f != 0
    }

    pub fn has_incompat(&self, f: u32) -> (b: bool)
        ensures
            b == self.incompat(f),
    {
        self.feature_incompat & f != 0
    }

    pub open spec fn compat(self, f: u32) -> bool {
        self.feature_compat & f != 0
    }

    pub open spec fn ro_compat(self, f: u32) -> bool {
        self.feature_ro_compat & f != 0
    }

    pub fn has_compat(&self, f: u32) -> (b: bool)
        ensures
            b == self.compat(f),
            b == (self.feature_compat & f != 0),
    {
        self.feature_compat & f != 0
    }

    pub fn has_ro_compat(&self, f: u32) -> (b: bool)
        ensures
            b == self.ro_compat(f),
            b == (self.feature_ro_compat & f != 0),
    {
        self.feature_ro_compat & f != 0
    }
}

} // verus!
