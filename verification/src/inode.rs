//! Inodes: what the on-disk record says, and the kinds of file it can describe.

use crate::bytes::{le16, le32, u16_at, u32_at, wide, widen};
use vstd::prelude::*;

verus! {

pub const EXT4_ROOT_INO: u32 = 2;

pub const EXT4_EXTENTS_FL: u32 = 0x0008_0000;

pub const EXT4_INDEX_FL: u32 = 0x0000_1000;

pub const EXT4_INLINE_DATA_FL: u32 = 0x1000_0000;

pub const S_IFMT: u16 = 0o170000;

pub const S_IFSOCK: u16 = 0o140000;

pub const S_IFLNK: u16 = 0o120000;

pub const S_IFREG: u16 = 0o100000;

pub const S_IFBLK: u16 = 0o060000;

pub const S_IFDIR: u16 = 0o040000;

pub const S_IFCHR: u16 = 0o020000;

pub const S_IFIFO: u16 = 0o010000;

/// On-disk size of the "good old" inode, before extra fields were added behind it.
pub const GOOD_OLD_INODE_SIZE: u16 = 128;

/// How many bytes an inode record must have at least to be read.
pub const MIN_INODE_RECORD: usize = 126;

#[derive(Debug, Clone, Copy)]
pub struct Inode {
    pub ino: u32,
    pub mode: u16,
    pub uid: u32,
    pub size: u64,
    pub atime: u32,
    pub ctime: u32,
    pub mtime: u32,
    pub dtime: u32,
    pub gid: u32,
    pub links_count: u16,
    pub blocks: u64,
    pub flags: u32,
    pub block: [u32; 15],
    /// Raw i_block bytes (used for fast symlinks and extent roots).
    pub block_raw: [u8; 60],
    pub generation: u32,
    pub file_acl: u64,
    pub extra_isize: u16,
    pub checksum: u32,
}

/// An inode with its block map as sequences.
#[verifier::ext_equal]
pub struct InodeView {
    pub ino: u32,
    pub mode: u16,
    pub uid: u32,
    pub size: u64,
    pub atime: u32,
    pub ctime: u32,
    pub mtime: u32,
    pub dtime: u32,
    pub gid: u32,
    pub links_count: u16,
    pub blocks: u64,
    pub flags: u32,
    pub block: Seq<u32>,
    pub block_raw: Seq<u8>,
    pub generation: u32,
    pub file_acl: u64,
    pub extra_isize: u16,
    pub checksum: u32,
}

impl View for Inode {
    type V = InodeView;

    open spec fn view(&self) -> InodeView {
        InodeView {
            ino: self.ino,
            mode: self.mode,
            uid: self.uid,
            size: self.size,
            atime: self.atime,
            ctime: self.ctime,
            mtime: self.mtime,
            dtime: self.dtime,
            gid: self.gid,
            links_count: self.links_count,
            blocks: self.blocks,
            flags: self.flags,
            block: self.block@,
            block_raw: self.block_raw@,
            generation: self.generation,
            file_acl: self.file_acl,
            extra_isize: self.extra_isize,
            checksum: self.checksum,
        }
    }
}

impl InodeView {
    pub open spec fn kind(self) -> u16 {
        self.mode & S_IFMT
    }

    pub open spec fn is_dir(self) -> bool {
        self.kind() == S_IFDIR
    }

    pub open spec fn is_file(self) -> bool {
        self.kind() == S_IFREG
    }

    pub open spec fn is_symlink(self) -> bool {
        self.kind() == S_IFLNK
    }

    pub open spec fn has_inline_data(self) -> bool {
        self.flags & EXT4_INLINE_DATA_FL != 0
    }

    pub open spec fn has_extents(self) -> bool {
        self.flags & EXT4_EXTENTS_FL != 0
    }

    pub open spec fn has_index(self) -> bool {
        self.flags & EXT4_INDEX_FL != 0
    }

    /// A symbolic link whose target is short enough to sit in the block map itself.
    pub open spec fn is_fast_symlink(self) -> bool {
        self.is_symlink() && self.size <= 60 && self.blocks == 0 && !self.has_inline_data()
    }
}

/// The number that a low and a high 16-bit half make.
pub open spec fn joined(low: u16, high: u16) -> u32 {
    (low + high * 0x1_0000) as u32
}

/// What the raw record `raw` says about inode `ino`.
pub open spec fn inode_of(raw: Seq<u8>, ino: u32) -> InodeView {
    InodeView {
        ino,
        mode: le16(raw, 0),
        uid: joined(le16(raw, 2), le16(raw, 120)),
        size: wide(le32(raw, 4), le32(raw, 108)),
        atime: le32(raw, 8),
        ctime: le32(raw, 12),
        mtime: le32(raw, 16),
        dtime: le32(raw, 20),
        gid: joined(le16(raw, 24), le16(raw, 122)),
        links_count: le16(raw, 26),
        blocks: wide(le32(raw, 28), le16(raw, 116) as u32),
        flags: le32(raw, 32),
        block: Seq::new(15, |i: int| le32(raw, 40 + i * 4)),
        block_raw: raw.subrange(40, 100),
        generation: le32(raw, 100),
        file_acl: wide(le32(raw, 104), le16(raw, 118) as u32),
        extra_isize: if raw.len() >= 130 {
            le16(raw, 128)
        } else {
            0
        },
        checksum: joined(
            le16(raw, 124),
            if raw.len() >= 132 {
                le16(raw, 130)
            } else {
                0
            },
        ),
    }
}

fn join_halves(low: u16, high: u16) -> (v: u32)
    ensures
        v == joined(low, high),
{
    low as u32 + high as u32 * 0x1_0000
}

impl Inode {
    /// Reads the record of inode `ino`.
    pub fn parse(raw: &[u8], ino: u32) -> (inode: Inode)
        requires
            raw@.len() >= MIN_INODE_RECORD,
        ensures
            inode@ == inode_of(raw@, ino),
    {
        let mut block: [u32; 15] = [0u32; 15];
        let mut block_raw: [u8; 60] = [0u8; 60];
        let mut i: usize = 0;
        while i < 15
            invariant
                i <= 15,
                raw@.len() >= MIN_INODE_RECORD,
                forall|k: int| 0 <= k < i ==> block@[k] == le32(raw@, 40 + k * 4),
            decreases 15 - i,
        {
            block[i] = u32_at(raw, 40 + i * 4);
            i = i + 1;
        }
        i = 0;
        while i < 60
            invariant
                i <= 60,
                raw@.len() >= MIN_INODE_RECORD,
                forall|k: int| 0 <= k < i ==> block_raw@[k] == raw@[40 + k],
            decreases 60 - i,
        {
            block_raw[i] = raw[40 + i];
            i = i + 1;
        }
        let checksum_high: u16 = if raw.len() >= 132 {
            u16_at(raw, 130)
        } else {
            0
        };
        let inode = Inode {
            ino,
            mode: u16_at(raw, 0),
            uid: join_halves(u16_at(raw, 2), u16_at(raw, 120)),
            size: widen(u32_at(raw, 4), u32_at(raw, 108)),
            atime: u32_at(raw, 8),
            ctime: u32_at(raw, 12),
            mtime: u32_at(raw, 16),
            dtime: u32_at(raw, 20),
            gid: join_halves(u16_at(raw, 24), u16_at(raw, 122)),
            links_count: u16_at(raw, 26),
            blocks: widen(u32_at(raw, 28), u16_at(raw, 116) as u32),
            flags: u32_at(raw, 32),
            block,
            block_raw,
            generation: u32_at(raw, 100),
            file_acl: widen(u32_at(raw, 104), u16_at(raw, 118) as u32),
            extra_isize: if raw.len() >= 130 {
                u16_at(raw, 128)
            } else {
                0
            },
            checksum: join_halves(u16_at(raw, 124), checksum_high),
        };
        assert(inode@ =~= inode_of(raw@, ino));
        inode
    }

    pub fn file_type(&self) -> (kind: u16)
        ensures
            kind == self@.kind(),
    {
        self.mode & S_IFMT
    }

    pub fn is_dir(&self) -> (b: bool)
        ensures
            b == self@.is_dir(),
    {
        self.file_type() == S_IFDIR
    }

    pub fn is_file(&self) -> (b: bool)
        ensures
            b == self@.is_file(),
    {
        self.file_type() == S_IFREG
    }

    pub fn is_symlink(&self) -> (b: bool)
        ensures
            b == self@.is_symlink(),
    {
        self.file_type() == S_IFLNK
    }

    pub fn is_fast_symlink(&self) -> (b: bool)
        ensures
            b == self@.is_fast_symlink(),
    {
        self.is_symlink() && self.size <= 60 && self.blocks == 0 && self.flags
            & EXT4_INLINE_DATA_FL == 0
    }
}

} // verus!
