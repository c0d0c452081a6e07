//! Reading and copying small volumes that are built in memory.

use ext4fs_tool::copy::{
    begin_count, copy_to, copy_to_parallel, extract, failed_item, item_count, total_items,
};
use ext4fs_tool::count::{count_tree, count_tree_with_bytes, TreeCount};
use ext4fs_tool::data::{read_inode_data, Piece};
use ext4fs_tool::dir::{find_entry, DirEntry};
use ext4fs_tool::error::{ExtError, Result};
use ext4fs_tool::extract::{Extraction, Request};
use ext4fs_tool::browse::{expand_path, load_entries, load_tree_children, BrowseError};
use ext4fs_tool::group::{first_gdt_block, parse_all};
use ext4fs_tool::inode::Inode;
use ext4fs_tool::jobs::{schedule, JobQueue, JobRequest, JobRun, Schedule};
use ext4fs_tool::labels::{inode_lines, open_failed_message, opened_message, volume_lines};
use ext4fs_tool::plan::{Job, PlanWalk};
use ext4fs_tool::progress::CopyProgress;
use ext4fs_tool::superblock::{Superblock, SUPERBLOCK_LEN, SUPERBLOCK_OFFSET};
use ext4fs_tool::volume::{Ext4, Layout};
use std::collections::BTreeMap;

const FL_EXTENTS: u32 = 0x0008_0000;
const FL_INDEX: u32 = 0x0000_1000;
const FL_INLINE: u32 = 0x1000_0000;
const MODE_REG: u16 = 0o100644;
const MODE_DIR: u16 = 0o040755;
const MODE_LNK: u16 = 0o120777;

fn w16(d: &mut [u8], o: usize, v: u16) {
    d[o..o + 2].copy_from_slice(&v.to_le_bytes());
}

fn w32(d: &mut [u8], o: usize, v: u32) {
    d[o..o + 4].copy_from_slice(&v.to_le_bytes());
}

/// A volume under construction: metadata in the first blocks, then data.
struct Maker {
    data: Vec<u8>,
    bs: usize,
    table: usize,
    inode_size: usize,
    filetype: bool,
    next_inode: u32,
    next_block: usize,
}

impl Maker {
    /// `blocks` blocks in one group with `inodes` inodes.
    fn new(bs: usize, blocks: usize, inodes: usize, inode_size: usize, wide: bool) -> Maker {
        let first = if bs == 1024 { 2 } else { 1 };
        let table = first + 1;
        let mut data = vec![0u8; bs * blocks];
        let log = (bs / 1024).trailing_zeros();
        let sb = &mut data[1024..2048];
        w32(sb, 0, inodes as u32);
        w32(sb, 4, blocks as u32);
        w32(sb, 24, log);
        w32(sb, 32, blocks as u32);
        w32(sb, 40, inodes as u32);
        w16(sb, 56, 0xEF53);
        w16(sb, 88, inode_size as u16);
        if wide {
            w32(sb, 96, 0x0002 | 0x0040 | 0x0080 | 0x8000);
            w16(sb, 254, 64);
        }
        sb[120..127].copy_from_slice(b"testvol");
        w32(&mut data, first * bs + 8, table as u32);
        let used = table + (inodes * inode_size).div_ceil(bs);
        Maker {
            data,
            bs,
            table,
            inode_size,
            filetype: wide,
            next_inode: 2,
            next_block: used,
        }
    }

    fn inode(&mut self, mode: u16, flags: u32) -> u32 {
        let ino = self.next_inode;
        self.next_inode += 1;
        let wide = self.inode_size > 128;
        let raw = self.raw(ino);
        w16(raw, 0, mode);
        w16(raw, 26, 1);
        w32(raw, 32, flags);
        if wide {
            w16(raw, 128, 32);
        }
        ino
    }

    fn raw(&mut self, ino: u32) -> &mut [u8] {
        let o = self.table * self.bs + (ino as usize - 1) * self.inode_size;
        &mut self.data[o..o + self.inode_size]
    }

    fn block(&mut self) -> usize {
        self.next_block += 1;
        self.next_block - 1
    }

    fn fill(&mut self, block: usize, bytes: &[u8]) {
        let o = block * self.bs;
        self.data[o..o + bytes.len()].copy_from_slice(bytes);
    }

    fn size(&mut self, ino: u32, size: u64, blocks: u64) {
        let raw = self.raw(ino);
        w32(raw, 4, size as u32);
        w32(raw, 108, (size >> 32) as u32);
        w32(raw, 28, blocks as u32);
    }

    fn node(area: &mut [u8], depth: u16, entries: &[(u32, u16, u64)]) {
        w16(area, 0, 0xF30A);
        w16(area, 2, entries.len() as u16);
        w16(area, 6, depth);
        for (i, (l, len, phys)) in entries.iter().enumerate() {
            let e = 12 + i * 12;
            w32(area, e, *l);
            if depth == 0 {
                w16(area, e + 4, *len);
                w16(area, e + 6, (*phys >> 32) as u16);
                w32(area, e + 8, *phys as u32);
            } else {
                w32(area, e + 4, *phys as u32);
                w16(area, e + 8, (*phys >> 32) as u16);
            }
        }
    }

    fn extents(&mut self, ino: u32, extents: &[(u32, u16, u64)]) {
        let raw = self.raw(ino);
        Maker::node(&mut raw[40..100], 0, extents);
    }

    fn index(&mut self, ino: u32, depth: u16, children: &[(u32, u64)]) {
        let list: Vec<(u32, u16, u64)> = children.iter().map(|c| (c.0, 0, c.1)).collect();
        let raw = self.raw(ino);
        Maker::node(&mut raw[40..100], depth, &list);
    }

    fn node_block(&mut self, block: usize, depth: u16, entries: &[(u32, u16, u64)]) {
        let o = block * self.bs;
        let bs = self.bs;
        Maker::node(&mut self.data[o..o + bs], depth, entries);
    }

    fn pointers(&mut self, ino: u32, slot: usize, blocks: &[usize]) {
        let raw = self.raw(ino);
        for (i, b) in blocks.iter().enumerate() {
            w32(raw, 40 + (slot + i) * 4, *b as u32);
        }
    }

    fn pointer_block(&mut self, block: usize, ptrs: &[usize]) {
        let o = block * self.bs;
        for (i, p) in ptrs.iter().enumerate() {
            w32(&mut self.data, o + i * 4, *p as u32);
        }
    }

    fn dir_block(&mut self, block: usize, entries: &[(u32, &str, u8)]) {
        let base = block * self.bs;
        let mut off = 0;
        for (i, (ino, name, ft)) in entries.iter().enumerate() {
            let step = (8 + name.len() + 7) / 8 * 8;
            let rec = if i + 1 == entries.len() { self.bs - off } else { step };
            let d = &mut self.data[base..base + self.bs];
            w32(d, off, *ino);
            w16(d, off + 4, rec as u16);
            if self.filetype {
                d[off + 6] = name.len() as u8;
                d[off + 7] = *ft;
            } else {
                w16(d, off + 6, name.len() as u16);
            }
            d[off + 8..off + 8 + name.len()].copy_from_slice(name.as_bytes());
            off += step;
        }
    }

    /// A file of one block.
    fn file(&mut self, text: &[u8]) -> u32 {
        let ino = self.inode(MODE_REG, FL_EXTENTS);
        let b = self.block();
        self.fill(b, text);
        self.extents(ino, &[(0, 1, b as u64)]);
        self.size(ino, text.len() as u64, 8);
        ino
    }

    fn fast_link(&mut self, target: &str) -> u32 {
        let ino = self.inode(MODE_LNK, 0);
        self.raw(ino)[40..40 + target.len()].copy_from_slice(target.as_bytes());
        self.size(ino, target.len() as u64, 0);
        ino
    }

    /// A directory of one block.
    fn dir(&mut self, ino: u32, parent: u32, entries: &[(u32, &str, u8)]) {
        let b = self.block();
        let mut all = vec![(ino, ".", 2), (parent, "..", 2)];
        all.extend_from_slice(entries);
        self.dir_block(b, &all);
        self.extents(ino, &[(0, 1, b as u64)]);
        self.size(ino, self.bs as u64, 8);
    }
}

fn pattern(len: usize) -> Vec<u8> {
    let text = b"Hello from ext4fs-tool!\n";
    (0..len).map(|i| text[i % text.len()]).collect()
}

const LONG_TARGET: &str =
    "/this/is/a/rather/long/symlink/target/that/needs/its/own/data/block/for/reading.txt";

/// Extents, an indexed directory, inline data, links, a sparse file and names beyond ASCII.
fn ext4_image() -> Vec<u8> {
    let bs = 4096;
    let mut m = Maker::new(bs, 512, 256, 256, true);
    let root = m.inode(MODE_DIR, FL_EXTENTS);
    let hello = m.inode(MODE_REG, FL_EXTENTS);
    let subdir = m.inode(MODE_DIR, FL_EXTENTS);
    let sparse = m.inode(MODE_REG, FL_EXTENTS);
    let frag = m.inode(MODE_REG, FL_EXTENTS);
    let longlink = m.inode(MODE_LNK, FL_EXTENTS);
    let fastlink = m.fast_link("/hello.txt");
    let inline = m.inode(MODE_REG, FL_INLINE);
    let big = m.inode(MODE_DIR, FL_EXTENTS | FL_INDEX);
    let inner = m.file(&pattern(bs));
    let link2 = m.fast_link("../hello.txt");
    let zh_file = m.file("中文内容，UTF-8 测试！\n".as_bytes());
    let zh_dir = m.inode(MODE_DIR, FL_EXTENTS);
    let zh_inner = m.file("你好，ext4！\n".as_bytes());
    m.dir(
        root,
        root,
        &[
            (hello, "hello.txt", 1),
            (subdir, "subdir", 2),
            (sparse, "sparse.bin", 1),
            (frag, "frag.bin", 1),
            (longlink, "longlink", 7),
            (fastlink, "fastlink", 7),
            (inline, "inline.txt", 1),
            (big, "big", 2),
            (zh_file, "中文文件.txt", 1),
            (zh_dir, "中文目录", 2),
        ],
    );
    m.dir(zh_dir, root, &[(zh_inner, "你好.txt", 1)]);
    m.dir(subdir, root, &[(inner, "inner.txt", 1), (link2, "link", 7)]);

    let pat = pattern(2 * bs);
    let (h1, h2, h3) = (m.block(), m.block(), m.block());
    m.fill(h1, &pat[..bs]);
    m.fill(h2, &pat[..bs]);
    m.fill(h3, &pat[..100]);
    m.extents(hello, &[(0, 2, h1 as u64), (2, 1, h3 as u64)]);
    m.size(hello, (2 * bs + 100) as u64, 24);

    let s0 = m.block();
    m.fill(s0, &pat[..bs]);
    m.extents(sparse, &[(0, 1, s0 as u64)]);
    m.size(sparse, (3 * bs + 100) as u64, 8);

    let leaf = m.block();
    let mut list = Vec::new();
    for k in 0..5u32 {
        let b = m.block();
        m.fill(b, &pat[..bs]);
        list.push((k * 10, 1, b as u64));
    }
    m.node_block(leaf, 0, &list);
    m.index(frag, 1, &[(0, leaf as u64)]);
    m.size(frag, (40 * bs + 100) as u64, 40);

    let lb = m.block();
    m.fill(lb, LONG_TARGET.as_bytes());
    m.extents(longlink, &[(0, 1, lb as u64)]);
    m.size(longlink, LONG_TARGET.len() as u64, 8);

    let content = b"inline data test!\n";
    m.raw(inline)[160..160 + content.len()].copy_from_slice(content);
    m.size(inline, content.len() as u64, 0);

    let names: Vec<String> = (0..200).map(|i| format!("f{:03}", i)).collect();
    let mut entries = Vec::new();
    for name in &names {
        let ino = m.inode(MODE_REG, FL_EXTENTS);
        let area = m.raw(ino);
        w16(area, 40, 0xF30A);
        entries.push((ino, name.as_str(), 1u8));
    }
    let (root_b, _filler, leaf_b) = (m.block(), m.block(), m.block());
    m.extents(big, &[(0, 1, root_b as u64), (1, 1, leaf_b as u64)]);
    m.size(big, (2 * bs) as u64, 16);
    m.dir_block(leaf_b, &entries);
    let d = &mut m.data[root_b * bs..(root_b + 1) * bs];
    w32(d, 0, big);
    w16(d, 4, 12);
    d[6] = 1;
    d[7] = 2;
    d[8] = b'.';
    w32(d, 12, root);
    w16(d, 16, 12);
    d[18] = 2;
    d[19] = 2;
    d[20..22].copy_from_slice(b"..");
    d[28] = 1;
    d[29] = 8;
    w16(d, 32, 2);
    w16(d, 34, 1);
    w32(d, 36, 1);
    m.data
}

/// Direct, single and double indirect blocks, in entries without file types.
fn ext2_image() -> Vec<u8> {
    let bs = 1024;
    let mut m = Maker::new(bs, 1024, 16, 128, false);
    let root = m.inode(MODE_DIR, 0);
    let rb = m.block();
    m.pointers(root, 0, &[rb]);
    m.size(root, bs as u64, 2);
    let big = m.inode(MODE_REG, 0);
    let blocks: Vec<usize> = (0..300).map(|_| m.block()).collect();
    for (n, b) in blocks.iter().enumerate() {
        let mark = format!("blk{:03}", n);
        let bytes: Vec<u8> = (0..bs).map(|i| mark.as_bytes()[i % mark.len()]).collect();
        m.fill(*b, &bytes);
    }
    let (single, double, mid) = (m.block(), m.block(), m.block());
    m.pointers(big, 0, &blocks[..12]);
    m.pointers(big, 12, &[single, double]);
    m.pointer_block(single, &blocks[12..268]);
    m.pointer_block(double, &[mid]);
    m.pointer_block(mid, &blocks[268..]);
    m.size(big, 300 * 1024, 600);
    m.dir_block(rb, &[(root, ".", 0), (root, "..", 0), (big, "big.txt", 0)]);
    m.data
}

fn at(data: &[u8], from: usize, len: usize) -> Vec<u8> {
    (from..from + len).map(|i| *data.get(i).unwrap_or(&0)).collect()
}

fn superblock(data: &[u8], start: u64) -> Result<Superblock> {
    let pos = (start + SUPERBLOCK_OFFSET) as usize;
    Superblock::parse(&at(data, pos, SUPERBLOCK_LEN))
}

fn try_open(data: &[u8], start: u64) -> Result<Ext4> {
    let layout = Layout::of(superblock(data, start)?, start)?;
    let table = at(data, layout.table_offset as usize, layout.table_len as usize);
    Ok(Ext4::open(layout, &table))
}

fn open(data: &[u8]) -> Ext4 {
    try_open(data, 0).unwrap()
}

/// Hands a block of the disk to the volume.
fn supply(data: &[u8], fs: &mut Ext4, block: u64) {
    let pos = fs.block_position(block).unwrap() as usize;
    let len = fs.block_size as usize;
    let from = pos.min(data.len());
    let to = (pos + len).min(data.len());
    fs.supply_block(block, Ok(data[from..to].to_vec()));
}

/// Repeats an operation, supplying the blocks it asks for.
fn run<T>(data: &[u8], fs: &mut Ext4, op: impl Fn(&Ext4) -> Result<T>) -> Result<T> {
    let mut asked: Vec<u64> = Vec::new();
    loop {
        match op(fs) {
            Err(ExtError::Pending(b)) => {
                assert!(!asked.contains(&b), "asked twice for block {}", b);
                asked.push(b);
                supply(data, fs, b);
            }
            other => return other,
        }
    }
}

fn resolve(data: &[u8], fs: &mut Ext4, path: &str) -> Result<u32> {
    run(data, fs, |fs| fs.resolve(path))
}

fn inode_at(data: &[u8], fs: &mut Ext4, path: &str) -> Inode {
    let ino = resolve(data, fs, path).unwrap();
    run(data, fs, |fs| fs.read_inode(ino)).unwrap()
}

fn names(entries: &[DirEntry]) -> Vec<String> {
    entries.iter().map(|e| e.name.clone()).collect()
}

fn contents(data: &[u8], fs: &mut Ext4, path: &str) -> Vec<u8> {
    let inode = inode_at(data, fs, path);
    run(data, fs, |fs| {
        let mut out = Vec::new();
        fs.read_inode_data(&inode, &mut out)?;
        Ok(out)
    })
    .unwrap()
}

fn error_text<T>(r: Result<T>) -> String {
    match r {
        Ok(_) => panic!("expected an error"),
        Err(e) => e.message(),
    }
}

// ---------------------------------------------------------------------------
// opening
// ---------------------------------------------------------------------------

#[test]
fn superblock_fields_are_read() {
    let data = ext4_image();
    let sb = superblock(&data, 0).unwrap();
    assert_eq!(sb.magic, 0xEF53);
    assert_eq!(sb.blocks_count, 512);
    assert_eq!(sb.inodes_per_group, 256);
    assert_eq!(sb.inode_size, 256);
    assert_eq!(sb.desc_size, 64);
    assert_eq!(sb.volume_name, "testvol");
    assert_eq!(sb.last_mounted, "");
    assert_eq!(sb.block_size(), 4096);
    assert!(sb.has_incompat(0x0040));
    assert!(!sb.has_incompat(0x0200));
    assert!(!sb.has_compat(0x0004));
    assert!(!sb.has_ro_compat(0x0001));
}

#[test]
fn a_filled_label_needs_no_zero() {
    let mut data = ext4_image();
    data[1024 + 120..1024 + 136].copy_from_slice(b"sixteen-letters!");
    assert_eq!(superblock(&data, 0).unwrap().volume_name, "sixteen-letters!");
}

#[test]
fn bad_magic_is_refused() {
    let data = vec![0u8; 8192];
    assert_eq!(
        error_text(superblock(&data, 0)),
        "I/O error: bad superblock magic 0x0000 (not an ext2/3/4 filesystem?)"
    );
}

#[test]
fn bad_layouts_are_refused() {
    let good = ext4_image();
    let mut data = good.clone();
    w32(&mut data, 1024 + 24, 7);
    assert_eq!(
        error_text(try_open(&data, 0)),
        "corrupt filesystem: invalid block size 131072"
    );
    let mut data = good.clone();
    w32(&mut data, 1024 + 24, 60);
    assert_eq!(error_text(try_open(&data, 0)), "corrupt filesystem: invalid block size 0");
    let mut data = good.clone();
    w32(&mut data, 1024 + 24, 64);
    assert_eq!(
        error_text(try_open(&data, 0)),
        "corrupt filesystem: invalid block size exponent 64"
    );
    let mut data = good.clone();
    w16(&mut data, 1024 + 254, 32);
    assert_eq!(
        error_text(try_open(&data, 0)),
        "corrupt filesystem: 64bit feature set but s_desc_size < 64"
    );
    let mut data = good.clone();
    w16(&mut data, 1024 + 254, 128);
    assert_eq!(
        error_text(try_open(&data, 0)),
        "corrupt filesystem: invalid group descriptor size 128"
    );
    let mut data = good.clone();
    w32(&mut data, 1024 + 32, 0);
    assert_eq!(error_text(try_open(&data, 0)), "corrupt filesystem: blocks per group is 0");
    let mut data = good.clone();
    w32(&mut data, 1024 + 336, u32::MAX);
    w32(&mut data, 1024 + 32, 1);
    assert_eq!(
        error_text(try_open(&data, 0)),
        "corrupt filesystem: group descriptor table out of range"
    );
}

#[test]
fn descriptors_are_of_one_of_two_sizes() {
    let mut data = ext2_image();
    w16(&mut data, 1024 + 254, 128);
    let mut fs = open(&data);
    assert_eq!((fs.desc_size, fs.is_64bit), (32, false));
    supply(&data, &mut fs, 0);
    fs.forget_blocks();
    assert_eq!((fs.desc_size, fs.is_64bit), (32, false));
    let data = ext4_image();
    let mut fs = open(&data);
    assert_eq!((fs.desc_size, fs.is_64bit), (64, true));
    supply(&data, &mut fs, 0);
    fs.forget_blocks();
    assert_eq!((fs.desc_size, fs.is_64bit), (64, true));
}

#[test]
fn layouts_follow_the_block_size() {
    let layout = Layout::of(superblock(&ext4_image(), 0).unwrap(), 1000).unwrap();
    assert_eq!((layout.table_offset, layout.table_len), (1000 + 4096, 4096));
    assert_eq!((layout.groups_count, layout.desc_size, layout.is_64bit), (1, 64, true));
    let layout = Layout::of(superblock(&ext2_image(), 0).unwrap(), 0).unwrap();
    assert_eq!((layout.table_offset, layout.table_len), (2048, 1024));
    assert_eq!((layout.groups_count, layout.desc_size, layout.is_64bit), (1, 32, false));
}

#[test]
fn group_descriptors_are_read() {
    let mut t = vec![0u8; 128];
    w32(&mut t, 64, 7);
    w32(&mut t, 64 + 32, 1);
    w32(&mut t, 64 + 8, 9);
    w32(&mut t, 64 + 12, 0x0003_0005);
    w16(&mut t, 64 + 44, 2);
    w16(&mut t, 64 + 46, 1);
    w16(&mut t, 64 + 18, 4);
    let g = parse_all(&t, 2, 64, true);
    assert_eq!(g.len(), 2);
    assert_eq!(g[1].block_bitmap, 7 + (1u64 << 32));
    assert_eq!(g[1].inode_table, 9);
    assert_eq!(g[1].free_blocks_count, 0x0003_0005);
    assert_eq!(g[1].free_inodes_count, 0x0001_0003);
    assert_eq!(g[1].flags, 4);
    let g = parse_all(&t[64..96], 1, 32, false);
    assert_eq!(g[0].block_bitmap, 7);
    assert_eq!(g[0].free_inodes_count, 3);
    assert_eq!((first_gdt_block(1024), first_gdt_block(4096)), (2, 1));
}

// ---------------------------------------------------------------------------
// inodes and blocks
// ---------------------------------------------------------------------------

#[test]
fn inode_fields_are_read() {
    let mut raw = vec![0u8; 132];
    w16(&mut raw, 0, 0o120644);
    w16(&mut raw, 2, 5);
    w16(&mut raw, 120, 1);
    w32(&mut raw, 4, 7);
    w32(&mut raw, 108, 2);
    w32(&mut raw, 40 + 8, 77);
    w16(&mut raw, 116, 3);
    w16(&mut raw, 128, 28);
    w16(&mut raw, 124, 6);
    w16(&mut raw, 130, 9);
    let inode = Inode::parse(&raw, 12);
    assert_eq!(inode.ino, 12);
    assert_eq!(inode.uid, 0x1_0005);
    assert_eq!(inode.size, (2u64 << 32) + 7);
    assert_eq!(inode.block[2], 77);
    assert_eq!(inode.block_raw[8], 77);
    assert_eq!(inode.blocks, 3u64 << 32);
    assert_eq!(inode.extra_isize, 28);
    assert_eq!(inode.checksum, 0x9_0006);
    assert_eq!(inode.file_type(), 0o120000);
    assert!(inode.is_symlink() && !inode.is_dir() && !inode.is_file());
    assert!(!inode.is_fast_symlink());
    let short = Inode::parse(&raw[..126], 12);
    assert_eq!((short.extra_isize, short.checksum), (0, 6));
}

#[test]
fn inode_numbers_are_checked() {
    let data = ext4_image();
    let mut fs = open(&data);
    assert_eq!(error_text(fs.read_inode(0)), "corrupt filesystem: inode number 0");
    assert_eq!(
        error_text(fs.read_inode(1000)),
        "corrupt filesystem: inode 1000 outside group table"
    );
    assert!(matches!(fs.read_inode(2), Err(ExtError::Pending(2))));
    assert!(run(&data, &mut fs, |fs| fs.read_inode(2)).unwrap().is_dir());
    fs.sb.inodes_per_group = 0;
    assert_eq!(error_text(fs.read_inode(2)), "corrupt filesystem: inodes per group is 0");
    fs.sb.inodes_per_group = 256;
    fs.sb.inode_size = 100;
    assert_eq!(
        error_text(run(&data, &mut fs, |fs| fs.read_inode(2))),
        "corrupt filesystem: inode record too short"
    );
    fs.sb.inode_size = 3000;
    assert_eq!(
        error_text(run(&data, &mut fs, |fs| fs.read_inode(2))),
        "corrupt filesystem: inode crosses block boundary"
    );
}

#[test]
fn blocks_are_kept_as_supplied() {
    let data = ext4_image();
    let mut fs = open(&data);
    assert!(matches!(fs.read_block(3), Err(ExtError::Pending(3))));
    fs.supply_block(3, Err("disk on fire".to_string()));
    assert_eq!(error_text(fs.read_block(3)), "I/O error: disk on fire");
    fs.supply_block(3, Ok(vec![7u8; 4096]));
    assert_eq!(fs.read_block(3).unwrap(), vec![7u8; 4096]);
    assert_eq!(
        error_text(fs.read_block(u64::MAX)),
        "corrupt filesystem: block address out of range"
    );
    assert_eq!(fs.block_position(3), Some(3 * 4096));
    assert_eq!(fs.block_position(u64::MAX), None);
}

#[test]
fn bytes_are_read_across_blocks() {
    let data = ext4_image();
    let mut fs = open(&data);
    let got = run(&data, &mut fs, |fs| fs.read_bytes_at(4000, 9000)).unwrap();
    assert_eq!(got, data[4000..13000].to_vec());
    assert_eq!(fs.read_bytes_at(0, 0).unwrap(), Vec::<u8>::new());
}

#[test]
fn a_device_may_end_within_a_block() {
    let mut data = ext4_image();
    let end = 9 * 4096 + 100;
    data.truncate(end);
    let mut fs = open(&data);
    let got = run(&data, &mut fs, |fs| fs.read_bytes_at(end as u64 - 4200, 4200)).unwrap();
    assert_eq!(got, data[end - 4200..].to_vec());
    let text = "I/O error: failed to fill whole buffer";
    let far = run(&data, &mut fs, |fs| fs.read_bytes_at(end as u64 - 4200, 4201));
    assert_eq!(error_text(far), text);
    assert_eq!(error_text(run(&data, &mut fs, |fs| fs.read_block(9))), text);
    assert_eq!(error_text(run(&data, &mut fs, |fs| fs.read_block(10))), text);
    assert_eq!(error_text(fs.read_bytes_at(u64::MAX, 1)), text);
    assert_eq!(error_text(fs.read_bytes_at(u64::MAX - 4, usize::MAX)), text);
}

#[test]
fn a_volume_inside_a_disk_has_its_own_addresses() {
    let inner = ext4_image();
    let start = 1048576usize;
    let mut data = vec![0u8; start];
    data.extend_from_slice(&inner);
    let mut fs = try_open(&data, start as u64).unwrap();
    assert_eq!(contents(&data, &mut fs, "/inline.txt"), b"inline data test!\n".to_vec());
}

// ---------------------------------------------------------------------------
// data
// ---------------------------------------------------------------------------

#[test]
fn files_with_extents_are_read() {
    let data = ext4_image();
    let mut fs = open(&data);
    let pat = pattern(8192);
    let mut expected = pat[..4096].to_vec();
    expected.extend_from_slice(&pat[..4096]);
    expected.extend_from_slice(&pat[..100]);
    assert_eq!(contents(&data, &mut fs, "/hello.txt"), expected);
    assert_eq!(contents(&data, &mut fs, "/inline.txt"), b"inline data test!\n".to_vec());
    assert_eq!(
        contents(&data, &mut fs, "/中文文件.txt"),
        "中文内容，UTF-8 测试！\n".as_bytes().to_vec()
    );
    assert_eq!(
        contents(&data, &mut fs, "/中文目录/你好.txt"),
        "你好，ext4！\n".as_bytes().to_vec()
    );
}

#[test]
fn holes_read_as_zeros() {
    let data = ext4_image();
    let mut fs = open(&data);
    let sparse = contents(&data, &mut fs, "/sparse.bin");
    assert_eq!(sparse.len(), 3 * 4096 + 100);
    assert_eq!(sparse[..4096].to_vec(), pattern(4096));
    assert!(sparse[4096..].iter().all(|b| *b == 0));
    let frag = contents(&data, &mut fs, "/frag.bin");
    assert_eq!(frag.len(), 40 * 4096 + 100);
    for k in 0..40usize {
        let piece = frag[k * 4096..(k + 1) * 4096].to_vec();
        if k % 10 == 0 {
            assert_eq!(piece, pattern(4096));
        } else {
            assert_eq!(piece, vec![0u8; 4096]);
        }
    }
    assert_eq!(frag[40 * 4096..].to_vec(), pattern(100));
}

#[test]
fn files_with_indirect_blocks_are_read() {
    let data = ext2_image();
    let mut fs = open(&data);
    let got = contents(&data, &mut fs, "/big.txt");
    assert_eq!(got.len(), 300 * 1024);
    for n in [0usize, 11, 12, 267, 268, 299] {
        let mark = format!("blk{:03}", n);
        assert_eq!(&got[n * 1024..n * 1024 + 6], mark.as_bytes());
    }
    let inode = inode_at(&data, &mut fs, "/big.txt");
    assert_eq!(run(&data, &mut fs, |fs| fs.block_to_paddr(&inode, 300)).unwrap(), None);
    // a missing triple indirect tree is all holes, and beyond it nothing can be mapped
    let reach = 12 + 256 + 256 * 256 + 256 * 256 * 256;
    assert_eq!(run(&data, &mut fs, |fs| fs.block_to_paddr(&inode, reach - 1)).unwrap(), None);
    assert_eq!(
        error_text(fs.block_to_paddr(&inode, reach)),
        "unsupported feature: file block number too large for indirect mapping"
    );
}

#[test]
fn triple_indirect_blocks_are_followed() {
    let mut m = Maker::new(1024, 64, 16, 128, false);
    let ino = m.inode(MODE_REG, 0);
    let (a, b, c, d) = (m.block(), m.block(), m.block(), m.block());
    m.pointers(ino, 14, &[a]);
    let o = a * 1024 + 3 * 4;
    w32(&mut m.data, o, b as u32);
    let o = b * 1024 + 4 * 4;
    w32(&mut m.data, o, c as u32);
    let o = c * 1024 + 5 * 4;
    w32(&mut m.data, o, d as u32);
    let data = m.data;
    let mut fs = open(&data);
    let inode = run(&data, &mut fs, |fs| fs.read_inode(ino)).unwrap();
    let n = 12 + 256 + 65536 + 3 * 65536 + 4 * 256 + 5;
    assert_eq!(
        run(&data, &mut fs, |fs| fs.block_to_paddr(&inode, n)).unwrap(),
        Some(d as u64)
    );
    assert_eq!(run(&data, &mut fs, |fs| fs.block_to_paddr(&inode, n + 1)).unwrap(), None);
    assert_eq!(run(&data, &mut fs, |fs| fs.block_to_paddr(&inode, n + 256)).unwrap(), None);
}

#[test]
fn extent_trees_are_searched() {
    let mut m = Maker::new(1024, 64, 16, 128, false);
    let ino = m.inode(MODE_REG, FL_EXTENTS);
    let (top, left, right) = (m.block(), m.block(), m.block());
    m.index(ino, 2, &[(0, top as u64)]);
    m.node_block(top, 1, &[(0, 0, left as u64), (100, 0, right as u64)]);
    m.node_block(left, 0, &[(5, 2, 40), (50, 0x8000 + 3, 45)]);
    m.node_block(right, 0, &[(100, 1, (7u64 << 32) + 50)]);
    let data = m.data;
    let mut fs = open(&data);
    let inode = run(&data, &mut fs, |fs| fs.read_inode(ino)).unwrap();
    let mut find = |n: u64| run(&data, &mut fs, |fs| fs.block_to_paddr(&inode, n)).unwrap();
    assert_eq!(find(4), None);
    assert_eq!(find(5), Some(40));
    assert_eq!(find(6), Some(41));
    assert_eq!(find(7), None);
    assert_eq!(find(51), None);
    assert_eq!(find(100), Some((7u64 << 32) + 50));
    assert_eq!(find(101), None);
}

#[test]
fn broken_extent_trees_are_reported() {
    let mut m = Maker::new(1024, 64, 16, 128, false);
    let bad_magic = m.inode(MODE_REG, FL_EXTENTS);
    let uncovered = m.inode(MODE_REG, FL_EXTENTS);
    let looping = m.inode(MODE_REG, FL_EXTENTS);
    let overfull = m.inode(MODE_REG, FL_EXTENTS);
    let b = m.block();
    m.index(uncovered, 1, &[(10, b as u64)]);
    m.index(looping, 1, &[(0, b as u64)]);
    m.node_block(b, 1, &[(0, 0, b as u64)]);
    m.extents(overfull, &[(0, 1, 9)]);
    w16(m.raw(overfull), 42, 9);
    let data = m.data;
    let mut fs = open(&data);
    let mut find = |ino: u32, n: u64| {
        let inode = run(&data, &mut fs, |fs| fs.read_inode(ino)).unwrap();
        run(&data, &mut fs, |fs| fs.block_to_paddr(&inode, n))
    };
    assert_eq!(error_text(find(bad_magic, 0)), "corrupt filesystem: bad extent header magic");
    assert_eq!(
        error_text(find(uncovered, 3)),
        "corrupt filesystem: no extent index covers block"
    );
    assert_eq!(error_text(find(looping, 0)), "corrupt filesystem: extent tree too deep");
    assert_eq!(find(overfull, 0).unwrap(), Some(9));
    assert_eq!(
        error_text(find(overfull, 5)),
        "corrupt filesystem: extent entry outside its node"
    );
}

#[test]
fn inline_data_must_fit() {
    let data = ext4_image();
    let mut fs = open(&data);
    let mut inode = inode_at(&data, &mut fs, "/inline.txt");
    assert_eq!(fs.inline_data(&inode).unwrap(), b"inline data test!\n".to_vec());
    inode.size = 97;
    assert_eq!(
        error_text(fs.inline_data(&inode)),
        "corrupt filesystem: inline data of inode 9 overruns inode (pos 160, size 97)"
    );
    inode.extra_isize = 65535;
    inode.size = u64::MAX;
    assert_eq!(
        error_text(fs.inline_data(&inode)),
        "corrupt filesystem: inline data of inode 9 overruns inode (pos 65663, size 18446744073709551615)"
    );
}

#[test]
fn a_failed_read_delivers_what_came_before() {
    let data = ext4_image();
    let mut fs = open(&data);
    let inode = inode_at(&data, &mut fs, "/hello.txt");
    let first = run(&data, &mut fs, |fs| fs.block_to_paddr(&inode, 0)).unwrap().unwrap();
    supply(&data, &mut fs, first);
    fs.supply_block(first + 1, Err("unreadable".to_string()));
    let mut out = vec![1u8, 2];
    let r = read_inode_data(&fs, &inode, &mut out);
    assert_eq!(error_text(r), "I/O error: unreadable");
    assert_eq!(out.len(), 2 + 4096);
    assert_eq!(out[..2].to_vec(), vec![1u8, 2]);
    assert_eq!(out[2..].to_vec(), pattern(4096));
}

/// Reads a file piece by piece, the way a copy does.
fn pieces(data: &[u8], fs: &mut Ext4, inode: &Inode) -> Vec<u8> {
    let mut out = Vec::new();
    let mut k = 0;
    while let Some(piece) = run(data, fs, |fs| fs.data_piece(inode, k)).unwrap() {
        append(data, fs, piece, &mut out);
        k += 1;
    }
    out
}

fn append(data: &[u8], fs: &Ext4, piece: Piece, out: &mut Vec<u8>) {
    match piece {
        Piece::Bytes(b) => out.extend_from_slice(&b),
        Piece::Zeros(n) => out.extend(std::iter::repeat(0u8).take(n as usize)),
        Piece::Block { pblock, len } => {
            let pos = fs.block_position(pblock).unwrap() as usize;
            out.extend_from_slice(&data[pos..pos + len as usize]);
        }
    }
}

#[test]
fn pieces_make_the_whole() {
    let data = ext4_image();
    for path in ["/hello.txt", "/sparse.bin", "/frag.bin", "/inline.txt", "/subdir/inner.txt"] {
        let mut fs = open(&data);
        let inode = inode_at(&data, &mut fs, path);
        let whole = contents(&data, &mut fs, path);
        assert_eq!(pieces(&data, &mut open(&data), &inode), whole, "{}", path);
    }
    let mut fs = open(&data);
    let inode = inode_at(&data, &mut fs, "/sparse.bin");
    assert!(matches!(
        run(&data, &mut fs, |fs| fs.data_piece(&inode, 3)).unwrap(),
        Some(Piece::Zeros(100))
    ));
    assert!(run(&data, &mut fs, |fs| fs.data_piece(&inode, 4)).unwrap().is_none());
}

// ---------------------------------------------------------------------------
// directories
// ---------------------------------------------------------------------------

#[test]
fn linear_directories_are_listed() {
    let data = ext4_image();
    let mut fs = open(&data);
    let root = inode_at(&data, &mut fs, "/");
    let list = run(&data, &mut fs, |fs| fs.list_dir(&root)).unwrap();
    assert_eq!(
        names(&list),
        vec![
            ".",
            "..",
            "hello.txt",
            "subdir",
            "sparse.bin",
            "frag.bin",
            "longlink",
            "fastlink",
            "inline.txt",
            "big",
            "中文文件.txt",
            "中文目录"
        ]
    );
    assert_eq!(list[2].file_type, 1);
    assert_eq!(list[9].file_type, 2);
    assert_eq!(list[0].rec_len, 16);
    assert_eq!(
        run(&data, &mut fs, |fs| fs.lookup_dir(&root, "big")).unwrap(),
        Some((10, 2))
    );
    assert_eq!(run(&data, &mut fs, |fs| fs.lookup_dir(&root, "Big")).unwrap(), None);
    let data = ext2_image();
    let mut fs = open(&data);
    let root = inode_at(&data, &mut fs, "/");
    let list = run(&data, &mut fs, |fs| fs.list_dir(&root)).unwrap();
    assert_eq!(names(&list), vec![".", "..", "big.txt"]);
    assert_eq!(list[2].file_type, 0);
}

#[test]
fn indexed_directories_are_listed() {
    let data = ext4_image();
    let mut fs = open(&data);
    let big = inode_at(&data, &mut fs, "/big");
    let list = run(&data, &mut fs, |fs| fs.list_dir(&big)).unwrap();
    assert_eq!(list.len(), 202);
    assert_eq!((list[0].name.as_str(), list[0].rec_len), (".", 0));
    assert_eq!((list[1].name.as_str(), list[1].ino), ("..", 2));
    assert_eq!(list[2].name, "f000");
    assert_eq!(list[201].name, "f199");
}

/// A directory with one level of index blocks above two leaves.
fn deep_index() -> (Maker, u32, usize) {
    let mut m = Maker::new(1024, 64, 16, 128, true);
    let dir = m.inode(MODE_DIR, FL_EXTENTS | FL_INDEX);
    let blocks: Vec<usize> = (0..4).map(|_| m.block()).collect();
    let list: Vec<(u32, u16, u64)> =
        blocks.iter().enumerate().map(|(i, b)| (i as u32, 1, *b as u64)).collect();
    m.extents(dir, &list);
    m.size(dir, 4096, 8);
    let root = blocks[0] * 1024;
    w32(&mut m.data, root, dir);
    m.data[root + 6] = 1;
    m.data[root + 8] = b'.';
    m.data[root + 29] = 8;
    m.data[root + 30] = 1;
    w16(&mut m.data, root + 34, 1);
    w32(&mut m.data, root + 36, 1);
    let node = blocks[1] * 1024;
    w16(&mut m.data, node + 10, 2);
    w32(&mut m.data, node + 12, 3);
    w32(&mut m.data, node + 20, 2);
    m.dir_block(blocks[2], &[(5, "five", 1)]);
    m.dir_block(blocks[3], &[(6, "six", 1), (0, "gone", 1), (7, "seven", 1)]);
    (m, dir, root)
}

#[test]
fn index_levels_are_followed() {
    let (m, dir, _) = deep_index();
    let data = m.data;
    let mut fs = open(&data);
    let inode = run(&data, &mut fs, |fs| fs.read_inode(dir)).unwrap();
    let list = run(&data, &mut fs, |fs| fs.list_dir(&inode)).unwrap();
    assert_eq!(names(&list), vec![".", "six", "seven", "five"]);
}

#[test]
fn broken_indexes_are_reported() {
    let listing = |m: Maker, dir: u32| {
        let data = m.data;
        let mut fs = open(&data);
        let inode = run(&data, &mut fs, |fs| fs.read_inode(dir)).unwrap();
        error_text(run(&data, &mut fs, |fs| fs.list_dir(&inode)))
    };
    let (mut m, dir, _) = deep_index();
    m.extents(dir, &[]);
    assert_eq!(listing(m, dir), "corrupt filesystem: indexed dir has no root block");
    let (mut m, dir, root) = deep_index();
    w32(&mut m.data, root + 36, 9);
    assert_eq!(listing(m, dir), "corrupt filesystem: indexed dir index block is a hole");
    let (mut m, dir, root) = deep_index();
    m.data[root + 30] = 0;
    w32(&mut m.data, root + 36, 9);
    assert_eq!(listing(m, dir), "corrupt filesystem: indexed dir leaf block is a hole");
    let (mut m, dir, root) = deep_index();
    m.data[root + 30] = 0;
    w16(&mut m.data, root + 34, 1000);
    for i in 0..124 {
        w32(&mut m.data, root + 36 + i * 8, 3);
    }
    assert_eq!(
        listing(m, dir),
        "corrupt filesystem: directory index entry outside its block"
    );
}

#[test]
fn broken_entries_are_reported() {
    let build = |rec_len: u16, nlen: u8| {
        let mut m = Maker::new(1024, 64, 16, 128, true);
        let dir = m.inode(MODE_DIR, FL_EXTENTS);
        let b = m.block();
        m.extents(dir, &[(0, 1, b as u64)]);
        m.size(dir, 1024, 2);
        m.dir_block(b, &[(5, "a", 1), (6, "b", 1)]);
        let o = b * 1024 + 16;
        w16(&mut m.data, o + 4, rec_len);
        m.data[o + 6] = nlen;
        let data = m.data;
        let mut fs = open(&data);
        let inode = run(&data, &mut fs, |fs| fs.read_inode(dir)).unwrap();
        run(&data, &mut fs, |fs| fs.list_dir(&inode))
    };
    assert_eq!(names(&build(0, 1).unwrap()), vec!["a"]);
    assert_eq!(
        error_text(build(1009, 1)),
        "corrupt filesystem: directory entry overruns block (off 16, rec_len 1009)"
    );
    assert_eq!(build(1008, 255).unwrap().len(), 2);
    let mut m = Maker::new(1024, 64, 16, 128, true);
    let file = m.inode(MODE_REG, FL_EXTENTS);
    let dir = m.inode(MODE_DIR, FL_EXTENTS);
    let b = m.block();
    m.extents(dir, &[(0, 1, b as u64)]);
    m.size(dir, 1024, 2);
    let o = b * 1024;
    w32(&mut m.data, o, 5);
    w16(&mut m.data, o + 4, 1000);
    w32(&mut m.data, o + 1000, 5);
    w16(&mut m.data, o + 1004, 24);
    m.data[o + 1006] = 17;
    let data = m.data;
    let mut fs = open(&data);
    let inode = run(&data, &mut fs, |fs| fs.read_inode(dir)).unwrap();
    assert_eq!(
        error_text(run(&data, &mut fs, |fs| fs.list_dir(&inode))),
        "corrupt filesystem: directory entry name overruns block"
    );
    let inode = run(&data, &mut fs, |fs| fs.read_inode(file)).unwrap();
    assert_eq!(error_text(fs.list_dir(&inode)), "inode 2 is not a directory");
}

#[test]
fn names_that_are_not_text_are_shown_anyway() {
    let mut m = Maker::new(1024, 64, 16, 128, true);
    let root = m.inode(MODE_DIR, FL_EXTENTS);
    m.dir(root, root, &[(5, "a?b", 1)]);
    let o = (m.next_block - 1) * 1024;
    m.data[o + 32 + 9] = 0xFF;
    let data = m.data;
    let mut fs = open(&data);
    let inode = run(&data, &mut fs, |fs| fs.read_inode(root)).unwrap();
    let list = run(&data, &mut fs, |fs| fs.list_dir(&inode)).unwrap();
    assert_eq!(list[2].name, "a\u{FFFD}b");
}

// ---------------------------------------------------------------------------
// paths
// ---------------------------------------------------------------------------

#[test]
fn paths_are_resolved() {
    let data = ext4_image();
    let mut fs = open(&data);
    let mut go = |path: &str| resolve(&data, &mut fs, path);
    assert_eq!(go("/").unwrap(), 2);
    assert_eq!(go("").unwrap(), 2);
    assert_eq!(go("/.").unwrap(), 2);
    assert_eq!(go("/./subdir//.///inner.txt/").unwrap(), 11);
    assert_eq!(go("/hello.txt").unwrap(), 3);
    assert_eq!(go("//subdir/./inner.txt").unwrap(), 11);
    assert_eq!(go("subdir/../hello.txt").unwrap(), 3);
    assert_eq!(go("/..").unwrap(), 2);
    assert_eq!(go("/fastlink").unwrap(), 3);
    assert_eq!(go("/subdir/link").unwrap(), 3);
    assert_eq!(go("/中文目录/你好.txt").unwrap(), 15);
    assert_eq!(error_text(go("/no/where")), "no such file or directory: /no/where");
    assert_eq!(error_text(go("/hello.txt/x")), "inode 3 is not a directory");
    assert_eq!(error_text(go("/fastlink/x")), "inode 3 is not a directory");
    assert_eq!(
        error_text(go("/longlink")),
        format!("no such file or directory: {}", LONG_TARGET)
    );
}

#[test]
fn links_in_the_middle_keep_the_rest() {
    let mut m = Maker::new(1024, 64, 32, 128, true);
    let root = m.inode(MODE_DIR, FL_EXTENTS);
    let a = m.inode(MODE_DIR, FL_EXTENTS);
    let file = m.file(b"x");
    let absolute = m.fast_link("/a");
    let relative = m.fast_link("./a/");
    m.dir(root, root, &[(a, "a", 2), (absolute, "abs", 7), (relative, "rel", 7)]);
    m.dir(a, root, &[(file, "f", 1)]);
    let data = m.data;
    let mut fs = open(&data);
    assert_eq!(resolve(&data, &mut fs, "/abs/f").unwrap(), file);
    assert_eq!(resolve(&data, &mut fs, "/rel/f").unwrap(), file);
    assert_eq!(resolve(&data, &mut fs, "/rel/../abs/f").unwrap(), file);
    assert_eq!(
        error_text(resolve(&data, &mut fs, "/abs/g")),
        "no such file or directory: /a/g"
    );
    assert_eq!(
        error_text(resolve(&data, &mut fs, "/rel/g")),
        "no such file or directory: /rel/g"
    );
}

#[test]
fn link_loops_end() {
    let mut m = Maker::new(1024, 64, 32, 128, true);
    let root = m.inode(MODE_DIR, FL_EXTENTS);
    let absolute = m.fast_link("/abs");
    let relative = m.fast_link("rel");
    m.dir(root, root, &[(absolute, "abs", 7), (relative, "rel", 7)]);
    let data = m.data;
    let mut fs = open(&data);
    let text = "unsupported feature: too many levels of symbolic links";
    assert_eq!(error_text(resolve(&data, &mut fs, "/abs")), text);
    assert_eq!(error_text(resolve(&data, &mut fs, "/rel")), text);
}

#[test]
fn longer_link_loops_end() {
    let mut m = Maker::new(1024, 64, 32, 128, true);
    let root = m.inode(MODE_DIR, FL_EXTENTS);
    let d = m.inode(MODE_DIR, FL_EXTENTS);
    let (a, b) = (m.fast_link("d/../b"), m.fast_link("./a"));
    let grows = m.fast_link("grows/x");
    let file = m.file(b"x");
    m.dir(root, root, &[(a, "a", 7), (b, "b", 7), (grows, "grows", 7), (d, "d", 2)]);
    m.dir(d, root, &[(file, "f", 1)]);
    let data = m.data;
    let mut fs = open(&data);
    let text = "unsupported feature: too many levels of symbolic links";
    for path in ["/a", "/b", "/grows", "/d/../a/f", "/grows/y"] {
        assert_eq!(error_text(resolve(&data, &mut fs, path)), text, "{}", path);
    }
    assert_eq!(resolve(&data, &mut fs, "/d/../d/f").unwrap(), file);
}

#[test]
fn relative_links_are_followed_as_long_as_they_lead_on() {
    let mut m = Maker::new(1024, 192, 128, 128, true);
    let root = m.inode(MODE_DIR, FL_EXTENTS);
    let file = m.file(b"x");
    let here = m.fast_link(".");
    let twice = m.fast_link("here/here/l0");
    let names: Vec<String> = (0..30).map(|i| format!("l{}", i)).collect();
    let mut entries: Vec<(u32, &str, u8)> =
        vec![(file, "f", 1), (here, "here", 7), (twice, "twice", 7)];
    for i in 0..30 {
        let target = if i == 29 { "f".to_string() } else { format!("here/l{}", i + 1) };
        let link = m.fast_link(&target);
        entries.push((link, names[i].as_str(), 7));
    }
    m.dir(root, root, &entries);
    let data = m.data;
    let mut fs = open(&data);
    assert_eq!(resolve(&data, &mut fs, "/l0").unwrap(), file);
    assert_eq!(resolve(&data, &mut fs, "/here/twice").unwrap(), file);
    let mut path = String::new();
    for _ in 0..4200 {
        path.push_str("/here");
    }
    assert_eq!(resolve(&data, &mut fs, &path).unwrap(), root);
    path.push_str("/f");
    assert_eq!(resolve(&data, &mut fs, &path).unwrap(), file);
}

#[test]
fn a_link_in_two_directories_is_two_links() {
    let mut m = Maker::new(1024, 64, 32, 128, true);
    let root = m.inode(MODE_DIR, FL_EXTENTS);
    let outer = m.inode(MODE_DIR, FL_EXTENTS);
    let inner = m.inode(MODE_DIR, FL_EXTENTS);
    let link = m.fast_link("sub/l");
    let file = m.file(b"x");
    m.dir(root, root, &[(link, "l", 7), (outer, "sub", 2)]);
    m.dir(outer, root, &[(link, "l", 7), (inner, "sub", 2)]);
    m.dir(inner, outer, &[(file, "l", 1)]);
    let data = m.data;
    let mut fs = open(&data);
    assert_eq!(resolve(&data, &mut fs, "/l").unwrap(), file);
    assert_eq!(error_text(resolve(&data, &mut fs, "/l/y")), format!("inode {} is not a directory", file));
}

#[test]
fn the_first_entry_of_a_name_is_found() {
    let entry = |ino: u32, name: &str, file_type: u8| DirEntry {
        ino,
        rec_len: 16,
        name: name.to_string(),
        file_type,
    };
    let entries = vec![entry(5, "b", 1), entry(6, "a", 2), entry(7, "a", 1)];
    assert_eq!(find_entry(&entries, "a"), Some((6, 2)));
    assert_eq!(find_entry(&entries, "b"), Some((5, 1)));
    assert_eq!(find_entry(&entries, "c"), None);
}

#[test]
fn forty_absolute_links_are_followed() {
    let mut m = Maker::new(1024, 128, 96, 128, true);
    let root = m.inode(MODE_DIR, FL_EXTENTS);
    let file = m.file(b"x");
    let names: Vec<String> = (0..42).map(|i| format!("l{}", i)).collect();
    let mut entries: Vec<(u32, &str, u8)> = vec![(file, "f", 1)];
    for i in 0..42 {
        let target = if i == 0 { "/f".to_string() } else { format!("/l{}", i - 1) };
        let link = m.fast_link(&target);
        entries.push((link, names[i].as_str(), 7));
    }
    m.dir(root, root, &entries);
    let data = m.data;
    let mut fs = open(&data);
    assert_eq!(resolve(&data, &mut fs, "/l39").unwrap(), file);
    assert_eq!(
        error_text(resolve(&data, &mut fs, "/l40")),
        "unsupported feature: too many levels of symbolic links"
    );
}

// ---------------------------------------------------------------------------
// what is settled stays
// ---------------------------------------------------------------------------

#[test]
fn more_blocks_do_not_change_answers() {
    let data = ext4_image();
    let mut fs = open(&data);
    let ino = resolve(&data, &mut fs, "/subdir/link").unwrap();
    let root = inode_at(&data, &mut fs, "/");
    let list = names(&fs.list_dir(&root).unwrap());
    for b in 0..512 {
        supply(&data, &mut fs, b);
    }
    assert_eq!(fs.resolve("/subdir/link").unwrap(), ino);
    assert_eq!(names(&fs.list_dir(&root).unwrap()), list);
    assert_eq!(count_tree(&fs, 2).unwrap(), 214);
}

#[test]
fn forgotten_blocks_are_asked_for_again() {
    let data = ext4_image();
    let mut fs = open(&data);
    let ino = resolve(&data, &mut fs, "/subdir/link").unwrap();
    fs.forget_blocks();
    assert!(matches!(fs.resolve("/subdir/link"), Err(ExtError::Pending(_))));
    assert_eq!(resolve(&data, &mut fs, "/subdir/link").unwrap(), ino);
    let mut c = TreeCount::new(2, false);
    let mut counted = 0;
    while let Err(e) = c.run(&fs) {
        match e {
            ExtError::Pending(b) => {
                if c.items > counted {
                    counted = c.items;
                    fs.forget_blocks();
                }
                supply(&data, &mut fs, b);
            }
            other => panic!("{}", other.message()),
        }
    }
    assert_eq!(c.items, 214);
}

// ---------------------------------------------------------------------------
// counting
// ---------------------------------------------------------------------------

#[test]
fn trees_are_counted() {
    let data = ext4_image();
    let mut fs = open(&data);
    let (items, bytes) = run(&data, &mut fs, |fs| count_tree_with_bytes(fs, 2)).unwrap();
    assert_eq!(items, 214);
    let links = 10 + 12 + LONG_TARGET.len() as u64;
    let zh = "中文内容，UTF-8 测试！\n".len() as u64 + "你好，ext4！\n".len() as u64;
    assert_eq!(bytes, 8292 + 12388 + 163940 + 18 + 4096 + links + zh);
    let big = resolve(&data, &mut fs, "/big").unwrap();
    assert_eq!(run(&data, &mut fs, |fs| count_tree(fs, big)).unwrap(), 201);
    assert_eq!(run(&data, &mut fs, |fs| count_tree(fs, 3)).unwrap(), 1);
    assert_eq!(run(&data, &mut fs, |fs| count_tree(fs, 0)).unwrap(), 1);
}

#[test]
fn a_count_goes_on_where_it_stopped() {
    let data = ext4_image();
    let mut fs = open(&data);
    let mut c = TreeCount::new(2, true);
    let mut rounds = 0;
    while let Err(e) = c.run(&fs) {
        match e {
            ExtError::Pending(b) => supply(&data, &mut fs, b),
            other => panic!("{}", other.message()),
        }
        rounds += 1;
    }
    assert!(rounds > 3);
    let mut fresh = open(&data);
    let (items, bytes) = run(&data, &mut fresh, |fs| count_tree_with_bytes(fs, 2)).unwrap();
    assert_eq!((c.items, c.bytes), (items, bytes));
}

#[test]
fn what_cannot_be_found_counts_as_one_item() {
    let data = ext4_image();
    let mut fs = open(&data);
    assert!(matches!(item_count(&fs, "/subdir"), Err(ExtError::Pending(_))));
    assert_eq!(run(&data, &mut fs, |fs| item_count(fs, "/subdir")).unwrap(), 3);
    assert_eq!(run(&data, &mut fs, |fs| item_count(fs, "/big")).unwrap(), 201);
    assert_eq!(run(&data, &mut fs, |fs| item_count(fs, "/nothing")).unwrap(), 1);
    let mut count = run(&data, &mut fs, |fs| begin_count(fs, "/nothing")).unwrap();
    count.run(&fs).unwrap();
    assert_eq!(count.items, 1);
    assert_eq!(total_items(&vec![3, 201, 1]), Some(205));
    assert_eq!(total_items(&vec![]), Some(0));
    assert_eq!(total_items(&vec![u64::MAX, 0, 1]), None);
    let e = resolve(&data, &mut fs, "/nothing").unwrap_err();
    assert_eq!(failed_item("/nothing", &e), "/nothing: no such file or directory: /nothing");
}

#[test]
fn counts_stop_at_depth_and_overflow() {
    let mut m = Maker::new(1024, 64, 32, 128, true);
    let root = m.inode(MODE_DIR, FL_EXTENTS);
    m.dir(root, root, &[(root, "self", 2)]);
    let data = m.data;
    let mut fs = open(&data);
    assert_eq!(run(&data, &mut fs, |fs| count_tree(fs, 2)).unwrap(), 65);
    let mut m = Maker::new(1024, 64, 32, 128, true);
    let root = m.inode(MODE_DIR, FL_EXTENTS);
    let a = m.file(b"x");
    let b = m.file(b"x");
    m.size(a, u64::MAX, 2);
    m.dir(root, root, &[(a, "a", 1), (b, "b", 1)]);
    let data = m.data;
    let mut fs = open(&data);
    assert_eq!(run(&data, &mut fs, |fs| count_tree(fs, 2)).unwrap(), 3);
    assert_eq!(
        error_text(run(&data, &mut fs, |fs| count_tree_with_bytes(fs, 2))),
        "corrupt filesystem: tree too large to count"
    );
}

// ---------------------------------------------------------------------------
// copying
// ---------------------------------------------------------------------------

/// A place to copy to.
#[derive(Default)]
struct Target {
    dirs: Vec<String>,
    files: BTreeMap<String, Vec<u8>>,
    open: String,
    /// Creating this fails.
    forbidden: String,
}

impl Target {
    fn make_dir(&mut self, dest: &[String]) -> std::result::Result<(), String> {
        let path = dest.join("/");
        if !self.forbidden.is_empty() && path == self.forbidden {
            return Err("denied".to_string());
        }
        self.dirs.push(path);
        Ok(())
    }

    fn create(&mut self, dest: &[String]) -> std::result::Result<(), String> {
        let path = dest.join("/");
        if !self.forbidden.is_empty() && path == self.forbidden {
            return Err("denied".to_string());
        }
        self.files.insert(path.clone(), Vec::new());
        self.open = path;
        Ok(())
    }

    fn append(&mut self, data: &[u8], fs: &Ext4, piece: Piece) -> std::result::Result<(), String> {
        let path = self.open.clone();
        append(data, fs, piece, self.files.get_mut(&path).unwrap());
        Ok(())
    }
}

fn run_extraction(
    data: &[u8],
    fs: &mut Ext4,
    walk: &mut Extraction,
    target: &mut Target,
    prog: &mut CopyProgress,
    cancel_after: usize,
) -> bool {
    let mut steps = 0;
    loop {
        let cancelled = steps >= cancel_after;
        steps += 1;
        let report = match walk.step(fs, cancelled, prog) {
            Err(ExtError::Pending(b)) => {
                supply(data, fs, b);
                continue;
            }
            Err(e) => panic!("{}", e.message()),
            Ok(Request::Proceed) => continue,
            Ok(Request::Finished(all)) => return all,
            Ok(Request::MakeDir(dest)) => target.make_dir(&dest),
            Ok(Request::Create(dest)) => target.create(&dest),
            Ok(Request::Append(piece)) => target.append(data, fs, piece),
            Ok(Request::Flush) => Ok(()),
        };
        walk.answer(report, prog);
    }
}

#[test]
fn trees_are_extracted() {
    let data = ext4_image();
    let mut fs = open(&data);
    let (name, mut walk) = run(&data, &mut fs, |fs| extract(fs, "/subdir/")).unwrap();
    assert_eq!(name, "subdir");
    let mut target = Target::default();
    let mut prog = CopyProgress::new(3);
    assert!(run_extraction(&data, &mut fs, &mut walk, &mut target, &mut prog, usize::MAX));
    assert_eq!(target.dirs, vec![""]);
    let mut expected = pattern(4096);
    expected.extend_from_slice(&pattern(4096));
    expected.extend_from_slice(&pattern(100));
    assert_eq!(target.files.len(), 2);
    assert_eq!(target.files["inner.txt"], pattern(4096));
    assert_eq!(target.files["link"], expected);
    assert_eq!(walk.errors.len(), 0);
    // the directory, the file, the link, and what the link leads to
    assert_eq!(prog.done(), 4);
    assert_eq!(prog.bytes(), 4096 + 8292);
    assert_eq!(prog.current(), "/subdir/link");
}

#[test]
fn a_count_foretells_a_copy_without_links() {
    let data = ext4_image();
    for path in ["/big", "/中文目录", "/hello.txt"] {
        let mut fs = open(&data);
        let ino = resolve(&data, &mut fs, path).unwrap();
        let (items, bytes) = run(&data, &mut fs, |fs| count_tree_with_bytes(fs, ino)).unwrap();
        let mut walk = run(&data, &mut fs, |fs| copy_to(fs, path)).unwrap();
        let mut target = Target::default();
        let mut prog = CopyProgress::new(items);
        assert!(run_extraction(&data, &mut fs, &mut walk, &mut target, &mut prog, usize::MAX));
        assert_eq!((prog.done(), prog.bytes()), (items, bytes), "{}", path);
        let made: usize = target.files.values().map(|f| f.len()).sum();
        assert_eq!(made as u64, bytes);
    }
}

#[test]
fn the_whole_volume_is_extracted() {
    let data = ext4_image();
    let mut fs = open(&data);
    let (name, mut walk) = run(&data, &mut fs, |fs| extract(fs, "/")).unwrap();
    assert_eq!(name, "root");
    let mut target = Target::default();
    let mut prog = CopyProgress::new(0);
    assert!(run_extraction(&data, &mut fs, &mut walk, &mut target, &mut prog, usize::MAX));
    assert_eq!(target.dirs, vec!["", "subdir", "big", "中文目录"]);
    assert_eq!(target.files.len(), 209);
    assert_eq!(target.files["中文目录/你好.txt"], "你好，ext4！\n".as_bytes().to_vec());
    assert_eq!(target.files["frag.bin"].len(), 163940);
    assert_eq!(
        walk.errors,
        vec![format!(
            "/longlink: broken symlink ({}): no such file or directory: {}",
            LONG_TARGET, LONG_TARGET
        )]
    );
    // every item once, and what the two good links lead to once more
    assert_eq!(prog.done(), 216);
}

#[test]
fn failures_do_not_end_an_extraction() {
    let data = ext4_image();
    let mut fs = open(&data);
    let mut walk = run(&data, &mut fs, |fs| copy_to(fs, "/")).unwrap();
    let mut target = Target::default();
    target.forbidden = "big".to_string();
    let mut prog = CopyProgress::new(0);
    assert!(run_extraction(&data, &mut fs, &mut walk, &mut target, &mut prog, usize::MAX));
    assert_eq!(target.dirs, vec!["", "subdir", "中文目录"]);
    assert_eq!(target.files.len(), 9);
    assert_eq!(walk.errors[1], "/big: denied");
    let mut walk = run(&data, &mut fs, |fs| copy_to(fs, "/subdir")).unwrap();
    let mut target = Target::default();
    target.forbidden = "inner.txt".to_string();
    assert!(run_extraction(&data, &mut fs, &mut walk, &mut target, &mut prog, usize::MAX));
    assert_eq!(walk.errors, vec!["/subdir/inner.txt: denied"]);
    assert_eq!(target.files.len(), 1);
    assert!(error_text(run(&data, &mut fs, |fs| copy_to(fs, "/nowhere"))).ends_with("/nowhere"));
}

#[test]
fn write_errors_are_worded_as_input_and_output() {
    let data = ext4_image();
    let mut fs = open(&data);
    let mut walk = run(&data, &mut fs, |fs| copy_to(fs, "/hello.txt")).unwrap();
    let mut prog = CopyProgress::new(1);
    let mut appended = 0;
    loop {
        match walk.step(&fs, false, &mut prog) {
            Err(ExtError::Pending(b)) => supply(&data, &mut fs, b),
            Err(e) => panic!("{}", e.message()),
            Ok(Request::Proceed) => {}
            Ok(Request::Finished(all)) => {
                assert!(all);
                break;
            }
            Ok(Request::Append(_)) => {
                appended += 1;
                let r = if appended == 2 { Err("disk full".to_string()) } else { Ok(()) };
                walk.answer(r, &mut prog);
            }
            Ok(_) => walk.answer(Ok(()), &mut prog),
        }
    }
    assert_eq!(appended, 2);
    assert_eq!(walk.errors, vec!["/hello.txt: I/O error: disk full"]);
    assert_eq!(prog.bytes(), 8292);
}

#[test]
fn names_are_made_safe_on_the_way() {
    let mut m = Maker::new(1024, 64, 32, 128, true);
    let root = m.inode(MODE_DIR, FL_EXTENTS);
    let sub = m.inode(MODE_DIR, FL_EXTENTS);
    let file = m.file(b"x");
    let odd = m.file(b"y");
    m.dir(root, root, &[(sub, "con", 2), (odd, "a?b. ", 1)]);
    m.dir(sub, root, &[(file, "ok", 1)]);
    let data = m.data;
    let mut fs = open(&data);
    let mut walk = run(&data, &mut fs, |fs| copy_to(fs, "/")).unwrap();
    let mut target = Target::default();
    let mut prog = CopyProgress::new(0);
    assert!(run_extraction(&data, &mut fs, &mut walk, &mut target, &mut prog, usize::MAX));
    assert_eq!(target.dirs, vec!["", "_con"]);
    let files: Vec<&String> = target.files.keys().collect();
    assert_eq!(files, vec!["_con/ok", "a_b"]);
    assert_eq!(
        walk.errors,
        vec![
            "/con: renamed to '_con' for Windows compatibility",
            "/a?b. : renamed to 'a_b' for Windows compatibility"
        ]
    );
}

#[test]
fn an_extraction_can_be_cancelled() {
    let data = ext4_image();
    let mut fs = open(&data);
    let mut walk = run(&data, &mut fs, |fs| copy_to(fs, "/")).unwrap();
    let mut target = Target::default();
    let mut prog = CopyProgress::new(0);
    assert!(!run_extraction(&data, &mut fs, &mut walk, &mut target, &mut prog, 12));
    assert!(target.files.len() <= 1);
    let made = target.files.len();
    assert!(!run_extraction(&data, &mut fs, &mut walk, &mut target, &mut prog, usize::MAX));
    assert_eq!(target.files.len(), made);
}

#[test]
fn loops_of_directories_end() {
    let mut m = Maker::new(1024, 64, 32, 128, true);
    let root = m.inode(MODE_DIR, FL_EXTENTS);
    let link = m.fast_link("/");
    m.dir(root, root, &[(link, "up", 7)]);
    let data = m.data;
    let mut fs = open(&data);
    let mut walk = run(&data, &mut fs, |fs| copy_to(fs, "/")).unwrap();
    let mut target = Target::default();
    let mut prog = CopyProgress::new(0);
    assert!(run_extraction(&data, &mut fs, &mut walk, &mut target, &mut prog, usize::MAX));
    assert_eq!(target.dirs.len(), 33);
    assert_eq!(walk.errors.len(), 1);
    assert!(walk.errors[0].starts_with("max depth exceeded at /up/up/"));
    assert!(walk.errors[0].ends_with("/up (symlink loop?)"));
}

// ---------------------------------------------------------------------------
// copying with several workers
// ---------------------------------------------------------------------------

fn make_plan(data: &[u8], fs: &mut Ext4, path: &str) -> PlanWalk {
    let mut walk = run(data, fs, |fs| copy_to_parallel(fs, path)).unwrap();
    loop {
        match walk.run(fs) {
            Ok(()) => return walk,
            Err(ExtError::Pending(b)) => supply(data, fs, b),
            Err(e) => panic!("{}", e.message()),
        }
    }
}

fn do_job(data: &[u8], fs: &mut Ext4, job: Job, target: &mut Target, prog: &mut CopyProgress) -> Vec<String> {
    let dest = match &job {
        Job::Dir(d) => d.clone(),
        Job::File(_, d) => d.clone(),
    };
    let mut j = JobRun::new(job, &format!("out/{}", dest.join("/")));
    loop {
        let report = match j.step(fs, false, prog) {
            Err(ExtError::Pending(b)) => {
                supply(data, fs, b);
                continue;
            }
            Err(e) => panic!("{}", e.message()),
            Ok(JobRequest::Proceed) => continue,
            Ok(JobRequest::Finished) => return j.errors,
            Ok(JobRequest::MakeDir) => target.make_dir(&dest),
            Ok(JobRequest::Create) => target.create(&dest),
            Ok(JobRequest::Append(piece)) => target.append(data, fs, piece),
            Ok(JobRequest::Flush) => Ok(()),
        };
        j.answer(report, prog);
        if matches!(j.phase, ext4fs_tool::jobs::JobPhase::Done) {
            return j.errors;
        }
    }
}

#[test]
fn parallel_extract_big_dir() {
    let data = ext4_image();
    let mut fs = open(&data);
    let walk = make_plan(&data, &mut fs, "/big");
    let mut errors = walk.errors;
    assert_eq!(schedule(walk.jobs.len(), 4), Schedule::Workers(4));
    let mut target = Target::default();
    let mut prog = CopyProgress::new(0);
    for job in walk.jobs {
        errors.extend(do_job(&data, &mut fs, job, &mut target, &mut prog));
    }
    let n = target.files.keys().filter(|k| !k.contains('/')).count();
    assert_eq!(n, 200, "errors: {:?}", errors);
    assert_eq!(errors.len(), 0);
    assert_eq!(prog.done(), 201);
}

#[test]
fn a_plan_lists_what_an_extraction_makes() {
    let data = ext4_image();
    let mut fs = open(&data);
    let walk = make_plan(&data, &mut fs, "/");
    assert_eq!(walk.errors.len(), 1);
    let mut planned = Target::default();
    let mut prog = CopyProgress::new(0);
    for job in walk.jobs {
        assert_eq!(do_job(&data, &mut fs, job, &mut planned, &mut prog).len(), 0);
    }
    let mut walk = run(&data, &mut fs, |fs| copy_to(fs, "/")).unwrap();
    let mut made = Target::default();
    assert!(run_extraction(&data, &mut fs, &mut walk, &mut made, &mut prog, usize::MAX));
    assert_eq!(planned.dirs, made.dirs);
    assert_eq!(planned.files, made.files);
}

#[test]
fn a_link_to_a_directory_is_planned_as_one() {
    let mut m = Maker::new(1024, 64, 32, 128, true);
    let root = m.inode(MODE_DIR, FL_EXTENTS);
    let a = m.inode(MODE_DIR, FL_EXTENTS);
    let file = m.file(b"x");
    let to_dir = m.fast_link("/a");
    let to_file = m.fast_link("a/f");
    m.dir(root, root, &[(to_dir, "d", 7), (to_file, "e?", 7), (a, "a", 2)]);
    m.dir(a, root, &[(file, "f", 1)]);
    let data = m.data;
    let mut fs = open(&data);
    let walk = make_plan(&data, &mut fs, "/");
    let jobs: Vec<String> = walk
        .jobs
        .iter()
        .map(|j| match j {
            Job::Dir(d) => format!("dir {}", d.join("/")),
            Job::File(ino, d) => format!("file {} {}", ino, d.join("/")),
        })
        .collect();
    assert_eq!(
        jobs,
        vec!["dir ", "dir d", "file 4 d/f", "file 4 e_", "dir a", "file 4 a/f"]
    );
    assert_eq!(walk.errors, vec!["/e?: renamed to 'e_' for Windows compatibility"]);
    let mut planned = Target::default();
    let mut prog = CopyProgress::new(0);
    for job in walk.jobs {
        assert_eq!(do_job(&data, &mut fs, job, &mut planned, &mut prog).len(), 0);
    }
    assert_eq!((prog.done(), prog.bytes()), (6, 3));
    let mut walk = run(&data, &mut fs, |fs| copy_to(fs, "/")).unwrap();
    let mut made = Target::default();
    assert!(run_extraction(&data, &mut fs, &mut walk, &mut made, &mut prog, usize::MAX));
    assert_eq!(planned.dirs, made.dirs);
    assert_eq!(planned.files, made.files);
}

#[test]
fn jobs_may_be_done_in_any_order() {
    let data = ext4_image();
    let mut fs = open(&data);
    let mut walk = run(&data, &mut fs, |fs| copy_to(fs, "/subdir")).unwrap();
    let mut made = Target::default();
    let mut prog = CopyProgress::new(0);
    assert!(run_extraction(&data, &mut fs, &mut walk, &mut made, &mut prog, usize::MAX));
    assert_eq!(walk.errors.len(), 0);
    let mut planned = Target::default();
    let mut jobs = make_plan(&data, &mut fs, "/subdir").jobs;
    jobs.reverse();
    for job in jobs {
        assert_eq!(do_job(&data, &mut fs, job, &mut planned, &mut prog).len(), 0);
    }
    assert_eq!(planned.dirs, made.dirs);
    assert_eq!(planned.files, made.files);
    let inner = contents(&data, &mut fs, "/subdir/inner.txt");
    assert_eq!((&made.files["inner.txt"], &planned.files["inner.txt"]), (&inner, &inner));
}

#[test]
fn every_job_is_handed_out_once() {
    let jobs: Vec<Job> = (1..4).map(|n| Job::File(n, vec![format!("f{}", n)])).collect();
    let mut queue = JobQueue::new(jobs);
    let mut take = |cancelled: bool| match queue.take(cancelled) {
        Some(Job::File(n, _)) => n,
        _ => 0,
    };
    assert_eq!((take(false), take(true), take(false)), (1, 0, 2));
    assert_eq!((take(false), take(false)), (3, 0));
}

#[test]
fn a_job_makes_one_file() {
    let data = ext4_image();
    let mut fs = open(&data);
    let inode = inode_at(&data, &mut fs, "/hello.txt");
    let mut target = Target::default();
    let mut prog = CopyProgress::new(0);
    let dest = vec!["out.bin".to_string()];
    let errors = do_job(&data, &mut fs, Job::File(inode.ino, dest), &mut target, &mut prog);
    assert_eq!(errors.len(), 0);
    assert_eq!((prog.done(), prog.bytes()), (1, inode.size));
    let all = contents(&data, &mut fs, "/hello.txt");
    assert_eq!(target.files["out.bin"], all);
}

#[test]
fn a_plan_can_be_cancelled() {
    let data = ext4_image();
    let mut fs = open(&data);
    let mut walk = run(&data, &mut fs, |fs| copy_to_parallel(fs, "/")).unwrap();
    for b in 0..512 {
        supply(&data, &mut fs, b);
    }
    assert!(walk.step(&fs, false).unwrap());
    assert!(walk.step(&fs, false).unwrap());
    let n = walk.jobs.len();
    assert!(!walk.step(&fs, true).unwrap());
    assert!(!walk.step(&fs, true).unwrap());
    assert_eq!(walk.jobs.len(), n);
}

#[test]
fn job_failures_are_reported_at_the_destination() {
    let data = ext4_image();
    let mut fs = open(&data);
    let mut target = Target::default();
    target.forbidden = "x".to_string();
    let mut prog = CopyProgress::new(0);
    let dest = vec!["x".to_string()];
    let errors = do_job(&data, &mut fs, Job::Dir(dest.clone()), &mut target, &mut prog);
    assert_eq!(errors, vec!["out/x: denied"]);
    assert_eq!(prog.done(), 1);
    let errors = do_job(&data, &mut fs, Job::File(3, dest), &mut target, &mut prog);
    assert_eq!(errors, vec!["out/x: denied"]);
    assert_eq!((prog.done(), prog.bytes()), (1, 0));
    let dest = vec!["y".to_string()];
    let errors = do_job(&data, &mut fs, Job::File(0, dest.clone()), &mut target, &mut prog);
    assert_eq!(errors, vec!["out/y: corrupt filesystem: inode number 0"]);
    assert_eq!(prog.done(), 1);
    let mut j = JobRun::new(Job::File(3, dest), "out/y");
    assert!(matches!(j.step(&fs, true, &mut prog), Ok(JobRequest::Finished)));
    assert_eq!(j.errors.len(), 0);
}

// ---------------------------------------------------------------------------
// browsing
// ---------------------------------------------------------------------------

fn browse(data: &[u8], fs: &mut Ext4, path: &str) -> std::result::Result<Vec<(String, u64)>, String> {
    loop {
        match load_entries(fs, path) {
            Ok(rows) => return Ok(rows.into_iter().map(|r| (r.name, r.size)).collect()),
            Err(BrowseError::Volume(ExtError::Pending(b))) => supply(data, fs, b),
            Err(e) => return Err(e.message()),
        }
    }
}

#[test]
fn rows_are_sorted_by_name() {
    let data = ext4_image();
    let mut fs = open(&data);
    let rows = browse(&data, &mut fs, "/").unwrap();
    let list: Vec<&str> = rows.iter().map(|r| r.0.as_str()).collect();
    assert_eq!(
        list,
        vec![
            ".",
            "..",
            "big",
            "fastlink",
            "frag.bin",
            "hello.txt",
            "inline.txt",
            "longlink",
            "sparse.bin",
            "subdir",
            "中文文件.txt",
            "中文目录"
        ]
    );
    assert_eq!(rows[5].1, 8292);
    assert_eq!(
        browse(&data, &mut fs, "/hello.txt").unwrap_err(),
        "path is not a directory"
    );
    assert_eq!(
        browse(&data, &mut fs, "/zzz").unwrap_err(),
        "no such file or directory: /zzz"
    );
}

#[test]
fn the_tree_shows_directories_only() {
    let data = ext4_image();
    let mut fs = open(&data);
    let nodes = run(&data, &mut fs, |fs| load_tree_children(fs, 2)).unwrap();
    let list: Vec<&str> = nodes.iter().map(|n| n.name.as_str()).collect();
    assert_eq!(list, vec!["big", "subdir", "中文目录"]);
    assert!(nodes.iter().all(|n| n.is_dir));
    assert_eq!(run(&data, &mut fs, |fs| load_tree_children(fs, 3)).unwrap().len(), 0);
    assert_eq!(run(&data, &mut fs, |fs| load_tree_children(fs, 0)).unwrap().len(), 0);
}

#[test]
fn paths_are_unfolded_in_the_tree() {
    let data = ext4_image();
    let mut fs = open(&data);
    let mut go = |path: &str| run(&data, &mut fs, |fs| expand_path(fs, path)).unwrap();
    assert_eq!(go("/"), vec![2]);
    assert_eq!(go("/subdir"), vec![2, 4]);
    assert_eq!(go("/subdir/../inner.txt"), vec![2, 4]);
    assert_eq!(go("/zzz/subdir"), vec![2]);
    assert_eq!(go("/hello.txt"), vec![2]);
}

#[test]
fn details_are_worded() {
    let data = ext4_image();
    let mut fs = open(&data);
    assert_eq!(
        volume_lines(&fs),
        vec![
            "volume: testvol",
            "size: 2.0 MB",
            "blocks: 512 (4096 B)",
            "inodes: 256",
            "groups: 1",
            "incompat: 0x000080c2"
        ]
    );
    let inode = inode_at(&data, &mut fs, "/subdir");
    assert_eq!(
        inode_lines(&inode),
        vec![
            "inode: 4",
            "type: directory",
            "size: 4.0 KB",
            "mode: 755",
            "uid/gid: 0/0",
            "links: 1",
            "blocks: 8 (512B)",
            "flags: 0x00080000",
            "mtime: 0"
        ]
    );
    assert_eq!(
        opened_message("d.img", 0, &fs),
        "opened d.img: 512 blocks, 256 inodes, block size 4096, 1 groups"
    );
    assert_eq!(
        opened_message("d.img", 512, &fs),
        "opened d.img at partition offset 512 : d.img: 512 blocks, 256 inodes, block size 4096, 1 groups"
    );
    let e = ExtError::NotDir(3);
    assert_eq!(open_failed_message("d.img", &e), "cannot open d.img: inode 3 is not a directory");
    assert_eq!(
        open_failed_message("\\\\.\\PhysicalDrive1", &e),
        "cannot open \\\\.\\PhysicalDrive1: inode 3 is not a directory  (raw disks need administrator privileges; run the app as administrator)"
    );
}
