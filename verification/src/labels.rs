//! The lines that a browser shows: details of a volume and of an inode, disks and their
//! partitions, and how jobs ended.

use crate::device::{is_device_path, device_prefix, DEFAULT_SECTOR};
use crate::error::{fault_text, ExtError, Fault};
use crate::format::{fmt_size, size_text};
use crate::inode::{Inode, InodeView};
use crate::ondisk::law_kinds_of_files;
use crate::partitions::{PartKind, PartKindView, Partition, PartitionView};
use crate::superblock::Superblock;
use crate::text::{decimal, push_decimal, push_radix, radix, texts};
use crate::volume::Ext4;
use vstd::prelude::*;
use vstd::string::*;

verus! {

/// How many warnings the report of a job shows.
pub const SHOWN_WARNINGS: usize = 20;

fn numbered(label: &str, n: u64) -> (s: String)
    ensures
        s@ == label@ + decimal(n as nat),
{
    let mut s = label.to_owned();
    push_decimal(&mut s, n);
    s
}

fn hex8(label: &str, n: u32) -> (s: String)
    ensures
        s@ == label@ + radix(n as nat, 16, 8),
{
    let mut s = label.to_owned();
    push_radix(&mut s, n as u64, 16, 8);
    s
}

fn labelled(label: &str, text: &str) -> (s: String)
    ensures
        s@ == label@ + text@,
{
    let mut s = label.to_owned();
    s.append(text);
    s
}

/// A size that is given in units of `unit` bytes, as a short text.
pub open spec fn units_text(n: u64, unit: u64) -> Seq<char> {
    if n * unit > u64::MAX {
        "too large"@
    } else {
        size_text((n * unit) as u64)
    }
}

/// So many units are shown as the bytes that they are together.
pub proof fn law_sizes_in_units(n: u64, unit: u64, bytes: u64)
    requires
        bytes == n * unit,
    ensures
        units_text(n, unit) == size_text(bytes),
{
}

fn units_label(n: u64, unit: u64) -> (s: String)
    ensures
        s@ == units_text(n, unit),
{
    match n.checked_mul(unit) {
        Some(bytes) => fmt_size(bytes),
        None => "too large".to_owned(),
    }
}

/// The details of a volume, one line each.
pub open spec fn volume_text(sb: Superblock, block_size: u64, groups: nat) -> Seq<Seq<char>> {
    seq![
        "volume: "@ + sb.volume_name@,
        "size: "@ + units_text(sb.blocks_count, block_size),
        "blocks: "@ + decimal(sb.blocks_count as nat) + " ("@ + decimal(block_size as nat)
            + " B)"@,
        "inodes: "@ + decimal(sb.inodes_count as nat),
        "groups: "@ + decimal(groups),
        "incompat: 0x"@ + radix(sb.feature_incompat as nat, 16, 8),
    ]
}

/// Which line tells what of a volume.
pub proof fn law_lines_of_a_volume(sb: Superblock, block_size: u64, groups: nat)
    ensures
        ({
            let lines = volume_text(sb, block_size, groups);
            &&& lines.len() == 6
            &&& lines[0] == "volume: "@ + sb.volume_name@
            &&& lines[1] == "size: "@ + units_text(sb.blocks_count, block_size)
            &&& lines[2] == "blocks: "@ + decimal(sb.blocks_count as nat) + " ("@ + decimal(
                block_size as nat,
            ) + " B)"@
            &&& lines[3] == "inodes: "@ + decimal(sb.inodes_count as nat)
            &&& lines[4] == "groups: "@ + decimal(groups)
            &&& lines[5] == "incompat: 0x"@ + radix(sb.feature_incompat as nat, 16, 8)
        }),
{
}

/// The details of a volume, one line each.
pub fn volume_lines(fs: &Ext4) -> (lines: Vec<String>)
    ensures
        texts(lines@) == volume_text(fs.sb, fs.block_size, fs.groups@.len()),
{
    let mut blocks = numbered("blocks: ", fs.sb.blocks_count);
    blocks.append(" (");
    push_decimal(&mut blocks, fs.block_size);
    blocks.append(" B)");
    let size = units_label(fs.sb.blocks_count, fs.block_size);
    let mut lines: Vec<String> = Vec::new();
    lines.push(labelled("volume: ", fs.sb.volume_name.as_str()));
    lines.push(labelled("size: ", size.as_str()));
    lines.push(blocks);
    lines.push(numbered("inodes: ", fs.sb.inodes_count));
    lines.push(numbered("groups: ", fs.groups.len() as u64));
    lines.push(hex8("incompat: 0x", fs.sb.feature_incompat));
    assert(texts(lines@) =~= volume_text(fs.sb, fs.block_size, fs.groups@.len()));
    lines
}

pub open spec fn inode_kind(inode: InodeView) -> Seq<char> {
    if inode.is_symlink() {
        "symlink"@
    } else if inode.is_dir() {
        "directory"@
    } else {
        "file"@
    }
}

/// The details of an inode, one line each.
pub open spec fn inode_text(inode: InodeView) -> Seq<Seq<char>> {
    seq![
        "inode: "@ + decimal(inode.ino as nat),
        "type: "@ + inode_kind(inode),
        "size: "@ + size_text(inode.size),
        "mode: "@ + radix((inode.mode & 0o7777) as nat, 8, 1),
        "uid/gid: "@ + decimal(inode.uid as nat) + "/"@ + decimal(inode.gid as nat),
        "links: "@ + decimal(inode.links_count as nat),
        "blocks: "@ + decimal(inode.blocks as nat) + " (512B)"@,
        "flags: 0x"@ + radix(inode.flags as nat, 16, 8),
        "mtime: "@ + decimal(inode.mtime as nat),
    ]
}

/// Which line tells what of an inode. The mode is shown without the kind of the file, in octal.
pub proof fn law_lines_of_an_inode(n: InodeView)
    ensures
        ({
            let lines = inode_text(n);
            &&& lines.len() == 9
            &&& lines[0] == "inode: "@ + decimal(n.ino as nat)
            &&& n.mode / 0x1000 == 10 ==> lines[1] == "type: "@ + "symlink"@
            &&& n.mode / 0x1000 == 4 ==> lines[1] == "type: "@ + "directory"@
            &&& n.mode / 0x1000 != 4 && n.mode / 0x1000 != 10 ==> lines[1] == "type: "@ + "file"@
            &&& lines[2] == "size: "@ + size_text(n.size)
            &&& lines[3] == "mode: "@ + radix((n.mode % 0x1000) as nat, 8, 1)
            &&& lines[4] == "uid/gid: "@ + decimal(n.uid as nat) + "/"@ + decimal(n.gid as nat)
            &&& lines[5] == "links: "@ + decimal(n.links_count as nat)
            &&& lines[6] == "blocks: "@ + decimal(n.blocks as nat) + " (512B)"@
            &&& lines[7] == "flags: 0x"@ + radix(n.flags as nat, 16, 8)
            &&& lines[8] == "mtime: "@ + decimal(n.mtime as nat)
        }),
{
    law_kinds_of_files(n);
    let m = n.mode;
    assert(m & 0o7777u16 == m % 0x1000u16) by (bit_vector);
}

/// The details of an inode, one line each.
pub fn inode_lines(inode: &Inode) -> (lines: Vec<String>)
    ensures
        texts(lines@) == inode_text(inode@),
{
    let kind = if inode.is_symlink() {
        "symlink"
    } else if inode.is_dir() {
        "directory"
    } else {
        "file"
    };
    let mut mode = "mode: ".to_owned();
    push_radix(&mut mode, (inode.mode & 0o7777) as u64, 8, 1);
    let mut owner = numbered("uid/gid: ", inode.uid as u64);
    owner.append("/");
    push_decimal(&mut owner, inode.gid as u64);
    let mut blocks = numbered("blocks: ", inode.blocks);
    blocks.append(" (512B)");
    let size = fmt_size(inode.size);
    let mut lines: Vec<String> = Vec::new();
    lines.push(numbered("inode: ", inode.ino as u64));
    lines.push(labelled("type: ", kind));
    lines.push(labelled("size: ", size.as_str()));
    lines.push(mode);
    lines.push(owner);
    lines.push(numbered("links: ", inode.links_count as u64));
    lines.push(blocks);
    lines.push(hex8("flags: 0x", inode.flags));
    lines.push(numbered("mtime: ", inode.mtime as u64));
    assert(texts(lines@) =~= inode_text(inode@));
    lines
}

/// What is said of a volume that has been opened.
pub open spec fn opened_text(
    path: Seq<char>,
    offset: u64,
    sb: Superblock,
    block_size: u64,
    groups: nat,
) -> Seq<char> {
    let summary = path + ": "@ + decimal(sb.blocks_count as nat) + " blocks, "@ + decimal(
        sb.inodes_count as nat,
    ) + " inodes, block size "@ + decimal(block_size as nat) + ", "@ + decimal(groups)
        + " groups"@;
    if offset == 0 {
        "opened "@ + summary
    } else {
        "opened "@ + path + " at partition offset "@ + decimal(offset as nat) + " : "@ + summary
    }
}

/// The message tells the path, the offset if there is one, and what the volume has.
pub proof fn law_opened_messages(
    path: Seq<char>,
    offset: u64,
    sb: Superblock,
    block_size: u64,
    groups: nat,
)
    ensures
        ({
            let summary = path + ": "@ + decimal(sb.blocks_count as nat) + " blocks, "@ + decimal(
                sb.inodes_count as nat,
            ) + " inodes, block size "@ + decimal(block_size as nat) + ", "@ + decimal(groups)
                + " groups"@;
            &&& opened_text(path, 0, sb, block_size, groups) == "opened "@ + summary
            &&& offset > 0 ==> opened_text(path, offset, sb, block_size, groups) == "opened "@
                + path + " at partition offset "@ + decimal(offset as nat) + " : "@ + summary
        }),
{
}

/// What is said of a volume that has been opened at byte `offset` of `path`.
pub fn opened_message(path: &str, offset: u64, fs: &Ext4) -> (s: String)
    ensures
        s@ == opened_text(path@, offset, fs.sb, fs.block_size, fs.groups@.len()),
{
    let mut summary = path.to_owned();
    summary.append(": ");
    push_decimal(&mut summary, fs.sb.blocks_count);
    summary.append(" blocks, ");
    push_decimal(&mut summary, fs.sb.inodes_count);
    summary.append(" inodes, block size ");
    push_decimal(&mut summary, fs.block_size);
    summary.append(", ");
    push_decimal(&mut summary, fs.groups.len() as u64);
    summary.append(" groups");
    let mut s = "opened ".to_owned();
    if offset != 0 {
        s.append(path);
        s.append(" at partition offset ");
        push_decimal(&mut s, offset);
        s.append(" : ");
    }
    s.append(summary.as_str());
    s
}

/// What is said when a volume cannot be opened.
pub open spec fn open_failed_text(path: Seq<char>, f: Fault) -> Seq<char> {
    let plain = "cannot open "@ + path + ": "@ + fault_text(f);
    if device_prefix().is_prefix_of(path) {
        plain
            + "  (raw disks need administrator privileges; run the app as administrator)"@
    } else {
        plain
    }
}

/// The message tells the path and why; of a device, also who may open it.
pub proof fn law_failed_messages(path: Seq<char>, f: Fault)
    ensures
        !device_prefix().is_prefix_of(path) ==> open_failed_text(path, f) == "cannot open "@ + path
            + ": "@ + fault_text(f),
        device_prefix().is_prefix_of(path) ==> open_failed_text(path, f) == "cannot open "@ + path
            + ": "@ + fault_text(f)
            + "  (raw disks need administrator privileges; run the app as administrator)"@,
{
}

/// What is said when a volume cannot be opened.
pub fn open_failed_message(path: &str, e: &ExtError) -> (s: String)
    ensures
        s@ == open_failed_text(path@, e@),
{
    let mut s = labelled("cannot open ", path);
    s.append(": ");
    let why = e.message();
    s.append(why.as_str());
    if is_device_path(path) {
        s.append("  (raw disks need administrator privileges; run the app as administrator)");
    }
    s
}

/// A partition in the list of a disk's partitions.
#[derive(Debug, Clone)]
pub struct PartRow {
    pub index: u32,
    pub start_bytes: u64,
    pub sectors: u64,
    pub name: String,
    pub kind: String,
    pub fs: String,
}

#[verifier::ext_equal]
pub struct PartRowView {
    pub index: u32,
    pub start_bytes: u64,
    pub sectors: u64,
    pub name: Seq<char>,
    pub kind: Seq<char>,
    pub fs: Seq<char>,
}

impl View for PartRow {
    type V = PartRowView;

    open spec fn view(&self) -> PartRowView {
        PartRowView {
            index: self.index,
            start_bytes: self.start_bytes,
            sectors: self.sectors,
            name: self.name@,
            kind: self.kind@,
            fs: self.fs@,
        }
    }
}

pub open spec fn part_kind_text(kind: PartKindView) -> Seq<char> {
    match kind {
        PartKindView::Mbr(t) => "MBR 0x"@ + radix(t as nat, 16, 2),
        PartKindView::Gpt(_) => "GPT"@,
    }
}

/// The row of a partition that was found to hold the filesystem `fs`.
pub open spec fn part_row(p: PartitionView, sector_size: u64, fs: Seq<char>) -> Option<PartRowView> {
    if p.start_lba * sector_size > u64::MAX {
        None
    } else {
        Some(
            PartRowView {
                index: p.index,
                start_bytes: (p.start_lba * sector_size) as u64,
                sectors: p.sectors,
                name: p.name,
                kind: part_kind_text(p.kind),
                fs,
            },
        )
    }
}

/// The line that shows a partition.
pub open spec fn part_line(row: PartRowView, sector_size: u64) -> Seq<char> {
    "#"@ + decimal(row.index as nat) + "   "@ + units_text(row.sectors, sector_size) + "   fs: "@
        + row.fs + "   "@ + row.name + "   "@ + row.kind
}

/// A row has what its partition has, and the byte where that begins, which must be one that can
/// be addressed.
pub proof fn law_rows_of_partitions(p: PartitionView, sector_size: u64, fs: Seq<char>, t: u8)
    ensures
        part_row(p, sector_size, fs) is Some <==> p.start(sector_size) <= u64::MAX,
        part_row(p, sector_size, fs) is Some ==> {
            let row = part_row(p, sector_size, fs)->Some_0;
            &&& row.index == p.index
            &&& row.start_bytes == p.start(sector_size)
            &&& row.sectors == p.sectors
            &&& row.name == p.name
            &&& row.fs == fs
            &&& p.kind == PartKindView::Mbr(t) ==> row.kind == "MBR 0x"@ + radix(t as nat, 16, 2)
            &&& p.kind is Gpt ==> row.kind == "GPT"@
        },
{
}

/// What the line of a partition shows, from left to right: its number, its size, its filesystem,
/// its name and its kind.
pub proof fn law_lines_of_partitions(row: PartRowView, sector_size: u64)
    ensures
        part_line(row, sector_size) == seq![
            "#"@ + decimal(row.index as nat),
            units_text(row.sectors, sector_size),
            "fs: "@ + row.fs,
            row.name,
            row.kind,
        ].fold_left(
            Seq::<char>::empty(),
            |a: Seq<char>, b: Seq<char>| if a.len() == 0 {
                b
            } else {
                a + "   "@ + b
            },
        ),
{
    reveal_strlit("#");
    reveal_strlit("   ");
    reveal_strlit("   fs: ");
    reveal_strlit("fs: ");
    let f = |a: Seq<char>, b: Seq<char>|
        if a.len() == 0 {
            b
        } else {
            a + "   "@ + b
        };
    let p0 = "#"@ + decimal(row.index as nat);
    let p1 = units_text(row.sectors, sector_size);
    let p2 = "fs: "@ + row.fs;
    let all = seq![p0, p1, p2, row.name, row.kind];
    assert("   "@ + "fs: "@ =~= "   fs: "@);
    reveal_with_fuel(Seq::fold_left, 6);
    assert(all.drop_last() =~= seq![p0, p1, p2, row.name]);
    assert(seq![p0, p1, p2, row.name].drop_last() =~= seq![p0, p1, p2]);
    assert(seq![p0, p1, p2].drop_last() =~= seq![p0, p1]);
    assert(seq![p0, p1].drop_last() =~= seq![p0]);
    assert(seq![p0].drop_last() =~= Seq::empty());
    assert(part_line(row, sector_size) =~= p0 + "   "@ + p1 + "   "@ + p2 + "   "@ + row.name
        + "   "@ + row.kind);
}

impl PartRow {
    /// The row of a partition that was found to hold the filesystem `fs`; none if it begins
    /// beyond the bytes that can be addressed.
    pub fn of(p: &Partition, sector_size: u64, fs: &str) -> (row: Option<PartRow>)
        ensures
            match row {
                Some(row) => part_row(p@, sector_size, fs@) == Some(row@),
                None => part_row(p@, sector_size, fs@) is None,
            },
            match row {
                Some(row) => p.start_lba * sector_size <= u64::MAX && row@ == (PartRowView {
                    index: p.index,
                    start_bytes: (p.start_lba * sector_size) as u64,
                    sectors: p.sectors,
                    name: p.name@,
                    kind: part_kind_text(p.kind@),
                    fs: fs@,
                }),
                None => p.start_lba * sector_size > u64::MAX,
            },
    {
        let start_bytes: u64 = match p.start_lba.checked_mul(sector_size) {
            Some(n) => n,
            None => {
                return None;
            },
        };
        let kind = match p.kind {
            PartKind::Mbr(t) => {
                let mut s = "MBR 0x".to_owned();
                push_radix(&mut s, t as u64, 16, 2);
                s
            },
            PartKind::Gpt(_) => "GPT".to_owned(),
        };
        Some(
            PartRow {
                index: p.index,
                start_bytes,
                sectors: p.sectors,
                name: p.name.clone(),
                kind,
                fs: fs.to_owned(),
            },
        )
    }

    /// The line that shows this partition.
    pub fn line(&self, sector_size: u64) -> (s: String)
        ensures
            s@ == part_line(self@, sector_size),
            s@ == "#"@ + decimal(self.index as nat) + "   "@ + units_text(
                self.sectors,
                sector_size,
            ) + "   fs: "@ + self.fs@ + "   "@ + self.name@ + "   "@ + self.kind@,
    {
        let mut s = numbered("#", self.index as u64);
        s.append("   ");
        let size = units_label(self.sectors, sector_size);
        s.append(size.as_str());
        s.append("   fs: ");
        s.append(self.fs.as_str());
        s.append("   ");
        s.append(self.name.as_str());
        s.append("   ");
        s.append(self.kind.as_str());
        s
    }
}

/// What looking at a disk has shown.
pub enum Probe {
    /// It could not be opened.
    Closed(String),
    /// Its sector size, and its partitions or why they cannot be told.
    Open(u64, std::result::Result<Vec<PartRow>, String>),
}

/// A disk in the list of disks.
pub struct DiskEntry {
    pub path: String,
    pub size: Option<u64>,
    pub sector_size: u64,
    pub parts: Option<Vec<PartRow>>,
    pub error: Option<String>,
}

/// The headline of a disk.
pub open spec fn disk_title(path: Seq<char>, size: Option<u64>) -> Seq<char> {
    match size {
        None => path,
        Some(n) => path + "   ("@ + size_text(n) + " bytes)"@,
    }
}

/// A disk is shown by its path, and by its size if that is known.
pub proof fn law_disk_titles(path: Seq<char>, n: u64)
    ensures
        disk_title(path, None) == path,
        disk_title(path, Some(n)) == path + "   ("@ + size_text(n) + " bytes)"@,
{
}

impl DiskEntry {
    /// The entry for the place where the search for disks was refused.
    pub fn refused(path: String, error: String) -> (e: DiskEntry)
        ensures
            e.path == path,
            e.size is None,
            e.sector_size == DEFAULT_SECTOR,
            e.parts is None,
            e.error == Some(error),
    {
        DiskEntry {
            path,
            size: None,
            sector_size: DEFAULT_SECTOR as u64,
            parts: None,
            error: Some(error),
        }
    }

    /// The entry for a disk that was found and looked at.
    pub fn probed(path: String, size: Option<u64>, probe: Probe) -> (e: DiskEntry)
        ensures
            e.path == path,
            e.size == size,
            match probe {
                Probe::Closed(why) => e.sector_size == DEFAULT_SECTOR && e.parts is None && e.error
                    == Some(why),
                Probe::Open(sector, Ok(parts)) => e.sector_size == sector && e.parts == Some(parts)
                    && e.error is None,
                Probe::Open(sector, Err(why)) => e.sector_size == sector && e.parts is None
                    && e.error == Some(why),
            },
    {
        match probe {
            Probe::Closed(why) => DiskEntry {
                path,
                size,
                sector_size: DEFAULT_SECTOR as u64,
                parts: None,
                error: Some(why),
            },
            Probe::Open(sector_size, Ok(parts)) => DiskEntry {
                path,
                size,
                sector_size,
                parts: Some(parts),
                error: None,
            },
            Probe::Open(sector_size, Err(why)) => DiskEntry {
                path,
                size,
                sector_size,
                parts: None,
                error: Some(why),
            },
        }
    }

    /// The headline of this disk.
    pub fn title(&self) -> (s: String)
        ensures
            s@ == disk_title(self.path@, self.size),
            s@ == match self.size {
                None => self.path@,
                Some(n) => self.path@ + "   ("@ + size_text(n) + " bytes)"@,
            },
    {
        let mut s = self.path.clone();
        if let Some(n) = self.size {
            s.append("   (");
            let size = fmt_size(n);
            s.append(size.as_str());
            s.append(" bytes)");
        }
        s
    }
}

/// Which partition a choice of disk and partition stands for.
pub open spec fn chosen_part(disks: Seq<DiskEntry>, choice: Option<(usize, usize)>) -> Option<
    (Seq<char>, u64),
> {
    match choice {
        Some((d, p)) => if d < disks.len() && disks[d as int].parts is Some && p
            < disks[d as int].parts->Some_0@.len() {
            Some((disks[d as int].path@, disks[d as int].parts->Some_0@[p as int].start_bytes))
        } else {
            None
        },
        None => None,
    }
}

/// A choice stands for a partition only if the disk is there and has it; then for that disk, and
/// for where that partition begins.
pub proof fn law_chosen_partition(disks: Seq<DiskEntry>, d: usize, p: usize)
    ensures
        chosen_part(disks, None) is None,
        d >= disks.len() ==> chosen_part(disks, Some((d, p))) is None,
        d < disks.len() && disks[d as int].parts is None ==> chosen_part(disks, Some((d, p))) is None,
        d < disks.len() && disks[d as int].parts is Some && p >= disks[d as int].parts->Some_0@.len()
            ==> chosen_part(disks, Some((d, p))) is None,
        d < disks.len() && disks[d as int].parts is Some && p < disks[d as int].parts->Some_0@.len()
            ==> chosen_part(disks, Some((d, p))) == Some(
            (disks[d as int].path@, disks[d as int].parts->Some_0@[p as int].start_bytes),
        ),
{
}

/// The device and the byte offset of the chosen partition.
pub fn open_selected(disks: &Vec<DiskEntry>, choice: Option<(usize, usize)>) -> (r: Option<
    (String, u64),
>)
    ensures
        match r {
            Some((path, offset)) => chosen_part(disks@, choice) == Some((path@, offset)),
            None => chosen_part(disks@, choice) is None,
        },
{
    let (d, p): (usize, usize) = match choice {
        Some(c) => c,
        None => {
            return None;
        },
    };
    if d >= disks.len() {
        return None;
    }
    match &disks[d].parts {
        None => None,
        Some(parts) => {
            if p >= parts.len() {
                return None;
            }
            Some((disks[d].path.clone(), parts[p].start_bytes))
        },
    }
}

/// What is said of a copy job that has ended.
pub open spec fn summary_text(prefix: Seq<char>, dest: Seq<char>, cancelled: bool) -> Seq<char> {
    if cancelled {
        prefix + " (cancelled by user)"@
    } else {
        prefix + " -> "@ + dest
    }
}

/// A summary tells where the copy has gone, or that it was cancelled.
pub proof fn law_summaries(prefix: Seq<char>, dest: Seq<char>)
    ensures
        summary_text(prefix, dest, true) == prefix + " (cancelled by user)"@,
        summary_text(prefix, dest, false) == prefix + " -> "@ + dest,
{
}

/// How a copy job ended.
pub fn copy_summary(prefix: &str, dest: &str, cancelled: bool) -> (s: String)
    ensures
        s@ == summary_text(prefix@, dest@, cancelled),
        s@ == if cancelled {
            prefix@ + " (cancelled by user)"@
        } else {
            prefix@ + " -> "@ + dest@
        },
{
    let mut s = prefix.to_owned();
    if cancelled {
        s.append(" (cancelled by user)");
    } else {
        s.append(" -> ");
        s.append(dest);
    }
    s
}

/// The first `n` warnings, a line each.
pub open spec fn warning_lines(errors: Seq<Seq<char>>, n: int) -> Seq<char>
    decreases n,
{
    if n <= 0 {
        Seq::empty()
    } else {
        warning_lines(errors, n - 1) + "\n  warn: "@ + errors[n - 1]
    }
}

/// The report of a job: its summary, the first warnings, and how many more there are.
pub open spec fn report_text(summary: Seq<char>, errors: Seq<Seq<char>>) -> Seq<char> {
    if errors.len() > SHOWN_WARNINGS {
        summary + warning_lines(errors, SHOWN_WARNINGS as int) + "\n  ... and "@ + decimal(
            (errors.len() - SHOWN_WARNINGS) as nat,
        ) + " more"@
    } else {
        summary + warning_lines(errors, errors.len() as int)
    }
}

/// A report has the summary and a line for each of the first twenty warnings, and tells how many
/// it leaves out.
pub proof fn law_reports(summary: Seq<char>, errors: Seq<Seq<char>>)
    ensures
        errors.len() <= 20 ==> report_text(summary, errors) == summary + errors.map_values(
            |e: Seq<char>| "\n  warn: "@ + e,
        ).flatten(),
        errors.len() > 20 ==> report_text(summary, errors) == summary + errors.take(20).map_values(
            |e: Seq<char>| "\n  warn: "@ + e,
        ).flatten() + "\n  ... and "@ + decimal((errors.len() - 20) as nat) + " more"@,
{
    if errors.len() <= 20 {
        lemma_warnings(errors, errors.len() as int);
        assert(errors.take(errors.len() as int) =~= errors);
    } else {
        lemma_warnings(errors, 20);
    }
}

proof fn lemma_warnings(errors: Seq<Seq<char>>, n: int)
    requires
        0 <= n <= errors.len(),
    ensures
        warning_lines(errors, n) == errors.take(n).map_values(
            |e: Seq<char>| "\n  warn: "@ + e,
        ).flatten(),
    decreases n,
{
    let f = |e: Seq<char>| "\n  warn: "@ + e;
    if n > 0 {
        lemma_warnings(errors, n - 1);
        let before = errors.take(n - 1).map_values(f);
        assert(errors.take(n).map_values(f) =~= before.push(f(errors[n - 1])));
        before.lemma_flatten_push(f(errors[n - 1]));
        assert(warning_lines(errors, n - 1) + "\n  warn: "@ + errors[n - 1] =~= warning_lines(
            errors,
            n - 1,
        ) + f(errors[n - 1]));
    } else {
        assert(errors.take(0).map_values(f) =~= Seq::empty());
    }
}

/// The report of a job.
pub fn copy_report(summary: &str, errors: &Vec<String>) -> (s: String)
    ensures
        s@ == report_text(summary@, texts(errors@)),
{
    let mut s = summary.to_owned();
    let shown: usize = if errors.len() > SHOWN_WARNINGS {
        SHOWN_WARNINGS
    } else {
        errors.len()
    };
    let mut i: usize = 0;
    let ghost all = texts(errors@);
    assert(s@ =~= summary@ + warning_lines(all, 0));
    while i < shown
        invariant
            i <= shown <= errors@.len(),
            all == texts(errors@),
            s@ == summary@ + warning_lines(all, i as int),
        decreases shown - i,
    {
        s.append("\n  warn: ");
        s.append(errors[i].as_str());
        i = i + 1;
        assert(s@ =~= summary@ + warning_lines(all, i as int));
    }
    if errors.len() > SHOWN_WARNINGS {
        s.append("\n  ... and ");
        push_decimal(&mut s, (errors.len() - SHOWN_WARNINGS) as u64);
        s.append(" more");
    }
    s
}

} // verus!
