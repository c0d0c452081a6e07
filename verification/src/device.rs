//! Physical disks: their names, their geometry, and looking for them.

use crate::text::{chars_of, decimal, law_written_numbers_read_back, push_decimal, value};
use vstd::prelude::*;
use vstd::string::*;

verus! {

pub const MAX_DRIVES: u32 = 64;

/// The sector size of a disk that does not tell.
pub const DEFAULT_SECTOR: u32 = 512;

/// What the names of devices start with.
pub open spec fn device_prefix() -> Seq<char> {
    seq!['\\', '\\', '.', '\\']
}

/// Whether a path names a device rather than a file.
pub fn is_device_path(path: &str) -> (b: bool)
    ensures
        b == device_prefix().is_prefix_of(path@),
{
    let chars = chars_of(path);
    if chars.len() < 4 {
        return false;
    }
    let b = chars[0] == '\\' && chars[1] == '\\' && chars[2] == '.' && chars[3] == '\\';
    proof {
        let p = device_prefix();
        assert(p.len() == 4 && p[0] == '\\' && p[1] == '\\' && p[2] == '.' && p[3] == '\\');
        if b {
            assert(p =~= path@.subrange(0, 4));
        } else {
            assert(path@.subrange(0, 4)[0] == path@[0] && path@.subrange(0, 4)[1] == path@[1]
                && path@.subrange(0, 4)[2] == path@[2] && path@.subrange(0, 4)[3] == path@[3]);
        }
    }
    b
}

/// The size of a disk and of its sectors, out of the system's answer; none if the query was
/// refused, or the answer is no disk's.
pub open spec fn geometry(accepted: bool, disk_size: u64, bytes_per_sector: u32) -> Option<
    (u64, u32),
> {
    if accepted && disk_size > 0 {
        Some(
            (
                disk_size,
                if bytes_per_sector < DEFAULT_SECTOR {
                    DEFAULT_SECTOR
                } else {
                    bytes_per_sector
                },
            ),
        )
    } else {
        None
    }
}

/// Reads the system's answer to a query for a disk's geometry.
pub fn disk_geometry(accepted: bool, disk_size: u64, bytes_per_sector: u32) -> (g: Option<
    (u64, u32),
>)
    ensures
        g == geometry(accepted, disk_size, bytes_per_sector),
{
    if accepted && disk_size > 0 {
        let sector: u32 = if bytes_per_sector < DEFAULT_SECTOR {
            DEFAULT_SECTOR
        } else {
            bytes_per_sector
        };
        Some((disk_size, sector))
    } else {
        None
    }
}

/// The sector size of a disk with this geometry.
pub open spec fn sector_size(g: Option<(u64, u32)>) -> int {
    match g {
        Some((_, sector)) => sector as int,
        None => DEFAULT_SECTOR as int,
    }
}

/// A disk that tells no geometry has sectors of 512 bytes.
pub proof fn law_sector_sizes(size: u64, sector: u32)
    ensures
        sector_size(Some((size, sector))) == sector,
        sector_size(None) == 512,
{
}

/// The sector size to work with.
pub fn sector_size_of(g: Option<(u64, u32)>) -> (n: u64)
    ensures
        n == sector_size(g),
        n == match g {
            Some((_, sector)) => sector,
            None => DEFAULT_SECTOR,
        },
{
    match g {
        Some((_, sector)) => sector as u64,
        None => DEFAULT_SECTOR as u64,
    }
}

/// A disk that was found, or why none was.
#[derive(Debug, Clone)]
pub struct DiskInfo {
    pub path: String,
    pub size: Option<u64>,
    pub error: Option<String>,
}

#[verifier::ext_equal]
pub struct DiskView {
    pub path: Seq<char>,
    pub size: Option<u64>,
    pub error: Option<Seq<char>>,
}

impl View for DiskInfo {
    type V = DiskView;

    open spec fn view(&self) -> DiskView {
        DiskView {
            path: self.path@,
            size: self.size,
            error: match self.error {
                None => None,
                Some(e) => Some(e@),
            },
        }
    }
}

pub open spec fn disks_view(s: Seq<DiskInfo>) -> Seq<DiskView> {
    Seq::new(s.len(), |i: int| s[i]@)
}

/// The name of drive number `i`.
pub open spec fn drive_name(i: u32) -> Seq<char> {
    "\\\\.\\PhysicalDrive"@ + decimal(i as nat)
}

/// What is noted of drive number `i`, which could be opened.
pub open spec fn disk_found(i: u32, g: Option<(u64, u32)>) -> DiskView {
    DiskView {
        path: drive_name(i),
        size: match g {
            Some((size, _)) => Some(size),
            None => None,
        },
        error: None,
    }
}

/// The disks found once drive number `i` could not be opened.
pub open spec fn disks_refused(disks: Seq<DiskView>, i: u32, why: Seq<char>) -> Seq<DiskView> {
    if i == 0 {
        disks.push(
            DiskView {
                path: drive_name(0),
                size: None,
                error: Some("access denied: "@ + why),
            },
        )
    } else {
        disks
    }
}

/// A drive that can be opened is noted under its name, with its size if it tells one. That none
/// can be opened is noted with the reason.
pub proof fn law_what_is_noted_of_drives(
    i: u32,
    g: Option<(u64, u32)>,
    disks: Seq<DiskView>,
    why: Seq<char>,
)
    ensures
        disk_found(i, g).path == drive_name(i),
        g is Some ==> disk_found(i, g).size == Some(g->Some_0.0),
        g is None ==> disk_found(i, g).size is None,
        disk_found(i, g).error is None,
        i > 0 ==> disks_refused(disks, i, why) == disks,
        i == 0 ==> {
            let after = disks_refused(disks, i, why);
            &&& after.len() == disks.len() + 1
            &&& after.drop_last() == disks
            &&& after.last().path == drive_name(0)
            &&& after.last().size is None
            &&& after.last().error == Some("access denied: "@ + why)
        },
{
    assert(disks_refused(disks, 0, why).drop_last() =~= disks);
}

/// A search for disks: drives are tried in turn until one cannot be opened.
pub struct DiskSearch {
    /// The next drive to try.
    pub next: u32,
    pub over: bool,
    pub disks: Vec<DiskInfo>,
}

impl DiskSearch {
    pub open spec fn wf(self) -> bool {
        self.next <= MAX_DRIVES
    }

    pub fn new() -> (s: DiskSearch)
        ensures
            s.wf(),
            s.next == 0,
            !s.over,
            s.disks@.len() == 0,
    {
        DiskSearch { next: 0, over: false, disks: Vec::new() }
    }

    /// The drive to open next, if the search goes on.
    pub fn candidate(&self) -> (path: Option<String>)
        ensures
            match path {
                Some(p) => !self.over && self.next < MAX_DRIVES && p@ == drive_name(self.next),
                None => self.over || self.next >= MAX_DRIVES,
            },
    {
        if self.over || self.next >= MAX_DRIVES {
            return None;
        }
        Some(name_drive(self.next))
    }

    /// The candidate could be opened, and has this geometry.
    pub fn opened(&mut self, g: Option<(u64, u32)>)
        requires
            old(self).wf(),
            !old(self).over,
            old(self).next < MAX_DRIVES,
        ensures
            final(self).wf(),
            final(self).next == old(self).next + 1,
            !final(self).over,
            disks_view(final(self).disks@) == disks_view(old(self).disks@).push(
                disk_found(old(self).next, g),
            ),
            disks_view(final(self).disks@) == disks_view(old(self).disks@).push(
                (DiskView {
                    path: drive_name(old(self).next),
                    size: match g {
                        Some((size, _)) => Some(size),
                        None => None,
                    },
                    error: None,
                }),
            ),
    {
        let size: Option<u64> = match g {
            Some((size, _)) => Some(size),
            None => None,
        };
        let disk = DiskInfo { path: name_drive(self.next), size, error: None };
        self.disks.push(disk);
        assert(disks_view(self.disks@) =~= disks_view(old(self).disks@).push(disk@));
        self.next = self.next + 1;
    }

    /// The candidate could not be opened: the search is over. If it was the first, that is
    /// worth telling.
    pub fn refused(&mut self, why: &str)
        requires
            old(self).wf(),
            !old(self).over,
            old(self).next < MAX_DRIVES,
        ensures
            final(self).wf(),
            final(self).over,
            final(self).next == old(self).next,
            disks_view(final(self).disks@) == disks_refused(
                disks_view(old(self).disks@),
                old(self).next,
                why@,
            ),
            disks_view(final(self).disks@) == if old(self).next == 0 {
                disks_view(old(self).disks@).push(
                    (DiskView {
                        path: drive_name(0),
                        size: None,
                        error: Some("access denied: "@ + why@),
                    }),
                )
            } else {
                disks_view(old(self).disks@)
            },
    {
        if self.next == 0 {
            let mut text = "access denied: ".to_owned();
            text.append(why);
            let disk = DiskInfo { path: name_drive(0), size: None, error: Some(text) };
            self.disks.push(disk);
            assert(disks_view(self.disks@) =~= disks_view(old(self).disks@).push(disk@));
        }
        self.over = true;
    }
}

fn name_drive(i: u32) -> (s: String)
    ensures
        s@ == drive_name(i),
{
    let mut s = "\\\\.\\PhysicalDrive".to_owned();
    push_decimal(&mut s, i as u64);
    s
}

/// The mark of an extended-length path, in 16-bit units.
pub open spec fn long_mark() -> Seq<u16> {
    seq![0x5Cu16, 0x5C, 0x3F, 0x5C]
}

/// A path, in 16-bit units, in the form that may be longer than usual. Only a path that
/// starts with a drive letter can be extended; one that is extended already is kept.
pub open spec fn extended(wide: Seq<u16>) -> Seq<u16> {
    if long_mark().is_prefix_of(wide) || wide.len() < 2 || wide[1] != 0x3A {
        wide
    } else {
        long_mark() + wide
    }
}

/// The marks of devices and of long paths, letter by letter.
pub proof fn law_marks_of_paths()
    ensures
        device_prefix() == "\\\\.\\"@,
        long_mark() == "\\\\?\\"@.map_values(|c: char| c as u16),
{
    reveal_strlit("\\\\.\\");
    reveal_strlit("\\\\?\\");
    assert(device_prefix() =~= "\\\\.\\"@);
    assert(long_mark() =~= "\\\\?\\"@.map_values(|c: char| c as u16));
}

/// A path with a drive letter gets the mark in front, and all of it stays; any other path is left
/// as it is.
pub proof fn law_extended_paths(wide: Seq<u16>)
    ensures
        ({
            let marked = wide.len() >= 4 && wide[0] == 0x5C && wide[1] == 0x5C && wide[2] == 0x3F
                && wide[3] == 0x5C;
            &&& !marked && wide.len() >= 2 && wide[1] == ':' as u16 ==> extended(wide) == seq![
                0x5Cu16,
                0x5C,
                0x3F,
                0x5C,
            ] + wide
            &&& marked || wide.len() < 2 || wide[1] != ':' as u16 ==> extended(wide) == wide
        }),
{
    let mark = long_mark();
    assert(mark.len() == 4 && mark[0] == 0x5C && mark[1] == 0x5C && mark[2] == 0x3F && mark[3]
        == 0x5C);
    if wide.len() >= 4 {
        let head = wide.subrange(0, 4);
        assert(head[0] == wide[0] && head[1] == wide[1] && head[2] == wide[2] && head[3] == wide[3]);
        if wide[0] == 0x5C && wide[1] == 0x5C && wide[2] == 0x3F && wide[3] == 0x5C {
            assert(mark =~= head);
        }
    }
}

/// A disk that answers has its own size, and sectors of 512 bytes at least. One without a size
/// is none.
pub proof fn law_geometry_of_disks(accepted: bool, size: u64, sector: u32)
    ensures
        geometry(accepted, size, sector) is Some <==> accepted && size != 0,
        accepted && size != 0 && sector >= 512 ==> geometry(accepted, size, sector) == Some(
            (size, sector),
        ),
        accepted && size != 0 && sector < 512 ==> geometry(accepted, size, sector) == Some(
            (size, 512u32),
        ),
{
}

/// Drives are told apart by the number at the end of their names. At most 64 are tried.
pub proof fn law_names_of_drives(i: u32)
    ensures
        ({
            let digits = drive_name(i).skip(17);
            &&& drive_name(i).take(17) == "\\\\.\\PhysicalDrive"@
            &&& value(digits, 10) == i
            &&& digits.len() > 1 ==> digits[0] != '0'
        }),
        MAX_DRIVES == 64,
{
    reveal_strlit("\\\\.\\PhysicalDrive");
    law_written_numbers_read_back(i as nat, 10, 1);
    assert(drive_name(i).take(17) =~= "\\\\.\\PhysicalDrive"@);
    assert(drive_name(i).skip(17) =~= decimal(i as nat));
}

/// Extending a path twice is extending it once.
pub proof fn law_extending_once_is_enough(wide: Seq<u16>)
    ensures
        extended(extended(wide)) == extended(wide),
{
    if extended(wide) != wide {
        let mark = long_mark();
        assert((mark + wide).subrange(0, mark.len() as int) =~= mark);
    }
}

/// Converts an absolute path to the extended-length form, so that deep trees can be
/// written. The path is given in 16-bit units.
pub fn long_path(wide: Vec<u16>) -> (ext: Vec<u16>)
    ensures
        ext@ == extended(wide@),
{
    let marked = wide.len() >= 4 && wide[0] == 0x5C && wide[1] == 0x5C && wide[2] == 0x3F
        && wide[3] == 0x5C;
    proof {
        let p = long_mark();
        assert(p.len() == 4 && p[0] == 0x5C && p[1] == 0x5C && p[2] == 0x3F && p[3] == 0x5C);
        if wide@.len() >= 4 {
            let head = wide@.subrange(0, 4);
            assert(head[0] == wide@[0] && head[1] == wide@[1] && head[2] == wide@[2] && head[3]
                == wide@[3]);
            if marked {
                assert(p =~= head);
            }
        }
    }
    if marked || wide.len() < 2 || wide[1] != 0x3A {
        return wide;
    }
    let mut ext: Vec<u16> = Vec::new();
    ext.push(0x5C);
    ext.push(0x5C);
    ext.push(0x3F);
    ext.push(0x5C);
    assert(ext@ =~= long_mark());
    ext.extend_from_slice(wide.as_slice());
    ext
}

} // verus!
