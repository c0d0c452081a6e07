//! Partition tables, disks, names, sizes and selections.

use ext4fs_tool::browse::{enter_path, hex_preview, text_preview, RowInfo, MAX_HEX, MAX_TEXT};
use ext4fs_tool::device::{
    disk_geometry, is_device_path, long_path, sector_size_of, DiskSearch,
};
use ext4fs_tool::dir::DirEntry;
use ext4fs_tool::error::ExtError;
use ext4fs_tool::format::{fmt_size, hex_dump, type_label};
use ext4fs_tool::jobs::{schedule, Schedule};
use ext4fs_tool::labels::{
    copy_report, copy_summary, open_selected, DiskEntry, PartRow, Probe,
};
use ext4fs_tool::names::sanitize_name;
use ext4fs_tool::partitions::{
    decode_utf16, detect_fs, gpt_layout, parse_gpt, scan_mbr, MbrScan, PartKind, Partition,
};
use ext4fs_tool::order::sort_by_name;
use ext4fs_tool::path::{
    append_tail, basename_of, join_fs_path, join_path, parent_of, parent_path, splice,
};
use ext4fs_tool::progress::CopyProgress;
use ext4fs_tool::selection::Selection;
use ext4fs_tool::tasks::link_destination;
use ext4fs_tool::text::path_components;

fn w16(d: &mut [u8], o: usize, v: u16) {
    d[o..o + 2].copy_from_slice(&v.to_le_bytes());
}

fn w32(d: &mut [u8], o: usize, v: u32) {
    d[o..o + 4].copy_from_slice(&v.to_le_bytes());
}

fn w64(d: &mut [u8], o: usize, v: u64) {
    d[o..o + 8].copy_from_slice(&v.to_le_bytes());
}

// ---------------------------------------------------------------------------
// partition tables
// ---------------------------------------------------------------------------

fn mbr() -> Vec<u8> {
    let mut d = vec![0u8; 512];
    d[446 + 4] = 0x83;
    w32(&mut d, 446 + 8, 2048);
    w32(&mut d, 446 + 12, 32768);
    d[446 + 32 + 4] = 0x07;
    w32(&mut d, 446 + 32 + 8, 40000);
    w32(&mut d, 446 + 32 + 12, 100);
    d[510] = 0x55;
    d[511] = 0xAA;
    d
}

#[test]
fn mbr_tables_are_read() {
    let table = match scan_mbr(&mbr()).unwrap() {
        MbrScan::Table(t) => t,
        MbrScan::Protective => panic!("no GPT here"),
    };
    assert!(!table.is_gpt);
    assert_eq!(table.partitions.len(), 2);
    let p = &table.partitions[0];
    assert_eq!((p.index, p.start_lba, p.sectors), (1, 2048, 32768));
    assert_eq!(p.kind, PartKind::Mbr(0x83));
    assert_eq!(p.start_bytes(512), 1048576);
    assert_eq!(p.size_bytes(512), 16777216);
    assert_eq!(table.partitions[1].index, 3);
    assert_eq!(table.partitions[1].kind, PartKind::Mbr(0x07));
}

#[test]
fn disks_without_a_table_are_refused() {
    let text = "unsupported feature: no MBR/GPT signature found (raw filesystem without a partition table?)";
    for d in [vec![0u8; 512], mbr()[..511].to_vec(), Vec::new()] {
        match scan_mbr(&d) {
            Ok(_) => panic!("no table here"),
            Err(e) => assert_eq!(e.message(), text),
        }
    }
    let mut d = mbr();
    d[446 + 48 + 4] = 0xEE;
    assert!(matches!(scan_mbr(&d), Ok(MbrScan::Protective)));
}

fn gpt_header() -> Vec<u8> {
    let mut h = vec![0u8; 512];
    h[..8].copy_from_slice(b"EFI PART");
    w64(&mut h, 72, 2);
    w32(&mut h, 80, 4);
    w32(&mut h, 84, 128);
    h
}

#[test]
fn gpt_headers_are_read() {
    let g = gpt_layout(&gpt_header(), 512).unwrap();
    assert_eq!((g.offset, g.len, g.num_entries, g.entry_size), (1024, 512, 4, 128));
    let refused = |h: &[u8]| match gpt_layout(h, 512) {
        Ok(_) => panic!("no header here"),
        Err(e) => e.message(),
    };
    let mut h = gpt_header();
    h[7] = b'X';
    assert_eq!(refused(&h), "unsupported feature: invalid GPT header");
    assert_eq!(refused(&gpt_header()[..91]), "unsupported feature: invalid GPT header");
    let mut h = gpt_header();
    w32(&mut h, 84, 127);
    assert_eq!(refused(&h), "unsupported feature: unexpected GPT entry size/count");
    let mut h = gpt_header();
    w32(&mut h, 80, 0);
    assert_eq!(refused(&h), "unsupported feature: unexpected GPT entry size/count");
    let mut h = gpt_header();
    w64(&mut h, 72, u64::MAX);
    assert_eq!(refused(&h), "unsupported feature: GPT entries out of range");
}

#[test]
fn gpt_entries_are_read() {
    let guid: [u8; 16] = [
        0xAF, 0x3D, 0xC6, 0x0F, 0x83, 0x84, 0x72, 0x47, 0x8E, 0x79, 0x3D, 0x69, 0xD8, 0x47, 0x7D, 0xE4,
    ];
    let mut d = vec![0u8; 3 * 128];
    let e = 128;
    d[e..e + 16].copy_from_slice(&guid);
    w64(&mut d, e + 32, 2048);
    w64(&mut d, e + 40, 34815);
    let name: Vec<u8> = "ext4 test".encode_utf16().flat_map(|u| u.to_le_bytes()).collect();
    d[e + 56..e + 56 + name.len()].copy_from_slice(&name);
    d[256] = 1;
    w64(&mut d, 256 + 32, 10);
    w64(&mut d, 256 + 40, 9);
    let t = parse_gpt(&d, 3, 128).unwrap();
    assert!(t.is_gpt);
    assert_eq!(t.partitions.len(), 2);
    let p = &t.partitions[0];
    assert_eq!((p.index, p.start_lba, p.sectors), (2, 2048, 32768));
    assert_eq!(p.kind, PartKind::Gpt(guid));
    assert_eq!(p.name, "ext4 test");
    assert_eq!(t.partitions[1].sectors, 0);
    w64(&mut d, 256 + 32, 0);
    w64(&mut d, 256 + 40, u64::MAX);
    match parse_gpt(&d, 3, 128) {
        Ok(_) => panic!("too large"),
        Err(e) => assert_eq!(e.message(), "unsupported feature: GPT partition too large"),
    }
}

#[test]
fn utf16_fields_are_decoded() {
    assert_eq!(decode_utf16(&[0x41, 0, 0x2D, 0x4E, 0, 0, 0x42, 0]), "A中");
    assert_eq!(decode_utf16(&[0x3D, 0xD8, 0x00, 0xDE]), "\u{1F600}");
    assert_eq!(decode_utf16(&[0x3D, 0xD8, 0x41, 0]), "\u{FFFD}A");
    assert_eq!(decode_utf16(&[0x00, 0xDE]), "\u{FFFD}");
    assert_eq!(decode_utf16(&[0x41]), "");
    assert_eq!(decode_utf16(&[]), "");
}

#[test]
fn filesystems_are_recognised() {
    let mut d = vec![0u8; 2048];
    assert_eq!(detect_fs(&d), "unknown");
    assert_eq!(detect_fs(&[]), "unknown");
    d[54..62].copy_from_slice(b"FAT12   ");
    assert_eq!(detect_fs(&d), "FAT");
    d[54..62].copy_from_slice(b"FAT16   ");
    assert_eq!(detect_fs(&d), "FAT");
    d[82..90].copy_from_slice(b"FAT32   ");
    assert_eq!(detect_fs(&d), "FAT32");
    d[3..8].copy_from_slice(b"EXFAT");
    assert_eq!(detect_fs(&d), "exFAT");
    d[3..11].copy_from_slice(b"NTFS    ");
    assert_eq!(detect_fs(&d), "NTFS");
    w16(&mut d, 1080, 0xEF53);
    assert_eq!(detect_fs(&d), "ext2/3/4");
    assert_eq!(detect_fs(&d[..1083]), "ext2/3/4");
    assert_eq!(detect_fs(&d[..1082]), "NTFS");
}

// ---------------------------------------------------------------------------
// disks
// ---------------------------------------------------------------------------

#[test]
fn device_paths_are_told_from_files() {
    assert!(is_device_path("\\\\.\\PhysicalDrive0"));
    assert!(is_device_path("\\\\.\\"));
    assert!(!is_device_path("\\\\."));
    assert!(!is_device_path("C:\\disk.img"));
    assert!(!is_device_path("/dev/sda"));
}

#[test]
fn geometry_is_believed_if_it_is_a_disk_s() {
    assert_eq!(disk_geometry(true, 1000, 4096), Some((1000, 4096)));
    assert_eq!(disk_geometry(true, 1000, 100), Some((1000, 512)));
    assert_eq!(disk_geometry(true, 0, 512), None);
    assert_eq!(disk_geometry(false, 1000, 512), None);
    assert_eq!(sector_size_of(Some((1000, 4096))), 4096);
    assert_eq!(sector_size_of(None), 512);
}

#[test]
fn the_search_for_disks_stops_at_a_refusal() {
    let mut s = DiskSearch::new();
    assert_eq!(s.candidate().unwrap(), "\\\\.\\PhysicalDrive0");
    s.opened(Some((77, 512)));
    assert_eq!(s.candidate().unwrap(), "\\\\.\\PhysicalDrive1");
    s.opened(None);
    s.refused("no");
    assert!(s.candidate().is_none());
    assert_eq!(s.disks.len(), 2);
    assert_eq!(s.disks[0].size, Some(77));
    assert_eq!(s.disks[1].size, None);
    let mut s = DiskSearch::new();
    s.refused("Access is denied.");
    assert_eq!(s.disks[0].error, Some("access denied: Access is denied.".to_string()));
    let mut s = DiskSearch::new();
    for _ in 0..64 {
        assert!(s.candidate().is_some());
        s.opened(None);
    }
    assert!(s.candidate().is_none());
}

#[test]
fn long_paths_are_marked() {
    let wide = |s: &str| s.encode_utf16().collect::<Vec<u16>>();
    assert_eq!(long_path(wide("D:\\x")), wide("\\\\?\\D:\\x"));
    assert_eq!(long_path(wide("\\\\?\\D:\\x")), wide("\\\\?\\D:\\x"));
    assert_eq!(long_path(long_path(wide("D:\\x"))), wide("\\\\?\\D:\\x"));
    assert_eq!(long_path(wide("\\\\server\\x")), wide("\\\\server\\x"));
    assert_eq!(long_path(wide("x")), wide("x"));
    assert_eq!(long_path(Vec::new()), Vec::<u16>::new());
}

fn partition() -> Partition {
    Partition {
        index: 2,
        start_lba: 2048,
        sectors: 32768,
        kind: PartKind::Mbr(0x83),
        name: "data".to_string(),
    }
}

#[test]
fn disks_and_partitions_are_worded() {
    let row = PartRow::of(&partition(), 512, "NTFS").unwrap();
    assert_eq!(row.start_bytes, 1048576);
    assert_eq!(row.kind, "MBR 0x83");
    assert_eq!(row.line(512), "#2   16.0 MB   fs: NTFS   data   MBR 0x83");
    assert_eq!(row.line(u64::MAX), "#2   too large   fs: NTFS   data   MBR 0x83");
    assert!(PartRow::of(&partition(), u64::MAX, "NTFS").is_none());
    let mut p = partition();
    p.kind = PartKind::Gpt([1; 16]);
    assert_eq!(PartRow::of(&p, 512, "").unwrap().kind, "GPT");
    let d = DiskEntry::probed("d0".to_string(), Some(2048), Probe::Open(4096, Ok(vec![row])));
    assert_eq!(d.title(), "d0   (2.0 KB bytes)");
    assert_eq!((d.sector_size, d.error.is_none()), (4096, true));
    let c = DiskEntry::probed("d1".to_string(), None, Probe::Closed("busy".to_string()));
    assert_eq!(c.title(), "d1");
    assert_eq!((c.sector_size, c.error.clone()), (512, Some("busy".to_string())));
    let r = DiskEntry::refused("d2".to_string(), "no".to_string());
    assert!(r.parts.is_none() && r.size.is_none());
    let t = DiskEntry::probed("d3".to_string(), None, Probe::Open(512, Err("none".to_string())));
    assert_eq!(t.error, Some("none".to_string()));
    let disks = vec![d, c];
    assert_eq!(open_selected(&disks, Some((0, 0))), Some(("d0".to_string(), 1048576)));
    assert_eq!(open_selected(&disks, Some((0, 1))), None);
    assert_eq!(open_selected(&disks, Some((1, 0))), None);
    assert_eq!(open_selected(&disks, Some((2, 0))), None);
    assert_eq!(open_selected(&disks, None), None);
}

// ---------------------------------------------------------------------------
// names and paths
// ---------------------------------------------------------------------------

#[test]
fn names_are_made_safe() {
    let safe = |s: &str| sanitize_name(s);
    assert_eq!(safe("plain.txt"), ("plain.txt".to_string(), false));
    assert_eq!(safe("a<b>c:d\"e/f\\g|h?i*j"), ("a_b_c_d_e_f_g_h_i_j".to_string(), true));
    assert_eq!(safe("dots.. . "), ("dots".to_string(), true));
    assert_eq!(safe(" . "), ("_".to_string(), true));
    assert_eq!(safe(""), ("_".to_string(), true));
    assert_eq!(safe("con"), ("_con".to_string(), true));
    assert_eq!(safe("NUL.txt"), ("_NUL.txt".to_string(), true));
    assert_eq!(safe("Clock$"), ("_Clock$".to_string(), true));
    assert_eq!(safe("com1"), ("_com1".to_string(), true));
    assert_eq!(safe("LPT9.log"), ("_LPT9.log".to_string(), true));
    assert_eq!(safe("com0"), ("com0".to_string(), false));
    assert_eq!(safe("com10"), ("com10".to_string(), false));
    assert_eq!(safe("com001"), ("_com001".to_string(), true));
    assert_eq!(safe("com+1"), ("_com+1".to_string(), true));
    assert_eq!(safe("com99999999999999999999"), ("com99999999999999999999".to_string(), false));
    assert_eq!(safe("com"), ("com".to_string(), false));
    assert_eq!(safe("com1x"), ("com1x".to_string(), false));
    assert_eq!(safe("console"), ("console".to_string(), false));
    assert_eq!(safe("中文"), ("中文".to_string(), false));
}

#[test]
fn safe_names_are_kept() {
    for name in ["con", "a?b", "x. ", "", "lpt3.x", "中文文件.txt", "_"] {
        let (once, _) = sanitize_name(name);
        assert_eq!(sanitize_name(&once), (once.clone(), false));
    }
}

/// The same decision, made with the full upper case of Unicode.
fn reserved_by_unicode(name: &str) -> bool {
    let base = name.split('.').next().unwrap_or("").to_uppercase();
    matches!(base.as_str(), "CON" | "PRN" | "AUX" | "NUL" | "CLOCK$")
        || ((base.starts_with("COM") || base.starts_with("LPT"))
            && base[3..].parse::<u32>().map_or(false, |n| (1..=9).contains(&n)))
}

#[test]
fn no_other_letter_makes_a_reserved_name() {
    for stem in ["con", "prn", "aux", "nul", "clock$", "com1", "lpt1"] {
        let letters: Vec<char> = stem.chars().collect();
        for at in 0..letters.len() {
            for code in 0x80..0x3000u32 {
                if let Some(c) = char::from_u32(code) {
                    let mut odd = letters.clone();
                    odd[at] = c;
                    let name: String = odd.into_iter().collect();
                    assert!(!reserved_by_unicode(&name));
                }
            }
        }
    }
}

#[test]
fn paths_are_taken_apart_and_joined() {
    assert_eq!(parent_of("/a/b"), "/a");
    assert_eq!(parent_of("/a/b//"), "/a");
    assert_eq!(parent_of("/a"), "/");
    assert_eq!(parent_of("/"), "/");
    assert_eq!(parent_of("a"), "/");
    assert_eq!(parent_path("a/b"), "a");
    assert_eq!(basename_of("/a/b"), "b");
    assert_eq!(basename_of("/a/b///"), "b");
    assert_eq!(basename_of("b"), "b");
    assert_eq!(basename_of("/"), "root");
    assert_eq!(basename_of(""), "root");
    assert_eq!(join_path("/", "x"), "/x");
    assert_eq!(join_path("/a", "x"), "/a/x");
    assert_eq!(join_fs_path("", "x"), "/x");
    assert_eq!(enter_path("/", "x"), "/x");
    assert_eq!(enter_path("/a//", "x"), "/a/x");
    assert_eq!(path_components("/a//./b/../c"), vec!["a", "b", "..", "c"]);
    for (dir, name) in [("/", "x"), ("/a", "y"), ("/a/b", "z.txt")] {
        let joined = join_path(dir, name);
        assert_eq!(parent_of(&joined), dir);
        assert_eq!(basename_of(&joined), name);
    }
}

#[test]
fn entries_are_sorted_and_equal_names_keep_their_order() {
    let entry = |ino: u32, name: &str| DirEntry {
        ino,
        rec_len: 0,
        name: name.to_string(),
        file_type: 1,
    };
    let list = vec![
        entry(1, "b"),
        entry(2, "ab"),
        entry(3, "b"),
        entry(4, "a"),
        entry(5, "é"),
        entry(6, "B"),
        entry(7, ""),
        entry(8, "b"),
    ];
    let sorted: Vec<u32> = sort_by_name(list.clone()).iter().map(|e| e.ino).collect();
    assert_eq!(sorted, vec![7, 6, 4, 2, 1, 3, 8, 5]);
    let mut std_sorted = list;
    std_sorted.sort_by(|a, b| a.name.cmp(&b.name));
    assert_eq!(sorted, std_sorted.iter().map(|e| e.ino).collect::<Vec<u32>>());
    assert_eq!(sort_by_name(Vec::new()).len(), 0);
}

#[test]
fn link_targets_are_placed() {
    assert_eq!(link_destination("/a/l", "/x/y"), "/x/y");
    assert_eq!(link_destination("/a/l", "x"), "/a/x");
    assert_eq!(link_destination("/l", "../x"), "/../x");
    assert_eq!(link_destination("/a/l", ""), "/a/");
    let comps = vec!["p".to_string(), "q".to_string(), "r".to_string()];
    assert_eq!(append_tail("/t", &comps, 1), "/t/q/r");
    assert_eq!(append_tail("/t", &comps, 3), "/t");
    assert_eq!(splice("./s//t", &comps, 2), vec!["s", "t", "r"]);
}

// ---------------------------------------------------------------------------
// how things are shown
// ---------------------------------------------------------------------------

/// The same, in floating point.
fn size_by_float(n: u64) -> String {
    let units = ["B", "KB", "MB", "GB", "TB", "PB"];
    if n < 1024 {
        return format!("{} B", n);
    }
    let mut v = n as f64;
    let mut u = 0;
    while v >= 1024.0 && u < units.len() - 1 {
        v /= 1024.0;
        u += 1;
    }
    if v >= 100.0 {
        format!("{:.0} {}", v, units[u])
    } else {
        format!("{:.1} {}", v, units[u])
    }
}

#[test]
fn sizes_are_shown() {
    assert_eq!(fmt_size(0), "0 B");
    assert_eq!(fmt_size(1023), "1023 B");
    assert_eq!(fmt_size(1024), "1.0 KB");
    assert_eq!(fmt_size(1536), "1.5 KB");
    assert_eq!(fmt_size(8292), "8.1 KB");
    assert_eq!(fmt_size(102400), "100 KB");
    assert_eq!(fmt_size(102399), "100.0 KB");
    assert_eq!(fmt_size(u64::MAX), "16384 PB");
}

#[test]
fn sizes_agree_with_floating_point() {
    let mut n: u64 = 1;
    let mut seed: u64 = 12345;
    while n < u64::MAX / 3 {
        for d in 0..40u64 {
            for k in [n.wrapping_add(d), n.wrapping_sub(d), n + n / 40 * d, n / 20 * d] {
                assert_eq!(fmt_size(k), size_by_float(k), "{}", k);
            }
        }
        n = n * 2;
    }
    for _ in 0..20000 {
        seed = seed.wrapping_mul(6364136223846793005).wrapping_add(1442695040888963407);
        let k = seed >> (seed % 53);
        assert_eq!(fmt_size(k), size_by_float(k), "{}", k);
    }
    for k in 0..2000u64 {
        let half = 1024 * (100 + k) + 512;
        assert_eq!(fmt_size(half), size_by_float(half));
    }
    for k in [1u64 << 53, (1 << 53) + 1, (1 << 54) + 2, (1 << 54) + 6, u64::MAX - 1024, u64::MAX - 1023] {
        assert_eq!(fmt_size(k), size_by_float(k), "{}", k);
    }
}

#[test]
fn bytes_are_dumped() {
    assert_eq!(hex_dump(&[]), "");
    let data: Vec<u8> = (0..18u8).map(|i| i + 0x30).collect();
    assert_eq!(
        hex_dump(&data),
        "00000000  30 31 32 33 34 35 36 37  38 39 3a 3b 3c 3d 3e 3f  |0123456789:;<=>?|\n\
         00000010  40 41                                             |@A|\n"
    );
    assert!(hex_dump(&[0, 31, 32, 126, 127, 255]).ends_with(" |.. ~..|\n"));
}

#[test]
fn types_are_named() {
    let list: Vec<&str> = (0..9u8).map(|t| type_label(t)).collect();
    assert_eq!(
        list,
        vec!["file", "file", "dir", "char", "blk", "fifo", "sock", "link", "file"]
    );
}

#[test]
fn previews_are_limited() {
    assert_eq!(text_preview(b"abc\xFF"), ("abc\u{FFFD}".to_string(), false));
    let big = vec![b'x'; MAX_TEXT + 1];
    let (text, more) = text_preview(&big);
    assert_eq!((text.len(), more), (MAX_TEXT, true));
    assert_eq!(text_preview(&big[1..]).1, false);
    assert_eq!(hex_preview(&big).0.len(), MAX_HEX);
    assert_eq!(hex_preview(&big).1, true);
    assert_eq!(hex_preview(b"ab"), (&b"ab"[..], false));
}

#[test]
fn jobs_are_reported() {
    assert_eq!(copy_summary("copied x", "D:\\", false), "copied x -> D:\\");
    assert_eq!(copy_summary("copied x", "D:\\", true), "copied x (cancelled by user)");
    assert_eq!(copy_report("done", &Vec::new()), "done");
    let errors: Vec<String> = (0..21).map(|i| format!("e{}", i)).collect();
    let text = copy_report("done", &errors);
    assert!(text.starts_with("done\n  warn: e0\n  warn: e1\n"));
    assert!(text.ends_with("\n  warn: e19\n  ... and 1 more"));
    assert_eq!(copy_report("d", &errors[..2].to_vec()), "d\n  warn: e0\n  warn: e1");
}

#[test]
fn errors_are_worded() {
    assert_eq!(ExtError::Io("x".to_string()).message(), "I/O error: x");
    assert_eq!(ExtError::Corrupt("x".to_string()).message(), "corrupt filesystem: x");
    assert_eq!(ExtError::NotFound("/x".to_string()).message(), "no such file or directory: /x");
    assert_eq!(ExtError::NotDir(7).message(), "inode 7 is not a directory");
    assert_eq!(ExtError::Unsupported("x".to_string()).message(), "unsupported feature: x");
    assert_eq!(ExtError::Pending(9).message(), "block 9 has not been supplied");
}

#[test]
fn workers_are_scheduled() {
    assert_eq!(schedule(0, 4), Schedule::Nothing);
    assert_eq!(schedule(7, 4), Schedule::InTurn);
    assert_eq!(schedule(8, 0), Schedule::InTurn);
    assert_eq!(schedule(8, 1), Schedule::InTurn);
    assert_eq!(schedule(8, 2), Schedule::Workers(2));
    assert_eq!(schedule(1000, 1000), Schedule::Workers(64));
}

// ---------------------------------------------------------------------------
// progress
// ---------------------------------------------------------------------------

#[test]
fn progress_is_counted() {
    let mut p = CopyProgress::new(4);
    assert_eq!((p.total(), p.total_bytes(), p.done(), p.bytes()), (4, 0, 0, 0));
    assert_eq!(p.current(), "");
    assert_eq!(p.fraction_parts(), Some((0, 4)));
    assert_eq!(p.eta_parts(), None);
    p.tick("/a");
    p.add_bytes(10);
    assert_eq!((p.done(), p.bytes(), p.current()), (1, 10, "/a".to_string()));
    assert_eq!(p.fraction_parts(), Some((1, 4)));
    assert_eq!(p.eta_parts(), Some((3, 1)));
    p.set_totals(5, 40);
    assert_eq!(p.fraction_parts(), Some((10, 40)));
    assert_eq!(p.eta_parts(), Some((30, 10)));
    p.add_bytes(90);
    assert_eq!(p.eta_parts(), Some((0, 100)));
    assert_eq!(p.fraction_parts(), Some((40, 40)));
    p.add_bytes(u64::MAX);
    assert_eq!(p.bytes(), 99);
    assert_eq!(CopyProgress::new(0).fraction_parts(), None);
}

// ---------------------------------------------------------------------------
// selections
// ---------------------------------------------------------------------------

fn rows(n: usize) -> Vec<RowInfo> {
    (0..n)
        .map(|i| RowInfo {
            ino: i as u32,
            ft: 1,
            size: 0,
            name: format!("n{}", i),
        })
        .collect()
}

fn chosen(s: &Selection) -> Vec<usize> {
    (0..20).filter(|i| s.contains(*i)).collect()
}

#[test]
fn clicks_select_rows() {
    let mut s = Selection::new();
    assert_eq!(s.count(), 0);
    s.apply_row_click(3, false, false);
    assert_eq!((chosen(&s), s.shown), (vec![3], Some(3)));
    s.apply_row_click(5, false, true);
    assert_eq!(chosen(&s), vec![3, 5]);
    s.apply_row_click(5, false, true);
    assert_eq!(chosen(&s), vec![3]);
    s.apply_row_click(2, true, false);
    assert_eq!(chosen(&s), vec![2, 3, 4, 5]);
    s.apply_row_click(4, true, true);
    assert_eq!((chosen(&s), s.anchor), (vec![2, 3, 4], Some(4)));
    s.click_nowhere(true);
    assert_eq!(s.count(), 3);
    s.click_nowhere(false);
    assert_eq!((s.count(), s.anchor, s.shown), (0, None, None));
    s.apply_row_click(7, true, false);
    assert_eq!(chosen(&s), vec![7]);
    s.select_range(usize::MAX - 1, usize::MAX);
    assert_eq!(s.count(), 2);
    s.forget_rows();
    assert_eq!((s.count(), s.anchor, s.shown), (0, Some(usize::MAX), None));
}

#[test]
fn menus_and_rubber_bands_select_rows() {
    let mut s = Selection::new();
    s.select_range(1, 3);
    s.open_menu_on(2);
    assert_eq!((chosen(&s), s.shown), (vec![1, 2, 3], None));
    s.open_menu_on(6);
    assert_eq!((chosen(&s), s.shown), (vec![6], Some(6)));
    s.drag_over(&vec![true, false, true], true);
    assert_eq!(chosen(&s), vec![0, 2, 6]);
    s.drag_over(&vec![false, true, false], false);
    assert_eq!(chosen(&s), vec![1]);
    s.toggle_sel(9);
    let items = s.items(&rows(4), "/d");
    assert_eq!(items, vec![("/d/n1".to_string(), "n1".to_string())]);
    s.select_range(2, 0);
    let names: Vec<String> = s.items(&rows(4), "/").into_iter().map(|p| p.0).collect();
    assert_eq!(names, vec!["/n0", "/n1", "/n2"]);
}
