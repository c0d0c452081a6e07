//! MBR and GPT partition tables, and guessing what kind of filesystem a partition holds.
//!
//! Reading a table takes up to three reads from the disk. What is to be read next, and what
//! it says, is decided here: first `scan_mbr` on the first sector; for a GPT disk then
//! `gpt_layout` on the second, and `parse_gpt` on the entries that it points to.

use crate::bytes::{le16, le32, le64, u16_at, u32_at, u64_at};
use crate::error::{unsupported, Fault, Outcome, Result};
use crate::ondisk::{law_fields_are_little_endian, num};
use crate::text::{from_utf16_lossy, utf16_text};
use vstd::prelude::*;
use vstd::slice::slice_subrange;
use vstd::string::*;

verus! {

#[derive(Debug, Clone, Copy, PartialEq)]
pub enum PartKind {
    /// The type byte of an MBR entry.
    Mbr(u8),
    /// The type GUID of a GPT entry.
    Gpt([u8; 16]),
}

pub enum PartKindView {
    Mbr(u8),
    Gpt(Seq<u8>),
}

impl View for PartKind {
    type V = PartKindView;

    open spec fn view(&self) -> PartKindView {
        match *self {
            PartKind::Mbr(t) => PartKindView::Mbr(t),
            PartKind::Gpt(guid) => PartKindView::Gpt(guid@),
        }
    }
}

#[derive(Debug, Clone)]
pub struct Partition {
    /// Its place in the table, from one on.
    pub index: u32,
    pub start_lba: u64,
    pub sectors: u64,
    pub kind: PartKind,
    pub name: String,
}

#[verifier::ext_equal]
pub struct PartitionView {
    pub index: u32,
    pub start_lba: u64,
    pub sectors: u64,
    pub kind: PartKindView,
    pub name: Seq<char>,
}

impl View for Partition {
    type V = PartitionView;

    open spec fn view(&self) -> PartitionView {
        PartitionView {
            index: self.index,
            start_lba: self.start_lba,
            sectors: self.sectors,
            kind: self.kind@,
            name: self.name@,
        }
    }
}

pub open spec fn partitions_view(s: Seq<Partition>) -> Seq<PartitionView> {
    Seq::new(s.len(), |i: int| s[i]@)
}

impl PartitionView {
    /// The byte where it begins.
    pub open spec fn start(self, sector_size: u64) -> int {
        self.start_lba * sector_size
    }

    /// How many bytes it has.
    pub open spec fn size(self, sector_size: u64) -> int {
        self.sectors * sector_size
    }
}

/// A partition that begins a sector later begins so many bytes later, and one that is a sector
/// longer is so many bytes longer.
pub proof fn law_extent_of_a_partition(p: PartitionView, q: PartitionView, sector_size: u64)
    ensures
        p.start_lba == 0 ==> p.start(sector_size) == 0,
        q.start_lba == p.start_lba + 1 ==> q.start(sector_size) == p.start(sector_size)
            + sector_size,
        p.sectors == 0 ==> p.size(sector_size) == 0,
        q.sectors == p.sectors + 1 ==> q.size(sector_size) == p.size(sector_size) + sector_size,
{
    let s = sector_size as int;
    assert((p.start_lba + 1) * s == p.start_lba * s + s) by (nonlinear_arith);
    assert((p.sectors + 1) * s == p.sectors * s + s) by (nonlinear_arith);
    assert(0 * s == 0);
}

impl Partition {
    pub fn start_bytes(&self, sector_size: u64) -> (n: u64)
        requires
            self.start_lba * sector_size <= u64::MAX,
        ensures
            n == self@.start(sector_size),
            n == self.start_lba * sector_size,
    {
        self.start_lba * sector_size
    }

    pub fn size_bytes(&self, sector_size: u64) -> (n: u64)
        requires
            self.sectors * sector_size <= u64::MAX,
        ensures
            n == self@.size(sector_size),
            n == self.sectors * sector_size,
    {
        self.sectors * sector_size
    }
}

pub struct PartitionTable {
    pub is_gpt: bool,
    pub partitions: Vec<Partition>,
}

/// What the first sector says.
pub enum MbrScan {
    Table(PartitionTable),
    /// The table is a GPT, of which this sector only warns.
    Protective,
}

pub open spec fn mbr_type(mbr: Seq<u8>, i: int) -> u8 {
    mbr[446 + i * 16 + 4]
}

pub open spec fn mbr_partition(mbr: Seq<u8>, i: int) -> PartitionView {
    let o = 446 + i * 16;
    PartitionView {
        index: (i + 1) as u32,
        start_lba: le32(mbr, o + 8) as u64,
        sectors: le32(mbr, o + 12) as u64,
        kind: PartKindView::Mbr(mbr_type(mbr, i)),
        name: Seq::empty(),
    }
}

/// The partitions among the first `n` of the four entries that are in use.
pub open spec fn mbr_partitions(mbr: Seq<u8>, n: int) -> Seq<PartitionView>
    decreases n,
{
    if n <= 0 {
        Seq::empty()
    } else if mbr_type(mbr, n - 1) == 0 {
        mbr_partitions(mbr, n - 1)
    } else {
        mbr_partitions(mbr, n - 1).push(mbr_partition(mbr, n - 1))
    }
}

/// The first sector warns of a GPT if one of its entries has this type.
pub open spec fn is_protective(mbr: Seq<u8>) -> bool {
    exists|i: int| 0 <= i < 4 && #[trigger] mbr_type(mbr, i) == 0xEE
}

pub open spec fn has_signature(mbr: Seq<u8>) -> bool {
    mbr.len() >= 512 && le16(mbr, 510) == 0xAA55
}

/// The first sector ends in 0x55, 0xAA, and it warns of a GPT if the type of any of its four
/// entries, the fifth byte of each, is 0xEE. The entries begin at byte 446.
pub proof fn law_marks_of_the_first_sector(mbr: Seq<u8>)
    ensures
        has_signature(mbr) <==> mbr.len() >= 512 && mbr[510] == 0x55 && mbr[511] == 0xAA,
        is_protective(mbr) <==> mbr[450] == 0xEE || mbr[466] == 0xEE || mbr[482] == 0xEE || mbr[498]
            == 0xEE,
{
    assert(mbr_type(mbr, 0) == mbr[450]);
    assert(mbr_type(mbr, 1) == mbr[466]);
    assert(mbr_type(mbr, 2) == mbr[482]);
    assert(mbr_type(mbr, 3) == mbr[498]);
    if is_protective(mbr) {
        let i = choose|i: int| 0 <= i < 4 && #[trigger] mbr_type(mbr, i) == 0xEE;
        assert(i == 0 || i == 1 || i == 2 || i == 3);
    }
}

/// What sixteen bytes of the first sector say of partition `i`, counted from zero: the type is in
/// byte 4, the first sector in bytes 8 to 11 and the number of sectors in bytes 12 to 15.
pub open spec fn told_by(entry: Seq<u8>, i: int) -> PartitionView {
    PartitionView {
        index: (i + 1) as u32,
        start_lba: num(entry, 8, 4) as u64,
        sectors: num(entry, 12, 4) as u64,
        kind: PartKindView::Mbr(entry[4]),
        name: Seq::empty(),
    }
}

/// The first sector lists those of its entries whose type is not zero, in their order, each as
/// its own sixteen bytes tell it.
pub proof fn law_first_sector_lists_its_entries(mbr: Seq<u8>)
    requires
        mbr.len() >= 512,
    ensures
        mbr_partitions(mbr, 4) == Seq::new(4, |i: int| i).filter(
            |i: int| mbr[446 + 16 * i + 4] != 0,
        ).map_values(|i: int| told_by(mbr.subrange(446 + 16 * i, 446 + 16 * i + 16), i)),
{
    lemma_mbr_entries(mbr, 4);
}

proof fn lemma_mbr_entries(mbr: Seq<u8>, n: int)
    requires
        mbr.len() >= 512,
        0 <= n <= 4,
    ensures
        mbr_partitions(mbr, n) == Seq::new(n as nat, |i: int| i).filter(
            |i: int| mbr[446 + 16 * i + 4] != 0,
        ).map_values(|i: int| told_by(mbr.subrange(446 + 16 * i, 446 + 16 * i + 16), i)),
    decreases n,
{
    let pred = |i: int| mbr[446 + 16 * i + 4] != 0;
    let f = |i: int| told_by(mbr.subrange(446 + 16 * i, 446 + 16 * i + 16), i);
    let all = Seq::new(n as nat, |i: int| i);
    reveal(Seq::filter);
    if n > 0 {
        lemma_mbr_entries(mbr, n - 1);
        let before = Seq::new((n - 1) as nat, |i: int| i);
        assert(all.drop_last() =~= before);
        assert(all.last() == n - 1);
        let o = 446 + 16 * (n - 1);
        let entry = mbr.subrange(o, o + 16);
        law_fields_are_little_endian(entry, 8);
        law_fields_are_little_endian(entry, 12);
        law_fields_are_little_endian(mbr, o + 8);
        law_fields_are_little_endian(mbr, o + 12);
        assert(f(n - 1) =~= mbr_partition(mbr, n - 1));
        assert(before.filter(pred).push(n - 1).map_values(f) =~= before.filter(pred).map_values(
            f,
        ).push(f(n - 1)));
    } else {
        assert(all.filter(pred).map_values(f) =~= Seq::empty());
    }
}

/// Every entry of the first sector that is in use is listed, under its number from one on, with
/// the first sector and the number of sectors that it tells.
pub proof fn law_no_partition_is_left_out(mbr: Seq<u8>, i: int) -> (at: int)
    requires
        mbr.len() >= 512,
        0 <= i < 4,
        mbr[446 + 16 * i + 4] != 0,
    ensures
        ({
            let all = mbr_partitions(mbr, 4);
            &&& 0 <= at < all.len()
            &&& all[at].index == i + 1
            &&& all[at].start_lba == num(mbr, 446 + 16 * i + 8, 4)
            &&& all[at].sectors == num(mbr, 446 + 16 * i + 12, 4)
            &&& all[at].kind == PartKindView::Mbr(mbr[446 + 16 * i + 4])
        }),
{
    law_fields_are_little_endian(mbr, 446 + 16 * i + 8);
    law_fields_are_little_endian(mbr, 446 + 16 * i + 12);
    lemma_mbr_place(mbr, i, 4)
}

proof fn lemma_mbr_place(mbr: Seq<u8>, i: int, n: int) -> (at: int)
    requires
        0 <= i < n,
        mbr_type(mbr, i) != 0,
    ensures
        0 <= at < mbr_partitions(mbr, n).len(),
        mbr_partitions(mbr, n)[at] == mbr_partition(mbr, i),
    decreases n,
{
    if i == n - 1 {
        mbr_partitions(mbr, n - 1).len() as int
    } else {
        lemma_mbr_place(mbr, i, n - 1)
    }
}

/// Reads the first sector of a disk or disk image; `mbr` holds what could be read of it.
pub fn scan_mbr(mbr: &[u8]) -> (r: Result<MbrScan>)
    ensures
        match r {
            Ok(MbrScan::Table(table)) => has_signature(mbr@) && !is_protective(mbr@)
                && !table.is_gpt && partitions_view(table.partitions@) == mbr_partitions(mbr@, 4),
            Ok(MbrScan::Protective) => has_signature(mbr@) && is_protective(mbr@),
            Err(e) => !has_signature(mbr@) && e@ == Fault::Unsupported(
                "no MBR/GPT signature found (raw filesystem without a partition table?)"@,
            ),
        },
{
    if mbr.len() < 512 || u16_at(mbr, 510) != 0xAA55 {
        return Err(
            unsupported("no MBR/GPT signature found (raw filesystem without a partition table?)"),
        );
    }
    let mut protective = false;
    let mut partitions: Vec<Partition> = Vec::new();
    let mut i: u32 = 0;
    assert(partitions_view(partitions@) =~= mbr_partitions(mbr@, 0));
    while i < 4
        invariant
            i <= 4,
            mbr@.len() >= 512,
            protective == (exists|k: int| 0 <= k < i && #[trigger] mbr_type(mbr@, k) == 0xEE),
            partitions_view(partitions@) == mbr_partitions(mbr@, i as int),
        decreases 4 - i,
    {
        let o: usize = 446 + i as usize * 16;
        let kind: u8 = mbr[o + 4];
        assert(kind == mbr_type(mbr@, i as int));
        if kind == 0xEE {
            protective = true;
        }
        if kind != 0 {
            let ghost before = partitions@;
            let p = Partition {
                index: i + 1,
                start_lba: u32_at(mbr, o + 8) as u64,
                sectors: u32_at(mbr, o + 12) as u64,
                kind: PartKind::Mbr(kind),
                name: String::new(),
            };
            partitions.push(p);
            assert(p@ =~= mbr_partition(mbr@, i as int));
            assert(partitions_view(partitions@) =~= partitions_view(before).push(p@));
        }
        i = i + 1;
    }
    if protective {
        return Ok(MbrScan::Protective);
    }
    Ok(MbrScan::Table(PartitionTable { is_gpt: false, partitions }))
}

/// Where the entries of a GPT are.
pub struct GptLayout {
    /// Byte position on the disk.
    pub offset: u64,
    /// Length in bytes.
    pub len: u64,
    pub num_entries: u32,
    pub entry_size: u32,
}

/// "EFI PART".
pub open spec fn gpt_signature() -> Seq<u8> {
    seq![0x45u8, 0x46, 0x49, 0x20, 0x50, 0x41, 0x52, 0x54]
}

/// Whether `pat` stands at `from`.
pub open spec fn has_at(data: Seq<u8>, from: int, pat: Seq<u8>) -> bool {
    data.len() >= from + pat.len() && data.subrange(from, from + pat.len()) == pat
}

/// What is wrong with a GPT header, if anything.
pub open spec fn gpt_fault(hdr: Seq<u8>, sector_size: u64) -> Option<Fault> {
    if hdr.len() < 92 || !has_at(hdr, 0, gpt_signature()) {
        Some(Fault::Unsupported("invalid GPT header"@))
    } else if le32(hdr, 84) < 128 || le32(hdr, 80) == 0 {
        Some(Fault::Unsupported("unexpected GPT entry size/count"@))
    } else if le64(hdr, 72) * sector_size > u64::MAX {
        Some(Fault::Unsupported("GPT entries out of range"@))
    } else {
        None
    }
}

impl GptLayout {
    /// Whether these are the entries that the header tells of.
    pub open spec fn describes(self, hdr: Seq<u8>, sector_size: u64) -> bool {
        &&& self.num_entries == le32(hdr, 80)
        &&& self.entry_size == le32(hdr, 84)
        &&& self.offset == le64(hdr, 72) * sector_size
        &&& self.len == self.num_entries * self.entry_size
    }
}

/// A GPT header begins with "EFI PART", is 92 bytes long at least, and tells of entries, of 128
/// bytes at least, that lie where they can be reached.
pub proof fn law_sound_gpt_headers(hdr: Seq<u8>, sector_size: u64)
    ensures
        gpt_fault(hdr, sector_size) is None <==> {
            &&& hdr.len() >= 92
            &&& spells(hdr, 0, "EFI PART"@)
            &&& num(hdr, 84, 4) >= 128
            &&& num(hdr, 80, 4) > 0
            &&& num(hdr, 72, 8) * sector_size <= u64::MAX
        },
        gpt_fault(hdr, sector_size) is Some ==> gpt_fault(hdr, sector_size)->Some_0 is Unsupported,
{
    reveal_strlit("EFI PART");
    law_fields_are_little_endian(hdr, 72);
    law_fields_are_little_endian(hdr, 80);
    law_fields_are_little_endian(hdr, 84);
    lemma_spells(hdr, 0, "EFI PART"@, gpt_signature());
}

/// The entries of a GPT begin at the sector that bytes 72 to 79 of the header name; bytes 80 to
/// 83 give their number and bytes 84 to 87 the length of each.
pub proof fn law_place_of_the_gpt_entries(g: GptLayout, hdr: Seq<u8>, sector_size: u64)
    requires
        g.describes(hdr, sector_size),
    ensures
        g.offset == num(hdr, 72, 8) * sector_size,
        g.num_entries == num(hdr, 80, 4),
        g.entry_size == num(hdr, 84, 4),
        g.len == num(hdr, 80, 4) * num(hdr, 84, 4),
{
    law_fields_are_little_endian(hdr, 72);
    law_fields_are_little_endian(hdr, 80);
    law_fields_are_little_endian(hdr, 84);
}

/// Whether the letters of `text` stand in `data` from byte `at` on.
pub open spec fn spells(data: Seq<u8>, at: int, text: Seq<char>) -> bool {
    &&& at + text.len() <= data.len()
    &&& forall|i: int| 0 <= i < text.len() ==> data[at + i] as int == #[trigger] text[i] as int
}

proof fn lemma_spells(data: Seq<u8>, at: int, text: Seq<char>, pat: Seq<u8>)
    requires
        0 <= at,
        pat.len() == text.len(),
        forall|i: int| 0 <= i < text.len() ==> pat[i] as int == #[trigger] text[i] as int,
    ensures
        has_at(data, at, pat) <==> spells(data, at, text),
{
    if at + text.len() <= data.len() {
        let there = data.subrange(at, at + pat.len());
        if there == pat {
            assert forall|i: int| 0 <= i < text.len() implies data[at + i] as int == #[trigger] text[i]
                as int by {
                assert(there[i] == pat[i]);
            }
        }
        if spells(data, at, text) {
            assert forall|i: int| 0 <= i < pat.len() implies there[i] == pat[i] by {
                assert(text[i] as int == data[at + i] as int);
            }
            assert(there =~= pat);
        }
    }
}

fn matches_at(data: &[u8], from: usize, pat: &[u8]) -> (b: bool)
    requires
        from <= 0x1_0000,
        pat@.len() <= 0x1_0000,
    ensures
        b == has_at(data@, from as int, pat@),
{
    if data.len() < from + pat.len() {
        return false;
    }
    let mut i: usize = 0;
    while i < pat.len()
        invariant
            i <= pat@.len() <= 0x1_0000,
            from <= 0x1_0000,
            data@.len() >= from + pat@.len(),
            forall|k: int| 0 <= k < i ==> data@[from + k] == pat@[k],
        decreases pat@.len() - i,
    {
        if data[from + i] != pat[i] {
            assert(data@.subrange(from as int, from + pat@.len())[i as int] != pat@[i as int]);
            return false;
        }
        i = i + 1;
    }
    assert(data@.subrange(from as int, from + pat@.len()) =~= pat@);
    true
}

/// Reads the GPT header, which is in the second sector; `hdr` holds what could be read of
/// that sector.
pub fn gpt_layout(hdr: &[u8], sector_size: u64) -> (r: Result<GptLayout>)
    ensures
        match r {
            Ok(g) => {
                &&& gpt_fault(hdr@, sector_size) is None
                &&& g.describes(hdr@, sector_size)
                &&& g.num_entries == le32(hdr@, 80)
                &&& g.entry_size == le32(hdr@, 84)
                &&& g.offset == le64(hdr@, 72) * sector_size
                &&& g.len == g.num_entries * g.entry_size
                &&& g.entry_size >= 128
            },
            Err(e) => gpt_fault(hdr@, sector_size) == Some(e@),
        },
{
    let signature: [u8; 8] = [0x45u8, 0x46, 0x49, 0x20, 0x50, 0x41, 0x52, 0x54];
    assert(signature@ =~= gpt_signature());
    if hdr.len() < 92 || !matches_at(hdr, 0, signature.as_slice()) {
        return Err(unsupported("invalid GPT header"));
    }
    let num_entries: u32 = u32_at(hdr, 80);
    let entry_size: u32 = u32_at(hdr, 84);
    if entry_size < 128 || num_entries == 0 {
        return Err(unsupported("unexpected GPT entry size/count"));
    }
    let offset: u64 = match u64_at(hdr, 72).checked_mul(sector_size) {
        Some(n) => n,
        None => {
            return Err(unsupported("GPT entries out of range"));
        },
    };
    assert(num_entries * entry_size <= 0xffff_ffff * 0xffff_ffff) by (nonlinear_arith)
        requires
            num_entries <= 0xffff_ffff,
            entry_size <= 0xffff_ffff,
    ;
    Ok(
        GptLayout {
            offset,
            len: num_entries as u64 * entry_size as u64,
            num_entries,
            entry_size,
        },
    )
}

/// The 16-bit units of a text field, up to the first zero.
pub open spec fn text_units(b: Seq<u8>) -> Seq<u16>
    decreases b.len(),
{
    if b.len() < 2 || le16(b, 0) == 0 {
        Seq::empty()
    } else {
        seq![le16(b, 0)] + text_units(b.skip(2))
    }
}

/// The `k`-th number of two bytes of a field.
pub open spec fn unit(b: Seq<u8>, k: int) -> int {
    num(b, 2 * k, 2)
}

/// A text field is made of numbers of two bytes, up to one that is zero or to its end.
pub proof fn law_units_of_a_text_field(b: Seq<u8>, n: nat)
    requires
        2 * n <= b.len(),
        forall|k: int| 0 <= k < n ==> #[trigger] unit(b, k) != 0,
        2 * n + 2 > b.len() || unit(b, n as int) == 0,
    ensures
        text_units(b) == Seq::new(n, |k: int| unit(b, k) as u16),
    decreases n,
{
    law_fields_are_little_endian(b, 0);
    if n > 0 {
        let rest = b.skip(2);
        assert(unit(b, 0) != 0);
        assert forall|k: int| 0 <= k && 2 * k + 2 <= rest.len() implies #[trigger] unit(rest, k)
            == unit(b, k + 1) by {
            law_fields_are_little_endian(rest, 2 * k);
            law_fields_are_little_endian(b, 2 * (k + 1));
        }
        law_units_of_a_text_field(rest, (n - 1) as nat);
        assert(text_units(b) =~= Seq::new(n, |k: int| unit(b, k) as u16));
    } else {
        assert(text_units(b) =~= Seq::new(n, |k: int| unit(b, k) as u16));
    }
}

/// Decodes a zero-terminated UTF-16 field.
pub fn decode_utf16(b: &[u8]) -> (s: String)
    ensures
        s@ == utf16_text(text_units(b@)),
{
    let mut units: Vec<u16> = Vec::new();
    let mut o: usize = 0;
    let len: usize = b.len();
    assert(b@.skip(0) =~= b@);
    assert(units@ + text_units(b@) =~= text_units(b@));
    while len - o >= 2
        invariant_except_break
            o <= b@.len(),
            text_units(b@) == units@ + text_units(b@.skip(o as int)),
        invariant
            len == b@.len(),
        ensures
            text_units(b@) == units@,
        decreases b@.len() - o,
    {
        let u: u16 = u16_at(b, o);
        assert(le16(b@.skip(o as int), 0) == u);
        if u == 0 {
            assert(units@ + Seq::<u16>::empty() =~= units@);
            break;
        }
        let ghost before = units@;
        units.push(u);
        proof {
            assert(b@.skip(o as int).skip(2) =~= b@.skip(o + 2));
            let rest = text_units(b@.skip(o + 2));
            assert(before + (seq![u] + rest) =~= units@ + rest);
        }
        o = o + 2;
        assert(units@ + Seq::<u16>::empty() =~= units@);
    }
    from_utf16_lossy(&units)
}

/// Whether the GPT entry at `o` is in use: its type GUID is not all zeros.
pub open spec fn gpt_used(entries: Seq<u8>, o: int) -> bool {
    exists|k: int| o <= k < o + 16 && #[trigger] entries[k] != 0
}

pub open spec fn gpt_sectors(first: u64, last: u64) -> int {
    if last >= first {
        last - first + 1
    } else {
        0
    }
}

pub open spec fn gpt_partition(entries: Seq<u8>, i: int, o: int) -> PartitionView {
    PartitionView {
        index: (i + 1) as u32,
        start_lba: le64(entries, o + 32),
        sectors: gpt_sectors(le64(entries, o + 32), le64(entries, o + 40)) as u64,
        kind: PartKindView::Gpt(entries.subrange(o, o + 16)),
        name: utf16_text(text_units(entries.subrange(o + 56, o + 128))),
    }
}

/// The partitions among the first `n` entries that are in use. One that spans all the
/// sectors there can be has no size that can be told.
pub open spec fn gpt_partitions(entries: Seq<u8>, size: int, n: int) -> Outcome<
    Seq<PartitionView>,
>
    decreases n,
{
    let o = (n - 1) * size;
    if n <= 0 {
        Ok(Seq::empty())
    } else {
        match gpt_partitions(entries, size, n - 1) {
            Err(f) => Err(f),
            Ok(before) => if !gpt_used(entries, o) {
                Ok(before)
            } else if gpt_sectors(le64(entries, o + 32), le64(entries, o + 40)) > u64::MAX {
                Err(Fault::Unsupported("GPT partition too large"@))
            } else {
                Ok(before.push(gpt_partition(entries, n - 1, o)))
            },
        }
    }
}

/// What an entry of a GPT tells of partition `i`, counted from zero: bytes 0 to 15 are its type,
/// bytes 32 to 39 its first sector, bytes 40 to 47 its last and bytes 56 to 127 its name.
pub open spec fn told_by_gpt(entry: Seq<u8>, i: int) -> PartitionView {
    let first = num(entry, 32, 8);
    let last = num(entry, 40, 8);
    PartitionView {
        index: (i + 1) as u32,
        start_lba: first as u64,
        sectors: (if last < first {
            0
        } else {
            last + 1 - first
        }) as u64,
        kind: PartKindView::Gpt(entry.take(16)),
        name: utf16_text(text_units(entry.subrange(56, 128))),
    }
}

/// Whether the type of an entry of a GPT is not all zeros.
pub open spec fn has_type(entry: Seq<u8>) -> bool {
    exists|k: int| 0 <= k < 16 && #[trigger] entry[k] != 0
}

/// A GPT lists those of its entries that have a type, in their order, each as its own bytes tell
/// it.
pub proof fn law_gpt_lists_its_entries(entries: Seq<u8>, size: int, n: int)
    requires
        0 <= n,
        128 <= size,
        n * size <= entries.len(),
        forall|i: int|
            0 <= i < n && has_type(#[trigger] entries.subrange(i * size, i * size + size)) ==> !(
            num(entries.subrange(i * size, i * size + size), 32, 8) == 0 && num(
                entries.subrange(i * size, i * size + size),
                40,
                8,
            ) == u64::MAX),
    ensures
        gpt_partitions(entries, size, n) == Ok::<_, Fault>(
            Seq::new(n as nat, |i: int| i).filter(
                |i: int| has_type(entries.subrange(i * size, i * size + size)),
            ).map_values(|i: int| told_by_gpt(entries.subrange(i * size, i * size + size), i)),
        ),
    decreases n,
{
    let pred = |i: int| has_type(entries.subrange(i * size, i * size + size));
    let f = |i: int| told_by_gpt(entries.subrange(i * size, i * size + size), i);
    let all = Seq::new(n as nat, |i: int| i);
    reveal(Seq::filter);
    if n > 0 {
        assert((n - 1) * size + size == n * size && (n - 1) * size >= 0) by (nonlinear_arith)
            requires
                n > 0,
                size >= 0,
        ;
        law_gpt_lists_its_entries(entries, size, n - 1);
        let before = Seq::new((n - 1) as nat, |i: int| i);
        assert(all.drop_last() =~= before);
        assert(all.last() == n - 1);
        lemma_gpt_entry(entries, n - 1, (n - 1) * size, size);
        assert(before.filter(pred).push(n - 1).map_values(f) =~= before.filter(pred).map_values(
            f,
        ).push(f(n - 1)));
    } else {
        assert(all.filter(pred).map_values(f) =~= Seq::empty());
    }
}

proof fn lemma_gpt_entry(entries: Seq<u8>, i: int, o: int, size: int)
    requires
        0 <= o,
        128 <= size,
        o + size <= entries.len(),
    ensures
        ({
            let entry = entries.subrange(o, o + size);
            &&& has_type(entry) <==> gpt_used(entries, o)
            &&& num(entry, 32, 8) == le64(entries, o + 32)
            &&& num(entry, 40, 8) == le64(entries, o + 40)
            &&& told_by_gpt(entry, i) == gpt_partition(entries, i, o)
        }),
{
    let entry = entries.subrange(o, o + size);
    law_fields_are_little_endian(entry, 32);
    law_fields_are_little_endian(entry, 40);
    law_fields_are_little_endian(entry, 36);
    law_fields_are_little_endian(entry, 44);
    law_fields_are_little_endian(entries, o + 32);
    law_fields_are_little_endian(entries, o + 40);
    if has_type(entry) {
        let k = choose|k: int| 0 <= k < 16 && #[trigger] entry[k] != 0;
        assert(entries[o + k] != 0);
    }
    if gpt_used(entries, o) {
        let k = choose|k: int| o <= k < o + 16 && #[trigger] entries[k] != 0;
        assert(entry[k - o] != 0);
    }
    assert(entry.take(16) =~= entries.subrange(o, o + 16));
    assert(entry.subrange(56, 128) =~= entries.subrange(o + 56, o + 128));
}

fn in_use(entries: &[u8], o: usize) -> (b: bool)
    requires
        o + 16 <= entries.len(),
    ensures
        b == gpt_used(entries@, o as int),
{
    let mut k: usize = 0;
    while k < 16
        invariant
            k <= 16,
            o + 16 <= entries.len(),
            forall|j: int| o <= j < o + k ==> entries@[j] == 0,
        decreases 16 - k,
    {
        if entries[o + k] != 0 {
            return true;
        }
        k = k + 1;
    }
    false
}

fn read_guid(entries: &[u8], o: usize) -> (guid: [u8; 16])
    requires
        o + 16 <= entries.len(),
    ensures
        guid@ == entries@.subrange(o as int, o + 16),
{
    let mut guid: [u8; 16] = [0u8; 16];
    let mut k: usize = 0;
    while k < 16
        invariant
            k <= 16,
            o + 16 <= entries.len(),
            forall|j: int| 0 <= j < k ==> guid@[j] == entries@[o + j],
        decreases 16 - k,
    {
        guid[k] = entries[o + k];
        k = k + 1;
    }
    assert(guid@ =~= entries@.subrange(o as int, o + 16));
    guid
}

/// An error of `gpt_partitions` on the first entries is one on all of them.
proof fn lemma_gpt_error_stays(entries: Seq<u8>, size: int, n: int, m: int)
    requires
        n <= m,
    ensures
        gpt_partitions(entries, size, n) matches Err(f) ==> gpt_partitions(entries, size, m)
            == Err::<Seq<PartitionView>, _>(f),
    decreases m - n,
{
    if n < m {
        lemma_gpt_error_stays(entries, size, n, m - 1);
    }
}

/// Reads the entries of a GPT, of which there are `num_entries`.
pub fn parse_gpt(entries: &[u8], num_entries: u32, entry_size: u32) -> (r: Result<PartitionTable>)
    requires
        entry_size >= 128,
        entries@.len() == num_entries * entry_size,
    ensures
        match r {
            Ok(table) => table.is_gpt && gpt_partitions(
                entries@,
                entry_size as int,
                num_entries as int,
            ) == Ok::<_, Fault>(partitions_view(table.partitions@)),
            Err(e) => gpt_partitions(entries@, entry_size as int, num_entries as int) == Err::<
                Seq<PartitionView>,
                _,
            >(e@),
        },
{
    let mut partitions: Vec<Partition> = Vec::new();
    let mut i: u32 = 0;
    let len: usize = entries.len();
    assert(partitions_view(partitions@) =~= Seq::empty());
    while i < num_entries
        invariant
            i <= num_entries,
            entry_size >= 128,
            len == entries@.len(),
            entries@.len() == num_entries * entry_size,
            gpt_partitions(entries@, entry_size as int, i as int) == Ok::<_, Fault>(
                partitions_view(partitions@),
            ),
        decreases num_entries - i,
    {
        assert(i * entry_size + entry_size <= num_entries * entry_size) by (nonlinear_arith)
            requires
                i < num_entries,
                entry_size >= 0,
        ;
        assert(i * entry_size >= 0) by (nonlinear_arith);
        let o: usize = i as usize * entry_size as usize;
        if in_use(entries, o) {
            let first: u64 = u64_at(entries, o + 32);
            let last: u64 = u64_at(entries, o + 40);
            if first == 0 && last == u64::MAX {
                proof {
                    lemma_gpt_error_stays(
                        entries@,
                        entry_size as int,
                        i + 1,
                        num_entries as int,
                    );
                }
                return Err(unsupported("GPT partition too large"));
            }
            let sectors: u64 = if last >= first {
                last - first + 1
            } else {
                0
            };
            let p = Partition {
                index: i + 1,
                start_lba: first,
                sectors,
                kind: PartKind::Gpt(read_guid(entries, o)),
                name: decode_utf16(slice_subrange(entries, o + 56, o + 128)),
            };
            let ghost before = partitions@;
            partitions.push(p);
            assert(p@ =~= gpt_partition(entries@, i as int, i * entry_size));
            assert(partitions_view(partitions@) =~= partitions_view(before).push(p@));
        }
        i = i + 1;
    }
    Ok(PartitionTable { is_gpt: true, partitions })
}

/// The name of the filesystem whose marks are found at the start of a partition.
pub open spec fn detected(data: Seq<u8>) -> Seq<char> {
    if data.len() > 1082 && le16(data, 1080) == 0xEF53 {
        "ext2/3/4"@
    } else if has_at(data, 3, seq![0x4Eu8, 0x54, 0x46, 0x53, 0x20, 0x20, 0x20, 0x20]) {
        "NTFS"@
    } else if has_at(data, 3, seq![0x45u8, 0x58, 0x46, 0x41, 0x54]) {
        "exFAT"@
    } else if has_at(data, 82, seq![0x46u8, 0x41, 0x54, 0x33, 0x32, 0x20, 0x20, 0x20]) {
        "FAT32"@
    } else if has_at(data, 54, seq![0x46u8, 0x41, 0x54, 0x31, 0x36, 0x20, 0x20, 0x20]) || has_at(
        data,
        54,
        seq![0x46u8, 0x41, 0x54, 0x31, 0x32, 0x20, 0x20, 0x20],
    ) {
        "FAT"@
    } else {
        "unknown"@
    }
}

/// A filesystem is known by its mark: the magic number of ext2/3/4 at byte 1080, the name of NTFS
/// or exFAT behind the jump instruction, that of FAT further on.
pub proof fn law_marks_of_filesystems(data: Seq<u8>)
    ensures
        ({
            let ext = data.len() > 1082 && data[1080] == 0x53 && data[1081] == 0xEF;
            let ntfs = spells(data, 3, "NTFS    "@);
            let exfat = spells(data, 3, "EXFAT"@);
            let fat32 = spells(data, 82, "FAT32   "@);
            let fat = spells(data, 54, "FAT16   "@) || spells(data, 54, "FAT12   "@);
            &&& ext ==> detected(data) == "ext2/3/4"@
            &&& !ext && ntfs ==> detected(data) == "NTFS"@
            &&& !ext && exfat ==> detected(data) == "exFAT"@
            &&& !ext && !ntfs && !exfat && fat32 ==> detected(data) == "FAT32"@
            &&& !ext && !ntfs && !exfat && !fat32 && fat ==> detected(data) == "FAT"@
            &&& !ext && !ntfs && !exfat && !fat32 && !fat ==> detected(data) == "unknown"@
        }),
{
    reveal_strlit("NTFS    ");
    reveal_strlit("EXFAT");
    reveal_strlit("FAT32   ");
    reveal_strlit("FAT16   ");
    reveal_strlit("FAT12   ");
    law_fields_are_little_endian(data, 1080);
    let ntfs = seq![0x4Eu8, 0x54, 0x46, 0x53, 0x20, 0x20, 0x20, 0x20];
    let exfat = seq![0x45u8, 0x58, 0x46, 0x41, 0x54];
    lemma_spells(data, 3, "NTFS    "@, ntfs);
    lemma_spells(data, 3, "EXFAT"@, exfat);
    lemma_spells(
        data,
        82,
        "FAT32   "@,
        seq![0x46u8, 0x41, 0x54, 0x33, 0x32, 0x20, 0x20, 0x20],
    );
    lemma_spells(
        data,
        54,
        "FAT16   "@,
        seq![0x46u8, 0x41, 0x54, 0x31, 0x36, 0x20, 0x20, 0x20],
    );
    lemma_spells(
        data,
        54,
        "FAT12   "@,
        seq![0x46u8, 0x41, 0x54, 0x31, 0x32, 0x20, 0x20, 0x20],
    );
    if spells(data, 3, "EXFAT"@) && spells(data, 3, "NTFS    "@) {
        assert("EXFAT"@[0] as int == "NTFS    "@[0] as int);
    }
}

/// Best-effort detection of the filesystem type; `data` holds what could be read of the
/// first 2048 bytes of the partition.
pub fn detect_fs(data: &[u8]) -> (s: String)
    ensures
        s@ == detected(data@),
{
    if data.len() > 1082 && u16_at(data, 1080) == 0xEF53 {
        return "ext2/3/4".to_owned();
    }
    let ntfs: [u8; 8] = [0x4Eu8, 0x54, 0x46, 0x53, 0x20, 0x20, 0x20, 0x20];
    let exfat: [u8; 5] = [0x45u8, 0x58, 0x46, 0x41, 0x54];
    let fat32: [u8; 8] = [0x46u8, 0x41, 0x54, 0x33, 0x32, 0x20, 0x20, 0x20];
    let fat16: [u8; 8] = [0x46u8, 0x41, 0x54, 0x31, 0x36, 0x20, 0x20, 0x20];
    let fat12: [u8; 8] = [0x46u8, 0x41, 0x54, 0x31, 0x32, 0x20, 0x20, 0x20];
    proof {
        assert(ntfs@ =~= seq![0x4Eu8, 0x54, 0x46, 0x53, 0x20, 0x20, 0x20, 0x20]);
        assert(exfat@ =~= seq![0x45u8, 0x58, 0x46, 0x41, 0x54]);
        assert(fat32@ =~= seq![0x46u8, 0x41, 0x54, 0x33, 0x32, 0x20, 0x20, 0x20]);
        assert(fat16@ =~= seq![0x46u8, 0x41, 0x54, 0x31, 0x36, 0x20, 0x20, 0x20]);
        assert(fat12@ =~= seq![0x46u8, 0x41, 0x54, 0x31, 0x32, 0x20, 0x20, 0x20]);
    }
    if matches_at(data, 3, ntfs.as_slice()) {
        return "NTFS".to_owned();
    }
    if matches_at(data, 3, exfat.as_slice()) {
        return "exFAT".to_owned();
    }
    if matches_at(data, 82, fat32.as_slice()) {
        return "FAT32".to_owned();
    }
    if matches_at(data, 54, fat16.as_slice()) || matches_at(data, 54, fat12.as_slice()) {
        return "FAT".to_owned();
    }
    "unknown".to_owned()
}

} // verus!
