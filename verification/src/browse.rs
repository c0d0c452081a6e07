//! What a file browser shows of a volume: the rows of a directory, the directory tree, and
//! the beginning of a file.

use crate::count::is_dot;
use crate::dir::{
    dir_listing, dir_lookup, entries_view, law_listing_settled, law_lookup_settled, prepend,
    DirEntry, DirEntryView, FT_DIR,
};
use crate::error::{fault_text, outcome, ExtError, Fault, Outcome, Result};
use crate::inode::{InodeView, EXT4_ROOT_INO};
use crate::ondisk::law_kinds_of_files;
use crate::order::{is_sorted, law_sorting_sorts, sort_by_name, sorted_named};
use crate::path::{
    law_resolved_settled, law_trailing_slashes, resolved, trim_slashes, trimmed_len,
};
use crate::seqs::lemma_filter_from;
use crate::text::{
    chars_of, components, from_utf8_lossy, lossy_text, path_components, string_of, texts,
};
use crate::volume::{inode_at, law_inode_settled, settled, Ext4, VolumeView};
use vstd::prelude::*;
use vstd::slice::slice_subrange;
use vstd::string::*;

verus! {

/// How much of a file is shown as text.
pub const MAX_TEXT: usize = 524288;

/// How much of a file is shown in hexadecimal.
pub const MAX_HEX: usize = 131072;

/// Why a directory cannot be shown.
#[derive(Debug)]
pub enum BrowseError {
    Volume(ExtError),
    NotDirectory,
}

pub enum BrowseFault {
    Volume(Fault),
    NotDirectory,
}

impl View for BrowseError {
    type V = BrowseFault;

    open spec fn view(&self) -> BrowseFault {
        match *self {
            BrowseError::Volume(e) => BrowseFault::Volume(e@),
            BrowseError::NotDirectory => BrowseFault::NotDirectory,
        }
    }
}

pub open spec fn browse_text(f: BrowseFault) -> Seq<char> {
    match f {
        BrowseFault::Volume(f) => fault_text(f),
        BrowseFault::NotDirectory => "path is not a directory"@,
    }
}

impl BrowseError {
    /// The sentence that describes this error to a user.
    pub fn message(&self) -> (s: String)
        ensures
            s@ == browse_text(self@),
    {
        match self {
            BrowseError::Volume(e) => e.message(),
            BrowseError::NotDirectory => "path is not a directory".to_owned(),
        }
    }
}

/// A row of a directory's table.
#[derive(Debug, Clone)]
pub struct RowInfo {
    pub ino: u32,
    pub ft: u8,
    pub size: u64,
    pub name: String,
}

#[verifier::ext_equal]
pub struct RowView {
    pub ino: u32,
    pub ft: u8,
    pub size: u64,
    pub name: Seq<char>,
}

impl View for RowInfo {
    type V = RowView;

    open spec fn view(&self) -> RowView {
        RowView { ino: self.ino, ft: self.ft, size: self.size, name: self.name@ }
    }
}

pub open spec fn rows_view(s: Seq<RowInfo>) -> Seq<RowView> {
    Seq::new(s.len(), |i: int| s[i]@)
}

/// The entries of the directory at `path`, in the order of their names.
pub open spec fn entries_at(v: VolumeView, path: Seq<char>) -> std::result::Result<
    Seq<DirEntryView>,
    BrowseFault,
> {
    match resolved(v, path) {
        Err(f) => Err(BrowseFault::Volume(f)),
        Ok(ino) => match inode_at(v, ino) {
            Err(f) => Err(BrowseFault::Volume(f)),
            Ok(inode) => if !inode.is_dir() {
                Err(BrowseFault::NotDirectory)
            } else {
                match dir_listing(v, inode) {
                    Err(f) => Err(BrowseFault::Volume(f)),
                    Ok(entries) => Ok(sorted_named(entries)),
                }
            },
        },
    }
}

/// The row of an entry. An inode that cannot be read has size zero.
pub open spec fn row_of(v: VolumeView, e: DirEntryView) -> Outcome<RowView> {
    match inode_at(v, e.ino) {
        Err(Fault::Pending(p)) => Err(Fault::Pending(p)),
        Err(_) => Ok(RowView { ino: e.ino, ft: e.file_type, size: 0, name: e.name }),
        Ok(inode) => Ok(RowView { ino: e.ino, ft: e.file_type, size: inode.size, name: e.name }),
    }
}

/// The rows of the entries from the `i`-th on.
pub open spec fn rows_from(v: VolumeView, entries: Seq<DirEntryView>, i: int) -> Outcome<
    Seq<RowView>,
>
    decreases entries.len() - i,
{
    if i >= entries.len() || i < 0 {
        Ok(Seq::empty())
    } else {
        match row_of(v, entries[i]) {
            Err(f) => Err(f),
            Ok(row) => prepend(seq![row], rows_from(v, entries, i + 1)),
        }
    }
}

/// The rows of the directory at `path`.
pub open spec fn rows_at(v: VolumeView, path: Seq<char>) -> std::result::Result<
    Seq<RowView>,
    BrowseFault,
> {
    match entries_at(v, path) {
        Err(f) => Err(f),
        Ok(entries) => match rows_from(v, entries, 0) {
            Err(f) => Err(BrowseFault::Volume(f)),
            Ok(rows) => Ok(rows),
        },
    }
}

/// An answer of the browser that stays the same whatever else is supplied, or a request for
/// a block that is really missing.
pub open spec fn browse_settled<T>(
    v: VolumeView,
    r: std::result::Result<T, BrowseFault>,
    later: std::result::Result<T, BrowseFault>,
) -> bool {
    match r {
        Err(BrowseFault::Volume(Fault::Pending(p))) => !v.blocks.contains_key(p),
        _ => later == r,
    }
}

/// The rows of a directory are settled.
pub proof fn law_rows_settled(v: VolumeView, w: VolumeView, path: Seq<char>)
    requires
        v.grows_to(w),
    ensures
        browse_settled(v, rows_at(v, path), rows_at(w, path)),
{
    law_resolved_settled(v, w, path);
    if let Ok(ino) = resolved(v, path) {
        law_inode_settled(v, w, ino);
        if let Ok(inode) = inode_at(v, ino) {
            law_listing_settled(v, w, inode);
            if let Ok(entries) = dir_listing(v, inode) {
                lemma_rows_from_settled(v, w, sorted_named(entries), 0);
            }
        }
    }
}

proof fn lemma_rows_from_settled(v: VolumeView, w: VolumeView, entries: Seq<DirEntryView>, i: int)
    requires
        v.grows_to(w),
    ensures
        settled(v, rows_from(v, entries, i), rows_from(w, entries, i)),
    decreases entries.len() - i,
{
    if 0 <= i < entries.len() {
        law_inode_settled(v, w, entries[i].ino);
        lemma_rows_from_settled(v, w, entries, i + 1);
    }
}

/// What a directory shows: what it lists, in the order of the names. A path that leads to no
/// directory shows nothing.
pub proof fn law_what_is_shown(v: VolumeView, path: Seq<char>, ino: u32, n: InodeView)
    requires
        resolved(v, path) == Ok::<_, Fault>(ino),
        inode_at(v, ino) == Ok::<_, Fault>(n),
    ensures
        n.mode / 0x1000 != 4 ==> entries_at(v, path) == Err::<Seq<DirEntryView>, _>(
            BrowseFault::NotDirectory,
        ),
        n.mode / 0x1000 == 4 && dir_listing(v, n) is Err ==> entries_at(v, path) == Err::<
            Seq<DirEntryView>,
            _,
        >(BrowseFault::Volume(dir_listing(v, n)->Err_0)),
        n.mode / 0x1000 == 4 && dir_listing(v, n) is Ok ==> {
            let all = dir_listing(v, n)->Ok_0;
            &&& entries_at(v, path) is Ok
            &&& is_sorted(entries_at(v, path)->Ok_0)
            &&& entries_at(v, path)->Ok_0.to_multiset() == all.to_multiset()
        },
{
    law_kinds_of_files(n);
    if dir_listing(v, n) is Ok {
        law_sorting_sorts(dir_listing(v, n)->Ok_0);
    }
}

/// A row has the number, the type and the name of its entry, and the size of its inode, or zero
/// where the inode cannot be read.
pub proof fn law_row_of_an_entry(v: VolumeView, e: DirEntryView)
    ensures
        match inode_at(v, e.ino) {
            Ok(n) => row_of(v, e) is Ok && row_of(v, e)->Ok_0.size == n.size,
            Err(Fault::Pending(p)) => row_of(v, e) == Err::<RowView, _>(Fault::Pending(p)),
            Err(_) => row_of(v, e) is Ok && row_of(v, e)->Ok_0.size == 0,
        },
        row_of(v, e) is Ok ==> {
            let row = row_of(v, e)->Ok_0;
            row.ino == e.ino && row.ft == e.file_type && row.name == e.name
        },
{
}

/// There is a row for every entry, in their order.
pub proof fn law_a_row_for_every_entry(v: VolumeView, entries: Seq<DirEntryView>, rows: Seq<RowView>)
    requires
        rows.len() == entries.len(),
        forall|k: int|
            0 <= k < rows.len() ==> row_of(v, #[trigger] entries[k]) == Ok::<_, Fault>(rows[k]),
    ensures
        rows_from(v, entries, 0) == Ok::<_, Fault>(rows),
{
    lemma_rows(v, entries, rows, 0);
    assert(rows.skip(0) =~= rows);
}

proof fn lemma_rows(v: VolumeView, entries: Seq<DirEntryView>, rows: Seq<RowView>, i: int)
    requires
        0 <= i <= entries.len(),
        rows.len() == entries.len(),
        forall|k: int|
            0 <= k < rows.len() ==> row_of(v, #[trigger] entries[k]) == Ok::<_, Fault>(rows[k]),
    ensures
        rows_from(v, entries, i) == Ok::<_, Fault>(rows.skip(i)),
    decreases entries.len() - i,
{
    if i < entries.len() {
        lemma_rows(v, entries, rows, i + 1);
        assert(row_of(v, entries[i]) == Ok::<_, Fault>(rows[i]));
        assert(seq![rows[i]] + rows.skip(i + 1) =~= rows.skip(i));
    } else {
        assert(rows.skip(i) =~= Seq::empty());
    }
}

/// The rows of a directory are those of the entries that it shows.
pub proof fn law_rows_of_a_directory(v: VolumeView, path: Seq<char>, rows: Seq<RowView>)
    requires
        entries_at(v, path) is Ok,
        rows_from(v, entries_at(v, path)->Ok_0, 0) == Ok::<_, Fault>(rows),
    ensures
        rows_at(v, path) == Ok::<_, BrowseFault>(rows),
{
}

/// A directory whose rows are being put together; what has been found out is kept while a
/// missing block is fetched.
pub struct RowLoader {
    pub entries: Vec<DirEntry>,
    pub rows: Vec<RowInfo>,
}

impl RowLoader {
    pub open spec fn wf(self) -> bool {
        self.rows@.len() <= self.entries@.len()
    }

    /// What the rows will come to on a volume that holds `v`.
    pub open spec fn outcome(self, v: VolumeView) -> Outcome<Seq<RowView>> {
        prepend(
            rows_view(self.rows@),
            rows_from(v, entries_view(self.entries@), self.rows@.len() as int),
        )
    }

    /// Lists the directory at `path`.
    pub fn open(fs: &Ext4, path: &str) -> (r: std::result::Result<RowLoader, BrowseError>)
        requires
            fs.wf(),
        ensures
            match r {
                Ok(loader) => {
                    &&& loader.wf()
                    &&& loader.rows@.len() == 0
                    &&& entries_at(fs@, path@) == Ok::<_, BrowseFault>(
                        entries_view(loader.entries@),
                    )
                },
                Err(e) => entries_at(fs@, path@) == Err::<Seq<DirEntryView>, _>(e@),
            },
    {
        let ino: u32 = match fs.resolve(path) {
            Ok(ino) => ino,
            Err(e) => {
                return Err(BrowseError::Volume(e));
            },
        };
        let inode = match fs.read_inode(ino) {
            Ok(inode) => inode,
            Err(e) => {
                return Err(BrowseError::Volume(e));
            },
        };
        if !inode.is_dir() {
            return Err(BrowseError::NotDirectory);
        }
        match fs.list_dir(&inode) {
            Ok(entries) => Ok(
                RowLoader { entries: sort_by_name(entries), rows: Vec::new() },
            ),
            Err(e) => Err(BrowseError::Volume(e)),
        }
    }

    /// Goes on with the rows until all are there, or a block is missing.
    #[verifier::rlimit(40)]
    pub fn fill(&mut self, fs: &Ext4) -> (r: Result<()>)
        requires
            fs.wf(),
            old(self).wf(),
        ensures
            final(self).wf(),
            final(self).entries == old(self).entries,
            match r {
                Ok(_) => old(self).outcome(fs@) == Ok::<_, Fault>(rows_view(final(self).rows@)),
                Err(e) => old(self).outcome(fs@) == Err::<Seq<RowView>, _>(e@),
            },
            forall|w: VolumeView| #[trigger]
                fs@.grows_to(w) ==> final(self).outcome(w) == old(self).outcome(w),
    {
        let ghost v = fs@;
        let ghost listed = entries_view(self.entries@);
        while self.rows.len() < self.entries.len()
            invariant
                fs.wf(),
                v == fs@,
                self.wf(),
                self.entries == old(self).entries,
                listed == entries_view(self.entries@),
                self.outcome(v) == old(self).outcome(v),
                forall|w: VolumeView| #[trigger]
                    v.grows_to(w) ==> self.outcome(w) == old(self).outcome(w),
            decreases self.entries@.len() - self.rows@.len(),
        {
            let i: usize = self.rows.len();
            let e = &self.entries[i];
            assert(listed[i as int] == e@);
            let size: u64 = match fs.read_inode(e.ino) {
                Ok(inode) => inode.size,
                Err(ExtError::Pending(p)) => {
                    return Err(ExtError::Pending(p));
                },
                Err(_) => 0,
            };
            let row = RowInfo { ino: e.ino, ft: e.file_type, size, name: e.name.clone() };
            let ghost before = *self;
            self.rows.push(row);
            proof {
                assert(rows_view(self.rows@) =~= rows_view(before.rows@).push(row@));
                assert(v.grows_to(v));
                assert forall|w: VolumeView| #[trigger] v.grows_to(w) implies self.outcome(w)
                    == before.outcome(w) by {
                    law_inode_settled(v, w, listed[i as int].ino);
                    if let Ok(rest) = rows_from(w, listed, i + 1) {
                        assert(rows_view(before.rows@) + (seq![row@] + rest) =~= rows_view(
                            self.rows@,
                        ) + rest);
                    }
                }
            }
        }
        assert(rows_view(self.rows@) + Seq::<RowView>::empty() =~= rows_view(self.rows@));
        Ok(())
    }
}

/// The rows of the directory at `path`, in the order of their names.
pub fn load_entries(fs: &Ext4, path: &str) -> (r: std::result::Result<Vec<RowInfo>, BrowseError>)
    requires
        fs.wf(),
    ensures
        match r {
            Ok(rows) => rows_at(fs@, path@) == Ok::<_, BrowseFault>(rows_view(rows@)),
            Err(e) => rows_at(fs@, path@) == Err::<Seq<RowView>, _>(e@),
        },
{
    let mut loader = RowLoader::open(fs, path)?;
    proof {
        let listed = entries_view(loader.entries@);
        if let Ok(rest) = rows_from(fs@, listed, 0) {
            assert(rows_view(loader.rows@) + rest =~= rest);
        }
    }
    match loader.fill(fs) {
        Ok(_) => Ok(loader.rows),
        Err(e) => Err(BrowseError::Volume(e)),
    }
}

/// A directory in the tree.
#[derive(Debug, Clone)]
pub struct TreeNode {
    pub ino: u32,
    pub name: String,
    pub is_dir: bool,
}

#[verifier::ext_equal]
pub struct TreeNodeView {
    pub ino: u32,
    pub name: Seq<char>,
    pub is_dir: bool,
}

impl View for TreeNode {
    type V = TreeNodeView;

    open spec fn view(&self) -> TreeNodeView {
        TreeNodeView { ino: self.ino, name: self.name@, is_dir: self.is_dir }
    }
}

pub open spec fn nodes_view(s: Seq<TreeNode>) -> Seq<TreeNodeView> {
    Seq::new(s.len(), |i: int| s[i]@)
}

pub open spec fn node_of(e: DirEntryView) -> TreeNodeView {
    TreeNodeView { ino: e.ino, name: e.name, is_dir: true }
}

/// Whether an entry is a directory: by its file type, or else by its inode. An inode that
/// cannot be read is none.
pub open spec fn leads_to_dir(v: VolumeView, ino: u32, file_type: u8) -> Outcome<bool> {
    if file_type == FT_DIR {
        Ok(true)
    } else {
        match inode_at(v, ino) {
            Err(Fault::Pending(p)) => Err(Fault::Pending(p)),
            Err(_) => Ok(false),
            Ok(inode) => Ok(inode.is_dir()),
        }
    }
}

/// The directories among the entries from the `i`-th on, "." and ".." left out.
pub open spec fn subdirs_from(v: VolumeView, entries: Seq<DirEntryView>, i: int) -> Outcome<
    Seq<DirEntryView>,
>
    decreases entries.len() - i,
{
    if i >= entries.len() || i < 0 {
        Ok(Seq::empty())
    } else if is_dot(entries[i].name) {
        subdirs_from(v, entries, i + 1)
    } else {
        match leads_to_dir(v, entries[i].ino, entries[i].file_type) {
            Err(f) => Err(f),
            Ok(true) => prepend(seq![entries[i]], subdirs_from(v, entries, i + 1)),
            Ok(false) => subdirs_from(v, entries, i + 1),
        }
    }
}

/// The entries of directory `ino`; none if it cannot be read or listed.
pub open spec fn listed_or_none(v: VolumeView, ino: u32) -> Outcome<Seq<DirEntryView>> {
    match inode_at(v, ino) {
        Err(Fault::Pending(p)) => Err(Fault::Pending(p)),
        Err(_) => Ok(Seq::empty()),
        Ok(inode) => match dir_listing(v, inode) {
            Err(Fault::Pending(p)) => Err(Fault::Pending(p)),
            Err(_) => Ok(Seq::empty()),
            Ok(entries) => Ok(entries),
        },
    }
}

/// The directories below directory `ino`, in the order of their names.
pub open spec fn tree_children(v: VolumeView, ino: u32) -> Outcome<Seq<TreeNodeView>> {
    match listed_or_none(v, ino) {
        Err(f) => Err(f),
        Ok(entries) => match subdirs_from(v, entries, 0) {
            Err(f) => Err(f),
            Ok(dirs) => Ok(sorted_named(dirs).map_values(|e: DirEntryView| node_of(e))),
        },
    }
}

/// An entry is a directory if its type says so, 2, or its inode does.
pub proof fn law_which_entries_are_directories(v: VolumeView, ino: u32, ft: u8)
    ensures
        ft == 2 ==> leads_to_dir(v, ino, ft) == Ok::<_, Fault>(true),
        ft != 2 && inode_at(v, ino) is Ok ==> leads_to_dir(v, ino, ft) == Ok::<_, Fault>(
            inode_at(v, ino)->Ok_0.mode / 0x1000 == 4,
        ),
        ft != 2 && inode_at(v, ino) is Err && !(inode_at(v, ino)->Err_0 is Pending)
            ==> leads_to_dir(v, ino, ft) == Ok::<_, Fault>(false),
        ft != 2 && inode_at(v, ino) is Err && inode_at(v, ino)->Err_0 is Pending ==> leads_to_dir(
            v,
            ino,
            ft,
        ) == Err::<bool, _>(inode_at(v, ino)->Err_0),
{
    if let Ok(n) = inode_at(v, ino) {
        law_kinds_of_files(n);
    }
}

/// The directories below a directory are all its entries that are directories, but for itself and
/// its parent.
pub proof fn law_directories_below(v: VolumeView, entries: Seq<DirEntryView>)
    requires
        forall|k: int|
            0 <= k < entries.len() ==> leads_to_dir(
                v,
                (#[trigger] entries[k]).ino,
                entries[k].file_type,
            ) is Ok,
    ensures
        subdirs_from(v, entries, 0) == Ok::<_, Fault>(
            entries.filter(
                |e: DirEntryView|
                    !(e.name == seq!['.'] || e.name == seq!['.', '.']) && leads_to_dir(
                        v,
                        e.ino,
                        e.file_type,
                    ) == Ok::<_, Fault>(true),
            ),
        ),
{
    lemma_subdirs(v, entries, 0);
    assert(entries.skip(0) =~= entries);
}

proof fn lemma_subdirs(v: VolumeView, entries: Seq<DirEntryView>, i: int)
    requires
        0 <= i <= entries.len(),
        forall|k: int|
            0 <= k < entries.len() ==> leads_to_dir(
                v,
                (#[trigger] entries[k]).ino,
                entries[k].file_type,
            ) is Ok,
    ensures
        subdirs_from(v, entries, i) == Ok::<_, Fault>(
            entries.skip(i).filter(
                |e: DirEntryView|
                    !(e.name == seq!['.'] || e.name == seq!['.', '.']) && leads_to_dir(
                        v,
                        e.ino,
                        e.file_type,
                    ) == Ok::<_, Fault>(true),
            ),
        ),
    decreases entries.len() - i,
{
    let pred = |e: DirEntryView|
        !(e.name == seq!['.'] || e.name == seq!['.', '.']) && leads_to_dir(v, e.ino, e.file_type)
            == Ok::<_, Fault>(true);
    lemma_filter_from(entries, i, pred);
    reveal_strlit(".");
    reveal_strlit("..");
    assert("."@ =~= seq!['.']);
    assert(".."@ =~= seq!['.', '.']);
    if i < entries.len() {
        lemma_subdirs(v, entries, i + 1);
        assert(leads_to_dir(v, entries[i].ino, entries[i].file_type) is Ok);
    }
}

/// The tree shows the directories below a directory in the order of their names, and none below
/// what cannot be read or listed.
pub proof fn law_nodes_of_the_tree(v: VolumeView, ino: u32, dirs: Seq<DirEntryView>)
    requires
        inode_at(v, ino) is Ok,
        dir_listing(v, inode_at(v, ino)->Ok_0) is Ok,
        subdirs_from(v, dir_listing(v, inode_at(v, ino)->Ok_0)->Ok_0, 0) == Ok::<_, Fault>(dirs),
    ensures
        ({
            let nodes = tree_children(v, ino)->Ok_0;
            let sorted = sorted_named(dirs);
            &&& tree_children(v, ino) is Ok
            &&& nodes.len() == sorted.len()
            &&& forall|k: int|
                0 <= k < nodes.len() ==> (#[trigger] nodes[k]).ino == sorted[k].ino && nodes[k].name
                    == sorted[k].name && nodes[k].is_dir
        }),
{
}

/// What cannot be read or listed has nothing below it.
pub proof fn law_tree_ends(v: VolumeView, ino: u32)
    requires
        inode_at(v, ino) is Err ==> !(inode_at(v, ino)->Err_0 is Pending),
        inode_at(v, ino) is Ok ==> dir_listing(v, inode_at(v, ino)->Ok_0) is Err && !(dir_listing(
            v,
            inode_at(v, ino)->Ok_0,
        )->Err_0 is Pending),
    ensures
        tree_children(v, ino) == Ok::<_, Fault>(Seq::<TreeNodeView>::empty()),
{
    assert(Seq::<DirEntryView>::empty().map_values(|e: DirEntryView| node_of(e))
        =~= Seq::<TreeNodeView>::empty());
}

proof fn lemma_leads_settled(v: VolumeView, w: VolumeView, ino: u32, file_type: u8)
    requires
        v.grows_to(w),
    ensures
        settled(v, leads_to_dir(v, ino, file_type), leads_to_dir(w, ino, file_type)),
{
    law_inode_settled(v, w, ino);
}

proof fn lemma_subdirs_settled(v: VolumeView, w: VolumeView, entries: Seq<DirEntryView>, i: int)
    requires
        v.grows_to(w),
    ensures
        settled(v, subdirs_from(v, entries, i), subdirs_from(w, entries, i)),
    decreases entries.len() - i,
{
    if 0 <= i < entries.len() {
        lemma_leads_settled(v, w, entries[i].ino, entries[i].file_type);
        lemma_subdirs_settled(v, w, entries, i + 1);
    }
}

/// The directories below a directory are settled.
pub proof fn law_children_settled(v: VolumeView, w: VolumeView, ino: u32)
    requires
        v.grows_to(w),
    ensures
        settled(v, tree_children(v, ino), tree_children(w, ino)),
{
    law_inode_settled(v, w, ino);
    if let Ok(inode) = inode_at(v, ino) {
        law_listing_settled(v, w, inode);
    }
    if let Ok(entries) = listed_or_none(v, ino) {
        lemma_subdirs_settled(v, w, entries, 0);
    }
}

/// A directory whose subdirectories are being found; what has been found out is kept while
/// a missing block is fetched.
pub struct TreeLoader {
    pub entries: Vec<DirEntry>,
    /// How many of the entries have been looked at.
    pub seen: usize,
    pub dirs: Vec<DirEntry>,
}

impl TreeLoader {
    pub open spec fn wf(self) -> bool {
        self.seen <= self.entries@.len()
    }

    /// The directories that will be found on a volume that holds `v`.
    pub open spec fn outcome(self, v: VolumeView) -> Outcome<Seq<DirEntryView>> {
        prepend(
            entries_view(self.dirs@),
            subdirs_from(v, entries_view(self.entries@), self.seen as int),
        )
    }

    /// Lists directory `ino`.
    pub fn open(fs: &Ext4, ino: u32) -> (r: Result<TreeLoader>)
        requires
            fs.wf(),
        ensures
            match r {
                Ok(loader) => {
                    &&& loader.wf()
                    &&& loader.seen == 0
                    &&& loader.dirs@.len() == 0
                    &&& listed_or_none(fs@, ino) == Ok::<_, Fault>(entries_view(loader.entries@))
                },
                Err(e) => listed_or_none(fs@, ino) == Err::<Seq<DirEntryView>, _>(e@),
            },
    {
        let none: Vec<DirEntry> = Vec::new();
        assert(entries_view(none@) =~= Seq::empty());
        let entries = match fs.read_inode(ino) {
            Err(ExtError::Pending(p)) => {
                return Err(ExtError::Pending(p));
            },
            Err(_) => none,
            Ok(inode) => match fs.list_dir(&inode) {
                Err(ExtError::Pending(p)) => {
                    return Err(ExtError::Pending(p));
                },
                Err(_) => none,
                Ok(entries) => entries,
            },
        };
        Ok(TreeLoader { entries, seen: 0, dirs: Vec::new() })
    }

    /// Looks at the entries until all are seen, or a block is missing.
    #[verifier::rlimit(40)]
    pub fn fill(&mut self, fs: &Ext4) -> (r: Result<()>)
        requires
            fs.wf(),
            old(self).wf(),
        ensures
            final(self).wf(),
            final(self).entries == old(self).entries,
            match r {
                Ok(_) => old(self).outcome(fs@) == Ok::<_, Fault>(entries_view(final(self).dirs@)),
                Err(e) => old(self).outcome(fs@) == Err::<Seq<DirEntryView>, _>(e@),
            },
            forall|w: VolumeView| #[trigger]
                fs@.grows_to(w) ==> final(self).outcome(w) == old(self).outcome(w),
    {
        let ghost v = fs@;
        let ghost listed = entries_view(self.entries@);
        let dot = ".".to_owned();
        let dotdot = "..".to_owned();
        while self.seen < self.entries.len()
            invariant
                fs.wf(),
                v == fs@,
                self.wf(),
                dot@ == "."@,
                dotdot@ == ".."@,
                self.entries == old(self).entries,
                listed == entries_view(self.entries@),
                self.outcome(v) == old(self).outcome(v),
                forall|w: VolumeView| #[trigger]
                    v.grows_to(w) ==> self.outcome(w) == old(self).outcome(w),
            decreases self.entries@.len() - self.seen,
        {
            let i: usize = self.seen;
            let e = &self.entries[i];
            assert(listed[i as int] == e@);
            let ghost before = *self;
            if e.name == dot || e.name == dotdot {
                self.seen = i + 1;
                continue;
            }
            let is_dir = is_dir_entry(fs, e.ino, e.file_type)?;
            let ghost found = leads_to_dir(v, e.ino, e.file_type);
            proof {
                assert forall|w: VolumeView| #[trigger] v.grows_to(w) implies leads_to_dir(
                    w,
                    e.ino,
                    e.file_type,
                ) == found by {
                    law_inode_settled(v, w, e.ino);
                }
            }
            if is_dir {
                let dir = DirEntry {
                    ino: e.ino,
                    rec_len: e.rec_len,
                    name: e.name.clone(),
                    file_type: e.file_type,
                };
                self.dirs.push(dir);
                proof {
                    assert(dir@ == listed[i as int]);
                    assert(entries_view(self.dirs@) =~= entries_view(before.dirs@).push(dir@));
                }
            }
            self.seen = i + 1;
            proof {
                assert(v.grows_to(v));
                assert forall|w: VolumeView| #[trigger] v.grows_to(w) implies self.outcome(w)
                    == before.outcome(w) by {
                    if let Ok(rest) = subdirs_from(w, listed, i + 1) {
                        if is_dir {
                            assert(entries_view(before.dirs@) + (seq![listed[i as int]] + rest)
                                =~= entries_view(self.dirs@) + rest);
                        }
                    }
                }
            }
        }
        assert(entries_view(self.dirs@) + Seq::<DirEntryView>::empty() =~= entries_view(
            self.dirs@,
        ));
        Ok(())
    }

    /// The tree nodes of the directories found, in the order of their names.
    pub fn into_nodes(self) -> (nodes: Vec<TreeNode>)
        ensures
            nodes_view(nodes@) == sorted_named(entries_view(self.dirs@)).map_values(
                |e: DirEntryView| node_of(e),
            ),
    {
        let sorted = sort_by_name(self.dirs);
        let ghost all = entries_view(sorted@);
        let mut nodes: Vec<TreeNode> = Vec::new();
        let mut i: usize = 0;
        while i < sorted.len()
            invariant
                i <= sorted@.len(),
                nodes@.len() == i,
                all == entries_view(sorted@),
                forall|k: int| 0 <= k < i ==> (#[trigger] nodes@[k])@ == node_of(all[k]),
            decreases sorted@.len() - i,
        {
            let e = &sorted[i];
            assert(all[i as int] == e@);
            nodes.push(TreeNode { ino: e.ino, name: e.name.clone(), is_dir: true });
            i = i + 1;
        }
        assert(nodes_view(nodes@) =~= all.map_values(|e: DirEntryView| node_of(e)));
        nodes
    }
}

/// The directories below directory `ino`, in the order of their names; none if it cannot be
/// read.
pub fn load_tree_children(fs: &Ext4, ino: u32) -> (r: Result<Vec<TreeNode>>)
    requires
        fs.wf(),
    ensures
        match r {
            Ok(nodes) => tree_children(fs@, ino) == Ok::<_, Fault>(nodes_view(nodes@)),
            Err(e) => tree_children(fs@, ino) == Err::<Seq<TreeNodeView>, _>(e@),
        },
{
    let mut loader = TreeLoader::open(fs, ino)?;
    proof {
        let listed = entries_view(loader.entries@);
        if let Ok(rest) = subdirs_from(fs@, listed, 0) {
            assert(entries_view(loader.dirs@) + rest =~= rest);
        }
    }
    loader.fill(fs)?;
    Ok(loader.into_nodes())
}

/// The directory that `name` leads to from directory `cur`, if there is one that can be
/// read.
pub open spec fn next_dir(v: VolumeView, cur: u32, name: Seq<char>) -> Outcome<Option<u32>> {
    match inode_at(v, cur) {
        Err(Fault::Pending(p)) => Err(Fault::Pending(p)),
        Err(_) => Ok(None),
        Ok(d) => match dir_lookup(v, d, name) {
            Err(Fault::Pending(p)) => Err(Fault::Pending(p)),
            Err(_) => Ok(None),
            Ok(None) => Ok(None),
            Ok(Some((ino, ft))) => match leads_to_dir(v, ino, ft) {
                Err(f) => Err(f),
                Ok(true) => Ok(Some(ino)),
                Ok(false) => Ok(None),
            },
        },
    }
}

/// The inodes of the directories that the components from the `i`-th on lead through,
/// starting in `cur`, as far as they are directories. ".." is passed over.
pub open spec fn expanded_from(v: VolumeView, comps: Seq<Seq<char>>, i: int, cur: u32) -> Outcome<
    Seq<u32>,
>
    decreases comps.len() - i,
{
    if i >= comps.len() || i < 0 {
        Ok(Seq::empty())
    } else if comps[i] == ".."@ {
        expanded_from(v, comps, i + 1, cur)
    } else {
        match next_dir(v, cur, comps[i]) {
            Err(f) => Err(f),
            Ok(None) => Ok(Seq::empty()),
            Ok(Some(ino)) => prepend(seq![ino], expanded_from(v, comps, i + 1, ino)),
        }
    }
}

/// A name leads on from a directory to the directory that it lists under that name, if there is
/// one.
pub proof fn law_next_directory(v: VolumeView, cur: u32, name: Seq<char>, ino: u32, ft: u8, b: bool)
    requires
        inode_at(v, cur) is Ok,
    ensures
        dir_lookup(v, inode_at(v, cur)->Ok_0, name) == Ok::<_, Fault>(Some((ino, ft)))
            && leads_to_dir(v, ino, ft) == Ok::<_, Fault>(b) ==> next_dir(v, cur, name) == Ok::<
            _,
            Fault,
        >(
            if b {
                Some(ino)
            } else {
                None
            },
        ),
        dir_lookup(v, inode_at(v, cur)->Ok_0, name) == Ok::<_, Fault>(None::<(u32, u8)>)
            ==> next_dir(v, cur, name) == Ok::<_, Fault>(None::<u32>),
        dir_lookup(v, inode_at(v, cur)->Ok_0, name) is Err && !(dir_lookup(
            v,
            inode_at(v, cur)->Ok_0,
            name,
        )->Err_0 is Pending) ==> next_dir(v, cur, name) == Ok::<_, Fault>(None::<u32>),
{
}

/// The directories to unfold for a path are those that its components lead to, ".." left out, up
/// to the first that leads to none.
pub proof fn law_directories_to_unfold(
    v: VolumeView,
    comps: Seq<Seq<char>>,
    cur: u32,
    dirs: Seq<u32>,
)
    requires
        ({
            let names = comps.filter(|c: Seq<char>| c != seq!['.', '.']);
            let way = seq![cur] + dirs;
            &&& dirs.len() <= names.len()
            &&& forall|k: int|
                0 <= k < dirs.len() ==> next_dir(v, #[trigger] way[k], names[k]) == Ok::<_, Fault>(
                    Some(dirs[k]),
                )
            &&& dirs.len() < names.len() ==> next_dir(
                v,
                way[dirs.len() as int],
                names[dirs.len() as int],
            ) == Ok::<_, Fault>(None::<u32>)
        }),
    ensures
        expanded_from(v, comps, 0, cur) == Ok::<_, Fault>(dirs),
{
    let names = comps.filter(|c: Seq<char>| c != seq!['.', '.']);
    let way = seq![cur] + dirs;
    assert forall|k: int| 0 <= k < dirs.len() implies onward(v, #[trigger] way[k], names[k]) == Ok::<
        _,
        Fault,
    >(Some(dirs[k])) by {
        reveal(onward);
    }
    if dirs.len() < names.len() {
        assert(onward(v, way[dirs.len() as int], names[dirs.len() as int]) == Ok::<_, Fault>(
            None::<u32>,
        )) by {
            reveal(onward);
        }
    }
    assert(comps.skip(0) =~= comps);
    lemma_unfold(v, comps, 0, cur, dirs);
}

#[verifier::opaque]
spec fn onward(v: VolumeView, cur: u32, name: Seq<char>) -> Outcome<Option<u32>> {
    next_dir(v, cur, name)
}

proof fn lemma_unfold_step(v: VolumeView, comps: Seq<Seq<char>>, i: int, cur: u32)
    requires
        0 <= i < comps.len(),
    ensures
        expanded_from(v, comps, i, cur) == if comps[i] == seq!['.', '.'] {
            expanded_from(v, comps, i + 1, cur)
        } else {
            match onward(v, cur, comps[i]) {
                Err(f) => Err(f),
                Ok(None) => Ok(Seq::empty()),
                Ok(Some(ino)) => prepend(seq![ino], expanded_from(v, comps, i + 1, ino)),
            }
        },
{
    reveal(onward);
    reveal_strlit("..");
    assert(".."@ =~= seq!['.', '.']);
}

proof fn lemma_unfold(v: VolumeView, comps: Seq<Seq<char>>, i: int, cur: u32, dirs: Seq<u32>)
    requires
        0 <= i <= comps.len(),
        ({
            let names = comps.skip(i).filter(|c: Seq<char>| c != seq!['.', '.']);
            let way = seq![cur] + dirs;
            &&& dirs.len() <= names.len()
            &&& forall|k: int|
                0 <= k < dirs.len() ==> onward(v, #[trigger] way[k], names[k]) == Ok::<_, Fault>(
                    Some(dirs[k]),
                )
            &&& dirs.len() < names.len() ==> onward(
                v,
                way[dirs.len() as int],
                names[dirs.len() as int],
            ) == Ok::<_, Fault>(None::<u32>)
        }),
    ensures
        expanded_from(v, comps, i, cur) == Ok::<_, Fault>(dirs),
    decreases comps.len() - i,
{
    let pred = |c: Seq<char>| c != seq!['.', '.'];
    lemma_filter_from(comps, i, pred);
    let names = comps.skip(i).filter(pred);
    let way = seq![cur] + dirs;
    assert(way[0] == cur);
    if i < comps.len() {
        lemma_unfold_step(v, comps, i, cur);
        if pred(comps[i]) {
            assert(names[0] == comps[i]);
            if dirs.len() > 0 {
                let rest = dirs.skip(1);
                let tail = comps.skip(i + 1).filter(pred);
                let later = seq![dirs[0]] + rest;
                assert(onward(v, way[0], names[0]) == Ok::<_, Fault>(Some(dirs[0])));
                assert forall|k: int| 0 <= k < rest.len() implies onward(
                    v,
                    #[trigger] later[k],
                    tail[k],
                ) == Ok::<_, Fault>(Some(rest[k])) by {
                    assert(way[k + 1] == later[k]);
                    assert(names[k + 1] == tail[k]);
                }
                assert(later[rest.len() as int] == way[dirs.len() as int]);
                if dirs.len() < names.len() {
                    assert(names[dirs.len() as int] == tail[rest.len() as int]);
                }
                lemma_unfold(v, comps, i + 1, dirs[0], rest);
                assert(seq![dirs[0]] + rest =~= dirs);
            } else {
                assert(dirs =~= Seq::empty());
            }
        } else {
            lemma_unfold(v, comps, i + 1, cur, dirs);
        }
    } else {
        assert(expanded_from(v, comps, i, cur) == Ok::<_, Fault>(Seq::<u32>::empty()));
        assert(dirs =~= Seq::empty());
    }
}

/// The directories to unfold for a path are settled.
pub proof fn law_expanded_settled(
    v: VolumeView,
    w: VolumeView,
    comps: Seq<Seq<char>>,
    i: int,
    cur: u32,
)
    requires
        v.grows_to(w),
    ensures
        settled(v, expanded_from(v, comps, i, cur), expanded_from(w, comps, i, cur)),
    decreases comps.len() - i,
{
    if 0 <= i < comps.len() {
        if comps[i] == ".."@ {
            law_expanded_settled(v, w, comps, i + 1, cur);
        } else {
            lemma_next_dir_settled(v, w, cur, comps[i]);
            if let Ok(Some(ino)) = next_dir(v, cur, comps[i]) {
                law_expanded_settled(v, w, comps, i + 1, ino);
            }
        }
    }
}

proof fn lemma_next_dir_settled(v: VolumeView, w: VolumeView, cur: u32, name: Seq<char>)
    requires
        v.grows_to(w),
    ensures
        settled(v, next_dir(v, cur, name), next_dir(w, cur, name)),
{
    law_inode_settled(v, w, cur);
    if let Ok(d) = inode_at(v, cur) {
        law_lookup_settled(v, w, d, name);
        if let Ok(Some((ino, ft))) = dir_lookup(v, d, name) {
            lemma_leads_settled(v, w, ino, ft);
        }
    }
}

fn is_dir_entry(fs: &Ext4, ino: u32, file_type: u8) -> (r: Result<bool>)
    requires
        fs.wf(),
    ensures
        outcome(r) == leads_to_dir(fs@, ino, file_type),
{
    if file_type == FT_DIR {
        return Ok(true);
    }
    match fs.read_inode(ino) {
        Err(ExtError::Pending(p)) => Err(ExtError::Pending(p)),
        Err(_) => Ok(false),
        Ok(inode) => Ok(inode.is_dir()),
    }
}

fn step_into(fs: &Ext4, cur: u32, name: &str) -> (r: Result<Option<u32>>)
    requires
        fs.wf(),
    ensures
        outcome(r) == next_dir(fs@, cur, name@),
{
    let d = match fs.read_inode(cur) {
        Ok(d) => d,
        Err(ExtError::Pending(p)) => {
            return Err(ExtError::Pending(p));
        },
        Err(_) => {
            return Ok(None);
        },
    };
    match fs.lookup_dir(&d, name) {
        Err(ExtError::Pending(p)) => Err(ExtError::Pending(p)),
        Err(_) => Ok(None),
        Ok(None) => Ok(None),
        Ok(Some((ino, ft))) => {
            let is_dir = is_dir_entry(fs, ino, ft)?;
            if is_dir {
                Ok(Some(ino))
            } else {
                Ok(None)
            }
        },
    }
}

/// The inodes of the directories to unfold in the tree so that `path` can be seen, the root
/// first.
#[verifier::rlimit(60)]
pub fn expand_path(fs: &Ext4, path: &str) -> (r: Result<Vec<u32>>)
    requires
        fs.wf(),
    ensures
        outcome(r) == prepend(
            seq![EXT4_ROOT_INO],
            expanded_from(fs@, components(path@), 0, EXT4_ROOT_INO),
        ),
{
    let comps = path_components(path);
    let dotdot = "..".to_owned();
    let mut cur: u32 = EXT4_ROOT_INO;
    let mut out: Vec<u32> = Vec::new();
    out.push(cur);
    let mut i: usize = 0;
    let ghost v = fs@;
    let ghost names = components(path@);
    let ghost all = prepend(seq![EXT4_ROOT_INO], expanded_from(v, names, 0, EXT4_ROOT_INO));
    assert(out@ =~= seq![EXT4_ROOT_INO]);
    while i < comps.len()
        invariant
            fs.wf(),
            v == fs@,
            i <= comps@.len(),
            dotdot@ == ".."@,
            names == texts(comps@),
            names == components(path@),
            all == prepend(seq![EXT4_ROOT_INO], expanded_from(v, names, 0, EXT4_ROOT_INO)),
            all == prepend(out@, expanded_from(v, names, i as int, cur)),
        decreases comps@.len() - i,
    {
        assert(names[i as int] == comps@[i as int]@);
        if comps[i] == dotdot {
            i = i + 1;
            continue;
        }
        match step_into(fs, cur, comps[i].as_str())? {
            None => {
                assert(out@ + Seq::<u32>::empty() =~= out@);
                return Ok(out);
            },
            Some(ino) => {
                let ghost before = out@;
                out.push(ino);
                proof {
                    if let Ok(rest) = expanded_from(v, names, i + 1, ino) {
                        assert(before + (seq![ino] + rest) =~= out@ + rest);
                    }
                }
                cur = ino;
                i = i + 1;
            },
        }
    }
    assert(out@ + Seq::<u32>::empty() =~= out@);
    Ok(out)
}

/// The path of `name` in the directory at `path`.
pub open spec fn entered(path: Seq<char>, name: Seq<char>) -> Seq<char> {
    trim_slashes(path).push('/') + name
}

/// Entering a directory puts one slash and its name behind the path, however many slashes that
/// ends in.
pub proof fn law_entering(path: Seq<char>, n: nat, name: Seq<char>)
    requires
        path.len() > 0 ==> path.last() != '/',
    ensures
        entered(path + Seq::new(n, |i: int| '/'), name) == path + seq!['/'] + name,
{
    law_trailing_slashes(path, n);
    assert(path.push('/') + name =~= path + seq!['/'] + name);
}

/// The path of a directory that is entered from the table of the directory at `path`.
pub fn enter_path(path: &str, name: &str) -> (s: String)
    ensures
        s@ == entered(path@, name@),
        s@ == trim_slashes(path@).push('/') + name@,
{
    let chars = chars_of(path);
    let n: usize = trimmed_len(&chars);
    let mut s = string_of(&chars, 0, n);
    assert(chars@.subrange(0, n as int) =~= chars@.take(n as int));
    s.push('/');
    s.append(name);
    s
}

pub open spec fn at_most(len: nat, limit: usize) -> int {
    if len <= limit {
        len as int
    } else {
        limit as int
    }
}

/// What is shown of a file as text, and whether there is more.
pub open spec fn text_shown(data: Seq<u8>) -> (Seq<char>, bool) {
    (lossy_text(data.take(at_most(data.len(), MAX_TEXT))), data.len() > MAX_TEXT)
}

/// What is shown of a file in hexadecimal, and whether there is more.
pub open spec fn hex_shown(data: Seq<u8>) -> (Seq<u8>, bool) {
    (data.take(at_most(data.len(), MAX_HEX)), data.len() > MAX_HEX)
}

/// A short file is shown as it is; of a longer one the beginning is shown, and that there is
/// more.
pub proof fn law_previews(data: Seq<u8>)
    ensures
        data.len() <= 0x8_0000 ==> text_shown(data) == (lossy_text(data), false),
        data.len() > 0x8_0000 ==> text_shown(data) == (lossy_text(data.take(0x8_0000)), true),
        data.len() <= 0x2_0000 ==> hex_shown(data) == (data, false),
        data.len() > 0x2_0000 ==> hex_shown(data) == (data.take(0x2_0000), true),
{
    assert(data.take(data.len() as int) =~= data);
}

/// How much of a file is shown: all of it, or 512 KiB as text, and 128 KiB in hexadecimal.
pub proof fn law_how_much_is_shown(len: nat)
    ensures
        len <= 0x8_0000 ==> at_most(len, MAX_TEXT) == len,
        len > 0x8_0000 ==> at_most(len, MAX_TEXT) == 0x8_0000,
        len <= 0x2_0000 ==> at_most(len, MAX_HEX) == len,
        len > 0x2_0000 ==> at_most(len, MAX_HEX) == 0x2_0000,
{
}

/// The beginning of a file as text, and whether there is more of the file.
pub fn text_preview(data: &[u8]) -> (r: (String, bool))
    ensures
        (r.0@, r.1) == text_shown(data@),
        r.0@ == lossy_text(data@.take(at_most(data@.len(), MAX_TEXT))),
        r.1 == (data@.len() > MAX_TEXT),
{
    let n: usize = if data.len() <= MAX_TEXT {
        data.len()
    } else {
        MAX_TEXT
    };
    assert(data@.subrange(0, n as int) =~= data@.take(n as int));
    (from_utf8_lossy(slice_subrange(data, 0, n)), data.len() > MAX_TEXT)
}

/// The beginning of a file that is shown in hexadecimal, and whether there is more.
pub fn hex_preview(data: &[u8]) -> (r: (&[u8], bool))
    ensures
        (r.0@, r.1) == hex_shown(data@),
        r.0@ == data@.take(at_most(data@.len(), MAX_HEX)),
        r.1 == (data@.len() > MAX_HEX),
{
    let n: usize = if data.len() <= MAX_HEX {
        data.len()
    } else {
        MAX_HEX
    };
    assert(data@.subrange(0, n as int) =~= data@.take(n as int));
    (slice_subrange(data, 0, n), data.len() > MAX_HEX)
}

} // verus!
