//! Counting what a copy will have to move: the items below an inode, and their bytes.

use crate::dir::{dir_listing, entries_view, law_listing_settled, DirEntry, DirEntryView};
use crate::error::{corrupt, ExtError, Fault, Outcome, Result};
use crate::ondisk::{is_corrupt, law_kinds_of_files};
use crate::seqs::lemma_filter_from;
use crate::volume::{inode_at, law_inode_settled, settled, Ext4, VolumeView};
use vstd::prelude::*;
use vstd::string::*;

verus! {

/// How deep a tree is followed.
pub const MAX_TREE_DEPTH: u32 = 64;

/// Items and bytes counted so far. Bytes are added up only where they are asked for.
pub struct Tally {
    pub items: int,
    pub bytes: int,
    pub sizes: bool,
}

pub open spec fn nothing(sizes: bool) -> Tally {
    Tally { items: 0, bytes: 0, sizes }
}

/// Whether an entry is one of the two by which a directory names itself and its parent.
pub open spec fn is_dot(name: Seq<char>) -> bool {
    name == "."@ || name == ".."@
}

/// One more item with so many bytes; the sums must fit in 64 bits.
pub open spec fn counted(t: Tally, bytes: u64) -> Outcome<Tally> {
    let more = if t.sizes {
        t.bytes + bytes
    } else {
        t.bytes
    };
    if t.items + 1 > u64::MAX || more > u64::MAX {
        Err(Fault::Corrupt("tree too large to count"@))
    } else {
        Ok(Tally { items: t.items + 1, bytes: more, ..t })
    }
}

/// `t` with all that is reachable from inode `ino`, which lies `depth` levels down. What
/// cannot be read counts as one item without bytes, and so does a directory that cannot be
/// listed; what lies too deep does not count.
pub open spec fn tree_count(v: VolumeView, ino: u32, depth: int, t: Tally) -> Outcome<Tally>
    decreases MAX_TREE_DEPTH + 1 - depth, 0int,
{
    if depth > MAX_TREE_DEPTH {
        Ok(t)
    } else {
        match inode_at(v, ino) {
            Err(Fault::Pending(p)) => Err(Fault::Pending(p)),
            Err(_) => counted(t, 0),
            Ok(inode) => if !inode.is_dir() {
                counted(t, inode.size)
            } else {
                match dir_listing(v, inode) {
                    Err(Fault::Pending(p)) => Err(Fault::Pending(p)),
                    Err(_) => counted(t, 0),
                    Ok(entries) => match counted(t, 0) {
                        Err(e) => Err(e),
                        Ok(here) => forest_count(v, entries, 0, depth + 1, here),
                    },
                }
            },
        }
    }
}

/// `t` with all that is reachable from the entries from the `i`-th on.
pub open spec fn forest_count(
    v: VolumeView,
    entries: Seq<DirEntryView>,
    i: int,
    depth: int,
    t: Tally,
) -> Outcome<Tally>
    decreases MAX_TREE_DEPTH + 1 - depth, 1 + entries.len() - i,
{
    if i >= entries.len() || i < 0 {
        Ok(t)
    } else if is_dot(entries[i].name) {
        forest_count(v, entries, i + 1, depth, t)
    } else {
        match tree_count(v, entries[i].ino, depth, t) {
            Err(e) => Err(e),
            Ok(more) => forest_count(v, entries, i + 1, depth, more),
        }
    }
}

/// A count begins with nothing, and knows whether bytes are asked for.
pub proof fn law_start_of_a_count(sizes: bool)
    ensures
        nothing(sizes).items == 0,
        nothing(sizes).bytes == 0,
        nothing(sizes).sizes == sizes,
{
}

/// A file is one item, with its bytes where they are asked for; so is, without bytes, what cannot
/// be read.
pub proof fn law_files_count_once(v: VolumeView, ino: u32, depth: int, t: Tally)
    requires
        depth <= 64,
        inode_at(v, ino) is Ok ==> inode_at(v, ino)->Ok_0.mode / 0x1000 != 4,
        inode_at(v, ino) is Err ==> !(inode_at(v, ino)->Err_0 is Pending),
    ensures
        ({
            let bytes = if t.sizes && inode_at(v, ino) is Ok {
                inode_at(v, ino)->Ok_0.size as int
            } else {
                0
            };
            if t.items < u64::MAX && t.bytes + bytes <= u64::MAX {
                tree_count(v, ino, depth, t) == Ok::<_, Fault>(
                    Tally { items: t.items + 1, bytes: t.bytes + bytes, sizes: t.sizes },
                )
            } else {
                is_corrupt(tree_count(v, ino, depth, t))
            }
        }),
{
    if let Ok(n) = inode_at(v, ino) {
        law_kinds_of_files(n);
    }
}

/// The entries of a directory other than itself and its parent.
pub open spec fn proper(entries: Seq<DirEntryView>) -> Seq<DirEntryView> {
    entries.filter(|e: DirEntryView| !(e.name == seq!['.'] || e.name == seq!['.', '.']))
}

/// A directory is one item, and then comes all that its entries count, one after the other.
/// `sums` are the counts after each of them.
pub proof fn law_directories_add_up(
    v: VolumeView,
    ino: u32,
    depth: int,
    t: Tally,
    sums: Seq<Tally>,
)
    requires
        depth <= 64,
        inode_at(v, ino) is Ok,
        inode_at(v, ino)->Ok_0.mode / 0x1000 == 4,
        dir_listing(v, inode_at(v, ino)->Ok_0) is Ok,
        t.items < u64::MAX,
        t.bytes <= u64::MAX,
        ({
            let kept = proper(dir_listing(v, inode_at(v, ino)->Ok_0)->Ok_0);
            &&& sums.len() == kept.len() + 1
            &&& sums[0] == (Tally { items: t.items + 1, bytes: t.bytes, sizes: t.sizes })
            &&& forall|k: int|
                0 <= k < kept.len() ==> tree_count(
                    v,
                    (#[trigger] kept[k]).ino,
                    depth + 1,
                    sums[k],
                ) == Ok::<_, Fault>(sums[k + 1])
        }),
    ensures
        tree_count(v, ino, depth, t) == Ok::<_, Fault>(sums.last()),
{
    law_kinds_of_files(inode_at(v, ino)->Ok_0);
    let entries = dir_listing(v, inode_at(v, ino)->Ok_0)->Ok_0;
    assert(entries.skip(0) =~= entries);
    lemma_sums(v, entries, 0, depth + 1, sums);
}

proof fn lemma_sums(
    v: VolumeView,
    entries: Seq<DirEntryView>,
    i: int,
    depth: int,
    sums: Seq<Tally>,
)
    requires
        0 <= i <= entries.len(),
        ({
            let kept = proper(entries.skip(i));
            &&& sums.len() == kept.len() + 1
            &&& forall|k: int|
                0 <= k < kept.len() ==> tree_count(v, (#[trigger] kept[k]).ino, depth, sums[k])
                    == Ok::<_, Fault>(sums[k + 1])
        }),
    ensures
        forest_count(v, entries, i, depth, sums[0]) == Ok::<_, Fault>(sums.last()),
    decreases entries.len() - i,
{
    let pred = |e: DirEntryView| !(e.name == seq!['.'] || e.name == seq!['.', '.']);
    lemma_filter_from(entries, i, pred);
    reveal_strlit(".");
    reveal_strlit("..");
    assert("."@ =~= seq!['.']);
    assert(".."@ =~= seq!['.', '.']);
    if i < entries.len() {
        let kept = proper(entries.skip(i));
        let rest = proper(entries.skip(i + 1));
        if pred(entries[i]) {
            assert(kept[0] == entries[i]);
            let later = sums.skip(1);
            assert forall|k: int| 0 <= k < rest.len() implies tree_count(
                v,
                (#[trigger] rest[k]).ino,
                depth,
                later[k],
            ) == Ok::<_, Fault>(later[k + 1]) by {
                assert(kept[k + 1] == rest[k]);
            }
            lemma_sums(v, entries, i + 1, depth, later);
        } else {
            lemma_sums(v, entries, i + 1, depth, sums);
        }
    }
}

/// What lies more than 64 levels down does not count, a directory that cannot be listed counts
/// as one item, and a missing block is asked for.
pub proof fn law_ends_of_a_count(v: VolumeView, ino: u32, depth: int, t: Tally)
    ensures
        depth > 64 ==> tree_count(v, ino, depth, t) == Ok::<_, Fault>(t),
        depth <= 64 && inode_at(v, ino) is Ok && inode_at(v, ino)->Ok_0.mode / 0x1000 == 4 && t.items
            < u64::MAX && t.bytes <= u64::MAX && dir_listing(v, inode_at(v, ino)->Ok_0) is Err && !(
        dir_listing(v, inode_at(v, ino)->Ok_0)->Err_0 is Pending) ==> tree_count(v, ino, depth, t)
            == Ok::<_, Fault>(Tally { items: t.items + 1, bytes: t.bytes, sizes: t.sizes }),
        depth <= 64 && inode_at(v, ino) is Err && inode_at(v, ino)->Err_0 is Pending ==> tree_count(
            v,
            ino,
            depth,
            t,
        ) == Err::<Tally, _>(inode_at(v, ino)->Err_0),
{
    if let Ok(n) = inode_at(v, ino) {
        law_kinds_of_files(n);
    }
}

/// A count is settled: unless a block is missing, it stays whatever else is supplied, so that
/// it is the count of the complete volume.
pub proof fn law_count_settled(v: VolumeView, w: VolumeView, ino: u32, depth: int, t: Tally)
    requires
        v.grows_to(w),
    ensures
        settled(v, tree_count(v, ino, depth, t), tree_count(w, ino, depth, t)),
    decreases MAX_TREE_DEPTH + 1 - depth, 0int,
{
    if depth <= MAX_TREE_DEPTH {
        law_inode_settled(v, w, ino);
        if let Ok(inode) = inode_at(v, ino) {
            law_listing_settled(v, w, inode);
            if let Ok(entries) = dir_listing(v, inode) {
                if let Ok(here) = counted(t, 0) {
                    lemma_forest_settled(v, w, entries, 0, depth + 1, here);
                }
            }
        }
    }
}

proof fn lemma_forest_settled(
    v: VolumeView,
    w: VolumeView,
    entries: Seq<DirEntryView>,
    i: int,
    depth: int,
    t: Tally,
)
    requires
        v.grows_to(w),
    ensures
        settled(
            v,
            forest_count(v, entries, i, depth, t),
            forest_count(w, entries, i, depth, t),
        ),
    decreases MAX_TREE_DEPTH + 1 - depth, 1 + entries.len() - i,
{
    if 0 <= i < entries.len() {
        if is_dot(entries[i].name) {
            lemma_forest_settled(v, w, entries, i + 1, depth, t);
        } else {
            law_count_settled(v, w, entries[i].ino, depth, t);
            if let Ok(more) = tree_count(v, entries[i].ino, depth, t) {
                lemma_forest_settled(v, w, entries, i + 1, depth, more);
            }
        }
    }
}

/// How many inodes a count visits below `ino`, itself among them.
spec fn tree_size(v: VolumeView, ino: u32, depth: int) -> nat
    decreases MAX_TREE_DEPTH + 1 - depth, 0int,
{
    if depth > MAX_TREE_DEPTH {
        1
    } else {
        match inode_at(v, ino) {
            Err(_) => 1,
            Ok(inode) => match dir_listing(v, inode) {
                Err(_) => 1,
                Ok(entries) => 1 + forest_size(v, entries, 0, depth + 1),
            },
        }
    }
}

spec fn forest_size(v: VolumeView, entries: Seq<DirEntryView>, i: int, depth: int) -> nat
    decreases MAX_TREE_DEPTH + 1 - depth, 1 + entries.len() - i,
{
    if i >= entries.len() || i < 0 {
        0
    } else if is_dot(entries[i].name) {
        forest_size(v, entries, i + 1, depth)
    } else {
        tree_size(v, entries[i].ino, depth) + forest_size(v, entries, i + 1, depth)
    }
}

/// An inode that is still to be counted.
#[derive(Clone, Copy)]
pub struct Visit {
    pub ino: u32,
    pub depth: u32,
}

/// `t` with all that is reachable from the inodes on the stack, its top first.
pub open spec fn stack_count(v: VolumeView, stack: Seq<Visit>, t: Tally) -> Outcome<Tally>
    decreases stack.len(),
{
    if stack.len() == 0 {
        Ok(t)
    } else {
        match tree_count(v, stack.last().ino, stack.last().depth as int, t) {
            Err(e) => Err(e),
            Ok(more) => stack_count(v, stack.drop_last(), more),
        }
    }
}

spec fn stack_size(v: VolumeView, stack: Seq<Visit>) -> nat
    decreases stack.len(),
{
    if stack.len() == 0 {
        0
    } else {
        tree_size(v, stack.last().ino, stack.last().depth as int) + stack_size(
            v,
            stack.drop_last(),
        )
    }
}

/// The entries from the `i`-th on as visits, in reverse, so that the first is on top.
spec fn visits(entries: Seq<DirEntryView>, i: int, depth: u32) -> Seq<Visit>
    decreases entries.len() - i,
{
    if i >= entries.len() || i < 0 {
        Seq::empty()
    } else if is_dot(entries[i].name) {
        visits(entries, i + 1, depth)
    } else {
        visits(entries, i + 1, depth).push(Visit { ino: entries[i].ino, depth })
    }
}

/// Counting the children on the stack is counting the entries, and then what lies below.
proof fn lemma_visits(
    v: VolumeView,
    base: Seq<Visit>,
    entries: Seq<DirEntryView>,
    i: int,
    depth: u32,
    t: Tally,
)
    requires
        0 <= i,
    ensures
        stack_count(v, base + visits(entries, i, depth), t) == match forest_count(
            v,
            entries,
            i,
            depth as int,
            t,
        ) {
            Err(e) => Err(e),
            Ok(more) => stack_count(v, base, more),
        },
        stack_size(v, base + visits(entries, i, depth)) == forest_size(
            v,
            entries,
            i,
            depth as int,
        ) + stack_size(v, base),
    decreases entries.len() - i,
{
    if i >= entries.len() {
        assert(base + visits(entries, i, depth) =~= base);
    } else if is_dot(entries[i].name) {
        lemma_visits(v, base, entries, i + 1, depth, t);
    } else {
        let rest = visits(entries, i + 1, depth);
        let top = Visit { ino: entries[i].ino, depth };
        assert((base + rest.push(top)).drop_last() =~= base + rest);
        if let Ok(more) = tree_count(v, top.ino, depth as int, t) {
            lemma_visits(v, base, entries, i + 1, depth, more);
        } else {
            lemma_visits(v, base, entries, i + 1, depth, t);
        }
    }
}

/// A count that can be interrupted for want of a block and taken up again.
pub struct TreeCount {
    pub stack: Vec<Visit>,
    pub items: u64,
    pub bytes: u64,
    /// Whether bytes are added up.
    pub sizes: bool,
}

impl TreeCount {
    pub open spec fn tally(self) -> Tally {
        Tally { items: self.items as int, bytes: self.bytes as int, sizes: self.sizes }
    }

    /// What the count will come to on a volume that holds `v`.
    pub open spec fn outcome(self, v: VolumeView) -> Outcome<Tally> {
        stack_count(v, self.stack@, self.tally())
    }

    /// Begins to count what is reachable from inode `ino`.
    pub fn new(ino: u32, sizes: bool) -> (c: TreeCount)
        ensures
            forall|v: VolumeView| #[trigger] c.outcome(v) == tree_count(
                v,
                ino,
                0,
                nothing(sizes),
            ),
    {
        let mut stack: Vec<Visit> = Vec::new();
        let top = Visit { ino, depth: 0 };
        stack.push(top);
        let c = TreeCount { stack, items: 0, bytes: 0, sizes };
        proof {
            assert(c.stack@ =~= seq![top]);
            assert(c.stack@.drop_last() =~= Seq::empty());
            assert forall|v: VolumeView| #[trigger] c.outcome(v) == tree_count(
                v,
                ino,
                0,
                nothing(sizes),
            ) by {
                reveal_with_fuel(stack_count, 2);
            }
        }
        c
    }

    fn count_item(&mut self, bytes: u64) -> (r: Result<()>)
        ensures
            final(self).stack == old(self).stack,
            match r {
                Ok(_) => counted(old(self).tally(), bytes) == Ok::<_, Fault>(final(self).tally()),
                Err(e) => counted(old(self).tally(), bytes) == Err::<Tally, _>(e@) && *final(self)
                    == *old(self),
            },
    {
        let more: u64 = if self.sizes {
            bytes
        } else {
            0
        };
        match (self.items.checked_add(1), self.bytes.checked_add(more)) {
            (Some(items), Some(total)) => {
                self.items = items;
                self.bytes = total;
                Ok(())
            },
            _ => Err(corrupt("tree too large to count")),
        }
    }

    /// Puts the entries of a directory on the stack.
    fn push_entries(&mut self, entries: &Vec<DirEntry>, depth: u32)
        ensures
            final(self).tally() == old(self).tally(),
            final(self).stack@ == old(self).stack@ + visits(entries_view(entries@), 0, depth),
    {
        let dot = ".".to_owned();
        let dotdot = "..".to_owned();
        let ghost listed = entries_view(entries@);
        let mut i: usize = entries.len();
        assert(self.stack@ =~= old(self).stack@ + visits(listed, i as int, depth));
        while i > 0
            invariant
                i <= entries@.len(),
                dot@ == "."@,
                dotdot@ == ".."@,
                listed == entries_view(entries@),
                self.tally() == old(self).tally(),
                self.stack@ == old(self).stack@ + visits(listed, i as int, depth),
            decreases i,
        {
            i = i - 1;
            let e = &entries[i];
            assert(listed[i as int] == e@);
            if e.name != dot && e.name != dotdot {
                self.stack.push(Visit { ino: e.ino, depth });
                assert(self.stack@ =~= old(self).stack@ + visits(listed, i as int, depth));
            }
        }
    }

    /// Counts on until all is counted, or until a block is missing. What has been counted
    /// stays counted: on any volume that the present one grows to, the count will come to
    /// what it would have come to there from the start.
    #[verifier::rlimit(40)]
    pub fn run(&mut self, fs: &Ext4) -> (r: Result<()>)
        requires
            fs.wf(),
        ensures
            match r {
                Ok(_) => old(self).outcome(fs@) == Ok::<_, Fault>(final(self).tally())
                    && final(self).stack@.len() == 0,
                Err(e) => old(self).outcome(fs@) == Err::<Tally, _>(e@),
            },
            forall|w: VolumeView| #[trigger]
                fs@.grows_to(w) ==> final(self).outcome(w) == old(self).outcome(w),
    {
        let ghost v = fs@;
        while self.stack.len() > 0
            invariant
                fs.wf(),
                v == fs@,
                self.outcome(v) == old(self).outcome(v),
                forall|w: VolumeView| #[trigger]
                    v.grows_to(w) ==> self.outcome(w) == old(self).outcome(w),
            decreases stack_size(v, self.stack@),
        {
            let ghost before = self.stack@;
            let top: Visit = self.stack[self.stack.len() - 1];
            let ghost base = before.drop_last();
            if top.depth > MAX_TREE_DEPTH {
                self.stack.pop();
                assert(self.stack@ =~= base);
                continue;
            }
            match fs.read_inode(top.ino) {
                Err(ExtError::Pending(p)) => {
                    return Err(ExtError::Pending(p));
                },
                Err(_) => {
                    proof {
                        assert forall|w: VolumeView| #[trigger] v.grows_to(w) implies inode_at(
                            w,
                            top.ino,
                        ) == inode_at(v, top.ino) by {
                            law_inode_settled(v, w, top.ino);
                        }
                    }
                    self.count_item(0)?;
                    self.stack.pop();
                    assert(self.stack@ =~= base);
                },
                Ok(inode) => {
                    proof {
                        assert forall|w: VolumeView| #[trigger] v.grows_to(w) implies inode_at(
                            w,
                            top.ino,
                        ) == inode_at(v, top.ino) by {
                            law_inode_settled(v, w, top.ino);
                        }
                    }
                    if !inode.is_dir() {
                        self.count_item(inode.size)?;
                        self.stack.pop();
                        assert(self.stack@ =~= base);
                        continue;
                    }
                    let entries = fs.list_dir(&inode);
                    proof {
                        assert forall|w: VolumeView| #[trigger]
                            v.grows_to(w) && !(dir_listing(v, inode@) matches Err(
                                Fault::Pending(_),
                            )) implies dir_listing(w, inode@) == dir_listing(v, inode@) by {
                            law_listing_settled(v, w, inode@);
                        }
                    }
                    match entries {
                        Err(ExtError::Pending(p)) => {
                            return Err(ExtError::Pending(p));
                        },
                        Err(_) => {
                            self.count_item(0)?;
                            self.stack.pop();
                            assert(self.stack@ =~= base);
                        },
                        Ok(entries) => {
                            self.count_item(0)?;
                            self.stack.pop();
                            assert(self.stack@ =~= base);
                            let ghost here = self.tally();
                            self.push_entries(&entries, top.depth + 1);
                            proof {
                                let listed = entries_view(entries@);
                                let d = (top.depth + 1) as u32;
                                lemma_visits(v, base, listed, 0, d, here);
                                assert forall|w: VolumeView| #[trigger]
                                    v.grows_to(w) implies self.outcome(w) == old(self).outcome(
                                    w,
                                ) by {
                                    lemma_visits(w, base, listed, 0, d, here);
                                }
                            }
                        },
                    }
                },
            }
        }
        Ok(())
    }
}

/// Counts the items reachable below `ino`, excluding "." and "..", and the bytes of those
/// that are not directories. Best effort: what cannot be read counts as an item.
pub fn count_tree_with_bytes(fs: &Ext4, ino: u32) -> (r: Result<(u64, u64)>)
    requires
        fs.wf(),
    ensures
        match r {
            Ok((items, bytes)) => tree_count(fs@, ino, 0, nothing(true)) matches Ok(t)
                && t.items == items && t.bytes == bytes,
            Err(e) => tree_count(fs@, ino, 0, nothing(true)) == Err::<Tally, _>(e@),
        },
{
    let mut c = TreeCount::new(ino, true);
    let ghost start = c;
    assert(start.outcome(fs@) == tree_count(fs@, ino, 0, nothing(true)));
    c.run(fs)?;
    Ok((c.items, c.bytes))
}

/// Counts the items (files, directories, symlinks) reachable below `ino`, excluding "." and
/// "..".
pub fn count_tree(fs: &Ext4, ino: u32) -> (r: Result<u64>)
    requires
        fs.wf(),
    ensures
        match r {
            Ok(items) => tree_count(fs@, ino, 0, nothing(false)) matches Ok(t) && t.items == items,
            Err(e) => tree_count(fs@, ino, 0, nothing(false)) == Err::<Tally, _>(e@),
        },
{
    let mut c = TreeCount::new(ino, false);
    let ghost start = c;
    assert(start.outcome(fs@) == tree_count(fs@, ino, 0, nothing(false)));
    c.run(fs)?;
    Ok(c.items)
}

} // verus!
