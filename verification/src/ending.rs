//! Every copy comes to an end: how many steps and reports are left of an extraction, and of a
//! job of a parallel copy, on a volume of which everything is known that they will come to.

use crate::count::{is_dot, MAX_TREE_DEPTH};
use crate::data::{law_piece_settled, lemma_piece_number, piece_at, piece_count};
use crate::dir::{dir_listing, law_listing_settled, DirEntryView};
use crate::error::Fault;
use crate::extract::{ExtractionView, PhaseView};
use crate::filewrite::{new_write, Stage, WriteView};
use crate::inode::InodeView;
use crate::jobs::{JobPhaseView, JobRunView};
use crate::plan::JobView;
use crate::progress::ProgressView;
use crate::tasks::{
    child_task, child_tasks, follow_link, law_link_settled, task_behind, LinkEnd, TaskView,
};
use crate::volume::{inode_at, law_inode_settled, VolumeView};
use vstd::prelude::*;

verus! {

/// How many pieces of a file there are from the `k`-th on.
pub open spec fn pieces_left(v: VolumeView, inode: InodeView, k: u64) -> nat {
    let all = if inode.has_inline_data() || inode.is_fast_symlink() {
        1
    } else {
        piece_count(v, inode)
    };
    if k < all {
        (all - k) as nat
    } else {
        0
    }
}

/// How many requests and reports are left of the writing of a file, at most.
pub open spec fn write_left(v: VolumeView, w: WriteView) -> nat {
    match w.stage {
        Stage::Start => 2 * pieces_left(v, w.inode, 0) + 6,
        Stage::Creating => 2 * pieces_left(v, w.inode, 0) + 5,
        Stage::Piece(k) => 2 * pieces_left(v, w.inode, k) + 4,
        Stage::Appending(k) => 2 * pieces_left(v, w.inode, k) + 5,
        Stage::Flushing => 3,
        Stage::Done => 2,
    }
}

/// Each request for a file brings its writing nearer to the end.
pub proof fn law_write_nears_its_end(v: VolumeView, w: VolumeView, f: WriteView)
    requires
        v.wf(),
        v.grows_to(w),
        !f.awaits(),
    ensures
        f.requested(v) matches Ok((next, request)) ==> request is Finished || write_left(w, next)
            < write_left(w, f),
{
    if let Stage::Piece(k) = f.stage {
        if let Ok(Some(_)) = piece_at(v, f.inode, k) {
            lemma_piece_number(v, f.inode, k);
        }
    }
}

proof fn lemma_write_waits(v: VolumeView, f: WriteView)
    ensures
        f.requested(v) matches Err(e) ==> e matches Fault::Pending(p) && !v.blocks.contains_key(p),
{
    if let Stage::Piece(k) = f.stage {
        assert(v.grows_to(v));
        law_piece_settled(v, v, f.inode, k);
    }
}

/// And so does each report, whether all went well or not.
pub proof fn law_report_nears_its_end(
    w: VolumeView,
    f: WriteView,
    r: std::result::Result<(), Seq<char>>,
)
    requires
        f.awaits(),
    ensures
        write_left(w, f.answered(r)) < write_left(w, f),
{
}

/// What is left of an item that waits to be taken up, and of everything below it.
pub open spec fn tree_left(v: VolumeView, t: TaskView) -> nat
    decreases MAX_TREE_DEPTH + 1 - t.depth, 1int,
{
    if t.depth > MAX_TREE_DEPTH {
        1
    } else {
        1 + item_left(v, t)
    }
}

/// What is left of an item that has been taken up.
pub open spec fn item_left(v: VolumeView, t: TaskView) -> nat
    decreases MAX_TREE_DEPTH + 1 - t.depth, 0int,
{
    match inode_at(v, t.ino) {
        Err(_) => 1,
        Ok(inode) => if t.depth > MAX_TREE_DEPTH {
            1
        } else if inode.is_dir() {
            match dir_listing(v, inode) {
                Err(_) => 3,
                Ok(entries) => 3 + forest_left(v, t, entries, 0),
            }
        } else if inode.is_symlink() {
            match follow_link(v, t.path, inode) {
                Ok(LinkEnd::Leads(ino)) => 1 + tree_left(v, task_behind(t, ino)),
                _ => 1,
            }
        } else {
            1 + write_left(v, new_write(inode))
        },
    }
}

/// What is left of the entries of the directory of `t`, from the `i`-th on.
pub open spec fn forest_left(
    v: VolumeView,
    t: TaskView,
    entries: Seq<DirEntryView>,
    i: int,
) -> nat
    decreases MAX_TREE_DEPTH - t.depth, 2 + entries.len() - i,
{
    if i >= entries.len() || i < 0 || t.depth > MAX_TREE_DEPTH {
        0
    } else if is_dot(entries[i].name) {
        forest_left(v, t, entries, i + 1)
    } else {
        tree_left(v, child_task(t, entries[i])) + forest_left(v, t, entries, i + 1)
    }
}

/// What is left of a directory that is to be listed.
pub open spec fn listing_left(v: VolumeView, t: TaskView, inode: InodeView) -> nat {
    match dir_listing(v, inode) {
        Err(_) => 0,
        Ok(entries) => forest_left(v, t, entries, 0),
    }
}

/// What is left of the items on the stack.
pub open spec fn stack_left(v: VolumeView, stack: Seq<TaskView>) -> nat
    decreases stack.len(),
{
    if stack.len() == 0 {
        0
    } else {
        stack_left(v, stack.drop_last()) + tree_left(v, stack.last())
    }
}

/// How many steps and reports are left of an extraction, at most.
pub open spec fn extraction_left(v: VolumeView, st: ExtractionView) -> nat {
    stack_left(v, st.stack) + match st.phase {
        PhaseView::Next => 0,
        PhaseView::Examine(t) => item_left(v, t),
        PhaseView::MakingDir(t, inode) => 2 + listing_left(v, t, inode),
        PhaseView::List(t, inode) => 1 + listing_left(v, t, inode),
        PhaseView::Write(_, f) => write_left(v, f),
        PhaseView::Cancelled => 0,
    }
}

proof fn lemma_children_left(
    v: VolumeView,
    base: Seq<TaskView>,
    t: TaskView,
    entries: Seq<DirEntryView>,
    i: int,
)
    requires
        0 <= i,
        t.depth <= MAX_TREE_DEPTH,
    ensures
        stack_left(v, base + child_tasks(t, entries, i).reverse()) == stack_left(v, base)
            + forest_left(v, t, entries, i),
    decreases entries.len() - i,
{
    let here = child_tasks(t, entries, i).reverse();
    if i >= entries.len() {
        assert(base + here =~= base);
    } else if is_dot(entries[i].name) {
        lemma_children_left(v, base, t, entries, i + 1);
    } else {
        let rest = child_tasks(t, entries, i + 1).reverse();
        let top = child_task(t, entries[i]);
        assert(here =~= rest.push(top));
        assert((base + here).drop_last() =~= base + rest);
        lemma_children_left(v, base, t, entries, i + 1);
    }
}

/// Each step of an extraction that is not its last brings it nearer to its end, on any volume
/// that the present one grows to; a step that cannot be taken waits for a block that is
/// missing.
#[verifier::rlimit(60)]
pub proof fn law_extraction_nears_its_end(
    v: VolumeView,
    w: VolumeView,
    st: ExtractionView,
    cancelled: bool,
    prog: ProgressView,
)
    requires
        v.wf(),
        v.grows_to(w),
        st.wf(),
        !st.awaits(),
    ensures
        st.stepped(v, cancelled, prog) matches Ok(next) ==> next.2 is Finished || (extraction_left(
            w,
            next.0,
        ) < extraction_left(w, st) && next.0.wf()),
        st.stepped(v, cancelled, prog) matches Err(f) ==> f matches Fault::Pending(p)
            && !v.blocks.contains_key(p),
{
    match st.phase {
        PhaseView::Examine(t) => {
            law_inode_settled(v, w, t.ino);
            if let Ok(inode) = inode_at(v, t.ino) {
                if !inode.is_dir() && inode.is_symlink() {
                    law_link_settled(v, w, t.path, inode);
                    if let Ok(LinkEnd::Leads(ino)) = follow_link(v, t.path, inode) {
                        let behind = task_behind(t, ino);
                        assert(st.stack.push(behind).drop_last() =~= st.stack);
                    }
                }
            }
        },
        PhaseView::List(t, inode) => {
            law_listing_settled(v, w, inode);
            if let Ok(entries) = dir_listing(v, inode) {
                lemma_children_left(w, st.stack, t, entries, 0);
            }
        },
        PhaseView::Write(_, f) => {
            law_write_nears_its_end(v, w, f);
            lemma_write_waits(v, f);
        },
        _ => {},
    }
}

/// Each report of the caller brings an extraction nearer to its end.
pub proof fn law_answer_nears_its_end(
    w: VolumeView,
    st: ExtractionView,
    r: std::result::Result<(), Seq<char>>,
    prog: ProgressView,
)
    requires
        st.awaits(),
    ensures
        extraction_left(w, st.answered(r, prog).0) < extraction_left(w, st),
{
    if let PhaseView::Write(_, f) = st.phase {
        law_report_nears_its_end(w, f, r);
    }
}

/// How many steps and reports are left of a job, at most.
pub open spec fn job_left(v: VolumeView, st: JobRunView) -> nat {
    match st.phase {
        JobPhaseView::Begin => match st.job {
            JobView::Dir(_) => 2,
            JobView::File(ino, _) => match inode_at(v, ino) {
                Err(_) => 1,
                Ok(inode) => 1 + write_left(v, new_write(inode)),
            },
        },
        JobPhaseView::MakingDir => 1,
        JobPhaseView::Write(f) => write_left(v, f),
        JobPhaseView::Done => 0,
    }
}

/// Each step of a job that is not its last brings it nearer to its end, on any volume that the
/// present one grows to; a step that cannot be taken waits for a block that is missing.
pub proof fn law_job_nears_its_end(
    v: VolumeView,
    w: VolumeView,
    st: JobRunView,
    cancelled: bool,
    prog: ProgressView,
)
    requires
        v.wf(),
        v.grows_to(w),
        !st.awaits(),
    ensures
        st.stepped(v, cancelled, prog) matches Ok(next) ==> next.2 is Finished || job_left(
            w,
            next.0,
        ) < job_left(w, st),
        st.stepped(v, cancelled, prog) matches Err(f) ==> f matches Fault::Pending(p)
            && !v.blocks.contains_key(p),
{
    match st.phase {
        JobPhaseView::Begin => {
            if let JobView::File(ino, _) = st.job {
                law_inode_settled(v, w, ino);
            }
        },
        JobPhaseView::Write(f) => {
            law_write_nears_its_end(v, w, f);
            lemma_write_waits(v, f);
        },
        _ => {},
    }
}

/// Each report of the caller brings a job nearer to its end.
pub proof fn law_job_answer_nears_its_end(
    w: VolumeView,
    st: JobRunView,
    r: std::result::Result<(), Seq<char>>,
    prog: ProgressView,
)
    requires
        st.awaits(),
    ensures
        job_left(w, st.answered(r, prog).0) < job_left(w, st),
{
    if let JobPhaseView::Write(f) = st.phase {
        law_report_nears_its_end(w, f, r);
    }
}

} // verus!
