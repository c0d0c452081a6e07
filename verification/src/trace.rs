//! What a recursive copy comes to as a whole, where the caller can do all that is asked of
//! it: the steps of an extraction add up to the recursive description given here.

use crate::count::{forest_count, is_dot, tree_count, Tally, MAX_TREE_DEPTH};
use crate::data::{
    file_data, law_piece_settled, law_pieces_from_the_start, lemma_piece_number, piece_at,
    piece_contents, pieces_from, read_failure,
};
use crate::dir::{dir_listing, law_listing_settled, DirEntryView};
use crate::error::{fault_text, Fault, Outcome};
use crate::extract::{ExtractionView, PhaseView, RequestView};
use crate::filewrite::{new_write, FileRequestView, Stage, WriteView};
use crate::inode::InodeView;
use crate::plan::{forest_plan, tree_plan, JobView, Plan};
use crate::progress::ProgressView;
use crate::tasks::{
    child_task, child_tasks, complaint, follow_link, law_link_settled, task_behind, too_deep_text,
    LinkEnd, TaskView,
};
use crate::volume::{inode_at, law_inode_settled, VolumeView};
use vstd::prelude::*;

verus! {

/// Something that the caller was asked to bring into being.
pub enum Deed {
    Dir(Seq<Seq<char>>),
    /// A file for the contents of an inode.
    File(Seq<Seq<char>>, InodeView),
}

/// What was made, what was reported, and how many items were taken up, so far.
#[verifier::ext_equal]
pub struct Trace {
    pub deeds: Seq<Deed>,
    pub errors: Seq<Seq<char>>,
    pub ticks: int,
}

impl Trace {
    pub open spec fn deed(self, d: Deed) -> Trace {
        Trace { deeds: self.deeds.push(d), ..self }
    }

    pub open spec fn error(self, text: Seq<char>) -> Trace {
        Trace { errors: self.errors.push(text), ..self }
    }

    pub open spec fn tick(self) -> Trace {
        Trace { ticks: self.ticks + 1, ..self }
    }
}

/// `tr` with the report on a file at `path`, if reading it fails from piece `k` on.
pub open spec fn file_trace(
    v: VolumeView,
    path: Seq<char>,
    inode: InodeView,
    k: u64,
    tr: Trace,
) -> Outcome<Trace> {
    match read_failure(v, inode, k) {
        Err(f) => Err(f),
        Ok(None) => Ok(tr),
        Ok(Some(text)) => Ok(tr.error(complaint(path, text))),
    }
}

/// `tr` with the copy of the item `t` and everything below it.
pub open spec fn tree_trace(v: VolumeView, t: TaskView, tr: Trace) -> Outcome<Trace>
    decreases MAX_TREE_DEPTH + 1 - t.depth, 1int,
{
    let begun = match t.warning {
        None => tr,
        Some(text) => tr.error(text),
    };
    if t.depth > MAX_TREE_DEPTH {
        Ok(begun.error(too_deep_text(t.path)))
    } else {
        item_trace(v, t, begun.tick())
    }
}

/// The same, once the item has been taken up.
pub open spec fn item_trace(v: VolumeView, t: TaskView, tr: Trace) -> Outcome<Trace>
    decreases MAX_TREE_DEPTH + 1 - t.depth, 0int,
{
    match inode_at(v, t.ino) {
        Err(Fault::Pending(p)) => Err(Fault::Pending(p)),
        Err(f) => Ok(tr.error(complaint(t.path, fault_text(f)))),
        Ok(inode) => if t.depth > MAX_TREE_DEPTH {
            Ok(tr)
        } else if inode.is_dir() {
            match dir_listing(v, inode) {
                Err(Fault::Pending(p)) => Err(Fault::Pending(p)),
                Err(f) => Ok(tr.deed(Deed::Dir(t.dest)).error(complaint(t.path, fault_text(f)))),
                Ok(entries) => forest_trace(v, t, entries, 0, tr.deed(Deed::Dir(t.dest))),
            }
        } else if inode.is_symlink() {
            match follow_link(v, t.path, inode) {
                Err(Fault::Pending(p)) => Err(Fault::Pending(p)),
                Err(f) => Ok(tr.error(complaint(t.path, fault_text(f)))),
                Ok(LinkEnd::Broken(text)) => Ok(tr.error(text)),
                Ok(LinkEnd::Leads(ino)) => tree_trace(v, task_behind(t, ino), tr),
            }
        } else {
            file_trace(v, t.path, inode, 0, tr.deed(Deed::File(t.dest, inode)))
        },
    }
}

/// `tr` with the copies of the entries of the directory of `t`, from the `i`-th on.
pub open spec fn forest_trace(
    v: VolumeView,
    t: TaskView,
    entries: Seq<DirEntryView>,
    i: int,
    tr: Trace,
) -> Outcome<Trace>
    decreases MAX_TREE_DEPTH - t.depth, 2 + entries.len() - i,
{
    if i >= entries.len() || i < 0 || t.depth > MAX_TREE_DEPTH {
        Ok(tr)
    } else if is_dot(entries[i].name) {
        forest_trace(v, t, entries, i + 1, tr)
    } else {
        match tree_trace(v, child_task(t, entries[i]), tr) {
            Err(f) => Err(f),
            Ok(more) => forest_trace(v, t, entries, i + 1, more),
        }
    }
}

/// `tr` with the copies of all that is on the stack, its top first.
pub open spec fn stack_trace(v: VolumeView, stack: Seq<TaskView>, tr: Trace) -> Outcome<Trace>
    decreases stack.len(),
{
    if stack.len() == 0 {
        Ok(tr)
    } else {
        match tree_trace(v, stack.last(), tr) {
            Err(f) => Err(f),
            Ok(more) => stack_trace(v, stack.drop_last(), more),
        }
    }
}

/// `tr` with the rest of the listing of a directory that has been made.
pub open spec fn listing_trace(v: VolumeView, t: TaskView, inode: InodeView, tr: Trace) -> Outcome<
    Trace,
> {
    match dir_listing(v, inode) {
        Err(Fault::Pending(p)) => Err(Fault::Pending(p)),
        Err(f) => Ok(tr.error(complaint(t.path, fault_text(f)))),
        Ok(entries) => forest_trace(v, t, entries, 0, tr),
    }
}

/// `tr` with the rest of the writing of a file.
pub open spec fn writing_trace(v: VolumeView, t: TaskView, w: WriteView, tr: Trace) -> Outcome<
    Trace,
> {
    match w.stage {
        Stage::Start => file_trace(v, t.path, w.inode, 0, tr.deed(Deed::File(t.dest, w.inode))),
        Stage::Creating => file_trace(v, t.path, w.inode, 0, tr),
        Stage::Piece(k) => file_trace(v, t.path, w.inode, k, tr),
        Stage::Appending(k) => file_trace(v, t.path, w.inode, k, tr),
        Stage::Flushing => Ok(tr),
        Stage::Done => match w.failure {
            None => Ok(tr),
            Some(text) => Ok(tr.error(complaint(t.path, text))),
        },
    }
}

/// What an extraction will come to that has made `deeds` and taken up `ticks` items so far.
pub open spec fn whole_trace(
    v: VolumeView,
    st: ExtractionView,
    deeds: Seq<Deed>,
    ticks: int,
) -> Outcome<Trace> {
    let tr = Trace { deeds, errors: st.errors, ticks };
    let in_hand = match st.phase {
        PhaseView::Next => Ok(tr),
        PhaseView::Examine(t) => item_trace(v, t, tr),
        PhaseView::MakingDir(t, inode) => listing_trace(v, t, inode, tr),
        PhaseView::List(t, inode) => listing_trace(v, t, inode, tr),
        PhaseView::Write(t, w) => writing_trace(v, t, w, tr),
        PhaseView::Cancelled => Ok(tr),
    };
    match in_hand {
        Err(f) => Err(f),
        Ok(more) => stack_trace(v, st.stack, more),
    }
}

/// The deeds after a request: directories and files are made when they are asked for.
pub open spec fn deeds_after(st: ExtractionView, request: RequestView, deeds: Seq<Deed>) -> Seq<
    Deed,
> {
    match request {
        RequestView::MakeDir(dest) => deeds.push(Deed::Dir(dest)),
        RequestView::Create(dest) => match st.phase {
            PhaseView::Write(_, w) => deeds.push(Deed::File(dest, w.inode)),
            _ => deeds,
        },
        _ => deeds,
    }
}

/// The items taken up after a step.
pub open spec fn ticks_after(st: ExtractionView, next: ExtractionView, ticks: int) -> int {
    if st.phase is Next && next.phase is Examine {
        ticks + 1
    } else {
        ticks
    }
}

/// A failure is recorded only in a file whose writing is over.
pub open spec fn unspoilt(st: ExtractionView) -> bool {
    match st.phase {
        PhaseView::Write(_, w) => w.stage is Done || w.failure is None,
        _ => true,
    }
}

proof fn lemma_children(
    v: VolumeView,
    base: Seq<TaskView>,
    t: TaskView,
    entries: Seq<DirEntryView>,
    i: int,
    tr: Trace,
)
    requires
        0 <= i,
        t.depth <= MAX_TREE_DEPTH,
    ensures
        stack_trace(v, base + child_tasks(t, entries, i).reverse(), tr) == match forest_trace(
            v,
            t,
            entries,
            i,
            tr,
        ) {
            Err(f) => Err(f),
            Ok(more) => stack_trace(v, base, more),
        },
    decreases entries.len() - i,
{
    let here = child_tasks(t, entries, i).reverse();
    if i >= entries.len() {
        assert(base + here =~= base);
    } else if is_dot(entries[i].name) {
        lemma_children(v, base, t, entries, i + 1, tr);
    } else {
        let rest = child_tasks(t, entries, i + 1).reverse();
        let top = child_task(t, entries[i]);
        assert(here =~= rest.push(top));
        assert((base + here).drop_last() =~= base + rest);
        if let Ok(more) = tree_trace(v, top, tr) {
            lemma_children(v, base, t, entries, i + 1, more);
        }
    }
}

#[verifier::rlimit(40)]
proof fn lemma_examine(
    v: VolumeView,
    w: VolumeView,
    st: ExtractionView,
    t: TaskView,
    deeds: Seq<Deed>,
    ticks: int,
)
    requires
        v.grows_to(w),
        st.phase == PhaseView::Examine(t),
        t.depth <= MAX_TREE_DEPTH,
    ensures
        st.examined(v, t) matches Ok(next) ==> whole_trace(
            w,
            next.0,
            deeds_after(next.0, next.1, deeds),
            ticks,
        ) == whole_trace(w, st, deeds, ticks) && unspoilt(next.0),
{
    law_inode_settled(v, w, t.ino);
    if let Ok(inode) = inode_at(v, t.ino) {
        if !inode.is_dir() && inode.is_symlink() {
            law_link_settled(v, w, t.path, inode);
            if let Ok(LinkEnd::Leads(ino)) = follow_link(v, t.path, inode) {
                let behind = task_behind(t, ino);
                assert(st.stack.push(behind).drop_last() =~= st.stack);
            }
        }
    }
}

proof fn lemma_list(
    v: VolumeView,
    w: VolumeView,
    st: ExtractionView,
    t: TaskView,
    inode: InodeView,
    deeds: Seq<Deed>,
    ticks: int,
)
    requires
        v.grows_to(w),
        st.phase == PhaseView::List(t, inode),
        t.depth <= MAX_TREE_DEPTH,
    ensures
        st.listed(v, t, inode) matches Ok(next) ==> whole_trace(w, next.0, deeds, ticks)
            == whole_trace(w, st, deeds, ticks) && next.1 is Proceed && unspoilt(next.0),
{
    law_listing_settled(v, w, inode);
    if let Ok(entries) = dir_listing(v, inode) {
        let tr = Trace { deeds, errors: st.errors, ticks };
        lemma_children(w, st.stack, t, entries, 0, tr);
    }
}

#[verifier::rlimit(40)]
proof fn lemma_write(
    v: VolumeView,
    w: VolumeView,
    st: ExtractionView,
    t: TaskView,
    f: WriteView,
    deeds: Seq<Deed>,
    ticks: int,
)
    requires
        v.wf(),
        v.grows_to(w),
        st.phase == PhaseView::Write(t, f),
        unspoilt(st),
        !f.awaits(),
    ensures
        st.writing(v, t, f) matches Ok(next) ==> whole_trace(
            w,
            next.0,
            deeds_after(next.0, next.1, deeds),
            ticks,
        ) == whole_trace(w, st, deeds, ticks) && unspoilt(next.0),
{
    if let Stage::Piece(k) = f.stage {
        law_piece_settled(v, w, f.inode, k);
        if let Ok(Some(_)) = piece_at(v, f.inode, k) {
            lemma_piece_number(v, f.inode, k);
        }
    }
}

/// Where the caller does as it is asked, and nobody cancels, each step of an extraction
/// leaves what the extraction comes to unchanged, on this volume and on any that it grows
/// to. So when the walk is over, what was made and reported is what the recursive
/// description of the copy says.
#[verifier::rlimit(40)]
pub proof fn law_steps_make_the_copy(
    v: VolumeView,
    w: VolumeView,
    st: ExtractionView,
    prog: ProgressView,
    deeds: Seq<Deed>,
    ticks: int,
)
    requires
        v.wf(),
        v.grows_to(w),
        st.wf(),
        unspoilt(st),
        !st.awaits(),
    ensures
        st.stepped(v, false, prog) matches Ok(next) ==> {
            &&& whole_trace(
                w,
                next.0,
                deeds_after(next.0, next.2, deeds),
                ticks_after(st, next.0, ticks),
            ) == whole_trace(w, st, deeds, ticks)
            &&& next.1.done == (prog.done + ticks_after(st, next.0, 0))
                % 0x1_0000_0000_0000_0000
            &&& unspoilt(next.0)
        },
{
    match st.phase {
        PhaseView::Examine(t) => lemma_examine(v, w, st, t, deeds, ticks),
        PhaseView::List(t, inode) => lemma_list(v, w, st, t, inode, deeds, ticks),
        PhaseView::Write(t, f) => lemma_write(v, w, st, t, f, deeds, ticks),
        _ => {},
    }
}

/// The caller's report that it did as asked leaves what the extraction comes to unchanged.
pub proof fn law_success_keeps_the_copy(
    w: VolumeView,
    st: ExtractionView,
    prog: ProgressView,
    deeds: Seq<Deed>,
    ticks: int,
)
    requires
        unspoilt(st),
        st.awaits(),
    ensures
        whole_trace(w, st.answered(Ok(()), prog).0, deeds, ticks) == whole_trace(
            w,
            st,
            deeds,
            ticks,
        ),
        unspoilt(st.answered(Ok(()), prog).0),
{
}

/// At the start an extraction comes to the copy of the whole tree, and at its end to what
/// has been made.
pub proof fn law_extraction_begins_and_ends(
    v: VolumeView,
    st: ExtractionView,
    deeds: Seq<Deed>,
    ticks: int,
)
    requires
        st.phase is Next,
    ensures
        st.stack.len() == 0 ==> whole_trace(v, st, deeds, ticks) == Ok::<_, Fault>(
            (Trace { deeds, errors: st.errors, ticks }),
        ),
        st.stack.len() == 1 ==> whole_trace(v, st, deeds, ticks) == tree_trace(
            v,
            st.stack[0],
            (Trace { deeds, errors: st.errors, ticks }),
        ),
{
    reveal_with_fuel(stack_trace, 2);
}

/// What stands at a destination.
pub enum Made {
    Nothing,
    Dir,
    /// A file with these contents.
    File(Seq<u8>),
}

/// `made` with more bytes behind what the file holds.
pub open spec fn extended(made: Made, bytes: Seq<u8>) -> Made {
    match made {
        Made::File(before) => Made::File(before + bytes),
        other => other,
    }
}

/// The bytes that a write still has to hand over.
pub open spec fn to_come(v: VolumeView, f: WriteView) -> Seq<u8> {
    match f.stage {
        Stage::Start => pieces_from(v, f.inode, 0),
        Stage::Creating => pieces_from(v, f.inode, 0),
        Stage::Piece(k) => pieces_from(v, f.inode, k),
        Stage::Appending(k) => pieces_from(v, f.inode, k),
        Stage::Flushing => Seq::empty(),
        Stage::Done => Seq::empty(),
    }
}

/// A write hands over what is to come, piece by piece and in order: a piece that is to be
/// appended is the next of it, on this volume and on any that it grows to, and the file is
/// flushed, or the writing ends, only where nothing is left to come.
pub proof fn law_write_hands_over_its_data(v: VolumeView, w: VolumeView, f: WriteView)
    requires
        v.wf(),
        v.grows_to(w),
        !f.awaits(),
    ensures
        f.requested(v) matches Ok((next, request)) ==> match request {
            FileRequestView::Create => to_come(w, next) == to_come(w, f),
            FileRequestView::Append(piece) => piece_contents(w, piece) + to_come(w, next)
                == to_come(w, f),
            FileRequestView::Flush => to_come(w, f).len() == 0,
            FileRequestView::Finished => to_come(w, f).len() == 0,
        },
{
    if let Stage::Piece(k) = f.stage {
        law_piece_settled(v, w, f.inode, k);
        if let Ok(Some(_)) = piece_at(v, f.inode, k) {
            lemma_piece_number(v, f.inode, k);
        }
    }
}

/// Doing as a write asks leaves what is to come unchanged, and a new write of a file that can
/// be read has all of the file's contents to come.
pub proof fn law_write_begins_with_its_data(v: VolumeView, f: WriteView, inode: InodeView)
    requires
        v.wf(),
    ensures
        f.awaits() ==> to_come(v, f.succeeded()) == to_come(v, f),
        file_data(v, inode).end is Ok ==> to_come(v, new_write(inode)) == file_data(
            v,
            inode,
        ).bytes,
{
    if file_data(v, inode).end is Ok {
        law_pieces_from_the_start(v, inode);
    }
}

/// Where something stands, as names below the place that a copy goes to, and what.
pub type Place = Map<Seq<Seq<char>>, Made>;

pub open spec fn deed_dest(d: Deed) -> Seq<Seq<char>> {
    match d {
        Deed::Dir(dest) => dest,
        Deed::File(dest, _) => dest,
    }
}

/// What a deed leaves at its destination.
pub open spec fn deed_made(v: VolumeView, d: Deed) -> Made {
    match d {
        Deed::Dir(_) => Made::Dir,
        Deed::File(_, inode) => Made::File(pieces_from(v, inode, 0)),
    }
}

/// A file that can be read is left with exactly its contents.
pub proof fn law_file_is_left_whole(v: VolumeView, dest: Seq<Seq<char>>, inode: InodeView)
    requires
        v.wf(),
        file_data(v, inode).end is Ok,
    ensures
        deed_made(v, Deed::File(dest, inode)) == Made::File(file_data(v, inode).bytes),
{
    law_pieces_from_the_start(v, inode);
}

/// `start` with all that the deeds leave, a later one in the place of an earlier.
pub open spec fn built(v: VolumeView, deeds: Seq<Deed>, start: Place) -> Place
    decreases deeds.len(),
{
    if deeds.len() == 0 {
        start
    } else {
        built(v, deeds.drop_last(), start).insert(
            deed_dest(deeds.last()),
            deed_made(v, deeds.last()),
        )
    }
}

/// What stands where once a request has been carried out that has led to `st`. The directories
/// above a file that is created are deeds of their own.
pub open spec fn carried_out(
    v: VolumeView,
    st: ExtractionView,
    request: RequestView,
    place: Place,
) -> Place {
    match request {
        RequestView::MakeDir(dest) => place.insert(dest, Made::Dir),
        RequestView::Create(dest) => place.insert(dest, Made::File(Seq::empty())),
        RequestView::Append(piece) => match st.phase {
            PhaseView::Write(t, _) => place.insert(
                t.dest,
                extended(place[t.dest], piece_contents(v, piece)),
            ),
            _ => place,
        },
        _ => place,
    }
}

/// Whether what stands where is what the deeds leave, but for the bytes that the file in hand
/// still lacks.
pub open spec fn keeps_up(
    v: VolumeView,
    st: ExtractionView,
    deeds: Seq<Deed>,
    start: Place,
    place: Place,
) -> bool {
    match st.phase {
        PhaseView::Write(t, f) => if f.stage is Start {
            place == built(v, deeds, start)
        } else {
            &&& place.contains_key(t.dest)
            &&& place[t.dest] is File
            &&& place.insert(t.dest, extended(place[t.dest], to_come(v, f))) == built(
                v,
                deeds,
                start,
            )
        },
        _ => place == built(v, deeds, start),
    }
}

/// Where the caller does as it is asked, and nobody cancels, what stands where keeps up with
/// the deeds of an extraction: every file is filled with the contents of its inode.
#[verifier::rlimit(40)]
pub proof fn law_steps_fill_the_files(
    v: VolumeView,
    w: VolumeView,
    st: ExtractionView,
    prog: ProgressView,
    deeds: Seq<Deed>,
    start: Place,
    place: Place,
)
    requires
        v.wf(),
        v.grows_to(w),
        !st.awaits(),
        keeps_up(w, st, deeds, start, place),
    ensures
        st.stepped(v, false, prog) matches Ok(next) ==> keeps_up(
            w,
            next.0,
            deeds_after(next.0, next.2, deeds),
            start,
            carried_out(w, next.0, next.2, place),
        ),
{
    if let Ok(next) = st.stepped(v, false, prog) {
        let after = deeds_after(next.0, next.2, deeds);
        if after.len() == deeds.len() + 1 {
            assert(after.drop_last() =~= deeds);
        }
        if let PhaseView::Write(t, f) = st.phase {
            law_write_hands_over_its_data(v, w, f);
            if f.stage is Start {
                let all = pieces_from(w, f.inode, 0);
                assert(Seq::<u8>::empty() + all =~= all);
                let begun = place.insert(t.dest, Made::File(Seq::empty()));
                assert(begun.insert(t.dest, Made::File(all)) =~= place.insert(
                    t.dest,
                    Made::File(all),
                ));
            } else if let Made::File(before) = place[t.dest] {
                let left = to_come(w, f);
                if left.len() == 0 {
                    assert(before + left =~= before);
                    assert(place.insert(t.dest, Made::File(before)) =~= place);
                    assert(before + Seq::<u8>::empty() =~= before);
                }
                if let RequestView::Append(piece) = next.2 {
                    if let PhaseView::Write(_, f1) = next.0.phase {
                        let here = piece_contents(w, piece);
                        let rest = to_come(w, f1);
                        let filled = place.insert(t.dest, Made::File(before + here));
                        assert(before + here + rest =~= before + (here + rest));
                        assert(filled.insert(t.dest, Made::File(before + left))
                            =~= place.insert(t.dest, Made::File(before + left)));
                    }
                }
            }
        }
    }
}

/// The caller's report that it did as asked keeps what stands where in step, and a finished
/// extraction leaves what its deeds leave.
pub proof fn law_success_fills_the_files(
    w: VolumeView,
    st: ExtractionView,
    prog: ProgressView,
    deeds: Seq<Deed>,
    start: Place,
    place: Place,
)
    requires
        keeps_up(w, st, deeds, start, place),
    ensures
        st.awaits() ==> keeps_up(w, st.answered(Ok(()), prog).0, deeds, start, place),
        st.phase is Next ==> place == built(w, deeds, start),
{
}

/// Whether no symbolic link is met on a walk of `t` and everything below it.
pub open spec fn link_free(v: VolumeView, t: TaskView) -> bool
    decreases MAX_TREE_DEPTH + 1 - t.depth, 0int,
{
    t.depth <= MAX_TREE_DEPTH ==> match inode_at(v, t.ino) {
        Err(_) => true,
        Ok(inode) => if inode.is_dir() {
            match dir_listing(v, inode) {
                Err(_) => true,
                Ok(entries) => forest_link_free(v, t, entries, 0),
            }
        } else {
            !inode.is_symlink()
        },
    }
}

/// The same of the entries of the directory of `t`, from the `i`-th on.
pub open spec fn forest_link_free(
    v: VolumeView,
    t: TaskView,
    entries: Seq<DirEntryView>,
    i: int,
) -> bool
    decreases MAX_TREE_DEPTH - t.depth, 1 + entries.len() - i,
{
    if i >= entries.len() || i < 0 || t.depth > MAX_TREE_DEPTH {
        true
    } else {
        (is_dot(entries[i].name) || link_free(v, child_task(t, entries[i]))) && forest_link_free(
            v,
            t,
            entries,
            i + 1,
        )
    }
}

/// The bytes of the files among the deeds.
pub open spec fn deed_bytes(deeds: Seq<Deed>) -> int
    decreases deeds.len(),
{
    if deeds.len() == 0 {
        0
    } else {
        deed_bytes(deeds.drop_last()) + match deeds.last() {
            Deed::Dir(_) => 0,
            Deed::File(_, inode) => inode.size as int,
        }
    }
}

/// How much a copy has taken up and made, as a count puts it.
pub open spec fn amount(tr: Trace) -> Tally {
    Tally { items: tr.ticks, bytes: deed_bytes(tr.deeds), sizes: true }
}

/// Where there are no symbolic links, a count tells beforehand how many items a copy takes
/// up, and how many bytes the files have that it makes.
#[verifier::rlimit(40)]
pub proof fn law_count_foretells_copy(v: VolumeView, t: TaskView, tr: Trace)
    requires
        link_free(v, t),
        tree_count(v, t.ino, t.depth as int, amount(tr)) is Ok,
        tree_trace(v, t, tr) is Ok,
    ensures
        amount(tree_trace(v, t, tr)->Ok_0) == tree_count(
            v,
            t.ino,
            t.depth as int,
            amount(tr),
        )->Ok_0,
    decreases MAX_TREE_DEPTH + 1 - t.depth, 0int,
{
    let begun = match t.warning {
        None => tr,
        Some(text) => tr.error(text),
    };
    let up = begun.tick();
    if t.depth <= MAX_TREE_DEPTH {
        if let Ok(inode) = inode_at(v, t.ino) {
            let dir = Deed::Dir(t.dest);
            let file = Deed::File(t.dest, inode);
            assert(up.deeds.push(dir).drop_last() =~= up.deeds);
            assert(up.deeds.push(file).drop_last() =~= up.deeds);
            if inode.is_dir() {
                if let Ok(entries) = dir_listing(v, inode) {
                    lemma_count_foretells_forest(v, t, entries, 0, up.deed(dir));
                }
            }
        }
    }
}

proof fn lemma_count_foretells_forest(
    v: VolumeView,
    t: TaskView,
    entries: Seq<DirEntryView>,
    i: int,
    tr: Trace,
)
    requires
        forest_link_free(v, t, entries, i),
        t.depth <= MAX_TREE_DEPTH,
        0 <= i,
        forest_count(v, entries, i, t.depth + 1, amount(tr)) is Ok,
        forest_trace(v, t, entries, i, tr) is Ok,
    ensures
        amount(forest_trace(v, t, entries, i, tr)->Ok_0) == forest_count(
            v,
            entries,
            i,
            t.depth + 1,
            amount(tr),
        )->Ok_0,
    decreases MAX_TREE_DEPTH - t.depth, 1 + entries.len() - i,
{
    if i < entries.len() {
        if is_dot(entries[i].name) {
            lemma_count_foretells_forest(v, t, entries, i + 1, tr);
        } else {
            let c = child_task(t, entries[i]);
            law_count_foretells_copy(v, c, tr);
            let more = tree_trace(v, c, tr)->Ok_0;
            lemma_count_foretells_forest(v, t, entries, i + 1, more);
        }
    }
}

/// The job that makes the same thing as a deed.
pub open spec fn job_for(d: Deed) -> JobView {
    match d {
        Deed::Dir(dest) => JobView::Dir(dest),
        Deed::File(dest, inode) => JobView::File(inode.ino, dest),
    }
}

pub open spec fn jobs_for(deeds: Seq<Deed>) -> Seq<JobView> {
    deeds.map_values(|d: Deed| job_for(d))
}

/// Whether every symbolic link that leads somewhere, on a walk of `t` and everything below it,
/// leads to an inode that can be read and is no link itself. A link to a file must not lie so
/// deep that what it leads to is out of bounds.
pub open spec fn plain_links(v: VolumeView, t: TaskView) -> bool
    decreases MAX_TREE_DEPTH + 1 - t.depth, 0int,
{
    t.depth <= MAX_TREE_DEPTH ==> match inode_at(v, t.ino) {
        Err(_) => true,
        Ok(inode) => if inode.is_dir() {
            match dir_listing(v, inode) {
                Err(_) => true,
                Ok(entries) => forest_plain_links(v, t, entries, 0),
            }
        } else if inode.is_symlink() {
            follow_link(v, t.path, inode) matches Ok(LinkEnd::Leads(ino)) ==> match inode_at(
                v,
                ino,
            ) {
                Err(_) => false,
                Ok(found) => if found.is_dir() {
                    plain_links(v, task_behind(t, ino))
                } else {
                    !found.is_symlink() && t.depth < MAX_TREE_DEPTH
                },
            }
        } else {
            true
        },
    }
}

/// The same of the entries of the directory of `t`, from the `i`-th on.
pub open spec fn forest_plain_links(
    v: VolumeView,
    t: TaskView,
    entries: Seq<DirEntryView>,
    i: int,
) -> bool
    decreases MAX_TREE_DEPTH - t.depth, 1 + entries.len() - i,
{
    if i >= entries.len() || i < 0 || t.depth > MAX_TREE_DEPTH {
        true
    } else {
        (is_dot(entries[i].name) || plain_links(v, child_task(t, entries[i])))
            && forest_plain_links(v, t, entries, i + 1)
    }
}

/// Where links lead to plain files and directories, a plan for several workers lists exactly
/// what a copy in turn makes, in the same order: the same directories, and at the same places
/// files for the contents of the same inodes. It reports nothing that the copy does not.
#[verifier::rlimit(60)]
pub proof fn law_plan_lists_the_copy(v: VolumeView, t: TaskView, tr: Trace, plan: Plan)
    requires
        plain_links(v, t),
        plan.jobs == jobs_for(tr.deeds),
        tree_trace(v, t, tr) is Ok,
    ensures
        tree_plan(v, t, plan) matches Ok(p) && p.jobs == jobs_for(
            tree_trace(v, t, tr)->Ok_0.deeds,
        ) && p.errors.len() + tr.errors.len() <= tree_trace(v, t, tr)->Ok_0.errors.len()
            + plan.errors.len(),
    decreases MAX_TREE_DEPTH + 1 - t.depth, 0int,
{
    let begun = match t.warning {
        None => tr,
        Some(text) => tr.error(text),
    };
    let up = begun.tick();
    if t.depth <= MAX_TREE_DEPTH {
        if let Ok(inode) = inode_at(v, t.ino) {
            let dir = Deed::Dir(t.dest);
            lemma_jobs_push(up.deeds, dir);
            lemma_jobs_push(up.deeds, Deed::File(t.dest, inode));
            if inode.is_dir() {
                if let Ok(entries) = dir_listing(v, inode) {
                    let made = plan.warned(t).job(JobView::Dir(t.dest));
                    lemma_plan_lists_forest(v, t, entries, 0, up.deed(dir), made);
                }
            } else if inode.is_symlink() {
                if let Ok(LinkEnd::Leads(ino)) = follow_link(v, t.path, inode) {
                    let behind = task_behind(t, ino);
                    if let Ok(found) = inode_at(v, ino) {
                        if found.is_dir() {
                            law_plan_lists_the_copy(v, behind, up, plan.warned(t));
                        } else {
                            lemma_jobs_push(up.deeds, Deed::File(t.dest, found));
                            reveal_with_fuel(tree_trace, 2);
                            reveal_with_fuel(item_trace, 2);
                        }
                    }
                }
            }
        }
    }
}

proof fn lemma_jobs_push(deeds: Seq<Deed>, d: Deed)
    ensures
        jobs_for(deeds.push(d)) == jobs_for(deeds).push(job_for(d)),
{
    assert(jobs_for(deeds.push(d)) =~= jobs_for(deeds).push(job_for(d)));
}

proof fn lemma_plan_lists_forest(
    v: VolumeView,
    t: TaskView,
    entries: Seq<DirEntryView>,
    i: int,
    tr: Trace,
    plan: Plan,
)
    requires
        forest_plain_links(v, t, entries, i),
        t.depth <= MAX_TREE_DEPTH,
        0 <= i,
        plan.jobs == jobs_for(tr.deeds),
        forest_trace(v, t, entries, i, tr) is Ok,
    ensures
        forest_plan(v, t, entries, i, plan) matches Ok(p) && p.jobs == jobs_for(
            forest_trace(v, t, entries, i, tr)->Ok_0.deeds,
        ) && p.errors.len() + tr.errors.len() <= forest_trace(
            v,
            t,
            entries,
            i,
            tr,
        )->Ok_0.errors.len() + plan.errors.len(),
    decreases MAX_TREE_DEPTH - t.depth, 1 + entries.len() - i,
{
    if i < entries.len() {
        if is_dot(entries[i].name) {
            lemma_plan_lists_forest(v, t, entries, i + 1, tr, plan);
        } else {
            let c = child_task(t, entries[i]);
            law_plan_lists_the_copy(v, c, tr, plan);
            let more = tree_trace(v, c, tr)->Ok_0;
            let planned = tree_plan(v, c, plan)->Ok_0;
            lemma_plan_lists_forest(v, t, entries, i + 1, more, planned);
        }
    }
}

/// Whether every file that was made is for the contents of its inode as the volume has it,
/// and where nothing was reported, none that cannot be read.
pub open spec fn true_to(v: VolumeView, tr: Trace) -> bool {
    forall|i: int|
        0 <= i < tr.deeds.len() ==> (#[trigger] tr.deeds[i] matches Deed::File(_, inode) ==> {
            &&& inode_at(v, inode.ino) == Ok::<_, Fault>(inode)
            &&& tr.errors.len() == 0 ==> read_failure(v, inode, 0) == Ok::<_, Fault>(
                None::<Seq<char>>,
            )
        })
}

/// A copy keeps to what the volume has, and takes back no report.
#[verifier::rlimit(60)]
pub proof fn law_copy_is_true_to_the_volume(v: VolumeView, t: TaskView, tr: Trace)
    requires
        true_to(v, tr),
        tree_trace(v, t, tr) is Ok,
    ensures
        true_to(v, tree_trace(v, t, tr)->Ok_0),
        tr.errors.len() <= tree_trace(v, t, tr)->Ok_0.errors.len(),
    decreases MAX_TREE_DEPTH + 1 - t.depth, 1int,
{
    let begun = match t.warning {
        None => tr,
        Some(text) => tr.error(text),
    };
    if t.depth <= MAX_TREE_DEPTH {
        lemma_item_true(v, t, begun.tick());
    }
}

#[verifier::rlimit(60)]
proof fn lemma_item_true(v: VolumeView, t: TaskView, tr: Trace)
    requires
        true_to(v, tr),
        item_trace(v, t, tr) is Ok,
    ensures
        true_to(v, item_trace(v, t, tr)->Ok_0),
        tr.errors.len() <= item_trace(v, t, tr)->Ok_0.errors.len(),
    decreases MAX_TREE_DEPTH + 1 - t.depth, 0int,
{
    if let Ok(inode) = inode_at(v, t.ino) {
        if t.depth <= MAX_TREE_DEPTH {
            if inode.is_dir() {
                if let Ok(entries) = dir_listing(v, inode) {
                    lemma_forest_true(v, t, entries, 0, tr.deed(Deed::Dir(t.dest)));
                }
            } else if inode.is_symlink() {
                if let Ok(LinkEnd::Leads(ino)) = follow_link(v, t.path, inode) {
                    law_copy_is_true_to_the_volume(v, task_behind(t, ino), tr);
                }
            }
        }
    }
}

proof fn lemma_forest_true(
    v: VolumeView,
    t: TaskView,
    entries: Seq<DirEntryView>,
    i: int,
    tr: Trace,
)
    requires
        true_to(v, tr),
        t.depth <= MAX_TREE_DEPTH,
        0 <= i,
        forest_trace(v, t, entries, i, tr) is Ok,
    ensures
        true_to(v, forest_trace(v, t, entries, i, tr)->Ok_0),
        tr.errors.len() <= forest_trace(v, t, entries, i, tr)->Ok_0.errors.len(),
    decreases MAX_TREE_DEPTH - t.depth, 2 + entries.len() - i,
{
    if i < entries.len() {
        if is_dot(entries[i].name) {
            lemma_forest_true(v, t, entries, i + 1, tr);
        } else {
            let c = child_task(t, entries[i]);
            law_copy_is_true_to_the_volume(v, c, tr);
            lemma_forest_true(v, t, entries, i + 1, tree_trace(v, c, tr)->Ok_0);
        }
    }
}

} // verus!
