//! What the parts of a copy do, one by one: what is planned and what is made for each kind of
//! item, how a file is written, and what failures and cancelling come to.

use crate::count::proper;
use crate::data::{piece_at, read_failure};
use crate::dir::{dir_listing, DirEntryView};
use crate::error::{fault_text, Fault, Outcome};
use crate::extract::{ExtractionView, PhaseView, RequestView};
use crate::filewrite::{new_write, FileRequestView, Stage, WriteView};
use crate::inode::InodeView;
use crate::jobs::{JobPhaseView, JobRequestView, JobRunView};
use crate::ondisk::law_kinds_of_files;
use crate::plan::{forest_plan, tree_plan, unwound, ItemView, JobView, Plan, WalkView};
use crate::progress::ProgressView;
use crate::seqs::lemma_filter_from;
use crate::tasks::{
    child_task, child_tasks, follow_link, law_children_in_order, task_behind, LinkEnd, TaskView,
};
use crate::trace::{forest_trace, tree_trace, Deed, Trace};
use crate::volume::{inode_at, VolumeView};
use vstd::prelude::*;
use vstd::string::*;

verus! {

/// The reports with the warning that goes with taking up `t`.
pub open spec fn with_warning(errors: Seq<Seq<char>>, t: TaskView) -> Seq<Seq<char>> {
    if t.warning is Some {
        errors.push(t.warning->Some_0)
    } else {
        errors
    }
}

/// For a file one job is planned: to write its inode to its destination.
pub proof fn law_plan_of_a_file(v: VolumeView, t: TaskView, plan: Plan, n: InodeView)
    requires
        t.depth <= 64,
        inode_at(v, t.ino) == Ok::<_, Fault>(n),
        n.mode / 0x1000 != 4,
        n.mode / 0x1000 != 10,
    ensures
        tree_plan(v, t, plan) == Ok::<_, Fault>(
            Plan {
                jobs: plan.jobs.push(JobView::File(t.ino, t.dest)),
                errors: with_warning(plan.errors, t),
            },
        ),
{
    law_kinds_of_files(n);
}

#[verifier::opaque]
spec fn planned(v: VolumeView, t: TaskView, plan: Plan) -> Outcome<Plan> {
    tree_plan(v, t, plan)
}

proof fn lemma_forest_plan_step(
    v: VolumeView,
    t: TaskView,
    entries: Seq<DirEntryView>,
    i: int,
    plan: Plan,
)
    requires
        0 <= i < entries.len(),
        t.depth <= 64,
    ensures
        forest_plan(v, t, entries, i, plan) == if entries[i].name == seq!['.'] || entries[i].name
            == seq!['.', '.'] {
            forest_plan(v, t, entries, i + 1, plan)
        } else {
            match planned(v, child_task(t, entries[i]), plan) {
                Err(e) => Err(e),
                Ok(more) => forest_plan(v, t, entries, i + 1, more),
            }
        },
{
    reveal(planned);
    reveal_strlit(".");
    reveal_strlit("..");
    assert("."@ =~= seq!['.']);
    assert(".."@ =~= seq!['.', '.']);
}

proof fn lemma_forest_plan(
    v: VolumeView,
    t: TaskView,
    entries: Seq<DirEntryView>,
    i: int,
    plans: Seq<Plan>,
)
    requires
        0 <= i <= entries.len(),
        t.depth <= 64,
        ({
            let kept = proper(entries.skip(i));
            &&& plans.len() == kept.len() + 1
            &&& forall|k: int|
                0 <= k < kept.len() ==> planned(v, child_task(t, #[trigger] kept[k]), plans[k])
                    == Ok::<_, Fault>(plans[k + 1])
        }),
    ensures
        forest_plan(v, t, entries, i, plans[0]) == Ok::<_, Fault>(plans.last()),
    decreases entries.len() - i,
{
    let pred = |e: DirEntryView| !(e.name == seq!['.'] || e.name == seq!['.', '.']);
    lemma_filter_from(entries, i, pred);
    if i < entries.len() {
        lemma_forest_plan_step(v, t, entries, i, plans[0]);
        let kept = proper(entries.skip(i));
        let rest = proper(entries.skip(i + 1));
        if pred(entries[i]) {
            assert(kept[0] == entries[i]);
            let later = plans.skip(1);
            assert forall|k: int| 0 <= k < rest.len() implies planned(
                v,
                child_task(t, #[trigger] rest[k]),
                later[k],
            ) == Ok::<_, Fault>(later[k + 1]) by {
                assert(kept[k + 1] == rest[k]);
            }
            lemma_forest_plan(v, t, entries, i + 1, later);
        } else {
            lemma_forest_plan(v, t, entries, i + 1, plans);
        }
    } else {
        assert(forest_plan(v, t, entries, i, plans[0]) == Ok::<_, Fault>(plans[0]));
    }
}

/// For a directory the job to make it comes first, and then the jobs for each of its entries, in
/// their order; `plans` are the plans after each of them.
pub proof fn law_plan_of_a_directory(
    v: VolumeView,
    t: TaskView,
    plan: Plan,
    n: InodeView,
    plans: Seq<Plan>,
)
    requires
        t.depth <= 64,
        inode_at(v, t.ino) == Ok::<_, Fault>(n),
        n.mode / 0x1000 == 4,
        dir_listing(v, n) is Ok,
        ({
            let kept = proper(dir_listing(v, n)->Ok_0);
            &&& plans.len() == kept.len() + 1
            &&& plans[0] == (Plan {
                jobs: plan.jobs.push(JobView::Dir(t.dest)),
                errors: with_warning(plan.errors, t),
            })
            &&& forall|k: int|
                0 <= k < kept.len() ==> tree_plan(v, child_task(t, #[trigger] kept[k]), plans[k])
                    == Ok::<_, Fault>(plans[k + 1])
        }),
    ensures
        tree_plan(v, t, plan) == Ok::<_, Fault>(plans.last()),
{
    law_kinds_of_files(n);
    let entries = dir_listing(v, n)->Ok_0;
    let kept = proper(entries);
    assert forall|k: int| 0 <= k < kept.len() implies planned(
        v,
        child_task(t, #[trigger] kept[k]),
        plans[k],
    ) == Ok::<_, Fault>(plans[k + 1]) by {
        reveal(planned);
    }
    assert(entries.skip(0) =~= entries);
    lemma_forest_plan(v, t, entries, 0, plans);
}

/// For a symbolic link what it leads to is planned, in its place: a directory with all below it,
/// and anything else as a file.
pub proof fn law_plan_of_a_link(
    v: VolumeView,
    t: TaskView,
    plan: Plan,
    n: InodeView,
    ino: u32,
    found: InodeView,
)
    requires
        t.depth <= 64,
        inode_at(v, t.ino) == Ok::<_, Fault>(n),
        n.mode / 0x1000 == 10,
        follow_link(v, t.path, n) == Ok::<_, Fault>(LinkEnd::Leads(ino)),
        inode_at(v, ino) == Ok::<_, Fault>(found),
    ensures
        found.mode / 0x1000 == 4 ==> tree_plan(v, t, plan) == tree_plan(
            v,
            task_behind(t, ino),
            Plan { jobs: plan.jobs, errors: with_warning(plan.errors, t) },
        ),
        found.mode / 0x1000 != 4 ==> tree_plan(v, t, plan) == Ok::<_, Fault>(
            Plan {
                jobs: plan.jobs.push(JobView::File(ino, t.dest)),
                errors: with_warning(plan.errors, t),
            },
        ),
{
    law_kinds_of_files(n);
    law_kinds_of_files(found);
}

/// What cannot be planned is reported, and nothing else is lost by it: what lies more than 64
/// levels down, what cannot be read, links that lead nowhere, and directories that cannot be
/// listed, which are made all the same.
pub proof fn law_reports_of_a_plan(v: VolumeView, t: TaskView, plan: Plan)
    ensures
        ({
            let warned = with_warning(plan.errors, t);
            &&& t.depth > 64 ==> tree_plan(v, t, plan) == Ok::<_, Fault>(
                Plan {
                    jobs: plan.jobs,
                    errors: warned.push("max depth exceeded at "@ + t.path + " (symlink loop?)"@),
                },
            )
            &&& t.depth <= 64 ==> match inode_at(v, t.ino) {
                Err(Fault::Pending(p)) => tree_plan(v, t, plan) == Err::<Plan, _>(Fault::Pending(p)),
                Err(f) => tree_plan(v, t, plan) == Ok::<_, Fault>(
                    Plan {
                        jobs: plan.jobs,
                        errors: warned.push(t.path + ": "@ + fault_text(f)),
                    },
                ),
                Ok(n) => {
                    &&& n.mode / 0x1000 == 4 ==> match dir_listing(v, n) {
                        Err(Fault::Pending(p)) => tree_plan(v, t, plan) == Err::<Plan, _>(
                            Fault::Pending(p),
                        ),
                        Err(f) => tree_plan(v, t, plan) == Ok::<_, Fault>(
                            Plan {
                                jobs: plan.jobs.push(JobView::Dir(t.dest)),
                                errors: warned.push(t.path + ": "@ + fault_text(f)),
                            },
                        ),
                        Ok(_) => true,
                    }
                    &&& n.mode / 0x1000 == 10 ==> match follow_link(v, t.path, n) {
                        Err(Fault::Pending(p)) => tree_plan(v, t, plan) == Err::<Plan, _>(
                            Fault::Pending(p),
                        ),
                        Err(f) => tree_plan(v, t, plan) == Ok::<_, Fault>(
                            Plan {
                                jobs: plan.jobs,
                                errors: warned.push(t.path + ": "@ + fault_text(f)),
                            },
                        ),
                        Ok(LinkEnd::Broken(text)) => tree_plan(v, t, plan) == Ok::<_, Fault>(
                            Plan { jobs: plan.jobs, errors: warned.push(text) },
                        ),
                        Ok(LinkEnd::Leads(ino)) => inode_at(v, ino) is Err && !(inode_at(v, ino)
                            ->Err_0 is Pending) ==> tree_plan(v, t, plan) == Ok::<_, Fault>(
                            Plan {
                                jobs: plan.jobs.push(JobView::File(ino, t.dest)),
                                errors: warned,
                            },
                        ),
                    }
                },
            }
        }),
{
    if let Ok(n) = inode_at(v, t.ino) {
        law_kinds_of_files(n);
    }
}

/// A cancelled walk leaves what waits behind the innermost link that is being followed, and
/// nothing if none is. `k` is the place of that link.
pub proof fn law_unwinding(stack: Seq<ItemView>, k: int)
    requires
        -1 <= k < stack.len(),
        k >= 0 ==> stack[k] is LinkDone,
        forall|i: int| k < i < stack.len() ==> #[trigger] stack[i] is Visit,
    ensures
        unwound(stack) == if k < 0 {
            Seq::<ItemView>::empty()
        } else {
            stack.take(k)
        },
    decreases stack.len(),
{
    if stack.len() == 0 {
        assert(stack =~= Seq::empty());
    } else if k == stack.len() - 1 {
        assert(stack.drop_last() =~= stack.take(k));
    } else {
        assert(stack[stack.len() - 1] is Visit);
        let rest = stack.drop_last();
        assert forall|i: int| k < i < rest.len() implies #[trigger] rest[i] is Visit by {
            assert(stack[i] is Visit);
        }
        law_unwinding(rest, k);
        if k >= 0 {
            assert(rest.take(k) =~= stack.take(k));
        }
    }
}

/// A step of a walk that is cancelled reports the warning of the item on top of the stack, and
/// unwinds.
pub proof fn law_cancelled_walk(v: VolumeView, st: WalkView, t: TaskView)
    requires
        st.stack.len() > 0,
        st.stack.last() == ItemView::Visit(t),
    ensures
        st.stepped(v, true) == Ok::<_, Fault>(
            WalkView {
                stack: unwound(st.stack.drop_last()),
                plan: Plan { jobs: st.plan.jobs, errors: with_warning(st.plan.errors, t) },
            },
        ),
{
}

/// The reports and the count of items once `t` has been taken up.
pub open spec fn taken(tr: Trace, t: TaskView) -> Trace {
    Trace { deeds: tr.deeds, errors: with_warning(tr.errors, t), ticks: tr.ticks + 1 }
}

/// The copy of a file makes a file at its destination; a failure to read it is reported.
pub proof fn law_copy_of_a_file(v: VolumeView, t: TaskView, tr: Trace, n: InodeView)
    requires
        t.depth <= 64,
        inode_at(v, t.ino) == Ok::<_, Fault>(n),
        n.mode / 0x1000 != 4,
        n.mode / 0x1000 != 10,
    ensures
        ({
            let up = taken(tr, t);
            let made = Trace { deeds: up.deeds.push(Deed::File(t.dest, n)), ..up };
            match read_failure(v, n, 0) {
                Err(f) => tree_trace(v, t, tr) == Err::<Trace, _>(f),
                Ok(None) => tree_trace(v, t, tr) == Ok::<_, Fault>(made),
                Ok(Some(text)) => tree_trace(v, t, tr) == Ok::<_, Fault>(
                    Trace { errors: made.errors.push(t.path + ": "@ + text), ..made },
                ),
            }
        }),
{
    law_kinds_of_files(n);
}

#[verifier::opaque]
spec fn traced(v: VolumeView, t: TaskView, tr: Trace) -> Outcome<Trace> {
    tree_trace(v, t, tr)
}

proof fn lemma_forest_trace_step(
    v: VolumeView,
    t: TaskView,
    entries: Seq<DirEntryView>,
    i: int,
    tr: Trace,
)
    requires
        0 <= i < entries.len(),
        t.depth <= 64,
    ensures
        forest_trace(v, t, entries, i, tr) == if entries[i].name == seq!['.'] || entries[i].name
            == seq!['.', '.'] {
            forest_trace(v, t, entries, i + 1, tr)
        } else {
            match traced(v, child_task(t, entries[i]), tr) {
                Err(e) => Err(e),
                Ok(more) => forest_trace(v, t, entries, i + 1, more),
            }
        },
{
    reveal(traced);
    reveal_strlit(".");
    reveal_strlit("..");
    assert("."@ =~= seq!['.']);
    assert(".."@ =~= seq!['.', '.']);
}

proof fn lemma_forest_trace(
    v: VolumeView,
    t: TaskView,
    entries: Seq<DirEntryView>,
    i: int,
    traces: Seq<Trace>,
)
    requires
        0 <= i <= entries.len(),
        t.depth <= 64,
        ({
            let kept = proper(entries.skip(i));
            &&& traces.len() == kept.len() + 1
            &&& forall|k: int|
                0 <= k < kept.len() ==> traced(v, child_task(t, #[trigger] kept[k]), traces[k])
                    == Ok::<_, Fault>(traces[k + 1])
        }),
    ensures
        forest_trace(v, t, entries, i, traces[0]) == Ok::<_, Fault>(traces.last()),
    decreases entries.len() - i,
{
    let pred = |e: DirEntryView| !(e.name == seq!['.'] || e.name == seq!['.', '.']);
    lemma_filter_from(entries, i, pred);
    if i < entries.len() {
        lemma_forest_trace_step(v, t, entries, i, traces[0]);
        let kept = proper(entries.skip(i));
        let rest = proper(entries.skip(i + 1));
        if pred(entries[i]) {
            assert(kept[0] == entries[i]);
            let later = traces.skip(1);
            assert forall|k: int| 0 <= k < rest.len() implies traced(
                v,
                child_task(t, #[trigger] rest[k]),
                later[k],
            ) == Ok::<_, Fault>(later[k + 1]) by {
                assert(kept[k + 1] == rest[k]);
            }
            lemma_forest_trace(v, t, entries, i + 1, later);
        } else {
            lemma_forest_trace(v, t, entries, i + 1, traces);
        }
    } else {
        assert(forest_trace(v, t, entries, i, traces[0]) == Ok::<_, Fault>(traces[0]));
    }
}

/// The copy of a directory makes the directory, and then the copies of its entries, in their
/// order; `traces` are what there is after each of them.
pub proof fn law_copy_of_a_directory(
    v: VolumeView,
    t: TaskView,
    tr: Trace,
    n: InodeView,
    traces: Seq<Trace>,
)
    requires
        t.depth <= 64,
        inode_at(v, t.ino) == Ok::<_, Fault>(n),
        n.mode / 0x1000 == 4,
        dir_listing(v, n) is Ok,
        ({
            let kept = proper(dir_listing(v, n)->Ok_0);
            let up = taken(tr, t);
            &&& traces.len() == kept.len() + 1
            &&& traces[0] == (Trace { deeds: up.deeds.push(Deed::Dir(t.dest)), ..up })
            &&& forall|k: int|
                0 <= k < kept.len() ==> tree_trace(v, child_task(t, #[trigger] kept[k]), traces[k])
                    == Ok::<_, Fault>(traces[k + 1])
        }),
    ensures
        tree_trace(v, t, tr) == Ok::<_, Fault>(traces.last()),
{
    law_kinds_of_files(n);
    let entries = dir_listing(v, n)->Ok_0;
    let kept = proper(entries);
    assert forall|k: int| 0 <= k < kept.len() implies traced(
        v,
        child_task(t, #[trigger] kept[k]),
        traces[k],
    ) == Ok::<_, Fault>(traces[k + 1]) by {
        reveal(traced);
    }
    assert(entries.skip(0) =~= entries);
    lemma_forest_trace(v, t, entries, 0, traces);
}

/// The copy of a symbolic link is the copy of what it leads to, in its place.
pub proof fn law_copy_of_a_link(v: VolumeView, t: TaskView, tr: Trace, n: InodeView, ino: u32)
    requires
        t.depth <= 64,
        inode_at(v, t.ino) == Ok::<_, Fault>(n),
        n.mode / 0x1000 == 10,
        follow_link(v, t.path, n) == Ok::<_, Fault>(LinkEnd::Leads(ino)),
    ensures
        tree_trace(v, t, tr) == tree_trace(v, task_behind(t, ino), taken(tr, t)),
{
    law_kinds_of_files(n);
    reveal_with_fuel(tree_trace, 2);
}

/// What cannot be copied is reported, and nothing else is lost by it.
pub proof fn law_reports_of_a_copy(v: VolumeView, t: TaskView, tr: Trace)
    ensures
        ({
            let up = taken(tr, t);
            &&& t.depth > 64 ==> tree_trace(v, t, tr) == Ok::<_, Fault>(
                Trace {
                    deeds: tr.deeds,
                    errors: with_warning(tr.errors, t).push(
                        "max depth exceeded at "@ + t.path + " (symlink loop?)"@,
                    ),
                    ticks: tr.ticks,
                },
            )
            &&& t.depth <= 64 ==> match inode_at(v, t.ino) {
                Err(Fault::Pending(p)) => tree_trace(v, t, tr) == Err::<Trace, _>(Fault::Pending(p)),
                Err(f) => tree_trace(v, t, tr) == Ok::<_, Fault>(
                    Trace { errors: up.errors.push(t.path + ": "@ + fault_text(f)), ..up },
                ),
                Ok(n) => {
                    &&& n.mode / 0x1000 == 4 ==> match dir_listing(v, n) {
                        Err(Fault::Pending(p)) => tree_trace(v, t, tr) == Err::<Trace, _>(
                            Fault::Pending(p),
                        ),
                        Err(f) => tree_trace(v, t, tr) == Ok::<_, Fault>(
                            Trace {
                                deeds: up.deeds.push(Deed::Dir(t.dest)),
                                errors: up.errors.push(t.path + ": "@ + fault_text(f)),
                                ticks: up.ticks,
                            },
                        ),
                        Ok(_) => true,
                    }
                    &&& n.mode / 0x1000 == 10 ==> match follow_link(v, t.path, n) {
                        Err(Fault::Pending(p)) => tree_trace(v, t, tr) == Err::<Trace, _>(
                            Fault::Pending(p),
                        ),
                        Err(f) => tree_trace(v, t, tr) == Ok::<_, Fault>(
                            Trace { errors: up.errors.push(t.path + ": "@ + fault_text(f)), ..up },
                        ),
                        Ok(LinkEnd::Broken(text)) => tree_trace(v, t, tr) == Ok::<_, Fault>(
                            Trace { errors: up.errors.push(text), ..up },
                        ),
                        Ok(LinkEnd::Leads(_)) => true,
                    }
                },
            }
        }),
{
    if let Ok(n) = inode_at(v, t.ino) {
        law_kinds_of_files(n);
    }
}

/// The item on top of the stack is taken up: its warning is reported, its path is shown and it
/// counts, unless the walk is cancelled or the item lies more than 64 levels down.
pub proof fn law_taking_up(v: VolumeView, st: ExtractionView, cancelled: bool, prog: ProgressView)
    requires
        st.phase is Next,
        st.stack.len() > 0,
    ensures
        ({
            let t = st.stack.last();
            let below = st.stack.drop_last();
            let warned = with_warning(st.errors, t);
            &&& cancelled ==> st.stepped(v, cancelled, prog) == Ok::<_, Fault>(
                (
                    ExtractionView { stack: below, errors: warned, phase: PhaseView::Cancelled },
                    prog,
                    RequestView::Finished(false),
                ),
            )
            &&& !cancelled && t.depth > 64 ==> st.stepped(v, cancelled, prog) == Ok::<_, Fault>(
                (
                    ExtractionView {
                        stack: below,
                        errors: warned.push(
                            "max depth exceeded at "@ + t.path + " (symlink loop?)"@,
                        ),
                        phase: PhaseView::Next,
                    },
                    prog,
                    RequestView::Proceed,
                ),
            )
            &&& !cancelled && t.depth <= 64 ==> st.stepped(v, cancelled, prog) == Ok::<_, Fault>(
                (
                    ExtractionView { stack: below, errors: warned, phase: PhaseView::Examine(t) },
                    prog.ticked(t.path),
                    RequestView::Proceed,
                ),
            )
        }),
{
}

/// A directory is asked for at its destination, and listed once it is there. Its entries are then
/// taken up in their order.
pub proof fn law_steps_of_a_directory(
    v: VolumeView,
    st: ExtractionView,
    cancelled: bool,
    prog: ProgressView,
    t: TaskView,
    n: InodeView,
)
    ensures
        st.phase == PhaseView::Examine(t) && inode_at(v, t.ino) == Ok::<_, Fault>(n) && n.mode
            / 0x1000 == 4 ==> st.stepped(v, cancelled, prog) == Ok::<_, Fault>(
            (
                ExtractionView { phase: PhaseView::MakingDir(t, n), ..st },
                prog,
                RequestView::MakeDir(t.dest),
            ),
        ),
        st.phase == PhaseView::MakingDir(t, n) ==> st.answered(Ok(()), prog) == (
            (ExtractionView { phase: PhaseView::List(t, n), ..st }),
            prog,
        ),
        st.phase == PhaseView::List(t, n) && dir_listing(v, n) is Ok ==> st.stepped(
            v,
            cancelled,
            prog,
        ) == Ok::<_, Fault>(
            (
                ExtractionView {
                    stack: st.stack + proper(dir_listing(v, n)->Ok_0).map_values(
                        |e: DirEntryView| child_task(t, e),
                    ).reverse(),
                    errors: st.errors,
                    phase: PhaseView::Next,
                },
                prog,
                RequestView::Proceed,
            ),
        ),
{
    law_kinds_of_files(n);
    if dir_listing(v, n) is Ok {
        law_children_in_order(t, dir_listing(v, n)->Ok_0);
        assert(proper(dir_listing(v, n)->Ok_0).map_values(|e: DirEntryView| child_task(t, e))
            == child_tasks(t, dir_listing(v, n)->Ok_0, 0));
    }
}

/// A file is written at its destination, and what a link leads to is taken up next.
pub proof fn law_steps_of_files_and_links(
    v: VolumeView,
    st: ExtractionView,
    cancelled: bool,
    prog: ProgressView,
    t: TaskView,
    n: InodeView,
)
    requires
        st.phase == PhaseView::Examine(t),
        inode_at(v, t.ino) == Ok::<_, Fault>(n),
    ensures
        n.mode / 0x1000 != 4 && n.mode / 0x1000 != 10 ==> st.stepped(v, cancelled, prog) == Ok::<
            _,
            Fault,
        >(
            (
                ExtractionView {
                    phase: PhaseView::Write(
                        t,
                        WriteView {
                            inode: n,
                            stage: Stage::Start,
                            created: false,
                            failure: None,
                        },
                    ),
                    ..st
                },
                prog,
                RequestView::Proceed,
            ),
        ),
        n.mode / 0x1000 == 10 && follow_link(v, t.path, n) is Ok && follow_link(v, t.path, n)
            ->Ok_0 is Leads ==> st.stepped(v, cancelled, prog) == Ok::<_, Fault>(
            (
                ExtractionView {
                    stack: st.stack.push(task_behind(t, follow_link(v, t.path, n)->Ok_0->Leads_0)),
                    errors: st.errors,
                    phase: PhaseView::Next,
                },
                prog,
                RequestView::Proceed,
            ),
        ),
        n.mode / 0x1000 == 10 && follow_link(v, t.path, n) is Ok && follow_link(v, t.path, n)
            ->Ok_0 is Broken ==> st.stepped(v, cancelled, prog) == Ok::<_, Fault>(
            (
                ExtractionView {
                    stack: st.stack,
                    errors: st.errors.push(follow_link(v, t.path, n)->Ok_0->Broken_0),
                    phase: PhaseView::Next,
                },
                prog,
                RequestView::Proceed,
            ),
        ),
{
    law_kinds_of_files(n);
}

/// What the writing of a file asks for goes to the destination of the file, and when it is over
/// the walk goes on, with a report if it failed.
pub proof fn law_steps_of_a_write(
    v: VolumeView,
    st: ExtractionView,
    cancelled: bool,
    prog: ProgressView,
    t: TaskView,
    w: WriteView,
)
    requires
        st.phase == PhaseView::Write(t, w),
        w.requested(v) is Ok,
    ensures
        ({
            let (next, request) = w.requested(v)->Ok_0;
            let on = ExtractionView { phase: PhaseView::Write(t, next), ..st };
            match request {
                FileRequestView::Create => st.stepped(v, cancelled, prog) == Ok::<_, Fault>(
                    (on, prog, RequestView::Create(t.dest)),
                ),
                FileRequestView::Append(piece) => st.stepped(v, cancelled, prog) == Ok::<_, Fault>(
                    (on, prog, RequestView::Append(piece)),
                ),
                FileRequestView::Flush => st.stepped(v, cancelled, prog) == Ok::<_, Fault>(
                    (on, prog, RequestView::Flush),
                ),
                FileRequestView::Finished => st.stepped(v, cancelled, prog) == Ok::<_, Fault>(
                    (
                        ExtractionView {
                            stack: st.stack,
                            errors: if next.failure is Some {
                                st.errors.push(t.path + ": "@ + next.failure->Some_0)
                            } else {
                                st.errors
                            },
                            phase: PhaseView::Next,
                        },
                        prog,
                        RequestView::Proceed,
                    ),
                ),
            }
        }),
{
}

/// A directory that cannot be made is reported, and nothing below it is copied. A file that has
/// been created counts its bytes; no other report changes the progress.
pub proof fn law_reports_to_a_walk(
    st: ExtractionView,
    r: std::result::Result<(), Seq<char>>,
    prog: ProgressView,
    t: TaskView,
    n: InodeView,
    w: WriteView,
)
    ensures
        st.phase == PhaseView::MakingDir(t, n) && r is Err ==> st.answered(r, prog) == (
            (ExtractionView {
                stack: st.stack,
                errors: st.errors.push(t.path + ": "@ + r->Err_0),
                phase: PhaseView::Next,
            }),
            prog,
        ),
        st.phase == PhaseView::Write(t, w) ==> st.answered(r, prog).0 == (ExtractionView {
            phase: PhaseView::Write(t, w.answered(r)),
            ..st
        }),
        st.phase == PhaseView::Write(t, w) && w.stage is Creating && r is Ok ==> st.answered(
            r,
            prog,
        ).1 == prog.with_bytes(w.inode.size),
        !(st.phase is Write && st.phase->Write_1.stage is Creating && r is Ok) ==> st.answered(
            r,
            prog,
        ).1 == prog,
{
}

/// A file is created first, then its pieces are appended from the first on, one after the other,
/// and when there are no more it is flushed.
pub proof fn law_order_of_a_write(v: VolumeView, n: InodeView, k: u64, w: WriteView)
    requires
        w.inode == n,
    ensures
        new_write(n).inode == n && new_write(n).stage is Start && !new_write(n).created
            && new_write(n).failure is None,
        w.stage is Start ==> w.requested(v) == Ok::<_, Fault>(
            (WriteView { stage: Stage::Creating, ..w }, FileRequestView::Create),
        ),
        w.stage is Creating ==> w.answered(Ok(())) == (WriteView {
            stage: Stage::Piece(0),
            created: true,
            ..w
        }),
        w.stage == Stage::Piece(k) ==> match piece_at(v, n, k) {
            Ok(Some(piece)) => k < u64::MAX ==> w.requested(v) == Ok::<_, Fault>(
                (
                    WriteView { stage: Stage::Appending((k + 1) as u64), ..w },
                    FileRequestView::Append(piece),
                ),
            ),
            Ok(None) => w.requested(v) == Ok::<_, Fault>(
                (WriteView { stage: Stage::Flushing, ..w }, FileRequestView::Flush),
            ),
            Err(Fault::Pending(p)) => w.requested(v) == Err::<(WriteView, FileRequestView), _>(
                Fault::Pending(p),
            ),
            Err(f) => w.requested(v) == Ok::<_, Fault>(
                (
                    WriteView { stage: Stage::Done, failure: Some(fault_text(f)), ..w },
                    FileRequestView::Finished,
                ),
            ),
        },
        w.stage == Stage::Appending(k) ==> w.answered(Ok(())) == (WriteView {
            stage: Stage::Piece(k),
            ..w
        }),
        w.stage is Flushing ==> w.answered(Ok(())) == (WriteView { stage: Stage::Done, ..w }),
        w.stage is Done ==> w.requested(v) == Ok::<_, Fault>((w, FileRequestView::Finished)),
{
}

/// A failed request ends the writing of a file; one to append is told as an error of input and
/// output.
pub proof fn law_failed_writes(w: WriteView, text: Seq<char>)
    requires
        w.stage is Creating || w.stage is Appending || w.stage is Flushing,
    ensures
        ({
            let after = w.answered(Err(text));
            &&& after.stage is Done
            &&& after.inode == w.inode
            &&& after.created == w.created
            &&& w.stage is Appending ==> after.failure == Some("I/O error: "@ + text)
            &&& !(w.stage is Appending) ==> after.failure == Some(text)
        }),
{
}

/// A job to make a directory asks for it; a job to write a file begins with its inode, and one
/// that nobody wants any more does nothing.
pub proof fn law_beginning_of_a_job(
    v: VolumeView,
    st: JobRunView,
    cancelled: bool,
    prog: ProgressView,
)
    requires
        st.phase is Begin,
    ensures
        cancelled ==> st.stepped(v, cancelled, prog) == Ok::<_, Fault>(
            (JobRunView { phase: JobPhaseView::Done, ..st }, prog, JobRequestView::Finished),
        ),
        !cancelled && st.job is Dir ==> st.stepped(v, cancelled, prog) == Ok::<_, Fault>(
            (JobRunView { phase: JobPhaseView::MakingDir, ..st }, prog, JobRequestView::MakeDir),
        ),
        !cancelled && st.job is File ==> match inode_at(v, st.job->File_0) {
            Ok(n) => st.stepped(v, cancelled, prog) == Ok::<_, Fault>(
                (
                    JobRunView {
                        phase: JobPhaseView::Write(
                            WriteView {
                                inode: n,
                                stage: Stage::Start,
                                created: false,
                                failure: None,
                            },
                        ),
                        ..st
                    },
                    prog,
                    JobRequestView::Proceed,
                ),
            ),
            Err(Fault::Pending(p)) => st.stepped(v, cancelled, prog) == Err::<
                (JobRunView, ProgressView, JobRequestView),
                _,
            >(Fault::Pending(p)),
            Err(f) => st.stepped(v, cancelled, prog) == Ok::<_, Fault>(
                (
                    JobRunView {
                        errors: st.errors.push(st.label + ": "@ + fault_text(f)),
                        phase: JobPhaseView::Done,
                        ..st
                    },
                    prog,
                    JobRequestView::Finished,
                ),
            ),
        },
{
}

/// What the writing of a file asks for, its job asks for; when the writing is over, a failure is
/// reported, and the job counts as done if the file could be created.
pub proof fn law_steps_of_a_job(
    v: VolumeView,
    st: JobRunView,
    cancelled: bool,
    prog: ProgressView,
    w: WriteView,
)
    requires
        st.phase == JobPhaseView::Write(w),
        w.requested(v) is Ok,
    ensures
        ({
            let (next, request) = w.requested(v)->Ok_0;
            let on = JobRunView { phase: JobPhaseView::Write(next), ..st };
            match request {
                FileRequestView::Create => st.stepped(v, cancelled, prog) == Ok::<_, Fault>(
                    (on, prog, JobRequestView::Create),
                ),
                FileRequestView::Append(piece) => st.stepped(v, cancelled, prog) == Ok::<_, Fault>(
                    (on, prog, JobRequestView::Append(piece)),
                ),
                FileRequestView::Flush => st.stepped(v, cancelled, prog) == Ok::<_, Fault>(
                    (on, prog, JobRequestView::Flush),
                ),
                FileRequestView::Finished => st.stepped(v, cancelled, prog) == Ok::<_, Fault>(
                    (
                        JobRunView {
                            errors: if next.failure is Some {
                                st.errors.push(st.label + ": "@ + next.failure->Some_0)
                            } else {
                                st.errors
                            },
                            phase: JobPhaseView::Done,
                            ..st
                        },
                        if next.created {
                            prog.ticked(st.label)
                        } else {
                            prog
                        },
                        JobRequestView::Finished,
                    ),
                ),
            }
        }),
{
}

/// A directory counts as done whether it could be made or not; a file that has been created
/// counts its bytes.
pub proof fn law_reports_to_a_job(
    st: JobRunView,
    r: std::result::Result<(), Seq<char>>,
    prog: ProgressView,
    w: WriteView,
)
    ensures
        st.phase is MakingDir ==> st.answered(r, prog) == (
            (JobRunView {
                errors: if r is Err {
                    st.errors.push(st.label + ": "@ + r->Err_0)
                } else {
                    st.errors
                },
                phase: JobPhaseView::Done,
                ..st
            }),
            prog.ticked(st.label),
        ),
        st.phase == JobPhaseView::Write(w) ==> st.answered(r, prog) == (
            (JobRunView { phase: JobPhaseView::Write(w.answered(r)), ..st }),
            if w.stage is Creating && r is Ok {
                prog.with_bytes(w.inode.size)
            } else {
                prog
            },
        ),
{
}

} // verus!
