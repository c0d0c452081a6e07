//! What a job of a parallel copy comes to as a whole, where the caller can do all that is
//! asked of it and nobody cancels.

use crate::data::{
    file_data, law_piece_settled, law_pieces_from_the_start, lemma_piece_number, piece_at,
    piece_contents, pieces_from, read_failure,
};
use crate::error::{fault_text, Fault, Outcome};
use crate::filewrite::{new_write, Stage, WriteView};
use crate::inode::InodeView;
use crate::jobs::{JobPhaseView, JobRequestView, JobRunView};
use crate::plan::{tree_plan, JobView, Plan};
use crate::progress::ProgressView;
use crate::tasks::TaskView;
use crate::trace::{
    built, extended, job_for, jobs_for, law_copy_is_true_to_the_volume, law_plan_lists_the_copy,
    plain_links, tree_trace, true_to, Made, Place, Trace,
};
use crate::volume::{inode_at, law_inode_settled, VolumeView};
use vstd::prelude::*;

verus! {

/// What a job leaves behind.
#[verifier::ext_equal]
pub struct JobEnd {
    pub errors: Seq<Seq<char>>,
    pub prog: ProgressView,
    pub made: Made,
}

/// What a job comes to that has created its file and written all before piece `k`.
pub open spec fn file_end(
    v: VolumeView,
    st: JobRunView,
    inode: InodeView,
    k: u64,
    prog: ProgressView,
    made: Made,
) -> Outcome<JobEnd> {
    match read_failure(v, inode, k) {
        Err(f) => Err(f),
        Ok(failure) => Ok(
            JobEnd {
                errors: match failure {
                    None => st.errors,
                    Some(text) => st.with_error(text).errors,
                },
                prog: prog.ticked(st.label),
                made: extended(made, pieces_from(v, inode, k)),
            },
        ),
    }
}

/// What a job comes to that is writing a file.
pub open spec fn writing_end(
    v: VolumeView,
    st: JobRunView,
    w: WriteView,
    prog: ProgressView,
    made: Made,
) -> Outcome<JobEnd> {
    match w.stage {
        Stage::Start => file_end(
            v,
            st,
            w.inode,
            0,
            prog.with_bytes(w.inode.size),
            Made::File(Seq::empty()),
        ),
        Stage::Creating => file_end(v, st, w.inode, 0, prog.with_bytes(w.inode.size), made),
        Stage::Piece(k) => file_end(v, st, w.inode, k, prog, made),
        Stage::Appending(k) => file_end(v, st, w.inode, k, prog, made),
        Stage::Flushing => Ok(JobEnd { errors: st.errors, prog: prog.ticked(st.label), made }),
        Stage::Done => Ok(JobEnd { errors: st.errors, prog: prog.ticked(st.label), made }),
    }
}

/// What a job will come to, at whose destination there is `made` so far.
pub open spec fn whole_job(
    v: VolumeView,
    st: JobRunView,
    prog: ProgressView,
    made: Made,
) -> Outcome<JobEnd> {
    match st.phase {
        JobPhaseView::Begin => match st.job {
            JobView::Dir(_) => Ok(
                JobEnd { errors: st.errors, prog: prog.ticked(st.label), made: Made::Dir },
            ),
            JobView::File(ino, _) => match inode_at(v, ino) {
                Err(Fault::Pending(p)) => Err(Fault::Pending(p)),
                Err(f) => Ok(
                    JobEnd { errors: st.with_error(fault_text(f)).errors, prog, made },
                ),
                Ok(inode) => writing_end(v, st, new_write(inode), prog, made),
            },
        },
        JobPhaseView::MakingDir => Ok(
            JobEnd { errors: st.errors, prog: prog.ticked(st.label), made },
        ),
        JobPhaseView::Write(w) => writing_end(v, st, w, prog, made),
        JobPhaseView::Done => Ok(JobEnd { errors: st.errors, prog, made }),
    }
}

/// What stands at the destination once a request has been carried out.
pub open spec fn made_after(v: VolumeView, request: JobRequestView, made: Made) -> Made {
    match request {
        JobRequestView::MakeDir => Made::Dir,
        JobRequestView::Create => Made::File(Seq::empty()),
        JobRequestView::Append(piece) => extended(made, piece_contents(v, piece)),
        _ => made,
    }
}

/// Nothing has gone wrong yet in the file that is being written.
pub open spec fn unharmed(st: JobRunView) -> bool {
    match st.phase {
        JobPhaseView::Write(w) => w.failure is None && w.created == !(w.stage is Start
            || w.stage is Creating),
        _ => true,
    }
}

/// Where nobody cancels, each step of a job leaves what the job comes to unchanged, on this
/// volume and on any that it grows to.
#[verifier::rlimit(40)]
pub proof fn law_steps_do_the_job(
    v: VolumeView,
    w: VolumeView,
    st: JobRunView,
    prog: ProgressView,
    made: Made,
)
    requires
        v.wf(),
        v.grows_to(w),
        unharmed(st),
        !st.awaits(),
    ensures
        st.stepped(v, false, prog) matches Ok(next) ==> {
            &&& whole_job(w, next.0, next.1, made_after(w, next.2, made)) == whole_job(
                w,
                st,
                prog,
                made,
            )
            &&& unharmed(next.0)
        },
{
    match st.phase {
        JobPhaseView::Begin => {
            if let JobView::File(ino, _) = st.job {
                law_inode_settled(v, w, ino);
            }
        },
        JobPhaseView::Write(f) => {
            if let Stage::Piece(k) = f.stage {
                law_piece_settled(v, w, f.inode, k);
                if let Ok(Some(piece)) = piece_at(v, f.inode, k) {
                    lemma_piece_number(v, f.inode, k);
                    let here = piece_contents(w, piece);
                    let rest = pieces_from(w, f.inode, (k + 1) as u64);
                    if let Made::File(before) = made {
                        assert(before + here + rest =~= before + (here + rest));
                    }
                } else if let Made::File(before) = made {
                    assert(before + Seq::<u8>::empty() =~= before);
                }
            }
        },
        _ => {},
    }
}

/// The caller's report that it did as asked leaves what the job comes to unchanged.
pub proof fn law_success_keeps_the_job(
    w: VolumeView,
    st: JobRunView,
    prog: ProgressView,
    made: Made,
)
    requires
        unharmed(st),
        st.awaits(),
    ensures
        ({
            let (next, after) = st.answered(Ok(()), prog);
            &&& whole_job(w, next, after, made) == whole_job(w, st, prog, made)
            &&& unharmed(next)
        }),
{
}

/// A job whose parts all succeed reports nothing, ticks once, and makes its directory, or a
/// file of exactly the contents of its inode, whose size is added once to the bytes.
pub proof fn law_job_makes_its_file(
    v: VolumeView,
    st: JobRunView,
    prog: ProgressView,
    made: Made,
)
    requires
        v.wf(),
        st.phase is Begin,
    ensures
        st.job is Dir ==> whole_job(v, st, prog, made) == Ok::<_, Fault>(
            (JobEnd { errors: st.errors, prog: prog.ticked(st.label), made: Made::Dir }),
        ),
        st.job matches JobView::File(ino, _) ==> (inode_at(v, ino) matches Ok(inode) ==> (
        file_data(v, inode).end is Ok ==> whole_job(v, st, prog, made) == Ok::<_, Fault>(
            (JobEnd {
                errors: st.errors,
                prog: prog.with_bytes(inode.size).ticked(st.label),
                made: Made::File(file_data(v, inode).bytes),
            }),
        ))),
{
    if let JobView::File(ino, _) = st.job {
        if let Ok(inode) = inode_at(v, ino) {
            let data = file_data(v, inode);
            if data.end is Ok {
                law_pieces_from_the_start(v, inode);
                assert(Seq::<u8>::empty() + data.bytes =~= data.bytes);
            }
        }
    }
}

/// A job is over when it comes to what it has done.
pub proof fn law_finished_job_has_ended(
    v: VolumeView,
    st: JobRunView,
    prog: ProgressView,
    made: Made,
)
    requires
        st.phase is Done,
    ensures
        whole_job(v, st, prog, made) == Ok::<_, Fault>(
            (JobEnd { errors: st.errors, prog, made }),
        ),
{
}

pub open spec fn job_dest(job: JobView) -> Seq<Seq<char>> {
    match job {
        JobView::Dir(dest) => dest,
        JobView::File(_, dest) => dest,
    }
}

/// A job that is shown as `label` and has not begun.
pub open spec fn fresh_run(job: JobView, label: Seq<char>) -> JobRunView {
    JobRunView { job, label, errors: Seq::empty(), phase: JobPhaseView::Begin }
}

/// What a job leaves at its destination.
pub open spec fn job_made(v: VolumeView, job: JobView) -> Made {
    match job {
        JobView::Dir(_) => Made::Dir,
        JobView::File(ino, _) => match inode_at(v, ino) {
            Ok(inode) => Made::File(pieces_from(v, inode, 0)),
            Err(_) => Made::Nothing,
        },
    }
}

/// A job leaves what `job_made` says, however it is shown and whatever was done before.
pub proof fn law_job_leaves_what_it_makes(
    v: VolumeView,
    job: JobView,
    label: Seq<char>,
    prog: ProgressView,
)
    ensures
        whole_job(v, fresh_run(job, label), prog, Made::Nothing) matches Ok(end) ==> end.made
            == job_made(v, job),
{
    if let JobView::File(ino, _) = job {
        if let Ok(inode) = inode_at(v, ino) {
            let all = pieces_from(v, inode, 0);
            assert(Seq::<u8>::empty() + all =~= all);
        }
    }
}

/// `start` with all that the jobs leave, done in this order.
pub open spec fn placed(v: VolumeView, jobs: Seq<JobView>, start: Place) -> Place
    decreases jobs.len(),
{
    if jobs.len() == 0 {
        start
    } else {
        placed(v, jobs.drop_last(), start).insert(
            job_dest(jobs.last()),
            job_made(v, jobs.last()),
        )
    }
}

/// Whether jobs with the same destination are the same job.
pub open spec fn agree(jobs: Seq<JobView>) -> bool {
    forall|i: int, j: int|
        0 <= i < jobs.len() && 0 <= j < jobs.len() && job_dest(#[trigger] jobs[i]) == job_dest(
            #[trigger] jobs[j],
        ) ==> jobs[i] == jobs[j]
}

/// What stands where after jobs that agree: at the destination of a job what it makes, and
/// elsewhere what stood there before.
proof fn lemma_placed(v: VolumeView, jobs: Seq<JobView>, start: Place)
    requires
        agree(jobs),
    ensures
        forall|job: JobView| #[trigger]
            jobs.contains(job) ==> placed(v, jobs, start).contains_key(job_dest(job)) && placed(
                v,
                jobs,
                start,
            )[job_dest(job)] == job_made(v, job),
        forall|dest: Seq<Seq<char>>|
            (forall|i: int| 0 <= i < jobs.len() ==> job_dest(#[trigger] jobs[i]) != dest) ==> (
            #[trigger] placed(v, jobs, start).contains_key(dest)) == start.contains_key(dest)
                && placed(v, jobs, start)[dest] == start[dest],
    decreases jobs.len(),
{
    if jobs.len() > 0 {
        let before = jobs.drop_last();
        assert forall|i: int, j: int|
            0 <= i < before.len() && 0 <= j < before.len() && job_dest(#[trigger] before[i])
                == job_dest(#[trigger] before[j]) implies before[i] == before[j] by {
            assert(jobs[i] == before[i] && jobs[j] == before[j]);
        }
        lemma_placed(v, before, start);
        let last = jobs.last();
        assert forall|job: JobView| #[trigger] jobs.contains(job) implies placed(
            v,
            jobs,
            start,
        ).contains_key(job_dest(job)) && placed(v, jobs, start)[job_dest(job)] == job_made(
            v,
            job,
        ) by {
            let i = choose|i: int| 0 <= i < jobs.len() && jobs[i] == job;
            assert(jobs[jobs.len() - 1] == last);
            if job_dest(job) != job_dest(last) {
                assert(before[i] == job);
                assert(before.contains(job));
            }
        }
        assert forall|dest: Seq<Seq<char>>|
            (forall|i: int| 0 <= i < jobs.len() ==> job_dest(#[trigger] jobs[i]) != dest) implies (
        #[trigger] placed(v, jobs, start).contains_key(dest)) == start.contains_key(dest)
            && placed(v, jobs, start)[dest] == start[dest] by {
            assert(job_dest(jobs[jobs.len() - 1]) != dest);
            assert forall|i: int| 0 <= i < before.len() implies job_dest(#[trigger] before[i])
                != dest by {
                assert(before[i] == jobs[i]);
            }
            assert(placed(v, before, start).contains_key(dest) == start.contains_key(dest));
        }
    }
}

/// Jobs that agree leave the same, in whatever order they are done.
pub proof fn law_order_does_not_matter(
    v: VolumeView,
    jobs: Seq<JobView>,
    done: Seq<JobView>,
    start: Place,
)
    requires
        agree(jobs),
        forall|job: JobView| #[trigger] done.contains(job) <==> jobs.contains(job),
    ensures
        placed(v, done, start) == placed(v, jobs, start),
{
    assert forall|i: int, j: int|
        0 <= i < done.len() && 0 <= j < done.len() && job_dest(#[trigger] done[i]) == job_dest(
            #[trigger] done[j],
        ) implies done[i] == done[j] by {
        assert(done.contains(done[i]) && done.contains(done[j]));
        let a = choose|a: int| 0 <= a < jobs.len() && jobs[a] == done[i];
        let b = choose|b: int| 0 <= b < jobs.len() && jobs[b] == done[j];
        assert(jobs[a] == jobs[b]);
    }
    lemma_placed(v, jobs, start);
    lemma_placed(v, done, start);
    let one = placed(v, done, start);
    let other = placed(v, jobs, start);
    assert forall|dest: Seq<Seq<char>>|
        #![trigger one.contains_key(dest)]
        #![trigger other.contains_key(dest)]
        one.contains_key(dest) == other.contains_key(dest) && (one.contains_key(dest)
            ==> one[dest] == other[dest]) by {
        if exists|i: int| 0 <= i < jobs.len() && job_dest(#[trigger] jobs[i]) == dest {
            let i = choose|i: int| 0 <= i < jobs.len() && job_dest(#[trigger] jobs[i]) == dest;
            assert(jobs.contains(jobs[i]));
            assert(done.contains(jobs[i]));
        } else {
            assert forall|i: int| 0 <= i < done.len() implies job_dest(#[trigger] done[i])
                != dest by {
                assert(done.contains(done[i]));
                let a = choose|a: int| 0 <= a < jobs.len() && jobs[a] == done[i];
                assert(job_dest(jobs[a]) == job_dest(done[i]));
            }
        }
    }
    assert(one =~= other);
}

proof fn lemma_placed_is_built(v: VolumeView, tr: Trace, n: int, start: Place)
    requires
        true_to(v, tr),
        0 <= n <= tr.deeds.len(),
    ensures
        placed(v, jobs_for(tr.deeds).take(n), start) == built(v, tr.deeds.take(n), start),
    decreases n,
{
    let jobs = jobs_for(tr.deeds);
    if n > 0 {
        lemma_placed_is_built(v, tr, n - 1, start);
        assert(jobs.take(n).drop_last() =~= jobs.take(n - 1));
        assert(tr.deeds.take(n).drop_last() =~= tr.deeds.take(n - 1));
        assert(jobs.take(n).last() == job_for(tr.deeds[n - 1]));
        assert(tr.deeds.take(n).last() == tr.deeds[n - 1]);
    }
}

pub open spec fn no_trace() -> Trace {
    Trace { deeds: Seq::empty(), errors: Seq::empty(), ticks: 0 }
}

pub open spec fn no_plan() -> Plan {
    Plan { jobs: Seq::empty(), errors: Seq::empty() }
}

/// A parallel copy leaves what a copy in turn leaves: the same directories, and at the same
/// places files of the same contents, in whatever order its jobs are done and however many
/// workers share them. Where the copy in turn reports nothing, neither does the plan nor any
/// of its jobs. Links must lead to plain files and directories, and different jobs must not
/// have the same destination.
pub proof fn law_parallel_copy_leaves_the_same(
    v: VolumeView,
    t: TaskView,
    done: Seq<JobView>,
    start: Place,
)
    requires
        plain_links(v, t),
        tree_trace(v, t, no_trace()) is Ok,
        tree_plan(v, t, no_plan()) matches Ok(p) ==> agree(p.jobs) && forall|job: JobView| #[trigger]
            done.contains(job) <==> p.jobs.contains(job),
    ensures
        ({
            let tr = tree_trace(v, t, no_trace())->Ok_0;
            let p = tree_plan(v, t, no_plan())->Ok_0;
            &&& tree_plan(v, t, no_plan()) is Ok
            &&& placed(v, done, start) == built(v, tr.deeds, start)
            &&& tr.errors.len() == 0 ==> p.errors.len() == 0
            &&& tr.errors.len() == 0 ==> forall|job: JobView, label: Seq<char>, prog: ProgressView|
                done.contains(job) ==> (#[trigger] whole_job(
                    v,
                    fresh_run(job, label),
                    prog,
                    Made::Nothing,
                ) matches Ok(end) && end.errors.len() == 0 && end.made == job_made(v, job))
        }),
{
    let tr = tree_trace(v, t, no_trace())->Ok_0;
    assert(jobs_for(no_trace().deeds) =~= no_plan().jobs);
    law_plan_lists_the_copy(v, t, no_trace(), no_plan());
    law_copy_is_true_to_the_volume(v, t, no_trace());
    let p = tree_plan(v, t, no_plan())->Ok_0;
    let n = tr.deeds.len() as int;
    lemma_placed_is_built(v, tr, n, start);
    assert(tr.deeds.take(n) =~= tr.deeds);
    assert(p.jobs.take(n) =~= p.jobs);
    law_order_does_not_matter(v, p.jobs, done, start);
    if tr.errors.len() == 0 {
        assert forall|job: JobView, label: Seq<char>, prog: ProgressView|
            done.contains(job) implies (#[trigger] whole_job(
            v,
            fresh_run(job, label),
            prog,
            Made::Nothing,
        ) matches Ok(end) && end.errors.len() == 0 && end.made == job_made(v, job)) by {
            assert(p.jobs.contains(job));
            let i = choose|i: int| 0 <= i < p.jobs.len() && p.jobs[i] == job;
            assert(job == job_for(tr.deeds[i]));
            law_job_leaves_what_it_makes(v, job, label, prog);
        }
    }
}

} // verus!
