//! Doing the jobs of a plan: how many workers share them, and the steps of one job.

use crate::data::{Piece, PieceView};
use crate::error::{fault_text, ExtError, Fault, Outcome, Result};
use crate::filewrite::{
    new_write, report_view, FileRequest, FileRequestView, FileWrite, Report, Stage, WriteView,
};
use crate::plan::{jobs_view, Job, JobView};
use crate::progress::{CopyProgress, ProgressView};
use crate::tasks::{complain, complaint};
use crate::text::texts;
use crate::volume::{inode_at, Ext4, VolumeView};
use vstd::prelude::*;

verus! {

pub const MAX_WORKERS: usize = 64;

/// With fewer jobs than this, starting workers does not pay.
pub const FEW_JOBS: usize = 8;

/// Who does the jobs of a plan.
#[derive(PartialEq, Eq, Structural, Clone, Copy, Debug)]
pub enum Schedule {
    /// There is nothing to do.
    Nothing,
    /// One after the other.
    InTurn,
    /// So many workers, each of which takes the next job that nobody has taken.
    Workers(usize),
}

/// The number of workers asked for, between one and `MAX_WORKERS`.
pub open spec fn clamped(workers: usize) -> usize {
    if workers < 1 {
        1
    } else if workers > MAX_WORKERS {
        MAX_WORKERS
    } else {
        workers
    }
}

pub open spec fn schedule_for(jobs: nat, workers: usize) -> Schedule {
    if jobs == 0 {
        Schedule::Nothing
    } else if jobs < FEW_JOBS || clamped(workers) <= 1 {
        Schedule::InTurn
    } else {
        Schedule::Workers(clamped(workers))
    }
}

/// Fewer than eight jobs are done in turn, and so are any where one worker is asked for or none;
/// more are shared by as many workers as are asked for, up to 64.
pub proof fn law_who_does_the_jobs(jobs: nat, workers: usize)
    ensures
        jobs == 0 ==> schedule_for(jobs, workers) is Nothing,
        0 < jobs < 8 ==> schedule_for(jobs, workers) is InTurn,
        jobs >= 8 && workers <= 1 ==> schedule_for(jobs, workers) is InTurn,
        jobs >= 8 && 1 < workers <= 64 ==> schedule_for(jobs, workers) == Schedule::Workers(workers),
        jobs >= 8 && workers > 64 ==> schedule_for(jobs, workers) == Schedule::Workers(64),
{
}

/// Decides who does the jobs.
pub fn schedule(jobs: usize, workers: usize) -> (s: Schedule)
    ensures
        s == schedule_for(jobs as nat, workers),
        s is Nothing <==> jobs == 0,
        s matches Schedule::Workers(n) ==> 1 < n <= MAX_WORKERS,
{
    let workers: usize = if workers < 1 {
        1
    } else if workers > MAX_WORKERS {
        MAX_WORKERS
    } else {
        workers
    };
    if jobs == 0 {
        Schedule::Nothing
    } else if jobs < FEW_JOBS || workers <= 1 {
        Schedule::InTurn
    } else {
        Schedule::Workers(workers)
    }
}

/// The jobs of a plan that no worker has taken yet.
pub struct JobQueue {
    /// The next one last.
    pub left: Vec<Job>,
}

impl View for JobQueue {
    type V = Seq<JobView>;

    open spec fn view(&self) -> Seq<JobView> {
        jobs_view(self.left@).reverse()
    }
}

/// What is left of the jobs after a worker has asked for one, and which it gets: the next, as
/// long as there is one and nobody cancels.
pub open spec fn next_taken(left: Seq<JobView>, cancelled: bool) -> (
    Option<JobView>,
    Seq<JobView>,
) {
    if cancelled || left.len() == 0 {
        (None, left)
    } else {
        (Some(left[0]), left.skip(1))
    }
}

/// Every job is handed out once: those that have been taken and those that are left are always
/// all of them, in order, and where nobody cancels, no job is refused while one is left.
pub proof fn law_jobs_are_handed_out_once(
    taken: Seq<JobView>,
    left: Seq<JobView>,
    cancelled: bool,
)
    ensures
        match next_taken(left, cancelled) {
            (Some(job), rest) => taken.push(job) + rest == taken + left,
            (None, rest) => rest == left && (!cancelled ==> taken + left == taken),
        },
{
    if left.len() == 0 {
        assert(taken + left =~= taken);
    } else {
        assert(taken.push(left[0]) + left.skip(1) =~= taken + left);
    }
}

impl JobQueue {
    pub fn new(jobs: Vec<Job>) -> (q: JobQueue)
        ensures
            q@ == jobs_view(jobs@),
    {
        let ghost all = jobs_view(jobs@);
        let mut jobs = jobs;
        let mut q = JobQueue { left: Vec::new() };
        assert(q@ =~= all.skip(jobs@.len() as int));
        while jobs.len() > 0
            invariant
                jobs@.len() <= all.len(),
                jobs_view(jobs@) == all.take(jobs@.len() as int),
                q@ == all.skip(jobs@.len() as int),
            decreases jobs@.len(),
        {
            let ghost n = jobs@.len() as int;
            let ghost before = jobs@;
            let ghost sofar = q.left@;
            if let Some(job) = jobs.pop() {
                q.left.push(job);
                proof {
                    assert(jobs_view(before)[n - 1] == job@);
                    assert(jobs_view(jobs@) =~= all.take(n - 1));
                    assert(jobs_view(q.left@) =~= jobs_view(sofar).push(job@));
                    assert(q@ =~= seq![job@] + all.skip(n));
                    assert(q@ =~= all.skip(n - 1));
                }
            }
        }
        assert(all.skip(0) =~= all);
        q
    }

    /// Takes the next job for a worker that asks for one.
    pub fn take(&mut self, cancelled: bool) -> (job: Option<Job>)
        ensures
            ({
                let (next, rest) = next_taken(old(self)@, cancelled);
                &&& final(self)@ == rest
                &&& match job {
                    Some(j) => next == Some(j@),
                    None => next is None,
                }
            }),
    {
        if cancelled {
            return None;
        }
        let ghost before = self.left@;
        let job = self.left.pop();
        proof {
            if job is Some {
                assert(jobs_view(before).last() == job->Some_0@);
                assert(jobs_view(self.left@) =~= jobs_view(before).drop_last());
                assert(self@ =~= old(self)@.skip(1));
            }
        }
        job
    }
}

pub enum JobPhase {
    Begin,
    /// Waits for the directory to be created.
    MakingDir,
    Write(FileWrite),
    Done,
}

pub enum JobPhaseView {
    Begin,
    MakingDir,
    Write(WriteView),
    Done,
}

impl View for JobPhase {
    type V = JobPhaseView;

    open spec fn view(&self) -> JobPhaseView {
        match *self {
            JobPhase::Begin => JobPhaseView::Begin,
            JobPhase::MakingDir => JobPhaseView::MakingDir,
            JobPhase::Write(w) => JobPhaseView::Write(w@),
            JobPhase::Done => JobPhaseView::Done,
        }
    }
}

/// What the caller is to do next, at the destination of the job.
pub enum JobRequest {
    /// Nothing; take the next step.
    Proceed,
    MakeDir,
    /// Create the file, with the directories above it.
    Create,
    Append(Piece),
    Flush,
    Finished,
}

pub enum JobRequestView {
    Proceed,
    MakeDir,
    Create,
    Append(PieceView),
    Flush,
    Finished,
}

impl View for JobRequest {
    type V = JobRequestView;

    open spec fn view(&self) -> JobRequestView {
        match *self {
            JobRequest::Proceed => JobRequestView::Proceed,
            JobRequest::MakeDir => JobRequestView::MakeDir,
            JobRequest::Create => JobRequestView::Create,
            JobRequest::Append(piece) => JobRequestView::Append(piece@),
            JobRequest::Flush => JobRequestView::Flush,
            JobRequest::Finished => JobRequestView::Finished,
        }
    }
}

/// A job being done.
pub struct JobRun {
    pub job: Job,
    /// The destination, as it is shown.
    pub label: String,
    pub errors: Vec<String>,
    pub phase: JobPhase,
}

#[verifier::ext_equal]
pub struct JobRunView {
    pub job: JobView,
    pub label: Seq<char>,
    pub errors: Seq<Seq<char>>,
    pub phase: JobPhaseView,
}

impl View for JobRun {
    type V = JobRunView;

    open spec fn view(&self) -> JobRunView {
        JobRunView {
            job: self.job@,
            label: self.label@,
            errors: texts(self.errors@),
            phase: self.phase@,
        }
    }
}

impl JobRunView {
    /// Whether the caller still owes a report.
    pub open spec fn awaits(self) -> bool {
        match self.phase {
            JobPhaseView::MakingDir => true,
            JobPhaseView::Write(w) => w.awaits(),
            _ => false,
        }
    }

    pub open spec fn in_phase(self, phase: JobPhaseView) -> JobRunView {
        JobRunView { phase, ..self }
    }

    pub open spec fn with_error(self, why: Seq<char>) -> JobRunView {
        JobRunView { errors: self.errors.push(complaint(self.label, why)), ..self }
    }

    pub open spec fn done(self) -> JobRunView {
        self.in_phase(JobPhaseView::Done)
    }

    /// Begins the job, unless everything is cancelled. The error is a missing block.
    pub open spec fn begun(self, v: VolumeView, cancelled: bool) -> Outcome<
        (JobRunView, JobRequestView),
    > {
        if cancelled {
            Ok((self.done(), JobRequestView::Finished))
        } else {
            match self.job {
                JobView::Dir(_) => Ok(
                    (self.in_phase(JobPhaseView::MakingDir), JobRequestView::MakeDir),
                ),
                JobView::File(ino, _) => match inode_at(v, ino) {
                    Err(Fault::Pending(p)) => Err(Fault::Pending(p)),
                    Err(f) => Ok(
                        (self.with_error(fault_text(f)).done(), JobRequestView::Finished),
                    ),
                    Ok(inode) => Ok(
                        (
                            self.in_phase(JobPhaseView::Write(new_write(inode))),
                            JobRequestView::Proceed,
                        ),
                    ),
                },
            }
        }
    }

    /// Goes on writing the file. A file that could not even be created does not count as
    /// an item that is done.
    pub open spec fn writing(self, v: VolumeView, w: WriteView, prog: ProgressView) -> Outcome<
        (JobRunView, ProgressView, JobRequestView),
    > {
        match w.requested(v) {
            Err(f) => Err(f),
            Ok((w1, FileRequestView::Finished)) => Ok(
                (
                    match w1.failure {
                        Some(text) => self.with_error(text).done(),
                        None => self.done(),
                    },
                    if w1.created {
                        prog.ticked(self.label)
                    } else {
                        prog
                    },
                    JobRequestView::Finished,
                ),
            ),
            Ok((w1, request)) => Ok(
                (
                    self.in_phase(JobPhaseView::Write(w1)),
                    prog,
                    match request {
                        FileRequestView::Create => JobRequestView::Create,
                        FileRequestView::Append(piece) => JobRequestView::Append(piece),
                        _ => JobRequestView::Flush,
                    },
                ),
            ),
        }
    }

    /// One step of the job.
    pub open spec fn stepped(self, v: VolumeView, cancelled: bool, prog: ProgressView) -> Outcome<
        (JobRunView, ProgressView, JobRequestView),
    > {
        match self.phase {
            JobPhaseView::Begin => match self.begun(v, cancelled) {
                Err(f) => Err(f),
                Ok((next, request)) => Ok((next, prog, request)),
            },
            JobPhaseView::Write(w) => self.writing(v, w, prog),
            _ => Ok((self.done(), prog, JobRequestView::Finished)),
        }
    }

    /// The job, and the progress, after the caller's report on what was requested.
    pub open spec fn answered(
        self,
        r: std::result::Result<(), Seq<char>>,
        prog: ProgressView,
    ) -> (JobRunView, ProgressView) {
        match self.phase {
            JobPhaseView::MakingDir => (
                match r {
                    Ok(_) => self.done(),
                    Err(text) => self.with_error(text).done(),
                },
                prog.ticked(self.label),
            ),
            JobPhaseView::Write(w) => (
                self.in_phase(JobPhaseView::Write(w.answered(r))),
                if w.stage is Creating && r is Ok {
                    prog.with_bytes(w.inode.size)
                } else {
                    prog
                },
            ),
            _ => (self, prog),
        }
    }
}

impl JobRun {
    /// Begins a job whose destination is shown as `label`.
    pub fn new(job: Job, label: &str) -> (run: JobRun)
        ensures
            run@ == (JobRunView {
                job: job@,
                label: label@,
                errors: Seq::empty(),
                phase: JobPhaseView::Begin,
            }),
    {
        let run = JobRun {
            job,
            label: label.to_owned(),
            errors: Vec::new(),
            phase: JobPhase::Begin,
        };
        assert(run@.errors =~= Seq::empty());
        run
    }

    fn fail(&mut self, why: &str)
        ensures
            final(self)@ == old(self)@.with_error(why@),
    {
        complain(&mut self.errors, self.label.as_str(), why);
    }

    /// Takes one step. The caller then does what is requested and, unless that is nothing,
    /// reports with `answer`.
    pub fn step(&mut self, fs: &Ext4, cancelled: bool, prog: &mut CopyProgress) -> (r: Result<
        JobRequest,
    >)
        requires
            fs.wf(),
            !old(self)@.awaits(),
        ensures
            match r {
                Ok(request) => old(self)@.stepped(fs@, cancelled, old(prog)@) == Ok::<_, Fault>(
                    (final(self)@, final(prog)@, request@),
                ),
                Err(e) => old(self)@.stepped(fs@, cancelled, old(prog)@) == Err::<
                    (JobRunView, ProgressView, JobRequestView),
                    _,
                >(e@) && final(self)@ == old(self)@ && final(prog)@ == old(prog)@,
            },
    {
        let mut phase = JobPhase::Done;
        std::mem::swap(&mut phase, &mut self.phase);
        match phase {
            JobPhase::Begin => self.begin(fs, cancelled),
            JobPhase::Write(w) => self.write(fs, w, prog),
            _ => Ok(JobRequest::Finished),
        }
    }

    fn begin(&mut self, fs: &Ext4, cancelled: bool) -> (r: Result<JobRequest>)
        requires
            fs.wf(),
            old(self)@.phase is Done,
        ensures
            match r {
                Ok(request) => old(self)@.in_phase(JobPhaseView::Begin).begun(fs@, cancelled)
                    == Ok::<_, Fault>((final(self)@, request@)),
                Err(e) => old(self)@.in_phase(JobPhaseView::Begin).begun(fs@, cancelled) == Err::<
                    (JobRunView, JobRequestView),
                    _,
                >(e@) && final(self)@ == old(self)@.in_phase(JobPhaseView::Begin),
            },
    {
        if cancelled {
            return Ok(JobRequest::Finished);
        }
        let ino: u32 = match &self.job {
            Job::Dir(_) => {
                self.phase = JobPhase::MakingDir;
                return Ok(JobRequest::MakeDir);
            },
            Job::File(ino, _) => *ino,
        };
        match fs.read_inode(ino) {
            Err(ExtError::Pending(p)) => {
                self.phase = JobPhase::Begin;
                Err(ExtError::Pending(p))
            },
            Err(e) => {
                self.fail(e.message().as_str());
                Ok(JobRequest::Finished)
            },
            Ok(inode) => {
                self.phase = JobPhase::Write(FileWrite::new(inode));
                Ok(JobRequest::Proceed)
            },
        }
    }

    fn write(&mut self, fs: &Ext4, w: FileWrite, prog: &mut CopyProgress) -> (r: Result<
        JobRequest,
    >)
        requires
            fs.wf(),
            old(self)@.phase is Done,
            !w@.awaits(),
        ensures
            ({
                let before = old(self)@.in_phase(JobPhaseView::Write(w@));
                match r {
                    Ok(request) => before.writing(fs@, w@, old(prog)@) == Ok::<_, Fault>(
                        (final(self)@, final(prog)@, request@),
                    ),
                    Err(e) => before.writing(fs@, w@, old(prog)@) == Err::<
                        (JobRunView, ProgressView, JobRequestView),
                        _,
                    >(e@) && final(self)@ == before && final(prog)@ == old(prog)@,
                }
            }),
    {
        let mut w = w;
        match w.request(fs) {
            Err(e) => {
                self.phase = JobPhase::Write(w);
                Err(e)
            },
            Ok(FileRequest::Finished) => {
                if w.created {
                    prog.tick(self.label.as_str());
                }
                if let Some(text) = w.failure {
                    self.fail(text.as_str());
                }
                Ok(JobRequest::Finished)
            },
            Ok(FileRequest::Create) => {
                self.phase = JobPhase::Write(w);
                Ok(JobRequest::Create)
            },
            Ok(FileRequest::Append(piece)) => {
                self.phase = JobPhase::Write(w);
                Ok(JobRequest::Append(piece))
            },
            Ok(FileRequest::Flush) => {
                self.phase = JobPhase::Write(w);
                Ok(JobRequest::Flush)
            },
        }
    }

    /// Takes note of how the requested action went.
    pub fn answer(&mut self, report: Report, prog: &mut CopyProgress)
        requires
            old(self)@.awaits(),
        ensures
            (final(self)@, final(prog)@) == old(self)@.answered(
                report_view(report),
                old(prog)@,
            ),
    {
        let mut phase = JobPhase::Done;
        std::mem::swap(&mut phase, &mut self.phase);
        match phase {
            JobPhase::MakingDir => {
                if let Err(text) = report {
                    self.fail(text.as_str());
                }
                prog.tick(self.label.as_str());
            },
            JobPhase::Write(w) => {
                let mut w = w;
                let creating = match w.stage {
                    Stage::Creating => true,
                    _ => false,
                };
                if creating && report.is_ok() {
                    prog.add_bytes(w.inode.size);
                }
                w.answer(report);
                self.phase = JobPhase::Write(w);
            },
            other => {
                self.phase = other;
            },
        }
    }
}

} // verus!
