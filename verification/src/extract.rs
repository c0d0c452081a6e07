//! Recursive copying, step by step: the walk decides, the caller creates directories and
//! files and reports how that went. A failure concerns one item and does not end the walk.

use crate::count::MAX_TREE_DEPTH;
use crate::dir::dir_listing;
use crate::error::{fault_text, ExtError, Fault, Outcome, Result};
use crate::data::{Piece, PieceView};
use crate::filewrite::{
    new_write, report_view, FileRequest, FileRequestView, FileWrite, Report, Stage, WriteView,
};
use crate::inode::{Inode, InodeView};
use crate::progress::{CopyProgress, ProgressView};
use crate::tasks::{
    child_tasks, complain, complaint, copy_texts, follow, follow_link, report, root_task,
    task_behind, tasks_view, too_deep_message, too_deep_text, Link, LinkEnd, Task, TaskView,
};
use crate::text::texts;
use crate::volume::{inode_at, Ext4, VolumeView};
use vstd::prelude::*;

verus! {

/// What the walk is about to do with the item in hand.
pub enum Phase {
    /// No item is in hand.
    Next,
    Examine(Task),
    /// Waits for a directory to be created.
    MakingDir(Task, Inode),
    List(Task, Inode),
    Write(Task, FileWrite),
    Cancelled,
}

pub enum PhaseView {
    Next,
    Examine(TaskView),
    MakingDir(TaskView, InodeView),
    List(TaskView, InodeView),
    Write(TaskView, WriteView),
    Cancelled,
}

impl View for Phase {
    type V = PhaseView;

    open spec fn view(&self) -> PhaseView {
        match *self {
            Phase::Next => PhaseView::Next,
            Phase::Examine(t) => PhaseView::Examine(t@),
            Phase::MakingDir(t, inode) => PhaseView::MakingDir(t@, inode@),
            Phase::List(t, inode) => PhaseView::List(t@, inode@),
            Phase::Write(t, w) => PhaseView::Write(t@, w@),
            Phase::Cancelled => PhaseView::Cancelled,
        }
    }
}

/// What the caller is to do next. Destinations are names to append to the place that the
/// copy goes to.
pub enum Request {
    /// Nothing; take the next step.
    Proceed,
    MakeDir(Vec<String>),
    /// Create a file, with the directories above it.
    Create(Vec<String>),
    /// Append to the file created last.
    Append(Piece),
    Flush,
    /// The walk is over; false if it was cancelled.
    Finished(bool),
}

pub enum RequestView {
    Proceed,
    MakeDir(Seq<Seq<char>>),
    Create(Seq<Seq<char>>),
    Append(PieceView),
    Flush,
    Finished(bool),
}

impl View for Request {
    type V = RequestView;

    open spec fn view(&self) -> RequestView {
        match *self {
            Request::Proceed => RequestView::Proceed,
            Request::MakeDir(dest) => RequestView::MakeDir(texts(dest@)),
            Request::Create(dest) => RequestView::Create(texts(dest@)),
            Request::Append(piece) => RequestView::Append(piece@),
            Request::Flush => RequestView::Flush,
            Request::Finished(b) => RequestView::Finished(b),
        }
    }
}

/// A recursive copy under way.
pub struct Extraction {
    /// The items still to be taken up, the next one last.
    pub stack: Vec<Task>,
    pub errors: Vec<String>,
    pub phase: Phase,
}

#[verifier::ext_equal]
pub struct ExtractionView {
    pub stack: Seq<TaskView>,
    pub errors: Seq<Seq<char>>,
    pub phase: PhaseView,
}

impl View for Extraction {
    type V = ExtractionView;

    open spec fn view(&self) -> ExtractionView {
        ExtractionView {
            stack: tasks_view(self.stack@),
            errors: texts(self.errors@),
            phase: self.phase@,
        }
    }
}

impl ExtractionView {
    pub open spec fn wf(self) -> bool {
        match self.phase {
            PhaseView::Examine(t) => t.depth <= MAX_TREE_DEPTH,
            PhaseView::MakingDir(t, _) => t.depth <= MAX_TREE_DEPTH,
            PhaseView::List(t, _) => t.depth <= MAX_TREE_DEPTH,
            _ => true,
        }
    }

    /// Whether the caller still owes a report.
    pub open spec fn awaits(self) -> bool {
        match self.phase {
            PhaseView::MakingDir(_, _) => true,
            PhaseView::Write(_, w) => w.awaits(),
            _ => false,
        }
    }

    pub open spec fn in_phase(self, phase: PhaseView) -> ExtractionView {
        ExtractionView { phase, ..self }
    }

    /// Done with the item in hand.
    pub open spec fn onward(self) -> ExtractionView {
        self.in_phase(PhaseView::Next)
    }

    pub open spec fn with_error(self, text: Seq<char>) -> ExtractionView {
        ExtractionView { errors: self.errors.push(text), ..self }
    }

    /// Done with the item in hand, which failed.
    pub open spec fn given_up(self, path: Seq<char>, why: Seq<char>) -> ExtractionView {
        self.with_error(complaint(path, why)).onward()
    }

    /// Takes up the item on top of the stack: its warning is reported, and unless the walk
    /// is cancelled or the item lies too deep, it counts as begun.
    pub open spec fn taken_up(self, cancelled: bool, prog: ProgressView) -> (
        ExtractionView,
        ProgressView,
        RequestView,
    ) {
        let t = self.stack.last();
        let popped = ExtractionView { stack: self.stack.drop_last(), ..self };
        let warned = match t.warning {
            None => popped,
            Some(text) => popped.with_error(text),
        };
        if cancelled {
            (warned.in_phase(PhaseView::Cancelled), prog, RequestView::Finished(false))
        } else if t.depth > MAX_TREE_DEPTH {
            (warned.with_error(too_deep_text(t.path)), prog, RequestView::Proceed)
        } else {
            (warned.in_phase(PhaseView::Examine(t)), prog.ticked(t.path), RequestView::Proceed)
        }
    }

    /// Finds out what the item is. A directory is to be created before it is listed; what
    /// a symbolic link leads to takes its place; anything else is written as a file.
    pub open spec fn examined(self, v: VolumeView, t: TaskView) -> Outcome<
        (ExtractionView, RequestView),
    > {
        match inode_at(v, t.ino) {
            Err(Fault::Pending(p)) => Err(Fault::Pending(p)),
            Err(f) => Ok((self.given_up(t.path, fault_text(f)), RequestView::Proceed)),
            Ok(inode) => if inode.is_dir() {
                Ok(
                    (
                        self.in_phase(PhaseView::MakingDir(t, inode)),
                        RequestView::MakeDir(t.dest),
                    ),
                )
            } else if inode.is_symlink() {
                match follow_link(v, t.path, inode) {
                    Err(Fault::Pending(p)) => Err(Fault::Pending(p)),
                    Err(f) => Ok((self.given_up(t.path, fault_text(f)), RequestView::Proceed)),
                    Ok(LinkEnd::Broken(text)) => Ok(
                        (self.with_error(text).onward(), RequestView::Proceed),
                    ),
                    Ok(LinkEnd::Leads(ino)) => Ok(
                        (
                            ExtractionView {
                                stack: self.stack.push(task_behind(t, ino)),
                                ..self.onward()
                            },
                            RequestView::Proceed,
                        ),
                    ),
                }
            } else {
                Ok((self.in_phase(PhaseView::Write(t, new_write(inode))), RequestView::Proceed))
            },
        }
    }

    /// Puts the entries of a directory on the stack, the first on top.
    pub open spec fn listed(self, v: VolumeView, t: TaskView, inode: InodeView) -> Outcome<
        (ExtractionView, RequestView),
    > {
        match dir_listing(v, inode) {
            Err(Fault::Pending(p)) => Err(Fault::Pending(p)),
            Err(f) => Ok((self.given_up(t.path, fault_text(f)), RequestView::Proceed)),
            Ok(entries) => Ok(
                (
                    ExtractionView {
                        stack: self.stack + child_tasks(t, entries, 0).reverse(),
                        ..self.onward()
                    },
                    RequestView::Proceed,
                ),
            ),
        }
    }

    /// Goes on writing the file in hand.
    pub open spec fn writing(self, v: VolumeView, t: TaskView, w: WriteView) -> Outcome<
        (ExtractionView, RequestView),
    > {
        match w.requested(v) {
            Err(f) => Err(f),
            Ok((w1, FileRequestView::Finished)) => Ok(
                (
                    match w1.failure {
                        Some(text) => self.given_up(t.path, text),
                        None => self.onward(),
                    },
                    RequestView::Proceed,
                ),
            ),
            Ok((w1, request)) => Ok(
                (
                    self.in_phase(PhaseView::Write(t, w1)),
                    match request {
                        FileRequestView::Create => RequestView::Create(t.dest),
                        FileRequestView::Append(piece) => RequestView::Append(piece),
                        _ => RequestView::Flush,
                    },
                ),
            ),
        }
    }

    /// One step of the walk. The error is always a missing block, and nothing has changed
    /// where it comes.
    pub open spec fn stepped(self, v: VolumeView, cancelled: bool, prog: ProgressView) -> Outcome<
        (ExtractionView, ProgressView, RequestView),
    > {
        let r = match self.phase {
            PhaseView::Examine(t) => self.examined(v, t),
            PhaseView::List(t, inode) => self.listed(v, t, inode),
            PhaseView::Write(t, w) => self.writing(v, t, w),
            PhaseView::Cancelled => Ok((self, RequestView::Finished(false))),
            _ => Ok((self, RequestView::Finished(true))),
        };
        if self.phase is Next && self.stack.len() > 0 {
            Ok(self.taken_up(cancelled, prog))
        } else {
            match r {
                Ok((next, request)) => Ok((next, prog, request)),
                Err(f) => Err(f),
            }
        }
    }

    /// The walk, and the progress, after the caller's report on what was requested.
    pub open spec fn answered(
        self,
        r: std::result::Result<(), Seq<char>>,
        prog: ProgressView,
    ) -> (ExtractionView, ProgressView) {
        match self.phase {
            PhaseView::MakingDir(t, inode) => match r {
                Ok(_) => (self.in_phase(PhaseView::List(t, inode)), prog),
                Err(text) => (self.given_up(t.path, text), prog),
            },
            PhaseView::Write(t, w) => (
                self.in_phase(PhaseView::Write(t, w.answered(r))),
                if w.stage is Creating && r is Ok {
                    prog.with_bytes(w.inode.size)
                } else {
                    prog
                },
            ),
            _ => (self, prog),
        }
    }
}

/// A step that ends a walk early is a cancelled one: no failure of an item ends it.
#[verifier::rlimit(40)]
pub proof fn law_only_cancelling_stops(
    v: VolumeView,
    st: ExtractionView,
    cancelled: bool,
    prog: ProgressView,
)
    requires
        !st.awaits(),
        st.stepped(v, cancelled, prog) matches Ok(next) && next.2 is Finished,
    ensures
        st.phase is Cancelled || (st.phase is Next && (cancelled || st.stack.len() == 0)),
{
}

/// What is reported stays reported, and what waits below the top of the stack goes on
/// waiting, until the walk comes to it.
#[verifier::rlimit(40)]
pub proof fn law_step_keeps_the_rest(
    v: VolumeView,
    st: ExtractionView,
    cancelled: bool,
    prog: ProgressView,
)
    ensures
        st.stepped(v, cancelled, prog) matches Ok(next) ==> {
            &&& st.errors.is_prefix_of(next.0.errors)
            &&& (if st.phase is Next && st.stack.len() > 0 {
                st.stack.drop_last()
            } else {
                st.stack
            }).is_prefix_of(next.0.stack)
        },
{
}

/// Once a walk is cancelled, no more steps do anything.
pub proof fn law_cancelled_stays_cancelled(
    v: VolumeView,
    st: ExtractionView,
    cancelled: bool,
    prog: ProgressView,
)
    requires
        st.phase is Cancelled,
    ensures
        st.stepped(v, cancelled, prog) == Ok::<_, Fault>(
            (st, prog, RequestView::Finished(false)),
        ),
{
}

proof fn lemma_push_view(s: Seq<Task>, t: Task)
    ensures
        tasks_view(s.push(t)) == tasks_view(s).push(t@),
{
    assert(tasks_view(s.push(t)) =~= tasks_view(s).push(t@));
}

/// Moves tasks onto a stack, the first on top.
fn stack_up(stack: &mut Vec<Task>, tasks: Vec<Task>)
    ensures
        tasks_view(final(stack)@) == tasks_view(old(stack)@) + tasks_view(tasks@).reverse(),
{
    let ghost all = tasks_view(tasks@);
    let mut left = tasks;
    assert(tasks_view(stack@) =~= tasks_view(old(stack)@) + all.skip(
        left@.len() as int,
    ).reverse());
    while left.len() > 0
        invariant
            left@.len() <= all.len(),
            tasks_view(left@) == all.take(left@.len() as int),
            tasks_view(stack@) == tasks_view(old(stack)@) + all.skip(
                left@.len() as int,
            ).reverse(),
        decreases left@.len(),
    {
        let ghost n = left@.len() as int;
        let ghost before = left@;
        let ghost sofar = stack@;
        if let Some(t) = left.pop() {
            stack.push(t);
            proof {
                lemma_push_view(sofar, t);
                assert(left@ =~= before.drop_last());
                assert(tasks_view(left@) =~= all.take(n - 1));
                assert(all[n - 1] == t@) by {
                    assert(tasks_view(before)[n - 1] == t@);
                }
                assert(tasks_view(stack@) =~= tasks_view(old(stack)@) + all.skip(n - 1).reverse());
            }
        }
    }
    assert(all.skip(0) =~= all);
}

impl Extraction {
    pub open spec fn wf(self) -> bool {
        self@.wf()
    }

    /// Begins to copy inode `ino`, which `path` leads to.
    pub fn new(ino: u32, path: &str) -> (x: Extraction)
        ensures
            x.wf(),
            x@ == (ExtractionView {
                stack: seq![root_task(ino, path@)],
                errors: Seq::empty(),
                phase: PhaseView::Next,
            }),
    {
        let mut stack: Vec<Task> = Vec::new();
        let t = Task::root(ino, path);
        stack.push(t);
        let x = Extraction { stack, errors: Vec::new(), phase: Phase::Next };
        assert(x@.stack =~= seq![root_task(ino, path@)]);
        assert(x@.errors =~= Seq::empty());
        x
    }

    /// Takes one step. The caller then does what is requested and, unless that is nothing,
    /// reports with `answer`.
    #[verifier::rlimit(40)]
    pub fn step(&mut self, fs: &Ext4, cancelled: bool, prog: &mut CopyProgress) -> (r: Result<
        Request,
    >)
        requires
            fs.wf(),
            old(self).wf(),
            !old(self)@.awaits(),
        ensures
            final(self).wf(),
            match r {
                Ok(request) => old(self)@.stepped(fs@, cancelled, old(prog)@) == Ok::<_, Fault>(
                    (final(self)@, final(prog)@, request@),
                ),
                Err(e) => old(self)@.stepped(fs@, cancelled, old(prog)@) == Err::<
                    (ExtractionView, ProgressView, RequestView),
                    _,
                >(e@) && final(self)@ == old(self)@ && final(prog)@ == old(prog)@,
            },
    {
        let mut phase = Phase::Next;
        std::mem::swap(&mut phase, &mut self.phase);
        match phase {
            Phase::Next => Ok(self.take_up(cancelled, prog)),
            Phase::Examine(t) => self.examine(fs, t),
            Phase::List(t, inode) => self.list(fs, t, inode),
            Phase::Write(t, w) => self.write(fs, t, w),
            Phase::Cancelled => {
                self.phase = Phase::Cancelled;
                Ok(Request::Finished(false))
            },
            Phase::MakingDir(t, inode) => {
                self.phase = Phase::MakingDir(t, inode);
                Ok(Request::Finished(true))
            },
        }
    }

    fn take_up(&mut self, cancelled: bool, prog: &mut CopyProgress) -> (request: Request)
        requires
            old(self)@.phase is Next,
        ensures
            final(self).wf(),
            if old(self)@.stack.len() == 0 {
                &&& final(self)@ == old(self)@
                &&& final(prog)@ == old(prog)@
                &&& request@ == RequestView::Finished(true)
            } else {
                (final(self)@, final(prog)@, request@) == old(self)@.taken_up(
                    cancelled,
                    old(prog)@,
                )
            },
    {
        let ghost before = self.stack@;
        match self.stack.pop() {
            None => Request::Finished(true),
            Some(t) => {
                assert(tasks_view(self.stack@) =~= tasks_view(before).drop_last());
                assert(tasks_view(before).last() == t@);
                let mut t = t;
                if let Some(text) = t.warning {
                    let copy = text.clone();
                    t.warning = Some(text);
                    report(&mut self.errors, copy);
                } else {
                    t.warning = None;
                }
                if cancelled {
                    self.phase = Phase::Cancelled;
                    return Request::Finished(false);
                }
                if t.depth > MAX_TREE_DEPTH {
                    let text = too_deep_message(t.path.as_str());
                    report(&mut self.errors, text);
                    return Request::Proceed;
                }
                prog.tick(t.path.as_str());
                self.phase = Phase::Examine(t);
                Request::Proceed
            },
        }
    }

    fn give_up(&mut self, path: &str, why: &str)
        requires
            old(self)@.phase is Next,
        ensures
            final(self)@ == old(self)@.given_up(path@, why@),
    {
        complain(&mut self.errors, path, why);
    }

    fn examine(&mut self, fs: &Ext4, t: Task) -> (r: Result<Request>)
        requires
            fs.wf(),
            old(self)@.phase is Next,
            t.depth <= MAX_TREE_DEPTH,
        ensures
            final(self).wf(),
            match r {
                Ok(request) => old(self)@.in_phase(PhaseView::Examine(t@)).examined(fs@, t@)
                    == Ok::<_, Fault>((final(self)@, request@)),
                Err(e) => old(self)@.in_phase(PhaseView::Examine(t@)).examined(fs@, t@) == Err::<
                    (ExtractionView, RequestView),
                    _,
                >(e@) && final(self)@ == old(self)@.in_phase(PhaseView::Examine(t@)),
            },
    {
        let inode = match fs.read_inode(t.ino) {
            Ok(inode) => inode,
            Err(ExtError::Pending(p)) => {
                self.phase = Phase::Examine(t);
                return Err(ExtError::Pending(p));
            },
            Err(e) => {
                self.give_up(t.path.as_str(), e.message().as_str());
                return Ok(Request::Proceed);
            },
        };
        if inode.is_dir() {
            let dest = copy_texts(&t.dest);
            self.phase = Phase::MakingDir(t, inode);
            return Ok(Request::MakeDir(dest));
        }
        if inode.is_symlink() {
            match follow(fs, t.path.as_str(), &inode) {
                Err(ExtError::Pending(p)) => {
                    self.phase = Phase::Examine(t);
                    return Err(ExtError::Pending(p));
                },
                Err(e) => {
                    self.give_up(t.path.as_str(), e.message().as_str());
                },
                Ok(Link::Broken(text)) => {
                    report(&mut self.errors, text);
                },
                Ok(Link::Leads(ino)) => {
                    let behind = t.behind_link(ino);
                    proof {
                        lemma_push_view(self.stack@, behind);
                    }
                    self.stack.push(behind);
                },
            }
            return Ok(Request::Proceed);
        }
        self.phase = Phase::Write(t, FileWrite::new(inode));
        Ok(Request::Proceed)
    }

    fn list(&mut self, fs: &Ext4, t: Task, inode: Inode) -> (r: Result<Request>)
        requires
            fs.wf(),
            old(self)@.phase is Next,
            t.depth <= MAX_TREE_DEPTH,
        ensures
            final(self).wf(),
            match r {
                Ok(request) => old(self)@.in_phase(PhaseView::List(t@, inode@)).listed(
                    fs@,
                    t@,
                    inode@,
                ) == Ok::<_, Fault>((final(self)@, request@)),
                Err(e) => old(self)@.in_phase(PhaseView::List(t@, inode@)).listed(
                    fs@,
                    t@,
                    inode@,
                ) == Err::<(ExtractionView, RequestView), _>(e@) && final(self)@
                    == old(self)@.in_phase(PhaseView::List(t@, inode@)),
            },
    {
        match fs.list_dir(&inode) {
            Err(ExtError::Pending(p)) => {
                self.phase = Phase::List(t, inode);
                Err(ExtError::Pending(p))
            },
            Err(e) => {
                self.give_up(t.path.as_str(), e.message().as_str());
                Ok(Request::Proceed)
            },
            Ok(entries) => {
                let children = t.children(&entries);
                stack_up(&mut self.stack, children);
                Ok(Request::Proceed)
            },
        }
    }

    fn write(&mut self, fs: &Ext4, t: Task, w: FileWrite) -> (r: Result<Request>)
        requires
            fs.wf(),
            old(self)@.phase is Next,
            !w@.awaits(),
        ensures
            final(self).wf(),
            match r {
                Ok(request) => old(self)@.in_phase(PhaseView::Write(t@, w@)).writing(fs@, t@, w@)
                    == Ok::<_, Fault>((final(self)@, request@)),
                Err(e) => old(self)@.in_phase(PhaseView::Write(t@, w@)).writing(fs@, t@, w@)
                    == Err::<(ExtractionView, RequestView), _>(e@) && final(self)@
                    == old(self)@.in_phase(PhaseView::Write(t@, w@)),
            },
    {
        let mut w = w;
        match w.request(fs) {
            Err(e) => {
                self.phase = Phase::Write(t, w);
                Err(e)
            },
            Ok(FileRequest::Finished) => {
                if let Some(text) = w.failure {
                    self.give_up(t.path.as_str(), text.as_str());
                }
                Ok(Request::Proceed)
            },
            Ok(FileRequest::Create) => {
                let dest = copy_texts(&t.dest);
                self.phase = Phase::Write(t, w);
                Ok(Request::Create(dest))
            },
            Ok(FileRequest::Append(piece)) => {
                self.phase = Phase::Write(t, w);
                Ok(Request::Append(piece))
            },
            Ok(FileRequest::Flush) => {
                self.phase = Phase::Write(t, w);
                Ok(Request::Flush)
            },
        }
    }

    /// Takes note of how the requested action went.
    pub fn answer(&mut self, report: Report, prog: &mut CopyProgress)
        requires
            old(self).wf(),
            old(self)@.awaits(),
        ensures
            final(self).wf(),
            (final(self)@, final(prog)@) == old(self)@.answered(
                report_view(report),
                old(prog)@,
            ),
    {
        let mut phase = Phase::Next;
        std::mem::swap(&mut phase, &mut self.phase);
        match phase {
            Phase::MakingDir(t, inode) => match report {
                Ok(_) => {
                    self.phase = Phase::List(t, inode);
                },
                Err(text) => {
                    self.give_up(t.path.as_str(), text.as_str());
                },
            },
            Phase::Write(t, w) => {
                let mut w = w;
                let creating = match w.stage {
                    Stage::Creating => true,
                    _ => false,
                };
                if creating && report.is_ok() {
                    prog.add_bytes(w.inode.size);
                }
                w.answer(report);
                self.phase = Phase::Write(t, w);
            },
            other => {
                self.phase = other;
            },
        }
    }
}

} // verus!
