//! Planning a parallel copy: the tree is listed into jobs that can be done in any order by
//! several workers.

use crate::count::{is_dot, MAX_TREE_DEPTH};
use crate::dir::{dir_listing, law_listing_settled, DirEntryView};
use crate::error::{fault_text, ExtError, Fault, Outcome, Result};
use crate::inode::Inode;
use crate::tasks::{
    child_task, child_tasks, complain, complaint, copy_texts, follow, follow_link,
    law_link_settled, report, root_task, task_behind, tasks_view, too_deep_message,
    too_deep_text, Link, LinkEnd, Task, TaskView,
};
use crate::text::texts;
use crate::volume::{inode_at, law_inode_settled, Ext4, VolumeView};
use vstd::prelude::*;

verus! {

/// A piece of work for a copying worker. Destinations are names to append to the place that
/// the copy goes to.
pub enum Job {
    Dir(Vec<String>),
    /// Write the contents of an inode to a file.
    File(u32, Vec<String>),
}

pub enum JobView {
    Dir(Seq<Seq<char>>),
    File(u32, Seq<Seq<char>>),
}

impl View for Job {
    type V = JobView;

    open spec fn view(&self) -> JobView {
        match *self {
            Job::Dir(dest) => JobView::Dir(texts(dest@)),
            Job::File(ino, dest) => JobView::File(ino, texts(dest@)),
        }
    }
}

pub open spec fn jobs_view(s: Seq<Job>) -> Seq<JobView> {
    Seq::new(s.len(), |i: int| s[i]@)
}

/// Jobs and reports collected so far.
#[verifier::ext_equal]
pub struct Plan {
    pub jobs: Seq<JobView>,
    pub errors: Seq<Seq<char>>,
}

impl Plan {
    pub open spec fn job(self, j: JobView) -> Plan {
        Plan { jobs: self.jobs.push(j), ..self }
    }

    pub open spec fn error(self, text: Seq<char>) -> Plan {
        Plan { errors: self.errors.push(text), ..self }
    }

    /// With the report that goes with taking up `t`.
    pub open spec fn warned(self, t: TaskView) -> Plan {
        match t.warning {
            None => self,
            Some(text) => self.error(text),
        }
    }
}

/// `plan` with the jobs for the item `t` and everything below it.
pub open spec fn tree_plan(v: VolumeView, t: TaskView, plan: Plan) -> Outcome<Plan>
    decreases MAX_TREE_DEPTH + 1 - t.depth, 0int,
{
    let begun = plan.warned(t);
    if t.depth > MAX_TREE_DEPTH {
        Ok(begun.error(too_deep_text(t.path)))
    } else {
        match inode_at(v, t.ino) {
            Err(Fault::Pending(p)) => Err(Fault::Pending(p)),
            Err(f) => Ok(begun.error(complaint(t.path, fault_text(f)))),
            Ok(inode) => if inode.is_dir() {
                let made = begun.job(JobView::Dir(t.dest));
                match dir_listing(v, inode) {
                    Err(Fault::Pending(p)) => Err(Fault::Pending(p)),
                    Err(f) => Ok(made.error(complaint(t.path, fault_text(f)))),
                    Ok(entries) => forest_plan(v, t, entries, 0, made),
                }
            } else if inode.is_symlink() {
                match follow_link(v, t.path, inode) {
                    Err(Fault::Pending(p)) => Err(Fault::Pending(p)),
                    Err(f) => Ok(begun.error(complaint(t.path, fault_text(f)))),
                    Ok(LinkEnd::Broken(text)) => Ok(begun.error(text)),
                    Ok(LinkEnd::Leads(ino)) => match inode_at(v, ino) {
                        Err(Fault::Pending(p)) => Err(Fault::Pending(p)),
                        Err(_) => Ok(begun.job(JobView::File(ino, t.dest))),
                        Ok(found) => if found.is_dir() {
                            tree_plan(v, task_behind(t, ino), begun)
                        } else {
                            Ok(begun.job(JobView::File(ino, t.dest)))
                        },
                    },
                }
            } else {
                Ok(begun.job(JobView::File(t.ino, t.dest)))
            },
        }
    }
}

/// `plan` with the jobs for the entries of the directory of `t`, from the `i`-th on.
pub open spec fn forest_plan(
    v: VolumeView,
    t: TaskView,
    entries: Seq<DirEntryView>,
    i: int,
    plan: Plan,
) -> Outcome<Plan>
    decreases MAX_TREE_DEPTH - t.depth, 1 + entries.len() - i,
{
    if i >= entries.len() || i < 0 || t.depth > MAX_TREE_DEPTH {
        Ok(plan)
    } else if is_dot(entries[i].name) {
        forest_plan(v, t, entries, i + 1, plan)
    } else {
        match tree_plan(v, child_task(t, entries[i]), plan) {
            Err(e) => Err(e),
            Ok(more) => forest_plan(v, t, entries, i + 1, more),
        }
    }
}

/// What a walk still has to come to.
pub enum Item {
    Visit(Task),
    /// All that a symbolic link leads to has been visited.
    LinkDone,
}

pub enum ItemView {
    Visit(TaskView),
    LinkDone,
}

impl View for Item {
    type V = ItemView;

    open spec fn view(&self) -> ItemView {
        match *self {
            Item::Visit(t) => ItemView::Visit(t@),
            Item::LinkDone => ItemView::LinkDone,
        }
    }
}

pub open spec fn items_view(s: Seq<Item>) -> Seq<ItemView> {
    Seq::new(s.len(), |i: int| s[i]@)
}

pub open spec fn visits(tasks: Seq<TaskView>) -> Seq<ItemView> {
    Seq::new(tasks.len(), |i: int| ItemView::Visit(tasks[i]))
}

/// `plan` with the jobs for all that is on the stack, its top first.
pub open spec fn stack_plan(v: VolumeView, stack: Seq<ItemView>, plan: Plan) -> Outcome<Plan>
    decreases stack.len(),
{
    if stack.len() == 0 {
        Ok(plan)
    } else {
        match stack.last() {
            ItemView::LinkDone => stack_plan(v, stack.drop_last(), plan),
            ItemView::Visit(t) => match tree_plan(v, t, plan) {
                Err(e) => Err(e),
                Ok(more) => stack_plan(v, stack.drop_last(), more),
            },
        }
    }
}

#[verifier::ext_equal]
pub struct WalkView {
    pub stack: Seq<ItemView>,
    pub plan: Plan,
}

/// What a cancelled walk leaves on the stack: everything up to the innermost symbolic link
/// that is being followed is dropped.
pub open spec fn unwound(stack: Seq<ItemView>) -> Seq<ItemView>
    decreases stack.len(),
{
    if stack.len() == 0 {
        stack
    } else if stack.last() is LinkDone {
        stack.drop_last()
    } else {
        unwound(stack.drop_last())
    }
}

impl WalkView {
    /// What the walk comes to if it is not cancelled.
    pub open spec fn outcome(self, v: VolumeView) -> Outcome<Plan> {
        stack_plan(v, self.stack, self.plan)
    }

    /// Goes on below the top of the stack, with `plan`.
    pub open spec fn past_top(self, plan: Plan) -> WalkView {
        WalkView { stack: self.stack.drop_last(), plan }
    }

    /// Visits the item `t` on top of the stack.
    pub open spec fn visited(self, v: VolumeView, t: TaskView) -> Outcome<WalkView> {
        let begun = self.plan.warned(t);
        match inode_at(v, t.ino) {
            Err(Fault::Pending(p)) => Err(Fault::Pending(p)),
            Err(f) => Ok(self.past_top(begun.error(complaint(t.path, fault_text(f))))),
            Ok(inode) => if inode.is_dir() {
                let made = begun.job(JobView::Dir(t.dest));
                match dir_listing(v, inode) {
                    Err(Fault::Pending(p)) => Err(Fault::Pending(p)),
                    Err(f) => Ok(self.past_top(made.error(complaint(t.path, fault_text(f))))),
                    Ok(entries) => Ok(
                        WalkView {
                            stack: self.stack.drop_last() + visits(
                                child_tasks(t, entries, 0),
                            ).reverse(),
                            plan: made,
                        },
                    ),
                }
            } else if inode.is_symlink() {
                match follow_link(v, t.path, inode) {
                    Err(Fault::Pending(p)) => Err(Fault::Pending(p)),
                    Err(f) => Ok(self.past_top(begun.error(complaint(t.path, fault_text(f))))),
                    Ok(LinkEnd::Broken(text)) => Ok(self.past_top(begun.error(text))),
                    Ok(LinkEnd::Leads(ino)) => match inode_at(v, ino) {
                        Err(Fault::Pending(p)) => Err(Fault::Pending(p)),
                        Err(_) => Ok(self.past_top(begun.job(JobView::File(ino, t.dest)))),
                        Ok(found) => if found.is_dir() {
                            Ok(
                                WalkView {
                                    stack: self.stack.drop_last().push(ItemView::LinkDone).push(
                                        ItemView::Visit(task_behind(t, ino)),
                                    ),
                                    plan: begun,
                                },
                            )
                        } else {
                            Ok(self.past_top(begun.job(JobView::File(ino, t.dest))))
                        },
                    },
                }
            } else {
                Ok(self.past_top(begun.job(JobView::File(t.ino, t.dest))))
            },
        }
    }

    /// One step of the walk. The error is always a missing block.
    pub open spec fn stepped(self, v: VolumeView, cancelled: bool) -> Outcome<WalkView> {
        if self.stack.len() == 0 {
            Ok(self)
        } else {
            match self.stack.last() {
                ItemView::LinkDone => Ok(self.past_top(self.plan)),
                ItemView::Visit(t) => if cancelled {
                    Ok(
                        WalkView {
                            stack: unwound(self.stack.drop_last()),
                            plan: self.plan.warned(t),
                        },
                    )
                } else if t.depth > MAX_TREE_DEPTH {
                    Ok(self.past_top(self.plan.warned(t).error(too_deep_text(t.path))))
                } else {
                    self.visited(v, t)
                },
            }
        }
    }
}

/// Planning the children on the stack is planning the entries, and then what lies below.
proof fn lemma_children(
    v: VolumeView,
    base: Seq<ItemView>,
    t: TaskView,
    entries: Seq<DirEntryView>,
    i: int,
    plan: Plan,
)
    requires
        0 <= i,
        t.depth <= MAX_TREE_DEPTH,
    ensures
        stack_plan(v, base + visits(child_tasks(t, entries, i)).reverse(), plan)
            == match forest_plan(v, t, entries, i, plan) {
            Err(e) => Err(e),
            Ok(more) => stack_plan(v, base, more),
        },
    decreases entries.len() - i,
{
    let here = visits(child_tasks(t, entries, i)).reverse();
    if i >= entries.len() {
        assert(base + here =~= base);
    } else if is_dot(entries[i].name) {
        lemma_children(v, base, t, entries, i + 1, plan);
    } else {
        let rest = visits(child_tasks(t, entries, i + 1)).reverse();
        let top = child_task(t, entries[i]);
        assert(here =~= rest.push(ItemView::Visit(top)));
        assert((base + here).drop_last() =~= base + rest);
        if let Ok(more) = tree_plan(v, top, plan) {
            lemma_children(v, base, t, entries, i + 1, more);
        }
    }
}

/// A step that is not cancelled changes nothing about what the walk comes to, on this
/// volume and on any that it grows to: however often the walk has to wait for a block, its
/// plan is the one of the whole tree.
pub proof fn law_step_keeps_plan(v: VolumeView, w: VolumeView, st: WalkView)
    requires
        v.grows_to(w),
    ensures
        st.stepped(v, false) matches Ok(next) ==> next.outcome(w) == st.outcome(w),
        st.stepped(v, false) matches Err(f) ==> {
            &&& f matches Fault::Pending(p)
            &&& !v.blocks.contains_key(p)
            &&& st.outcome(v) == Err::<Plan, _>(f)
        },
{
    if st.stack.len() > 0 {
        if let ItemView::Visit(t) = st.stack.last() {
            if t.depth <= MAX_TREE_DEPTH {
                lemma_visit_keeps_plan(v, w, st, t);
            }
        }
    }
}

#[verifier::rlimit(40)]
proof fn lemma_visit_keeps_plan(v: VolumeView, w: VolumeView, st: WalkView, t: TaskView)
    requires
        v.grows_to(w),
        st.stack.len() > 0,
        st.stack.last() == ItemView::Visit(t),
        t.depth <= MAX_TREE_DEPTH,
    ensures
        st.visited(v, t) matches Ok(next) ==> next.outcome(w) == st.outcome(w),
        st.visited(v, t) matches Err(f) ==> {
            &&& f matches Fault::Pending(p)
            &&& !v.blocks.contains_key(p)
            &&& st.outcome(v) == Err::<Plan, _>(f)
        },
{
    let base = st.stack.drop_last();
    let begun = st.plan.warned(t);
    law_inode_settled(v, w, t.ino);
    if let Ok(inode) = inode_at(v, t.ino) {
        if inode.is_dir() {
            law_listing_settled(v, w, inode);
            if let Ok(entries) = dir_listing(v, inode) {
                lemma_children(w, base, t, entries, 0, begun.job(JobView::Dir(t.dest)));
            }
        } else if inode.is_symlink() {
            law_link_settled(v, w, t.path, inode);
            if let Ok(LinkEnd::Leads(ino)) = follow_link(v, t.path, inode) {
                law_inode_settled(v, w, ino);
                let marked = base.push(ItemView::LinkDone);
                let behind = marked.push(ItemView::Visit(task_behind(t, ino)));
                assert(behind.drop_last() =~= marked);
                assert(marked.drop_last() =~= base);
                reveal_with_fuel(stack_plan, 3);
            }
        }
    }
}

/// How many steps the walk of the item `t` and everything below it takes.
pub open spec fn tree_steps(v: VolumeView, t: TaskView) -> nat
    decreases MAX_TREE_DEPTH + 1 - t.depth, 0int,
{
    if t.depth > MAX_TREE_DEPTH {
        1
    } else {
        match inode_at(v, t.ino) {
            Err(_) => 1,
            Ok(inode) => if inode.is_dir() {
                match dir_listing(v, inode) {
                    Err(_) => 1,
                    Ok(entries) => 1 + forest_steps(v, t, entries, 0),
                }
            } else {
                match follow_link(v, t.path, inode) {
                    Ok(LinkEnd::Leads(ino)) => 2 + tree_steps(v, task_behind(t, ino)),
                    _ => 1,
                }
            },
        }
    }
}

/// The same for the entries of the directory of `t`, from the `i`-th on.
pub open spec fn forest_steps(v: VolumeView, t: TaskView, entries: Seq<DirEntryView>, i: int) -> nat
    decreases MAX_TREE_DEPTH - t.depth, 1 + entries.len() - i,
{
    if i >= entries.len() || i < 0 || t.depth > MAX_TREE_DEPTH {
        0
    } else if is_dot(entries[i].name) {
        forest_steps(v, t, entries, i + 1)
    } else {
        tree_steps(v, child_task(t, entries[i])) + forest_steps(v, t, entries, i + 1)
    }
}

/// How many steps the walk of all that is on the stack takes.
pub open spec fn stack_steps(v: VolumeView, stack: Seq<ItemView>) -> nat
    decreases stack.len(),
{
    if stack.len() == 0 {
        0
    } else {
        stack_steps(v, stack.drop_last()) + match stack.last() {
            ItemView::LinkDone => 1,
            ItemView::Visit(t) => tree_steps(v, t),
        }
    }
}

proof fn lemma_children_steps(
    v: VolumeView,
    base: Seq<ItemView>,
    t: TaskView,
    entries: Seq<DirEntryView>,
    i: int,
)
    requires
        0 <= i,
        t.depth <= MAX_TREE_DEPTH,
    ensures
        stack_steps(v, base + visits(child_tasks(t, entries, i)).reverse()) == stack_steps(v, base)
            + forest_steps(v, t, entries, i),
    decreases entries.len() - i,
{
    let here = visits(child_tasks(t, entries, i)).reverse();
    if i >= entries.len() {
        assert(base + here =~= base);
    } else if is_dot(entries[i].name) {
        lemma_children_steps(v, base, t, entries, i + 1);
    } else {
        let rest = visits(child_tasks(t, entries, i + 1)).reverse();
        let top = child_task(t, entries[i]);
        assert(here =~= rest.push(ItemView::Visit(top)));
        assert((base + here).drop_last() =~= base + rest);
        lemma_children_steps(v, base, t, entries, i + 1);
    }
}

/// A step that is not cancelled brings the walk nearer to its end, on any volume that the
/// present one grows to.
#[verifier::rlimit(40)]
pub proof fn law_plan_nears_its_end(v: VolumeView, w: VolumeView, st: WalkView)
    requires
        v.grows_to(w),
        st.stack.len() > 0,
    ensures
        st.stepped(v, false) matches Ok(next) ==> stack_steps(w, next.stack) < stack_steps(
            w,
            st.stack,
        ),
{
    if let ItemView::Visit(t) = st.stack.last() {
        let base = st.stack.drop_last();
        if t.depth <= MAX_TREE_DEPTH {
            law_inode_settled(v, w, t.ino);
            if let Ok(inode) = inode_at(v, t.ino) {
                law_listing_settled(v, w, inode);
                law_link_settled(v, w, t.path, inode);
                if inode.is_dir() {
                    if let Ok(entries) = dir_listing(v, inode) {
                        lemma_children_steps(w, base, t, entries, 0);
                    }
                } else if let Ok(LinkEnd::Leads(ino)) = follow_link(v, t.path, inode) {
                    let marked = base.push(ItemView::LinkDone);
                    let behind = marked.push(ItemView::Visit(task_behind(t, ino)));
                    assert(behind.drop_last() =~= marked);
                    assert(marked.drop_last() =~= base);
                    reveal_with_fuel(stack_steps, 3);
                }
            }
        }
    }
}

/// A cancelled step adds no job, and brings the walk nearer to its end.
pub proof fn law_cancelled_plan_ends(v: VolumeView, st: WalkView)
    requires
        st.stack.len() > 0,
    ensures
        st.stepped(v, true) matches Ok(next) && next.plan.jobs == st.plan.jobs && next.stack.len()
            < st.stack.len(),
{
    lemma_unwound_shorter(st.stack.drop_last());
}

proof fn lemma_unwound_shorter(stack: Seq<ItemView>)
    ensures
        unwound(stack).len() <= stack.len(),
    decreases stack.len(),
{
    if stack.len() > 0 && !(stack.last() is LinkDone) {
        lemma_unwound_shorter(stack.drop_last());
    }
}

/// A planning walk under way.
pub struct PlanWalk {
    pub stack: Vec<Item>,
    pub jobs: Vec<Job>,
    pub errors: Vec<String>,
}

impl View for PlanWalk {
    type V = WalkView;

    open spec fn view(&self) -> WalkView {
        WalkView {
            stack: items_view(self.stack@),
            plan: Plan { jobs: jobs_view(self.jobs@), errors: texts(self.errors@) },
        }
    }
}

proof fn lemma_item_push(s: Seq<Item>, x: Item)
    ensures
        items_view(s.push(x)) == items_view(s).push(x@),
{
    assert(items_view(s.push(x)) =~= items_view(s).push(x@));
}

/// Moves tasks onto a stack, the first on top.
fn stack_up(stack: &mut Vec<Item>, tasks: Vec<Task>)
    ensures
        items_view(final(stack)@) == items_view(old(stack)@) + visits(
            tasks_view(tasks@),
        ).reverse(),
{
    let ghost all = tasks_view(tasks@);
    let ghost before = items_view(old(stack)@);
    let mut left = tasks;
    assert(items_view(stack@) =~= before + visits(all.skip(left@.len() as int)).reverse());
    while left.len() > 0
        invariant
            left@.len() <= all.len(),
            tasks_view(left@) == all.take(left@.len() as int),
            before == items_view(old(stack)@),
            items_view(stack@) == before + visits(all.skip(left@.len() as int)).reverse(),
        decreases left@.len(),
    {
        let ghost n = left@.len() as int;
        let ghost waiting = left@;
        let ghost sofar = stack@;
        if let Some(t) = left.pop() {
            let x = Item::Visit(t);
            stack.push(x);
            proof {
                lemma_item_push(sofar, x);
                assert(left@ =~= waiting.drop_last());
                assert(tasks_view(left@) =~= all.take(n - 1));
                assert(all[n - 1] == t@) by {
                    assert(tasks_view(waiting)[n - 1] == t@);
                }
                assert(items_view(stack@) =~= before + visits(all.skip(n - 1)).reverse());
            }
        }
    }
    assert(all.skip(0) =~= all);
}

impl PlanWalk {
    /// Begins to plan the copy of inode `ino`, which `path` leads to.
    pub fn new(ino: u32, path: &str) -> (p: PlanWalk)
        ensures
            p@ == (WalkView {
                stack: seq![ItemView::Visit(root_task(ino, path@))],
                plan: Plan { jobs: Seq::empty(), errors: Seq::empty() },
            }),
            forall|v: VolumeView| #[trigger]
                p@.outcome(v) == tree_plan(
                    v,
                    root_task(ino, path@),
                    (Plan { jobs: Seq::empty(), errors: Seq::empty() }),
                ),
    {
        let mut stack: Vec<Item> = Vec::new();
        let t = Task::root(ino, path);
        stack.push(Item::Visit(t));
        let p = PlanWalk { stack, jobs: Vec::new(), errors: Vec::new() };
        proof {
            let top = ItemView::Visit(root_task(ino, path@));
            let none = Plan { jobs: Seq::empty(), errors: Seq::empty() };
            assert(p@.stack =~= seq![top]);
            assert(p@.plan =~= none);
            assert(p@.stack.drop_last() =~= Seq::empty());
            assert forall|v: VolumeView| #[trigger] p@.outcome(v) == tree_plan(
                v,
                root_task(ino, path@),
                none,
            ) by {
                reveal_with_fuel(stack_plan, 2);
            }
        }
        p
    }

    fn add_job(&mut self, job: Job)
        ensures
            final(self)@ == (WalkView { plan: old(self)@.plan.job(job@), ..old(self)@ }),
    {
        self.jobs.push(job);
        assert(jobs_view(self.jobs@) =~= jobs_view(old(self).jobs@).push(job@));
    }

    fn warn(&mut self, t: &Task)
        ensures
            final(self)@ == (WalkView { plan: old(self)@.plan.warned(t@), ..old(self)@ }),
    {
        if let Some(text) = &t.warning {
            report(&mut self.errors, text.clone());
        }
    }

    /// Drops what a cancelled walk no longer visits.
    fn unwind(&mut self)
        ensures
            final(self)@ == (WalkView { stack: unwound(old(self)@.stack), ..old(self)@ }),
    {
        while self.stack.len() > 0
            invariant_except_break
                unwound(self@.stack) == unwound(old(self)@.stack),
            invariant
                self@.plan == old(self)@.plan,
            ensures
                self@.stack == unwound(old(self)@.stack),
            decreases self.stack@.len(),
        {
            let ghost before = self@.stack;
            let top = self.stack.pop();
            assert(self@.stack =~= before.drop_last());
            if let Some(Item::LinkDone) = top {
                break;
            }
        }
    }

    /// Takes one step; false if there is none left to take.
    #[verifier::rlimit(40)]
    pub fn step(&mut self, fs: &Ext4, cancelled: bool) -> (r: Result<bool>)
        requires
            fs.wf(),
        ensures
            match r {
                Ok(more) => old(self)@.stepped(fs@, cancelled) == Ok::<_, Fault>(final(self)@)
                    && more == (final(self)@.stack.len() > 0),
                Err(e) => old(self)@.stepped(fs@, cancelled) == Err::<WalkView, _>(e@)
                    && final(self)@ == old(self)@,
            },
    {
        let ghost before = self.stack@;
        match self.stack.pop() {
            None => {
                return Ok(false);
            },
            Some(Item::LinkDone) => {
                assert(items_view(self.stack@) =~= items_view(before).drop_last());
            },
            Some(Item::Visit(t)) => {
                assert(items_view(self.stack@) =~= items_view(before).drop_last());
                assert(items_view(before).last() == ItemView::Visit(t@));
                assert(WalkView {
                    stack: self@.stack.push(ItemView::Visit(t@)),
                    ..self@
                } =~= old(self)@);
                if cancelled {
                    self.warn(&t);
                    self.unwind();
                } else if t.depth > MAX_TREE_DEPTH {
                    self.warn(&t);
                    let text = too_deep_message(t.path.as_str());
                    report(&mut self.errors, text);
                } else if let Err(p) = self.visit(fs, &t) {
                    let x = Item::Visit(t);
                    proof {
                        lemma_item_push(self.stack@, x);
                    }
                    self.stack.push(x);
                    assert(self@.stack =~= items_view(before));
                    return Err(ExtError::Pending(p));
                }
            },
        }
        Ok(self.stack.len() > 0)
    }

    /// Walks on, without being cancelled, until the plan is complete or a block is missing.
    /// What has been planned stays planned, and the plan comes to what it would have come to
    /// on any volume that the present one grows to.
    #[verifier::rlimit(40)]
    pub fn run(&mut self, fs: &Ext4) -> (r: Result<()>)
        requires
            fs.wf(),
        ensures
            match r {
                Ok(_) => old(self)@.outcome(fs@) == Ok::<_, Fault>(final(self)@.plan)
                    && final(self)@.stack.len() == 0,
                Err(e) => old(self)@.outcome(fs@) == Err::<Plan, _>(e@),
            },
            forall|w: VolumeView| #[trigger]
                fs@.grows_to(w) ==> final(self)@.outcome(w) == old(self)@.outcome(w),
    {
        let ghost v = fs@;
        let mut more = self.stack.len() > 0;
        assert(v.grows_to(v));
        while more
            invariant
                fs.wf(),
                v == fs@,
                v.grows_to(v),
                more == (self@.stack.len() > 0),
                forall|w: VolumeView| #[trigger]
                    v.grows_to(w) ==> self@.outcome(w) == old(self)@.outcome(w),
            decreases stack_steps(v, self@.stack),
        {
            let ghost before = self@;
            proof {
                law_plan_nears_its_end(v, v, before);
                assert forall|w: VolumeView| #[trigger] v.grows_to(w) implies (before.stepped(
                    v,
                    false,
                ) matches Ok(next) ==> next.outcome(w) == before.outcome(w)) by {
                    law_step_keeps_plan(v, w, before);
                }
                law_step_keeps_plan(v, v, before);
            }
            more = self.step(fs, false)?;
        }
        Ok(())
    }

    /// Visits `t`, which has been taken off the stack. The error is a missing block, and
    /// then nothing has changed.
    #[verifier::rlimit(40)]
    fn visit(&mut self, fs: &Ext4, t: &Task) -> (r: std::result::Result<(), u64>)
        requires
            fs.wf(),
            t.depth <= MAX_TREE_DEPTH,
        ensures
            ({
                let whole = WalkView {
                    stack: old(self)@.stack.push(ItemView::Visit(t@)),
                    ..old(self)@
                };
                match r {
                    Ok(_) => whole.visited(fs@, t@) == Ok::<_, Fault>(final(self)@),
                    Err(p) => whole.visited(fs@, t@) == Err::<WalkView, _>(Fault::Pending(p))
                        && final(self)@ == old(self)@,
                }
            }),
    {
        proof {
            assert(self@.stack.push(ItemView::Visit(t@)).drop_last() =~= self@.stack);
        }
        let inode = match fs.read_inode(t.ino) {
            Ok(inode) => inode,
            Err(ExtError::Pending(p)) => {
                return Err(p);
            },
            Err(e) => {
                self.warn(t);
                complain(&mut self.errors, t.path.as_str(), e.message().as_str());
                return Ok(());
            },
        };
        if inode.is_dir() {
            return self.visit_dir(fs, t, &inode);
        }
        if inode.is_symlink() {
            return self.visit_link(fs, t, &inode);
        }
        self.warn(t);
        self.add_job(Job::File(t.ino, copy_texts(&t.dest)));
        Ok(())
    }

    fn visit_dir(&mut self, fs: &Ext4, t: &Task, inode: &Inode) -> (r: std::result::Result<
        (),
        u64,
    >)
        requires
            fs.wf(),
            t.depth <= MAX_TREE_DEPTH,
        ensures
            ({
                let made = old(self)@.plan.warned(t@).job(JobView::Dir(t@.dest));
                match r {
                    Ok(_) => match dir_listing(fs@, inode@) {
                        Err(f) => !(f is Pending) && final(self)@ == (WalkView {
                            plan: made.error(complaint(t@.path, fault_text(f))),
                            ..old(self)@
                        }),
                        Ok(entries) => final(self)@ == (WalkView {
                            stack: old(self)@.stack + visits(
                                child_tasks(t@, entries, 0),
                            ).reverse(),
                            plan: made,
                        }),
                    },
                    Err(p) => dir_listing(fs@, inode@) == Err::<Seq<DirEntryView>, _>(
                        Fault::Pending(p),
                    ) && final(self)@ == old(self)@,
                }
            }),
    {
        match fs.list_dir(inode) {
            Err(ExtError::Pending(p)) => Err(p),
            Err(e) => {
                self.warn(t);
                self.add_job(Job::Dir(copy_texts(&t.dest)));
                complain(&mut self.errors, t.path.as_str(), e.message().as_str());
                Ok(())
            },
            Ok(entries) => {
                self.warn(t);
                self.add_job(Job::Dir(copy_texts(&t.dest)));
                let children = t.children(&entries);
                stack_up(&mut self.stack, children);
                Ok(())
            },
        }
    }

    fn visit_link(&mut self, fs: &Ext4, t: &Task, inode: &Inode) -> (r: std::result::Result<
        (),
        u64,
    >)
        requires
            fs.wf(),
            t.depth <= MAX_TREE_DEPTH,
        ensures
            ({
                let begun = old(self)@.plan.warned(t@);
                let link = follow_link(fs@, t@.path, inode@);
                match r {
                    Ok(_) => match link {
                        Err(f) => !(f is Pending) && final(self)@ == (WalkView {
                            plan: begun.error(complaint(t@.path, fault_text(f))),
                            ..old(self)@
                        }),
                        Ok(LinkEnd::Broken(text)) => final(self)@ == (WalkView {
                            plan: begun.error(text),
                            ..old(self)@
                        }),
                        Ok(LinkEnd::Leads(ino)) => match inode_at(fs@, ino) {
                            Err(f) => !(f is Pending) && final(self)@ == (WalkView {
                                plan: begun.job(JobView::File(ino, t@.dest)),
                                ..old(self)@
                            }),
                            Ok(found) => final(self)@ == if found.is_dir() {
                                WalkView {
                                    stack: old(self)@.stack.push(ItemView::LinkDone).push(
                                        ItemView::Visit(task_behind(t@, ino)),
                                    ),
                                    plan: begun,
                                }
                            } else {
                                WalkView {
                                    plan: begun.job(JobView::File(ino, t@.dest)),
                                    ..old(self)@
                                }
                            },
                        },
                    },
                    Err(p) => final(self)@ == old(self)@ && (link == Err::<LinkEnd, _>(
                        Fault::Pending(p),
                    ) || (link matches Ok(LinkEnd::Leads(ino)) && inode_at(fs@, ino) matches Err(
                        Fault::Pending(q),
                    ) && p == q)),
                }
            }),
    {
        match follow(fs, t.path.as_str(), inode) {
            Err(ExtError::Pending(p)) => Err(p),
            Err(e) => {
                self.warn(t);
                complain(&mut self.errors, t.path.as_str(), e.message().as_str());
                Ok(())
            },
            Ok(Link::Broken(text)) => {
                self.warn(t);
                report(&mut self.errors, text);
                Ok(())
            },
            Ok(Link::Leads(ino)) => {
                let is_dir = match fs.read_inode(ino) {
                    Err(ExtError::Pending(p)) => {
                        return Err(p);
                    },
                    Err(_) => false,
                    Ok(found) => found.is_dir(),
                };
                self.warn(t);
                if is_dir {
                    let behind = Item::Visit(t.behind_link(ino));
                    let ghost base = self.stack@;
                    self.stack.push(Item::LinkDone);
                    self.stack.push(behind);
                    proof {
                        lemma_item_push(base, Item::LinkDone);
                        lemma_item_push(base.push(Item::LinkDone), behind);
                    }
                } else {
                    self.add_job(Job::File(ino, copy_texts(&t.dest)));
                }
                Ok(())
            },
        }
    }
}

} // verus!
