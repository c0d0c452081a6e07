//! What the copying walks have in common: the items they visit, and how they word what
//! went wrong.

use crate::data::{file_data, law_data_settled};
use crate::count::is_dot;
use crate::dir::{entries_view, DirEntry, DirEntryView};
use crate::error::{fault_text, ExtError, Fault, Outcome, Result};
use crate::inode::{Inode, InodeView};
use crate::names::{safe_name, sanitize_name};
use crate::path::{
    is_absolute, join_path, joined_text, law_joined_paths, law_resolved_settled, parent_of,
    parent_text, resolved, starts_with_slash,
};
use crate::text::{components, from_utf8_lossy, lossy_text, texts};
use crate::volume::{settled, Ext4, VolumeView};
use vstd::prelude::*;
use vstd::string::*;

verus! {

/// An item to be copied.
pub struct Task {
    pub ino: u32,
    /// Its path inside the volume.
    pub path: String,
    /// Where its copy goes: the names to append to the destination, one below the other.
    pub dest: Vec<String>,
    /// How many levels below the start of the walk it lies.
    pub depth: u32,
    /// What to report when it is taken up.
    pub warning: Option<String>,
}

#[verifier::ext_equal]
pub struct TaskView {
    pub ino: u32,
    pub path: Seq<char>,
    pub dest: Seq<Seq<char>>,
    pub depth: u32,
    pub warning: Option<Seq<char>>,
}

pub open spec fn text_view(s: Option<String>) -> Option<Seq<char>> {
    match s {
        None => None,
        Some(t) => Some(t@),
    }
}

impl View for Task {
    type V = TaskView;

    open spec fn view(&self) -> TaskView {
        TaskView {
            ino: self.ino,
            path: self.path@,
            dest: texts(self.dest@),
            depth: self.depth,
            warning: text_view(self.warning),
        }
    }
}

pub open spec fn tasks_view(s: Seq<Task>) -> Seq<TaskView> {
    Seq::new(s.len(), |i: int| s[i]@)
}

/// The start of a walk.
pub open spec fn root_task(ino: u32, path: Seq<char>) -> TaskView {
    TaskView { ino, path, dest: Seq::empty(), depth: 0, warning: None }
}

/// "path: what happened".
pub open spec fn complaint(path: Seq<char>, what: Seq<char>) -> Seq<char> {
    path + ": "@ + what
}

pub open spec fn rename_text(path: Seq<char>, safe: Seq<char>) -> Seq<char> {
    path + ": renamed to '"@ + safe + "' for Windows compatibility"@
}

pub open spec fn too_deep_text(path: Seq<char>) -> Seq<char> {
    "max depth exceeded at "@ + path + " (symlink loop?)"@
}

pub open spec fn broken_link_text(path: Seq<char>, target: Seq<char>, why: Seq<char>) -> Seq<
    char,
> {
    path + ": broken symlink ("@ + target + "): "@ + why
}

/// The task for an entry of the directory that `t` copies. Its copy has a name that Windows
/// accepts, and a warning tells if that is another name.
pub open spec fn child_task(t: TaskView, e: DirEntryView) -> TaskView {
    let path = joined_text(t.path, e.name);
    let safe = safe_name(e.name);
    TaskView {
        ino: e.ino,
        path,
        dest: t.dest.push(safe),
        depth: (t.depth + 1) as u32,
        warning: if safe != e.name {
            Some(rename_text(path, safe))
        } else {
            None
        },
    }
}

/// The tasks for the entries of a directory from the `i`-th on, "." and ".." left out.
pub open spec fn child_tasks(t: TaskView, entries: Seq<DirEntryView>, i: int) -> Seq<TaskView>
    decreases entries.len() - i,
{
    if i >= entries.len() || i < 0 {
        Seq::empty()
    } else if is_dot(entries[i].name) {
        child_tasks(t, entries, i + 1)
    } else {
        seq![child_task(t, entries[i])] + child_tasks(t, entries, i + 1)
    }
}

/// The copy of an entry goes into the copy of its directory: it has the names that lead to that,
/// and behind them the safe form of its own.
pub proof fn law_child_lies_in_its_directory(t: TaskView, e: DirEntryView)
    ensures
        ({
            let c = child_task(t, e);
            &&& c.dest.len() == t.dest.len() + 1
            &&& forall|i: int| 0 <= i < t.dest.len() ==> c.dest[i] == t.dest[i]
            &&& c.dest[t.dest.len() as int] == safe_name(e.name)
            &&& c.ino == e.ino
            &&& t.depth < u32::MAX ==> c.depth == t.depth + 1
            &&& c.warning is Some <==> safe_name(e.name) != e.name
        }),
{
}

/// The task for what is reached from `t` by way of these entries, one below the other.
pub open spec fn descended(t: TaskView, way: Seq<DirEntryView>) -> TaskView
    decreases way.len(),
{
    if way.len() == 0 {
        t
    } else {
        child_task(descended(t, way.drop_last()), way.last())
    }
}

/// What is reached by way of `k` entries has `k` more names than where the way began: in order,
/// the safe form of each entry's name. The copy of a tree is a tree of the same shape.
pub proof fn law_copy_keeps_the_way(t: TaskView, way: Seq<DirEntryView>)
    ensures
        ({
            let c = descended(t, way);
            &&& c.dest.len() == t.dest.len() + way.len()
            &&& forall|i: int| 0 <= i < t.dest.len() ==> c.dest[i] == t.dest[i]
            &&& forall|i: int|
                0 <= i < way.len() ==> #[trigger] c.dest[t.dest.len() + i] == safe_name(way[i].name)
            &&& t.depth + way.len() <= u32::MAX ==> c.depth == t.depth + way.len()
        }),
    decreases way.len(),
{
    if way.len() > 0 {
        law_copy_keeps_the_way(t, way.drop_last());
    }
}

/// Every entry of a directory but "." and ".." gets a task of its own, in the order in which they
/// are listed.
pub proof fn law_children_in_order(t: TaskView, entries: Seq<DirEntryView>)
    ensures
        child_tasks(t, entries, 0) == entries.filter(
            |e: DirEntryView| !(e.name == seq!['.'] || e.name == seq!['.', '.']),
        ).map_values(|e: DirEntryView| child_task(t, e)),
{
    lemma_children(t, entries, 0);
    assert(entries.skip(0) =~= entries);
}

proof fn lemma_children(t: TaskView, entries: Seq<DirEntryView>, i: int)
    requires
        0 <= i <= entries.len(),
    ensures
        child_tasks(t, entries, i) == entries.skip(i).filter(
            |e: DirEntryView| !(e.name == seq!['.'] || e.name == seq!['.', '.']),
        ).map_values(|e: DirEntryView| child_task(t, e)),
    decreases entries.len() - i,
{
    reveal_strlit(".");
    reveal_strlit("..");
    let pred = |e: DirEntryView| !(e.name == seq!['.'] || e.name == seq!['.', '.']);
    let f = |e: DirEntryView| child_task(t, e);
    reveal_with_fuel(Seq::filter, 2);
    if i < entries.len() {
        lemma_children(t, entries, i + 1);
        let head = seq![entries[i]];
        assert(entries.skip(i) =~= head + entries.skip(i + 1));
        Seq::filter_distributes_over_add(head, entries.skip(i + 1), pred);
        assert(head.drop_last() =~= Seq::empty());
        assert("."@ =~= seq!['.']);
        assert(".."@ =~= seq!['.', '.']);
        let rest = entries.skip(i + 1).filter(pred);
        if pred(entries[i]) {
            assert(head.filter(pred) =~= head);
            assert((head + rest).map_values(f) =~= seq![f(entries[i])] + rest.map_values(f));
        } else {
            assert(head.filter(pred) =~= Seq::empty());
            assert(Seq::empty() + rest =~= rest);
        }
    } else {
        assert(entries.skip(i) =~= Seq::empty());
        assert(child_tasks(t, entries, i) =~= Seq::empty());
    }
}

/// Where a symbolic link at `path` points: an absolute target as it is, a relative one
/// below the directory of the link.
pub open spec fn link_path(path: Seq<char>, target: Seq<char>) -> Seq<char> {
    if is_absolute(target) {
        target
    } else {
        joined_text(parent_text(path), target)
    }
}

/// What following a symbolic link comes to.
pub enum LinkEnd {
    Leads(u32),
    Broken(Seq<char>),
}

/// Follows the symbolic link `inode`, which stands at `path`. The error is about reading
/// the link itself, or a block that is missing.
pub open spec fn follow_link(v: VolumeView, path: Seq<char>, inode: InodeView) -> Outcome<LinkEnd> {
    let target = lossy_text(file_data(v, inode).bytes);
    match file_data(v, inode).end {
        Err(e) => Err(e),
        Ok(_) => match resolved(v, link_path(path, target)) {
            Ok(ino) => Ok(LinkEnd::Leads(ino)),
            Err(Fault::Pending(p)) => Err(Fault::Pending(p)),
            Err(f) => Ok(LinkEnd::Broken(broken_link_text(path, target, fault_text(f)))),
        },
    }
}

/// A relative target is found from the directory of the link on, an absolute one from the root.
pub proof fn law_where_links_point(path: Seq<char>, target: Seq<char>)
    ensures
        target.len() > 0 && target[0] == '/' ==> link_path(path, target) == target,
        target.len() == 0 || target[0] != '/' ==> components(link_path(path, target)) == components(
            parent_text(path),
        ) + components(target),
        target.len() == 0 || target[0] != '/' ==> parent_text(path).is_prefix_of(
            link_path(path, target),
        ),
{
    law_joined_paths(parent_text(path), target);
    if target.len() == 0 || target[0] != '/' {
        let p = parent_text(path);
        assert(link_path(path, target).subrange(0, p.len() as int) =~= p);
    }
}

/// A link leads to where the path of its target does. If that leads nowhere, the link is broken,
/// and the report tells its path, its target and why.
pub proof fn law_what_links_lead_to(
    v: VolumeView,
    path: Seq<char>,
    n: InodeView,
    target: Seq<char>,
)
    requires
        file_data(v, n).end is Ok,
        target == lossy_text(file_data(v, n).bytes),
    ensures
        match resolved(v, link_path(path, target)) {
            Ok(ino) => follow_link(v, path, n) == Ok::<_, Fault>(LinkEnd::Leads(ino)),
            Err(Fault::Pending(p)) => follow_link(v, path, n) == Err::<LinkEnd, _>(
                Fault::Pending(p),
            ),
            Err(f) => follow_link(v, path, n) == Ok::<_, Fault>(
                LinkEnd::Broken(
                    path + ": broken symlink ("@ + target + "): "@ + fault_text(f),
                ),
            ),
        },
{
}

/// A link that cannot be read leads nowhere.
pub proof fn law_unreadable_links(v: VolumeView, path: Seq<char>, n: InodeView)
    requires
        file_data(v, n).end is Err,
    ensures
        follow_link(v, path, n) == Err::<LinkEnd, _>(file_data(v, n).end->Err_0),
{
}

/// How things are put that went wrong.
pub proof fn law_wording(path: Seq<char>, what: Seq<char>)
    ensures
        complaint(path, what) == path + ": "@ + what,
        rename_text(path, what) == path + ": renamed to '"@ + what + "' for Windows compatibility"@,
        too_deep_text(path) == "max depth exceeded at "@ + path + " (symlink loop?)"@,
{
}

/// A walk begins at its path, with nothing to append to the destination.
pub proof fn law_start_of_a_walk(ino: u32, path: Seq<char>)
    ensures
        root_task(ino, path).ino == ino,
        root_task(ino, path).path == path,
        root_task(ino, path).dest.len() == 0,
        root_task(ino, path).depth == 0,
        root_task(ino, path).warning is None,
{
}

/// The path of an entry is that of its directory with its name behind it, and the warning tells
/// that path and the new name.
pub proof fn law_path_of_a_child(t: TaskView, e: DirEntryView)
    ensures
        components(child_task(t, e).path) == components(t.path) + components(e.name),
        t.path.len() > 0 && t.path.last() == '/' ==> child_task(t, e).path == t.path + e.name,
        t.path.len() == 0 || t.path.last() != '/' ==> child_task(t, e).path == t.path + seq!['/']
            + e.name,
        child_task(t, e).warning is Some ==> child_task(t, e).warning->Some_0 == child_task(
            t,
            e,
        ).path + ": renamed to '"@ + safe_name(e.name) + "' for Windows compatibility"@,
{
    law_joined_paths(t.path, e.name);
}

/// Following a link is settled.
pub proof fn law_link_settled(v: VolumeView, w: VolumeView, path: Seq<char>, inode: InodeView)
    requires
        v.grows_to(w),
    ensures
        settled(v, follow_link(v, path, inode), follow_link(w, path, inode)),
{
    law_data_settled(v, w, inode);
    let target = lossy_text(file_data(v, inode).bytes);
    law_resolved_settled(v, w, link_path(path, target));
}

/// A copy of a list of strings.
pub(crate) fn copy_texts(v: &Vec<String>) -> (out: Vec<String>)
    ensures
        texts(out@) == texts(v@),
{
    let mut out: Vec<String> = Vec::new();
    let mut i: usize = 0;
    while i < v.len()
        invariant
            i <= v@.len(),
            out@.len() == i,
            forall|k: int| 0 <= k < i ==> out@[k]@ == v@[k]@,
        decreases v@.len() - i,
    {
        out.push(v[i].clone());
        i = i + 1;
    }
    assert(texts(out@) =~= texts(v@));
    out
}

/// Appends "path: what" to the errors.
pub(crate) fn complain(errors: &mut Vec<String>, path: &str, what: &str)
    ensures
        texts(final(errors)@) == texts(old(errors)@).push(complaint(path@, what@)),
{
    let mut text = path.to_owned();
    text.append(": ");
    text.append(what);
    report(errors, text);
}

pub(crate) fn report(errors: &mut Vec<String>, text: String)
    ensures
        texts(final(errors)@) == texts(old(errors)@).push(text@),
{
    errors.push(text);
    assert(texts(errors@) =~= texts(old(errors)@).push(text@));
}

pub(crate) fn too_deep_message(path: &str) -> (s: String)
    ensures
        s@ == too_deep_text(path@),
{
    let mut s = "max depth exceeded at ".to_owned();
    s.append(path);
    s.append(" (symlink loop?)");
    s
}

impl Task {
    /// The start of a walk.
    pub fn root(ino: u32, path: &str) -> (t: Task)
        ensures
            t@ == root_task(ino, path@),
    {
        let t = Task { ino, path: path.to_owned(), dest: Vec::new(), depth: 0, warning: None };
        assert(t@.dest =~= Seq::empty());
        t
    }

    /// The task for an entry of the directory that this one copies.
    pub fn child(&self, e: &DirEntry) -> (c: Task)
        requires
            self.depth < u32::MAX,
        ensures
            c@ == child_task(self@, e@),
    {
        let path = join_path(self.path.as_str(), e.name.as_str());
        let (safe, changed) = sanitize_name(e.name.as_str());
        let warning = if changed {
            let mut w = path.clone();
            w.append(": renamed to '");
            w.append(safe.as_str());
            w.append("' for Windows compatibility");
            Some(w)
        } else {
            None
        };
        let mut dest = copy_texts(&self.dest);
        let ghost above = dest@;
        dest.push(safe);
        assert(texts(dest@) =~= texts(above).push(safe@));
        Task { ino: e.ino, path, dest, depth: self.depth + 1, warning }
    }

    /// The tasks for the entries of the directory that this one copies, in their order.
    pub fn children(&self, entries: &Vec<DirEntry>) -> (out: Vec<Task>)
        requires
            self.depth < u32::MAX,
        ensures
            tasks_view(out@) == child_tasks(self@, entries_view(entries@), 0),
    {
        let dot = ".".to_owned();
        let dotdot = "..".to_owned();
        let ghost listed = entries_view(entries@);
        let ghost all = child_tasks(self@, listed, 0);
        let mut out: Vec<Task> = Vec::new();
        let mut i: usize = 0;
        assert(tasks_view(out@) + all =~= all);
        while i < entries.len()
            invariant
                i <= entries@.len(),
                self.depth < u32::MAX,
                dot@ == "."@,
                dotdot@ == ".."@,
                listed == entries_view(entries@),
                all == tasks_view(out@) + child_tasks(self@, listed, i as int),
                all == child_tasks(self@, listed, 0),
            decreases entries@.len() - i,
        {
            let e = &entries[i];
            assert(listed[i as int] == e@);
            if e.name != dot && e.name != dotdot {
                let ghost sofar = out@;
                let c = self.child(e);
                out.push(c);
                assert(tasks_view(out@) =~= tasks_view(sofar).push(c@));
                assert(all =~= tasks_view(out@) + child_tasks(self@, listed, i + 1));
            }
            i = i + 1;
        }
        assert(tasks_view(out@) + Seq::<TaskView>::empty() =~= tasks_view(out@));
        out
    }

    /// The task for what the link that this one copies leads to.
    pub fn behind_link(&self, ino: u32) -> (t: Task)
        requires
            self.depth < u32::MAX,
        ensures
            t@ == task_behind(self@, ino),
    {
        Task {
            ino,
            path: self.path.clone(),
            dest: copy_texts(&self.dest),
            depth: self.depth + 1,
            warning: None,
        }
    }
}

/// The task for what a link leads to: it takes the link's place, one level deeper.
pub open spec fn task_behind(t: TaskView, ino: u32) -> TaskView {
    TaskView { ino, path: t.path, dest: t.dest, depth: (t.depth + 1) as u32, warning: None }
}

/// What a link leads to is copied in the place of the link.
pub proof fn law_copied_in_place_of_a_link(t: TaskView, ino: u32)
    ensures
        task_behind(t, ino).ino == ino,
        task_behind(t, ino).path == t.path,
        task_behind(t, ino).dest == t.dest,
        t.depth < u32::MAX ==> task_behind(t, ino).depth == t.depth + 1,
        task_behind(t, ino).warning is None,
{
}

/// What following a symbolic link comes to.
pub enum Link {
    Leads(u32),
    /// It leads nowhere; holds the report.
    Broken(String),
}

impl View for Link {
    type V = LinkEnd;

    open spec fn view(&self) -> LinkEnd {
        match *self {
            Link::Leads(ino) => LinkEnd::Leads(ino),
            Link::Broken(text) => LinkEnd::Broken(text@),
        }
    }
}

/// Where a symbolic link at `path` with the given target points.
pub fn link_destination(path: &str, target: &str) -> (full: String)
    ensures
        full@ == link_path(path@, target@),
{
    if starts_with_slash(target) {
        target.to_owned()
    } else {
        let parent = parent_of(path);
        join_path(parent.as_str(), target)
    }
}

/// Follows the symbolic link `inode`, which stands at `path`.
pub fn follow(fs: &Ext4, path: &str, inode: &Inode) -> (r: Result<Link>)
    requires
        fs.wf(),
    ensures
        match r {
            Ok(link) => follow_link(fs@, path@, inode@) == Ok::<_, Fault>(link@),
            Err(e) => follow_link(fs@, path@, inode@) == Err::<LinkEnd, _>(e@),
        },
{
    let mut data: Vec<u8> = Vec::new();
    fs.read_inode_data(inode, &mut data)?;
    assert(data@ =~= file_data(fs@, inode@).bytes);
    let target = from_utf8_lossy(data.as_slice());
    let full = link_destination(path, target.as_str());
    match fs.resolve(full.as_str()) {
        Ok(ino) => Ok(Link::Leads(ino)),
        Err(ExtError::Pending(p)) => Err(ExtError::Pending(p)),
        Err(e) => {
            let mut text = path.to_owned();
            text.append(": broken symlink (");
            text.append(target.as_str());
            text.append("): ");
            let why = e.message();
            text.append(why.as_str());
            Ok(Link::Broken(text))
        },
    }
}

} // verus!
