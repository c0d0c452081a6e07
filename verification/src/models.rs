//! The models of the library's values show their fields as they are, and those of lists have one
//! element for each, in the same order.

use crate::browse::{nodes_view, rows_view, RowInfo, TreeNode};
use crate::cache::{answer_view, Answer};
use crate::device::{disks_view, DiskInfo};
use crate::dir::{entries_view, DirEntry};
use crate::error::{ExtError, Fault};
use crate::filewrite::{report_view, Report};
use crate::labels::PartRow;
use crate::partitions::{partitions_view, PartKind, PartKindView, Partition};
use crate::plan::{items_view, jobs_view, Item, ItemView, Job, JobView};
use crate::progress::CopyProgress;
use crate::selection::pairs_view;
use crate::tasks::{tasks_view, text_view, Task};
use crate::text::texts;
use vstd::prelude::*;

verus! {

/// The model of an error says what the error says.
pub proof fn law_error_model(m: String, i: u32, p: u64)
    ensures
        ExtError::Io(m)@ == Fault::Io(m@),
        ExtError::Corrupt(m)@ == Fault::Corrupt(m@),
        ExtError::NotFound(m)@ == Fault::NotFound(m@),
        ExtError::NotDir(i)@ == Fault::NotDir(i),
        ExtError::Unsupported(m)@ == Fault::Unsupported(m@),
        ExtError::Pending(p)@ == Fault::Pending(p),
{
}

/// Entries, rows, tree nodes and partitions are modelled field by field.
pub proof fn law_record_models(e: DirEntry, r: RowInfo, n: TreeNode, p: Partition, t: u8)
    ensures
        e@.ino == e.ino && e@.rec_len == e.rec_len && e@.name == e.name@ && e@.file_type
            == e.file_type,
        r@.ino == r.ino && r@.ft == r.ft && r@.size == r.size && r@.name == r.name@,
        n@.ino == n.ino && n@.name == n.name@ && n@.is_dir == n.is_dir,
        p@.index == p.index && p@.start_lba == p.start_lba && p@.sectors == p.sectors && p@.name
            == p.name@,
        p.kind == PartKind::Mbr(t) ==> p@.kind == PartKindView::Mbr(t),
        p.kind is Gpt ==> p@.kind == PartKindView::Gpt(p.kind->Gpt_0@),
{
}

/// So are tasks, the rows of partitions, disks and progress.
pub proof fn law_more_record_models(t: Task, r: PartRow, d: DiskInfo, c: CopyProgress)
    ensures
        t@.ino == t.ino && t@.path == t.path@ && t@.dest == texts(t.dest@) && t@.depth == t.depth
            && t@.warning == text_view(t.warning),
        r@.index == r.index && r@.start_bytes == r.start_bytes && r@.sectors == r.sectors && r@.name
            == r.name@ && r@.kind == r.kind@ && r@.fs == r.fs@,
        d@.path == d.path@ && d@.size == d.size,
        d.error is None ==> d@.error is None,
        d.error is Some ==> d@.error == Some(d.error->Some_0@),
        c@.total == c.total && c@.total_bytes == c.total_bytes && c@.done == c.done && c@.bytes
            == c.bytes && c@.current == c.current@,
{
}

/// Answers, reports and texts that may be missing are modelled as what they are.
pub proof fn law_choice_models(a: Answer, r: Report, s: Option<String>, j: Job, x: Item)
    ensures
        a is Ok ==> answer_view(a) == Ok::<_, Seq<char>>(a->Ok_0@),
        a is Err ==> answer_view(a) == Err::<Seq<u8>, _>(a->Err_0@),
        r is Ok <==> report_view(r) is Ok,
        r is Err ==> report_view(r) == Err::<(), _>(r->Err_0@),
        s is None ==> text_view(s) is None,
        s is Some ==> text_view(s) == Some(s->Some_0@),
        j is Dir ==> j@ == JobView::Dir(texts(j->Dir_0@)),
        j is File ==> j@ == JobView::File(j->File_0, texts(j->File_1@)),
        x is Visit ==> x@ == ItemView::Visit(x->Visit_0@),
        x is LinkDone ==> x@ is LinkDone,
{
}

/// The models of lists keep their length and their order.
pub proof fn law_list_models(
    t: Seq<String>,
    e: Seq<DirEntry>,
    r: Seq<RowInfo>,
    n: Seq<TreeNode>,
    p: Seq<Partition>,
    i: int,
)
    ensures
        texts(t).len() == t.len() && (0 <= i < t.len() ==> texts(t)[i] == t[i]@),
        entries_view(e).len() == e.len() && (0 <= i < e.len() ==> entries_view(e)[i] == e[i]@),
        rows_view(r).len() == r.len() && (0 <= i < r.len() ==> rows_view(r)[i] == r[i]@),
        nodes_view(n).len() == n.len() && (0 <= i < n.len() ==> nodes_view(n)[i] == n[i]@),
        partitions_view(p).len() == p.len() && (0 <= i < p.len() ==> partitions_view(p)[i]
            == p[i]@),
{
}

/// So do those of tasks, jobs, disks and pairs of texts.
pub proof fn law_more_list_models(
    t: Seq<Task>,
    j: Seq<Job>,
    x: Seq<Item>,
    d: Seq<DiskInfo>,
    q: Seq<(String, String)>,
    i: int,
)
    ensures
        tasks_view(t).len() == t.len() && (0 <= i < t.len() ==> tasks_view(t)[i] == t[i]@),
        jobs_view(j).len() == j.len() && (0 <= i < j.len() ==> jobs_view(j)[i] == j[i]@),
        items_view(x).len() == x.len() && (0 <= i < x.len() ==> items_view(x)[i] == x[i]@),
        disks_view(d).len() == d.len() && (0 <= i < d.len() ==> disks_view(d)[i] == d[i]@),
        pairs_view(q).len() == q.len() && (0 <= i < q.len() ==> pairs_view(q)[i] == (
            q[i].0@,
            q[i].1@,
        )),
{
}

} // verus!
