//! Beginning a copy: where its source is, what its copy is called, and how much there is to
//! copy.

use crate::count::{nothing, tree_count, Tally, TreeCount};
use crate::error::{fault_text, ExtError, Fault, Outcome, Result};
use crate::extract::{Extraction, ExtractionView, PhaseView};
use crate::path::{base_text, basename_of, law_resolved_settled, resolved};
use crate::plan::{ItemView, Plan, PlanWalk, WalkView};
use crate::tasks::{complaint, root_task};
use crate::volume::{Ext4, VolumeView};
use vstd::prelude::*;
use vstd::string::*;

verus! {

/// The extraction that copies what `path` leads to.
pub open spec fn extraction_of(ino: u32, path: Seq<char>) -> ExtractionView {
    ExtractionView {
        stack: seq![root_task(ino, path)],
        errors: Seq::empty(),
        phase: PhaseView::Next,
    }
}

/// Begins to extract `src_path` (file or directory) into a directory, where it keeps its
/// basename and its directory structure. Returns that name, and the walk to run.
pub fn extract(fs: &Ext4, src_path: &str) -> (r: Result<(String, Extraction)>)
    requires
        fs.wf(),
    ensures
        match r {
            Ok((name, walk)) => {
                &&& resolved(fs@, src_path@) matches Ok(ino)
                &&& walk@ == extraction_of(ino, src_path@)
                &&& name@ == base_text(src_path@)
                &&& walk.wf()
            },
            Err(e) => resolved(fs@, src_path@) == Err::<u32, _>(e@),
        },
{
    let walk = copy_to(fs, src_path)?;
    Ok((basename_of(src_path), walk))
}

/// Begins to copy `src_path` to a place of any name. Returns the walk to run.
pub fn copy_to(fs: &Ext4, src_path: &str) -> (r: Result<Extraction>)
    requires
        fs.wf(),
    ensures
        match r {
            Ok(walk) => {
                &&& resolved(fs@, src_path@) matches Ok(ino)
                &&& walk@ == extraction_of(ino, src_path@)
                &&& walk.wf()
            },
            Err(e) => resolved(fs@, src_path@) == Err::<u32, _>(e@),
        },
{
    let ino: u32 = fs.resolve(src_path)?;
    Ok(Extraction::new(ino, src_path))
}

/// Begins to copy `src_path` to a place of any name with several workers. Returns the
/// planning walk to run first.
pub fn copy_to_parallel(fs: &Ext4, src_path: &str) -> (r: Result<PlanWalk>)
    requires
        fs.wf(),
    ensures
        match r {
            Ok(walk) => {
                &&& resolved(fs@, src_path@) matches Ok(ino)
                &&& walk@ == (WalkView {
                    stack: seq![ItemView::Visit(root_task(ino, src_path@))],
                    plan: Plan { jobs: Seq::empty(), errors: Seq::empty() },
                })
            },
            Err(e) => resolved(fs@, src_path@) == Err::<u32, _>(e@),
        },
{
    let ino: u32 = fs.resolve(src_path)?;
    Ok(PlanWalk::new(ino, src_path))
}

/// How many items a copy of what `path` leads to takes up, as far as a count can tell; what
/// cannot be resolved counts as one.
pub open spec fn item_tally(v: VolumeView, path: Seq<char>) -> Outcome<Tally> {
    match resolved(v, path) {
        Ok(ino) => tree_count(v, ino, 0, nothing(false)),
        Err(Fault::Pending(p)) => Err(Fault::Pending(p)),
        Err(_) => Ok(Tally { items: 1, ..nothing(false) }),
    }
}

/// A path that leads somewhere counts what is reachable from there, one that leads nowhere counts
/// as one item; bytes are not asked for.
pub proof fn law_items_of_a_path(v: VolumeView, path: Seq<char>)
    ensures
        match resolved(v, path) {
            Ok(ino) => item_tally(v, path) == tree_count(
                v,
                ino,
                0,
                Tally { items: 0, bytes: 0, sizes: false },
            ),
            Err(Fault::Pending(p)) => item_tally(v, path) == Err::<Tally, _>(Fault::Pending(p)),
            Err(_) => item_tally(v, path) is Ok && item_tally(v, path)->Ok_0.items == 1,
        },
{
}

/// A copy begins with one item: what the path leads to, at the destination itself.
pub proof fn law_start_of_a_copy(ino: u32, path: Seq<char>)
    ensures
        ({
            let x = extraction_of(ino, path);
            &&& x.stack.len() == 1
            &&& x.stack[0].ino == ino
            &&& x.stack[0].path == path
            &&& x.stack[0].dest.len() == 0
            &&& x.stack[0].depth == 0
            &&& x.stack[0].warning is None
            &&& x.errors.len() == 0
            &&& x.phase is Next
        }),
{
}

/// Begins to count the items of a copy of what `path` leads to. Returns the count to run.
pub fn begin_count(fs: &Ext4, path: &str) -> (r: Result<TreeCount>)
    requires
        fs.wf(),
    ensures
        match r {
            Ok(c) => forall|w: VolumeView| #[trigger]
                fs@.grows_to(w) ==> c.outcome(w) == item_tally(w, path@),
            Err(e) => e@ is Pending && resolved(fs@, path@) == Err::<u32, _>(e@),
        },
{
    let ghost v = fs@;
    proof {
        assert forall|w: VolumeView| #[trigger] v.grows_to(w) && !(resolved(v, path@) matches Err(
            Fault::Pending(_),
        )) implies resolved(w, path@) == resolved(v, path@) by {
            law_resolved_settled(v, w, path@);
        }
    }
    match fs.resolve(path) {
        Ok(ino) => Ok(TreeCount::new(ino, false)),
        Err(ExtError::Pending(p)) => Err(ExtError::Pending(p)),
        Err(_) => Ok(TreeCount { stack: Vec::new(), items: 1, bytes: 0, sizes: false }),
    }
}

/// Counts the items of a copy of what `path` leads to.
pub fn item_count(fs: &Ext4, path: &str) -> (r: Result<u64>)
    requires
        fs.wf(),
    ensures
        match r {
            Ok(items) => item_tally(fs@, path@) matches Ok(t) && t.items == items,
            Err(e) => item_tally(fs@, path@) == Err::<Tally, _>(e@),
        },
{
    assert(fs@.grows_to(fs@));
    let mut c = begin_count(fs, path)?;
    c.run(fs)?;
    Ok(c.items)
}

/// The sum of the first `n` counts.
pub open spec fn sum_of(counts: Seq<u64>, n: int) -> int
    decreases n,
{
    if n <= 0 {
        0
    } else {
        sum_of(counts, n - 1) + counts[n - 1]
    }
}

/// Counts add up, whichever way they are taken together.
pub proof fn law_sums(a: Seq<u64>, b: Seq<u64>, n: u64)
    ensures
        sum_of(a + b, (a + b).len() as int) == sum_of(a, a.len() as int) + sum_of(
            b,
            b.len() as int,
        ),
        sum_of(seq![n], 1) == n,
        sum_of(Seq::empty(), 0) == 0,
    decreases b.len(),
{
    reveal_with_fuel(sum_of, 2);
    if b.len() == 0 {
        assert(a + b =~= a);
    } else {
        law_sums(a, b.drop_last(), n);
        let m = b.len() as int;
        lemma_sum_of_front(a + b, a + b.drop_last(), a.len() + m - 1);
        lemma_sum_of_front(b, b.drop_last(), m - 1);
        assert((a + b)[a.len() + m - 1] == b[m - 1]);
    }
}

proof fn lemma_sum_of_front(s: Seq<u64>, t: Seq<u64>, n: int)
    requires
        n <= s.len(),
        n <= t.len(),
        forall|i: int| 0 <= i < n ==> #[trigger] s[i] == t[i],
    ensures
        sum_of(s, n) == sum_of(t, n),
    decreases n,
{
    if n > 0 {
        lemma_sum_of_front(s, t, n - 1);
        assert(s[n - 1] == t[n - 1]);
    }
}

proof fn lemma_sum_grows(counts: Seq<u64>, m: int, n: int)
    requires
        m <= n,
    ensures
        sum_of(counts, m) <= sum_of(counts, n),
    decreases n - m,
{
    if m < n {
        lemma_sum_grows(counts, m, n - 1);
    }
}

/// The number of items of a job that copies several things; none if it does not fit.
pub fn total_items(counts: &Vec<u64>) -> (total: Option<u64>)
    ensures
        match total {
            Some(n) => n == sum_of(counts@, counts@.len() as int),
            None => sum_of(counts@, counts@.len() as int) > u64::MAX,
        },
{
    let mut total: u64 = 0;
    let mut i: usize = 0;
    while i < counts.len()
        invariant
            i <= counts@.len(),
            total == sum_of(counts@, i as int),
        decreases counts@.len() - i,
    {
        match total.checked_add(counts[i]) {
            Some(n) => {
                total = n;
            },
            None => {
                proof {
                    lemma_sum_grows(counts@, i + 1, counts@.len() as int);
                }
                return None;
            },
        }
        i = i + 1;
    }
    Some(total)
}

/// The report on something that could not be copied at all.
pub fn failed_item(src: &str, e: &ExtError) -> (s: String)
    ensures
        s@ == complaint(src@, fault_text(e@)),
{
    let mut s = src.to_owned();
    s.append(": ");
    let why = e.message();
    s.append(why.as_str());
    s
}

} // verus!
