//! Sorting directory entries by name.

use crate::dir::{entries_view, DirEntry, DirEntryView};
use crate::text::chars_of;
use vstd::prelude::*;

verus! {

/// Whether `a` comes before `b` in the order of their characters, or is the same.
pub open spec fn text_le(a: Seq<char>, b: Seq<char>) -> bool
    decreases a.len(),
{
    if a.len() == 0 {
        true
    } else if b.len() == 0 {
        false
    } else if a[0] != b[0] {
        a[0] < b[0]
    } else {
        text_le(a.skip(1), b.skip(1))
    }
}

proof fn lemma_le_refl(a: Seq<char>)
    ensures
        text_le(a, a),
    decreases a.len(),
{
    if a.len() > 0 {
        lemma_le_refl(a.skip(1));
    }
}

proof fn lemma_le_total(a: Seq<char>, b: Seq<char>)
    ensures
        text_le(a, b) || text_le(b, a),
    decreases a.len(),
{
    if a.len() > 0 && b.len() > 0 && a[0] == b[0] {
        lemma_le_total(a.skip(1), b.skip(1));
    }
}

proof fn lemma_le_trans(a: Seq<char>, b: Seq<char>, c: Seq<char>)
    requires
        text_le(a, b),
        text_le(b, c),
    ensures
        text_le(a, c),
    decreases a.len(),
{
    if a.len() > 0 && a[0] == b[0] && b[0] == c[0] {
        lemma_le_trans(a.skip(1), b.skip(1), c.skip(1));
    }
}

/// `s` with `x` in front of the first entry that does not come before it.
pub open spec fn insert_named(x: DirEntryView, s: Seq<DirEntryView>) -> Seq<DirEntryView>
    decreases s.len(),
{
    if s.len() == 0 || text_le(x.name, s[0].name) {
        seq![x] + s
    } else {
        seq![s[0]] + insert_named(x, s.skip(1))
    }
}

/// The entries in the order of their names; those of one name stay in the order they had.
pub open spec fn sorted_named(s: Seq<DirEntryView>) -> Seq<DirEntryView>
    decreases s.len(),
{
    if s.len() == 0 {
        s
    } else {
        insert_named(s[0], sorted_named(s.skip(1)))
    }
}

pub open spec fn is_sorted(s: Seq<DirEntryView>) -> bool {
    forall|i: int, j: int|
        0 <= i <= j < s.len() ==> text_le((#[trigger] s[i]).name, (#[trigger] s[j]).name)
}

proof fn lemma_insert_at(x: DirEntryView, s: Seq<DirEntryView>, k: int)
    requires
        0 <= k <= s.len(),
        forall|i: int| 0 <= i < k ==> !text_le(x.name, (#[trigger] s[i]).name),
        k < s.len() ==> text_le(x.name, s[k].name),
    ensures
        insert_named(x, s) == s.insert(k, x),
    decreases k,
{
    if k == 0 {
        assert(s.insert(0, x) =~= seq![x] + s);
    } else {
        assert(!text_le(x.name, s[0].name));
        assert forall|i: int| 0 <= i < k - 1 implies !text_le(
            x.name,
            (#[trigger] s.skip(1)[i]).name,
        ) by {
            assert(s.skip(1)[i] == s[i + 1]);
        }
        lemma_insert_at(x, s.skip(1), k - 1);
        assert(s.insert(k, x) =~= seq![s[0]] + s.skip(1).insert(k - 1, x));
    }
}

proof fn lemma_insert_sorted(x: DirEntryView, s: Seq<DirEntryView>, k: int)
    requires
        is_sorted(s),
        0 <= k <= s.len(),
        forall|i: int| 0 <= i < k ==> !text_le(x.name, (#[trigger] s[i]).name),
        k < s.len() ==> text_le(x.name, s[k].name),
    ensures
        is_sorted(s.insert(k, x)),
{
    let t = s.insert(k, x);
    assert forall|i: int, j: int| 0 <= i <= j < t.len() implies text_le(
        (#[trigger] t[i]).name,
        (#[trigger] t[j]).name,
    ) by {
        if i == j {
            lemma_le_refl(t[i].name);
        } else if j == k {
            assert(t[i] == s[i]);
            lemma_le_total(s[i].name, x.name);
        } else if i == k {
            assert(t[j] == s[j - 1]);
            assert(text_le(s[k].name, s[j - 1].name));
            lemma_le_trans(x.name, s[k].name, s[j - 1].name);
        } else {
            let a = if i < k {
                i
            } else {
                i - 1
            };
            let b = if j < k {
                j
            } else {
                j - 1
            };
            assert(t[i] == s[a] && t[j] == s[b]);
        }
    }
}

/// Where `x` goes in a sorted sequence.
proof fn lemma_insert_place(x: DirEntryView, s: Seq<DirEntryView>) -> (k: int)
    ensures
        0 <= k <= s.len(),
        forall|i: int| 0 <= i < k ==> !text_le(x.name, (#[trigger] s[i]).name),
        k < s.len() ==> text_le(x.name, s[k].name),
    decreases s.len(),
{
    if s.len() == 0 || text_le(x.name, s[0].name) {
        0
    } else {
        let k = lemma_insert_place(x, s.skip(1));
        assert forall|i: int| 0 <= i < k + 1 implies !text_le(x.name, (#[trigger] s[i]).name) by {
            if i > 0 {
                assert(s[i] == s.skip(1)[i - 1]);
            }
        }
        k + 1
    }
}

/// Sorting puts the names in order, and neither loses nor adds an entry.
pub proof fn law_sorting_sorts(s: Seq<DirEntryView>)
    ensures
        is_sorted(sorted_named(s)),
        sorted_named(s).to_multiset() == s.to_multiset(),
    decreases s.len(),
{
    broadcast use vstd::seq_lib::group_to_multiset_ensures;

    if s.len() > 0 {
        let rest = sorted_named(s.skip(1));
        law_sorting_sorts(s.skip(1));
        let k = lemma_insert_place(s[0], rest);
        lemma_insert_at(s[0], rest, k);
        lemma_insert_sorted(s[0], rest, k);
        assert(s =~= s.skip(1).insert(0, s[0]));
        vstd::seq_lib::to_multiset_insert(rest, k, s[0]);
        vstd::seq_lib::to_multiset_insert(s.skip(1), 0, s[0]);
    }
}

/// Of two texts that begin with the same `k` characters, that one comes first which ends there,
/// or whose next character is the smaller.
pub proof fn law_order_of_texts(a: Seq<char>, b: Seq<char>, k: int)
    requires
        0 <= k <= a.len(),
        k <= b.len(),
        forall|i: int| 0 <= i < k ==> #[trigger] a[i] == b[i],
    ensures
        k == a.len() ==> text_le(a, b),
        k == b.len() && k < a.len() ==> !text_le(a, b),
        k < a.len() && k < b.len() && a[k] != b[k] ==> (text_le(a, b) <==> a[k] < b[k]),
    decreases k,
{
    if k > 0 {
        assert(a[0] == b[0]);
        assert forall|i: int| 0 <= i < k - 1 implies #[trigger] a.skip(1)[i] == b.skip(1)[i] by {
            assert(a[i + 1] == b[i + 1]);
        }
        law_order_of_texts(a.skip(1), b.skip(1), k - 1);
    }
}

/// Sorting leaves entries of one name in the order that they had.
pub proof fn law_sorting_is_stable(s: Seq<DirEntryView>, name: Seq<char>)
    ensures
        sorted_named(s).filter(|e: DirEntryView| e.name == name) == s.filter(
            |e: DirEntryView| e.name == name,
        ),
    decreases s.len(),
{
    let pred = |e: DirEntryView| e.name == name;
    if s.len() > 0 {
        let x = s[0];
        let rest = sorted_named(s.skip(1));
        law_sorting_is_stable(s.skip(1), name);
        let k = lemma_insert_place(x, rest);
        lemma_insert_at(x, rest, k);
        let a = rest.take(k);
        let b = rest.skip(k);
        assert(rest =~= a + b);
        assert(rest.insert(k, x) =~= (a + seq![x]) + b);
        assert(s =~= seq![x] + s.skip(1));
        Seq::filter_distributes_over_add(a, b, pred);
        Seq::filter_distributes_over_add(a + seq![x], b, pred);
        Seq::filter_distributes_over_add(a, seq![x], pred);
        Seq::filter_distributes_over_add(seq![x], s.skip(1), pred);
        reveal_with_fuel(Seq::filter, 2);
        assert(seq![x].drop_last() =~= Seq::empty());
        if pred(x) {
            assert forall|i: int| 0 <= i < a.len() implies !pred(#[trigger] a[i]) by {
                assert(!text_le(x.name, rest[i].name));
                lemma_le_refl(x.name);
            }
            lemma_none_kept(a, pred);
            assert(seq![x].filter(pred) =~= seq![x]);
            assert(sorted_named(s).filter(pred) =~= s.filter(pred));
        } else {
            assert(seq![x].filter(pred) =~= Seq::empty());
            assert(sorted_named(s).filter(pred) =~= s.filter(pred));
        }
    }
}

proof fn lemma_none_kept(s: Seq<DirEntryView>, pred: spec_fn(DirEntryView) -> bool)
    requires
        forall|i: int| 0 <= i < s.len() ==> !pred(#[trigger] s[i]),
    ensures
        s.filter(pred) == Seq::<DirEntryView>::empty(),
    decreases s.len(),
{
    reveal(Seq::filter);
    if s.len() > 0 {
        lemma_none_kept(s.drop_last(), pred);
        assert(!pred(s[s.len() - 1]));
    }
}

fn chars_le(a: &Vec<char>, b: &Vec<char>) -> (r: bool)
    ensures
        r == text_le(a@, b@),
{
    let mut i: usize = 0;
    assert(a@.skip(0) =~= a@);
    assert(b@.skip(0) =~= b@);
    loop
        invariant
            i <= a@.len(),
            i <= b@.len(),
            text_le(a@, b@) == text_le(a@.skip(i as int), b@.skip(i as int)),
        decreases a@.len() - i,
    {
        if i == a.len() {
            return true;
        }
        if i == b.len() {
            return false;
        }
        assert(a@.skip(i as int)[0] == a@[i as int]);
        assert(b@.skip(i as int)[0] == b@[i as int]);
        if a[i] != b[i] {
            return a[i] < b[i];
        }
        assert(a@.skip(i as int).skip(1) =~= a@.skip(i + 1));
        assert(b@.skip(i as int).skip(1) =~= b@.skip(i + 1));
        i = i + 1;
    }
}

/// The index of the first entry that does not come before `name`.
fn place_for(name: &str, sorted: &Vec<DirEntry>) -> (k: usize)
    requires
        is_sorted(entries_view(sorted@)),
    ensures
        k <= sorted@.len(),
        forall|i: int| 0 <= i < k ==> !text_le(name@, (#[trigger] entries_view(sorted@)[i]).name),
        k < sorted@.len() ==> text_le(name@, entries_view(sorted@)[k as int].name),
{
    let key = chars_of(name);
    let ghost s = entries_view(sorted@);
    let mut lo: usize = 0;
    let mut hi: usize = sorted.len();
    while lo < hi
        invariant
            lo <= hi <= sorted@.len(),
            key@ == name@,
            s == entries_view(sorted@),
            is_sorted(s),
            forall|i: int| 0 <= i < lo ==> !text_le(name@, (#[trigger] s[i]).name),
            hi < sorted@.len() ==> text_le(name@, s[hi as int].name),
        decreases hi - lo,
    {
        let mid: usize = lo + (hi - lo) / 2;
        let other = chars_of(sorted[mid].name.as_str());
        assert(s[mid as int].name == other@);
        if chars_le(&key, &other) {
            hi = mid;
        } else {
            proof {
                assert forall|i: int| 0 <= i < mid + 1 implies !text_le(
                    name@,
                    (#[trigger] s[i]).name,
                ) by {
                    if text_le(name@, s[i].name) {
                        lemma_le_trans(name@, s[i].name, s[mid as int].name);
                    }
                }
            }
            lo = mid + 1;
        }
    }
    lo
}

/// Sorts entries by name.
pub fn sort_by_name(entries: Vec<DirEntry>) -> (sorted: Vec<DirEntry>)
    ensures
        entries_view(sorted@) == sorted_named(entries_view(entries@)),
{
    let ghost all = entries_view(entries@);
    let mut left = entries;
    let mut sorted: Vec<DirEntry> = Vec::new();
    proof {
        assert(all.skip(all.len() as int) =~= Seq::empty());
        assert(entries_view(sorted@) =~= Seq::empty());
    }
    while left.len() > 0
        invariant
            left@.len() <= all.len(),
            entries_view(left@) == all.take(left@.len() as int),
            entries_view(sorted@) == sorted_named(all.skip(left@.len() as int)),
            is_sorted(entries_view(sorted@)),
        decreases left@.len(),
    {
        let ghost n = left@.len() as int;
        let ghost before = left@;
        if let Some(e) = left.pop() {
            let k: usize = place_for(e.name.as_str(), &sorted);
            let ghost sofar = sorted@;
            sorted.insert(k, e);
            proof {
                assert(left@ =~= before.drop_last());
                assert(entries_view(left@) =~= all.take(n - 1));
                assert(all[n - 1] == e@) by {
                    assert(entries_view(before)[n - 1] == e@);
                }
                let s = entries_view(sofar);
                lemma_insert_at(e@, s, k as int);
                lemma_insert_sorted(e@, s, k as int);
                assert(entries_view(sorted@) =~= s.insert(k as int, e@));
                assert(all.skip(n - 1)[0] == e@);
                assert(all.skip(n - 1).skip(1) =~= all.skip(n));
            }
        }
    }
    assert(all.skip(0) =~= all);
    sorted
}

} // verus!
