//! Which rows of a table are selected.

use crate::browse::{rows_view, RowInfo, RowView};
use crate::path::{join_fs_path, joined_text};
use std::collections::HashSet;
use vstd::prelude::*;

verus! {

/// The selection of a table: a set of rows, the row from which a range would extend, and
/// the row whose details are shown.
pub struct Selection {
    pub rows: HashSet<usize>,
    pub anchor: Option<usize>,
    pub shown: Option<usize>,
}

#[verifier::ext_equal]
pub struct SelectionView {
    pub rows: Set<usize>,
    pub anchor: Option<usize>,
    pub shown: Option<usize>,
}

impl View for Selection {
    type V = SelectionView;

    open spec fn view(&self) -> SelectionView {
        SelectionView { rows: self.rows@, anchor: self.anchor, shown: self.shown }
    }
}

/// The rows from one to another, both among them, in either order.
pub open spec fn range_between(a: usize, b: usize) -> Set<usize> {
    Set::new(|k: usize| (a <= k <= b) || (b <= k <= a))
}

impl SelectionView {
    pub open spec fn single(self, i: usize) -> SelectionView {
        SelectionView { rows: Set::empty().insert(i), anchor: Some(i), ..self }
    }

    pub open spec fn toggled(self, i: usize) -> SelectionView {
        SelectionView {
            rows: if self.rows.contains(i) {
                self.rows.remove(i)
            } else {
                self.rows.insert(i)
            },
            anchor: Some(i),
            ..self
        }
    }

    pub open spec fn ranged(self, a: usize, b: usize) -> SelectionView {
        SelectionView { rows: range_between(a, b), anchor: Some(b), ..self }
    }

    /// After a click on row `i`: shift extends from the anchor, control adds or removes the
    /// row, and a plain click selects it alone.
    pub open spec fn clicked(self, i: usize, shift: bool, ctrl: bool) -> SelectionView {
        let next = if shift {
            match self.anchor {
                Some(a) => self.ranged(a, i),
                None => self.single(i),
            }
        } else if ctrl {
            self.toggled(i)
        } else {
            self.single(i)
        };
        SelectionView { shown: Some(i), ..next }
    }
}

impl SelectionView {
    /// After the rows have been forgotten.
    pub open spec fn without_rows(self) -> SelectionView {
        SelectionView { rows: Set::empty(), shown: None, ..self }
    }

    /// After a click beside the rows.
    pub open spec fn clicked_nowhere(self, ctrl: bool) -> SelectionView {
        if ctrl {
            self
        } else {
            nothing_selected()
        }
    }

    /// After a click of the secondary button on row `i`.
    pub open spec fn with_menu_on(self, i: usize) -> SelectionView {
        if self.rows.contains(i) {
            self
        } else {
            SelectionView { shown: Some(i), ..self.single(i) }
        }
    }

    /// After a rubber band has touched rows.
    pub open spec fn dragged(self, hits: Seq<bool>, additive: bool) -> SelectionView {
        SelectionView {
            rows: if additive {
                self.rows.union(touched(hits))
            } else {
                touched(hits)
            },
            ..self
        }
    }
}

/// What the other gestures select. A click beside the rows clears the selection, unless control
/// is held; a menu is opened on what is selected, or else on its row alone; and a rubber band
/// selects what it touches, along with what was selected before if it adds to that.
pub proof fn law_what_other_gestures_select(
    s: SelectionView,
    i: usize,
    k: usize,
    hits: Seq<bool>,
)
    ensures
        !s.without_rows().rows.contains(k) && s.without_rows().shown is None
            && s.without_rows().anchor == s.anchor,
        s.clicked_nowhere(true) == s,
        !s.clicked_nowhere(false).rows.contains(k) && s.clicked_nowhere(false).anchor is None
            && s.clicked_nowhere(false).shown is None,
        s.rows.contains(i) ==> s.with_menu_on(i) == s,
        !s.rows.contains(i) ==> {
            let after = s.with_menu_on(i);
            &&& after.rows.contains(k) <==> k == i
            &&& after.anchor == Some(i)
            &&& after.shown == Some(i)
        },
        s.dragged(hits, false).rows.contains(k) <==> k < hits.len() && hits[k as int],
        s.dragged(hits, true).rows.contains(k) <==> s.rows.contains(k) || (k < hits.len()
            && hits[k as int]),
        s.dragged(hits, true).anchor == s.anchor && s.dragged(hits, true).shown == s.shown,
        s.dragged(hits, false).anchor == s.anchor && s.dragged(hits, false).shown == s.shown,
{
}

pub open spec fn nothing_selected() -> SelectionView {
    SelectionView { rows: Set::empty(), anchor: None, shown: None }
}

/// The rows that a rubber band touches.
pub open spec fn touched(hits: Seq<bool>) -> Set<usize> {
    Set::new(|k: usize| k < hits.len() && hits[k as int])
}

/// Path and name of the selected rows among the first `n`, from the top down.
pub open spec fn picked(sel: Set<usize>, rows: Seq<RowView>, path: Seq<char>, n: int) -> Seq<
    (Seq<char>, Seq<char>),
>
    decreases n,
{
    if n <= 0 {
        Seq::empty()
    } else if sel.contains((n - 1) as usize) {
        picked(sel, rows, path, n - 1).push(
            (joined_text(path, rows[n - 1].name), rows[n - 1].name),
        )
    } else {
        picked(sel, rows, path, n - 1)
    }
}

pub open spec fn pairs_view(s: Seq<(String, String)>) -> Seq<(Seq<char>, Seq<char>)> {
    Seq::new(s.len(), |i: int| (s[i].0@, s[i].1@))
}

impl Selection {
    pub fn new() -> (s: Selection)
        ensures
            s@ == nothing_selected(),
    {
        broadcast use vstd::std_specs::hash::group_hash_axioms;

        Selection { rows: HashSet::new(), anchor: None, shown: None }
    }

    /// How many rows are selected.
    pub fn count(&self) -> (n: usize)
        ensures
            n == self@.rows.len(),
    {
        broadcast use vstd::std_specs::hash::group_hash_axioms;

        self.rows.len()
    }

    pub fn contains(&self, i: usize) -> (b: bool)
        ensures
            b == self@.rows.contains(i),
    {
        broadcast use vstd::std_specs::hash::group_hash_axioms;

        self.rows.contains(&i)
    }

    pub fn select_single(&mut self, i: usize)
        ensures
            final(self)@ == old(self)@.single(i),
    {
        broadcast use vstd::std_specs::hash::group_hash_axioms;

        self.rows.clear();
        self.rows.insert(i);
        self.anchor = Some(i);
    }

    pub fn toggle_sel(&mut self, i: usize)
        ensures
            final(self)@ == old(self)@.toggled(i),
    {
        broadcast use vstd::std_specs::hash::group_hash_axioms;

        if !self.rows.remove(&i) {
            self.rows.insert(i);
        }
        self.anchor = Some(i);
        assert(self@ =~= old(self)@.toggled(i));
    }

    pub fn select_range(&mut self, a: usize, b: usize)
        ensures
            final(self)@ == old(self)@.ranged(a, b),
    {
        broadcast use vstd::std_specs::hash::group_hash_axioms;

        let (lo, hi): (usize, usize) = if a <= b {
            (a, b)
        } else {
            (b, a)
        };
        self.rows.clear();
        let mut k: usize = lo;
        while k < hi
            invariant
                lo <= k <= hi,
                self.rows@ == Set::new(|r: usize| lo <= r < k),
                self.shown == old(self).shown,
            decreases hi - k,
        {
            self.rows.insert(k);
            k = k + 1;
            assert(self.rows@ =~= Set::new(|r: usize| lo <= r < k));
        }
        self.rows.insert(hi);
        self.anchor = Some(b);
        assert(self.rows@ =~= range_between(a, b));
    }

    /// Takes note of a click on row `i`.
    pub fn apply_row_click(&mut self, i: usize, shift: bool, ctrl: bool)
        ensures
            final(self)@ == old(self)@.clicked(i, shift, ctrl),
    {
        if shift {
            match self.anchor {
                Some(a) => self.select_range(a, i),
                None => self.select_single(i),
            }
        } else if ctrl {
            self.toggle_sel(i);
        } else {
            self.select_single(i);
        }
        self.shown = Some(i);
    }

    pub fn clear_selection(&mut self)
        ensures
            final(self)@ == nothing_selected(),
    {
        broadcast use vstd::std_specs::hash::group_hash_axioms;

        self.rows.clear();
        self.shown = None;
        self.anchor = None;
    }

    /// Forgets the selected rows, as when the table shows another directory. The anchor
    /// stays where it was.
    pub fn forget_rows(&mut self)
        ensures
            final(self)@ == old(self)@.without_rows(),
            final(self)@ == (SelectionView {
                rows: Set::empty(),
                shown: None,
                ..old(self)@
            }),
    {
        broadcast use vstd::std_specs::hash::group_hash_axioms;

        self.rows.clear();
        self.shown = None;
    }

    /// Takes note of a click beside the rows.
    pub fn click_nowhere(&mut self, ctrl: bool)
        ensures
            final(self)@ == old(self)@.clicked_nowhere(ctrl),
            final(self)@ == if ctrl {
                old(self)@
            } else {
                nothing_selected()
            },
    {
        if !ctrl {
            self.clear_selection();
        }
    }

    /// Takes note of a click of the secondary button on row `i`: it selects the row alone,
    /// unless the row is selected already.
    pub fn open_menu_on(&mut self, i: usize)
        ensures
            final(self)@ == old(self)@.with_menu_on(i),
            final(self)@ == if old(self)@.rows.contains(i) {
                old(self)@
            } else {
                SelectionView { shown: Some(i), ..old(self)@.single(i) }
            },
    {
        if !self.contains(i) {
            self.select_single(i);
            self.shown = Some(i);
        }
    }

    /// Takes note of the rows that a rubber band touches at present: they are selected, in
    /// addition to what was selected before if `additive`.
    pub fn drag_over(&mut self, hits: &Vec<bool>, additive: bool)
        ensures
            final(self)@ == old(self)@.dragged(hits@, additive),
            final(self)@ == (SelectionView {
                rows: if additive {
                    old(self)@.rows.union(touched(hits@))
                } else {
                    touched(hits@)
                },
                ..old(self)@
            }),
    {
        broadcast use vstd::std_specs::hash::group_hash_axioms;

        if !additive {
            self.rows.clear();
        }
        let ghost before = self.rows@;
        let mut i: usize = 0;
        assert(self.rows@ =~= before.union(touched(hits@.take(0))));
        while i < hits.len()
            invariant
                i <= hits@.len(),
                self.rows@ == before.union(touched(hits@.take(i as int))),
                self.anchor == old(self).anchor,
                self.shown == old(self).shown,
            decreases hits@.len() - i,
        {
            if hits[i] {
                self.rows.insert(i);
            }
            i = i + 1;
            assert(self.rows@ =~= before.union(touched(hits@.take(i as int))));
        }
        assert(hits@.take(i as int) =~= hits@);
        assert(self@.rows =~= if additive {
            old(self)@.rows.union(touched(hits@))
        } else {
            touched(hits@)
        });
    }

    /// The selected rows as items to copy: path and name, from the top down.
    pub fn items(&self, rows: &Vec<RowInfo>, path: &str) -> (out: Vec<(String, String)>)
        ensures
            pairs_view(out@) == picked(
                self@.rows,
                rows_view(rows@),
                path@,
                rows@.len() as int,
            ),
    {
        let mut out: Vec<(String, String)> = Vec::new();
        let mut i: usize = 0;
        let ghost all = rows_view(rows@);
        assert(pairs_view(out@) =~= Seq::empty());
        while i < rows.len()
            invariant
                i <= rows@.len(),
                all == rows_view(rows@),
                pairs_view(out@) == picked(self@.rows, all, path@, i as int),
            decreases rows@.len() - i,
        {
            if self.contains(i) {
                let name = rows[i].name.clone();
                let src = join_fs_path(path, name.as_str());
                let ghost before = out@;
                assert(all[i as int].name == name@);
                out.push((src, name));
                assert(pairs_view(out@) =~= pairs_view(before).push((src@, name@)));
            }
            i = i + 1;
        }
        out
    }
}

/// Which rows are selected after a click: with shift those between the anchor and the row, with
/// control all that were but for the row, which changes; and else, or without an anchor, the row
/// alone. The row becomes the anchor, and its details are shown.
pub proof fn law_what_a_click_selects(s: SelectionView, i: usize, shift: bool, ctrl: bool, k: usize)
    ensures
        ({
            let after = s.clicked(i, shift, ctrl);
            let was = s.rows.contains(k);
            &&& after.shown == Some(i)
            &&& after.anchor == Some(i)
            &&& shift && s.anchor is Some ==> (after.rows.contains(k) <==> (s.anchor->Some_0 <= k <= i
                || i <= k <= s.anchor->Some_0))
            &&& shift && s.anchor is None ==> (after.rows.contains(k) <==> k == i)
            &&& !shift && ctrl ==> (after.rows.contains(k) <==> if k == i {
                !was
            } else {
                was
            })
            &&& !shift && !ctrl ==> (after.rows.contains(k) <==> k == i)
        }),
{
}

/// What each of the three ways to select leaves as it was.
pub proof fn law_selecting_shows_nothing(s: SelectionView, i: usize, j: usize, k: usize)
    ensures
        s.single(i).shown == s.shown && s.single(i).anchor == Some(i),
        s.toggled(i).shown == s.shown && s.toggled(i).anchor == Some(i),
        s.ranged(i, j).shown == s.shown && s.ranged(i, j).anchor == Some(j),
        s.single(i).rows.contains(k) <==> k == i,
        s.toggled(i).rows.contains(k) <==> (s.rows.contains(k) <==> k != i),
        s.ranged(i, j).rows.contains(k) <==> i <= k <= j || j <= k <= i,
        !nothing_selected().rows.contains(k),
        nothing_selected().anchor is None && nothing_selected().shown is None,
{
}

/// A rubber band touches the rows that it hits.
pub proof fn law_rows_touched(hits: Seq<bool>, k: usize)
    ensures
        touched(hits).contains(k) <==> k < hits.len() && hits[k as int],
{
}

/// The selected rows are handed on from the top down, each with its name, and with its path below
/// the directory.
pub proof fn law_rows_picked(sel: Set<usize>, rows: Seq<RowView>, path: Seq<char>)
    requires
        rows.len() <= usize::MAX,
    ensures
        picked(sel, rows, path, rows.len() as int) == Seq::new(rows.len(), |i: int| i).filter(
            |i: int| sel.contains(i as usize),
        ).map_values(|i: int| (joined_text(path, rows[i].name), rows[i].name)),
{
    lemma_picked(sel, rows, path, rows.len() as int);
}

proof fn lemma_picked(sel: Set<usize>, rows: Seq<RowView>, path: Seq<char>, n: int)
    requires
        0 <= n <= rows.len(),
    ensures
        picked(sel, rows, path, n) == Seq::new(n as nat, |i: int| i).filter(
            |i: int| sel.contains(i as usize),
        ).map_values(|i: int| (joined_text(path, rows[i].name), rows[i].name)),
    decreases n,
{
    let pred = |i: int| sel.contains(i as usize);
    let f = |i: int| (joined_text(path, rows[i].name), rows[i].name);
    let all = Seq::new(n as nat, |i: int| i);
    reveal(Seq::filter);
    if n > 0 {
        lemma_picked(sel, rows, path, n - 1);
        let before = Seq::new((n - 1) as nat, |i: int| i);
        assert(all.drop_last() =~= before);
        assert(all.last() == n - 1);
        assert(before.filter(pred).push(n - 1).map_values(f) =~= before.filter(pred).map_values(
            f,
        ).push(f(n - 1)));
    } else {
        assert(all.filter(pred).map_values(f) =~= Seq::empty());
    }
}

/// Toggling a row twice leaves the set of selected rows as it was.
pub proof fn law_toggle_twice(s: SelectionView, i: usize)
    ensures
        s.toggled(i).toggled(i).rows == s.rows,
{
    assert(s.toggled(i).toggled(i).rows =~= s.rows);
}

/// A range is the same from either end.
pub proof fn law_range_is_symmetric(a: usize, b: usize)
    ensures
        range_between(a, b) == range_between(b, a),
{
    assert(range_between(a, b) =~= range_between(b, a));
}

} // verus!
