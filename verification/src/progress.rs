//! Progress of a copy job.

use vstd::prelude::*;

verus! {

/// How far a copy job has come, in items and in bytes.
pub struct CopyProgress {
    pub total: u64,
    pub total_bytes: u64,
    pub done: u64,
    pub bytes: u64,
    pub current: String,
}

pub struct ProgressView {
    pub total: u64,
    pub total_bytes: u64,
    pub done: u64,
    pub bytes: u64,
    pub current: Seq<char>,
}

impl View for CopyProgress {
    type V = ProgressView;

    open spec fn view(&self) -> ProgressView {
        ProgressView {
            total: self.total,
            total_bytes: self.total_bytes,
            done: self.done,
            bytes: self.bytes,
            current: self.current@,
        }
    }
}

pub open spec fn at_most(n: u64, limit: u64) -> u64 {
    if n <= limit {
        n
    } else {
        limit
    }
}

fn capped(n: u64, limit: u64) -> (r: u64)
    ensures
        r == at_most(n, limit),
{
    if n <= limit {
        n
    } else {
        limit
    }
}

impl ProgressView {
    /// At the start of a job of so many items.
    pub open spec fn fresh(total: u64) -> ProgressView {
        ProgressView { total, total_bytes: 0, done: 0, bytes: 0, current: Seq::empty() }
    }

    /// With other totals.
    pub open spec fn with_totals(self, items: u64, bytes: u64) -> ProgressView {
        ProgressView { total: items, total_bytes: bytes, ..self }
    }

    /// After one more item, `path`, has been taken up. The count wraps around.
    pub open spec fn ticked(self, path: Seq<char>) -> ProgressView {
        ProgressView {
            done: ((self.done + 1) % 0x1_0000_0000_0000_0000) as u64,
            current: path,
            ..self
        }
    }

    /// After `n` more bytes. The count wraps around.
    pub open spec fn with_bytes(self, n: u64) -> ProgressView {
        ProgressView {
            bytes: ((self.bytes + n) % 0x1_0000_0000_0000_0000) as u64,
            ..self
        }
    }

    /// The part that is done and the whole, in bytes where the byte total is known, else
    /// in items; none while there is no total. The part is never more than the whole.
    pub open spec fn share(self) -> Option<(u64, u64)> {
        if self.total_bytes > 0 {
            Some((at_most(self.bytes, self.total_bytes), self.total_bytes))
        } else if self.total == 0 {
            None
        } else {
            Some((at_most(self.done, self.total), self.total))
        }
    }

    /// What is left and what is done, as `share` measures it; none while nothing is done,
    /// for then there is no rate to go by.
    pub open spec fn pace(self) -> Option<(u64, u64)> {
        if self.total_bytes > 0 {
            if self.bytes == 0 {
                None
            } else if self.total_bytes <= self.bytes {
                Some((0, self.bytes))
            } else {
                Some(((self.total_bytes - self.bytes) as u64, self.bytes))
            }
        } else if self.done == 0 || self.total == 0 {
            None
        } else {
            Some(((self.total - self.done) as u64, self.done))
        }
    }
}

/// At the start nothing is done. The totals can be changed, and nothing else changes with them.
pub proof fn law_totals(p: ProgressView, items: u64, bytes: u64)
    ensures
        ProgressView::fresh(items).total == items,
        ProgressView::fresh(items).total_bytes == 0,
        ProgressView::fresh(items).done == 0,
        ProgressView::fresh(items).bytes == 0,
        ProgressView::fresh(items).current.len() == 0,
        p.with_totals(items, bytes).total == items,
        p.with_totals(items, bytes).total_bytes == bytes,
        p.with_totals(items, bytes).done == p.done,
        p.with_totals(items, bytes).bytes == p.bytes,
        p.with_totals(items, bytes).current == p.current,
{
}

/// Taking up an item counts it, and shows its path; the count begins anew where it ends. Nothing
/// else changes.
pub proof fn law_taking_up_an_item(p: ProgressView, path: Seq<char>)
    ensures
        p.done < u64::MAX ==> p.ticked(path).done == p.done + 1,
        p.done == u64::MAX ==> p.ticked(path).done == 0,
        p.ticked(path).current == path,
        p.ticked(path).bytes == p.bytes,
        p.ticked(path).total == p.total,
        p.ticked(path).total_bytes == p.total_bytes,
{
}

/// Bytes add up, and nothing else changes.
pub proof fn law_bytes_add_up(p: ProgressView, m: u64, n: u64)
    ensures
        p.bytes + m <= u64::MAX ==> p.with_bytes(m).bytes == p.bytes + m,
        p.bytes + m > u64::MAX ==> p.with_bytes(m).bytes == p.bytes + m - u64::MAX - 1,
        m + n <= u64::MAX ==> p.with_bytes(m).with_bytes(n) == p.with_bytes((m + n) as u64),
        p.with_bytes(m).done == p.done,
        p.with_bytes(m).current == p.current,
        p.with_bytes(m).total == p.total,
        p.with_bytes(m).total_bytes == p.total_bytes,
{
}

/// Progress is measured in bytes where their total is known, and else in items; what is beyond
/// the total does not count.
pub proof fn law_measured_progress(p: ProgressView)
    ensures
        p.total_bytes > 0 && p.bytes <= p.total_bytes ==> p.share() == Some(
            (p.bytes, p.total_bytes),
        ),
        p.total_bytes > 0 && p.bytes > p.total_bytes ==> p.share() == Some(
            (p.total_bytes, p.total_bytes),
        ),
        p.total_bytes == 0 && p.total > 0 && p.done <= p.total ==> p.share() == Some(
            (p.done, p.total),
        ),
        p.total_bytes == 0 && p.total > 0 && p.done > p.total ==> p.share() == Some(
            (p.total, p.total),
        ),
        p.total_bytes == 0 && p.total == 0 ==> p.share() is None,
{
}

/// What is left and what is done make up the whole, as long as there is something left.
pub proof fn law_left_and_done(p: ProgressView)
    ensures
        p.total_bytes > 0 ==> (p.pace() is None <==> p.bytes == 0),
        p.total_bytes == 0 ==> (p.pace() is None <==> p.done == 0 || p.total == 0),
        p.total_bytes > 0 && 0 < p.bytes ==> p.pace()->Some_0.1 == p.bytes,
        p.total_bytes > 0 && 0 < p.bytes <= p.total_bytes ==> p.pace()->Some_0.0 + p.bytes
            == p.total_bytes,
        p.total_bytes > 0 && p.bytes > p.total_bytes ==> p.pace()->Some_0.0 == 0,
        p.total_bytes == 0 && 0 < p.done <= p.total ==> p.pace()->Some_0.0 + p.done == p.total
            && p.pace()->Some_0.1 == p.done,
{
}

impl CopyProgress {
    pub fn new(total: u64) -> (p: CopyProgress)
        ensures
            p@ == ProgressView::fresh(total),
            p@ == (ProgressView {
                total,
                total_bytes: 0,
                done: 0,
                bytes: 0,
                current: Seq::empty(),
            }),
    {
        CopyProgress { total, total_bytes: 0, done: 0, bytes: 0, current: String::new() }
    }

    /// Sets the real totals once known (items and bytes).
    pub fn set_totals(&mut self, items: u64, bytes: u64)
        ensures
            final(self)@ == old(self)@.with_totals(items, bytes),
            final(self)@ == (ProgressView { total: items, total_bytes: bytes, ..old(self)@ }),
    {
        self.total = items;
        self.total_bytes = bytes;
    }

    pub fn total(&self) -> (n: u64)
        ensures
            n == self@.total,
    {
        self.total
    }

    pub fn total_bytes(&self) -> (n: u64)
        ensures
            n == self@.total_bytes,
    {
        self.total_bytes
    }

    pub fn done(&self) -> (n: u64)
        ensures
            n == self@.done,
    {
        self.done
    }

    pub fn bytes(&self) -> (n: u64)
        ensures
            n == self@.bytes,
    {
        self.bytes
    }

    /// The item that is being worked on.
    pub fn current(&self) -> (s: String)
        ensures
            s@ == self@.current,
    {
        self.current.clone()
    }

    /// The part that is done and the whole; their quotient is the progress to show.
    pub fn fraction_parts(&self) -> (r: Option<(u64, u64)>)
        ensures
            r == self@.share(),
            r matches Some((part, whole)) ==> part <= whole && whole > 0,
    {
        if self.total_bytes > 0 {
            Some((capped(self.bytes, self.total_bytes), self.total_bytes))
        } else if self.total == 0 {
            None
        } else {
            Some((capped(self.done, self.total), self.total))
        }
    }

    /// What is left and what is done; with the time spent so far they give the time to go.
    pub fn eta_parts(&self) -> (r: Option<(u64, u64)>)
        requires
            self.total_bytes > 0 || self.total == 0 || self.done <= self.total,
        ensures
            r == self@.pace(),
    {
        if self.total_bytes > 0 {
            if self.bytes == 0 {
                None
            } else {
                Some((self.total_bytes.saturating_sub(self.bytes), self.bytes))
            }
        } else if self.done == 0 || self.total == 0 {
            None
        } else {
            Some((self.total - self.done, self.done))
        }
    }

    /// Takes up one more item.
    pub fn tick(&mut self, path: &str)
        ensures
            final(self)@ == old(self)@.ticked(path@),
    {
        self.current = path.to_owned();
        self.done = self.done.wrapping_add(1);
    }

    pub fn add_bytes(&mut self, n: u64)
        ensures
            final(self)@ == old(self)@.with_bytes(n),
    {
        self.bytes = self.bytes.wrapping_add(n);
    }
}

} // verus!
