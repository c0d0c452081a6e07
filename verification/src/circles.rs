//! Symbolic links without a guard against circles: the plain way to follow a path puts the
//! components of a relative link's target in the place of the link, for as long as it takes.
//! Where that comes to an end, resolving a path comes to the same; where it never does,
//! resolving reports too many links.

use crate::error::{Fault, Outcome};
use crate::inode::EXT4_ROOT_INO;
use crate::path::{
    is_absolute, law_bare_path_is_the_root, lemma_opening, link_key, resolved, resolved_below,
    too_many_links, turn, unopened, walk_path, with_tail, Reached, Turn, MAX_LINK_DEPTH,
};
use crate::text::components;
use crate::volume::VolumeView;
use vstd::prelude::*;

verus! {

/// A walk of `path` that `depth` absolute links have led to.
pub struct Trip {
    pub v: VolumeView,
    pub path: Seq<char>,
    pub depth: int,
}

impl Trip {
    /// Takes one component in the directory `cur`.
    #[verifier::opaque]
    pub open spec fn turned(self, cur: u32, name: Seq<char>, last: bool) -> Outcome<Turn> {
        turn(self.v, self.path, cur, name, last)
    }

    /// A component that leads on leads to the same place where it is the last, and whether it
    /// leads to a link does not depend on that.
    proof fn lemma_turned_last(self, cur: u32, name: Seq<char>)
        ensures
            self.turned(cur, name, false) is Ok ==> self.turned(cur, name, true) == self.turned(
                cur,
                name,
                false,
            ),
            self.turned(cur, name, true) matches Ok(Turn::Link(ino, target)) ==> self.turned(
                cur,
                name,
                false,
            ) == Ok::<_, Fault>(Turn::Link(ino, target)),
    {
        reveal(Trip::turned);
    }

    /// A link has one target.
    proof fn lemma_one_target(self, cur: u32, name: Seq<char>, dir: u32, other: Seq<char>)
        ensures
            self.turned(cur, name, false) matches Ok(Turn::Link(a, s)) ==> (self.turned(
                dir,
                other,
                false,
            ) matches Ok(Turn::Link(b, t)) ==> (a == b ==> s == t)),
    {
        reveal(Trip::turned);
    }

    /// Takes the components from the directory `cur` on, in at most that many turns; none if
    /// they are not enough.
    pub open spec fn plain(self, turns: nat, comps: Seq<Seq<char>>, cur: u32) -> Option<
        Outcome<u32>,
    >
        decreases turns,
    {
        if comps.len() == 0 {
            Some(Ok(cur))
        } else if turns == 0 {
            None
        } else {
            let rest = comps.skip(1);
            let left = (turns - 1) as nat;
            match self.turned(cur, comps[0], rest.len() == 0) {
                Err(e) => Some(Err(e)),
                Ok(Turn::Go(next)) => self.plain(left, rest, next),
                Ok(Turn::Link(_, target)) => if is_absolute(target) {
                    Some(resolved_below(self.v, with_tail(target, rest), self.depth + 1))
                } else {
                    self.plain(left, components(target) + rest, cur)
                },
            }
        }
    }

    #[verifier::opaque]
    spec fn walk(
        self,
        open: Seq<u64>,
        comps: Seq<Seq<char>>,
        cur: u32,
        behind: Seq<Seq<char>>,
    ) -> Outcome<Reached> {
        walk_path(self.v, self.path, self.depth, open, comps, cur, behind)
    }

    /// What a walk with something to take comes to.
    proof fn lemma_walk(
        self,
        open: Seq<u64>,
        comps: Seq<Seq<char>>,
        cur: u32,
        behind: Seq<Seq<char>>,
    )
        ensures
            comps.len() == 0 ==> self.walk(open, comps, cur, behind) == Ok::<_, Fault>(
                Reached::At(cur),
            ),
            comps.len() > 0 ==> self.walk(open, comps, cur, behind) == {
                let rest = comps.skip(1);
                let tail = rest + behind;
                match self.turned(cur, comps[0], tail.len() == 0) {
                    Err(e) => Err(e),
                    Ok(Turn::Go(next)) => self.walk(open, rest, next, behind),
                    Ok(Turn::Link(ino, target)) => if is_absolute(target) {
                        if self.depth > MAX_LINK_DEPTH {
                            Err(too_many_links())
                        } else {
                            match resolved_below(self.v, with_tail(target, tail), self.depth + 1) {
                                Err(e) => Err(e),
                                Ok(n) => Ok(Reached::Through(n)),
                            }
                        }
                    } else if open.contains(link_key(cur, ino)) {
                        Err(too_many_links())
                    } else {
                        match self.walk(
                            open.push(link_key(cur, ino)),
                            components(target),
                            cur,
                            tail,
                        ) {
                            Ok(Reached::At(n)) => self.walk(open, rest, n, behind),
                            other => other,
                        }
                    },
                }
            },
    {
        reveal(Trip::turned);
        reveal(Trip::walk);
    }

    /// Whether a link is met that is open already.
    spec fn circles(
        self,
        open: Seq<u64>,
        comps: Seq<Seq<char>>,
        cur: u32,
        behind: Seq<Seq<char>>,
    ) -> bool
        decreases unopened(open), comps.len(),
    {
        if comps.len() == 0 {
            false
        } else {
            let rest = comps.skip(1);
            match self.turned(cur, comps[0], (rest + behind).len() == 0) {
                Err(_) => false,
                Ok(Turn::Go(next)) => self.circles(open, rest, next, behind),
                Ok(Turn::Link(ino, target)) => if is_absolute(target) {
                    false
                } else if open.contains(link_key(cur, ino)) {
                    true
                } else {
                    proof {
                        lemma_opening(open, link_key(cur, ino));
                    }
                    let more = open.push(link_key(cur, ino));
                    let inner = components(target);
                    self.circles(more, inner, cur, rest + behind) || match self.walk(
                        more,
                        inner,
                        cur,
                        rest + behind,
                    ) {
                        Ok(Reached::At(n)) => self.circles(open, rest, n, behind),
                        _ => false,
                    }
                },
            }
        }
    }

    proof fn lemma_more_turns(self, turns: nat, more: nat, comps: Seq<Seq<char>>, cur: u32)
        requires
            turns <= more,
            self.plain(turns, comps, cur) is Some,
        ensures
            self.plain(more, comps, cur) == self.plain(turns, comps, cur),
        decreases turns,
    {
        if comps.len() > 0 {
            let rest = comps.skip(1);
            match self.turned(cur, comps[0], rest.len() == 0) {
                Err(_) => {},
                Ok(Turn::Go(next)) => self.lemma_more_turns(
                    (turns - 1) as nat,
                    (more - 1) as nat,
                    rest,
                    next,
                ),
                Ok(Turn::Link(_, target)) => if !is_absolute(target) {
                    self.lemma_more_turns(
                        (turns - 1) as nat,
                        (more - 1) as nat,
                        components(target) + rest,
                        cur,
                    );
                },
            }
        }
    }

    /// A walk without circles ends: after some turns it has come to what it comes to, or to the
    /// components behind it, with `turns` left for them.
    proof fn lemma_walk_ends(
        self,
        open: Seq<u64>,
        comps: Seq<Seq<char>>,
        cur: u32,
        behind: Seq<Seq<char>>,
        turns: nat,
    ) -> (all: nat)
        requires
            self.depth <= MAX_LINK_DEPTH,
            !self.circles(open, comps, cur, behind),
        ensures
            self.plain(all, comps + behind, cur) == match self.walk(open, comps, cur, behind) {
                Err(e) => Some(Err(e)),
                Ok(Reached::Through(n)) => Some(Ok(n)),
                Ok(Reached::At(n)) => self.plain(turns, behind, n),
            },
        decreases unopened(open), comps.len(),
    {
        self.lemma_walk(open, comps, cur, behind);
        if comps.len() == 0 {
            assert(comps + behind =~= behind);
            turns
        } else {
            let rest = comps.skip(1);
            let tail = rest + behind;
            assert((comps + behind).skip(1) =~= tail);
            match self.turned(cur, comps[0], tail.len() == 0) {
                Err(_) => 1,
                Ok(Turn::Go(next)) => self.lemma_walk_ends(open, rest, next, behind, turns) + 1,
                Ok(Turn::Link(ino, target)) => if is_absolute(target) {
                    1
                } else {
                    let key = link_key(cur, ino);
                    lemma_opening(open, key);
                    let more = open.push(key);
                    let inner = components(target);
                    let after = match self.walk(more, inner, cur, tail) {
                        Ok(Reached::At(n)) => self.lemma_walk_ends(open, rest, n, behind, turns),
                        _ => 0,
                    };
                    self.lemma_walk_ends(more, inner, cur, tail, after) + 1
                },
            }
        }
    }

    /// Where exactly `k` turns lead that do not come to the end of the components.
    spec fn after(self, k: nat, comps: Seq<Seq<char>>, cur: u32) -> Option<
        (Seq<Seq<char>>, u32),
    >
        decreases k,
    {
        if k == 0 {
            Some((comps, cur))
        } else if comps.len() == 0 {
            None
        } else {
            let rest = comps.skip(1);
            match self.turned(cur, comps[0], false) {
                Err(_) => None,
                Ok(Turn::Go(next)) => self.after((k - 1) as nat, rest, next),
                Ok(Turn::Link(_, target)) => if is_absolute(target) {
                    None
                } else {
                    self.after((k - 1) as nat, components(target) + rest, cur)
                },
            }
        }
    }

    proof fn lemma_after_tail(
        self,
        k: nat,
        comps: Seq<Seq<char>>,
        cur: u32,
        tail: Seq<Seq<char>>,
    )
        requires
            self.after(k, comps, cur) is Some,
        ensures
            ({
                let (left, dir) = self.after(k, comps, cur)->Some_0;
                self.after(k, comps + tail, cur) == Some((left + tail, dir))
            }),
        decreases k,
    {
        if k > 0 {
            let rest = comps.skip(1);
            assert((comps + tail).skip(1) =~= rest + tail);
            match self.turned(cur, comps[0], false) {
                Err(_) => {},
                Ok(Turn::Go(next)) => self.lemma_after_tail((k - 1) as nat, rest, next, tail),
                Ok(Turn::Link(_, target)) => {
                    let inner = components(target);
                    self.lemma_after_tail((k - 1) as nat, inner + rest, cur, tail);
                    assert(inner + rest + tail =~= inner + (rest + tail));
                },
            }
        }
    }

    proof fn lemma_after_after(self, j: nat, k: nat, comps: Seq<Seq<char>>, cur: u32)
        requires
            self.after(j, comps, cur) is Some,
        ensures
            ({
                let (left, dir) = self.after(j, comps, cur)->Some_0;
                self.after(j + k, comps, cur) == self.after(k, left, dir)
            }),
        decreases j,
    {
        if j > 0 {
            let rest = comps.skip(1);
            match self.turned(cur, comps[0], false) {
                Err(_) => {},
                Ok(Turn::Go(next)) => self.lemma_after_after((j - 1) as nat, k, rest, next),
                Ok(Turn::Link(_, target)) => self.lemma_after_after(
                    (j - 1) as nat,
                    k,
                    components(target) + rest,
                    cur,
                ),
            }
        }
    }

    /// Turns that do not come to the end are the same whatever comes after.
    proof fn lemma_plain_after(
        self,
        k: nat,
        turns: nat,
        comps: Seq<Seq<char>>,
        cur: u32,
        tail: Seq<Seq<char>>,
    )
        requires
            self.after(k, comps, cur) matches Some((left, _)) && left.len() > 0,
        ensures
            ({
                let (left, dir) = self.after(k, comps, cur)->Some_0;
                &&& turns < k ==> self.plain(turns, comps + tail, cur) is None
                &&& turns >= k ==> self.plain(turns, comps + tail, cur) == self.plain(
                    (turns - k) as nat,
                    left + tail,
                    dir,
                )
            }),
        decreases k,
    {
        if k > 0 {
            let rest = comps.skip(1);
            assert((comps + tail).skip(1) =~= rest + tail);
            if turns > 0 {
                let left = (turns - 1) as nat;
                self.lemma_turned_last(cur, comps[0]);
                match self.turned(cur, comps[0], false) {
                    Err(_) => {},
                    Ok(Turn::Go(next)) => {
                        assert(rest.len() > 0) by {
                            if rest.len() == 0 {
                                assert(self.after((k - 1) as nat, rest, next) is None || k == 1);
                            }
                        }
                        self.lemma_plain_after((k - 1) as nat, left, rest, next, tail);
                    },
                    Ok(Turn::Link(_, target)) => {
                        let inner = components(target);
                        self.lemma_plain_after((k - 1) as nat, left, inner + rest, cur, tail);
                        assert(inner + rest + tail =~= inner + (rest + tail));
                    },
                }
            }
        }
    }

    /// No number of turns is enough, whatever comes after the components.
    spec fn endless(self, comps: Seq<Seq<char>>, cur: u32) -> bool {
        forall|turns: nat, tail: Seq<Seq<char>>| #[trigger]
            self.plain(turns, comps + tail, cur) is None
    }

    proof fn lemma_endless_tail(self, comps: Seq<Seq<char>>, cur: u32, more: Seq<Seq<char>>)
        requires
            self.endless(comps, cur),
        ensures
            self.endless(comps + more, cur),
    {
        assert forall|turns: nat, tail: Seq<Seq<char>>| #[trigger]
            self.plain(turns, comps + more + tail, cur) is None by {
            assert(comps + more + tail =~= comps + (more + tail));
        }
    }

    /// Components that lead to themselves, with more behind them, never come to an end.
    proof fn lemma_round(
        self,
        k: nat,
        turns: nat,
        comps: Seq<Seq<char>>,
        cur: u32,
        more: Seq<Seq<char>>,
        tail: Seq<Seq<char>>,
    )
        requires
            k > 0,
            comps.len() > 0,
            self.after(k, comps, cur) == Some((comps + more, cur)),
        ensures
            self.plain(turns, comps + tail, cur) is None,
        decreases turns,
    {
        self.lemma_plain_after(k, turns, comps, cur, tail);
        if turns >= k {
            assert(comps + more + tail =~= comps + (more + tail));
            self.lemma_round(k, (turns - k) as nat, comps, cur, more, more + tail);
        }
    }

    /// How many turns a walk takes that comes to its end, with something behind it.
    proof fn lemma_passes(
        self,
        open: Seq<u64>,
        comps: Seq<Seq<char>>,
        cur: u32,
        behind: Seq<Seq<char>>,
    ) -> (k: nat)
        requires
            behind.len() > 0,
            self.walk(open, comps, cur, behind) matches Ok(Reached::At(_)),
        ensures
            self.walk(open, comps, cur, behind) matches Ok(Reached::At(n)) && self.after(
                k,
                comps,
                cur,
            ) == Some((Seq::<Seq<char>>::empty(), n)),
        decreases unopened(open), comps.len(),
    {
        self.lemma_walk(open, comps, cur, behind);
        if comps.len() == 0 {
            assert(comps =~= Seq::empty());
            0
        } else {
            let rest = comps.skip(1);
            let tail = rest + behind;
            match self.turned(cur, comps[0], false) {
                Ok(Turn::Go(next)) => self.lemma_passes(open, rest, next, behind) + 1,
                Ok(Turn::Link(ino, target)) => {
                    let key = link_key(cur, ino);
                    lemma_opening(open, key);
                    let more = open.push(key);
                    let inner = components(target);
                    let j = self.lemma_passes(more, inner, cur, tail);
                    let n = self.walk(more, inner, cur, tail)->Ok_0->At_0;
                    let k = self.lemma_passes(open, rest, n, behind);
                    self.lemma_after_tail(j, inner, cur, rest);
                    assert(Seq::<Seq<char>>::empty() + rest =~= rest);
                    self.lemma_after_after(j, k, inner + rest, cur);
                    1 + j + k
                },
                Err(_) => 0,
            }
        }
    }

    /// A walk that meets an open link comes, after some turns, to where no turns are enough,
    /// or to a link that was open from the start.
    #[verifier::rlimit(40)]
    proof fn lemma_circle(
        self,
        open: Seq<u64>,
        comps: Seq<Seq<char>>,
        cur: u32,
        behind: Seq<Seq<char>>,
    ) -> (k: nat)
        requires
            self.circles(open, comps, cur, behind),
        ensures
            self.after(k, comps, cur) matches Some((left, dir)) && left.len() > 0 && (
            self.endless(left, dir) || (self.turned(dir, left[0], false) matches Ok(
                Turn::Link(ino, target),
            ) && !is_absolute(target) && open.contains(link_key(dir, ino)))),
        decreases unopened(open), comps.len(),
    {
        let rest = comps.skip(1);
        let tail = rest + behind;
        self.lemma_turned_last(cur, comps[0]);
        match self.turned(cur, comps[0], tail.len() == 0) {
            Err(_) => 0,
            Ok(Turn::Go(next)) => self.lemma_circle(open, rest, next, behind) + 1,
            Ok(Turn::Link(ino, target)) => {
                let key = link_key(cur, ino);
                let more = open.push(key);
                let inner = components(target);
                assert(self.turned(cur, comps[0], false) == Ok::<_, Fault>(
                    Turn::Link(ino, target),
                ));
                if open.contains(key) {
                    0
                } else {
                    lemma_opening(open, key);
                    if self.circles(more, inner, cur, tail) {
                        let k = self.lemma_circle(more, inner, cur, tail);
                        let (left, dir) = self.after(k, inner, cur)->Some_0;
                        self.lemma_after_tail(k, inner, cur, rest);
                        if self.endless(left, dir) {
                            self.lemma_endless_tail(left, dir, rest);
                            k + 1
                        } else {
                            let again = self.turned(dir, left[0], false)->Ok_0->Link_0;
                            if open.contains(link_key(dir, again)) {
                                assert((left + rest)[0] == left[0]);
                                k + 1
                            } else {
                                assert(link_key(dir, again) == key);
                                assert(dir == cur && again == ino);
                                self.lemma_one_target(cur, comps[0], dir, left[0]);
                                self.lemma_after_after(k, 1, inner, cur);
                                reveal_with_fuel(Trip::after, 2);
                                assert(inner.len() > 0);
                                assert forall|turns: nat, t: Seq<Seq<char>>| #[trigger]
                                    self.plain(turns, inner + t, cur) is None by {
                                    self.lemma_round(k + 1, turns, inner, cur, left.skip(1), t);
                                }
                                self.lemma_endless_tail(inner, cur, rest);
                                1
                            }
                        }
                    } else {
                        let n = self.walk(more, inner, cur, tail)->Ok_0->At_0;
                        assert(rest.len() > 0) by {
                            reveal_with_fuel(Trip::circles, 2);
                        }
                        let j = self.lemma_passes(more, inner, cur, tail);
                        let k = self.lemma_circle(open, rest, n, behind);
                        self.lemma_after_tail(j, inner, cur, rest);
                        assert(Seq::<Seq<char>>::empty() + rest =~= rest);
                        self.lemma_after_after(j, k, inner + rest, cur);
                        1 + j + k
                    }
                }
            },
        }
    }

    proof fn lemma_circles_are_refused(
        self,
        open: Seq<u64>,
        comps: Seq<Seq<char>>,
        cur: u32,
        behind: Seq<Seq<char>>,
    )
        requires
            self.circles(open, comps, cur, behind),
        ensures
            self.walk(open, comps, cur, behind) == Err::<Reached, _>(too_many_links()),
        decreases unopened(open), comps.len(),
    {
        let rest = comps.skip(1);
        let tail = rest + behind;
        self.lemma_walk(open, comps, cur, behind);
        match self.turned(cur, comps[0], tail.len() == 0) {
            Err(_) => {},
            Ok(Turn::Go(next)) => self.lemma_circles_are_refused(open, rest, next, behind),
            Ok(Turn::Link(ino, target)) => {
                let key = link_key(cur, ino);
                let more = open.push(key);
                let inner = components(target);
                if !open.contains(key) {
                    lemma_opening(open, key);
                    if self.circles(more, inner, cur, tail) {
                        self.lemma_circles_are_refused(more, inner, cur, tail);
                    } else {
                        let n = self.walk(more, inner, cur, tail)->Ok_0->At_0;
                        self.lemma_circles_are_refused(open, rest, n, behind);
                    }
                }
            },
        }
    }
}

/// Whatever the plain way to follow a path comes to, after however many turns, resolving the
/// path comes to the same.
pub proof fn law_resolving_is_plain(trip: Trip, turns: nat)
    requires
        trip.depth <= MAX_LINK_DEPTH,
    ensures
        trip.plain(turns, components(trip.path), EXT4_ROOT_INO) matches Some(r) ==> r
            == resolved_below(trip.v, trip.path, trip.depth),
{
    reveal(Trip::walk);
    let comps = components(trip.path);
    let none = Seq::<Seq<char>>::empty();
    let open = Seq::<u64>::empty();
    assert(comps + none =~= comps);
    if trip.plain(turns, comps, EXT4_ROOT_INO) is Some {
        if trip.circles(open, comps, EXT4_ROOT_INO, none) {
            let k = trip.lemma_circle(open, comps, EXT4_ROOT_INO, none);
            let (left, dir) = trip.after(k, comps, EXT4_ROOT_INO)->Some_0;
            trip.lemma_plain_after(k, turns + k, comps, EXT4_ROOT_INO, none);
            trip.lemma_more_turns(turns, turns + k, comps, EXT4_ROOT_INO);
            assert(trip.plain(turns, left + none, dir) is None);
        } else {
            let all = trip.lemma_walk_ends(open, comps, EXT4_ROOT_INO, none, 0);
            trip.lemma_more_turns(all, all + turns, comps, EXT4_ROOT_INO);
            trip.lemma_more_turns(turns, all + turns, comps, EXT4_ROOT_INO);
        }
    }
}

/// Where the plain way never comes to an end, resolving the path reports too many links.
pub proof fn law_circles_are_refused(trip: Trip)
    requires
        trip.depth <= MAX_LINK_DEPTH,
        forall|turns: nat| #[trigger]
            trip.plain(turns, components(trip.path), EXT4_ROOT_INO) is None,
    ensures
        resolved_below(trip.v, trip.path, trip.depth) == Err::<u32, _>(too_many_links()),
{
    reveal(Trip::walk);
    let comps = components(trip.path);
    let none = Seq::<Seq<char>>::empty();
    let open = Seq::<u64>::empty();
    assert(comps + none =~= comps);
    if trip.circles(open, comps, EXT4_ROOT_INO, none) {
        trip.lemma_circles_are_refused(open, comps, EXT4_ROOT_INO, none);
    } else {
        let all = trip.lemma_walk_ends(open, comps, EXT4_ROOT_INO, none, 0);
        assert(trip.plain(all, comps, EXT4_ROOT_INO) is Some);
    }
}

impl Trip {
    /// Whether the first `k` of these components lead from the directory `way[0]` through the
    /// inodes `way`, one after the other, without a symbolic link, where `behind` more are to
    /// follow.
    pub open spec fn leads_through(
        self,
        comps: Seq<Seq<char>>,
        way: Seq<u32>,
        k: int,
        behind: nat,
    ) -> bool {
        &&& 0 <= k <= comps.len()
        &&& way.len() == k + 1
        &&& forall|i: int|
            0 <= i < k ==> self.turned(
                #[trigger] way[i],
                comps[i],
                i + 1 == comps.len() && behind == 0,
            ) == Ok::<_, Fault>(Turn::Go(way[i + 1]))
    }

    proof fn lemma_led(
        self,
        open: Seq<u64>,
        comps: Seq<Seq<char>>,
        way: Seq<u32>,
        behind: Seq<Seq<char>>,
        k: int,
        i: int,
    )
        requires
            self.leads_through(comps, way, k, behind.len()),
            0 <= i <= k,
        ensures
            self.walk(open, comps.skip(i), way[i], behind) == self.walk(
                open,
                comps.skip(k),
                way[k],
                behind,
            ),
        decreases k - i,
    {
        if i < k {
            self.lemma_led(open, comps, way, behind, k, i + 1);
            let here = comps.skip(i);
            self.lemma_walk(open, here, way[i], behind);
            assert(here.skip(1) =~= comps.skip(i + 1));
            assert(here[0] == comps[i]);
            assert((here.skip(1) + behind).len() == comps.len() - i - 1 + behind.len());
            assert(self.turned(way[i], comps[i], i + 1 == comps.len() && behind.len() == 0) == Ok::<
                _,
                Fault,
            >(Turn::Go(way[i + 1])));
        }
    }

    proof fn lemma_resolved(self)
        requires
            self.depth <= MAX_LINK_DEPTH,
        ensures
            resolved_below(self.v, self.path, self.depth) == match self.walk(
                Seq::empty(),
                components(self.path),
                EXT4_ROOT_INO,
                Seq::empty(),
            ) {
                Err(e) => Err(e),
                Ok(reached) => Ok(reached.inode()),
            },
    {
        reveal(Trip::walk);
    }
}

/// A path without symbolic links leads to where its last component does, from the root on, which
/// is inode 2.
pub proof fn law_path_without_links(trip: Trip, way: Seq<u32>)
    requires
        0 <= trip.depth <= 40,
        way.len() > 0,
        way[0] == 2,
        trip.leads_through(components(trip.path), way, components(trip.path).len() as int, 0),
    ensures
        resolved_below(trip.v, trip.path, trip.depth) == Ok::<_, Fault>(way.last()),
        resolved(trip.v, trip.path) == resolved_below(trip.v, trip.path, 0),
{
    let comps = components(trip.path);
    let none = Seq::<Seq<char>>::empty();
    trip.lemma_resolved();
    trip.lemma_led(Seq::empty(), comps, way, none, comps.len() as int, 0);
    assert(comps.skip(0) =~= comps);
    assert(comps.skip(comps.len() as int) =~= none);
    trip.lemma_walk(Seq::empty(), none, way.last(), none);
}

/// A path that comes to an absolute link goes on from the root with the link's target, and then
/// with what is left of the path; but not for the forty-first time.
pub proof fn law_path_to_an_absolute_link(
    trip: Trip,
    way: Seq<u32>,
    k: int,
    ino: u32,
    target: Seq<char>,
)
    requires
        0 <= trip.depth <= 40,
        way.len() > 0,
        way[0] == 2,
        k < components(trip.path).len(),
        trip.leads_through(components(trip.path), way, k, 0),
        trip.turned(way[k], components(trip.path)[k], k + 1 == components(trip.path).len()) == Ok::<
            _,
            Fault,
        >(Turn::Link(ino, target)),
        target.len() > 0 && target[0] == '/',
    ensures
        resolved_below(trip.v, trip.path, trip.depth) == resolved_below(
            trip.v,
            with_tail(target, components(trip.path).skip(k + 1)),
            trip.depth + 1,
        ),
        resolved_below(trip.v, trip.path, 41) == Err::<u32, _>(
            Fault::Unsupported("too many levels of symbolic links"@),
        ),
{
    let comps = components(trip.path);
    let none = Seq::<Seq<char>>::empty();
    trip.lemma_resolved();
    trip.lemma_led(Seq::empty(), comps, way, none, k, 0);
    assert(comps.skip(0) =~= comps);
    let here = comps.skip(k);
    trip.lemma_walk(Seq::empty(), here, way[k], none);
    assert(here[0] == comps[k]);
    assert(here.skip(1) + none =~= comps.skip(k + 1));
    law_bare_path_is_the_root(trip.v, trip.path, 41);
}

/// A path that comes to a relative link goes on with the link's target in the directory of the
/// link, and then with what is left of the path: here the target leads through `inner`, and what
/// is left through `outer`, without another link.
pub proof fn law_path_to_a_relative_link(
    trip: Trip,
    way: Seq<u32>,
    k: int,
    ino: u32,
    target: Seq<char>,
    inner: Seq<u32>,
    outer: Seq<u32>,
)
    requires
        0 <= trip.depth <= 40,
        way.len() > 0,
        way[0] == 2,
        k < components(trip.path).len(),
        trip.leads_through(components(trip.path), way, k, 0),
        trip.turned(way[k], components(trip.path)[k], k + 1 == components(trip.path).len()) == Ok::<
            _,
            Fault,
        >(Turn::Link(ino, target)),
        target.len() == 0 || target[0] != '/',
        trip.leads_through(
            components(target),
            inner,
            components(target).len() as int,
            (components(trip.path).len() - k - 1) as nat,
        ),
        inner[0] == way[k],
        trip.leads_through(
            components(trip.path).skip(k + 1),
            outer,
            components(trip.path).len() - k - 1,
            0,
        ),
        outer[0] == inner.last(),
    ensures
        resolved_below(trip.v, trip.path, trip.depth) == Ok::<_, Fault>(outer.last()),
{
    let comps = components(trip.path);
    let none = Seq::<Seq<char>>::empty();
    let open = Seq::<u64>::empty();
    trip.lemma_resolved();
    trip.lemma_led(open, comps, way, none, k, 0);
    assert(comps.skip(0) =~= comps);
    let here = comps.skip(k);
    let rest = comps.skip(k + 1);
    trip.lemma_walk(open, here, way[k], none);
    assert(here[0] == comps[k]);
    assert(here.skip(1) =~= rest);
    assert(rest + none =~= rest);
    let t = components(target);
    let more = open.push(link_key(way[k], ino));
    trip.lemma_led(more, t, inner, rest, t.len() as int, 0);
    assert(t.skip(0) =~= t);
    assert(t.skip(t.len() as int) =~= none);
    trip.lemma_walk(more, none, inner.last(), rest);
    trip.lemma_led(open, rest, outer, none, rest.len() as int, 0);
    assert(rest.skip(0) =~= rest);
    assert(rest.skip(rest.len() as int) =~= none);
    trip.lemma_walk(open, none, outer.last(), none);
}

/// Taking a component of a trip is taking it in the directory that the trip has come to.
pub proof fn law_turns_of_a_trip(trip: Trip, cur: u32, name: Seq<char>, last: bool)
    ensures
        trip.turned(cur, name, last) == turn(trip.v, trip.path, cur, name, last),
{
    reveal(Trip::turned);
}

} // verus!
