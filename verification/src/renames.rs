//! Pairing the two halves of an inotify rename before they reach attribution.
//!
//! inotify reports a move as a departure and an arrival that share a cookie,
//! and notify then adds a redundant "both" of its own. Halves are paired here
//! by cookie, interleaved renames included, within a short window; a half
//! whose partner never comes is released alone once the window passes, and a
//! known gap means no half is ever joined across it. Everything that is not a
//! rename half passes by this buffer untouched; turning the backend's events
//! into halves and back is the host's part.

use vstd::prelude::*;

verus! {

/// How long a half waits for its partner, in milliseconds.
pub const PAIR_WINDOW_MS: u64 = 250;
/// How many unpaired halves are held before the buffer gives up and reports
/// a gap: bounded memory under a rename storm.
pub const MAX_PENDING: usize = 1024;

/// Which end of a move a half is.
#[derive(Clone, Copy, Debug, PartialEq, Eq, Structural)]
pub enum Direction {
    From,
    To,
}

/// One half of a move: the cookie the kernel shares between the two, which
/// end it is, and its one path.
#[derive(Clone, Debug, PartialEq, Eq)]
pub struct Half {
    pub tracker: u64,
    pub direction: Direction,
    pub path: String,
}

/// What the buffer lets go of.
#[derive(Clone, Debug, PartialEq, Eq)]
pub enum Released {
    /// Both ends of one move.
    Pair { tracker: u64, from: String, to: String },
    /// A half whose partner did not come in time.
    Alone(Half),
    /// The buffer dropped what it held: the host must reconcile this gap
    /// instead of treating an incomplete stream as complete.
    Gap,
}

pub type HalfView = (u64, Direction, Seq<char>);

/// What a release says: a pair as its cookie and two paths, a lone half as
/// itself, or a gap.
pub enum ReleasedView {
    Pair(u64, Seq<char>, Seq<char>),
    Alone(HalfView),
    Gap,
}

pub open spec fn half_view(h: Half) -> HalfView {
    (h.tracker, h.direction, h.path@)
}

pub open spec fn released_view(r: Released) -> ReleasedView {
    match r {
        Released::Pair { tracker, from, to } => ReleasedView::Pair(tracker, from@, to@),
        Released::Alone(h) => ReleasedView::Alone(half_view(h)),
        Released::Gap => ReleasedView::Gap,
    }
}

pub open spec fn released_views(rs: Seq<Released>) -> Seq<ReleasedView> {
    rs.map_values(|r: Released| released_view(r))
}

/// Pending halves, oldest first, with the millisecond each arrived.
pub type Pending = Seq<(u64, HalfView)>;

/// The pending halves whose window has closed by `now`, oldest first, and
/// what is left.
pub open spec fn expired(pending: Pending, now: u64) -> (Pending, Seq<ReleasedView>)
    decreases pending.len(),
{
    if pending.len() > 0 && pending[0].0 + PAIR_WINDOW_MS <= now {
        let (rest, out) = expired(pending.drop_first(), now);
        (rest, seq![ReleasedView::Alone(pending[0].1)] + out)
    } else {
        (pending, seq![])
    }
}

pub open spec fn opposite(d: Direction) -> Direction {
    match d {
        Direction::From => Direction::To,
        Direction::To => Direction::From,
    }
}

/// Where the first pending half that completes `h` is, if any.
pub open spec fn partner_at(pending: Pending, h: HalfView) -> int
    decreases pending.len(),
{
    if pending.len() == 0 {
        -1
    } else if pending.last().1.0 == h.0 && pending.last().1.1 == opposite(h.1) && partner_at(pending.drop_last(), h) == -1 {
        pending.len() - 1
    } else {
        partner_at(pending.drop_last(), h)
    }
}

/// What a half arriving at `now` does: first the halves whose window closed
/// go, then the half completes the first pending partner it has, or waits —
/// after a gap, when the buffer is full.
pub open spec fn pushed(pending: Pending, h: HalfView, now: u64) -> (Pending, Seq<ReleasedView>) {
    let (rest, out) = expired(pending, now);
    let at = partner_at(rest, h);
    if at >= 0 {
        let other = rest[at].1;
        let (from, to) = if h.1 == Direction::From { (h, other) } else { (other, h) };
        (rest.remove(at), out.push(ReleasedView::Pair(from.0, from.2, to.2)))
    } else if rest.len() == MAX_PENDING {
        (seq![(now, h)], out.push(ReleasedView::Gap))
    } else {
        (rest.push((now, h)), out)
    }
}

pub struct RenameBuffer {
    pending: Vec<(u64, Half)>,
}

pub open spec fn pending_view(p: Seq<(u64, Half)>) -> Pending {
    p.map_values(|e: (u64, Half)| (e.0, half_view(e.1)))
}

fn copy_half(h: &Half) -> (out: Half)
    ensures
        half_view(out) == half_view(*h),
{
    Half { tracker: h.tracker, direction: h.direction, path: h.path.clone() }
}

impl RenameBuffer {
    /// The halves waiting for a partner, oldest first.
    pub closed spec fn held(&self) -> Pending {
        pending_view(self.pending@)
    }

    /// Whether every half arrived no later than every half after it.
    pub closed spec fn wf(&self) -> bool {
        self.pending@.len() <= MAX_PENDING
    }

    pub fn new() -> (b: RenameBuffer)
        ensures
            b.wf(),
            b.held().len() == 0,
    {
        RenameBuffer { pending: Vec::new() }
    }

    /// When the oldest pending half stops waiting, if any is.
    pub fn deadline(&self) -> (d: Option<u64>)
        requires
            self.held().len() > 0 ==> self.held()[0].0 + PAIR_WINDOW_MS <= u64::MAX,
        ensures
            d == (if self.held().len() > 0 { Some((self.held()[0].0 + PAIR_WINDOW_MS) as u64) } else { None }),
    {
        if self.pending.len() > 0 {
            proof {
                assert(self.held()[0] == (self.pending@[0].0, half_view(self.pending@[0].1)));
            }
            Some(self.pending[0].0 + PAIR_WINDOW_MS)
        } else {
            None
        }
    }

    /// Lets go of every half whose window has closed by `now`, oldest first.
    pub fn expire(&mut self, now: u64) -> (ready: Vec<Released>)
        requires
            old(self).wf(),
        ensures
            final(self).wf(),
            (final(self).held(), released_views(ready@)) == expired(old(self).held(), now),
    {
        let ghost start = self.held();
        let mut ready: Vec<Released> = Vec::new();
        let mut taken: usize = 0;
        proof {
            assert(start.skip(0) =~= start);
            assert(released_views(ready@) =~= Seq::<ReleasedView>::empty());
            let (rest, out) = expired(start, now);
            assert(released_views(ready@) + out =~= out);
        }
        while taken < self.pending.len() && self.pending[taken].0 <= now && now - self.pending[taken].0 >= PAIR_WINDOW_MS
            invariant
                taken <= self.pending@.len(),
                start == pending_view(self.pending@),
                expired(start, now) == {
                    let (rest, out) = expired(start.skip(taken as int), now);
                    (rest, released_views(ready@) + out)
                },
            decreases self.pending@.len() - taken,
        {
            let ghost before = ready@;
            ready.push(Released::Alone(copy_half(&self.pending[taken].1)));
            proof {
                let s = start.skip(taken as int);
                assert(s[0] == (self.pending@[taken as int].0, half_view(self.pending@[taken as int].1)));
                assert(s.drop_first() =~= start.skip(taken + 1));
                assert(released_views(ready@) =~= released_views(before).push(ReleasedView::Alone(s[0].1)));
                let (rest, out) = expired(s.drop_first(), now);
                assert(released_views(before) + (seq![ReleasedView::Alone(s[0].1)] + out)
                    =~= released_views(ready@) + out);
            }
            taken = taken + 1;
        }
        proof {
            let s = start.skip(taken as int);
            if s.len() > 0 {
                assert(s[0] == (self.pending@[taken as int].0, half_view(self.pending@[taken as int].1)));
            }
            assert(expired(s, now) == (s, Seq::<ReleasedView>::empty()));
            assert(released_views(ready@) + Seq::<ReleasedView>::empty() =~= released_views(ready@));
        }
        let mut kept: Vec<(u64, Half)> = Vec::new();
        let mut k: usize = taken;
        while k < self.pending.len()
            invariant
                taken <= k <= self.pending@.len(),
                pending_view(kept@) == start.subrange(taken as int, k as int),
                start == pending_view(self.pending@),
            decreases self.pending@.len() - k,
        {
            let ghost before = kept@;
            let entry = (self.pending[k].0, copy_half(&self.pending[k].1));
            kept.push(entry);
            proof {
                assert(start[k as int] == (self.pending@[k as int].0, half_view(self.pending@[k as int].1)));
                assert(pending_view(kept@) =~= pending_view(before).push((entry.0, half_view(entry.1))));
                assert(pending_view(kept@) =~= start.subrange(taken as int, k + 1));
            }
            k = k + 1;
        }
        proof {
            assert(start.subrange(taken as int, start.len() as int) =~= start.skip(taken as int));
        }
        self.pending = kept;
        ready
    }

    /// Where the first pending half that completes `h` is.
    fn partner(&self, h: &Half) -> (at: Option<usize>)
        ensures
            match at {
                Some(i) => i < self.held().len() && partner_at(self.held(), half_view(*h)) == i,
                None => partner_at(self.held(), half_view(*h)) == -1,
            },
    {
        let want = match h.direction { Direction::From => Direction::To, Direction::To => Direction::From };
        let ghost p = self.held();
        let mut i: usize = 0;
        while i < self.pending.len()
            invariant
                i <= self.pending@.len(),
                p == self.held(),
                want == opposite(h.direction),
                partner_at(p.take(i as int), half_view(*h)) == -1,
            decreases self.pending@.len() - i,
        {
            proof {
                assert(p.take(i + 1).drop_last() =~= p.take(i as int));
                assert(p[i as int] == (self.pending@[i as int].0, half_view(self.pending@[i as int].1)));
            }
            if self.pending[i].1.tracker == h.tracker && self.pending[i].1.direction == want {
                proof {
                    partner_in_prefix(p, half_view(*h), i as int);
                }
                return Some(i);
            }
            i = i + 1;
        }
        proof {
            assert(p.take(p.len() as int) =~= p);
        }
        None
    }

    /// A rename half arriving at `now`, after the halves whose window closed.
    pub fn push(&mut self, h: Half, now: u64) -> (ready: Vec<Released>)
        requires
            old(self).wf(),
        ensures
            final(self).wf(),
            (final(self).held(), released_views(ready@)) == pushed(old(self).held(), half_view(h), now),
    {
        let mut ready = self.expire(now);
        let ghost rest = self.held();
        let ghost out = released_views(ready@);
        match self.partner(&h) {
            Some(at) => {
                let (_, other) = self.pending.remove(at);
                proof {
                    assert(rest[at as int].1 == half_view(other));
                    assert(self.held() =~= rest.remove(at as int));
                }
                let released = match h.direction {
                    Direction::From => Released::Pair { tracker: h.tracker, from: h.path, to: other.path },
                    Direction::To => Released::Pair { tracker: other.tracker, from: other.path, to: h.path },
                };
                ready.push(released);
                proof {
                    assert(released_views(ready@) =~= out.push(released_view(released)));
                }
            },
            None => {
                if self.pending.len() == MAX_PENDING {
                    self.pending.clear();
                    ready.push(Released::Gap);
                    proof {
                        assert(released_views(ready@) =~= out.push(ReleasedView::Gap));
                    }
                }
                let ghost before = self.held();
                let ghost hv = half_view(h);
                self.pending.push((now, h));
                proof {
                    assert(self.held() =~= before.push((now, hv)));
                    if rest.len() == MAX_PENDING {
                        assert(before =~= Seq::<(u64, HalfView)>::empty());
                        assert(self.held() =~= seq![(now, hv)]);
                    }
                }
            },
        }
        ready
    }

    /// A known gap: no half is ever joined across it, so what is held is
    /// dropped, and the host passes the gap on.
    pub fn gap(&mut self)
        ensures
            final(self).wf(),
            final(self).held().len() == 0,
    {
        self.pending.clear();
    }

    /// The end of the stream: every half still waiting is let go of as it
    /// is, oldest first, so stopping never discards the last departure.
    pub fn drain(&mut self) -> (held: Vec<Half>)
        ensures
            final(self).wf(),
            final(self).held().len() == 0,
            held@.map_values(|h: Half| half_view(h)) == old(self).held().map_values(|e: (u64, HalfView)| e.1),
    {
        let mut held: Vec<Half> = Vec::new();
        let mut i: usize = 0;
        while i < self.pending.len()
            invariant
                i <= self.pending@.len(),
                held@.map_values(|h: Half| half_view(h)) == self.held().take(i as int).map_values(|e: (u64, HalfView)| e.1),
            decreases self.pending@.len() - i,
        {
            let ghost before = held@;
            let h = copy_half(&self.pending[i].1);
            held.push(h);
            proof {
                assert(self.held()[i as int] == (self.pending@[i as int].0, half_view(self.pending@[i as int].1)));
                assert(held@.map_values(|h: Half| half_view(h)) =~= before.map_values(|h: Half| half_view(h)).push(half_view(h)));
                assert(self.held().take(i + 1).map_values(|e: (u64, HalfView)| e.1) =~= self.held().take(i as int).map_values(|e: (u64, HalfView)| e.1).push(self.held()[i as int].1));
            }
            i = i + 1;
        }
        proof {
            assert(self.held().take(self.held().len() as int) =~= self.held());
        }
        self.pending.clear();
        held
    }
}

proof fn partner_in_prefix(p: Pending, h: HalfView, i: int)
    requires
        0 <= i < p.len(),
        partner_at(p.take(i), h) == -1,
        p[i].1.0 == h.0,
        p[i].1.1 == opposite(h.1),
    ensures
        partner_at(p, h) == i,
    decreases p.len() - i,
{
    if i == p.len() - 1 {
        assert(p.drop_last() =~= p.take(i));
    } else {
        assert(p.drop_last().take(i) =~= p.take(i));
        assert(p.drop_last()[i] == p[i]);
        partner_in_prefix(p.drop_last(), h, i);
    }
}

} // verus!
