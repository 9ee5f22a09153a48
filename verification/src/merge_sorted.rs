//! Merges inclusive ranges ordered by their start into disjoint, non-adjacent ranges.
use core::ops::RangeInclusive;
use range_set_blaze::Integer;
use vstd::prelude::*;

verus! {

/// `Integer::add_one` of range-set-blaze on `u64`, which is `x + 1`: it
/// overflows at `u64::MAX` (a panic in a debug build), so that input is left
/// out.
#[verifier::external_body]
fn add_one(x: u64) -> (y: u64)
    requires
        x < u64::MAX,
    ensures
        y == x + 1,
{
    x.add_one()
}

/// `RangeInclusive::start` hands back the start the range was built with.
pub assume_specification<Idx>[ RangeInclusive::<Idx>::start ](r: &RangeInclusive<Idx>) -> (s: &Idx)
    ensures
        *s == r@.start,
;

/// `RangeInclusive::end` hands back the end the range was built with.
pub assume_specification<Idx>[ RangeInclusive::<Idx>::end ](r: &RangeInclusive<Idx>) -> (e: &Idx)
    ensures
        *e == r@.end,
;

/// The bounds of an inclusive range.
pub open spec fn bounds(r: RangeInclusive<u64>) -> (int, int) {
    (r@.start as int, r@.end as int)
}

/// The bounds of each range of a list.
pub open spec fn all_bounds(rs: Seq<RangeInclusive<u64>>) -> Seq<(int, int)> {
    Seq::new(rs.len(), |i: int| bounds(rs[i]))
}

/// The inclusive range `[b.0, b.1]` holds `p`.
pub open spec fn in_closed(b: (int, int), p: int) -> bool {
    b.0 <= p && p <= b.1
}

/// Some range of `bs` holds `p`.
pub open spec fn covers_closed(bs: Seq<(int, int)>, p: int) -> bool {
    exists|i: int| 0 <= i < bs.len() && #[trigger] in_closed(bs[i], p)
}

/// Ranges that the merge accepts after a run `[s, e]`: each range has
/// `start <= end` and does not start before the run it joins; a range that
/// starts right after `e + 1` opens a new run. The run's end is below
/// `u64::MAX` whenever another range follows, since the merge compares with
/// `e + 1`.
pub open spec fn run_ok(s: int, e: int, rest: Seq<(int, int)>) -> bool
    decreases rest.len(),
{
    if rest.len() == 0 {
        true
    } else {
        let n = rest[0];
        &&& n.0 <= n.1
        &&& s <= n.0
        &&& e < u64::MAX
        &&& if n.0 > e + 1 {
            run_ok(n.0, n.1, rest.drop_first())
        } else {
            run_ok(s, if n.1 > e { n.1 } else { e }, rest.drop_first())
        }
    }
}

/// Input that the merge takes without panicking: ordered by start within each
/// merged run, every range with `start <= end`.
pub open spec fn mergeable(bs: Seq<(int, int)>) -> bool {
    bs.len() == 0 || (bs[0].0 <= bs[0].1 && run_ok(bs[0].0, bs[0].1, bs.drop_first()))
}

/// Disjoint ranges in increasing order with a gap of at least one between
/// neighbours, each with `start <= end`.
pub open spec fn separated(bs: Seq<(int, int)>) -> bool {
    &&& forall|i: int| 0 <= i < bs.len() ==> #[trigger] bs[i].0 <= bs[i].1
    &&& forall|i: int, j: int| 0 <= i < j < bs.len() ==> #[trigger] bs[i].1 + 1 < #[trigger] bs[j].0
}

proof fn lemma_run_ok_starts(s: int, e: int, rest: Seq<(int, int)>)
    requires
        run_ok(s, e, rest),
    ensures
        forall|k: int| 0 <= k < rest.len() ==> s <= #[trigger] rest[k].0,
    decreases rest.len(),
{
    if rest.len() > 0 {
        let n = rest[0];
        let ne = if n.1 > e { n.1 } else { e };
        if n.0 > e + 1 {
            lemma_run_ok_starts(n.0, n.1, rest.drop_first());
        } else {
            lemma_run_ok_starts(s, ne, rest.drop_first());
        }
        assert forall|k: int| 0 <= k < rest.len() implies s <= #[trigger] rest[k].0 by {
            if k > 0 {
                assert(rest[k] == rest.drop_first()[k - 1]);
            }
        }
    }
}

proof fn lemma_covers_closed_cons(x: (int, int), rest: Seq<(int, int)>, p: int)
    ensures
        covers_closed(seq![x] + rest, p) <==> (in_closed(x, p) || covers_closed(rest, p)),
{
    let all = seq![x] + rest;
    if in_closed(x, p) {
        assert(all[0] == x);
    }
    if covers_closed(rest, p) {
        let i = choose|i: int| 0 <= i < rest.len() && #[trigger] in_closed(rest[i], p);
        assert(all[i + 1] == rest[i]);
    }
    if covers_closed(all, p) {
        let i = choose|i: int| 0 <= i < all.len() && #[trigger] in_closed(all[i], p);
        if i > 0 {
            assert(all[i] == rest[i - 1]);
        }
    }
}

proof fn lemma_covers_closed_first(bs: Seq<(int, int)>, p: int)
    requires
        bs.len() > 0,
    ensures
        covers_closed(bs, p) <==> (in_closed(bs[0], p) || covers_closed(bs.drop_first(), p)),
{
    assert(bs =~= seq![bs[0]] + bs.drop_first());
    lemma_covers_closed_cons(bs[0], bs.drop_first(), p);
}

/// Merges ranges ordered by their start into disjoint ranges, joining ranges
/// that overlap or touch (`next.start <= last.end + 1`).
pub struct MergeSortedOverlapping {
    iter: Vec<RangeInclusive<u64>>,
    pos: usize,
    acc: Option<RangeInclusive<u64>>,
}

impl MergeSortedOverlapping {
    /// The ranges still to be merged: the pending run, then the unread input.
    pub closed spec fn pending(&self) -> Seq<(int, int)> {
        let rest = all_bounds(self.iter@).skip(self.pos as int);
        match self.acc {
            Some(a) => seq![bounds(a)] + rest,
            None => rest,
        }
    }

    /// The position of the reader stays inside the input.
    pub closed spec fn wf(&self) -> bool {
        self.pos <= self.iter@.len()
    }

    pub fn new(iter: Vec<RangeInclusive<u64>>) -> (m: Self)
        ensures
            m.wf(),
            m.pending() == all_bounds(iter@),
    {
        let m = Self { iter, pos: 0, acc: None };
        proof {
            assert(all_bounds(m.iter@).skip(0) =~= all_bounds(m.iter@));
        }
        m
    }

    /// The next merged range. It starts where the first pending range starts,
    /// holds every position of the ranges it absorbed, and is followed only by
    /// ranges that start more than one past its end. After the last range,
    /// every call gives `None`.
    pub fn next(&mut self) -> (r: Option<RangeInclusive<u64>>)
        requires
            old(self).wf(),
            mergeable(old(self).pending()),
        ensures
            final(self).wf(),
            mergeable(final(self).pending()),
            r is None <==> old(self).pending().len() == 0,
            r is None ==> final(self).pending() == old(self).pending(),
            r matches Some(x) ==> {
                &&& !x@.exhausted
                &&& bounds(x).0 == old(self).pending()[0].0
                &&& bounds(x).0 <= bounds(x).1
                &&& final(self).pending().len() < old(self).pending().len()
                &&& forall|k: int| 0 <= k < final(self).pending().len()
                    ==> bounds(x).1 + 1 < #[trigger] final(self).pending()[k].0
                &&& forall|p: int| covers_closed(old(self).pending(), p)
                    <==> (in_closed(bounds(x), p) || covers_closed(final(self).pending(), p))
            },
    {
        let ghost old_pending = self.pending();
        let ghost rest0 = all_bounds(self.iter@).skip(self.pos as int);
        let first = match self.acc.take() {
            Some(a) => a,
            None => {
                if self.pos >= self.iter.len() {
                    proof {
                        assert(old_pending =~= rest0);
                    }
                    return None;
                }
                let a = *self.iter[self.pos].start()..=*self.iter[self.pos].end();
                self.pos = self.pos + 1;
                a
            }
        };
        let mut last_start: u64 = *first.start();
        let mut last_end: u64 = *first.end();
        proof {
            assert(old_pending[0] == bounds(first));
            let rest = all_bounds(self.iter@).skip(self.pos as int);
            assert(old_pending.drop_first() =~= rest);
            assert forall|p: int| covers_closed(old_pending, p) <==> (in_closed(bounds(first), p) || covers_closed(rest, p)) by {
                lemma_covers_closed_first(old_pending, p);
            }
        }
        while self.pos < self.iter.len()
            invariant
                self.wf(),
                self.acc is None,
                old_pending == old(self).pending(),
                old_pending.len() > 0,
                last_start == old_pending[0].0,
                last_start <= last_end,
                run_ok(last_start as int, last_end as int, all_bounds(self.iter@).skip(self.pos as int)),
                forall|p: int| covers_closed(old_pending, p) <==> (in_closed((last_start as int, last_end as int), p)
                    || covers_closed(all_bounds(self.iter@).skip(self.pos as int), p)),
                all_bounds(self.iter@).skip(self.pos as int).len() < old_pending.len(),
            decreases self.iter@.len() - self.pos,
        {
            let ghost rest = all_bounds(self.iter@).skip(self.pos as int);
            let next = *self.iter[self.pos].start()..=*self.iter[self.pos].end();
            self.pos = self.pos + 1;
            let next_start: u64 = *next.start();
            let next_end: u64 = *next.end();
            proof {
                assert(rest[0] == bounds(next));
                assert(rest.drop_first() =~= all_bounds(self.iter@).skip(self.pos as int));
                assert forall|p: int| covers_closed(rest, p) <==> (in_closed(bounds(next), p)
                    || covers_closed(rest.drop_first(), p)) by {
                    lemma_covers_closed_first(rest, p);
                }
            }
            if next_start > add_one(last_end) {
                let ghost rest_after = all_bounds(self.iter@).skip(self.pos as int);
                self.acc = Some(next);
                let result = last_start..=last_end;
                proof {
                    let np = self.pending();
                    assert(np =~= seq![bounds(next)] + rest_after);
                    assert(np.len() == rest.len());
                    assert(np.drop_first() =~= rest_after);
                    lemma_run_ok_starts(next_start as int, next_end as int, rest_after);
                    assert forall|k: int| 0 <= k < np.len() implies last_end + 1 < #[trigger] np[k].0 by {
                        if k > 0 {
                            assert(np[k] == rest_after[k - 1]);
                        }
                    }
                    assert forall|p: int| covers_closed(old_pending, p) <==> (in_closed(bounds(result), p)
                        || covers_closed(np, p)) by {
                        lemma_covers_closed_cons(bounds(next), rest_after, p);
                    }
                }
                return Some(result);
            }
            let merged_end: u64 = if next_end > last_end { next_end } else { last_end };
            proof {
                assert forall|p: int| in_closed((last_start as int, merged_end as int), p) <==> (in_closed(
                    (last_start as int, last_end as int), p) || in_closed(bounds(next), p)) by {}
            }
            last_end = merged_end;
        }
        let result = last_start..=last_end;
        proof {
            let np = self.pending();
            assert(np.len() == 0);
            assert forall|p: int| covers_closed(old_pending, p) <==> (in_closed(bounds(result), p)
                || covers_closed(np, p)) by {}
        }
        Some(result)
    }

    /// Every merged range, in order: disjoint ranges with a gap between
    /// neighbours that hold exactly the positions of the pending ranges.
    pub fn collect(self) -> (out: Vec<RangeInclusive<u64>>)
        requires
            self.wf(),
            mergeable(self.pending()),
        ensures
            separated(all_bounds(out@)),
            forall|p: int| covers_closed(all_bounds(out@), p) <==> covers_closed(self.pending(), p),
    {
        let ghost input = self.pending();
        let mut it = self;
        let mut out: Vec<RangeInclusive<u64>> = Vec::new();
        loop
            invariant
                input == self.pending(),
                it.wf(),
                mergeable(it.pending()),
                separated(all_bounds(out@)),
                forall|p: int| covers_closed(input, p) <==> (covers_closed(all_bounds(out@), p)
                    || covers_closed(it.pending(), p)),
                out@.len() > 0 ==> forall|k: int| 0 <= k < it.pending().len()
                    ==> all_bounds(out@).last().1 + 1 < #[trigger] it.pending()[k].0,
            decreases it.pending().len(),
        {
            let ghost before = it.pending();
            match it.next() {
                None => {
                    proof {
                        assert(it.pending().len() == 0);
                        assert forall|p: int| covers_closed(all_bounds(out@), p) <==> covers_closed(input, p) by {
                            if covers_closed(it.pending(), p) {
                                let i = choose|i: int| 0 <= i < it.pending().len() && #[trigger] in_closed(it.pending()[i], p);
                                assert(false);
                            }
                        }
                    }
                    return out;
                }
                Some(x) => {
                    let ghost prev = all_bounds(out@);
                    out.push(x);
                    proof {
                        let bs = all_bounds(out@);
                        assert(bs =~= prev.push(bounds(x)));
                        if prev.len() > 0 {
                            assert(prev.last().1 + 1 < before[0].0);
                        }
                        assert forall|i: int, j: int| 0 <= i < j < bs.len() implies #[trigger] bs[i].1 + 1 < #[trigger] bs[j].0 by {
                            if j == bs.len() - 1 && i < prev.len() {
                                assert(prev[i].1 <= prev.last().1) by {
                                    if i < prev.len() - 1 {
                                        assert(prev[i].1 + 1 < prev[prev.len() - 1].0);
                                    }
                                }
                            } else if j < prev.len() {
                                assert(bs[i] == prev[i] && bs[j] == prev[j]);
                            }
                        }
                        assert forall|p: int| covers_closed(bs, p) <==> (covers_closed(prev, p) || in_closed(bounds(x), p)) by {
                            if covers_closed(prev, p) {
                                let i = choose|i: int| 0 <= i < prev.len() && #[trigger] in_closed(prev[i], p);
                                assert(bs[i] == prev[i]);
                            }
                            if in_closed(bounds(x), p) {
                                assert(bs[prev.len() as int] == bounds(x));
                            }
                            if covers_closed(bs, p) {
                                let i = choose|i: int| 0 <= i < bs.len() && #[trigger] in_closed(bs[i], p);
                                if i < prev.len() {
                                    assert(bs[i] == prev[i]);
                                }
                            }
                        }
                        assert(bs.last() == bounds(x));
                    }
                }
            }
        }
    }
}

/// Tells whether [`MergeSortedOverlapping`] takes `ranges` without panicking.
pub fn is_mergeable(ranges: &Vec<RangeInclusive<u64>>) -> (b: bool)
    ensures
        b == mergeable(all_bounds(ranges@)),
{
    let ghost bs = all_bounds(ranges@);
    if ranges.len() == 0 {
        return true;
    }
    let mut s: u64 = *ranges[0].start();
    let mut e: u64 = *ranges[0].end();
    if s > e {
        return false;
    }
    let mut i: usize = 1;
    proof {
        assert(bs.drop_first() =~= bs.skip(1));
    }
    while i < ranges.len()
        invariant
            1 <= i <= ranges@.len(),
            bs == all_bounds(ranges@),
            bs[0].0 <= bs[0].1,
            run_ok(bs[0].0, bs[0].1, bs.drop_first()) == run_ok(s as int, e as int, bs.skip(i as int)),
        decreases ranges@.len() - i,
    {
        let ns: u64 = *ranges[i].start();
        let ne: u64 = *ranges[i].end();
        proof {
            assert(bs.skip(i as int)[0] == bounds(ranges@[i as int]));
            assert(bs.skip(i as int).drop_first() =~= bs.skip(i + 1));
        }
        if ns > ne || s > ns || e == u64::MAX {
            return false;
        }
        if ns > e + 1 {
            s = ns;
            e = ne;
        } else if ne > e {
            e = ne;
        }
        i = i + 1;
    }
    proof {
        run_ok_empty(s as int, e as int, bs.skip(i as int));
    }
    true
}

proof fn run_ok_empty(s: int, e: int, rest: Seq<(int, int)>)
    requires
        rest.len() == 0,
    ensures
        run_ok(s, e, rest),
{
}

} // verus!
