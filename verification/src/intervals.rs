//! Half-open pixel intervals `[start, end)` over `u32` positions, and the
//! subtraction of one ordered interval list from another.
use vstd::prelude::*;

verus! {

/// A half-open interval `[s.0, s.1)` holds the position `p`.
pub open spec fn in_span(s: (u32, u32), p: int) -> bool {
    s.0 <= p && p < s.1
}

/// Some interval of `spans` holds the position `p`.
pub open spec fn covers(spans: Seq<(u32, u32)>, p: int) -> bool {
    exists|i: int| 0 <= i < spans.len() && #[trigger] in_span(spans[i], p)
}

/// Every interval is non-empty.
pub open spec fn all_nonempty(spans: Seq<(u32, u32)>) -> bool {
    forall|i: int| 0 <= i < spans.len() ==> #[trigger] spans[i].0 < spans[i].1
}

/// Non-empty intervals in increasing order that do not overlap (they may touch).
pub open spec fn sorted_disjoint(spans: Seq<(u32, u32)>) -> bool {
    &&& all_nonempty(spans)
    &&& forall|i: int, j: int| 0 <= i < j < spans.len() ==> #[trigger] spans[i].1 <= #[trigger] spans[j].0
}

/// Non-empty intervals ordered by their start; they may overlap.
pub open spec fn sorted_by_start(spans: Seq<(u32, u32)>) -> bool {
    &&& all_nonempty(spans)
    &&& forall|i: int, j: int| 0 <= i < j < spans.len() ==> #[trigger] spans[i].0 <= #[trigger] spans[j].0
}

/// Every interval of `inner` lies inside some interval of `outer`.
pub open spec fn nested_in(inner: Seq<(u32, u32)>, outer: Seq<(u32, u32)>) -> bool {
    forall|o: int|
        0 <= o < inner.len() ==> exists|i: int|
            0 <= i < outer.len() && outer[i].0 <= #[trigger] inner[o].0 && inner[o].1 <= outer[i].1
}

/// Neighbouring intervals of `out` touch only where an interval of `new` ends,
/// so no interval of `new` is split into touching parts.
pub open spec fn split_only_at_ends(out: Seq<(u32, u32)>, new: Seq<(u32, u32)>) -> bool {
    forall|o: int|
        0 <= o && o + 1 < out.len() && #[trigger] out[o].1 == out[o + 1].0 ==> exists|i: int|
            0 <= i < new.len() && #[trigger] new[i].1 == out[o].1
}

pub(crate) proof fn lemma_covers_push(s: Seq<(u32, u32)>, x: (u32, u32), p: int)
    ensures
        covers(s.push(x), p) <==> (covers(s, p) || in_span(x, p)),
{
    if covers(s, p) {
        let i = choose|i: int| 0 <= i < s.len() && #[trigger] in_span(s[i], p);
        assert(s.push(x)[i] == s[i]);
    }
    if in_span(x, p) {
        assert(s.push(x)[s.len() as int] == x);
    }
    if covers(s.push(x), p) {
        let i = choose|i: int| 0 <= i < s.push(x).len() && #[trigger] in_span(s.push(x)[i], p);
        if i < s.len() {
            assert(s.push(x)[i] == s[i]);
        }
    }
}

proof fn lemma_covers_concat(s: Seq<(u32, u32)>, t: Seq<(u32, u32)>, p: int)
    ensures
        covers(s + t, p) <==> (covers(s, p) || covers(t, p)),
{
    if covers(s, p) {
        let i = choose|i: int| 0 <= i < s.len() && #[trigger] in_span(s[i], p);
        assert((s + t)[i] == s[i]);
    }
    if covers(t, p) {
        let i = choose|i: int| 0 <= i < t.len() && #[trigger] in_span(t[i], p);
        assert((s + t)[s.len() + i] == t[i]);
    }
    if covers(s + t, p) {
        let i = choose|i: int| 0 <= i < (s + t).len() && #[trigger] in_span((s + t)[i], p);
        if i < s.len() {
            assert((s + t)[i] == s[i]);
        } else {
            assert((s + t)[i] == t[i - s.len()]);
        }
    }
}

proof fn lemma_sorted_push(s: Seq<(u32, u32)>, x: (u32, u32))
    requires
        sorted_disjoint(s),
        x.0 < x.1,
        forall|o: int| 0 <= o < s.len() ==> #[trigger] s[o].1 <= x.0,
    ensures
        sorted_disjoint(s.push(x)),
{
    assert forall|i: int, j: int| 0 <= i < j < s.push(x).len() implies #[trigger] s.push(x)[i].1 <= #[trigger] s.push(x)[j].0 by {
        assert(s.push(x)[i] == s[i]);
        if j < s.len() {
            assert(s.push(x)[j] == s[j]);
        }
    }
    assert forall|i: int| 0 <= i < s.push(x).len() implies #[trigger] s.push(x)[i].0 < s.push(x)[i].1 by {
        if i < s.len() {
            assert(s.push(x)[i] == s[i]);
        }
    }
}

proof fn lemma_split_push(out: Seq<(u32, u32)>, new: Seq<(u32, u32)>, x: (u32, u32))
    requires
        split_only_at_ends(out, new),
        out.len() > 0 ==> (out.last().1 < x.0 || exists|i: int| 0 <= i < new.len() && #[trigger] new[i].1 == out.last().1),
    ensures
        split_only_at_ends(out.push(x), new),
{
    let o2 = out.push(x);
    assert forall|o: int| 0 <= o && o + 1 < o2.len() && #[trigger] o2[o].1 == o2[o + 1].0 implies exists|i: int|
        0 <= i < new.len() && #[trigger] new[i].1 == o2[o].1 by {
        assert(o2[o] == out[o]);
        if o + 1 < out.len() {
            assert(o2[o + 1] == out[o + 1]);
        } else {
            assert(o2[o + 1] == x);
        }
    }
}

proof fn lemma_covers_take_succ(s: Seq<(u32, u32)>, j: int)
    requires
        0 <= j < s.len(),
    ensures
        forall|p: int| covers(s.take(j + 1), p) <==> (covers(s.take(j), p) || in_span(s[j], p)),
{
    assert(s.take(j + 1) =~= s.take(j).push(s[j]));
    assert forall|p: int| covers(s.take(j + 1), p) <==> (covers(s.take(j), p) || in_span(s[j], p)) by {
        lemma_covers_push(s.take(j), s[j], p);
    }
}

proof fn lemma_not_covered_above(spans: Seq<(u32, u32)>, bound: int, p: int)
    requires
        forall|o: int| 0 <= o < spans.len() ==> #[trigger] spans[o].1 <= bound,
        bound <= p,
    ensures
        !covers(spans, p),
{
    if covers(spans, p) {
        let o = choose|o: int| 0 <= o < spans.len() && #[trigger] in_span(spans[o], p);
        assert(spans[o].1 <= bound);
    }
}

proof fn lemma_not_covered_outside(spans: Seq<(u32, u32)>, a: int, b: int, p: int)
    requires
        forall|o: int| 0 <= o < spans.len() ==> a <= #[trigger] spans[o].0 && spans[o].1 <= b,
        p < a || b <= p,
    ensures
        !covers(spans, p),
{
    if covers(spans, p) {
        let o = choose|o: int| 0 <= o < spans.len() && #[trigger] in_span(spans[o], p);
        assert(a <= spans[o].0 && spans[o].1 <= b);
    }
}

/// Splits the positions held by `spans` into those of its first `j`
/// intervals and those of the rest.
proof fn lemma_covers_split_at(spans: Seq<(u32, u32)>, j: int, p: int)
    requires
        0 <= j <= spans.len(),
    ensures
        covers(spans, p) <==> (covers(spans.take(j), p) || exists|k: int|
            j <= k < spans.len() && #[trigger] in_span(spans[k], p)),
{
    if covers(spans, p) {
        let k = choose|k: int| 0 <= k < spans.len() && #[trigger] in_span(spans[k], p);
        if k < j {
            assert(spans.take(j)[k] == spans[k]);
        }
    }
    if covers(spans.take(j), p) {
        let k = choose|k: int| 0 <= k < spans.take(j).len() && #[trigger] in_span(spans.take(j)[k], p);
        assert(spans.take(j)[k] == spans[k]);
    }
}

/// Subtracts the positions held by `existing` from the positions held by `new`.
///
/// `new` is a list of non-overlapping intervals in increasing order, `existing`
/// a list of intervals ordered by their start that may overlap each other.
/// The result holds exactly the positions of `new` that no interval of
/// `existing` holds, as increasing non-overlapping intervals, each a part of an
/// interval of `new`.
pub fn subtract_sorted(new: &Vec<(u32, u32)>, existing: &Vec<(u32, u32)>) -> (out: Vec<(u32, u32)>)
    requires
        sorted_disjoint(new@),
        sorted_by_start(existing@),
    ensures
        sorted_disjoint(out@),
        nested_in(out@, new@),
        split_only_at_ends(out@, new@),
        forall|p: int| covers(out@, p) <==> (covers(new@, p) && !covers(existing@, p)),
{
    let mut out: Vec<(u32, u32)> = Vec::new();
    let n = existing.len();
    let mut i: usize = 0;
    let mut j: usize = 0;
    while i < new.len()
        invariant
            sorted_disjoint(new@),
            sorted_by_start(existing@),
            n == existing@.len(),
            i <= new@.len(),
            j <= n,
            sorted_disjoint(out@),
            nested_in(out@, new@),
            split_only_at_ends(out@, new@),
            i == 0 ==> j == 0 && out@.len() == 0,
            i > 0 ==> forall|k: int| 0 <= k < j ==> #[trigger] existing@[k].1 < new@[i - 1].1,
            i > 0 ==> forall|o: int| 0 <= o < out@.len() ==> #[trigger] out@[o].1 <= new@[i - 1].1,
            forall|p: int|
                covers(out@, p) <==> (covers(new@.take(i as int), p) && !covers(existing@, p)),
        decreases new@.len() - i,
    {
        let (a, b) = new[i];
        let ghost out0 = out@;
        let ghost j0 = j as int;
        let ghost mut pieces: Seq<(u32, u32)> = Seq::empty();
        proof {
            // Intervals consumed in earlier rounds end before this one starts.
            assert forall|p: int| a <= p < b implies !covers(existing@.take(j0), p) by {
                if covers(existing@.take(j0), p) {
                    let k = choose|k: int|
                        0 <= k < existing@.take(j0).len() && #[trigger] in_span(existing@.take(j0)[k], p);
                    assert(existing@.take(j0)[k] == existing@[k]);
                    assert(new@[i - 1].1 <= new@[i as int].0);
                }
            }
            assert(out@ =~= out0 + pieces);
            assert forall|o: int| 0 <= o < out0.len() implies (#[trigger] out0[o]).1 <= a by {
                assert(out0[o] == out@[o]);
                assert(new@[i - 1].1 <= new@[i as int].0);
            }
            if out0.len() > 0 {
                assert(out0.last() == out0[out0.len() - 1]);
                assert(new@[i - 1].1 <= new@[i as int].0);
                if out0.last().1 == a {
                    assert(new@[i - 1].1 == a);
                }
            }
        }
        let mut pos: u32 = a;
        while j < n && b > existing[j].1
            invariant
                sorted_disjoint(new@),
                sorted_by_start(existing@),
                n == existing@.len(),
                i < new@.len(),
                a == new@[i as int].0,
                b == new@[i as int].1,
                j0 <= j <= n,
                a <= pos < b,
                sorted_disjoint(out@),
                forall|o: int| 0 <= o < out0.len() ==> (#[trigger] out0[o]).1 <= a,
                out0.len() > 0 && out0.last().1 == a ==> exists|ii: int| 0 <= ii < new@.len() && #[trigger] new@[ii].1 == a,
                out@ == out0 + pieces,
                split_only_at_ends(out@, new@),
                pieces.len() > 0 ==> pieces.last().1 < pos,
                pieces.len() == 0 ==> out@ == out0,
                forall|o: int| 0 <= o < pieces.len() ==> a <= (#[trigger] pieces[o]).0 && pieces[o].1 <= pos,
                forall|o: int, k: int|
                    0 <= o < pieces.len() && j <= k < n ==> (#[trigger] pieces[o]).1 <= (#[trigger] existing@[k]).0,
                forall|k: int| j0 <= k < j ==> #[trigger] existing@[k].1 < b,
                forall|p: int|
                    a <= p < b ==> ((covers(pieces, p) || pos <= p) <==> !covers(existing@.take(j as int), p)),
            decreases n - j,
        {
            let (s, e) = existing[j];
            let ghost pieces0 = pieces;
            let ghost pos0 = pos;
            proof {
                lemma_covers_take_succ(existing@, j as int);
                assert forall|o: int| 0 <= o < pieces0.len() implies #[trigger] pieces0[o].1 <= s by {
                    assert(pieces0[o].1 <= existing@[j as int].0);
                }
                assert forall|p: int| s <= p implies !covers(pieces0, p) by {
                    lemma_not_covered_above(pieces0, s as int, p);
                }
            }
            j = j + 1;
            if pos <= e {
                if s > pos {
                    proof {
                        assert forall|o: int| 0 <= o < out@.len() implies (#[trigger] out@[o]).1 <= pos0 by {
                            if o < out0.len() {
                                assert(out@[o] == out0[o]);
                            } else {
                                assert(out@[o] == pieces0[o - out0.len()]);
                            }
                        }
                        lemma_sorted_push(out@, (pos0, s));
                        if pieces0.len() > 0 {
                            assert(out@.last() == pieces0.last());
                        }
                        lemma_split_push(out@, new@, (pos0, s));
                    }
                    out.push((pos, s));
                    proof {
                        pieces = pieces.push((pos0, s));
                        assert(out@ =~= out0 + pieces);
                    }
                }
                if e > pos {
                    pos = e;
                }
            }
            proof {
                assert forall|p: int| a <= p < b implies ((covers(pieces, p) || pos <= p) <==> !covers(existing@.take(j as int), p)) by {
                    let in_e = in_span((s, e), p);
                    assert(covers(existing@.take(j as int), p) <==> (covers(existing@.take(j - 1), p) || in_e));
                    if pieces.len() > pieces0.len() {
                        assert(pieces =~= pieces0.push((pos0, s)));
                        lemma_covers_push(pieces0, (pos0, s), p);
                    } else {
                        assert(pieces =~= pieces0);
                    }
                    assert(existing@[j - 1] == (s, e));
                    assert((covers(pieces0, p) || pos0 <= p) <==> !covers(existing@.take(j - 1), p));
                    if in_e {
                        assert(!covers(pieces0, p));
                        assert(!in_span((pos0, s), p));
                        assert(pos > p);
                    } else if pos0 <= e {
                        if p < s {
                            assert(pos > p);
                            if pos0 <= p {
                                assert(pieces.len() > pieces0.len());
                                assert(in_span((pos0, s), p));
                            }
                        } else {
                            assert(e <= p);
                            assert(pos <= p);
                        }
                    }
                }
                assert forall|o: int, k: int|
                    0 <= o < pieces.len() && j <= k < n implies #[trigger] pieces[o].1 <= #[trigger] existing@[k].0 by {
                    if o < pieces0.len() {
                        assert(pieces0[o].1 <= existing@[k].0);
                    } else {
                        assert(existing@[j - 1].0 <= existing@[k].0);
                    }
                }
            }
        }
        let ghost pieces_loop = pieces;
        let ghost pos_end = pos;
        let ghost j_end = j as int;
        let ghost mut last: (u32, u32) = (pos, b);
        let ghost mut pushed = false;
        proof {
            assert forall|o: int| 0 <= o < out@.len() implies (#[trigger] out@[o]).1 <= pos_end by {
                if o < out0.len() {
                    assert(out@[o] == out0[o]);
                } else {
                    assert(out@[o] == pieces[o - out0.len()]);
                }
            }
        }
        if j < n {
            let s = existing[j].0;
            if s > pos {
                let cut = if s < b { s } else { b };
                proof {
                    lemma_sorted_push(out@, (pos_end, cut));
                    if pieces.len() > 0 {
                        assert(out@.last() == pieces.last());
                    }
                    lemma_split_push(out@, new@, (pos_end, cut));
                }
                out.push((pos, cut));
                proof {
                    last = (pos_end, cut);
                    pushed = true;
                }
            }
        } else {
            proof {
                lemma_sorted_push(out@, (pos_end, b));
                if pieces.len() > 0 {
                    assert(out@.last() == pieces.last());
                }
                lemma_split_push(out@, new@, (pos_end, b));
            }
            out.push((pos, b));
            proof {
                pushed = true;
            }
        }
        proof {
            if pushed {
                pieces = pieces.push(last);
            }
            assert(out@ =~= out0 + pieces);
            assert forall|o: int| 0 <= o < pieces.len() implies a <= (#[trigger] pieces[o]).0 && pieces[o].1 <= b by {
                if o < pieces_loop.len() {
                    assert(pieces_loop[o] == pieces[o]);
                }
            }
            // The positions this round keeps are those of the current interval that nothing in `existing` holds.
            assert forall|p: int| covers(pieces, p) <==> (in_span((a, b), p) && !covers(existing@, p)) by {
                lemma_covers_split_at(existing@, j_end, p);
                if pushed {
                    lemma_covers_push(pieces_loop, last, p);
                } else {
                    assert(pieces =~= pieces_loop);
                }
                if !in_span((a, b), p) {
                    lemma_not_covered_outside(pieces, a as int, b as int, p);
                } else if j_end < n {
                    let s = existing@[j_end].0;
                    assert(existing@[j_end].1 >= b);
                    assert((covers(pieces_loop, p) || pos_end <= p) <==> !covers(existing@.take(j_end), p));
                    assert(pushed <==> s > pos_end);
                    assert(pushed ==> last == (pos_end, if s < b { s } else { b }));
                    if s <= p {
                        assert(in_span(existing@[j_end], p));
                        assert forall|o: int| 0 <= o < pieces_loop.len() implies (#[trigger] pieces_loop[o]).1 <= s by {
                            assert(pieces_loop[o].1 <= existing@[j_end].0);
                        }
                        lemma_not_covered_above(pieces_loop, s as int, p);
                    } else {
                        assert forall|k: int| j_end <= k < n implies !#[trigger] in_span(existing@[k], p) by {
                            assert(existing@[j_end].0 <= existing@[k].0);
                        }
                    }
                } else {
                    assert(existing@.take(j_end) =~= existing@);
                    assert((covers(pieces_loop, p) || pos_end <= p) <==> !covers(existing@.take(j_end), p));
                    assert(pushed && last == (pos_end, b));
                }
            }
            lemma_covers_take_succ(new@, i as int);
            assert forall|p: int| covers(out@, p) <==> (covers(new@.take(i + 1), p) && !covers(existing@, p)) by {
                lemma_covers_concat(out0, pieces, p);
            }
            assert forall|o: int| 0 <= o < out@.len() implies #[trigger] out@[o].1 <= new@[i as int].1 by {
                if o < out0.len() {
                    assert(out0[o] == out@[o]);
                    if i > 0 {
                        assert(new@[i - 1].1 <= new@[i as int].0);
                    }
                } else {
                    assert(out@[o] == pieces[o - out0.len()]);
                }
            }
            assert forall|k: int| 0 <= k < j implies #[trigger] existing@[k].1 < new@[i as int].1 by {
                if k < j0 {
                    assert(new@[i - 1].1 <= new@[i as int].0);
                }
            }
            assert forall|o: int| 0 <= o < out@.len() implies exists|ii: int|
                0 <= ii < new@.len() && new@[ii].0 <= #[trigger] out@[o].0 && out@[o].1 <= new@[ii].1 by {
                if o < out0.len() {
                    assert(out0[o] == out@[o]);
                } else {
                    assert(out@[o] == pieces[o - out0.len()]);
                    assert(new@[i as int].0 <= out@[o].0 && out@[o].1 <= new@[i as int].1);
                }
            }
        }
        i = i + 1;
    }
    proof {
        assert(new@.take(new@.len() as int) =~= new@);
    }
    out
}

} // verus!
