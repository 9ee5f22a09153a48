//! The runs of set pixels of a flattened bit mask, row by row.
use crate::intervals::{covers, in_span, lemma_covers_push, sorted_disjoint};
use crate::pixel_range::{all_wf, spans, PixelRange};
use vstd::prelude::*;

verus! {

/// Every run lies in one row of an image `w` pixels wide: its first and
/// its last pixel share a row.
pub open spec fn runs_in_rows(s: Seq<(u32, u32)>, w: int) -> bool {
    forall|o: int| 0 <= o < s.len() ==> (#[trigger] s[o]).0 as int / w == (s[o].1 - 1) / w
}

/// Neighbouring runs touch only at the start of a row.
pub open spec fn touch_at_rows(s: Seq<(u32, u32)>, w: int) -> bool {
    forall|o: int| 1 <= o < s.len() && s[o - 1].1 == (#[trigger] s[o]).0 ==> s[o].0 as int % w == 0
}

/// `out` is the list of maximal runs of set pixels of `mask`, row by row, for
/// an image `w` pixels wide: ordered, disjoint, each inside one row, touching
/// only across rows, all of full confidence, and holding exactly the set
/// pixels.
pub open spec fn is_mask_runs(out: Seq<PixelRange>, mask: Seq<bool>, w: int) -> bool {
    &&& all_wf(out)
    &&& sorted_disjoint(spans(out))
    &&& runs_in_rows(spans(out), w)
    &&& touch_at_rows(spans(out), w)
    &&& forall|i: int| 0 <= i < out.len() ==> #[trigger] out[i].conf() == 255
    &&& forall|p: int| 0 <= p < mask.len() ==> (covers(spans(out), p) <==> #[trigger] mask[p])
    &&& forall|p: int| covers(spans(out), p) ==> 0 <= p < mask.len()
}

/// The pixel `x` of row `y` of an image `w` pixels wide.
proof fn lemma_row_of(w: int, y: int, x: int)
    requires
        w >= 1,
        0 <= y,
        0 <= x < w,
    ensures
        (y * w + x) / w == y,
        (y * w + x) % w == x,
{
    vstd::arithmetic::div_mod::lemma_fundamental_div_mod_converse(y * w + x, w, y, x);
}

proof fn lemma_push_sorted(s: Seq<(u32, u32)>, x: (u32, u32))
    requires
        sorted_disjoint(s),
        x.0 < x.1,
        forall|o: int| 0 <= o < s.len() ==> #[trigger] s[o].1 <= x.0,
    ensures
        sorted_disjoint(s.push(x)),
{
    assert forall|i: int, j: int| 0 <= i < j < s.push(x).len() implies #[trigger] s.push(x)[i].1 <= #[trigger] s.push(x)[j].0 by {
        assert(s.push(x)[i] == s[i]);
        if j < s.len() {
            assert(s.push(x)[j] == s[j]);
        }
    }
    assert forall|i: int| 0 <= i < s.push(x).len() implies #[trigger] s.push(x)[i].0 < s.push(x)[i].1 by {
        if i < s.len() {
            assert(s.push(x)[i] == s[i]);
        }
    }
}

/// The maximal runs of set pixels of `mask`, an image `w` pixels wide stored
/// row by row (the last row may be cut short), as runs of full confidence.
pub fn mask_runs(mask: &Vec<bool>, w: usize) -> (out: Vec<PixelRange>)
    requires
        1 <= w <= 65535,
        mask@.len() <= u32::MAX,
    ensures
        is_mask_runs(out@, mask@, w as int),
{
    let n = mask.len();
    let ghost m = mask@;
    let mut out: Vec<PixelRange> = Vec::new();
    let mut p: usize = 0;
    let mut x: usize = 0;
    let ghost mut y: int = 0;
    while p < n
        invariant
            m == mask@,
            n == m.len(),
            n <= u32::MAX,
            1 <= w <= 65535,
            p <= n,
            0 <= y,
            x < w,
            p == y * w + x,
            all_wf(out@),
            sorted_disjoint(spans(out@)),
            runs_in_rows(spans(out@), w as int),
            touch_at_rows(spans(out@), w as int),
            forall|i: int| 0 <= i < out@.len() ==> #[trigger] out@[i].conf() == 255,
            forall|o: int| 0 <= o < out@.len() ==> (#[trigger] spans(out@)[o]).1 <= p,
            forall|q: int| 0 <= q < p ==> (covers(spans(out@), q) <==> #[trigger] m[q]),
            forall|q: int| covers(spans(out@), q) ==> 0 <= q < p,
            out@.len() > 0 && spans(out@).last().1 == p && x > 0 && p < n ==> !m[p as int],
        decreases n - p,
    {
        if mask[p] {
            let start = p;
            let start_x = x;
            while p < n && x < w && mask[p]
                invariant
                    m == mask@,
                    n == m.len(),
                    start <= p <= n,
                    start_x <= x <= w,
                    p - start == x - start_x,
                    forall|q: int| start <= q < p ==> #[trigger] m[q],
                decreases n - p,
            {
                p = p + 1;
                x = x + 1;
            }
            let ghost out0 = out@;
            let ghost s0 = spans(out0);
            let r = PixelRange::new_total(start as u32, (p - start) as u16);
            out.push(r);
            proof {
                let s1 = spans(out@);
                assert(s1 =~= s0.push(r.span()));
                assert(r.span() == (start as u32, p as u32));
                assert forall|q: int| #![auto] covers(s1, q) <==> (covers(s0, q) || in_span(r.span(), q)) by {
                    lemma_covers_push(s0, r.span(), q);
                }
                if s0.len() > 0 && s0.last().1 == start {
                    assert(start_x == 0);
                }
                lemma_push_sorted(s0, r.span());
                lemma_row_of(w as int, y, start_x as int);
                lemma_row_of(w as int, y, x - 1);
                assert forall|o: int| 0 <= o < s1.len() implies (#[trigger] s1[o]).0 as int / w as int == (s1[o].1 - 1) / w as int by {
                    if o < s0.len() {
                        assert(s1[o] == s0[o]);
                    }
                }
                assert forall|o: int| 1 <= o < s1.len() && s1[o - 1].1 == (#[trigger] s1[o]).0 implies s1[o].0 as int % w as int == 0 by {
                    if o < s0.len() {
                        assert(s1[o] == s0[o] && s1[o - 1] == s0[o - 1]);
                    } else {
                        assert(s1[o - 1] == s0.last());
                        assert(start_x == 0);
                    }
                }
                assert forall|i: int| 0 <= i < out@.len() implies #[trigger] out@[i].wf() by {
                    if i < out0.len() {
                        assert(out@[i] == out0[i]);
                    }
                }
                assert forall|i: int| 0 <= i < out@.len() implies #[trigger] out@[i].conf() == 255 by {
                    if i < out0.len() {
                        assert(out@[i] == out0[i]);
                    }
                }
                assert forall|o: int| 0 <= o < out@.len() implies (#[trigger] spans(out@)[o]).1 <= p by {
                    if o < out0.len() {
                        assert(s1[o] == s0[o]);
                    }
                }
                assert forall|q: int| 0 <= q < p implies (covers(s1, q) <==> #[trigger] m[q]) by {
                    if q >= start {
                        assert(m[q]);
                    }
                }
            }
            if x == w {
                x = 0;
                proof {
                    assert((y + 1) * w == y * w + w) by (nonlinear_arith);
                    y = y + 1;
                }
            }
        } else {
            p = p + 1;
            x = x + 1;
            if x == w {
                x = 0;
                proof {
                    assert((y + 1) * w == y * w + w) by (nonlinear_arith);
                    y = y + 1;
                }
            }
        }
    }
    out
}

} // verus!
