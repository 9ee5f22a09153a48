//! Contrast correction of grey images: the window between the 5% and the 95%
//! order statistics of the pixel values.
use vstd::prelude::*;

verus! {

/// The number of values of `s` below `v`.
pub open spec fn count_below(s: Seq<u16>, v: int) -> nat
    decreases s.len(),
{
    if s.len() == 0 {
        0
    } else {
        count_below(s.drop_last(), v) + if s.last() < v { 1nat } else { 0nat }
    }
}

/// The number of values of `s` equal to `v`.
pub open spec fn count_eq(s: Seq<u16>, v: int) -> nat
    decreases s.len(),
{
    if s.len() == 0 {
        0
    } else {
        count_eq(s.drop_last(), v) + if s.last() == v { 1nat } else { 0nat }
    }
}

/// `v` is the value at position `k` (from 0) of `s` sorted ascending.
pub open spec fn is_kth(s: Seq<u16>, k: int, v: u16) -> bool {
    count_below(s, v as int) <= k < count_below(s, v + 1)
}

/// The value at position `k` (from 0) of `s` sorted ascending.
pub open spec fn kth_smallest(s: Seq<u16>, k: int) -> u16 {
    choose|v: u16| is_kth(s, k, v)
}

/// The 5% and the 95% position of a sorted list of `n` values.
pub open spec fn window_positions(n: int) -> (int, int) {
    (n / 20, (n / 20) * 19)
}

proof fn lemma_count_step(s: Seq<u16>, v: int)
    ensures
        count_below(s, v + 1) == count_below(s, v) + count_eq(s, v),
    decreases s.len(),
{
    if s.len() > 0 {
        lemma_count_step(s.drop_last(), v);
    }
}

proof fn lemma_count_monotonic(s: Seq<u16>, a: int, b: int)
    requires
        a <= b,
    ensures
        count_below(s, a) <= count_below(s, b),
    decreases s.len(),
{
    if s.len() > 0 {
        lemma_count_monotonic(s.drop_last(), a, b);
    }
}

proof fn lemma_count_bounds(s: Seq<u16>)
    ensures
        count_below(s, 0) == 0,
        count_below(s, 0x10000) == s.len(),
    decreases s.len(),
{
    if s.len() > 0 {
        lemma_count_bounds(s.drop_last());
    }
}

proof fn lemma_count_eq_push(s: Seq<u16>, x: u16, v: int)
    ensures
        count_eq(s.push(x), v) == count_eq(s, v) + if x == v { 1nat } else { 0nat },
{
    assert(s.push(x).drop_last() =~= s);
}

/// At most one value sits at a given position of the sorted list.
proof fn lemma_kth_unique(s: Seq<u16>, k: int, a: u16, b: u16)
    requires
        is_kth(s, k, a),
        is_kth(s, k, b),
    ensures
        a == b,
{
    if a < b {
        lemma_count_monotonic(s, a + 1, b as int);
    } else if b < a {
        lemma_count_monotonic(s, b + 1, a as int);
    }
}

/// A position inside the list has a value.
pub proof fn lemma_kth_exists(s: Seq<u16>, k: int)
    requires
        0 <= k < s.len(),
    ensures
        is_kth(s, k, kth_smallest(s, k)),
{
    lemma_count_bounds(s);
    lemma_kth_search(s, k, 0);
}

proof fn lemma_kth_search(s: Seq<u16>, k: int, v: int)
    requires
        0 <= v <= 0xffff,
        count_below(s, v) <= k < s.len(),
        count_below(s, 0x10000) == s.len(),
    ensures
        exists|u: u16| is_kth(s, k, u),
    decreases 0x10000 - v,
{
    if count_below(s, v + 1) > k {
        assert(is_kth(s, k, v as u16));
    } else if v < 0xffff {
        lemma_kth_search(s, k, v + 1);
    }
}

/// How often each value occurs in `pixels`, indexed by value.
fn histogram(pixels: &Vec<u16>) -> (h: Vec<usize>)
    ensures
        h@.len() == 0x10000,
        forall|v: int| 0 <= v < 0x10000 ==> #[trigger] h@[v] == count_eq(pixels@, v),
{
    let mut h: Vec<usize> = Vec::new();
    while h.len() < 0x10000
        invariant
            h@.len() <= 0x10000,
            forall|v: int| 0 <= v < h@.len() ==> #[trigger] h@[v] == 0,
        decreases 0x10000 - h@.len(),
    {
        h.push(0);
    }
    let mut i: usize = 0;
    while i < pixels.len()
        invariant
            i <= pixels@.len(),
            h@.len() == 0x10000,
            forall|v: int| 0 <= v < 0x10000 ==> #[trigger] h@[v] == count_eq(pixels@.take(i as int), v),
            forall|v: int| 0 <= v < 0x10000 ==> #[trigger] h@[v] <= i,
        decreases pixels@.len() - i,
    {
        let p = pixels[i];
        let ghost before = h@;
        let c = h[p as usize];
        h.set(p as usize, c + 1);
        proof {
            assert(pixels@.take(i + 1) =~= pixels@.take(i as int).push(p));
            assert forall|v: int| 0 <= v < 0x10000 implies #[trigger] h@[v] == count_eq(pixels@.take(i + 1), v) by {
                lemma_count_eq_push(pixels@.take(i as int), p, v);
                if v != p {
                    assert(h@[v] == before[v]);
                }
            }
            assert forall|v: int| 0 <= v < 0x10000 implies #[trigger] h@[v] <= i + 1 by {
                if v != p {
                    assert(h@[v] == before[v]);
                }
            }
        }
        i = i + 1;
    }
    proof {
        assert(pixels@.take(i as int) =~= pixels@);
    }
    h
}

/// The value at position `k` of the sorted list, read off the histogram.
fn kth_from_histogram(pixels: &Vec<u16>, h: &Vec<usize>, k: usize) -> (r: u16)
    requires
        k < pixels@.len(),
        h@.len() == 0x10000,
        forall|v: int| 0 <= v < 0x10000 ==> #[trigger] h@[v] == count_eq(pixels@, v),
    ensures
        r == kth_smallest(pixels@, k as int),
{
    proof {
        lemma_count_bounds(pixels@);
    }
    let ghost s = pixels@;
    let n = pixels.len();
    let mut v: usize = 0;
    let mut below: usize = 0;
    loop
        invariant
            n == s.len(),
            s == pixels@,
            v <= 0xffff,
            below == count_below(s, v as int),
            below <= k,
            k < s.len(),
            h@.len() == 0x10000,
            count_below(s, 0x10000) == s.len(),
            forall|u: int| 0 <= u < 0x10000 ==> #[trigger] h@[u] == count_eq(s, u),
        decreases 0x10000 - v,
    {
        proof {
            lemma_count_step(s, v as int);
            lemma_count_monotonic(s, v + 1, 0x10000);
        }
        let c = h[v];
        assert(c == count_eq(s, v as int));
        assert(below + c <= n);
        if below + c > k {
            proof {
                assert(is_kth(s, k as int, v as u16));
                lemma_kth_exists(s, k as int);
                lemma_kth_unique(s, k as int, v as u16, kth_smallest(s, k as int));
            }
            return v as u16;
        }
        if v == 0xffff {
            proof {
                assert(false);
            }
            return 0;
        }
        below = below + c;
        v = v + 1;
    }
}

/// The 5% and the 95% order statistic of the pixel values: the values at
/// positions `n / 20` and `19 * (n / 20)` of the sorted pixels.
pub fn contrast_window(pixels: &Vec<u16>) -> (w: (u16, u16))
    requires
        pixels@.len() >= 1,
    ensures
        w.0 == kth_smallest(pixels@, window_positions(pixels@.len() as int).0),
        w.1 == kth_smallest(pixels@, window_positions(pixels@.len() as int).1),
        w.0 <= w.1,
{
    let n = pixels.len();
    let lo_pos = n / 20;
    proof {
        assert(lo_pos * 19 < n) by (nonlinear_arith)
            requires
                lo_pos == n / 20,
                n >= 1,
        ;
    }
    let hi_pos = lo_pos * 19;
    let h = histogram(pixels);
    let lower = kth_from_histogram(pixels, &h, lo_pos);
    let upper = kth_from_histogram(pixels, &h, hi_pos);
    proof {
        let s = pixels@;
        lemma_kth_exists(s, lo_pos as int);
        lemma_kth_exists(s, hi_pos as int);
        if upper < lower {
            lemma_count_monotonic(s, upper + 1, lower as int);
        }
    }
    (lower, upper)
}

/// `out` is `pixels` with corrected contrast: unchanged where the window
/// between the 5% and the 95% value is a single value, else each pixel as
/// `stretch` maps it with the window's ends.
pub open spec fn contrast_fixed<F: Fn(u16, u16, u16) -> u16>(pixels: Seq<u16>, out: Seq<u16>, stretch: F) -> bool {
    let n = pixels.len() as int;
    let lower = kth_smallest(pixels, window_positions(n).0);
    let upper = kth_smallest(pixels, window_positions(n).1);
    &&& lower == upper ==> out == pixels
    &&& lower != upper ==> out.len() == pixels.len() && forall|i: int| 0 <= i < out.len()
        ==> call_ensures(stretch, (pixels[i], lower, upper), #[trigger] out[i])
}

/// Stretches the pixel values so that the 5% to 95% window covers the full
/// range. Where the window is a single value the pixels come back unchanged;
/// otherwise each pixel `p` becomes `stretch(p, lower, upper)`, the scaling
/// itself being left to the caller.
pub fn fix_image_contrast<F: Fn(u16, u16, u16) -> u16>(pixels: &Vec<u16>, stretch: F) -> (out: Vec<u16>)
    requires
        pixels@.len() >= 1,
        forall|p: u16, lo: u16, hi: u16| lo < hi ==> call_requires(stretch, (p, lo, hi)),
    ensures
        contrast_fixed(pixels@, out@, stretch),
{
    let (lower, upper) = contrast_window(pixels);
    let mut out: Vec<u16> = Vec::new();
    if lower == upper {
        let mut i: usize = 0;
        while i < pixels.len()
            invariant
                i <= pixels@.len(),
                out@ == pixels@.take(i as int),
            decreases pixels@.len() - i,
        {
            out.push(pixels[i]);
            proof {
                assert(pixels@.take(i + 1) =~= pixels@.take(i as int).push(pixels@[i as int]));
            }
            i = i + 1;
        }
        proof {
            assert(pixels@.take(i as int) =~= pixels@);
        }
        return out;
    }
    let mut i: usize = 0;
    while i < pixels.len()
        invariant
            i <= pixels@.len(),
            lower < upper,
            out@.len() == i,
            forall|p: u16, lo: u16, hi: u16| lo < hi ==> call_requires(stretch, (p, lo, hi)),
            forall|j: int| 0 <= j < i ==> call_ensures(stretch, (pixels@[j], lower, upper), #[trigger] out@[j]),
        decreases pixels@.len() - i,
    {
        let q = stretch(pixels[i], lower, upper);
        out.push(q);
        i = i + 1;
    }
    out
}

} // verus!
