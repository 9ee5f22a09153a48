//! The overlay image of the areas: each pixel in the colour of the last area
//! that holds it, with an opacity looked up from the confidence of its run in
//! the table of the highlighted area or in that of the others.
use crate::history::{areas_wf, views};
use crate::intervals::in_span;
use crate::pixel_range::{spans, AreaView, PixelArea, PixelRange};
use vstd::prelude::*;

verus! {

/// A colour with opacity.
#[derive(Debug, Clone, Copy, PartialEq, Eq)]
pub struct Rgba {
    pub r: u8,
    pub g: u8,
    pub b: u8,
    pub a: u8,
}

/// No colour at all.
pub open spec fn transparent() -> Rgba {
    Rgba { r: 0, g: 0, b: 0, a: 0 }
}

/// The confidence of the last run of `runs` that holds `p`, if any.
pub open spec fn conf_at(runs: Seq<PixelRange>, p: int) -> Option<u8>
    decreases runs.len(),
{
    if runs.len() == 0 {
        None
    } else if in_span(runs.last().span(), p) {
        Some(runs.last().conf())
    } else {
        conf_at(runs.drop_last(), p)
    }
}

/// The opacity table of the area at index `i`: `active_lut` for the
/// highlighted area, `lut` for the others.
pub open spec fn lut_of(i: int, lut: Seq<u8>, active_lut: Seq<u8>, active: Option<usize>) -> Seq<u8> {
    if active == Some(i as usize) && 0 <= i {
        active_lut
    } else {
        lut
    }
}

/// The overlay colour of `p`: the colour of the last area holding it, with
/// the opacity `t[confidence]` of the run holding it, `t` the table of that
/// area; transparent where no area holds it.
pub open spec fn overlay_at(areas: Seq<AreaView>, lut: Seq<u8>, active_lut: Seq<u8>, active: Option<usize>, p: int) -> Rgba
    decreases areas.len(),
{
    if areas.len() == 0 {
        transparent()
    } else {
        match conf_at(areas.last().pixels, p) {
            Some(c) => Rgba {
                r: areas.last().color[0],
                g: areas.last().color[1],
                b: areas.last().color[2],
                a: lut_of(areas.len() - 1, lut, active_lut, active)[c as int],
            },
            None => overlay_at(areas.drop_last(), lut, active_lut, active, p),
        }
    }
}

/// Every run of every area ends within the first `n` pixels.
pub open spec fn runs_within(areas: Seq<AreaView>, n: int) -> bool {
    forall|g: int, k: int| 0 <= g < areas.len() && 0 <= k < areas[g].pixels.len()
        ==> (#[trigger] areas[g].pixels[k]).span().1 <= n
}

proof fn lemma_conf_at_push(runs: Seq<PixelRange>, r: PixelRange, p: int)
    ensures
        conf_at(runs.push(r), p) == if in_span(r.span(), p) { Some(r.conf()) } else { conf_at(runs, p) },
{
    assert(runs.push(r).drop_last() =~= runs);
}

proof fn lemma_overlay_push(areas: Seq<AreaView>, x: AreaView, lut: Seq<u8>, active_lut: Seq<u8>, active: Option<usize>, p: int)
    ensures
        overlay_at(areas.push(x), lut, active_lut, active, p) == match conf_at(x.pixels, p) {
            Some(c) => Rgba { r: x.color[0], g: x.color[1], b: x.color[2], a: lut_of(areas.len() as int, lut, active_lut, active)[c as int] },
            None => overlay_at(areas, lut, active_lut, active, p),
        },
{
    assert(areas.push(x).drop_last() =~= areas);
}

/// The overlay image of `areas` over the first `n` pixels, drawn in order so
/// that later areas cover earlier ones; the area at index `active` takes its
/// opacities from `active_lut`, the others from `lut`.
pub fn overlay_pixels(areas: &Vec<PixelArea>, n: usize, lut: &[u8; 256], active_lut: &[u8; 256], active: Option<usize>) -> (out: Vec<Rgba>)
    requires
        areas_wf(views(areas@)),
        runs_within(views(areas@), n as int),
    ensures
        out@.len() == n,
        forall|p: int| 0 <= p < n ==> #[trigger] out@[p] == overlay_at(views(areas@), lut@, active_lut@, active, p),
{
    let ghost all = views(areas@);
    let mut out: Vec<Rgba> = Vec::new();
    while out.len() < n
        invariant
            out@.len() <= n,
            forall|p: int| 0 <= p < out@.len() ==> #[trigger] out@[p] == transparent(),
        decreases n - out@.len(),
    {
        out.push(Rgba { r: 0, g: 0, b: 0, a: 0 });
    }
    proof {
        assert forall|p: int| 0 <= p < n implies #[trigger] out@[p] == overlay_at(all.take(0), lut@, active_lut@, active, p) by {}
    }
    let mut g: usize = 0;
    while g < areas.len()
        invariant
            all == views(areas@),
            areas_wf(all),
            runs_within(all, n as int),
            g <= areas@.len(),
            out@.len() == n,
            forall|p: int| 0 <= p < n ==> #[trigger] out@[p] == overlay_at(all.take(g as int), lut@, active_lut@, active, p),
        decreases areas@.len() - g,
    {
        let area = &areas[g];
        let color = area.color;
        let is_active: bool = match active {
            Some(a) => a == g,
            None => false,
        };
        let table: &[u8; 256] = if is_active {
            active_lut
        } else {
            lut
        };
        proof {
            assert(table@ == lut_of(g as int, lut@, active_lut@, active));
        }
        let ghost before = out@;
        let ghost done = all.take(g as int);
        let mut k: usize = 0;
        while k < area.pixels.len()
            invariant
                all == views(areas@),
                areas_wf(all),
                runs_within(all, n as int),
                g < areas@.len(),
                *area == areas@[g as int],
                color == area.color,
                done == all.take(g as int),
                table@ == lut_of(g as int, lut@, active_lut@, active),
                k <= area.pixels@.len(),
                out@.len() == n,
                forall|p: int| 0 <= p < n ==> #[trigger] out@[p] == match conf_at(area.pixels@.take(k as int), p) {
                    Some(c) => Rgba { r: color[0], g: color[1], b: color[2], a: table@[c as int] },
                    None => overlay_at(done, lut@, active_lut@, active, p),
                },
            decreases area.pixels@.len() - k,
        {
            let run = area.pixels[k];
            let start = run.start();
            let end = run.end();
            let alpha = table[run.confidence() as usize];
            let ghost mid = out@;
            proof {
                assert(all[g as int].pixels[k as int] == run);
                assert(all[g as int].wf());
                assert(run.wf());
                assert(run.span().1 <= n);
            }
            let mut q: usize = start as usize;
            while q < end as usize
                invariant
                    out@.len() == n,
                    start <= q <= end <= n,
                    forall|p: int| 0 <= p < n ==> #[trigger] out@[p] == if start <= p < q {
                        Rgba { r: color[0], g: color[1], b: color[2], a: alpha }
                    } else {
                        mid[p]
                    },
                decreases end - q,
            {
                out.set(q, Rgba { r: color[0], g: color[1], b: color[2], a: alpha });
                q = q + 1;
            }
            proof {
                assert(area.pixels@.take(k + 1) =~= area.pixels@.take(k as int).push(run));
                assert forall|p: int| 0 <= p < n implies #[trigger] out@[p] == match conf_at(area.pixels@.take(k + 1), p) {
                    Some(c) => Rgba { r: color[0], g: color[1], b: color[2], a: table@[c as int] },
                    None => overlay_at(done, lut@, active_lut@, active, p),
                } by {
                    lemma_conf_at_push(area.pixels@.take(k as int), run, p);
                }
            }
            k = k + 1;
        }
        proof {
            assert(area.pixels@.take(k as int) =~= area.pixels@);
            assert(all.take(g + 1) =~= done.push(all[g as int]));
            assert forall|p: int| 0 <= p < n implies #[trigger] out@[p] == overlay_at(all.take(g + 1), lut@, active_lut@, active, p) by {
                lemma_overlay_push(done, all[g as int], lut@, active_lut@, active, p);
            }
        }
        g = g + 1;
    }
    proof {
        assert(all.take(g as int) =~= all);
    }
    out
}

/// Tells whether every run of every area ends within the first `n` pixels.
pub fn areas_within(areas: &Vec<PixelArea>, n: usize) -> (b: bool)
    ensures
        b == runs_within(views(areas@), n as int),
{
    let ghost all = views(areas@);
    let mut g: usize = 0;
    while g < areas.len()
        invariant
            all == views(areas@),
            g <= areas@.len(),
            forall|h: int, k: int| 0 <= h < g && 0 <= k < all[h].pixels.len() ==> (#[trigger] all[h].pixels[k]).span().1 <= n,
        decreases areas@.len() - g,
    {
        let area = &areas[g];
        let mut k: usize = 0;
        while k < area.pixels.len()
            invariant
                all == views(areas@),
                g < areas@.len(),
                *area == areas@[g as int],
                k <= area.pixels@.len(),
                forall|h: int, j: int| 0 <= h < g && 0 <= j < all[h].pixels.len() ==> (#[trigger] all[h].pixels[j]).span().1 <= n,
                forall|j: int| 0 <= j < k ==> (#[trigger] all[g as int].pixels[j]).span().1 <= n,
            decreases area.pixels@.len() - k,
        {
            proof {
                assert(all[g as int].pixels[k as int] == area.pixels@[k as int]);
            }
            if area.pixels[k].end() as usize > n {
                return false;
            }
            k = k + 1;
        }
        g = g + 1;
    }
    true
}

} // verus!
