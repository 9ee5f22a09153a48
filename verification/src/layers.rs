//! History actions on numbered layers: a layer holds one area or nothing, and
//! an action works on one layer or on all of them.
use crate::history::{action_ok, is_cleared, non_empty, History, HistoryAction, HistoryActionKind};
use crate::intervals::{covers, in_span, lemma_covers_push, sorted_by_start, sorted_disjoint};
use crate::pixel_range::{all_wf, copy_ranges, remove_overlaps, spans, AreaView, PixelArea, PixelRange};
use vstd::prelude::*;

verus! {

/// The area of layer `j`, or nothing where there is no such layer.
pub open spec fn layer_at(layers: Seq<Option<AreaView>>, j: int) -> Option<AreaView> {
    if 0 <= j < layers.len() {
        layers[j]
    } else {
        None
    }
}

/// Every area on a layer is well formed.
pub open spec fn layers_wf(layers: Seq<Option<AreaView>>) -> bool {
    forall|j: int| 0 <= j < layers.len() ==> (#[trigger] layers[j] matches Some(a) ==> a.wf())
}

/// What each layer of a list holds.
pub open spec fn layer_views(layers: Seq<Option<PixelArea>>) -> Seq<Option<AreaView>> {
    Seq::new(
        layers.len(),
        |j: int|
            match layers[j] {
                Some(a) => Some(a@),
                None => None,
            },
    )
}

/// `u` holds the positions of `existing` and of `added`, in the colour of
/// `existing`.
pub open spec fn is_union(existing: AreaView, added: AreaView, u: AreaView) -> bool {
    &&& u.wf()
    &&& u.color == existing.color
    &&& forall|p: int| #[trigger] covers(spans(u.pixels), p) <==> (covers(spans(existing.pixels), p) || covers(
        spans(added.pixels),
        p,
    ))
}

/// The layer `before` with the positions of `cleared` removed: nothing stays
/// nothing, and an area left without positions becomes nothing.
pub open spec fn cleared_layer(before: Option<AreaView>, after: Option<AreaView>, cleared: Seq<PixelRange>) -> bool {
    match before {
        None => after is None,
        Some(b) => match after {
            None => forall|p: int| #[trigger] covers(spans(b.pixels), p) ==> covers(spans(cleared), p),
            Some(a) => is_cleared(b, a, cleared) && non_empty(a),
        },
    }
}

/// `v` is the runs of `area` in the colour that `color_for` gives for the
/// seed `n`, the number of layers, wrapping at `u16`.
pub open spec fn new_layer<F: Fn(u16) -> [u8; 3]>(v: Option<AreaView>, area: AreaView, n: int, color_for: F) -> bool {
    v matches Some(x) && x.pixels == area.pixels && call_ensures(color_for, ((n as u16),), x.color)
}

/// `out` is what the action makes of the layers `rest`. An added area goes
/// onto a new layer on top, or is joined with the area of its layer, or
/// fills its empty layer; a new layer takes the colour for the number of
/// layers. A reset empties its layer or removes every layer; a clear removes
/// its runs from its layer or from every layer.
pub open spec fn applies_to_layers<F: Fn(u16) -> [u8; 3]>(
    a: HistoryAction,
    rest: Seq<Option<AreaView>>,
    out: Seq<Option<AreaView>>,
    color_for: F,
) -> bool {
    match a.kind {
        HistoryActionKind::Add(area) => match a.layer {
            None => {
                &&& out.len() == rest.len() + 1
                &&& out.drop_last() == rest
                &&& new_layer(out.last(), area@, rest.len() as int, color_for)
            },
            Some(i) => {
                &&& out.len() == if rest.len() > i { rest.len() as int } else { i + 1 }
                &&& forall|j: int| 0 <= j < out.len() && j != i ==> #[trigger] out[j] == layer_at(rest, j)
                &&& match layer_at(rest, i as int) {
                    Some(e) => out[i as int] matches Some(u) && is_union(e, area@, u),
                    None => new_layer(out[i as int], area@, out.len() as int, color_for),
                }
            },
        },
        HistoryActionKind::Reset => match a.layer {
            None => out.len() == 0,
            Some(i) => out == if i < rest.len() { rest.update(i as int, None) } else { rest },
        },
        HistoryActionKind::Clear(c) => {
            &&& out.len() == rest.len()
            &&& forall|j: int| 0 <= j < rest.len() ==> if a.layer matches Some(i) && j != i {
                #[trigger] out[j] == rest[j]
            } else {
                cleared_layer(rest[j], out[j], c@)
            }
        },
    }
}

proof fn lemma_sorted_disjoint_by_start(s: Seq<(u32, u32)>)
    requires
        sorted_disjoint(s),
    ensures
        sorted_by_start(s),
{
    assert forall|i: int, j: int| 0 <= i < j < s.len() implies #[trigger] s[i].0 <= #[trigger] s[j].0 by {
        assert(s[i].0 < s[i].1);
    }
}

proof fn lemma_covers_take(s: Seq<(u32, u32)>, i: int, p: int)
    requires
        0 <= i < s.len(),
    ensures
        covers(s.take(i + 1), p) <==> (covers(s.take(i), p) || in_span(s[i], p)),
{
    assert(s.take(i + 1) =~= s.take(i).push(s[i]));
    lemma_covers_push(s.take(i), s[i], p);
}

/// The runs of two run lists that hold no position in common, ordered by
/// start.
fn merge_disjoint(a: &Vec<PixelRange>, b: &Vec<PixelRange>) -> (out: Vec<PixelRange>)
    requires
        all_wf(a@),
        all_wf(b@),
        sorted_disjoint(spans(a@)),
        sorted_disjoint(spans(b@)),
        forall|p: int| !(#[trigger] covers(spans(a@), p) && covers(spans(b@), p)),
    ensures
        all_wf(out@),
        sorted_disjoint(spans(out@)),
        forall|p: int| #[trigger] covers(spans(out@), p) <==> (covers(spans(a@), p) || covers(spans(b@), p)),
{
    let ghost sa = spans(a@);
    let ghost sb = spans(b@);
    let mut out: Vec<PixelRange> = Vec::new();
    let mut i: usize = 0;
    let mut j: usize = 0;
    while i < a.len() || j < b.len()
        invariant
            sa == spans(a@),
            sb == spans(b@),
            all_wf(a@),
            all_wf(b@),
            sorted_disjoint(sa),
            sorted_disjoint(sb),
            forall|p: int| !(#[trigger] covers(sa, p) && covers(sb, p)),
            i <= a@.len(),
            j <= b@.len(),
            all_wf(out@),
            sorted_disjoint(spans(out@)),
            forall|p: int| #[trigger] covers(spans(out@), p) <==> (covers(sa.take(i as int), p) || covers(sb.take(j as int), p)),
            i < a@.len() ==> forall|o: int| 0 <= o < out@.len() ==> (#[trigger] spans(out@)[o]).1 <= sa[i as int].0,
            j < b@.len() ==> forall|o: int| 0 <= o < out@.len() ==> (#[trigger] spans(out@)[o]).1 <= sb[j as int].0,
        decreases a@.len() + b@.len() - i - j,
    {
        let take_a = if i >= a.len() {
            false
        } else if j >= b.len() {
            true
        } else {
            a[i].start() <= b[j].start()
        };
        let ghost out0 = out@;
        let ghost s0 = spans(out0);
        if take_a {
            let r = a[i];
            out.push(r);
            proof {
                let s1 = spans(out@);
                assert(s1 =~= s0.push(sa[i as int]));
                assert(a@[i as int].wf());
                assert forall|o: int| 0 <= o < out@.len() implies #[trigger] out@[o].wf() by {
                    if o < out0.len() {
                        assert(out@[o] == out0[o]);
                    }
                }
                assert forall|x: int, y: int| 0 <= x < y < s1.len() implies #[trigger] s1[x].1 <= #[trigger] s1[y].0 by {
                    if y < s0.len() {
                        assert(s1[x] == s0[x] && s1[y] == s0[y]);
                    } else {
                        assert(s1[x] == s0[x]);
                    }
                }
                assert forall|p: int| #[trigger] covers(s1, p) <==> (covers(sa.take(i + 1), p) || covers(sb.take(j as int), p)) by {
                    lemma_covers_push(s0, sa[i as int], p);
                    lemma_covers_take(sa, i as int, p);
                }
                if i + 1 < a@.len() {
                    assert(sa[i as int].1 <= sa[i + 1].0);
                    assert forall|o: int| 0 <= o < out@.len() implies (#[trigger] spans(out@)[o]).1 <= sa[i + 1].0 by {
                        if o < out0.len() {
                            assert(s1[o] == s0[o]);
                        }
                    }
                }
                if j < b@.len() {
                    if sb[j as int].0 < sa[i as int].1 {
                        let p = sb[j as int].0 as int;
                        assert(b@[j as int].wf());
                        assert(in_span(sa[i as int], p));
                        assert(in_span(sb[j as int], p));
                        assert(covers(sa, p));
                        assert(covers(sb, p));
                    }
                    assert forall|o: int| 0 <= o < out@.len() implies (#[trigger] spans(out@)[o]).1 <= sb[j as int].0 by {
                        if o < out0.len() {
                            assert(s1[o] == s0[o]);
                        }
                    }
                }
            }
            i = i + 1;
        } else {
            let r = b[j];
            out.push(r);
            proof {
                let s1 = spans(out@);
                assert(s1 =~= s0.push(sb[j as int]));
                assert(b@[j as int].wf());
                assert forall|o: int| 0 <= o < out@.len() implies #[trigger] out@[o].wf() by {
                    if o < out0.len() {
                        assert(out@[o] == out0[o]);
                    }
                }
                assert forall|x: int, y: int| 0 <= x < y < s1.len() implies #[trigger] s1[x].1 <= #[trigger] s1[y].0 by {
                    if y < s0.len() {
                        assert(s1[x] == s0[x] && s1[y] == s0[y]);
                    } else {
                        assert(s1[x] == s0[x]);
                    }
                }
                assert forall|p: int| #[trigger] covers(s1, p) <==> (covers(sa.take(i as int), p) || covers(sb.take(j + 1), p)) by {
                    lemma_covers_push(s0, sb[j as int], p);
                    lemma_covers_take(sb, j as int, p);
                }
                if j + 1 < b@.len() {
                    assert(sb[j as int].1 <= sb[j + 1].0);
                    assert forall|o: int| 0 <= o < out@.len() implies (#[trigger] spans(out@)[o]).1 <= sb[j + 1].0 by {
                        if o < out0.len() {
                            assert(s1[o] == s0[o]);
                        }
                    }
                }
                if i < a@.len() {
                    if sa[i as int].0 < sb[j as int].1 {
                        let p = sa[i as int].0 as int;
                        assert(a@[i as int].wf());
                        assert(in_span(sa[i as int], p));
                        assert(in_span(sb[j as int], p));
                        assert(covers(sa, p));
                        assert(covers(sb, p));
                    }
                    assert forall|o: int| 0 <= o < out@.len() implies (#[trigger] spans(out@)[o]).1 <= sa[i as int].0 by {
                        if o < out0.len() {
                            assert(s1[o] == s0[o]);
                        }
                    }
                }
            }
            j = j + 1;
        }
    }
    proof {
        assert(sa.take(i as int) =~= sa);
        assert(sb.take(j as int) =~= sb);
    }
    out
}

/// The area holding the positions of both areas, in the colour of
/// `existing`: its runs, and the runs of `added` cut down to what `existing`
/// does not hold.
pub fn union_area(existing: &PixelArea, added: &PixelArea) -> (u: PixelArea)
    requires
        existing.wf(),
        added.wf(),
    ensures
        is_union(existing@, added@, u@),
{
    proof {
        lemma_sorted_disjoint_by_start(spans(existing.pixels@));
    }
    let mut fresh = added.duplicate();
    remove_overlaps(&mut fresh, &existing.pixels);
    let pixels = merge_disjoint(&existing.pixels, &fresh.pixels);
    let u = PixelArea::new(pixels, existing.color);
    proof {
        assert forall|p: int| #[trigger] covers(spans(u@.pixels), p) <==> (covers(spans(existing@.pixels), p) || covers(
            spans(added@.pixels),
            p,
        )) by {
            assert(covers(spans(fresh.pixels@), p) <==> (covers(spans(added.pixels@), p) && !covers(
                spans(existing.pixels@),
                p,
            )));
        }
    }
    u
}

/// The layer without the positions of `cleared`; nothing where none is left.
fn clear_layer(layer: &Option<PixelArea>, cleared: &Vec<PixelRange>) -> (out: Option<PixelArea>)
    requires
        layer matches Some(a) ==> a.wf(),
        all_wf(cleared@),
        sorted_by_start(spans(cleared@)),
    ensures
        cleared_layer(
            match *layer {
                Some(a) => Some(a@),
                None => None,
            },
            match out {
                Some(a) => Some(a@),
                None => None,
            },
            cleared@,
        ),
        out matches Some(a) ==> a.wf(),
{
    match layer {
        None => None,
        Some(a) => {
            let mut area = a.duplicate();
            remove_overlaps(&mut area, cleared);
            if area.pixels.len() > 0 {
                Some(area)
            } else {
                proof {
                    assert forall|p: int| #[trigger] covers(spans(a@.pixels), p) implies covers(spans(cleared@), p) by {
                        if !covers(spans(cleared@), p) {
                            assert(covers(spans(area.pixels@), p));
                            let k = choose|k: int| 0 <= k < spans(area.pixels@).len() && #[trigger] in_span(
                                spans(area.pixels@)[k],
                                p,
                            );
                        }
                    }
                }
                None
            }
        },
    }
}

impl HistoryAction {
    /// What the action makes of the layers.
    /// What the action makes of the layers; a new layer is coloured by
    /// `color_for` from the number of layers.
    pub fn apply_to_layers<F: Fn(u16) -> [u8; 3]>(&self, rest: Vec<Option<PixelArea>>, color_for: &F) -> (out: Vec<Option<PixelArea>>)
        requires
            action_ok(*self),
            layers_wf(layer_views(rest@)),
            self.layer matches Some(i) ==> i < usize::MAX,
            forall|seed: u16| color_for.requires((seed,)),
        ensures
            applies_to_layers(*self, layer_views(rest@), layer_views(out@), *color_for),
            layers_wf(layer_views(out@)),
    {
        let ghost before = layer_views(rest@);
        let mut rest = rest;
        match &self.kind {
            HistoryActionKind::Add(area) => match self.layer {
                None => {
                    let color = color_for(#[verifier::truncate] (rest.len() as u16));
                    let added = PixelArea::new(copy_ranges(&area.pixels), color);
                    rest.push(Some(added));
                    proof {
                        assert(layer_views(rest@).drop_last() =~= before);
                        assert(layer_views(rest@).last() == Some(added@));
                        assert(added@.pixels == area@.pixels);
                        assert(added@.wf());
                        assert forall|j: int| 0 <= j < layer_views(rest@).len() implies (#[trigger] layer_views(rest@)[j] matches Some(x) ==> x.wf()) by {
                            if j < before.len() {
                                assert(layer_views(rest@)[j] == before[j]);
                            }
                        }
                    }
                    rest
                },
                Some(i) => {
                    let n0 = rest.len();
                    while rest.len() <= i
                        invariant
                            n0 <= rest@.len(),
                            rest@.len() <= if n0 > i { n0 as int } else { i + 1 },
                            n0 == before.len(),
                            i < usize::MAX,
                            forall|j: int| 0 <= j < rest@.len() ==> #[trigger] layer_views(rest@)[j] == layer_at(before, j),
                        decreases i + 1 - rest@.len(),
                    {
                        let ghost r0 = rest@;
                        rest.push(None);
                        proof {
                            assert forall|j: int| 0 <= j < rest@.len() implies #[trigger] layer_views(rest@)[j] == layer_at(before, j) by {
                                if j < r0.len() {
                                    assert(rest@[j] == r0[j]);
                                    assert(layer_views(r0)[j] == layer_at(before, j));
                                }
                            }
                        }
                    }
                    proof {
                        assert(layer_views(rest@)[i as int] == layer_at(before, i as int));
                        if i < before.len() {
                            assert(before[i as int] matches Some(a) ==> a.wf());
                        }
                    }
                    let n = rest.len();
                    let joined = match &rest[i] {
                        Some(e) => union_area(e, area),
                        None => PixelArea::new(copy_ranges(&area.pixels), color_for(#[verifier::truncate] (n as u16))),
                    };
                    let ghost mid = layer_views(rest@);
                    rest.set(i, Some(joined));
                    proof {
                        let o = layer_views(rest@);
                        assert forall|j: int| 0 <= j < o.len() && j != i implies #[trigger] o[j] == layer_at(before, j) by {
                            assert(o[j] == mid[j]);
                        }
                        assert forall|j: int| 0 <= j < o.len() implies (#[trigger] o[j] matches Some(x) ==> x.wf()) by {
                            if j != i {
                                assert(o[j] == mid[j]);
                                assert(mid[j] == layer_at(before, j));
                                if j < before.len() {
                                    assert(before[j] matches Some(a) ==> a.wf());
                                }
                            }
                        }
                        assert(o[i as int] == Some(joined@));
                        assert(o.len() == n);
                        assert(o.len() == if before.len() > i { before.len() as int } else { i + 1 });
                    }
                    rest
                },
            },
            HistoryActionKind::Reset => match self.layer {
                None => {
                    rest.clear();
                    proof {
                        assert(layer_views(rest@) =~= Seq::<Option<AreaView>>::empty());
                    }
                    rest
                },
                Some(i) => {
                    if i < rest.len() {
                        rest.set(i, None);
                        proof {
                            assert(layer_views(rest@) =~= before.update(i as int, None));
                        }
                    }
                    rest
                },
            },
            HistoryActionKind::Clear(c) => {
                let mut out: Vec<Option<PixelArea>> = Vec::new();
                let mut k: usize = 0;
                while k < rest.len()
                    invariant
                        before == layer_views(rest@),
                        layers_wf(before),
                        all_wf(c@),
                        sorted_by_start(spans(c@)),
                        k <= rest@.len(),
                        out@.len() == k,
                        layers_wf(layer_views(out@)),
                        forall|j: int| 0 <= j < k ==> if self.layer matches Some(i) && j != i {
                            #[trigger] layer_views(out@)[j] == before[j]
                        } else {
                            cleared_layer(before[j], layer_views(out@)[j], c@)
                        },
                    decreases rest@.len() - k,
                {
                    let ghost out0 = out@;
                    let apply_here = match self.layer {
                        Some(i) => i == k,
                        None => true,
                    };
                    proof {
                        assert(before[k as int] matches Some(a) ==> a.wf());
                    }
                    let item = if apply_here {
                        clear_layer(&rest[k], c)
                    } else {
                        match &rest[k] {
                            Some(a) => Some(a.duplicate()),
                            None => None,
                        }
                    };
                    let ghost iv = layer_views(seq![item])[0];
                    proof {
                        assert(seq![item][0] == item);
                        assert(iv == match item {
                            Some(a) => Some(a@),
                            None => None::<AreaView>,
                        });
                        assert(before[k as int] == match rest@[k as int] {
                            Some(a) => Some(a@),
                            None => None::<AreaView>,
                        });
                        if !apply_here {
                            assert(iv == before[k as int]);
                        } else {
                            assert(cleared_layer(before[k as int], iv, c@));
                        }
                    }
                    out.push(item);
                    proof {
                        assert(out@[k as int] == item);
                        assert(layer_views(out@)[k as int] == iv);
                        assert forall|j: int| 0 <= j < k + 1 implies (if self.layer matches Some(i) && j != i {
                            #[trigger] layer_views(out@)[j] == before[j]
                        } else {
                            cleared_layer(before[j], layer_views(out@)[j], c@)
                        }) by {
                            if j < k {
                                assert(out@[j] == out0[j]);
                                assert(layer_views(out@)[j] == layer_views(out0)[j]);
                            }
                        }
                        assert forall|j: int| 0 <= j < out@.len() implies (#[trigger] layer_views(out@)[j] matches Some(x) ==> x.wf()) by {
                            if j < k {
                                assert(out@[j] == out0[j]);
                            }
                        }
                    }
                    k = k + 1;
                }
                out
            },
        }
    }
}

/// `out` is `base` with the actions applied to the layers in order.
pub open spec fn applies_all_layers<F: Fn(u16) -> [u8; 3]>(
    actions: Seq<HistoryAction>,
    base: Seq<Option<AreaView>>,
    out: Seq<Option<AreaView>>,
    color_for: F,
) -> bool
    decreases actions.len(),
{
    if actions.len() == 0 {
        out == base
    } else {
        exists|mid: Seq<Option<AreaView>>|
            applies_all_layers(actions.drop_last(), base, mid, color_for) && #[trigger] applies_to_layers(
                actions.last(),
                mid,
                out,
                color_for,
            )
    }
}

/// The actions apply to layers: each is one that applies to well-formed
/// areas, on a layer whose number has a successor.
pub open spec fn layer_actions_ok(actions: Seq<HistoryAction>) -> bool {
    forall|k: int| 0 <= k < actions.len() ==> action_ok(#[trigger] actions[k]) && (actions[k].layer matches Some(i) ==> i < usize::MAX)
}

impl History {
    /// The layers shown: `base` with the applied actions applied in order,
    /// new layers coloured by `color_for`.
    pub fn apply_to_layers<F: Fn(u16) -> [u8; 3]>(&self, base: Vec<Option<PixelArea>>, color_for: &F) -> (out: Vec<Option<PixelArea>>)
        requires
            self.wf(),
            layers_wf(layer_views(base@)),
            layer_actions_ok(self.applied()),
            forall|seed: u16| color_for.requires((seed,)),
        ensures
            applies_all_layers(self.applied(), layer_views(base@), layer_views(out@), *color_for),
            layers_wf(layer_views(out@)),
    {
        let ghost b = layer_views(base@);
        let mut acc = base;
        let mut k: usize = 0;
        let n = self.end();
        while k < n
            invariant
                n == self.end_spec(),
                self.wf(),
                k <= n,
                layer_actions_ok(self.applied()),
                layers_wf(layer_views(acc@)),
                forall|seed: u16| color_for.requires((seed,)),
                applies_all_layers(self.applied().take(k as int), b, layer_views(acc@), *color_for),
            decreases n - k,
        {
            let a = self.applied_action(k);
            proof {
                assert(self.applied()[k as int] == *a);
            }
            let ghost mid = layer_views(acc@);
            acc = a.apply_to_layers(acc, color_for);
            proof {
                let t = self.applied().take(k + 1);
                assert(t.drop_last() =~= self.applied().take(k as int));
                assert(t.last() == *a);
                assert(applies_to_layers(t.last(), mid, layer_views(acc@), *color_for));
            }
            k = k + 1;
        }
        proof {
            assert(self.applied().take(n as int) =~= self.applied());
        }
        acc
    }
}

} // verus!
