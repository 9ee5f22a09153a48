//! The annotation mask of an image: base areas, the edit history on top of
//! them, and the state of the overlay texture.
use crate::history::{action_ok, applies, applies_all, areas_wf, non_empty, views, History, HistoryAction, HistoryActionKind, is_cleared};
use crate::intervals::{covers, in_span, nested_in, sorted_by_start, sorted_disjoint, split_only_at_ends};
use crate::pixel_range::{all_wf, remove_overlaps, runs_ok, spans, AreaView, PixelArea, PixelRange};
use crate::layers::{applies_all_layers, layer_views};
use crate::pixel_area_stack::PixelAreaStack;
use vstd::prelude::*;

verus! {

/// Opacities of the overlay.
#[derive(Debug, PartialEq, Eq)]
#[non_exhaustive]
pub struct MaskSettings {
    pub default_opacity: u8,
    pub active_opacity: u8,
}

impl MaskSettings {
    /// The opacity of an area, higher for the active one.
    pub fn opacity(&self, active: bool) -> (o: u8)
        ensures
            o == if active { self.active_opacity } else { self.default_opacity },
    {
        if active {
            self.active_opacity
        } else {
            self.default_opacity
        }
    }
}

impl Default for MaskSettings {
    fn default() -> (s: Self)
        ensures
            s.default_opacity == 128,
            s.active_opacity == 200,
    {
        Self { default_opacity: 128, active_opacity: 200 }
    }
}

/// The ranges of all areas with the index of their area, grouped by area.
pub open spec fn group_ranges(out: Seq<(usize, PixelRange)>, g: int) -> Seq<PixelRange>
    decreases out.len(),
{
    if out.len() == 0 {
        Seq::empty()
    } else if out.last().0 == g {
        group_ranges(out.drop_last(), g).push(out.last().1)
    } else {
        group_ranges(out.drop_last(), g)
    }
}

/// The runs of `out` start in increasing order.
pub open spec fn ordered_by_start(out: Seq<(usize, PixelRange)>) -> bool {
    forall|i: int, j: int| 0 <= i < j < out.len() ==> (#[trigger] out[i]).1.span().0 <= (#[trigger] out[j]).1.span().0
}

/// Some area holds the position `p`.
pub open spec fn areas_cover(areas: Seq<AreaView>, p: int) -> bool {
    exists|g: int| 0 <= g < areas.len() && #[trigger] covers(spans(areas[g].pixels), p)
}

/// Every area holds a run.
pub open spec fn all_non_empty(areas: Seq<AreaView>) -> bool {
    forall|i: int| 0 <= i < areas.len() ==> #[trigger] non_empty(areas[i])
}

/// `after` is `before` with exactly one action pushed on top of its applied
/// actions: the addition of `area` on `layer`, a checkpoint or not.
pub open spec fn pushed_add(before: MaskImage, after: MaskImage, area: AreaView, layer: Option<usize>, checkpoint: bool) -> bool {
    let acts = after.hist().actions();
    &&& acts.len() > 0
    &&& acts.drop_last() == before.hist().applied()
    &&& after.hist().end_spec() == acts.len()
    &&& acts.last().layer == layer
    &&& acts.last().checkpoint == checkpoint
    &&& acts.last().kind matches HistoryActionKind::Add(a) && a@ == area
}

/// The base areas, each on its own layer.
pub open spec fn base_layers(base: Seq<PixelArea>) -> Seq<Option<AreaView>> {
    Seq::new(base.len(), |i: int| Some(base[i]@))
}

/// An action the mask accepts: it applies to well-formed areas, adds no empty
/// area, and its layer has a successor.
pub open spec fn mask_action_ok(a: HistoryAction) -> bool {
    action_ok(a) && (a.layer matches Some(i) ==> i < usize::MAX) && match a.kind {
        HistoryActionKind::Add(area) => non_empty(area@),
        _ => true,
    }
}

proof fn lemma_group_ranges_push(out: Seq<(usize, PixelRange)>, x: (usize, PixelRange), g: int)
    ensures
        group_ranges(out.push(x), g) == if x.0 == g { group_ranges(out, g).push(x.1) } else { group_ranges(out, g) },
{
    assert(out.push(x).drop_last() =~= out);
}

proof fn lemma_group_ranges_other(out: Seq<(usize, PixelRange)>, g: int)
    requires
        forall|k: int| 0 <= k < out.len() ==> (#[trigger] out[k]).0 != g,
    ensures
        group_ranges(out, g).len() == 0,
    decreases out.len(),
{
    if out.len() > 0 {
        assert forall|k: int| 0 <= k < out.drop_last().len() implies (#[trigger] out.drop_last()[k]).0 != g by {
            assert(out.drop_last()[k] == out[k]);
        }
        lemma_group_ranges_other(out.drop_last(), g);
    }
}

proof fn lemma_group_ranges_member(out: Seq<(usize, PixelRange)>, g: int, k: int)
    requires
        0 <= k < out.len(),
        out[k].0 == g,
    ensures
        group_ranges(out, g).contains(out[k].1),
    decreases out.len(),
{
    if k == out.len() - 1 {
        assert(group_ranges(out, g).last() == out[k].1);
    } else {
        assert(out.drop_last()[k] == out[k]);
        lemma_group_ranges_member(out.drop_last(), g, k);
        let gr = group_ranges(out.drop_last(), g);
        let i = choose|i: int| 0 <= i < gr.len() && gr[i] == out[k].1;
        if out.last().0 == g {
            assert(gr.push(out.last().1)[i] == gr[i]);
        }
    }
}

/// The annotation mask of an image.
pub struct MaskImage {
    size: [usize; 2],
    annotations: Vec<PixelArea>,
    history: History,
    /// Whether the overlay texture is shown; `None` while there is none.
    texture_visible: Option<bool>,
    /// The overlay has to be drawn anew. The texture cannot be dropped at
    /// once, as it may be in use in this frame already.
    texture_handle_dirty: bool,
    settings: MaskSettings,
    /// The area drawn highlighted, if any.
    active_subgroup: Option<usize>,
}

impl MaskImage {
    pub closed spec fn base(&self) -> Seq<PixelArea> {
        self.annotations@
    }

    pub closed spec fn hist(&self) -> History {
        self.history
    }

    pub closed spec fn size_spec(&self) -> (usize, usize) {
        (self.size[0], self.size[1])
    }

    pub closed spec fn visible(&self) -> Option<bool> {
        self.texture_visible
    }

    pub closed spec fn redraw(&self) -> bool {
        self.texture_handle_dirty
    }

    pub closed spec fn settings_spec(&self) -> MaskSettings {
        self.settings
    }

    /// The area drawn highlighted, if any.
    pub closed spec fn active_spec(&self) -> Option<usize> {
        self.active_subgroup
    }

    /// The size, the settings and the highlighted area are those of `other`.
    pub open spec fn same_display(&self, other: Self) -> bool {
        &&& self.size_spec() == other.size_spec()
        &&& self.settings_spec() == other.settings_spec()
        &&& self.active_spec() == other.active_spec()
    }

    /// Base areas are well formed and non-empty, every action on the stack is
    /// one the mask accepts.
    pub open spec fn wf(&self) -> bool {
        &&& areas_wf(views(self.base()))
        &&& all_non_empty(views(self.base()))
        &&& self.hist().wf()
        &&& forall|i: int| 0 <= i < self.hist().actions().len() ==> #[trigger] mask_action_ok(self.hist().actions()[i])
    }

    /// The areas shown: the base with the applied actions folded over it.
    pub open spec fn shows(&self, areas: Seq<AreaView>) -> bool {
        applies_all(self.hist().applied(), views(self.base()), areas)
    }

    pub fn new(size: [usize; 2], annotations: Vec<PixelArea>, history: History) -> (m: Self)
        requires
            areas_wf(views(annotations@)),
            all_non_empty(views(annotations@)),
            history.wf(),
            forall|i: int| 0 <= i < history.actions().len() ==> #[trigger] mask_action_ok(history.actions()[i]),
        ensures
            m.wf(),
            m.base() == annotations@,
            m.hist() == history,
            m.size_spec() == (size[0], size[1]),
            (m.visible() is None),
            !m.redraw(),
            m.settings_spec() == (MaskSettings { default_opacity: 128, active_opacity: 200 }),
            m.active_spec() is None,
    {
        Self {
            size,
            annotations,
            history,
            texture_visible: None,
            texture_handle_dirty: false,
            settings: MaskSettings::default(),
            active_subgroup: None,
        }
    }

    pub fn set_settings(&mut self, settings: MaskSettings)
        ensures
            final(self).active_spec() == old(self).active_spec(),
            final(self).settings_spec() == settings,
            final(self).base() == old(self).base(),
            final(self).hist() == old(self).hist(),
            final(self).size_spec() == old(self).size_spec(),
            final(self).visible() == old(self).visible(),
            final(self).redraw() == old(self).redraw(),
    {
        self.settings = settings;
    }

    pub fn settings(&self) -> (s: &MaskSettings)
        ensures
            *s == self.settings_spec(),
    {
        &self.settings
    }

    /// A seed for the colour of the next area: the number of base areas plus
    /// the number of applied actions, wrapping at `u16`.
    pub fn random_seed(&self) -> (s: u16)
        ensures
            s == (self.base().len() + self.hist().end_spec()) % 65536,
    {
        let n: usize = self.annotations.len();
        let h: u16 = self.history.random_seed();
        let nn: u16 = n as u16;
        proof {
            assert(nn == n % 65536) by (bit_vector)
                requires
                    nn == n as u16;
        }
        let s: u16 = nn.wrapping_add(h);
        proof {
            assert(s == (nn + h) % 65536);
        }
        s
    }

    pub fn is_dirty(&self) -> (b: bool)
        ensures
            b == (self.hist().saved() != Some(self.hist().end_spec())),
    {
        self.history.is_dirty()
    }

    pub fn mark_not_dirty(&mut self)
        requires
            old(self).wf(),
        ensures
            final(self).same_display(*old(self)),
            final(self).wf(),
            final(self).hist().actions() == old(self).hist().actions(),
            final(self).hist().end_spec() == old(self).hist().end_spec(),
            final(self).hist().saved() == Some(old(self).hist().end_spec()),
            final(self).base() == old(self).base(),
            final(self).visible() == old(self).visible(),
            final(self).redraw() == old(self).redraw(),
    {
        self.history.mark_not_dirty();
    }

    /// Records an action and asks for the overlay to be drawn anew.
    pub fn add_history_action(&mut self, action: HistoryAction)
        requires
            old(self).wf(),
            mask_action_ok(action),
        ensures
            final(self).same_display(*old(self)),
            final(self).wf(),
            final(self).base() == old(self).base(),
            final(self).visible() == old(self).visible(),
            final(self).redraw(),
            final(self).size_spec() == old(self).size_spec(),
            ({
                let h0 = old(self).hist();
                let h1 = final(self).hist();
                if h0.end_spec() > 0 && h0.actions()[h0.end_spec() - 1].kind is Reset && action.kind is Reset
                    && h0.actions()[h0.end_spec() - 1].layer == action.layer {
                    h1 == h0
                } else {
                    &&& h1.actions() == h0.applied().push(action)
                    &&& h1.end_spec() == h1.actions().len()
                }
            }),
    {
        let ghost h0 = self.history;
        self.history.push(action);
        self.texture_handle_dirty = true;
        proof {
            assert forall|i: int| 0 <= i < self.history.actions().len() implies #[trigger] mask_action_ok(self.history.actions()[i]) by {
                if self.history.actions() != h0.actions() {
                    if i < h0.end_spec() {
                        assert(self.history.actions()[i] == h0.actions()[i]);
                    }
                }
            }
        }
    }

    /// Removes every area.
    pub fn reset(&mut self)
        requires
            old(self).wf(),
        ensures
            final(self).visible() == old(self).visible(),
            final(self).same_display(*old(self)),
            final(self).wf(),
            final(self).base() == old(self).base(),
            final(self).redraw(),
            ({
                let h0 = old(self).hist();
                let h1 = final(self).hist();
                let a = HistoryAction { kind: HistoryActionKind::Reset, layer: None, checkpoint: true };
                if h0.end_spec() > 0 && h0.actions()[h0.end_spec() - 1].kind is Reset
                    && h0.actions()[h0.end_spec() - 1].layer is None {
                    h1 == h0
                } else {
                    &&& h1.actions() == h0.applied().push(a)
                    &&& h1.end_spec() == h1.actions().len()
                }
            }),
    {
        self.add_history_action(HistoryAction { kind: HistoryActionKind::Reset, layer: None, checkpoint: true });
    }

    /// Clears the given runs from every area.
    pub fn clear_ranges(&mut self, ranges: Vec<PixelRange>)
        requires
            old(self).wf(),
            all_wf(ranges@),
            sorted_by_start(spans(ranges@)),
        ensures
            final(self).visible() == old(self).visible(),
            final(self).same_display(*old(self)),
            final(self).wf(),
            final(self).base() == old(self).base(),
            final(self).redraw(),
            ({
                let h0 = old(self).hist();
                let h1 = final(self).hist();
                &&& h1.actions() == h0.applied().push(HistoryAction { kind: HistoryActionKind::Clear(ranges), layer: None, checkpoint: true })
                &&& h1.end_spec() == h1.actions().len()
            }),
    {
        self.add_history_action(HistoryAction { kind: HistoryActionKind::Clear(ranges), layer: None, checkpoint: true });
    }

    /// Reacts to the keys of a frame: command-Z undoes, with shift it redoes;
    /// command-D toggles the overlay.
    pub fn handle_events(&mut self, shift_pressed: bool, cmd_z_pressed: bool, cmd_d_pressed: bool)
        requires
            old(self).wf(),
        ensures
            final(self).same_display(*old(self)),
            final(self).wf(),
            final(self).base() == old(self).base(),
            final(self).hist().actions() == old(self).hist().actions(),
            final(self).hist().saved() == old(self).hist().saved(),
            !cmd_z_pressed ==> final(self).hist() == old(self).hist(),
            cmd_z_pressed && shift_pressed ==> match crate::history::first_checkpoint_from(
                old(self).hist().actions(),
                old(self).hist().end_spec(),
            ) {
                None => final(self).hist().end_spec() == old(self).hist().end_spec()
                    && final(self).redraw() == old(self).redraw(),
                Some(t) => final(self).hist().end_spec() == crate::history::redo_end(old(self).hist().actions(), t)
                    && final(self).redraw(),
            },
            cmd_z_pressed && !shift_pressed ==> match crate::history::last_checkpoint_before(
                old(self).hist().actions(),
                old(self).hist().end_spec(),
            ) {
                None => final(self).hist().end_spec() == old(self).hist().end_spec()
                    && final(self).redraw() == old(self).redraw(),
                Some(t) => final(self).hist().end_spec() == t && final(self).redraw(),
            },
            !cmd_z_pressed ==> final(self).redraw() == old(self).redraw(),
            final(self).visible() == match old(self).visible() {
                Some(v) => Some(if cmd_d_pressed { !v } else { v }),
                None => None,
            },
    {
        if cmd_z_pressed {
            let require_redraw = if shift_pressed {
                self.history.redo().is_some()
            } else {
                self.history.undo().is_some()
            };
            if require_redraw {
                self.texture_handle_dirty = true;
            }
        }
        match self.texture_visible {
            Some(v) => {
                if cmd_d_pressed {
                    self.texture_visible = Some(!v);
                }
            },
            None => {},
        }
    }

    /// Starts drawing a frame: tells whether the overlay texture has to be
    /// built (there is none, or it is outdated); a new texture is visible.
    pub fn begin_redraw(&mut self) -> (rebuild: bool)
        ensures
            final(self).same_display(*old(self)),
            rebuild == (old(self).visible() is None || old(self).redraw()),
            final(self).visible() == if rebuild { Some(true) } else { old(self).visible() },
            !final(self).redraw(),
            final(self).base() == old(self).base(),
            final(self).hist() == old(self).hist(),
            final(self).size_spec() == old(self).size_spec(),
    {
        let rebuild = self.texture_visible.is_none() || self.texture_handle_dirty;
        if rebuild {
            self.texture_handle_dirty = false;
            self.texture_visible = Some(true);
        }
        rebuild
    }

    /// The overlay is shown.
    pub fn texture_visible(&self) -> (b: bool)
        ensures
            b == (self.visible() == Some(true)),
    {
        match self.texture_visible {
            Some(v) => v,
            None => false,
        }
    }

    /// The layers shown: each base area on its own layer, numbered in order,
    /// with the applied actions applied to the layers; a new layer takes the
    /// colour `color_for` gives for the number of layers.
    pub fn subgroups_stack<F: Fn(u16) -> [u8; 3]>(&self, color_for: &F) -> (s: PixelAreaStack)
        requires
            self.wf(),
            forall|seed: u16| color_for.requires((seed,)),
        ensures
            applies_all_layers(self.hist().applied(), base_layers(self.base()), layer_views(s.layers()), *color_for),
    {
        let mut base: Vec<Option<PixelArea>> = Vec::new();
        let mut i: usize = 0;
        while i < self.annotations.len()
            invariant
                i <= self.base().len(),
                self.base() == self.annotations@,
                layer_views(base@) == base_layers(self.base()).take(i as int),
            decreases self.base().len() - i,
        {
            let a = self.annotations[i].duplicate();
            let ghost b0 = base@;
            base.push(Some(a));
            proof {
                assert(layer_views(base@) =~= layer_views(b0).push(Some(a@)));
                assert(base_layers(self.base()).take(i + 1) =~= base_layers(self.base()).take(i as int).push(Some(a@)));
            }
            i = i + 1;
        }
        proof {
            assert(base_layers(self.base()).take(i as int) =~= base_layers(self.base()));
            let bl = base_layers(self.base());
            assert forall|j: int| 0 <= j < bl.len() implies (#[trigger] bl[j] matches Some(a) ==> a.wf()) by {
                assert(views(self.base())[j].wf());
            }
            let ap = self.hist().applied();
            assert forall|k: int| 0 <= k < ap.len() implies action_ok(#[trigger] ap[k]) && (ap[k].layer matches Some(i) ==> i
                < usize::MAX) by {
                assert(ap[k] == self.hist().actions()[k]);
                assert(mask_action_ok(self.hist().actions()[k]));
            }
        }
        let out = self.history.apply_to_layers(base, color_for);
        PixelAreaStack::from_option_vec(out)
    }

    /// The areas shown: the base with the applied actions folded over it.
    pub fn subgroups(&self) -> (out: Vec<PixelArea>)
        requires
            self.wf(),
        ensures
            self.shows(views(out@)),
            areas_wf(views(out@)),
            all_non_empty(views(out@)),
    {
        let ghost base = views(self.annotations@);
        let mut acc: Vec<PixelArea> = Vec::new();
        let mut k: usize = 0;
        while k < self.annotations.len()
            invariant
                k <= self.annotations@.len(),
                base == views(self.annotations@),
                views(acc@) == base.take(k as int),
            decreases self.annotations@.len() - k,
        {
            let ghost acc0 = views(acc@);
            acc.push(self.annotations[k].duplicate());
            k = k + 1;
            proof {
                assert(views(acc@) =~= acc0.push(base[k - 1]));
                assert(base.take(k as int) =~= base.take(k - 1).push(base[k - 1]));
            }
        }
        proof {
            assert(base.take(k as int) =~= base);
        }
        let n = self.history.end();
        let ghost applied = self.history.applied();
        let mut i: usize = 0;
        proof {
            assert(applied.take(0).len() == 0);
        }
        while i < n
            invariant
                self.wf(),
                n == self.hist().end_spec(),
                applied == self.hist().applied(),
                base == views(self.base()),
                i <= n,
                applies_all(applied.take(i as int), base, views(acc@)),
                areas_wf(views(acc@)),
                all_non_empty(views(acc@)),
            decreases n - i,
        {
            let a = self.history.applied_action(i);
            let ghost mid = views(acc@);
            proof {
                assert(a == self.hist().actions()[i as int]);
                assert(mask_action_ok(self.hist().actions()[i as int]));
            }
            acc = a.apply(acc);
            proof {
                lemma_applies_non_empty(*a, mid, views(acc@));
                let t = applied.take(i + 1);
                assert(t.drop_last() =~= applied.take(i as int));
                assert(t.last() == *a);
                assert(applies_all(t.drop_last(), base, mid) && applies(t.last(), mid, views(acc@)));
            }
            i = i + 1;
        }
        proof {
            assert(applied.take(n as int) =~= applied);
        }
        acc
    }
}

/// Applying an action the mask accepts keeps every area non-empty.
proof fn lemma_applies_non_empty(a: HistoryAction, rest: Seq<AreaView>, out: Seq<AreaView>)
    requires
        mask_action_ok(a),
        all_non_empty(rest),
        applies(a, rest, out),
    ensures
        all_non_empty(out),
{
    match a.kind {
        HistoryActionKind::Add(area) => {
            assert forall|i: int| 0 <= i < out.len() implies #[trigger] non_empty(out[i]) by {
                if i < rest.len() {
                    assert(out[i] == rest[i]);
                }
            }
        },
        HistoryActionKind::Reset => {},
        HistoryActionKind::Clear(c) => {
            let each = choose|each: Seq<AreaView>|
                each.len() == rest.len()
                    && (forall|i: int| 0 <= i < rest.len() ==> is_cleared(rest[i], #[trigger] each[i], c@))
                    && out == each.filter(|x: AreaView| non_empty(x));
            assert forall|i: int| 0 <= i < out.len() implies #[trigger] non_empty(out[i]) by {
                each.lemma_filter_pred(|x: AreaView| non_empty(x), i);
            }
        },
    }
}

/// The runs of the first `k` areas that are not yet taken.
pub open spec fn remaining(areas: Seq<PixelArea>, next: Seq<usize>, k: int) -> int
    decreases k,
{
    if k <= 0 {
        0
    } else {
        remaining(areas, next, k - 1) + (areas[k - 1].pixels@.len() - next[k - 1])
    }
}

proof fn lemma_remaining_update(areas: Seq<PixelArea>, next: Seq<usize>, k: int, b: int, v: usize)
    requires
        0 <= b < next.len(),
        0 <= k <= next.len(),
    ensures
        remaining(areas, next.update(b, v), k) == if b < k {
            remaining(areas, next, k) - v + next[b]
        } else {
            remaining(areas, next, k)
        },
    decreases k,
{
    if k > 0 {
        lemma_remaining_update(areas, next, k - 1, b, v);
    }
}

proof fn lemma_remaining_nonneg(areas: Seq<PixelArea>, next: Seq<usize>, k: int)
    requires
        0 <= k <= next.len(),
        k <= areas.len(),
        forall|g: int| 0 <= g < k ==> #[trigger] next[g] <= areas[g].pixels@.len(),
    ensures
        remaining(areas, next, k) >= 0,
    decreases k,
{
    if k > 0 {
        lemma_remaining_nonneg(areas, next, k - 1);
    }
}

proof fn lemma_group_ranges_origin(out: Seq<(usize, PixelRange)>, g: int, i: int)
    requires
        0 <= i < group_ranges(out, g).len(),
    ensures
        exists|k: int| 0 <= k < out.len() && (#[trigger] out[k]).0 == g && out[k].1 == group_ranges(out, g)[i],
    decreases out.len(),
{
    let d = out.drop_last();
    if out.last().0 == g && i == group_ranges(d, g).len() {
        assert(out[out.len() - 1] == out.last());
    } else {
        lemma_group_ranges_origin(d, g, i);
        let k = choose|k: int| 0 <= k < d.len() && (#[trigger] d[k]).0 == g && d[k].1 == group_ranges(d, g)[i];
        assert(out[k] == d[k]);
    }
}

/// Every run of every area with the index of its area, ordered by start.
/// Each area's runs keep their order; among runs with the same start the
/// order is left open.
pub fn order_by_start(areas: &Vec<PixelArea>) -> (out: Vec<(usize, PixelRange)>)
    requires
        areas_wf(views(areas@)),
    ensures
        ordered_by_start(out@),
        forall|k: int| 0 <= k < out@.len() ==> (#[trigger] out@[k]).0 < areas@.len(),
        forall|g: int| 0 <= g < areas@.len() ==> #[trigger] group_ranges(out@, g) == areas@[g].pixels@,
{
    let n = areas.len();
    let mut next: Vec<usize> = Vec::new();
    while next.len() < n
        invariant
            next@.len() <= n,
            forall|g: int| 0 <= g < next@.len() ==> #[trigger] next@[g] == 0,
        decreases n - next@.len(),
    {
        next.push(0);
    }
    proof {
        assert forall|g: int| 0 <= g < n implies #[trigger] group_ranges(Seq::<(usize, PixelRange)>::empty(), g)
            == areas@[g].pixels@.take(next@[g] as int) by {
            assert(areas@[g].pixels@.take(0) =~= Seq::<PixelRange>::empty());
        }
    }
    let mut out: Vec<(usize, PixelRange)> = Vec::new();
    let mut done = false;
    while !done
        invariant
            n == areas@.len(),
            areas_wf(views(areas@)),
            next@.len() == n,
            forall|g: int| 0 <= g < n ==> #[trigger] next@[g] <= areas@[g].pixels@.len(),
            forall|g: int| 0 <= g < n ==> #[trigger] group_ranges(out@, g) == areas@[g].pixels@.take(next@[g] as int),
            forall|k: int| 0 <= k < out@.len() ==> (#[trigger] out@[k]).0 < n,
            ordered_by_start(out@),
            out@.len() > 0 ==> forall|g: int| 0 <= g < n && next@[g] < areas@[g].pixels@.len()
                ==> out@.last().1.span().0 <= (#[trigger] areas@[g].pixels@[next@[g] as int]).span().0,
            done ==> forall|g: int| 0 <= g < n ==> #[trigger] next@[g] == areas@[g].pixels@.len(),
        decreases remaining(areas@, next@, n as int), if done { 0int } else { 1int },
    {
        proof {
            lemma_remaining_nonneg(areas@, next@, n as int);
        }
        let mut best: Option<usize> = None;
        let mut best_start: u32 = 0;
        let mut g: usize = 0;
        while g < n
            invariant
                n == areas@.len(),
                next@.len() == n,
                g <= n,
                forall|h: int| 0 <= h < n ==> #[trigger] next@[h] <= areas@[h].pixels@.len(),
                best matches Some(b) ==> b < g && next@[b as int] < areas@[b as int].pixels@.len()
                    && best_start == areas@[b as int].pixels@[next@[b as int] as int].span().0,
                best is None ==> forall|h: int| 0 <= h < g ==> #[trigger] next@[h] == areas@[h].pixels@.len(),
                best is Some ==> forall|h: int| 0 <= h < g && next@[h] < areas@[h].pixels@.len()
                    ==> best_start <= (#[trigger] areas@[h].pixels@[next@[h] as int]).span().0,
            decreases n - g,
        {
            if next[g] < areas[g].pixels.len() {
                let s = areas[g].pixels[next[g]].start();
                let better = match best {
                    None => true,
                    Some(_) => s < best_start,
                };
                if better {
                    best = Some(g);
                    best_start = s;
                }
            }
            g = g + 1;
        }
        match best {
            None => {
                done = true;
            },
            Some(b) => {
                let r = areas[b].pixels[next[b]];
                let ghost out0 = out@;
                let ghost next0 = next@;
                out.push((b, r));
                let lb = areas[b].pixels.len();
                let nb = next[b] + 1;
                next.set(b, nb);
                proof {
                    lemma_remaining_update(areas@, next0, n as int, b as int, nb);
                    lemma_remaining_nonneg(areas@, next@, n as int);
                    let pb = areas@[b as int].pixels@;
                    assert(views(areas@)[b as int].wf());
                    assert forall|h: int| 0 <= h < n implies #[trigger] group_ranges(out@, h)
                        == areas@[h].pixels@.take(next@[h] as int) by {
                        lemma_group_ranges_push(out0, (b, r), h);
                        if h == b {
                            assert(pb.take(nb as int) =~= pb.take(next0[h] as int).push(r));
                        }
                    }
                    assert forall|k: int| 0 <= k < out@.len() implies (#[trigger] out@[k]).0 < n by {
                        if k < out0.len() {
                            assert(out@[k] == out0[k]);
                        }
                    }
                    assert forall|i: int, j: int| 0 <= i < j < out@.len() implies (#[trigger] out@[i]).1.span().0
                        <= (#[trigger] out@[j]).1.span().0 by {
                        if j == out0.len() {
                            assert(out@[i] == out0[i]);
                            if i < out0.len() - 1 {
                                assert(out0[i].1.span().0 <= out0[out0.len() - 1].1.span().0);
                            }
                        } else {
                            assert(out@[i] == out0[i] && out@[j] == out0[j]);
                        }
                    }
                    assert forall|h: int| 0 <= h < n && next@[h] < areas@[h].pixels@.len()
                        implies out@.last().1.span().0 <= (#[trigger] areas@[h].pixels@[next@[h] as int]).span().0 by {
                        if h == b {
                            assert(all_wf(pb));
                            assert(spans(pb)[next0[h] as int].1 <= spans(pb)[nb as int].0);
                            assert(pb[next0[h] as int].wf());
                        }
                    }
                }
            },
        }
    }
    proof {
        assert forall|h: int| 0 <= h < n implies #[trigger] group_ranges(out@, h) == areas@[h].pixels@ by {
            assert(areas@[h].pixels@.take(next@[h] as int) =~= areas@[h].pixels@);
        }
    }
    out
}

/// `after` is `before` without the positions that some area of `areas`
/// holds: the same colour, runs of full confidence that are parts of the runs
/// of `before`, split only where `before` is split.
pub open spec fn is_cleared_by(before: AreaView, after: AreaView, areas: Seq<AreaView>) -> bool {
    &&& after.wf()
    &&& after.color == before.color
    &&& nested_in(spans(after.pixels), spans(before.pixels))
    &&& split_only_at_ends(spans(after.pixels), spans(before.pixels))
    &&& forall|p: int|
        #[trigger] covers(spans(after.pixels), p) <==> (covers(spans(before.pixels), p) && !areas_cover(areas, p))
    &&& forall|i: int| 0 <= i < after.pixels.len() ==> #[trigger] after.pixels[i].conf() == 255
}

/// The runs of an ordered list, without the index of their area.
fn runs_of(ordered: &Vec<(usize, PixelRange)>) -> (out: Vec<PixelRange>)
    ensures
        out@.len() == ordered@.len(),
        forall|k: int| 0 <= k < out@.len() ==> #[trigger] out@[k] == ordered@[k].1,
{
    let mut out: Vec<PixelRange> = Vec::new();
    let mut i: usize = 0;
    while i < ordered.len()
        invariant
            i <= ordered@.len(),
            out@.len() == i,
            forall|k: int| 0 <= k < i ==> #[trigger] out@[k] == ordered@[k].1,
        decreases ordered@.len() - i,
    {
        out.push(ordered[i].1);
        i = i + 1;
    }
    out
}

/// The runs of an ordering of the areas hold exactly the positions some area holds.
proof fn lemma_runs_cover(areas: Seq<PixelArea>, ordered: Seq<(usize, PixelRange)>, runs: Seq<PixelRange>, p: int)
    requires
        forall|k: int| 0 <= k < ordered.len() ==> (#[trigger] ordered[k]).0 < areas.len(),
        forall|g: int| 0 <= g < areas.len() ==> #[trigger] group_ranges(ordered, g) == areas[g].pixels@,
        runs.len() == ordered.len(),
        forall|k: int| 0 <= k < runs.len() ==> #[trigger] runs[k] == ordered[k].1,
    ensures
        covers(spans(runs), p) <==> areas_cover(views(areas), p),
{
    if covers(spans(runs), p) {
        let k = choose|k: int| 0 <= k < spans(runs).len() && #[trigger] in_span(spans(runs)[k], p);
        let g = ordered[k].0 as int;
        lemma_group_ranges_member(ordered, g, k);
        let pg = areas[g].pixels@;
        let j = choose|j: int| 0 <= j < pg.len() && pg[j] == ordered[k].1;
        assert(in_span(spans(pg)[j], p));
        assert(views(areas)[g].pixels == pg);
        assert(covers(spans(views(areas)[g].pixels), p));
    }
    if areas_cover(views(areas), p) {
        let g = choose|g: int| 0 <= g < views(areas).len() && #[trigger] covers(spans(views(areas)[g].pixels), p);
        let pg = areas[g].pixels@;
        assert(views(areas)[g].pixels == pg);
        let j = choose|j: int| 0 <= j < spans(pg).len() && #[trigger] in_span(spans(pg)[j], p);
        assert(group_ranges(ordered, g)[j] == pg[j]);
        lemma_group_ranges_origin(ordered, g, j);
        let k = choose|k: int| 0 <= k < ordered.len() && (#[trigger] ordered[k]).0 == g && ordered[k].1 == group_ranges(ordered, g)[j];
        assert(in_span(spans(runs)[k], p));
    }
}

impl MaskImage {
    /// Adds the parts of `subgroups` that no shown area holds yet, as a new
    /// area; nothing happens when no part is left. Shows a hidden overlay.
    pub fn add_area(&mut self, subgroups: PixelArea)
        requires
            old(self).wf(),
            subgroups.wf(),
        ensures
            final(self).same_display(*old(self)),
            final(self).wf(),
            final(self).base() == old(self).base(),
            exists|shown: Seq<AreaView>, kept: AreaView| {
                &&& old(self).shows(shown)
                &&& is_cleared_by(subgroups@, kept, shown)
                &&& if kept.pixels.len() == 0 {
                    *final(self) == *old(self)
                } else {
                    let acts = final(self).hist().actions();
                    &&& acts.drop_last() == old(self).hist().applied()
                    &&& final(self).hist().end_spec() == acts.len()
                    &&& acts.len() > 0
                    &&& acts.last().checkpoint
                    &&& (acts.last().kind matches HistoryActionKind::Add(a) && a@ == kept)
                    &&& final(self).shows(shown.push(kept))
                    &&& final(self).redraw()
                    &&& final(self).visible() == (match old(self).visible() {
                        Some(_) => Some(true),
                        None => None,
                    })
                }
            },
    {
        self.add_area_with(subgroups, None, true);
    }

    /// As [`MaskImage::add_area`], recording the action on `layer`, as a checkpoint
    /// of undo and redo or not.
    pub fn add_area_with(&mut self, subgroups: PixelArea, layer: Option<usize>, checkpoint: bool)
        requires
            layer matches Some(i) ==> i < usize::MAX,
            old(self).wf(),
            subgroups.wf(),
        ensures
            final(self).same_display(*old(self)),
            final(self).wf(),
            final(self).base() == old(self).base(),
            exists|shown: Seq<AreaView>, kept: AreaView| {
                &&& old(self).shows(shown)
                &&& is_cleared_by(subgroups@, kept, shown)
                &&& if kept.pixels.len() == 0 {
                    *final(self) == *old(self)
                } else {
                    let acts = final(self).hist().actions();
                    &&& acts.drop_last() == old(self).hist().applied()
                    &&& final(self).hist().end_spec() == acts.len()
                    &&& acts.len() > 0
                    &&& acts.last().checkpoint == checkpoint
                    &&& acts.last().layer == layer
                    &&& (acts.last().kind matches HistoryActionKind::Add(a) && a@ == kept)
                    &&& final(self).shows(shown.push(kept))
                    &&& final(self).redraw()
                    &&& final(self).visible() == (match old(self).visible() {
                        Some(_) => Some(true),
                        None => None,
                    })
                }
            },
    {
        let shown = self.subgroups();
        let ordered = order_by_start(&shown);
        let existing = runs_of(&ordered);
        proof {
            assert forall|p: int| #![auto] covers(spans(existing@), p) <==> areas_cover(views(shown@), p) by {
                lemma_runs_cover(shown@, ordered@, existing@, p);
            }
            assert forall|k: int| 0 <= k < existing@.len() implies #[trigger] existing@[k].wf() by {
                let g = ordered@[k].0 as int;
                lemma_group_ranges_member(ordered@, g, k);
                let pg = shown@[g].pixels@;
                let j = choose|j: int| 0 <= j < pg.len() && pg[j] == ordered@[k].1;
                assert(views(shown@)[g].wf());
            }
            assert forall|i: int, j: int| 0 <= i < j < spans(existing@).len() implies #[trigger] spans(existing@)[i].0
                <= #[trigger] spans(existing@)[j].0 by {
                assert(ordered@[i].1.span().0 <= ordered@[j].1.span().0);
            }
            assert forall|i: int| 0 <= i < spans(existing@).len() implies #[trigger] spans(existing@)[i].0 < spans(existing@)[i].1 by {
                assert(existing@[i].wf());
            }
        }
        let ghost before = subgroups@;
        let mut subgroups = subgroups;
        remove_overlaps(&mut subgroups, &existing);
        let ghost kept = subgroups@;
        proof {
            assert forall|p: int| #[trigger] covers(spans(kept.pixels), p) <==> (covers(spans(before.pixels), p)
                && !areas_cover(views(shown@), p)) by {}
            assert(is_cleared_by(before, kept, views(shown@)));
        }
        if subgroups.is_empty() {
            return;
        }
        match self.texture_visible {
            Some(false) => {
                self.texture_visible = Some(true);
            },
            _ => {},
        }
        let ghost h0 = self.history;
        let action = HistoryAction { kind: HistoryActionKind::Add(subgroups), layer, checkpoint };
        self.add_history_action(action);
        proof {
            let acts = self.hist().actions();
            assert(acts.drop_last() =~= h0.applied());
            let applied = self.hist().applied();
            assert(applied =~= acts);
            assert(applies(applied.last(), views(shown@), views(shown@).push(kept)));
            assert(applies_all(applied.drop_last(), views(self.base()), views(shown@)));
        }
    }
}

impl MaskImage {
    /// Adds `subgroups` as a new area, whatever it overlaps. Shows a hidden
    /// overlay.
    pub fn add_area_overlapping(&mut self, subgroups: PixelArea)
        requires
            old(self).wf(),
            subgroups.wf(),
            non_empty(subgroups@),
        ensures
            final(self).same_display(*old(self)),
            final(self).wf(),
            final(self).base() == old(self).base(),
            ({
                let acts = final(self).hist().actions();
                &&& acts.drop_last() == old(self).hist().applied()
                &&& final(self).hist().end_spec() == acts.len()
                &&& acts.len() > 0
                &&& acts.last().checkpoint
                &&& (acts.last().kind matches HistoryActionKind::Add(a) && a@ == subgroups@)
            }),
            forall|shown: Seq<AreaView>| old(self).shows(shown) ==> final(self).shows(shown.push(subgroups@)),
            final(self).redraw(),
            final(self).visible() == (match old(self).visible() {
                Some(_) => Some(true),
                None => None,
            }),
    {
        self.add_area_overlapping_with(subgroups, None, true);
    }

    /// As [`MaskImage::add_area_overlapping`], recording the action on `layer`, as a checkpoint
    /// of undo and redo or not.
    pub fn add_area_overlapping_with(&mut self, subgroups: PixelArea, layer: Option<usize>, checkpoint: bool)
        requires
            layer matches Some(i) ==> i < usize::MAX,
            old(self).wf(),
            subgroups.wf(),
            non_empty(subgroups@),
        ensures
            final(self).same_display(*old(self)),
            final(self).wf(),
            final(self).base() == old(self).base(),
            ({
                let acts = final(self).hist().actions();
                &&& acts.drop_last() == old(self).hist().applied()
                &&& final(self).hist().end_spec() == acts.len()
                &&& acts.len() > 0
                &&& acts.last().checkpoint == checkpoint
                &&& acts.last().layer == layer
                &&& (acts.last().kind matches HistoryActionKind::Add(a) && a@ == subgroups@)
            }),
            forall|shown: Seq<AreaView>| old(self).shows(shown) ==> final(self).shows(shown.push(subgroups@)),
            final(self).redraw(),
            final(self).visible() == (match old(self).visible() {
                Some(_) => Some(true),
                None => None,
            }),
    {
        match self.texture_visible {
            Some(false) => {
                self.texture_visible = Some(true);
            },
            _ => {},
        }
        let ghost h0 = self.history;
        let ghost area = subgroups@;
        let action = HistoryAction { kind: HistoryActionKind::Add(subgroups), layer, checkpoint };
        self.add_history_action(action);
        proof {
            let acts = self.hist().actions();
            assert(acts.drop_last() =~= h0.applied());
            let applied = self.hist().applied();
            assert(applied =~= acts);
            assert forall|shown: Seq<AreaView>| h0.applied() == applied.drop_last() && applies_all(h0.applied(), views(self.base()), shown)
                implies #[trigger] applies_all(applied, views(self.base()), shown.push(area)) by {
                assert(applies(applied.last(), shown, shown.push(area)));
            }
        }
    }
}

/// Tells whether the runs of an area are well formed, in increasing order
/// and do not overlap, and whether there is one.
pub fn area_ok(a: &PixelArea) -> (b: bool)
    ensures
        b == (a@.wf() && non_empty(a@)),
{
    a.pixels.len() > 0 && runs_ok(&a.pixels)
}

/// Tells whether every area is well formed and holds a run.
pub fn areas_ok(areas: &Vec<PixelArea>) -> (b: bool)
    ensures
        b == (areas_wf(views(areas@)) && all_non_empty(views(areas@))),
{
    let mut g: usize = 0;
    while g < areas.len()
        invariant
            g <= areas@.len(),
            forall|i: int| 0 <= i < g ==> #[trigger] views(areas@)[i].wf(),
            forall|i: int| 0 <= i < g ==> #[trigger] non_empty(views(areas@)[i]),
        decreases areas@.len() - g,
    {
        if !area_ok(&areas[g]) {
            proof {
                assert(!(views(areas@)[g as int].wf() && non_empty(views(areas@)[g as int])));
            }
            return false;
        }
        g = g + 1;
    }
    true
}

/// Tells whether the runs of a clear action are well formed and ordered by
/// start.
fn clear_runs_ok(c: &Vec<PixelRange>) -> (b: bool)
    ensures
        b == crate::history::clear_ok(c@),
{
    let mut k: usize = 0;
    while k < c.len()
        invariant
            k <= c@.len(),
            forall|i: int| 0 <= i < k ==> #[trigger] c@[i].wf(),
            forall|i: int, j: int| 0 <= i < j < k ==> #[trigger] spans(c@)[i].0 <= #[trigger] spans(c@)[j].0,
        decreases c@.len() - k,
    {
        let r = c[k];
        if !(r.start() < r.end() && r.end() - r.start() <= 65535) {
            proof {
                assert(!c@[k as int].wf());
            }
            return false;
        }
        if k > 0 && c[k - 1].start() > r.start() {
            proof {
                assert(spans(c@)[k - 1].0 > spans(c@)[k as int].0);
            }
            return false;
        }
        proof {
            assert forall|i: int, j: int| 0 <= i < j < k + 1 implies #[trigger] spans(c@)[i].0 <= #[trigger] spans(c@)[j].0 by {
                if j == k && i < k - 1 {
                    assert(spans(c@)[i].0 <= spans(c@)[k - 1].0);
                }
            }
        }
        k = k + 1;
    }
    proof {
        assert forall|i: int| 0 <= i < spans(c@).len() implies #[trigger] spans(c@)[i].0 < spans(c@)[i].1 by {
            assert(c@[i].wf());
        }
    }
    true
}

/// Tells whether every action on the stack is one the mask accepts.
pub fn history_ok(history: &History) -> (b: bool)
    ensures
        b == forall|i: int| 0 <= i < history.actions().len() ==> #[trigger] mask_action_ok(history.actions()[i]),
{
    let mut i: usize = 0;
    while i < history.len()
        invariant
            i <= history.actions().len(),
            forall|k: int| 0 <= k < i ==> #[trigger] mask_action_ok(history.actions()[k]),
        decreases history.actions().len() - i,
    {
        let a = history.action_at(i);
        let layer_ok = match a.layer {
            Some(l) => l < usize::MAX,
            None => true,
        };
        let ok = layer_ok && match &a.kind {
            HistoryActionKind::Add(area) => area_ok(area),
            HistoryActionKind::Reset => true,
            HistoryActionKind::Clear(c) => clear_runs_ok(c),
        };
        if !ok {
            proof {
                assert(!mask_action_ok(history.actions()[i as int]));
            }
            return false;
        }
        i = i + 1;
    }
    true
}

impl MaskImage {
    /// A mask over the given areas and history, if they are ones the mask
    /// accepts: well-formed non-empty areas, a well-formed history of
    /// accepted actions.
    pub fn try_new(size: [usize; 2], annotations: Vec<PixelArea>, history: History) -> (m: Option<Self>)
        requires
            history.wf(),
        ensures
            m is Some <==> (areas_wf(views(annotations@)) && all_non_empty(views(annotations@))
                && forall|i: int| 0 <= i < history.actions().len() ==> #[trigger] mask_action_ok(history.actions()[i])),
            m matches Some(x) ==> x.wf() && x.base() == annotations@ && x.hist() == history,
    {
        if areas_ok(&annotations) && history_ok(&history) {
            Some(Self::new(size, annotations, history))
        } else {
            None
        }
    }

    /// The width and height of the image.
    pub fn size(&self) -> (s: [usize; 2])
        ensures
            s[0] == self.size_spec().0,
            s[1] == self.size_spec().1,
    {
        self.size
    }
}

impl MaskImage {
    /// The area drawn highlighted, if any.
    pub fn active_subgroup(&self) -> (a: Option<usize>)
        ensures
            a == self.active_spec(),
    {
        self.active_subgroup
    }

    /// Highlights the area at `index` (or none); the overlay is drawn anew
    /// when that changes.
    pub fn set_active_subgroup(&mut self, index: Option<usize>)
        requires
            old(self).wf(),
        ensures
            final(self).wf(),
            final(self).active_spec() == index,
            final(self).base() == old(self).base(),
            final(self).hist() == old(self).hist(),
            final(self).visible() == old(self).visible(),
            final(self).size_spec() == old(self).size_spec(),
            final(self).settings_spec() == old(self).settings_spec(),
            final(self).redraw() == (old(self).redraw() || index != old(self).active_spec()),
    {
        let same = match (self.active_subgroup, index) {
            (None, None) => true,
            (Some(a), Some(b)) => a == b,
            _ => false,
        };
        if !same {
            self.active_subgroup = index;
            self.texture_handle_dirty = true;
        }
    }

    /// The last shown area that holds the pixel `(x, y)` of an image
    /// `image_width` pixels wide, if any.
    pub fn active_subgroup_at(&self, pos: (usize, usize), image_width: u32) -> (r: Option<usize>)
        requires
            self.wf(),
            pos.1 * image_width + pos.0 <= usize::MAX,
        ensures
            exists|shown: Seq<AreaView>| #[trigger] self.shows(shown) && {
                let idx = pos.1 * image_width + pos.0;
                match r {
                    Some(g) => g < shown.len() && covers(spans(shown[g as int].pixels), idx)
                        && forall|h: int| g < h < shown.len() ==> !#[trigger] covers(spans(shown[h].pixels), idx),
                    None => forall|h: int| 0 <= h < shown.len() ==> !#[trigger] covers(spans(shown[h].pixels), idx),
                }
            },
    {
        let w = image_width as usize;
        let idx = pos.1 * w + pos.0;
        let shown = self.subgroups();
        let ghost sv = views(shown@);
        let mut g = shown.len();
        while g > 0
            invariant
                g <= shown@.len(),
                sv == views(shown@),
                self.shows(sv),
                idx as int == pos.1 * image_width + pos.0,
                forall|h: int| g <= h < sv.len() ==> !#[trigger] covers(spans(sv[h].pixels), idx as int),
            decreases g,
        {
            let area = &shown[g - 1];
            let mut k: usize = 0;
            while k < area.pixels.len()
                invariant
                    g >= 1,
                    g <= shown@.len(),
                    sv == views(shown@),
                    self.shows(sv),
                    idx as int == pos.1 * image_width + pos.0,
                    forall|h: int| g <= h < sv.len() ==> !#[trigger] covers(spans(sv[h].pixels), idx as int),
                    *area == shown@[g - 1],
                    k <= area.pixels@.len(),
                    forall|j: int| 0 <= j < k ==> !#[trigger] in_span(spans(area.pixels@)[j], idx as int),
                decreases area.pixels@.len() - k,
            {
                let r = area.pixels[k];
                if r.start() as usize <= idx && idx < r.end() as usize {
                    proof {
                        assert(sv[g - 1].pixels == area.pixels@);
                        assert(in_span(spans(sv[g - 1].pixels)[k as int], idx as int));
                    }
                    return Some(g - 1);
                }
                k = k + 1;
            }
            proof {
                assert(sv[g - 1].pixels == area.pixels@);
                if covers(spans(sv[g - 1].pixels), idx as int) {
                    let j = choose|j: int| 0 <= j < spans(sv[g - 1].pixels).len() && #[trigger] in_span(spans(sv[g - 1].pixels)[j], idx as int);
                    assert(in_span(spans(area.pixels@)[j], idx as int));
                }
            }
            g = g - 1;
        }
        None
    }
}

/// The layer that the last edit touched, as reported when saving.
#[derive(Debug, Clone, Copy, PartialEq, Eq)]
pub enum AffectedLayer {
    /// The edit was on all layers, or on none in particular.
    Unspecified,
    Layer(usize),
}

impl MaskImage {
    /// Whether there are edits not saved yet; if so they count as saved from
    /// now on, and the layer of the last applied action is reported (none
    /// where no action is applied).
    pub fn take_dirty(&mut self) -> (r: Option<AffectedLayer>)
        requires
            old(self).wf(),
        ensures
            final(self).same_display(*old(self)),
            final(self).wf(),
            final(self).base() == old(self).base(),
            final(self).hist().actions() == old(self).hist().actions(),
            final(self).hist().end_spec() == old(self).hist().end_spec(),
            final(self).visible() == old(self).visible(),
            final(self).redraw() == old(self).redraw(),
            ({
                let h = old(self).hist();
                let dirty = h.saved() != Some(h.end_spec());
                &&& dirty ==> final(self).hist().saved() == Some(h.end_spec())
                &&& !dirty ==> final(self).hist().saved() == h.saved()
                &&& r == if !dirty || h.end_spec() == 0 {
                    None
                } else {
                    match h.actions()[h.end_spec() - 1].layer {
                        Some(x) => Some(AffectedLayer::Layer(x)),
                        None => Some(AffectedLayer::Unspecified),
                    }
                }
            }),
    {
        if self.is_dirty() {
            self.mark_not_dirty();
            let end = self.history.end();
            if end == 0 {
                return None;
            }
            let last = self.history.applied_action(end - 1);
            Some(match last.layer {
                Some(x) => AffectedLayer::Layer(x),
                None => AffectedLayer::Unspecified,
            })
        } else {
            None
        }
    }
}

/// How the next edit of a mask is recorded: on which layer, and whether it
/// is a checkpoint of undo and redo.
#[derive(Debug, Clone, Copy, PartialEq, Eq)]
pub struct HistoryActionBuilder {
    pub layer: Option<usize>,
    pub checkpoint: bool,
}

impl HistoryActionBuilder {
    /// An edit on `layer` (or on none in particular), a checkpoint.
    pub fn on_layer(layer: Option<usize>) -> (b: Self)
        ensures
            b.layer == layer,
            b.checkpoint,
    {
        Self { layer, checkpoint: true }
    }

    /// The same edit, undone and redone together with the checkpoint before
    /// it.
    pub fn without_tracking(self) -> (b: Self)
        ensures
            b.layer == self.layer,
            !b.checkpoint,
    {
        Self { layer: self.layer, checkpoint: false }
    }

    /// The same edit on `layer`.
    pub fn with_layer(self, layer: Option<usize>) -> (b: Self)
        ensures
            b.layer == layer,
            b.checkpoint == self.checkpoint,
    {
        Self { layer, checkpoint: self.checkpoint }
    }

    /// An addition recorded this way, whole or cut down.
    pub fn keep_overlapping(self, overlapping: bool) -> (a: AddAction)
        ensures
            a.overlapping == overlapping,
            a.layer == self.layer,
            a.checkpoint == self.checkpoint,
    {
        AddAction { overlapping, layer: self.layer, checkpoint: self.checkpoint }
    }

    /// Records a reset of this layer, or of every layer.
    pub fn reset(self, mask: &mut MaskImage)
        requires
            self.layer matches Some(i) ==> i < usize::MAX,
            old(mask).wf(),
        ensures
            final(mask).wf(),
            final(mask).same_display(*old(mask)),
            final(mask).base() == old(mask).base(),
            ({
                let h0 = old(mask).hist();
                let h1 = final(mask).hist();
                let a = HistoryAction { kind: HistoryActionKind::Reset, layer: self.layer, checkpoint: self.checkpoint };
                if h0.end_spec() > 0 && h0.actions()[h0.end_spec() - 1].kind is Reset
                    && h0.actions()[h0.end_spec() - 1].layer == self.layer {
                    h1 == h0
                } else {
                    &&& h1.actions() == h0.applied().push(a)
                    &&& h1.end_spec() == h1.actions().len()
                }
            }),
    {
        mask.add_history_action(HistoryAction { kind: HistoryActionKind::Reset, layer: self.layer, checkpoint: self.checkpoint });
    }

    /// Records the clearing of `ranges` from this layer, or from every layer.
    pub fn clear(self, mask: &mut MaskImage, ranges: Vec<PixelRange>)
        requires
            self.layer matches Some(i) ==> i < usize::MAX,
            old(mask).wf(),
            all_wf(ranges@),
            sorted_by_start(spans(ranges@)),
        ensures
            final(mask).wf(),
            final(mask).same_display(*old(mask)),
            final(mask).base() == old(mask).base(),
            ({
                let h0 = old(mask).hist();
                let h1 = final(mask).hist();
                let a = HistoryAction { kind: HistoryActionKind::Clear(ranges), layer: self.layer, checkpoint: self.checkpoint };
                &&& h1.actions() == h0.applied().push(a)
                &&& h1.end_spec() == h1.actions().len()
            }),
    {
        mask.add_history_action(HistoryAction { kind: HistoryActionKind::Clear(ranges), layer: self.layer, checkpoint: self.checkpoint });
    }
}

/// How a new area is added: whole, or only its parts that no shown area
/// holds yet; on which layer, and whether as a checkpoint.
#[derive(Debug, Clone, Copy, PartialEq, Eq)]
pub struct AddAction {
    pub overlapping: bool,
    pub layer: Option<usize>,
    pub checkpoint: bool,
}

impl AddAction {
    /// An addition on no layer in particular, as a checkpoint.
    pub fn keep_overlapping(overlapping: bool) -> (a: Self)
        ensures
            a.overlapping == overlapping,
            a.layer is None,
            a.checkpoint,
    {
        Self { overlapping, layer: None, checkpoint: true }
    }

    /// Adds `subgroups` to the mask the way this action says: whole with
    /// [`MaskImage::add_area_overlapping_with`], or cut down with
    /// [`MaskImage::add_area_with`], on the action's layer. An area added
    /// whole holds a pixel, as every area that the history records does; cut
    /// down to nothing, an area adds no action.
    pub fn add(self, mask: &mut MaskImage, subgroups: PixelArea)
        requires
            self.layer matches Some(i) ==> i < usize::MAX,
            old(mask).wf(),
            subgroups.wf(),
            self.overlapping ==> non_empty(subgroups@),
        ensures
            final(mask).same_display(*old(mask)),
            final(mask).wf(),
            final(mask).base() == old(mask).base(),
            self.overlapping ==> pushed_add(*old(mask), *final(mask), subgroups@, self.layer, self.checkpoint),
            self.overlapping ==> forall|shown: Seq<AreaView>| old(mask).shows(shown)
                ==> final(mask).shows(shown.push(subgroups@)),
            !self.overlapping ==> exists|shown: Seq<AreaView>, kept: AreaView| {
                &&& old(mask).shows(shown)
                &&& is_cleared_by(subgroups@, kept, shown)
                &&& if kept.pixels.len() == 0 {
                    *final(mask) == *old(mask)
                } else {
                    &&& pushed_add(*old(mask), *final(mask), kept, self.layer, self.checkpoint)
                    &&& final(mask).shows(shown.push(kept))
                }
            },
    {
        if self.overlapping {
            mask.add_area_overlapping_with(subgroups, self.layer, self.checkpoint);
        } else {
            mask.add_area_with(subgroups, self.layer, self.checkpoint);
        }
    }
}

/// One run of `width` pixels per row `y` from `y_top` to `y_bottom`, starting
/// at `y * image_width + x_left`, of full confidence.
pub fn row_runs(x_left: u32, width: u16, y_top: u32, y_bottom: u32, image_width: u32) -> (out: Vec<PixelRange>)
    requires
        width >= 1,
        image_width >= 1,
        y_top <= y_bottom ==> y_bottom * image_width + x_left + width <= u32::MAX,
    ensures
        out@.len() == if y_top <= y_bottom { y_bottom - y_top + 1 } else { 0 },
        all_wf(out@),
        sorted_by_start(spans(out@)),
        forall|i: int| 0 <= i < out@.len() ==> (#[trigger] out@[i]).conf() == 255
            && out@[i].span() == (((y_top + i) * image_width + x_left) as u32, ((y_top + i) * image_width + x_left + width) as u32),
{
    let mut out: Vec<PixelRange> = Vec::new();
    if y_top > y_bottom {
        return out;
    }
    let mut y: u32 = y_top;
    loop
        invariant_except_break
            out@.len() == y - y_top,
        invariant
            width >= 1,
            image_width >= 1,
            y_bottom * image_width + x_left + width <= u32::MAX,
            y_top <= y <= y_bottom,
            all_wf(out@),
            forall|i: int| 0 <= i < out@.len() ==> (#[trigger] out@[i]).conf() == 255
                && out@[i].span() == (((y_top + i) * image_width + x_left) as u32, ((y_top + i) * image_width + x_left + width) as u32),
        ensures
            out@.len() == y_bottom - y_top + 1,
            all_wf(out@),
            forall|i: int| 0 <= i < out@.len() ==> (#[trigger] out@[i]).conf() == 255
                && out@[i].span() == (((y_top + i) * image_width + x_left) as u32, ((y_top + i) * image_width + x_left + width) as u32),
        decreases y_bottom - y,
    {
        proof {
            assert(y * image_width <= y_bottom * image_width) by (nonlinear_arith)
                requires
                    y <= y_bottom,
            ;
        }
        let r = PixelRange::new_total(y * image_width + x_left, width);
        let ghost out0 = out@;
        out.push(r);
        proof {
            assert forall|i: int| 0 <= i < out@.len() implies (#[trigger] out@[i]).conf() == 255
                && out@[i].span() == (((y_top + i) * image_width + x_left) as u32, ((y_top + i) * image_width + x_left + width) as u32) by {
                if i < out0.len() {
                    assert(out@[i] == out0[i]);
                }
            }
        }
        if y == y_bottom {
            break;
        }
        y = y + 1;
    }
    proof {
        let s = spans(out@);
        assert forall|i: int| 0 <= i < s.len() implies #[trigger] s[i].0 < s[i].1 by {
            assert(out@[i].wf());
        }
        assert forall|i: int, j: int| 0 <= i < j < s.len() implies #[trigger] s[i].0 <= #[trigger] s[j].0 by {
            let a = y_top + i;
            let b = y_top + j;
            assert(a * image_width <= b * image_width) by (nonlinear_arith)
                requires
                    a < b,
            ;
            assert(b * image_width <= y_bottom * image_width) by (nonlinear_arith)
                requires
                    b <= y_bottom,
            ;
        }
    }
    out
}

impl MaskImage {
    /// Clears the rectangle `[x_top, x_bottom] x [y_top, y_bottom]` from every
    /// area. Coordinates are taken as `u32` and the width as `u16`, wrapping
    /// as casts do; the width must not wrap to zero, the image width must not
    /// be zero and every position must fit `u32`.
    pub fn clear_rect(&mut self, bounds: [[usize; 2]; 2])
        requires
            old(self).wf(),
            (bounds[0][0] as u32) <= (bounds[1][0] as u32),
            (bounds[1][0] as u32) - (bounds[0][0] as u32) + 1 <= u32::MAX,
            (((bounds[1][0] as u32) - (bounds[0][0] as u32) + 1) as u16) != 0,
            (old(self).size_spec().0 as u32) > 0,
            (bounds[0][1] as u32) <= (bounds[1][1] as u32) ==> (bounds[1][1] as u32) * (old(self).size_spec().0 as u32)
                + (bounds[0][0] as u32) + (((bounds[1][0] as u32) - (bounds[0][0] as u32) + 1) as u16) <= u32::MAX,
        ensures
            final(self).visible() == old(self).visible(),
            final(self).same_display(*old(self)),
            final(self).wf(),
            final(self).base() == old(self).base(),
            final(self).redraw(),
            ({
                let h0 = old(self).hist();
                let h1 = final(self).hist();
                let acts = h1.actions();
                &&& acts.drop_last() == h0.applied()
                &&& h1.end_spec() == acts.len()
                &&& acts.len() > 0
                &&& acts.last().checkpoint
                &&& (acts.last().kind matches HistoryActionKind::Clear(region) && {
                    let xl = bounds[0][0] as u32;
                    let w = ((bounds[1][0] as u32) - xl + 1) as u16;
                    let yt = bounds[0][1] as u32;
                    let yb = bounds[1][1] as u32;
                    let iw = old(self).size_spec().0 as u32;
                    &&& region@.len() == if yt <= yb { yb - yt + 1 } else { 0 }
                    &&& forall|i: int| 0 <= i < region@.len() ==> (#[trigger] region@[i]).conf() == 255
                        && region@[i].span() == (((yt + i) * iw + xl) as u32, ((yt + i) * iw + xl + w) as u32)
                })
            }),
    {
        let x_left = bounds[0][0] as u32;
        let x_right = bounds[1][0] as u32;
        let x_width = (x_right - x_left + 1) as u16;
        let y_top = bounds[0][1] as u32;
        let y_bottom = bounds[1][1] as u32;
        let image_width = self.size[0] as u32;
        let region = row_runs(x_left, x_width, y_top, y_bottom, image_width);
        let ghost h0 = self.history;
        let ghost r = region@;
        self.add_history_action(HistoryAction { kind: HistoryActionKind::Clear(region), layer: None, checkpoint: true });
        proof {
            assert(self.hist().actions().drop_last() =~= h0.applied());
        }
    }
}

} // verus!
