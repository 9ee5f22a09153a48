//! The history of mask edits: a stack of actions with undo and redo.
//!
//! The base areas are never changed; the areas shown are the base with the
//! applied actions folded over it, so undo only moves the end of the applied
//! part of the stack.
use crate::intervals::{covers, nested_in, sorted_by_start, split_only_at_ends};
use crate::pixel_range::{all_wf, remove_overlaps, spans, AreaView, PixelArea, PixelRange};
use vstd::prelude::*;

verus! {

/// What an action does to the list of areas.
#[derive(Debug, Clone, PartialEq, Eq)]
pub enum HistoryActionKind {
    /// Appends an area.
    Add(PixelArea),
    /// Removes every area.
    Reset,
    /// Removes the given runs from every area and drops areas left empty.
    Clear(Vec<PixelRange>),
}

/// An action of the history, on one layer or on all of them. Only
/// checkpoints are stops for undo and redo; other actions are undone and
/// redone together with the checkpoint before them.
#[derive(Debug, Clone, PartialEq, Eq)]
pub struct HistoryAction {
    pub kind: HistoryActionKind,
    pub layer: Option<usize>,
    pub checkpoint: bool,
}

/// `after` is `before` without the positions of `cleared`: the same colour,
/// runs of full confidence that are parts of the runs of `before`, split only
/// where `before` is split.
pub open spec fn is_cleared(before: AreaView, after: AreaView, cleared: Seq<PixelRange>) -> bool {
    &&& after.wf()
    &&& after.color == before.color
    &&& nested_in(spans(after.pixels), spans(before.pixels))
    &&& split_only_at_ends(spans(after.pixels), spans(before.pixels))
    &&& forall|p: int|
        #[trigger] covers(spans(after.pixels), p) <==> (covers(spans(before.pixels), p) && !covers(spans(cleared), p))
    &&& forall|i: int| 0 <= i < after.pixels.len() ==> #[trigger] after.pixels[i].conf() == 255
}

/// The area still holds a run.
pub open spec fn non_empty(a: AreaView) -> bool {
    a.pixels.len() > 0
}

/// Every area is well formed.
pub open spec fn areas_wf(areas: Seq<AreaView>) -> bool {
    forall|i: int| 0 <= i < areas.len() ==> #[trigger] areas[i].wf()
}

/// What each area of a list is.
pub open spec fn views(areas: Seq<PixelArea>) -> Seq<AreaView> {
    Seq::new(areas.len(), |i: int| areas[i]@)
}

/// The runs of a clear action can be subtracted: well formed and ordered by start.
pub open spec fn clear_ok(cleared: Seq<PixelRange>) -> bool {
    all_wf(cleared) && sorted_by_start(spans(cleared))
}

/// An action that applies to well-formed areas: added areas are well formed,
/// cleared runs ordered by start.
pub open spec fn action_ok(a: HistoryAction) -> bool {
    match a.kind {
        HistoryActionKind::Add(area) => area@.wf(),
        HistoryActionKind::Reset => true,
        HistoryActionKind::Clear(c) => clear_ok(c@),
    }
}

/// `out` is what the action makes of `rest`.
pub open spec fn applies(a: HistoryAction, rest: Seq<AreaView>, out: Seq<AreaView>) -> bool {
    match a.kind {
        HistoryActionKind::Add(area) => out == rest.push(area@),
        HistoryActionKind::Reset => out.len() == 0,
        HistoryActionKind::Clear(c) => exists|each: Seq<AreaView>|
            each.len() == rest.len()
                && (forall|i: int| 0 <= i < rest.len() ==> is_cleared(rest[i], #[trigger] each[i], c@))
                && out == each.filter(|x: AreaView| non_empty(x)),
    }
}

/// `out` is `base` with the actions applied in order.
pub open spec fn applies_all(actions: Seq<HistoryAction>, base: Seq<AreaView>, out: Seq<AreaView>) -> bool
    decreases actions.len(),
{
    if actions.len() == 0 {
        out == base
    } else {
        exists|mid: Seq<AreaView>|
            applies_all(actions.drop_last(), base, mid) && #[trigger] applies(actions.last(), mid, out)
    }
}

/// The area without the positions of `cleared`.
fn clear_area(before: &PixelArea, cleared: &Vec<PixelRange>) -> (after: PixelArea)
    requires
        before.wf(),
        clear_ok(cleared@),
    ensures
        is_cleared(before@, after@, cleared@),
{
    let mut area = before.duplicate();
    remove_overlaps(&mut area, cleared);
    area
}

impl HistoryAction {
    /// What the action makes of the list of areas.
    pub fn apply(&self, rest: Vec<PixelArea>) -> (out: Vec<PixelArea>)
        requires
            action_ok(*self),
            areas_wf(views(rest@)),
        ensures
            applies(*self, views(rest@), views(out@)),
            areas_wf(views(out@)),
    {
        let mut rest = rest;
        match &self.kind {
            HistoryActionKind::Add(s) => {
                let ghost before = views(rest@);
                rest.push(s.duplicate());
                proof {
                    assert(views(rest@) =~= before.push(s@));
                }
                rest
            },
            HistoryActionKind::Reset => {
                rest.clear();
                proof {
                    assert(views(rest@) =~= Seq::<AreaView>::empty());
                }
                rest
            },
            HistoryActionKind::Clear(s) => {
                let ghost c = s@;
                let mut out: Vec<PixelArea> = Vec::new();
                let ghost mut each: Seq<AreaView> = Seq::empty();
                let mut i: usize = 0;
                while i < rest.len()
                    invariant
                        clear_ok(c),
                        c == s@,
                        areas_wf(views(rest@)),
                        i <= rest@.len(),
                        each.len() == i,
                        forall|k: int| 0 <= k < i ==> is_cleared(views(rest@)[k], #[trigger] each[k], c),
                        views(out@) == each.filter(|x: AreaView| non_empty(x)),
                        areas_wf(views(out@)),
                    decreases rest@.len() - i,
                {
                    assert(views(rest@)[i as int].wf());
                    let area = clear_area(&rest[i], s);
                    let ghost each0 = each;
                    let ghost out0 = views(out@);
                    proof {
                        each = each.push(area@);
                        reveal(Seq::filter);
                        assert(each.drop_last() =~= each0);
                        assert forall|k: int| 0 <= k < i + 1 implies is_cleared(views(rest@)[k], #[trigger] each[k], c) by {
                            if k < i {
                                assert(each[k] == each0[k]);
                            }
                        }
                    }
                    if area.pixels.len() > 0 {
                        out.push(area);
                        proof {
                            assert(views(out@) =~= out0.push(each.last()));
                        }
                    }
                    i = i + 1;
                }
                proof {
                    assert(views(rest@) =~= views(rest@).take(i as int));
                }
                out
            },
        }
    }
}

fn same_layer(a: Option<usize>, b: Option<usize>) -> (r: bool)
    ensures
        r == (a == b),
{
    match (a, b) {
        (None, None) => true,
        (Some(x), Some(y)) => x == y,
        _ => false,
    }
}

/// The index of the last checkpoint before `end`.
pub open spec fn last_checkpoint_before(actions: Seq<HistoryAction>, end: int) -> Option<int>
    decreases end,
{
    if end <= 0 {
        None
    } else if actions[end - 1].checkpoint {
        Some(end - 1)
    } else {
        last_checkpoint_before(actions, end - 1)
    }
}

/// The index of the first checkpoint at or after `start`.
pub open spec fn first_checkpoint_from(actions: Seq<HistoryAction>, start: int) -> Option<int>
    decreases actions.len() - start,
{
    if start < 0 || start >= actions.len() {
        None
    } else if actions[start].checkpoint {
        Some(start)
    } else {
        first_checkpoint_from(actions, start + 1)
    }
}

/// Where redo of the checkpoint at `t` ends: before the next checkpoint
/// action, or at the end of the stack.
pub open spec fn redo_end(actions: Seq<HistoryAction>, t: int) -> int {
    match first_checkpoint_from(actions, t + 1) {
        Some(n) => n,
        None => actions.len() as int,
    }
}

proof fn lemma_first_checkpoint_bounds(actions: Seq<HistoryAction>, start: int)
    requires
        0 <= start,
    ensures
        first_checkpoint_from(actions, start) matches Some(t) ==> start <= t < actions.len() && actions[t].checkpoint
            && forall|k: int| start <= k < t ==> !#[trigger] actions[k].checkpoint,
        first_checkpoint_from(actions, start) is None ==> forall|k: int|
            start <= k < actions.len() ==> !#[trigger] actions[k].checkpoint,
    decreases actions.len() - start,
{
    if start < actions.len() && !actions[start].checkpoint {
        lemma_first_checkpoint_bounds(actions, start + 1);
    }
}

proof fn lemma_last_checkpoint_bounds(actions: Seq<HistoryAction>, end: int)
    requires
        end <= actions.len(),
    ensures
        last_checkpoint_before(actions, end) matches Some(t) ==> 0 <= t < end && actions[t].checkpoint
            && forall|k: int| t < k < end ==> !#[trigger] actions[k].checkpoint,
        last_checkpoint_before(actions, end) is None ==> forall|k: int|
            0 <= k < end ==> !#[trigger] actions[k].checkpoint,
    decreases end,
{
    if end > 0 && !actions[end - 1].checkpoint {
        lemma_last_checkpoint_bounds(actions, end - 1);
    }
}

proof fn lemma_first_checkpoint_skip(actions: Seq<HistoryAction>, start: int, next: int)
    requires
        0 <= start <= next,
        forall|k: int| start <= k < next && k < actions.len() ==> !#[trigger] actions[k].checkpoint,
    ensures
        first_checkpoint_from(actions, start) == first_checkpoint_from(actions, next),
    decreases next - start,
{
    if start < next && start < actions.len() {
        lemma_first_checkpoint_skip(actions, start + 1, next);
    }
}

proof fn lemma_last_checkpoint_skip(actions: Seq<HistoryAction>, end: int, from: int)
    requires
        0 <= from <= end,
        forall|k: int| from <= k < end ==> !#[trigger] actions[k].checkpoint,
    ensures
        last_checkpoint_before(actions, end) == last_checkpoint_before(actions, from),
    decreases end - from,
{
    if from < end {
        lemma_last_checkpoint_skip(actions, end - 1, from);
    }
}

/// A stack of actions, the number of applied ones and the position that was
/// last saved.
pub struct History {
    actions: Vec<HistoryAction>,
    end: usize,
    not_dirty_pos: Option<usize>,
}

impl Default for History {
    fn default() -> (h: Self)
        ensures
            h.wf(),
            h.actions().len() == 0,
            h.end_spec() == 0,
            h.saved() == Some(0int),
    {
        Self { actions: Vec::new(), end: 0, not_dirty_pos: Some(0) }
    }
}

impl History {
    pub closed spec fn actions(&self) -> Seq<HistoryAction> {
        self.actions@
    }

    /// How many actions of the stack are applied.
    pub closed spec fn end_spec(&self) -> int {
        self.end as int
    }

    /// The number of applied actions that was last saved, if any.
    pub closed spec fn saved(&self) -> Option<int> {
        match self.not_dirty_pos {
            Some(p) => Some(p as int),
            None => None,
        }
    }

    /// The applied part of the stack ends either at its top or right before a
    /// checkpoint.
    pub open spec fn wf(&self) -> bool {
        &&& 0 <= self.end_spec() <= self.actions().len()
        &&& self.end_spec() < self.actions().len() ==> self.actions()[self.end_spec()].checkpoint
    }

    /// The applied actions, in order.
    pub open spec fn applied(&self) -> Seq<HistoryAction> {
        self.actions().take(self.end_spec())
    }

    /// The number of applied actions.
    pub fn end(&self) -> (e: usize)
        ensures
            e == self.end_spec(),
    {
        self.end
    }

    /// The number of actions on the stack, applied or undone.
    pub fn len(&self) -> (n: usize)
        ensures
            n == self.actions().len(),
    {
        self.actions.len()
    }

    /// The applied action at `i`.
    pub fn applied_action(&self, i: usize) -> (a: &HistoryAction)
        requires
            i < self.end_spec(),
            self.wf(),
        ensures
            *a == self.applied()[i as int],
    {
        &self.actions[i]
    }

    /// The action at `i` of the stack, applied or undone.
    pub fn action_at(&self, i: usize) -> (a: &HistoryAction)
        requires
            i < self.actions().len(),
        ensures
            *a == self.actions()[i as int],
    {
        &self.actions[i]
    }

    /// A seed that changes with the number of applied actions.
    pub fn random_seed(&self) -> (s: u16)
        ensures
            s == self.end_spec() % 65536,
    {
        let e: usize = self.end;
        proof {
            assert((e as u16) == e % 65536) by (bit_vector);
        }
        e as u16
    }

    /// The applied actions differ from those last saved.
    pub fn is_dirty(&self) -> (b: bool)
        ensures
            b == (self.saved() != Some(self.end_spec())),
    {
        match self.not_dirty_pos {
            Some(p) => p != self.end,
            None => true,
        }
    }

    pub fn mark_not_dirty(&mut self)
        ensures
            final(self).actions() == old(self).actions(),
            final(self).end_spec() == old(self).end_spec(),
            final(self).saved() == Some(old(self).end_spec()),
    {
        self.not_dirty_pos = Some(self.end);
    }

    /// Drops the undone actions and puts `new_action` on top, unless it and
    /// the last applied action both reset the same layer (or all of them).
    pub fn push(&mut self, new_action: HistoryAction)
        requires
            old(self).wf(),
        ensures
            final(self).wf(),
            steps_to(*old(self), HistoryStep::Push(new_action), *final(self)),
            ({
                let deduped = old(self).end_spec() > 0
                    && old(self).actions()[old(self).end_spec() - 1].kind is Reset
                    && new_action.kind is Reset
                    && old(self).actions()[old(self).end_spec() - 1].layer == new_action.layer;
                if deduped {
                    *final(self) == *old(self)
                } else {
                    &&& final(self).actions() == old(self).applied().push(new_action)
                    &&& final(self).end_spec() == final(self).actions().len()
                    &&& final(self).saved() == (match old(self).saved() {
                        Some(p) => if p > old(self).end_spec() { None } else { Some(p) },
                        None => None,
                    })
                    &&& final(self).saved() != Some(final(self).end_spec())
                }
            }),
    {
        if self.end > 0 {
            let last = &self.actions[self.end - 1];
            let both_reset = match (&last.kind, &new_action.kind) {
                (HistoryActionKind::Reset, HistoryActionKind::Reset) => same_layer(last.layer, new_action.layer),
                _ => false,
            };
            if both_reset {
                return;
            }
        }
        match self.not_dirty_pos {
            Some(pos) => {
                if pos > self.end {
                    self.not_dirty_pos = None;
                }
            },
            None => {},
        }
        self.actions.truncate(self.end);
        self.actions.push(new_action);
        self.end = self.actions.len();
    }

    /// Redoes the next checkpoint and the other actions after it.
    pub fn redo(&mut self) -> (r: Option<&HistoryAction>)
        requires
            old(self).wf(),
        ensures
            final(self).wf(),
            steps_to(*old(self), HistoryStep::Move, *final(self)),
            final(self).actions() == old(self).actions(),
            final(self).saved() == old(self).saved(),
            match first_checkpoint_from(old(self).actions(), old(self).end_spec()) {
                None => r is None && final(self).end_spec() == old(self).end_spec(),
                Some(t) => r == Some(&old(self).actions()[t])
                    && final(self).end_spec() == redo_end(old(self).actions(), t),
            },
    {
        let ghost acts = self.actions@;
        let n = self.actions.len();
        let mut t = self.end;
        proof {
            lemma_first_checkpoint_bounds(acts, self.end as int);
        }
        while t < n && !self.actions[t].checkpoint
            invariant
                self.actions@ == acts,
                n == acts.len(),
                self.end <= t <= n,
                forall|k: int| self.end <= k < t ==> !#[trigger] acts[k].checkpoint,
            decreases n - t,
        {
            t = t + 1;
        }
        proof {
            lemma_first_checkpoint_skip(acts, self.end as int, t as int);
        }
        if t >= n {
            return None;
        }
        let mut new_end = t + 1;
        proof {
            lemma_first_checkpoint_bounds(acts, t + 1);
        }
        while new_end < n && !self.actions[new_end].checkpoint
            invariant
                self.actions@ == acts,
                n == acts.len(),
                t < new_end <= n,
                forall|k: int| t + 1 <= k < new_end ==> !#[trigger] acts[k].checkpoint,
            decreases n - new_end,
        {
            new_end = new_end + 1;
        }
        proof {
            lemma_first_checkpoint_skip(acts, t + 1, new_end as int);
        }
        self.end = new_end;
        Some(&self.actions[t])
    }

    /// Undoes the last checkpoint and the other actions after it.
    pub fn undo(&mut self) -> (r: Option<&HistoryAction>)
        requires
            old(self).wf(),
        ensures
            final(self).wf(),
            steps_to(*old(self), HistoryStep::Move, *final(self)),
            final(self).actions() == old(self).actions(),
            final(self).saved() == old(self).saved(),
            match last_checkpoint_before(old(self).actions(), old(self).end_spec()) {
                None => r is None && final(self).end_spec() == old(self).end_spec(),
                Some(t) => r == Some(&old(self).actions()[t]) && final(self).end_spec() == t,
            },
    {
        let ghost acts = self.actions@;
        let mut t = self.end;
        proof {
            lemma_last_checkpoint_bounds(acts, self.end as int);
        }
        while t > 0 && !self.actions[t - 1].checkpoint
            invariant
                self.actions@ == acts,
                self.end <= acts.len(),
                t <= self.end,
                forall|k: int| t <= k < self.end ==> !#[trigger] acts[k].checkpoint,
            decreases t,
        {
            t = t - 1;
        }
        proof {
            lemma_last_checkpoint_skip(acts, self.end as int, t as int);
        }
        if t == 0 {
            return None;
        }
        self.end = t - 1;
        Some(&self.actions[t - 1])
    }
}

/// Undo followed by redo restores the applied actions: redo gives back the
/// action that undo gave and ends where undo started.
pub proof fn lemma_undo_then_redo(actions: Seq<HistoryAction>, end: int)
    requires
        0 <= end <= actions.len(),
        end < actions.len() ==> actions[end].checkpoint,
        last_checkpoint_before(actions, end) is Some,
    ensures
        ({
            let t = last_checkpoint_before(actions, end)->0;
            first_checkpoint_from(actions, t) == Some(t) && redo_end(actions, t) == end
        }),
{
    lemma_last_checkpoint_bounds(actions, end);
    let t = last_checkpoint_before(actions, end)->0;
    lemma_first_checkpoint_skip(actions, t + 1, end);
}

/// Redo followed by undo restores the applied actions: undo gives back the
/// action that redo gave and ends where redo started.
pub proof fn lemma_redo_then_undo(actions: Seq<HistoryAction>, end: int)
    requires
        0 <= end <= actions.len(),
        end < actions.len() ==> actions[end].checkpoint,
        first_checkpoint_from(actions, end) is Some,
    ensures
        ({
            let t = first_checkpoint_from(actions, end)->0;
            t == end && last_checkpoint_before(actions, redo_end(actions, t)) == Some(t)
        }),
{
    lemma_first_checkpoint_bounds(actions, end);
    let t = first_checkpoint_from(actions, end)->0;
    lemma_first_checkpoint_bounds(actions, t + 1);
    let e = redo_end(actions, t);
    lemma_last_checkpoint_skip(actions, e, t + 1);
}

/// Undo right after pushing a checkpoint action takes back exactly that
/// action: it ends where the applied actions ended before the push, and gives
/// back the pushed action.
pub proof fn lemma_push_then_undo(applied: Seq<HistoryAction>, a: HistoryAction)
    requires
        a.checkpoint,
    ensures
        last_checkpoint_before(applied.push(a), applied.len() + 1int) == Some(applied.len() as int),
        applied.push(a)[applied.len() as int] == a,
        applied.push(a).take(applied.len() as int) == applied,
{
    assert(applied.push(a).take(applied.len() as int) =~= applied);
}

/// One edit of a history: an action pushed, or the applied end moved by an
/// undo or a redo.
pub enum HistoryStep {
    Push(HistoryAction),
    Move,
}

/// `h1` is what the step makes of `h0`: a pushed action replaces the actions
/// after the applied ones and forgets a saved point above the applied end, or
/// is merged away; a move keeps the actions and the saved point.
pub open spec fn steps_to(h0: History, step: HistoryStep, h1: History) -> bool {
    &&& h1.wf()
    &&& match step {
        HistoryStep::Push(a) => h1 == h0 || {
            &&& h1.actions() == h0.applied().push(a)
            &&& h1.end_spec() == h1.actions().len()
            &&& h1.saved() == match h0.saved() {
                Some(p) => if p > h0.end_spec() { None } else { Some(p) },
                None => None,
            }
        },
        HistoryStep::Move => h1.actions() == h0.actions() && h1.saved() == h0.saved(),
    }
}

/// Step `i` of a run pushed an action, not merged away, while fewer than
/// `p` actions were applied.
pub open spec fn pushed_below(hs: Seq<History>, steps: Seq<HistoryStep>, p: int, i: int) -> bool {
    steps[i] is Push && hs[i + 1] != hs[i] && hs[i].end_spec() < p
}

/// The states of a run of steps: `hs[i + 1]` is what step `i` makes of `hs[i]`.
pub open spec fn is_run(hs: Seq<History>, steps: Seq<HistoryStep>) -> bool {
    &&& hs.len() == steps.len() + 1
    &&& hs[0].wf()
    &&& forall|i: int| 0 <= i < steps.len() ==> #[trigger] steps_to(hs[i], steps[i], hs[i + 1])
}

proof fn lemma_saved_point_prefix(hs: Seq<History>, steps: Seq<HistoryStep>, k: int)
    requires
        is_run(hs, steps),
        hs[0].saved() == Some(hs[0].end_spec()),
        0 <= k < hs.len(),
    ensures
        ({
            let p = hs[0].end_spec();
            let h = hs[k];
            ||| h.saved() == Some(p) && h.actions().take(p) == hs[0].applied() && p <= h.actions().len()
                && forall|i: int| 0 <= i < k ==> !pushed_below(hs, steps, p, i)
            ||| h.saved() is None && exists|i: int| 0 <= i < k && pushed_below(hs, steps, p, i)
        }),
    decreases k,
{
    let p = hs[0].end_spec();
    if k > 0 {
        lemma_saved_point_prefix(hs, steps, k - 1);
        let j = k - 1;
        assert(steps_to(hs[j], steps[j], hs[j + 1]));
        if j > 0 {
            let jj = j - 1;
            assert(steps_to(hs[jj], steps[jj], hs[jj + 1]));
            assert(hs[jj + 1] == hs[j]);
        }
        let h0 = hs[j];
        let h1 = hs[k];
        assert(hs[j + 1] == h1);
        assert(h0.wf());
        if h0.saved() == Some(p) && h0.actions().take(p) == hs[0].applied() && p <= h0.actions().len()
            && forall|i: int| 0 <= i < k - 1 ==> !pushed_below(hs, steps, p, i) {
            match steps[k - 1] {
                HistoryStep::Push(a) => {
                    if h1 == h0 {
                        assert(!pushed_below(hs, steps, p, k - 1));
                    } else if h0.end_spec() < p {
                        assert(pushed_below(hs, steps, p, k - 1));
                    } else {
                        assert(p <= h0.end_spec());
                        assert forall|m: int| 0 <= m < p implies h1.actions().take(p)[m] == h0.actions().take(p)[m] by {
                            assert(h1.actions()[m] == h0.applied()[m]);
                        }
                        assert(h1.actions().take(p) =~= h0.actions().take(p));
                        assert(!pushed_below(hs, steps, p, k - 1));
                    }
                },
                HistoryStep::Move => {
                    assert(!pushed_below(hs, steps, p, k - 1));
                },
            }
        } else {
            let i0 = choose|i: int| 0 <= i < k - 1 && pushed_below(hs, steps, p, i);
            assert(pushed_below(hs, steps, p, i0));
        }
    }
}

/// After a save, a history is clean again exactly when the applied actions
/// are those that were saved and no push, while fewer actions than saved were
/// applied, has replaced the saved ones.
pub proof fn lemma_clean_after_save(hs: Seq<History>, steps: Seq<HistoryStep>)
    requires
        is_run(hs, steps),
        hs[0].saved() == Some(hs[0].end_spec()),
    ensures
        (hs.last().saved() == Some(hs.last().end_spec())) <==> (hs.last().applied() == hs[0].applied()
            && forall|i: int| 0 <= i < steps.len() ==> !pushed_below(hs, steps, hs[0].end_spec(), i)),
{
    let k = hs.len() - 1;
    lemma_saved_point_prefix(hs, steps, k);
    let h = hs[k];
    let p = hs[0].end_spec();
    if k > 0 {
        let j = k - 1;
        assert(steps_to(hs[j], steps[j], hs[j + 1]));
        assert(hs[j + 1] == h);
    }
    assert(h.wf());
    if h.applied() == hs[0].applied() {
        assert(h.applied().len() == h.end_spec());
    }
    if h.saved() == Some(p) && h.actions().take(p) == hs[0].applied() && h.end_spec() == p {
        assert(h.applied() == hs[0].applied());
    }
}

} // verus!
