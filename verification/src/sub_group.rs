//! Pixel runs with an association to another group, and annotations made of them.
use crate::intervals::{all_nonempty, covers, nested_in, sorted_by_start, sorted_disjoint, split_only_at_ends, subtract_sorted};
use vstd::prelude::*;

verus! {

/// A run of `length` pixels starting at `position`.
#[derive(Debug, Clone, Copy, PartialEq, Eq, PartialOrd, Ord)]
pub struct SubGroup {
    pub position: u32,
    pub length: u16,
    /// 255 means no other group is associated with these positions.
    pub association: u8,
}

/// The half-open intervals of a list of sub groups.
pub open spec fn sub_spans(v: Seq<SubGroup>) -> Seq<(u32, u32)> {
    Seq::new(v.len(), |i: int| v[i].span())
}

/// Every sub group of `v` is well formed.
pub open spec fn all_sub_wf(v: Seq<SubGroup>) -> bool {
    forall|i: int| 0 <= i < v.len() ==> #[trigger] v[i].wf()
}

impl SubGroup {
    /// The run is non-empty and its end fits in `u32`.
    pub open spec fn wf(self) -> bool {
        self.length >= 1 && self.position + self.length <= u32::MAX
    }

    /// The run as a half-open interval.
    pub open spec fn span(self) -> (u32, u32) {
        (self.position, (self.position + self.length) as u32)
    }

    pub fn new(position: u32, length: u16, association: u8) -> (g: Self)
        ensures
            g == (SubGroup { position, length, association }),
    {
        Self { position, length, association }
    }

    pub fn new_total(position: u32, length: u16) -> (g: Self)
        ensures
            g == (SubGroup { position, length, association: 255 }),
    {
        Self { position, length, association: 255 }
    }

    /// The positions of the sub group; its end must fit `usize`, as a `u32`
    /// position and a `u16` length always do in a 64-bit `usize`.
    pub fn as_range(&self) -> (r: std::ops::Range<usize>)
        requires
            self.position + self.length <= usize::MAX,
        ensures
            r.start == self.position,
            r.end == self.position + self.length,
    {
        let start = self.position as usize;
        let end = start + self.length as usize;
        start..end
    }

    pub fn association(&self) -> (a: u8)
        ensures
            a == self.association,
    {
        self.association
    }

    pub fn start_position(&self) -> (p: u32)
        ensures
            p == self.position,
    {
        self.position
    }

    /// The position after the sub group; it must fit `u32`.
    pub fn end_position(&self) -> (p: u32)
        requires
            self.position + self.length <= u32::MAX,
        ensures
            p == self.position + self.length,
    {
        self.position + self.length as u32
    }
}

/// A set of sub groups drawn in one colour.
#[derive(Debug, Clone, PartialEq, Eq)]
#[non_exhaustive]
pub struct Annotation {
    pub pixels: Vec<SubGroup>,
    pub color: [u8; 3],
}

impl Default for Annotation {
    fn default() -> (a: Self)
        ensures
            a.pixels@.len() == 0,
            a.color@ == seq![0u8, 0u8, 0u8],
    {
        Self { pixels: Vec::new(), color: [0, 0, 0] }
    }
}

impl Annotation {
    /// The sub groups are well formed, increasing and do not overlap.
    pub open spec fn wf(&self) -> bool {
        all_sub_wf(self.pixels@) && sorted_disjoint(sub_spans(self.pixels@))
    }

    pub fn new(pixels: Vec<SubGroup>, color: [u8; 3]) -> (a: Self)
        ensures
            a.pixels == pixels,
            a.color == color,
    {
        Self { pixels, color }
    }

    pub fn with_black_color(pixels: Vec<SubGroup>) -> (a: Self)
        ensures
            a.pixels == pixels,
            a.color@ == seq![0u8, 0u8, 0u8],
    {
        Self { pixels, color: [0, 0, 0] }
    }

    pub fn is_empty(&self) -> (b: bool)
        ensures
            b == (self.pixels@.len() == 0),
    {
        self.pixels.len() == 0
    }

    pub fn sub_group_len(&self) -> (n: usize)
        ensures
            n == self.pixels@.len(),
    {
        self.pixels.len()
    }
}

fn sub_spans_of(v: &Vec<SubGroup>) -> (out: Vec<(u32, u32)>)
    requires
        all_sub_wf(v@),
    ensures
        out@ == sub_spans(v@),
{
    let mut out: Vec<(u32, u32)> = Vec::new();
    let mut i: usize = 0;
    while i < v.len()
        invariant
            i <= v@.len(),
            all_sub_wf(v@),
            out@ == sub_spans(v@.take(i as int)),
        decreases v@.len() - i,
    {
        let g = v[i];
        assert(v@[i as int].wf());
        out.push((g.position, g.end_position()));
        i = i + 1;
        proof {
            assert(out@ =~= sub_spans(v@.take(i as int)));
        }
    }
    proof {
        assert(v@.take(v@.len() as int) =~= v@);
    }
    out
}

fn sub_groups_of_spans(v: &Vec<(u32, u32)>, Ghost(outer): Ghost<Seq<(u32, u32)>>) -> (out: Vec<SubGroup>)
    requires
        all_nonempty(v@),
        nested_in(v@, outer),
        forall|i: int| 0 <= i < outer.len() ==> #[trigger] outer[i].1 - outer[i].0 <= u16::MAX,
    ensures
        sub_spans(out@) == v@,
        all_sub_wf(out@),
        forall|i: int| 0 <= i < out@.len() ==> #[trigger] out@[i].association == 255,
{
    let mut out: Vec<SubGroup> = Vec::new();
    let mut i: usize = 0;
    while i < v.len()
        invariant
            i <= v@.len(),
            all_nonempty(v@),
            nested_in(v@, outer),
            forall|i: int| 0 <= i < outer.len() ==> #[trigger] outer[i].1 - outer[i].0 <= u16::MAX,
            sub_spans(out@) == v@.take(i as int),
            all_sub_wf(out@),
            forall|k: int| 0 <= k < out@.len() ==> #[trigger] out@[k].association == 255,
        decreases v@.len() - i,
    {
        let (s, e) = v[i];
        proof {
            assert(v@[i as int].0 < v@[i as int].1);
            let k = choose|k: int|
                0 <= k < outer.len() && outer[k].0 <= #[trigger] v@[i as int].0 && v@[i as int].1 <= outer[k].1;
            assert(outer[k].1 - outer[k].0 <= u16::MAX);
        }
        let len: u16 = (e - s) as u16;
        let g = SubGroup::new_total(s, len);
        assert(g.span() == v@[i as int]);
        let ghost out0 = out@;
        out.push(g);
        i = i + 1;
        proof {
            assert(sub_spans(out@) =~= sub_spans(out0).push(g.span()));
            assert(v@.take(i as int) =~= v@.take(i - 1).push(v@[i - 1]));
        }
    }
    proof {
        assert(v@.take(v@.len() as int) =~= v@);
    }
    out
}

/// Removes from `annotations` every pixel that a sub group of
/// `ordered_existing` holds; the sub groups that stay are associated with no
/// other group.
///
/// The sub groups of `annotations` must be increasing and non-overlapping,
/// those of `ordered_existing` ordered by their position.
pub fn remove_overlaps(annotations: &mut Annotation, ordered_existing: &Vec<SubGroup>)
    requires
        old(annotations).wf(),
        all_sub_wf(ordered_existing@),
        sorted_by_start(sub_spans(ordered_existing@)),
    ensures
        final(annotations).wf(),
        final(annotations).color == old(annotations).color,
        nested_in(sub_spans(final(annotations).pixels@), sub_spans(old(annotations).pixels@)),
        split_only_at_ends(sub_spans(final(annotations).pixels@), sub_spans(old(annotations).pixels@)),
        forall|p: int|
            #[trigger] covers(sub_spans(final(annotations).pixels@), p) <==> (covers(sub_spans(old(annotations).pixels@), p)
                && !covers(sub_spans(ordered_existing@), p)),
        forall|i: int| 0 <= i < final(annotations).pixels@.len() ==> #[trigger] final(annotations).pixels@[i].association == 255,
{
    let new_spans = sub_spans_of(&annotations.pixels);
    let existing_spans = sub_spans_of(ordered_existing);
    let kept = subtract_sorted(&new_spans, &existing_spans);
    proof {
        assert forall|i: int| 0 <= i < new_spans@.len() implies #[trigger] new_spans@[i].1 - new_spans@[i].0 <= u16::MAX by {
            assert(annotations.pixels@[i].wf());
        }
    }
    annotations.pixels = sub_groups_of_spans(&kept, Ghost(new_spans@));
}

} // verus!
