//! Runs of pixels in a flattened image (`y * width + x`) and areas made of them.
use crate::intervals::{all_nonempty, covers, nested_in, sorted_by_start, sorted_disjoint, split_only_at_ends, subtract_sorted};
use vstd::prelude::*;

verus! {

/// Per-pixel metadata of a run: how confident the annotation is.
#[derive(Debug, Clone, Copy, PartialEq, Eq, PartialOrd, Ord)]
#[non_exhaustive]
pub struct Meta {
    confidence: u8,
}

impl Meta {
    pub closed spec fn confidence_spec(self) -> u8 {
        self.confidence
    }

    pub fn new(confidence: u8) -> (m: Self)
        ensures
            m.confidence_spec() == confidence,
    {
        Self { confidence }
    }

    pub fn confidence(self) -> (c: u8)
        ensures
            c == self.confidence_spec(),
    {
        self.confidence
    }
}

impl Default for Meta {
    /// Full confidence.
    fn default() -> (m: Self)
        ensures
            m.confidence_spec() == 255,
    {
        Self { confidence: 255 }
    }
}

/// The longest run a [`PixelRange`] can describe.
pub const MAX_RUN: u32 = 65535;

/// A run of consecutive pixels `[start, end)` with a confidence.
/// Its length is between 1 and `u16::MAX`.
#[derive(Debug, Clone, Copy, PartialEq, Eq, PartialOrd, Ord)]
pub struct PixelRange {
    start: u32,
    end: u32,
    pub confidence: u8,
}

/// The run of a pixel range as a half-open interval.
pub open spec fn spans(v: Seq<PixelRange>) -> Seq<(u32, u32)> {
    Seq::new(v.len(), |i: int| v[i].span())
}

/// Every run of `v` is well formed.
pub open spec fn all_wf(v: Seq<PixelRange>) -> bool {
    forall|i: int| 0 <= i < v.len() ==> #[trigger] v[i].wf()
}

impl PixelRange {
    /// The run as a half-open interval `[start, end)`.
    pub closed spec fn span(self) -> (u32, u32) {
        (self.start, self.end)
    }

    /// The confidence of the run.
    pub closed spec fn conf(self) -> u8 {
        self.confidence
    }

    /// The run is non-empty and at most `u16::MAX` pixels long.
    pub open spec fn wf(self) -> bool {
        self.span().0 < self.span().1 && self.span().1 - self.span().0 <= MAX_RUN
    }

    /// A run of `length` pixels from `start`; it must end inside `u32`.
    pub fn new(start: u32, length: u16, confidence: u8) -> (r: Self)
        requires
            length >= 1,
            start + length <= u32::MAX,
        ensures
            r.wf(),
            r.span() == (start, (start + length) as u32),
            r.conf() == confidence,
    {
        Self { start, end: start + length as u32, confidence }
    }

    pub fn new_total(start: u32, length: u16) -> (r: Self)
        requires
            length >= 1,
            start + length <= u32::MAX,
        ensures
            r.wf(),
            r.span() == (start, (start + length) as u32),
            r.conf() == 255,
    {
        Self::new(start, length, 255)
    }

    pub fn as_range(&self) -> (r: std::ops::Range<usize>)
        ensures
            r.start == self.span().0,
            r.end == self.span().1,
    {
        let start = self.start as usize;
        let end = self.end as usize;
        start..end
    }

    pub fn confidence(&self) -> (c: u8)
        ensures
            c == self.conf(),
    {
        self.confidence
    }

    pub fn start(&self) -> (s: u32)
        ensures
            s == self.span().0,
    {
        self.start
    }

    pub fn length(&self) -> (l: u16)
        requires
            self.wf(),
        ensures
            l == self.span().1 - self.span().0,
            l >= 1,
    {
        (self.end - self.start) as u16
    }

    /// Lengthens the run by one pixel; the run must stay inside `u32` and at
    /// most `u16::MAX` long.
    pub fn increment_length(&mut self)
        requires
            old(self).wf(),
            old(self).span().1 - old(self).span().0 < MAX_RUN,
            old(self).span().1 < u32::MAX,
        ensures
            final(self).wf(),
            final(self).span() == (old(self).span().0, (old(self).span().1 + 1) as u32),
            final(self).conf() == old(self).conf(),
    {
        self.end = self.end + 1;
    }

    pub fn end(&self) -> (e: u32)
        ensures
            e == self.span().1,
    {
        self.end
    }
}

/// A run is determined by its interval and its confidence.
pub proof fn lemma_range_ext(a: PixelRange, b: PixelRange)
    requires
        a.span() == b.span(),
        a.conf() == b.conf(),
    ensures
        a == b,
{
}

/// What an area is: its runs and its colour.
pub struct AreaView {
    pub pixels: Seq<PixelRange>,
    pub color: [u8; 3],
}

impl AreaView {
    /// The runs are well formed, in increasing order and do not overlap.
    pub open spec fn wf(self) -> bool {
        all_wf(self.pixels) && sorted_disjoint(spans(self.pixels))
    }
}

/// A set of pixel runs drawn in one colour.
#[derive(Debug, Clone, PartialEq, Eq)]
#[non_exhaustive]
pub struct PixelArea {
    pub pixels: Vec<PixelRange>,
    pub color: [u8; 3],
}

impl View for PixelArea {
    type V = AreaView;

    open spec fn view(&self) -> AreaView {
        AreaView { pixels: self.pixels@, color: self.color }
    }
}

impl Default for PixelArea {
    fn default() -> (a: Self)
        ensures
            a.pixels@.len() == 0,
            a.color@ == seq![0u8, 0u8, 0u8],
    {
        Self { pixels: Vec::new(), color: [0, 0, 0] }
    }
}

impl PixelArea {
    /// The runs are well formed, in increasing order and do not overlap.
    pub open spec fn wf(&self) -> bool {
        all_wf(self.pixels@) && sorted_disjoint(spans(self.pixels@))
    }

    pub fn new(pixels: Vec<PixelRange>, color: [u8; 3]) -> (a: Self)
        ensures
            a.pixels == pixels,
            a.color == color,
    {
        Self { pixels, color }
    }

    pub fn with_black_color(pixels: Vec<PixelRange>) -> (a: Self)
        ensures
            a.pixels == pixels,
            a.color@ == seq![0u8, 0u8, 0u8],
    {
        Self { pixels, color: [0, 0, 0] }
    }

    /// An area of the given runs where they are well formed, in increasing
    /// order, do not overlap and are not none at all; else no area.
    pub fn try_new(pixels: Vec<PixelRange>, color: [u8; 3]) -> (a: Option<Self>)
        ensures
            a is Some <==> (pixels@.len() > 0 && all_wf(pixels@) && sorted_disjoint(spans(pixels@))),
            a matches Some(x) ==> x.pixels == pixels && x.color == color,
    {
        if pixels.len() > 0 && runs_ok(&pixels) {
            Some(Self { pixels, color })
        } else {
            None
        }
    }

    /// The area with its runs replaced by what `f` makes of them, where those
    /// are acceptable to [`PixelArea::try_new`]; else no area.
    pub fn map_inplace<F: FnOnce(Vec<PixelRange>) -> Vec<PixelRange>>(self, f: F) -> (a: Option<Self>)
        requires
            f.requires((self.pixels,)),
        ensures
            exists|v: Vec<PixelRange>| #[trigger] f.ensures((self.pixels,), v) && {
                &&& a is Some <==> (v@.len() > 0 && all_wf(v@) && sorted_disjoint(spans(v@)))
                &&& a matches Some(x) ==> x.pixels == v && x.color == self.color
            },
    {
        let color = self.color;
        let v = f(self.pixels);
        Self::try_new(v, color)
    }

    /// One run of full confidence from `start`, `len` pixels long.
    pub fn single_pixel_total_color(start: u32, len: u16, color: [u8; 3]) -> (a: Self)
        requires
            len >= 1,
            start + len <= u32::MAX,
        ensures
            a.wf(),
            a.pixels@.len() == 1,
            a.pixels@[0].span() == (start, (start + len) as u32),
            a.pixels@[0].conf() == 255,
            a.color == color,
    {
        let r = PixelRange::new_total(start, len);
        let a = Self { pixels: vec![r], color };
        proof {
            assert(spans(a.pixels@)[0] == r.span());
        }
        a
    }

    /// One black run of full confidence from `start`, `len` pixels long.
    pub fn single_range_total_black(start: u32, len: u16) -> (a: Self)
        requires
            len >= 1,
            start + len <= u32::MAX,
        ensures
            a.wf(),
            a.pixels@.len() == 1,
            a.pixels@[0].span() == (start, (start + len) as u32),
            a.pixels@[0].conf() == 255,
            a.color@ == seq![0u8, 0u8, 0u8],
    {
        let a = Self::single_pixel_total_color(start, len, [0, 0, 0]);
        proof {
            assert(a.color@ =~= seq![0u8, 0u8, 0u8]);
        }
        a
    }

    pub fn is_empty(&self) -> (b: bool)
        ensures
            b == (self.pixels@.len() == 0),
    {
        self.pixels.len() == 0
    }

    pub fn range_len(&self) -> (n: usize)
        ensures
            n == self.pixels@.len(),
    {
        self.pixels.len()
    }

    /// A copy of the area with the same runs and colour.
    pub fn duplicate(&self) -> (a: Self)
        ensures
            a@ == self@,
    {
        Self { pixels: copy_ranges(&self.pixels), color: self.color }
    }
}

/// Tells whether the runs are well formed, in increasing order and do not
/// overlap.
pub fn runs_ok(v: &Vec<PixelRange>) -> (b: bool)
    ensures
        b == (all_wf(v@) && sorted_disjoint(spans(v@))),
{
    let n = v.len();
    let mut k: usize = 0;
    while k < n
        invariant
            n == v@.len(),
            k <= n,
            forall|i: int| 0 <= i < k ==> #[trigger] v@[i].wf(),
            forall|i: int, j: int| 0 <= i < j < k ==> #[trigger] spans(v@)[i].1 <= #[trigger] spans(v@)[j].0,
        decreases n - k,
    {
        let r = v[k];
        if !(r.start() < r.end() && r.end() - r.start() <= MAX_RUN) {
            proof {
                assert(!v@[k as int].wf());
            }
            return false;
        }
        if k > 0 && v[k - 1].end() > r.start() {
            proof {
                assert(spans(v@)[k - 1].1 > spans(v@)[k as int].0);
            }
            return false;
        }
        proof {
            assert forall|i: int, j: int| 0 <= i < j < k + 1 implies #[trigger] spans(v@)[i].1 <= #[trigger] spans(v@)[j].0 by {
                if j == k && i < k - 1 {
                    assert(spans(v@)[i].1 <= spans(v@)[k - 1].0);
                    assert(v@[k - 1].wf());
                }
            }
        }
        k = k + 1;
    }
    proof {
        assert forall|i: int| 0 <= i < spans(v@).len() implies #[trigger] spans(v@)[i].0 < spans(v@)[i].1 by {
            assert(v@[i].wf());
        }
    }
    true
}

/// A copy of a list of runs.
pub fn copy_ranges(v: &Vec<PixelRange>) -> (out: Vec<PixelRange>)
    ensures
        out@ == v@,
{
    let mut out: Vec<PixelRange> = Vec::new();
    let mut i: usize = 0;
    while i < v.len()
        invariant
            i <= v@.len(),
            out@ == v@.take(i as int),
        decreases v@.len() - i,
    {
        out.push(v[i]);
        i = i + 1;
        proof {
            assert(out@ =~= v@.take(i as int));
        }
    }
    proof {
        assert(v@.take(v@.len() as int) =~= v@);
    }
    out
}

/// The intervals of a list of runs.
pub fn spans_of(v: &Vec<PixelRange>) -> (out: Vec<(u32, u32)>)
    ensures
        out@ == spans(v@),
{
    let mut out: Vec<(u32, u32)> = Vec::new();
    let mut i: usize = 0;
    while i < v.len()
        invariant
            i <= v@.len(),
            out@ == spans(v@.take(i as int)),
        decreases v@.len() - i,
    {
        let r = v[i];
        out.push((r.start(), r.end()));
        i = i + 1;
        proof {
            assert(out@ =~= spans(v@.take(i as int)));
        }
    }
    proof {
        assert(v@.take(v@.len() as int) =~= v@);
    }
    out
}

/// Runs of full confidence for a list of intervals that lie inside `outer`,
/// whose intervals are at most `u16::MAX` long.
fn ranges_of_spans(v: &Vec<(u32, u32)>, Ghost(outer): Ghost<Seq<(u32, u32)>>) -> (out: Vec<PixelRange>)
    requires
        all_nonempty(v@),
        nested_in(v@, outer),
        forall|i: int| 0 <= i < outer.len() ==> #[trigger] outer[i].1 - outer[i].0 <= MAX_RUN,
    ensures
        spans(out@) == v@,
        all_wf(out@),
        forall|i: int| 0 <= i < out@.len() ==> #[trigger] out@[i].conf() == 255,
{
    let mut out: Vec<PixelRange> = Vec::new();
    let mut i: usize = 0;
    while i < v.len()
        invariant
            i <= v@.len(),
            all_nonempty(v@),
            nested_in(v@, outer),
            forall|i: int| 0 <= i < outer.len() ==> #[trigger] outer[i].1 - outer[i].0 <= MAX_RUN,
            spans(out@) == v@.take(i as int),
            all_wf(out@),
            forall|k: int| 0 <= k < out@.len() ==> #[trigger] out@[k].conf() == 255,
        decreases v@.len() - i,
    {
        let (s, e) = v[i];
        proof {
            assert(v@[i as int].0 < v@[i as int].1);
            let k = choose|k: int|
                0 <= k < outer.len() && outer[k].0 <= #[trigger] v@[i as int].0 && v@[i as int].1 <= outer[k].1;
            assert(outer[k].1 - outer[k].0 <= MAX_RUN);
        }
        let len: u16 = (e - s) as u16;
        assert(len == e - s);
        let r = PixelRange::new_total(s, len);
        assert(r.span() == v@[i as int]);
        let ghost out0 = out@;
        out.push(r);
        proof {
            assert(spans(out@) =~= spans(out0).push(r.span()));
            assert(v@.take(i + 1) =~= v@.take(i as int).push(v@[i as int]));
        }
        i = i + 1;
        proof {
            assert(spans(out@) =~= v@.take(i as int));
        }
    }
    proof {
        assert(v@.take(v@.len() as int) =~= v@);
    }
    out
}

/// Removes from `annotations` every pixel that a run of `ordered_existing`
/// holds; the runs that stay get full confidence.
///
/// The runs of `annotations` must be increasing and non-overlapping, those of
/// `ordered_existing` ordered by their start.
pub fn remove_overlaps(annotations: &mut PixelArea, ordered_existing: &Vec<PixelRange>)
    requires
        old(annotations).wf(),
        all_wf(ordered_existing@),
        sorted_by_start(spans(ordered_existing@)),
    ensures
        final(annotations).wf(),
        final(annotations).color == old(annotations).color,
        nested_in(spans(final(annotations).pixels@), spans(old(annotations).pixels@)),
        split_only_at_ends(spans(final(annotations).pixels@), spans(old(annotations).pixels@)),
        forall|p: int|
            #[trigger] covers(spans(final(annotations).pixels@), p) <==> (covers(spans(old(annotations).pixels@), p)
                && !covers(spans(ordered_existing@), p)),
        forall|i: int| 0 <= i < final(annotations).pixels@.len() ==> #[trigger] final(annotations).pixels@[i].conf() == 255,
{
    let new_spans = spans_of(&annotations.pixels);
    let existing_spans = spans_of(ordered_existing);
    let kept = subtract_sorted(&new_spans, &existing_spans);
    proof {
        assert forall|i: int| 0 <= i < new_spans@.len() implies #[trigger] new_spans@[i].1 - new_spans@[i].0 <= MAX_RUN by {
            assert(annotations.pixels@[i].wf());
        }
    }
    annotations.pixels = ranges_of_spans(&kept, Ghost(new_spans@));
}

} // verus!
