//! The stroke of the brush tool: a mask of the pixels painted so far.
use crate::intervals::{covers, in_span};
use crate::pixel_range::{spans, PixelArea, PixelRange};
use crate::runs::{is_mask_runs, mask_runs};
use vstd::prelude::*;

verus! {

/// A rectangle of pixels `[x, x + width) x [y, y + height)`.
#[derive(Debug, Clone, Copy, PartialEq, Eq)]
pub struct Rect {
    pub x: usize,
    pub y: usize,
    pub width: usize,
    pub height: usize,
}

/// The smallest rectangle holding both rectangles.
pub open spec fn rect_union(a: Rect, b: Rect) -> Rect {
    let x = if a.x < b.x { a.x } else { b.x };
    let y = if a.y < b.y { a.y } else { b.y };
    let x_end = if a.x + a.width > b.x + b.width { a.x + a.width } else { b.x + b.width };
    let y_end = if a.y + a.height > b.y + b.height { a.y + a.height } else { b.y + b.height };
    Rect { x, y, width: (x_end - x) as usize, height: (y_end - y) as usize }
}

/// The rectangle lies inside an image of `width x height`.
pub open spec fn rect_inside(r: Rect, width: int, height: int) -> bool {
    r.x + r.width <= width && r.y + r.height <= height
}

/// The square of half size `half` around `(cx, cy)`, cut to an image of
/// `width x height`.
pub open spec fn stamp_rect(cx: int, cy: int, half: int, width: int, height: int) -> Rect {
    let x_min = if cx >= half { cx - half } else { 0 };
    let x_max = if cx + half < width - 1 { cx + half } else { width - 1 };
    let y_min = if cy >= half { cy - half } else { 0 };
    let y_max = if cy + half < height - 1 { cy + half } else { height - 1 };
    Rect { x: x_min as usize, y: y_min as usize, width: (x_max - x_min + 1) as usize, height: (y_max - y_min + 1) as usize }
}

impl Rect {
    /// The smallest rectangle holding both rectangles.
    pub fn bounds(&self, other: &Rect) -> (r: Rect)
        requires
            self.x + self.width <= usize::MAX,
            self.y + self.height <= usize::MAX,
            other.x + other.width <= usize::MAX,
            other.y + other.height <= usize::MAX,
        ensures
            r == rect_union(*self, *other),
    {
        let x = if self.x < other.x { self.x } else { other.x };
        let y = if self.y < other.y { self.y } else { other.y };
        let x_end = if self.x + self.width > other.x + other.width { self.x + self.width } else { other.x + other.width };
        let y_end = if self.y + self.height > other.y + other.height { self.y + self.height } else { other.y + other.height };
        Rect { x, y, width: x_end - x, height: y_end - y }
    }
}

/// The pixel `(px, py)` lies in the square of half size `half` around
/// `(cx, cy)`, cut to an image of `width x height`.
pub open spec fn in_stamp(cx: int, cy: int, half: int, width: int, height: int, px: int, py: int) -> bool {
    &&& (if cx >= half { cx - half } else { 0 }) <= px
    &&& px <= (if cx + half < width - 1 { cx + half } else { width - 1 })
    &&& (if cy >= half { cy - half } else { 0 }) <= py
    &&& py <= (if cy + half < height - 1 { cy + half } else { height - 1 })
}

/// `after` is `before` with the square of half size `half` around
/// `(cx, cy)`, cut to the image, painted.
pub open spec fn stamped(before: StrokeState, after: StrokeState, cx: int, cy: int, half: int) -> bool {
    &&& after.dims() == before.dims()
    &&& after.mask_spec().len() == before.mask_spec().len()
    &&& forall|px: int, py: int| 0 <= px < after.dims().0 && 0 <= py < after.dims().1
        ==> #[trigger] after.painted(px, py) == (before.painted(px, py)
            || in_stamp(cx, cy, half, before.dims().0 as int, before.dims().1 as int, px, py))
}

/// Stamping the same square twice paints what stamping it once paints.
pub proof fn lemma_stamp_idempotent(s0: StrokeState, s1: StrokeState, s2: StrokeState, cx: int, cy: int, half: int)
    requires
        s0.wf(),
        stamped(s0, s1, cx, cy, half),
        stamped(s1, s2, cx, cy, half),
    ensures
        s2.mask_spec() == s1.mask_spec(),
{
    let w = s1.dims().0 as int;
    let h = s1.dims().1 as int;
    assert forall|p: int| 0 <= p < s1.mask_spec().len() implies s2.mask_spec()[p] == s1.mask_spec()[p] by {
        let py = p / w;
        let px = p % w;
        vstd::arithmetic::div_mod::lemma_fundamental_div_mod(p, w);
        assert(py * w + px == p) by (nonlinear_arith)
            requires
                p == w * (p / w) + p % w,
                py == p / w,
                px == p % w,
        ;
        assert(py < h) by (nonlinear_arith)
            requires
                py * w + px == p,
                p < w * h,
                0 <= px,
                w >= 1,
        ;
        assert(s2.painted(px, py) == s1.painted(px, py));
    }
    assert(s2.mask_spec() =~= s1.mask_spec());
}

/// The painted pixels of a stroke, the last painted position and the part of
/// the mask that changed since it was last drawn.
pub struct StrokeState {
    width: usize,
    height: usize,
    mask: Vec<bool>,
    last_pos: Option<(usize, usize)>,
    dirty: Option<Rect>,
}

impl StrokeState {
    pub closed spec fn dims(&self) -> (usize, usize) {
        (self.width, self.height)
    }

    pub closed spec fn mask_spec(&self) -> Seq<bool> {
        self.mask@
    }

    pub closed spec fn last_pos_spec(&self) -> Option<(usize, usize)> {
        self.last_pos
    }

    pub closed spec fn dirty_spec(&self) -> Option<Rect> {
        self.dirty
    }

    /// The mask has one entry per pixel, row by row.
    pub open spec fn wf(&self) -> bool {
        &&& self.dims().0 >= 1
        &&& self.dims().1 >= 1
        &&& self.mask_spec().len() == self.dims().0 * self.dims().1
        &&& self.dirty_spec() matches Some(d) ==> rect_inside(d, self.dims().0 as int, self.dims().1 as int)
    }

    /// The pixel `(x, y)` is painted.
    pub open spec fn painted(&self, x: int, y: int) -> bool {
        self.mask_spec()[y * self.dims().0 + x]
    }

    /// An empty stroke over an image of `width x height`.
    pub fn new(width: usize, height: usize) -> (s: Self)
        requires
            width >= 1,
            height >= 1,
            width * height <= usize::MAX,
        ensures
            s.wf(),
            s.dims() == (width, height),
            forall|i: int| 0 <= i < s.mask_spec().len() ==> !#[trigger] s.mask_spec()[i],
            s.last_pos_spec() is None,
            s.dirty_spec() is None,
    {
        let n = width * height;
        let mut mask: Vec<bool> = Vec::new();
        while mask.len() < n
            invariant
                mask@.len() <= n,
                forall|i: int| 0 <= i < mask@.len() ==> !#[trigger] mask@[i],
            decreases n - mask@.len(),
        {
            mask.push(false);
        }
        Self { width, height, mask, last_pos: None, dirty: None }
    }

    /// The painted pixels, row by row.
    pub fn mask(&self) -> (m: &Vec<bool>)
        ensures
            m@ == self.mask_spec(),
    {
        &self.mask
    }

    pub fn width(&self) -> (w: usize)
        ensures
            w == self.dims().0,
    {
        self.width
    }

    pub fn height(&self) -> (h: usize)
        ensures
            h == self.dims().1,
    {
        self.height
    }

    pub fn last_pos(&self) -> (p: Option<(usize, usize)>)
        ensures
            p == self.last_pos_spec(),
    {
        self.last_pos
    }

    /// Records the last painted position.
    pub fn set_last_pos(&mut self, pos: (usize, usize))
        ensures
            final(self).last_pos_spec() == Some(pos),
            final(self).mask_spec() == old(self).mask_spec(),
            final(self).dims() == old(self).dims(),
            final(self).dirty_spec() == old(self).dirty_spec(),
    {
        self.last_pos = Some(pos);
    }

    /// The part of the mask that changed since it was last taken, if any;
    /// afterwards nothing is marked as changed.
    pub fn take_dirty(&mut self) -> (d: Option<Rect>)
        requires
            old(self).wf(),
        ensures
            final(self).wf(),
            d == old(self).dirty_spec(),
            final(self).dirty_spec() is None,
            final(self).mask_spec() == old(self).mask_spec(),
            final(self).dims() == old(self).dims(),
            final(self).last_pos_spec() == old(self).last_pos_spec(),
    {
        self.dirty.take()
    }

    /// The position clamped into the image.
    pub fn clamp(&self, x: usize, y: usize) -> (p: (usize, usize))
        requires
            self.wf(),
        ensures
            p.0 == if x < self.dims().0 - 1 { x } else { (self.dims().0 - 1) as usize },
            p.1 == if y < self.dims().1 - 1 { y } else { (self.dims().1 - 1) as usize },
    {
        let x = if x < self.width - 1 { x } else { self.width - 1 };
        let y = if y < self.height - 1 { y } else { self.height - 1 };
        (x, y)
    }

    /// Paints the square of half size `half_size` around `(cx, cy)`, cut to
    /// the image, and adds it to the changed part. The square must reach
    /// into the image and `cx + half_size` must fit `usize`.
    pub fn stamp_square(&mut self, cx: usize, cy: usize, half_size: usize)
        requires
            old(self).wf(),
            cx + half_size <= usize::MAX,
            cy + half_size <= usize::MAX,
            (if cx >= half_size { cx - half_size } else { 0 }) < old(self).dims().0,
            (if cy >= half_size { cy - half_size } else { 0 }) < old(self).dims().1,
        ensures
            final(self).wf(),
            final(self).dims() == old(self).dims(),
            final(self).last_pos_spec() == old(self).last_pos_spec(),
            stamped(*old(self), *final(self), cx as int, cy as int, half_size as int),
            final(self).dirty_spec() == Some(match old(self).dirty_spec() {
                Some(d) => rect_union(d, stamp_rect(cx as int, cy as int, half_size as int, old(self).dims().0 as int, old(self).dims().1 as int)),
                None => stamp_rect(cx as int, cy as int, half_size as int, old(self).dims().0 as int, old(self).dims().1 as int),
            }),
    {
        let w = self.width;
        let h = self.height;
        let x_min = if cx >= half_size { cx - half_size } else { 0 };
        let x_max = if cx + half_size < w - 1 { cx + half_size } else { w - 1 };
        let y_min = if cy >= half_size { cy - half_size } else { 0 };
        let y_max = if cy + half_size < h - 1 { cy + half_size } else { h - 1 };
        let ghost mask0 = self.mask@;
        let n = self.mask.len();
        let mut py = y_min;
        while py <= y_max
            invariant
                n == self.mask@.len(),
                self.dirty == old(self).dirty,
                self.last_pos == old(self).last_pos,
                self.width == w,
                self.height == h,
                w >= 1,
                h >= 1,
                self.mask@.len() == w * h,
                x_min <= x_max < w,
                y_min <= py <= y_max + 1,
                y_max < h,
                forall|px: int, qy: int| 0 <= px < w && 0 <= qy < h ==> #[trigger] self.mask@[qy * w + px]
                    == (mask0[qy * w + px] || (x_min <= px <= x_max && y_min <= qy < py)),
            decreases y_max + 1 - py,
        {
            proof {
                lemma_index_bound(w as int, h as int, x_min as int, py as int);
            }
            let row = py * w;
            let mut px = x_min;
            while px <= x_max
                invariant
                    n == self.mask@.len(),
                    self.dirty == old(self).dirty,
                    self.last_pos == old(self).last_pos,
                    self.width == w,
                    self.height == h,
                    w >= 1,
                    self.mask@.len() == w * h,
                    x_min <= px <= x_max + 1,
                    x_max < w,
                    y_min <= py <= y_max,
                    y_max < h,
                    row == py * w,
                    row + w <= w * h,
                    forall|qx: int, qy: int| 0 <= qx < w && 0 <= qy < h ==> #[trigger] self.mask@[qy * w + qx]
                        == (mask0[qy * w + qx] || (x_min <= qx <= x_max && y_min <= qy < py) || (qy == py && x_min <= qx < px)),
                decreases x_max + 1 - px,
            {
                let ghost m0 = self.mask@;
                self.mask.set(row + px, true);
                proof {
                    assert forall|qx: int, qy: int| 0 <= qx < w && 0 <= qy < h implies #[trigger] self.mask@[qy * w + qx]
                        == (mask0[qy * w + qx] || (x_min <= qx <= x_max && y_min <= qy < py) || (qy == py && x_min <= qx < px + 1)) by {
                        lemma_index_injective(w as int, qx, qy, px as int, py as int);
                        lemma_index_bound(w as int, h as int, qx, qy);
                        if qy * w + qx != row + px {
                            assert(self.mask@[qy * w + qx] == m0[qy * w + qx]);
                        }
                    }
                }
                px = px + 1;
            }
            py = py + 1;
        }
        proof {
            assert forall|px: int, qy: int| 0 <= px < w && 0 <= qy < h implies #[trigger] self.painted(px, qy)
                == (mask0[qy * w + px] || in_stamp(cx as int, cy as int, half_size as int, w as int, h as int, px, qy)) by {
                assert(self.mask@[qy * w + px] == (mask0[qy * w + px] || (x_min <= px <= x_max && y_min <= qy < py)));
            }
        }
        let stamp = Rect { x: x_min, y: y_min, width: x_max - x_min + 1, height: y_max - y_min + 1 };
        self.dirty = Some(match self.dirty {
            Some(d) => d.bounds(&stamp),
            None => stamp,
        });
    }
}

/// A pixel of a `w x h` image has an index below `w * h`.
proof fn lemma_index_bound(w: int, h: int, x: int, y: int)
    requires
        0 <= x < w,
        0 <= y < h,
    ensures
        0 <= y * w + x < w * h,
        y * w + w <= w * h,
{
    assert(0 <= y * w) by (nonlinear_arith)
        requires
            0 <= y,
            0 <= x < w,
    ;
    assert(y * w + w <= w * h) by (nonlinear_arith)
        requires
            y < h,
            0 <= x < w,
    ;
}

/// Distinct pixels of a row-by-row image have distinct indices.
proof fn lemma_index_injective(w: int, ax: int, ay: int, bx: int, by: int)
    requires
        w >= 1,
        0 <= ax < w,
        0 <= bx < w,
        0 <= ay,
        0 <= by,
    ensures
        (ay * w + ax == by * w + bx) <==> (ax == bx && ay == by),
{
    if ay < by {
        assert(ay * w + w <= by * w) by (nonlinear_arith)
            requires
                ay < by,
                w >= 1,
        ;
    } else if by < ay {
        assert(by * w + w <= ay * w) by (nonlinear_arith)
            requires
                by < ay,
                w >= 1,
        ;
    }
}

impl StrokeState {
    /// The painted pixels as an area of the given colour, made of the maximal
    /// runs of painted pixels of each row; `None` when nothing is painted.
    /// A run's length is a `u16`, as in [`PixelRange::new`], so a row is at
    /// most 65535 pixels wide.
    pub fn into_pixel_area(self, color: [u8; 3]) -> (r: Option<PixelArea>)
        requires
            self.wf(),
            self.dims().0 <= 65535,
            self.dims().0 * self.dims().1 <= u32::MAX,
        ensures
            r is None <==> forall|p: int| 0 <= p < self.mask_spec().len() ==> !#[trigger] self.mask_spec()[p],
            r matches Some(a) ==> {
                &&& a.wf()
                &&& a.color == color
                &&& is_mask_runs(a.pixels@, self.mask_spec(), self.dims().0 as int)
            },
    {
        let runs = mask_runs(&self.mask, self.width);
        if runs.len() == 0 {
            proof {
                assert forall|p: int| 0 <= p < self.mask_spec().len() implies !#[trigger] self.mask_spec()[p] by {
                    if self.mask_spec()[p] {
                        let k = choose|k: int| 0 <= k < spans(runs@).len() && #[trigger] in_span(spans(runs@)[k], p);
                    }
                }
            }
            return None;
        }
        proof {
            let r0 = spans(runs@)[0];
            assert(runs@[0].wf());
            assert(in_span(r0, r0.0 as int));
            assert(covers(spans(runs@), r0.0 as int));
            assert(self.mask_spec()[r0.0 as int]);
        }
        Some(PixelArea::new(runs, color))
    }
}

/// `v` moved into `[0, n)`: values past the end become the last one.
pub open spec fn clamp_to(v: int, n: int) -> int {
    if v < n - 1 { v } else { n - 1 }
}

/// The pixel `(px, py)` lies in the square of half size `half` around one
/// of the points `pts`, each moved into the image first.
pub open spec fn in_some_stamp(pts: Seq<(usize, usize)>, half: int, w: int, h: int, px: int, py: int) -> bool {
    exists|k: int| 0 <= k < pts.len() && #[trigger] in_stamp_at(pts[k], half, w, h, px, py)
}

/// The pixel `(px, py)` lies in the square of half size `half` around `pt`
/// moved into the image.
pub open spec fn in_stamp_at(pt: (usize, usize), half: int, w: int, h: int, px: int, py: int) -> bool {
    in_stamp(clamp_to(pt.0 as int, w), clamp_to(pt.1 as int, h), half, w, h, px, py)
}

/// `after` is `before` with the squares around all points of `pts` painted.
pub open spec fn paints(before: StrokeState, after: StrokeState, pts: Seq<(usize, usize)>, half: int) -> bool {
    &&& after.wf()
    &&& after.dims() == before.dims()
    &&& forall|px: int, py: int| 0 <= px < after.dims().0 && 0 <= py < after.dims().1
        ==> #[trigger] after.painted(px, py) == (before.painted(px, py)
            || in_some_stamp(pts, half, before.dims().0 as int, before.dims().1 as int, px, py))
}

/// `after` is `before` with the squares around all points of `pts` painted,
/// and the same last painted position.
pub open spec fn stamped_all(before: StrokeState, after: StrokeState, pts: Seq<(usize, usize)>, half: int) -> bool {
    &&& paints(before, after, pts, half)
    &&& after.last_pos_spec() == before.last_pos_spec()
}

impl StrokeState {
    /// Paints the squares around the points of a line, each point moved into
    /// the image. The points come from `line`, which gets the two ends and
    /// the half size, and steps along the line in floating point.
    pub fn stamp_line<L: Fn(usize, usize, usize, usize, usize) -> Vec<(usize, usize)>>(
        &mut self,
        x0: usize,
        y0: usize,
        x1: usize,
        y1: usize,
        half_size: usize,
        line: &L,
    ) -> (pts: Ghost<Seq<(usize, usize)>>)
        requires
            old(self).wf(),
            old(self).dims().0 + half_size <= usize::MAX,
            old(self).dims().1 + half_size <= usize::MAX,
            call_requires(*line, (x0, y0, x1, y1, half_size)),
        ensures
            exists|v: Vec<(usize, usize)>| call_ensures(*line, (x0, y0, x1, y1, half_size), v) && v@ == pts@,
            stamped_all(*old(self), *final(self), pts@, half_size as int),
    {
        let points = line(x0, y0, x1, y1, half_size);
        let ghost pts = points@;
        let ghost s0 = *self;
        let w = self.width;
        let h = self.height;
        let mut k: usize = 0;
        while k < points.len()
            invariant
                pts == points@,
                k <= pts.len(),
                s0.wf(),
                self.wf(),
                w == s0.dims().0,
                h == s0.dims().1,
                w + half_size <= usize::MAX,
                h + half_size <= usize::MAX,
                stamped_all(s0, *self, pts.take(k as int), half_size as int),
            decreases pts.len() - k,
        {
            let (px, py) = points[k];
            let cx = if px < w - 1 { px } else { w - 1 };
            let cy = if py < h - 1 { py } else { h - 1 };
            let ghost mid = *self;
            self.stamp_square(cx, cy, half_size);
            proof {
                let t0 = pts.take(k as int);
                let t1 = pts.take(k + 1);
                assert(t1[k as int] == pts[k as int]);
                assert forall|qx: int, qy: int| 0 <= qx < self.dims().0 && 0 <= qy < self.dims().1
                    implies #[trigger] self.painted(qx, qy) == (s0.painted(qx, qy)
                        || in_some_stamp(t1, half_size as int, w as int, h as int, qx, qy)) by {
                    assert(self.painted(qx, qy) == (mid.painted(qx, qy)
                        || in_stamp(cx as int, cy as int, half_size as int, w as int, h as int, qx, qy)));
                    assert(mid.painted(qx, qy) == (s0.painted(qx, qy)
                        || in_some_stamp(t0, half_size as int, w as int, h as int, qx, qy)));
                    if in_some_stamp(t0, half_size as int, w as int, h as int, qx, qy) {
                        let j = choose|j: int| 0 <= j < t0.len() && #[trigger] in_stamp_at(t0[j], half_size as int, w as int, h as int, qx, qy);
                        assert(t1[j] == t0[j]);
                    }
                    if in_stamp(cx as int, cy as int, half_size as int, w as int, h as int, qx, qy) {
                        assert(in_stamp_at(t1[k as int], half_size as int, w as int, h as int, qx, qy));
                    }
                    if in_some_stamp(t1, half_size as int, w as int, h as int, qx, qy) {
                        let j = choose|j: int| 0 <= j < t1.len() && #[trigger] in_stamp_at(t1[j], half_size as int, w as int, h as int, qx, qy);
                        if j < k {
                            assert(t1[j] == t0[j]);
                        }
                    }
                }
            }
            k = k + 1;
        }
        proof {
            assert(pts.take(k as int) =~= pts);
        }
        Ghost(pts)
    }

    /// Paints towards `(x, y)`, moved into the image: along the line from the
    /// last painted position, or the square around it where there is none;
    /// `(x, y)` becomes the last painted position.
    pub fn stamp_to<L: Fn(usize, usize, usize, usize, usize) -> Vec<(usize, usize)>>(
        &mut self,
        x: usize,
        y: usize,
        half_size: usize,
        line: &L,
    ) -> (pts: Ghost<Seq<(usize, usize)>>)
        requires
            old(self).wf(),
            old(self).dims().0 + half_size <= usize::MAX,
            old(self).dims().1 + half_size <= usize::MAX,
            forall|a: usize, b: usize, c: usize, d: usize, e: usize| call_requires(*line, (a, b, c, d, e)),
        ensures
            ({
                let w = old(self).dims().0 as int;
                let h = old(self).dims().1 as int;
                let cx = clamp_to(x as int, w) as usize;
                let cy = clamp_to(y as int, h) as usize;
                &&& final(self).last_pos_spec() == Some((cx, cy))
                &&& match old(self).last_pos_spec() {
                    Some((lx, ly)) => exists|v: Vec<(usize, usize)>| call_ensures(*line, (lx, ly, cx, cy, half_size), v) && v@ == pts@,
                    None => pts@ == seq![(cx, cy)],
                }
                &&& paints(*old(self), *final(self), pts@, half_size as int)
            }),
    {
        let cx = if x < self.width - 1 { x } else { self.width - 1 };
        let cy = if y < self.height - 1 { y } else { self.height - 1 };
        let ghost s0 = *self;
        let pts = match self.last_pos {
            Some((lx, ly)) => self.stamp_line(lx, ly, cx, cy, half_size, line),
            None => {
                self.stamp_square(cx, cy, half_size);
                let ghost pts = seq![(cx, cy)];
                proof {
                    assert forall|qx: int, qy: int| 0 <= qx < self.dims().0 && 0 <= qy < self.dims().1
                        implies #[trigger] self.painted(qx, qy) == (s0.painted(qx, qy)
                            || in_some_stamp(pts, half_size as int, s0.dims().0 as int, s0.dims().1 as int, qx, qy)) by {
                        if in_stamp(cx as int, cy as int, half_size as int, s0.dims().0 as int, s0.dims().1 as int, qx, qy) {
                            assert(in_stamp_at(pts[0], half_size as int, s0.dims().0 as int, s0.dims().1 as int, qx, qy));
                        }
                    }
                }
                Ghost(pts)
            },
        };
        let ghost mid = *self;
        self.last_pos = Some((cx, cy));
        proof {
            assert(paints(s0, mid, pts@, half_size as int));
            assert forall|px: int, py: int| 0 <= px < self.dims().0 && 0 <= py < self.dims().1
                implies #[trigger] self.painted(px, py) == (s0.painted(px, py)
                    || in_some_stamp(pts@, half_size as int, s0.dims().0 as int, s0.dims().1 as int, px, py)) by {
                assert(self.painted(px, py) == mid.painted(px, py));
            }
        }
        pts
    }
}

/// What one frame of pointer input says to the brush; the cursor is the
/// pixel under the pointer, if any.
#[derive(Debug, Clone, Copy, PartialEq, Eq)]
pub struct BrushInput {
    pub drag_started: bool,
    pub dragged: bool,
    pub drag_stopped: bool,
    pub clicked: bool,
    pub command_or_ctrl: bool,
    pub cursor: Option<(usize, usize)>,
}

/// `after` is `before` painted towards `(x, y)` moved into the image, as
/// [`StrokeState::stamp_to`] paints: along the points that `line` gives from
/// the last painted position, or the square there where there is none.
pub open spec fn stamped_to<L: Fn(usize, usize, usize, usize, usize) -> Vec<(usize, usize)>>(
    before: StrokeState,
    after: StrokeState,
    x: usize,
    y: usize,
    half_size: usize,
    line: L,
) -> bool {
    let cx = clamp_to(x as int, before.dims().0 as int) as usize;
    let cy = clamp_to(y as int, before.dims().1 as int) as usize;
    &&& after.last_pos_spec() == Some((cx, cy))
    &&& exists|pts: Seq<(usize, usize)>| #[trigger] paints(before, after, pts, half_size as int) && match before.last_pos_spec() {
        Some((lx, ly)) => exists|v: Vec<(usize, usize)>| call_ensures(line, (lx, ly, cx, cy, half_size), v) && v@ == pts,
        None => pts == seq![(cx, cy)],
    }
}

/// A stroke just begun on an image of `width x height`: nothing painted, no
/// position and no changed part yet.
pub open spec fn fresh_stroke(s: StrokeState, width: usize, height: usize) -> bool {
    &&& s.wf()
    &&& s.dims() == (width, height)
    &&& forall|i: int| 0 <= i < s.mask_spec().len() ==> !#[trigger] s.mask_spec()[i]
    &&& s.last_pos_spec() is None
    &&& s.dirty_spec() is None
}

/// The stroke after the start of a drag in a frame: where a drag starts, a
/// fresh stroke painted at the cursor, if any; else the stroke as it was.
pub open spec fn stroke_begun<L: Fn(usize, usize, usize, usize, usize) -> Vec<(usize, usize)>>(
    before: Option<StrokeState>,
    after: Option<StrokeState>,
    input: BrushInput,
    width: usize,
    height: usize,
    half_size: usize,
    line: L,
) -> bool {
    if input.drag_started {
        after matches Some(s1) && exists|s0: StrokeState| #[trigger] fresh_stroke(s0, width, height) && match input.cursor {
            Some((x, y)) => stamped_to(s0, s1, x, y, half_size, line),
            None => s1 == s0,
        }
    } else {
        after == before
    }
}

/// The stroke after the dragging of a frame: where the pointer is dragged,
/// the stroke painted towards the cursor, if any; else the stroke as it was.
pub open spec fn stroke_dragged<L: Fn(usize, usize, usize, usize, usize) -> Vec<(usize, usize)>>(
    before: Option<StrokeState>,
    after: Option<StrokeState>,
    input: BrushInput,
    half_size: usize,
    line: L,
) -> bool {
    if input.dragged {
        match before {
            Some(s0) => after matches Some(s1) && match input.cursor {
                Some((x, y)) => stamped_to(s0, s1, x, y, half_size, line),
                None => s1 == s0,
            },
            None => after is None,
        }
    } else {
        after == before
    }
}

/// The stroke after a frame's start of a drag and its dragging.
pub open spec fn stroke_of_frame<L: Fn(usize, usize, usize, usize, usize) -> Vec<(usize, usize)>>(
    before: Option<StrokeState>,
    after: Option<StrokeState>,
    input: BrushInput,
    width: usize,
    height: usize,
    half_size: usize,
    line: L,
) -> bool {
    exists|mid: Option<StrokeState>|
        #[trigger] stroke_begun(before, mid, input, width, height, half_size, line) && stroke_dragged(
            mid,
            after,
            input,
            half_size,
            line,
        )
}

/// The brush: its size, the layer and colour it paints with, and the stroke
/// being painted.
pub struct BrushTool {
    brush_size: u16,
    layer: Option<usize>,
    fix_color: Option<[u8; 3]>,
    stroke: Option<StrokeState>,
}

/// The runs are those of the painted pixels of some stroke over an image
/// of `w x h`.
pub open spec fn runs_of_a_stroke(pixels: Seq<PixelRange>, w: usize, h: usize) -> bool {
    exists|st: StrokeState| #![trigger is_mask_runs(pixels, st.mask_spec(), w as int)]
        st.wf() && st.dims() == (w, h) && is_mask_runs(pixels, st.mask_spec(), w as int)
}

/// The painted pixels of an image `w` pixels wide are exactly those of the
/// square of half size `half` around `(cx, cy)`, cut to the image.
pub open spec fn painted_square(s: StrokeState, cx: int, cy: int, half: int) -> bool {
    forall|px: int, py: int| 0 <= px < s.dims().0 && 0 <= py < s.dims().1
        ==> #[trigger] s.painted(px, py) == in_stamp(cx, cy, half, s.dims().0 as int, s.dims().1 as int, px, py)
}

impl Default for BrushTool {
    /// A brush of size 10 on no layer in particular, without a fixed colour
    /// and without a stroke.
    fn default() -> (b: Self)
        ensures
            b.size_spec() == 10,
            b.layer_spec() is None,
            b.fix_color_spec() is None,
            b.stroke_spec() is None,
    {
        Self { brush_size: 10, layer: None, fix_color: None, stroke: None }
    }
}

impl BrushTool {
    pub closed spec fn size_spec(&self) -> u16 {
        self.brush_size
    }

    /// The half size of the painted squares.
    pub fn brush_size(&self) -> (s: u16)
        ensures
            s == self.size_spec(),
    {
        self.brush_size
    }

    pub closed spec fn layer_spec(&self) -> Option<usize> {
        self.layer
    }

    pub closed spec fn fix_color_spec(&self) -> Option<[u8; 3]> {
        self.fix_color
    }

    pub closed spec fn stroke_spec(&self) -> Option<StrokeState> {
        self.stroke
    }

    /// The brush has a size and its stroke covers an image of `w x h`.
    pub open spec fn fits(&self, w: usize, h: usize) -> bool {
        &&& self.size_spec() >= 1
        &&& self.stroke_spec() matches Some(s) ==> s.wf() && s.dims() == (w, h)
    }

    /// Paints on layer `layer`; the areas then join that layer.
    pub fn set_layer(&mut self, layer: usize)
        ensures
            final(self).layer_spec() == Some(layer),
            final(self).fix_color_spec() == old(self).fix_color_spec(),
            final(self).stroke_spec() == old(self).stroke_spec(),
            final(self).size_spec() == old(self).size_spec(),
    {
        self.layer = Some(layer);
    }

    /// Paints in `color` whatever colour the mask would pick.
    pub fn set_color(&mut self, color: [u8; 3])
        ensures
            final(self).fix_color_spec() == Some(color),
            final(self).layer_spec() == old(self).layer_spec(),
            final(self).stroke_spec() == old(self).stroke_spec(),
            final(self).size_spec() == old(self).size_spec(),
    {
        self.fix_color = Some(color);
    }

    pub fn set_brush_size(&mut self, size: u16)
        requires
            size >= 1,
        ensures
            final(self).size_spec() == size,
            final(self).layer_spec() == old(self).layer_spec(),
            final(self).fix_color_spec() == old(self).fix_color_spec(),
            final(self).stroke_spec() == old(self).stroke_spec(),
    {
        self.brush_size = size;
    }

    pub fn layer(&self) -> (l: Option<usize>)
        ensures
            l == self.layer_spec(),
    {
        self.layer
    }

    /// The colour to paint in: the fixed one, or `default`.
    pub fn color(&self, default: [u8; 3]) -> (c: [u8; 3])
        ensures
            c == match self.fix_color_spec() {
                Some(f) => f,
                None => default,
            },
    {
        match self.fix_color {
            Some(f) => f,
            None => default,
        }
    }

    /// The stroke being painted.
    pub fn stroke(&self) -> (s: Option<&StrokeState>)
        ensures
            s matches Some(x) <==> self.stroke_spec() is Some,
            s matches Some(x) ==> *x == self.stroke_spec().unwrap(),
    {
        match &self.stroke {
            Some(s) => Some(s),
            None => None,
        }
    }

    /// The part of the stroke that changed since it was last drawn, if any.
    pub fn take_stroke_dirty(&mut self) -> (d: Option<Rect>)
        requires
            old(self).stroke_spec() matches Some(s) ==> s.wf(),
        ensures
            d == match old(self).stroke_spec() {
                Some(s) => s.dirty_spec(),
                None => None,
            },
            final(self).stroke_spec() is Some == old(self).stroke_spec() is Some,
            final(self).stroke_spec() matches Some(s) ==> s.wf() && s.dirty_spec() is None
                && s.mask_spec() == old(self).stroke_spec().unwrap().mask_spec()
                && s.dims() == old(self).stroke_spec().unwrap().dims()
                && s.last_pos_spec() == old(self).stroke_spec().unwrap().last_pos_spec(),
            final(self).layer_spec() == old(self).layer_spec(),
            final(self).fix_color_spec() == old(self).fix_color_spec(),
            final(self).size_spec() == old(self).size_spec(),
    {
        match self.stroke.take() {
            Some(mut s) => {
                let d = s.take_dirty();
                self.stroke = Some(s);
                d
            },
            None => None,
        }
    }

    /// Handles one frame on an image of `width x height`. A drag that starts
    /// begins a new stroke, painting at the cursor; dragging paints towards
    /// the cursor; a drag that stops ends the stroke and hands its pixels out
    /// as an area of `color` (whole where the brush paints on a layer, else
    /// only the parts no other area holds), unless command or control is
    /// held, which drops the stroke. A click paints one square and hands it
    /// out, to be added only where no other area is. An area handed out comes
    /// with whether it is added whole and the brush's layer, on which it is
    /// added. `line` gives the points of a line, as in
    /// [`StrokeState::stamp_line`].
    #[verifier::spinoff_prover]
    #[verifier::rlimit(40)]
    pub fn handle<L: Fn(usize, usize, usize, usize, usize) -> Vec<(usize, usize)>>(
        &mut self,
        input: BrushInput,
        width: usize,
        height: usize,
        color: [u8; 3],
        line: &L,
    ) -> (r: Option<(PixelArea, bool, Option<usize>)>)
        requires
            old(self).fits(width, height),
            1 <= width <= 65535,
            height >= 1,
            width * height <= u32::MAX,
            width + old(self).size_spec() <= usize::MAX,
            height + old(self).size_spec() <= usize::MAX,
            forall|a: usize, b: usize, c: usize, d: usize, e: usize| call_requires(*line, (a, b, c, d, e)),
        ensures
            final(self).fits(width, height),
            final(self).size_spec() == old(self).size_spec(),
            final(self).layer_spec() == old(self).layer_spec(),
            final(self).fix_color_spec() == old(self).fix_color_spec(),
            input.drag_stopped ==> final(self).stroke_spec() is None,
            input.drag_started && !input.drag_stopped ==> final(self).stroke_spec() is Some,
            !input.drag_started && !input.drag_stopped && old(self).stroke_spec() is None ==> final(self).stroke_spec() is None,
            !input.drag_stopped ==> stroke_of_frame(
                old(self).stroke_spec(),
                final(self).stroke_spec(),
                input,
                width,
                height,
                old(self).size_spec() as usize,
                *line,
            ),
            input.drag_stopped && !input.command_or_ctrl ==> exists|st: Option<StrokeState>|
                #[trigger] stroke_of_frame(old(self).stroke_spec(), st, input, width, height, old(self).size_spec() as usize, *line)
                && match st {
                Some(s) => (r is Some <==> exists|p: int| 0 <= p < s.mask_spec().len() && #[trigger] s.mask_spec()[p])
                    && (r matches Some(x) ==> is_mask_runs(x.0.pixels@, s.mask_spec(), width as int)),
                None => r is None,
            },
            !input.drag_started && !input.dragged && !input.drag_stopped ==> final(self).stroke_spec() == old(self).stroke_spec(),
            r is Some ==> (input.drag_stopped && !input.command_or_ctrl) || (!input.drag_stopped && input.clicked
                && input.cursor is Some),
            r matches Some(x) ==> x.0.wf() && x.0.color == color && x.0.pixels@.len() > 0,
            r matches Some(x) ==> input.drag_stopped ==> x.1 == old(self).layer_spec() is Some,
            r matches Some(x) ==> !input.drag_stopped ==> !x.1,
            r matches Some(x) ==> x.2 == old(self).layer_spec(),
            !input.drag_stopped && input.clicked ==> (r matches Some(x) ==> exists|st: StrokeState|
                #![trigger is_mask_runs(x.0.pixels@, st.mask_spec(), width as int)]
                st.wf() && st.dims() == (width, height) && painted_square(
                    st,
                    clamp_to(input.cursor.unwrap().0 as int, width as int),
                    clamp_to(input.cursor.unwrap().1 as int, height as int),
                    old(self).size_spec() as int,
                ) && is_mask_runs(x.0.pixels@, st.mask_spec(), width as int)),
            !input.drag_stopped && input.clicked && input.cursor is Some ==> r is Some,
            input.drag_stopped && !input.command_or_ctrl ==> (r matches Some(x) ==> runs_of_a_stroke(x.0.pixels@, width, height)),
            !input.drag_started && !input.dragged && input.drag_stopped && !input.command_or_ctrl ==> match old(self).stroke_spec() {
                Some(s0) => (r is Some <==> exists|p: int| 0 <= p < s0.mask_spec().len() && #[trigger] s0.mask_spec()[p])
                    && (r matches Some(x) ==> is_mask_runs(x.0.pixels@, s0.mask_spec(), width as int)),
                None => r is None,
            },
    {
        let half = self.brush_size as usize;
        let ghost s_old = self.stroke;
        if input.drag_started {
            let mut s = StrokeState::new(width, height);
            let ghost s0 = s;
            match input.cursor {
                Some((x, y)) => {
                    let pts = s.stamp_to(x, y, half, line);
                    proof {
                        assert(paints(s0, s, pts@, half as int));
                    }
                },
                None => {},
            }
            proof {
                assert(fresh_stroke(s0, width, height));
            }
            self.stroke = Some(s);
        }
        let ghost s_mid = self.stroke;
        proof {
            assert(stroke_begun(s_old, s_mid, input, width, height, half, *line));
        }
        if input.dragged {
            match self.stroke.take() {
                Some(mut s) => {
                    let ghost s1 = s;
                    match input.cursor {
                        Some((x, y)) => {
                            let pts = s.stamp_to(x, y, half, line);
                            proof {
                                assert(paints(s1, s, pts@, half as int));
                            }
                        },
                        None => {},
                    }
                    self.stroke = Some(s);
                },
                None => {},
            }
        }
        let ghost s_fin = self.stroke;
        proof {
            assert(stroke_dragged(s_mid, s_fin, input, half, *line));
            assert(stroke_of_frame(s_old, s_fin, input, width, height, half, *line));
        }
        if input.drag_stopped {
            if !input.command_or_ctrl {
                match self.stroke.take() {
                    Some(s) => {
                        let ghost st = s;
                        match s.into_pixel_area(color) {
                            Some(area) => {
                                proof {
                                    assert(st.wf() && st.dims() == (width, height));
                                    assert(is_mask_runs(area.pixels@, st.mask_spec(), width as int));
                                    lemma_some_run(area.pixels@, st.mask_spec(), width as int);
                                }
                                let res = (area, self.layer.is_some(), self.layer);
                                proof {
                                    assert(is_mask_runs(res.0.pixels@, st.mask_spec(), width as int));
                                    assert(runs_of_a_stroke(res.0.pixels@, width, height));
                                }
                                Some(res)
                            },
                            None => None,
                        }
                    },
                    None => None,
                }
            } else {
                self.stroke = None;
                None
            }
        } else if input.clicked {
            match input.cursor {
                Some((x, y)) => {
                    let mut s = StrokeState::new(width, height);
                    let ghost s0 = s;
                    let pts = s.stamp_to(x, y, half, line);
                    let ghost cx = clamp_to(x as int, width as int);
                    let ghost cy = clamp_to(y as int, height as int);
                    let ghost st = s;
                    proof {
                        assert forall|px: int, py: int| 0 <= px < st.dims().0 && 0 <= py < st.dims().1
                            implies #[trigger] st.painted(px, py) == in_stamp(cx, cy, half as int, width as int, height as int, px, py) by {
                            lemma_index_bound(width as int, height as int, px, py);
                            assert(!s0.painted(px, py));
                            assert(pts@ == seq![(cx as usize, cy as usize)]);
                            if in_some_stamp(pts@, half as int, width as int, height as int, px, py) {
                                let k = choose|k: int| 0 <= k < pts@.len() && #[trigger] in_stamp_at(pts@[k], half as int, width as int, height as int, px, py);
                            }
                            if in_stamp(cx, cy, half as int, width as int, height as int, px, py) {
                                assert(in_stamp_at(pts@[0], half as int, width as int, height as int, px, py));
                            }
                        }
                        let px = cx;
                        let py = cy;
                        assert(in_stamp(cx, cy, half as int, width as int, height as int, px, py));
                        lemma_index_bound(width as int, height as int, px, py);
                        assert(st.painted(px, py));
                    }
                    match s.into_pixel_area(color) {
                        Some(area) => {
                            proof {
                                lemma_some_run(area.pixels@, st.mask_spec(), width as int);
                            }
                            let res = (area, false, self.layer);
                            proof {
                                assert(st.wf() && st.dims() == (width, height));
                                assert(is_mask_runs(res.0.pixels@, st.mask_spec(), width as int));
                                assert(painted_square(st, cx, cy, half as int));
                            }
                            Some(res)
                        },
                        None => {
                            proof {
                                let p = cy * width + cx;
                                assert(st.mask_spec()[p]);
                            }
                            None
                        },
                    }
                },
                None => None,
            }
        } else {
            None
        }
    }
}

/// Runs that hold exactly the set pixels of a mask with a set pixel are
/// not empty.
proof fn lemma_some_run(out: Seq<PixelRange>, mask: Seq<bool>, w: int)
    requires
        is_mask_runs(out, mask, w),
        exists|p: int| 0 <= p < mask.len() && #[trigger] mask[p],
    ensures
        out.len() > 0,
{
    let p = choose|p: int| 0 <= p < mask.len() && #[trigger] mask[p];
    assert(covers(spans(out), p));
    let k = choose|k: int| 0 <= k < spans(out).len() && #[trigger] in_span(spans(out)[k], p);
}

} // verus!
