//! The result of dragging a rectangle over the image.
use crate::intervals::{sorted_by_start, sorted_disjoint};
use crate::pixel_range::{all_wf, spans, PixelArea, PixelRange};
use vstd::prelude::*;

verus! {

/// A rectangle of pixels `[min_x, max_x] x [min_y, max_y]` of an image of
/// the given width, at least one pixel wide and high, inside the image's
/// columns.
pub struct RectSelectionResult {
    min_x: usize,
    min_y: usize,
    max_x: usize,
    max_y: usize,
    image_width: u32,
}

impl RectSelectionResult {
    pub closed spec fn corners(&self) -> (usize, usize, usize, usize) {
        (self.min_x, self.min_y, self.max_x, self.max_y)
    }

    pub closed spec fn width_spec(&self) -> u32 {
        self.image_width
    }

    /// The rectangle holds at least one column and one row, and its columns
    /// lie inside the image.
    pub open spec fn wf(&self) -> bool {
        &&& self.corners().2 >= self.corners().0
        &&& self.corners().3 >= self.corners().1
        &&& self.width_spec() > 0
        &&& self.corners().2 < self.width_spec()
    }

    /// `None` where the width or the height would be zero (`max_x < min_x`
    /// or `max_y < min_y`) or where the rectangle reaches past the image's
    /// last column.
    pub fn new(min_x: usize, min_y: usize, max_x: usize, max_y: usize, image_width: u32) -> (r: Option<Self>)
        requires
            image_width > 0,
        ensures
            r is Some <==> (max_x >= min_x && max_y >= min_y && max_x < image_width),
            r matches Some(s) ==> s.wf() && s.corners() == (min_x, min_y, max_x, max_y) && s.width_spec() == image_width,
    {
        if max_x >= min_x && max_y >= min_y && max_x < image_width as usize {
            Some(Self { min_x, min_y, max_x, max_y, image_width })
        } else {
            None
        }
    }

    /// The rectangle between the pixel where a drag started and the one
    /// where it stopped, in either order; `None` where it reaches past the
    /// image's last column.
    pub fn from_corners(start: (usize, usize), end: (usize, usize), image_width: u32) -> (r: Option<Self>)
        requires
            image_width > 0,
        ensures
            r is Some <==> (if start.0 < end.0 { end.0 } else { start.0 }) < image_width,
            r matches Some(s) ==> s.wf() && s.width_spec() == image_width && s.corners() == (
                if start.0 < end.0 { start.0 } else { end.0 },
                if start.1 < end.1 { start.1 } else { end.1 },
                if start.0 < end.0 { end.0 } else { start.0 },
                if start.1 < end.1 { end.1 } else { start.1 },
            ),
    {
        let min_x = if start.0 < end.0 { start.0 } else { end.0 };
        let min_y = if start.1 < end.1 { start.1 } else { end.1 };
        let max_x = if start.0 < end.0 { end.0 } else { start.0 };
        let max_y = if start.1 < end.1 { end.1 } else { start.1 };
        Self::new(min_x, min_y, max_x, max_y, image_width)
    }

    /// The number of columns.
    pub fn width(&self) -> (w: usize)
        requires
            self.wf(),
            self.corners().2 - self.corners().0 + 1 <= usize::MAX,
        ensures
            w == self.corners().2 - self.corners().0 + 1,
            w >= 1,
    {
        self.max_x - self.min_x + 1
    }

    /// The number of rows.
    pub fn height(&self) -> (h: usize)
        requires
            self.wf(),
            self.corners().3 - self.corners().1 + 1 <= usize::MAX,
        ensures
            h == self.corners().3 - self.corners().1 + 1,
            h >= 1,
    {
        self.max_y - self.min_y + 1
    }

    /// `[[min_x, min_y], [max_x, max_y]]`.
    pub fn bounds(&self) -> (b: [[usize; 2]; 2])
        ensures
            b[0][0] == self.corners().0,
            b[0][1] == self.corners().1,
            b[1][0] == self.corners().2,
            b[1][1] == self.corners().3,
    {
        [[self.min_x, self.min_y], [self.max_x, self.max_y]]
    }

    /// One run per row, from `min_y` to `max_y`: the row's pixels from
    /// `min_x` to `max_x` in the flattened image. Every position must fit
    /// `u32` and the width must fit a run.
    pub fn iter_ranges(&self, confidence: u8) -> (out: Vec<PixelRange>)
        requires
            self.wf(),
            self.corners().2 - self.corners().0 + 1 <= 65535,
            self.corners().3 * self.width_spec() + self.corners().2 + 1 <= u32::MAX,
        ensures
            out@.len() == self.corners().3 - self.corners().1 + 1,
            all_wf(out@),
            forall|i: int| 0 <= i < out@.len() ==> (#[trigger] out@[i]).conf() == confidence
                && out@[i].span() == (
                    ((self.corners().1 + i) * self.width_spec() + self.corners().0) as u32,
                    ((self.corners().1 + i) * self.width_spec() + self.corners().2 + 1) as u32,
                ),
            sorted_by_start(spans(out@)),
            self.corners().2 < self.corners().0 + self.width_spec() ==> sorted_disjoint(spans(out@)),
    {
        let length: u16 = (self.max_x - self.min_x + 1) as u16;
        let w = self.image_width;
        let mut out: Vec<PixelRange> = Vec::new();
        let mut y: usize = self.min_y;
        while y <= self.max_y
            invariant
                self.wf(),
                self.corners().2 - self.corners().0 + 1 <= 65535,
                self.corners().3 * self.width_spec() + self.corners().2 + 1 <= u32::MAX,
                w == self.width_spec(),
                length == self.corners().2 - self.corners().0 + 1,
                self.min_y <= y <= self.max_y + 1,
                out@.len() == y - self.min_y,
                all_wf(out@),
                forall|i: int| 0 <= i < out@.len() ==> (#[trigger] out@[i]).conf() == confidence
                    && out@[i].span() == (
                        ((self.corners().1 + i) * self.width_spec() + self.corners().0) as u32,
                        ((self.corners().1 + i) * self.width_spec() + self.corners().2 + 1) as u32,
                    ),
            decreases self.max_y + 1 - y,
        {
            proof {
                assert(y * w <= self.max_y * w) by (nonlinear_arith)
                    requires
                        y <= self.max_y,
                ;
                assert(y <= y * w) by (nonlinear_arith)
                    requires
                        w >= 1,
                ;
            }
            let start: u32 = (y as u32) * w + self.min_x as u32;
            let r = PixelRange::new(start, length, confidence);
            let ghost out0 = out@;
            out.push(r);
            proof {
                assert forall|i: int| 0 <= i < out@.len() implies (#[trigger] out@[i]).conf() == confidence
                    && out@[i].span() == (
                        ((self.corners().1 + i) * self.width_spec() + self.corners().0) as u32,
                        ((self.corners().1 + i) * self.width_spec() + self.corners().2 + 1) as u32,
                    ) by {
                    if i < out0.len() {
                        assert(out@[i] == out0[i]);
                    }
                }
            }
            y = y + 1;
        }
        proof {
            let s = spans(out@);
            assert forall|i: int| 0 <= i < s.len() implies #[trigger] s[i].0 < s[i].1 by {
                assert(out@[i].wf());
            }
            assert forall|i: int, j: int| 0 <= i < j < s.len() implies #[trigger] s[i].0 <= #[trigger] s[j].0
                && (self.corners().2 < self.corners().0 + w ==> s[i].1 <= s[j].0) by {
                let a = self.corners().1 + i;
                let b = self.corners().1 + j;
                assert(a * w + w <= b * w) by (nonlinear_arith)
                    requires
                        a < b,
                ;
                assert(b * w <= self.corners().3 * w) by (nonlinear_arith)
                    requires
                        b <= self.corners().3,
                ;
            }
            if self.corners().2 < self.corners().0 + w {
                assert forall|i: int, j: int| 0 <= i < j < s.len() implies #[trigger] s[i].1 <= #[trigger] s[j].0 by {
                    assert(s[i].0 <= s[j].0 && (self.corners().2 < self.corners().0 + w ==> s[i].1 <= s[j].0));
                }
            }
        }
        out
    }

    /// The rectangle as an area of the given confidence and colour.
    pub fn into_pixel_area(self, confidence: u8, color: [u8; 3]) -> (a: PixelArea)
        requires
            self.wf(),
            self.corners().2 - self.corners().0 + 1 <= 65535,
            self.corners().3 * self.width_spec() + self.corners().2 + 1 <= u32::MAX,
        ensures
            self.corners().2 < self.corners().0 + self.width_spec() ==> a.wf(),
            all_wf(a.pixels@),
            sorted_by_start(spans(a.pixels@)),
            a.color == color,
            a.pixels@.len() == self.corners().3 - self.corners().1 + 1,
            forall|i: int| 0 <= i < a.pixels@.len() ==> (#[trigger] a.pixels@[i]).conf() == confidence
                && a.pixels@[i].span() == (
                    ((self.corners().1 + i) * self.width_spec() + self.corners().0) as u32,
                    ((self.corners().1 + i) * self.width_spec() + self.corners().2 + 1) as u32,
                ),
    {
        let pixel_ranges = self.iter_ranges(confidence);
        PixelArea::new(pixel_ranges, color)
    }
}

} // verus!
