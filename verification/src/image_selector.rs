//! The choice of the current image in the list of images of a storage, and
//! the moves between images: one step back or forward, or to the nearest
//! image that already has masks, wrapping around the list.
use crate::image_state::ImageListTaskItem;
use vstd::prelude::*;

verus! {

/// The image at `j` exists and has masks.
pub open spec fn annotated(items: Seq<ImageListTaskItem>, j: int) -> bool {
    0 <= j < items.len() && items[j].has_masks
}

/// How many steps back, wrapping around a list of `len` images, lead from
/// `start` to `j` (both inside the list).
pub open spec fn back_dist(start: int, j: int, len: int) -> int {
    if j <= start { start - j } else { start + len - j }
}

/// How many steps forward, wrapping around a list of `len` images, lead from
/// `start` to `j` (both inside the list).
pub open spec fn fwd_dist(start: int, j: int, len: int) -> int {
    if j >= start { j - start } else { j + len - start }
}

/// Where one step back from `i` leads in a list of `len` images: the image
/// before, or the last one from the first.
pub open spec fn step_back(i: int, len: int) -> int {
    if i == 0 { len - 1 } else { i - 1 }
}

/// Where the search backwards for an image with masks ends, starting at
/// `start`: the annotated image other than `start` fewest steps back, or
/// `start` where there is none. From a position past the end of the list, the
/// search walks down to the list and takes the last annotated image.
pub open spec fn prev_annotated_target(items: Seq<ImageListTaskItem>, start: int, t: int) -> bool {
    let len = items.len() as int;
    if start < len {
        ||| (annotated(items, t) && t != start && forall|k: int| #[trigger] annotated(items, k) && k != start
            ==> back_dist(start, t, len) <= back_dist(start, k, len))
        ||| (t == start && forall|k: int| #[trigger] annotated(items, k) ==> k == start)
    } else {
        annotated(items, t) && forall|k: int| #[trigger] annotated(items, k) ==> k <= t
    }
}

/// Where the search forwards for an image with masks ends, starting at
/// `start`: the annotated image other than `start` fewest steps forward, or
/// `start` where there is none. From a position past the end of the list, the
/// search goes on at `(start + 1) % len` and takes the first annotated image
/// from there on, wrapping around.
pub open spec fn next_annotated_target(items: Seq<ImageListTaskItem>, start: int, t: int) -> bool {
    let len = items.len() as int;
    if start < len {
        ||| (annotated(items, t) && t != start && forall|k: int| #[trigger] annotated(items, k) && k != start
            ==> fwd_dist(start, t, len) <= fwd_dist(start, k, len))
        ||| (t == start && forall|k: int| #[trigger] annotated(items, k) ==> k == start)
    } else {
        let s0 = (start + 1) % len;
        annotated(items, t) && forall|k: int| #[trigger] annotated(items, k)
            ==> fwd_dist(s0, t, len) <= fwd_dist(s0, k, len)
    }
}

/// The search of an image with masks ends: some image has masks, or the
/// search starts inside the list and comes back to where it started.
pub open spec fn search_ends(items: Seq<ImageListTaskItem>, start: int) -> bool {
    start < items.len() || exists|k: int| #[trigger] annotated(items, k)
}

/// The list of images of a storage (or why it could not be read) and the
/// position of the current image in it.
pub struct ImageSelector {
    idx: usize,
    values: Result<Vec<ImageListTaskItem>, String>,
}

impl ImageSelector {
    pub closed spec fn index(&self) -> usize {
        self.idx
    }

    /// The images, or `None` where the list could not be read.
    pub closed spec fn items(&self) -> Option<Seq<ImageListTaskItem>> {
        match self.values {
            Ok(v) => Some(v@),
            Err(_) => None,
        }
    }

    /// The position stays below `usize::MAX`, so that a step forward fits.
    pub open spec fn wf(&self) -> bool {
        self.index() < usize::MAX
    }

    /// No image yet, the first position.
    pub fn new() -> (s: Self)
        ensures
            s.wf(),
            s.index() == 0,
            s.items() == Some(Seq::<ImageListTaskItem>::empty()),
    {
        Self { idx: 0, values: Ok(Vec::new()) }
    }

    /// Takes a freshly read list of images (or the reason it could not be
    /// read); the position stays.
    pub fn set_values(&mut self, values: Result<Vec<ImageListTaskItem>, String>)
        ensures
            final(self).index() == old(self).index(),
            final(self).items() == match values {
                Ok(v) => Some(v@),
                Err(_) => None::<Seq<ImageListTaskItem>>,
            },
    {
        self.values = values;
    }

    /// The position of the current image.
    pub fn position(&self) -> (i: usize)
        ensures
            i == self.index(),
    {
        self.idx
    }

    /// The number of images; none where the list could not be read.
    pub fn len(&self) -> (n: usize)
        ensures
            n == match self.items() {
                Some(v) => v.len(),
                None => 0,
            },
    {
        match &self.values {
            Ok(v) => v.len(),
            Err(_) => 0,
        }
    }

    /// The image at `i`, if there is one.
    pub fn item(&self, i: usize) -> (c: Option<&ImageListTaskItem>)
        ensures
            c matches Some(x) <==> (self.items() matches Some(v) && i < v.len()),
            c matches Some(x) ==> *x == self.items().unwrap()[i as int],
    {
        match &self.values {
            Ok(v) => {
                if i < v.len() {
                    Some(&v[i])
                } else {
                    None
                }
            },
            Err(_) => None,
        }
    }

    /// The current image, if the list was read and the position is inside it.
    pub fn current(&self) -> (c: Option<&ImageListTaskItem>)
        ensures
            c matches Some(x) <==> (self.items() matches Some(v) && self.index() < v.len()),
            c matches Some(x) ==> *x == self.items().unwrap()[self.index() as int],
    {
        match &self.values {
            Ok(v) => {
                if self.idx < v.len() {
                    Some(&v[self.idx])
                } else {
                    None
                }
            },
            Err(_) => None,
        }
    }

    /// One image back, from the first to the last. Tells whether the image
    /// state has to be reset: whenever the list holds an image.
    pub fn prev(&mut self) -> (reset: bool)
        requires
            old(self).wf(),
        ensures
            final(self).wf(),
            final(self).items() == old(self).items(),
            reset <==> (old(self).items() matches Some(v) && v.len() > 0),
            reset ==> final(self).index() == step_back(old(self).index() as int, old(self).items().unwrap().len() as int),
            !reset ==> final(self).index() == old(self).index(),
    {
        let len = match &self.values {
            Ok(v) => v.len(),
            Err(_) => 0,
        };
        if len == 0 {
            return false;
        }
        self.idx = if self.idx == 0 { len - 1 } else { self.idx - 1 };
        true
    }

    /// One image forward, from the last to the first. Tells whether the image
    /// state has to be reset: whenever the list holds an image.
    pub fn next(&mut self) -> (reset: bool)
        requires
            old(self).wf(),
        ensures
            final(self).wf(),
            final(self).items() == old(self).items(),
            reset <==> (old(self).items() matches Some(v) && v.len() > 0),
            reset ==> final(self).index() == (old(self).index() + 1) % (old(self).items().unwrap().len() as int),
            !reset ==> final(self).index() == old(self).index(),
    {
        let len = match &self.values {
            Ok(v) => v.len(),
            Err(_) => 0,
        };
        if len == 0 {
            return false;
        }
        self.idx = (self.idx + 1) % len;
        true
    }

    /// Picks the image at `index`; tells whether that changed the current
    /// image.
    pub fn select(&mut self, index: usize) -> (changed: bool)
        requires
            old(self).wf(),
        ensures
            final(self).wf(),
            final(self).items() == old(self).items(),
            changed <==> (old(self).items() matches Some(v) && index < v.len() && index != old(self).index()),
            final(self).index() == if changed { index } else { old(self).index() },
    {
        let len = match &self.values {
            Ok(v) => v.len(),
            Err(_) => 0,
        };
        if index < len && index != self.idx {
            self.idx = index;
            true
        } else {
            false
        }
    }

    /// Tells whether a search for an image with masks ends: the list is
    /// missing or empty, the position is inside it, or some image has masks.
    pub fn can_search_annotated(&self) -> (b: bool)
        ensures
            b == (self.items() matches Some(v) ==> v.len() > 0 ==> search_ends(v, self.index() as int)),
    {
        match &self.values {
            Ok(v) => {
                if v.len() == 0 || self.idx < v.len() {
                    return true;
                }
                let mut k: usize = 0;
                while k < v.len()
                    invariant
                        k <= v@.len(),
                        self.items() == Some(v@),
                        forall|j: int| 0 <= j < k ==> !#[trigger] annotated(v@, j),
                    decreases v@.len() - k,
                {
                    if v[k].has_masks {
                        proof {
                            assert(annotated(v@, k as int));
                        }
                        return true;
                    }
                    k = k + 1;
                }
                false
            },
            Err(_) => true,
        }
    }

    /// Moves back to the nearest image with masks, wrapping around, and
    /// stays where no other image has masks. Tells whether the image state
    /// has to be reset: whenever the list holds an image. From a position
    /// past the end of the list with no image with masks the search would not
    /// end: that input is left out.
    pub fn prev_annotated(&mut self) -> (reset: bool)
        requires
            old(self).wf(),
            old(self).items() matches Some(v) ==> v.len() > 0 ==> search_ends(v, old(self).index() as int),
        ensures
            final(self).wf(),
            final(self).items() == old(self).items(),
            reset <==> (old(self).items() matches Some(v) && v.len() > 0),
            reset ==> prev_annotated_target(old(self).items().unwrap(), old(self).index() as int, final(self).index() as int),
            !reset ==> final(self).index() == old(self).index(),
    {
        let found = match &self.values {
            Ok(v) => {
                if v.len() == 0 {
                    None
                } else {
                    Some(prev_annotated_in(v, self.idx))
                }
            },
            Err(_) => None,
        };
        match found {
            Some(t) => {
                self.idx = t;
                true
            },
            None => false,
        }
    }

    /// Moves forward to the nearest image with masks, wrapping around, and
    /// stays where no other image has masks. Tells whether the image state
    /// has to be reset: whenever the list holds an image. From a position
    /// past the end of the list with no image with masks the search would not
    /// end: that input is left out.
    pub fn next_annotated(&mut self) -> (reset: bool)
        requires
            old(self).wf(),
            old(self).items() matches Some(v) ==> v.len() > 0 ==> search_ends(v, old(self).index() as int),
        ensures
            final(self).wf(),
            final(self).items() == old(self).items(),
            reset <==> (old(self).items() matches Some(v) && v.len() > 0),
            reset ==> next_annotated_target(old(self).items().unwrap(), old(self).index() as int, final(self).index() as int),
            !reset ==> final(self).index() == old(self).index(),
    {
        let found = match &self.values {
            Ok(v) => {
                if v.len() == 0 {
                    None
                } else {
                    Some(next_annotated_in(v, self.idx))
                }
            },
            Err(_) => None,
        };
        match found {
            Some(t) => {
                self.idx = t;
                true
            },
            None => false,
        }
    }
}

/// The position the search backwards for an image with masks ends at.
fn prev_annotated_in(items: &Vec<ImageListTaskItem>, start: usize) -> (t: usize)
    requires
        items@.len() > 0,
        start < usize::MAX,
        search_ends(items@, start as int),
    ensures
        prev_annotated_target(items@, start as int, t as int),
        t < usize::MAX,
{
    let len = items.len();
    let ghost s = items@;
    if start >= len {
        let mut j: usize = len;
        while j > 0
            invariant
                j <= len,
                start >= len,
                len == s.len(),
                s == items@,
                forall|k: int| j <= k < len ==> !#[trigger] annotated(s, k),
            decreases j,
        {
            if items[j - 1].has_masks {
                proof {
                    assert(annotated(s, j - 1));
                    assert forall|k: int| #[trigger] annotated(s, k) implies k <= j - 1 by {
                        if k >= j {
                            assert(!annotated(s, k));
                        }
                    }
                }
                return j - 1;
            }
            j = j - 1;
        }
        proof {
            let k = choose|k: int| #[trigger] annotated(s, k);
            assert(false);
        }
        return 0;
    }
    let mut d: usize = 1;
    while d < len
        invariant
            1 <= d <= len,
            start < len,
            len == s.len(),
            s == items@,
            forall|k: int| #[trigger] annotated(s, k) && k != start ==> back_dist(start as int, k, len as int) >= d,
        decreases len - d,
    {
        let j = if d <= start { start - d } else { len - (d - start) };
        if items[j].has_masks {
            return j;
        }
        proof {
            assert forall|k: int| #[trigger] annotated(s, k) && k != start implies back_dist(start as int, k, len as int) >= d + 1 by {
                if back_dist(start as int, k, len as int) == d {
                    assert(k == j);
                }
            }
        }
        d = d + 1;
    }
    start
}

/// The position the search forwards for an image with masks ends at.
fn next_annotated_in(items: &Vec<ImageListTaskItem>, start: usize) -> (t: usize)
    requires
        items@.len() > 0,
        start < usize::MAX,
        search_ends(items@, start as int),
    ensures
        next_annotated_target(items@, start as int, t as int),
        t < usize::MAX,
{
    let len = items.len();
    let ghost s = items@;
    if start >= len {
        let s0 = (start + 1) % len;
        let mut d: usize = 0;
        while d < len
            invariant
                d <= len,
                start >= len,
                s0 == (start + 1) % (len as int),
                s0 < len,
                len == s.len(),
                s == items@,
                forall|k: int| #[trigger] annotated(s, k) ==> fwd_dist(s0 as int, k, len as int) >= d,
            decreases len - d,
        {
            let j = if d < len - s0 { s0 + d } else { d - (len - s0) };
            if items[j].has_masks {
                proof {
                    assert(annotated(s, j as int));
                    assert(fwd_dist(s0 as int, j as int, len as int) == d);
                }
                return j;
            }
            proof {
                assert forall|k: int| #[trigger] annotated(s, k) implies fwd_dist(s0 as int, k, len as int) >= d + 1 by {
                    if fwd_dist(s0 as int, k, len as int) == d {
                        assert(k == j);
                    }
                }
            }
            d = d + 1;
        }
        proof {
            let k = choose|k: int| #[trigger] annotated(s, k);
            assert(false);
        }
        return 0;
    }
    let mut d: usize = 1;
    while d < len
        invariant
            1 <= d <= len,
            start < len,
            len == s.len(),
            s == items@,
            forall|k: int| #[trigger] annotated(s, k) && k != start ==> fwd_dist(start as int, k, len as int) >= d,
        decreases len - d,
    {
        let j = if d < len - start { start + d } else { d - (len - start) };
        if items[j].has_masks {
            return j;
        }
        proof {
            assert forall|k: int| #[trigger] annotated(s, k) && k != start implies fwd_dist(start as int, k, len as int) >= d + 1 by {
                if fwd_dist(start as int, k, len as int) == d {
                    assert(k == j);
                }
            }
        }
        d = d + 1;
    }
    start
}

/// A step forward and a step back, in either order, lead back to the image
/// one started from.
pub proof fn lemma_next_then_prev(i: int, len: int)
    requires
        0 <= i < len,
    ensures
        step_back((i + 1) % len, len) == i,
        (step_back(i, len) + 1) % len == i,
{
    if i + 1 < len {
        vstd::arithmetic::div_mod::lemma_small_mod((i + 1) as nat, len as nat);
    } else {
        vstd::arithmetic::div_mod::lemma_mod_self_0(len);
    }
    if i == 0 {
        vstd::arithmetic::div_mod::lemma_mod_self_0(len);
    } else {
        vstd::arithmetic::div_mod::lemma_small_mod(i as nat, len as nat);
    }
}

} // verus!
