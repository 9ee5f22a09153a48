//! Areas on numbered layers: a layer holds one area or nothing.
use crate::pixel_range::PixelArea;
use std::collections::VecDeque;
use vstd::prelude::*;

verus! {

/// The first item of `s` at or after `from` that holds a value.
pub open spec fn first_some<T>(s: Seq<Option<T>>, k: int) -> bool {
    &&& 0 <= k < s.len()
    &&& s[k] is Some
    &&& forall|j: int| 0 <= j < k ==> #[trigger] s[j] is None
}

/// The last item of `s` that holds a value.
pub open spec fn last_some<T>(s: Seq<Option<T>>, k: int) -> bool {
    &&& 0 <= k < s.len()
    &&& s[k] is Some
    &&& forall|j: int| k < j < s.len() ==> #[trigger] s[j] is None
}

/// Walks the layers that hold a value, with their numbers, from either end.
pub struct PixelAreaStackIter<T> {
    index: usize,
    end_index: usize,
    inner: VecDeque<Option<T>>,
}

impl<T> PixelAreaStackIter<T> {
    /// The layers not walked yet.
    pub closed spec fn rest(&self) -> Seq<Option<T>> {
        self.inner@
    }

    /// The number of the first layer not walked yet.
    pub closed spec fn front(&self) -> int {
        self.index as int
    }

    /// The layers not walked yet are numbered from `front()` on.
    pub closed spec fn wf(&self) -> bool {
        self.index + self.inner@.len() == self.end_index
    }

    /// Walks the given layers, numbered from 0.
    pub fn new(layers: VecDeque<Option<T>>) -> (it: Self)
        ensures
            it.wf(),
            it.rest() == layers@,
            it.front() == 0,
    {
        let end_index = layers.len();
        Self { index: 0, end_index, inner: layers }
    }

    /// The next layer from the front that holds a value, with its number;
    /// the empty layers before it are passed over.
    pub fn next(&mut self) -> (r: Option<(usize, T)>)
        requires
            old(self).wf(),
        ensures
            final(self).wf(),
            r is None <==> forall|j: int| 0 <= j < old(self).rest().len() ==> #[trigger] old(self).rest()[j] is None,
            r is None ==> final(self).rest().len() == 0,
            r matches Some(p) ==> {
                let k = p.0 - old(self).front();
                &&& first_some(old(self).rest(), k)
                &&& old(self).rest()[k] == Some(p.1)
                &&& final(self).rest() == old(self).rest().skip(k + 1)
                &&& final(self).front() == p.0 + 1
            },
    {
        let ghost s0 = self.inner@;
        let ghost f0 = self.index as int;
        loop
            invariant
                self.wf(),
                s0 == old(self).inner@,
                f0 == old(self).index,
                f0 <= self.index,
                self.inner@ == s0.skip(self.index - f0),
                self.index - f0 <= s0.len(),
                forall|j: int| 0 <= j < self.index - f0 ==> #[trigger] s0[j] is None,
            decreases self.inner@.len(),
        {
            let ghost before = self.inner@;
            let next = self.inner.pop_front();
            match next {
                None => {
                    proof {
                        assert(self.index - f0 == s0.len());
                    }
                    return None;
                },
                Some(item) => {
                    let cur_index = self.index;
                    proof {
                        assert(item == before[0]);
                        assert(before[0] == s0[cur_index - f0]);
                        assert(self.inner@ =~= s0.skip(cur_index - f0 + 1));
                    }
                    self.index = self.index + 1;
                    match item {
                        Some(x) => {
                            return Some((cur_index, x));
                        },
                        None => {},
                    }
                },
            }
        }
    }

    /// The next layer from the back that holds a value, with its number;
    /// the empty layers after it are passed over.
    pub fn next_back(&mut self) -> (r: Option<(usize, T)>)
        requires
            old(self).wf(),
        ensures
            final(self).wf(),
            final(self).front() == old(self).front(),
            r is None <==> forall|j: int| 0 <= j < old(self).rest().len() ==> #[trigger] old(self).rest()[j] is None,
            r is None ==> final(self).rest().len() == 0,
            r matches Some(p) ==> {
                let k = p.0 - old(self).front();
                &&& last_some(old(self).rest(), k)
                &&& old(self).rest()[k] == Some(p.1)
                &&& final(self).rest() == old(self).rest().take(k)
            },
    {
        let ghost s0 = self.inner@;
        loop
            invariant
                self.wf(),
                self.index == old(self).index,
                self.inner@ == s0.take(self.inner@.len() as int),
                self.inner@.len() <= s0.len(),
                forall|j: int| self.inner@.len() <= j < s0.len() ==> #[trigger] s0[j] is None,
                s0 == old(self).inner@,
            decreases self.inner@.len(),
        {
            let ghost before = self.inner@;
            let next = self.inner.pop_back();
            match next {
                None => {
                    return None;
                },
                Some(item) => {
                    proof {
                        assert(before.last() == s0[before.len() - 1]);
                        assert(self.inner@ =~= s0.take(before.len() - 1));
                    }
                    self.end_index = self.end_index - 1;
                    match item {
                        Some(x) => {
                            return Some((self.end_index, x));
                        },
                        None => {},
                    }
                },
            }
        }
    }
}

/// The layers of a stack built from numbered areas: there are as many layers
/// as the highest number plus one; a layer holds the area that came last with
/// its number, or nothing where no area has its number.
pub open spec fn built_from(layers: Seq<Option<PixelArea>>, pairs: Seq<(usize, PixelArea)>) -> bool {
    &&& forall|k: int| 0 <= k < pairs.len() ==> (#[trigger] pairs[k]).0 < layers.len()
    &&& layers.len() == 0 || exists|k: int| 0 <= k < pairs.len() && (#[trigger] pairs[k]).0 == layers.len() - 1
    &&& forall|j: int| 0 <= j < layers.len() ==> (#[trigger] layers[j] is None
        <==> forall|k: int| 0 <= k < pairs.len() ==> (#[trigger] pairs[k]).0 != j)
    &&& forall|k: int| 0 <= k < pairs.len() && (forall|k2: int| k < k2 < pairs.len() ==> (#[trigger] pairs[k2]).0 != pairs[k].0)
        ==> layers[(#[trigger] pairs[k]).0 as int] == Some(pairs[k].1)
}

/// The layers with empty ones added so that there is a layer `index`.
pub open spec fn padded(layers: Seq<Option<PixelArea>>, index: int) -> Seq<Option<PixelArea>> {
    if index < layers.len() {
        layers
    } else {
        layers + Seq::new((index + 1 - layers.len()) as nat, |j: int| None::<PixelArea>)
    }
}

/// Areas on numbered layers.
pub struct PixelAreaStack {
    areas: Vec<Option<PixelArea>>,
}

impl PixelAreaStack {
    /// The layers, each holding an area or nothing.
    pub closed spec fn layers(&self) -> Seq<Option<PixelArea>> {
        self.areas@
    }

    /// No layer.
    pub fn new() -> (s: Self)
        ensures
            s.layers().len() == 0,
    {
        Self { areas: Vec::new() }
    }

    /// One layer per area, in order.
    pub fn from_areas(areas: Vec<PixelArea>) -> (s: Self)
        ensures
            s.layers().len() == areas@.len(),
            forall|i: int| 0 <= i < areas@.len() ==> #[trigger] s.layers()[i] == Some(areas@[i]),
    {
        let ghost a0 = areas@;
        let mut areas = areas;
        let mut rev: Vec<Option<PixelArea>> = Vec::new();
        while areas.len() > 0
            invariant
                areas@ == a0.take(areas@.len() as int),
                areas@.len() <= a0.len(),
                rev@.len() + areas@.len() == a0.len(),
                forall|i: int| 0 <= i < rev@.len() ==> #[trigger] rev@[i] == Some(a0[a0.len() - 1 - i]),
            decreases areas@.len(),
        {
            let ghost before = areas@;
            let a = areas.pop().unwrap();
            proof {
                assert(areas@ =~= a0.take(areas@.len() as int));
                assert(a == before.last());
            }
            rev.push(Some(a));
        }
        let mut out: Vec<Option<PixelArea>> = Vec::new();
        while rev.len() > 0
            invariant
                rev@.len() + out@.len() == a0.len(),
                forall|i: int| 0 <= i < rev@.len() ==> #[trigger] rev@[i] == Some(a0[a0.len() - 1 - i]),
                forall|i: int| 0 <= i < out@.len() ==> #[trigger] out@[i] == Some(a0[i]),
            decreases rev@.len(),
        {
            let ghost before = rev@;
            let a = rev.pop().unwrap();
            proof {
                assert(a == before[before.len() - 1]);
            }
            out.push(a);
        }
        Self { areas: out }
    }

    /// The area on layer `i`, if there is that layer and it holds one.
    pub fn get(&self, i: usize) -> (r: Option<&PixelArea>)
        ensures
            r matches Some(a) <==> (i < self.layers().len() && self.layers()[i as int] is Some),
            r matches Some(a) ==> self.layers()[i as int] == Some(*a),
    {
        if i < self.areas.len() {
            match &self.areas[i] {
                Some(a) => Some(a),
                None => None,
            }
        } else {
            None
        }
    }

    /// Builds the layers from numbered areas, in any order; a later area
    /// replaces an earlier one with the same number.
    pub fn from_iter(areas: Vec<(usize, PixelArea)>) -> (s: Self)
        requires
            forall|k: int| 0 <= k < areas@.len() ==> (#[trigger] areas@[k]).0 < usize::MAX,
        ensures
            built_from(s.layers(), areas@),
    {
        let ghost p0 = areas@;
        let n = areas.len();
        let mut top: usize = 0;
        let mut k: usize = 0;
        while k < n
            invariant
                n == p0.len(),
                p0 == areas@,
                k <= n,
                forall|k: int| 0 <= k < p0.len() ==> (#[trigger] p0[k]).0 < usize::MAX,
                forall|i: int| 0 <= i < k ==> (#[trigger] p0[i]).0 < top,
                top == 0 || exists|i: int| 0 <= i < k && (#[trigger] p0[i]).0 == top - 1,
            decreases n - k,
        {
            if areas[k].0 >= top {
                top = areas[k].0 + 1;
            }
            k = k + 1;
        }
        let mut all: Vec<Option<PixelArea>> = Vec::new();
        while all.len() < top
            invariant
                all@.len() <= top,
                forall|j: int| 0 <= j < all@.len() ==> #[trigger] all@[j] is None,
            decreases top - all@.len(),
        {
            all.push(None);
        }
        let mut areas = areas;
        while areas.len() > 0
            invariant
                n == p0.len(),
                areas@ == p0.take(areas@.len() as int),
                areas@.len() <= n,
                all@.len() == top,
                forall|i: int| 0 <= i < p0.len() ==> (#[trigger] p0[i]).0 < top,
                forall|j: int| 0 <= j < top ==> (#[trigger] all@[j] is None
                    <==> forall|k: int| areas@.len() <= k < n ==> (#[trigger] p0[k]).0 != j),
                forall|k: int| areas@.len() <= k < n && (forall|k2: int| k < k2 < n ==> (#[trigger] p0[k2]).0 != p0[k].0)
                    ==> all@[(#[trigger] p0[k]).0 as int] == Some(p0[k].1),
            decreases areas@.len(),
        {
            let ghost m = areas@.len() - 1;
            let ghost before_all = all@;
            let (i, a) = areas.pop().unwrap();
            proof {
                assert(areas@ =~= p0.take(m));
                assert(p0[m] == (i, a));
            }
            let empty = match &all[i] {
                Some(_) => false,
                None => true,
            };
            if empty {
                all.set(i, Some(a));
                proof {
                    assert forall|k: int| m <= k < n && (forall|k2: int| k < k2 < n ==> (#[trigger] p0[k2]).0 != p0[k].0)
                        implies all@[(#[trigger] p0[k]).0 as int] == Some(p0[k].1) by {
                        if k > m && p0[k].0 == i {
                            assert(before_all[i as int] is Some);
                        }
                    }
                }
            } else {
                proof {
                    let k1 = choose|k: int| m + 1 <= k < n && (#[trigger] p0[k]).0 == i;
                    assert forall|k: int| m <= k < n && (forall|k2: int| k < k2 < n ==> (#[trigger] p0[k2]).0 != p0[k].0)
                        implies all@[(#[trigger] p0[k]).0 as int] == Some(p0[k].1) by {
                        if k == m {
                            assert(p0[k1].0 == p0[k].0);
                        }
                    }
                }
            }
        }
        Self { areas: all }
    }

    /// The number of layers.
    pub fn max_layer(&self) -> (n: usize)
        ensures
            n == self.layers().len(),
    {
        self.areas.len()
    }

    /// No layer holds an area.
    pub fn is_empty(&self) -> (b: bool)
        ensures
            b <==> forall|j: int| 0 <= j < self.layers().len() ==> #[trigger] self.layers()[j] is None,
    {
        let mut k: usize = 0;
        while k < self.areas.len()
            invariant
                k <= self.areas@.len(),
                forall|j: int| 0 <= j < k ==> #[trigger] self.areas@[j] is None,
            decreases self.areas@.len() - k,
        {
            if self.areas[k].is_some() {
                return false;
            }
            k = k + 1;
        }
        true
    }

    /// Walks the layers that hold an area, with their numbers.
    pub fn iter(&self) -> (it: PixelAreaStackIter<&PixelArea>)
        ensures
            it.wf(),
            it.front() == 0,
            it.rest().len() == self.layers().len(),
            forall|j: int| 0 <= j < self.layers().len() ==> match #[trigger] self.layers()[j] {
                Some(a) => it.rest()[j] == Some(&a),
                None => it.rest()[j] is None,
            },
    {
        let mut inner: VecDeque<Option<&PixelArea>> = VecDeque::new();
        let mut k: usize = 0;
        while k < self.areas.len()
            invariant
                k <= self.areas@.len(),
                inner@.len() == k,
                forall|j: int| 0 <= j < k ==> match #[trigger] self.areas@[j] {
                    Some(a) => inner@[j] == Some(&a),
                    None => inner@[j] is None,
                },
            decreases self.areas@.len() - k,
        {
            let item = match &self.areas[k] {
                Some(a) => Some(a),
                None => None,
            };
            inner.push_back(item);
            k = k + 1;
        }
        PixelAreaStackIter::new(inner)
    }

    /// The layers as a list, each area copied.
    pub fn to_option_vec(&self) -> (out: Vec<Option<PixelArea>>)
        ensures
            out@.len() == self.layers().len(),
            forall|j: int| 0 <= j < out@.len() ==> match #[trigger] self.layers()[j] {
                Some(a) => out@[j] matches Some(b) && b@ == a@,
                None => out@[j] is None,
            },
    {
        let mut out: Vec<Option<PixelArea>> = Vec::new();
        let mut k: usize = 0;
        while k < self.areas.len()
            invariant
                k <= self.areas@.len(),
                out@.len() == k,
                forall|j: int| 0 <= j < k ==> match #[trigger] self.areas@[j] {
                    Some(a) => out@[j] matches Some(b) && b@ == a@,
                    None => out@[j] is None,
                },
            decreases self.areas@.len() - k,
        {
            let item = match &self.areas[k] {
                Some(a) => Some(a.duplicate()),
                None => None,
            };
            out.push(item);
            k = k + 1;
        }
        out
    }

    /// The stack with the given layers.
    pub fn from_option_vec(areas: Vec<Option<PixelArea>>) -> (s: Self)
        ensures
            s.layers() == areas@,
    {
        Self { areas }
    }

    /// The layer `index`, for changing it in place; empty layers are added up
    /// to it where there are fewer.
    pub fn make_mut(&mut self, index: usize) -> (layer: &mut Option<PixelArea>)
        requires
            index < usize::MAX,
        ensures
            *layer == padded(old(self).layers(), index as int)[index as int],
            final(self).layers() == padded(old(self).layers(), index as int).update(index as int, *final(layer)),
    {
        let ghost padded_layers = padded(old(self).layers(), index as int);
        while self.areas.len() <= index
            invariant
                index < usize::MAX,
                padded_layers == padded(old(self).layers(), index as int),
                old(self).layers().len() <= self.areas@.len(),
                self.areas@.len() <= old(self).layers().len() || self.areas@.len() <= index + 1,
                forall|j: int| 0 <= j < self.areas@.len() ==> #[trigger] self.areas@[j] == if j < old(self).layers().len() {
                    old(self).layers()[j]
                } else {
                    None
                },
            decreases index + 1 - self.areas@.len(),
        {
            self.areas.push(None);
        }
        proof {
            assert(self.areas@ =~= padded_layers);
        }
        &mut self.areas[index]
    }

    /// Walks the layers that hold an area, with their numbers, taking the
    /// stack apart.
    pub fn into_iter(self) -> (it: PixelAreaStackIter<PixelArea>)
        ensures
            it.wf(),
            it.front() == 0,
            it.rest() == self.layers(),
    {
        let mut areas = self.areas;
        let ghost all = areas@;
        let mut rev: Vec<Option<PixelArea>> = Vec::new();
        while areas.len() > 0
            invariant
                areas@ == all.take(areas@.len() as int),
                areas@.len() <= all.len(),
                rev@.len() + areas@.len() == all.len(),
                forall|i: int| 0 <= i < rev@.len() ==> #[trigger] rev@[i] == all[all.len() - 1 - i],
            decreases areas@.len(),
        {
            let ghost before = areas@;
            let a = areas.pop().unwrap();
            proof {
                assert(areas@ =~= all.take(areas@.len() as int));
                assert(a == before.last());
            }
            rev.push(a);
        }
        let mut inner: VecDeque<Option<PixelArea>> = VecDeque::new();
        while rev.len() > 0
            invariant
                rev@.len() + inner@.len() == all.len(),
                forall|i: int| 0 <= i < rev@.len() ==> #[trigger] rev@[i] == all[all.len() - 1 - i],
                forall|i: int| 0 <= i < inner@.len() ==> #[trigger] inner@[i] == all[i],
            decreases rev@.len(),
        {
            let ghost before = rev@;
            let a = rev.pop().unwrap();
            proof {
                assert(a == before[before.len() - 1]);
            }
            inner.push_back(a);
        }
        proof {
            assert(inner@ =~= all);
        }
        PixelAreaStackIter::new(inner)
    }
}

} // verus!
