//! The choice among the mask generators offered to the user, and the seed of
//! the colour of a new area.
use vstd::prelude::*;

verus! {

/// A bit rotation of a byte by five places to the left.
pub open spec fn rotate_left_5(x: u8) -> u8 {
    (x << 5u8) | (x >> 3u8)
}

/// One round of the colour permutation: multiply by 197, rotate, flip bits.
pub open spec fn permute_round(x: u8) -> u8 {
    rotate_left_5(((x as int * 197) % 256) as u8) ^ 0x5Au8
}

/// The hue index of the colour for `seed`: two rounds of the permutation on
/// the low byte of the seed.
pub open spec fn hue_index(seed: u16) -> u8 {
    permute_round(permute_round((seed & 0xFFu16) as u8))
}

fn round(x: u8) -> (r: u8)
    ensures
        r == permute_round(x),
{
    let m = ((x as u16 * 197) % 256) as u8;
    ((m << 5u8) | (m >> 3u8)) ^ 0x5Au8
}

/// The hue index of the colour of a new area with seed `seed`, a number
/// from 0 to 255; the hue is that number divided by 255.
pub fn color_hue_index(seed: u16) -> (h: u8)
    ensures
        h == hue_index(seed),
{
    let low = (seed & 0xFFu16) as u8;
    round(round(low))
}

/// The mask generators offered to the user, by name, and the one chosen.
pub struct MaskGenerator<F> {
    pos: usize,
    map: Vec<(String, F)>,
}

impl<F> MaskGenerator<F> {
    pub closed spec fn position(&self) -> usize {
        self.pos
    }

    pub closed spec fn generators(&self) -> Seq<(String, F)> {
        self.map@
    }

    /// The first generator is chosen.
    pub fn new(map: Vec<(String, F)>) -> (g: Self)
        ensures
            g.position() == 0,
            g.generators() == map@,
    {
        Self { map, pos: 0 }
    }

    /// The position of the chosen generator.
    pub fn position_index(&self) -> (p: usize)
        ensures
            p == self.position(),
    {
        self.pos
    }

    /// The number of generators on offer.
    pub fn len(&self) -> (n: usize)
        ensures
            n == self.generators().len(),
    {
        self.map.len()
    }

    /// The name of the generator at `i`, if there is one.
    pub fn name(&self, i: usize) -> (s: Option<&str>)
        ensures
            s matches Some(x) <==> i < self.generators().len(),
            s matches Some(x) ==> x@ == self.generators()[i as int].0@,
    {
        if i < self.map.len() {
            Some(self.map[i].0.as_str())
        } else {
            None
        }
    }

    /// Chooses the generator at `pos`.
    pub fn select(&mut self, pos: usize)
        ensures
            final(self).position() == pos,
            final(self).generators() == old(self).generators(),
    {
        self.pos = pos;
    }

    /// The chosen generator, if the choice is one of those on offer.
    pub fn selected(&mut self) -> (r: Option<&mut F>)
        ensures
            r is Some <==> old(self).position() < old(self).generators().len(),
            final(self).position() == old(self).position(),
            final(self).generators().len() == old(self).generators().len(),
            r matches Some(f) ==> *f == old(self).generators()[old(self).position() as int].1
                && final(self).generators() == old(self).generators().update(old(self).position() as int,
                    (old(self).generators()[old(self).position() as int].0, *final(f))),
            r is None ==> final(self).generators() == old(self).generators(),
    {
        if self.pos < self.map.len() {
            let entry = &mut self.map[self.pos];
            Some(&mut entry.1)
        } else {
            None
        }
    }
}

} // verus!
