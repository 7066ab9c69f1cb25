//! Sets of colors, held in a `nohash::IntSet` and seen by proofs as a `Set<usize>`.
use crate::Color;
use nohash::IntSet;
use vstd::prelude::*;

verus! {

/// A set of colors.
#[verifier::external_body]
pub struct ColorSet {
    inner: IntSet<Color>,
}

/// The colors that a `ColorSet` holds.
pub uninterp spec fn color_set_contents(s: ColorSet) -> Set<usize>;

impl View for ColorSet {
    type V = Set<usize>;

    open spec fn view(&self) -> Set<usize> {
        color_set_contents(*self)
    }
}

impl ColorSet {
    /// Relies on `IntSet`'s `FromIterator` (std's `HashSet`): the set of the colors `0..k`.
    #[verifier::external_body]
    pub(crate) fn range(k: usize) -> (r: ColorSet)
        ensures
            color_set_contents(r) == Set::new(|c: usize| c < k),
            color_set_contents(r).finite(),
    {
        ColorSet { inner: (0..k).collect() }
    }

    /// Relies on `HashSet::contains`.
    #[verifier::external_body]
    pub(crate) fn contains(&self, c: Color) -> (r: bool)
        ensures
            r == color_set_contents(*self).contains(c),
    {
        self.inner.contains(&c)
    }

    /// Relies on `HashSet::insert`: afterwards `c` is in the set, nothing else changed.
    #[verifier::external_body]
    pub(crate) fn insert(&mut self, c: Color)
        ensures
            color_set_contents(*final(self)) == color_set_contents(*old(self)).insert(c),
    {
        self.inner.insert(c);
    }

    /// Relies on `HashSet::remove`: `c` is taken out; the result says whether it was in.
    #[verifier::external_body]
    pub(crate) fn remove(&mut self, c: Color) -> (r: bool)
        ensures
            color_set_contents(*final(self)) == color_set_contents(*old(self)).remove(c),
            r == color_set_contents(*old(self)).contains(c),
    {
        self.inner.remove(&c)
    }

    /// Relies on `HashSet::len`: the number of colors in the set.
    #[verifier::external_body]
    pub(crate) fn len(&self) -> (r: usize)
        ensures
            r == color_set_contents(*self).len(),
    {
        self.inner.len()
    }

    /// Relies on `HashSet::iter`: each color of the set once, in the set's own order.
    #[verifier::external_body]
    pub(crate) fn to_vec(&self) -> (r: Vec<Color>)
        ensures
            r@.no_duplicates(),
            forall|c: usize| r@.contains(c) <==> color_set_contents(*self).contains(c),
    {
        self.inner.iter().cloned().collect()
    }
}

} // verus!
