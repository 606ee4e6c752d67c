//! A histogram of small numbers, kept by the `hash_histogram` crate.

use vstd::prelude::*;
use vstd::multiset::Multiset;
use hash_histogram::HashHistogram;

verus! {

/// A histogram over `u8` values.
#[verifier::external_body]
pub struct Histogram {
    inner: HashHistogram<u8>,
}

/// What a histogram has counted: each value as often as it was bumped.
pub uninterp spec fn tally(h: Histogram) -> Multiset<u8>;

impl Histogram {
    /// Calls `HashHistogram::new`: the new histogram has counted nothing.
    #[verifier::external_body]
    pub(crate) fn new() -> (h: Histogram)
        ensures
            tally(h) == Multiset::<u8>::empty(),
    {
        Histogram { inner: HashHistogram::new() }
    }

    /// Calls `HashHistogram::bump`: the count of `item` goes up by one, and
    /// no other count changes. The crate adds one to a `usize`, so the
    /// count must not be at its limit.
    #[verifier::external_body]
    pub(crate) fn bump(&mut self, item: u8)
        requires
            tally(*old(self)).count(item) < usize::MAX,
        ensures
            tally(*final(self)) == tally(*old(self)).insert(item),
    {
        self.inner.bump(&item)
    }

    /// Calls `HashHistogram::iter` and hands out the pairs of value and
    /// count that it yields, in the order it yields them, which is open.
    /// Each pair holds the count of its value, and every value that was
    /// counted has a pair.
    #[verifier::external_body]
    pub(crate) fn entries(&self) -> (pairs: Vec<(u8, usize)>)
        ensures
            forall|i: int|
                0 <= i < pairs@.len() ==> (#[trigger] pairs@[i]).1 == tally(*self).count(
                    pairs@[i].0,
                ),
            forall|item: u8|
                tally(*self).count(item) > 0 ==> exists|i: int|
                    0 <= i < pairs@.len() && (#[trigger] pairs@[i]).0 == item,
    {
        self.inner.iter().map(|(item, count)| (*item, *count)).collect()
    }
}

} // verus!
