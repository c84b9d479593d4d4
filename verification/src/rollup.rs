//! Per-lens counts over a node's whole subtree.

use vstd::prelude::*;
use crate::model::Lens;

verus! {

/// How many facet occurrences of each lens a subtree carries, indexed by
/// [`Lens::index`]. Counts saturate at `u32::MAX` rather than wrapping.
#[derive(Clone, Copy, Debug, Default, PartialEq, Eq)]
pub struct Rollups {
    counts: [u32; 5],
}

/// `a + b`, held at `u32::MAX`.
pub open spec fn saturating(a: int, b: int) -> int {
    if a + b > u32::MAX {
        u32::MAX as int
    } else {
        a + b
    }
}

impl Rollups {
    /// The count for lens position `i`.
    pub closed spec fn count(self, i: int) -> u32 {
        self.counts@[i]
    }

    /// Every count zero.
    pub fn new() -> (r: Self)
        ensures
            forall|i: int| 0 <= i < 5 ==> r.count(i) == 0,
    {
        Rollups { counts: [0, 0, 0, 0, 0] }
    }

    /// The count for `lens`.
    pub fn get(&self, lens: Lens) -> (r: u32)
        ensures
            r == self.count(lens.spec_index() as int),
    {
        self.counts[lens.index()]
    }

    /// Add `count` occurrences of `lens`.
    pub fn add(&mut self, lens: Lens, count: u32)
        ensures
            forall|i: int|
                0 <= i < 5 ==> #[trigger] final(self).count(i) == if i == lens.spec_index() {
                    saturating(old(self).count(i) as int, count as int)
                } else {
                    old(self).count(i) as int
                },
    {
        let i = lens.index();
        let current = self.counts[i];
        self.counts[i] = current.saturating_add(count);
    }

    /// Add every count of `other` into this one.
    pub fn merge(&mut self, other: Rollups)
        ensures
            forall|i: int|
                0 <= i < 5 ==> #[trigger] final(self).count(i) == saturating(
                    old(self).count(i) as int,
                    other.count(i) as int,
                ),
    {
        let mut i: usize = 0;
        while i < 5
            invariant
                i <= 5,
                forall|j: int|
                    0 <= j < 5 ==> #[trigger] self.counts@[j] == if j < i {
                        saturating(old(self).counts@[j] as int, other.counts@[j] as int)
                    } else {
                        old(self).counts@[j] as int
                    },
            decreases 5 - i,
        {
            let current = self.counts[i];
            self.counts[i] = current.saturating_add(other.counts[i]);
            i = i + 1;
        }
    }
}

} // verus!
