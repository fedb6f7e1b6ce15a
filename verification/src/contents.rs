//! The points that a growing tree holds, and what stays the same where a
//! tree has not been touched.

use crate::incremental::IncrementalOctree;
use vstd::multiset::Multiset;
use vstd::prelude::*;

verus! {

impl IncrementalOctree {
    /// The points under child `o` of stem `s`, without their order.
    pub open spec fn contents_under(&self, s: int, o: int) -> Multiset<crate::geometry::Point>
        decreases self.stems() - s, 0nat,
    {
        let r = self.slot(s, o);
        if Self::is_block_ref(r) && 0 <= Self::block_of(r) < self.blocks() {
            self.held(Self::block_of(r)).to_multiset()
        } else if Self::is_stem_ref(r) && s < Self::stem_of(r) < self.stems() {
            self.contents_of(Self::stem_of(r))
        } else {
            Multiset::empty()
        }
    }

    /// The points under stem `s`, without their order.
    pub open spec fn contents_of(&self, s: int) -> Multiset<crate::geometry::Point>
        decreases self.stems() - s, 1nat,
    {
        self.contents_under(s, 0).add(self.contents_under(s, 1)).add(self.contents_under(s, 2)).add(
            self.contents_under(s, 3),
        ).add(self.contents_under(s, 4)).add(self.contents_under(s, 5)).add(
            self.contents_under(s, 6),
        ).add(self.contents_under(s, 7))
    }

    /// The points of the tree, without their order.
    pub open spec fn contents(&self) -> Multiset<crate::geometry::Point> {
        self.contents_of(0)
    }
}

} // verus!
