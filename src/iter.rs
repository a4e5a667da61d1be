use vstd::prelude::*;

use crate::element::Element;
use crate::flatten::{flatten, groups_wf, lemma_flatten_index, lemma_offset_next, offset};
use crate::sorted_groups::view_groups;

verus! {

/// A cursor over the `(key, element)` pairs of a container, group after group.
///
/// It keeps a position among the groups and a position inside the current group.
pub struct SortedGroupsIter<'a> {
    groups: &'a Vec<(i32, Vec<Element>)>,
    outer: usize,
    inner: usize,
}

impl<'a> SortedGroupsIter<'a> {
    #[verifier::type_invariant]
    spec fn inv(&self) -> bool {
        &&& groups_wf(view_groups(self.groups@))
        &&& self.outer <= self.groups@.len()
        &&& self.outer < self.groups@.len() ==> self.inner < self.groups@[self.outer as int].1@.len()
        &&& self.outer == self.groups@.len() ==> self.inner == 0
    }

    /// Every pair that the cursor walks over, in order.
    pub closed spec fn items(&self) -> Seq<(i32, Element)> {
        flatten(view_groups(self.groups@))
    }

    /// How many pairs the cursor has passed.
    pub closed spec fn pos(&self) -> int {
        offset(view_groups(self.groups@), self.outer as int) + self.inner
    }

    /// A cursor at the first pair of `groups`.
    pub(crate) fn start(groups: &'a Vec<(i32, Vec<Element>)>) -> (r: Self)
        requires
            groups_wf(view_groups(groups@)),
        ensures
            r.items() == flatten(view_groups(groups@)),
            r.pos() == 0,
    {
        assert(groups@.len() > 0 ==> view_groups(groups@)[0].1 == groups@[0].1@);
        assert(view_groups(groups@).take(0) =~= Seq::empty());
        assert(flatten(Seq::<(i32, Seq<Element>)>::empty()) =~= Seq::empty());
        SortedGroupsIter { groups, outer: 0, inner: 0 }
    }

    /// The next pair, or `None` once every pair has been handed out.
    pub fn next(&mut self) -> (r: Option<(&'a i32, &'a Element)>)
        ensures
            final(self).items() == old(self).items(),
            0 <= final(self).pos() <= final(self).items().len(),
            old(self).pos() < old(self).items().len() ==> final(self).pos() == old(self).pos() + 1
                && r == Some((&old(self).items()[old(self).pos()].0, &old(self).items()[old(
                self).pos()].1)),
            old(self).pos() >= old(self).items().len() ==> final(self).pos() == old(self).pos()
                && r.is_none(),
    {
        proof {
            use_type_invariant(&*self);
        }
        let groups = self.groups;
        let ghost gs = view_groups(groups@);
        let o = self.outer;
        let i = self.inner;
        assert(forall|j: int| 0 <= j < gs.len() ==> #[trigger] gs[j] == (groups@[j].0, groups@[j].1@));
        if o < groups.len() {
            let key = &groups[o].0;
            let elem = &groups[o].1[i];
            proof {
                lemma_flatten_index(gs, o as int, i as int);
                lemma_offset_next(gs, o as int);
                if o + 1 < gs.len() {
                    lemma_flatten_index(gs, o + 1, 0);
                } else {
                    assert(gs.take(o + 1) =~= gs);
                }
            }
            let n = groups[o].1.len();
            assert(i < n);
            if i + 1 < n {
                *self = SortedGroupsIter { groups, outer: o, inner: i + 1 };
            } else {
                *self = SortedGroupsIter { groups, outer: o + 1, inner: 0 };
            }
            Some((key, elem))
        } else {
            assert(gs.take(o as int) =~= gs);
            None
        }
    }
}

} // verus!
