//! Soft-deletion marks for internal node ids.
use std::collections::HashSet;
use vstd::prelude::*;

verus! {

broadcast use vstd::std_specs::hash::group_hash_axioms;

/// Set of soft-deleted internal node ids. Deleted nodes stay in the graph
/// for navigation but are excluded from results.
#[derive(Debug)]
pub struct TombstoneSet {
    ids: HashSet<usize>,
}

impl View for TombstoneSet {
    type V = Set<usize>;

    closed spec fn view(&self) -> Set<usize> {
        self.ids@
    }
}

impl TombstoneSet {
    /// The set is finite (it has a size).
    pub closed spec fn wf(&self) -> bool {
        self.ids@.finite()
    }

    /// No node deleted.
    pub fn new() -> (res: Self)
        ensures
            res.wf(),
            res@ == Set::<usize>::empty(),
    {
        TombstoneSet { ids: HashSet::new() }
    }

    /// The set holding exactly `ids`.
    pub fn from_ids(ids: Vec<usize>) -> (res: Self)
        ensures
            res.wf(),
            res@ == ids@.to_set(),
    {
        let mut set: HashSet<usize> = HashSet::new();
        let mut i: usize = 0;
        while i < ids.len()
            invariant
                i <= ids@.len(),
                set@ == ids@.subrange(0, i as int).to_set(),
                set@.finite(),
            decreases ids@.len() - i,
        {
            let ghost prev = set@;
            set.insert(ids[i]);
            proof {
                assert(ids@.subrange(0, i as int + 1) =~= ids@.subrange(0, i as int).push(ids@[i as int]));
                ids@.subrange(0, i as int).lemma_push_to_set_commute(ids@[i as int]);
            }
            i = i + 1;
        }
        assert(ids@.subrange(0, ids@.len() as int) =~= ids@);
        TombstoneSet { ids: set }
    }

    /// Mark `id` as deleted. Returns `true` if it was not marked before.
    pub fn delete(&mut self, id: usize) -> (res: bool)
        requires
            old(self).wf(),
        ensures
            final(self).wf(),
            final(self)@ == old(self)@.insert(id),
            res == !old(self)@.contains(id),
    {
        self.ids.insert(id)
    }

    /// Whether `id` is marked as deleted.
    pub fn is_deleted(&self, id: usize) -> (res: bool)
        ensures
            res == self@.contains(id),
    {
        self.ids.contains(&id)
    }

    /// Number of deleted ids.
    pub fn len(&self) -> (res: usize)
        requires
            self.wf(),
        ensures
            res == self@.len(),
    {
        self.ids.len()
    }
}

} // verus!
