//! External ids over an index that numbers its own slots: a map from
//! external id to slot and its reverse, kept mirrored by every update.
use std::collections::HashMap;
use vstd::prelude::*;

verus! {

broadcast use vstd::std_specs::hash::group_hash_axioms;

/// The two id maps of an index addressed by external ids.
#[derive(Debug)]
pub struct IdMapping {
    id_map: HashMap<u32, u32>,
    reverse_map: HashMap<u32, u32>,
}

/// `forward` and `backward` are inverse to each other.
pub open spec fn maps_mirrored(forward: Map<u32, u32>, backward: Map<u32, u32>) -> bool {
    &&& forall|e: u32| #[trigger]
        forward.contains_key(e) ==> backward.contains_key(forward[e]) && backward[forward[e]] == e
    &&& forall|i: u32| #[trigger]
        backward.contains_key(i) ==> forward.contains_key(backward[i]) && forward[backward[i]] == i
}

impl IdMapping {
    /// External id to slot.
    pub closed spec fn forward(&self) -> Map<u32, u32> {
        self.id_map@
    }

    /// Slot to external id.
    pub closed spec fn backward(&self) -> Map<u32, u32> {
        self.reverse_map@
    }

    /// No external ids yet.
    pub fn new() -> (res: Self)
        ensures
            res.forward() == Map::<u32, u32>::empty(),
            res.backward() == Map::<u32, u32>::empty(),
    {
        IdMapping { id_map: HashMap::new(), reverse_map: HashMap::new() }
    }

    /// The slot of `external`, if it has one.
    pub fn internal_of(&self, external: u32) -> (res: Option<u32>)
        ensures
            res == if self.forward().contains_key(external) {
                Some(self.forward()[external])
            } else {
                None::<u32>
            },
    {
        match self.id_map.get(&external) {
            Some(i) => Some(*i),
            None => None,
        }
    }

    /// The external id of `internal`, if it has one.
    pub fn external_of(&self, internal: u32) -> (res: Option<u32>)
        ensures
            res == if self.backward().contains_key(internal) {
                Some(self.backward()[internal])
            } else {
                None::<u32>
            },
    {
        match self.reverse_map.get(&internal) {
            Some(e) => Some(*e),
            None => None,
        }
    }

    /// Drop the reverse entry of slot `internal` (its node was deleted and
    /// the external id is about to be bound again).
    pub fn release_slot(&mut self, internal: u32)
        ensures
            final(self).forward() == old(self).forward(),
            final(self).backward() == old(self).backward().remove(internal),
    {
        self.reverse_map.remove(&internal);
    }

    /// Bind `external` to slot `internal`, both ways.
    pub fn bind(&mut self, external: u32, internal: u32)
        ensures
            final(self).forward() == old(self).forward().insert(external, internal),
            final(self).backward() == old(self).backward().insert(internal, external),
    {
        self.id_map.insert(external, internal);
        self.reverse_map.insert(internal, external);
    }

    /// Remove `external` and its slot `internal` from both maps.
    pub fn forget(&mut self, external: u32, internal: u32)
        ensures
            final(self).forward() == old(self).forward().remove(external),
            final(self).backward() == old(self).backward().remove(internal),
    {
        self.id_map.remove(&external);
        self.reverse_map.remove(&internal);
    }
}

/// Inserting under an external id keeps the maps mirrored: the old slot of
/// `external` (if any) loses its reverse entry, then `external` is bound to
/// a slot that no external id holds.
pub proof fn lemma_rebind_keeps_mirrored(
    forward: Map<u32, u32>,
    backward: Map<u32, u32>,
    external: u32,
    slot: u32,
)
    requires
        maps_mirrored(forward, backward),
        !(if forward.contains_key(external) {
            backward.remove(forward[external])
        } else {
            backward
        }).contains_key(slot),
    ensures
        maps_mirrored(
            forward.insert(external, slot),
            (if forward.contains_key(external) {
                backward.remove(forward[external])
            } else {
                backward
            }).insert(slot, external),
        ),
{
    let b0 = if forward.contains_key(external) {
        backward.remove(forward[external])
    } else {
        backward
    };
    let f = forward.insert(external, slot);
    let b = b0.insert(slot, external);
    assert forall|e: u32| #[trigger] f.contains_key(e) implies b.contains_key(f[e]) && b[f[e]] == e by {
        if e != external {
            assert(forward.contains_key(e));
            assert(backward[forward[e]] == e);
            if forward.contains_key(external) {
                assert(forward[e] != forward[external]);
            }
            assert(b0.contains_key(forward[e]));
            assert(forward[e] != slot);
        }
    }
    assert forall|i: u32| #[trigger] b.contains_key(i) implies f.contains_key(b[i]) && f[b[i]] == i by {
        if i != slot {
            assert(b0.contains_key(i));
            assert(backward.contains_key(i));
            assert(forward[backward[i]] == i);
            if forward.contains_key(external) {
                assert(i != forward[external]);
            }
            assert(backward[i] != external);
        }
    }
}

/// Removing an external id and its slot keeps the maps mirrored.
pub proof fn lemma_forget_keeps_mirrored(
    forward: Map<u32, u32>,
    backward: Map<u32, u32>,
    external: u32,
)
    requires
        maps_mirrored(forward, backward),
        forward.contains_key(external),
    ensures
        maps_mirrored(forward.remove(external), backward.remove(forward[external])),
{
    let f = forward.remove(external);
    let b = backward.remove(forward[external]);
    assert forall|e: u32| #[trigger] f.contains_key(e) implies b.contains_key(f[e]) && b[f[e]] == e by {
        assert(backward[forward[e]] == e);
    }
    assert forall|i: u32| #[trigger] b.contains_key(i) implies f.contains_key(b[i]) && f[b[i]] == i by {
        assert(forward[backward[i]] == i);
    }
}

} // verus!
