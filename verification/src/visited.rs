//! Visited-node trackers used by beam search.
use std::collections::HashSet;
use vstd::prelude::*;

verus! {

broadcast use vstd::std_specs::hash::group_hash_axioms;

/// Number of nodes up to which a dense generation-counter array is used
/// instead of a hash set.
pub const DENSE_VISITED_THRESHOLD: usize = 4_000_000;

/// Visited-node tracker using the generation-counter pattern.
///
/// Dense variant: `marks[id] == generation` means `id` was visited. Bumping
/// `generation` clears the set; only on `u8` overflow are the marks reset.
/// Sparse variant: a plain hash set, for indexes larger than
/// [`DENSE_VISITED_THRESHOLD`].
pub enum VisitedSet {
    Dense { marks: Vec<u8>, generation: u8 },
    Sparse(HashSet<u32>),
}

impl VisitedSet {
    /// Well-formedness: the current generation is positive and no mark is
    /// ahead of it, so that bumping the generation empties the set.
    pub open spec fn wf(&self) -> bool {
        match self {
            VisitedSet::Dense { marks, generation } => {
                &&& *generation >= 1
                &&& forall|i: int| 0 <= i < marks@.len() ==> #[trigger] marks@[i] <= *generation
            },
            VisitedSet::Sparse(_) => true,
        }
    }

    /// The set of node ids currently marked as visited.
    pub open spec fn members(&self) -> Set<u32> {
        match self {
            VisitedSet::Dense { marks, generation } => Set::new(
                |id: u32| (id as int) < marks@.len() && marks@[id as int] == *generation,
            ),
            VisitedSet::Sparse(s) => s@,
        }
    }

    pub open spec fn is_dense(&self) -> bool {
        self is Dense
    }

    /// Whether an insertion of `id` is recorded (the dense array only tracks
    /// ids below its length).
    pub open spec fn tracks(&self, id: u32) -> bool {
        match self {
            VisitedSet::Dense { marks, .. } => (id as int) < marks@.len(),
            VisitedSet::Sparse(_) => true,
        }
    }

    /// Number of slots of the dense array (zero for the sparse variant).
    pub open spec fn slots(&self) -> nat {
        match self {
            VisitedSet::Dense { marks, .. } => marks@.len(),
            VisitedSet::Sparse(_) => 0,
        }
    }

    /// The marks of the dense array (empty for the sparse variant).
    pub open spec fn marks(&self) -> Seq<u8> {
        match self {
            VisitedSet::Dense { marks, .. } => marks@,
            VisitedSet::Sparse(_) => Seq::empty(),
        }
    }

    /// The current generation of the dense array (zero for the sparse
    /// variant).
    pub open spec fn generation(&self) -> u8 {
        match self {
            VisitedSet::Dense { generation, .. } => *generation,
            VisitedSet::Sparse(_) => 0,
        }
    }

    /// Create a visited set sized for `num_nodes` total nodes: a dense array
    /// of `num_nodes` zero marks at generation 1, or an empty hash set.
    pub fn new(num_nodes: usize, capacity_hint: usize) -> (res: Self)
        ensures
            res.wf(),
            res.members() == Set::<u32>::empty(),
            res.is_dense() <==> num_nodes <= DENSE_VISITED_THRESHOLD,
            res.is_dense() ==> res.slots() == num_nodes,
            res.is_dense() ==> res.marks() == Seq::new(num_nodes as nat, |i: int| 0u8)
                && res.generation() == 1,
    {
        if num_nodes <= DENSE_VISITED_THRESHOLD {
            let marks: Vec<u8> = vec![0u8; num_nodes];
            let res = VisitedSet::Dense { marks, generation: 1 };
            assert(res.members() =~= Set::<u32>::empty());
            assert(res.marks() =~= Seq::new(num_nodes as nat, |i: int| 0u8));
            res
        } else {
            VisitedSet::Sparse(HashSet::with_capacity(capacity_hint))
        }
    }

    /// Reset the set for a new search (amortised O(1) for the dense variant).
    pub fn clear(&mut self)
        requires
            old(self).wf(),
        ensures
            final(self).wf(),
            final(self).members() == Set::<u32>::empty(),
            final(self).is_dense() == old(self).is_dense(),
            final(self).slots() == old(self).slots(),
            old(self).is_dense() && old(self).generation() < u8::MAX ==> final(self).generation()
                == old(self).generation() + 1 && final(self).marks() == old(self).marks(),
            old(self).is_dense() && old(self).generation() == u8::MAX ==> final(self).generation()
                == 1 && final(self).marks() == Seq::new(old(self).slots(), |i: int| 0u8),
    {
        match self {
            VisitedSet::Dense { marks, generation } => {
                if let Some(next) = generation.checked_add(1) {
                    *generation = next;
                } else {
                    let n = marks.len();
                    let mut i: usize = 0;
                    while i < n
                        invariant
                            n == marks@.len(),
                            i <= n,
                            forall|j: int| 0 <= j < i ==> #[trigger] marks@[j] == 0,
                        decreases n - i,
                    {
                        marks.set(i, 0);
                        i = i + 1;
                    }
                    *generation = 1;
                    assert(marks@ =~= Seq::new(n as nat, |i: int| 0u8));
                }
            },
            VisitedSet::Sparse(s) => s.clear(),
        }
        assert(self.members() =~= Set::<u32>::empty());
    }

    /// Whether `id` has been visited.
    pub fn contains(&self, id: u32) -> (res: bool)
        ensures
            res == self.members().contains(id),
    {
        match self {
            VisitedSet::Dense { marks, generation } => {
                let idx = id as usize;
                idx < marks.len() && marks[idx] == *generation
            },
            VisitedSet::Sparse(s) => s.contains(&id),
        }
    }

    /// Mark `id` as visited. Returns `true` if it was not visited before.
    /// A dense set does not record ids beyond its array and reports them as
    /// new every time.
    pub fn insert(&mut self, id: u32) -> (res: bool)
        requires
            old(self).wf(),
        ensures
            final(self).wf(),
            res == !old(self).members().contains(id),
            final(self).members() == if old(self).tracks(id) {
                old(self).members().insert(id)
            } else {
                old(self).members()
            },
            final(self).is_dense() == old(self).is_dense(),
            final(self).slots() == old(self).slots(),
            final(self).generation() == old(self).generation(),
            final(self).marks() == if old(self).is_dense() && res && old(self).tracks(id) {
                old(self).marks().update(id as int, old(self).generation())
            } else {
                old(self).marks()
            },
    {
        let ghost before = self.members();
        match self {
            VisitedSet::Dense { marks, generation } => {
                let idx = id as usize;
                if idx < marks.len() {
                    if marks[idx] != *generation {
                        marks.set(idx, *generation);
                        assert(self.members() =~= before.insert(id));
                        true
                    } else {
                        false
                    }
                } else {
                    true
                }
            },
            VisitedSet::Sparse(s) => s.insert(id),
        }
    }

    /// Prepare for a new search over `num_nodes` nodes, reusing the current
    /// allocation when the variant still fits and growing the dense array
    /// when the index grew.
    pub fn prepare(&mut self, num_nodes: usize, capacity_hint: usize)
        requires
            old(self).wf(),
        ensures
            final(self).wf(),
            final(self).members() == Set::<u32>::empty(),
            final(self).is_dense() <==> num_nodes <= DENSE_VISITED_THRESHOLD,
            final(self).is_dense() ==> final(self).slots() >= num_nodes,
            final(self).is_dense() && old(self).is_dense() ==> final(self).slots() == if old(
                self,
            ).slots() < num_nodes {
                num_nodes as nat
            } else {
                old(self).slots()
            },
    {
        let dense_fits = num_nodes <= DENSE_VISITED_THRESHOLD;
        let reuse = match self {
            VisitedSet::Dense { .. } => dense_fits,
            VisitedSet::Sparse(_) => !dense_fits,
        };
        if !reuse {
            *self = VisitedSet::new(num_nodes, capacity_hint);
            return ;
        }
        match self {
            VisitedSet::Dense { marks, generation } => {
                if marks.len() < num_nodes {
                    let ghost g = *generation;
                    let ghost old_len = marks@.len();
                    marks.resize(num_nodes, 0);
                    assert forall|i: int| 0 <= i < marks@.len() implies #[trigger] marks@[i]
                        <= g by {
                        if i < old_len {
                            assert(marks@.subrange(0, old_len as int)[i] == marks@[i]);
                        }
                    }
                }
            },
            VisitedSet::Sparse(_) => {},
        }
        self.clear();
    }
}

/// Simpler visited-node tracker used by the quantized beam search: a dense
/// flag array, or a hash set for large indexes.
pub enum Visited {
    Dense(Vec<bool>),
    Sparse(HashSet<u32>),
}

impl Visited {
    /// The set of node ids currently marked as visited.
    pub open spec fn members(&self) -> Set<u32> {
        match self {
            Visited::Dense(v) => Set::new(|id: u32| (id as int) < v@.len() && v@[id as int]),
            Visited::Sparse(s) => s@,
        }
    }

    pub open spec fn is_dense(&self) -> bool {
        self is Dense
    }

    /// Whether an insertion of `id` can be recorded.
    pub open spec fn tracks(&self, id: u32) -> bool {
        match self {
            Visited::Dense(v) => (id as int) < v@.len(),
            Visited::Sparse(_) => true,
        }
    }

    /// The flags of the dense array (empty for the sparse variant).
    pub open spec fn flags(&self) -> Seq<bool> {
        match self {
            Visited::Dense(v) => v@,
            Visited::Sparse(_) => Seq::empty(),
        }
    }

    /// Mark as visited. Returns `true` if newly inserted; ids beyond a dense
    /// array are never recorded and always report `false`.
    pub fn insert(&mut self, id: u32) -> (res: bool)
        ensures
            res == (old(self).tracks(id) && !old(self).members().contains(id)),
            final(self).members() == if old(self).tracks(id) {
                old(self).members().insert(id)
            } else {
                old(self).members()
            },
            final(self).is_dense() == old(self).is_dense(),
            final(self).flags() == if old(self).is_dense() && res {
                old(self).flags().update(id as int, true)
            } else {
                old(self).flags()
            },
            forall|x: u32| #[trigger] final(self).tracks(x) == old(self).tracks(x),
    {
        let ghost before = self.members();
        match self {
            Visited::Dense(v) => {
                let idx = id as usize;
                if idx < v.len() && !v[idx] {
                    v.set(idx, true);
                    assert(self.members() =~= before.insert(id));
                    true
                } else {
                    assert(idx < v.len() ==> self.members() =~= before.insert(id));
                    false
                }
            },
            Visited::Sparse(s) => s.insert(id),
        }
    }
}

} // verus!
