//! Graphs used when merging HNSW indexes, and the naive merge that unions
//! their edge lists.
use crate::construction::add_if_absent;
use crate::stats::MergeStats;
use std::collections::HashMap;
use vstd::prelude::*;
use vstd::std_specs::hash::spec_hash_map_iter;
use vstd::std_specs::iter::IteratorSpec;

verus! {

broadcast use vstd::std_specs::hash::group_hash_axioms;

/// A node of a graph being merged: its id, its payload (the vector), its
/// neighbor list on each layer, and the highest layer it appears in.
#[derive(Debug)]
pub struct MergeNode<V> {
    /// Node ID.
    pub id: u32,
    /// Vector data.
    pub vector: V,
    /// Neighbors at each layer.
    pub neighbors: Vec<Vec<u32>>,
    /// Maximum layer this node appears in.
    pub max_layer: usize,
}

/// The neighbor lists of a node as sequences.
pub open spec fn lists_of<V>(node: MergeNode<V>) -> Seq<Seq<u32>> {
    node.neighbors@.map_values(|v: Vec<u32>| v@)
}

/// Graph structure for merging: nodes by id, an entry point and the highest
/// layer seen.
#[derive(Debug)]
pub struct MergeGraph<V> {
    nodes: HashMap<u32, MergeNode<V>>,
    entry_point: Option<u32>,
    max_layer: usize,
}

impl<V> MergeGraph<V> {
    /// The nodes, by id.
    pub closed spec fn node_map(&self) -> Map<u32, MergeNode<V>> {
        self.nodes@
    }

    /// The entry point.
    pub closed spec fn entry(&self) -> Option<u32> {
        self.entry_point
    }

    /// The highest layer recorded.
    pub closed spec fn top_layer(&self) -> usize {
        self.max_layer
    }

    /// Every node is stored under its own id.
    pub open spec fn keyed_by_id(&self) -> bool {
        forall|k: u32| #[trigger] self.node_map().contains_key(k) ==> self.node_map()[k].id == k
    }

    #[verifier::type_invariant]
    spec fn nodes_keyed_by_id(&self) -> bool {
        forall|k: u32| #[trigger] self.nodes@.contains_key(k) ==> self.nodes@[k].id == k
    }

    /// The entry point is set exactly when there are nodes, and it is a node
    /// on the highest layer, which no node exceeds (layer 0 when empty).
    pub open spec fn entry_on_top(&self) -> bool {
        &&& self.entry() is None <==> self.node_map().dom().is_empty()
        &&& self.node_map().dom().is_empty() ==> self.top_layer() == 0
        &&& self.entry() matches Some(ep) ==> self.node_map().contains_key(ep)
            && self.node_map()[ep].max_layer == self.top_layer()
        &&& forall|k: u32| #[trigger]
            self.node_map().contains_key(k) ==> self.node_map()[k].max_layer <= self.top_layer()
    }

    /// Create a new empty graph.
    pub fn new() -> (res: Self)
        ensures
            res.node_map() == Map::<u32, MergeNode<V>>::empty(),
            res.entry() is None,
            res.top_layer() == 0,
            res.entry_on_top(),
    {
        let res = MergeGraph { nodes: HashMap::new(), entry_point: None, max_layer: 0 };
        assert(res.node_map().dom() =~= Set::<u32>::empty());
        res
    }

    /// Add a node (replacing a node with the same id). The highest layer
    /// grows to the node's layer; the node becomes the entry point when there
    /// is none or when its layer exceeds that of the current entry point.
    pub fn add_node(&mut self, node: MergeNode<V>)
        ensures
            final(self).node_map() == old(self).node_map().insert(node.id, node),
            final(self).top_layer() == if node.max_layer > old(self).top_layer() {
                node.max_layer
            } else {
                old(self).top_layer()
            },
            final(self).entry() == match old(self).entry() {
                None => Some(node.id),
                Some(ep) => if node.max_layer > (if old(self).node_map().contains_key(ep) {
                    old(self).node_map()[ep].max_layer
                } else {
                    0
                }) {
                    Some(node.id)
                } else {
                    Some(ep)
                },
            },
            old(self).entry_on_top() && !old(self).node_map().contains_key(node.id)
                ==> final(self).entry_on_top(),
    {
        proof {
            use_type_invariant(&*self);
        }
        let ghost prev = *self;
        if node.max_layer > self.max_layer {
            self.max_layer = node.max_layer;
        }
        let should_update_entry = match self.entry_point {
            None => true,
            Some(ep) => {
                let current_max = match self.nodes.get(&ep) {
                    Some(n) => n.max_layer,
                    None => 0,
                };
                node.max_layer > current_max
            },
        };
        if should_update_entry {
            self.entry_point = Some(node.id);
        }
        let ghost id = node.id;
        let ghost layer = node.max_layer;
        self.put_node(node);
        proof {
            if prev.entry_on_top() && !prev.node_map().contains_key(id) {
                assert(self.node_map().contains_key(id));
                assert(!self.node_map().dom().is_empty());
                if prev.node_map().dom().is_empty() {
                    assert(prev.entry() is None);
                    assert(prev.top_layer() == 0);
                } else {
                    let ep = prev.entry()->0;
                    assert(prev.node_map().contains_key(ep));
                    assert(ep != id);
                    assert(self.node_map()[ep] == prev.node_map()[ep]);
                }
                assert forall|k: u32| #[trigger]
                    self.node_map().contains_key(k) implies self.node_map()[k].max_layer
                    <= self.top_layer() by {
                    if k != id {
                        assert(prev.node_map().contains_key(k));
                    }
                }
            }
        }
    }

    /// Store `node` under its id, leaving the entry point and top layer.
    fn put_node(&mut self, node: MergeNode<V>)
        ensures
            final(self).node_map() == old(self).node_map().insert(node.id, node),
            final(self).entry() == old(self).entry(),
            final(self).top_layer() == old(self).top_layer(),
    {
        proof {
            use_type_invariant(&*self);
        }
        let mut nodes = HashMap::new();
        std::mem::swap(&mut nodes, &mut self.nodes);
        nodes.insert(node.id, node);
        self.nodes = nodes;
    }

    /// Take out the node stored under `id`, leaving the entry point and top
    /// layer.
    fn take_node(&mut self, id: u32) -> (res: Option<MergeNode<V>>)
        ensures
            final(self).node_map() == old(self).node_map().remove(id),
            res == if old(self).node_map().contains_key(id) {
                Some(old(self).node_map()[id])
            } else {
                None::<MergeNode<V>>
            },
            final(self).entry() == old(self).entry(),
            final(self).top_layer() == old(self).top_layer(),
    {
        proof {
            use_type_invariant(&*self);
        }
        let mut nodes = HashMap::new();
        std::mem::swap(&mut nodes, &mut self.nodes);
        let res = nodes.remove(&id);
        self.nodes = nodes;
        res
    }

    /// Get a node by ID.
    pub fn get_node(&self, id: u32) -> (res: Option<&MergeNode<V>>)
        ensures
            res matches Some(n) ==> self.node_map().contains_key(id) && *n == self.node_map()[id],
            res is None ==> !self.node_map().contains_key(id),
    {
        self.nodes.get(&id)
    }

    /// All node ids, each once.
    pub fn node_ids(&self) -> (res: Vec<u32>)
        ensures
            res@.no_duplicates(),
            res@.to_set() == self.node_map().dom(),
    {
        let ghost pairs = spec_hash_map_iter(&self.nodes).remaining();
        let mut ids: Vec<u32> = Vec::new();
        for (k, _v) in it: self.nodes.iter()
            invariant
                it.seq() == pairs,
                pairs == spec_hash_map_iter(&self.nodes).remaining(),
                ids@.len() == it.index(),
                forall|i: int| 0 <= i < it.index() ==> ids@[i] == *(#[trigger] pairs[i]).0,
        {
            ids.push(*k);
        }
        proof {
            assert forall|a: int, b: int| 0 <= a < b < ids@.len() implies ids@[a] != ids@[b] by {
                assert(ids@[a] == *pairs[a].0);
                assert(ids@[b] == *pairs[b].0);
                if *pairs[a].0 == *pairs[b].0 {
                    assert(self.node_map().contains_key(*pairs[a].0));
                    assert(pairs[a] == (&*pairs[a].0, &self.node_map()[*pairs[a].0]));
                    assert(pairs[b] == (&*pairs[b].0, &self.node_map()[*pairs[b].0]));
                }
            }
            assert forall|k: u32| #[trigger] ids@.to_set().contains(k) <==> self.node_map().contains_key(k) by {
                if self.node_map().contains_key(k) {
                    assert(pairs.contains((&k, &self.node_map()[k])));
                    let j = choose|j: int| 0 <= j < pairs.len() && pairs[j] == (&k, &self.node_map()[k]);
                    assert(ids@[j] == k);
                }
                if ids@.contains(k) {
                    let j = choose|j: int| 0 <= j < ids@.len() && ids@[j] == k;
                    assert(self.node_map().contains_key(*pairs[j].0));
                }
            }
            assert(ids@.to_set() =~= self.node_map().dom());
        }
        ids
    }

    /// Get entry point.
    pub fn entry_point(&self) -> (res: Option<u32>)
        ensures
            res == self.entry(),
    {
        self.entry_point
    }

    /// Get number of nodes.
    pub fn len(&self) -> (res: usize)
        ensures
            res == self.node_map().len(),
    {
        self.nodes.len()
    }

    /// Check if empty.
    pub fn is_empty(&self) -> (res: bool)
        ensures
            res <==> self.node_map().len() == 0,
    {
        self.nodes.len() == 0
    }

    /// Get max layer.
    pub fn max_layer(&self) -> (res: usize)
        ensures
            res == self.top_layer(),
    {
        self.max_layer
    }
}

/// `base` with each entry of `extra` appended in order unless already present.
pub open spec fn absorb(base: Seq<u32>, extra: Seq<u32>) -> Seq<u32>
    decreases extra.len(),
{
    if extra.len() == 0 {
        base
    } else {
        add_if_absent(absorb(base, extra.drop_last()), extra.last())
    }
}

/// Absorbing one more entry: absorbing `extra` followed by `x` is absorbing
/// `extra`, then appending `x` at the end unless the list already holds
/// it. With nothing to absorb the list is unchanged.
pub proof fn lemma_absorb_appends_in_order(base: Seq<u32>, extra: Seq<u32>, x: u32)
    ensures
        absorb(base, Seq::empty()) == base,
        absorb(base, extra.push(x)) == if absorb(base, extra).contains(x) {
            absorb(base, extra)
        } else {
            absorb(base, extra).push(x)
        },
{
    assert(extra.push(x).drop_last() =~= extra);
}

/// What absorbing leaves: the base list as a prefix, then only entries of
/// `extra` that the base lacks, each once; every entry of `base` or
/// `extra` is present; and the appended entries come in the order of
/// their first occurrence in `extra`.
pub proof fn lemma_absorb_shape(base: Seq<u32>, extra: Seq<u32>)
    ensures
        base.is_prefix_of(absorb(base, extra)),
        forall|x: u32| #[trigger]
            absorb(base, extra).contains(x) <==> base.contains(x) || extra.contains(x),
        forall|p: int|
            base.len() <= p < absorb(base, extra).len() ==> !base.contains(
                #[trigger] absorb(base, extra)[p],
            ),
        forall|p: int, q: int|
            base.len() <= p < q < absorb(base, extra).len() ==> #[trigger] absorb(base, extra)[p]
                != #[trigger] absorb(base, extra)[q],
        forall|p: int, q: int, j: int|
            #![trigger absorb(base, extra)[p], absorb(base, extra)[q], extra[j]]
            base.len() <= p < q < absorb(base, extra).len() && 0 <= j < extra.len() && extra[j]
                == absorb(base, extra)[q] ==> extra.take(j).contains(absorb(base, extra)[p]),
    decreases extra.len(),
{
    if extra.len() > 0 {
        let e0 = extra.drop_last();
        let x = extra.last();
        lemma_absorb_shape(base, e0);
        let r0 = absorb(base, e0);
        let r = absorb(base, extra);
        assert(r == if r0.contains(x) { r0 } else { r0.push(x) });
        assert forall|y: u32| #[trigger] extra.contains(y) <==> e0.contains(y) || y == x by {
            if extra.contains(y) {
                let k = choose|k: int| 0 <= k < extra.len() && extra[k] == y;
                if k < e0.len() {
                    assert(e0[k] == y);
                }
            }
            if e0.contains(y) {
                let k = choose|k: int| 0 <= k < e0.len() && e0[k] == y;
                assert(extra[k] == y);
            }
            if y == x {
                assert(extra[extra.len() - 1] == y);
            }
        }
        assert forall|y: u32| #[trigger] r.contains(y) <==> r0.contains(y) || y == x by {
            if !r0.contains(x) {
                if r.contains(y) {
                    let k = choose|k: int| 0 <= k < r.len() && r[k] == y;
                    if k < r0.len() {
                        assert(r0[k] == y);
                    }
                }
                if r0.contains(y) {
                    let k = choose|k: int| 0 <= k < r0.len() && r0[k] == y;
                    assert(r[k] == y);
                }
                assert(r[r0.len() as int] == x);
            }
        }
        assert forall|p: int, q: int, j: int|
            #![trigger r[p], r[q], extra[j]]
            base.len() <= p < q < r.len() && 0 <= j < extra.len() && extra[j] == r[q]
                implies extra.take(j).contains(r[p]) by {
            if q < r0.len() {
                assert(r[q] == r0[q] && r[p] == r0[p]);
                if j < e0.len() {
                    assert(e0[j] == r0[q]);
                    assert(e0.take(j).contains(r0[p]));
                    let i = choose|i: int| 0 <= i < e0.take(j).len() && e0.take(j)[i] == r0[p];
                    assert(extra.take(j)[i] == r[p]);
                } else {
                    // r0[q] is an entry of e0 (not of base), so it occurs in e0 too.
                    assert(r0.contains(r0[q]));
                    assert(!base.contains(r0[q]));
                    assert(e0.contains(r0[q]));
                    let j2 = choose|j2: int| 0 <= j2 < e0.len() && e0[j2] == r0[q];
                    assert(e0.take(j2).contains(r0[p]));
                    let i = choose|i: int| 0 <= i < e0.take(j2).len() && e0.take(j2)[i] == r0[p];
                    assert(extra.take(j)[i] == r[p]);
                }
            } else {
                // r[q] == x is new, so x does not occur in e0 and j is the last position.
                assert(q == r0.len() && !r0.contains(x) && r[q] == x);
                assert(r[p] == r0[p]);
                assert(r0.contains(r0[p]));
                assert(!base.contains(r0[p]));
                assert(e0.contains(r0[p]));
                let i = choose|i: int| 0 <= i < e0.len() && e0[i] == r0[p];
                assert(extra[i] == r[p]);
                if j < e0.len() {
                    assert(e0[j] == x);
                    assert(e0.contains(x));
                    assert(false);
                }
            }
        }
        assert forall|p: int, q: int| base.len() <= p < q < r.len() implies #[trigger] r[p] != #[trigger] r[q] by {
            if q < r0.len() {
                assert(r[q] == r0[q] && r[p] == r0[p]);
            } else {
                assert(r[p] == r0[p]);
                assert(r0.contains(r0[p]));
            }
        }
        assert forall|p: int| base.len() <= p < r.len() implies !base.contains(#[trigger] r[p]) by {
            if p < r0.len() {
                assert(r[p] == r0[p]);
            } else {
                assert(!r0.contains(x));
                if base.contains(x) {
                    let k = choose|k: int| 0 <= k < base.len() && base[k] == x;
                    assert(r0[k] == x);
                }
            }
        }
    } else {
        assert(absorb(base, extra) == base);
        assert(base.is_prefix_of(base));
    }
}

/// `lists` followed by empty lists until layer `max_layer` has one.
pub open spec fn padded(lists: Seq<Seq<u32>>, max_layer: nat) -> Seq<Seq<u32>> {
    if lists.len() > max_layer {
        lists
    } else {
        lists + Seq::new((max_layer + 1 - lists.len()) as nat, |i: int| Seq::<u32>::empty())
    }
}

/// Layer by layer, the entries of `other` absorbed into `base`; layers that
/// `base` lacks are ignored.
pub open spec fn absorb_layers(base: Seq<Seq<u32>>, other: Seq<Seq<u32>>) -> Seq<Seq<u32>> {
    Seq::new(
        base.len(),
        |l: int|
            if l < other.len() {
                absorb(base[l], other[l])
            } else {
                base[l]
            },
    )
}

/// Most entries kept on layer `l`.
pub open spec fn layer_cap(l: int, max_edges_l0: usize, max_edges: usize) -> nat {
    if l == 0 {
        max_edges_l0 as nat
    } else {
        max_edges as nat
    }
}

/// Each layer cut to its limit.
pub open spec fn capped(lists: Seq<Seq<u32>>, max_edges_l0: usize, max_edges: usize) -> Seq<Seq<u32>> {
    Seq::new(
        lists.len(),
        |l: int|
            if lists[l].len() > layer_cap(l, max_edges_l0, max_edges) {
                lists[l].take(layer_cap(l, max_edges_l0, max_edges) as int)
            } else {
                lists[l]
            },
    )
}

/// Number of entries over all layers.
pub open spec fn total_len(lists: Seq<Seq<u32>>) -> nat
    decreases lists.len(),
{
    if lists.len() == 0 {
        0
    } else {
        total_len(lists.drop_last()) + lists.last().len()
    }
}

/// The neighbor lists of node `id` in the naive merge of `a` and `b`,
/// before any cut: a node of `a` keeps its lists, padded to its layer, and
/// absorbs the lists of the same node in `b`; a node only in `b` keeps its
/// lists.
pub open spec fn union_lists<V>(a: Map<u32, MergeNode<V>>, b: Map<u32, MergeNode<V>>, id: u32) -> Seq<Seq<u32>> {
    if a.contains_key(id) {
        let base = padded(lists_of(a[id]), a[id].max_layer as nat);
        if b.contains_key(id) {
            absorb_layers(base, lists_of(b[id]))
        } else {
            base
        }
    } else {
        lists_of(b[id])
    }
}

/// Cutting to the edge limits keeps the start of each list: every layer
/// ends up with its first entries, at most its limit of them, and a list
/// within its limit is untouched.
pub proof fn lemma_capped_keeps_prefix(lists: Seq<Seq<u32>>, max_edges_l0: usize, max_edges: usize)
    ensures
        capped(lists, max_edges_l0, max_edges).len() == lists.len(),
        forall|l: int|
            0 <= l < lists.len() ==> {
                let c = #[trigger] capped(lists, max_edges_l0, max_edges)[l];
                &&& c.is_prefix_of(lists[l])
                &&& c.len() == if lists[l].len() > layer_cap(l, max_edges_l0, max_edges) {
                    layer_cap(l, max_edges_l0, max_edges) as int
                } else {
                    lists[l].len() as int
                }
            },
{
}

/// What merging does to a node of `a` that `b` also holds: on each of its
/// layers its list starts with its own entries and then holds exactly the
/// entries of `b`'s list on that layer that it lacked; a node of only one
/// graph keeps its lists.
pub proof fn lemma_union_lists_contents<V>(
    a: Map<u32, MergeNode<V>>,
    b: Map<u32, MergeNode<V>>,
    id: u32,
    l: int,
    x: u32,
)
    requires
        a.contains_key(id) || b.contains_key(id),
    ensures
        !a.contains_key(id) ==> union_lists(a, b, id) == lists_of(b[id]),
        a.contains_key(id) && !b.contains_key(id) ==> union_lists(a, b, id) == padded(
            lists_of(a[id]),
            a[id].max_layer as nat,
        ),
        a.contains_key(id) && b.contains_key(id) && 0 <= l < padded(
            lists_of(a[id]),
            a[id].max_layer as nat,
        ).len() ==> {
            let own = padded(lists_of(a[id]), a[id].max_layer as nat)[l];
            let other = if l < lists_of(b[id]).len() {
                lists_of(b[id])[l]
            } else {
                Seq::<u32>::empty()
            };
            let merged = union_lists(a, b, id)[l];
            &&& own.is_prefix_of(merged)
            &&& (merged.contains(x) <==> own.contains(x) || other.contains(x))
        },
{
    if a.contains_key(id) && b.contains_key(id) {
        let base = padded(lists_of(a[id]), a[id].max_layer as nat);
        if 0 <= l < base.len() {
            if l < lists_of(b[id]).len() {
                lemma_absorb_shape(base[l], lists_of(b[id])[l]);
            } else {
                assert(base[l].is_prefix_of(base[l]));
            }
        }
    }
}

/// Entries the merge adds to node `id` of `a` from `b`.
pub open spec fn union_gain<V>(a: Map<u32, MergeNode<V>>, b: Map<u32, MergeNode<V>>, id: u32) -> nat {
    if a.contains_key(id) && b.contains_key(id) {
        (total_len(union_lists(a, b, id)) - total_len(padded(lists_of(a[id]), a[id].max_layer as nat))) as nat
    } else {
        0
    }
}

/// `ks` lists each id of `s` once.
pub open spec fn enumerates(ks: Seq<u32>, s: Set<u32>) -> bool {
    ks.no_duplicates() && ks.to_set() == s
}

/// Entries the merge adds, summed over the ids `ks`.
pub open spec fn gain_sum<V>(a: Map<u32, MergeNode<V>>, b: Map<u32, MergeNode<V>>, ks: Seq<u32>) -> nat
    decreases ks.len(),
{
    if ks.len() == 0 {
        0
    } else {
        gain_sum(a, b, ks.drop_last()) + union_gain(a, b, ks.last())
    }
}

/// Number of the ids `ks` that `a` lacks.
pub open spec fn new_count<V>(a: Map<u32, MergeNode<V>>, ks: Seq<u32>) -> nat
    decreases ks.len(),
{
    if ks.len() == 0 {
        0
    } else {
        new_count(a, ks.drop_last()) + if a.contains_key(ks.last()) {
            0nat
        } else {
            1nat
        }
    }
}

/// Entries the cut removes from node `id` of the merge.
pub open spec fn cut_loss<V>(
    a: Map<u32, MergeNode<V>>,
    b: Map<u32, MergeNode<V>>,
    id: u32,
    max_edges_l0: usize,
    max_edges: usize,
) -> nat {
    (total_len(union_lists(a, b, id)) - total_len(capped(union_lists(a, b, id), max_edges_l0, max_edges))) as nat
}

/// Entries the cut removes, summed over the ids `ks`.
pub open spec fn cut_sum<V>(
    a: Map<u32, MergeNode<V>>,
    b: Map<u32, MergeNode<V>>,
    ks: Seq<u32>,
    max_edges_l0: usize,
    max_edges: usize,
) -> nat
    decreases ks.len(),
{
    if ks.len() == 0 {
        0
    } else {
        cut_sum(a, b, ks.drop_last(), max_edges_l0, max_edges) + cut_loss(a, b, ks.last(), max_edges_l0, max_edges)
    }
}

/// Neighbor entries of the nodes `ks` of `m`.
pub open spec fn entries_over<V>(m: Map<u32, MergeNode<V>>, ks: Seq<u32>) -> nat
    decreases ks.len(),
{
    if ks.len() == 0 {
        0
    } else {
        entries_over(m, ks.drop_last()) + if m.contains_key(ks.last()) {
            total_len(lists_of(m[ks.last()]))
        } else {
            0
        }
    }
}

/// All neighbor entries of both graphs, over any ids, fit in a `usize`.
pub open spec fn merge_fits<V>(a: Map<u32, MergeNode<V>>, b: Map<u32, MergeNode<V>>) -> bool {
    forall|ks: Seq<u32>| ks.no_duplicates() ==> #[trigger] entries_over(a, ks) + entries_over(b, ks) <= usize::MAX
}

/// Copy neighbor lists.
fn copy_lists(lists: &Vec<Vec<u32>>) -> (res: Vec<Vec<u32>>)
    ensures
        res@.map_values(|v: Vec<u32>| v@) == lists@.map_values(|v: Vec<u32>| v@),
{
    let mut res: Vec<Vec<u32>> = Vec::new();
    let mut i: usize = 0;
    while i < lists.len()
        invariant
            i <= lists@.len(),
            res@.len() == i,
            forall|k: int| 0 <= k < i ==> (#[trigger] res@[k])@ == lists@[k]@,
        decreases lists@.len() - i,
    {
        let src = &lists[i];
        let mut copy: Vec<u32> = Vec::new();
        let mut j: usize = 0;
        while j < src.len()
            invariant
                j <= src@.len(),
                copy@ == src@.subrange(0, j as int),
            decreases src@.len() - j,
        {
            copy.push(src[j]);
            j = j + 1;
        }
        assert(src@.subrange(0, src@.len() as int) =~= src@);
        res.push(copy);
        i = i + 1;
    }
    assert(res@.map_values(|v: Vec<u32>| v@) =~= lists@.map_values(|v: Vec<u32>| v@));
    res
}

/// Append each entry of `extra` that `base` lacks; returns how many were
/// appended.
fn absorb_into(base: &mut Vec<u32>, extra: &Vec<u32>) -> (added: usize)
    ensures
        final(base)@ == absorb(old(base)@, extra@),
        final(base)@.len() == old(base)@.len() + added,
        added <= extra@.len(),
{
    let ghost start = base@;
    let mut added: usize = 0;
    let mut j: usize = 0;
    while j < extra.len()
        invariant
            j <= extra@.len(),
            base@ == absorb(start, extra@.subrange(0, j as int)),
            base@.len() == start.len() + added,
            added <= j,
        decreases extra@.len() - j,
    {
        let x = extra[j];
        proof {
            assert(extra@.subrange(0, j as int + 1).drop_last() =~= extra@.subrange(0, j as int));
            assert(extra@.subrange(0, j as int + 1).last() == x);
        }
        if !crate::repair::contains_id(base, x) {
            base.push(x);
            added = added + 1;
        }
        j = j + 1;
    }
    assert(extra@.subrange(0, extra@.len() as int) =~= extra@);
    added
}

proof fn lemma_total_len_update(s: Seq<Seq<u32>>, i: int, x: Seq<u32>)
    requires
        0 <= i < s.len(),
    ensures
        total_len(s.update(i, x)) + s[i].len() == total_len(s) + x.len(),
    decreases s.len(),
{
    let t = s.update(i, x);
    if i < s.len() - 1 {
        assert(t.drop_last() =~= s.drop_last().update(i, x));
        lemma_total_len_update(s.drop_last(), i, x);
    } else {
        assert(t.drop_last() =~= s.drop_last());
    }
}

proof fn lemma_total_len_push_empty(s: Seq<Seq<u32>>)
    ensures
        total_len(s.push(Seq::<u32>::empty())) == total_len(s),
{
    assert(s.push(Seq::<u32>::empty()).drop_last() =~= s);
}

proof fn lemma_total_len_take(s: Seq<Seq<u32>>, k: int)
    requires
        0 <= k <= s.len(),
    ensures
        total_len(s.take(k)) <= total_len(s),
    decreases s.len() - k,
{
    if k < s.len() {
        lemma_total_len_take(s, k + 1);
        assert(s.take(k + 1).drop_last() =~= s.take(k));
    } else {
        assert(s.take(k) =~= s);
    }
}

/// Pad `lists` with empty lists until layer `max_layer` has one.
fn pad_lists(lists: &mut Vec<Vec<u32>>, max_layer: usize)
    requires
        max_layer < usize::MAX,
    ensures
        final(lists)@.map_values(|v: Vec<u32>| v@) == padded(
            old(lists)@.map_values(|v: Vec<u32>| v@),
            max_layer as nat,
        ),
{
    let ghost start = lists@.map_values(|v: Vec<u32>| v@);
    while lists.len() <= max_layer
        invariant
            max_layer < usize::MAX,
            lists@.len() >= start.len(),
            lists@.len() <= max_layer + 1 || lists@.len() == start.len(),
            forall|k: int| 0 <= k < start.len() ==> (#[trigger] lists@[k])@ == start[k],
            forall|k: int| start.len() <= k < lists@.len() ==> (#[trigger] lists@[k])@ == Seq::<u32>::empty(),
        decreases max_layer + 1 - lists@.len(),
    {
        lists.push(Vec::new());
    }
    assert(lists@.map_values(|v: Vec<u32>| v@) =~= padded(start, max_layer as nat));
}

/// Absorb each layer of `other` into the same layer of `base` (layers that
/// `base` lacks are ignored); returns how many entries were appended.
fn absorb_layers_into(base: &mut Vec<Vec<u32>>, other: &Vec<Vec<u32>>) -> (added: usize)
    requires
        total_len(other@.map_values(|v: Vec<u32>| v@)) <= usize::MAX,
    ensures
        final(base)@.map_values(|v: Vec<u32>| v@) == absorb_layers(
            old(base)@.map_values(|v: Vec<u32>| v@),
            other@.map_values(|v: Vec<u32>| v@),
        ),
        total_len(final(base)@.map_values(|v: Vec<u32>| v@)) == total_len(
            old(base)@.map_values(|v: Vec<u32>| v@),
        ) + added,
        added <= total_len(other@.map_values(|v: Vec<u32>| v@)),
{
    let ghost start = base@.map_values(|v: Vec<u32>| v@);
    let ghost others = other@.map_values(|v: Vec<u32>| v@);
    let mut added: usize = 0;
    let mut layer: usize = 0;
    while layer < other.len()
        invariant
            others == other@.map_values(|v: Vec<u32>| v@),
            base@.len() == start.len(),
            layer <= other@.len(),
            forall|l: int|
                0 <= l < base@.len() ==> (#[trigger] base@[l])@ == if l < layer && l < others.len() {
                    absorb(start[l], others[l])
                } else {
                    start[l]
                },
            total_len(base@.map_values(|v: Vec<u32>| v@)) == total_len(start) + added,
            added <= total_len(others.take(layer as int)),
            total_len(others) <= usize::MAX,
        decreases other@.len() - layer,
    {
        proof {
            assert(others.take(layer as int + 1).drop_last() =~= others.take(layer as int));
            assert(others.take(layer as int + 1).last() == others[layer as int]);
            lemma_total_len_take(others, layer as int + 1);
        }
        if layer < base.len() {
            let ghost before = base@.map_values(|v: Vec<u32>| v@);
            let mut list = Vec::new();
            base.set_and_swap(layer, &mut list);
            let more = absorb_into(&mut list, &other[layer]);
            let ghost new_list = list@;
            base.set_and_swap(layer, &mut list);
            proof {
                assert(base@.map_values(|v: Vec<u32>| v@) =~= before.update(layer as int, new_list));
                lemma_total_len_update(before, layer as int, new_list);
            }
            added = added + more;
        }
        layer = layer + 1;
    }
    proof {
        assert(others.take(others.len() as int) =~= others);
        assert(base@.map_values(|v: Vec<u32>| v@) =~= absorb_layers(start, others));
    }
    added
}

/// Cut each layer to its limit; returns how many entries were removed.
fn cap_layers(lists: &mut Vec<Vec<u32>>, max_edges_l0: usize, max_edges: usize) -> (pruned: usize)
    requires
        total_len(old(lists)@.map_values(|v: Vec<u32>| v@)) <= usize::MAX,
    ensures
        final(lists)@.map_values(|v: Vec<u32>| v@) == capped(
            old(lists)@.map_values(|v: Vec<u32>| v@),
            max_edges_l0,
            max_edges,
        ),
        total_len(final(lists)@.map_values(|v: Vec<u32>| v@)) + pruned == total_len(
            old(lists)@.map_values(|v: Vec<u32>| v@),
        ),
{
    let ghost start = lists@.map_values(|v: Vec<u32>| v@);
    let mut pruned: usize = 0;
    let mut layer: usize = 0;
    while layer < lists.len()
        invariant
            lists@.len() == start.len(),
            layer <= lists@.len(),
            forall|l: int|
                0 <= l < lists@.len() ==> (#[trigger] lists@[l])@ == if l < layer {
                    capped(start, max_edges_l0, max_edges)[l]
                } else {
                    start[l]
                },
            total_len(lists@.map_values(|v: Vec<u32>| v@)) + pruned == total_len(start),
            total_len(start) <= usize::MAX,
        decreases lists@.len() - layer,
    {
        let cap = if layer == 0 {
            max_edges_l0
        } else {
            max_edges
        };
        let len = lists[layer].len();
        if len > cap {
            let ghost before = lists@.map_values(|v: Vec<u32>| v@);
            let mut list = Vec::new();
            lists.set_and_swap(layer, &mut list);
            list.truncate(cap);
            let ghost new_list = list@;
            lists.set_and_swap(layer, &mut list);
            proof {
                assert(new_list =~= start[layer as int].take(cap as int));
                assert(lists@.map_values(|v: Vec<u32>| v@) =~= before.update(layer as int, new_list));
                lemma_total_len_update(before, layer as int, new_list);
            }
            pruned = pruned + (len - cap);
        }
        layer = layer + 1;
    }
    assert(lists@.map_values(|v: Vec<u32>| v@) =~= capped(start, max_edges_l0, max_edges));
    pruned
}

/// The ids of the first `j` entries of a walk over a map.
pub open spec fn walk_keys<V>(pairs: Seq<(&u32, &MergeNode<V>)>, j: int) -> Seq<u32> {
    Seq::new(j as nat, |i: int| *pairs[i].0)
}

/// Neighbor entries of node `x` of `m` (zero when absent).
pub open spec fn entries_at<V>(m: Map<u32, MergeNode<V>>, x: u32) -> nat {
    if m.contains_key(x) {
        total_len(lists_of(m[x]))
    } else {
        0
    }
}

/// Node `n`, stored as `x` in a merge of `a` and `b` in progress, is as
/// the naive merge builds it; the ids of `b` in `done` were absorbed.
pub open spec fn merged_node_ok<V: Clone>(
    a: Map<u32, MergeNode<V>>,
    b: Map<u32, MergeNode<V>>,
    done: Set<u32>,
    x: u32,
    n: MergeNode<V>,
) -> bool {
    &&& n.id == x
    &&& if a.contains_key(x) {
        &&& n.max_layer == a[x].max_layer
        &&& cloned(a[x].vector, n.vector)
        &&& lists_of(n) == if done.contains(x) {
            union_lists(a, b, x)
        } else {
            padded(lists_of(a[x]), a[x].max_layer as nat)
        }
    } else {
        &&& b.contains_key(x)
        &&& n.max_layer == b[x].max_layer
        &&& cloned(b[x].vector, n.vector)
        &&& lists_of(n) == lists_of(b[x])
    }
    &&& total_len(lists_of(n)) <= entries_at(a, x) + entries_at(b, x)
}

proof fn lemma_total_len_padded(lists: Seq<Seq<u32>>, max_layer: nat)
    ensures
        total_len(padded(lists, max_layer)) == total_len(lists),
    decreases max_layer + 1 - lists.len(),
{
    if lists.len() <= max_layer {
        let more = lists.push(Seq::<u32>::empty());
        lemma_total_len_push_empty(lists);
        lemma_total_len_padded(more, max_layer);
        assert(padded(more, max_layer) =~= padded(lists, max_layer));
    }
}

proof fn lemma_walk_keys_distinct<V>(m: &HashMap<u32, MergeNode<V>>, pairs: Seq<(&u32, &MergeNode<V>)>, i: int, j: int)
    requires
        pairs == spec_hash_map_iter(m).remaining(),
        pairs.no_duplicates(),
        0 <= i < j < pairs.len(),
    ensures
        *pairs[i].0 != *pairs[j].0,
{
    if *pairs[i].0 == *pairs[j].0 {
        assert(m@.contains_key(*pairs[i].0));
        assert(m@[*pairs[i].0] == *pairs[i].1);
        assert(m@[*pairs[j].0] == *pairs[j].1);
        assert(pairs[i] == pairs[j]);
    }
}

proof fn lemma_walk_enumerates<V>(m: &HashMap<u32, MergeNode<V>>, pairs: Seq<(&u32, &MergeNode<V>)>)
    requires
        pairs == spec_hash_map_iter(m).remaining(),
        pairs.no_duplicates(),
    ensures
        enumerates(walk_keys(pairs, pairs.len() as int), m@.dom()),
{
    let ks = walk_keys(pairs, pairs.len() as int);
    assert forall|i: int, j: int| 0 <= i < j < ks.len() implies ks[i] != ks[j] by {
        lemma_walk_keys_distinct(m, pairs, i, j);
    }
    assert forall|k: u32| #[trigger] ks.to_set().contains(k) <==> m@.contains_key(k) by {
        if m@.contains_key(k) {
            assert(pairs.contains((&k, &m@[k])));
            let j = choose|j: int| 0 <= j < pairs.len() && pairs[j] == (&k, &m@[k]);
            assert(ks[j] == k);
        }
        if ks.contains(k) {
            let j = choose|j: int| 0 <= j < ks.len() && ks[j] == k;
            assert(m@.contains_key(*pairs[j].0));
        }
    }
    assert(ks.to_set() =~= m@.dom());
}

proof fn lemma_new_count_len<V>(a: Map<u32, MergeNode<V>>, ks: Seq<u32>)
    requires
        ks.no_duplicates(),
    ensures
        ks.to_set().difference(a.dom()).finite(),
        new_count(a, ks) == ks.to_set().difference(a.dom()).len(),
    decreases ks.len(),
{
    if ks.len() == 0 {
        assert(ks.to_set().difference(a.dom()) =~= Set::<u32>::empty());
    } else {
        let r = ks.drop_last();
        let x = ks.last();
        assert(r.no_duplicates()) by {
            assert forall|i: int, j: int| 0 <= i < j < r.len() implies r[i] != r[j] by {
                assert(r[i] == ks[i] && r[j] == ks[j]);
            }
        }
        lemma_new_count_len(a, r);
        assert(!r.contains(x)) by {
            if r.contains(x) {
                let j = choose|j: int| 0 <= j < r.len() && r[j] == x;
                assert(ks[j] == ks[ks.len() - 1]);
            }
        }
        assert(ks.to_set() =~= r.to_set().insert(x)) by {
            assert forall|y: u32| ks.contains(y) <==> (r.contains(y) || y == x) by {
                if ks.contains(y) {
                    let j = choose|j: int| 0 <= j < ks.len() && ks[j] == y;
                    if j < r.len() {
                        assert(r[j] == y);
                    }
                }
                if r.contains(y) {
                    let j = choose|j: int| 0 <= j < r.len() && r[j] == y;
                    assert(ks[j] == y);
                }
            }
        }
        if a.contains_key(x) {
            assert(ks.to_set().difference(a.dom()) =~= r.to_set().difference(a.dom()));
        } else {
            assert(ks.to_set().difference(a.dom()) =~= r.to_set().difference(a.dom()).insert(x));
        }
    }
}

/// Naive graph merge: union the edge lists of both graphs.
///
/// Every node of `graph_a` is copied with its lists padded to its layer;
/// then each node of `graph_b` either absorbs, layer by layer, its lists
/// into the copy of the same node (layers the copy lacks are ignored), or
/// is copied as it is. With `refine_edges`, every list is then cut to
/// `max_edges_l0` entries on layer 0 and `max_edges` above. The statistics
/// count the nodes taken from each graph, the entries added by absorbing
/// and the entries cut.
pub fn naive_graph_merge<V: Clone>(
    graph_a: &MergeGraph<V>,
    graph_b: &MergeGraph<V>,
    max_edges_l0: usize,
    max_edges: usize,
    refine_edges: bool,
) -> (res: (MergeGraph<V>, MergeStats))
    requires
        forall|k: u32| #[trigger]
            graph_a.node_map().contains_key(k) ==> graph_a.node_map()[k].max_layer < usize::MAX,
        merge_fits(graph_a.node_map(), graph_b.node_map()),
    ensures
        ({
            let a = graph_a.node_map();
            let b = graph_b.node_map();
            let m = res.0.node_map();
            let st = res.1;
            &&& res.0.entry_on_top()
            &&& m.dom() == a.dom().union(b.dom())
            &&& forall|x: u32| #[trigger]
                m.contains_key(x) ==> {
                    let src = if a.contains_key(x) {
                        a[x]
                    } else {
                        b[x]
                    };
                    &&& m[x].max_layer == src.max_layer
                    &&& cloned(src.vector, m[x].vector)
                    &&& lists_of(m[x]) == if refine_edges {
                        capped(union_lists(a, b, x), max_edges_l0, max_edges)
                    } else {
                        union_lists(a, b, x)
                    }
                }
            &&& st.nodes_from_a == a.dom().len()
            &&& st.nodes_from_b == b.dom().difference(a.dom()).len()
            &&& st.total_nodes == m.len()
            &&& exists|ks: Seq<u32>|
                enumerates(ks, b.dom()) && st.nodes_from_b == new_count(a, ks) && st.edges_added
                    == gain_sum(a, b, ks)
            &&& refine_edges ==> exists|ks: Seq<u32>|
                enumerates(ks, m.dom()) && st.edges_pruned == cut_sum(a, b, ks, max_edges_l0, max_edges)
            &&& !refine_edges ==> st.edges_pruned == 0
            &&& st.distance_computations == 0
        }),
{
    let ghost a = graph_a.node_map();
    let ghost b = graph_b.node_map();
    proof {
        use_type_invariant(graph_a);
        use_type_invariant(graph_b);
    }
    let mut merged: MergeGraph<V> = MergeGraph::new();
    let a_len = graph_a.nodes.len();
    let mut nodes_from_a: usize = 0;
    let ghost pairs_a = spec_hash_map_iter(&graph_a.nodes).remaining();
    for (k, node) in it: graph_a.nodes.iter()
        invariant
            a == graph_a.node_map(),
            b == graph_b.node_map(),
            graph_a.keyed_by_id(),
            forall|k: u32| #[trigger] a.contains_key(k) ==> a[k].max_layer < usize::MAX,
            merge_fits(a, b),
            it.seq() == pairs_a,
            pairs_a == spec_hash_map_iter(&graph_a.nodes).remaining(),
            pairs_a.no_duplicates(),
            nodes_from_a == it.index(),
            a_len == a.len(),
            merged.keyed_by_id(),
            merged.entry_on_top(),
            merged.node_map().dom() == walk_keys(pairs_a, it.index()).to_set(),
            forall|x: u32| #[trigger]
                merged.node_map().contains_key(x) ==> a.contains_key(x) && merged_node_ok(
                    a,
                    b,
                    Set::empty(),
                    x,
                    merged.node_map()[x],
                ),
    {
        let ghost idx = it.index();
        proof {
            assert(pairs_a.len() == a.dom().len());
            assert(nodes_from_a < a_len);
            assert(a.contains_key(*pairs_a[idx].0));
            assert(a[*pairs_a[idx].0] == *pairs_a[idx].1);
            assert(!merged.node_map().contains_key(*k)) by {
                let w0 = walk_keys(pairs_a, idx);
                if merged.node_map().contains_key(*k) {
                    assert(w0.contains(*k));
                    let j = choose|j: int| 0 <= j < w0.len() && w0[j] == *k;
                    lemma_walk_keys_distinct(&graph_a.nodes, pairs_a, j, idx);
                }
            }
            let one = seq![*k];
            assert(one.no_duplicates());
            assert(one.drop_last() =~= Seq::<u32>::empty());
            assert(one.last() == *k);
            assert(entries_over(a, Seq::<u32>::empty()) == 0);
            assert(entries_over(b, Seq::<u32>::empty()) == 0);
            assert(entries_over(a, one) == entries_at(a, *k));
            assert(entries_over(b, one) == entries_at(b, *k));
            assert(entries_over(a, one) + entries_over(b, one) <= usize::MAX);
        }
        let mut lists = copy_lists(&node.neighbors);
        pad_lists(&mut lists, node.max_layer);
        proof {
            lemma_total_len_padded(lists_of(*node), node.max_layer as nat);
        }
        let new_node = MergeNode {
            id: node.id,
            vector: node.vector.clone(),
            neighbors: lists,
            max_layer: node.max_layer,
        };
        let ghost prev = merged.node_map();
        merged.add_node(new_node);
        proof {
            let w0 = walk_keys(pairs_a, idx);
            let w1 = walk_keys(pairs_a, idx + 1);
            assert(w1.to_set() =~= w0.to_set().insert(*k)) by {
                assert forall|x: u32| w1.contains(x) <==> (w0.contains(x) || x == *k) by {
                    if w1.contains(x) {
                        let j = choose|j: int| 0 <= j < w1.len() && w1[j] == x;
                        if j < idx {
                            assert(w0[j] == x);
                        }
                    }
                    if w0.contains(x) {
                        let j = choose|j: int| 0 <= j < w0.len() && w0[j] == x;
                        assert(w1[j] == x);
                    }
                    if x == *k {
                        assert(w1[idx] == x);
                    }
                }
            }
            assert forall|x: u32| #[trigger]
                merged.node_map().contains_key(x) implies a.contains_key(x) && merged_node_ok(
                a,
                b,
                Set::empty(),
                x,
                merged.node_map()[x],
            ) by {
                if x != *k {
                    assert(prev.contains_key(x));
                }
            }
        }
        nodes_from_a = nodes_from_a + 1;
    }
    proof {
        lemma_walk_enumerates(&graph_a.nodes, pairs_a);
        assert(walk_keys(pairs_a, pairs_a.len() as int).to_set() == a.dom());
    }

    let b_len = graph_b.nodes.len();
    let mut nodes_from_b: usize = 0;
    let mut edges_added: usize = 0;
    let ghost pairs_b = spec_hash_map_iter(&graph_b.nodes).remaining();
    for (k, node) in it2: graph_b.nodes.iter()
        invariant
            a == graph_a.node_map(),
            b == graph_b.node_map(),
            graph_b.keyed_by_id(),
            merge_fits(a, b),
            it2.seq() == pairs_b,
            pairs_b == spec_hash_map_iter(&graph_b.nodes).remaining(),
            pairs_b.no_duplicates(),
            nodes_from_a == a.dom().len(),
            b_len == b.len(),
            merged.keyed_by_id(),
            merged.entry_on_top(),
            merged.node_map().dom() == a.dom().union(walk_keys(pairs_b, it2.index()).to_set()),
            forall|x: u32| #[trigger]
                merged.node_map().contains_key(x) ==> merged_node_ok(
                    a,
                    b,
                    walk_keys(pairs_b, it2.index()).to_set(),
                    x,
                    merged.node_map()[x],
                ),
            nodes_from_b == new_count(a, walk_keys(pairs_b, it2.index())),
            nodes_from_b <= it2.index(),
            edges_added == gain_sum(a, b, walk_keys(pairs_b, it2.index())),
            edges_added <= entries_over(b, walk_keys(pairs_b, it2.index())),
    {
        let ghost idx = it2.index();
        let ghost done = walk_keys(pairs_b, idx).to_set();
        let ghost ks = walk_keys(pairs_b, idx);
        let ghost ks1 = walk_keys(pairs_b, idx + 1);
        proof {
            assert(b.contains_key(*pairs_b[idx].0));
            assert(b[*pairs_b[idx].0] == *pairs_b[idx].1);
            assert(!done.contains(*k)) by {
                if ks.contains(*k) {
                    let j = choose|j: int| 0 <= j < ks.len() && ks[j] == *k;
                    lemma_walk_keys_distinct(&graph_b.nodes, pairs_b, j, idx);
                }
            }
            assert(ks1.drop_last() =~= ks);
            assert(ks1.last() == *k);
            assert(ks1.no_duplicates()) by {
                assert forall|i: int, j: int| 0 <= i < j < ks1.len() implies ks1[i] != ks1[j] by {
                    lemma_walk_keys_distinct(&graph_b.nodes, pairs_b, i, j);
                }
            }
            assert(entries_over(a, ks1) + entries_over(b, ks1) <= usize::MAX);
            assert(ks1.to_set() =~= done.insert(*k)) by {
                assert forall|x: u32| ks1.contains(x) <==> (ks.contains(x) || x == *k) by {
                    if ks1.contains(x) {
                        let j = choose|j: int| 0 <= j < ks1.len() && ks1[j] == x;
                        if j < idx {
                            assert(ks[j] == x);
                        }
                    }
                    if ks.contains(x) {
                        let j = choose|j: int| 0 <= j < ks.len() && ks[j] == x;
                        assert(ks1[j] == x);
                    }
                    if x == *k {
                        assert(ks1[idx] == x);
                    }
                }
            }
        }
        let ghost prev = merged.node_map();
        proof {
            use_type_invariant(&merged);
        }
        if merged.nodes.contains_key(&node.id) {
            let removed = merged.take_node(node.id);
            let mut existing = removed.unwrap();
            proof {
                assert(a.contains_key(*k));
                assert(total_len(lists_of(*node)) == entries_at(b, *k));
                assert(existing == prev[*k]);
                lemma_total_len_padded(lists_of(a[*k]), a[*k].max_layer as nat);
                assert(total_len(lists_of(existing)) == entries_at(a, *k));
            }
            let more = absorb_layers_into(&mut existing.neighbors, &node.neighbors);
            proof {
                assert(lists_of(existing) == union_lists(a, b, *k));
                assert(union_gain(a, b, *k) == more);
                assert(entries_over(b, ks1) == entries_over(b, ks) + entries_at(b, *k));
            }
            edges_added = edges_added + more;
            merged.put_node(existing);
            proof {
                assert(merged.node_map() == prev.insert(*k, existing));
                assert(new_count(a, ks1) == new_count(a, ks));
            }
        } else {
            proof {
                assert(!a.contains_key(*k));
                assert(nodes_from_b < usize::MAX) by {
                    assert(nodes_from_b <= idx);
                    assert(idx < pairs_b.len());
                    assert(pairs_b.len() == b.dom().len());
                    assert(b.len() == b.dom().len());
                }
            }
            let lists = copy_lists(&node.neighbors);
            let new_node = MergeNode {
                id: node.id,
                vector: node.vector.clone(),
                neighbors: lists,
                max_layer: node.max_layer,
            };
            merged.add_node(new_node);
            nodes_from_b = nodes_from_b + 1;
            proof {
                assert(union_gain(a, b, *k) == 0);
                assert(entries_over(b, ks1) == entries_over(b, ks) + entries_at(b, *k));
            }
        }
        proof {
            assert forall|x: u32| #[trigger]
                merged.node_map().contains_key(x) implies merged_node_ok(
                a,
                b,
                ks1.to_set(),
                x,
                merged.node_map()[x],
            ) by {
                if x != *k {
                    assert(prev.contains_key(x));
                    assert(merged.node_map()[x] == prev[x]);
                    assert(merged_node_ok(a, b, done, x, prev[x]));
                }
            }
        }
    }
    proof {
        lemma_walk_enumerates(&graph_b.nodes, pairs_b);
    }
    let ghost kb = walk_keys(pairs_b, pairs_b.len() as int);

    let mut edges_pruned: usize = 0;
    let ghost mut cut_keys: Seq<u32> = Seq::empty();
    if refine_edges {
        let ids = merged.node_ids();
        let ghost before = merged.node_map();
        let mut i: usize = 0;
        while i < ids.len()
            invariant
                a == graph_a.node_map(),
                b == graph_b.node_map(),
                merge_fits(a, b),
                before.dom() == a.dom().union(b.dom()),
                ids@.no_duplicates(),
                ids@.to_set() == before.dom(),
                i <= ids@.len(),
                merged.keyed_by_id(),
                merged.entry_on_top(),
                merged.node_map().dom() == before.dom(),
                forall|x: u32| #[trigger] before.contains_key(x) ==> merged_node_ok(a, b, b.dom(), x, before[x]),
                forall|x: u32| #[trigger]
                    merged.node_map().contains_key(x) ==> {
                        &&& merged.node_map()[x].id == before[x].id
                        &&& merged.node_map()[x].max_layer == before[x].max_layer
                        &&& merged.node_map()[x].vector == before[x].vector
                        &&& lists_of(merged.node_map()[x]) == if ids@.take(i as int).contains(x) {
                            capped(lists_of(before[x]), max_edges_l0, max_edges)
                        } else {
                            lists_of(before[x])
                        }
                    },
                edges_pruned == cut_sum(a, b, ids@.take(i as int), max_edges_l0, max_edges),
                edges_pruned <= entries_over(a, ids@.take(i as int)) + entries_over(b, ids@.take(i as int)),
            decreases ids@.len() - i,
        {
            let id = ids[i];
            let ghost ks = ids@.take(i as int);
            let ghost ks1 = ids@.take(i as int + 1);
            proof {
                assert(ks1.drop_last() =~= ks);
                assert(ks1.last() == id);
                assert(ids@.to_set().contains(id));
                assert(!ks.contains(id)) by {
                    if ks.contains(id) {
                        let j = choose|j: int| 0 <= j < ks.len() && ks[j] == id;
                        assert(ids@[j] == ids@[i as int]);
                    }
                }
                assert(ks1.no_duplicates()) by {
                    assert forall|p: int, q: int| 0 <= p < q < ks1.len() implies ks1[p] != ks1[q] by {
                        assert(ids@[p] != ids@[q]);
                    }
                }
                assert(entries_over(a, ks1) + entries_over(b, ks1) <= usize::MAX);
                assert(merged_node_ok(a, b, b.dom(), id, before[id]));
                assert(lists_of(before[id]) == union_lists(a, b, id)) by {
                    if a.contains_key(id) && !b.contains_key(id) {
                        assert(union_lists(a, b, id) == padded(lists_of(a[id]), a[id].max_layer as nat));
                    }
                }
            }
            let ghost prev = merged.node_map();
            proof {
                use_type_invariant(&merged);
            }
            let removed = merged.take_node(id);
            let mut node = removed.unwrap();
            let cut = cap_layers(&mut node.neighbors, max_edges_l0, max_edges);
            proof {
                assert(cut == cut_loss(a, b, id, max_edges_l0, max_edges));
            }
            edges_pruned = edges_pruned + cut;
            merged.put_node(node);
            proof {
                assert(merged.node_map() == prev.insert(id, node));
                assert forall|x: u32| #[trigger]
                    merged.node_map().contains_key(x) implies {
                    &&& merged.node_map()[x].id == before[x].id
                    &&& merged.node_map()[x].max_layer == before[x].max_layer
                    &&& merged.node_map()[x].vector == before[x].vector
                    &&& lists_of(merged.node_map()[x]) == if ks1.contains(x) {
                        capped(lists_of(before[x]), max_edges_l0, max_edges)
                    } else {
                        lists_of(before[x])
                    }
                } by {
                    if x != id {
                        assert(ks1.contains(x) == ks.contains(x)) by {
                            if ks1.contains(x) {
                                let j = choose|j: int| 0 <= j < ks1.len() && ks1[j] == x;
                                assert(ks[j] == x);
                            }
                            if ks.contains(x) {
                                let j = choose|j: int| 0 <= j < ks.len() && ks[j] == x;
                                assert(ks1[j] == x);
                            }
                        }
                    } else {
                        assert(ks1[i as int] == x);
                    }
                }
            }
            i = i + 1;
        }
        proof {
            assert(ids@.take(ids@.len() as int) =~= ids@);
            cut_keys = ids@;
        }
    }
    let total_nodes = merged.len();
    let stats = MergeStats {
        nodes_from_a,
        nodes_from_b,
        total_nodes,
        edges_added,
        edges_pruned,
        distance_computations: 0,
    };
    proof {
        assert(merged.node_map().dom() =~= a.dom().union(b.dom()));
        let m = merged.node_map();
        assert(enumerates(kb, b.dom()) && stats.nodes_from_b == new_count(a, kb) && stats.edges_added
            == gain_sum(a, b, kb));
        lemma_new_count_len(a, kb);
        if refine_edges {
            assert(enumerates(cut_keys, m.dom()));
            assert(stats.edges_pruned == cut_sum(a, b, cut_keys, max_edges_l0, max_edges));
        }
        assert forall|x: u32| #[trigger]
            m.contains_key(x) implies {
                let src = if a.contains_key(x) {
                    a[x]
                } else {
                    b[x]
                };
                &&& m[x].max_layer == src.max_layer
                &&& cloned(src.vector, m[x].vector)
                &&& lists_of(m[x]) == if refine_edges {
                    capped(union_lists(a, b, x), max_edges_l0, max_edges)
                } else {
                    union_lists(a, b, x)
                }
            } by {
            assert(m.contains_key(x));
        }
    }
    (merged, stats)
}

} // verus!
