//! Node reordering for cache locality: a breadth-first visit order over the
//! base layer, its inverse, and the renumbering of neighbor lists.
use crate::structure::{build_reverse_map, compute_entry_point};
use std::collections::HashMap;
use std::collections::VecDeque;
use vstd::prelude::*;

verus! {

/// `s` lists every id in `0..n` exactly once.
pub open spec fn is_permutation(s: Seq<u32>, n: nat) -> bool {
    &&& s.len() == n
    &&& s.no_duplicates()
    &&& forall|i: int| 0 <= i < s.len() ==> (#[trigger] s[i] as int) < n
}

/// The ids below `n`.
pub open spec fn id_range(n: nat) -> Set<u32> {
    Set::new(|x: u32| (x as int) < n)
}

proof fn lemma_id_range_len(n: nat)
    requires
        n <= u32::MAX + 1,
    ensures
        id_range(n).finite(),
        id_range(n).len() == n,
    decreases n,
{
    if n == 0 {
        assert(id_range(n) =~= Set::empty());
    } else {
        lemma_id_range_len((n - 1) as nat);
        assert(id_range(n) =~= id_range((n - 1) as nat).insert((n - 1) as u32));
    }
}

/// A duplicate-free sequence of ids below `n` has at most `n` entries, and
/// exactly `n` when it holds every id below `n`.
proof fn lemma_distinct_ids_len(s: Seq<u32>, n: nat)
    requires
        n <= u32::MAX + 1,
        s.no_duplicates(),
        forall|i: int| 0 <= i < s.len() ==> (#[trigger] s[i] as int) < n,
    ensures
        s.len() <= n,
        (forall|x: u32| (x as int) < n ==> #[trigger] s.contains(x)) ==> s.len() == n,
{
    s.unique_seq_to_set();
    lemma_id_range_len(n);
    assert(s.to_set().subset_of(id_range(n)));
    vstd::set_lib::lemma_len_subset(s.to_set(), id_range(n));
    if forall|x: u32| (x as int) < n ==> #[trigger] s.contains(x) {
        assert(s.to_set() =~= id_range(n));
    }
}

/// The neighbors of `x` in `base` (none when `base` has no list for it).
pub open spec fn nbrs_of(base: Seq<Vec<u32>>, x: u32) -> Seq<u32> {
    if (x as int) < base.len() {
        base[x as int]@
    } else {
        Seq::empty()
    }
}

/// `d` extended, in the order of `l`, by each id of `l` below `n` that it
/// does not hold yet.
pub open spec fn discover(d: Seq<u32>, l: Seq<u32>, n: nat) -> Seq<u32>
    decreases l.len(),
{
    if l.len() == 0 {
        d
    } else {
        let r = discover(d, l.drop_last(), n);
        let x = l.last();
        if (x as int) < n && !r.contains(x) {
            r.push(x)
        } else {
            r
        }
    }
}

/// A breadth-first walk: `d` lists the nodes discovered so far, of which
/// the first `h` have been expanded; expanding the next one discovers its
/// new neighbors. The result is the discovery order once every discovered
/// node is expanded.
pub open spec fn bfs_walk(base: Seq<Vec<u32>>, n: nat, d: Seq<u32>, h: nat) -> Seq<u32>
    decreases n - h,
{
    if h < d.len() && h < n {
        bfs_walk(base, n, discover(d, nbrs_of(base, d[h as int]), n), h + 1)
    } else {
        d
    }
}

/// The ids below `k` that `d` does not hold, in increasing order.
pub open spec fn ids_not_in(d: Seq<u32>, k: nat) -> Seq<u32>
    decreases k,
{
    if k == 0 {
        Seq::empty()
    } else {
        let r = ids_not_in(d, (k - 1) as nat);
        if d.contains((k - 1) as u32) {
            r
        } else {
            r.push((k - 1) as u32)
        }
    }
}

/// The visit order used to renumber nodes: the breadth-first discovery
/// order from `entry`, then every id below `n` the walk did not reach, in
/// increasing order.
pub open spec fn bfs_visit_order(base: Seq<Vec<u32>>, entry: u32, n: nat) -> Seq<u32> {
    let walk = bfs_walk(base, n, seq![entry], 0);
    walk + ids_not_in(walk, n)
}

/// Visit order used to renumber nodes: a breadth-first walk from `entry`
/// over `base` (a node without a list has no neighbors; ids `>= n` are
/// skipped), followed by every unreached id in increasing order.
pub fn bfs_order(base: &[Vec<u32>], entry: usize, n: usize) -> (order: Vec<u32>)
    requires
        entry < n,
        n <= u32::MAX + 1,
    ensures
        order@ == bfs_visit_order(base@, entry as u32, n as nat),
        is_permutation(order@, n as nat),
        order@[0] == entry as u32,
{
    let ghost walk = bfs_walk(base@, n as nat, seq![entry as u32], 0);
    let mut order: Vec<u32> = Vec::with_capacity(n);
    let mut visited: Vec<bool> = vec![false; n];
    let mut queue: VecDeque<u32> = VecDeque::with_capacity(n);
    queue.push_back(entry as u32);
    visited.set(entry, true);
    assert(visited@[entry as int]);
    assert forall|x: u32| (x as int) < n implies (#[trigger] visited@[x as int] <==> (order@
        + queue@).contains(x)) by {
        if x == entry as u32 {
            assert((order@ + queue@)[0] == x);
        } else {
            if (order@ + queue@).contains(x) {
                let k = choose|k: int| 0 <= k < (order@ + queue@).len() && (order@ + queue@)[k] == x;
                assert(k == 0);
            }
        }
    }

    while queue.len() > 0
        invariant
            n <= u32::MAX + 1,
            entry < n,
            visited@.len() == n,
            (order@ + queue@).no_duplicates(),
            forall|i: int| 0 <= i < (order@ + queue@).len() ==> ((#[trigger] (order@ + queue@)[i]) as int) < n,
            forall|x: u32| (x as int) < n ==> (#[trigger] visited@[x as int] <==> (order@
                + queue@).contains(x)),
            order@.len() == 0 ==> queue@ =~= seq![entry as u32],
            order@.len() > 0 ==> order@[0] == entry as u32,
            walk == bfs_walk(base@, n as nat, seq![entry as u32], 0),
            bfs_walk(base@, n as nat, order@ + queue@, order@.len() as nat) == walk,
        decreases n - order@.len(),
    {
        proof {
            lemma_distinct_ids_len(order@ + queue@, n as nat);
        }
        let ghost before = order@ + queue@;
        let ghost h = order@.len();
        let node = queue.pop_front().unwrap();
        order.push(node);
        assert(order@ + queue@ =~= before);
        assert(before[h as int] == node);
        let ghost start = order@ + queue@;
        assert(discover(start, nbrs_of(base@, node).take(0), n as nat) == start);
        if (node as usize) < base.len() {
            let nbrs = &base[node as usize];
            let len = nbrs.len();
            let mut j: usize = 0;
            while j < len
                invariant
                    n <= u32::MAX + 1,
                    visited@.len() == n,
                    len == nbrs@.len(),
                    j <= len,
                    order@.len() > 0,
                    order@[0] == entry as u32,
                    (order@ + queue@).no_duplicates(),
                    forall|i: int| 0 <= i < (order@ + queue@).len() ==> ((#[trigger] (order@ + queue@)[i]) as int) < n,
                    forall|x: u32| (x as int) < n ==> (#[trigger] visited@[x as int] <==> (order@
                        + queue@).contains(x)),
                    nbrs@ == nbrs_of(base@, node),
                    order@ + queue@ == discover(start, nbrs@.take(j as int), n as nat),
                decreases len - j,
            {
                let nb = nbrs[j];
                proof {
                    assert(nbrs@.take(j as int + 1).drop_last() =~= nbrs@.take(j as int));
                    assert(nbrs@.take(j as int + 1).last() == nb);
                }
                if (nb as usize) < n && !visited[nb as usize] {
                    let ghost prev = order@ + queue@;
                    let ghost prev_visited = visited@;
                    visited.set(nb as usize, true);
                    queue.push_back(nb);
                    assert(order@ + queue@ =~= prev.push(nb));
                    assert forall|x: u32| (x as int) < n implies (#[trigger] visited@[x as int] <==> (
                    order@ + queue@).contains(x)) by {
                        if x != nb {
                            assert(visited@[x as int] == prev_visited[x as int]);
                            if (order@ + queue@).contains(x) {
                                let k = choose|k: int|
                                    0 <= k < (order@ + queue@).len() && (order@ + queue@)[k] == x;
                                assert(prev[k] == x);
                            }
                            if prev.contains(x) {
                                let k = choose|k: int| 0 <= k < prev.len() && prev[k] == x;
                                assert((order@ + queue@)[k] == x);
                            }
                        } else {
                            assert((order@ + queue@)[prev.len() as int] == x);
                        }
                    }
                    assert((order@ + queue@).no_duplicates()) by {
                        assert(!prev.contains(nb));
                        assert forall|a: int, b: int|
                            0 <= a < b < (order@ + queue@).len() implies (order@ + queue@)[a] != (
                            order@ + queue@)[b] by {
                            if b == prev.len() {
                                if (order@ + queue@)[a] == nb {
                                    assert(prev[a] == nb);
                                }
                            }
                        }
                    }
                }
                j = j + 1;
            }
            assert(nbrs@.take(len as int) =~= nbrs@);
        }
        proof {
            assert(order@ + queue@ == discover(start, nbrs_of(base@, node), n as nat));
            assert(bfs_walk(base@, n as nat, before, h as nat) == bfs_walk(
                base@,
                n as nat,
                discover(before, nbrs_of(base@, before[h as int]), n as nat),
                (h + 1) as nat,
            ));
        }
    }

    // Append the ids the walk did not reach.
    assert(queue@ =~= Seq::<u32>::empty());
    assert(order@ + queue@ =~= order@);
    assert(order@ == walk);
    assert(ids_not_in(walk, 0) =~= Seq::<u32>::empty());
    assert(order@ =~= walk + ids_not_in(walk, 0));
    let mut i: usize = 0;
    while i < n
        invariant
            n <= u32::MAX + 1,
            i <= n,
            visited@.len() == n,
            forall|x: u32| (x as int) < n ==> (#[trigger] visited@[x as int] <==> walk.contains(x)),
            order@ == walk + ids_not_in(walk, i as nat),
            order@.len() > 0,
            order@[0] == entry as u32,
            order@.no_duplicates(),
            forall|k: int| 0 <= k < order@.len() ==> (#[trigger] order@[k] as int) < n,
            forall|x: u32| (x as int) < i ==> #[trigger] order@.contains(x),
            forall|x: u32| (x as int) < n && visited@[x as int] ==> #[trigger] order@.contains(x),
            forall|x: u32| #[trigger] order@.contains(x) && (x as int) >= i ==> visited@[x as int],
        decreases n - i,
    {
        if !visited[i] {
            let ghost prev = order@;
            order.push(i as u32);
            assert(order@[prev.len() as int] == i as u32);
            assert forall|x: u32| #[trigger] prev.contains(x) implies order@.contains(x) by {
                let k = choose|k: int| 0 <= k < prev.len() && prev[k] == x;
                assert(order@[k] == x);
            }
            assert forall|x: u32| (x as int) < i + 1 implies #[trigger] order@.contains(x) by {
                if (x as int) < i {
                    assert(prev.contains(x));
                }
            }
            assert forall|x: u32| (x as int) < n && visited@[x as int] implies #[trigger] order@.contains(x) by {
                assert(prev.contains(x));
            }
            assert forall|x: u32| #[trigger] order@.contains(x) && (x as int) >= i + 1 implies visited@[x as int] by {
                let k = choose|k: int| 0 <= k < order@.len() && order@[k] == x;
                assert(k < prev.len());
                assert(prev.contains(x));
            }
            assert(order@.no_duplicates()) by {
                assert(!prev.contains(i as u32));
                assert forall|a: int, b: int| 0 <= a < b < order@.len() implies order@[a] != order@[b] by {
                    if b == prev.len() && order@[a] == i as u32 {
                        assert(prev[a] == i as u32);
                    }
                }
            }
        } else {
            assert(order@.contains(i as u32));
        }
        i = i + 1;
    }
    proof {
        lemma_distinct_ids_len(order@, n as nat);
    }
    order
}

/// Inverse of a visit order: `res[order[k]] == k`, so `res[old]` is the new
/// position of node `old`.
pub fn invert_order(order: &[u32]) -> (res: Vec<u32>)
    requires
        is_permutation(order@, order@.len()),
        order@.len() <= u32::MAX + 1,
    ensures
        res@.len() == order@.len(),
        forall|k: int| 0 <= k < order@.len() ==> res@[#[trigger] order@[k] as int] == k,
        forall|x: int| 0 <= x < order@.len() ==> order@[#[trigger] res@[x] as int] == x,
        is_permutation(res@, order@.len()),
{
    let n = order.len();
    let mut res: Vec<u32> = vec![0u32; n];
    let mut k: usize = 0;
    while k < n
        invariant
            n == order@.len(),
            n <= u32::MAX + 1,
            is_permutation(order@, n as nat),
            res@.len() == n,
            k <= n,
            forall|j: int| 0 <= j < k ==> res@[#[trigger] order@[j] as int] == j,
        decreases n - k,
    {
        let old_idx = order[k];
        let ghost prev = res@;
        res.set(old_idx as usize, k as u32);
        assert forall|j: int| 0 <= j < k + 1 implies res@[#[trigger] order@[j] as int] == j by {
            if j < k {
                assert(order@[j] != order@[k as int]);
                assert(res@[order@[j] as int] == prev[order@[j] as int]);
            }
        }
        k = k + 1;
    }
    proof {
        // Every slot was written: each x < n occurs in the order.
        assert forall|x: u32| (x as int) < n implies #[trigger] order@.contains(x) by {
            lemma_permutation_covers(order@, n as nat, x);
        }
        assert forall|x: int| 0 <= x < n implies order@[#[trigger] res@[x] as int] == x by {
            assert(order@.contains(x as u32));
            let k = choose|k: int| 0 <= k < n && order@[k] == x as u32;
            assert(res@[order@[k] as int] == k);
        }
        assert forall|x: int| 0 <= x < res@.len() implies (#[trigger] res@[x] as int) < n by {
            assert(order@.contains(x as u32));
            let k = choose|k: int| 0 <= k < n && order@[k] == x as u32;
            assert(res@[order@[k] as int] == k);
        }
        assert(res@.no_duplicates()) by {
            assert forall|a: int, b: int| 0 <= a < b < res@.len() implies res@[a] != res@[b] by {
                assert(order@[res@[a] as int] == a);
                assert(order@[res@[b] as int] == b);
            }
        }
    }
    res
}

/// A permutation of `0..n` holds every id below `n`.
pub proof fn lemma_permutation_covers(s: Seq<u32>, n: nat, x: u32)
    requires
        is_permutation(s, n),
        n <= u32::MAX + 1,
        (x as int) < n,
    ensures
        s.contains(x),
{
    s.unique_seq_to_set();
    lemma_id_range_len(n);
    assert(s.to_set().subset_of(id_range(n)));
    if !s.to_set().contains(x) {
        assert(s.to_set().subset_of(id_range(n).remove(x)));
        vstd::set_lib::lemma_len_subset(s.to_set(), id_range(n).remove(x));
    }
}

/// A neighbor list renumbered through `old_to_new`; ids without a new
/// number are dropped.
pub open spec fn remap_list(l: Seq<u32>, old_to_new: Seq<u32>) -> Seq<u32>
    decreases l.len(),
{
    if l.len() == 0 {
        Seq::empty()
    } else {
        let r = remap_list(l.drop_last(), old_to_new);
        if (l.last() as int) < old_to_new.len() {
            r.push(old_to_new[l.last() as int])
        } else {
            r
        }
    }
}

/// The list that ends up at new position `j` after the first `k` old lists
/// were moved: the last old list sent to `j`, or an empty list.
pub open spec fn slot_after(
    lists: Seq<Vec<u32>>,
    old_to_new: Seq<u32>,
    new_size: nat,
    k: int,
    j: int,
) -> Seq<u32>
    decreases k,
{
    if k <= 0 {
        Seq::empty()
    } else if k - 1 < old_to_new.len() && (old_to_new[k - 1] as int) < new_size && old_to_new[k - 1]
        == j {
        remap_list(lists[k - 1]@, old_to_new)
    } else {
        slot_after(lists, old_to_new, new_size, k - 1, j)
    }
}

fn remap_one(l: &Vec<u32>, old_to_new: &[u32]) -> (res: Vec<u32>)
    ensures
        res@ == remap_list(l@, old_to_new@),
{
    let mut res: Vec<u32> = Vec::new();
    let mut i: usize = 0;
    while i < l.len()
        invariant
            i <= l@.len(),
            res@ == remap_list(l@.subrange(0, i as int), old_to_new@),
        decreases l@.len() - i,
    {
        let nb = l[i];
        proof {
            let t = l@.subrange(0, i as int + 1);
            assert(t.drop_last() =~= l@.subrange(0, i as int));
            assert(t.last() == nb);
        }
        if (nb as usize) < old_to_new.len() {
            res.push(old_to_new[nb as usize]);
        }
        i = i + 1;
    }
    assert(l@.subrange(0, l@.len() as int) =~= l@);
    res
}

/// Renumber the nodes of a layer: the list of old node `i` moves to
/// position `old_to_new[i]` (when that is below `new_size`) and each of its
/// neighbor ids `nb` becomes `old_to_new[nb]` (ids without a new number are
/// dropped). Positions that receive no list are empty.
pub fn remap_ids(neighbors: &mut Vec<Vec<u32>>, old_to_new: &[u32], new_size: usize)
    ensures
        final(neighbors)@.len() == new_size,
        forall|j: int|
            0 <= j < new_size ==> (#[trigger] final(neighbors)@[j])@ == slot_after(
                old(neighbors)@,
                old_to_new@,
                new_size as nat,
                old(neighbors)@.len() as int,
                j,
            ),
{
    let permuted = remapped(neighbors, old_to_new, new_size);
    *neighbors = permuted;
}

fn remapped(neighbors: &[Vec<u32>], old_to_new: &[u32], new_size: usize) -> (res: Vec<Vec<u32>>)
    ensures
        res@.len() == new_size,
        forall|j: int|
            0 <= j < new_size ==> (#[trigger] res@[j])@ == slot_after(
                neighbors@,
                old_to_new@,
                new_size as nat,
                neighbors@.len() as int,
                j,
            ),
{
    let mut permuted: Vec<Vec<u32>> = Vec::new();
    let mut p: usize = 0;
    while p < new_size
        invariant
            p <= new_size,
            permuted@.len() == p,
            forall|j: int| 0 <= j < p ==> (#[trigger] permuted@[j])@ == Seq::<u32>::empty(),
        decreases new_size - p,
    {
        permuted.push(Vec::new());
        p = p + 1;
    }
    let ghost lists = neighbors@;
    let mut old_idx: usize = 0;
    while old_idx < neighbors.len()
        invariant
            lists == neighbors@,
            old_idx <= lists.len(),
            permuted@.len() == new_size,
            forall|j: int|
                0 <= j < new_size ==> (#[trigger] permuted@[j])@ == slot_after(
                    lists,
                    old_to_new@,
                    new_size as nat,
                    old_idx as int,
                    j,
                ),
        decreases lists.len() - old_idx,
    {
        if old_idx < old_to_new.len() {
            let new_idx = old_to_new[old_idx] as usize;
            if new_idx < new_size {
                let remapped = remap_one(&neighbors[old_idx], old_to_new);
                let ghost prev = permuted@;
                permuted.set(new_idx, remapped);
                assert forall|j: int| 0 <= j < new_size implies (#[trigger] permuted@[j])@
                    == slot_after(lists, old_to_new@, new_size as nat, old_idx as int + 1, j) by {
                    if j != new_idx as int {
                        assert(permuted@[j] == prev[j]);
                    }
                }
            }
        }
        old_idx = old_idx + 1;
    }
    permuted
}

/// `values` rearranged so that position `k` holds `values[order[k]]`.
pub fn apply_order<T: Copy>(values: &[T], order: &[u32]) -> (res: Vec<T>)
    requires
        forall|k: int| 0 <= k < order@.len() ==> (#[trigger] order@[k] as int) < values@.len(),
    ensures
        res@.len() == order@.len(),
        forall|k: int| 0 <= k < order@.len() ==> #[trigger] res@[k] == values@[order@[k] as int],
{
    let mut res: Vec<T> = Vec::with_capacity(order.len());
    let mut k: usize = 0;
    while k < order.len()
        invariant
            k <= order@.len(),
            res@.len() == k,
            forall|k: int| 0 <= k < order@.len() ==> (#[trigger] order@[k] as int) < values@.len(),
            forall|i: int| 0 <= i < k ==> #[trigger] res@[i] == values@[order@[i] as int],
        decreases order@.len() - k,
    {
        res.push(values[order[k] as usize]);
        k = k + 1;
    }
    res
}

proof fn lemma_remap_list_contains(l: Seq<u32>, old_to_new: Seq<u32>, b: u32)
    requires
        old_to_new.no_duplicates(),
        (b as int) < old_to_new.len(),
        forall|i: int| 0 <= i < l.len() ==> (#[trigger] l[i] as int) < old_to_new.len(),
    ensures
        remap_list(l, old_to_new).contains(old_to_new[b as int]) <==> l.contains(b),
        remap_list(l, old_to_new).len() == l.len(),
    decreases l.len(),
{
    if l.len() > 0 {
        let q = l.drop_last();
        assert forall|i: int| 0 <= i < q.len() implies (#[trigger] q[i] as int) < old_to_new.len() by {
            assert(q[i] == l[i]);
        }
        lemma_remap_list_contains(q, old_to_new, b);
        let r = remap_list(q, old_to_new);
        let last = l.last();
        assert(l =~= q.push(last));
        assert(remap_list(l, old_to_new) == r.push(old_to_new[last as int]));
        if l.contains(b) {
            if q.contains(b) {
                let k = choose|k: int| 0 <= k < r.len() && r[k] == old_to_new[b as int];
                assert(r.push(old_to_new[last as int])[k] == old_to_new[b as int]);
            } else {
                let k = choose|k: int| 0 <= k < l.len() && l[k] == b;
                if k < q.len() {
                    assert(q[k] == b);
                }
                assert(last == b);
                assert(r.push(old_to_new[last as int])[r.len() as int] == old_to_new[b as int]);
            }
        } else {
            if remap_list(l, old_to_new).contains(old_to_new[b as int]) {
                let k = choose|k: int|
                    0 <= k < r.len() + 1 && r.push(old_to_new[last as int])[k] == old_to_new[b as int];
                if k == r.len() {
                    assert(old_to_new[last as int] == old_to_new[b as int]);
                    assert(last == b);
                    assert(l[l.len() - 1] == b);
                } else {
                    assert(r.contains(old_to_new[b as int]));
                    assert(q.contains(b));
                    let m = choose|m: int| 0 <= m < q.len() && q[m] == b;
                    assert(l[m] == b);
                }
            }
        }
    }
}

proof fn lemma_slot_after_permutation(
    lists: Seq<Vec<u32>>,
    old_to_new: Seq<u32>,
    k: int,
    a: int,
)
    requires
        is_permutation(old_to_new, lists.len()),
        0 <= a < k <= lists.len(),
    ensures
        slot_after(lists, old_to_new, lists.len(), k, old_to_new[a] as int) == remap_list(
            lists[a]@,
            old_to_new,
        ),
    decreases k,
{
    if k - 1 != a {
        assert(old_to_new[k - 1] != old_to_new[a]);
        lemma_slot_after_permutation(lists, old_to_new, k - 1, a);
    }
}

/// Renumbering a layer through a permutation keeps its shape: old node `a`
/// lists `b` exactly when new node `old_to_new[a]` lists `old_to_new[b]`,
/// and every list keeps its length.
pub proof fn lemma_remap_preserves_edges(
    lists: Seq<Vec<u32>>,
    old_to_new: Seq<u32>,
    a: int,
    b: u32,
)
    requires
        is_permutation(old_to_new, lists.len()),
        0 <= a < lists.len(),
        (b as int) < lists.len(),
        forall|i: int, j: int|
            0 <= i < lists.len() && 0 <= j < lists[i]@.len() ==> (#[trigger] lists[i]@[j] as int)
                < lists.len(),
    ensures
        slot_after(lists, old_to_new, lists.len(), lists.len() as int, old_to_new[a] as int).contains(
            old_to_new[b as int],
        ) <==> lists[a]@.contains(b),
        slot_after(lists, old_to_new, lists.len(), lists.len() as int, old_to_new[a] as int).len()
            == lists[a]@.len(),
{
    lemma_slot_after_permutation(lists, old_to_new, lists.len() as int, a);
    assert forall|i: int| 0 <= i < lists[a]@.len() implies (#[trigger] lists[a]@[i] as int)
        < old_to_new.len() by {
        assert((lists[a]@[i] as int) < lists.len());
    }
    lemma_remap_list_contains(lists[a]@, old_to_new, b);
}

/// Renumber the nodes of a built index in breadth-first order from its entry
/// point, so that nodes visited together sit together in memory.
///
/// With fewer than two nodes or no entry point nothing changes and `None` is
/// returned. Otherwise the visit order is returned (position `k` now holds
/// old node `order[k]`, so the caller can move its per-node data the same
/// way), `doc_ids` and `layer_assignments` are rearranged by it, every layer
/// is renumbered through its inverse, the reverse map is rebuilt and the
/// entry point recomputed.
pub fn reorder_for_locality(
    layers: &mut Vec<Vec<Vec<u32>>>,
    doc_ids: &mut Vec<u32>,
    layer_assignments: &mut Vec<u8>,
    doc_id_to_internal: &mut HashMap<u32, u32>,
    cached_entry_point: &mut Option<u32>,
    num_vectors: usize,
) -> (res: Option<Vec<u32>>)
    requires
        old(doc_ids)@.len() == num_vectors,
        old(layer_assignments)@.len() == num_vectors,
        num_vectors <= u32::MAX,
        *old(cached_entry_point) matches Some(ep) ==> (ep as int) < num_vectors,
    ensures
        res is None <==> (num_vectors <= 1 || *old(cached_entry_point) is None),
        res is None ==> {
            &&& final(layers)@ == old(layers)@
            &&& final(doc_ids)@ == old(doc_ids)@
            &&& final(layer_assignments)@ == old(layer_assignments)@
            &&& final(doc_id_to_internal)@ == old(doc_id_to_internal)@
            &&& *final(cached_entry_point) == *old(cached_entry_point)
        },
        res matches Some(order) ==> {
            &&& is_permutation(order@, num_vectors as nat)
            &&& *old(cached_entry_point) matches Some(ep) && order@[0] == ep
            &&& order@ == bfs_visit_order(
                if old(layers)@.len() > 0 {
                    old(layers)@[0]@
                } else {
                    Seq::empty()
                },
                old(cached_entry_point)->0,
                num_vectors as nat,
            )
            &&& final(doc_ids)@.len() == num_vectors
            &&& forall|k: int|
                0 <= k < num_vectors ==> #[trigger] final(doc_ids)@[k] == old(doc_ids)@[order@[k] as int]
            &&& final(layer_assignments)@.len() == num_vectors
            &&& forall|k: int|
                0 <= k < num_vectors ==> #[trigger] final(layer_assignments)@[k] == old(
                    layer_assignments,
                )@[order@[k] as int]
            &&& final(layers)@.len() == old(layers)@.len()
            &&& forall|l: int, j: int|
                0 <= l < old(layers)@.len() && 0 <= j < num_vectors ==> (
                #[trigger] final(layers)@[l]@[j])@ == slot_after(
                    old(layers)@[l]@,
                    inverse_of(order@),
                    num_vectors as nat,
                    old(layers)@[l]@.len() as int,
                    j,
                )
            &&& forall|l: int| 0 <= l < old(layers)@.len() ==> (#[trigger] final(layers)@[l])@.len() == num_vectors
            &&& final(doc_id_to_internal)@.dom() == final(doc_ids)@.to_set()
            &&& forall|d: u32| #[trigger] final(doc_id_to_internal)@.contains_key(d) ==> {
                &&& (final(doc_id_to_internal)@[d] as int) < num_vectors
                &&& final(doc_ids)@[final(doc_id_to_internal)@[d] as int] == d
                &&& forall|j: int|
                    final(doc_id_to_internal)@[d] < j < num_vectors ==> final(doc_ids)@[j] != d
            }
            &&& *final(cached_entry_point) matches Some(new_ep) && (new_ep as int) < num_vectors
                && (forall|j: int|
                0 <= j < num_vectors ==> #[trigger] final(layer_assignments)@[j]
                    <= final(layer_assignments)@[new_ep as int]) && forall|j: int|
                0 <= j < new_ep ==> #[trigger] final(layer_assignments)@[j]
                    < final(layer_assignments)@[new_ep as int]
        },
{
    if num_vectors <= 1 {
        return None;
    }
    let ep = match *cached_entry_point {
        Some(ep) => ep,
        None => return None,
    };
    let n = num_vectors;
    let empty: Vec<Vec<u32>> = Vec::new();
    let order = if layers.len() > 0 {
        bfs_order(&layers[0], ep as usize, n)
    } else {
        bfs_order(&empty, ep as usize, n)
    };
    let old_to_new = invert_order(&order);
    proof {
        assert forall|x: int| 0 <= x < old_to_new@.len() implies #[trigger] old_to_new@[x] == inverse_of(order@)[x] by {
            let w = old_to_new@[x];
            assert((w as int) < order@.len() && order@[w as int] == x as u32);
            let k = choose|k: u32| (k as int) < order@.len() && order@[k as int] == x as u32;
            assert(order@[k as int] == order@[w as int]);
        }
        assert(old_to_new@ =~= inverse_of(order@));
    }
    let new_doc_ids = apply_order(doc_ids, &order);
    *doc_ids = new_doc_ids;
    let new_assignments = apply_order(layer_assignments, &order);
    *layer_assignments = new_assignments;

    let ghost old_layers = layers@;
    let mut l: usize = 0;
    while l < layers.len()
        invariant
            layers@.len() == old_layers.len(),
            l <= layers@.len(),
            old_to_new@ == inverse_of(order@),
            forall|m: int, j: int|
                0 <= m < l && 0 <= j < n ==> (#[trigger] layers@[m]@[j])@ == slot_after(
                    old_layers[m]@,
                    inverse_of(order@),
                    n as nat,
                    old_layers[m]@.len() as int,
                    j,
                ),
            forall|m: int| 0 <= m < l ==> (#[trigger] layers@[m])@.len() == n,
            forall|m: int| l <= m < layers@.len() ==> #[trigger] layers@[m] == old_layers[m],
        decreases old_layers.len() - l,
    {
        let layer = remapped(&layers[l], &old_to_new, n);
        let ghost prev = layers@;
        layers.set(l, layer);
        assert forall|m: int| l < m < layers@.len() implies #[trigger] layers@[m] == old_layers[m] by {
            assert(layers@[m] == prev[m]);
        }
        l = l + 1;
    }

    let map = build_reverse_map(doc_ids);
    *doc_id_to_internal = map;
    let new_ep = compute_entry_point(layer_assignments, n);
    *cached_entry_point = new_ep;
    proof {
        if let Some(e) = new_ep {
            assert(layer_assignments@.len() > 0);
        }
    }
    Some(order)
}

/// The inverse of a visit order, as computed by [`invert_order`].
pub open spec fn inverse_of(order: Seq<u32>) -> Seq<u32> {
    Seq::new(order.len(), |x: int| choose|k: u32| (k as int) < order.len() && order[k as int] == x as u32)
}

/// The inverse of a permutation undoes it from both sides and is itself a
/// permutation: node `order[k]` gets new number `k`, and new number `x`
/// names old node `order[x]`.
pub proof fn lemma_inverse_of_permutation(order: Seq<u32>, n: nat)
    requires
        is_permutation(order, n),
        n <= u32::MAX + 1,
    ensures
        is_permutation(inverse_of(order), n),
        forall|k: int| 0 <= k < n ==> inverse_of(order)[#[trigger] order[k] as int] == k,
        forall|x: int| 0 <= x < n ==> order[#[trigger] inverse_of(order)[x] as int] == x,
{
    let inv = inverse_of(order);
    assert forall|x: int| 0 <= x < n implies (#[trigger] inv[x] as int) < n && order[inv[x] as int]
        == x by {
        lemma_permutation_covers(order, n, x as u32);
        let k = choose|k: int| 0 <= k < order.len() && order[k] == x as u32;
        assert((k as u32) as int == k);
        assert(order[(k as u32) as int] == x as u32);
    }
    assert forall|k: int| 0 <= k < n implies inv[#[trigger] order[k] as int] == k by {
        let x = order[k] as int;
        assert(order[inv[x] as int] == x);
        assert(order.no_duplicates());
    }
    assert(inv.no_duplicates()) by {
        assert forall|a: int, b: int| 0 <= a < b < inv.len() implies inv[a] != inv[b] by {
            assert(order[inv[a] as int] == a);
            assert(order[inv[b] as int] == b);
        }
    }
}

/// Reordering keeps the graph: after [`reorder_for_locality`] renumbers a
/// layer through the inverse of `order`, new node `k` lists new node `m`
/// exactly when old node `order[k]` listed old node `order[m]`, and its list
/// keeps the old length.
pub proof fn lemma_reorder_preserves_edges(lists: Seq<Vec<u32>>, order: Seq<u32>, k: int, m: int)
    requires
        is_permutation(order, lists.len()),
        lists.len() <= u32::MAX + 1,
        0 <= k < lists.len(),
        0 <= m < lists.len(),
        forall|i: int, j: int|
            0 <= i < lists.len() && 0 <= j < lists[i]@.len() ==> (#[trigger] lists[i]@[j] as int)
                < lists.len(),
    ensures
        slot_after(lists, inverse_of(order), lists.len(), lists.len() as int, k).contains(m as u32)
            <==> lists[order[k] as int]@.contains(order[m]),
        slot_after(lists, inverse_of(order), lists.len(), lists.len() as int, k).len()
            == lists[order[k] as int]@.len(),
{
    let n = lists.len();
    lemma_inverse_of_permutation(order, n);
    let inv = inverse_of(order);
    let a = order[k] as int;
    let b = order[m];
    assert(inv[a] as int == k);
    assert(inv[b as int] as int == m);
    lemma_remap_preserves_edges(lists, inv, a, b);
    assert(inv[b as int] == m as u32);
}

} // verus!
