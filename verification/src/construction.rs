//! Graph bookkeeping of index construction: which selected neighbors may be
//! linked, linking them in both directions, and tracking the entry point as
//! nodes are inserted.
use crate::repair::contains_id;
use vstd::prelude::*;

verus! {

/// No list names the node that owns it.
pub open spec fn no_self_links(lists: Seq<Seq<u32>>) -> bool {
    forall|j: int| 0 <= j < lists.len() ==> !(#[trigger] lists[j]).contains(j as u32)
}

/// `l` with `x` appended unless it already holds it.
pub open spec fn add_if_absent(l: Seq<u32>, x: u32) -> Seq<u32> {
    if l.contains(x) {
        l
    } else {
        l.push(x)
    }
}

/// The neighbor lists as sequences.
pub open spec fn list_views(lists: Seq<Vec<u32>>) -> Seq<Seq<u32>> {
    lists.map_values(|v: Vec<u32>| v@)
}

/// Link `cur` to `s`, then `s` back to `cur`, each unless already linked.
pub open spec fn link_once(lists: Seq<Seq<u32>>, cur: int, s: u32) -> Seq<Seq<u32>> {
    let l1 = lists.update(cur, add_if_absent(lists[cur], s));
    l1.update(s as int, add_if_absent(l1[s as int], cur as u32))
}

/// The lists after linking `cur` with each of `sel` in order.
pub open spec fn linked(lists: Seq<Seq<u32>>, cur: int, sel: Seq<u32>) -> Seq<Seq<u32>>
    decreases sel.len(),
{
    if sel.len() == 0 {
        lists
    } else {
        link_once(linked(lists, cur, sel.drop_last()), cur, sel.last())
    }
}

/// Linking node `cur` with each of `sel` links both ways and adds nothing
/// else: every list keeps its entries in place and gains only entries it
/// did not hold, each once; `cur` gains only ids of `sel` and every other
/// list gains only `cur`; afterwards `cur` lists every selected node and
/// every selected node lists `cur`.
pub proof fn lemma_linking_is_two_way(lists: Seq<Seq<u32>>, cur: int, sel: Seq<u32>)
    requires
        0 <= cur < lists.len(),
        cur <= u32::MAX,
        forall|k: int| 0 <= k < sel.len() ==> (#[trigger] sel[k] as int) < lists.len(),
    ensures
        linked(lists, cur, sel).len() == lists.len(),
        forall|i: int| 0 <= i < lists.len() ==> lists[i].is_prefix_of(#[trigger] linked(lists, cur, sel)[i]),
        forall|i: int, k: int|
            #![trigger linked(lists, cur, sel)[i][k]]
            0 <= i < lists.len() && lists[i].len() <= k < linked(lists, cur, sel)[i].len() ==> {
                &&& !linked(lists, cur, sel)[i].take(k).contains(linked(lists, cur, sel)[i][k])
                &&& (i == cur ==> sel.contains(linked(lists, cur, sel)[i][k]))
                &&& (i != cur ==> linked(lists, cur, sel)[i][k] == cur as u32)
            },
        forall|k: int|
            0 <= k < sel.len() ==> linked(lists, cur, sel)[cur].contains(#[trigger] sel[k])
                && linked(lists, cur, sel)[sel[k] as int].contains(cur as u32),
    decreases sel.len(),
{
    if sel.len() > 0 {
        let s0 = sel.drop_last();
        let x = sel.last();
        lemma_linking_is_two_way(lists, cur, s0);
        let w = linked(lists, cur, s0);
        let l1 = w.update(cur, add_if_absent(w[cur], x));
        let r = l1.update(x as int, add_if_absent(l1[x as int], cur as u32));
        assert(r == linked(lists, cur, sel));
        assert(sel[sel.len() - 1] == x);
        assert forall|i: int| 0 <= i < lists.len() implies lists[i].is_prefix_of(#[trigger] r[i]) by {
            assert(lists[i].is_prefix_of(w[i]));
        }
        assert forall|i: int, k: int|
            #![trigger r[i][k]]
            0 <= i < lists.len() && lists[i].len() <= k < r[i].len() implies {
                &&& !r[i].take(k).contains(r[i][k])
                &&& (i == cur ==> sel.contains(r[i][k]))
                &&& (i != cur ==> r[i][k] == cur as u32)
            } by {
            let l = r[i];
            let m = w[i];
            assert(lists[i].is_prefix_of(m));
            assert(m.is_prefix_of(l));
            if k < m.len() {
                assert(l.take(k) =~= m.take(k));
                assert(l[k] == m[k]);
                if i == cur {
                    assert(s0.contains(m[k]));
                    let j = choose|j: int| 0 <= j < s0.len() && s0[j] == m[k];
                    assert(sel[j] == m[k]);
                }
            } else {
                if k == m.len() && l.len() == m.len() + 2 {
                    assert(l.take(k) =~= m);
                } else if k == m.len() {
                    assert(l.take(k) =~= m);
                } else {
                    assert(l.take(k) =~= m.push(l[m.len() as int]));
                }
            }
        }
        assert forall|k: int| 0 <= k < sel.len() implies r[cur].contains(#[trigger] sel[k])
            && r[sel[k] as int].contains(cur as u32) by {
            assert(w[cur].is_prefix_of(r[cur]));
            assert(w[sel[k] as int].is_prefix_of(r[sel[k] as int]));
            if k < s0.len() {
                assert(s0[k] == sel[k]);
                let q = choose|q: int| 0 <= q < w[cur].len() && w[cur][q] == sel[k];
                assert(r[cur][q] == sel[k]);
                let q2 = choose|q2: int| 0 <= q2 < w[sel[k] as int].len() && w[sel[k] as int][q2] == cur as u32;
                assert(r[sel[k] as int][q2] == cur as u32);
            } else {
                if !w[cur].contains(x) {
                    assert(l1[cur][w[cur].len() as int] == x);
                }
                assert(l1[cur].contains(x));
                assert(l1[cur].is_prefix_of(r[cur]));
                let q = choose|q: int| 0 <= q < l1[cur].len() && l1[cur][q] == x;
                assert(r[cur][q] == x);
                if !l1[x as int].contains(cur as u32) {
                    assert(r[x as int][l1[x as int].len() as int] == cur as u32);
                }
                assert(r[x as int].contains(cur as u32));
            }
        }
    }
}

/// Link node `current` with each of `selected`: `current` lists each of them
/// and each of them lists `current`, with no entry added twice. Existing
/// entries stay in place; new ones are appended in the order of `selected`.
pub fn link_both_ways(lists: &mut Vec<Vec<u32>>, current: usize, selected: &[u32])
    requires
        current < old(lists)@.len(),
        current <= u32::MAX,
        forall|i: int| 0 <= i < selected@.len() ==> (#[trigger] selected@[i] as int) < old(lists)@.len(),
    ensures
        list_views(final(lists)@) == linked(list_views(old(lists)@), current as int, selected@),
{
    let ghost start = list_views(lists@);
    let mut i: usize = 0;
    while i < selected.len()
        invariant
            current < lists@.len(),
            current <= u32::MAX,
            forall|k: int| 0 <= k < selected@.len() ==> (#[trigger] selected@[k] as int) < lists@.len(),
            i <= selected@.len(),
            list_views(lists@) == linked(start, current as int, selected@.subrange(0, i as int)),
        decreases selected@.len() - i,
    {
        let s = selected[i];
        let ghost before = list_views(lists@);
        proof {
            assert(selected@.subrange(0, i as int + 1).drop_last() =~= selected@.subrange(0, i as int));
            assert(selected@.subrange(0, i as int + 1).last() == s);
        }
        if !contains_id(&lists[current], s) {
            let mut l = Vec::new();
            lists.set_and_swap(current, &mut l);
            l.push(s);
            lists.set_and_swap(current, &mut l);
        }
        let ghost middle = list_views(lists@);
        proof {
            assert(middle =~= before.update(current as int, add_if_absent(before[current as int], s)));
        }
        let back = current as u32;
        if !contains_id(&lists[s as usize], back) {
            let mut l = Vec::new();
            lists.set_and_swap(s as usize, &mut l);
            l.push(back);
            lists.set_and_swap(s as usize, &mut l);
        }
        proof {
            assert(list_views(lists@) =~= middle.update(s as int, add_if_absent(middle[s as int], back)));
        }
        i = i + 1;
    }
    proof {
        assert(selected@.subrange(0, selected@.len() as int) =~= selected@);
    }
}

/// Linking a node with its selected neighbors makes every such edge
/// bidirectional and changes nothing else: afterwards `cur` lists each
/// selected node and each selected node lists `cur`; no entry is removed;
/// every new entry is one of those edges; lists of other nodes are unchanged.
pub proof fn lemma_linked_both_ways(lists: Seq<Seq<u32>>, cur: int, sel: Seq<u32>)
    requires
        0 <= cur < lists.len(),
        cur <= u32::MAX,
        forall|i: int| 0 <= i < sel.len() ==> (#[trigger] sel[i] as int) < lists.len(),
    ensures
        linked(lists, cur, sel).len() == lists.len(),
        forall|i: int|
            0 <= i < sel.len() ==> linked(lists, cur, sel)[cur].contains(#[trigger] sel[i])
                && linked(lists, cur, sel)[sel[i] as int].contains(cur as u32),
        forall|j: int, x: u32|
            0 <= j < lists.len() && #[trigger] lists[j].contains(x) ==> linked(
                lists,
                cur,
                sel,
            )[j].contains(x),
        forall|j: int, x: u32|
            0 <= j < lists.len() && #[trigger] linked(lists, cur, sel)[j].contains(x)
                && !lists[j].contains(x) ==> (j == cur && sel.contains(x)) || (x == cur as u32
                && sel.contains(j as u32)),
        forall|j: int|
            0 <= j < lists.len() && j != cur && !sel.contains(j as u32) ==> #[trigger] linked(
                lists,
                cur,
                sel,
            )[j] == lists[j],
    decreases sel.len(),
{
    if sel.len() > 0 {
        let rest = sel.drop_last();
        let s = sel.last();
        assert forall|i: int| 0 <= i < rest.len() implies (#[trigger] rest[i] as int) < lists.len() by {
            assert(rest[i] == sel[i]);
        }
        lemma_linked_both_ways(lists, cur, rest);
        let prev = linked(lists, cur, rest);
        let l1 = prev.update(cur, add_if_absent(prev[cur], s));
        let out = l1.update(s as int, add_if_absent(l1[s as int], cur as u32));
        assert(linked(lists, cur, sel) == out);
        assert(l1[cur].contains(s)) by {
            if !prev[cur].contains(s) {
                assert(l1[cur][prev[cur].len() as int] == s);
            }
        }
        assert(out[cur].contains(s)) by {
            if s as int == cur {
                if !l1[cur].contains(cur as u32) {
                    assert(out[cur] == l1[cur].push(cur as u32));
                    let k = choose|k: int| 0 <= k < l1[cur].len() && l1[cur][k] == s;
                    assert(out[cur][k] == s);
                }
            } else {
                if !prev[cur].contains(s) {
                    assert(l1[cur][prev[cur].len() as int] == s);
                }
            }
        }
        assert(out[s as int].contains(cur as u32)) by {
            if !l1[s as int].contains(cur as u32) {
                assert(out[s as int][l1[s as int].len() as int] == cur as u32);
            }
        }
        // Appending keeps every entry.
        assert forall|j: int, x: u32| 0 <= j < prev.len() && prev[j].contains(x) implies #[trigger] out[j].contains(
            x,
        ) by {
            let k = choose|k: int| 0 <= k < prev[j].len() && prev[j][k] == x;
            if j == cur {
                assert(l1[j][k] == x);
            } else {
                assert(l1[j] == prev[j]);
            }
            if j == s as int {
                assert(out[j][k] == x);
            } else {
                assert(out[j] == l1[j]);
            }
        }
        assert forall|i: int|
            0 <= i < sel.len() implies out[cur].contains(#[trigger] sel[i]) && out[sel[i] as int].contains(
            cur as u32,
        ) by {
            if i < rest.len() {
                assert(rest[i] == sel[i]);
                assert(prev[cur].contains(sel[i]));
                assert(prev[sel[i] as int].contains(cur as u32));
            } else {
                assert(sel[i] == s);
            }
        }
        assert forall|j: int, x: u32| 0 <= j < lists.len() && #[trigger] lists[j].contains(x) implies out[j].contains(
            x,
        ) by {
            assert(prev[j].contains(x));
        }
        assert forall|j: int, x: u32|
            0 <= j < lists.len() && #[trigger] out[j].contains(x) && !lists[j].contains(x) implies (j
            == cur && sel.contains(x)) || (x == cur as u32 && sel.contains(j as u32)) by {
            assert(sel[sel.len() - 1] == s);
            if prev[j].contains(x) {
                if j == cur && rest.contains(x) {
                    let k = choose|k: int| 0 <= k < rest.len() && rest[k] == x;
                    assert(sel[k] == x);
                }
                if x == cur as u32 && rest.contains(j as u32) {
                    let k = choose|k: int| 0 <= k < rest.len() && rest[k] == j as u32;
                    assert(sel[k] == j as u32);
                }
            } else {
                // x is one of the two entries appended by this step.
                if j == s as int {
                    if l1[j].contains(x) {
                        assert(j == cur);
                        assert(x == s);
                    } else {
                        assert(x == cur as u32);
                    }
                    assert((j as u32) == s);
                } else {
                    assert(j == cur);
                    assert(x == s);
                }
            }
        }
        assert forall|j: int|
            0 <= j < lists.len() && j != cur && !sel.contains(j as u32) implies #[trigger] out[j]
            == lists[j] by {
            if rest.contains(j as u32) {
                let k = choose|k: int| 0 <= k < rest.len() && rest[k] == j as u32;
                assert(sel[k] == j as u32);
            }
            assert(sel[sel.len() - 1] == s);
            assert(j != s as int);
        }
    }
}

/// Node `id` may be linked at `layer` while node `current` is inserted: it
/// was inserted before and is assigned to `layer` or above.
pub open spec fn may_link(id: u32, current: int, assignments: Seq<u8>, layer: int) -> bool {
    (id as int) < current && assignments[id as int] >= layer
}

/// The ids of `sel` that may be linked, in order.
pub open spec fn insertable(sel: Seq<u32>, current: int, assignments: Seq<u8>, layer: int) -> Seq<u32>
    decreases sel.len(),
{
    if sel.len() == 0 {
        sel
    } else {
        let rest = insertable(sel.drop_last(), current, assignments, layer);
        if may_link(sel.last(), current, assignments, layer) {
            rest.push(sel.last())
        } else {
            rest
        }
    }
}

/// What the build may link to: the ids kept from `sel` are exactly those
/// below `current` whose layer assignment reaches `layer`, in their order
/// in `sel`, on every layer including the base layer.
pub proof fn lemma_insertable_keeps_existing(
    sel: Seq<u32>,
    current: int,
    assignments: Seq<u8>,
    layer: int,
)
    ensures
        insertable(sel, current, assignments, layer) == sel.filter(
            |x: u32| (x as int) < current && assignments[x as int] >= layer,
        ),
        forall|x: u32| #[trigger]
            insertable(sel, current, assignments, layer).contains(x) ==> (x as int) < current
                && assignments[x as int] >= layer && sel.contains(x),
        forall|x: u32|
            sel.contains(x) && (x as int) < current && assignments[x as int] >= layer ==> #[trigger]
            insertable(sel, current, assignments, layer).contains(x),
    decreases sel.len(),
{
    let pred = |x: u32| (x as int) < current && assignments[x as int] >= layer;
    reveal(Seq::filter);
    if sel.len() > 0 {
        lemma_insertable_keeps_existing(sel.drop_last(), current, assignments, layer);
        assert(insertable(sel, current, assignments, layer) == sel.filter(pred));
    }
    assert forall|x: u32| #[trigger]
        insertable(sel, current, assignments, layer).contains(x) implies (x as int) < current
            && assignments[x as int] >= layer && sel.contains(x) by {
        let f = sel.filter(pred);
        let k = choose|k: int| 0 <= k < f.len() && f[k] == x;
        sel.lemma_filter_pred(pred, k);
        sel.lemma_filter_contains_rev(pred, x);
    }
    assert forall|x: u32|
        sel.contains(x) && (x as int) < current && assignments[x as int] >= layer implies #[trigger]
        insertable(sel, current, assignments, layer).contains(x) by {
        let k = choose|k: int| 0 <= k < sel.len() && sel[k] == x;
        sel.lemma_filter_contains(pred, k);
    }
}

/// Keep the selected neighbors that exist at this point of the build: ids
/// below `current_id` whose layer assignment reaches `layer_idx`, in order.
pub fn retain_insertable(
    selected: &mut Vec<u32>,
    current_id: usize,
    layer_assignments: &[u8],
    layer_idx: usize,
)
    requires
        current_id <= layer_assignments@.len(),
    ensures
        final(selected)@ == insertable(
            old(selected)@,
            current_id as int,
            layer_assignments@,
            layer_idx as int,
        ),
{
    let ghost orig = selected@;
    let mut kept: Vec<u32> = Vec::new();
    let mut i: usize = 0;
    while i < selected.len()
        invariant
            orig == selected@,
            current_id <= layer_assignments@.len(),
            i <= orig.len(),
            kept@ == insertable(orig.subrange(0, i as int), current_id as int, layer_assignments@, layer_idx as int),
        decreases orig.len() - i,
    {
        let id = selected[i];
        proof {
            assert(orig.subrange(0, i as int + 1).drop_last() =~= orig.subrange(0, i as int));
            assert(orig.subrange(0, i as int + 1).last() == id);
        }
        if (id as usize) < current_id && (layer_assignments[id as usize] as usize) >= layer_idx {
            kept.push(id);
        }
        i = i + 1;
    }
    assert(orig.subrange(0, orig.len() as int) =~= orig);
    *selected = kept;
}

/// The entry point and its layer once node `k` is inserted, when insertion
/// starts at node 0: a node replaces the entry point when it reaches a
/// strictly higher layer.
pub open spec fn running_entry(s: Seq<u8>, k: int) -> (u32, u8)
    decreases k,
{
    if k <= 0 {
        (0, s[0])
    } else {
        let prev = running_entry(s, k - 1);
        if s[k] > prev.1 {
            (k as u32, s[k])
        } else {
            prev
        }
    }
}

/// Move the entry point to `current_id` when it reaches a strictly higher
/// layer than the current entry point.
pub fn advance_entry_point(
    entry_point: &mut u32,
    entry_layer: &mut u8,
    current_id: u32,
    current_layer: u8,
)
    ensures
        current_layer > *old(entry_layer) ==> *final(entry_point) == current_id
            && *final(entry_layer) == current_layer,
        current_layer <= *old(entry_layer) ==> *final(entry_point) == *old(entry_point)
            && *final(entry_layer) == *old(entry_layer),
{
    if current_layer > *entry_layer {
        *entry_point = current_id;
        *entry_layer = current_layer;
    }
}

/// The entry point tracked while building is the node that
/// `compute_entry_point` picks for the nodes inserted so far: the first one
/// on the highest layer.
pub proof fn lemma_running_entry_is_first_top(s: Seq<u8>, k: int)
    requires
        0 <= k < s.len(),
        s.len() <= u32::MAX + 1,
    ensures
        (running_entry(s, k).0 as int) <= k,
        running_entry(s, k).1 == s[running_entry(s, k).0 as int],
        forall|j: int| 0 <= j <= k ==> #[trigger] s[j] <= s[running_entry(s, k).0 as int],
        forall|j: int| 0 <= j < running_entry(s, k).0 ==> #[trigger] s[j] < s[running_entry(s, k).0 as int],
    decreases k,
{
    if k > 0 {
        lemma_running_entry_is_first_top(s, k - 1);
    }
}


/// Linking a node with selected neighbors other than itself creates no self
/// link: lists free of self links stay so. (Indexes are ids, so they fit in
/// `u32`.)
pub proof fn lemma_linking_adds_no_self_link(lists: Seq<Seq<u32>>, cur: int, sel: Seq<u32>)
    requires
        0 <= cur < lists.len(),
        lists.len() <= u32::MAX + 1,
        forall|i: int| 0 <= i < sel.len() ==> (#[trigger] sel[i] as int) < lists.len(),
        !sel.contains(cur as u32),
        no_self_links(lists),
    ensures
        no_self_links(linked(lists, cur, sel)),
{
    lemma_linked_both_ways(lists, cur, sel);
    let after = linked(lists, cur, sel);
    assert forall|j: int| 0 <= j < after.len() implies !(#[trigger] after[j]).contains(j as u32) by {
        if after[j].contains(j as u32) {
            assert(!lists[j].contains(j as u32));
        }
    }
}
} // verus!
