//! Relative-neighborhood selection of a node's links: candidates come in
//! distance order, each is kept when the caller judges it diverse with
//! respect to the links kept so far, and rejected candidates fill the
//! places left, in order.
use vstd::prelude::*;

verus! {

/// The links kept and the candidates rejected once positions `1..k` of
/// `sorted` have been examined (position 0 is always kept). `verdicts[j]`
/// is the diversity verdict on `sorted[j]`; once `m` links are kept the
/// remaining candidates are not examined.
pub open spec fn select_scan(sorted: Seq<u32>, m: int, verdicts: Seq<bool>, k: int) -> (
    Seq<u32>,
    Seq<u32>,
)
    decreases k,
{
    if k <= 1 {
        (seq![sorted[0]], Seq::empty())
    } else {
        let prev = select_scan(sorted, m, verdicts, k - 1);
        if prev.0.len() >= m {
            prev
        } else if verdicts[k - 1] {
            (prev.0.push(sorted[k - 1]), prev.1)
        } else {
            (prev.0, prev.1.push(sorted[k - 1]))
        }
    }
}

/// The selection for the given verdicts: the kept links, then as many
/// rejected candidates as fit below `m`. No candidates, no links.
pub open spec fn selection(sorted: Seq<u32>, m: int, verdicts: Seq<bool>) -> Seq<u32> {
    if sorted.len() == 0 {
        Seq::empty()
    } else {
        let (kept, rejected) = select_scan(sorted, m, verdicts, sorted.len() as int);
        if kept.len() < m {
            kept + rejected.take(
                if rejected.len() < m - kept.len() {
                    rejected.len() as int
                } else {
                    m - kept.len()
                },
            )
        } else {
            kept
        }
    }
}

/// Each verdict on an examined candidate is one that `diverse` gives for
/// that candidate and the links kept before it.
pub open spec fn verdicts_given<F: Fn(u32, &[u32]) -> bool>(
    diverse: F,
    sorted: Seq<u32>,
    m: int,
    verdicts: Seq<bool>,
) -> bool {
    &&& verdicts.len() == sorted.len()
    &&& forall|k: int|
        1 <= k < sorted.len() && (#[trigger] select_scan(sorted, m, verdicts, k)).0.len() < m
            ==> exists|a: &[u32]|
            #![trigger call_ensures(diverse, (sorted[k], a), verdicts[k])]
            a@ == select_scan(sorted, m, verdicts, k).0 && call_ensures(
                diverse,
                (sorted[k], a),
                verdicts[k],
            )
}

/// The scan only reads the verdicts before `k`.
proof fn lemma_scan_prefix(sorted: Seq<u32>, m: int, v: Seq<bool>, w: Seq<bool>, k: int)
    requires
        forall|j: int| 0 <= j < k ==> v[j] == w[j],
    ensures
        select_scan(sorted, m, v, k) == select_scan(sorted, m, w, k),
    decreases k,
{
    if k > 1 {
        lemma_scan_prefix(sorted, m, v, w, k - 1);
    }
}

/// Once `m` links are kept the scan stops changing.
proof fn lemma_scan_stops(sorted: Seq<u32>, m: int, v: Seq<bool>, k: int, k2: int)
    requires
        1 <= k <= k2,
        select_scan(sorted, m, v, k).0.len() >= m,
    ensures
        select_scan(sorted, m, v, k2) == select_scan(sorted, m, v, k),
    decreases k2 - k,
{
    if k2 > k {
        lemma_scan_stops(sorted, m, v, k, k2 - 1);
    }
}

/// What the scan holds after examining positions `1..k`.
proof fn lemma_scan_shape(sorted: Seq<u32>, m: int, v: Seq<bool>, k: int)
    requires
        1 <= k <= sorted.len(),
    ensures
        ({
            let (s, r) = select_scan(sorted, m, v, k);
            &&& 1 <= s.len()
            &&& s.len() <= if m < 1 { 1 } else { m }
            &&& s.len() + r.len() <= k
            &&& s.len() < m ==> s.len() + r.len() == k
            &&& forall|x: u32| #[trigger] (s + r).contains(x) ==> exists|j: int| 0 <= j < k && sorted[j] == x
            &&& sorted.no_duplicates() ==> (s + r).no_duplicates()
        }),
    decreases k,
{
    if k > 1 {
        lemma_scan_shape(sorted, m, v, k - 1);
        let (s0, r0) = select_scan(sorted, m, v, k - 1);
        let (s, r) = select_scan(sorted, m, v, k);
        let y = sorted[k - 1];
        if s0.len() < m {
            assert forall|x: u32| #[trigger] (s + r).contains(x) implies exists|j: int|
                0 <= j < k && sorted[j] == x by {
                let p = choose|p: int| 0 <= p < (s + r).len() && (s + r)[p] == x;
                if x != y {
                    if v[k - 1] {
                        if p < s0.len() {
                            assert((s0 + r0)[p] == x);
                        } else {
                            assert((s0 + r0)[p - 1] == x);
                        }
                    } else {
                        if p < s0.len() + r0.len() {
                            assert((s0 + r0)[p] == x);
                        }
                    }
                    assert((s0 + r0).contains(x));
                } else {
                    assert(sorted[k - 1] == x);
                }
            }
            if sorted.no_duplicates() {
                assert(!(s0 + r0).contains(y)) by {
                    if (s0 + r0).contains(y) {
                        let j = choose|j: int| 0 <= j < k - 1 && sorted[j] == y;
                        assert(sorted[j] == sorted[k - 1]);
                    }
                }
                let t = s + r;
                let t0 = s0 + r0;
                assert forall|a: int, b: int| 0 <= a < b < t.len() implies t[a] != t[b] by {
                    if v[k - 1] {
                        let fa = if a < s0.len() { a } else if a == s0.len() { -1 } else { a - 1 };
                        let fb = if b < s0.len() { b } else if b == s0.len() { -1 } else { b - 1 };
                        if fa >= 0 && fb >= 0 {
                            assert(t[a] == t0[fa] && t[b] == t0[fb]);
                        } else if fa < 0 {
                            assert(t[a] == y);
                            assert(t[b] == t0[fb]);
                        } else {
                            assert(t[b] == y);
                            assert(t[a] == t0[fa]);
                        }
                    } else {
                        if b < t0.len() {
                            assert(t[a] == t0[a] && t[b] == t0[b]);
                        } else {
                            assert(t[b] == y);
                            assert(t[a] == t0[a]);
                        }
                    }
                }
            }
        }
    }
}

/// The shape of every selection: with candidates, it holds `min(m, n)`
/// links (one when `m` is zero), each a candidate, and no link twice when
/// no candidate comes twice.
pub proof fn lemma_selection_shape(sorted: Seq<u32>, m: int, v: Seq<bool>)
    requires
        m >= 0,
    ensures
        selection(sorted, m, v).len() == if sorted.len() == 0 {
            0
        } else if m == 0 {
            1
        } else if sorted.len() < m {
            sorted.len() as int
        } else {
            m
        },
        forall|x: u32| #[trigger] selection(sorted, m, v).contains(x) ==> sorted.contains(x),
        sorted.no_duplicates() ==> selection(sorted, m, v).no_duplicates(),
{
    let n = sorted.len() as int;
    if n > 0 {
        lemma_scan_shape(sorted, m, v, n);
        let (s, r) = select_scan(sorted, m, v, n);
        let res = selection(sorted, m, v);
        let q = if s.len() < m {
            if r.len() < m - s.len() {
                r.len() as int
            } else {
                m - s.len()
            }
        } else {
            0
        };
        assert(res =~= (s + r).take(s.len() + q));
        assert forall|x: u32| #[trigger] res.contains(x) implies sorted.contains(x) by {
            let p = choose|p: int| 0 <= p < res.len() && res[p] == x;
            assert((s + r)[p] == x);
            assert((s + r).contains(x));
            let j = choose|j: int| 0 <= j < n && sorted[j] == x;
            assert(sorted[j] == x);
        }
        if sorted.no_duplicates() {
            assert forall|a: int, b: int| 0 <= a < b < res.len() implies res[a] != res[b] by {
                assert(res[a] == (s + r)[a] && res[b] == (s + r)[b]);
            }
        }
    }
}

/// `s` lists entries of `sorted` in the order they occur there.
pub open spec fn in_candidate_order(s: Seq<u32>, sorted: Seq<u32>) -> bool {
    forall|p: int, q: int, j: int|
        #![trigger s[p], s[q], sorted[j]]
        0 <= p < q < s.len() && 0 <= j < sorted.len() && sorted[j] == s[q] ==> sorted.take(j).contains(s[p])
}

proof fn lemma_scan_order(sorted: Seq<u32>, m: int, v: Seq<bool>, k: int)
    requires
        1 <= k <= sorted.len(),
        sorted.no_duplicates(),
    ensures
        in_candidate_order(select_scan(sorted, m, v, k).0, sorted),
        in_candidate_order(select_scan(sorted, m, v, k).1, sorted),
        select_scan(sorted, m, v, k).0[0] == sorted[0],
        forall|p: int, j: int|
            #![trigger select_scan(sorted, m, v, k).0[p], sorted[j]]
            0 <= p < select_scan(sorted, m, v, k).0.len() && 0 <= j < sorted.len() && sorted[j]
                == select_scan(sorted, m, v, k).0[p] ==> j == 0 || v[j],
        forall|p: int, j: int|
            #![trigger select_scan(sorted, m, v, k).1[p], sorted[j]]
            0 <= p < select_scan(sorted, m, v, k).1.len() && 0 <= j < sorted.len() && sorted[j]
                == select_scan(sorted, m, v, k).1[p] ==> j > 0 && !v[j],
    decreases k,
{
    if k == 1 {
        assert forall|p: int, j: int|
            #![trigger select_scan(sorted, m, v, k).0[p], sorted[j]]
            0 <= p < select_scan(sorted, m, v, k).0.len() && 0 <= j < sorted.len() && sorted[j]
                == select_scan(sorted, m, v, k).0[p] implies j == 0 || v[j] by {
            assert(sorted[j] == sorted[0]);
        }
    }
    if k > 1 {
        lemma_scan_order(sorted, m, v, k - 1);
        lemma_scan_shape(sorted, m, v, k - 1);
        let (s0, r0) = select_scan(sorted, m, v, k - 1);
        let (s, r) = select_scan(sorted, m, v, k);
        let y = sorted[k - 1];
        assert forall|p: int, j: int|
            #![trigger s[p], sorted[j]]
            0 <= p < s.len() && 0 <= j < sorted.len() && sorted[j] == s[p] implies j == 0 || v[j] by {
            if p < s0.len() {
                assert(s[p] == s0[p]);
            } else {
                assert(s[p] == y && v[k - 1]);
                assert(sorted[j] == sorted[k - 1]);
            }
        }
        assert forall|p: int, j: int|
            #![trigger r[p], sorted[j]]
            0 <= p < r.len() && 0 <= j < sorted.len() && sorted[j] == r[p] implies j > 0 && !v[j] by {
            if p < r0.len() {
                assert(r[p] == r0[p]);
            } else {
                assert(r[p] == y && !v[k - 1]);
                assert(sorted[j] == sorted[k - 1]);
            }
        }
        if s0.len() < m {
            // Appending `y` at the end of either list keeps the order: every
            // earlier entry occurs before position `k - 1`, and `y` occurs
            // only there.
            assert forall|a: Seq<u32>, p: int, j: int|
                #![trigger a.push(y)[p], sorted[j]]
                (a == s0 || a == r0) && 0 <= p < a.len() && 0 <= j < sorted.len() && sorted[j] == y
                    implies sorted.take(j).contains(a.push(y)[p]) by {
                assert(j == k - 1);
                assert((s0 + r0).contains(a[p])) by {
                    if a == s0 {
                        assert((s0 + r0)[p] == a[p]);
                    } else {
                        assert((s0 + r0)[s0.len() + p] == a[p]);
                    }
                }
                let i = choose|i: int| 0 <= i < k && sorted[i] == a[p];
                if i == k - 1 {
                    assert((s0 + r0).contains(y));
                    let i2 = choose|i2: int| 0 <= i2 < k - 1 && sorted[i2] == y;
                    assert(false);
                }
                assert(sorted.take(j)[i] == a[p]);
            }
            if v[k - 1] {
                assert forall|p: int, q: int, j: int|
                    #![trigger s[p], s[q], sorted[j]]
                    0 <= p < q < s.len() && 0 <= j < sorted.len() && sorted[j] == s[q] implies sorted.take(j).contains(s[p]) by {
                    if q < s0.len() {
                        assert(s[p] == s0[p] && s[q] == s0[q]);
                    } else {
                        assert(s0.push(y)[p] == s[p]);
                    }
                }
                assert(s[0] == s0[0]);
            } else {
                assert forall|p: int, q: int, j: int|
                    #![trigger r[p], r[q], sorted[j]]
                    0 <= p < q < r.len() && 0 <= j < sorted.len() && sorted[j] == r[q] implies sorted.take(j).contains(r[p]) by {
                    if q < r0.len() {
                        assert(r[p] == r0[p] && r[q] == r0[q]);
                    } else {
                        assert(r0.push(y)[p] == r[p]);
                    }
                }
            }
        }
    }
}

/// The order of a selection: with distinct candidates it starts with the
/// closest candidate, then lists the links the diversity test kept, in
/// candidate order, then the set-aside candidates that fill the remaining
/// places, again in candidate order.
pub proof fn lemma_selection_order(sorted: Seq<u32>, m: int, v: Seq<bool>)
    requires
        sorted.no_duplicates(),
        sorted.len() > 0,
    ensures
        selection(sorted, m, v)[0] == sorted[0],
        exists|split: int|
            1 <= split <= selection(sorted, m, v).len() && in_candidate_order(
                #[trigger] selection(sorted, m, v).take(split),
                sorted,
            ) && in_candidate_order(selection(sorted, m, v).skip(split), sorted) && (forall|p: int, j: int|
                #![trigger selection(sorted, m, v)[p], sorted[j]]
                0 <= p < selection(sorted, m, v).len() && 0 <= j < sorted.len() && sorted[j]
                    == selection(sorted, m, v)[p] ==> if p < split {
                    j == 0 || v[j]
                } else {
                    j > 0 && !v[j]
                }),
{
    let n = sorted.len() as int;
    lemma_scan_order(sorted, m, v, n);
    lemma_scan_shape(sorted, m, v, n);
    let (kept, rej) = select_scan(sorted, m, v, n);
    let res = selection(sorted, m, v);
    let split = kept.len() as int;
    let tail = res.skip(split);
    assert(res.take(split) =~= kept);
    assert forall|p: int, q: int, j: int|
        #![trigger tail[p], tail[q], sorted[j]]
        0 <= p < q < tail.len() && 0 <= j < sorted.len() && sorted[j] == tail[q] implies sorted.take(j).contains(tail[p]) by {
        assert(tail[p] == rej[p] && tail[q] == rej[q]);
    }
    assert(in_candidate_order(res.skip(split), sorted));
    assert(res[0] == kept[0]);
    assert forall|p: int, j: int|
        #![trigger res[p], sorted[j]]
        0 <= p < res.len() && 0 <= j < sorted.len() && sorted[j] == res[p] implies if p < split {
            j == 0 || v[j]
        } else {
            j > 0 && !v[j]
        } by {
        if p < split {
            assert(res[p] == kept[p]);
        } else {
            assert(res[p] == rej[p - split]);
        }
    }
}

/// Select up to `m` links among `sorted` (candidates in distance order,
/// closest first): the first candidate is always kept; each later one,
/// until `m` are kept, is kept when `diverse(candidate, kept)` holds and
/// set aside otherwise; the set-aside candidates then fill the places
/// left, in order.
pub fn select_diverse<F: Fn(u32, &[u32]) -> bool>(sorted: &[u32], m: usize, diverse: F) -> (res: Vec<u32>)
    requires
        forall|c: u32, a: &[u32]| #[trigger] diverse.requires((c, a)),
    ensures
        exists|v: Seq<bool>|
            #[trigger] verdicts_given(diverse, sorted@, m as int, v) && res@ == selection(
                sorted@,
                m as int,
                v,
            ),
        res@.len() == if sorted@.len() == 0 {
            0
        } else if m == 0 {
            1
        } else if sorted@.len() < m {
            sorted@.len() as int
        } else {
            m as int
        },
        forall|x: u32| #[trigger] res@.contains(x) ==> sorted@.contains(x),
        sorted@.no_duplicates() ==> res@.no_duplicates(),
{
    let n = sorted.len();
    if n == 0 {
        let res: Vec<u32> = Vec::new();
        proof {
            let v = Seq::<bool>::empty();
            assert(verdicts_given(diverse, sorted@, m as int, v));
            assert(res@ =~= selection(sorted@, m as int, v));
            lemma_selection_shape(sorted@, m as int, v);
        }
        return res;
    }
    let ghost s = sorted@;
    let ghost mi = m as int;
    let mut kept: Vec<u32> = Vec::new();
    kept.push(sorted[0]);
    let mut rejected: Vec<u32> = Vec::new();
    let ghost mut v: Seq<bool> = seq![false];
    let mut i: usize = 1;
    proof {
        assert(kept@ =~= seq![s[0]]);
    }
    while i < n && kept.len() < m
        invariant
            s == sorted@,
            mi == m as int,
            n == s.len(),
            1 <= i <= n,
            v.len() == i,
            (kept@, rejected@) == select_scan(s, mi, v, i as int),
            forall|k: int|
                1 <= k < i && (#[trigger] select_scan(s, mi, v, k)).0.len() < mi ==> exists|a: &[u32]|
                    #![trigger call_ensures(diverse, (s[k], a), v[k])]
                    a@ == select_scan(s, mi, v, k).0 && call_ensures(diverse, (s[k], a), v[k]),
            forall|c: u32, a: &[u32]| #[trigger] diverse.requires((c, a)),
        decreases n - i,
    {
        let a = kept.as_slice();
        let verdict = diverse(sorted[i], a);
        let ghost v0 = v;
        proof {
            v = v.push(verdict);
            lemma_scan_prefix(s, mi, v0, v, i as int);
            assert forall|k: int| 1 <= k <= i implies #[trigger] select_scan(s, mi, v, k) == select_scan(
                s,
                mi,
                v0,
                k,
            ) by {
                lemma_scan_prefix(s, mi, v0, v, k);
            }
            assert(v[i as int] == verdict);
            assert(a@ == select_scan(s, mi, v, i as int).0);
            assert(call_ensures(diverse, (s[i as int], a), v[i as int]));
        }
        if verdict {
            kept.push(sorted[i]);
        } else {
            rejected.push(sorted[i]);
        }
        proof {
            assert((kept@, rejected@) == select_scan(s, mi, v, i as int + 1));
            assert forall|k: int|
                1 <= k < i + 1 && (#[trigger] select_scan(s, mi, v, k)).0.len() < mi implies exists|a: &[u32]|
                #![trigger call_ensures(diverse, (s[k], a), v[k])]
                a@ == select_scan(s, mi, v, k).0 && call_ensures(diverse, (s[k], a), v[k]) by {
                if k < i {
                    assert(select_scan(s, mi, v, k) == select_scan(s, mi, v0, k));
                    assert(v[k] == v0[k]);
                }
            }
        }
        i = i + 1;
    }
    // Verdicts on candidates that were never examined are not read.
    let ghost vi = v;
    let ghost full = v + Seq::new((n - i) as nat, |j: int| false);
    proof {
        lemma_scan_prefix(s, mi, vi, full, i as int);
        if i < n {
            lemma_scan_stops(s, mi, full, i as int, n as int);
        }
        assert forall|k: int| 1 <= k <= i implies #[trigger] select_scan(s, mi, full, k) == select_scan(
            s,
            mi,
            vi,
            k,
        ) by {
            lemma_scan_prefix(s, mi, vi, full, k);
        }
        assert forall|k: int|
            1 <= k < n && (#[trigger] select_scan(s, mi, full, k)).0.len() < mi implies exists|a: &[u32]|
            #![trigger call_ensures(diverse, (s[k], a), full[k])]
            a@ == select_scan(s, mi, full, k).0 && call_ensures(diverse, (s[k], a), full[k]) by {
            if k >= i {
                lemma_scan_stops(s, mi, full, i as int, k);
            }
            assert(select_scan(s, mi, full, k) == select_scan(s, mi, vi, k));
            assert(full[k] == vi[k]);
        }
        assert(verdicts_given(diverse, s, mi, full));
        assert((kept@, rejected@) == select_scan(s, mi, full, n as int));
    }
    let ghost kept0 = kept@;
    let mut j: usize = 0;
    while kept.len() < m && j < rejected.len()
        invariant
            j <= rejected@.len(),
            kept@ == kept0 + rejected@.take(j as int),
            kept0.len() < m ==> kept0.len() + j <= m,
            kept0.len() >= m ==> j == 0,
        decreases rejected@.len() - j,
    {
        kept.push(rejected[j]);
        j = j + 1;
        proof {
            assert(rejected@.take(j as int) =~= rejected@.take(j as int - 1).push(rejected@[j as int - 1]));
        }
    }
    proof {
        assert(kept@ =~= selection(s, mi, full));
        lemma_selection_shape(s, mi, full);
    }
    kept
}

} // verus!
