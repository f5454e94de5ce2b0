//! Kahn's topological sort over a graph whose nodes are `0..n` and whose
//! edges are given as two parallel index vectors.

use vstd::prelude::*;

verus! {

/// Number of edges among the first `k` whose target is `v` and which are
/// still `alive` (their source has not been emitted yet).
pub open spec fn live_count(dst: Seq<usize>, alive: Seq<bool>, v: usize, k: int) -> nat
    decreases k,
{
    if k <= 0 {
        0
    } else {
        live_count(dst, alive, v, k - 1) + if dst[k - 1] == v && alive[k - 1] {
            1nat
        } else {
            0nat
        }
    }
}

proof fn lemma_live_count_bound(dst: Seq<usize>, alive: Seq<bool>, v: usize, k: int)
    requires
        k >= 0,
    ensures
        live_count(dst, alive, v, k) <= k,
    decreases k,
{
    if k > 0 {
        lemma_live_count_bound(dst, alive, v, k - 1);
    }
}

proof fn lemma_live_count_kill(dst: Seq<usize>, alive: Seq<bool>, j0: int, v: usize, k: int)
    requires
        0 <= j0 < alive.len(),
        alive[j0],
        k <= alive.len(),
    ensures
        live_count(dst, alive.update(j0, false), v, k) + (if 0 <= j0 < k && dst[j0] == v {
            1nat
        } else {
            0nat
        }) == live_count(dst, alive, v, k),
    decreases k,
{
    if k > 0 {
        lemma_live_count_kill(dst, alive, j0, v, k - 1);
    }
}

proof fn lemma_live_count_zero(dst: Seq<usize>, alive: Seq<bool>, v: usize, k: int)
    requires
        live_count(dst, alive, v, k) == 0,
    ensures
        forall|j: int| 0 <= j < k && dst[j] == v ==> !alive[j],
    decreases k,
{
    if k > 0 {
        lemma_live_count_zero(dst, alive, v, k - 1);
    }
}

proof fn lemma_live_count_witness(dst: Seq<usize>, alive: Seq<bool>, v: usize, k: int)
    requires
        live_count(dst, alive, v, k) > 0,
    ensures
        exists|j: int| 0 <= j < k && dst[j] == v && alive[j],
    decreases k,
{
    if k > 0 {
        if dst[k - 1] == v && alive[k - 1] {
            assert(0 <= k - 1 < k && dst[k - 1] == v && alive[k - 1]);
        } else {
            lemma_live_count_witness(dst, alive, v, k - 1);
        }
    }
}

proof fn lemma_live_count_positive(dst: Seq<usize>, alive: Seq<bool>, j0: int, k: int)
    requires
        0 <= j0 < k,
        alive[j0],
    ensures
        live_count(dst, alive, dst[j0], k) >= 1,
    decreases k,
{
    if j0 < k - 1 {
        lemma_live_count_positive(dst, alive, j0, k - 1);
    }
}

/// A duplicate-free sequence of numbers below `n` has at most `n` elements.
pub proof fn lemma_distinct_below(s: Seq<usize>, n: int)
    requires
        0 <= n <= usize::MAX,
        s.no_duplicates(),
        forall|i: int| 0 <= i < s.len() ==> s[i] < n,
    ensures
        s.len() <= n,
    decreases n,
{
    if n <= 0 {
        if s.len() > 0 {
            assert(s[0] < n);
        }
    } else if s.contains((n - 1) as usize) {
        let i = choose|i: int| 0 <= i < s.len() && s[i] == (n - 1) as usize;
        let t = s.remove(i);
        assert forall|a: int| 0 <= a < t.len() implies t[a] < n - 1 by {
            if a < i {
                assert(t[a] == s[a]);
                assert(s[a] != s[i]);
            } else {
                assert(t[a] == s[a + 1]);
                assert(s[a + 1] != s[i]);
            }
        }
        assert forall|a: int, b: int| 0 <= a < t.len() && 0 <= b < t.len() && a != b implies t[a]
            != t[b] by {
            let sa = if a < i { a } else { a + 1 };
            let sb = if b < i { b } else { b + 1 };
            assert(t[a] == s[sa] && t[b] == s[sb]);
        }
        lemma_distinct_below(t, n - 1);
    } else {
        assert forall|a: int| 0 <= a < s.len() implies s[a] < n - 1 by {
            if s[a] == n - 1 {
                assert(s.contains((n - 1) as usize));
            }
        }
        lemma_distinct_below(s, n - 1);
    }
}

/// Orders the nodes `0..n` so that every edge `src[j] -> dst[j]` whose target
/// is emitted has its source emitted earlier.  Nodes that wait, directly or
/// not, on a cycle are left out: each of them has an incoming edge from
/// another node that was left out.
pub fn kahn_order(n: usize, src: &Vec<usize>, dst: &Vec<usize>) -> (order: Vec<usize>)
    requires
        src.len() == dst.len(),
        forall|j: int| 0 <= j < src.len() ==> src[j] < n && dst[j] < n,
    ensures
        order@.no_duplicates(),
        forall|p: int| 0 <= p < order.len() ==> order[p] < n,
        forall|j: int, p: int|
            0 <= j < dst.len() && 0 <= p < order.len() && #[trigger] order[p] == #[trigger] dst[j]
                ==> order@.take(p).contains(src[j]),
        forall|v: usize|
            v < n && !(#[trigger] order@.contains(v)) ==> exists|j: int|
                0 <= j < dst.len() && dst[j] == v && !order@.contains(#[trigger] src[j]),
{
    let m = src.len();
    let ghost all_alive = Seq::new(m as nat, |j: int| true);
    let mut indeg: Vec<usize> = Vec::new();
    let mut v: usize = 0;
    while v < n
        invariant
            v <= n,
            indeg.len() == v,
            forall|w: int| 0 <= w < v ==> indeg[w] == 0,
        decreases n - v,
    {
        indeg.push(0);
        v = v + 1;
    }
    let mut j: usize = 0;
    while j < m
        invariant
            m == src.len(),
            m == dst.len(),
            forall|i: int| 0 <= i < m ==> src[i] < n && dst[i] < n,
            all_alive.len() == m,
            forall|i: int| 0 <= i < m ==> all_alive[i],
            j <= m,
            indeg.len() == n,
            forall|w: int|
                0 <= w < n ==> indeg[w] == live_count(dst@, all_alive, w as usize, j as int),
        decreases m - j,
    {
        let d = dst[j];
        proof {
            lemma_live_count_bound(dst@, all_alive, d, j as int);
        }
        let c = indeg[d];
        indeg.set(d, c + 1);
        j = j + 1;
    }
    let mut order: Vec<usize> = Vec::new();
    let mut v: usize = 0;
    while v < n
        invariant
            m == src.len(),
            m == dst.len(),
            forall|i: int| 0 <= i < m ==> src[i] < n && dst[i] < n,
            all_alive.len() == m,
            forall|i: int| 0 <= i < m ==> all_alive[i],
            v <= n,
            indeg.len() == n,
            forall|w: int| 0 <= w < n ==> indeg[w] == live_count(dst@, all_alive, w as usize, m as int),
            order@.no_duplicates(),
            forall|p: int| 0 <= p < order.len() ==> order[p] < v,
            forall|w: usize| w < v ==> (order@.contains(w) <==> indeg[w as int] == 0),
            forall|w: usize| v <= w < n ==> !order@.contains(w),
            forall|p: int| 0 <= p < order.len() ==> indeg[order[p] as int] == 0,
        decreases n - v,
    {
        if indeg[v] == 0 {
            let ghost old_order = order@;
            proof {
                assert(!order@.contains(v));
            }
            order.push(v);
            proof {
                assert(order@.drop_last() == old_order);
                assert forall|w: usize| w < v + 1 implies (order@.contains(w) <==> indeg[w as int]
                    == 0) by {
                    if w == v {
                        assert(order@[order.len() - 1] == v);
                    } else if order@.contains(w) {
                        let p = choose|p: int| 0 <= p < order.len() && order@[p] == w;
                        assert(p < order.len() - 1);
                        assert(old_order[p] == w);
                    } else if indeg[w as int] == 0 {
                        assert(old_order.contains(w));
                        let p = choose|p: int| 0 <= p < old_order.len() && old_order[p] == w;
                        assert(order@[p] == w);
                    }
                }
                assert forall|w: usize| v + 1 <= w < n implies !order@.contains(w) by {
                    if order@.contains(w) {
                        let p = choose|p: int| 0 <= p < order.len() && order@[p] == w;
                        if p < order.len() - 1 {
                            assert(old_order[p] == w);
                        }
                    }
                }
            }
        } else {
            proof {
                assert forall|w: usize| w < v + 1 implies (order@.contains(w) <==> indeg[w as int]
                    == 0) by {
                    if w == v {
                        assert(!order@.contains(w));
                    }
                }
            }
        }
        v = v + 1;
    }
    // No emitted node has any incoming edge yet.
    proof {
        assert forall|jj: int, p: int|
            0 <= jj < m && 0 <= p < order.len() && #[trigger] order[p] == #[trigger] dst[jj]
                implies order@.take(p).contains(src[jj]) by {
            lemma_live_count_positive(dst@, all_alive, jj, m as int);
        }
    }
    proof {
        lemma_distinct_below(order@, n as int);
    }
    let mut head: usize = 0;
    let ghost mut alive: Seq<bool> = all_alive;
    while head < order.len()
        invariant
            m == src.len(),
            m == dst.len(),
            forall|i: int| 0 <= i < m ==> src[i] < n && dst[i] < n,
            head <= order.len(),
            order.len() <= n,
            indeg.len() == n,
            alive.len() == m,
            order@.no_duplicates(),
            forall|p: int| 0 <= p < order.len() ==> order[p] < n,
            forall|w: usize| w < n ==> (order@.contains(w) <==> indeg[w as int] == 0),
            forall|w: int| 0 <= w < n ==> indeg[w] == live_count(dst@, alive, w as usize, m as int),
            forall|i: int| 0 <= i < m ==> (alive[i] <==> !order@.take(head as int).contains(src[i])),
            forall|jj: int, p: int|
                0 <= jj < m && 0 <= p < order.len() && #[trigger] order[p] == #[trigger] dst[jj]
                    ==> order@.take(p).contains(src[jj]),
        decreases n - head,
    {
        let u = order[head];
        let mut k: usize = 0;
        while k < m
            invariant
                m == src.len(),
                m == dst.len(),
                forall|i: int| 0 <= i < m ==> src[i] < n && dst[i] < n,
                head < order.len(),
                order[head as int] == u,
                order.len() <= n,
                indeg.len() == n,
                alive.len() == m,
                k <= m,
                order@.no_duplicates(),
                forall|p: int| 0 <= p < order.len() ==> order[p] < n,
                forall|w: usize| w < n ==> (order@.contains(w) <==> indeg[w as int] == 0),
                forall|w: int|
                    0 <= w < n ==> indeg[w] == live_count(dst@, alive, w as usize, m as int),
                forall|i: int|
                    0 <= i < m ==> (alive[i] <==> !(order@.take(head as int).contains(src[i]) || (
                    src[i] == u && i < k))),
                forall|jj: int, p: int|
                    0 <= jj < m && 0 <= p < order.len() && #[trigger] order[p] == #[trigger] dst[jj]
                        ==> order@.take(p).contains(src[jj]),
            decreases m - k,
        {
            if src[k] == u {
                let d = dst[k];
                proof {
                    // u has not been emitted before position head
                    if order@.take(head as int).contains(u) {
                        let q = choose|q: int| 0 <= q < head && order@.take(head as int)[q] == u;
                        assert(order[q] == order[head as int]);
                    }
                    assert(alive[k as int]);
                    lemma_live_count_positive(dst@, alive, k as int, m as int);
                    lemma_live_count_kill(dst@, alive, k as int, d, m as int);
                    assert forall|w: int| 0 <= w < n && w != d implies #[trigger] live_count(
                        dst@,
                        alive.update(k as int, false),
                        w as usize,
                        m as int,
                    ) == live_count(dst@, alive, w as usize, m as int) by {
                        lemma_live_count_kill(dst@, alive, k as int, w as usize, m as int);
                    }
                }
                let c = indeg[d];
                indeg.set(d, c - 1);
                proof {
                    alive = alive.update(k as int, false);
                }
                if c == 1 {
                    let ghost old_order = order@;
                    proof {
                        assert(!order@.contains(d));
                        lemma_live_count_zero(dst@, alive, d, m as int);
                    }
                    order.push(d);
                    proof {
                        assert(order@.drop_last() == old_order);
                        assert forall|p: int| 0 <= p < old_order.len() implies order@.take(p)
                            == old_order.take(p) by {
                            assert(order@.take(p) =~= old_order.take(p));
                        }
                        assert(order@.take(head as int) =~= old_order.take(head as int));
                        assert(order@.no_duplicates());
                        lemma_distinct_below(order@, n as int);
                        assert forall|w: usize| w < n implies (order@.contains(w) <==> indeg[w as int]
                            == 0) by {
                            if w == d {
                                assert(order@[order.len() - 1] == d);
                            } else if order@.contains(w) {
                                let p = choose|p: int| 0 <= p < order.len() && order@[p] == w;
                                assert(old_order[p] == w);
                            } else if old_order.contains(w) {
                                let p = choose|p: int| 0 <= p < old_order.len() && old_order[p] == w;
                                assert(order@[p] == w);
                            }
                        }
                        assert forall|jj: int, p: int|
                            0 <= jj < m && 0 <= p < order.len() && #[trigger] order[p]
                                == #[trigger] dst[jj] implies order@.take(p).contains(src[jj]) by {
                            if p == order.len() - 1 {
                                assert(!alive[jj]);
                                if old_order.take(head as int).contains(src[jj]) {
                                    let q = choose|q: int|
                                        0 <= q < head && old_order.take(head as int)[q] == src[jj];
                                    assert(order@.take(p)[q] == src[jj]);
                                } else {
                                    assert(src[jj] == u);
                                    assert(order@.take(p)[head as int] == u);
                                }
                            } else {
                                assert(old_order[p] == dst[jj]);
                                assert(old_order.take(p).contains(src[jj]));
                            }
                        }
                    }
                } else {
                    proof {
                        assert(indeg[d as int] > 0);
                    }
                }
            }
            k = k + 1;
        }
        proof {
            assert forall|i: int| 0 <= i < m implies (alive[i] <==> !order@.take(
                head + 1,
            ).contains(src[i])) by {
                assert(order@.take(head + 1) =~= order@.take(head as int).push(u));
                if order@.take(head as int).push(u).contains(src[i]) && src[i] != u {
                    let q = choose|q: int|
                        0 <= q < head + 1 && order@.take(head as int).push(u)[q] == src[i];
                    assert(order@.take(head as int)[q] == src[i]);
                }
                if order@.take(head as int).contains(src[i]) {
                    let q = choose|q: int| 0 <= q < head && order@.take(head as int)[q] == src[i];
                    assert(order@.take(head as int).push(u)[q] == src[i]);
                }
                if src[i] == u {
                    assert(order@.take(head as int).push(u)[head as int] == u);
                }
            }
        }
        head = head + 1;
    }
    proof {
        assert(order@.take(head as int) =~= order@);
        assert forall|w: usize| w < n && !(#[trigger] order@.contains(w)) implies exists|jj: int|
            0 <= jj < m && dst[jj] == w && !order@.contains(#[trigger] src[jj]) by {
            assert(indeg[w as int] > 0);
            lemma_live_count_witness(dst@, alive, w, m as int);
        }
    }
    order
}

} // verus!
