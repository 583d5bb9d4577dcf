//! Arena-style directed graphs over integer node indices, and a deterministic
//! topological sort with cycle detection.
//!
//! Nodes are the indices `0 .. n`; an edge `(u, v)` says that `u` must be
//! resolved before `v`. Acyclicity is witnessed by a ranking: an assignment of
//! an integer to every node under which each edge strictly increases.

use vstd::prelude::*;

verus! {

broadcast use vstd::seq_lib::lemma_seq_contains_after_push;

/// Every edge stays inside the node range `0 .. n`.
pub open spec fn edges_wf(n: int, edges: Seq<(usize, usize)>) -> bool {
    forall|k: int| 0 <= k < edges.len() ==> (#[trigger] edges[k]).0 < n && edges[k].1 < n
}

/// A node is ready to be emitted once it has not been emitted yet and every
/// edge into it starts from an already emitted node.
pub open spec fn node_ready(edges: Seq<(usize, usize)>, done: Seq<usize>, v: usize) -> bool {
    &&& !done.contains(v)
    &&& forall|k: int|
        0 <= k < edges.len() && (#[trigger] edges[k]).1 == v ==> done.contains(edges[k].0)
}

/// The least node index at or above `i` that is ready, if any.
pub open spec fn first_ready_from(
    n: int,
    edges: Seq<(usize, usize)>,
    done: Seq<usize>,
    i: int,
) -> Option<usize>
    decreases n - i,
{
    if i < 0 || i >= n {
        None
    } else if node_ready(edges, done, i as usize) {
        Some(i as usize)
    } else {
        first_ready_from(n, edges, done, i + 1)
    }
}

/// Extends `done` for at most `fuel` further steps, each time emitting the
/// least ready node, and stops early once no node is ready.
pub open spec fn topo_walk(
    n: int,
    edges: Seq<(usize, usize)>,
    done: Seq<usize>,
    fuel: nat,
) -> Seq<usize>
    decreases fuel,
{
    if fuel == 0 {
        done
    } else {
        match first_ready_from(n, edges, done, 0) {
            Some(v) => topo_walk(n, edges, done.push(v), (fuel - 1) as nat),
            None => done,
        }
    }
}

/// The deterministic topological order of the graph: starting from nothing,
/// emit the least ready node until none is left. On a graph with a cycle this
/// stops short of `n` nodes.
pub open spec fn spec_toposort(n: int, edges: Seq<(usize, usize)>) -> Seq<usize> {
    topo_walk(n, edges, Seq::empty(), n as nat)
}

/// `order` lists each of the nodes `0 .. n` exactly once, and the source of
/// every edge appears strictly before its target.
pub open spec fn is_topo_order(n: int, edges: Seq<(usize, usize)>, order: Seq<usize>) -> bool {
    &&& order.len() == n
    &&& order.no_duplicates()
    &&& forall|t: int| 0 <= t < order.len() ==> (#[trigger] order[t]) < n
    &&& forall|v: usize| v < n ==> #[trigger] order.contains(v)
    &&& forall|j: int, k: int|
        0 <= j < order.len() && 0 <= k < edges.len() && (#[trigger] edges[k]).1 == (
        #[trigger] order[j]) ==> exists|i: int| 0 <= i < j && order[i] == edges[k].0
}

/// A ranking certifies acyclicity: every edge strictly increases the rank.
pub open spec fn rank_ok(n: int, edges: Seq<(usize, usize)>, r: Seq<int>) -> bool {
    &&& r.len() == n
    &&& forall|k: int|
        0 <= k < edges.len() ==> r[(#[trigger] edges[k]).0 as int] < r[edges[k].1 as int]
}

/// The graph has no directed cycle: going around a cycle would have to
/// strictly increase a ranking and return to its starting value.
pub open spec fn acyclic(n: int, edges: Seq<(usize, usize)>) -> bool {
    exists|r: Seq<int>| rank_ok(n, edges, r)
}

/// Index of the first occurrence of `v` in `s` (or `s.len()` when absent).
pub open spec fn pos_of(s: Seq<usize>, v: usize) -> int
    decreases s.len(),
{
    if s.len() == 0 {
        0
    } else if s[0] == v {
        0
    } else {
        1 + pos_of(s.subrange(1, s.len() as int), v)
    }
}

pub proof fn lemma_pos_of_contains(s: Seq<usize>, v: usize)
    requires
        s.contains(v),
    ensures
        0 <= pos_of(s, v) < s.len(),
        s[pos_of(s, v)] == v,
    decreases s.len(),
{
    if s.len() == 0 {
    } else if s[0] == v {
    } else {
        let tail = s.subrange(1, s.len() as int);
        let j = choose|j: int| 0 <= j < s.len() && s[j] == v;
        assert(tail[j - 1] == v);
        assert(tail.contains(v));
        lemma_pos_of_contains(tail, v);
    }
}

pub proof fn lemma_pos_of_le(s: Seq<usize>, v: usize, i: int)
    requires
        0 <= i < s.len(),
        s[i] == v,
    ensures
        pos_of(s, v) <= i,
    decreases s.len(),
{
    if s[0] == v {
    } else {
        let tail = s.subrange(1, s.len() as int);
        assert(tail[i - 1] == v);
        lemma_pos_of_le(tail, v, i - 1);
    }
}

pub proof fn lemma_pos_of_nonneg(s: Seq<usize>, v: usize)
    ensures
        pos_of(s, v) >= 0,
    decreases s.len(),
{
    if s.len() > 0 && s[0] != v {
        lemma_pos_of_nonneg(s.subrange(1, s.len() as int), v);
    }
}

/// In a duplicate-free sequence, `pos_of` inverts indexing.
pub proof fn lemma_pos_of_unique(s: Seq<usize>, v: usize, t: int)
    requires
        s.no_duplicates(),
        0 <= t < s.len(),
        s[t] == v,
    ensures
        pos_of(s, v) == t,
{
    assert(s.contains(v));
    lemma_pos_of_contains(s, v);
    lemma_pos_of_le(s, v, t);
}

/// A duplicate-free sequence of values below `n` has at most `n` elements.
proof fn lemma_distinct_bounded_len(s: Seq<usize>, n: int)
    requires
        0 <= n <= usize::MAX,
        s.no_duplicates(),
        forall|t: int| 0 <= t < s.len() ==> (#[trigger] s[t]) < n,
    ensures
        s.len() <= n,
    decreases n,
{
    if n == 0 {
        if s.len() > 0 {
            assert(s[0] < 0);
        }
    } else {
        let last = (n - 1) as usize;
        if s.contains(last) {
            let j = choose|j: int| 0 <= j < s.len() && s[j] == last;
            let s2 = s.remove(j);
            s.remove_ensures(j);
            assert forall|t: int| 0 <= t < s2.len() implies (#[trigger] s2[t]) < n - 1 by {
                if t < j {
                    assert(s2[t] == s[t]);
                    assert(s[t] != s[j]);
                } else {
                    assert(s2[t] == s[t + 1]);
                    assert(s[t + 1] != s[j]);
                }
            }
            assert(s2.no_duplicates()) by {
                assert forall|a: int, b: int|
                    0 <= a < s2.len() && 0 <= b < s2.len() && a != b implies s2[a] != s2[b] by {
                    let ia = if a < j { a } else { a + 1 };
                    let ib = if b < j { b } else { b + 1 };
                    assert(s2[a] == s[ia]);
                    assert(s2[b] == s[ib]);
                }
            }
            lemma_distinct_bounded_len(s2, n - 1);
        } else {
            assert forall|t: int| 0 <= t < s.len() implies (#[trigger] s[t]) < n - 1 by {
                if s[t] == last {
                    assert(s.contains(last));
                }
            }
            lemma_distinct_bounded_len(s, n - 1);
        }
    }
}

/// A duplicate-free sequence of values below `n` that is shorter than `n`
/// misses at least one value below `n`.
proof fn lemma_missing_value(done: Seq<usize>, n: int)
    requires
        0 <= n <= usize::MAX,
        done.len() < n,
        done.no_duplicates(),
        forall|t: int| 0 <= t < done.len() ==> (#[trigger] done[t]) < n,
    ensures
        exists|v: usize| v < n && !done.contains(v),
    decreases n,
{
    let last = (n - 1) as usize;
    if !done.contains(last) {
        assert(last < n && !done.contains(last));
    } else {
        let j = choose|j: int| 0 <= j < done.len() && done[j] == last;
        let s2 = done.remove(j);
        done.remove_ensures(j);
        assert forall|t: int| 0 <= t < s2.len() implies (#[trigger] s2[t]) < n - 1 by {
            let it = if t < j { t } else { t + 1 };
            assert(s2[t] == done[it]);
            assert(done[it] != done[j]);
        }
        assert(s2.no_duplicates()) by {
            assert forall|a: int, b: int|
                0 <= a < s2.len() && 0 <= b < s2.len() && a != b implies s2[a] != s2[b] by {
                let ia = if a < j { a } else { a + 1 };
                let ib = if b < j { b } else { b + 1 };
                assert(s2[a] == done[ia]);
                assert(s2[b] == done[ib]);
            }
        }
        lemma_missing_value(s2, n - 1);
        let v = choose|v: usize| v < n - 1 && !s2.contains(v);
        assert(v != last);
        assert(!done.contains(v)) by {
            if done.contains(v) {
                let idx = choose|idx: int| 0 <= idx < done.len() && done[idx] == v;
                if idx < j {
                    assert(s2[idx] == v);
                } else {
                    assert(s2[idx - 1] == v);
                }
                assert(s2.contains(v));
            }
        }
        assert(v < n && !done.contains(v));
    }
}

/// A duplicate-free sequence of exactly `n` values below `n` contains every
/// value below `n`.
proof fn lemma_full_range(s: Seq<usize>, n: int)
    requires
        0 <= n <= usize::MAX,
        s.len() == n,
        s.no_duplicates(),
        forall|t: int| 0 <= t < s.len() ==> (#[trigger] s[t]) < n,
    ensures
        forall|v: usize| v < n ==> #[trigger] s.contains(v),
    decreases n,
{
    if n > 0 {
        let last = (n - 1) as usize;
        if !s.contains(last) {
            assert forall|t: int| 0 <= t < s.len() implies (#[trigger] s[t]) < n - 1 by {
                if s[t] == last {
                    assert(s.contains(last));
                }
            }
            lemma_distinct_bounded_len(s, n - 1);
            assert(false);
        }
        let j = choose|j: int| 0 <= j < s.len() && s[j] == last;
        let s2 = s.remove(j);
        s.remove_ensures(j);
        assert forall|t: int| 0 <= t < s2.len() implies (#[trigger] s2[t]) < n - 1 by {
            let it = if t < j { t } else { t + 1 };
            assert(s2[t] == s[it]);
            assert(s[it] != s[j]);
        }
        assert(s2.no_duplicates()) by {
            assert forall|a: int, b: int|
                0 <= a < s2.len() && 0 <= b < s2.len() && a != b implies s2[a] != s2[b] by {
                let ia = if a < j { a } else { a + 1 };
                let ib = if b < j { b } else { b + 1 };
                assert(s2[a] == s[ia]);
                assert(s2[b] == s[ib]);
            }
        }
        lemma_full_range(s2, n - 1);
        assert forall|v: usize| v < n implies #[trigger] s.contains(v) by {
            if v == last {
                assert(s[j] == v);
            } else {
                assert(s2.contains(v));
                let idx = choose|idx: int| 0 <= idx < s2.len() && s2[idx] == v;
                if idx < j {
                    assert(s[idx] == v);
                } else {
                    assert(s[idx + 1] == v);
                }
            }
        }
    }
}

/// When no node at or above `i` is ready, none of them is ready individually.
proof fn lemma_first_ready_none(
    n: int,
    edges: Seq<(usize, usize)>,
    done: Seq<usize>,
    i: int,
    v: usize,
)
    requires
        0 <= i,
        i <= v < n,
        first_ready_from(n, edges, done, i) is None,
    ensures
        !node_ready(edges, done, v),
    decreases n - i,
{
    if i < n {
        if v != i {
            lemma_first_ready_none(n, edges, done, i + 1, v);
        }
    }
}

/// Among the unprocessed nodes below `m` there is one of minimal rank.
#[verifier::rlimit(50)]
proof fn lemma_min_unprocessed(done: Seq<usize>, r: Seq<int>, m: int)
    requires
        1 <= m <= r.len(),
        m <= usize::MAX,
        exists|v: usize| v < m && !done.contains(v),
    ensures
        exists|v: usize|
            v < m && !done.contains(v) && forall|u: usize|
                u < m && !#[trigger] done.contains(u) ==> r[v as int] <= r[u as int],
    decreases m,
{
    let last = (m - 1) as usize;
    if exists|v: usize| v < m - 1 && !done.contains(v) {
        lemma_min_unprocessed(done, r, m - 1);
        let v1 = choose|v: usize|
            v < m - 1 && !done.contains(v) && forall|u: usize|
                u < m - 1 && !#[trigger] done.contains(u) ==> r[v as int] <= r[u as int];
        if !done.contains(last) && r[last as int] < r[v1 as int] {
            assert forall|u: usize| u < m && !#[trigger] done.contains(u) implies r[last as int]
                <= r[u as int] by {
                if u < m - 1 {
                    assert(r[v1 as int] <= r[u as int]);
                }
            }
            assert(last < m && !done.contains(last) && forall|u: usize|
                u < m && !#[trigger] done.contains(u) ==> r[last as int] <= r[u as int]);
        } else {
            assert forall|u: usize| u < m && !#[trigger] done.contains(u) implies r[v1 as int]
                <= r[u as int] by {
                if u < m - 1 {
                } else {
                    assert(u == last);
                }
            }
            assert(v1 < m && !done.contains(v1) && forall|u: usize|
                u < m && !#[trigger] done.contains(u) ==> r[v1 as int] <= r[u as int]);
        }
    } else {
        let w = choose|v: usize| v < m && !done.contains(v);
        assert(w == last);
        assert forall|u: usize| u < m && !#[trigger] done.contains(u) implies r[last as int]
            <= r[u as int] by {
            assert(u == last);
        }
        assert(last < m && !done.contains(last) && forall|u: usize|
            u < m && !#[trigger] done.contains(u) ==> r[last as int] <= r[u as int]);
    }
}

/// A stalled walk exposes a cycle: every unprocessed node waits on another
/// unprocessed node, so no ranking can order all edges forward.
proof fn lemma_stalled_cyclic(n: int, edges: Seq<(usize, usize)>, done: Seq<usize>)
    requires
        0 <= n <= usize::MAX,
        edges_wf(n, edges),
        done.len() < n,
        done.no_duplicates(),
        forall|t: int| 0 <= t < done.len() ==> (#[trigger] done[t]) < n,
        first_ready_from(n, edges, done, 0) is None,
    ensures
        !acyclic(n, edges),
{
    if acyclic(n, edges) {
        let r = choose|r: Seq<int>| rank_ok(n, edges, r);
        lemma_missing_value(done, n);
        lemma_min_unprocessed(done, r, n);
        let v = choose|v: usize|
            v < n && !done.contains(v) && forall|u: usize|
                u < n && !#[trigger] done.contains(u) ==> r[v as int] <= r[u as int];
        lemma_first_ready_none(n, edges, done, 0, v);
        assert(!node_ready(edges, done, v));
        let k = choose|k: int|
            0 <= k < edges.len() && (#[trigger] edges[k]).1 == v && !done.contains(edges[k].0);
        let u = edges[k].0;
        assert(u < n);
        assert(r[v as int] <= r[u as int]);
        assert(r[u as int] < r[v as int]);
        assert(false);
    }
}

/// A complete topological order yields a ranking: rank each node by its
/// position in the order.
proof fn lemma_order_gives_rank(n: int, edges: Seq<(usize, usize)>, order: Seq<usize>)
    requires
        0 <= n,
        edges_wf(n, edges),
        is_topo_order(n, edges, order),
    ensures
        acyclic(n, edges),
{
    let r = Seq::new(n as nat, |v: int| pos_of(order, v as usize));
    assert forall|k: int| 0 <= k < edges.len() implies r[(#[trigger] edges[k]).0 as int] < r[edges[
        k].1 as int] by {
        let u = edges[k].0;
        let w = edges[k].1;
        assert(order.contains(w));
        lemma_pos_of_contains(order, w);
        let jw = pos_of(order, w);
        assert(order[jw] == w);
        assert(exists|i: int| 0 <= i < jw && order[i] == u);
        let i = choose|i: int| 0 <= i < jw && order[i] == u;
        lemma_pos_of_le(order, u, i);
    }
    assert(rank_ok(n, edges, r));
}

proof fn lemma_first_ready_some(n: int, edges: Seq<(usize, usize)>, done: Seq<usize>, i: int)
    requires
        0 <= i,
        first_ready_from(n, edges, done, i) is Some,
    ensures
        match first_ready_from(n, edges, done, i) {
            Some(v) => v < n && node_ready(edges, done, v),
            None => true,
        },
    decreases n - i,
{
    if i < n && !node_ready(edges, done, i as usize) {
        lemma_first_ready_some(n, edges, done, i + 1);
    }
}

proof fn lemma_topo_walk_props(n: int, edges: Seq<(usize, usize)>, done: Seq<usize>, fuel: nat)
    requires
        0 <= n,
        done.no_duplicates(),
        forall|t: int| 0 <= t < done.len() ==> (#[trigger] done[t]) < n,
        forall|j: int, k: int|
            0 <= j < done.len() && 0 <= k < edges.len() && (#[trigger] edges[k]).1 == (
            #[trigger] done[j]) ==> exists|i: int| 0 <= i < j && done[i] == edges[k].0,
    ensures
        ({
            let out = topo_walk(n, edges, done, fuel);
            &&& out.len() <= done.len() + fuel
            &&& out.no_duplicates()
            &&& forall|t: int| 0 <= t < out.len() ==> (#[trigger] out[t]) < n
            &&& forall|j: int, k: int|
                0 <= j < out.len() && 0 <= k < edges.len() && (#[trigger] edges[k]).1 == (
                #[trigger] out[j]) ==> exists|i: int| 0 <= i < j && out[i] == edges[k].0
        }),
    decreases fuel,
{
    if fuel > 0 {
        match first_ready_from(n, edges, done, 0) {
            Some(v) => {
                lemma_first_ready_some(n, edges, done, 0);
                let pushed = done.push(v);
                assert(pushed.no_duplicates());
                assert forall|j: int, k: int|
                    0 <= j < pushed.len() && 0 <= k < edges.len() && (#[trigger] edges[k]).1 == (
                    #[trigger] pushed[j]) implies exists|i: int|
                    0 <= i < j && pushed[i] == edges[k].0 by {
                    if j < done.len() {
                        assert(done[j] == pushed[j]);
                        let i = choose|i: int| 0 <= i < j && done[i] == edges[k].0;
                        assert(pushed[i] == edges[k].0);
                    } else {
                        assert(pushed[j] == v);
                        assert(done.contains(edges[k].0));
                        let i = choose|i: int| 0 <= i < done.len() && done[i] == edges[k].0;
                        assert(pushed[i] == edges[k].0);
                    }
                }
                lemma_topo_walk_props(n, edges, pushed, (fuel - 1) as nat);
            },
            None => {},
        }
    }
}

/// A walk that emitted all `n` nodes certifies the graph acyclic.
pub proof fn lemma_toposort_complete_acyclic(n: int, edges: Seq<(usize, usize)>)
    requires
        0 <= n <= usize::MAX,
        edges_wf(n, edges),
        spec_toposort(n, edges).len() == n,
    ensures
        acyclic(n, edges),
        is_topo_order(n, edges, spec_toposort(n, edges)),
{
    lemma_topo_walk_props(n, edges, Seq::empty(), n as nat);
    let order = spec_toposort(n, edges);
    lemma_full_range(order, n);
    assert(is_topo_order(n, edges, order));
    lemma_order_gives_rank(n, edges, order);
}

/// The walk never emits more than `n` nodes.
pub proof fn lemma_toposort_len(n: int, edges: Seq<(usize, usize)>)
    requires
        0 <= n,
    ensures
        spec_toposort(n, edges).len() <= n,
{
    lemma_topo_walk_props(n, edges, Seq::empty(), n as nat);
}

proof fn lemma_topo_walk_stall(n: int, edges: Seq<(usize, usize)>, done: Seq<usize>, fuel: nat)
    ensures
        topo_walk(n, edges, done, fuel).len() == done.len() + fuel || first_ready_from(
            n,
            edges,
            topo_walk(n, edges, done, fuel),
            0,
        ) is None,
    decreases fuel,
{
    if fuel > 0 {
        match first_ready_from(n, edges, done, 0) {
            Some(v) => {
                lemma_topo_walk_stall(n, edges, done.push(v), (fuel - 1) as nat);
            },
            None => {},
        }
    }
}

/// A walk that stopped short of all `n` nodes exposes a cycle.
pub proof fn lemma_toposort_stalled_cyclic(n: int, edges: Seq<(usize, usize)>)
    requires
        0 <= n <= usize::MAX,
        edges_wf(n, edges),
        spec_toposort(n, edges).len() < n,
    ensures
        !acyclic(n, edges),
{
    lemma_topo_walk_props(n, edges, Seq::empty(), n as nat);
    lemma_topo_walk_stall(n, edges, Seq::empty(), n as nat);
    lemma_stalled_cyclic(n, edges, spec_toposort(n, edges));
}

/// The marker vector agrees with membership in the emitted prefix.
pub open spec fn marks_match(n: int, marks: Seq<bool>, done: Seq<usize>) -> bool {
    &&& marks.len() == n
    &&& forall|v: int| 0 <= v < n ==> ((#[trigger] marks[v]) <==> done.contains(v as usize))
}

/// Deterministic topological sort: repeatedly emits the lowest-numbered node
/// whose predecessors have all been emitted. Returns `None` exactly when the
/// graph has a directed cycle.
#[verifier::loop_isolation(false)]
pub fn toposort(n: usize, edges: &Vec<(usize, usize)>) -> (r: Option<Vec<usize>>)
    requires
        edges_wf(n as int, edges@),
    ensures
        match r {
            Some(order) => {
                &&& order@ == spec_toposort(n as int, edges@)
                &&& is_topo_order(n as int, edges@, order@)
                &&& acyclic(n as int, edges@)
            },
            None => {
                &&& !acyclic(n as int, edges@)
                &&& spec_toposort(n as int, edges@).len() < n
            },
        },
{
    let mut marks: Vec<bool> = Vec::new();
    let mut j: usize = 0;
    while j < n
        invariant
            j <= n,
            marks@.len() == j as int,
            forall|t: int| 0 <= t < j ==> !(#[trigger] marks@[t]),
        decreases n - j,
    {
        marks.push(false);
        j = j + 1;
    }
    let mut order: Vec<usize> = Vec::new();
    while order.len() < n
        invariant
            marks_match(n as int, marks@, order@),
            order@.len() <= n,
            order@.no_duplicates(),
            forall|t: int| 0 <= t < order@.len() ==> (#[trigger] order@[t]) < n,
            topo_walk(n as int, edges@, order@, (n - order@.len()) as nat) == spec_toposort(
                n as int,
                edges@,
            ),
            forall|jj: int, k: int|
                0 <= jj < order@.len() && 0 <= k < edges@.len() && (#[trigger] edges@[k]).1 == (
                #[trigger] order@[jj]) ==> exists|i: int| 0 <= i < jj && order@[i] == edges@[k].0,
        decreases n - order.len(),
    {
        let ghost done = order@;
        let mut found: usize = n;
        let mut i: usize = 0;
        while i < n && found == n
            invariant
                i <= n,
                found <= n,
                found == n ==> first_ready_from(n as int, edges@, done, 0) == first_ready_from(
                    n as int,
                    edges@,
                    done,
                    i as int,
                ),
                found < n ==> first_ready_from(n as int, edges@, done, 0) == Some(found)
                    && node_ready(edges@, done, found),
                order@ == done,
            decreases n - i,
        {
            let mut ok: bool = !marks[i];
            let mut k: usize = 0;
            while k < edges.len() && ok
                invariant
                    k <= edges@.len(),
                    ok ==> !done.contains(i as usize) && forall|kk: int|
                        0 <= kk < k && (#[trigger] edges@[kk]).1 == i ==> done.contains(
                            edges@[kk].0),
                    !ok ==> !node_ready(edges@, done, i as usize),
                    order@ == done,
                decreases edges@.len() - k,
            {
                let e = edges[k];
                if e.1 == i && !marks[e.0] {
                    ok = false;
                }
                k = k + 1;
            }
            if ok {
                assert(node_ready(edges@, done, i as usize));
                found = i;
            }
            i = i + 1;
        }
        if found < n {
            proof {
                assert(first_ready_from(n as int, edges@, done, 0) == Some(found));
                assert(topo_walk(n as int, edges@, done, (n - done.len()) as nat) == topo_walk(
                    n as int,
                    edges@,
                    done.push(found),
                    (n - done.len() - 1) as nat,
                ));
            }
            let ghost pushed = order@.push(found);
            order.push(found);
            marks[found] = true;
            proof {
                assert(order@ == pushed);
                assert(order@.no_duplicates()) by {
                    assert(!done.contains(found));
                }
                assert(marks_match(n as int, marks@, order@)) by {
                    assert forall|v: int| 0 <= v < n implies ((#[trigger] marks@[v])
                        <==> order@.contains(v as usize)) by {
                        assert(order@.contains(v as usize) <==> (done.contains(v as usize) || v
                            == found as int));
                    }
                }
                assert forall|jj: int, k: int|
                    0 <= jj < order@.len() && 0 <= k < edges@.len() && (#[trigger] edges@[k]).1 == (
                    #[trigger] order@[jj]) implies exists|i2: int|
                    0 <= i2 < jj && order@[i2] == edges@[k].0 by {
                    if jj < done.len() {
                        assert(done[jj] == order@[jj]);
                        assert(exists|i2: int| 0 <= i2 < jj && done[i2] == edges@[k].0);
                        let i2 = choose|i2: int| 0 <= i2 < jj && done[i2] == edges@[k].0;
                        assert(order@[i2] == edges@[k].0);
                    } else {
                        assert(order@[jj] == found);
                        assert(done.contains(edges@[k].0));
                        let i2 = choose|i2: int| 0 <= i2 < done.len() && done[i2] == edges@[k].0;
                        assert(order@[i2] == edges@[k].0);
                    }
                }
            }
        } else {
            proof {
                assert(i == n);
                assert(first_ready_from(n as int, edges@, done, n as int) is None);
                assert(first_ready_from(n as int, edges@, done, 0) is None);
                lemma_stalled_cyclic(n as int, edges@, done);
                assert(topo_walk(n as int, edges@, done, (n - done.len()) as nat) == done);
            }
            return None;
        }
    }
    proof {
        assert(topo_walk(n as int, edges@, order@, 0) == order@);
        assert(order@ == spec_toposort(n as int, edges@));
        lemma_full_range(order@, n as int);
        assert(is_topo_order(n as int, edges@, order@));
        lemma_order_gives_rank(n as int, edges@, order@);
    }
    Some(order)
}

} // verus!
