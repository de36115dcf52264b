//! Deterministic topological ordering (Kahn's algorithm).

use vstd::prelude::*;

verus! {

/// Why no order could be produced.
#[derive(Debug, Clone, Copy, PartialEq, Eq, Structural)]
pub enum TopologicalSortError {
    CycleDetected,
}

/// `order` lists every node of `0..n` exactly once.
pub open spec fn is_node_order(order: Seq<usize>, n: nat) -> bool {
    &&& order.len() == n
    &&& order.no_duplicates()
    &&& forall|i: int| 0 <= i < order.len() ==> order[i] < n
}

/// Wherever both ends of an edge occur in `order`, the source comes first.
pub open spec fn respects_edges(order: Seq<usize>, edges: Seq<(usize, usize)>) -> bool {
    forall|k: int, i: int, j: int|
        0 <= k < edges.len() && 0 <= i < order.len() && 0 <= j < order.len() && order[i]
            == edges[k].0 && order[j] == edges[k].1 ==> i < j
}

/// A topological order of the graph on nodes `0..n`.
pub open spec fn is_index_order(order: Seq<usize>, n: nat, edges: Seq<(usize, usize)>) -> bool {
    is_node_order(order, n) && respects_edges(order, edges)
}

pub open spec fn edges_below(edges: Seq<(usize, usize)>, n: nat) -> bool {
    forall|k: int| 0 <= k < edges.len() ==> edges[k].0 < n && edges[k].1 < n
}

/// Number of edges among the first `hi` whose destination is `v` and whose
/// source is not yet marked in `done`.
pub open spec fn pending(edges: Seq<(usize, usize)>, done: Seq<bool>, v: usize, hi: int) -> nat
    decreases hi,
{
    if hi <= 0 {
        0
    } else {
        let e = edges[hi - 1];
        pending(edges, done, v, hi - 1) + if e.1 == v && !done[e.0 as int] {
            1nat
        } else {
            0nat
        }
    }
}

proof fn lemma_pending_zero(edges: Seq<(usize, usize)>, done: Seq<bool>, v: usize, hi: int)
    requires
        0 <= hi <= edges.len(),
    ensures
        pending(edges, done, v, hi) == 0 <==> forall|k: int|
            0 <= k < hi && edges[k].1 == v ==> done[edges[k].0 as int],
    decreases hi,
{
    if hi > 0 {
        lemma_pending_zero(edges, done, v, hi - 1);
    }
}

proof fn lemma_pending_mono(edges: Seq<(usize, usize)>, done: Seq<bool>, v: usize, lo: int, hi: int)
    requires
        0 <= lo <= hi,
    ensures
        pending(edges, done, v, lo) <= pending(edges, done, v, hi),
    decreases hi - lo,
{
    if lo < hi {
        lemma_pending_mono(edges, done, v, lo, hi - 1);
    }
}

proof fn lemma_pending_bound(edges: Seq<(usize, usize)>, done: Seq<bool>, v: usize, hi: int)
    requires
        0 <= hi,
    ensures
        pending(edges, done, v, hi) <= hi,
    decreases hi,
{
    if hi > 0 {
        lemma_pending_bound(edges, done, v, hi - 1);
    }
}

/// No node of a closed-off remainder can come first in a topological order:
/// every undone node has an undone predecessor, so none of `order` is undone.
proof fn lemma_no_undone_position(
    order: Seq<usize>,
    n: nat,
    edges: Seq<(usize, usize)>,
    done: Seq<bool>,
    p: int,
)
    requires
        is_index_order(order, n, edges),
        edges_below(edges, n),
        done.len() == n,
        0 <= p < order.len(),
        forall|v: int|
            0 <= v < n && !done[v] ==> exists|k: int|
                0 <= k < edges.len() && edges[k].1 == v && !done[edges[k].0 as int],
    ensures
        done[order[p] as int],
    decreases p,
{
    if !done[order[p] as int] {
        let v = order[p] as int;
        let k = choose|k: int| 0 <= k < edges.len() && edges[k].1 == v && !done[edges[k].0 as int];
        let u = edges[k].0;
        lemma_node_order_covers(order, n, u);
        let q = choose|q: int| 0 <= q < order.len() && order[q] == u;
        assert(q < p);
        lemma_no_undone_position(order, n, edges, done, q);
    }
}

/// A node order of `0..n` contains every node below `n`.
pub(crate) proof fn lemma_node_order_covers(order: Seq<usize>, n: nat, u: usize)
    requires
        is_node_order(order, n),
        u < n,
    ensures
        exists|q: int| 0 <= q < order.len() && order[q] == u,
{
    let ints = order.map_values(|x: usize| x as int);
    assert(ints.no_duplicates()) by {
        assert forall|i: int, j: int| 0 <= i < ints.len() && 0 <= j < ints.len() && i != j
            implies ints[i] != ints[j] by {
            assert(order[i] != order[j]);
        }
    }
    ints.unique_seq_to_set();
    if !(exists|q: int| 0 <= q < order.len() && order[q] == u) {
        let range = vstd::set_lib::set_int_range(0, n as int).remove(u as int);
        assert forall|x: int| ints.to_set().contains(x) implies range.contains(x) by {
            let i = choose|i: int| 0 <= i < ints.len() && ints[i] == x;
            assert(order[i] != u);
        }
        vstd::set_lib::lemma_int_range(0, n as int);
        vstd::set_lib::lemma_len_subset(ints.to_set(), range);
    }
}

/// A duplicate-free list of nodes below `n` that is shorter than `n` misses one.
proof fn lemma_missing_node(s: Seq<usize>, n: nat)
    requires
        s.no_duplicates(),
        s.len() < n,
        n <= usize::MAX + 1,
        forall|i: int| 0 <= i < s.len() ==> s[i] < n,
    ensures
        exists|w: usize| w < n && !s.contains(w),
{
    let ints = s.map_values(|x: usize| x as int);
    assert(ints.no_duplicates()) by {
        assert forall|i: int, j: int| 0 <= i < ints.len() && 0 <= j < ints.len() && i != j
            implies ints[i] != ints[j] by {
            assert(s[i] != s[j]);
        }
    }
    ints.unique_seq_to_set();
    if forall|w: usize| w < n ==> s.contains(w) {
        let range = vstd::set_lib::set_int_range(0, n as int);
        assert forall|x: int| range.contains(x) implies ints.to_set().contains(x) by {
            assert(s.contains(x as usize));
            let i = choose|i: int| 0 <= i < s.len() && s[i] == x as usize;
            assert(ints[i] == x);
        }
        vstd::set_lib::lemma_int_range(0, n as int);
        vstd::set_lib::lemma_len_subset(range, ints.to_set());
    }
}

pub open spec fn has_edge(edges: Seq<(usize, usize)>, a: usize, b: usize) -> bool {
    exists|k: int| 0 <= k < edges.len() && edges[k] == (a, b)
}

/// `path` walks along edges and comes back to where it started.
pub open spec fn is_cycle(edges: Seq<(usize, usize)>, path: Seq<usize>) -> bool {
    &&& path.len() >= 2
    &&& path[0] == path[path.len() - 1]
    &&& forall|i: int| 0 <= i < path.len() - 1 ==> has_edge(edges, path[i], #[trigger] path[i + 1])
}

pub open spec fn has_cycle(edges: Seq<(usize, usize)>) -> bool {
    exists|path: Seq<usize>| is_cycle(edges, path)
}

/// A duplicate-free list of nodes below `n` has at most `n` entries.
proof fn lemma_distinct_bounded(s: Seq<usize>, n: nat)
    requires
        s.no_duplicates(),
        forall|i: int| 0 <= i < s.len() ==> s[i] < n,
    ensures
        s.len() <= n,
{
    let ints = s.map_values(|x: usize| x as int);
    assert(ints.no_duplicates()) by {
        assert forall|i: int, j: int| 0 <= i < ints.len() && 0 <= j < ints.len() && i != j
            implies ints[i] != ints[j] by {
            assert(s[i] != s[j]);
        }
    }
    ints.unique_seq_to_set();
    let range = vstd::set_lib::set_int_range(0, n as int);
    assert forall|x: int| ints.to_set().contains(x) implies range.contains(x) by {
        let i = choose|i: int| 0 <= i < ints.len() && ints[i] == x;
    }
    vstd::set_lib::lemma_int_range(0, n as int);
    vstd::set_lib::lemma_len_subset(ints.to_set(), range);
}

/// Each node not done has an edge into it from a node not done.
spec fn stuck(n: nat, edges: Seq<(usize, usize)>, done: Seq<bool>) -> bool {
    forall|v: int|
        0 <= v < n && !done[v] ==> exists|k: int|
            0 <= k < edges.len() && edges[k].1 == v && !done[edges[k].0 as int]
}

spec fn entering_edge(edges: Seq<(usize, usize)>, done: Seq<bool>, v: usize) -> int {
    choose|k: int| 0 <= k < edges.len() && edges[k].1 == v && !done[edges[k].0 as int]
}

spec fn predecessor(edges: Seq<(usize, usize)>, done: Seq<bool>, v: usize) -> usize {
    edges[entering_edge(edges, done, v)].0
}

/// Walking back `len` steps from `start` along edges out of undone nodes.
spec fn back_walk(edges: Seq<(usize, usize)>, done: Seq<bool>, start: usize, len: nat) -> Seq<usize>
    decreases len,
{
    if len == 0 {
        seq![start]
    } else {
        let w = back_walk(edges, done, start, (len - 1) as nat);
        w.push(predecessor(edges, done, w[w.len() - 1]))
    }
}

proof fn lemma_back_walk(n: nat, edges: Seq<(usize, usize)>, done: Seq<bool>, start: usize, len: nat)
    requires
        edges_below(edges, n),
        done.len() == n,
        stuck(n, edges, done),
        start < n,
        !done[start as int],
    ensures
        back_walk(edges, done, start, len).len() == len + 1,
        forall|i: int|
            0 <= i <= len ==> back_walk(edges, done, start, len)[i] < n && !done[back_walk(
                edges,
                done,
                start,
                len,
            )[i] as int],
        forall|i: int|
            0 <= i < len ==> has_edge(
                edges,
                #[trigger] back_walk(edges, done, start, len)[i + 1],
                back_walk(edges, done, start, len)[i],
            ),
    decreases len,
{
    if len > 0 {
        lemma_back_walk(n, edges, done, start, (len - 1) as nat);
        let w = back_walk(edges, done, start, (len - 1) as nat);
        let v = w[w.len() - 1];
        assert(0 <= v < n && !done[v as int]);
        let k = entering_edge(edges, done, v);
        assert(edges[k] == (predecessor(edges, done, v), v));
        let w2 = back_walk(edges, done, start, len);
        assert forall|i: int| 0 <= i < len implies has_edge(edges, #[trigger] w2[i + 1], w2[i]) by {
            if i < len - 1 {
                assert(w2[i + 1] == w[i + 1] && w2[i] == w[i]);
            } else {
                assert(w2[i] == v);
            }
        }
    }
}

/// `w` walks backwards along edges, through undone nodes below `n`.
spec fn walks_back(n: nat, edges: Seq<(usize, usize)>, done: Seq<bool>, w: Seq<usize>) -> bool {
    &&& forall|i: int| 0 <= i < w.len() ==> #[trigger] w[i] < n && !done[w[i] as int]
    &&& forall|i: int| 0 <= i < w.len() - 1 ==> has_edge(edges, #[trigger] w[i + 1], w[i])
}

/// A walk that comes back to a node it visited holds a cycle.
proof fn lemma_walk_repeats(edges: Seq<(usize, usize)>, w: Seq<usize>, lo: int, hi: int)
    requires
        forall|i: int| 0 <= i < w.len() - 1 ==> has_edge(edges, #[trigger] w[i + 1], w[i]),
        0 <= lo < hi < w.len(),
        w[lo] == w[hi],
    ensures
        has_cycle(edges),
{
    let path = Seq::new((hi - lo + 1) as nat, |t: int| w[hi - t]);
    assert forall|t: int| 0 <= t < path.len() - 1 implies has_edge(edges, path[t], #[trigger] path[t + 1]) by {
        let q = hi - t - 1;
        assert(path[t] == w[q + 1] && path[t + 1] == w[q]);
    }
    assert(is_cycle(edges, path));
}

/// A stuck remainder contains a cycle.
proof fn lemma_stuck_has_cycle(n: nat, edges: Seq<(usize, usize)>, done: Seq<bool>, start: usize)
    requires
        edges_below(edges, n),
        done.len() == n,
        stuck(n, edges, done),
        start < n,
        !done[start as int],
    ensures
        has_cycle(edges),
{
    let w = back_walk(edges, done, start, n);
    lemma_back_walk(n, edges, done, start, n);
    assert(walks_back(n, edges, done, w));
    assert(w.len() == n + 1);
    if w.no_duplicates() {
        lemma_distinct_bounded(w, n);
    }
    let (i, j) = choose|i: int, j: int| 0 <= i < w.len() && 0 <= j < w.len() && i != j && w[i] == w[j];
    if i < j {
        lemma_walk_repeats(edges, w, i, j);
    } else {
        lemma_walk_repeats(edges, w, j, i);
    }
}

/// `a` and `b` agree before position `i`, where `a` is smaller.
pub open spec fn lex_below(a: Seq<int>, b: Seq<int>, i: int) -> bool {
    0 <= i < a.len() && i < b.len() && a.take(i) == b.take(i) && a[i] < b[i]
}

/// `a` equals `b` or comes before it lexicographically.
pub open spec fn lex_le(a: Seq<int>, b: Seq<int>) -> bool {
    a == b || exists|i: int| lex_below(a, b, i)
}

pub open spec fn as_ints(s: Seq<usize>) -> Seq<int> {
    s.map_values(|x: usize| x as int)
}

/// `out` is a prefix of `o` or already below it.
spec fn prefix_or_below(out: Seq<usize>, o: Seq<usize>) -> bool {
    (out.len() <= o.len() && o.take(out.len() as int) == out) || exists|i: int|
        lex_below(as_ints(out), as_ints(o), i)
}

/// Picking the smallest ready node keeps the output at or below every
/// topological order.
proof fn lemma_least_step(
    o: Seq<usize>,
    n: nat,
    edges: Seq<(usize, usize)>,
    done: Seq<bool>,
    indeg: Seq<usize>,
    out: Seq<usize>,
    pick: usize,
)
    requires
        is_index_order(o, n, edges),
        edges_below(edges, n),
        prefix_or_below(out, o),
        out.len() < n,
        out.no_duplicates(),
        done.len() == n,
        indeg.len() == n,
        forall|v: int| 0 <= v < n ==> (done[v] <==> out.contains(v as usize)),
        forall|v: int| 0 <= v < n ==> indeg[v] == pending(edges, done, v as usize, edges.len() as int),
        pick < n,
        forall|w: int| 0 <= w < pick ==> done[w] || indeg[w] > 0,
    ensures
        prefix_or_below(out.push(pick), o),
{
    let len = out.len() as int;
    let out2 = out.push(pick);
    if exists|i: int| lex_below(as_ints(out), as_ints(o), i) {
        let i = choose|i: int| lex_below(as_ints(out), as_ints(o), i);
        assert(as_ints(out2).take(i) =~= as_ints(out).take(i));
        assert(lex_below(as_ints(out2), as_ints(o), i));
    } else {
        assert(o.take(len) == out);
        let y = o[len];
        assert(!done[y as int]) by {
            if done[y as int] {
                let p = choose|p: int| 0 <= p < out.len() && out[p] == y;
                assert(o[p] == y);
            }
        }
        assert forall|k: int| 0 <= k < edges.len() && edges[k].1 == y implies done[edges[k].0 as int] by {
            let u = edges[k].0;
            lemma_node_order_covers(o, n, u);
            let q = choose|q: int| 0 <= q < o.len() && o[q] == u;
            assert(q < len);
            assert(out[q] == u);
        }
        lemma_pending_zero(edges, done, y, edges.len() as int);
        assert(pick <= y);
        if pick == y {
            assert(o.take(len + 1) =~= out2);
        } else {
            assert(as_ints(out2).take(len) =~= as_ints(o).take(len));
            assert(lex_below(as_ints(out2), as_ints(o), len));
        }
    }
}

/// Orders the nodes `0..n` so that every edge's source precedes its
/// destination. Among the nodes that are ready at a step, the smallest index
/// goes first, so node indices act as first-seen ranks.
pub fn order_indices(n: usize, edges: &Vec<(usize, usize)>) -> (r: Result<
    Vec<usize>,
    TopologicalSortError,
>)
    requires
        edges_below(edges@, n as nat),
    ensures
        r is Ok ==> is_index_order(r->Ok_0@, n as nat, edges@),
        r is Err <==> !exists|o: Seq<usize>| is_index_order(o, n as nat, edges@),
        r is Err ==> has_cycle(edges@),
        r matches Ok(v) ==> forall|o: Seq<usize>|
            is_index_order(o, n as nat, edges@) ==> lex_le(as_ints(v@), as_ints(o)),
{
    let m = edges.len();
    let mut indeg: Vec<usize> = Vec::new();
    let mut done: Vec<bool> = Vec::new();
    let mut i: usize = 0;
    while i < n
        invariant
            i <= n,
            indeg@.len() == i,
            done@.len() == i,
            forall|v: int| 0 <= v < i ==> indeg@[v] == 0 && !done@[v],
        decreases n - i,
    {
        indeg.push(0);
        done.push(false);
        i = i + 1;
    }
    let mut k: usize = 0;
    while k < m
        invariant
            m == edges@.len(),
            edges_below(edges@, n as nat),
            k <= m,
            indeg@.len() == n,
            done@.len() == n,
            forall|v: int| 0 <= v < n ==> !done@[v],
            forall|v: int| 0 <= v < n ==> indeg@[v] == pending(edges@, done@, v as usize, k as int),
        decreases m - k,
    {
        let d = edges[k].1;
        proof {
            lemma_pending_bound(edges@, done@, d, k as int);
        }
        indeg.set(d, indeg[d] + 1);
        k = k + 1;
    }
    let mut out: Vec<usize> = Vec::new();
    proof {
        assert forall|o: Seq<usize>| is_index_order(o, n as nat, edges@) implies prefix_or_below(out@, o) by {
            assert(o.take(0) =~= out@);
        }
    }
    while out.len() < n
        invariant
            m == edges@.len(),
            edges_below(edges@, n as nat),
            out@.len() <= n,
            out@.no_duplicates(),
            forall|i: int| 0 <= i < out@.len() ==> out@[i] < n,
            indeg@.len() == n,
            done@.len() == n,
            forall|v: int| 0 <= v < n ==> (done@[v] <==> out@.contains(v as usize)),
            forall|v: int| 0 <= v < n ==> indeg@[v] == pending(edges@, done@, v as usize, m as int),
            respects_edges(out@, edges@),
            forall|k: int| 0 <= k < m && done@[edges@[k].1 as int] ==> done@[edges@[k].0 as int],
            forall|o: Seq<usize>| is_index_order(o, n as nat, edges@) ==> prefix_or_below(out@, o),
        decreases n - out@.len(),
    {
        let mut pick: usize = n;
        let mut v: usize = 0;
        while v < n && pick == n
            invariant
                v <= n,
                indeg@.len() == n,
                done@.len() == n,
                pick == n || (pick < n && !done@[pick as int] && indeg@[pick as int] == 0),
                pick == n ==> forall|w: int| 0 <= w < v ==> done@[w] || indeg@[w] > 0,
                pick < n ==> forall|w: int| 0 <= w < pick ==> done@[w] || indeg@[w] > 0,
            decreases n - v,
        {
            if !done[v] && indeg[v] == 0 {
                pick = v;
            }
            v = v + 1;
        }
        if pick == n {
            proof {
                assert forall|w: int| 0 <= w < n && !done@[w] implies exists|k: int|
                    0 <= k < edges@.len() && edges@[k].1 == w && !done@[edges@[k].0 as int] by {
                    lemma_pending_zero(edges@, done@, w as usize, m as int);
                }
                lemma_missing_node(out@, n as nat);
                let w0 = choose|w: usize| w < n && !out@.contains(w);
                lemma_stuck_has_cycle(n as nat, edges@, done@, w0);
                assert forall|o: Seq<usize>| !is_index_order(o, n as nat, edges@) by {
                    if is_index_order(o, n as nat, edges@) {
                        lemma_missing_node(out@, n as nat);
                        let w = choose|w: usize| w < n && !out@.contains(w);
                        lemma_node_order_covers(o, n as nat, w);
                        let p = choose|p: int| 0 <= p < o.len() && o[p] == w;
                        lemma_no_undone_position(o, n as nat, edges@, done@, p);
                    }
                }
            }
            return Err(TopologicalSortError::CycleDetected);
        }
        let ghost old_done = done@;
        let ghost old_out = out@;
        proof {
            lemma_pending_zero(edges@, done@, pick, m as int);
            assert forall|o: Seq<usize>| is_index_order(o, n as nat, edges@) implies prefix_or_below(
                old_out.push(pick),
                o,
            ) by {
                lemma_least_step(o, n as nat, edges@, done@, indeg@, old_out, pick);
            }
        }
        done.set(pick, true);
        out.push(pick);
        let mut k: usize = 0;
        while k < m
            invariant
                m == edges@.len(),
                edges_below(edges@, n as nat),
                k <= m,
                pick < n,
                indeg@.len() == n,
                old_done.len() == n,
                done@ == old_done.update(pick as int, true),
                !old_done[pick as int],
                forall|v: int|
                    0 <= v < n ==> indeg@[v] + pending(edges@, old_done, v as usize, k as int)
                        == pending(edges@, done@, v as usize, k as int) + pending(
                        edges@,
                        old_done,
                        v as usize,
                        m as int,
                    ),
            decreases m - k,
        {
            let e = edges[k];
            proof {
                lemma_pending_mono(edges@, old_done, e.1, k as int + 1, m as int);
            }
            if e.0 == pick {
                indeg.set(e.1, indeg[e.1] - 1);
            }
            proof {
                assert forall|v: usize| v < n implies #[trigger] pending(edges@, old_done, v, k + 1)
                    == pending(edges@, old_done, v, k as int) + (if e.1 == v && !old_done[e.0 as int] {
                    1nat
                } else {
                    0nat
                }) && pending(edges@, done@, v, k + 1) == pending(edges@, done@, v, k as int) + (
                if e.1 == v && !done@[e.0 as int] {
                    1nat
                } else {
                    0nat
                }) by {}
            }
            k = k + 1;
        }
        proof {
            assert forall|v: int| 0 <= v < n implies (done@[v] <==> out@.contains(v as usize)) by {
                if v == pick as int {
                    assert(out@[out@.len() - 1] == pick);
                } else {
                    if out@.contains(v as usize) {
                        let i = choose|i: int| 0 <= i < out@.len() && out@[i] == v as usize;
                        assert(i < old_out.len());
                        assert(old_out.contains(v as usize));
                    }
                    if old_out.contains(v as usize) {
                        let i = choose|i: int| 0 <= i < old_out.len() && old_out[i] == v as usize;
                        assert(out@[i] == v as usize);
                    }
                }
            }
            assert forall|k: int, i: int, j: int|
                0 <= k < edges@.len() && 0 <= i < out@.len() && 0 <= j < out@.len() && out@[i]
                    == edges@[k].0 && out@[j] == edges@[k].1 implies i < j by {
                let last = old_out.len() as int;
                if j == last {
                    assert(old_done[edges@[k].0 as int]);
                    assert(old_out.contains(edges@[k].0));
                    if i == last {
                        assert(false);
                    }
                } else if i == last {
                    assert(old_out.contains(edges@[k].1));
                    assert(old_done[edges@[k].1 as int]);
                    assert(false);
                } else {
                    assert(old_out[i] == edges@[k].0 && old_out[j] == edges@[k].1);
                }
            }
        }
    }
    proof {
        assert forall|i: int| 0 <= i < out@.len() implies out@[i] < n by {}
        assert(is_index_order(out@, n as nat, edges@));
        assert forall|o: Seq<usize>| is_index_order(o, n as nat, edges@) implies lex_le(
            as_ints(out@),
            as_ints(o),
        ) by {
            assert(prefix_or_below(out@, o));
            if !exists|i: int| lex_below(as_ints(out@), as_ints(o), i) {
                assert(o.take(n as int) == out@);
                assert(o.take(n as int) =~= o);
                assert(as_ints(out@) == as_ints(o));
            }
        }
    }
    Ok(out)
}

/// `x` is an endpoint of some edge.
pub open spec fn is_graph_node(edges: Seq<(usize, usize)>, x: usize) -> bool {
    exists|k: int| 0 <= k < edges.len() && (edges[k].0 == x || edges[k].1 == x)
}

/// `order` lists every endpoint of `edges` once, every edge's source before its
/// destination.
pub open spec fn is_topological_order(order: Seq<usize>, edges: Seq<(usize, usize)>) -> bool {
    &&& order.no_duplicates()
    &&& forall|x: usize| order.contains(x) <==> is_graph_node(edges, x)
    &&& respects_edges(order, edges)
}

pub open spec fn position_of(order: Seq<usize>, x: usize) -> int {
    choose|i: int| 0 <= i < order.len() && order[i] == x
}

proof fn lemma_path_rises(order: Seq<usize>, edges: Seq<(usize, usize)>, path: Seq<usize>, t: int)
    requires
        is_topological_order(order, edges),
        is_cycle(edges, path),
        1 <= t < path.len(),
    ensures
        order.contains(path[0]),
        order.contains(path[t]),
        position_of(order, path[0]) < position_of(order, path[t]),
    decreases t,
{
    let k = choose|k: int| 0 <= k < edges.len() && edges[k] == (path[t - 1], path[t]);
    assert(has_edge(edges, path[t - 1], path[t - 1 + 1]));
    assert(is_graph_node(edges, path[t - 1]));
    assert(is_graph_node(edges, path[t]));
    let i = position_of(order, path[t - 1]);
    let j = position_of(order, path[t]);
    assert(order.contains(path[t - 1]));
    assert(order.contains(path[t]));
    assert(order[i] == edges[k].0 && order[j] == edges[k].1);
    if t > 1 {
        lemma_path_rises(order, edges, path, t - 1);
    }
}

/// A graph with a cycle has no topological order.
pub proof fn lemma_cycle_has_no_order(edges: Seq<(usize, usize)>, path: Seq<usize>, order: Seq<usize>)
    requires
        is_cycle(edges, path),
    ensures
        !is_topological_order(order, edges),
{
    if is_topological_order(order, edges) {
        lemma_path_rises(order, edges, path, path.len() - 1);
    }
}

/// The endpoints of `edges` in order of first appearance, each edge's source
/// before its destination.
pub open spec fn first_seen(edges: Seq<(usize, usize)>) -> Seq<usize>
    decreases edges.len(),
{
    if edges.len() == 0 {
        seq![]
    } else {
        let s = first_seen(edges.drop_last());
        let e = edges[edges.len() - 1];
        let s1 = if s.contains(e.0) {
            s
        } else {
            s.push(e.0)
        };
        if s1.contains(e.1) {
            s1
        } else {
            s1.push(e.1)
        }
    }
}

/// Each node of `o` replaced by its position in `nodes`.
pub open spec fn ranks(o: Seq<usize>, nodes: Seq<usize>) -> Seq<int> {
    o.map_values(|x: usize| position_of(nodes, x))
}

/// `o` is the topological order that, read as first-appearance ranks, comes
/// first lexicographically: whenever several nodes could come next, the one
/// seen first in `edges` does.
pub open spec fn is_least_topological(o: Seq<usize>, edges: Seq<(usize, usize)>) -> bool {
    &&& is_topological_order(o, edges)
    &&& forall|p: Seq<usize>|
        is_topological_order(p, edges) ==> lex_le(
            ranks(o, first_seen(edges)),
            ranks(p, first_seen(edges)),
        )
}

proof fn lemma_position_unique(nodes: Seq<usize>, k: int)
    requires
        nodes.no_duplicates(),
        0 <= k < nodes.len(),
    ensures
        position_of(nodes, nodes[k]) == k,
{
    let q = position_of(nodes, nodes[k]);
    assert(0 <= q < nodes.len() && nodes[q] == nodes[k]);
}

proof fn lemma_lex_antisymmetric(a: Seq<int>, b: Seq<int>)
    requires
        lex_le(a, b),
        lex_le(b, a),
    ensures
        a == b,
{
    if a != b {
        let i = choose|i: int| lex_below(a, b, i);
        let j = choose|j: int| lex_below(b, a, j);
        if i < j {
            assert(b.take(j)[i] == a.take(j)[i]);
        } else if j < i {
            assert(a.take(i)[j] == b.take(i)[j]);
        }
    }
}

/// The least topological order is unique: an ordering that always returns it
/// returns the same order for the same edges.
pub proof fn lemma_least_order_unique(edges: Seq<(usize, usize)>, a: Seq<usize>, b: Seq<usize>)
    requires
        is_least_topological(a, edges),
        is_least_topological(b, edges),
    ensures
        a == b,
{
    let nodes = first_seen(edges);
    lemma_lex_antisymmetric(ranks(a, nodes), ranks(b, nodes));
    assert(a.len() == b.len()) by {
        assert(ranks(a, nodes).len() == ranks(b, nodes).len());
    }
    assert forall|i: int| 0 <= i < a.len() implies a[i] == b[i] by {
        assert(a.contains(a[i]));
        assert(b.contains(b[i]));
        lemma_first_seen_covers(edges, a[i]);
        lemma_first_seen_covers(edges, b[i]);
        assert(ranks(a, nodes)[i] == ranks(b, nodes)[i]);
    }
    assert(a =~= b);
}

/// Every endpoint of `edges` occurs in `first_seen(edges)`.
proof fn lemma_first_seen_covers(edges: Seq<(usize, usize)>, y: usize)
    requires
        is_graph_node(edges, y),
    ensures
        first_seen(edges).contains(y),
    decreases edges.len(),
{
    let init = edges.drop_last();
    let s = first_seen(init);
    let e = edges[edges.len() - 1];
    let s1 = if s.contains(e.0) {
        s
    } else {
        s.push(e.0)
    };
    let s2 = first_seen(edges);
    assert(s2 == (if s1.contains(e.1) {
        s1
    } else {
        s1.push(e.1)
    }));
    let k = choose|k: int| 0 <= k < edges.len() && (edges[k].0 == y || edges[k].1 == y);
    let w: int = if k < edges.len() - 1 {
        assert(init[k] == edges[k]);
        assert(is_graph_node(init, y));
        lemma_first_seen_covers(init, y);
        choose|w: int| 0 <= w < s.len() && s[w] == y
    } else if y == e.0 && !s.contains(e.0) {
        s.len() as int
    } else if y == e.0 {
        choose|w: int| 0 <= w < s.len() && s[w] == y
    } else if !s1.contains(e.1) {
        s1.len() as int
    } else {
        choose|w: int| 0 <= w < s1.len() && s1[w] == y
    };
    assert(0 <= w < s2.len() && s2[w] == y);
}

/// Position of `x` in `nodes`, appending it when absent.
fn node_index(nodes: &mut Vec<usize>, x: usize) -> (i: usize)
    requires
        old(nodes)@.no_duplicates(),
    ensures
        final(nodes)@ == (if old(nodes)@.contains(x) {
            old(nodes)@
        } else {
            old(nodes)@.push(x)
        }),
        final(nodes)@.no_duplicates(),
        i < final(nodes)@.len(),
        final(nodes)@[i as int] == x,
{
    let mut j: usize = 0;
    while j < nodes.len()
        invariant
            j <= nodes@.len(),
            nodes@ == old(nodes)@,
            old(nodes)@.no_duplicates(),
            forall|q: int| 0 <= q < j ==> nodes@[q] != x,
        decreases nodes@.len() - j,
    {
        if nodes[j] == x {
            return j;
        }
        j = j + 1;
    }
    proof {
        assert(!old(nodes)@.contains(x));
    }
    nodes.push(x);
    proof {
        assert forall|p: int, q: int| 0 <= p < nodes@.len() && 0 <= q < nodes@.len() && p != q
            implies nodes@[p] != nodes@[q] by {
            if q == nodes@.len() - 1 {
                assert(old(nodes)@[p] == nodes@[p]);
            }
            if p == nodes@.len() - 1 {
                assert(old(nodes)@[q] == nodes@[q]);
            }
        }
    }
    j
}

/// Numbers the endpoints of `edges` in order of first appearance and
/// rewrites every edge over those numbers.
fn number_nodes(edges: &Vec<(usize, usize)>) -> (r: (Vec<usize>, Vec<(usize, usize)>))
    ensures
        r.0@.no_duplicates(),
        r.0@ == first_seen(edges@),
        r.1@.len() == edges@.len(),
        forall|y: usize| r.0@.contains(y) <==> is_graph_node(edges@, y),
        forall|j: int| 0 <= j < edges@.len() ==> #[trigger] numbered(r.0@, r.1@, edges@, j),
{
    let m = edges.len();
    let mut nodes: Vec<usize> = Vec::new();
    let mut index_edges: Vec<(usize, usize)> = Vec::new();
    for k in 0..m
        invariant
            m == edges@.len(),
            nodes@.no_duplicates(),
            nodes@ == first_seen(edges@.take(k as int)),
            index_edges@.len() == k,
            forall|y: usize| nodes@.contains(y) <==> is_graph_node(edges@.take(k as int), y),
            forall|j: int| 0 <= j < k ==> #[trigger] numbered(nodes@, index_edges@, edges@, j),
    {
        let (a, b) = edges[k];
        let ghost before = nodes@;
        let ghost before_edges = index_edges@;
        let ia = node_index(&mut nodes, a);
        let ghost mid = nodes@;
        let ib = node_index(&mut nodes, b);
        index_edges.push((ia, ib));
        proof {
            assert(edges@.take(k + 1).drop_last() =~= edges@.take(k as int));
            assert(edges@.take(k + 1)[k as int] == (a, b));
            assert(before.len() <= nodes@.len());
            assert(forall|q: int| 0 <= q < before.len() ==> nodes@[q] == before[q]);
            assert(nodes@[ia as int] == mid[ia as int]);
            assert forall|j: int| 0 <= j < k + 1 implies #[trigger] numbered(nodes@, index_edges@, edges@, j) by {
                if j < k {
                    assert(index_edges@[j] == before_edges[j]);
                    assert(numbered(before, before_edges, edges@, j));
                } else {
                    assert(index_edges@[j] == (ia, ib));
                }
            }
            assert forall|y: usize| nodes@.contains(y) <==> is_graph_node(edges@.take(k + 1), y) by {
                let t1 = edges@.take(k + 1);
                let t0 = edges@.take(k as int);
                if is_graph_node(t1, y) {
                    let q = choose|q: int| 0 <= q < t1.len() && (t1[q].0 == y || t1[q].1 == y);
                    if q < k {
                        assert(t0[q] == t1[q]);
                        assert(is_graph_node(t0, y));
                        assert(before.contains(y));
                        let w = choose|w: int| 0 <= w < before.len() && before[w] == y;
                        assert(nodes@[w] == y);
                    } else {
                        assert(t1[q] == (a, b));
                    }
                }
                if nodes@.contains(y) {
                    if y != a && y != b {
                        let w = choose|w: int| 0 <= w < nodes@.len() && nodes@[w] == y;
                        assert(w < before.len());
                        assert(before.contains(y));
                        let q = choose|q: int| 0 <= q < t0.len() && (t0[q].0 == y || t0[q].1 == y);
                        assert(t1[q] == t0[q]);
                    } else {
                        assert(t1[k as int] == (a, b));
                    }
                }
            }
        }
    }
    proof {
        assert(edges@.take(m as int) =~= edges@);
    }
    (nodes, index_edges)
}

/// The nodes that the numbers of `ix` stand for.
fn name_nodes(nodes: &Vec<usize>, ix: &Vec<usize>) -> (r: Vec<usize>)
    requires
        forall|i: int| 0 <= i < ix@.len() ==> ix@[i] < nodes@.len(),
    ensures
        r@ == ix@.map_values(|q: usize| nodes@[q as int]),
{
    let mut out: Vec<usize> = Vec::new();
    for i in 0..ix.len()
        invariant
            forall|i: int| 0 <= i < ix@.len() ==> ix@[i] < nodes@.len(),
            out@ == ix@.take(i as int).map_values(|q: usize| nodes@[q as int]),
    {
        out.push(nodes[ix[i]]);
        proof {
            assert(ix@.take(i + 1).map_values(|q: usize| nodes@[q as int]) =~= out@);
        }
    }
    proof {
        assert(ix@.take(ix@.len() as int) =~= ix@);
    }
    out
}

/// Orders the endpoints of `edges` so that every edge's source precedes its
/// destination. Nodes are ranked by where they first occur in `edges`
/// (source before destination); whenever several nodes are ready, the one
/// seen first goes first, so equal inputs always give equal orders.
pub fn topo_sort(edges: &Vec<(usize, usize)>) -> (r: Result<Vec<usize>, TopologicalSortError>)
    ensures
        r is Ok ==> is_topological_order(r->Ok_0@, edges@),
        r is Err <==> !exists|o: Seq<usize>| is_topological_order(o, edges@),
        r is Err <==> r == Err::<Vec<usize>, _>(TopologicalSortError::CycleDetected),
        r is Err <==> has_cycle(edges@),
        r matches Ok(v) ==> is_least_topological(v@, edges@),
{
    let (nodes, index_edges) = number_nodes(edges);
    let n = nodes.len();
    proof {
        lemma_orders_correspond(edges@, nodes@, index_edges@);
    }
    let r = order_indices(n, &index_edges);
    proof {
        if r is Err {
            let path = choose|path: Seq<usize>| is_cycle(index_edges@, path);
            lemma_cycle_through_numbering(edges@, nodes@, index_edges@, path);
        }
        if has_cycle(edges@) {
            let path = choose|path: Seq<usize>| is_cycle(edges@, path);
            assert forall|o: Seq<usize>| !is_topological_order(o, edges@) by {
                lemma_cycle_has_no_order(edges@, path, o);
            }
        }
    }
    match r {
        Err(e) => Err(e),
        Ok(ix) => {
            let out = name_nodes(&nodes, &ix);
            proof {
                lemma_lift_least(edges@, nodes@, index_edges@, ix@);
            }
            Ok(out)
        },
    }
}

/// Edge `j` of `index_edges` numbers the ends of edge `j` of `edges`.
spec fn numbered(
    nodes: Seq<usize>,
    index_edges: Seq<(usize, usize)>,
    edges: Seq<(usize, usize)>,
    j: int,
) -> bool {
    &&& index_edges[j].0 < nodes.len()
    &&& index_edges[j].1 < nodes.len()
    &&& nodes[index_edges[j].0 as int] == edges[j].0
    &&& nodes[index_edges[j].1 as int] == edges[j].1
}

/// A cycle among node numbers is a cycle among the nodes they number.
proof fn lemma_cycle_through_numbering(
    edges: Seq<(usize, usize)>,
    nodes: Seq<usize>,
    index_edges: Seq<(usize, usize)>,
    path: Seq<usize>,
)
    requires
        index_edges.len() == edges.len(),
        forall|j: int| 0 <= j < edges.len() ==> #[trigger] numbered(nodes, index_edges, edges, j),
        is_cycle(index_edges, path),
    ensures
        has_cycle(edges),
{
    assert forall|i: int| 0 <= i < path.len() - 1 implies path[i] < nodes.len() && path[i + 1] < nodes.len()
        && has_edge(edges, nodes[path[i] as int], nodes[#[trigger] path[i + 1] as int]) by {
        assert(has_edge(index_edges, path[i], path[i + 1]));
        let k = choose|k: int| 0 <= k < index_edges.len() && index_edges[k] == (path[i], path[i + 1]);
        assert(numbered(nodes, index_edges, edges, k));
        assert(edges[k] == (nodes[path[i] as int], nodes[path[i + 1] as int]));
    }
    let vpath = Seq::new(path.len(), |t: int| nodes[path[t] as int]);
    assert forall|i: int| 0 <= i < vpath.len() - 1 implies has_edge(edges, vpath[i], #[trigger] vpath[i + 1]) by {
        assert(has_edge(edges, nodes[path[i] as int], nodes[path[i + 1] as int]));
    }
    assert(vpath[0] == vpath[vpath.len() - 1]);
    assert(is_cycle(edges, vpath));
}

/// Each node of `o` replaced by its position in `nodes`, as a machine index.
pub open spec fn index_ranks(o: Seq<usize>, nodes: Seq<usize>) -> Seq<usize> {
    o.map_values(|x: usize| position_of(nodes, x) as usize)
}

/// The least index order, read through the numbering, is the least
/// topological order.
proof fn lemma_lift_least(
    edges: Seq<(usize, usize)>,
    nodes: Seq<usize>,
    index_edges: Seq<(usize, usize)>,
    ix: Seq<usize>,
)
    requires
        nodes == first_seen(edges),
        nodes.no_duplicates(),
        is_index_order(ix, nodes.len(), index_edges),
        is_topological_order(ix.map_values(|q: usize| nodes[q as int]), edges),
        forall|o: Seq<usize>| is_index_order(o, nodes.len(), index_edges) ==> lex_le(as_ints(ix), as_ints(o)),
        forall|o: Seq<usize>|
            is_topological_order(o, edges) ==> is_index_order(index_ranks(o, nodes), nodes.len(), index_edges)
                && as_ints(index_ranks(o, nodes)) == ranks(o, nodes),
    ensures
        is_least_topological(ix.map_values(|q: usize| nodes[q as int]), edges),
{
    let out = ix.map_values(|q: usize| nodes[q as int]);
    assert(ranks(out, nodes) =~= as_ints(ix)) by {
        assert forall|i: int| 0 <= i < ix.len() implies position_of(nodes, nodes[ix[i] as int]) == ix[i] as int by {
            lemma_position_unique(nodes, ix[i] as int);
        }
    }
    assert forall|p: Seq<usize>| is_topological_order(p, edges) implies lex_le(
        ranks(out, first_seen(edges)),
        ranks(p, first_seen(edges)),
    ) by {
        assert(is_index_order(index_ranks(p, nodes), nodes.len(), index_edges));
    }
}

/// Index orders over the numbered nodes and value orders over the endpoints
/// stand in one-to-one correspondence.
proof fn lemma_orders_correspond(
    edges: Seq<(usize, usize)>,
    nodes: Seq<usize>,
    index_edges: Seq<(usize, usize)>,
)
    requires
        nodes.no_duplicates(),
        nodes.len() <= usize::MAX,
        index_edges.len() == edges.len(),
        forall|y: usize| nodes.contains(y) <==> is_graph_node(edges, y),
        forall|j: int| 0 <= j < edges.len() ==> #[trigger] numbered(nodes, index_edges, edges, j),
    ensures
        edges_below(index_edges, nodes.len()),
        forall|ix: Seq<usize>|
            is_index_order(ix, nodes.len(), index_edges) ==> is_topological_order(
                ix.map_values(|q: usize| nodes[q as int]),
                edges,
            ),
        forall|o: Seq<usize>|
            is_topological_order(o, edges) ==> is_index_order(index_ranks(o, nodes), nodes.len(), index_edges)
                && as_ints(index_ranks(o, nodes)) == ranks(o, nodes),
        (exists|o: Seq<usize>| is_topological_order(o, edges)) ==> exists|ix: Seq<usize>|
            is_index_order(ix, nodes.len(), index_edges),
{
    let n = nodes.len();
    assert forall|k: int| 0 <= k < index_edges.len() implies index_edges[k].0 < n
        && index_edges[k].1 < n by {
        assert(numbered(nodes, index_edges, edges, k));
    }
    assert forall|ix: Seq<usize>| is_index_order(ix, n, index_edges) implies is_topological_order(
        ix.map_values(|q: usize| nodes[q as int]),
        edges,
    ) by {
        let o = ix.map_values(|q: usize| nodes[q as int]);
        assert forall|i: int, j: int| 0 <= i < o.len() && 0 <= j < o.len() && i != j implies o[i]
            != o[j] by {
            assert(ix[i] != ix[j]);
        }
        assert forall|x: usize| o.contains(x) <==> is_graph_node(edges, x) by {
            if o.contains(x) {
                let i = choose|i: int| 0 <= i < o.len() && o[i] == x;
                assert(o[i] == nodes[ix[i] as int]);
                assert(nodes.contains(x));
            }
            if is_graph_node(edges, x) {
                assert(nodes.contains(x));
                let w = choose|w: int| 0 <= w < n && nodes[w] == x;
                lemma_node_order_covers(ix, n, w as usize);
                let q = choose|q: int| 0 <= q < ix.len() && ix[q] == w as usize;
                assert(o[q] == nodes[ix[q] as int]);
            }
        }
        assert forall|k: int, i: int, j: int|
            0 <= k < edges.len() && 0 <= i < o.len() && 0 <= j < o.len() && o[i] == edges[k].0
                && o[j] == edges[k].1 implies i < j by {
            assert(numbered(nodes, index_edges, edges, k));
            assert(ix[i] == index_edges[k].0);
            assert(ix[j] == index_edges[k].1);
        }
    }
    assert forall|o: Seq<usize>| is_topological_order(o, edges) implies is_index_order(
        index_ranks(o, nodes),
        n,
        index_edges,
    ) && as_ints(index_ranks(o, nodes)) == ranks(o, nodes) by {
        let ix = index_ranks(o, nodes);
        assert forall|i: int| 0 <= i < o.len() implies nodes.contains(o[i]) && 0 <= position_of(nodes, o[i]) < n
            && nodes[position_of(nodes, o[i])] == o[i] by {
            assert(o.contains(o[i]));
        }
        assert forall|i: int, j: int| 0 <= i < ix.len() && 0 <= j < ix.len() && i != j implies ix[i]
            != ix[j] by {
            assert(o[i] != o[j]);
            assert(o.contains(o[i]));
            assert(o.contains(o[j]));
            assert(nodes[position_of(nodes, o[i])] == o[i]);
            assert(nodes[position_of(nodes, o[j])] == o[j]);
        }
        assert(ix.len() == n) by {
            o.unique_seq_to_set();
            nodes.unique_seq_to_set();
            assert(o.to_set() =~= nodes.to_set());
        }
        assert forall|k: int, i: int, j: int|
            0 <= k < index_edges.len() && 0 <= i < ix.len() && 0 <= j < ix.len() && ix[i]
                == index_edges[k].0 && ix[j] == index_edges[k].1 implies i < j by {
            assert(numbered(nodes, index_edges, edges, k));
            assert(o[i] == edges[k].0);
            assert(o[j] == edges[k].1);
        }
        assert(is_index_order(ix, n, index_edges));
        assert(as_ints(ix) =~= ranks(o, nodes));
    }
    if exists|o: Seq<usize>| is_topological_order(o, edges) {
        let o = choose|o: Seq<usize>| is_topological_order(o, edges);
        assert(is_index_order(index_ranks(o, nodes), n, index_edges));
    }
}

} // verus!
