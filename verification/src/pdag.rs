//! Extension of a partially directed graph by repeatedly removing a sink
//! whose undirected neighbours are adjacent to all its other neighbours,
//! directing every remaining edge at it.
use vstd::prelude::*;
use crate::mixed_graph::{contains_usize, rows};
use crate::strings::no_dups;
use crate::resolve::copy_ids;

verus! {

// ---------------------------------------------------------------------------
// The state of the extension.
// ---------------------------------------------------------------------------

/// The neighbours in `s`, each once, in order of first occurrence.
pub open spec fn dedup(s: Seq<usize>) -> Seq<usize>
    decreases s.len(),
{
    if s.len() == 0 {
        Seq::empty()
    } else {
        let d = dedup(s.drop_last());
        if d.contains(s.last()) {
            d
        } else {
            d.push(s.last())
        }
    }
}

/// `s` without `c`.
pub open spec fn without(s: Seq<usize>, c: usize) -> Seq<usize>
    decreases s.len(),
{
    if s.len() == 0 {
        Seq::empty()
    } else {
        let w = without(s.drop_last(), c);
        if s.last() == c {
            w
        } else {
            w.push(s.last())
        }
    }
}

/// Edge `i` is undirected and joins `u` and `v`.
pub open spec fn undirected_edge(edges: Seq<(usize, usize)>, pdag: Seq<usize>, i: int, u: usize, v: usize) -> bool {
    pdag[i] == 0 && (edges[i] == (u, v) || edges[i] == (v, u))
}

/// Some undirected edge joins `u` and `v`.
pub open spec fn undirected(edges: Seq<(usize, usize)>, pdag: Seq<usize>, u: usize, v: usize) -> bool {
    exists|i: int| 0 <= i < edges.len() && #[trigger] undirected_edge(edges, pdag, i, u, v)
}

/// How many of the first `k` edges are arcs leaving `v`: an edge `(l, r)`
/// marked `1` leaves `r`, one marked neither `0` nor `1` leaves `l`.
pub open spec fn out_count(edges: Seq<(usize, usize)>, pdag: Seq<usize>, v: usize, k: int) -> nat
    decreases k,
{
    if k <= 0 {
        0
    } else {
        out_count(edges, pdag, v, k - 1) + if (pdag[k - 1] == 1 && edges[k - 1].1 == v) || (pdag[k - 1] != 0
            && pdag[k - 1] != 1 && edges[k - 1].0 == v) {
            1nat
        } else {
            0nat
        }
    }
}

/// Edge `i` is an arc of the partially directed graph leaving `v`: marked `1`
/// it runs from its second end to its first, marked neither `0` nor `1` from
/// its first end to its second.
pub open spec fn arc_leaves(edges: Seq<(usize, usize)>, pdag: Seq<usize>, i: int, v: usize) -> bool {
    (pdag[i] == 1 && edges[i].1 == v) || (pdag[i] != 0 && pdag[i] != 1 && edges[i].0 == v)
}

/// The edges among the first `k` that are arcs leaving `v`.
pub open spec fn leaving(edges: Seq<(usize, usize)>, pdag: Seq<usize>, v: usize, k: int) -> Set<int> {
    Set::new(|i: int| 0 <= i < k && arc_leaves(edges, pdag, i, v))
}

proof fn lemma_out_count(edges: Seq<(usize, usize)>, pdag: Seq<usize>, v: usize, k: int)
    requires
        0 <= k,
    ensures
        leaving(edges, pdag, v, k).finite(),
        out_count(edges, pdag, v, k) == leaving(edges, pdag, v, k).len(),
    decreases k,
{
    if k == 0 {
        assert(leaving(edges, pdag, v, 0) =~= Set::<int>::empty());
    } else {
        lemma_out_count(edges, pdag, v, k - 1);
        let prev = leaving(edges, pdag, v, k - 1);
        if arc_leaves(edges, pdag, k - 1, v) {
            assert(leaving(edges, pdag, v, k) =~= prev.insert(k - 1));
            assert(!prev.contains(k - 1));
        } else {
            assert(leaving(edges, pdag, v, k) =~= prev);
        }
    }
}

/// Before anything is removed, the out-degree of a vertex is the number of
/// arcs of the partially directed graph that leave it.
pub proof fn law_initial_out_degree(adj: Seq<Seq<usize>>, edges: Seq<(usize, usize)>, pdag: Seq<usize>, v: usize)
    requires
        v < adj.len(),
    ensures
        leaving(edges, pdag, v, edges.len() as int).finite(),
        initial_extension(adj, edges, pdag).outd[v as int] == leaving(edges, pdag, v, edges.len() as int).len(),
{
    lemma_out_count(edges, pdag, v, edges.len() as int);
}

/// A vertex that an arc of the partially directed graph leaves is no sink:
/// it cannot be the first vertex removed.
pub proof fn law_first_sink_has_no_leaving_arc(adj: Seq<Seq<usize>>, edges: Seq<(usize, usize)>, pdag: Seq<usize>, v: usize, i: int)
    requires
        v < adj.len(),
        0 <= i < edges.len(),
        arc_leaves(edges, pdag, i, v),
    ensures
        !removable(edges, pdag, initial_extension(adj, edges, pdag), v),
{
    law_initial_out_degree(adj, edges, pdag, v);
    assert(leaving(edges, pdag, v, edges.len() as int).contains(i));
}

/// The state of the extension: which vertices remain, the remaining
/// neighbours of each vertex (in order, each once), the out-degree of each
/// vertex and the arcs given so far.
pub struct Extension {
    pub remaining: Seq<bool>,
    pub rem: Seq<Seq<usize>>,
    pub outd: Seq<nat>,
    pub arcs: Seq<(usize, usize)>,
}

/// The state before any vertex is removed.
pub open spec fn initial_extension(adj: Seq<Seq<usize>>, edges: Seq<(usize, usize)>, pdag: Seq<usize>) -> Extension {
    Extension {
        remaining: Seq::new(adj.len(), |v: int| true),
        rem: Seq::new(adj.len(), |v: int| dedup(adj[v])),
        outd: Seq::new(adj.len(), |v: int| out_count(edges, pdag, v as usize, edges.len() as int)),
        arcs: Seq::empty(),
    }
}

/// Vertex `v` may be removed: it remains, is a sink, and each remaining
/// vertex joined to it by an undirected edge is adjacent to all its other
/// remaining neighbours.
pub open spec fn removable(edges: Seq<(usize, usize)>, pdag: Seq<usize>, st: Extension, v: usize) -> bool {
    &&& v < st.remaining.len()
    &&& st.remaining[v as int]
    &&& st.outd[v as int] == 0
    &&& forall|u: usize|
        #[trigger] undirected(edges, pdag, u, v) && u < st.remaining.len() && st.remaining[u as int] ==> forall|x: usize|
            st.rem[v as int].contains(x) && x != u ==> #[trigger] st.rem[u as int].contains(x)
}

/// The least removable vertex below `k`.
pub open spec fn least_removable(edges: Seq<(usize, usize)>, pdag: Seq<usize>, st: Extension, k: int) -> Option<usize>
    decreases k,
{
    if k <= 0 {
        None
    } else {
        match least_removable(edges, pdag, st, k - 1) {
            Some(v) => Some(v),
            None => if removable(edges, pdag, st, (k - 1) as usize) {
                Some((k - 1) as usize)
            } else {
                None
            },
        }
    }
}

/// The state once `c` is removed: every remaining neighbour `u` of `c`, in
/// order, loses `c` as a neighbour and one from its out-degree, and gets the
/// arc `(u, c)`.
pub open spec fn remove_vertex(st: Extension, c: usize) -> Extension {
    let ns = st.rem[c as int];
    Extension {
        remaining: st.remaining.update(c as int, false),
        rem: Seq::new(
            st.rem.len(),
            |u: int| if ns.contains(u as usize) { without(st.rem[u], c) } else { st.rem[u] },
        ),
        outd: Seq::new(
            st.outd.len(),
            |u: int| if ns.contains(u as usize) && st.outd[u] > 0 { (st.outd[u] - 1) as nat } else { st.outd[u] },
        ),
        arcs: st.arcs + ns.map_values(|u: usize| (u, c)),
    }
}

/// The arcs once `k` more vertices are removed, least removable first;
/// `None` when at some point none is removable.
pub open spec fn extend(edges: Seq<(usize, usize)>, pdag: Seq<usize>, st: Extension, k: nat) -> Option<Seq<(usize, usize)>>
    decreases k,
{
    if k == 0 {
        Some(st.arcs)
    } else {
        match least_removable(edges, pdag, st, st.remaining.len() as int) {
            Some(c) => extend(edges, pdag, remove_vertex(st, c), (k - 1) as nat),
            None => None,
        }
    }
}

// ---------------------------------------------------------------------------
// Lists of neighbours.
// ---------------------------------------------------------------------------

pub(crate) proof fn lemma_dedup(s: Seq<usize>)
    ensures
        no_dups(dedup(s)),
        forall|x: usize| #[trigger] dedup(s).contains(x) == s.contains(x),
    decreases s.len(),
{
    broadcast use vstd::seq_lib::lemma_seq_contains_after_push;
    if s.len() > 0 {
        let t = s.drop_last();
        lemma_dedup(t);
        assert(s =~= t.push(s.last()));
        let d = dedup(t);
        if !d.contains(s.last()) {
            assert forall|i: int, j: int| 0 <= i < j < d.push(s.last()).len() implies d.push(s.last())[i] != d.push(s.last())[j] by {
                if j == d.len() {
                    assert(d[i] == d.push(s.last())[i]);
                    assert(d.contains(d[i]));
                }
            }
        }
    }
}

proof fn lemma_without(s: Seq<usize>, c: usize)
    ensures
        no_dups(s) ==> no_dups(without(s, c)),
        forall|x: usize| #[trigger] without(s, c).contains(x) == (s.contains(x) && x != c),
    decreases s.len(),
{
    broadcast use vstd::seq_lib::lemma_seq_contains_after_push;
    if s.len() > 0 {
        let t = s.drop_last();
        lemma_without(t, c);
        assert(s =~= t.push(s.last()));
        let w = without(t, c);
        if no_dups(s) {
            assert(no_dups(t)) by {
                assert forall|i: int, j: int| 0 <= i < j < t.len() implies t[i] != t[j] by {
                    assert(s[i] == t[i] && s[j] == t[j]);
                }
            }
            if s.last() != c {
                assert(!t.contains(s.last())) by {
                    if t.contains(s.last()) {
                        let i = t.index_of(s.last());
                        assert(s[i] == s[s.len() - 1]);
                    }
                }
                assert(!w.contains(s.last()));
                assert forall|i: int, j: int| 0 <= i < j < w.push(s.last()).len() implies w.push(s.last())[i] != w.push(s.last())[j] by {
                    if j == w.len() {
                        assert(w[i] == w.push(s.last())[i]);
                        assert(w.contains(w[i]));
                    }
                }
            }
        }
    }
}

/// See [`dedup`].
pub(crate) fn dedup_list(s: &Vec<usize>) -> (r: Vec<usize>)
    ensures
        r@ == dedup(s@),
{
    let mut r: Vec<usize> = Vec::new();
    let mut i: usize = 0;
    while i < s.len()
        invariant
            i <= s@.len(),
            r@ == dedup(s@.take(i as int)),
        decreases s@.len() - i,
    {
        assert(s@.take(i + 1).drop_last() =~= s@.take(i as int));
        assert(s@.take(i + 1).last() == s@[i as int]);
        if !contains_usize(&r, s[i]) {
            r.push(s[i]);
        }
        i = i + 1;
    }
    assert(s@.take(s@.len() as int) =~= s@);
    r
}

/// See [`without`].
fn without_list(s: &Vec<usize>, c: usize) -> (r: Vec<usize>)
    ensures
        r@ == without(s@, c),
{
    let mut r: Vec<usize> = Vec::new();
    let mut i: usize = 0;
    while i < s.len()
        invariant
            i <= s@.len(),
            r@ == without(s@.take(i as int), c),
        decreases s@.len() - i,
    {
        assert(s@.take(i + 1).drop_last() =~= s@.take(i as int));
        assert(s@.take(i + 1).last() == s@[i as int]);
        if s[i] != c {
            r.push(s[i]);
        }
        i = i + 1;
    }
    assert(s@.take(s@.len() as int) =~= s@);
    r
}

// ---------------------------------------------------------------------------
// The extension.
// ---------------------------------------------------------------------------

/// The state held in vectors, as an [`Extension`].
pub open spec fn state_view(remaining: Seq<bool>, rem: Seq<Vec<usize>>, outd: Seq<usize>, arcs: Seq<(usize, usize)>) -> Extension {
    Extension { remaining, rem: rows(rem), outd: outd.map_values(|d: usize| d as nat), arcs }
}

/// The vertices joined to each vertex by an undirected edge.
fn undirected_lists(n: usize, edges: &Vec<(usize, usize)>, pdag: &Vec<usize>) -> (r: Vec<Vec<usize>>)
    requires
        pdag@.len() >= edges@.len(),
        forall|i: int| 0 <= i < edges@.len() ==> (#[trigger] edges@[i]).0 < n && edges@[i].1 < n,
    ensures
        r@.len() == n,
        forall|v: int, u: usize| 0 <= v < n ==> #[trigger] r@[v]@.contains(u) == undirected(edges@, pdag@, u, v as usize),
{
    let mut r: Vec<Vec<usize>> = Vec::new();
    let mut v: usize = 0;
    while v < n
        invariant
            v <= n,
            r@.len() == v,
            forall|w: int| 0 <= w < v ==> (#[trigger] r@[w])@.len() == 0,
        decreases n - v,
    {
        r.push(Vec::new());
        v = v + 1;
    }
    let mut i: usize = 0;
    while i < edges.len()
        invariant
            pdag@.len() >= edges@.len(),
            forall|i2: int| 0 <= i2 < edges@.len() ==> (#[trigger] edges@[i2]).0 < n && edges@[i2].1 < n,
            i <= edges@.len(),
            r@.len() == n,
            forall|w: int, u: usize| 0 <= w < n ==> #[trigger] r@[w]@.contains(u) == exists|i2: int|
                0 <= i2 < i && #[trigger] undirected_edge(edges@, pdag@, i2, u, w as usize),
        decreases edges@.len() - i,
    {
        let (l, rr) = edges[i];
        if pdag[i] == 0 {
            let ghost r0 = r@;
            r[rr].push(l);
            let ghost r1 = r@;
            r[l].push(rr);
            proof {
                broadcast use vstd::seq_lib::lemma_seq_contains_after_push;
                assert forall|w: int, u: usize| 0 <= w < n implies #[trigger] r@[w]@.contains(u) == exists|i2: int|
                    0 <= i2 < i + 1 && #[trigger] undirected_edge(edges@, pdag@, i2, u, w as usize) by {
                    let old_has = exists|i2: int| 0 <= i2 < i && #[trigger] undirected_edge(edges@, pdag@, i2, u, w as usize);
                    assert(r0[w]@.contains(u) == old_has);
                    if undirected_edge(edges@, pdag@, i as int, u, w as usize) {
                        assert(u == l && w == rr || u == rr && w == l);
                    }
                    if r@[w]@.contains(u) && !old_has {
                        assert((u == l && w == rr as int) || (u == rr && w == l as int));
                        assert(undirected_edge(edges@, pdag@, i as int, u, w as usize));
                    }
                }
            }
        } else {
            proof {
                assert forall|w: int, u: usize| 0 <= w < n implies #[trigger] r@[w]@.contains(u) == exists|i2: int|
                    0 <= i2 < i + 1 && #[trigger] undirected_edge(edges@, pdag@, i2, u, w as usize) by {
                    assert(!undirected_edge(edges@, pdag@, i as int, u, w as usize));
                }
            }
        }
        i = i + 1;
    }
    r
}

/// The out-degree of every vertex (see [`out_count`]).
fn out_degrees(n: usize, edges: &Vec<(usize, usize)>, pdag: &Vec<usize>) -> (r: Vec<usize>)
    requires
        pdag@.len() >= edges@.len(),
        forall|i: int| 0 <= i < edges@.len() ==> (#[trigger] edges@[i]).0 < n && edges@[i].1 < n,
    ensures
        r@.len() == n,
        forall|v: int| 0 <= v < n ==> #[trigger] r@[v] == out_count(edges@, pdag@, v as usize, edges@.len() as int),
{
    let mut r: Vec<usize> = Vec::new();
    let mut v: usize = 0;
    while v < n
        invariant
            v <= n,
            r@.len() == v,
            forall|w: int| 0 <= w < v ==> #[trigger] r@[w] == 0,
        decreases n - v,
    {
        r.push(0);
        v = v + 1;
    }
    let mut i: usize = 0;
    while i < edges.len()
        invariant
            pdag@.len() >= edges@.len(),
            forall|i2: int| 0 <= i2 < edges@.len() ==> (#[trigger] edges@[i2]).0 < n && edges@[i2].1 < n,
            i <= edges@.len(),
            r@.len() == n,
            forall|w: int| 0 <= w < n ==> #[trigger] r@[w] == out_count(edges@, pdag@, w as usize, i as int),
            forall|w: int| 0 <= w < n ==> #[trigger] r@[w] <= i,
        decreases edges@.len() - i,
    {
        let (l, rr) = edges[i];
        if pdag[i] == 1 {
            r.set(rr, r[rr] + 1);
        } else if pdag[i] != 0 {
            r.set(l, r[l] + 1);
        }
        i = i + 1;
    }
    r
}

/// See [`removable`].
fn is_removable(
    edges: Ghost<Seq<(usize, usize)>>,
    pdag: Ghost<Seq<usize>>,
    und: &Vec<Vec<usize>>,
    remaining: &Vec<bool>,
    rem: &Vec<Vec<usize>>,
    outd: &Vec<usize>,
    v: usize,
) -> (r: bool)
    requires
        v < remaining@.len(),
        und@.len() == remaining@.len(),
        rem@.len() == remaining@.len(),
        outd@.len() == remaining@.len(),
        forall|w: int, u: usize| 0 <= w < remaining@.len() ==> #[trigger] und@[w]@.contains(u) == undirected(edges@, pdag@, u, w as usize),
    ensures
        r == removable(edges@, pdag@, state_view(remaining@, rem@, outd@, Seq::empty()), v),
{
    let ghost st = state_view(remaining@, rem@, outd@, Seq::empty());
    let n = remaining.len();
    assert(st.rem[v as int] == rem@[v as int]@);
    if !remaining[v] || outd[v] != 0 {
        return false;
    }
    let us = &und[v];
    let mut k: usize = 0;
    while k < us.len()
        invariant
            n == remaining@.len(),
            v < n,
            st == state_view(remaining@, rem@, outd@, Seq::empty()),
            rem@.len() == n,
            und@.len() == n,
            outd@.len() == n,
            remaining@[v as int],
            outd@[v as int] == 0,
            forall|w: int, u: usize| 0 <= w < n ==> #[trigger] und@[w]@.contains(u) == undirected(edges@, pdag@, u, w as usize),
            us@ == und@[v as int]@,
            k <= us@.len(),
            forall|k2: int| 0 <= k2 < k && us@[k2] < n && remaining@[us@[k2] as int] ==> forall|x: usize|
                st.rem[v as int].contains(x) && x != us@[k2] ==> #[trigger] st.rem[us@[k2] as int].contains(x),
        decreases us@.len() - k,
    {
        let u = us[k];
        proof {
            assert(und@[v as int]@.contains(u));
        }
        if u < n && remaining[u] {
            let vs = &rem[v];
            let target = &rem[u];
            assert(st.rem[u as int] == target@);
            let mut j: usize = 0;
            while j < vs.len()
                invariant
                    n == remaining@.len(),
                    v < n,
                    u < n,
                    remaining@[u as int],
                    st == state_view(remaining@, rem@, outd@, Seq::empty()),
                    undirected(edges@, pdag@, u, v),
                    vs@ == st.rem[v as int],
                    target@ == st.rem[u as int],
                    j <= vs@.len(),
                    forall|j2: int| 0 <= j2 < j && vs@[j2] != u ==> target@.contains(#[trigger] vs@[j2]),
                decreases vs@.len() - j,
            {
                let x = vs[j];
                if x != u && !contains_usize(target, x) {
                    proof {
                        assert(vs@[j as int] == x);
                        assert(st.rem[v as int].contains(x));
                        assert(!st.rem[u as int].contains(x));
                    }
                    return false;
                }
                j = j + 1;
            }
            proof {
                assert forall|x: usize| st.rem[v as int].contains(x) && x != u implies #[trigger] st.rem[u as int].contains(x) by {
                    let j2 = vs@.index_of(x);
                    assert(vs@[j2] == x);
                }
            }
        }
        k = k + 1;
    }
    proof {
        assert forall|u: usize| #[trigger] undirected(edges@, pdag@, u, v) && u < st.remaining.len() && st.remaining[u as int]
            implies forall|x: usize| st.rem[v as int].contains(x) && x != u ==> #[trigger] st.rem[u as int].contains(x) by {
            assert(und@[v as int]@.contains(u));
            let k2 = us@.index_of(u);
            assert(us@[k2] == u);
        }
    }
    true
}

proof fn lemma_least_removable_stable(edges: Seq<(usize, usize)>, pdag: Seq<usize>, st: Extension, k1: int, k2: int)
    requires
        k1 <= k2,
        least_removable(edges, pdag, st, k1) is Some,
    ensures
        least_removable(edges, pdag, st, k2) == least_removable(edges, pdag, st, k1),
    decreases k2 - k1,
{
    if k1 < k2 {
        lemma_least_removable_stable(edges, pdag, st, k1, k2 - 1);
    }
}

proof fn lemma_least_removable_state(edges: Seq<(usize, usize)>, pdag: Seq<usize>, a: Extension, b: Extension, k: int)
    requires
        a.remaining == b.remaining,
        a.rem == b.rem,
        a.outd == b.outd,
    ensures
        least_removable(edges, pdag, a, k) == least_removable(edges, pdag, b, k),
    decreases k,
{
    if k > 0 {
        lemma_least_removable_state(edges, pdag, a, b, k - 1);
        assert(removable(edges, pdag, a, (k - 1) as usize) == removable(edges, pdag, b, (k - 1) as usize));
    }
}

proof fn lemma_least_removable_found(edges: Seq<(usize, usize)>, pdag: Seq<usize>, st: Extension, k: int)
    ensures
        least_removable(edges, pdag, st, k) matches Some(c) ==> c < k && removable(edges, pdag, st, c),
    decreases k,
{
    if k > 0 {
        lemma_least_removable_found(edges, pdag, st, k - 1);
    }
}

/// The vertex removed next is the smallest removable one: no smaller vertex
/// is removable, and when none is found no vertex below `k` is removable.
pub proof fn law_least_removable_is_least(edges: Seq<(usize, usize)>, pdag: Seq<usize>, st: Extension, k: int)
    requires
        k <= usize::MAX + 1,
    ensures
        match least_removable(edges, pdag, st, k) {
            Some(c) => 0 <= c < k && removable(edges, pdag, st, c) && forall|u: usize|
                u < c ==> !#[trigger] removable(edges, pdag, st, u),
            None => forall|u: usize| u < k ==> !#[trigger] removable(edges, pdag, st, u),
        },
    decreases k,
{
    if k > 0 {
        law_least_removable_is_least(edges, pdag, st, k - 1);
        assert(((k - 1) as usize) as int == k - 1);
    }
}

/// Extends the partially directed graph with vertices `0..n` (`n` the
/// number of adjacency lists), `adjacency` its neighbours and `edges` its
/// edges, each marked in `pdag` as undirected (`0`), an arc leaving its
/// second end (`1`) or an arc leaving its first end (anything else): while
/// vertices remain, the least removable one (see [`removable`]) is removed
/// and every remaining neighbour gets an arc towards it, neighbours in the
/// order of its adjacency list (see [`extend`]). `None` when at some point
/// no vertex is removable.
pub fn pdag_extension(
    adjacency: &Vec<Vec<usize>>,
    edges: &Vec<(usize, usize)>,
    pdag: &Vec<usize>,
    _debug: usize,
) -> (r: Option<Vec<(usize, usize)>>)
    requires
        pdag@.len() >= edges@.len(),
        forall|i: int| 0 <= i < edges@.len() ==> (#[trigger] edges@[i]).0 < adjacency@.len() && edges@[i].1 < adjacency@.len(),
        forall|u: int, j: int|
            0 <= u < adjacency@.len() && 0 <= j < adjacency@[u]@.len() ==> #[trigger] adjacency@[u]@[j] < adjacency@.len(),
    ensures
        match r {
            Some(arcs) => extend(edges@, pdag@, initial_extension(rows(adjacency@), edges@, pdag@), adjacency@.len() as nat)
                == Some(arcs@),
            None => extend(edges@, pdag@, initial_extension(rows(adjacency@), edges@, pdag@), adjacency@.len() as nat) is None,
        },
{
    let n = adjacency.len();
    let ghost e = edges@;
    let ghost p = pdag@;
    let und = undirected_lists(n, edges, pdag);
    let mut outd = out_degrees(n, edges, pdag);
    let mut remaining: Vec<bool> = Vec::new();
    let mut rem: Vec<Vec<usize>> = Vec::new();
    let mut v: usize = 0;
    while v < n
        invariant
            n == adjacency@.len(),
            forall|u: int, j: int| 0 <= u < n && 0 <= j < adjacency@[u]@.len() ==> #[trigger] adjacency@[u]@[j] < n,
            v <= n,
            remaining@.len() == v,
            rem@.len() == v,
            forall|w: int| 0 <= w < v ==> #[trigger] remaining@[w],
            forall|w: int| 0 <= w < v ==> (#[trigger] rem@[w])@ == dedup(adjacency@[w]@),
        decreases n - v,
    {
        remaining.push(true);
        rem.push(dedup_list(&adjacency[v]));
        v = v + 1;
    }
    let ghost init = initial_extension(rows(adjacency@), e, p);
    proof {
        let st = state_view(remaining@, rem@, outd@, Seq::empty());
        assert(st.remaining =~= init.remaining);
        assert(st.rem =~= init.rem);
        assert(st.outd =~= init.outd);
        assert(st == init);
    }
    let mut arcs: Vec<(usize, usize)> = Vec::new();
    let mut count: usize = n;
    proof {
        assert forall|w: int, j: int| 0 <= w < n && 0 <= j < rem@[w]@.len() implies #[trigger] rem@[w]@[j] < n by {
            lemma_dedup(adjacency@[w]@);
            assert(dedup(adjacency@[w]@).contains(rem@[w]@[j]));
            let k = adjacency@[w]@.index_of(rem@[w]@[j]);
            assert(adjacency@[w]@[k] == rem@[w]@[j]);
        }
        assert forall|w: int| 0 <= w < n implies no_dups((#[trigger] rem@[w])@) by {
            lemma_dedup(adjacency@[w]@);
        }
    }
    while count > 0
        invariant
            n == adjacency@.len(),
            e == edges@,
            p == pdag@,
            init == initial_extension(rows(adjacency@), e, p),
            und@.len() == n,
            forall|w: int, u: usize| 0 <= w < n ==> #[trigger] und@[w]@.contains(u) == undirected(e, p, u, w as usize),
            remaining@.len() == n,
            rem@.len() == n,
            outd@.len() == n,
            forall|w: int, j: int| 0 <= w < n && 0 <= j < rem@[w]@.len() ==> #[trigger] rem@[w]@[j] < n,
            forall|w: int| 0 <= w < n ==> no_dups((#[trigger] rem@[w])@),
            extend(e, p, init, n as nat) == extend(e, p, state_view(remaining@, rem@, outd@, arcs@), count as nat),
        decreases count,
    {
        let ghost st = state_view(remaining@, rem@, outd@, arcs@);
        let ghost st0 = state_view(remaining@, rem@, outd@, Seq::empty());
        let mut chosen: Option<usize> = None;
        let mut w: usize = 0;
        while w < n
            invariant_except_break
                chosen is None,
            invariant
                n == remaining@.len(),
                und@.len() == n,
                rem@.len() == n,
                outd@.len() == n,
                forall|w2: int, u: usize| 0 <= w2 < n ==> #[trigger] und@[w2]@.contains(u) == undirected(e, p, u, w2 as usize),
                st0 == state_view(remaining@, rem@, outd@, Seq::empty()),
                w <= n,
                least_removable(e, p, st0, w as int) is None,
            ensures
                chosen matches Some(c) ==> least_removable(e, p, st0, n as int) == Some(c) && c < n,
                chosen is None ==> least_removable(e, p, st0, n as int) is None,
            decreases n - w,
        {
            if is_removable(Ghost(e), Ghost(p), &und, &remaining, &rem, &outd, w) {
                chosen = Some(w);
                proof {
                    assert(least_removable(e, p, st0, (w + 1) as int) == Some(w));
                    lemma_least_removable_stable(e, p, st0, (w + 1) as int, n as int);
                }
                break;
            }
            w = w + 1;
        }
        proof {
            lemma_least_removable_state(e, p, st0, st, n as int);
        }
        let c = match chosen {
            Some(c) => c,
            None => {
                proof {
                    assert(least_removable(e, p, st, n as int) is None);
                    assert(st.remaining.len() == n);
                    assert(extend(e, p, st, count as nat) is None);
                }
                return None;
            },
        };
        proof {
            lemma_least_removable_found(e, p, st, n as int);
        }
        let ghost next = remove_vertex(st, c);
        remaining.set(c, false);
        let ns = copy_ids(&rem[c]);
        assert(ns@ == st.rem[c as int]);
        let ghost rem0 = rem@;
        let ghost outd0 = outd@;
        let ghost arcs0 = arcs@;
        let mut t: usize = 0;
        while t < ns.len()
            invariant
                n == remaining@.len(),
                rem@.len() == n,
                outd@.len() == n,
                c < n,
                ns@ == rows(rem0)[c as int],
                no_dups(ns@),
                forall|j: int| 0 <= j < ns@.len() ==> #[trigger] ns@[j] < n,
                t <= ns@.len(),
                forall|u: int| 0 <= u < n ==> (#[trigger] rem@[u])@ == if ns@.take(t as int).contains(u as usize) {
                    without(rem0[u]@, c)
                } else {
                    rem0[u]@
                },
                forall|u: int| 0 <= u < n ==> #[trigger] outd@[u] == if ns@.take(t as int).contains(u as usize) && outd0[u] > 0 {
                    (outd0[u] - 1) as usize
                } else {
                    outd0[u]
                },
                arcs@ == arcs0 + ns@.take(t as int).map_values(|u: usize| (u, c)),
            decreases ns@.len() - t,
        {
            let u = ns[t];
            let ghost before = rem@;
            let ghost before_d = outd@;
            proof {
                assert(!ns@.take(t as int).contains(u)) by {
                    if ns@.take(t as int).contains(u) {
                        let k = ns@.take(t as int).index_of(u);
                        assert(ns@[k] == ns@[t as int]);
                    }
                }
            }
            let updated = without_list(&rem[u], c);
            rem.set(u, updated);
            if outd[u] > 0 {
                outd.set(u, outd[u] - 1);
            }
            arcs.push((u, c));
            proof {
                broadcast use vstd::seq_lib::lemma_seq_contains_after_push;
                assert(ns@.take(t + 1) =~= ns@.take(t as int).push(u));
                assert(arcs@ =~= arcs0 + ns@.take(t + 1).map_values(|x: usize| (x, c)));
            }
            t = t + 1;
        }
        proof {
            assert(ns@.take(ns@.len() as int) =~= ns@);
            let now = state_view(remaining@, rem@, outd@, arcs@);
            assert(now.remaining =~= next.remaining);
            assert(now.rem =~= next.rem);
            assert(now.outd =~= next.outd);
            assert(now.arcs =~= next.arcs);
            assert(now == next);
            assert(extend(e, p, st, count as nat) == extend(e, p, next, (count - 1) as nat));
            assert forall|x: int, j: int| 0 <= x < n && 0 <= j < rem@[x]@.len() implies #[trigger] rem@[x]@[j] < n by {
                if ns@.contains(x as usize) {
                    lemma_without(rem0[x]@, c);
                    assert(without(rem0[x]@, c).contains(rem@[x]@[j]));
                    let k = rem0[x]@.index_of(rem@[x]@[j]);
                    assert(rem0[x]@[k] == rem@[x]@[j]);
                }
            }
            assert forall|x: int| 0 <= x < n implies no_dups((#[trigger] rem@[x])@) by {
                if ns@.contains(x as usize) {
                    lemma_without(rem0[x]@, c);
                }
            }
        }
        count = count - 1;
    }
    Some(arcs)
}

} // verus!
