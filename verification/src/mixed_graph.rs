//! A partition of a circuit's constraints seen as a graph: one vertex per
//! part, an undirected edge between parts that share a signal, and the arcs
//! chosen so far to orient some of those edges, from the parts that hold
//! inputs towards the parts that hold outputs.
use vstd::prelude::*;
use std::collections::HashSet;
use crate::lt;

verus! {

broadcast use vstd::std_specs::hash::group_hash_axioms;

/// The graph of the parts of a partition.
pub struct MixedGraph {
    pub n: usize,
    pub m: usize,
    /// The constraints of each part.
    pub partition: Vec<Vec<usize>>,
    /// The parts adjacent to each part.
    pub adjacencies: Vec<Vec<usize>>,
    /// The arcs: `v` in `dir_adjacencies[u]` is an arc between `u` and `v`,
    /// from `u` to `v` while arcs are read as outgoing, the other way round
    /// once the reading is inverted.
    pub dir_adjacencies: Vec<HashSet<usize>>,
    /// The undirected edges `(a, b)`, `a < b`.
    pub edges: Vec<(usize, usize)>,
    pub input_parts: HashSet<usize>,
    pub output_parts: HashSet<usize>,
    pub dir_adjacencies_is_outgoing: bool,
}

/// The rows of a list of lists.
pub open spec fn rows(v: Seq<Vec<usize>>) -> Seq<Seq<usize>> {
    v.map_values(|r: Vec<usize>| r@)
}

/// The arc sets.
pub open spec fn arc_sets(v: Seq<HashSet<usize>>) -> Seq<Set<usize>> {
    v.map_values(|h: HashSet<usize>| h@)
}

/// The edges `(idx, x)` with `idx < x` for the neighbours `x` in `row`, in order.
pub open spec fn row_edges(idx: int, row: Seq<usize>) -> Seq<(usize, usize)>
    decreases row.len(),
{
    if row.len() == 0 {
        Seq::empty()
    } else {
        row_edges(idx, row.drop_last()) + if idx < row.last() {
            seq![(idx as usize, row.last())]
        } else {
            Seq::empty()
        }
    }
}

/// The edges of the first `k` adjacency lists, each once (from its smaller end).
pub open spec fn edges_upto(adj: Seq<Seq<usize>>, k: nat) -> Seq<(usize, usize)>
    decreases k,
{
    if k == 0 || k > adj.len() {
        Seq::empty()
    } else {
        edges_upto(adj, (k - 1) as nat) + row_edges(k - 1, adj[k - 1])
    }
}

pub open spec fn edges_of(adj: Seq<Seq<usize>>) -> Seq<(usize, usize)> {
    edges_upto(adj, adj.len())
}

/// Whether an arc joins `u` and `v`, in either direction.
pub open spec fn oriented(dir: Seq<Set<usize>>, u: int, v: int) -> bool {
    dir[u].contains(v as usize) || dir[v].contains(u as usize)
}

/// An edge carries an arc exactly when its two ends are joined by an arc,
/// either way round, and whether two parts are joined does not depend on
/// their order: what [`MixedGraph::edge_oriented`] and
/// [`MixedGraph::pair_oriented`] return for edge `e` and for its ends agree.
pub proof fn law_edge_oriented(g: MixedGraph, e: int)
    requires
        graph_ok(g),
        0 <= e < g.m,
    ensures
        oriented(arc_sets(g.dir_adjacencies@), g.edges@[e].0 as int, g.edges@[e].1 as int) == oriented(
            arc_sets(g.dir_adjacencies@),
            g.edges@[e].1 as int,
            g.edges@[e].0 as int,
        ),
        oriented(arc_sets(g.dir_adjacencies@), g.edges@[e].0 as int, g.edges@[e].1 as int) == (
        g.dir_adjacencies@[g.edges@[e].0 as int]@.contains(g.edges@[e].1)
            || g.dir_adjacencies@[g.edges@[e].1 as int]@.contains(g.edges@[e].0)),
        g.edges@[e].0 < g.dir_adjacencies@.len() && g.edges@[e].1 < g.dir_adjacencies@.len(),
{
    assert(g.edges@[e].0 < g.n && g.edges@[e].1 < g.n);
}

/// `a` and `b` differ only in the reading of the arcs.
pub open spec fn inverted(a: MixedGraph, b: MixedGraph) -> bool {
    &&& b.outgoing() == !a.outgoing()
    &&& b.n == a.n
    &&& b.m == a.m
    &&& b.partition == a.partition
    &&& b.adjacencies == a.adjacencies
    &&& b.dir_adjacencies == a.dir_adjacencies
    &&& b.edges == a.edges
    &&& b.input_parts == a.input_parts
    &&& b.output_parts == a.output_parts
}

/// The vertices and indices within range.
pub open spec fn graph_ok(g: MixedGraph) -> bool {
    &&& g.n == g.partition@.len()
    &&& g.n == g.adjacencies@.len()
    &&& g.n == g.dir_adjacencies@.len()
    &&& g.m == g.edges@.len()
    &&& forall|u: int, j: int|
        0 <= u < g.n && 0 <= j < g.adjacencies@[u]@.len() ==> #[trigger] g.adjacencies@[u]@[j] < g.n
    &&& forall|e: int| 0 <= e < g.m ==> (#[trigger] g.edges@[e]).0 < g.n && g.edges@[e].1 < g.n
    &&& forall|v: usize| g.input_parts@.contains(v) ==> v < g.n
    &&& forall|v: usize| g.output_parts@.contains(v) ==> v < g.n
}

impl MixedGraph {
    /// Whether arcs are read from the part holding them to their target.
    pub open spec fn outgoing(self) -> bool {
        self.dir_adjacencies_is_outgoing
    }

    /// A graph with no arc yet, whose edges are read off the adjacency lists.
    pub fn new(
        partition: Vec<Vec<usize>>,
        adjacencies: Vec<Vec<usize>>,
        input_parts: HashSet<usize>,
        output_parts: HashSet<usize>,
    ) -> (r: MixedGraph)
        ensures
            r.n == partition@.len(),
            r.partition == partition,
            r.adjacencies == adjacencies,
            r.edges@ == edges_of(rows(adjacencies@)),
            r.m == r.edges@.len(),
            r.dir_adjacencies@.len() == partition@.len(),
            forall|i: int| 0 <= i < partition@.len() ==> (#[trigger] r.dir_adjacencies@[i])@ == Set::<usize>::empty(),
            r.input_parts == input_parts,
            r.output_parts == output_parts,
            r.outgoing(),
    {
        let ghost adj = rows(adjacencies@);
        let mut edges: Vec<(usize, usize)> = Vec::new();
        let mut idx: usize = 0;
        while idx < adjacencies.len()
            invariant
                adj == rows(adjacencies@),
                idx <= adj.len(),
                edges@ == edges_upto(adj, idx as nat),
            decreases adj.len() - idx,
        {
            let row = &adjacencies[idx];
            assert(adj[idx as int] == row@);
            let ghost e0 = edges@;
            let mut j: usize = 0;
            assert(row@.take(0) =~= Seq::<usize>::empty());
            while j < row.len()
                invariant
                    j <= row@.len(),
                    edges@ == e0 + row_edges(idx as int, row@.take(j as int)),
                decreases row@.len() - j,
            {
                assert(row@.take(j + 1).drop_last() =~= row@.take(j as int));
                if idx < row[j] {
                    edges.push((idx, row[j]));
                }
                assert(edges@ =~= e0 + row_edges(idx as int, row@.take(j + 1)));
                j = j + 1;
            }
            assert(row@.take(row@.len() as int) =~= row@);
            idx = idx + 1;
        }
        let mut dir_adjacencies: Vec<HashSet<usize>> = Vec::new();
        let mut k: usize = 0;
        while k < partition.len()
            invariant
                k <= partition@.len(),
                dir_adjacencies@.len() == k,
                forall|i: int| 0 <= i < k ==> (#[trigger] dir_adjacencies@[i])@ == Set::<usize>::empty(),
            decreases partition@.len() - k,
        {
            dir_adjacencies.push(HashSet::new());
            k = k + 1;
        }
        let n = partition.len();
        let m = edges.len();
        MixedGraph {
            n,
            m,
            partition,
            adjacencies,
            dir_adjacencies,
            edges,
            input_parts,
            output_parts,
            dir_adjacencies_is_outgoing: true,
        }
    }

    /// Flips the reading of every arc; returns whether arcs are now read as
    /// outgoing.
    pub fn invert_edge_direction(&mut self) -> (r: bool)
        ensures
            inverted(*old(self), *final(self)),
            r == final(self).outgoing(),
    {
        self.dir_adjacencies_is_outgoing = !self.dir_adjacencies_is_outgoing;
        self.dir_adjacencies_is_outgoing
    }

    /// Whether an arc joins `u` and `v`.
    pub fn pair_oriented(&self, u: usize, v: usize) -> (r: bool)
        requires
            u < self.dir_adjacencies@.len(),
            v < self.dir_adjacencies@.len(),
        ensures
            r == oriented(arc_sets(self.dir_adjacencies@), u as int, v as int),
    {
        self.dir_adjacencies[u].contains(&v) || self.dir_adjacencies[v].contains(&u)
    }

    /// Whether edge `e` carries an arc.
    pub fn edge_oriented(&self, e: usize) -> (r: bool)
        requires
            e < self.edges@.len(),
            self.edges@[e as int].0 < self.dir_adjacencies@.len(),
            self.edges@[e as int].1 < self.dir_adjacencies@.len(),
        ensures
            r == oriented(
                arc_sets(self.dir_adjacencies@),
                self.edges@[e as int].0 as int,
                self.edges@[e as int].1 as int,
            ),
    {
        let (a, b) = self.edges[e];
        self.pair_oriented(a, b)
    }
}

/// Inverting the reading of the arcs twice gives the graph back.
pub proof fn law_invert_twice(g1: MixedGraph, g2: MixedGraph, g3: MixedGraph)
    requires
        inverted(g1, g2),
        inverted(g2, g3),
    ensures
        g3 == g1,
{
}


// ---------------------------------------------------------------------------
// Distances to a set of parts.
// ---------------------------------------------------------------------------

/// The parts adjacent to some part of `s`.
pub open spec fn neighbours(adj: Seq<Seq<usize>>, s: Set<usize>) -> Set<usize> {
    Set::new(
        |v: usize|
            exists|u: usize, j: int|
                s.contains(u) && u < adj.len() && 0 <= j < adj[u as int].len() && #[trigger] adj[u as int][j] == v,
    )
}

/// The parts at most `k` edges away from `srcs`.
pub open spec fn within(adj: Seq<Seq<usize>>, srcs: Set<usize>, k: nat) -> Set<usize>
    decreases k,
{
    if k == 0 {
        srcs
    } else {
        let p = within(adj, srcs, (k - 1) as nat);
        p.union(neighbours(adj, p))
    }
}

/// `d` is the number of edges from `srcs` to `v` on a shortest path, or
/// `usize::MAX` when no path reaches `v`.
pub open spec fn is_distance(adj: Seq<Seq<usize>>, srcs: Set<usize>, v: usize, d: usize) -> bool {
    if d == usize::MAX {
        forall|k: nat| !(#[trigger] within(adj, srcs, k)).contains(v)
    } else {
        within(adj, srcs, d as nat).contains(v) && (d > 0 ==> !within(adj, srcs, (d - 1) as nat).contains(v))
    }
}

pub proof fn lemma_within_mono(adj: Seq<Seq<usize>>, srcs: Set<usize>, a: nat, b: nat)
    requires
        a <= b,
    ensures
        within(adj, srcs, a).subset_of(within(adj, srcs, b)),
    decreases b - a,
{
    if a < b {
        lemma_within_mono(adj, srcs, a, (b - 1) as nat);
    }
}

pub proof fn lemma_neighbour_within(adj: Seq<Seq<usize>>, srcs: Set<usize>, k: nat, u: usize, j: int)
    requires
        within(adj, srcs, k).contains(u),
        u < adj.len(),
        0 <= j < adj[u as int].len(),
    ensures
        within(adj, srcs, k + 1).contains(adj[u as int][j]),
{
    let p = within(adj, srcs, k);
    assert(neighbours(adj, p).contains(adj[u as int][j]));
}

/// Once a step adds nothing, no later step does.
proof fn lemma_within_fixpoint(adj: Seq<Seq<usize>>, srcs: Set<usize>, d: nat, k: nat)
    requires
        within(adj, srcs, d + 1) == within(adj, srcs, d),
    ensures
        within(adj, srcs, k).subset_of(within(adj, srcs, d)),
    decreases k,
{
    if k <= d {
        lemma_within_mono(adj, srcs, k, d);
    } else {
        lemma_within_fixpoint(adj, srcs, d, (k - 1) as nat);
        let p = within(adj, srcs, (k - 1) as nat);
        assert forall|v: usize| neighbours(adj, p).contains(v) implies within(adj, srcs, d).contains(v) by {
            let (u, j) = choose|u: usize, j: int|
                p.contains(u) && u < adj.len() && 0 <= j < adj[u as int].len() && #[trigger] adj[u as int][j] == v;
            lemma_neighbour_within(adj, srcs, d, u, j);
        }
    }
}

/// How many entries of `s` are `usize::MAX`.
pub open spec fn count_max(s: Seq<usize>) -> nat
    decreases s.len(),
{
    if s.len() == 0 {
        0
    } else {
        count_max(s.drop_last()) + if s.last() == usize::MAX {
            1nat
        } else {
            0nat
        }
    }
}

proof fn lemma_count_max_bound(s: Seq<usize>)
    ensures
        count_max(s) <= s.len(),
    decreases s.len(),
{
    if s.len() > 0 {
        lemma_count_max_bound(s.drop_last());
    }
}

proof fn lemma_count_max_update(s: Seq<usize>, i: int, v: usize)
    requires
        0 <= i < s.len(),
        s[i] == usize::MAX,
        v != usize::MAX,
    ensures
        count_max(s.update(i, v)) + 1 == count_max(s),
    decreases s.len(),
{
    let t = s.update(i, v);
    if i < s.len() - 1 {
        lemma_count_max_update(s.drop_last(), i, v);
        assert(t.drop_last() =~= s.drop_last().update(i, v));
    } else {
        assert(t.drop_last() =~= s.drop_last());
    }
}

/// The distance of every part to `sources`, breadth first (see [`is_distance`]).
pub fn distance_to_source_set(sources: &HashSet<usize>, adjacencies: &Vec<Vec<usize>>) -> (r: Vec<usize>)
    requires
        adjacencies@.len() < usize::MAX,
        forall|v: usize| sources@.contains(v) ==> v < adjacencies@.len(),
        forall|u: int, j: int|
            0 <= u < adjacencies@.len() && 0 <= j < adjacencies@[u]@.len() ==> #[trigger] adjacencies@[u]@[j]
                < adjacencies@.len(),
    ensures
        r@.len() == adjacencies@.len(),
        forall|v: int| 0 <= v < r@.len() ==> is_distance(rows(adjacencies@), sources@, v as usize, #[trigger] r@[v]),
{
    let ghost adj = rows(adjacencies@);
    let ghost srcs = sources@;
    let n = adjacencies.len();
    let mut dist: Vec<usize> = Vec::new();
    let mut frontier: Vec<usize> = Vec::new();
    let mut v: usize = 0;
    while v < n
        invariant
            n == adj.len(),
            adj == rows(adjacencies@),
            srcs == sources@,
            v <= n,
            dist@.len() == v,
            forall|w: int| 0 <= w < v ==> (#[trigger] dist@[w] == 0) == srcs.contains(w as usize),
            forall|w: int| 0 <= w < v ==> dist@[w] == 0 || dist@[w] == usize::MAX,
            forall|i: int| 0 <= i < frontier@.len() ==> frontier@[i] < v && dist@[frontier@[i] as int] == 0,
            forall|w: int| 0 <= w < v && dist@[w] == 0 ==> frontier@.contains(w as usize),
            frontier@.len() > 0 ==> 1 + count_max(dist@) <= v,
            frontier@.len() <= v,
            count_max(dist@) + frontier@.len() == v,
        decreases n - v,
    {
        let ghost d0 = dist@;
        let ghost f0 = frontier@;
        if sources.contains(&v) {
            dist.push(0);
            frontier.push(v);
        } else {
            dist.push(usize::MAX);
        }
        assert(dist@.drop_last() =~= d0);
        assert forall|w: int| 0 <= w < v + 1 && dist@[w] == 0 implies frontier@.contains(w as usize) by {
            if w < v {
                assert(d0[w] == 0);
                let k = choose|k: int| 0 <= k < f0.len() && f0[k] == w as usize;
                assert(frontier@[k] == w as usize);
            } else {
                assert(frontier@[f0.len() as int] == w as usize);
            }
        }
        v = v + 1;
    }
    proof {
        assert forall|w: usize| srcs.contains(w) implies within(adj, srcs, 0).contains(w) by {}
    }
    let mut d: usize = 0;
    while frontier.len() > 0
        invariant
            n == adj.len(),
            n < usize::MAX,
            adj == rows(adjacencies@),
            srcs == sources@,
            forall|w: usize| srcs.contains(w) ==> w < n,
            forall|u: int, j: int| 0 <= u < adj.len() && 0 <= j < adj[u].len() ==> #[trigger] adj[u][j] < adj.len(),
            dist@.len() == n,
            forall|w: int| 0 <= w < n ==> (#[trigger] dist@[w] != usize::MAX) == within(adj, srcs, d as nat).contains(w as usize),
            forall|w: int| 0 <= w < n && #[trigger] dist@[w] != usize::MAX ==> dist@[w] <= d && within(adj, srcs, dist@[w] as nat).contains(w as usize)
                && (dist@[w] > 0 ==> !within(adj, srcs, (dist@[w] - 1) as nat).contains(w as usize)),
            forall|i: int| 0 <= i < frontier@.len() ==> #[trigger] frontier@[i] < n && dist@[frontier@[i] as int] == d,
            forall|w: int| 0 <= w < n && #[trigger] dist@[w] == d ==> frontier@.contains(w as usize),
            forall|w: usize| within(adj, srcs, d as nat).contains(w) ==> w < n,
            frontier@.len() > 0 ==> d + 1 + count_max(dist@) <= n,
        decreases count_max(dist@) * 2 + if frontier@.len() > 0 {
            1int
        } else {
            0int
        },
    {
        let ghost old_dist = dist@;
        let ghost w_d = within(adj, srcs, d as nat);
        let mut next: Vec<usize> = Vec::new();
        let mut fi: usize = 0;
        while fi < frontier.len()
            invariant
                n == adj.len(),
                adj == rows(adjacencies@),
                forall|u: int, j: int| 0 <= u < adj.len() && 0 <= j < adj[u].len() ==> #[trigger] adj[u][j] < adj.len(),
                w_d == within(adj, srcs, d as nat),
                d + 1 + count_max(old_dist) <= n,
                n < usize::MAX,
                fi <= frontier@.len(),
                old_dist.len() == n,
                dist@.len() == n,
                forall|i: int| 0 <= i < frontier@.len() ==> #[trigger] frontier@[i] < n && old_dist[frontier@[i] as int] == d,
                forall|w: int| 0 <= w < n && #[trigger] old_dist[w] != usize::MAX ==> old_dist[w] <= d,
                forall|w: int| 0 <= w < n ==> (#[trigger] old_dist[w] != usize::MAX) == w_d.contains(w as usize),
                forall|w: int| 0 <= w < n && old_dist[w] != usize::MAX ==> #[trigger] dist@[w] == old_dist[w],
                forall|w: int| 0 <= w < n && #[trigger] dist@[w] != old_dist[w] ==> old_dist[w] == usize::MAX && dist@[w] == d + 1,
                forall|i: int| 0 <= i < next@.len() ==> #[trigger] next@[i] < n && dist@[next@[i] as int] == d + 1
                    && old_dist[next@[i] as int] == usize::MAX,
                forall|w: int| 0 <= w < n && #[trigger] dist@[w] == d + 1 ==> next@.contains(w as usize),
                forall|w: int| 0 <= w < n && #[trigger] dist@[w] == d + 1 ==> neighbours(adj, w_d).contains(w as usize),
                count_max(dist@) + next@.len() == count_max(old_dist),
                forall|i: int, j: int| 0 <= i < fi && 0 <= j < adj[frontier@[i] as int].len() ==> #[trigger] dist@[adj[frontier@[i] as int][j] as int] != usize::MAX,
            decreases frontier@.len() - fi,
        {
            let u = frontier[fi];
            let row = &adjacencies[u];
            assert(adj[u as int] == row@);
            assert(w_d.contains(u));
            let mut j: usize = 0;
            while j < row.len()
                invariant
                    n == adj.len(),
                    adj == rows(adjacencies@),
                    forall|u2: int, j2: int| 0 <= u2 < adj.len() && 0 <= j2 < adj[u2].len() ==> #[trigger] adj[u2][j2] < adj.len(),
                    w_d == within(adj, srcs, d as nat),
                    d + 1 + count_max(old_dist) <= n,
                    n < usize::MAX,
                    fi < frontier@.len(),
                    u == frontier@[fi as int],
                    u < n,
                    w_d.contains(u),
                    row@ == adj[u as int],
                    j <= row@.len(),
                    old_dist.len() == n,
                    dist@.len() == n,
                    forall|i: int| 0 <= i < frontier@.len() ==> #[trigger] frontier@[i] < n && old_dist[frontier@[i] as int] == d,
                    forall|w: int| 0 <= w < n && #[trigger] old_dist[w] != usize::MAX ==> old_dist[w] <= d,
                    forall|w: int| 0 <= w < n ==> (#[trigger] old_dist[w] != usize::MAX) == w_d.contains(w as usize),
                    forall|w: int| 0 <= w < n && old_dist[w] != usize::MAX ==> #[trigger] dist@[w] == old_dist[w],
                    forall|w: int| 0 <= w < n && #[trigger] dist@[w] != old_dist[w] ==> old_dist[w] == usize::MAX && dist@[w] == d + 1,
                    forall|i: int| 0 <= i < next@.len() ==> #[trigger] next@[i] < n && dist@[next@[i] as int] == d + 1
                        && old_dist[next@[i] as int] == usize::MAX,
                    forall|w: int| 0 <= w < n && #[trigger] dist@[w] == d + 1 ==> next@.contains(w as usize),
                    forall|w: int| 0 <= w < n && #[trigger] dist@[w] == d + 1 ==> neighbours(adj, w_d).contains(w as usize),
                    count_max(dist@) + next@.len() == count_max(old_dist),
                    forall|i: int, j2: int| 0 <= i < fi && 0 <= j2 < adj[frontier@[i] as int].len() ==> #[trigger] dist@[adj[frontier@[i] as int][j2] as int] != usize::MAX,
                    forall|j2: int| 0 <= j2 < j ==> #[trigger] dist@[adj[u as int][j2] as int] != usize::MAX,
                decreases row@.len() - j,
            {
                let x = row[j];
                assert(x == adj[u as int][j as int]);
                assert(x < n);
                if dist[x] == usize::MAX {
                    let ghost before = dist@;
                    let ghost nb = next@;
                    proof {
                        lemma_count_max_update(before, x as int, (d + 1) as usize);
                        lemma_count_max_bound(dist@);
                        assert(neighbours(adj, w_d).contains(x));
                    }
                    dist.set(x, d + 1);
                    next.push(x);
                    assert forall|w: int| 0 <= w < n && #[trigger] dist@[w] == d + 1 implies next@.contains(w as usize) by {
                        if w != x {
                            assert(before[w] == d + 1);
                            let k = choose|k: int| 0 <= k < nb.len() && nb[k] == w as usize;
                            assert(next@[k] == w as usize);
                        } else {
                            assert(next@[nb.len() as int] == x);
                        }
                    }
                }
                j = j + 1;
            }
            fi = fi + 1;
        }
        proof {
            let w_d1 = within(adj, srcs, (d + 1) as nat);
            assert(w_d1 == w_d.union(neighbours(adj, w_d)));
            assert forall|w: int| 0 <= w < n implies (#[trigger] dist@[w] != usize::MAX) == w_d1.contains(w as usize) by {
                if w_d1.contains(w as usize) && !w_d.contains(w as usize) {
                    let (u, j) = choose|u: usize, j: int|
                        w_d.contains(u) && u < adj.len() && 0 <= j < adj[u as int].len() && #[trigger] adj[u as int][j] == w as usize;
                    if old_dist[u as int] == d {
                        let i = choose|i: int| 0 <= i < frontier@.len() && frontier@[i] == u;
                        assert(dist@[adj[frontier@[i] as int][j] as int] != usize::MAX);
                    } else {
                        assert(old_dist[u as int] < d);
                        lemma_neighbour_within(adj, srcs, old_dist[u as int] as nat, u, j);
                        lemma_within_mono(adj, srcs, (old_dist[u as int] + 1) as nat, d as nat);
                    }
                }
            }
            assert forall|w: usize| w_d1.contains(w) implies w < n by {
                if !w_d.contains(w) {
                    let (u, j) = choose|u: usize, j: int|
                        w_d.contains(u) && u < adj.len() && 0 <= j < adj[u as int].len() && #[trigger] adj[u as int][j] == w;
                }
            }
            assert forall|w: int| 0 <= w < n && #[trigger] dist@[w] != usize::MAX implies dist@[w] <= d + 1
                && within(adj, srcs, dist@[w] as nat).contains(w as usize) && (dist@[w] > 0 ==> !within(adj, srcs, (dist@[w] - 1) as nat).contains(w as usize)) by {
                if dist@[w] == d + 1 && old_dist[w] == usize::MAX {
                    assert(!w_d.contains(w as usize));
                }
            }
            assert forall|i: int| 0 <= i < next@.len() implies #[trigger] next@[i] < n && dist@[next@[i] as int] == d + 1 by {}
            if next@.len() > 0 {
                lemma_count_max_bound(old_dist);
            }
        }
        frontier = next;
        d = d + 1;
    }
    proof {
        let w_d = within(adj, srcs, d as nat);
        let w_d1 = within(adj, srcs, (d + 1) as nat);
        assert forall|w: usize| w_d1.contains(w) implies w_d.contains(w) by {
            if !w_d.contains(w) {
                let (u, j) = choose|u: usize, j: int|
                    w_d.contains(u) && u < adj.len() && 0 <= j < adj[u as int].len() && #[trigger] adj[u as int][j] == w;
                assert(dist@[u as int] != usize::MAX);
                if dist@[u as int] == d {
                    assert(frontier@.contains(u));
                }
                lemma_neighbour_within(adj, srcs, dist@[u as int] as nat, u, j);
                lemma_within_mono(adj, srcs, (dist@[u as int] + 1) as nat, d as nat);
            }
        }
        assert(w_d1 =~= w_d);
        assert forall|w: int| 0 <= w < dist@.len() implies is_distance(adj, srcs, w as usize, #[trigger] dist@[w]) by {
            if dist@[w] == usize::MAX {
                assert forall|k: nat| !(#[trigger] within(adj, srcs, k)).contains(w as usize) by {
                    lemma_within_fixpoint(adj, srcs, d as nat, k);
                }
            }
        }
    }
    dist
}


// ---------------------------------------------------------------------------
// Orienting edges.
// ---------------------------------------------------------------------------

/// The order of `(distance to inputs, distance to outputs)` pairs: `x` comes
/// before `y` when it is no farther from the inputs and no nearer to the
/// outputs, and strictly so in one of the two.
pub open spec fn precedes(x: (usize, usize), y: (usize, usize)) -> bool {
    (x.0 < y.0 && y.1 <= x.1) || (x.0 == y.0 && y.1 < x.1)
}

/// [`precedes`] is a strict partial order.
pub proof fn law_precedes_strict_order(x: (usize, usize), y: (usize, usize), z: (usize, usize))
    ensures
        !precedes(x, x),
        precedes(x, y) && precedes(y, z) ==> precedes(x, z),
        precedes(x, y) ==> !precedes(y, x),
{
}

/// The arcs after the first `k` edges are visited: an edge without an arc
/// gets one from its end that comes first in `pre` to the other, and none
/// when neither comes first.
pub open spec fn orient_fold(
    dir: Seq<Set<usize>>,
    edges: Seq<(usize, usize)>,
    pre: Seq<(usize, usize)>,
    k: nat,
) -> Seq<Set<usize>>
    decreases k,
{
    if k == 0 || k > edges.len() {
        dir
    } else {
        let d = orient_fold(dir, edges, pre, (k - 1) as nat);
        let u = edges[k - 1].0 as int;
        let v = edges[k - 1].1 as int;
        if oriented(d, u, v) {
            d
        } else if precedes(pre[u], pre[v]) {
            d.update(u, d[u].insert(v as usize))
        } else if precedes(pre[v], pre[u]) {
            d.update(v, d[v].insert(u as usize))
        } else {
            d
        }
    }
}

/// Edge `i` joins `x` and `y`, either way round.
pub open spec fn joins(edges: Seq<(usize, usize)>, i: int, x: usize, y: usize) -> bool {
    edges[i] == (x, y) || edges[i] == (y, x)
}

proof fn lemma_orient_fold(dir: Seq<Set<usize>>, edges: Seq<(usize, usize)>, pre: Seq<(usize, usize)>, k: nat)
    requires
        pre.len() == dir.len(),
        k <= edges.len(),
        forall|i: int| 0 <= i < edges.len() ==> (#[trigger] edges[i]).0 < dir.len() && edges[i].1 < dir.len(),
    ensures
        orient_fold(dir, edges, pre, k).len() == dir.len(),
        forall|x: int| 0 <= x < dir.len() ==> dir[x].subset_of(#[trigger] orient_fold(dir, edges, pre, k)[x]),
        forall|x: int, y: usize| 0 <= x < dir.len() && #[trigger] orient_fold(dir, edges, pre, k)[x].contains(y) ==> dir[x].contains(y)
            || exists|i: int| 0 <= i < k && #[trigger] joins(edges, i, x as usize, y) && precedes(pre[x], pre[y as int]),
        forall|i: int| #![trigger edges[i]] 0 <= i < k && !oriented(dir, edges[i].0 as int, edges[i].1 as int) ==> {
            &&& precedes(pre[edges[i].0 as int], pre[edges[i].1 as int]) ==> orient_fold(dir, edges, pre, k)[edges[i].0 as int].contains(edges[i].1)
            &&& precedes(pre[edges[i].1 as int], pre[edges[i].0 as int]) ==> orient_fold(dir, edges, pre, k)[edges[i].1 as int].contains(edges[i].0)
        },
    decreases k,
{
    if k > 0 {
        lemma_orient_fold(dir, edges, pre, (k - 1) as nat);
        let d = orient_fold(dir, edges, pre, (k - 1) as nat);
        let cur = orient_fold(dir, edges, pre, k);
        let u = edges[k - 1].0 as int;
        let v = edges[k - 1].1 as int;
        assert(u < dir.len() && v < dir.len());
        assert(joins(edges, k - 1, u as usize, v as usize) && joins(edges, k - 1, v as usize, u as usize));
        // Every arc of `cur` is one of `d` or the one added for edge `k - 1`.
        assert forall|x: int| 0 <= x < dir.len() implies d[x].subset_of(#[trigger] cur[x]) by {}
        assert forall|x: int| 0 <= x < dir.len() implies dir[x].subset_of(#[trigger] cur[x]) by {
            assert(dir[x].subset_of(d[x]));
        }
        assert forall|x: int, y: usize| 0 <= x < dir.len() && #[trigger] cur[x].contains(y) implies dir[x].contains(y)
            || exists|i: int| 0 <= i < k && #[trigger] joins(edges, i, x as usize, y) && precedes(pre[x], pre[y as int]) by {
            if d[x].contains(y) {
                if !dir[x].contains(y) {
                    let i = choose|i: int| 0 <= i < k - 1 && #[trigger] joins(edges, i, x as usize, y) && precedes(pre[x], pre[y as int]);
                }
            } else {
                assert(!oriented(d, u, v));
                if precedes(pre[u], pre[v]) {
                    assert(x == u && y == v as usize);
                } else {
                    assert(x == v && y == u as usize);
                }
            }
        }
        assert forall|i: int| #![trigger edges[i]] 0 <= i < k && !oriented(dir, edges[i].0 as int, edges[i].1 as int) implies {
            &&& precedes(pre[edges[i].0 as int], pre[edges[i].1 as int]) ==> cur[edges[i].0 as int].contains(edges[i].1)
            &&& precedes(pre[edges[i].1 as int], pre[edges[i].0 as int]) ==> cur[edges[i].1 as int].contains(edges[i].0)
        } by {
            let a = edges[i].0 as int;
            let b = edges[i].1 as int;
            assert(a < dir.len() && b < dir.len());
            if i < k - 1 {
                assert(d[a].subset_of(cur[a]) && d[b].subset_of(cur[b]));
            } else if oriented(d, u, v) {
                if precedes(pre[u], pre[v]) && !d[u].contains(v as usize) {
                    assert(d[v].contains(u as usize));
                    if !dir[v].contains(u as usize) {
                        let j = choose|j: int| 0 <= j < k - 1 && #[trigger] joins(edges, j, v as usize, u as usize) && precedes(pre[v], pre[u]);
                    }
                }
                if precedes(pre[v], pre[u]) && !d[v].contains(u as usize) {
                    assert(d[u].contains(v as usize));
                    if !dir[u].contains(v as usize) {
                        let j = choose|j: int| 0 <= j < k - 1 && #[trigger] joins(edges, j, u as usize, v as usize) && precedes(pre[u], pre[v]);
                    }
                }
            }
        }
    }
}

/// Orienting by precedence: every arc there was stays; an edge that had no
/// arc gets one from the end that comes first to the other, and none when
/// neither end comes first.
pub proof fn law_orient_by_precedence(dir: Seq<Set<usize>>, edges: Seq<(usize, usize)>, pre: Seq<(usize, usize)>)
    requires
        pre.len() == dir.len(),
        forall|i: int| 0 <= i < edges.len() ==> (#[trigger] edges[i]).0 < dir.len() && edges[i].1 < dir.len(),
    ensures
        forall|x: int| 0 <= x < dir.len() ==> dir[x].subset_of(#[trigger] orient_fold(dir, edges, pre, edges.len())[x]),
        forall|i: int| #![trigger edges[i]] 0 <= i < edges.len() && !oriented(dir, edges[i].0 as int, edges[i].1 as int) ==> {
            let u = edges[i].0 as int;
            let v = edges[i].1 as int;
            let d = orient_fold(dir, edges, pre, edges.len());
            &&& precedes(pre[u], pre[v]) ==> d[u].contains(v as usize) && !d[v].contains(u as usize)
            &&& precedes(pre[v], pre[u]) ==> d[v].contains(u as usize) && !d[u].contains(v as usize)
            &&& !precedes(pre[u], pre[v]) && !precedes(pre[v], pre[u]) ==> !d[u].contains(v as usize) && !d[v].contains(u as usize)
        },
{
    let n = edges.len();
    lemma_orient_fold(dir, edges, pre, n);
    let d = orient_fold(dir, edges, pre, n);
    assert forall|i: int| #![trigger edges[i]] 0 <= i < edges.len() && !oriented(dir, edges[i].0 as int, edges[i].1 as int) implies {
        let u = edges[i].0 as int;
        let v = edges[i].1 as int;
        &&& precedes(pre[u], pre[v]) ==> d[u].contains(v as usize) && !d[v].contains(u as usize)
        &&& precedes(pre[v], pre[u]) ==> d[v].contains(u as usize) && !d[u].contains(v as usize)
        &&& !precedes(pre[u], pre[v]) && !precedes(pre[v], pre[u]) ==> !d[u].contains(v as usize) && !d[v].contains(u as usize)
    } by {
        let u = edges[i].0 as int;
        let v = edges[i].1 as int;
        assert(u < dir.len() && v < dir.len());
        if d[v].contains(u as usize) {
            assert(!dir[v].contains(u as usize));
            let j = choose|j: int| 0 <= j < n && #[trigger] joins(edges, j, v as usize, u as usize) && precedes(pre[v], pre[u]);
        }
        if d[u].contains(v as usize) {
            assert(!dir[u].contains(v as usize));
            let j = choose|j: int| 0 <= j < n && #[trigger] joins(edges, j, u as usize, v as usize) && precedes(pre[u], pre[v]);
        }
    }
}

/// The arcs after the first `k` parts are visited: a leaf part (one
/// neighbour) whose neighbour is no leaf gets an arc towards it, when the
/// pair has none yet.
pub open spec fn leaf_fold(dir: Seq<Set<usize>>, adj: Seq<Seq<usize>>, out: bool, k: nat) -> Seq<Set<usize>>
    decreases k,
{
    if k == 0 || k > adj.len() {
        dir
    } else {
        let d = leaf_fold(dir, adj, out, (k - 1) as nat);
        let v = k - 1;
        if adj[v].len() == 1 && adj[adj[v][0] as int].len() != 1 {
            let u = adj[v][0] as int;
            if oriented(d, u, v) {
                d
            } else if out {
                d.update(u, d[u].insert(v as usize))
            } else {
                d.update(v, d[v].insert(u as usize))
            }
        } else {
            d
        }
    }
}

/// Part `v` is a leaf (one neighbour) whose neighbour is no leaf.
pub open spec fn lone_leaf(adj: Seq<Seq<usize>>, v: int) -> bool {
    0 <= v < adj.len() && adj[v].len() == 1 && adj[adj[v][0] as int].len() != 1
}

/// The arc held as `y` in the set of `x` runs from the neighbour of a leaf
/// below `k` to that leaf (as read outgoing, or incoming).
pub open spec fn leaf_arc(adj: Seq<Seq<usize>>, out: bool, x: int, y: usize, k: nat) -> bool {
    if out {
        y < k && lone_leaf(adj, y as int) && x == adj[y as int][0] as int
    } else {
        x < k && lone_leaf(adj, x) && y == adj[x][0]
    }
}

proof fn lemma_leaf_fold(dir: Seq<Set<usize>>, adj: Seq<Seq<usize>>, out: bool, k: nat)
    requires
        dir.len() == adj.len(),
        k <= adj.len(),
        adj.len() <= usize::MAX,
        forall|v: int, j: int| 0 <= v < adj.len() && 0 <= j < adj[v].len() ==> #[trigger] adj[v][j] < adj.len(),
    ensures
        leaf_fold(dir, adj, out, k).len() == dir.len(),
        forall|x: int| 0 <= x < dir.len() ==> dir[x].subset_of(#[trigger] leaf_fold(dir, adj, out, k)[x]),
        forall|x: int, y: usize| 0 <= x < dir.len() && #[trigger] leaf_fold(dir, adj, out, k)[x].contains(y) && !dir[x].contains(y)
            ==> leaf_arc(adj, out, x, y, k),
        forall|v: int| 0 <= v < k && #[trigger] lone_leaf(adj, v) && !oriented(dir, adj[v][0] as int, v) ==> if out {
            leaf_fold(dir, adj, out, k)[adj[v][0] as int].contains(v as usize)
        } else {
            leaf_fold(dir, adj, out, k)[v].contains(adj[v][0])
        },
    decreases k,
{
    if k > 0 {
        lemma_leaf_fold(dir, adj, out, (k - 1) as nat);
        let d = leaf_fold(dir, adj, out, (k - 1) as nat);
        let cur = leaf_fold(dir, adj, out, k);
        let v = k - 1;
        if adj[v].len() == 1 && adj[adj[v][0] as int].len() != 1 {
            let u = adj[v][0] as int;
            assert(0 <= u < adj.len());
            assert(lone_leaf(adj, v));
            if !oriented(d, u, v) {
                if out {
                    assert(cur == d.update(u, d[u].insert(v as usize)));
                } else {
                    assert(cur == d.update(v, d[v].insert(u as usize)));
                }
            } else {
                assert(cur == d);
            }
            assert forall|x: int| 0 <= x < dir.len() implies d[x].subset_of(#[trigger] cur[x]) by {}
            assert forall|x: int, y: usize| 0 <= x < dir.len() && #[trigger] cur[x].contains(y) && !dir[x].contains(y)
                implies leaf_arc(adj, out, x, y, k) by {
                if d[x].contains(y) {
                    assert(leaf_arc(adj, out, x, y, (k - 1) as nat));
                } else if out {
                    assert(x == u && y == v as usize);
                } else {
                    assert(x == v && y == u as usize);
                }
            }
            assert forall|w: int| 0 <= w < k && #[trigger] lone_leaf(adj, w) && !oriented(dir, adj[w][0] as int, w) implies if out {
                cur[adj[w][0] as int].contains(w as usize)
            } else {
                cur[w].contains(adj[w][0])
            } by {
                if w < v {
                    assert(0 <= adj[w][0] < adj.len());
                    assert(d[adj[w][0] as int].subset_of(cur[adj[w][0] as int]));
                    assert(d[w].subset_of(cur[w]));
                } else {
                    assert(w == v);
                    if oriented(d, u, v) {
                        if d[u].contains(v as usize) && !dir[u].contains(v as usize) {
                            assert(leaf_arc(adj, out, u, v as usize, (k - 1) as nat));
                        }
                        if d[v].contains(u as usize) && !dir[v].contains(u as usize) {
                            assert(leaf_arc(adj, out, v, u as usize, (k - 1) as nat));
                        }
                    }
                }
            }
        } else {
            assert(cur == d);
        }
    }
}

/// `b` is `a` with other arcs.
pub open spec fn same_but_arcs(a: MixedGraph, b: MixedGraph) -> bool {
    &&& b.outgoing() == a.outgoing()
    &&& b.n == a.n
    &&& b.m == a.m
    &&& b.partition == a.partition
    &&& b.adjacencies == a.adjacencies
    &&& b.dir_adjacencies@.len() == a.dir_adjacencies@.len()
    &&& b.edges == a.edges
    &&& b.input_parts == a.input_parts
    &&& b.output_parts == a.output_parts
}

impl MixedGraph {
    fn add_arc(&mut self, from: usize, to: usize)
        requires
            from < old(self).dir_adjacencies@.len(),
        ensures
            same_but_arcs(*old(self), *final(self)),
            arc_sets(final(self).dir_adjacencies@) == arc_sets(old(self).dir_adjacencies@).update(
                from as int,
                old(self).dir_adjacencies@[from as int]@.insert(to),
            ),
    {
        let ghost o = arc_sets(self.dir_adjacencies@);
        let mut s = self.dir_adjacencies.remove(from);
        s.insert(to);
        self.dir_adjacencies.insert(from, s);
        assert(arc_sets(self.dir_adjacencies@) =~= o.update(from as int, o[from as int].insert(to)));
    }

    /// Orients every edge without an arc by the distances of its ends to the
    /// inputs and to the outputs (see [`orient_fold`]); returns those
    /// distances, per part.
    pub fn orient_by_partial_order(&mut self) -> (r: Vec<(usize, usize)>)
        requires
            graph_ok(*old(self)),
            old(self).n < usize::MAX,
        ensures
            same_but_arcs(*old(self), *final(self)),
            r@.len() == old(self).n,
            forall|v: int|
                0 <= v < r@.len() ==> is_distance(rows(old(self).adjacencies@), old(self).input_parts@, v as usize, (#[trigger] r@[v]).0)
                    && is_distance(rows(old(self).adjacencies@), old(self).output_parts@, v as usize, r@[v].1),
            arc_sets(final(self).dir_adjacencies@) == orient_fold(
                arc_sets(old(self).dir_adjacencies@),
                old(self).edges@,
                r@,
                old(self).m as nat,
            ),
            forall|x: int| 0 <= x < old(self).n ==> old(self).dir_adjacencies@[x]@.subset_of(#[trigger] final(self).dir_adjacencies@[x]@),
            forall|e: int| #![trigger old(self).edges@[e]]
                0 <= e < old(self).m && !old(self).dir_adjacencies@[old(self).edges@[e].0 as int]@.contains(old(self).edges@[e].1)
                    && !old(self).dir_adjacencies@[old(self).edges@[e].1 as int]@.contains(old(self).edges@[e].0) ==> {
                    let u = old(self).edges@[e].0;
                    let v = old(self).edges@[e].1;
                    &&& precedes(r@[u as int], r@[v as int]) ==> final(self).dir_adjacencies@[u as int]@.contains(v)
                        && !final(self).dir_adjacencies@[v as int]@.contains(u)
                    &&& precedes(r@[v as int], r@[u as int]) ==> final(self).dir_adjacencies@[v as int]@.contains(u)
                        && !final(self).dir_adjacencies@[u as int]@.contains(v)
                    &&& !precedes(r@[u as int], r@[v as int]) && !precedes(r@[v as int], r@[u as int])
                        ==> !final(self).dir_adjacencies@[u as int]@.contains(v) && !final(self).dir_adjacencies@[v as int]@.contains(u)
                },
    {
        let ghost g0 = *self;
        let distance_to_inputs = distance_to_source_set(&self.input_parts, &self.adjacencies);
        let distance_to_outputs = distance_to_source_set(&self.output_parts, &self.adjacencies);
        let mut pre: Vec<(usize, usize)> = Vec::new();
        let mut key: usize = 0;
        while key < self.n
            invariant
                *self == g0,
                graph_ok(g0),
                distance_to_inputs@.len() == g0.n,
                distance_to_outputs@.len() == g0.n,
                key <= g0.n,
                pre@.len() == key,
                forall|v: int| 0 <= v < key ==> #[trigger] pre@[v] == (distance_to_inputs@[v], distance_to_outputs@[v]),
            decreases g0.n - key,
        {
            pre.push((distance_to_inputs[key], distance_to_outputs[key]));
            key = key + 1;
        }
        let mut e: usize = 0;
        while e < self.m
            invariant
                same_but_arcs(g0, *self),
                graph_ok(g0),
                pre@.len() == g0.n,
                e <= g0.m,
                arc_sets(self.dir_adjacencies@) == orient_fold(arc_sets(g0.dir_adjacencies@), g0.edges@, pre@, e as nat),
            decreases g0.m - e,
        {
            assert(g0.edges@[e as int].0 < g0.n && g0.edges@[e as int].1 < g0.n);
            if !self.edge_oriented(e) {
                let (u, v) = self.edges[e];
                if lt(pre[u], pre[v]) {
                    self.add_arc(u, v);
                } else if lt(pre[v], pre[u]) {
                    self.add_arc(v, u);
                }
            }
            e = e + 1;
        }
        proof {
            let d0 = arc_sets(g0.dir_adjacencies@);
            assert forall|i: int| 0 <= i < g0.edges@.len() implies (#[trigger] g0.edges@[i]).0 < d0.len() && g0.edges@[i].1 < d0.len() by {}
            law_orient_by_precedence(d0, g0.edges@, pre@);
            let d = arc_sets(self.dir_adjacencies@);
            assert forall|x: int| 0 <= x < g0.n implies g0.dir_adjacencies@[x]@.subset_of(#[trigger] self.dir_adjacencies@[x]@) by {
                assert(d0[x] == g0.dir_adjacencies@[x]@ && d[x] == self.dir_adjacencies@[x]@);
                assert(d0[x].subset_of(d[x]));
            }
            assert forall|e: int| #![trigger g0.edges@[e]]
                0 <= e < g0.m && !g0.dir_adjacencies@[g0.edges@[e].0 as int]@.contains(g0.edges@[e].1)
                    && !g0.dir_adjacencies@[g0.edges@[e].1 as int]@.contains(g0.edges@[e].0) implies {
                    let u = g0.edges@[e].0;
                    let v = g0.edges@[e].1;
                    &&& precedes(pre@[u as int], pre@[v as int]) ==> self.dir_adjacencies@[u as int]@.contains(v)
                        && !self.dir_adjacencies@[v as int]@.contains(u)
                    &&& precedes(pre@[v as int], pre@[u as int]) ==> self.dir_adjacencies@[v as int]@.contains(u)
                        && !self.dir_adjacencies@[u as int]@.contains(v)
                    &&& !precedes(pre@[u as int], pre@[v as int]) && !precedes(pre@[v as int], pre@[u as int])
                        ==> !self.dir_adjacencies@[u as int]@.contains(v) && !self.dir_adjacencies@[v as int]@.contains(u)
                } by {
                let u = g0.edges@[e].0 as int;
                let v = g0.edges@[e].1 as int;
                assert(u < g0.n && v < g0.n);
                assert(d0[u] == g0.dir_adjacencies@[u]@ && d0[v] == g0.dir_adjacencies@[v]@);
                assert(d[u] == self.dir_adjacencies@[u]@ && d[v] == self.dir_adjacencies@[v]@);
                assert(!oriented(d0, u, v));
            }
        }
        pre
    }

    /// Gives every leaf part whose neighbour is no leaf an arc towards the
    /// leaf (see [`leaf_fold`]).
    pub fn orient_leaf_parts(&mut self)
        requires
            graph_ok(*old(self)),
        ensures
            same_but_arcs(*old(self), *final(self)),
            arc_sets(final(self).dir_adjacencies@) == leaf_fold(
                arc_sets(old(self).dir_adjacencies@),
                rows(old(self).adjacencies@),
                old(self).outgoing(),
                old(self).n as nat,
            ),
            forall|x: int| 0 <= x < old(self).n ==> old(self).dir_adjacencies@[x]@.subset_of(#[trigger] final(self).dir_adjacencies@[x]@),
            forall|v: int|
                0 <= v < old(self).n && #[trigger] lone_leaf(rows(old(self).adjacencies@), v) && !old(
                    self,
                ).dir_adjacencies@[old(self).adjacencies@[v]@[0] as int]@.contains(v as usize) && !old(self).dir_adjacencies@[v]@.contains(
                    old(self).adjacencies@[v]@[0],
                ) ==> if old(self).outgoing() {
                    final(self).dir_adjacencies@[old(self).adjacencies@[v]@[0] as int]@.contains(v as usize)
                } else {
                    final(self).dir_adjacencies@[v]@.contains(old(self).adjacencies@[v]@[0])
                },
            forall|x: int, y: usize|
                0 <= x < old(self).n && #[trigger] final(self).dir_adjacencies@[x]@.contains(y) && !old(self).dir_adjacencies@[x]@.contains(y)
                    ==> leaf_arc(rows(old(self).adjacencies@), old(self).outgoing(), x, y, old(self).n as nat),
    {
        let ghost g0 = *self;
        let ghost adj = rows(g0.adjacencies@);
        let mut v: usize = 0;
        while v < self.n
            invariant
                same_but_arcs(g0, *self),
                graph_ok(g0),
                adj == rows(g0.adjacencies@),
                v <= g0.n,
                arc_sets(self.dir_adjacencies@) == leaf_fold(arc_sets(g0.dir_adjacencies@), adj, g0.outgoing(), v as nat),
            decreases g0.n - v,
        {
            assert(adj[v as int] == self.adjacencies@[v as int]@);
            if self.adjacencies[v].len() == 1 {
                let u = self.adjacencies[v][0];
                assert(u == adj[v as int][0]);
                assert(adj[u as int] == self.adjacencies@[u as int]@);
                if self.adjacencies[u].len() != 1 {
                    if !self.pair_oriented(u, v) {
                        if self.dir_adjacencies_is_outgoing {
                            self.add_arc(u, v);
                        } else {
                            self.add_arc(v, u);
                        }
                    }
                }
            }
            v = v + 1;
        }
        proof {
            let d0 = arc_sets(g0.dir_adjacencies@);
            let d = arc_sets(self.dir_adjacencies@);
            assert forall|w: int, j: int| 0 <= w < adj.len() && 0 <= j < adj[w].len() implies #[trigger] adj[w][j] < adj.len() by {
                assert(adj[w] == g0.adjacencies@[w]@);
            }
            lemma_leaf_fold(d0, adj, g0.outgoing(), g0.n as nat);
            assert forall|x: int| 0 <= x < g0.n implies g0.dir_adjacencies@[x]@.subset_of(#[trigger] self.dir_adjacencies@[x]@) by {
                assert(d0[x] == g0.dir_adjacencies@[x]@ && d[x] == self.dir_adjacencies@[x]@);
            }
            assert forall|w: int|
                0 <= w < g0.n && #[trigger] lone_leaf(adj, w) && !g0.dir_adjacencies@[g0.adjacencies@[w]@[0] as int]@.contains(
                    w as usize,
                ) && !g0.dir_adjacencies@[w]@.contains(g0.adjacencies@[w]@[0]) implies if g0.outgoing() {
                self.dir_adjacencies@[g0.adjacencies@[w]@[0] as int]@.contains(w as usize)
            } else {
                self.dir_adjacencies@[w]@.contains(g0.adjacencies@[w]@[0])
            } by {
                assert(adj[w] == g0.adjacencies@[w]@);
                let u = adj[w][0] as int;
                assert(0 <= u < g0.n);
                assert(d0[u] == g0.dir_adjacencies@[u]@ && d0[w] == g0.dir_adjacencies@[w]@);
                assert(d[u] == self.dir_adjacencies@[u]@ && d[w] == self.dir_adjacencies@[w]@);
            }
            assert forall|x: int, y: usize|
                0 <= x < g0.n && #[trigger] self.dir_adjacencies@[x]@.contains(y) && !g0.dir_adjacencies@[x]@.contains(y)
                    implies leaf_arc(adj, g0.outgoing(), x, y, g0.n as nat) by {
                assert(d0[x] == g0.dir_adjacencies@[x]@ && d[x] == self.dir_adjacencies@[x]@);
            }
        }
    }

    /// What the orientation model is given for each edge: whether it still
    /// lacks an arc, and its arc as `2` (from its first end while arcs are
    /// read as outgoing), `1` (the other way), or `0` (none).
    pub fn export_to_dzn(&self) -> (r: (Vec<bool>, Vec<usize>))
        requires
            graph_ok(*self),
        ensures
            r.0@.len() == self.m,
            r.1@.len() == self.m,
            forall|e: int| 0 <= e < self.m ==> #[trigger] r.0@[e] == !oriented(
                arc_sets(self.dir_adjacencies@),
                self.edges@[e].0 as int,
                self.edges@[e].1 as int,
            ),
            forall|e: int| 0 <= e < self.m ==> #[trigger] r.1@[e] == ({
                let contains_value: usize = if self.outgoing() { 2 } else { 1 };
                let (a, b) = self.edges@[e];
                if self.dir_adjacencies@[a as int]@.contains(b) {
                    contains_value
                } else if self.dir_adjacencies@[b as int]@.contains(a) {
                    (3 - contains_value) as usize
                } else {
                    0
                }
            }),
    {
        let contains_value: usize = if self.dir_adjacencies_is_outgoing { 2 } else { 1 };
        let mut fuzzy: Vec<bool> = Vec::new();
        let mut init_direction: Vec<usize> = Vec::new();
        let mut e: usize = 0;
        while e < self.m
            invariant
                graph_ok(*self),
                contains_value == if self.outgoing() { 2usize } else { 1usize },
                e <= self.m,
                fuzzy@.len() == e,
                init_direction@.len() == e,
                forall|k: int| 0 <= k < e ==> #[trigger] fuzzy@[k] == !oriented(
                    arc_sets(self.dir_adjacencies@),
                    self.edges@[k].0 as int,
                    self.edges@[k].1 as int,
                ),
                forall|k: int| 0 <= k < e ==> #[trigger] init_direction@[k] == ({
                    let (a, b) = self.edges@[k];
                    if self.dir_adjacencies@[a as int]@.contains(b) {
                        contains_value
                    } else if self.dir_adjacencies@[b as int]@.contains(a) {
                        (3 - contains_value) as usize
                    } else {
                        0
                    }
                }),
            decreases self.m - e,
        {
            let (a, b) = self.edges[e];
            fuzzy.push(!self.pair_oriented(a, b));
            let dv = if self.dir_adjacencies[a].contains(&b) {
                contains_value
            } else if self.dir_adjacencies[b].contains(&a) {
                3 - contains_value
            } else {
                0
            };
            init_direction.push(dv);
            e = e + 1;
        }
        (fuzzy, init_direction)
    }
}


// ---------------------------------------------------------------------------
// Merging parts.
// ---------------------------------------------------------------------------

/// `comps` splits the parts `0..n` into groups: each part in exactly one.
pub open spec fn partitions(comps: Seq<Seq<usize>>, n: nat) -> bool {
    &&& forall|c: int, j: int| 0 <= c < comps.len() && 0 <= j < comps[c].len() ==> #[trigger] comps[c][j] < n
    &&& forall|v: usize| v < n ==> #[trigger] in_some(comps, v)
    &&& forall|c1: int, j1: int, c2: int, j2: int|
        0 <= c1 < comps.len() && 0 <= j1 < comps[c1].len() && 0 <= c2 < comps.len() && 0 <= j2 < comps[c2].len()
            && #[trigger] comps[c1][j1] == #[trigger] comps[c2][j2] ==> c1 == c2 && j1 == j2
}

/// Some group holds part `v`.
pub open spec fn in_some(comps: Seq<Seq<usize>>, v: usize) -> bool {
    exists|c: int, j: int| 0 <= c < comps.len() && 0 <= j < comps[c].len() && #[trigger] comps[c][j] == v
}

/// The group holding part `v`.
pub open spec fn comp_of(comps: Seq<Seq<usize>>, v: usize) -> int {
    choose|c: int| 0 <= c < comps.len() && comps[c].contains(v)
}

/// The rows `parts[m]` of the members `m`, one after the other.
pub open spec fn members_concat(parts: Seq<Seq<usize>>, members: Seq<usize>) -> Seq<usize>
    decreases members.len(),
{
    if members.len() == 0 {
        Seq::empty()
    } else {
        members_concat(parts, members.drop_last()) + parts[members.last() as int]
    }
}

/// The groups of the neighbours of the members, in order, repeats included.
pub open spec fn member_neighbours(adj: Seq<Seq<usize>>, comps: Seq<Seq<usize>>, members: Seq<usize>) -> Seq<usize> {
    members_concat(adj, members).map_values(|x: usize| comp_of(comps, x) as usize)
}

/// `xs` without `c` and without repeats, each kept where first met.
pub open spec fn distinct_except(xs: Seq<usize>, c: usize) -> Seq<usize>
    decreases xs.len(),
{
    if xs.len() == 0 {
        Seq::empty()
    } else {
        let p = distinct_except(xs.drop_last(), c);
        if xs.last() == c || p.contains(xs.last()) {
            p
        } else {
            p.push(xs.last())
        }
    }
}

/// The groups other than `c` that an arc of a member of group `c` points to.
pub open spec fn merged_arcs(dir: Seq<Set<usize>>, comps: Seq<Seq<usize>>, c: int, n: nat) -> Set<usize> {
    Set::new(
        |y: usize|
            y != c && exists|j: int, x: usize|
                0 <= j < comps[c].len() && x < n && #[trigger] dir[comps[c][j] as int].contains(x) && comp_of(comps, x) == y,
    )
}

/// The groups of the parts of `s`.
pub open spec fn comp_image(comps: Seq<Seq<usize>>, s: Set<usize>) -> Set<usize> {
    Set::new(|y: usize| exists|x: usize| s.contains(x) && comp_of(comps, x) == y)
}

pub proof fn lemma_comp_of(comps: Seq<Seq<usize>>, n: nat, c: int, j: int)
    requires
        partitions(comps, n),
        0 <= c < comps.len(),
        0 <= j < comps[c].len(),
    ensures
        comp_of(comps, comps[c][j]) == c,
{
    let v = comps[c][j];
    assert(comps[c].contains(v));
    let c2 = comp_of(comps, v);
    let j2 = choose|j2: int| 0 <= j2 < comps[c2].len() && comps[c2][j2] == v;
    assert(comps[c2][j2] == comps[c][j]);
}

fn edges_of_exec(adjacencies: &Vec<Vec<usize>>) -> (r: Vec<(usize, usize)>)
    ensures
        r@ == edges_of(rows(adjacencies@)),
{
    let ghost adj = rows(adjacencies@);
    let mut edges: Vec<(usize, usize)> = Vec::new();
    let mut idx: usize = 0;
    while idx < adjacencies.len()
        invariant
            adj == rows(adjacencies@),
            idx <= adj.len(),
            edges@ == edges_upto(adj, idx as nat),
        decreases adj.len() - idx,
    {
        let row = &adjacencies[idx];
        assert(adj[idx as int] == row@);
        let ghost e0 = edges@;
        let mut j: usize = 0;
        assert(row@.take(0) =~= Seq::<usize>::empty());
        while j < row.len()
            invariant
                j <= row@.len(),
                edges@ == e0 + row_edges(idx as int, row@.take(j as int)),
            decreases row@.len() - j,
        {
            assert(row@.take(j + 1).drop_last() =~= row@.take(j as int));
            if idx < row[j] {
                edges.push((idx, row[j]));
            }
            assert(edges@ =~= e0 + row_edges(idx as int, row@.take(j + 1)));
            j = j + 1;
        }
        assert(row@.take(row@.len() as int) =~= row@);
        idx = idx + 1;
    }
    edges
}

fn push_row(out: &mut Vec<usize>, row: &Vec<usize>)
    ensures
        final(out)@ == old(out)@ + row@,
{
    let ghost o = out@;
    let mut i: usize = 0;
    while i < row.len()
        invariant
            i <= row@.len(),
            out@ == o + row@.take(i as int),
        decreases row@.len() - i,
    {
        out.push(row[i]);
        assert(row@.take(i + 1) =~= row@.take(i as int).push(row@[i as int]));
        assert(out@ =~= o + row@.take(i + 1));
        i = i + 1;
    }
    assert(row@.take(row@.len() as int) =~= row@);
}

pub(crate) fn contains_usize(v: &Vec<usize>, x: usize) -> (r: bool)
    ensures
        r == v@.contains(x),
{
    let mut i: usize = 0;
    while i < v.len()
        invariant
            i <= v@.len(),
            forall|k: int| 0 <= k < i ==> v@[k] != x,
        decreases v@.len() - i,
    {
        if v[i] == x {
            assert(v@[i as int] == x);
            return true;
        }
        i = i + 1;
    }
    false
}

impl MixedGraph {
    /// The graph of the groups `components` (each part of `0..n` in exactly
    /// one group): a group holds the constraints of its members in member
    /// order, neighbours the groups its members neighbour (each once, first
    /// met first, itself excluded), has the arcs of its members towards
    /// other groups, and is an input (output) group when a member is.
    pub fn merge(&self, components: &Vec<Vec<usize>>) -> (r: MixedGraph)
        requires
            graph_ok(*self),
            partitions(rows(components@), self.n as nat),
            forall|v: int, x: usize| 0 <= v < self.n && #[trigger] self.dir_adjacencies@[v]@.contains(x) ==> x < self.n,
        ensures
            r.n == components@.len(),
            r.partition@.len() == components@.len(),
            r.adjacencies@.len() == components@.len(),
            r.dir_adjacencies@.len() == components@.len(),
            forall|c: int| 0 <= c < components@.len() ==> (#[trigger] r.partition@[c])@ == members_concat(
                rows(self.partition@),
                components@[c]@,
            ),
            forall|c: int| 0 <= c < components@.len() ==> (#[trigger] r.adjacencies@[c])@ == distinct_except(
                member_neighbours(rows(self.adjacencies@), rows(components@), components@[c]@),
                c as usize,
            ),
            forall|c: int| 0 <= c < components@.len() ==> (#[trigger] r.dir_adjacencies@[c])@ == merged_arcs(
                arc_sets(self.dir_adjacencies@),
                rows(components@),
                c,
                self.n as nat,
            ),
            r.edges@ == edges_of(rows(r.adjacencies@)),
            r.m == r.edges@.len(),
            r.input_parts@ == comp_image(rows(components@), self.input_parts@),
            r.output_parts@ == comp_image(rows(components@), self.output_parts@),
            r.outgoing(),
    {
        let ghost comps = rows(components@);
        let ghost adj = rows(self.adjacencies@);
        let ghost dir = arc_sets(self.dir_adjacencies@);
        let n = self.n;
        let mut comp_index: Vec<usize> = Vec::new();
        let mut v: usize = 0;
        while v < n
            invariant
                v <= n,
                comp_index@.len() == v,
            decreases n - v,
        {
            comp_index.push(0);
            v = v + 1;
        }
        let mut c: usize = 0;
        while c < components.len()
            invariant
                comps == rows(components@),
                partitions(comps, n as nat),
                c <= comps.len(),
                comp_index@.len() == n,
                forall|c2: int, j: int| 0 <= c2 < c && 0 <= j < comps[c2].len() ==> comp_index@[#[trigger] comps[c2][j] as int] == c2,
            decreases comps.len() - c,
        {
            let members = &components[c];
            assert(comps[c as int] == members@);
            let mut j: usize = 0;
            while j < members.len()
                invariant
                    comps == rows(components@),
                    partitions(comps, n as nat),
                    c < comps.len(),
                    comps[c as int] == members@,
                    j <= members@.len(),
                    comp_index@.len() == n,
                    forall|c2: int, j2: int| 0 <= c2 < c && 0 <= j2 < comps[c2].len() ==> comp_index@[#[trigger] comps[c2][j2] as int] == c2,
                    forall|j2: int| 0 <= j2 < j ==> comp_index@[#[trigger] members@[j2] as int] == c,
                decreases members@.len() - j,
            {
                let x = members[j];
                assert(comps[c as int][j as int] == x);
                let ghost before = comp_index@;
                comp_index.set(x, c);
                assert forall|c2: int, j2: int| 0 <= c2 < c && 0 <= j2 < comps[c2].len() implies comp_index@[#[trigger] comps[c2][j2] as int] == c2 by {
                    if comps[c2][j2] == x {
                        assert(comps[c2][j2] == comps[c as int][j as int]);
                    }
                }
                assert forall|j2: int| 0 <= j2 < j + 1 implies comp_index@[#[trigger] members@[j2] as int] == c by {
                    if j2 < j && members@[j2] == x {
                        assert(comps[c as int][j2] == comps[c as int][j as int]);
                    }
                }
                j = j + 1;
            }
            c = c + 1;
        }
        assert forall|x: int| 0 <= x < n implies #[trigger] comp_index@[x] == comp_of(comps, x as usize) by {
            assert(in_some(comps, x as usize));
            let (c2, j2) = choose|c2: int, j2: int| 0 <= c2 < comps.len() && 0 <= j2 < comps[c2].len() && #[trigger] comps[c2][j2] == x as usize;
            lemma_comp_of(comps, n as nat, c2, j2);
        }
        let mut partition: Vec<Vec<usize>> = Vec::new();
        let mut adjacencies: Vec<Vec<usize>> = Vec::new();
        let mut dir_adjacencies: Vec<HashSet<usize>> = Vec::new();
        let mut c: usize = 0;
        while c < components.len()
            invariant
                comps == rows(components@),
                adj == rows(self.adjacencies@),
                dir == arc_sets(self.dir_adjacencies@),
                graph_ok(*self),
                n == self.n,
                partitions(comps, n as nat),
                forall|v2: int, x: usize| 0 <= v2 < n && #[trigger] self.dir_adjacencies@[v2]@.contains(x) ==> x < n,
                comp_index@.len() == n,
                forall|x: int| 0 <= x < n ==> #[trigger] comp_index@[x] == comp_of(comps, x as usize),
                c <= comps.len(),
                partition@.len() == c,
                adjacencies@.len() == c,
                dir_adjacencies@.len() == c,
                forall|c2: int| 0 <= c2 < c ==> (#[trigger] partition@[c2])@ == members_concat(rows(self.partition@), comps[c2]),
                forall|c2: int| 0 <= c2 < c ==> (#[trigger] adjacencies@[c2])@ == distinct_except(
                    member_neighbours(adj, comps, comps[c2]),
                    c2 as usize,
                ),
                forall|c2: int| 0 <= c2 < c ==> (#[trigger] dir_adjacencies@[c2])@ == merged_arcs(dir, comps, c2, n as nat),
            decreases comps.len() - c,
        {
            let members = &components[c];
            assert(comps[c as int] == members@);
            let mut part: Vec<usize> = Vec::new();
            let mut row: Vec<usize> = Vec::new();
            let mut arcs: HashSet<usize> = HashSet::new();
            let mut j: usize = 0;
            assert(members@.take(0) =~= Seq::<usize>::empty());
            assert(arcs@ =~= Set::new(|y: usize| y != c && exists|j2: int, x: usize| 0 <= j2 < 0 && x < n && #[trigger] dir[members@[j2] as int].contains(x) && comp_of(comps, x) == y));
            while j < members.len()
                invariant
                    comps == rows(components@),
                    adj == rows(self.adjacencies@),
                    dir == arc_sets(self.dir_adjacencies@),
                    graph_ok(*self),
                    n == self.n,
                    partitions(comps, n as nat),
                    c < comps.len(),
                    comps[c as int] == members@,
                    comp_index@.len() == n,
                    forall|x: int| 0 <= x < n ==> #[trigger] comp_index@[x] == comp_of(comps, x as usize),
                    forall|v2: int, x: usize| 0 <= v2 < n && #[trigger] self.dir_adjacencies@[v2]@.contains(x) ==> x < n,
                    j <= members@.len(),
                    part@ == members_concat(rows(self.partition@), members@.take(j as int)),
                    row@ == distinct_except(member_neighbours(adj, comps, members@.take(j as int)), c as usize),
                    arcs@ == Set::new(|y: usize| y != c && exists|j2: int, x: usize| 0 <= j2 < j && x < n && #[trigger] dir[members@[j2] as int].contains(x) && comp_of(comps, x) == y),
                decreases members@.len() - j,
            {
                let mv = members[j];
                assert(comps[c as int][j as int] == mv);
                assert(mv < n);
                let ghost pre = members@.take(j as int);
                let ghost pre1 = members@.take(j + 1);
                assert(pre1.drop_last() =~= pre);
                assert(pre1.last() == mv);
                push_row(&mut part, &self.partition[mv]);
                let arow = &self.adjacencies[mv];
                assert(adj[mv as int] == arow@);
                let ghost mc0 = members_concat(adj, pre);
                assert(members_concat(adj, pre1) == mc0 + arow@);
                let mut k: usize = 0;
                assert(mc0 + arow@.take(0) =~= mc0);
                while k < arow.len()
                    invariant
                        comps == rows(components@),
                        adj == rows(self.adjacencies@),
                        graph_ok(*self),
                        n == self.n,
                        mv < n,
                        arow@ == adj[mv as int],
                        comp_index@.len() == n,
                        forall|x: int| 0 <= x < n ==> #[trigger] comp_index@[x] == comp_of(comps, x as usize),
                        k <= arow@.len(),
                        row@ == distinct_except((mc0 + arow@.take(k as int)).map_values(|x: usize| comp_of(comps, x) as usize), c as usize),
                    decreases arow@.len() - k,
                {
                    let x = arow[k];
                    assert(x == self.adjacencies@[mv as int]@[k as int]);
                    assert(x < n);
                    let y = comp_index[x];
                    let ghost xs0 = (mc0 + arow@.take(k as int)).map_values(|x: usize| comp_of(comps, x) as usize);
                    let ghost xs1 = (mc0 + arow@.take(k + 1)).map_values(|x: usize| comp_of(comps, x) as usize);
                    assert(xs1.drop_last() =~= xs0);
                    assert(xs1.last() == y);
                    if y != c && !contains_usize(&row, y) {
                        row.push(y);
                    }
                    k = k + 1;
                }
                assert(mc0 + arow@.take(arow@.len() as int) =~= mc0 + arow@);
                let ghost a0 = arcs@;
                let mut x: usize = 0;
                while x < n
                    invariant
                        comps == rows(components@),
                        dir == arc_sets(self.dir_adjacencies@),
                        graph_ok(*self),
                        n == self.n,
                        mv < n,
                        comp_index@.len() == n,
                        forall|x2: int| 0 <= x2 < n ==> #[trigger] comp_index@[x2] == comp_of(comps, x2 as usize),
                        x <= n,
                        arcs@ == a0.union(Set::new(|y: usize| y != c && exists|x2: usize| x2 < x && #[trigger] dir[mv as int].contains(x2) && comp_of(comps, x2) == y)),
                    decreases n - x,
                {
                    assert(dir[mv as int] == self.dir_adjacencies@[mv as int]@);
                    if self.dir_adjacencies[mv].contains(&x) {
                        let y = comp_index[x];
                        if y != c {
                            arcs.insert(y);
                        }
                    }
                    assert(arcs@ =~= a0.union(Set::new(|y: usize| y != c && exists|x2: usize| x2 < x + 1 && #[trigger] dir[mv as int].contains(x2) && comp_of(comps, x2) == y))) by {
                        assert forall|y: usize| (y != c && exists|x2: usize| x2 < x + 1 && #[trigger] dir[mv as int].contains(x2) && comp_of(comps, x2) == y)
                            implies arcs@.contains(y) by {
                            let x2 = choose|x2: usize| x2 < x + 1 && #[trigger] dir[mv as int].contains(x2) && comp_of(comps, x2) == y;
                            if x2 == x {
                                assert(comp_index@[x as int] == y);
                            }
                        }
                    }
                    x = x + 1;
                }
                assert(arcs@ =~= Set::new(|y: usize| y != c && exists|j2: int, x2: usize| 0 <= j2 < j + 1 && x2 < n && #[trigger] dir[members@[j2] as int].contains(x2) && comp_of(comps, x2) == y)) by {
                    assert forall|y: usize| #[trigger] arcs@.contains(y) implies (y != c && exists|j2: int, x2: usize| 0 <= j2 < j + 1 && x2 < n && #[trigger] dir[members@[j2] as int].contains(x2) && comp_of(comps, x2) == y) by {
                        if !a0.contains(y) {
                            let x2 = choose|x2: usize| x2 < n && #[trigger] dir[mv as int].contains(x2) && comp_of(comps, x2) == y;
                            assert(dir[members@[j as int] as int].contains(x2));
                        }
                    }
                    assert forall|y: usize| (y != c && exists|j2: int, x2: usize| 0 <= j2 < j + 1 && x2 < n && #[trigger] dir[members@[j2] as int].contains(x2) && comp_of(comps, x2) == y) implies #[trigger] arcs@.contains(y) by {
                        let (j2, x2) = choose|j2: int, x2: usize| 0 <= j2 < j + 1 && x2 < n && #[trigger] dir[members@[j2] as int].contains(x2) && comp_of(comps, x2) == y;
                        if j2 == j {
                            assert(dir[mv as int].contains(x2));
                        }
                    }
                }
                j = j + 1;
            }
            assert(members@.take(members@.len() as int) =~= members@);
            partition.push(part);
            adjacencies.push(row);
            assert(arcs@ =~= merged_arcs(dir, comps, c as int, n as nat));
            dir_adjacencies.push(arcs);
            c = c + 1;
        }
        let mut inputs: HashSet<usize> = HashSet::new();
        let mut outputs: HashSet<usize> = HashSet::new();
        let mut x: usize = 0;
        while x < n
            invariant
                comps == rows(components@),
                graph_ok(*self),
                n == self.n,
                comp_index@.len() == n,
                forall|x2: int| 0 <= x2 < n ==> #[trigger] comp_index@[x2] == comp_of(comps, x2 as usize),
                x <= n,
                inputs@ == Set::new(|y: usize| exists|x2: usize| x2 < x && self.input_parts@.contains(x2) && comp_of(comps, x2) == y),
                outputs@ == Set::new(|y: usize| exists|x2: usize| x2 < x && self.output_parts@.contains(x2) && comp_of(comps, x2) == y),
            decreases n - x,
        {
            if self.input_parts.contains(&x) {
                inputs.insert(comp_index[x]);
            }
            if self.output_parts.contains(&x) {
                outputs.insert(comp_index[x]);
            }
            assert(inputs@ =~= Set::new(|y: usize| exists|x2: usize| x2 < x + 1 && self.input_parts@.contains(x2) && comp_of(comps, x2) == y)) by {
                assert forall|y: usize| (exists|x2: usize| x2 < x + 1 && self.input_parts@.contains(x2) && comp_of(comps, x2) == y) implies inputs@.contains(y) by {
                    let x2 = choose|x2: usize| x2 < x + 1 && self.input_parts@.contains(x2) && comp_of(comps, x2) == y;
                    if x2 == x {
                        assert(comp_index@[x as int] == y);
                    }
                }
            }
            assert(outputs@ =~= Set::new(|y: usize| exists|x2: usize| x2 < x + 1 && self.output_parts@.contains(x2) && comp_of(comps, x2) == y)) by {
                assert forall|y: usize| (exists|x2: usize| x2 < x + 1 && self.output_parts@.contains(x2) && comp_of(comps, x2) == y) implies outputs@.contains(y) by {
                    let x2 = choose|x2: usize| x2 < x + 1 && self.output_parts@.contains(x2) && comp_of(comps, x2) == y;
                    if x2 == x {
                        assert(comp_index@[x as int] == y);
                    }
                }
            }
            x = x + 1;
        }
        assert(inputs@ =~= comp_image(comps, self.input_parts@));
        assert(outputs@ =~= comp_image(comps, self.output_parts@));
        let edges = edges_of_exec(&adjacencies);
        let nn = partition.len();
        let m = edges.len();
        MixedGraph {
            n: nn,
            m,
            partition,
            adjacencies,
            dir_adjacencies,
            edges,
            input_parts: inputs,
            output_parts: outputs,
            dir_adjacencies_is_outgoing: true,
        }
    }
}

} // verus!
