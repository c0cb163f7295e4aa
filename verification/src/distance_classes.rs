//! Merging of the parts that the distances to the inputs and to the outputs
//! cannot tell apart: after orienting by those distances, the parts joined by
//! edges that are still without an arc and whose ends are at the same
//! distances are merged into one, and all is done again until no such edge
//! is left.
use vstd::prelude::*;
use std::collections::HashSet;
use crate::mixed_graph::{
    MixedGraph, arc_sets, comp_image, comp_of, distance_to_source_set, distinct_except, edges_of, edges_upto,
    graph_ok, in_some, is_distance, lemma_neighbour_within, member_neighbours, members_concat, merged_arcs,
    neighbours, orient_fold, oriented, partitions, row_edges, rows, within,
};
use crate::orientation::{lemma_distance_unique, plain_preorder};

verus! {

broadcast use vstd::std_specs::hash::group_hash_axioms;

// ---------------------------------------------------------------------------
// Parts joined by a path.
// ---------------------------------------------------------------------------

/// A path leads from `u` to `v`.
pub open spec fn joined(adj: Seq<Seq<usize>>, u: usize, v: usize) -> bool {
    exists|k: nat| #[trigger] within(adj, set![u], k).contains(v)
}

/// Each adjacency goes both ways.
pub open spec fn symmetric(adj: Seq<Seq<usize>>) -> bool {
    forall|x: int, y: usize| 0 <= x < adj.len() && #[trigger] adj[x].contains(y) ==> y < adj.len() && adj[y as int].contains(x as usize)
}

proof fn lemma_joined_refl(adj: Seq<Seq<usize>>, u: usize)
    ensures
        joined(adj, u, u),
{
    assert(within(adj, set![u], 0).contains(u));
}

/// What a source reaches in `k` steps, a part it reaches in `k1` steps
/// reaches in `k1 + k`.
proof fn lemma_within_shift(adj: Seq<Seq<usize>>, a: usize, b: usize, k1: nat, k: nat)
    requires
        within(adj, set![a], k1).contains(b),
    ensures
        within(adj, set![b], k).subset_of(within(adj, set![a], k1 + k)),
    decreases k,
{
    if k > 0 {
        lemma_within_shift(adj, a, b, k1, (k - 1) as nat);
        let p = within(adj, set![b], (k - 1) as nat);
        assert forall|x: usize| neighbours(adj, p).contains(x) implies within(adj, set![a], k1 + k).contains(x) by {
            let (y, j) = choose|y: usize, j: int|
                p.contains(y) && y < adj.len() && 0 <= j < adj[y as int].len() && #[trigger] adj[y as int][j] == x;
            lemma_neighbour_within(adj, set![a], (k1 + k - 1) as nat, y, j);
        }
    }
}

proof fn lemma_joined_trans(adj: Seq<Seq<usize>>, a: usize, b: usize, c: usize)
    requires
        joined(adj, a, b),
        joined(adj, b, c),
    ensures
        joined(adj, a, c),
{
    let k1 = choose|k: nat| #[trigger] within(adj, set![a], k).contains(b);
    let k2 = choose|k: nat| #[trigger] within(adj, set![b], k).contains(c);
    lemma_within_shift(adj, a, b, k1, k2);
    assert(within(adj, set![a], k1 + k2).contains(c));
}

proof fn lemma_within_sym(adj: Seq<Seq<usize>>, a: usize, b: usize, k: nat)
    requires
        symmetric(adj),
        within(adj, set![a], k).contains(b),
    ensures
        joined(adj, b, a),
    decreases k,
{
    if k == 0 {
        assert(b == a);
        lemma_joined_refl(adj, a);
    } else {
        let p = within(adj, set![a], (k - 1) as nat);
        if p.contains(b) {
            lemma_within_sym(adj, a, b, (k - 1) as nat);
        } else {
            assert(neighbours(adj, p).contains(b));
            let (y, j) = choose|y: usize, j: int|
                p.contains(y) && y < adj.len() && 0 <= j < adj[y as int].len() && #[trigger] adj[y as int][j] == b;
            lemma_within_sym(adj, a, y, (k - 1) as nat);
            assert(adj[y as int].contains(b));
            assert(adj[b as int].contains(y));
            let i = adj[b as int].index_of(y);
            assert(within(adj, set![b], 0).contains(b));
            lemma_neighbour_within(adj, set![b], 0, b, i);
            assert(within(adj, set![b], 1).contains(y));
            lemma_joined_trans(adj, b, y, a);
        }
    }
}

proof fn lemma_joined_sym(adj: Seq<Seq<usize>>, a: usize, b: usize)
    requires
        symmetric(adj),
        joined(adj, a, b),
    ensures
        joined(adj, b, a),
{
    let k = choose|k: nat| #[trigger] within(adj, set![a], k).contains(b);
    lemma_within_sym(adj, a, b, k);
}

// ---------------------------------------------------------------------------
// Classes of joined parts.
// ---------------------------------------------------------------------------

/// The parts below `k` joined to `v`, in increasing order.
pub open spec fn joined_upto(adj: Seq<Seq<usize>>, v: usize, k: nat) -> Seq<usize>
    decreases k,
{
    if k == 0 {
        Seq::empty()
    } else {
        let s = joined_upto(adj, v, (k - 1) as nat);
        if joined(adj, v, (k - 1) as usize) {
            s.push((k - 1) as usize)
        } else {
            s
        }
    }
}

/// No smaller part is joined to `v`.
pub open spec fn leads(adj: Seq<Seq<usize>>, v: usize) -> bool {
    forall|u: usize| u < v ==> !#[trigger] joined(adj, u, v)
}

/// The classes of the parts below `k`, one per least member, in order.
pub open spec fn classes_upto(adj: Seq<Seq<usize>>, n: nat, k: nat) -> Seq<Seq<usize>>
    decreases k,
{
    if k == 0 {
        Seq::empty()
    } else {
        let c = classes_upto(adj, n, (k - 1) as nat);
        if leads(adj, (k - 1) as usize) {
            c.push(joined_upto(adj, (k - 1) as usize, n))
        } else {
            c
        }
    }
}

proof fn lemma_joined_upto(adj: Seq<Seq<usize>>, v: usize, k: nat)
    requires
        k <= usize::MAX,
    ensures
        forall|j: int| 0 <= j < joined_upto(adj, v, k).len() ==> #[trigger] joined_upto(adj, v, k)[j] < k
            && joined(adj, v, joined_upto(adj, v, k)[j]),
        forall|i: int, j: int| 0 <= i < j < joined_upto(adj, v, k).len() ==> #[trigger] joined_upto(adj, v, k)[i]
            < #[trigger] joined_upto(adj, v, k)[j],
        forall|w: usize| w < k && joined(adj, v, w) ==> #[trigger] joined_upto(adj, v, k).contains(w),
    decreases k,
{
    if k > 0 {
        lemma_joined_upto(adj, v, (k - 1) as nat);
        let s = joined_upto(adj, v, (k - 1) as nat);
        if joined(adj, v, (k - 1) as usize) {
            let t = s.push((k - 1) as usize);
            assert(t[s.len() as int] == (k - 1) as usize);
            assert forall|i: int, j: int| 0 <= i < j < t.len() implies #[trigger] t[i] < #[trigger] t[j] by {
                assert(t[i] == s[i]);
                if j < s.len() {
                    assert(t[j] == s[j]);
                    assert(s[i] < s[j]);
                } else {
                    assert(j == s.len());
                    assert(t[j] == (k - 1) as usize);
                    assert(s[i] < k - 1);
                }
            }
        }
        assert forall|w: usize| w < k && joined(adj, v, w) implies #[trigger] joined_upto(adj, v, k).contains(w) by {
            if w < k - 1 {
                assert(s.contains(w));
                let i = s.index_of(w);
                assert(joined_upto(adj, v, k)[i] == w);
            } else {
                assert(joined_upto(adj, v, k)[s.len() as int] == w);
            }
        }
    }
}

/// Some part below `v` is joined to `w`.
pub open spec fn reached_before(adj: Seq<Seq<usize>>, v: usize, w: usize) -> bool {
    exists|u: usize| u < v && #[trigger] joined(adj, u, w)
}

proof fn lemma_leader_exists(adj: Seq<Seq<usize>>, u: usize, w: usize)
    requires
        joined(adj, u, w),
    ensures
        exists|l: usize| l <= u && #[trigger] leads(adj, l) && joined(adj, l, w),
    decreases u,
{
    if !leads(adj, u) {
        let u2 = choose|u2: usize| u2 < u && #[trigger] joined(adj, u2, u);
        lemma_joined_trans(adj, u2, u, w);
        lemma_leader_exists(adj, u2, w);
    }
}

/// The classes of joined parts (see [`classes_upto`]).
fn joined_classes(adj: &Vec<Vec<usize>>) -> (r: Vec<Vec<usize>>)
    requires
        adj@.len() < usize::MAX,
        symmetric(rows(adj@)),
        forall|u: int, j: int| 0 <= u < adj@.len() && 0 <= j < adj@[u]@.len() ==> #[trigger] adj@[u]@[j] < adj@.len(),
    ensures
        rows(r@) == classes_upto(rows(adj@), adj@.len() as nat, adj@.len() as nat),
        partitions(rows(r@), adj@.len() as nat),
        r@.len() <= adj@.len(),
{
    let n = adj.len();
    let ghost a = rows(adj@);
    let mut assigned: Vec<bool> = Vec::new();
    let mut w: usize = 0;
    while w < n
        invariant
            w <= n,
            assigned@.len() == w,
            forall|x: int| 0 <= x < w ==> !(#[trigger] assigned@[x]),
        decreases n - w,
    {
        assigned.push(false);
        w = w + 1;
    }
    let mut r: Vec<Vec<usize>> = Vec::new();
    let ghost mut lead: Seq<usize> = Seq::empty();
    let mut v: usize = 0;
    while v < n
        invariant
            n == adj@.len(),
            n < usize::MAX,
            a == rows(adj@),
            symmetric(a),
            forall|u: int, j: int| 0 <= u < n && 0 <= j < adj@[u]@.len() ==> #[trigger] adj@[u]@[j] < n,
            v <= n,
            assigned@.len() == n,
            forall|x: int| 0 <= x < n ==> #[trigger] assigned@[x] == reached_before(a, v, x as usize),
            rows(r@) == classes_upto(a, n as nat, v as nat),
            lead.len() == r@.len(),
            r@.len() <= v,
            forall|c: int| 0 <= c < lead.len() ==> #[trigger] lead[c] < v && leads(a, lead[c]) && rows(r@)[c]
                == joined_upto(a, lead[c], n as nat),
            forall|c1: int, c2: int| 0 <= c1 < c2 < lead.len() ==> #[trigger] lead[c1] < #[trigger] lead[c2],
            forall|l: usize| l < v && #[trigger] leads(a, l) ==> lead.contains(l),
        decreases n - v,
    {
        let ghost before = assigned@;
        if !assigned[v] {
            proof {
                assert forall|u: usize| u < v implies !#[trigger] joined(a, u, v) by {
                    if joined(a, u, v) {
                        assert(reached_before(a, v, v));
                    }
                }
                assert(leads(a, v));
            }
            let mut src: HashSet<usize> = HashSet::new();
            src.insert(v);
            proof {
                assert(src@ =~= set![v]);
            }
            let dist = distance_to_source_set(&src, adj);
            let mut group: Vec<usize> = Vec::new();
            let mut x: usize = 0;
            while x < n
                invariant
                    n == adj@.len(),
                    a == rows(adj@),
                    v < n,
                    dist@.len() == n,
                    forall|y: int| 0 <= y < n ==> is_distance(a, set![v], y as usize, #[trigger] dist@[y]),
                    x <= n,
                    assigned@.len() == n,
                    group@ == joined_upto(a, v, x as nat),
                    forall|y: int| 0 <= y < n ==> #[trigger] assigned@[y] == (before[y] || (y < x && joined(a, v, y as usize))),
                decreases n - x,
            {
                proof {
                    let d = dist@[x as int];
                    assert(is_distance(a, set![v], x as usize, d));
                    if d != usize::MAX {
                        assert(within(a, set![v], d as nat).contains(x as usize));
                    } else {
                        if joined(a, v, x) {
                            let k = choose|k: nat| #[trigger] within(a, set![v], k).contains(x);
                        }
                    }
                }
                if dist[x] != usize::MAX {
                    group.push(x);
                    assigned.set(x, true);
                }
                x = x + 1;
            }
            r.push(group);
            let ghost old_lead = lead;
            proof {
                lead = lead.push(v);
                assert forall|y: int| 0 <= y < n implies #[trigger] assigned@[y] == reached_before(a, (v + 1) as usize, y as usize) by {
                    if joined(a, v, y as usize) {
                        assert(reached_before(a, (v + 1) as usize, y as usize));
                    }
                    if reached_before(a, (v + 1) as usize, y as usize) && !joined(a, v, y as usize) {
                        let u = choose|u: usize| u < v + 1 && #[trigger] joined(a, u, y as usize);
                        assert(u < v);
                        assert(reached_before(a, v, y as usize));
                    }
                }
                assert(rows(r@) =~= classes_upto(a, n as nat, (v + 1) as nat));
                assert forall|l: usize| l < v + 1 && #[trigger] leads(a, l) implies lead.contains(l) by {
                    if l == v {
                        assert(lead[lead.len() - 1] == v);
                    } else {
                        assert(old_lead.contains(l));
                        let i = old_lead.index_of(l);
                        assert(lead[i] == l);
                    }
                }
            }
        } else {
            proof {
                let u = choose|u: usize| u < v && #[trigger] joined(a, u, v);
                assert(!leads(a, v));
                assert forall|y: int| 0 <= y < n implies #[trigger] assigned@[y] == reached_before(a, (v + 1) as usize, y as usize) by {
                    if reached_before(a, (v + 1) as usize, y as usize) {
                        let u2 = choose|u2: usize| u2 < v + 1 && #[trigger] joined(a, u2, y as usize);
                        if u2 == v {
                            lemma_joined_trans(a, u, v, y as usize);
                        }
                        assert(reached_before(a, v, y as usize));
                    }
                }
                assert(rows(r@) =~= classes_upto(a, n as nat, (v + 1) as nat));
            }
        }
        v = v + 1;
    }
    proof {
        let cs = rows(r@);
        assert forall|c: int, j: int| 0 <= c < cs.len() && 0 <= j < cs[c].len() implies #[trigger] cs[c][j] < n by {
            lemma_joined_upto(a, lead[c], n as nat);
        }
        assert forall|x: usize| x < n implies #[trigger] in_some(cs, x) by {
            lemma_joined_refl(a, x);
            lemma_leader_exists(a, x, x);
            let l = choose|l: usize| l <= x && #[trigger] leads(a, l) && joined(a, l, x);
            assert(lead.contains(l));
            let c = lead.index_of(l);
            lemma_joined_upto(a, l, n as nat);
            assert(cs[c].contains(x));
            let j = cs[c].index_of(x);
            assert(cs[c][j] == x);
        }
        assert forall|c1: int, j1: int, c2: int, j2: int|
            0 <= c1 < cs.len() && 0 <= j1 < cs[c1].len() && 0 <= c2 < cs.len() && 0 <= j2 < cs[c2].len()
                && #[trigger] cs[c1][j1] == #[trigger] cs[c2][j2] implies c1 == c2 && j1 == j2 by {
            let x = cs[c1][j1];
            lemma_joined_upto(a, lead[c1], n as nat);
            lemma_joined_upto(a, lead[c2], n as nat);
            if c1 != c2 {
                let (lo, hi) = if c1 < c2 { (c1, c2) } else { (c2, c1) };
                assert(lead[lo] < lead[hi]);
                assert(joined(a, lead[lo], x));
                assert(joined(a, lead[hi], x));
                lemma_joined_sym(a, lead[hi], x);
                lemma_joined_trans(a, lead[lo], x, lead[hi]);
                assert(!joined(a, lead[lo], lead[hi]));
            } else if j1 != j2 {
                if j1 < j2 {
                    assert(cs[c1][j1] < cs[c1][j2]);
                } else {
                    assert(cs[c1][j2] < cs[c1][j1]);
                }
            }
        }
    }
    r
}

// ---------------------------------------------------------------------------
// Graphs as values.
// ---------------------------------------------------------------------------

/// A mixed graph as values.
pub struct GraphView {
    pub n: nat,
    pub partition: Seq<Seq<usize>>,
    pub adjacencies: Seq<Seq<usize>>,
    pub arcs: Seq<Set<usize>>,
    pub edges: Seq<(usize, usize)>,
    pub inputs: Set<usize>,
    pub outputs: Set<usize>,
    pub outgoing: bool,
}

pub open spec fn gview(g: MixedGraph) -> GraphView {
    GraphView {
        n: g.n as nat,
        partition: rows(g.partition@),
        adjacencies: rows(g.adjacencies@),
        arcs: arc_sets(g.dir_adjacencies@),
        edges: g.edges@,
        inputs: g.input_parts@,
        outputs: g.output_parts@,
        outgoing: g.outgoing(),
    }
}

/// Every arc ends at a part.
pub open spec fn arcs_within(g: MixedGraph) -> bool {
    forall|v: int, x: usize| 0 <= v < g.n && #[trigger] g.dir_adjacencies@[v]@.contains(x) ==> x < g.n
}

/// `v` once its edges without an arc are oriented by `pre` (see
/// [`orient_fold`]).
pub open spec fn oriented_view(v: GraphView, pre: Seq<(usize, usize)>) -> GraphView {
    GraphView { arcs: orient_fold(v.arcs, v.edges, pre, v.edges.len()), ..v }
}

/// The graph of the groups `comps` of the parts of `v` (see
/// [`MixedGraph::merge`]).
pub open spec fn merged_view(v: GraphView, comps: Seq<Seq<usize>>) -> GraphView {
    let adjacencies = Seq::new(
        comps.len(),
        |c: int| distinct_except(member_neighbours(v.adjacencies, comps, comps[c]), c as usize),
    );
    GraphView {
        n: comps.len(),
        partition: Seq::new(comps.len(), |c: int| members_concat(v.partition, comps[c])),
        adjacencies,
        arcs: Seq::new(comps.len(), |c: int| merged_arcs(v.arcs, comps, c, v.n)),
        edges: edges_of(adjacencies),
        inputs: comp_image(comps, v.inputs),
        outputs: comp_image(comps, v.outputs),
        outgoing: true,
    }
}

/// Edge `e` carries no arc and its ends are not told apart by `pre`.
pub open spec fn level_edge(v: GraphView, pre: Seq<(usize, usize)>, e: int) -> bool {
    let a = v.edges[e].0 as int;
    let b = v.edges[e].1 as int;
    pre[a] == pre[b] && !oriented(v.arcs, a, b)
}

/// The ends joined by the level edges among the first `k`, for each part,
/// in edge order.
pub open spec fn level_rows(v: GraphView, pre: Seq<(usize, usize)>, k: nat) -> Seq<Seq<usize>>
    decreases k,
{
    if k == 0 {
        Seq::new(v.n, |u: int| Seq::<usize>::empty())
    } else {
        let r = level_rows(v, pre, (k - 1) as nat);
        let a = v.edges[k - 1].0 as int;
        let b = v.edges[k - 1].1 as int;
        if level_edge(v, pre, k - 1) {
            let r1 = r.update(a, r[a].push(b as usize));
            r1.update(b, r1[b].push(a as usize))
        } else {
            r
        }
    }
}

/// The groups of parts joined by level edges under `pre`.
pub open spec fn level_classes(v: GraphView, pre: Seq<(usize, usize)>) -> Seq<Seq<usize>> {
    classes_upto(level_rows(v, pre, v.edges.len()), v.n, v.n)
}

/// Orient by the distances, merge the level classes, and again, until no
/// two parts are merged; the graph and the distances at that point.
pub open spec fn settle_classes(v: GraphView, fuel: nat) -> (GraphView, Seq<(usize, usize)>)
    decreases fuel,
{
    let pre = plain_preorder(v.adjacencies, v.inputs, v.outputs);
    let ov = oriented_view(v, pre);
    let cs = level_classes(ov, pre);
    if cs.len() == ov.partition.len() || fuel == 0 {
        (ov, pre)
    } else {
        settle_classes(merged_view(ov, cs), (fuel - 1) as nat)
    }
}

proof fn lemma_level_rows(v: GraphView, pre: Seq<(usize, usize)>, k: nat)
    requires
        k <= v.edges.len(),
        forall|e: int| 0 <= e < v.edges.len() ==> (#[trigger] v.edges[e]).0 < v.n && v.edges[e].1 < v.n,
    ensures
        level_rows(v, pre, k).len() == v.n,
        symmetric(level_rows(v, pre, k)),
        forall|u: int, j: int| 0 <= u < v.n && 0 <= j < level_rows(v, pre, k)[u].len() ==> #[trigger] level_rows(v, pre, k)[u][j] < v.n,
    decreases k,
{
    broadcast use vstd::seq_lib::lemma_seq_contains_after_push;
    if k > 0 {
        lemma_level_rows(v, pre, (k - 1) as nat);
        let r = level_rows(v, pre, (k - 1) as nat);
        let a = v.edges[k - 1].0 as int;
        let b = v.edges[k - 1].1 as int;
        if level_edge(v, pre, k - 1) {
            let r1 = r.update(a, r[a].push(b as usize));
            let r2 = r1.update(b, r1[b].push(a as usize));
            assert forall|x: int, y: usize| 0 <= x < r2.len() && #[trigger] r2[x].contains(y) implies y < r2.len()
                && r2[y as int].contains(x as usize) by {
                if r[x].contains(y) {
                    assert(r[y as int].contains(x as usize));
                }
            }
            assert forall|u: int, j: int| 0 <= u < v.n && 0 <= j < r2[u].len() implies #[trigger] r2[u][j] < v.n by {
                if r2[u][j] != a && r2[u][j] != b {
                    assert(r2[u].contains(r2[u][j]));
                    assert(r[u].contains(r2[u][j]));
                    let i = r[u].index_of(r2[u][j]);
                    assert(r[u][i] == r2[u][j]);
                }
            }
        }
    }
}

proof fn lemma_orient_fold_within(dir: Seq<Set<usize>>, edges: Seq<(usize, usize)>, pre: Seq<(usize, usize)>, k: nat, n: nat)
    requires
        dir.len() == n,
        forall|v: int, x: usize| 0 <= v < n && #[trigger] dir[v].contains(x) ==> x < n,
        forall|e: int| 0 <= e < edges.len() ==> (#[trigger] edges[e]).0 < n && edges[e].1 < n,
    ensures
        orient_fold(dir, edges, pre, k).len() == n,
        forall|v: int, x: usize| 0 <= v < n && #[trigger] orient_fold(dir, edges, pre, k)[v].contains(x) ==> x < n,
    decreases k,
{
    if k > 0 && k <= edges.len() {
        lemma_orient_fold_within(dir, edges, pre, (k - 1) as nat, n);
    }
}

proof fn lemma_members_concat_within(parts: Seq<Seq<usize>>, members: Seq<usize>, n: nat)
    requires
        forall|j: int| 0 <= j < members.len() ==> (#[trigger] members[j]) < parts.len(),
        forall|u: int, j: int| 0 <= u < parts.len() && 0 <= j < parts[u].len() ==> #[trigger] parts[u][j] < n,
    ensures
        forall|j: int| 0 <= j < members_concat(parts, members).len() ==> #[trigger] members_concat(parts, members)[j] < n,
    decreases members.len(),
{
    if members.len() > 0 {
        lemma_members_concat_within(parts, members.drop_last(), n);
        let a = members_concat(parts, members.drop_last());
        let b = parts[members.last() as int];
        assert forall|j: int| 0 <= j < (a + b).len() implies #[trigger] (a + b)[j] < n by {
            if j >= a.len() {
                assert((a + b)[j] == b[j - a.len()]);
            }
        }
    }
}

proof fn lemma_distinct_except_within(xs: Seq<usize>, c: usize, n: nat)
    requires
        forall|j: int| 0 <= j < xs.len() ==> #[trigger] xs[j] < n,
    ensures
        forall|j: int| 0 <= j < distinct_except(xs, c).len() ==> #[trigger] distinct_except(xs, c)[j] < n,
    decreases xs.len(),
{
    if xs.len() > 0 {
        lemma_distinct_except_within(xs.drop_last(), c, n);
        let p = distinct_except(xs.drop_last(), c);
        assert(xs.last() == xs[xs.len() - 1]);
        if !(xs.last() == c || p.contains(xs.last())) {
            assert forall|j: int| 0 <= j < p.push(xs.last()).len() implies #[trigger] p.push(xs.last())[j] < n by {
                if j < p.len() {
                    assert(p.push(xs.last())[j] == p[j]);
                }
            }
        }
    }
}

proof fn lemma_edges_within(adj: Seq<Seq<usize>>, k: nat, n: nat)
    requires
        adj.len() == n,
        k <= n,
        forall|u: int, j: int| 0 <= u < n && 0 <= j < adj[u].len() ==> #[trigger] adj[u][j] < n,
    ensures
        forall|e: int| 0 <= e < edges_upto(adj, k).len() ==> (#[trigger] edges_upto(adj, k)[e]).0 < n
            && edges_upto(adj, k)[e].1 < n,
    decreases k,
{
    if k > 0 {
        lemma_edges_within(adj, (k - 1) as nat, n);
        lemma_row_edges_within(k - 1, adj[k - 1], n);
        let a = edges_upto(adj, (k - 1) as nat);
        let b = row_edges(k - 1, adj[k - 1]);
        assert forall|e: int| 0 <= e < (a + b).len() implies (#[trigger] (a + b)[e]).0 < n && (a + b)[e].1 < n by {
            if e >= a.len() {
                assert((a + b)[e] == b[e - a.len()]);
            }
        }
    }
}

proof fn lemma_row_edges_within(idx: int, row: Seq<usize>, n: nat)
    requires
        0 <= idx < n,
        forall|j: int| 0 <= j < row.len() ==> #[trigger] row[j] < n,
    ensures
        forall|e: int| 0 <= e < row_edges(idx, row).len() ==> (#[trigger] row_edges(idx, row)[e]).0 < n
            && row_edges(idx, row)[e].1 < n,
    decreases row.len(),
{
    if row.len() > 0 {
        lemma_row_edges_within(idx, row.drop_last(), n);
        let a = row_edges(idx, row.drop_last());
        assert(row.last() == row[row.len() - 1]);
        let b: Seq<(usize, usize)> = if idx < row.last() { seq![(idx as usize, row.last())] } else { Seq::empty() };
        assert(row_edges(idx, row) == a + b);
        assert forall|e: int| 0 <= e < (a + b).len() implies (#[trigger] (a + b)[e]).0 < n && (a + b)[e].1 < n by {
            if e >= a.len() {
                assert((a + b)[e] == b[e - a.len()]);
            } else {
                assert((a + b)[e] == a[e]);
            }
        }
    }
}

proof fn lemma_comp_of_range(comps: Seq<Seq<usize>>, n: nat, x: usize)
    requires
        partitions(comps, n),
        x < n,
    ensures
        0 <= comp_of(comps, x) < comps.len(),
{
    assert(in_some(comps, x));
    let (c, j) = choose|c: int, j: int| 0 <= c < comps.len() && 0 <= j < comps[c].len() && #[trigger] comps[c][j] == x;
    assert(comps[c].contains(x));
}

/// The level edges' ends of each part (see [`level_rows`]).
fn level_adjacency(g: &MixedGraph, pre: &Vec<(usize, usize)>) -> (r: Vec<Vec<usize>>)
    requires
        graph_ok(*g),
        pre@.len() == g.n,
    ensures
        rows(r@) == level_rows(gview(*g), pre@, g.m as nat),
{
    let ghost v = gview(*g);
    let mut r: Vec<Vec<usize>> = Vec::new();
    let mut u: usize = 0;
    while u < g.n
        invariant
            u <= g.n,
            r@.len() == u,
            forall|x: int| 0 <= x < u ==> (#[trigger] r@[x])@ == Seq::<usize>::empty(),
        decreases g.n - u,
    {
        r.push(Vec::new());
        u = u + 1;
    }
    assert(rows(r@) =~= level_rows(v, pre@, 0));
    let mut e: usize = 0;
    while e < g.m
        invariant
            graph_ok(*g),
            v == gview(*g),
            pre@.len() == g.n,
            e <= g.m,
            r@.len() == g.n,
            rows(r@) == level_rows(v, pre@, e as nat),
        decreases g.m - e,
    {
        let (a, b) = g.edges[e];
        assert(a < g.n && b < g.n);
        if pre[a].0 == pre[b].0 && pre[a].1 == pre[b].1 && !g.edge_oriented(e) {
            let ghost r0 = rows(r@);
            r[a].push(b);
            let ghost r1 = rows(r@);
            assert(r1 =~= r0.update(a as int, r0[a as int].push(b)));
            r[b].push(a);
            assert(rows(r@) =~= r1.update(b as int, r1[b as int].push(a)));
        }
        e = e + 1;
    }
    r
}

impl MixedGraph {
    /// Orients the edges by the distances to the inputs and to the outputs
    /// (see [`MixedGraph::orient_by_partial_order`]), merges the parts joined
    /// by edges still without an arc whose ends are at the same distances
    /// (each group in order of its least part, parts in increasing order,
    /// see [`level_classes`] and [`MixedGraph::merge`]), and does it again
    /// until nothing is merged (see [`settle_classes`]); returns the last
    /// distances.
    pub fn merge_equivalence_classes_by_distance_and_orient(&mut self, _debug: usize) -> (r: Vec<(usize, usize)>)
        requires
            graph_ok(*old(self)),
            arcs_within(*old(self)),
            old(self).n < usize::MAX,
        ensures
            gview(*final(self)) == settle_classes(gview(*old(self)), old(self).n as nat).0,
            r@ == settle_classes(gview(*old(self)), old(self).n as nat).1,
            final(self).m == final(self).edges@.len(),
    {
        let ghost goal = settle_classes(gview(*self), self.n as nat);
        let ghost mut fuel: nat = self.n as nat;
        let mut result: Vec<(usize, usize)> = Vec::new();
        loop
            invariant_except_break
                goal == settle_classes(gview(*self), fuel),
                graph_ok(*self),
                arcs_within(*self),
                self.n < usize::MAX,
                fuel >= self.n,
            ensures
                gview(*self) == goal.0,
                result@ == goal.1,
                self.m == self.edges@.len(),
            decreases self.n,
        {
            let ghost before = gview(*self);
            let ghost g0 = *self;
            let pre = self.orient_by_partial_order();
            let ghost plain = plain_preorder(before.adjacencies, before.inputs, before.outputs);
            proof {
                assert forall|x: int| 0 <= x < pre@.len() implies #[trigger] pre@[x] == plain[x] by {
                    lemma_distance_unique(before.adjacencies, before.inputs, x as usize, pre@[x].0);
                    lemma_distance_unique(before.adjacencies, before.outputs, x as usize, pre@[x].1);
                }
                assert(pre@ =~= plain);
                let ov = oriented_view(before, plain);
                assert(gview(*self) == ov);
                assert forall|e: int| 0 <= e < before.edges.len() implies (#[trigger] before.edges[e]).0 < before.n
                    && before.edges[e].1 < before.n by {
                    assert(g0.edges@[e].0 < g0.n);
                }
                lemma_orient_fold_within(before.arcs, before.edges, plain, before.edges.len(), before.n);
                assert forall|x: int, y: usize| 0 <= x < self.n && #[trigger] self.dir_adjacencies@[x]@.contains(y) implies y < self.n by {
                    assert(arc_sets(self.dir_adjacencies@)[x] == self.dir_adjacencies@[x]@);
                }
                assert(graph_ok(*self));
                lemma_level_rows(ov, plain, ov.edges.len());
            }
            let level = level_adjacency(self, &pre);
            proof {
                let lr = level_rows(gview(*self), pre@, self.m as nat);
                assert forall|u: int, j: int| 0 <= u < level@.len() && 0 <= j < level@[u]@.len() implies #[trigger] level@[u]@[j] < level@.len() by {
                    assert(rows(level@)[u] == level@[u]@);
                }
            }
            let comps = joined_classes(&level);
            let ghost cs = rows(comps@);
            if comps.len() == self.partition.len() {
                result = pre;
                break;
            }
            proof {
                assert(cs == level_classes(gview(*self), pre@));
                assert(goal == settle_classes(merged_view(gview(*self), cs), (fuel - 1) as nat));
            }
            let merged = self.merge(&comps);
            proof {
                let old_n = self.n as nat;
                let ov = gview(*self);
                let mv = merged_view(ov, cs);
                assert(merged.n == cs.len());
                assert(rows(merged.partition@) =~= mv.partition);
                assert(rows(merged.adjacencies@) =~= mv.adjacencies);
                assert(arc_sets(merged.dir_adjacencies@) =~= mv.arcs);
                assert(gview(merged) == mv);
                assert forall|c: int, j: int| 0 <= c < merged.n && 0 <= j < merged.adjacencies@[c]@.len() implies #[trigger] merged.adjacencies@[c]@[j] < merged.n by {
                    let ms = members_concat(ov.adjacencies, cs[c]);
                    assert forall|i: int| 0 <= i < cs[c].len() implies (#[trigger] cs[c][i]) < ov.adjacencies.len() by {}
                    lemma_members_concat_within(ov.adjacencies, cs[c], old_n);
                    let mn = member_neighbours(ov.adjacencies, cs, cs[c]);
                    assert forall|i: int| 0 <= i < mn.len() implies #[trigger] mn[i] < merged.n by {
                        lemma_comp_of_range(cs, old_n, ms[i]);
                    }
                    lemma_distinct_except_within(mn, c as usize, merged.n as nat);
                    assert(merged.adjacencies@[c]@ == distinct_except(mn, c as usize));
                }
                lemma_edges_within(rows(merged.adjacencies@), merged.n as nat, merged.n as nat);
                assert forall|e: int| 0 <= e < merged.m implies (#[trigger] merged.edges@[e]).0 < merged.n && merged.edges@[e].1 < merged.n by {
                    assert(edges_of(rows(merged.adjacencies@)) == edges_upto(rows(merged.adjacencies@), merged.n as nat));
                }
                assert forall|x: usize| merged.input_parts@.contains(x) implies x < merged.n by {
                    let y = choose|y: usize| ov.inputs.contains(y) && comp_of(cs, y) == x;
                    lemma_comp_of_range(cs, old_n, y);
                }
                assert forall|x: usize| merged.output_parts@.contains(x) implies x < merged.n by {
                    let y = choose|y: usize| ov.outputs.contains(y) && comp_of(cs, y) == x;
                    lemma_comp_of_range(cs, old_n, y);
                }
                assert(graph_ok(merged));
                assert forall|c: int, x: usize| 0 <= c < merged.n && #[trigger] merged.dir_adjacencies@[c]@.contains(x) implies x < merged.n by {
                    assert(merged.dir_adjacencies@[c]@ == merged_arcs(ov.arcs, cs, c, old_n));
                    let (j, y) = choose|j: int, y: usize|
                        0 <= j < cs[c].len() && y < old_n && #[trigger] ov.arcs[cs[c][j] as int].contains(y) && comp_of(cs, y) == x;
                    lemma_comp_of_range(cs, old_n, y);
                }
                fuel = (fuel - 1) as nat;
            }
            *self = merged;
        }
        result
    }
}

} // verus!
