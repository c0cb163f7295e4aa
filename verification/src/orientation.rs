//! Orientation of a mixed graph by a preorder that is refined until it
//! orients no further edge: the distances to the inputs and to the outputs
//! are measured again along the adjacencies that the current preorder does
//! not reverse, for as long as that makes more edges comparable.
use vstd::prelude::*;
use std::collections::HashSet;
use crate::lt;
use crate::mixed_graph::{
    MixedGraph, arc_sets, distance_to_source_set, graph_ok, is_distance, lemma_within_mono, orient_fold,
    law_precedes_strict_order, precedes, rows, same_but_arcs, within,
};

verus! {

broadcast use vstd::std_specs::hash::group_hash_axioms;

/// The distance from `srcs` to `v` (see [`is_distance`]).
pub open spec fn distance(adj: Seq<Seq<usize>>, srcs: Set<usize>, v: usize) -> usize {
    choose|d: usize| is_distance(adj, srcs, v, d)
}

/// There is only one distance.
pub proof fn lemma_distance_unique(adj: Seq<Seq<usize>>, srcs: Set<usize>, v: usize, d: usize)
    requires
        is_distance(adj, srcs, v, d),
    ensures
        distance(adj, srcs, v) == d,
{
    let e = distance(adj, srcs, v);
    assert(is_distance(adj, srcs, v, e));
    if d == usize::MAX {
        if e != usize::MAX {
            assert(within(adj, srcs, e as nat).contains(v));
        }
    } else if e == usize::MAX {
        assert(within(adj, srcs, d as nat).contains(v));
    } else if d < e {
        lemma_within_mono(adj, srcs, d as nat, (e - 1) as nat);
    } else if e < d {
        lemma_within_mono(adj, srcs, e as nat, (d - 1) as nat);
    }
}

/// Whether a search from the inputs (`from_inputs`) or from the outputs may
/// step from `u` to its neighbour `v`: not against the preorder `pre`.
pub open spec fn follows(pre: Seq<(usize, usize)>, u: int, v: usize, from_inputs: bool) -> bool {
    if from_inputs {
        !precedes(pre[v as int], pre[u])
    } else {
        !precedes(pre[u], pre[v as int])
    }
}

/// The neighbours in `row` of `u` that a search may step to, in order.
pub open spec fn kept(row: Seq<usize>, pre: Seq<(usize, usize)>, u: int, from_inputs: bool) -> Seq<usize>
    decreases row.len(),
{
    if row.len() == 0 {
        Seq::empty()
    } else {
        let k = kept(row.drop_last(), pre, u, from_inputs);
        if follows(pre, u, row.last(), from_inputs) {
            k.push(row.last())
        } else {
            k
        }
    }
}

/// The adjacency lists a search may follow.
pub open spec fn kept_rows(adj: Seq<Seq<usize>>, pre: Seq<(usize, usize)>, from_inputs: bool) -> Seq<Seq<usize>> {
    Seq::new(adj.len(), |u: int| kept(adj[u], pre, u, from_inputs))
}

/// The distances of every part to the inputs and to the outputs, along every
/// edge.
pub open spec fn plain_preorder(adj: Seq<Seq<usize>>, ins: Set<usize>, outs: Set<usize>) -> Seq<(usize, usize)> {
    Seq::new(adj.len(), |v: int| (distance(adj, ins, v as usize), distance(adj, outs, v as usize)))
}

/// One refinement of `pre`: the distances again, along the steps `pre`
/// allows.
pub open spec fn step(adj: Seq<Seq<usize>>, ins: Set<usize>, outs: Set<usize>, pre: Seq<(usize, usize)>) -> Seq<(usize, usize)> {
    Seq::new(
        adj.len(),
        |v: int| (distance(kept_rows(adj, pre, true), ins, v as usize), distance(kept_rows(adj, pre, false), outs, v as usize)),
    )
}

/// How many edges have ends that `pre` orders.
pub open spec fn comparable_count(edges: Seq<(usize, usize)>, pre: Seq<(usize, usize)>) -> nat
    decreases edges.len(),
{
    if edges.len() == 0 {
        0
    } else {
        let e = edges.last();
        comparable_count(edges.drop_last(), pre) + if precedes(pre[e.0 as int], pre[e.1 as int]) || precedes(
            pre[e.1 as int],
            pre[e.0 as int],
        ) {
            1nat
        } else {
            0nat
        }
    }
}

/// The number of arcs.
pub open spec fn arc_total(dir: Seq<Set<usize>>) -> nat
    decreases dir.len(),
{
    if dir.len() == 0 {
        0
    } else {
        arc_total(dir.drop_last()) + dir.last().len()
    }
}

/// The preorder once refinement stops ordering more edges than `count`: the
/// first refinement that does not order more edges than the one before.
pub open spec fn settle_preorder(
    adj: Seq<Seq<usize>>,
    edges: Seq<(usize, usize)>,
    ins: Set<usize>,
    outs: Set<usize>,
    pre: Seq<(usize, usize)>,
    count: nat,
) -> Seq<(usize, usize)>
    decreases (edges.len() + 1 - count) as nat,
{
    let next = step(adj, ins, outs, pre);
    let c = comparable_count(edges, next);
    if count < c && c <= edges.len() {
        settle_preorder(adj, edges, ins, outs, next, c)
    } else {
        next
    }
}

/// Whether `pre` gives an arc from `v` to its neighbour `u` (see
/// [`arcs_by_preorder`]).
pub open spec fn arc_given(pre: Seq<(usize, usize)>, v: int, u: usize, out: bool) -> bool {
    if out {
        precedes(pre[v], pre[u as int])
    } else {
        !precedes(pre[v], pre[u as int]) && precedes(pre[u as int], pre[v])
    }
}

/// The arcs that `pre` gives: from each part to every neighbour it
/// precedes, or, when arcs are read the other way, to every neighbour that
/// precedes it.
pub open spec fn arcs_by_preorder(adj: Seq<Seq<usize>>, pre: Seq<(usize, usize)>, out: bool) -> Seq<Set<usize>> {
    Seq::new(
        adj.len(),
        |v: int|
            Set::new(
                |u: usize| adj[v].contains(u) && arc_given(pre, v, u, out),
            ),
    )
}

proof fn lemma_kept_within(row: Seq<usize>, pre: Seq<(usize, usize)>, u: int, from_inputs: bool)
    ensures
        forall|j: int| 0 <= j < kept(row, pre, u, from_inputs).len() ==> row.contains(#[trigger] kept(row, pre, u, from_inputs)[j]),
    decreases row.len(),
{
    if row.len() > 0 {
        lemma_kept_within(row.drop_last(), pre, u, from_inputs);
        let k = kept(row.drop_last(), pre, u, from_inputs);
        assert forall|j: int| 0 <= j < k.len() implies row.contains(#[trigger] k[j]) by {
            let i = row.drop_last().index_of(k[j]);
            assert(row[i] == k[j]);
        }
        assert(row[row.len() - 1] == row.last());
    }
}

/// The adjacency lists that a search from the inputs (`from_inputs`) or from
/// the outputs may follow under `pre` (see [`kept_rows`]).
fn keep_steps(adjacencies: &Vec<Vec<usize>>, pre: &Vec<(usize, usize)>, from_inputs: bool) -> (r: Vec<Vec<usize>>)
    requires
        pre@.len() == adjacencies@.len(),
        forall|u: int, j: int|
            0 <= u < adjacencies@.len() && 0 <= j < adjacencies@[u]@.len() ==> #[trigger] adjacencies@[u]@[j]
                < adjacencies@.len(),
    ensures
        rows(r@) == kept_rows(rows(adjacencies@), pre@, from_inputs),
        forall|u: int, j: int| 0 <= u < r@.len() && 0 <= j < r@[u]@.len() ==> #[trigger] r@[u]@[j] < adjacencies@.len(),
{
    let ghost adj = rows(adjacencies@);
    let n = adjacencies.len();
    let mut r: Vec<Vec<usize>> = Vec::new();
    let mut u: usize = 0;
    while u < n
        invariant
            n == adjacencies@.len(),
            adj == rows(adjacencies@),
            pre@.len() == n,
            forall|u2: int, j: int|
                0 <= u2 < n && 0 <= j < adjacencies@[u2]@.len() ==> #[trigger] adjacencies@[u2]@[j] < n,
            u <= n,
            r@.len() == u,
            forall|u2: int| 0 <= u2 < u ==> (#[trigger] r@[u2])@ == kept(adj[u2], pre@, u2, from_inputs),
            forall|u2: int, j: int| 0 <= u2 < u && 0 <= j < r@[u2]@.len() ==> #[trigger] r@[u2]@[j] < n,
        decreases n - u,
    {
        let row = &adjacencies[u];
        assert(adj[u as int] == row@);
        let mut out: Vec<usize> = Vec::new();
        let mut j: usize = 0;
        assert(row@.take(0) =~= Seq::<usize>::empty());
        while j < row.len()
            invariant
                n == adjacencies@.len(),
                pre@.len() == n,
                u < n,
                row@ == adjacencies@[u as int]@,
                forall|j2: int| 0 <= j2 < row@.len() ==> #[trigger] row@[j2] < n,
                j <= row@.len(),
                out@ == kept(row@.take(j as int), pre@, u as int, from_inputs),
            decreases row@.len() - j,
        {
            let v = row[j];
            assert(row@.take(j + 1).drop_last() =~= row@.take(j as int));
            assert(row@.take(j + 1).last() == v);
            let keep = if from_inputs {
                !lt(pre[v], pre[u])
            } else {
                !lt(pre[u], pre[v])
            };
            if keep {
                out.push(v);
            }
            j = j + 1;
        }
        assert(row@.take(row@.len() as int) =~= row@);
        proof {
            lemma_kept_within(row@, pre@, u as int, from_inputs);
            assert forall|j2: int| 0 <= j2 < out@.len() implies #[trigger] out@[j2] < n by {
                let i = row@.index_of(out@[j2]);
                assert(row@[i] == out@[j2]);
            }
        }
        r.push(out);
        u = u + 1;
    }
    proof {
        assert(rows(r@) =~= kept_rows(adj, pre@, from_inputs));
    }
    r
}

/// How many edges have ends that `pre` orders (see [`comparable_count`]).
fn count_comparable(edges: &Vec<(usize, usize)>, pre: &Vec<(usize, usize)>) -> (r: usize)
    requires
        forall|e: int| 0 <= e < edges@.len() ==> (#[trigger] edges@[e]).0 < pre@.len() && edges@[e].1 < pre@.len(),
    ensures
        r == comparable_count(edges@, pre@),
        r <= edges@.len(),
{
    let mut c: usize = 0;
    let mut e: usize = 0;
    while e < edges.len()
        invariant
            forall|e2: int| 0 <= e2 < edges@.len() ==> (#[trigger] edges@[e2]).0 < pre@.len() && edges@[e2].1 < pre@.len(),
            e <= edges@.len(),
            c == comparable_count(edges@.take(e as int), pre@),
            c <= e,
        decreases edges@.len() - e,
    {
        let (x, y) = edges[e];
        assert(edges@.take(e + 1).drop_last() =~= edges@.take(e as int));
        assert(edges@.take(e + 1).last() == edges@[e as int]);
        if lt(pre[x], pre[y]) || lt(pre[y], pre[x]) {
            c = c + 1;
        }
        e = e + 1;
    }
    assert(edges@.take(edges@.len() as int) =~= edges@);
    c
}

/// The number of arcs, or `usize::MAX` when there are more.
fn count_arcs(dir: &Vec<HashSet<usize>>) -> (r: usize)
    ensures
        r == if arc_total(arc_sets(dir@)) < usize::MAX { arc_total(arc_sets(dir@)) } else { usize::MAX as nat },
{
    let ghost d = arc_sets(dir@);
    let mut c: usize = 0;
    let mut v: usize = 0;
    while v < dir.len()
        invariant
            d == arc_sets(dir@),
            v <= dir@.len(),
            c == if arc_total(d.take(v as int)) < usize::MAX { arc_total(d.take(v as int)) } else { usize::MAX as nat },
        decreases dir@.len() - v,
    {
        assert(d.take(v + 1).drop_last() =~= d.take(v as int));
        assert(d.take(v + 1).last() == dir@[v as int]@);
        let k = dir[v].len();
        c = c.saturating_add(k);
        v = v + 1;
    }
    assert(d.take(dir@.len() as int) =~= d);
    c
}

impl MixedGraph {
    /// One refinement of the preorder `pre` (see [`step`]).
    fn refine_preorder(&self, pre: &Vec<(usize, usize)>) -> (r: Vec<(usize, usize)>)
        requires
            graph_ok(*self),
            self.n < usize::MAX,
            pre@.len() == self.n,
        ensures
            r@ == step(rows(self.adjacencies@), self.input_parts@, self.output_parts@, pre@),
    {
        let ghost adj = rows(self.adjacencies@);
        let forward = keep_steps(&self.adjacencies, pre, true);
        let backward = keep_steps(&self.adjacencies, pre, false);
        assert(rows(forward@).len() == forward@.len() && rows(backward@).len() == backward@.len());
        let to_inputs = distance_to_source_set(&self.input_parts, &forward);
        let to_outputs = distance_to_source_set(&self.output_parts, &backward);
        let mut r: Vec<(usize, usize)> = Vec::new();
        let mut v: usize = 0;
        while v < self.n
            invariant
                graph_ok(*self),
                adj == rows(self.adjacencies@),
                rows(forward@) == kept_rows(adj, pre@, true),
                rows(backward@) == kept_rows(adj, pre@, false),
                to_inputs@.len() == self.n,
                to_outputs@.len() == self.n,
                forward@.len() == self.n,
                backward@.len() == self.n,
                forall|w: int| 0 <= w < to_inputs@.len() ==> is_distance(rows(forward@), self.input_parts@, w as usize, #[trigger] to_inputs@[w]),
                forall|w: int| 0 <= w < to_outputs@.len() ==> is_distance(rows(backward@), self.output_parts@, w as usize, #[trigger] to_outputs@[w]),
                v <= self.n,
                r@.len() == v,
                forall|w: int| 0 <= w < v ==> #[trigger] r@[w] == step(adj, self.input_parts@, self.output_parts@, pre@)[w],
            decreases self.n - v,
        {
            proof {
                lemma_distance_unique(rows(forward@), self.input_parts@, v as usize, to_inputs@[v as int]);
                lemma_distance_unique(rows(backward@), self.output_parts@, v as usize, to_outputs@[v as int]);
            }
            r.push((to_inputs[v], to_outputs[v]));
            v = v + 1;
        }
        proof {
            assert(r@ =~= step(adj, self.input_parts@, self.output_parts@, pre@));
        }
        r
    }

    /// Orients the edges by the distances to the inputs and outputs (see
    /// [`MixedGraph::orient_by_partial_order`]), then refines those distances
    /// along the steps the current preorder allows for as long as that orders
    /// more edges (see [`settle_preorder`]), and replaces the arcs by those
    /// of the final preorder (see [`arcs_by_preorder`]), which it returns.
    pub fn iterative_orient_by_partial_order(&mut self) -> (r: Vec<(usize, usize)>)
        requires
            graph_ok(*old(self)),
            old(self).n < usize::MAX,
        ensures
            same_but_arcs(*old(self), *final(self)),
            r@ == settle_preorder(
                rows(old(self).adjacencies@),
                old(self).edges@,
                old(self).input_parts@,
                old(self).output_parts@,
                plain_preorder(rows(old(self).adjacencies@), old(self).input_parts@, old(self).output_parts@),
                arc_total(orient_fold(
                    arc_sets(old(self).dir_adjacencies@),
                    old(self).edges@,
                    plain_preorder(rows(old(self).adjacencies@), old(self).input_parts@, old(self).output_parts@),
                    old(self).m as nat,
                )),
            ),
            arc_sets(final(self).dir_adjacencies@) == arcs_by_preorder(rows(old(self).adjacencies@), r@, old(self).outgoing()),
            forall|v: int, u: usize| 0 <= v < old(self).n ==> (#[trigger] final(self).dir_adjacencies@[v]@.contains(u) <==> old(
                self,
            ).adjacencies@[v]@.contains(u) && if old(self).outgoing() {
                precedes(r@[v], r@[u as int])
            } else {
                precedes(r@[u as int], r@[v])
            }),
    {
        let ghost g0 = *self;
        let ghost adj = rows(g0.adjacencies@);
        let ghost ins = g0.input_parts@;
        let ghost outs = g0.output_parts@;
        let ghost plain = plain_preorder(adj, ins, outs);
        let mut current = self.orient_by_partial_order();
        proof {
            assert forall|v: int| 0 <= v < current@.len() implies #[trigger] current@[v] == plain[v] by {
                lemma_distance_unique(adj, ins, v as usize, current@[v].0);
                lemma_distance_unique(adj, outs, v as usize, current@[v].1);
            }
            assert(current@ =~= plain);
        }
        let ghost total = arc_total(arc_sets(self.dir_adjacencies@));
        let mut oriented = count_arcs(&self.dir_adjacencies);
        let ghost goal = settle_preorder(adj, g0.edges@, ins, outs, plain, total);
        let ghost mut count: nat = total;
        let m = self.m;
        loop
            invariant_except_break
                goal == settle_preorder(adj, g0.edges@, ins, outs, current@, count),
            invariant
                same_but_arcs(g0, *self),
                graph_ok(g0),
                graph_ok(*self),
                g0.n < usize::MAX,
                adj == rows(g0.adjacencies@),
                ins == g0.input_parts@,
                outs == g0.output_parts@,
                m == g0.m,
                current@.len() == g0.n,
                oriented == if count < usize::MAX { count } else { usize::MAX as nat },
            ensures
                current@ == goal,
            decreases (m + 1 - if oriented <= m { oriented as int } else { m + 1 }),
        {
            let next = self.refine_preorder(&current);
            let c = count_comparable(&self.edges, &next);
            let updated = c > oriented;
            proof {
                assert(next@ == step(adj, ins, outs, current@));
                assert(c == comparable_count(g0.edges@, next@));
                assert(updated == (count < c && c <= g0.edges@.len()));
                if updated {
                    assert(goal == settle_preorder(adj, g0.edges@, ins, outs, next@, c as nat));
                } else {
                    assert(goal == next@);
                }
                count = c as nat;
            }
            oriented = c;
            current = next;
            if !updated {
                break;
            }
        }
        let mut dir: Vec<HashSet<usize>> = Vec::new();
        let mut v: usize = 0;
        let out = self.dir_adjacencies_is_outgoing;
        while v < self.n
            invariant
                same_but_arcs(g0, *self),
                graph_ok(g0),
                adj == rows(g0.adjacencies@),
                current@.len() == g0.n,
                out == g0.outgoing(),
                v <= g0.n,
                dir@.len() == v,
                forall|w: int| 0 <= w < v ==> (#[trigger] dir@[w])@ == arcs_by_preorder(adj, current@, out)[w],
            decreases g0.n - v,
        {
            let row = &self.adjacencies[v];
            assert(adj[v as int] == row@);
            let mut set: HashSet<usize> = HashSet::new();
            let mut j: usize = 0;
            while j < row.len()
                invariant
                    graph_ok(g0),
                    v < g0.n,
                    row@ == g0.adjacencies@[v as int]@,
                    current@.len() == g0.n,
                    j <= row@.len(),
                    set@ == Set::new(|u: usize| row@.take(j as int).contains(u) && arc_given(current@, v as int, u, out)),
                decreases row@.len() - j,
            {
                let u = row[j];
                assert(u < g0.n);
                let keep = if out {
                    lt(current[v], current[u])
                } else {
                    !lt(current[v], current[u]) && lt(current[u], current[v])
                };
                let ghost before = set@;
                if keep {
                    set.insert(u);
                }
                proof {
                    assert(keep == arc_given(current@, v as int, u, out));
                    assert(row@.take(j + 1) =~= row@.take(j as int).push(u));
                    assert forall|w: usize| row@.take(j + 1).contains(w) == (row@.take(j as int).contains(w) || w == u) by {
                        if row@.take(j + 1).contains(w) && w != u {
                            let i = row@.take(j + 1).index_of(w);
                            assert(i < j);
                            assert(row@.take(j as int)[i] == w);
                        }
                        if w == u {
                            assert(row@.take(j + 1)[j as int] == u);
                        }
                    }
                    assert(set@ =~= Set::new(|w: usize| row@.take(j + 1).contains(w) && arc_given(current@, v as int, w, out)));
                }
                j = j + 1;
            }
            proof {
                assert(row@.take(row@.len() as int) =~= row@);
                assert(set@ =~= arcs_by_preorder(adj, current@, out)[v as int]);
            }
            dir.push(set);
            v = v + 1;
        }
        self.dir_adjacencies = dir;
        proof {
            assert(arc_sets(self.dir_adjacencies@) =~= arcs_by_preorder(adj, current@, out));
            assert forall|v: int, u: usize| 0 <= v < g0.n implies (#[trigger] self.dir_adjacencies@[v]@.contains(u) <==> g0.adjacencies@[v]@.contains(u) && if out {
                precedes(current@[v], current@[u as int])
            } else {
                precedes(current@[u as int], current@[v])
            }) by {
                assert(arc_sets(self.dir_adjacencies@)[v] == self.dir_adjacencies@[v]@);
                assert(adj[v] == g0.adjacencies@[v]@);
                law_precedes_strict_order(current@[v], current@[u as int], current@[v]);
            }
        }
        current
    }
}

} // verus!
