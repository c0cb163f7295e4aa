//! The decisions of the hierarchy solver between its outside work. A round
//! checks, for each part to attempt, that its outputs follow from its
//! inputs; the parts that pass offer their edges still without an arc as
//! viable arcs; a DAG extension chooses among them; the chosen arcs are
//! oriented and their targets are attempted next. The rounds stop when no
//! part passes or no arc is chosen, and what is left unoriented is merged.
use vstd::prelude::*;
use std::collections::HashSet;
use crate::mixed_graph::{arc_sets, graph_ok, rows, MixedGraph};
use crate::pdag::{dedup, dedup_list};
use crate::resolve::{increasing, insert_sorted, lemma_increasing_unique, sorted_ids};
use crate::safety::SafetyVerdict;
use crate::mixed_graph::contains_usize;
use crate::dzn::sorted_set;

verus! {

broadcast use vstd::std_specs::hash::group_hash_axioms;

/// What the rounds remember: the parts to check next (increasing) and the
/// parts verified so far, in the order they were verified.
pub struct HierarchyState {
    pub parts_to_attempt: Vec<usize>,
    pub verified_parts: Vec<usize>,
}

/// What the outside work reports.
pub enum HierarchyEvent {
    /// The outcome of each check, indexed by part (as the rounds read them).
    Checked(Vec<SafetyVerdict>),
    /// The viable arcs that the DAG extension chose.
    Chosen(Vec<(usize, usize)>),
}

/// What the outside work is to do next.
pub enum HierarchyAction {
    /// Check these parts.
    Check(Vec<usize>),
    /// Choose among these viable arcs the most that keep the arcs a DAG.
    ExtendDag(Vec<(usize, usize)>),
    /// Orient these arcs, then check these parts.
    OrientAndCheck(Vec<(usize, usize)>, Vec<usize>),
    /// Stop the rounds and merge what is left unoriented.
    Merge,
}

/// The edges of part `p` still without an arc either way, as arcs from `p`,
/// among its first `k` neighbours.
pub open spec fn viable_from(adj: Seq<Seq<usize>>, dir: Seq<Set<usize>>, p: usize, k: nat) -> Seq<(usize, usize)>
    decreases k,
{
    if k == 0 || k > adj[p as int].len() {
        Seq::empty()
    } else {
        let o = adj[p as int][k - 1];
        let prev = viable_from(adj, dir, p, (k - 1) as nat);
        if !dir[p as int].contains(o) && !dir[o as int].contains(p) {
            prev.push((p, o))
        } else {
            prev
        }
    }
}

/// Whether the check of part `p` passed (results are read at the part's
/// index).
pub open spec fn passed(results: Seq<SafetyVerdict>, p: usize) -> bool {
    results[p as int] == SafetyVerdict::Verified
}

/// The parts among the first `k` to attempt whose check passed, in order.
pub open spec fn passed_parts(parts: Seq<usize>, results: Seq<SafetyVerdict>, k: nat) -> Seq<usize>
    decreases k,
{
    if k == 0 || k > parts.len() {
        Seq::empty()
    } else if passed(results, parts[k - 1]) {
        passed_parts(parts, results, (k - 1) as nat).push(parts[k - 1])
    } else {
        passed_parts(parts, results, (k - 1) as nat)
    }
}

/// The viable arcs of the parts among the first `k` whose check passed.
pub open spec fn viable_arcs(
    adj: Seq<Seq<usize>>,
    dir: Seq<Set<usize>>,
    parts: Seq<usize>,
    results: Seq<SafetyVerdict>,
    k: nat,
) -> Seq<(usize, usize)>
    decreases k,
{
    if k == 0 || k > parts.len() {
        Seq::empty()
    } else {
        let prev = viable_arcs(adj, dir, parts, results, (k - 1) as nat);
        let p = parts[k - 1];
        if passed(results, p) {
            prev + viable_from(adj, dir, p, adj[p as int].len())
        } else {
            prev
        }
    }
}

/// Whether some check passed.
pub open spec fn any_passed(results: Seq<SafetyVerdict>) -> bool {
    exists|i: int| 0 <= i < results.len() && results[i] == SafetyVerdict::Verified
}

/// The targets of the arcs, as a set.
pub open spec fn targets(arcs: Seq<(usize, usize)>) -> Set<usize> {
    Set::new(|v: usize| exists|k: int| 0 <= k < arcs.len() && #[trigger] arcs[k].1 == v)
}

/// The state of the first round: every part to attempt, none verified.
pub fn hierarchy_start(graph: &MixedGraph) -> (r: (HierarchyState, HierarchyAction))
    ensures
        r.0.parts_to_attempt@ == Seq::new(graph.n as nat, |i: int| i as usize),
        r.0.verified_parts@.len() == 0,
        r.1 matches HierarchyAction::Check(ps) && ps@ == r.0.parts_to_attempt@,
{
    let mut parts: Vec<usize> = Vec::new();
    let mut i: usize = 0;
    while i < graph.n
        invariant
            i <= graph.n,
            parts@ == Seq::new(i as nat, |j: int| j as usize),
        decreases graph.n - i,
    {
        parts.push(i);
        assert(parts@ =~= Seq::new((i + 1) as nat, |j: int| j as usize));
        i = i + 1;
    }
    let check = crate::resolve::copy_ids(&parts);
    (HierarchyState { parts_to_attempt: parts, verified_parts: Vec::new() }, HierarchyAction::Check(check))
}

fn viable_list(graph: &MixedGraph, p: usize, out: &mut Vec<(usize, usize)>)
    requires
        graph_ok(*graph),
        p < graph.n,
    ensures
        final(out)@ == old(out)@ + viable_from(rows(graph.adjacencies@), arc_sets(graph.dir_adjacencies@), p, graph.adjacencies@[p as int]@.len()),
{
    let ghost adj = rows(graph.adjacencies@);
    let ghost dir = arc_sets(graph.dir_adjacencies@);
    let ghost o0 = out@;
    let row = &graph.adjacencies[p];
    assert(adj[p as int] == row@);
    let mut k: usize = 0;
    while k < row.len()
        invariant
            graph_ok(*graph),
            p < graph.n,
            adj == rows(graph.adjacencies@),
            dir == arc_sets(graph.dir_adjacencies@),
            adj[p as int] == row@,
            *row == graph.adjacencies@[p as int],
            k <= row@.len(),
            out@ == o0 + viable_from(adj, dir, p, k as nat),
        decreases row@.len() - k,
    {
        let o = row[k];
        assert(o < graph.n);
        assert(dir[p as int] == graph.dir_adjacencies@[p as int]@);
        assert(dir[o as int] == graph.dir_adjacencies@[o as int]@);
        if !graph.dir_adjacencies[p].contains(&o) && !graph.dir_adjacencies[o].contains(&p) {
            out.push((p, o));
        }
        assert(out@ =~= o0 + viable_from(adj, dir, p, (k + 1) as nat));
        k = k + 1;
    }
}

/// An arc offered by a part that passed is one of its edges that carries no
/// arc either way, and every such edge of such a part is offered.
pub open spec fn offered_exactly(g: MixedGraph, parts: Seq<usize>, results: Seq<SafetyVerdict>, arcs: Seq<(usize, usize)>) -> bool {
    &&& forall|k: int| #![trigger arcs[k]] 0 <= k < arcs.len() ==> {
        &&& arcs[k].0 < g.n && arcs[k].1 < g.n
        &&& parts.contains(arcs[k].0)
        &&& results[arcs[k].0 as int] == SafetyVerdict::Verified
        &&& g.adjacencies@[arcs[k].0 as int]@.contains(arcs[k].1)
        &&& !g.dir_adjacencies@[arcs[k].0 as int]@.contains(arcs[k].1)
        &&& !g.dir_adjacencies@[arcs[k].1 as int]@.contains(arcs[k].0)
    }
    &&& forall|p: usize, o: usize|
        #![trigger parts.contains(p), g.adjacencies@[p as int]@.contains(o)]
        parts.contains(p) && p < g.n && results[p as int] == SafetyVerdict::Verified && g.adjacencies@[p as int]@.contains(o)
            && !g.dir_adjacencies@[p as int]@.contains(o) && !g.dir_adjacencies@[o as int]@.contains(p) ==> arcs.contains((p, o))
}

proof fn lemma_viable_from(g: MixedGraph, p: usize, k: nat)
    requires
        graph_ok(g),
        p < g.n,
        k <= g.adjacencies@[p as int]@.len(),
    ensures
        forall|t: int| #![trigger viable_from(rows(g.adjacencies@), arc_sets(g.dir_adjacencies@), p, k)[t]]
            0 <= t < viable_from(rows(g.adjacencies@), arc_sets(g.dir_adjacencies@), p, k).len() ==> {
            let a = viable_from(rows(g.adjacencies@), arc_sets(g.dir_adjacencies@), p, k)[t];
            &&& a.0 == p
            &&& a.1 < g.n
            &&& g.adjacencies@[p as int]@.contains(a.1)
            &&& !g.dir_adjacencies@[p as int]@.contains(a.1)
            &&& !g.dir_adjacencies@[a.1 as int]@.contains(p)
        },
        forall|j: int| 0 <= j < k && !g.dir_adjacencies@[p as int]@.contains(#[trigger] g.adjacencies@[p as int]@[j])
            && !g.dir_adjacencies@[g.adjacencies@[p as int]@[j] as int]@.contains(p) ==> viable_from(
            rows(g.adjacencies@),
            arc_sets(g.dir_adjacencies@),
            p,
            k,
        ).contains((p, g.adjacencies@[p as int]@[j])),
    decreases k,
{
    let adj = rows(g.adjacencies@);
    let dir = arc_sets(g.dir_adjacencies@);
    assert(adj[p as int] == g.adjacencies@[p as int]@);
    if k > 0 {
        lemma_viable_from(g, p, (k - 1) as nat);
        let prev = viable_from(adj, dir, p, (k - 1) as nat);
        let o = adj[p as int][k - 1];
        assert(o < g.n);
        assert(dir[p as int] == g.dir_adjacencies@[p as int]@);
        assert(dir[o as int] == g.dir_adjacencies@[o as int]@);
        let cur = viable_from(adj, dir, p, k);
        if !(dir[p as int].contains(o) || dir[o as int].contains(p)) {
            assert(cur == prev.push((p, o)));
            assert(cur[prev.len() as int] == (p, o));
        } else {
            assert(cur == prev);
        }
        assert forall|t: int| #![trigger cur[t]] 0 <= t < cur.len() implies {
            &&& cur[t].0 == p
            &&& cur[t].1 < g.n
            &&& g.adjacencies@[p as int]@.contains(cur[t].1)
            &&& !g.dir_adjacencies@[p as int]@.contains(cur[t].1)
            &&& !g.dir_adjacencies@[cur[t].1 as int]@.contains(p)
        } by {
            if t < prev.len() {
                assert(cur[t] == prev[t]);
            } else {
                assert(g.adjacencies@[p as int]@[k - 1] == o);
            }
        }
        assert forall|j: int| 0 <= j < k && !g.dir_adjacencies@[p as int]@.contains(#[trigger] g.adjacencies@[p as int]@[j])
            && !g.dir_adjacencies@[g.adjacencies@[p as int]@[j] as int]@.contains(p) implies cur.contains((p, g.adjacencies@[p as int]@[j])) by {
            if j < k - 1 {
                let t = choose|t: int| 0 <= t < prev.len() && prev[t] == (p, g.adjacencies@[p as int]@[j]);
                assert(cur[t] == prev[t]);
            } else {
                assert(cur[prev.len() as int] == (p, o));
            }
        }
    }
}

/// What [`viable_arcs`] offers: exactly the edges without an arc of the
/// parts that passed (see [`offered_exactly`]).
pub proof fn law_viable_arcs_are_unoriented_edges(g: MixedGraph, parts: Seq<usize>, results: Seq<SafetyVerdict>)
    requires
        graph_ok(g),
        forall|k: int| 0 <= k < parts.len() ==> #[trigger] parts[k] < g.n && parts[k] < results.len(),
    ensures
        offered_exactly(g, parts, results, viable_arcs(rows(g.adjacencies@), arc_sets(g.dir_adjacencies@), parts, results, parts.len())),
{
    lemma_viable_arcs(g, parts, results, parts.len());
    assert(parts.take(parts.len() as int) =~= parts);
}

proof fn lemma_viable_arcs(g: MixedGraph, parts: Seq<usize>, results: Seq<SafetyVerdict>, n: nat)
    requires
        graph_ok(g),
        n <= parts.len(),
        forall|k: int| 0 <= k < parts.len() ==> #[trigger] parts[k] < g.n && parts[k] < results.len(),
    ensures
        offered_exactly(g, parts.take(n as int), results, viable_arcs(rows(g.adjacencies@), arc_sets(g.dir_adjacencies@), parts, results, n)),
    decreases n,
{
    let adj = rows(g.adjacencies@);
    let dir = arc_sets(g.dir_adjacencies@);
    let cur = viable_arcs(adj, dir, parts, results, n);
    let pt = parts.take(n as int);
    if n == 0 {
        assert(cur.len() == 0);
        assert forall|p: usize, o: usize|
            #![trigger pt.contains(p), g.adjacencies@[p as int]@.contains(o)]
            pt.contains(p) && p < g.n && results[p as int] == SafetyVerdict::Verified && g.adjacencies@[p as int]@.contains(o)
                && !g.dir_adjacencies@[p as int]@.contains(o) && !g.dir_adjacencies@[o as int]@.contains(p) implies cur.contains((p, o)) by {
            assert(pt.len() == 0);
        }
    } else {
        lemma_viable_arcs(g, parts, results, (n - 1) as nat);
        let prev = viable_arcs(adj, dir, parts, results, (n - 1) as nat);
        let pp = parts.take(n - 1);
        assert(pt == pp.push(parts[n - 1]));
        let p = parts[n - 1];
        assert(p < g.n && p < results.len());
        assert(adj[p as int] == g.adjacencies@[p as int]@);
        lemma_viable_from(g, p, g.adjacencies@[p as int]@.len());
        let vf = viable_from(adj, dir, p, adj[p as int].len());
        if passed(results, p) {
            assert(cur == prev + vf);
        } else {
            assert(cur == prev);
        }
        assert forall|k: int| #![trigger cur[k]] 0 <= k < cur.len() implies {
            &&& cur[k].0 < g.n && cur[k].1 < g.n
            &&& pt.contains(cur[k].0)
            &&& results[cur[k].0 as int] == SafetyVerdict::Verified
            &&& g.adjacencies@[cur[k].0 as int]@.contains(cur[k].1)
            &&& !g.dir_adjacencies@[cur[k].0 as int]@.contains(cur[k].1)
            &&& !g.dir_adjacencies@[cur[k].1 as int]@.contains(cur[k].0)
        } by {
            if k < prev.len() {
                assert(cur[k] == prev[k]);
                let j = choose|j: int| 0 <= j < pp.len() && pp[j] == prev[k].0;
                assert(pt[j] == pp[j]);
            } else {
                assert(cur[k] == vf[k - prev.len()]);
                assert(pt[n - 1] == p);
            }
        }
        assert forall|q: usize, o: usize|
            #![trigger pt.contains(q), g.adjacencies@[q as int]@.contains(o)]
            pt.contains(q) && q < g.n && results[q as int] == SafetyVerdict::Verified && g.adjacencies@[q as int]@.contains(o)
                && !g.dir_adjacencies@[q as int]@.contains(o) && !g.dir_adjacencies@[o as int]@.contains(q) implies cur.contains((q, o)) by {
            let j = choose|j: int| 0 <= j < pt.len() && pt[j] == q;
            if j < n - 1 {
                assert(pp[j] == q);
                assert(pp.contains(q));
                let t = choose|t: int| 0 <= t < prev.len() && prev[t] == (q, o);
                assert(cur[t] == prev[t]);
            } else {
                assert(q == p);
                let i = choose|i: int| 0 <= i < g.adjacencies@[p as int]@.len() && g.adjacencies@[p as int]@[i] == o;
                assert(vf.contains((p, g.adjacencies@[p as int]@[i])));
                let t = choose|t: int| 0 <= t < vf.len() && vf[t] == (p, o);
                assert(cur[prev.len() + t] == vf[t]);
            }
        }
    }
}

proof fn lemma_passed_parts(parts: Seq<usize>, results: Seq<SafetyVerdict>, k: nat)
    requires
        k <= parts.len(),
    ensures
        forall|v: usize| #[trigger] passed_parts(parts, results, k).contains(v) <==> parts.take(k as int).contains(v)
            && results[v as int] == SafetyVerdict::Verified,
    decreases k,
{
    broadcast use vstd::seq_lib::lemma_seq_contains_after_push;
    if k == 0 {
        assert(parts.take(0) =~= Seq::<usize>::empty());
        assert(passed_parts(parts, results, 0) =~= Seq::<usize>::empty());
    } else {
        lemma_passed_parts(parts, results, (k - 1) as nat);
        let prev = passed_parts(parts, results, (k - 1) as nat);
        let p = parts[k - 1];
        assert(parts.take(k as int) =~= parts.take(k - 1).push(p));
        if passed(results, p) {
            assert(passed_parts(parts, results, k) == prev.push(p));
        } else {
            assert(passed_parts(parts, results, k) == prev);
        }
    }
}

/// One decision of the rounds. After the checks: when none passed, stop and
/// merge; otherwise add the parts that passed to the verified ones and ask
/// for a DAG extension over their viable arcs. After the extension: when it
/// chose no arc, stop and merge; otherwise orient the chosen arcs and check
/// their targets, in increasing order, next.
pub fn hierarchy_step(graph: &MixedGraph, state: HierarchyState, event: HierarchyEvent) -> (r: (
    HierarchyState,
    HierarchyAction,
))
    requires
        graph_ok(*graph),
        forall|k: int| 0 <= k < state.parts_to_attempt@.len() ==> #[trigger] state.parts_to_attempt@[k] < graph.n,
        event matches HierarchyEvent::Checked(results) ==> forall|k: int|
            0 <= k < state.parts_to_attempt@.len() ==> #[trigger] state.parts_to_attempt@[k] < results@.len(),
    ensures
        r.1 matches HierarchyAction::ExtendDag(arcs) ==> event matches HierarchyEvent::Checked(results) && offered_exactly(
            *graph,
            state.parts_to_attempt@,
            results@,
            arcs@,
        ) && forall|v: usize| #[trigger] r.0.verified_parts@.contains(v) <==> state.verified_parts@.contains(v) || (
            state.parts_to_attempt@.contains(v) && results@[v as int] == SafetyVerdict::Verified),
        match event {
            HierarchyEvent::Checked(results) => if !any_passed(results@) {
                &&& r.0.parts_to_attempt@ == state.parts_to_attempt@
                &&& r.0.verified_parts@ == state.verified_parts@
                &&& r.1 is Merge
            } else {
                &&& r.0.parts_to_attempt@ == state.parts_to_attempt@
                &&& r.0.verified_parts@ == dedup(
                    state.verified_parts@ + passed_parts(state.parts_to_attempt@, results@, state.parts_to_attempt@.len()),
                )
                &&& r.1 matches HierarchyAction::ExtendDag(arcs) && arcs@ == viable_arcs(
                    rows(graph.adjacencies@),
                    arc_sets(graph.dir_adjacencies@),
                    state.parts_to_attempt@,
                    results@,
                    state.parts_to_attempt@.len(),
                )
            },
            HierarchyEvent::Chosen(arcs) => if arcs@.len() == 0 {
                &&& r.0.parts_to_attempt@ == state.parts_to_attempt@
                &&& r.0.verified_parts@ == state.verified_parts@
                &&& r.1 is Merge
            } else {
                &&& r.0.parts_to_attempt@ == sorted_ids(targets(arcs@))
                &&& r.0.verified_parts@ == state.verified_parts@
                &&& r.1 matches HierarchyAction::OrientAndCheck(a, ps) && a@ == arcs@ && ps@ == sorted_ids(targets(arcs@))
            },
        },
{
    let HierarchyState { parts_to_attempt, verified_parts } = state;
    match event {
        HierarchyEvent::Checked(results) => {
            let mut any = false;
            let mut i: usize = 0;
            while i < results.len()
                invariant
                    i <= results@.len(),
                    any == exists|j: int| 0 <= j < i && results@[j] == SafetyVerdict::Verified,
                decreases results@.len() - i,
            {
                if results[i] == SafetyVerdict::Verified {
                    any = true;
                }
                i = i + 1;
            }
            if !any {
                return (HierarchyState { parts_to_attempt, verified_parts }, HierarchyAction::Merge);
            }
            let ghost adj = rows(graph.adjacencies@);
            let ghost dir = arc_sets(graph.dir_adjacencies@);
            let ghost ps = parts_to_attempt@;
            let mut all = crate::resolve::copy_ids(&verified_parts);
            let mut arcs: Vec<(usize, usize)> = Vec::new();
            let mut k: usize = 0;
            while k < parts_to_attempt.len()
                invariant
                    graph_ok(*graph),
                    ps == parts_to_attempt@,
                    adj == rows(graph.adjacencies@),
                    dir == arc_sets(graph.dir_adjacencies@),
                    forall|j: int| 0 <= j < ps.len() ==> #[trigger] ps[j] < graph.n,
                    forall|j: int| 0 <= j < ps.len() ==> #[trigger] ps[j] < results@.len(),
                    k <= ps.len(),
                    all@ == verified_parts@ + passed_parts(ps, results@, k as nat),
                    arcs@ == viable_arcs(adj, dir, ps, results@, k as nat),
                decreases ps.len() - k,
            {
                let p = parts_to_attempt[k];
                assert(p == ps[k as int]);
                if results[p] == SafetyVerdict::Verified {
                    all.push(p);
                    viable_list(graph, p, &mut arcs);
                }
                k = k + 1;
            }
            let verified = dedup_list(&all);
            proof {
                law_viable_arcs_are_unoriented_edges(*graph, ps, results@);
                lemma_passed_parts(ps, results@, ps.len());
                crate::pdag::lemma_dedup(all@);
                assert(ps.take(ps.len() as int) =~= ps);
                assert forall|v: usize| #[trigger] verified@.contains(v) <==> verified_parts@.contains(v) || (
                    ps.contains(v) && results@[v as int] == SafetyVerdict::Verified) by {
                    vstd::seq_lib::lemma_seq_concat_contains_all_elements(
                        verified_parts@,
                        passed_parts(ps, results@, ps.len()),
                        v,
                    );
                }
            }
            (HierarchyState { parts_to_attempt, verified_parts: verified }, HierarchyAction::ExtendDag(arcs))
        },
        HierarchyEvent::Chosen(arcs) => {
            if arcs.len() == 0 {
                return (HierarchyState { parts_to_attempt, verified_parts }, HierarchyAction::Merge);
            }
            let mut next: Vec<usize> = Vec::new();
            let mut k: usize = 0;
            assert(targets(arcs@.take(0)) =~= Set::<usize>::empty());
            assert(next@.to_set() =~= Set::<usize>::empty());
            while k < arcs.len()
                invariant
                    k <= arcs@.len(),
                    increasing(next@),
                    next@.to_set() == targets(arcs@.take(k as int)),
                decreases arcs@.len() - k,
            {
                insert_sorted(&mut next, arcs[k].1);
                proof {
                    assert(targets(arcs@.take(k + 1)) =~= targets(arcs@.take(k as int)).insert(arcs@[k as int].1)) by {
                        assert forall|v: usize| targets(arcs@.take(k + 1)).contains(v) implies targets(arcs@.take(k as int)).insert(arcs@[k as int].1).contains(v) by {
                            let j = choose|j: int| 0 <= j < k + 1 && #[trigger] arcs@.take(k + 1)[j].1 == v;
                            if j < k {
                                assert(arcs@.take(k as int)[j].1 == v);
                            }
                        }
                        assert forall|v: usize| targets(arcs@.take(k as int)).insert(arcs@[k as int].1).contains(v) implies targets(arcs@.take(k + 1)).contains(v) by {
                            if v == arcs@[k as int].1 {
                                assert(arcs@.take(k + 1)[k as int].1 == v);
                            } else {
                                let j = choose|j: int| 0 <= j < k && #[trigger] arcs@.take(k as int)[j].1 == v;
                                assert(arcs@.take(k + 1)[j].1 == v);
                            }
                        }
                    }
                }
                k = k + 1;
            }
            proof {
                assert(arcs@.take(arcs@.len() as int) =~= arcs@);
                assert(increasing(next@) && next@.to_set() == targets(arcs@));
                lemma_increasing_unique(sorted_ids(targets(arcs@)), next@);
            }
            let check = crate::resolve::copy_ids(&next);
            (HierarchyState { parts_to_attempt: next, verified_parts }, HierarchyAction::OrientAndCheck(arcs, check))
        },
    }
}

/// The signals of the constraints in `row`, where `cs[k]` lists the signals
/// of constraint `k`.
pub open spec fn row_signals(row: Seq<usize>, cs: Seq<Vec<usize>>) -> Set<usize> {
    Set::new(|s: usize| exists|k: int| 0 <= k < row.len() && (#[trigger] cs[row[k] as int])@.contains(s))
}

/// The signals of part `p` that also occur in a part of `parts`.
pub open spec fn shared_signals(partition: Seq<Vec<usize>>, cs: Seq<Vec<usize>>, p: int, parts: Set<usize>) -> Set<usize> {
    Set::new(
        |s: usize|
            row_signals(partition[p]@, cs).contains(s) && exists|q: usize|
                parts.contains(q) && #[trigger] row_signals(partition[q as int]@, cs).contains(s),
    )
}

/// The parts joined to `p` by an edge that carries no arc from the parts
/// arcs of `p` list.
pub open spec fn output_parts_of(g: MixedGraph, p: int) -> Set<usize> {
    Set::new(|q: usize| g.adjacencies@[p]@.contains(q) && !g.dir_adjacencies@[p]@.contains(q))
}

/// Adds to `out` the signals of the constraints in `row` that `keep` holds
/// (all of them when `keep` is `None`).
fn add_row_signals(out: &mut Vec<usize>, row: &Vec<usize>, cs: &Vec<Vec<usize>>, keep: Option<&Vec<usize>>)
    requires
        increasing(old(out)@),
        forall|k: int| 0 <= k < row@.len() ==> #[trigger] row@[k] < cs@.len(),
    ensures
        increasing(final(out)@),
        final(out)@.to_set() == old(out)@.to_set() + match keep {
            Some(f) => row_signals(row@, cs@).intersect(f@.to_set()),
            None => row_signals(row@, cs@),
        },
{
    let ghost o = out@.to_set();
    let ghost target = match keep {
        Some(f) => row_signals(row@, cs@).intersect(f@.to_set()),
        None => row_signals(row@, cs@),
    };
    let mut k: usize = 0;
    assert(row_signals(row@.take(0), cs@) =~= Set::<usize>::empty());
    while k < row.len()
        invariant
            forall|k: int| 0 <= k < row@.len() ==> #[trigger] row@[k] < cs@.len(),
            target == match keep {
                Some(f) => row_signals(row@, cs@).intersect(f@.to_set()),
                None => row_signals(row@, cs@),
            },
            k <= row@.len(),
            increasing(out@),
            out@.to_set() == o + target.intersect(row_signals(row@.take(k as int), cs@)),
        decreases row@.len() - k,
    {
        let sigs = &cs[row[k]];
        let ghost before = out@.to_set();
        let mut m: usize = 0;
        assert(sigs@.take(0).to_set() =~= Set::<usize>::empty());
        while m < sigs.len()
            invariant
                k < row@.len(),
                row@[k as int] < cs@.len(),
                *sigs == cs@[row@[k as int] as int],
                target == match keep {
                    Some(f) => row_signals(row@, cs@).intersect(f@.to_set()),
                    None => row_signals(row@, cs@),
                },
                m <= sigs@.len(),
                increasing(out@),
                out@.to_set() == before + target.intersect(sigs@.take(m as int).to_set()),
            decreases sigs@.len() - m,
        {
            let s = sigs[m];
            let take = match keep {
                Some(f) => contains_usize(f, s),
                None => true,
            };
            assert(sigs@.contains(s));
            assert(cs@[row@[k as int] as int]@.contains(s));
            assert(row_signals(row@, cs@).contains(s));
            if take {
                insert_sorted(out, s);
            }
            assert(sigs@.take(m + 1) =~= sigs@.take(m as int).push(s));
            proof { crate::r1cs::lemma_push_to_set(sigs@.take(m as int), s); }
            assert(out@.to_set() =~= before + target.intersect(sigs@.take(m + 1).to_set()));
            m = m + 1;
        }
        proof {
            assert(sigs@.take(sigs@.len() as int) =~= sigs@);
            assert(row_signals(row@.take(k + 1), cs@) =~= row_signals(row@.take(k as int), cs@) + sigs@.to_set()) by {
                assert forall|t: usize| row_signals(row@.take(k + 1), cs@).contains(t) implies
                    row_signals(row@.take(k as int), cs@).contains(t) || sigs@.to_set().contains(t) by {
                    let j = choose|j: int| 0 <= j < k + 1 && (#[trigger] cs@[row@.take(k + 1)[j] as int])@.contains(t);
                    if j < k {
                        assert(row@.take(k as int)[j] == row@.take(k + 1)[j]);
                    }
                }
                assert forall|t: usize| row_signals(row@.take(k as int), cs@).contains(t) implies
                    row_signals(row@.take(k + 1), cs@).contains(t) by {
                    let j = choose|j: int| 0 <= j < k && (#[trigger] cs@[row@.take(k as int)[j] as int])@.contains(t);
                    assert(row@.take(k as int)[j] == row@.take(k + 1)[j]);
                }
                assert forall|t: usize| sigs@.to_set().contains(t) implies row_signals(row@.take(k + 1), cs@).contains(t) by {
                    assert(row@.take(k + 1)[k as int] == row@[k as int]);
                }
            }
            assert(out@.to_set() =~= o + target.intersect(row_signals(row@.take(k + 1), cs@)));
        }
        k = k + 1;
    }
    assert(row@.take(row@.len() as int) =~= row@);
    assert(target.intersect(row_signals(row@, cs@)) =~= target);
}

/// Some part among `qs` that `skip` does not hold has signal `s`.
pub open spec fn in_some_part(
    partition: Seq<Vec<usize>>,
    cs: Seq<Vec<usize>>,
    qs: Seq<usize>,
    skip: Set<usize>,
    s: usize,
) -> bool {
    exists|j: int| 0 <= j < qs.len() && !skip.contains(qs[j]) && #[trigger] row_signals(partition[qs[j] as int]@, cs).contains(s)
}

/// Adds to `out` the signals of `own` that some part of `parts` outside
/// `skip` also has.
fn add_parts_signals(
    out: &mut Vec<usize>,
    parts: &Vec<usize>,
    skip: &HashSet<usize>,
    partition: &Vec<Vec<usize>>,
    cs: &Vec<Vec<usize>>,
    own: &Vec<usize>,
)
    requires
        old(out)@.len() == 0,
        forall|j: int| 0 <= j < parts@.len() ==> #[trigger] parts@[j] < partition@.len(),
        forall|p: int, k: int| 0 <= p < partition@.len() && 0 <= k < partition@[p]@.len() ==> #[trigger] partition@[p]@[k] < cs@.len(),
    ensures
        increasing(final(out)@),
        final(out)@.to_set() == Set::new(|s: usize| own@.contains(s) && in_some_part(partition@, cs@, parts@, skip@, s)),
{
    let mut i: usize = 0;
    assert(out@.to_set() =~= Set::new(|s: usize| own@.contains(s) && in_some_part(partition@, cs@, parts@.take(0), skip@, s)));
    while i < parts.len()
        invariant
            forall|j: int| 0 <= j < parts@.len() ==> #[trigger] parts@[j] < partition@.len(),
            forall|p: int, k: int| 0 <= p < partition@.len() && 0 <= k < partition@[p]@.len() ==> #[trigger] partition@[p]@[k] < cs@.len(),
            i <= parts@.len(),
            increasing(out@),
            out@.to_set() == Set::new(|s: usize| own@.contains(s) && in_some_part(partition@, cs@, parts@.take(i as int), skip@, s)),
        decreases parts@.len() - i,
    {
        let q = parts[i];
        let ghost before = out@.to_set();
        let ghost pt = parts@.take(i + 1);
        assert(pt[i as int] == q);
        assert forall|j: int| 0 <= j < i implies #[trigger] pt[j] == parts@.take(i as int)[j] by {}
        if !skip.contains(&q) {
            let row = &partition[q];
            assert forall|k: int| 0 <= k < row@.len() implies #[trigger] row@[k] < cs@.len() by {
                assert(partition@[q as int]@[k] < cs@.len());
            }
            add_row_signals(out, row, cs, Some(own));
            assert(out@.to_set() =~= Set::new(|s: usize| own@.contains(s) && in_some_part(partition@, cs@, pt, skip@, s))) by {
                assert forall|s: usize| in_some_part(partition@, cs@, pt, skip@, s) implies
                    in_some_part(partition@, cs@, parts@.take(i as int), skip@, s) || row_signals(row@, cs@).contains(s) by {
                    let j = choose|j: int| 0 <= j < pt.len() && !skip@.contains(pt[j]) && #[trigger] row_signals(partition@[pt[j] as int]@, cs@).contains(s);
                    if j < i {
                        assert(parts@.take(i as int)[j] == pt[j]);
                    }
                }
                assert forall|s: usize| in_some_part(partition@, cs@, parts@.take(i as int), skip@, s) implies
                    in_some_part(partition@, cs@, pt, skip@, s) by {
                    let j = choose|j: int| 0 <= j < i && !skip@.contains(parts@.take(i as int)[j]) && #[trigger] row_signals(partition@[parts@.take(i as int)[j] as int]@, cs@).contains(s);
                    assert(pt[j] == parts@.take(i as int)[j]);
                }
                assert forall|s: usize| row_signals(row@, cs@).contains(s) implies in_some_part(partition@, cs@, pt, skip@, s) by {
                    assert(row_signals(partition@[pt[i as int] as int]@, cs@).contains(s));
                }
            }
        } else {
            assert(out@.to_set() =~= Set::new(|s: usize| own@.contains(s) && in_some_part(partition@, cs@, pt, skip@, s))) by {
                assert forall|s: usize| in_some_part(partition@, cs@, pt, skip@, s) implies
                    in_some_part(partition@, cs@, parts@.take(i as int), skip@, s) by {
                    let j = choose|j: int| 0 <= j < pt.len() && !skip@.contains(pt[j]) && #[trigger] row_signals(partition@[pt[j] as int]@, cs@).contains(s);
                    assert(j < i);
                    assert(parts@.take(i as int)[j] == pt[j]);
                }
                assert forall|s: usize| in_some_part(partition@, cs@, parts@.take(i as int), skip@, s) implies
                    in_some_part(partition@, cs@, pt, skip@, s) by {
                    let j = choose|j: int| 0 <= j < i && !skip@.contains(parts@.take(i as int)[j]) && #[trigger] row_signals(partition@[parts@.take(i as int)[j] as int]@, cs@).contains(s);
                    assert(pt[j] == parts@.take(i as int)[j]);
                }
            }
        }
        i = i + 1;
    }
    assert(parts@.take(parts@.len() as int) =~= parts@);
}

/// The signals that part `idx` shares with the parts its arcs list (the
/// inputs it is checked with) and with the parts joined to it by an edge
/// that carries no such arc (the outputs it is checked for), each increasing.
/// `constraint_signals[k]` lists the signals of constraint `k`.
pub fn part_boundary(graph: &MixedGraph, constraint_signals: &Vec<Vec<usize>>, idx: usize) -> (r: (Vec<usize>, Vec<usize>))
    requires
        graph_ok(*graph),
        idx < graph.n,
        forall|v: int, x: usize| 0 <= v < graph.n && #[trigger] graph.dir_adjacencies@[v]@.contains(x) ==> x < graph.n,
        forall|p: int, k: int|
            0 <= p < graph.partition@.len() && 0 <= k < graph.partition@[p]@.len() ==> #[trigger] graph.partition@[p]@[k]
                < constraint_signals@.len(),
    ensures
        increasing(r.0@),
        r.0@.to_set() == shared_signals(graph.partition@, constraint_signals@, idx as int, graph.dir_adjacencies@[idx as int]@),
        increasing(r.1@),
        r.1@.to_set() == shared_signals(graph.partition@, constraint_signals@, idx as int, output_parts_of(*graph, idx as int)),
{
    let ghost part = graph.partition@;
    let ghost cs = constraint_signals@;
    let mut own: Vec<usize> = Vec::new();
    let row = &graph.partition[idx];
    assert forall|k: int| 0 <= k < row@.len() implies #[trigger] row@[k] < cs.len() by {
        assert(part[idx as int]@[k] < cs.len());
    }
    add_row_signals(&mut own, row, constraint_signals, None);
    assert(own@.to_set() =~= row_signals(part[idx as int]@, cs));
    let from = sorted_set(&graph.dir_adjacencies[idx]);
    assert forall|j: int| 0 <= j < from@.len() implies #[trigger] from@[j] < part.len() by {
        assert(from@.to_set().contains(from@[j]));
    }
    let none: HashSet<usize> = HashSet::new();
    let mut ins: Vec<usize> = Vec::new();
    add_parts_signals(&mut ins, &from, &none, &graph.partition, constraint_signals, &own);
    proof {
        let dir = graph.dir_adjacencies@[idx as int]@;
        assert forall|s: usize| #![auto] in_some_part(part, cs, from@, none@, s) == exists|q: usize|
            dir.contains(q) && #[trigger] row_signals(part[q as int]@, cs).contains(s) by {
            if in_some_part(part, cs, from@, none@, s) {
                let j = choose|j: int| 0 <= j < from@.len() && !none@.contains(from@[j]) && #[trigger] row_signals(part[from@[j] as int]@, cs).contains(s);
                assert(from@.to_set().contains(from@[j]));
            }
            if exists|q: usize| dir.contains(q) && #[trigger] row_signals(part[q as int]@, cs).contains(s) {
                let q = choose|q: usize| dir.contains(q) && #[trigger] row_signals(part[q as int]@, cs).contains(s);
                assert(from@.to_set().contains(q));
                let j = choose|j: int| 0 <= j < from@.len() && from@[j] == q;
                assert(row_signals(part[from@[j] as int]@, cs).contains(s));
            }
        }
        assert(ins@.to_set() =~= shared_signals(part, cs, idx as int, dir));
    }
    let adj = &graph.adjacencies[idx];
    assert forall|j: int| 0 <= j < adj@.len() implies #[trigger] adj@[j] < part.len() by {
        assert(graph.adjacencies@[idx as int]@[j] < graph.n);
    }
    let mut outs: Vec<usize> = Vec::new();
    add_parts_signals(&mut outs, adj, &graph.dir_adjacencies[idx], &graph.partition, constraint_signals, &own);
    proof {
        let dir = graph.dir_adjacencies@[idx as int]@;
        let ops = output_parts_of(*graph, idx as int);
        assert forall|s: usize| #![auto] in_some_part(part, cs, adj@, dir, s) == exists|q: usize|
            ops.contains(q) && #[trigger] row_signals(part[q as int]@, cs).contains(s) by {
            if in_some_part(part, cs, adj@, dir, s) {
                let j = choose|j: int| 0 <= j < adj@.len() && !dir.contains(adj@[j]) && #[trigger] row_signals(part[adj@[j] as int]@, cs).contains(s);
                assert(ops.contains(adj@[j]));
            }
            if exists|q: usize| ops.contains(q) && #[trigger] row_signals(part[q as int]@, cs).contains(s) {
                let q = choose|q: usize| ops.contains(q) && #[trigger] row_signals(part[q as int]@, cs).contains(s);
                let j = choose|j: int| 0 <= j < adj@.len() && adj@[j] == q;
                assert(row_signals(part[adj@[j] as int]@, cs).contains(s));
            }
        }
        assert(outs@.to_set() =~= shared_signals(part, cs, idx as int, ops));
    }
    (ins, outs)
}

} // verus!
