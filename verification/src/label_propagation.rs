//! Iterated label propagation over several graphs at once: starting from an
//! initial labelling of the nodes of each graph, a node's label is refined by
//! the labels of its adjacent nodes, round after round, until no class of
//! any graph splits. Labels are shared between the graphs, so that nodes of
//! different graphs that cannot be told apart keep a common label; a label
//! held by at most one node in each graph is settled and no longer refined.
//!
//! Within each graph the result is the coarsest refinement of the initial
//! labelling in which nodes with the same label have, position by position,
//! adjacent nodes with the same labels.
use vstd::prelude::*;
use crate::tags::{key_index, lemma_key_index};
use crate::strings::no_dups;
use crate::mixed_graph::rows;
use crate::resolve::copy_ids;

verus! {

// ---------------------------------------------------------------------------
// Labellings and adjacency lists.
// ---------------------------------------------------------------------------

/// Classes as values: each label with the indices it holds.
pub open spec fn cview(cs: Seq<(usize, Vec<usize>)>) -> Seq<(usize, Seq<usize>)> {
    cs.map_values(|c: (usize, Vec<usize>)| (c.0, c.1@))
}

/// Whether some class holds `i`.
pub open spec fn holds(cs: Seq<(usize, Seq<usize>)>, i: usize) -> bool {
    exists|k: int| 0 <= k < cs.len() && #[trigger] cs[k].1.contains(i)
}

/// The label of the class holding `i`.
pub open spec fn label_of(cs: Seq<(usize, Seq<usize>)>, i: usize) -> usize {
    cs[choose|k: int| 0 <= k < cs.len() && #[trigger] cs[k].1.contains(i)].0
}

/// Classes with distinct labels and no index in two classes; an index may
/// occur more than once within its class, where it counts once.
pub open spec fn distinct_classes(cs: Seq<(usize, Seq<usize>)>) -> bool {
    &&& forall|a: int, b: int| 0 <= a < b < cs.len() ==> cs[a].0 != cs[b].0
    &&& forall|a: int, b: int, i: usize|
        0 <= a < cs.len() && 0 <= b < cs.len() && a != b && #[trigger] cs[a].1.contains(i)
            ==> !(#[trigger] cs[b].1.contains(i))
}

/// Distinct classes (see [`distinct_classes`]), each without repeats.
pub open spec fn proper_classes(cs: Seq<(usize, Seq<usize>)>) -> bool {
    &&& distinct_classes(cs)
    &&& forall|a: int| 0 <= a < cs.len() ==> no_dups((#[trigger] cs[a]).1)
}

/// A labelling: distinct classes (see [`proper_classes`]), none empty.
pub open spec fn labelling(cs: Seq<(usize, Seq<usize>)>) -> bool {
    &&& proper_classes(cs)
    &&& forall|a: int| 0 <= a < cs.len() ==> (#[trigger] cs[a]).1.len() > 0
}

/// The adjacency list of index `i`: the value of the first entry keyed `i`.
pub open spec fn adjacent(adjs: Seq<(usize, Vec<usize>)>, i: usize) -> Seq<usize> {
    match key_index(adjs, i) {
        Some(k) => adjs[k].1@,
        None => Seq::empty(),
    }
}

/// Every labelled index has an adjacency list, and names labelled indices
/// only.
pub open spec fn adjacency_closed(adjs: Seq<(usize, Vec<usize>)>, cs: Seq<(usize, Seq<usize>)>) -> bool {
    forall|i: usize|
        #[trigger] holds(cs, i) ==> key_index(adjs, i) is Some && forall|k: int|
            0 <= k < adjacent(adjs, i).len() ==> holds(cs, #[trigger] adjacent(adjs, i)[k])
}

/// A relation between the labelled indices of one graph that only relates
/// indices with the same label whose adjacent indices are related position by
/// position.
pub open spec fn stable_relation(
    cs: Seq<(usize, Seq<usize>)>,
    adjs: Seq<(usize, Vec<usize>)>,
    rel: spec_fn(usize, usize) -> bool,
) -> bool {
    forall|i: usize, j: usize|
        holds(cs, i) && holds(cs, j) && #[trigger] rel(i, j) ==> label_of(cs, i) == label_of(cs, j)
            && adjacent(adjs, i).len() == adjacent(adjs, j).len() && forall|k: int|
            0 <= k < adjacent(adjs, i).len() ==> rel(adjacent(adjs, i)[k], adjacent(adjs, j)[k])
}

/// The labels of `out` are stable: indices with the same label have, position
/// by position, adjacent indices with the same label.
pub open spec fn stable_labels(
    out: Seq<(usize, Seq<usize>)>,
    adjs: Seq<(usize, Vec<usize>)>,
) -> bool {
    forall|i: usize, j: usize|
        holds(out, i) && holds(out, j) && #[trigger] label_of(out, i) == #[trigger] label_of(out, j)
            ==> adjacent(adjs, i).len() == adjacent(adjs, j).len() && forall|k: int|
            0 <= k < adjacent(adjs, i).len() ==> label_of(out, adjacent(adjs, i)[k]) == label_of(
                out,
                adjacent(adjs, j)[k],
            )
}

pub proof fn lemma_label_of(cs: Seq<(usize, Seq<usize>)>, k: int, i: usize)
    requires
        distinct_classes(cs),
        0 <= k < cs.len(),
        cs[k].1.contains(i),
    ensures
        holds(cs, i),
        label_of(cs, i) == cs[k].0,
{
    let c = choose|c: int| 0 <= c < cs.len() && #[trigger] cs[c].1.contains(i);
    assert(cs[k].1.contains(i));
    if c != k {
        assert(!cs[c].1.contains(i));
    }
}

/// Position of the first entry of `adjs` keyed `i`.
pub(crate) fn find_entry(adjs: &Vec<(usize, Vec<usize>)>, i: usize) -> (r: Option<usize>)
    ensures
        match r {
            Some(k) => key_index(adjs@, i) == Some(k as int),
            None => key_index(adjs@, i) is None,
        },
{
    proof {
        lemma_key_index(adjs@, i);
    }
    let mut k: usize = 0;
    while k < adjs.len()
        invariant
            k <= adjs@.len(),
            forall|j: int| 0 <= j < k ==> adjs@[j].0 != i,
            key_index(adjs@, i) matches Some(q) ==> 0 <= q < adjs@.len() && adjs@[q].0 == i
                && forall|j: int| 0 <= j < q ==> adjs@[j].0 != i,
            key_index(adjs@, i) is None ==> forall|j: int| 0 <= j < adjs@.len() ==> adjs@[j].0 != i,
        decreases adjs@.len() - k,
    {
        if adjs[k].0 == i {
            return Some(k);
        }
        k = k + 1;
    }
    None
}

// ---------------------------------------------------------------------------
// The nodes of all graphs, numbered one after the other.
// ---------------------------------------------------------------------------

/// The initial labellings as values.
pub open spec fn cviews(init: Seq<Vec<(usize, Vec<usize>)>>) -> Seq<Seq<(usize, Seq<usize>)>> {
    init.map_values(|cs: Vec<(usize, Vec<usize>)>| cview(cs@))
}

/// The adjacency lists as values.
pub open spec fn aviews(adjs: Seq<Vec<(usize, Vec<usize>)>>) -> Seq<Seq<(usize, Vec<usize>)>> {
    adjs.map_values(|a: Vec<(usize, Vec<usize>)>| a@)
}

/// `graph`, `index` and `initial` number the labelled indices of every graph
/// (graph by graph, `starts[g]` being the first node of graph `g` and
/// `starts[N]` their number): each node is a labelled index of its graph,
/// with that index's initial label, and every labelled index is exactly one
/// node.
pub open spec fn numbering(
    ins: Seq<Seq<(usize, Seq<usize>)>>,
    graph: Seq<usize>,
    index: Seq<usize>,
    initial: Seq<usize>,
    starts: Seq<usize>,
) -> bool {
    let n = graph.len();
    &&& index.len() == n && initial.len() == n
    &&& starts.len() == ins.len() + 1 && starts[0] == 0 && starts[ins.len() as int] == n
    &&& forall|a: int, b: int| 0 <= a <= b <= ins.len() ==> starts[a] <= starts[b]
    &&& forall|x: int| 0 <= x < n ==> #[trigger] graph[x] < ins.len() && starts[graph[x] as int] <= x
        < starts[graph[x] + 1]
    &&& forall|x: int| 0 <= x < n ==> holds(ins[graph[x] as int], #[trigger] index[x])
        && label_of(ins[graph[x] as int], index[x]) == initial[x]
    &&& forall|x: int, y: int|
        0 <= x < n && 0 <= y < n && graph[x] == graph[y] && #[trigger] index[x] == #[trigger] index[y]
            ==> x == y
    &&& forall|g: int, i: usize|
        0 <= g < ins.len() && #[trigger] holds(ins[g], i) ==> exists|x: int|
            0 <= x < n && graph[x] == g && #[trigger] index[x] == i
}

/// Some node of graph `h` is member `m` of class `k`.
spec fn placed(graph: Seq<usize>, ck: Seq<int>, cm: Seq<int>, h: int, k: int, m: int) -> bool {
    exists|x: int| 0 <= x < graph.len() && graph[x] == h && #[trigger] ck[x] == k && cm[x] == m
}

proof fn lemma_placed_push(graph: Seq<usize>, ck: Seq<int>, cm: Seq<int>, g: usize, k: int, m: int)
    requires
        ck.len() == graph.len(),
        cm.len() == graph.len(),
    ensures
        placed(graph.push(g), ck.push(k), cm.push(m), g as int, k, m),
        forall|h: int, k2: int, m2: int| #![trigger placed(graph.push(g), ck.push(k), cm.push(m), h, k2, m2)]
            placed(graph, ck, cm, h, k2, m2) ==> placed(graph.push(g), ck.push(k), cm.push(m), h, k2, m2),
{
    let x0 = graph.len() as int;
    assert(ck.push(k)[x0] == k);
    assert forall|h: int, k2: int, m2: int| #![trigger placed(graph.push(g), ck.push(k), cm.push(m), h, k2, m2)]
        placed(graph, ck, cm, h, k2, m2) implies placed(graph.push(g), ck.push(k), cm.push(m), h, k2, m2) by {
        let x = choose|x: int| 0 <= x < graph.len() && graph[x] == h && #[trigger] ck[x] == k2 && cm[x] == m2;
        assert(ck.push(k)[x] == k2);
    }
}

/// Numbers the labelled indices of every graph (see [`numbering`]).
fn number_nodes(init: &Vec<Vec<(usize, Vec<usize>)>>) -> (r: (Vec<usize>, Vec<usize>, Vec<usize>, Vec<usize>))
    requires
        forall|g: int| 0 <= g < init@.len() ==> proper_classes(#[trigger] cview(init@[g]@)),
    ensures
        numbering(cviews(init@), r.0@, r.1@, r.2@, r.3@),
{
    let ghost ins = cviews(init@);
    let mut graph: Vec<usize> = Vec::new();
    let mut index: Vec<usize> = Vec::new();
    let mut initial: Vec<usize> = Vec::new();
    let mut starts: Vec<usize> = Vec::new();
    let ghost mut ck: Seq<int> = Seq::empty();
    let ghost mut cm: Seq<int> = Seq::empty();
    let mut g: usize = 0;
    while g < init.len()
        invariant
            ins == cviews(init@),
            ins.len() == init@.len(),
            forall|h: int| 0 <= h < ins.len() ==> proper_classes(#[trigger] ins[h]),
            g <= ins.len(),
            index@.len() == graph@.len() && initial@.len() == graph@.len(),
            ck.len() == graph@.len() && cm.len() == graph@.len(),
            starts@.len() == g,
            g > 0 ==> starts@[0] == 0,
            g == 0 ==> graph@.len() == 0,
            forall|a: int, b: int| 0 <= a <= b < g ==> starts@[a] <= starts@[b],
            forall|a: int| 0 <= a < g ==> starts@[a] <= graph@.len(),
            forall|x: int| 0 <= x < graph@.len() ==> #[trigger] graph@[x] < g && starts@[graph@[x] as int] <= x
                && (graph@[x] + 1 < g ==> x < starts@[graph@[x] + 1]),
            forall|x: int| 0 <= x < graph@.len() ==> 0 <= #[trigger] ck[x] < ins[graph@[x] as int].len()
                && 0 <= cm[x] < ins[graph@[x] as int][ck[x]].1.len()
                && ins[graph@[x] as int][ck[x]].1[cm[x]] == index@[x]
                && ins[graph@[x] as int][ck[x]].0 == initial@[x],
            forall|x: int, y: int| 0 <= x < y < graph@.len() && graph@[x] == graph@[y] ==> #[trigger] ck[x] < #[trigger] ck[y]
                || (ck[x] == ck[y] && cm[x] < cm[y]),
            forall|h: int, k: int, m: int| 0 <= h < g && 0 <= k < ins[h].len() && 0 <= m < ins[h][k].1.len()
                ==> #[trigger] placed(graph@, ck, cm, h, k, m),
        decreases init@.len() - g,
    {
        starts.push(graph.len());
        let cs = &init[g];
        assert(cview(cs@) == ins[g as int]);
        let mut k: usize = 0;
        while k < cs.len()
            invariant
                ins == cviews(init@),
                ins.len() == init@.len(),
                cview(cs@) == ins[g as int],
                forall|h: int| 0 <= h < ins.len() ==> proper_classes(#[trigger] ins[h]),
                g < ins.len(),
                k <= cs@.len(),
                index@.len() == graph@.len() && initial@.len() == graph@.len(),
                ck.len() == graph@.len() && cm.len() == graph@.len(),
                starts@.len() == g + 1,
                starts@[0] == 0,
                forall|a: int, b: int| 0 <= a <= b <= g ==> starts@[a] <= starts@[b],
                forall|a: int| 0 <= a <= g ==> starts@[a] <= graph@.len(),
                forall|x: int| 0 <= x < graph@.len() ==> #[trigger] graph@[x] <= g && starts@[graph@[x] as int] <= x
                    && (graph@[x] < g ==> x < starts@[graph@[x] + 1]),
                forall|x: int| 0 <= x < graph@.len() ==> 0 <= #[trigger] ck[x] < ins[graph@[x] as int].len()
                    && 0 <= cm[x] < ins[graph@[x] as int][ck[x]].1.len()
                    && ins[graph@[x] as int][ck[x]].1[cm[x]] == index@[x]
                    && ins[graph@[x] as int][ck[x]].0 == initial@[x],
                forall|x: int| 0 <= x < graph@.len() && graph@[x] == g ==> #[trigger] ck[x] < k,
                forall|x: int, y: int| 0 <= x < y < graph@.len() && graph@[x] == graph@[y] ==> #[trigger] ck[x] < #[trigger] ck[y]
                    || (ck[x] == ck[y] && cm[x] < cm[y]),
                forall|h: int, k2: int, m: int| 0 <= h < g && 0 <= k2 < ins[h].len() && 0 <= m < ins[h][k2].1.len()
                    ==> #[trigger] placed(graph@, ck, cm, h, k2, m),
                forall|k2: int, m: int| 0 <= k2 < k && 0 <= m < ins[g as int][k2].1.len()
                    ==> #[trigger] placed(graph@, ck, cm, g as int, k2, m),
            decreases cs@.len() - k,
        {
            let members = &cs[k].1;
            assert(ins[g as int][k as int].1 == members@);
            let mut m: usize = 0;
            while m < members.len()
                invariant
                    ins == cviews(init@),
                    ins.len() == init@.len(),
                    cview(cs@) == ins[g as int],
                    ins[g as int][k as int].1 == members@,
                    ins[g as int][k as int].0 == cs@[k as int].0,
                    forall|h: int| 0 <= h < ins.len() ==> proper_classes(#[trigger] ins[h]),
                    g < ins.len(),
                    k < cs@.len(),
                    m <= members@.len(),
                    index@.len() == graph@.len() && initial@.len() == graph@.len(),
                    ck.len() == graph@.len() && cm.len() == graph@.len(),
                    starts@.len() == g + 1,
                    starts@[0] == 0,
                    forall|a: int, b: int| 0 <= a <= b <= g ==> starts@[a] <= starts@[b],
                    forall|a: int| 0 <= a <= g ==> starts@[a] <= graph@.len(),
                    forall|x: int| 0 <= x < graph@.len() ==> #[trigger] graph@[x] <= g && starts@[graph@[x] as int] <= x
                        && (graph@[x] < g ==> x < starts@[graph@[x] + 1]),
                    forall|x: int| 0 <= x < graph@.len() ==> 0 <= #[trigger] ck[x] < ins[graph@[x] as int].len()
                        && 0 <= cm[x] < ins[graph@[x] as int][ck[x]].1.len()
                        && ins[graph@[x] as int][ck[x]].1[cm[x]] == index@[x]
                        && ins[graph@[x] as int][ck[x]].0 == initial@[x],
                    forall|x: int| 0 <= x < graph@.len() && graph@[x] == g ==> #[trigger] ck[x] < k || (ck[x] == k && cm[x] < m),
                    forall|x: int, y: int| 0 <= x < y < graph@.len() && graph@[x] == graph@[y] ==> #[trigger] ck[x] < #[trigger] ck[y]
                        || (ck[x] == ck[y] && cm[x] < cm[y]),
                    forall|h: int, k2: int, m2: int| 0 <= h < g && 0 <= k2 < ins[h].len() && 0 <= m2 < ins[h][k2].1.len()
                        ==> #[trigger] placed(graph@, ck, cm, h, k2, m2),
                    forall|k2: int, m2: int| 0 <= k2 < k && 0 <= m2 < ins[g as int][k2].1.len()
                        ==> #[trigger] placed(graph@, ck, cm, g as int, k2, m2),
                    forall|m2: int| 0 <= m2 < m ==> #[trigger] placed(graph@, ck, cm, g as int, k as int, m2),
                decreases members@.len() - m,
            {
                let ghost x0 = graph@.len() as int;
                proof {
                    lemma_placed_push(graph@, ck, cm, g, k as int, m as int);
                }
                graph.push(g);
                index.push(members[m]);
                initial.push(cs[k].0);
                proof {
                    ck = ck.push(k as int);
                    cm = cm.push(m as int);
                }
                m = m + 1;
            }
            k = k + 1;
        }
        g = g + 1;
    }
    starts.push(graph.len());
    proof {
        let n = graph@.len();
        let st = starts@;
        assert forall|x: int| 0 <= x < n implies holds(ins[graph@[x] as int], #[trigger] index@[x])
            && label_of(ins[graph@[x] as int], index@[x]) == initial@[x] by {
            let cs = ins[graph@[x] as int];
            assert(cs[ck[x]].1.contains(index@[x]));
            lemma_label_of(cs, ck[x], index@[x]);
        }
        assert forall|x: int, y: int|
            0 <= x < n && 0 <= y < n && graph@[x] == graph@[y] && #[trigger] index@[x] == #[trigger] index@[y]
                implies x == y by {
            let cs = ins[graph@[x] as int];
            assert(cs[ck[x]].1.contains(index@[x]));
            assert(cs[ck[y]].1.contains(index@[y]));
            if ck[x] != ck[y] {
                assert(!cs[ck[y]].1.contains(index@[x]));
            }
            if x < y {
                assert(ck[x] < ck[y] || (ck[x] == ck[y] && cm[x] < cm[y]));
            } else if y < x {
                assert(ck[y] < ck[x] || (ck[x] == ck[y] && cm[y] < cm[x]));
            }
        }
        assert forall|h: int, i: usize|
            0 <= h < ins.len() && #[trigger] holds(ins[h], i) implies exists|x: int|
                0 <= x < n && graph@[x] == h && #[trigger] index@[x] == i by {
            let k = choose|k: int| 0 <= k < ins[h].len() && #[trigger] ins[h][k].1.contains(i);
            let m = ins[h][k].1.index_of(i);
            assert(0 <= m < ins[h][k].1.len());
            assert(placed(graph@, ck, cm, h, k, m));
            let x = choose|x: int| 0 <= x < graph@.len() && graph@[x] == h && #[trigger] ck[x] == k && cm[x] == m;
            assert(index@[x] == i);
        }
        assert forall|x: int| 0 <= x < n implies #[trigger] graph@[x] < ins.len() && st[graph@[x] as int] <= x
            < st[graph@[x] + 1] by {
            if graph@[x] + 1 == ins.len() {
                assert(st[graph@[x] + 1] == n);
            }
        }
    }
    (graph, index, initial, starts)
}

/// `adj` lists, for every node, its adjacent nodes in order: nodes of its
/// own graph whose indices are its index's adjacency list.
pub open spec fn node_adjacency(
    adjs: Seq<Seq<(usize, Vec<usize>)>>,
    graph: Seq<usize>,
    index: Seq<usize>,
    adj: Seq<Seq<usize>>,
) -> bool {
    &&& adj.len() == graph.len()
    &&& forall|x: int| 0 <= x < graph.len() ==> (#[trigger] adj[x]).len() == adjacent(adjs[graph[x] as int], index[x]).len()
        && forall|k: int| 0 <= k < adj[x].len() ==> #[trigger] adj[x][k] < graph.len() && graph[adj[x][k] as int] == graph[x]
            && index[adj[x][k] as int] == adjacent(adjs[graph[x] as int], index[x])[k]
}

/// The node among `lo..hi` whose index is `i`.
fn find_node(index: &Vec<usize>, lo: usize, hi: usize, i: usize) -> (r: Option<usize>)
    requires
        lo <= hi <= index@.len(),
    ensures
        match r {
            Some(x) => lo <= x < hi && index@[x as int] == i,
            None => forall|x: int| lo <= x < hi ==> index@[x] != i,
        },
{
    let mut x = lo;
    while x < hi
        invariant
            lo <= x <= hi,
            hi <= index@.len(),
            forall|y: int| lo <= y < x ==> index@[y] != i,
        decreases hi - x,
    {
        if index[x] == i {
            return Some(x);
        }
        x = x + 1;
    }
    None
}

/// The adjacent nodes of every node (see [`node_adjacency`]).
fn adjacency_of_nodes(
    adjs: &Vec<Vec<(usize, Vec<usize>)>>,
    ins: Ghost<Seq<Seq<(usize, Seq<usize>)>>>,
    graph: &Vec<usize>,
    index: &Vec<usize>,
    initial: &Vec<usize>,
    starts: &Vec<usize>,
) -> (r: Vec<Vec<usize>>)
    requires
        numbering(ins@, graph@, index@, initial@, starts@),
        adjs@.len() == ins@.len(),
        forall|g: int| 0 <= g < ins@.len() ==> adjacency_closed(#[trigger] adjs@[g]@, ins@[g]),
    ensures
        node_adjacency(aviews(adjs@), graph@, index@, rows(r@)),
{
    let ghost av = aviews(adjs@);
    let n = graph.len();
    let mut adj: Vec<Vec<usize>> = Vec::new();
    let mut x: usize = 0;
    while x < n
        invariant
            n == graph@.len(),
            av == aviews(adjs@),
            av.len() == ins@.len(),
            adjs@.len() == ins@.len(),
            numbering(ins@, graph@, index@, initial@, starts@),
            forall|g: int| 0 <= g < ins@.len() ==> adjacency_closed(#[trigger] adjs@[g]@, ins@[g]),
            x <= n,
            adj@.len() == x,
            forall|y: int| 0 <= y < x ==> (#[trigger] adj@[y])@.len() == adjacent(av[graph@[y] as int], index@[y]).len()
                && forall|k: int| 0 <= k < adj@[y]@.len() ==> #[trigger] adj@[y]@[k] < graph@.len() && graph@[adj@[y]@[k] as int] == graph@[y]
                    && index@[adj@[y]@[k] as int] == adjacent(av[graph@[y] as int], index@[y])[k],
        decreases n - x,
    {
        let g = graph[x];
        let i = index[x];
        proof {
            assert(graph@[x as int] < ins@.len());
            assert(holds(ins@[g as int], index@[x as int]));
            assert(adjacency_closed(adjs@[g as int]@, ins@[g as int]));
            assert(av[g as int] == adjs@[g as int]@);
        }
        let e = match find_entry(&adjs[g], i) {
            Some(e) => e,
            None => {
                proof {
                    assert(key_index(adjs@[g as int]@, i) is Some);
                }
                return Vec::new();
            },
        };
        proof {
            lemma_key_index(adjs@[g as int]@, i);
        }
        let ghost list = adjacent(av[g as int], i);
        assert(adjs@[g as int]@[e as int].1@ == list);
        let ns = starts.len();
        assert(g + 1 < ns);
        let lo = starts[g];
        let hi = starts[g + 1];
        proof {
            assert(starts@[g as int] <= starts@[g + 1] <= starts@[ins@.len() as int]);
        }
        let mut row: Vec<usize> = Vec::new();
        let mut k: usize = 0;
        while k < adjs[g][e].1.len()
            invariant
                n == graph@.len(),
                numbering(ins@, graph@, index@, initial@, starts@),
                adjs@.len() == ins@.len(),
                g < ins@.len(),
                e < adjs@[g as int]@.len(),
                adjs@[g as int]@[e as int].1@ == list,
                lo == starts@[g as int],
                hi == starts@[g + 1],
                lo <= hi <= n,
                forall|k2: int| 0 <= k2 < list.len() ==> holds(ins@[g as int], #[trigger] list[k2]),
                k <= list.len(),
                row@.len() == k,
                forall|k2: int| 0 <= k2 < k ==> #[trigger] row@[k2] < graph@.len() && graph@[row@[k2] as int] == g
                    && index@[row@[k2] as int] == list[k2],
            decreases list.len() - k,
        {
            let j = adjs[g][e].1[k];
            proof {
                assert(holds(ins@[g as int], list[k as int]));
                let y = choose|y: int| 0 <= y < n && graph@[y] == g && #[trigger] index@[y] == j;
                assert(starts@[graph@[y] as int] <= y < starts@[graph@[y] + 1]);
            }
            let y = match find_node(index, lo, hi, j) {
                Some(y) => y,
                None => {
                    return Vec::new();
                },
            };
            proof {
                assert(graph@[y as int] < ins@.len());
                let gy = graph@[y as int] as int;
                if gy < g {
                    assert(starts@[gy + 1] <= starts@[g as int]);
                } else if gy > g {
                    assert(starts@[g + 1] <= starts@[gy]);
                }
            }
            row.push(y);
            k = k + 1;
        }
        adj.push(row);
        x = x + 1;
    }
    proof {
        assert forall|y: int| 0 <= y < n implies (#[trigger] rows(adj@)[y]) == adj@[y]@ by {}
    }
    adj
}

// ---------------------------------------------------------------------------
// Labels of nodes.
// ---------------------------------------------------------------------------
//
// A node's label is the number of a node with that label (its class's
// representative), so that labels are shared between graphs and settled
// labels never meet unsettled ones.

/// Each label names a node holding it, settled exactly when the labelled
/// node is.
pub open spec fn representatives(lab: Seq<usize>, settled: Seq<bool>) -> bool {
    &&& settled.len() == lab.len()
    &&& forall|x: int| 0 <= x < lab.len() ==> #[trigger] lab[x] < lab.len() && lab[lab[x] as int] == lab[x]
        && settled[lab[x] as int] == settled[x]
}

/// Nodes with the same label have the same initial label.
pub open spec fn refines(lab: Seq<usize>, initial: Seq<usize>) -> bool {
    forall|x: int, y: int| 0 <= x < lab.len() && 0 <= y < lab.len() && #[trigger] lab[x] == #[trigger] lab[y]
        ==> initial[x] == initial[y]
}

/// A settled node is alone with its label in its graph.
pub open spec fn settled_alone(graph: Seq<usize>, lab: Seq<usize>, settled: Seq<bool>) -> bool {
    forall|x: int, y: int|
        0 <= x < lab.len() && 0 <= y < lab.len() && settled[x] && x != y && graph[x] == graph[y]
            ==> #[trigger] lab[x] != #[trigger] lab[y]
}

/// Adjacent nodes are nodes of the same graph.
pub open spec fn within_graphs(graph: Seq<usize>, adj: Seq<Seq<usize>>) -> bool {
    &&& adj.len() == graph.len()
    &&& forall|x: int, k: int| 0 <= x < graph.len() && 0 <= k < adj[x].len() ==> #[trigger] adj[x][k] < graph.len()
        && graph[adj[x][k] as int] == graph[x]
}

/// A relation between nodes that, within each graph, only relates nodes with
/// the same initial label whose adjacent nodes are related position by
/// position.
pub open spec fn node_stable(
    graph: Seq<usize>,
    initial: Seq<usize>,
    adj: Seq<Seq<usize>>,
    rel: spec_fn(int, int) -> bool,
) -> bool {
    forall|x: int, y: int|
        0 <= x < graph.len() && 0 <= y < graph.len() && graph[x] == graph[y] && #[trigger] rel(x, y)
            ==> initial[x] == initial[y] && adj[x].len() == adj[y].len() && forall|k: int|
            0 <= k < adj[x].len() ==> rel(adj[x][k] as int, adj[y][k] as int)
}

/// Every stable relation relates, within a graph, only nodes with the same
/// label.
pub open spec fn coarse(graph: Seq<usize>, initial: Seq<usize>, adj: Seq<Seq<usize>>, lab: Seq<usize>) -> bool {
    forall|rel: spec_fn(int, int) -> bool|
        #[trigger] node_stable(graph, initial, adj, rel) ==> forall|x: int, y: int|
            0 <= x < graph.len() && 0 <= y < graph.len() && graph[x] == graph[y] && #[trigger] rel(x, y)
                ==> lab[x] == lab[y]
}

/// Within each graph, nodes with the same label have, position by position,
/// adjacent nodes with the same label.
pub open spec fn node_labels_stable(graph: Seq<usize>, adj: Seq<Seq<usize>>, lab: Seq<usize>) -> bool {
    forall|x: int, y: int|
        0 <= x < graph.len() && 0 <= y < graph.len() && graph[x] == graph[y] && #[trigger] lab[x] == #[trigger] lab[y]
            ==> adj[x].len() == adj[y].len() && forall|k: int|
            0 <= k < adj[x].len() ==> lab[adj[x][k] as int] == lab[adj[y][k] as int]
}

/// Some node of `reps` has the initial label of node `y`.
spec fn covered(initial: Seq<usize>, reps: Seq<usize>, y: int) -> bool {
    exists|t: int| 0 <= t < reps.len() && initial[#[trigger] reps[t] as int] == initial[y]
}

/// The first node with the initial label of every node.
fn initial_representatives(initial: &Vec<usize>) -> (r: Vec<usize>)
    ensures
        r@.len() == initial@.len(),
        forall|x: int| 0 <= x < initial@.len() ==> #[trigger] r@[x] <= x && initial@[r@[x] as int] == initial@[x]
            && forall|z: int| 0 <= z < r@[x] ==> initial@[z] != initial@[x],
{
    let n = initial.len();
    let mut reps: Vec<usize> = Vec::new();
    let mut r: Vec<usize> = Vec::new();
    let mut x: usize = 0;
    while x < n
        invariant
            n == initial@.len(),
            x <= n,
            r@.len() == x,
            forall|y: int| 0 <= y < x ==> #[trigger] r@[y] <= y && initial@[r@[y] as int] == initial@[y]
                && forall|z: int| 0 <= z < r@[y] ==> initial@[z] != initial@[y],
            forall|t: int| 0 <= t < reps@.len() ==> #[trigger] reps@[t] < x && forall|z: int|
                0 <= z < reps@[t] ==> #[trigger] initial@[z] != initial@[reps@[t] as int],
            forall|y: int| 0 <= y < x ==> #[trigger] covered(initial@, reps@, y),
        decreases n - x,
    {
        let ghost old_reps = reps@;
        let mut t: usize = 0;
        let mut found: Option<usize> = None;
        while t < reps.len()
            invariant_except_break
                found is None,
            invariant
                n == initial@.len(),
                x < n,
                t <= reps@.len(),
                forall|t2: int| 0 <= t2 < reps@.len() ==> #[trigger] reps@[t2] < x,
                forall|t2: int| 0 <= t2 < t ==> initial@[#[trigger] reps@[t2] as int] != initial@[x as int],
            ensures
                found matches Some(q) ==> q < reps@.len() && initial@[reps@[q as int] as int] == initial@[x as int],
                found is None ==> forall|t2: int| 0 <= t2 < reps@.len() ==> initial@[#[trigger] reps@[t2] as int] != initial@[x as int],
            decreases reps@.len() - t,
        {
            if initial[reps[t]] == initial[x] {
                found = Some(t);
                break;
            }
            t = t + 1;
        }
        match found {
            Some(q) => {
                r.push(reps[q]);
            },
            None => {
                proof {
                    assert forall|z: int| 0 <= z < x implies initial@[z] != initial@[x as int] by {
                        assert(covered(initial@, reps@, z));
                        let t2 = choose|t2: int| 0 <= t2 < reps@.len() && initial@[#[trigger] reps@[t2] as int] == initial@[z];
                    }
                }
                reps.push(x);
                r.push(x);
                proof {
                    assert(reps@[reps@.len() - 1] == x);
                }
            },
        }
        proof {
            assert forall|y: int| 0 <= y < x + 1 implies #[trigger] covered(initial@, reps@, y) by {
                if y == x {
                    match found {
                        Some(q) => {
                            assert(initial@[reps@[q as int] as int] == initial@[y]);
                        },
                        None => {
                            assert(initial@[reps@[reps@.len() - 1] as int] == initial@[y]);
                        },
                    }
                } else {
                    assert(covered(initial@, old_reps, y));
                    let t2 = choose|t2: int| 0 <= t2 < old_reps.len() && initial@[#[trigger] old_reps[t2] as int] == initial@[y];
                    assert(reps@[t2] == old_reps[t2]);
                }
            }
        }
        x = x + 1;
    }
    r
}

/// `starts` cuts the nodes into the graphs' consecutive ranges.
pub open spec fn graph_ranges(graph: Seq<usize>, starts: Seq<usize>) -> bool {
    &&& starts.len() >= 1 && starts[starts.len() - 1] == graph.len()
    &&& forall|a: int, b: int| 0 <= a <= b < starts.len() ==> starts[a] <= starts[b]
    &&& forall|x: int| 0 <= x < graph.len() ==> #[trigger] graph[x] + 1 < starts.len() && starts[graph[x] as int] <= x
        < starts[graph[x] + 1]
}

proof fn lemma_in_range(graph: Seq<usize>, starts: Seq<usize>, g: int, z: int)
    requires
        graph_ranges(graph, starts),
        0 <= g,
        g + 1 < starts.len(),
        starts[g] <= z < starts[g + 1],
    ensures
        0 <= z < graph.len(),
        graph[z] == g,
{
    assert(starts[g + 1] <= starts[starts.len() - 1]);
    let h = graph[z] as int;
    if h < g {
        assert(starts[h + 1] <= starts[g]);
    } else if h > g {
        assert(starts[g + 1] <= starts[h]);
    }
}

/// Two distinct unsettled nodes of one graph hold label `l`.
pub open spec fn shared(graph: Seq<usize>, lab: Seq<usize>, settled: Seq<bool>, l: usize) -> bool {
    exists|y: int, z: int|
        0 <= y < lab.len() && 0 <= z < lab.len() && y != z && graph[y] == graph[z] && !settled[y] && !settled[z]
            && #[trigger] lab[y] == l && #[trigger] lab[z] == l
}

/// Whether another unsettled node of the graph of `x` has its label.
fn has_twin(graph: &Vec<usize>, starts: &Vec<usize>, lab: &Vec<usize>, settled: &Vec<bool>, x: usize) -> (r: bool)
    requires
        graph_ranges(graph@, starts@),
        lab@.len() == graph@.len(),
        settled@.len() == graph@.len(),
        x < graph@.len(),
    ensures
        r == exists|z: int| 0 <= z < graph@.len() && z != x && graph@[z] == graph@[x as int] && !settled@[z]
            && #[trigger] lab@[z] == lab@[x as int],
{
    let g = graph[x];
    let ns = starts.len();
    assert(g + 1 < ns);
    let hi = starts[g + 1];
    let mut z = starts[g];
    proof {
        assert(starts@[g + 1] <= starts@[starts@.len() - 1]);
    }
    while z < hi
        invariant
            graph_ranges(graph@, starts@),
            lab@.len() == graph@.len(),
            settled@.len() == graph@.len(),
            x < graph@.len(),
            g == graph@[x as int],
            g + 1 < starts@.len(),
            hi == starts@[g + 1],
            starts@[g as int] <= z <= hi,
            hi <= graph@.len(),
            forall|z2: int| starts@[g as int] <= z2 < z ==> !(z2 != x && !settled@[z2] && #[trigger] lab@[z2] == lab@[x as int]),
        decreases hi - z,
    {
        if z != x && !settled[z] && lab[z] == lab[x] {
            proof {
                lemma_in_range(graph@, starts@, g as int, z as int);
            }
            return true;
        }
        z = z + 1;
    }
    proof {
        assert forall|z2: int| 0 <= z2 < graph@.len() && z2 != x && graph@[z2] == graph@[x as int] && !settled@[z2]
            implies #[trigger] lab@[z2] != lab@[x as int] by {
            assert(starts@[graph@[z2] as int] <= z2 < starts@[graph@[z2] + 1]);
        }
    }
    false
}

/// Settles every unsettled node whose label no two unsettled nodes of one
/// graph share.
fn settle_lone_labels(graph: &Vec<usize>, starts: &Vec<usize>, lab: &Vec<usize>, settled: &mut Vec<bool>)
    requires
        graph_ranges(graph@, starts@),
        lab@.len() == graph@.len(),
        old(settled)@.len() == graph@.len(),
        forall|x: int| 0 <= x < lab@.len() ==> #[trigger] lab@[x] < lab@.len(),
    ensures
        final(settled)@.len() == graph@.len(),
        forall|x: int| 0 <= x < graph@.len() ==> #[trigger] final(settled)@[x] == (old(settled)@[x] || !shared(
            graph@,
            lab@,
            old(settled)@,
            lab@[x],
        )),
{
    let n = graph.len();
    let ghost s0 = settled@;
    let mut twin: Vec<bool> = Vec::new();
    let mut x: usize = 0;
    while x < n
        invariant
            n == graph@.len(),
            graph_ranges(graph@, starts@),
            lab@.len() == n,
            settled@ == s0,
            s0.len() == n,
            x <= n,
            twin@.len() == x,
            forall|y: int| 0 <= y < x ==> #[trigger] twin@[y] == (!s0[y] && exists|z: int|
                0 <= z < n && z != y && graph@[z] == graph@[y] && !s0[z] && #[trigger] lab@[z] == lab@[y]),
        decreases n - x,
    {
        let t = !settled[x] && has_twin(graph, starts, lab, settled, x);
        twin.push(t);
        x = x + 1;
    }
    let mut held: Vec<bool> = Vec::new();
    let mut l: usize = 0;
    while l < n
        invariant
            n == graph@.len(),
            held@.len() == l,
            l <= n,
            forall|l2: int| 0 <= l2 < l ==> !held@[l2],
        decreases n - l,
    {
        held.push(false);
        l = l + 1;
    }
    let mut x: usize = 0;
    while x < n
        invariant
            n == graph@.len(),
            lab@.len() == n,
            twin@.len() == n,
            held@.len() == n,
            forall|y: int| 0 <= y < lab@.len() ==> #[trigger] lab@[y] < lab@.len(),
            x <= n,
            forall|l2: int| 0 <= l2 < n ==> #[trigger] held@[l2] == exists|y: int| 0 <= y < x && #[trigger] twin@[y] && lab@[y] == l2,
        decreases n - x,
    {
        if twin[x] {
            held.set(lab[x], true);
        }
        proof {
            assert forall|l2: int| 0 <= l2 < n implies #[trigger] held@[l2] == exists|y: int| 0 <= y < x + 1 && #[trigger] twin@[y] && lab@[y] == l2 by {
                if twin@[x as int] && lab@[x as int] == l2 {
                    assert(twin@[x as int]);
                }
            }
        }
        x = x + 1;
    }
    let mut x: usize = 0;
    while x < n
        invariant
            n == graph@.len(),
            graph_ranges(graph@, starts@),
            lab@.len() == n,
            twin@.len() == n,
            held@.len() == n,
            s0.len() == n,
            settled@.len() == n,
            forall|y: int| 0 <= y < lab@.len() ==> #[trigger] lab@[y] < lab@.len(),
            forall|y: int| 0 <= y < n ==> #[trigger] twin@[y] == (!s0[y] && exists|z: int|
                0 <= z < n && z != y && graph@[z] == graph@[y] && !s0[z] && #[trigger] lab@[z] == lab@[y]),
            forall|l2: int| 0 <= l2 < n ==> #[trigger] held@[l2] == exists|y: int| 0 <= y < n && #[trigger] twin@[y] && lab@[y] == l2,
            x <= n,
            forall|y: int| x <= y < n ==> #[trigger] settled@[y] == s0[y],
            forall|y: int| 0 <= y < x ==> #[trigger] settled@[y] == (s0[y] || !shared(graph@, lab@, s0, lab@[y])),
        decreases n - x,
    {
        let settle = !settled[x] && !held[lab[x]];
        proof {
            let l = lab@[x as int];
            assert(held@[l as int] == shared(graph@, lab@, s0, l)) by {
                if held@[l as int] {
                    let y = choose|y: int| 0 <= y < n && #[trigger] twin@[y] && lab@[y] == l;
                    let z = choose|z: int| 0 <= z < n && z != y && graph@[z] == graph@[y] && !s0[z] && #[trigger] lab@[z] == lab@[y];
                    assert(lab@[y] == l && lab@[z] == l);
                }
                if shared(graph@, lab@, s0, l) {
                    let (y, z) = choose|y: int, z: int|
                        0 <= y < lab@.len() && 0 <= z < lab@.len() && y != z && graph@[y] == graph@[z] && !s0[y] && !s0[z]
                            && #[trigger] lab@[y] == l && #[trigger] lab@[z] == l;
                    assert(lab@[z] == lab@[y]);
                    assert(twin@[y]);
                }
            }
        }
        if settle {
            settled.set(x, true);
        }
        x = x + 1;
    }
}

/// The labels of the adjacent nodes of `x`, in order.
pub open spec fn neighbour_labels(lab: Seq<usize>, adj: Seq<Seq<usize>>, x: int) -> Seq<usize> {
    adj[x].map_values(|y: usize| lab[y as int])
}

/// Nodes `x` and `y` have the same label and, in order, adjacent nodes with
/// the same labels.
pub open spec fn same_key(lab: Seq<usize>, adj: Seq<Seq<usize>>, x: int, y: int) -> bool {
    lab[x] == lab[y] && neighbour_labels(lab, adj, x) == neighbour_labels(lab, adj, y)
}

/// Every adjacent node is a node.
pub open spec fn adjacent_nodes(adj: Seq<Seq<usize>>, n: int) -> bool {
    adj.len() == n && forall|x: int, k: int| 0 <= x < n && 0 <= k < adj[x].len() ==> #[trigger] adj[x][k] < n
}

/// See [`same_key`].
fn keys_equal(lab: &Vec<usize>, adj: &Vec<Vec<usize>>, x: usize, y: usize) -> (r: bool)
    requires
        adjacent_nodes(rows(adj@), lab@.len() as int),
        x < lab@.len(),
        y < lab@.len(),
    ensures
        r == same_key(lab@, rows(adj@), x as int, y as int),
{
    let ghost a = rows(adj@);
    assert(a[x as int] == adj@[x as int]@ && a[y as int] == adj@[y as int]@);
    if lab[x] != lab[y] {
        return false;
    }
    let ax = &adj[x];
    let ay = &adj[y];
    if ax.len() != ay.len() {
        proof {
            assert(neighbour_labels(lab@, a, x as int).len() != neighbour_labels(lab@, a, y as int).len());
        }
        return false;
    }
    let mut k: usize = 0;
    while k < ax.len()
        invariant
            a == rows(adj@),
            adjacent_nodes(a, lab@.len() as int),
            x < lab@.len() && y < lab@.len(),
            ax@ == a[x as int],
            ay@ == a[y as int],
            ax@.len() == ay@.len(),
            k <= ax@.len(),
            forall|k2: int| 0 <= k2 < k ==> lab@[#[trigger] ax@[k2] as int] == lab@[ay@[k2] as int],
        decreases ax@.len() - k,
    {
        proof {
            assert(a[x as int][k as int] < lab@.len());
            assert(a[y as int][k as int] < lab@.len());
        }
        if lab[ax[k]] != lab[ay[k]] {
            proof {
                assert(neighbour_labels(lab@, a, x as int)[k as int] != neighbour_labels(lab@, a, y as int)[k as int]);
            }
            return false;
        }
        k = k + 1;
    }
    proof {
        assert(neighbour_labels(lab@, a, x as int) =~= neighbour_labels(lab@, a, y as int));
    }
    true
}

/// Bucket `l` of `b` holds node `r`.
spec fn in_bucket(b: Seq<Vec<usize>>, l: usize, r: usize) -> bool {
    exists|t: int| 0 <= t < b[l as int]@.len() && #[trigger] b[l as int]@[t] == r
}

/// One round of refinement: every unsettled node gets, as its new label, the
/// first unsettled node with its label and its adjacent nodes' labels;
/// settled nodes keep theirs.
fn refine_once(lab: &Vec<usize>, settled: &Vec<bool>, adj: &Vec<Vec<usize>>) -> (r: Vec<usize>)
    requires
        settled@.len() == lab@.len(),
        adjacent_nodes(rows(adj@), lab@.len() as int),
        forall|x: int| 0 <= x < lab@.len() ==> #[trigger] lab@[x] < lab@.len(),
    ensures
        r@.len() == lab@.len(),
        forall|x: int| 0 <= x < lab@.len() && settled@[x] ==> #[trigger] r@[x] == lab@[x],
        forall|x: int| 0 <= x < lab@.len() && !settled@[x] ==> #[trigger] r@[x] < lab@.len() && !settled@[r@[x] as int]
            && r@[r@[x] as int] == r@[x] && same_key(lab@, rows(adj@), x, r@[x] as int),
        forall|x: int, y: int| 0 <= x < lab@.len() && 0 <= y < lab@.len() && !settled@[x] && !settled@[y]
            && same_key(lab@, rows(adj@), x, y) ==> #[trigger] r@[x] == #[trigger] r@[y],
{
    let n = lab.len();
    let ghost a = rows(adj@);
    let mut buckets: Vec<Vec<usize>> = Vec::new();
    let mut l: usize = 0;
    while l < n
        invariant
            buckets@.len() == l,
            l <= n,
            forall|l2: int| 0 <= l2 < l ==> (#[trigger] buckets@[l2])@.len() == 0,
        decreases n - l,
    {
        buckets.push(Vec::new());
        l = l + 1;
    }
    let mut r: Vec<usize> = Vec::new();
    let mut x: usize = 0;
    while x < n
        invariant
            n == lab@.len(),
            settled@.len() == n,
            a == rows(adj@),
            adjacent_nodes(a, n as int),
            forall|y: int| 0 <= y < n ==> #[trigger] lab@[y] < n,
            buckets@.len() == n,
            x <= n,
            r@.len() == x,
            forall|y: int| 0 <= y < x && settled@[y] ==> #[trigger] r@[y] == lab@[y],
            forall|y: int| 0 <= y < x && !settled@[y] ==> #[trigger] r@[y] <= y && !settled@[r@[y] as int]
                && r@[r@[y] as int] == r@[y] && same_key(lab@, a, y, r@[y] as int)
                && in_bucket(buckets@, lab@[y], r@[y]),
            forall|l2: int, t: int| 0 <= l2 < n && 0 <= t < buckets@[l2]@.len() ==> #[trigger] buckets@[l2]@[t] < x
                && !settled@[buckets@[l2]@[t] as int] && lab@[buckets@[l2]@[t] as int] == l2
                && r@[buckets@[l2]@[t] as int] == buckets@[l2]@[t],
            forall|l2: int, t1: int, t2: int| 0 <= l2 < n && 0 <= t1 < buckets@[l2]@.len() && 0 <= t2 < buckets@[l2]@.len()
                && t1 != t2 ==> !same_key(lab@, a, #[trigger] buckets@[l2]@[t1] as int, #[trigger] buckets@[l2]@[t2] as int),
        decreases n - x,
    {
        if settled[x] {
            r.push(lab[x]);
        } else {
            let l = lab[x];
            let mut t: usize = 0;
            let mut found: Option<usize> = None;
            while t < buckets[l].len()
                invariant_except_break
                    found is None,
                invariant
                    n == lab@.len(),
                    a == rows(adj@),
                    adjacent_nodes(a, n as int),
                    x < n,
                    l == lab@[x as int],
                    l < n,
                    buckets@.len() == n,
                    t <= buckets@[l as int]@.len(),
                    forall|l2: int, t3: int| 0 <= l2 < n && 0 <= t3 < buckets@[l2]@.len() ==> #[trigger] buckets@[l2]@[t3] < x,
                    forall|t3: int| 0 <= t3 < t ==> !same_key(lab@, a, x as int, #[trigger] buckets@[l as int]@[t3] as int),
                ensures
                    found matches Some(q) ==> q < buckets@[l as int]@.len() && same_key(lab@, a, x as int, buckets@[l as int]@[q as int] as int),
                    found is None ==> forall|t3: int| 0 <= t3 < buckets@[l as int]@.len() ==> !same_key(lab@, a, x as int, #[trigger] buckets@[l as int]@[t3] as int),
                decreases buckets@[l as int]@.len() - t,
            {
                if keys_equal(lab, adj, x, buckets[l][t]) {
                    found = Some(t);
                    break;
                }
                t = t + 1;
            }
            match found {
                Some(q) => {
                    let rep = buckets[l][q];
                    r.push(rep);
                    proof {
                        assert(in_bucket(buckets@, lab@[x as int], r@[x as int]));
                    }
                },
                None => {
                    let ghost old_b = buckets@;
                    let mut b = copy_ids(&buckets[l]);
                    b.push(x);
                    buckets.set(l, b);
                    r.push(x);
                    proof {
                        assert(buckets@[l as int]@[old_b[l as int]@.len() as int] == x);
                        assert(in_bucket(buckets@, lab@[x as int], r@[x as int]));
                        assert forall|y: int| 0 <= y < x && !settled@[y] implies #[trigger] in_bucket(buckets@, lab@[y], r@[y]) by {
                            assert(in_bucket(old_b, lab@[y], r@[y]));
                            let t3 = choose|t3: int| 0 <= t3 < old_b[lab@[y] as int]@.len() && #[trigger] old_b[lab@[y] as int]@[t3] == r@[y];
                            assert(buckets@[lab@[y] as int]@[t3] == r@[y]);
                        }
                    }
                },
            }
        }
        x = x + 1;
    }
    proof {
        assert forall|x: int, y: int| 0 <= x < n && 0 <= y < n && !settled@[x] && !settled@[y]
            && same_key(lab@, a, x, y) implies #[trigger] r@[x] == #[trigger] r@[y] by {
            let l2 = lab@[x] as int;
            assert(in_bucket(buckets@, lab@[x], r@[x]));
            assert(in_bucket(buckets@, lab@[y], r@[y]));
            let t1 = choose|t1: int| 0 <= t1 < buckets@[l2]@.len() && #[trigger] buckets@[l2]@[t1] == r@[x];
            let t2 = choose|t2: int| 0 <= t2 < buckets@[l2]@.len() && #[trigger] buckets@[l2]@[t2] == r@[y];
            if t1 != t2 {
                assert(!same_key(lab@, a, buckets@[l2]@[t1] as int, buckets@[l2]@[t2] as int));
            }
        }
    }
    r
}

/// Two unsettled nodes of one graph share a label in `lab` but not in `next`.
pub open spec fn splits(graph: Seq<usize>, lab: Seq<usize>, next: Seq<usize>, settled: Seq<bool>) -> bool {
    exists|x: int, y: int|
        0 <= x < lab.len() && 0 <= y < lab.len() && graph[x] == graph[y] && !settled[x] && !settled[y]
            && #[trigger] lab[x] == #[trigger] lab[y] && next[x] != next[y]
}

/// See [`splits`].
fn some_class_splits(graph: &Vec<usize>, starts: &Vec<usize>, lab: &Vec<usize>, next: &Vec<usize>, settled: &Vec<bool>) -> (r: bool)
    requires
        graph_ranges(graph@, starts@),
        lab@.len() == graph@.len(),
        next@.len() == graph@.len(),
        settled@.len() == graph@.len(),
    ensures
        r == splits(graph@, lab@, next@, settled@),
{
    let n = graph.len();
    let mut x: usize = 0;
    while x < n
        invariant
            n == graph@.len(),
            graph_ranges(graph@, starts@),
            lab@.len() == n && next@.len() == n && settled@.len() == n,
            x <= n,
            forall|x2: int, y: int| 0 <= x2 < x && 0 <= y < n && graph@[x2] == graph@[y] && !settled@[x2] && !settled@[y]
                && #[trigger] lab@[x2] == #[trigger] lab@[y] ==> next@[x2] == next@[y],
        decreases n - x,
    {
        if !settled[x] {
            let g = graph[x];
            let ns = starts.len();
            assert(g + 1 < ns);
            let hi = starts[g + 1];
            let mut z = starts[g];
            proof {
                assert(starts@[g + 1] <= starts@[starts@.len() - 1]);
            }
            while z < hi
                invariant
                    n == graph@.len(),
                    graph_ranges(graph@, starts@),
                    lab@.len() == n && next@.len() == n && settled@.len() == n,
                    x < n,
                    !settled@[x as int],
                    g == graph@[x as int],
                    g + 1 < starts@.len(),
                    hi == starts@[g + 1],
                    starts@[g as int] <= z <= hi,
                    hi <= n,
                    forall|z2: int| starts@[g as int] <= z2 < z && !settled@[z2] && #[trigger] lab@[z2] == lab@[x as int]
                        ==> next@[z2] == next@[x as int],
                decreases hi - z,
            {
                if !settled[z] && lab[z] == lab[x] && next[z] != next[x] {
                    proof {
                        lemma_in_range(graph@, starts@, g as int, z as int);
                        let xi = x as int;
                        let zi = z as int;
                        assert(graph@[xi] == graph@[zi] && !settled@[xi] && !settled@[zi] && lab@[xi] == lab@[zi] && next@[xi] != next@[zi]);
                        assert(splits(graph@, lab@, next@, settled@));
                    }
                    return true;
                }
                z = z + 1;
            }
            proof {
                assert forall|y: int| 0 <= y < n && graph@[x as int] == graph@[y] && !settled@[y]
                    && #[trigger] lab@[x as int] == lab@[y] implies next@[x as int] == next@[y] by {
                    assert(starts@[graph@[y] as int] <= y < starts@[graph@[y] + 1]);
                }
            }
        }
        x = x + 1;
    }
    false
}

/// Within each graph, nodes with the same label in `fine` have the same label
/// in `coarse_lab`.
pub open spec fn finer(graph: Seq<usize>, coarse_lab: Seq<usize>, fine: Seq<usize>) -> bool {
    forall|x: int, y: int|
        0 <= x < graph.len() && 0 <= y < graph.len() && graph[x] == graph[y] && #[trigger] fine[x] == #[trigger] fine[y]
            ==> coarse_lab[x] == coarse_lab[y]
}

/// The number of nodes `y < m` of the graph of `x` with the label of `x`.
pub open spec fn row_count(graph: Seq<usize>, lab: Seq<usize>, x: int, m: int) -> nat
    decreases m,
{
    if m <= 0 {
        0
    } else {
        row_count(graph, lab, x, m - 1) + (if graph[m - 1] == graph[x] && lab[m - 1] == lab[x] {
            1nat
        } else {
            0nat
        })
    }
}

/// The number of pairs of nodes, the first below `m`, of one graph and with
/// one label.
pub open spec fn pair_count(graph: Seq<usize>, lab: Seq<usize>, m: int) -> nat
    decreases m,
{
    if m <= 0 {
        0
    } else {
        pair_count(graph, lab, m - 1) + row_count(graph, lab, m - 1, graph.len() as int)
    }
}

proof fn lemma_row_count(graph: Seq<usize>, l1: Seq<usize>, l2: Seq<usize>, x: int, m: int)
    requires
        l1.len() == graph.len(),
        l2.len() == graph.len(),
        finer(graph, l1, l2),
        0 <= x < graph.len(),
        0 <= m <= graph.len(),
    ensures
        row_count(graph, l2, x, m) <= row_count(graph, l1, x, m),
        (exists|y: int| 0 <= y < m && graph[y] == graph[x] && #[trigger] l1[y] == l1[x] && l2[y] != l2[x])
            ==> row_count(graph, l2, x, m) < row_count(graph, l1, x, m),
    decreases m,
{
    if m > 0 {
        lemma_row_count(graph, l1, l2, x, m - 1);
        if exists|y: int| 0 <= y < m && graph[y] == graph[x] && #[trigger] l1[y] == l1[x] && l2[y] != l2[x] {
            let y = choose|y: int| 0 <= y < m && graph[y] == graph[x] && #[trigger] l1[y] == l1[x] && l2[y] != l2[x];
            if y < m - 1 {
                assert(exists|y2: int| 0 <= y2 < m - 1 && graph[y2] == graph[x] && #[trigger] l1[y2] == l1[x] && l2[y2] != l2[x]);
            }
        }
    }
}

proof fn lemma_pair_count(graph: Seq<usize>, l1: Seq<usize>, l2: Seq<usize>, m: int)
    requires
        l1.len() == graph.len(),
        l2.len() == graph.len(),
        finer(graph, l1, l2),
        0 <= m <= graph.len(),
    ensures
        pair_count(graph, l2, m) <= pair_count(graph, l1, m),
        (exists|x: int, y: int| 0 <= x < m && 0 <= y < graph.len() && graph[y] == graph[x] && #[trigger] l1[y] == #[trigger] l1[x] && l2[y] != l2[x])
            ==> pair_count(graph, l2, m) < pair_count(graph, l1, m),
    decreases m,
{
    if m > 0 {
        lemma_pair_count(graph, l1, l2, m - 1);
        let n = graph.len() as int;
        lemma_row_count(graph, l1, l2, m - 1, n);
        if exists|x: int, y: int| 0 <= x < m && 0 <= y < graph.len() && graph[y] == graph[x] && #[trigger] l1[y] == #[trigger] l1[x] && l2[y] != l2[x] {
            let (x, y) = choose|x: int, y: int| 0 <= x < m && 0 <= y < graph.len() && graph[y] == graph[x] && #[trigger] l1[y] == #[trigger] l1[x] && l2[y] != l2[x];
            if x < m - 1 {
                assert(exists|x2: int, y2: int| 0 <= x2 < m - 1 && 0 <= y2 < graph.len() && graph[y2] == graph[x2] && #[trigger] l1[y2] == #[trigger] l1[x2] && l2[y2] != l2[x2]);
            } else {
                assert(exists|y2: int| 0 <= y2 < n && graph[y2] == graph[m - 1] && #[trigger] l1[y2] == l1[m - 1] && l2[y2] != l2[m - 1]);
            }
        }
    }
}

/// What one round of [`refine_once`] gives.
pub open spec fn refined(lab: Seq<usize>, settled: Seq<bool>, adj: Seq<Seq<usize>>, next: Seq<usize>) -> bool {
    &&& next.len() == lab.len()
    &&& forall|x: int| 0 <= x < lab.len() && settled[x] ==> #[trigger] next[x] == lab[x]
    &&& forall|x: int| 0 <= x < lab.len() && !settled[x] ==> #[trigger] next[x] < lab.len() && !settled[next[x] as int]
        && next[next[x] as int] == next[x] && same_key(lab, adj, x, next[x] as int)
    &&& forall|x: int, y: int| 0 <= x < lab.len() && 0 <= y < lab.len() && !settled[x] && !settled[y]
        && same_key(lab, adj, x, y) ==> #[trigger] next[x] == #[trigger] next[y]
}

/// The invariants of the refinement.
pub open spec fn labels_ok(
    graph: Seq<usize>,
    initial: Seq<usize>,
    adj: Seq<Seq<usize>>,
    lab: Seq<usize>,
    settled: Seq<bool>,
) -> bool {
    &&& lab.len() == graph.len()
    &&& representatives(lab, settled)
    &&& refines(lab, initial)
    &&& settled_alone(graph, lab, settled)
    &&& coarse(graph, initial, adj, lab)
}

proof fn lemma_refined(
    graph: Seq<usize>,
    initial: Seq<usize>,
    adj: Seq<Seq<usize>>,
    lab: Seq<usize>,
    settled: Seq<bool>,
    next: Seq<usize>,
)
    requires
        within_graphs(graph, adj),
        initial.len() == graph.len(),
        labels_ok(graph, initial, adj, lab, settled),
        refined(lab, settled, adj, next),
    ensures
        labels_ok(graph, initial, adj, next, settled),
        finer(graph, lab, next),
        !splits(graph, lab, next, settled) ==> node_labels_stable(graph, adj, next),
{
    let n = graph.len() as int;
    assert forall|x: int| 0 <= x < n implies #[trigger] next[x] < n && next[next[x] as int] == next[x]
        && settled[next[x] as int] == settled[x] by {
        if settled[x] {
            assert(lab[x] < n && settled[lab[x] as int]);
            assert(next[lab[x] as int] == lab[lab[x] as int]);
        }
    }
    assert forall|x: int, y: int| 0 <= x < n && 0 <= y < n && #[trigger] next[x] == #[trigger] next[y]
        implies initial[x] == initial[y] && (graph[x] == graph[y] ==> lab[x] == lab[y]) by {
        if !settled[x] && !settled[y] {
            assert(same_key(lab, adj, x, next[x] as int));
            assert(same_key(lab, adj, y, next[y] as int));
            assert(lab[x] == lab[y]);
        } else if settled[x] && settled[y] {
        } else if settled[x] {
            assert(settled[lab[x] as int]);
            assert(!settled[next[y] as int]);
        } else {
            assert(settled[lab[y] as int]);
            assert(!settled[next[x] as int]);
        }
    }
    assert forall|x: int, y: int|
        0 <= x < n && 0 <= y < n && settled[x] && x != y && graph[x] == graph[y]
            implies #[trigger] next[x] != #[trigger] next[y] by {
        if settled[y] {
            assert(lab[x] != lab[y]);
        } else {
            assert(settled[lab[x] as int]);
            assert(!settled[next[y] as int]);
        }
    }
    assert forall|rel: spec_fn(int, int) -> bool|
        #[trigger] node_stable(graph, initial, adj, rel) implies forall|x: int, y: int|
            0 <= x < n && 0 <= y < n && graph[x] == graph[y] && #[trigger] rel(x, y) ==> next[x] == next[y] by {
        assert forall|x: int, y: int|
            0 <= x < n && 0 <= y < n && graph[x] == graph[y] && #[trigger] rel(x, y) implies next[x] == next[y] by {
            assert(lab[x] == lab[y]);
            assert(settled[x] == settled[lab[x] as int]);
            assert(settled[y] == settled[lab[y] as int]);
            if settled[x] {
                assert(x == y);
            } else {
                assert forall|k: int| 0 <= k < adj[x].len() implies lab[adj[x][k] as int] == lab[adj[y][k] as int] by {
                    assert(rel(adj[x][k] as int, adj[y][k] as int));
                    assert(adj[x][k] < n && graph[adj[x][k] as int] == graph[x]);
                    assert(adj[y][k] < n && graph[adj[y][k] as int] == graph[y]);
                }
                assert(neighbour_labels(lab, adj, x) =~= neighbour_labels(lab, adj, y));
                assert(same_key(lab, adj, x, y));
            }
        }
    }
    if !splits(graph, lab, next, settled) {
        assert forall|x: int, y: int|
            0 <= x < n && 0 <= y < n && graph[x] == graph[y] && #[trigger] next[x] == #[trigger] next[y]
                implies adj[x].len() == adj[y].len() && forall|k: int|
                0 <= k < adj[x].len() ==> next[adj[x][k] as int] == next[adj[y][k] as int] by {
            if settled[x] || settled[y] {
                assert(settled[x] && settled[y]);
                assert(x == y);
            } else {
                assert(same_key(lab, adj, x, next[x] as int));
                assert(same_key(lab, adj, y, next[y] as int));
                assert(neighbour_labels(lab, adj, x) == neighbour_labels(lab, adj, y));
                assert(neighbour_labels(lab, adj, x).len() == adj[x].len());
                assert forall|k: int| 0 <= k < adj[x].len() implies next[adj[x][k] as int] == next[adj[y][k] as int] by {
                    let u = adj[x][k] as int;
                    let v = adj[y][k] as int;
                    assert(u < n && graph[u] == graph[x]);
                    assert(v < n && graph[v] == graph[y]);
                    assert(neighbour_labels(lab, adj, x)[k] == lab[u]);
                    assert(neighbour_labels(lab, adj, y)[k] == lab[v]);
                    assert(lab[u] == lab[v]);
                    assert(settled[u] == settled[lab[u] as int]);
                    assert(settled[v] == settled[lab[v] as int]);
                    if settled[u] {
                        if u != v {
                            assert(lab[u] != lab[v]);
                        }
                    } else {
                        if next[u] != next[v] {
                            assert(splits(graph, lab, next, settled));
                        }
                    }
                }
            }
        }
    }
}

proof fn lemma_settled(
    graph: Seq<usize>,
    initial: Seq<usize>,
    adj: Seq<Seq<usize>>,
    lab: Seq<usize>,
    settled: Seq<bool>,
    after: Seq<bool>,
)
    requires
        labels_ok(graph, initial, adj, lab, settled),
        after.len() == graph.len(),
        forall|x: int| 0 <= x < graph.len() ==> #[trigger] after[x] == (settled[x] || !shared(graph, lab, settled, lab[x])),
    ensures
        labels_ok(graph, initial, adj, lab, after),
{
    let n = graph.len() as int;
    assert forall|x: int| 0 <= x < n implies #[trigger] lab[x] < n && lab[lab[x] as int] == lab[x]
        && after[lab[x] as int] == after[x] by {
        assert(after[lab[x] as int] == (settled[lab[x] as int] || !shared(graph, lab, settled, lab[lab[x] as int])));
    }
    assert forall|x: int, y: int|
        0 <= x < n && 0 <= y < n && after[x] && x != y && graph[x] == graph[y]
            implies #[trigger] lab[x] != #[trigger] lab[y] by {
        if !settled[x] && lab[x] == lab[y] {
            assert(settled[y] == settled[lab[y] as int]);
            assert(settled[x] == settled[lab[x] as int]);
            assert(shared(graph, lab, settled, lab[x]));
        }
    }
}

/// Refines the initial labels of the nodes until no class of any graph
/// splits: the labels then refine the initial ones, are stable within each
/// graph, and are the coarsest such (see [`coarse`]).
fn refine_labels(graph: &Vec<usize>, starts: &Vec<usize>, initial: &Vec<usize>, adj: &Vec<Vec<usize>>) -> (r: Vec<usize>)
    requires
        graph_ranges(graph@, starts@),
        initial@.len() == graph@.len(),
        within_graphs(graph@, rows(adj@)),
    ensures
        r@.len() == graph@.len(),
        refines(r@, initial@),
        coarse(graph@, initial@, rows(adj@), r@),
        node_labels_stable(graph@, rows(adj@), r@),
{
    let n = graph.len();
    let ghost a = rows(adj@);
    let mut lab = initial_representatives(initial);
    let mut settled: Vec<bool> = Vec::new();
    let mut x: usize = 0;
    while x < n
        invariant
            settled@.len() == x,
            x <= n,
            forall|y: int| 0 <= y < x ==> !(#[trigger] settled@[y]),
        decreases n - x,
    {
        settled.push(false);
        x = x + 1;
    }
    proof {
        let l = lab@;
        let il = initial@;
        assert forall|y: int| 0 <= y < n implies #[trigger] l[y] < n && l[l[y] as int] == l[y]
            && settled@[l[y] as int] == settled@[y] by {
            let r = l[y] as int;
            assert(l[r] <= r && il[l[r] as int] == il[r]);
            if l[r] < r {
                assert(il[l[r] as int] != il[y]);
            }
        }
        assert forall|y: int, z: int| 0 <= y < n && 0 <= z < n && #[trigger] l[y] == #[trigger] l[z]
            implies il[y] == il[z] by {
            assert(il[l[y] as int] == il[y]);
            assert(il[l[z] as int] == il[z]);
        }
        assert forall|rel: spec_fn(int, int) -> bool|
            #[trigger] node_stable(graph@, il, a, rel) implies forall|y: int, z: int|
                0 <= y < n && 0 <= z < n && graph@[y] == graph@[z] && #[trigger] rel(y, z) ==> l[y] == l[z] by {
            assert forall|y: int, z: int|
                0 <= y < n && 0 <= z < n && graph@[y] == graph@[z] && #[trigger] rel(y, z) implies l[y] == l[z] by {
                assert(il[y] == il[z]);
                if l[y] < l[z] {
                    assert(il[l[y] as int] != il[z]);
                } else if l[z] < l[y] {
                    assert(il[l[z] as int] != il[y]);
                }
            }
        }
        assert(labels_ok(graph@, il, a, l, settled@));
    }
    let ghost before = settled@;
    settle_lone_labels(graph, starts, &lab, &mut settled);
    proof {
        lemma_settled(graph@, initial@, a, lab@, before, settled@);
    }
    loop
        invariant
            n == graph@.len(),
            a == rows(adj@),
            graph_ranges(graph@, starts@),
            initial@.len() == n,
            within_graphs(graph@, a),
            settled@.len() == n,
            labels_ok(graph@, initial@, a, lab@, settled@),
        ensures
            node_labels_stable(graph@, a, lab@),
        decreases pair_count(graph@, lab@, n as int),
    {
        let next = refine_once(&lab, &settled, adj);
        let split = some_class_splits(graph, starts, &lab, &next, &settled);
        proof {
            lemma_refined(graph@, initial@, a, lab@, settled@, next@);
            lemma_pair_count(graph@, lab@, next@, n as int);
            if split {
                let (x, y) = choose|x: int, y: int|
                    0 <= x < lab@.len() && 0 <= y < lab@.len() && graph@[x] == graph@[y] && !settled@[x] && !settled@[y]
                        && #[trigger] lab@[x] == #[trigger] lab@[y] && next@[x] != next@[y];
                assert(lab@[y] == lab@[x] && next@[y] != next@[x]);
            }
        }
        lab = next;
        let ghost before = settled@;
        settle_lone_labels(graph, starts, &lab, &mut settled);
        proof {
            lemma_settled(graph@, initial@, a, lab@, before, settled@);
        }
        if !split {
            break;
        }
    }
    lab
}

/// Some class of `cs` has label `l` and holds `i`.
spec fn filed(cs: Seq<(usize, Vec<usize>)>, l: usize, i: usize) -> bool {
    exists|k: int| 0 <= k < cs.len() && cs[k].0 == l && (#[trigger] cs[k].1@).contains(i)
}

/// The classes of the nodes `lo..hi` by label: each label with the indices
/// of its nodes, labels in order of first appearance.
fn group_by_label(index: &Vec<usize>, lab: &Vec<usize>, lo: usize, hi: usize) -> (r: Vec<(usize, Vec<usize>)>)
    requires
        lo <= hi <= index@.len(),
        lab@.len() == index@.len(),
        forall|x: int, y: int| lo <= x < hi && lo <= y < hi && #[trigger] index@[x] == #[trigger] index@[y] ==> x == y,
    ensures
        labelling(cview(r@)),
        forall|x: int| lo <= x < hi ==> #[trigger] holds(cview(r@), index@[x]) && label_of(cview(r@), index@[x]) == lab@[x],
        forall|i: usize| #[trigger] holds(cview(r@), i) ==> exists|x: int| lo <= x < hi && #[trigger] index@[x] == i,
{
    let mut classes: Vec<(usize, Vec<usize>)> = Vec::new();
    let ghost mut at: Seq<Seq<int>> = Seq::empty();
    let mut x = lo;
    while x < hi
        invariant
            lo <= x <= hi,
            hi <= index@.len(),
            lab@.len() == index@.len(),
            forall|x2: int, y: int| lo <= x2 < hi && lo <= y < hi && #[trigger] index@[x2] == #[trigger] index@[y] ==> x2 == y,
            at.len() == classes@.len(),
            forall|k: int| 0 <= k < classes@.len() ==> (#[trigger] at[k]).len() == classes@[k].1@.len() && at[k].len() > 0,
            forall|k: int, m: int| 0 <= k < classes@.len() && 0 <= m < at[k].len() ==> lo <= #[trigger] at[k][m] < x
                && index@[at[k][m]] == classes@[k].1@[m] && lab@[at[k][m]] == classes@[k].0,
            forall|k: int, m1: int, m2: int| 0 <= k < classes@.len() && 0 <= m1 < m2 < at[k].len() ==> #[trigger] at[k][m1] < #[trigger] at[k][m2],
            forall|a: int, b: int| 0 <= a < b < classes@.len() ==> classes@[a].0 != classes@[b].0,
            forall|y: int| lo <= y < x ==> #[trigger] filed(classes@, lab@[y], index@[y]),
        decreases hi - x,
    {
        let l = lab[x];
        let mut k: usize = 0;
        let mut found: Option<usize> = None;
        while k < classes.len()
            invariant_except_break
                found is None,
            invariant
                k <= classes@.len(),
                forall|k2: int| 0 <= k2 < k ==> classes@[k2].0 != l,
            ensures
                found matches Some(q) ==> q < classes@.len() && classes@[q as int].0 == l,
                found is None ==> forall|k2: int| 0 <= k2 < classes@.len() ==> classes@[k2].0 != l,
            decreases classes@.len() - k,
        {
            if classes[k].0 == l {
                found = Some(k);
                break;
            }
            k = k + 1;
        }
        let ghost old_c = classes@;
        match found {
            Some(q) => {
                classes[q].1.push(index[x]);
                proof {
                    at = at.update(q as int, at[q as int].push(x as int));
                    assert(classes@[q as int].1@ == old_c[q as int].1@.push(index@[x as int]));
                    assert forall|k2: int| 0 <= k2 < classes@.len() && k2 != q implies classes@[k2] == old_c[k2] by {}
                    assert(classes@[q as int].1@[old_c[q as int].1@.len() as int] == index@[x as int]);
                    assert(classes@[q as int].1@.contains(index@[x as int]));
                    assert(filed(classes@, lab@[x as int], index@[x as int]));
                }
            },
            None => {
                let mut v: Vec<usize> = Vec::new();
                v.push(index[x]);
                classes.push((l, v));
                proof {
                    at = at.push(seq![x as int]);
                    assert(classes@[old_c.len() as int].1@[0] == index@[x as int]);
                    assert(classes@[old_c.len() as int].1@.contains(index@[x as int]));
                    assert(filed(classes@, lab@[x as int], index@[x as int]));
                }
            },
        }
        proof {
            assert forall|y: int| lo <= y < x implies #[trigger] filed(classes@, lab@[y], index@[y]) by {
                assert(filed(old_c, lab@[y], index@[y]));
                let k2 = choose|k2: int| 0 <= k2 < old_c.len() && old_c[k2].0 == lab@[y] && (#[trigger] old_c[k2].1@).contains(index@[y]);
                let m2 = old_c[k2].1@.index_of(index@[y]);
                assert(classes@[k2].1@[m2] == index@[y]);
                assert(classes@[k2].1@.contains(index@[y]));
            }
        }
        x = x + 1;
    }
    proof {
        let cs = cview(classes@);
        assert forall|a: int| 0 <= a < cs.len() implies (#[trigger] cs[a]).1.len() > 0 && no_dups(cs[a].1) by {
            assert forall|m1: int, m2: int| 0 <= m1 < m2 < cs[a].1.len() implies cs[a].1[m1] != cs[a].1[m2] by {
                assert(at[a][m1] < at[a][m2]);
            }
        }
        assert forall|a: int, b: int, i: usize|
            0 <= a < cs.len() && 0 <= b < cs.len() && a != b && #[trigger] cs[a].1.contains(i)
                implies !(#[trigger] cs[b].1.contains(i)) by {
            if cs[b].1.contains(i) {
                let ma = cs[a].1.index_of(i);
                let mb = cs[b].1.index_of(i);
                assert(index@[at[a][ma]] == i && index@[at[b][mb]] == i);
                assert(at[a][ma] == at[b][mb]);
                if a < b {
                    assert(classes@[a].0 != classes@[b].0);
                } else {
                    assert(classes@[b].0 != classes@[a].0);
                }
            }
        }
        assert(labelling(cs));
        assert forall|y: int| lo <= y < hi implies #[trigger] holds(cs, index@[y]) && label_of(cs, index@[y]) == lab@[y] by {
            assert(filed(classes@, lab@[y], index@[y]));
            let k2 = choose|k2: int| 0 <= k2 < classes@.len() && classes@[k2].0 == lab@[y] && (#[trigger] classes@[k2].1@).contains(index@[y]);
            assert(cs[k2].1.contains(index@[y]));
            lemma_label_of(cs, k2, index@[y]);
        }
        assert forall|i: usize| #[trigger] holds(cs, i) implies exists|y: int| lo <= y < hi && #[trigger] index@[y] == i by {
            let k2 = choose|k2: int| 0 <= k2 < cs.len() && #[trigger] cs[k2].1.contains(i);
            let m = cs[k2].1.index_of(i);
            assert(index@[at[k2][m]] == i);
        }
    }
    classes
}

// ---------------------------------------------------------------------------
// Iterated label propagation.
// ---------------------------------------------------------------------------

/// The node of index `i` of graph `g`.
spec fn node_of(graph: Seq<usize>, index: Seq<usize>, g: int, i: usize) -> int {
    choose|x: int| 0 <= x < graph.len() && graph[x] == g && #[trigger] index[x] == i
}

/// The classes of graph `g` in `outs` are those of the labels `lab` of its
/// nodes.
spec fn grouped(
    graph: Seq<usize>,
    index: Seq<usize>,
    starts: Seq<usize>,
    lab: Seq<usize>,
    out: Seq<(usize, Seq<usize>)>,
    g: int,
) -> bool {
    &&& labelling(out)
    &&& forall|x: int| starts[g] <= x < starts[g + 1] ==> #[trigger] holds(out, index[x]) && label_of(out, index[x]) == lab[x]
    &&& forall|i: usize| #[trigger] holds(out, i) ==> exists|x: int| starts[g] <= x < starts[g + 1] && #[trigger] index[x] == i
}

/// [`iterated_label_propagation`] on classes without repeats.
fn propagate_proper(
    indices_to_adjacent: &Vec<Vec<(usize, Vec<usize>)>>,
    init_label_to_indices: Vec<Vec<(usize, Vec<usize>)>>,
) -> (r: Vec<Vec<(usize, Vec<usize>)>>)
    requires
        indices_to_adjacent@.len() == init_label_to_indices@.len(),
        forall|g: int| 0 <= g < init_label_to_indices@.len() ==> proper_classes(#[trigger] cview(init_label_to_indices@[g]@)),
        forall|g: int| 0 <= g < init_label_to_indices@.len() ==> adjacency_closed(
            #[trigger] indices_to_adjacent@[g]@,
            cview(init_label_to_indices@[g]@),
        ),
    ensures
        r@.len() == init_label_to_indices@.len(),
        forall|g: int| 0 <= g < r@.len() ==> labelling(#[trigger] cview(r@[g]@)),
        forall|g: int, i: usize| 0 <= g < r@.len() ==> #[trigger] holds(cview(r@[g]@), i) == holds(
            cview(init_label_to_indices@[g]@),
            i,
        ),
        forall|g: int, h: int, i: usize, j: usize|
            0 <= g < r@.len() && 0 <= h < r@.len() && holds(cview(init_label_to_indices@[g]@), i) && holds(
                cview(init_label_to_indices@[h]@),
                j,
            ) && #[trigger] label_of(cview(r@[g]@), i) == #[trigger] label_of(cview(r@[h]@), j) ==> label_of(
                cview(init_label_to_indices@[g]@),
                i,
            ) == label_of(cview(init_label_to_indices@[h]@), j),
        forall|g: int| 0 <= g < r@.len() ==> stable_labels(#[trigger] cview(r@[g]@), indices_to_adjacent@[g]@),
        forall|g: int, rel: spec_fn(usize, usize) -> bool|
            0 <= g < r@.len() && #[trigger] stable_relation(cview(init_label_to_indices@[g]@), indices_to_adjacent@[g]@, rel)
                ==> forall|i: usize, j: usize|
                holds(cview(init_label_to_indices@[g]@), i) && holds(cview(init_label_to_indices@[g]@), j) && #[trigger] rel(i, j)
                    ==> label_of(cview(r@[g]@), i) == label_of(cview(r@[g]@), j),
{
    let ghost ins = cviews(init_label_to_indices@);
    let ghost av = aviews(indices_to_adjacent@);
    proof {
        assert forall|g: int| 0 <= g < init_label_to_indices@.len() implies proper_classes(#[trigger] cview(init_label_to_indices@[g]@)) by {}
    }
    let (graph, index, initial, starts) = number_nodes(&init_label_to_indices);
    proof {
        assert forall|g: int| 0 <= g < ins.len() implies adjacency_closed(#[trigger] indices_to_adjacent@[g]@, ins[g]) by {
            assert(ins[g] == cview(init_label_to_indices@[g]@));
        }
    }
    let adj = adjacency_of_nodes(indices_to_adjacent, Ghost(ins), &graph, &index, &initial, &starts);
    let ghost a = rows(adj@);
    proof {
        assert forall|x: int, k: int| 0 <= x < graph@.len() && 0 <= k < a[x].len() implies #[trigger] a[x][k] < graph@.len()
            && graph@[a[x][k] as int] == graph@[x] by {
            assert(a[x] == adj@[x]@);
        }
        assert(within_graphs(graph@, a));
        assert(graph_ranges(graph@, starts@));
    }
    let lab = refine_labels(&graph, &starts, &initial, &adj);
    let n_graphs = init_label_to_indices.len();
    let mut outs: Vec<Vec<(usize, Vec<usize>)>> = Vec::new();
    let mut g: usize = 0;
    while g < n_graphs
        invariant
            n_graphs == ins.len(),
            numbering(ins, graph@, index@, initial@, starts@),
            lab@.len() == graph@.len(),
            g <= n_graphs,
            outs@.len() == g,
            forall|h: int| 0 <= h < g ==> #[trigger] grouped(graph@, index@, starts@, lab@, cview(outs@[h]@), h),
        decreases n_graphs - g,
    {
        let ns = starts.len();
        assert(g + 1 < ns);
        let lo = starts[g];
        let hi = starts[g + 1];
        proof {
            assert(starts@[g as int] <= starts@[g + 1] <= starts@[ins.len() as int]);
            assert forall|x: int, y: int| lo <= x < hi && lo <= y < hi && #[trigger] index@[x] == #[trigger] index@[y] implies x == y by {
                lemma_in_range(graph@, starts@, g as int, x);
                lemma_in_range(graph@, starts@, g as int, y);
            }
        }
        let out = group_by_label(&index, &lab, lo, hi);
        outs.push(out);
        g = g + 1;
    }
    proof {
        let il = initial@;
        let n = graph@.len();
        assert forall|g: int, i: usize| 0 <= g < outs@.len() implies #[trigger] holds(cview(outs@[g]@), i) == holds(
            cview(init_label_to_indices@[g]@),
            i,
        ) by {
            assert(ins[g] == cview(init_label_to_indices@[g]@));
            assert(grouped(graph@, index@, starts@, lab@, cview(outs@[g]@), g));
            if holds(ins[g], i) {
                let x = node_of(graph@, index@, g, i);
                assert(starts@[graph@[x] as int] <= x < starts@[graph@[x] + 1]);
            }
            if holds(cview(outs@[g]@), i) {
                let x = choose|x: int| starts@[g] <= x < starts@[g + 1] && #[trigger] index@[x] == i;
                lemma_in_range(graph@, starts@, g, x);
            }
        }
        assert forall|g: int| 0 <= g < outs@.len() implies labelling(#[trigger] cview(outs@[g]@)) by {
            assert(grouped(graph@, index@, starts@, lab@, cview(outs@[g]@), g));
        }
        assert forall|g: int, i: usize| 0 <= g < outs@.len() && holds(ins[g], i) implies
            0 <= #[trigger] node_of(graph@, index@, g, i) < n && graph@[node_of(graph@, index@, g, i)] == g
            && index@[node_of(graph@, index@, g, i)] == i
            && label_of(cview(outs@[g]@), i) == lab@[node_of(graph@, index@, g, i)]
            && label_of(ins[g], i) == il[node_of(graph@, index@, g, i)] by {
            assert(holds(ins[g], i));
            assert(exists|x: int| 0 <= x < n && graph@[x] == g && #[trigger] index@[x] == i);
            let x = node_of(graph@, index@, g, i);
            assert(0 <= x < n && graph@[x] == g && index@[x] == i);
            assert(grouped(graph@, index@, starts@, lab@, cview(outs@[g]@), g));
            assert(starts@[graph@[x] as int] <= x < starts@[graph@[x] + 1]);
            assert(holds(cview(outs@[g]@), index@[x]));
            assert(label_of(ins[g], i) == il[x]);
        }
        assert forall|g: int, h: int, i: usize, j: usize|
            0 <= g < outs@.len() && 0 <= h < outs@.len() && holds(cview(init_label_to_indices@[g]@), i) && holds(
                cview(init_label_to_indices@[h]@),
                j,
            ) && #[trigger] label_of(cview(outs@[g]@), i) == #[trigger] label_of(cview(outs@[h]@), j) implies label_of(
                cview(init_label_to_indices@[g]@),
                i,
            ) == label_of(cview(init_label_to_indices@[h]@), j) by {
            assert(ins[g] == cview(init_label_to_indices@[g]@));
            assert(ins[h] == cview(init_label_to_indices@[h]@));
            let x = node_of(graph@, index@, g, i);
            let y = node_of(graph@, index@, h, j);
            assert(lab@[x] == lab@[y]);
        }
        assert forall|g: int| 0 <= g < outs@.len() implies stable_labels(#[trigger] cview(outs@[g]@), indices_to_adjacent@[g]@) by {
            let out = cview(outs@[g]@);
            let ad = indices_to_adjacent@[g]@;
            assert(ins[g] == cview(init_label_to_indices@[g]@));
            assert(av[g] == ad);
            assert(grouped(graph@, index@, starts@, lab@, out, g));
            assert forall|i: usize, j: usize|
                holds(out, i) && holds(out, j) && #[trigger] label_of(out, i) == #[trigger] label_of(out, j)
                    implies adjacent(ad, i).len() == adjacent(ad, j).len() && forall|k: int|
                    0 <= k < adjacent(ad, i).len() ==> label_of(out, adjacent(ad, i)[k]) == label_of(out, adjacent(ad, j)[k]) by {
                assert(holds(ins[g], i) && holds(ins[g], j));
                let x = node_of(graph@, index@, g, i);
                let y = node_of(graph@, index@, g, j);
                assert(lab@[x] == lab@[y]);
                assert(a[x].len() == adj@[x]@.len());
                assert(a[x].len() == a[y].len());
                assert forall|k: int| 0 <= k < adjacent(ad, i).len() implies label_of(out, adjacent(ad, i)[k]) == label_of(out, adjacent(ad, j)[k]) by {
                    let u = a[x][k] as int;
                    let v = a[y][k] as int;
                    assert(a[x] == adj@[x]@ && a[y] == adj@[y]@);
                    assert(lab@[u] == lab@[v]);
                    assert(u < n && graph@[u] == g && index@[u] == adjacent(ad, i)[k]);
                    assert(v < n && graph@[v] == g && index@[v] == adjacent(ad, j)[k]);
                    assert(starts@[graph@[u] as int] <= u < starts@[graph@[u] + 1]);
                    assert(starts@[graph@[v] as int] <= v < starts@[graph@[v] + 1]);
                    assert(starts@[g] <= u < starts@[g + 1]);
                    assert(grouped(graph@, index@, starts@, lab@, out, g));
                    assert(holds(out, index@[u]));
                    assert(label_of(out, index@[u]) == lab@[u]);
                    assert(starts@[g] <= v < starts@[g + 1]);
                    assert(holds(out, index@[v]));
                    assert(label_of(out, index@[v]) == lab@[v]);
                }
            }
        }
        assert forall|g: int, rel: spec_fn(usize, usize) -> bool|
            0 <= g < outs@.len() && #[trigger] stable_relation(cview(init_label_to_indices@[g]@), indices_to_adjacent@[g]@, rel)
                implies forall|i: usize, j: usize|
                holds(cview(init_label_to_indices@[g]@), i) && holds(cview(init_label_to_indices@[g]@), j) && #[trigger] rel(i, j)
                    ==> label_of(cview(outs@[g]@), i) == label_of(cview(outs@[g]@), j) by {
            let cs = cview(init_label_to_indices@[g]@);
            let ad = indices_to_adjacent@[g]@;
            assert(ins[g] == cs);
            assert(av[g] == ad);
            let nrel = |x: int, y: int| graph@[x] == g && graph@[y] == g && rel(index@[x], index@[y]);
            assert forall|x: int, y: int|
                0 <= x < n && 0 <= y < n && graph@[x] == graph@[y] && #[trigger] nrel(x, y)
                    implies il[x] == il[y] && a[x].len() == a[y].len() && forall|k: int|
                    0 <= k < a[x].len() ==> nrel(a[x][k] as int, a[y][k] as int) by {
                assert(holds(cs, index@[x]) && holds(cs, index@[y]));
                assert(rel(index@[x], index@[y]));
                assert(a[x] == adj@[x]@ && a[y] == adj@[y]@);
                assert forall|k: int| 0 <= k < a[x].len() implies nrel(a[x][k] as int, a[y][k] as int) by {
                    assert(graph@[a[x][k] as int] == graph@[x]);
                    assert(graph@[a[y][k] as int] == graph@[y]);
                }
            }
            assert(node_stable(graph@, il, a, nrel));
            assert forall|i: usize, j: usize|
                holds(cs, i) && holds(cs, j) && #[trigger] rel(i, j) implies label_of(cview(outs@[g]@), i) == label_of(cview(outs@[g]@), j) by {
                let x = node_of(graph@, index@, g, i);
                let y = node_of(graph@, index@, g, j);
                assert(nrel(x, y));
            }
        }
    }
    outs
}

/// What label propagation gives over graphs with adjacency lists `adjs` and
/// initial classes `init`: for each graph a labelling of the same indices,
/// stable, refining the initial labels (across graphs too), and the
/// coarsest stable one.
pub open spec fn propagation(
    adjs: Seq<Seq<(usize, Vec<usize>)>>,
    init: Seq<Seq<(usize, Seq<usize>)>>,
    out: Seq<Seq<(usize, Seq<usize>)>>,
) -> bool {
    &&& out.len() == init.len()
    &&& forall|g: int| 0 <= g < out.len() ==> labelling(#[trigger] out[g])
    &&& forall|g: int, i: usize| 0 <= g < out.len() ==> #[trigger] holds(out[g], i) == holds(init[g], i)
    &&& forall|g: int, h: int, i: usize, j: usize|
        0 <= g < out.len() && 0 <= h < out.len() && holds(init[g], i) && holds(init[h], j)
            && #[trigger] label_of(out[g], i) == #[trigger] label_of(out[h], j) ==> label_of(init[g], i) == label_of(
            init[h],
            j,
        )
    &&& forall|g: int| 0 <= g < out.len() ==> stable_labels(#[trigger] out[g], adjs[g])
    &&& forall|g: int, rel: spec_fn(usize, usize) -> bool|
        0 <= g < out.len() && #[trigger] stable_relation(init[g], adjs[g], rel) ==> forall|i: usize, j: usize|
            holds(init[g], i) && holds(init[g], j) && #[trigger] rel(i, j) ==> label_of(out[g], i) == label_of(out[g], j)
}

/// Classes in the same order with the same labels and, class by class, the
/// same indices.
pub open spec fn same_classes(a: Seq<(usize, Seq<usize>)>, b: Seq<(usize, Seq<usize>)>) -> bool {
    &&& a.len() == b.len()
    &&& forall|k: int| 0 <= k < a.len() ==> (#[trigger] a[k]).0 == b[k].0
    &&& forall|k: int, i: usize| 0 <= k < a.len() ==> (#[trigger] a[k].1.contains(i)) == b[k].1.contains(i)
}

proof fn lemma_same_classes(a: Seq<(usize, Seq<usize>)>, b: Seq<(usize, Seq<usize>)>)
    requires
        same_classes(a, b),
        distinct_classes(b),
    ensures
        distinct_classes(a),
        forall|i: usize| #[trigger] holds(a, i) == holds(b, i),
        forall|i: usize| holds(b, i) ==> #[trigger] label_of(a, i) == label_of(b, i),
{
    assert forall|x: int, y: int, i: usize|
        0 <= x < a.len() && 0 <= y < a.len() && x != y && #[trigger] a[x].1.contains(i) implies !(#[trigger] a[y].1.contains(i)) by {
        assert(b[x].1.contains(i));
    }
    assert forall|i: usize| #[trigger] holds(a, i) == holds(b, i) by {
        if holds(a, i) {
            let k = choose|k: int| 0 <= k < a.len() && #[trigger] a[k].1.contains(i);
            assert(b[k].1.contains(i));
        }
        if holds(b, i) {
            let k = choose|k: int| 0 <= k < b.len() && #[trigger] b[k].1.contains(i);
            assert(a[k].1.contains(i));
        }
    }
    assert forall|i: usize| holds(b, i) implies #[trigger] label_of(a, i) == label_of(b, i) by {
        let k = choose|k: int| 0 <= k < b.len() && #[trigger] b[k].1.contains(i);
        assert(a[k].1.contains(i));
        lemma_label_of(b, k, i);
        lemma_label_of(a, k, i);
    }
}

/// The classes of each graph with the repeats within a class dropped.
fn without_repeats(init: &Vec<Vec<(usize, Vec<usize>)>>) -> (r: Vec<Vec<(usize, Vec<usize>)>>)
    ensures
        r@.len() == init@.len(),
        forall|g: int| 0 <= g < r@.len() ==> same_classes(#[trigger] cview(r@[g]@), cview(init@[g]@)),
        forall|g: int, k: int| 0 <= g < r@.len() && 0 <= k < r@[g]@.len() ==> no_dups(#[trigger] r@[g]@[k].1@),
{
    let mut r: Vec<Vec<(usize, Vec<usize>)>> = Vec::new();
    let mut g: usize = 0;
    while g < init.len()
        invariant
            g <= init@.len(),
            r@.len() == g,
            forall|h: int| 0 <= h < g ==> same_classes(#[trigger] cview(r@[h]@), cview(init@[h]@)),
            forall|h: int, k: int| 0 <= h < g && 0 <= k < r@[h]@.len() ==> no_dups(#[trigger] r@[h]@[k].1@),
        decreases init@.len() - g,
    {
        let cs = &init[g];
        let mut out: Vec<(usize, Vec<usize>)> = Vec::new();
        let mut k: usize = 0;
        while k < cs.len()
            invariant
                k <= cs@.len(),
                out@.len() == k,
                forall|q: int| 0 <= q < k ==> (#[trigger] out@[q]).0 == cs@[q].0 && no_dups(out@[q].1@),
                forall|q: int, i: usize| 0 <= q < k ==> (#[trigger] out@[q].1@.contains(i)) == cs@[q].1@.contains(i),
            decreases cs@.len() - k,
        {
            let members = crate::pdag::dedup_list(&cs[k].1);
            proof {
                crate::pdag::lemma_dedup(cs@[k as int].1@);
            }
            out.push((cs[k].0, members));
            k = k + 1;
        }
        proof {
            let a = cview(out@);
            let b = cview(cs@);
            assert forall|q: int, i: usize| 0 <= q < a.len() implies (#[trigger] a[q].1.contains(i)) == b[q].1.contains(i) by {
                assert(out@[q].1@.contains(i) == cs@[q].1@.contains(i));
            }
            assert(same_classes(a, b));
        }
        r.push(out);
        g = g + 1;
    }
    r
}

/// Refines the initial labelling of each graph by the labels of adjacent
/// nodes until no class of any graph splits, and returns the final classes
/// of each graph. `indices_to_adjacent[g]` gives the adjacent indices of each
/// labelled index of graph `g` and `init_label_to_indices[g]` its initial
/// classes.
///
/// Within each graph the final labelling refines the initial one, is stable
/// (indices with one label have, position by position, adjacent indices with
/// one label) and is the coarsest such: any relation that is stable in that
/// sense only relates indices with one label. Across graphs, indices with one
/// label have the same initial label.
pub fn iterated_label_propagation(
    indices_to_adjacent: &Vec<Vec<(usize, Vec<usize>)>>,
    init_label_to_indices: Vec<Vec<(usize, Vec<usize>)>>,
) -> (r: Vec<Vec<(usize, Vec<usize>)>>)
    requires
        indices_to_adjacent@.len() == init_label_to_indices@.len(),
        forall|g: int| 0 <= g < init_label_to_indices@.len() ==> distinct_classes(#[trigger] cview(init_label_to_indices@[g]@)),
        forall|g: int| 0 <= g < init_label_to_indices@.len() ==> adjacency_closed(
            #[trigger] indices_to_adjacent@[g]@,
            cview(init_label_to_indices@[g]@),
        ),
    ensures
        r@.len() == init_label_to_indices@.len(),
        forall|g: int| 0 <= g < r@.len() ==> labelling(#[trigger] cview(r@[g]@)),
        forall|g: int, i: usize| 0 <= g < r@.len() ==> #[trigger] holds(cview(r@[g]@), i) == holds(
            cview(init_label_to_indices@[g]@),
            i,
        ),
        forall|g: int, h: int, i: usize, j: usize|
            0 <= g < r@.len() && 0 <= h < r@.len() && holds(cview(init_label_to_indices@[g]@), i) && holds(
                cview(init_label_to_indices@[h]@),
                j,
            ) && #[trigger] label_of(cview(r@[g]@), i) == #[trigger] label_of(cview(r@[h]@), j) ==> label_of(
                cview(init_label_to_indices@[g]@),
                i,
            ) == label_of(cview(init_label_to_indices@[h]@), j),
        forall|g: int| 0 <= g < r@.len() ==> stable_labels(#[trigger] cview(r@[g]@), indices_to_adjacent@[g]@),
        forall|g: int, rel: spec_fn(usize, usize) -> bool|
            0 <= g < r@.len() && #[trigger] stable_relation(cview(init_label_to_indices@[g]@), indices_to_adjacent@[g]@, rel)
                ==> forall|i: usize, j: usize|
                holds(cview(init_label_to_indices@[g]@), i) && holds(cview(init_label_to_indices@[g]@), j) && #[trigger] rel(i, j)
                    ==> label_of(cview(r@[g]@), i) == label_of(cview(r@[g]@), j),
        propagation(aviews(indices_to_adjacent@), cviews(init_label_to_indices@), cviews(r@)),
{
    let ghost init = init_label_to_indices@;
    let proper = without_repeats(&init_label_to_indices);
    proof {
        assert forall|g: int| 0 <= g < proper@.len() implies proper_classes(#[trigger] cview(proper@[g]@)) by {
            lemma_same_classes(cview(proper@[g]@), cview(init[g]@));
            assert forall|k: int| 0 <= k < cview(proper@[g]@).len() implies no_dups((#[trigger] cview(proper@[g]@)[k]).1) by {
                assert(no_dups(proper@[g]@[k].1@));
            }
        }
        assert forall|g: int| 0 <= g < proper@.len() implies adjacency_closed(
            #[trigger] indices_to_adjacent@[g]@,
            cview(proper@[g]@),
        ) by {
            lemma_same_classes(cview(proper@[g]@), cview(init[g]@));
            let adjs = indices_to_adjacent@[g]@;
            let a = cview(proper@[g]@);
            let b = cview(init[g]@);
            assert(adjacency_closed(adjs, b));
            assert forall|i: usize| #[trigger] holds(a, i) implies key_index(adjs, i) is Some && forall|k: int|
                0 <= k < adjacent(adjs, i).len() ==> holds(a, #[trigger] adjacent(adjs, i)[k]) by {
                assert(holds(b, i));
                assert forall|k: int| 0 <= k < adjacent(adjs, i).len() implies holds(a, #[trigger] adjacent(adjs, i)[k]) by {
                    assert(holds(b, adjacent(adjs, i)[k]));
                }
            }
        }
    }
    let r = propagate_proper(indices_to_adjacent, proper);
    proof {
        assert forall|g: int, i: usize| 0 <= g < r@.len() implies #[trigger] holds(cview(proper@[g]@), i) == holds(cview(init[g]@), i)
            && (holds(cview(init[g]@), i) ==> label_of(cview(proper@[g]@), i) == label_of(cview(init[g]@), i)) by {
            lemma_same_classes(cview(proper@[g]@), cview(init[g]@));
        }
        assert forall|g: int, i: usize| 0 <= g < r@.len() && holds(cview(init[g]@), i)
            implies #[trigger] label_of(cview(proper@[g]@), i) == label_of(cview(init[g]@), i) by {
            lemma_same_classes(cview(proper@[g]@), cview(init[g]@));
        }
        assert forall|g: int, rel: spec_fn(usize, usize) -> bool|
            0 <= g < r@.len() && #[trigger] stable_relation(cview(init[g]@), indices_to_adjacent@[g]@, rel)
            implies stable_relation(cview(proper@[g]@), indices_to_adjacent@[g]@, rel) by {
            lemma_same_classes(cview(proper@[g]@), cview(init[g]@));
        }
    }
    proof {
        let a = aviews(indices_to_adjacent@);
        let ci = cviews(init);
        let co = cviews(r@);
        assert forall|g: int| 0 <= g < co.len() implies a[g] == indices_to_adjacent@[g]@ && ci[g] == cview(init[g]@)
            && co[g] == cview(r@[g]@) by {}
    }
    r
}

} // verus!
