//! The MiniZinc data file (`.dzn`) of the edge-orientation model: the
//! graph's edges, which of them are still undirected, their initial
//! direction, the incidence and adjacency of every part, and the input and
//! output parts. Parts and edges are numbered from 1 in the file.
use vstd::prelude::*;
use std::collections::HashSet;
use crate::text::{decimal, push_char, push_decimal, push_str};
use crate::resolve::{increasing, insert_sorted, lemma_increasing_unique, sorted_ids};
use crate::mixed_graph::rows;
use vstd::std_specs::iter::IteratorSpec;

verus! {

broadcast use vstd::std_specs::hash::group_hash_axioms;

/// The parts joined with `","`.
pub open spec fn commas(parts: Seq<Seq<char>>) -> Seq<char>
    decreases parts.len(),
{
    if parts.len() == 0 {
        Seq::empty()
    } else if parts.len() == 1 {
        parts[0]
    } else {
        commas(parts.drop_last()) + seq![','] + parts.last()
    }
}

/// The elements of `s` plus `shift`, in increasing order, separated by commas.
pub open spec fn set_body(s: Set<usize>, shift: nat) -> Seq<char> {
    commas(sorted_ids(s).map_values(|x: usize| decimal((x + shift) as nat)))
}

/// One line of a list of sets: `  {1,2,3},`.
pub open spec fn set_line(s: Set<usize>, shift: nat) -> Seq<char> {
    seq![' ', ' ', '{'] + set_body(s, shift) + seq!['}', ',', '\n']
}

/// The edges, numbered from 0, that have `u` as an end.
pub open spec fn incidence_set(edges: Seq<(usize, usize)>, u: usize) -> Set<usize> {
    Set::new(|e: usize| e < edges.len() && (edges[e as int].0 == u || edges[e as int].1 == u))
}

pub open spec fn set_lines(sets: Seq<Set<usize>>, shift: nat) -> Seq<char>
    decreases sets.len(),
{
    if sets.len() == 0 {
        Seq::empty()
    } else {
        set_lines(sets.drop_last(), shift) + set_line(sets.last(), shift)
    }
}

pub open spec fn bool_text(b: bool) -> Seq<char> {
    if b {
        "true"@
    } else {
        "false"@
    }
}

/// `" | u, v\n"` for every edge after the first, ends numbered from 1.
pub open spec fn edge_rows(edges: Seq<(usize, usize)>) -> Seq<char>
    decreases edges.len(),
{
    if edges.len() <= 1 {
        Seq::empty()
    } else {
        edge_rows(edges.drop_last()) + " | "@ + decimal((edges.last().0 + 1) as nat) + seq![',', ' '] + decimal((edges.last().1 + 1) as nat)
            + seq!['\n']
    }
}

pub open spec fn edges_text(edges: Seq<(usize, usize)>) -> Seq<char> {
    "edges = [| "@ + decimal((edges[0].0 + 1) as nat) + seq![',', ' '] + decimal((edges[0].1 + 1) as nat) + seq!['\n']
        + edge_rows(edges) + "|];\n\n"@
}

pub open spec fn fuzzy_text(fuzzy: Seq<bool>) -> Seq<char> {
    "fuzzy = [\n"@ + commas(fuzzy.map_values(|b: bool| bool_text(b))) + "];\n\n"@
}

pub open spec fn init_text(init_direction: Seq<usize>) -> Seq<char> {
    "init_direction = [\n"@ + commas(init_direction.map_values(|d: usize| decimal(d as nat))) + "];\n\n"@
}

pub open spec fn incidence_text(n: nat, edges: Seq<(usize, usize)>) -> Seq<char> {
    "incidence = [\n"@ + set_lines(Seq::new(n, |u: int| incidence_set(edges, u as usize)), 1) + "];\n\n"@
}

pub open spec fn adjacency_text(adjacency: Seq<Seq<usize>>) -> Seq<char> {
    "adjacency = [\n"@ + set_lines(adjacency.map_values(|r: Seq<usize>| r.to_set()), 1) + "];\n"@
}

/// `label{..};` for a set of parts.
pub open spec fn named_set_text(label: Seq<char>, s: Set<usize>) -> Seq<char> {
    label + seq!['{'] + set_body(s, 1) + seq!['}', ';', '\n']
}

/// The whole data file.
pub open spec fn dzn_text(
    adjacency: Seq<Seq<usize>>,
    edges: Seq<(usize, usize)>,
    fuzzy: Seq<bool>,
    init_direction: Seq<usize>,
    s_input: Set<usize>,
    s_output: Set<usize>,
) -> Seq<char> {
    "n = "@ + decimal(adjacency.len()) + ";\nm = "@ + decimal(edges.len()) + ";\n\n"@
        + edges_text(edges)
        + fuzzy_text(fuzzy)
        + init_text(init_direction)
        + incidence_text(adjacency.len(), edges)
        + adjacency_text(adjacency)
        + named_set_text("s_input = "@, s_input)
        + named_set_text("s_output = "@, s_output)
}

proof fn lemma_commas_step(parts: Seq<Seq<char>>, i: int)
    requires
        0 <= i < parts.len(),
    ensures
        commas(parts.take(i + 1)) == commas(parts.take(i)) + (if i > 0 {
            seq![',']
        } else {
            Seq::empty()
        }) + parts[i],
{
    assert(parts.take(i + 1).drop_last() =~= parts.take(i));
    if i == 0 {
        assert(commas(parts.take(0)) =~= Seq::<char>::empty());
        assert(Seq::<char>::empty() + Seq::<char>::empty() + parts[0] =~= parts[0]);
    }
}

/// An increasing list is the sorted form of its set.
pub(crate) proof fn lemma_sorted_is(v: Seq<usize>)
    requires
        increasing(v),
    ensures
        sorted_ids(v.to_set()) == v,
{
    let w = sorted_ids(v.to_set());
    assert(increasing(v) && v.to_set() == v.to_set());
    lemma_increasing_unique(w, v);
}

/// Appends the elements of an increasing list plus `shift`, separated by commas.
fn push_shifted(out: &mut String, v: &Vec<usize>, shift: usize)
    requires
        increasing(v@),
        forall|i: int| 0 <= i < v@.len() ==> v@[i] + shift <= usize::MAX,
    ensures
        final(out)@ == old(out)@ + set_body(v@.to_set(), shift as nat),
{
    let ghost o = old(out)@;
    let ghost parts = v@.map_values(|x: usize| decimal((x + shift) as nat));
    proof {
        lemma_sorted_is(v@);
    }
    let mut i: usize = 0;
    assert(parts.take(0) =~= Seq::<Seq<char>>::empty());
    assert(o + commas(parts.take(0)) =~= o);
    while i < v.len()
        invariant
            parts == v@.map_values(|x: usize| decimal((x + shift) as nat)),
            forall|i: int| 0 <= i < v@.len() ==> v@[i] + shift <= usize::MAX,
            i <= v@.len(),
            out@ == o + commas(parts.take(i as int)),
        decreases v@.len() - i,
    {
        let ghost before = out@;
        if i > 0 {
            push_char(out, ',');
        }
        push_decimal(out, v[i] + shift);
        proof {
            lemma_commas_step(parts, i as int);
            assert(parts[i as int] == decimal((v@[i as int] + shift) as nat));
            if i > 0 {
                assert(out@ =~= before + seq![','] + parts[i as int]);
            } else {
                assert(out@ =~= before + parts[i as int]);
            }
            assert(out@ =~= o + commas(parts.take(i + 1)));
        }
        i = i + 1;
    }
    assert(parts.take(v@.len() as int) =~= parts);
}

/// Appends one set line.
fn push_set_line(out: &mut String, v: &Vec<usize>, shift: usize)
    requires
        increasing(v@),
        forall|i: int| 0 <= i < v@.len() ==> v@[i] + shift <= usize::MAX,
    ensures
        final(out)@ == old(out)@ + set_line(v@.to_set(), shift as nat),
{
    let ghost o = old(out)@;
    push_str(out, "  {");
    push_shifted(out, v, shift);
    push_str(out, "},\n");
    proof {
        reveal_strlit("  {");
        reveal_strlit("},\n");
        assert(out@ =~= o + set_line(v@.to_set(), shift as nat));
    }
}

/// The elements of a row, increasing and each once.
fn sorted_row(row: &Vec<usize>) -> (r: Vec<usize>)
    ensures
        increasing(r@),
        r@.to_set() == row@.to_set(),
{
    let mut r: Vec<usize> = Vec::new();
    let mut i: usize = 0;
    assert(row@.take(0).to_set() =~= Set::<usize>::empty());
    assert(r@.to_set() =~= Set::<usize>::empty());
    while i < row.len()
        invariant
            i <= row@.len(),
            increasing(r@),
            r@.to_set() == row@.take(i as int).to_set(),
        decreases row@.len() - i,
    {
        insert_sorted(&mut r, row[i]);
        proof {
            assert(row@.take(i + 1) =~= row@.take(i as int).push(row@[i as int]));
            crate::r1cs::lemma_push_to_set(row@.take(i as int), row@[i as int]);
        }
        i = i + 1;
    }
    assert(row@.take(row@.len() as int) =~= row@);
    r
}

/// The elements of a set, increasing.
pub(crate) fn sorted_set(s: &HashSet<usize>) -> (r: Vec<usize>)
    ensures
        increasing(r@),
        r@.to_set() == s@,
{
    let ghost ks = vstd::std_specs::hash::spec_hash_keys_iter(s).remaining();
    proof {
        vstd::std_specs::hash::axiom_spec_hash_keys_iter(s);
    }
    let mut r: Vec<usize> = Vec::new();
    assert(ks.take(0).unref().to_set() =~= Set::<usize>::empty());
    assert(r@.to_set() =~= Set::<usize>::empty());
    for k in it: s.iter()
        invariant
            it.seq() == ks,
            ks.unref().to_set() == s@,
            increasing(r@),
            r@.to_set() == ks.take(it.index()).unref().to_set(),
    {
        insert_sorted(&mut r, *k);
        proof {
            assert(ks.take(it.index() + 1).unref() =~= ks.take(it.index()).unref().push(*k));
            crate::r1cs::lemma_push_to_set(ks.take(it.index()).unref(), *k);
        }
    }
    assert(ks.take(ks.len() as int) =~= ks);
    r
}

/// The edges among the first `k` that have `u` as an end.
pub open spec fn incident_upto(edges: Seq<(usize, usize)>, u: usize, k: nat) -> Set<usize> {
    Set::new(|e: usize| e < k && e < edges.len() && (edges[e as int].0 == u || edges[e as int].1 == u))
}

/// For every part, the edges it is an end of, increasing.
fn incidence_lists(n: usize, edges: &Vec<(usize, usize)>) -> (r: Vec<Vec<usize>>)
    requires
        forall|e: int| 0 <= e < edges@.len() ==> (#[trigger] edges@[e]).0 < n && edges@[e].1 < n,
    ensures
        r@.len() == n,
        forall|u: int| 0 <= u < n ==> increasing(#[trigger] r@[u]@) && r@[u]@.to_set() == incidence_set(edges@, u as usize),
        forall|u: int, j: int| 0 <= u < n && 0 <= j < r@[u]@.len() ==> #[trigger] r@[u]@[j] < edges@.len(),
{
    let mut inc: Vec<Vec<usize>> = Vec::new();
    let mut u: usize = 0;
    while u < n
        invariant
            u <= n,
            inc@.len() == u,
            forall|w: int| 0 <= w < u ==> (#[trigger] inc@[w])@ == Seq::<usize>::empty(),
        decreases n - u,
    {
        inc.push(Vec::new());
        u = u + 1;
    }
    assert forall|w: int| 0 <= w < n implies (#[trigger] inc@[w])@.to_set() == incident_upto(edges@, w as usize, 0) by {
        assert(inc@[w]@.to_set() =~= incident_upto(edges@, w as usize, 0));
    }
    let mut e: usize = 0;
    while e < edges.len()
        invariant
            forall|f: int| 0 <= f < edges@.len() ==> (#[trigger] edges@[f]).0 < n && edges@[f].1 < n,
            e <= edges@.len(),
            inc@.len() == n,
            forall|w: int| 0 <= w < n ==> increasing(#[trigger] inc@[w]@) && inc@[w]@.to_set() == incident_upto(edges@, w as usize, e as nat),
            forall|w: int, j: int| 0 <= w < n && 0 <= j < inc@[w]@.len() ==> #[trigger] inc@[w]@[j] < e,
        decreases edges@.len() - e,
    {
        let (a, b) = edges[e];
        let ghost i0 = inc@;
        let mut row = crate::resolve::copy_ids(&inc[a]);
        row.push(e);
        inc.set(a, row);
        if b != a {
            let mut row = crate::resolve::copy_ids(&inc[b]);
            row.push(e);
            inc.set(b, row);
        }
        proof {
            assert forall|w: int| 0 <= w < n implies increasing(#[trigger] inc@[w]@) && inc@[w]@.to_set() == incident_upto(edges@, w as usize, (e + 1) as nat) by {
                if w == a as int || w == b as int {
                    assert(inc@[w]@ == i0[w]@.push(e));
                    crate::r1cs::lemma_push_to_set(i0[w]@, e);
                    assert(inc@[w]@.to_set() =~= incident_upto(edges@, w as usize, (e + 1) as nat));
                } else {
                    assert(inc@[w] == i0[w]);
                    assert(inc@[w]@.to_set() =~= incident_upto(edges@, w as usize, (e + 1) as nat));
                }
            }
            assert forall|w: int, j: int| 0 <= w < n && 0 <= j < inc@[w]@.len() implies #[trigger] inc@[w]@[j] < e + 1 by {
                if w == a as int || w == b as int {
                    assert(inc@[w]@ == i0[w]@.push(e));
                    if j < i0[w]@.len() {
                        assert(inc@[w]@[j] == i0[w]@[j]);
                    }
                } else {
                    assert(inc@[w] == i0[w]);
                }
            }
        }
        e = e + 1;
    }
    assert forall|w: int| 0 <= w < n implies increasing(#[trigger] inc@[w]@) && inc@[w]@.to_set() == incidence_set(edges@, w as usize) by {
        assert(incident_upto(edges@, w as usize, edges@.len()) =~= incidence_set(edges@, w as usize));
    }
    inc
}

/// Appends one set line per list.
fn push_set_lines(out: &mut String, lists: &Vec<Vec<usize>>, shift: usize, sets: Ghost<Seq<Set<usize>>>)
    requires
        sets@.len() == lists@.len(),
        forall|u: int| 0 <= u < lists@.len() ==> increasing(#[trigger] lists@[u]@) && lists@[u]@.to_set() == sets@[u],
        forall|u: int, j: int| 0 <= u < lists@.len() && 0 <= j < lists@[u]@.len() ==> #[trigger] lists@[u]@[j] + shift <= usize::MAX,
    ensures
        final(out)@ == old(out)@ + set_lines(sets@, shift as nat),
{
    let ghost o = old(out)@;
    let mut u: usize = 0;
    assert(sets@.take(0) =~= Seq::<Set<usize>>::empty());
    assert(o + set_lines(sets@.take(0), shift as nat) =~= o);
    while u < lists.len()
        invariant
            sets@.len() == lists@.len(),
            forall|w: int| 0 <= w < lists@.len() ==> increasing(#[trigger] lists@[w]@) && lists@[w]@.to_set() == sets@[w],
            forall|w: int, j: int| 0 <= w < lists@.len() && 0 <= j < lists@[w]@.len() ==> #[trigger] lists@[w]@[j] + shift <= usize::MAX,
            u <= lists@.len(),
            out@ == o + set_lines(sets@.take(u as int), shift as nat),
        decreases lists@.len() - u,
    {
        assert forall|i: int| 0 <= i < lists@[u as int]@.len() implies lists@[u as int]@[i] + shift <= usize::MAX by {
            assert(lists@[u as int]@[i] + shift <= usize::MAX);
        }
        push_set_line(out, &lists[u], shift);
        assert(sets@.take(u + 1).drop_last() =~= sets@.take(u as int));
        assert(out@ =~= o + set_lines(sets@.take(u + 1), shift as nat));
        u = u + 1;
    }
    assert(sets@.take(lists@.len() as int) =~= sets@);
}

fn push_edges(out: &mut String, edges: &Vec<(usize, usize)>, n: usize)
    requires
        edges@.len() > 0,
        forall|e: int| 0 <= e < edges@.len() ==> (#[trigger] edges@[e]).0 < n && edges@[e].1 < n,
    ensures
        final(out)@ == old(out)@ + edges_text(edges@),
{
    let ghost o = old(out)@;
    let m = edges.len();
    push_str(out, "edges = [| ");
    push_decimal(out, edges[0].0 + 1);
    push_str(out, ", ");
    push_decimal(out, edges[0].1 + 1);
    push_char(out, '\n');
    let ghost head = out@;
    let mut e: usize = 1;
    assert(edge_rows(edges@.take(1)) =~= Seq::<char>::empty());
    assert(head + edge_rows(edges@.take(1)) =~= head);
    while e < m
        invariant
            m == edges@.len(),
            forall|f: int| 0 <= f < edges@.len() ==> (#[trigger] edges@[f]).0 < n && edges@[f].1 < n,
            1 <= e <= m,
            out@ == head + edge_rows(edges@.take(e as int)),
        decreases m - e,
    {
        let ghost before = out@;
        push_str(out, " | ");
        push_decimal(out, edges[e].0 + 1);
        push_str(out, ", ");
        push_decimal(out, edges[e].1 + 1);
        push_char(out, '\n');
        proof {
            reveal_strlit(" | ");
            reveal_strlit(", ");
            assert(edges@.take(e + 1).drop_last() =~= edges@.take(e as int));
            assert(out@ =~= head + edge_rows(edges@.take(e + 1)));
        }
        e = e + 1;
    }
    assert(edges@.take(m as int) =~= edges@);
    push_str(out, "|];\n\n");
    proof {
        reveal_strlit("edges = [| ");
        reveal_strlit(", ");
        reveal_strlit("|];\n\n");
        assert(out@ =~= o + edges_text(edges@));
    }
}

fn push_fuzzy(out: &mut String, fuzzy: &Vec<bool>)
    ensures
        final(out)@ == old(out)@ + fuzzy_text(fuzzy@),
{
    let ghost o = old(out)@;
    push_str(out, "fuzzy = [\n");
    let ghost fparts = fuzzy@.map_values(|b: bool| bool_text(b));
    let ghost fhead = out@;
    let mut i: usize = 0;
    assert(fparts.take(0) =~= Seq::<Seq<char>>::empty());
    assert(fhead + commas(fparts.take(0)) =~= fhead);
    while i < fuzzy.len()
        invariant
            fparts == fuzzy@.map_values(|b: bool| bool_text(b)),
            i <= fuzzy@.len(),
            out@ == fhead + commas(fparts.take(i as int)),
        decreases fuzzy@.len() - i,
    {
        let ghost before = out@;
        if i > 0 {
            push_char(out, ',');
        }
        if fuzzy[i] {
            push_str(out, "true");
        } else {
            push_str(out, "false");
        }
        proof {
            reveal_strlit("true");
            reveal_strlit("false");
            lemma_commas_step(fparts, i as int);
            assert(fparts[i as int] == bool_text(fuzzy@[i as int]));
            if i > 0 {
                assert(out@ =~= before + seq![','] + fparts[i as int]);
            } else {
                assert(out@ =~= before + fparts[i as int]);
            }
            assert(out@ =~= fhead + commas(fparts.take(i + 1)));
        }
        i = i + 1;
    }
    assert(fparts.take(fuzzy@.len() as int) =~= fparts);
    push_str(out, "];\n\n");
    proof {
        reveal_strlit("fuzzy = [\n");
        reveal_strlit("];\n\n");
        assert(out@ =~= o + fuzzy_text(fuzzy@));
    }
}

fn push_init(out: &mut String, init_direction: &Vec<usize>)
    ensures
        final(out)@ == old(out)@ + init_text(init_direction@),
{
    let ghost o = old(out)@;
    push_str(out, "init_direction = [\n");
    let ghost dparts = init_direction@.map_values(|d: usize| decimal(d as nat));
    let ghost dhead = out@;
    let mut i: usize = 0;
    assert(dparts.take(0) =~= Seq::<Seq<char>>::empty());
    assert(dhead + commas(dparts.take(0)) =~= dhead);
    while i < init_direction.len()
        invariant
            dparts == init_direction@.map_values(|d: usize| decimal(d as nat)),
            i <= init_direction@.len(),
            out@ == dhead + commas(dparts.take(i as int)),
        decreases init_direction@.len() - i,
    {
        let ghost before = out@;
        if i > 0 {
            push_char(out, ',');
        }
        push_decimal(out, init_direction[i]);
        proof {
            lemma_commas_step(dparts, i as int);
            if i > 0 {
                assert(out@ =~= before + seq![','] + dparts[i as int]);
            } else {
                assert(out@ =~= before + dparts[i as int]);
            }
            assert(out@ =~= dhead + commas(dparts.take(i + 1)));
        }
        i = i + 1;
    }
    assert(dparts.take(init_direction@.len() as int) =~= dparts);
    push_str(out, "];\n\n");
    proof {
        reveal_strlit("init_direction = [\n");
        reveal_strlit("];\n\n");
        assert(out@ =~= o + init_text(init_direction@));
    }
}

fn push_incidence(out: &mut String, n: usize, edges: &Vec<(usize, usize)>)
    requires
        forall|e: int| 0 <= e < edges@.len() ==> (#[trigger] edges@[e]).0 < n && edges@[e].1 < n,
    ensures
        final(out)@ == old(out)@ + incidence_text(n as nat, edges@),
{
    let ghost o = old(out)@;
    push_str(out, "incidence = [\n");
    let inc = incidence_lists(n, edges);
    let m = edges.len();
    let ghost isets = Seq::new(n as nat, |u: int| incidence_set(edges@, u as usize));
    assert forall|u: int, j: int| 0 <= u < inc@.len() && 0 <= j < inc@[u]@.len() implies #[trigger] inc@[u]@[j] + 1 <= usize::MAX by {
        assert(inc@[u]@[j] < m);
    }
    push_set_lines(out, &inc, 1, Ghost(isets));
    push_str(out, "];\n\n");
    proof {
        reveal_strlit("incidence = [\n");
        reveal_strlit("];\n\n");
        assert(out@ =~= o + incidence_text(n as nat, edges@));
    }
}

fn push_adjacency(out: &mut String, adjacency: &Vec<Vec<usize>>)
    requires
        forall|u: int, j: int| 0 <= u < adjacency@.len() && 0 <= j < adjacency@[u]@.len() ==> #[trigger] adjacency@[u]@[j] < usize::MAX,
    ensures
        final(out)@ == old(out)@ + adjacency_text(rows(adjacency@)),
{
    let ghost o = old(out)@;
    let n = adjacency.len();
    push_str(out, "adjacency = [\n");
    let mut sorted_adj: Vec<Vec<usize>> = Vec::new();
    let mut u: usize = 0;
    while u < n
        invariant
            n == adjacency@.len(),
            u <= n,
            sorted_adj@.len() == u,
            forall|w: int| 0 <= w < u ==> increasing(#[trigger] sorted_adj@[w]@) && sorted_adj@[w]@.to_set() == adjacency@[w]@.to_set(),
        decreases n - u,
    {
        sorted_adj.push(sorted_row(&adjacency[u]));
        u = u + 1;
    }
    let ghost asets = rows(adjacency@).map_values(|r: Seq<usize>| r.to_set());
    assert forall|w: int, j: int| 0 <= w < sorted_adj@.len() && 0 <= j < sorted_adj@[w]@.len() implies #[trigger] sorted_adj@[w]@[j] + 1 <= usize::MAX by {
        let x = sorted_adj@[w]@[j];
        assert(sorted_adj@[w]@.to_set().contains(x));
        assert(adjacency@[w]@.to_set().contains(x));
        let k = choose|k: int| 0 <= k < adjacency@[w]@.len() && adjacency@[w]@[k] == x;
        assert(adjacency@[w]@[k] < usize::MAX);
    }
    assert forall|w: int| 0 <= w < sorted_adj@.len() implies increasing(#[trigger] sorted_adj@[w]@) && sorted_adj@[w]@.to_set() == asets[w] by {
        assert(asets[w] == adjacency@[w]@.to_set());
    }
    push_set_lines(out, &sorted_adj, 1, Ghost(asets));
    push_str(out, "];\n");
    proof {
        reveal_strlit("adjacency = [\n");
        reveal_strlit("];\n");
        assert(out@ =~= o + adjacency_text(rows(adjacency@)));
    }
}

fn push_named_set(out: &mut String, label: &str, s: &HashSet<usize>)
    requires
        forall|x: usize| s@.contains(x) ==> x < usize::MAX,
    ensures
        final(out)@ == old(out)@ + named_set_text(label@, s@),
{
    let ghost o = old(out)@;
    push_str(out, label);
    push_char(out, '{');
    let v = sorted_set(s);
    assert forall|i: int| 0 <= i < v@.len() implies v@[i] + 1 <= usize::MAX by {
        assert(v@.to_set().contains(v@[i]));
    }
    push_shifted(out, &v, 1);
    push_char(out, '}');
    push_char(out, ';');
    push_char(out, '\n');
    assert(out@ =~= o + named_set_text(label@, s@));
}

/// The data file of the orientation model (see [`dzn_text`]): `n` parts
/// (`adjacency`), `m` edges with at least one, each edge's `fuzzy` flag
/// and initial direction, and the input and output parts.
pub fn format_dzn(
    adjacency: &Vec<Vec<usize>>,
    edges: &Vec<(usize, usize)>,
    fuzzy: &Vec<bool>,
    init_direction: &Vec<usize>,
    s_input: &HashSet<usize>,
    s_output: &HashSet<usize>,
) -> (r: String)
    requires
        edges@.len() > 0,
        forall|e: int| 0 <= e < edges@.len() ==> (#[trigger] edges@[e]).0 < adjacency@.len() && edges@[e].1 < adjacency@.len(),
        forall|u: int, j: int| 0 <= u < adjacency@.len() && 0 <= j < adjacency@[u]@.len() ==> #[trigger] adjacency@[u]@[j] < usize::MAX,
        forall|x: usize| s_input@.contains(x) ==> x < usize::MAX,
        forall|x: usize| s_output@.contains(x) ==> x < usize::MAX,
    ensures
        r@ == dzn_text(rows(adjacency@), edges@, fuzzy@, init_direction@, s_input@, s_output@),
{
    let n = adjacency.len();
    let mut out = String::new();
    push_str(&mut out, "n = ");
    push_decimal(&mut out, n);
    push_str(&mut out, ";\nm = ");
    push_decimal(&mut out, edges.len());
    push_str(&mut out, ";\n\n");
    let ghost head = out@;
    push_edges(&mut out, edges, n);
    push_fuzzy(&mut out, fuzzy);
    push_init(&mut out, init_direction);
    push_incidence(&mut out, n, edges);
    push_adjacency(&mut out, adjacency);
    push_named_set(&mut out, "s_input = ", s_input);
    push_named_set(&mut out, "s_output = ", s_output);
    proof {
        reveal_strlit("n = ");
        reveal_strlit(";\nm = ");
        reveal_strlit(";\n\n");
        assert(rows(adjacency@).len() == n);
        assert(out@ =~= dzn_text(rows(adjacency@), edges@, fuzzy@, init_direction@, s_input@, s_output@));
    }
    out
}

} // verus!
