//! Iterated refinement of the labels of the constraints and signals of
//! circuits by fingerprints: an item's fingerprint is its label together
//! with the multiset of its neighbours' labels, each paired with the
//! characteristic of the incidence (how the constraint holds the signal).
//! Rounds repeat until no class splits; the result is a labelling under
//! which items with one label have equal fingerprints.
use vstd::prelude::*;
use vstd::multiset::Multiset;
use crate::tags::key_index;
use crate::strings::no_dups;
use crate::label_propagation::{cview, cviews, find_entry};
use crate::mixed_graph::contains_usize;

verus! {

broadcast use vstd::seq_lib::group_to_multiset_ensures, vstd::multiset::group_multiset_axioms;

/// Whether two lists hold the same pairs, as many times each, in any order.
fn same_multiset(a: &Vec<(usize, usize)>, b: &Vec<(usize, usize)>) -> (r: bool)
    ensures
        r == (a@.to_multiset() == b@.to_multiset()),
{
    broadcast use vstd::seq_lib::to_multiset_remove, vstd::seq_lib::lemma_multiset_commutative;
    let mut rem: Vec<(usize, usize)> = Vec::new();
    let mut k: usize = 0;
    while k < b.len()
        invariant
            k <= b@.len(),
            rem@ == b@.take(k as int),
        decreases b@.len() - k,
    {
        rem.push(b[k]);
        assert(b@.take(k + 1) =~= b@.take(k as int).push(b@[k as int]));
        k = k + 1;
    }
    assert(b@.take(b@.len() as int) =~= b@);
    let mut i: usize = 0;
    assert(a@.take(0).to_multiset() =~= Multiset::<(usize, usize)>::empty());
    while i < a.len()
        invariant
            i <= a@.len(),
            a@.take(i as int).to_multiset().add(rem@.to_multiset()) == b@.to_multiset(),
        decreases a@.len() - i,
    {
        let x = a[i];
        let mut j: usize = 0;
        while j < rem.len() && !(rem[j].0 == x.0 && rem[j].1 == x.1)
            invariant
                j <= rem@.len(),
                forall|t: int| 0 <= t < j ==> rem@[t] != x,
            decreases rem@.len() - j,
        {
            j = j + 1;
        }
        assert(a@.take(i + 1) =~= a@.take(i as int).push(x));
        if j == rem.len() {
            proof {
                assert(!rem@.contains(x));
                assert(a@ =~= a@.take(i + 1) + a@.skip(i + 1));
                vstd::seq_lib::lemma_multiset_commutative(a@.take(i + 1), a@.skip(i + 1));
                assert(a@.to_multiset().count(x) >= a@.take(i + 1).to_multiset().count(x));
                assert(rem@.to_multiset().count(x) == 0);
                assert(a@.take(i + 1).to_multiset().count(x) == a@.take(i as int).to_multiset().count(x) + 1);
                assert(a@.to_multiset().count(x) > b@.to_multiset().count(x));
            }
            return false;
        }
        let ghost before = rem@;
        rem.remove(j);
        assert(rem@ == before.remove(j as int));
        i = i + 1;
    }
    assert(a@.take(a@.len() as int) =~= a@);
    if rem.len() == 0 {
        assert(rem@.to_multiset() =~= Multiset::<(usize, usize)>::empty());
        assert(a@.to_multiset() =~= a@.to_multiset().add(rem@.to_multiset()));
        assert(a@.to_multiset() =~= b@.to_multiset());
        true
    } else {
        proof {
            assert(rem@.to_multiset().count(rem@[0]) > 0);
            assert(a@.to_multiset().count(rem@[0]) < b@.to_multiset().count(rem@[0]));
        }
        false
    }
}

/// Each incidence as the pair (label of the item at its other end,
/// characteristic).
pub open spec fn labelled(lab: Seq<usize>, ps: Seq<(usize, usize)>) -> Seq<(usize, usize)> {
    ps.map_values(|p: (usize, usize)| (lab[p.0 as int], p.1))
}

/// The fingerprint of item `x` under `lab`, less its own label: the multiset
/// of its labelled incidences.
pub open spec fn signature(lab: Seq<usize>, adj: Seq<Vec<(usize, usize)>>, x: int) -> Multiset<(usize, usize)> {
    labelled(lab, adj[x]@).to_multiset()
}

/// Every incidence names an item.
pub open spec fn incidences_ok(adj: Seq<Vec<(usize, usize)>>) -> bool {
    forall|x: int, k: int| 0 <= x < adj.len() && 0 <= k < adj[x]@.len() ==> (#[trigger] adj[x]@[k]).0 < adj.len()
}

/// Each label is the least item that has it.
pub open spec fn canonical(lab: Seq<usize>) -> bool {
    forall|x: int| 0 <= x < lab.len() ==> #[trigger] lab[x] <= x && lab[lab[x] as int] == lab[x]
}

/// Items with one label have the same initial kind and label.
pub open spec fn refines_initial(lab: Seq<usize>, initial: Seq<(bool, usize)>) -> bool {
    forall|x: int, y: int|
        0 <= x < lab.len() && 0 <= y < lab.len() && #[trigger] lab[x] == #[trigger] lab[y] ==> initial[x] == initial[y]
}

/// Items with one label have equal fingerprints.
pub open spec fn stable_fingerprints(lab: Seq<usize>, adj: Seq<Vec<(usize, usize)>>) -> bool {
    forall|x: int, y: int|
        0 <= x < lab.len() && 0 <= y < lab.len() && #[trigger] lab[x] == #[trigger] lab[y] ==> signature(lab, adj, x)
            == signature(lab, adj, y)
}

/// The items that are their own label.
pub open spec fn fixed(lab: Seq<usize>) -> Set<int> {
    Set::new(|x: int| 0 <= x < lab.len() && lab[x] == x)
}

/// The first labels: the least item with the same initial kind and label.
fn first_labels(initial: &Vec<(bool, usize)>) -> (r: Vec<usize>)
    ensures
        r@.len() == initial@.len(),
        forall|x: int| 0 <= x < r@.len() ==> #[trigger] r@[x] <= x && initial@[r@[x] as int] == initial@[x]
            && forall|y: int| 0 <= y < r@[x] ==> initial@[y] != initial@[x],
{
    let mut r: Vec<usize> = Vec::new();
    let mut x: usize = 0;
    while x < initial.len()
        invariant
            x <= initial@.len(),
            r@.len() == x,
            forall|z: int| 0 <= z < x ==> #[trigger] r@[z] <= z && initial@[r@[z] as int] == initial@[z]
                && forall|y: int| 0 <= y < r@[z] ==> initial@[y] != initial@[z],
        decreases initial@.len() - x,
    {
        let mut y: usize = 0;
        while !(initial[y].0 == initial[x].0 && initial[y].1 == initial[x].1)
            invariant
                x < initial@.len(),
                y <= x,
                forall|t: int| 0 <= t < y ==> initial@[t] != initial@[x as int],
            decreases x - y,
        {
            y = y + 1;
        }
        r.push(y);
        x = x + 1;
    }
    r
}

fn labelled_list(lab: &Vec<usize>, ps: &Vec<(usize, usize)>) -> (r: Vec<(usize, usize)>)
    requires
        forall|k: int| 0 <= k < ps@.len() ==> (#[trigger] ps@[k]).0 < lab@.len(),
    ensures
        r@ == labelled(lab@, ps@),
{
    let mut r: Vec<(usize, usize)> = Vec::new();
    let mut k: usize = 0;
    while k < ps.len()
        invariant
            forall|k: int| 0 <= k < ps@.len() ==> (#[trigger] ps@[k]).0 < lab@.len(),
            k <= ps@.len(),
            r@ == labelled(lab@, ps@.take(k as int)),
        decreases ps@.len() - k,
    {
        let (y, c) = ps[k];
        assert(ps@[k as int].0 < lab@.len());
        r.push((lab[y], c));
        assert(labelled(lab@, ps@.take(k + 1)) =~= labelled(lab@, ps@.take(k as int)).push((lab@[y as int], c)));
        k = k + 1;
    }
    assert(ps@.take(ps@.len() as int) =~= ps@);
    r
}

/// An item's key in a round: its label and its fingerprint.
pub open spec fn same_key(lab: Seq<usize>, adj: Seq<Vec<(usize, usize)>>, x: int, y: int) -> bool {
    lab[x] == lab[y] && signature(lab, adj, x) == signature(lab, adj, y)
}

/// One round: each item's new label is the least item with its key.
fn refine_round(lab: &Vec<usize>, adj: &Vec<Vec<(usize, usize)>>) -> (r: Vec<usize>)
    requires
        adj@.len() == lab@.len(),
        incidences_ok(adj@),
    ensures
        r@.len() == lab@.len(),
        forall|x: int| 0 <= x < r@.len() ==> #[trigger] r@[x] <= x && same_key(lab@, adj@, r@[x] as int, x)
            && forall|y: int| 0 <= y < r@[x] ==> !same_key(lab@, adj@, y, x),
{
    let n = lab.len();
    let mut r: Vec<usize> = Vec::new();
    let mut x: usize = 0;
    while x < n
        invariant
            n == lab@.len(),
            adj@.len() == n,
            incidences_ok(adj@),
            x <= n,
            r@.len() == x,
            forall|z: int| 0 <= z < x ==> #[trigger] r@[z] <= z && same_key(lab@, adj@, r@[z] as int, z)
                && forall|y: int| 0 <= y < r@[z] ==> !same_key(lab@, adj@, y, z),
        decreases n - x,
    {
        assert forall|k: int| 0 <= k < adj@[x as int]@.len() implies (#[trigger] adj@[x as int]@[k]).0 < lab@.len() by {}
        let sx = labelled_list(lab, &adj[x]);
        let mut y: usize = 0;
        loop
            invariant
                n == lab@.len(),
                adj@.len() == n,
                incidences_ok(adj@),
                x < n,
                y <= x,
                sx@ == labelled(lab@, adj@[x as int]@),
                forall|t: int| 0 <= t < y ==> !same_key(lab@, adj@, t, x as int),
            ensures
                y <= x,
                same_key(lab@, adj@, y as int, x as int),
                forall|t: int| 0 <= t < y ==> !same_key(lab@, adj@, t, x as int),
            decreases x - y,
        {
            if lab[y] == lab[x] {
                assert forall|k: int| 0 <= k < adj@[y as int]@.len() implies (#[trigger] adj@[y as int]@[k]).0 < lab@.len() by {}
                let sy = labelled_list(lab, &adj[y]);
                if same_multiset(&sy, &sx) {
                    break;
                }
            }
            y = y + 1;
        }
        r.push(y);
        x = x + 1;
    }
    r
}

/// `next` is the round after `lab` (see `refine_round`).
pub open spec fn round_of(lab: Seq<usize>, adj: Seq<Vec<(usize, usize)>>, next: Seq<usize>) -> bool {
    &&& next.len() == lab.len()
    &&& forall|x: int| 0 <= x < next.len() ==> #[trigger] next[x] <= x && same_key(lab, adj, next[x] as int, x)
        && forall|y: int| 0 <= y < next[x] ==> !same_key(lab, adj, y, x)
}

proof fn lemma_fixed_finite(lab: Seq<usize>)
    ensures
        fixed(lab).finite(),
        fixed(lab).len() <= lab.len(),
{
    vstd::set_lib::lemma_int_range(0, lab.len() as int);
    assert(fixed(lab).subset_of(vstd::set_lib::set_int_range(0, lab.len() as int)));
    vstd::set_lib::lemma_len_subset(fixed(lab), vstd::set_lib::set_int_range(0, lab.len() as int));
}

proof fn lemma_round(lab: Seq<usize>, adj: Seq<Vec<(usize, usize)>>, next: Seq<usize>)
    requires
        canonical(lab),
        round_of(lab, adj, next),
    ensures
        canonical(next),
        forall|x: int, y: int| 0 <= x < next.len() && 0 <= y < next.len() ==> (#[trigger] next[x] == #[trigger] next[y]) == same_key(lab, adj, x, y),
        fixed(lab).subset_of(fixed(next)),
        next != lab ==> fixed(lab).len() < fixed(next).len(),
{
    assert forall|x: int, y: int| 0 <= x < next.len() && 0 <= y < next.len() implies (#[trigger] next[x] == #[trigger] next[y]) == same_key(lab, adj, x, y) by {
        if same_key(lab, adj, x, y) {
            if next[x] < next[y] {
                assert(same_key(lab, adj, next[x] as int, y));
            } else if next[y] < next[x] {
                assert(same_key(lab, adj, next[y] as int, x));
            }
        }
        if next[x] == next[y] {
            assert(same_key(lab, adj, next[x] as int, x) && same_key(lab, adj, next[y] as int, y));
        }
    }
    assert forall|x: int| 0 <= x < next.len() implies #[trigger] next[x] <= x && next[next[x] as int] == next[x] by {
        let z = next[x] as int;
        assert(same_key(lab, adj, z, x));
        assert(next[z] == next[x]);
    }
    assert forall|r: int| fixed(lab).contains(r) implies fixed(next).contains(r) by {
        let z = next[r] as int;
        assert(same_key(lab, adj, z, r));
        assert(lab[z] <= z);
    }
    lemma_fixed_finite(lab);
    lemma_fixed_finite(next);
    if next != lab {
        assert(!(next =~= lab));
        let x = choose|x: int| 0 <= x < next.len() && next[x] != lab[x];
        let z = next[x] as int;
        assert(same_key(lab, adj, z, x));
        assert(next[z] == next[x]);
        assert(fixed(next).contains(z));
        assert(!fixed(lab).contains(z));
        assert(fixed(lab).subset_of(fixed(next).remove(z)));
        vstd::set_lib::lemma_len_subset(fixed(lab), fixed(next).remove(z));
    }
}

proof fn lemma_map_multiset(s1: Seq<(usize, usize)>, s2: Seq<(usize, usize)>, f: spec_fn((usize, usize)) -> (usize, usize))
    requires
        s1.to_multiset() == s2.to_multiset(),
    ensures
        s1.map_values(f).to_multiset() == s2.map_values(f).to_multiset(),
    decreases s1.len(),
{
    broadcast use vstd::seq_lib::to_multiset_remove;
    vstd::seq_lib::to_multiset_len(s1);
    vstd::seq_lib::to_multiset_len(s2);
    if s1.len() == 0 {
        assert(s2.len() == 0);
        assert(s1.map_values(f) =~= s2.map_values(f));
    } else {
        let a = s1.last();
        let d1 = s1.drop_last();
        assert(s1 =~= d1.push(a));
        assert(s1.to_multiset().contains(a));
        assert(s2.to_multiset().contains(a));
        let i = choose|i: int| 0 <= i < s2.len() && s2[i] == a;
        let d2 = s2.remove(i);
        assert(d2.to_multiset() == s2.to_multiset().remove(a));
        assert(d1.to_multiset() =~= s1.to_multiset().remove(a));
        lemma_map_multiset(d1, d2, f);
        assert(s1.map_values(f) =~= d1.map_values(f).push(f(a)));
        assert(s2.map_values(f).remove(i) =~= d2.map_values(f));
        assert(s2.map_values(f).remove(i).to_multiset() == s2.map_values(f).to_multiset().remove(f(a)));
        assert(s2.map_values(f).to_multiset().contains(f(a))) by {
            assert(s2.map_values(f)[i] == f(a));
        }
        assert(s2.map_values(f).to_multiset() =~= s2.map_values(f).to_multiset().remove(f(a)).insert(f(a)));
    }
}

/// Items with one label under `fine` have one label under `coarse`.
pub open spec fn finer_than(fine: Seq<usize>, coarse: Seq<usize>) -> bool {
    forall|x: int, y: int|
        0 <= x < fine.len() && 0 <= y < fine.len() && #[trigger] fine[x] == #[trigger] fine[y] ==> coarse[x] == coarse[y]
}

proof fn lemma_coarser_signature(fine: Seq<usize>, coarse: Seq<usize>, adj: Seq<Vec<(usize, usize)>>, x: int, y: int)
    requires
        fine.len() == coarse.len(),
        adj.len() == fine.len(),
        incidences_ok(adj),
        finer_than(fine, coarse),
        0 <= x < adj.len(),
        0 <= y < adj.len(),
        signature(fine, adj, x) == signature(fine, adj, y),
    ensures
        signature(coarse, adj, x) == signature(coarse, adj, y),
{
    let n = fine.len();
    let f = |p: (usize, usize)| {
        let a = choose|a: int| 0 <= a < n && fine[a] == p.0;
        (coarse[a], p.1)
    };
    assert forall|z: int| 0 <= z < adj.len() implies labelled(coarse, #[trigger] adj[z]@) == labelled(fine, adj[z]@).map_values(f) by {
        assert forall|k: int| 0 <= k < adj[z]@.len() implies labelled(coarse, adj[z]@)[k] == labelled(fine, adj[z]@).map_values(f)[k] by {
            let t = adj[z]@[k].0 as int;
            assert(0 <= t < n);
            let a = choose|a: int| 0 <= a < n && fine[a] == fine[t];
            assert(fine[a] == fine[t]);
        }
        assert(labelled(coarse, adj[z]@) =~= labelled(fine, adj[z]@).map_values(f));
    }
    lemma_map_multiset(labelled(fine, adj[x]@), labelled(fine, adj[y]@), f);
    assert(labelled(coarse, adj[x]@) == labelled(fine, adj[x]@).map_values(f));
    assert(labelled(coarse, adj[y]@) == labelled(fine, adj[y]@).map_values(f));
}

fn same_labels(a: &Vec<usize>, b: &Vec<usize>) -> (r: bool)
    requires
        a@.len() == b@.len(),
    ensures
        r == (a@ == b@),
{
    let mut k: usize = 0;
    while k < a.len()
        invariant
            a@.len() == b@.len(),
            k <= a@.len(),
            forall|t: int| 0 <= t < k ==> a@[t] == b@[t],
        decreases a@.len() - k,
    {
        if a[k] != b[k] {
            return false;
        }
        k = k + 1;
    }
    assert(a@ =~= b@);
    true
}

/// Refines the labels of the items (the constraints and the signals of all
/// the circuits, numbered together) by their fingerprints until no class
/// splits. `initial[x]` is item `x`'s kind (constraint or signal) and initial
/// label; `incidences[x]` lists the items `x` is incident to, each with the
/// characteristic of the incidence.
///
/// The result labels each item by the least item of its class: items with
/// one label had the same initial kind and label, and have equal
/// fingerprints (the same multiset of neighbour labels with
/// characteristics).
pub fn iterated_refinement(initial: &Vec<(bool, usize)>, incidences: &Vec<Vec<(usize, usize)>>) -> (r: Vec<usize>)
    requires
        incidences@.len() == initial@.len(),
        incidences_ok(incidences@),
    ensures
        r@.len() == initial@.len(),
        canonical(r@),
        refines_initial(r@, initial@),
        stable_fingerprints(r@, incidences@),
        forall|l: Seq<usize>|
            l.len() == initial@.len() && refines_initial(l, initial@) && #[trigger] stable_fingerprints(l, incidences@)
                ==> finer_than(l, r@),
{
    let mut lab = first_labels(initial);
    proof {
        assert forall|x: int| 0 <= x < lab@.len() implies #[trigger] lab@[x] <= x && lab@[lab@[x] as int] == lab@[x] by {
            let z = lab@[x] as int;
            if lab@[z] < z {
                assert(initial@[lab@[z] as int] == initial@[z]);
            }
        }
        assert forall|x: int, y: int| 0 <= x < lab@.len() && 0 <= y < lab@.len() && #[trigger] lab@[x] == #[trigger] lab@[y]
            implies initial@[x] == initial@[y] by {
            assert(initial@[lab@[x] as int] == initial@[x]);
        }
        assert forall|l: Seq<usize>|
            l.len() == initial@.len() && refines_initial(l, initial@) && #[trigger] stable_fingerprints(l, incidences@)
            implies finer_than(l, lab@) by {
            assert forall|x: int, y: int| 0 <= x < l.len() && 0 <= y < l.len() && #[trigger] l[x] == #[trigger] l[y]
                implies lab@[x] == lab@[y] by {
                assert(initial@[x] == initial@[y]);
                if lab@[x] < lab@[y] {
                    assert(initial@[lab@[x] as int] == initial@[y]);
                } else if lab@[y] < lab@[x] {
                    assert(initial@[lab@[y] as int] == initial@[x]);
                }
            }
        }
        lemma_fixed_finite(lab@);
    }
    loop
        invariant
            lab@.len() == initial@.len(),
            incidences@.len() == initial@.len(),
            incidences_ok(incidences@),
            canonical(lab@),
            refines_initial(lab@, initial@),
            forall|l: Seq<usize>|
                l.len() == initial@.len() && refines_initial(l, initial@) && #[trigger] stable_fingerprints(l, incidences@)
                    ==> finer_than(l, lab@),
        ensures
            lab@.len() == initial@.len(),
            canonical(lab@),
            refines_initial(lab@, initial@),
            stable_fingerprints(lab@, incidences@),
            forall|l: Seq<usize>|
                l.len() == initial@.len() && refines_initial(l, initial@) && #[trigger] stable_fingerprints(l, incidences@)
                    ==> finer_than(l, lab@),
        decreases lab@.len() - fixed(lab@).len(),
    {
        let next = refine_round(&lab, incidences);
        proof {
            lemma_round(lab@, incidences@, next@);
            lemma_fixed_finite(lab@);
            lemma_fixed_finite(next@);
        }
        if same_labels(&next, &lab) {
            proof {
                assert forall|x: int, y: int| 0 <= x < lab@.len() && 0 <= y < lab@.len() && #[trigger] lab@[x] == #[trigger] lab@[y]
                    implies signature(lab@, incidences@, x) == signature(lab@, incidences@, y) by {
                    assert(next@[x] == next@[y]);
                }
            }
            break;
        }
        proof {
            assert forall|x: int, y: int| 0 <= x < next@.len() && 0 <= y < next@.len() && #[trigger] next@[x] == #[trigger] next@[y]
                implies initial@[x] == initial@[y] by {
                assert(lab@[x] == lab@[y]);
            }
            assert forall|l: Seq<usize>|
                l.len() == initial@.len() && refines_initial(l, initial@) && #[trigger] stable_fingerprints(l, incidences@)
                implies finer_than(l, next@) by {
                assert forall|x: int, y: int| 0 <= x < l.len() && 0 <= y < l.len() && #[trigger] l[x] == #[trigger] l[y]
                    implies next@[x] == next@[y] by {
                    assert(finer_than(l, lab@));
                    assert(lab@[x] == lab@[y]);
                    assert(finer_than(l, lab@));
                    lemma_coarser_signature(l, lab@, incidences@, x, y);
                    assert(same_key(lab@, incidences@, x, y));
                }
            }
        }
        lab = next;
    }
    lab
}

// ---------------------------------------------------------------------------
// Renaming the labels of a round.
// ---------------------------------------------------------------------------

/// The number of items of the first class labelled `l`, if any.
pub open spec fn class_size(cs: Seq<(usize, Seq<usize>)>, l: usize) -> Option<nat> {
    match key_index(cs, l) {
        Some(k) => Some(cs[k].1.len()),
        None => None,
    }
}

/// Label `l` is singular for circuit `g`: its class there holds one item;
/// with `strict`, its class holds one item in every circuit.
pub open spec fn singular(classes: Seq<Seq<(usize, Seq<usize>)>>, g: int, l: usize, strict: bool) -> bool {
    if strict {
        forall|h: int| 0 <= h < classes.len() ==> class_size(#[trigger] classes[h], l) == Some(1nat)
    } else {
        class_size(classes[g], l) == Some(1nat)
    }
}

/// The circuit and label of each class of the first `g` circuits, circuit
/// after circuit.
pub open spec fn entries(classes: Seq<Seq<(usize, Seq<usize>)>>, g: nat) -> Seq<(int, usize)>
    decreases g,
{
    if g == 0 || g > classes.len() {
        Seq::empty()
    } else {
        entries(classes, (g - 1) as nat) + classes[g - 1].map_values(|c: (usize, Seq<usize>)| ((g - 1) as int, c.0))
    }
}

/// The singular labels among `es`, in the order they are met, each once.
pub open spec fn singular_order(classes: Seq<Seq<(usize, Seq<usize>)>>, strict: bool, es: Seq<(int, usize)>) -> Seq<usize>
    decreases es.len(),
{
    if es.len() == 0 {
        Seq::empty()
    } else {
        let prev = singular_order(classes, strict, es.drop_last());
        let e = es.last();
        if singular(classes, e.0, e.1, strict) && !prev.contains(e.1) {
            prev.push(e.1)
        } else {
            prev
        }
    }
}

proof fn lemma_singular_order(classes: Seq<Seq<(usize, Seq<usize>)>>, strict: bool, es: Seq<(int, usize)>)
    ensures
        no_dups(singular_order(classes, strict, es)),
        singular_order(classes, strict, es).len() <= es.len(),
        forall|i: int| 0 <= i < es.len() && singular(classes, es[i].0, es[i].1, strict) ==> singular_order(classes, strict, es).contains(#[trigger] es[i].1),
    decreases es.len(),
{
    if es.len() > 0 {
        let d = es.drop_last();
        lemma_singular_order(classes, strict, d);
        let prev = singular_order(classes, strict, d);
        assert forall|i: int| 0 <= i < es.len() && singular(classes, es[i].0, es[i].1, strict) implies singular_order(classes, strict, es).contains(#[trigger] es[i].1) by {
            if i < d.len() {
                assert(d[i] == es[i]);
                assert(prev.contains(d[i].1));
                if singular(classes, es.last().0, es.last().1, strict) && !prev.contains(es.last().1) {
                    let j = choose|j: int| 0 <= j < prev.len() && prev[j] == d[i].1;
                    assert(prev.push(es.last().1)[j] == d[i].1);
                }
            } else {
                if singular(classes, es.last().0, es.last().1, strict) && !prev.contains(es.last().1) {
                    assert(prev.push(es.last().1)[prev.len() as int] == es.last().1);
                }
            }
        }
    }
}

/// Whether label `l` is singular for circuit `g` (see [`singular`]).
fn is_singular(classes: &Vec<Vec<(usize, Vec<usize>)>>, g: usize, l: usize, strict: bool) -> (r: bool)
    requires
        g < classes@.len(),
    ensures
        r == singular(cviews(classes@), g as int, l, strict),
{
    let ghost cv = cviews(classes@);
    assert(cv.len() == classes@.len());
    if strict {
        let mut h: usize = 0;
        while h < classes.len()
            invariant
                strict,
                g < classes@.len(),
                cv == cviews(classes@),
                cv.len() == classes@.len(),
                h <= classes@.len(),
                forall|t: int| 0 <= t < h ==> class_size(#[trigger] cv[t], l) == Some(1nat),
            decreases classes@.len() - h,
        {
            assert(cv[h as int] == cview(classes@[h as int]@));
            proof {
                crate::tags::lemma_key_index(classes@[h as int]@, l);
                crate::tags::lemma_key_index(cv[h as int], l);
                lemma_key_index_view(classes@[h as int]@, l);
            }
            match find_entry(&classes[h], l) {
                Some(k) => {
                    assert(cview(classes@[h as int]@)[k as int].1 == classes@[h as int]@[k as int].1@);
                    if classes[h][k].1.len() != 1 {
                        assert(class_size(cv[h as int], l) != Some(1nat));
                        assert(!singular(cv, g as int, l, strict));
                        return false;
                    }
                },
                None => {
                    assert(class_size(cv[h as int], l) != Some(1nat));
                    assert(!singular(cv, g as int, l, strict));
                    return false;
                },
            }
            h = h + 1;
        }
        assert(cv.len() == classes@.len());
        true
    } else {
        assert(cv[g as int] == cview(classes@[g as int]@));
        proof {
            lemma_key_index_view(classes@[g as int]@, l);
            crate::tags::lemma_key_index(classes@[g as int]@, l);
        }
        match find_entry(&classes[g], l) {
            Some(k) => {
                assert(cview(classes@[g as int]@)[k as int].1 == classes@[g as int]@[k as int].1@);
                classes[g][k].1.len() == 1
            },
            None => false,
        }
    }
}

proof fn lemma_key_index_view(cs: Seq<(usize, Vec<usize>)>, l: usize)
    ensures
        key_index(cview(cs), l) == key_index(cs, l),
    decreases cs.len(),
{
    if cs.len() > 0 {
        lemma_key_index_view(cs.drop_last(), l);
        assert(cview(cs).drop_last() =~= cview(cs.drop_last()));
    }
}

/// The entries of the first `g` circuits and the first `k` classes of
/// circuit `g`.
pub open spec fn entries_at(classes: Seq<Seq<(usize, Seq<usize>)>>, g: int, k: int) -> Seq<(int, usize)> {
    entries(classes, g as nat) + classes[g].take(k).map_values(|c: (usize, Seq<usize>)| (g, c.0))
}

proof fn lemma_entries_grow(classes: Seq<Seq<(usize, Seq<usize>)>>, g: nat, n: nat)
    requires
        g <= n <= classes.len(),
    ensures
        entries(classes, g).len() <= entries(classes, n).len(),
        forall|i: int| 0 <= i < entries(classes, g).len() ==> #[trigger] entries(classes, n)[i] == entries(classes, g)[i],
    decreases n - g,
{
    if g < n {
        lemma_entries_grow(classes, g, (n - 1) as nat);
    }
}

proof fn lemma_entry_at(classes: Seq<Seq<(usize, Seq<usize>)>>, g: int, k: int)
    requires
        0 <= g < classes.len(),
        0 <= k < classes[g].len(),
    ensures
        entries(classes, classes.len()).len() > entries(classes, g as nat).len() + k,
        entries(classes, classes.len())[entries(classes, g as nat).len() + k] == (g, classes[g][k].0),
{
    lemma_entries_grow(classes, (g + 1) as nat, classes.len());
    assert(entries(classes, (g + 1) as nat)[entries(classes, g as nat).len() + k] == (g, classes[g][k].0));
}

/// Renames the labels of a round. A label singular for its circuit (see
/// [`singular`]) gets `num_singular` plus its place among the singular
/// labels in the order they are met (circuit after circuit, class after
/// class); any other label is moved past all of them. Returns the classes,
/// with the same items, under their new labels, and the number of singular
/// labels so far.
pub fn relabel_round(classes: &Vec<Vec<(usize, Vec<usize>)>>, num_singular: usize, strict: bool) -> (r: (
    Vec<Vec<(usize, Vec<usize>)>>,
    usize,
))
    requires
        num_singular + entries(cviews(classes@), classes@.len()).len() <= usize::MAX,
        forall|g: int, k: int|
            0 <= g < classes@.len() && 0 <= k < classes@[g]@.len() ==> (#[trigger] classes@[g]@[k]).0 + num_singular
                + entries(cviews(classes@), classes@.len()).len() <= usize::MAX,
    ensures
        no_dups(singular_order(cviews(classes@), strict, entries(cviews(classes@), classes@.len()))),
        r.1 == num_singular + singular_order(cviews(classes@), strict, entries(cviews(classes@), classes@.len())).len(),
        r.0@.len() == classes@.len(),
        forall|g: int| 0 <= g < classes@.len() ==> (#[trigger] r.0@[g])@.len() == classes@[g]@.len(),
        forall|g: int, k: int| 0 <= g < classes@.len() && 0 <= k < classes@[g]@.len() ==> {
            let l = classes@[g]@[k].0;
            let order = singular_order(cviews(classes@), strict, entries(cviews(classes@), classes@.len()));
            &&& (#[trigger] r.0@[g]@[k]).1@ == classes@[g]@[k].1@
            &&& singular(cviews(classes@), g, l, strict) ==> num_singular <= r.0@[g]@[k].0 < r.1 && order[r.0@[g]@[k].0
                - num_singular] == l
            &&& !singular(cviews(classes@), g, l, strict) ==> r.0@[g]@[k].0 == l + r.1
        },
{
    let ghost cv = cviews(classes@);
    let ghost n = classes@.len();
    let ghost all = entries(cv, n);
    proof {
        assert(cv.len() == n);
        lemma_singular_order(cv, strict, all);
    }
    let mut order: Vec<usize> = Vec::new();
    let mut g: usize = 0;
    while g < classes.len()
        invariant
            cv == cviews(classes@),
            cv.len() == classes@.len(),
            g <= classes@.len(),
            order@ == singular_order(cv, strict, entries(cv, g as nat)),
        decreases classes@.len() - g,
    {
        let cs = &classes[g];
        assert(cv[g as int] == cview(cs@));
        let mut k: usize = 0;
        assert(entries_at(cv, g as int, 0) =~= entries(cv, g as nat));
        while k < cs.len()
            invariant
                cv == cviews(classes@),
                cv.len() == classes@.len(),
                g < classes@.len(),
                *cs == classes@[g as int],
                cv[g as int] == cview(cs@),
                k <= cs@.len(),
                order@ == singular_order(cv, strict, entries_at(cv, g as int, k as int)),
            decreases cs@.len() - k,
        {
            let l = cs[k].0;
            let ghost es = entries_at(cv, g as int, k as int);
            assert(entries_at(cv, g as int, k + 1) =~= es.push((g as int, l)));
            assert(es.push((g as int, l)).drop_last() =~= es);
            if is_singular(classes, g, l, strict) && !contains_usize(&order, l) {
                order.push(l);
            }
            k = k + 1;
        }
        assert(entries_at(cv, g as int, cs@.len() as int) =~= entries(cv, (g + 1) as nat));
        g = g + 1;
    }
    let ghost ord = order@;
    assert(ord == singular_order(cv, strict, all));
    assert(ord.len() <= all.len());
    let total = num_singular + order.len();
    let mut out: Vec<Vec<(usize, Vec<usize>)>> = Vec::new();
    let mut g: usize = 0;
    while g < classes.len()
        invariant
            cv == cviews(classes@),
            cv.len() == classes@.len(),
            n == classes@.len(),
            all == entries(cv, n),
            ord == singular_order(cv, strict, all),
            order@ == ord,
            no_dups(ord),
            ord.len() <= all.len(),
            total == num_singular + ord.len(),
            forall|i: int| 0 <= i < all.len() && singular(cv, all[i].0, all[i].1, strict) ==> ord.contains(#[trigger] all[i].1),
            forall|g: int, k: int|
                0 <= g < classes@.len() && 0 <= k < classes@[g]@.len() ==> (#[trigger] classes@[g]@[k]).0 + num_singular
                    + all.len() <= usize::MAX,
            g <= classes@.len(),
            out@.len() == g,
            forall|h: int| 0 <= h < g ==> (#[trigger] out@[h])@.len() == classes@[h]@.len(),
            forall|h: int, k: int| 0 <= h < g && 0 <= k < classes@[h]@.len() ==> {
                let l = classes@[h]@[k].0;
                &&& (#[trigger] out@[h]@[k]).1@ == classes@[h]@[k].1@
                &&& singular(cv, h, l, strict) ==> num_singular <= out@[h]@[k].0 < total && ord[out@[h]@[k].0 - num_singular] == l
                &&& !singular(cv, h, l, strict) ==> out@[h]@[k].0 == l + total
            },
        decreases classes@.len() - g,
    {
        let cs = &classes[g];
        let mut row: Vec<(usize, Vec<usize>)> = Vec::new();
        let mut k: usize = 0;
        while k < cs.len()
            invariant
                cv == cviews(classes@),
                cv.len() == classes@.len(),
                n == classes@.len(),
                all == entries(cv, n),
                ord == singular_order(cv, strict, all),
                order@ == ord,
                ord.len() <= all.len(),
                total == num_singular + ord.len(),
                forall|i: int| 0 <= i < all.len() && singular(cv, all[i].0, all[i].1, strict) ==> ord.contains(#[trigger] all[i].1),
                forall|g: int, k: int|
                    0 <= g < classes@.len() && 0 <= k < classes@[g]@.len() ==> (#[trigger] classes@[g]@[k]).0 + num_singular
                        + all.len() <= usize::MAX,
                g < classes@.len(),
                *cs == classes@[g as int],
                k <= cs@.len(),
                row@.len() == k,
                forall|t: int| 0 <= t < k ==> {
                    let l = classes@[g as int]@[t].0;
                    &&& (#[trigger] row@[t]).1@ == classes@[g as int]@[t].1@
                    &&& singular(cv, g as int, l, strict) ==> num_singular <= row@[t].0 < total && ord[row@[t].0 - num_singular] == l
                    &&& !singular(cv, g as int, l, strict) ==> row@[t].0 == l + total
                },
            decreases cs@.len() - k,
        {
            let l = cs[k].0;
            assert(classes@[g as int]@[k as int].0 == l);
            let label = if is_singular(classes, g, l, strict) {
                proof {
                    lemma_entry_at(cv, g as int, k as int);
                    assert(cv[g as int][k as int].0 == l);
                    let i = entries(cv, g as nat).len() + k;
                    assert(all[i] == (g as int, l));
                    assert(ord.contains(all[i].1));
                }
                let mut j: usize = 0;
                while order[j] != l
                    invariant
                        order@ == ord,
                        exists|t: int| j <= t < ord.len() && ord[t] == l,
                        j < order.len(),
                        forall|t: int| 0 <= t < j ==> ord[t] != l,
                    decreases ord.len() - j,
                {
                    j = j + 1;
                }
                num_singular + j
            } else {
                l + total
            };
            let members = crate::resolve::copy_ids(&cs[k].1);
            row.push((label, members));
            k = k + 1;
        }
        out.push(row);
        g = g + 1;
    }
    (out, total)
}

} // verus!
