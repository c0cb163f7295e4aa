//! Guided clustering: the constraints of a recipient circuit are placed, in
//! rounds, into the clusters of a guide clustering, each with the cluster
//! it shares the most signals with.
use vstd::prelude::*;
use crate::options::{HybridClusteringMethodOptions, TiebreakingStrategy};
use crate::strings::add_all_unique;
use crate::resolve::id_lists;
use crate::mixed_graph::contains_usize;
use crate::text::{decimal, push_char, push_decimal, push_str, string_from};

verus! {

/// A cluster of the guide: its id, its signals, and the guide constraints
/// it holds.
pub struct GuideCluster {
    pub id: usize,
    pub signals: Vec<usize>,
    pub constraints: Vec<usize>,
}

/// The number of `atom`'s signals that `s` holds.
pub open spec fn common(s: Seq<usize>, atom: Seq<usize>) -> nat
    decreases atom.len(),
{
    if atom.len() == 0 {
        0
    } else {
        common(s, atom.drop_last()) + if s.contains(atom.last()) {
            1nat
        } else {
            0nat
        }
    }
}

/// Among the first `n` clusters sharing a signal with `atom`, the one that
/// shares the most, the smallest id among equals.
pub open spec fn best(sigs: Seq<Seq<usize>>, ids: Seq<usize>, atom: Seq<usize>, n: nat) -> Option<usize>
    decreases n,
{
    if n == 0 {
        None
    } else {
        let prev = best(sigs, ids, atom, (n - 1) as nat);
        let k = (n - 1) as usize;
        let c = common(sigs[k as int], atom);
        if c == 0 {
            prev
        } else {
            match prev {
                None => Some(k),
                Some(b) => {
                    let cb = common(sigs[b as int], atom);
                    if c > cb || (c == cb && ids[k as int] < ids[b as int]) {
                        Some(k)
                    } else {
                        prev
                    }
                },
            }
        }
    }
}

/// The cluster chosen for a constraint shares the most of its signals, at
/// least one, and among the clusters that share as many it has the smallest
/// id; no cluster is chosen when none shares a signal.
pub proof fn law_best_shares_most_then_smallest_id(sigs: Seq<Seq<usize>>, ids: Seq<usize>, atom: Seq<usize>, n: nat)
    requires
        n <= sigs.len(),
        n <= ids.len(),
        n <= usize::MAX,
    ensures
        match best(sigs, ids, atom, n) {
            None => forall|k: int| 0 <= k < n ==> common(#[trigger] sigs[k], atom) == 0,
            Some(b) => {
                &&& b < n
                &&& common(sigs[b as int], atom) > 0
                &&& forall|k: int| 0 <= k < n ==> common(#[trigger] sigs[k], atom) <= common(sigs[b as int], atom)
                &&& forall|k: int| 0 <= k < n && common(#[trigger] sigs[k], atom) == common(sigs[b as int], atom) ==> ids[b as int] <= ids[k]
            },
        },
    decreases n,
{
    if n > 0 {
        law_best_shares_most_then_smallest_id(sigs, ids, atom, (n - 1) as nat);
        let prev = best(sigs, ids, atom, (n - 1) as nat);
        let k = (n - 1) as int;
        let c = common(sigs[k], atom);
        if c == 0 {
            assert(best(sigs, ids, atom, n) == prev);
        } else {
            match prev {
                None => {
                    assert(best(sigs, ids, atom, n) == Some(k as usize));
                },
                Some(b) => {
                    let cb = common(sigs[b as int], atom);
                    if c > cb || (c == cb && ids[k] < ids[b as int]) {
                        assert(best(sigs, ids, atom, n) == Some(k as usize));
                        assert forall|j: int| 0 <= j < n && common(#[trigger] sigs[j], atom) == c implies ids[k] <= ids[j] by {
                            if j < k {
                                assert(common(sigs[j], atom) <= cb);
                            }
                        }
                    } else {
                        assert(best(sigs, ids, atom, n) == prev);
                    }
                },
            }
        }
    }
}

/// Where the placement stands: the signals each cluster holds, the cluster
/// each constraint was placed in, and the constraints of each cluster in the
/// order they were placed.
#[verifier::ext_equal]
pub struct Placement {
    pub sigs: Seq<Seq<usize>>,
    pub placed: Seq<Option<usize>>,
    pub members: Seq<Seq<usize>>,
}

/// The cluster each constraint not yet placed goes to this round.
pub open spec fn choices(st: Placement, ids: Seq<usize>, atoms: Seq<Seq<usize>>) -> Seq<Option<usize>> {
    Seq::new(
        atoms.len(),
        |i: int| if st.placed[i] is Some {
            None
        } else {
            best(st.sigs, ids, atoms[i], st.sigs.len())
        },
    )
}

/// In a round, a constraint not yet placed goes to a cluster that shares the
/// most of its signals, the smallest id among equals, and to none when no
/// cluster shares one.
pub proof fn law_choice_shares_most_then_smallest_id(st: Placement, ids: Seq<usize>, atoms: Seq<Seq<usize>>, i: int)
    requires
        0 <= i < atoms.len(),
        st.placed.len() == atoms.len(),
        st.sigs.len() <= ids.len(),
        st.sigs.len() <= usize::MAX,
        st.placed[i] is None,
    ensures
        match choices(st, ids, atoms)[i] {
            None => forall|k: int| 0 <= k < st.sigs.len() ==> common(#[trigger] st.sigs[k], atoms[i]) == 0,
            Some(b) => {
                &&& b < st.sigs.len()
                &&& common(st.sigs[b as int], atoms[i]) > 0
                &&& forall|k: int| 0 <= k < st.sigs.len() ==> common(#[trigger] st.sigs[k], atoms[i]) <= common(st.sigs[b as int], atoms[i])
                &&& forall|k: int| 0 <= k < st.sigs.len() && common(#[trigger] st.sigs[k], atoms[i]) == common(st.sigs[b as int], atoms[i])
                    ==> ids[b as int] <= ids[k]
            },
        },
{
    law_best_shares_most_then_smallest_id(st.sigs, ids, atoms[i], st.sigs.len());
}

/// The placement after the first `i` choices, in order of constraint.
pub open spec fn apply(st: Placement, atoms: Seq<Seq<usize>>, ch: Seq<Option<usize>>, i: nat) -> Placement
    decreases i,
{
    if i == 0 {
        st
    } else {
        let s = apply(st, atoms, ch, (i - 1) as nat);
        match ch[i - 1] {
            None => s,
            Some(k) => Placement {
                sigs: s.sigs.update(k as int, add_all_unique(s.sigs[k as int], atoms[i - 1])),
                placed: s.placed.update(i - 1, Some(k)),
                members: s.members.update(k as int, s.members[k as int].push((i - 1) as usize)),
            },
        }
    }
}

pub open spec fn any_choice(ch: Seq<Option<usize>>) -> bool {
    exists|i: int| 0 <= i < ch.len() && #[trigger] ch[i] is Some
}

/// Rounds until one places nothing (at most `fuel` of them).
pub open spec fn rounds(st: Placement, ids: Seq<usize>, atoms: Seq<Seq<usize>>, fuel: nat) -> Placement
    decreases fuel,
{
    if fuel == 0 {
        st
    } else {
        let ch = choices(st, ids, atoms);
        if !any_choice(ch) {
            st
        } else {
            rounds(apply(st, atoms, ch, atoms.len()), ids, atoms, (fuel - 1) as nat)
        }
    }
}

/// The starting placement: each cluster with the guide's signals, nothing
/// placed.
pub open spec fn start(clusters: Seq<GuideCluster>, n_atoms: nat) -> Placement {
    Placement {
        sigs: clusters.map_values(|c: GuideCluster| c.signals@),
        placed: Seq::new(n_atoms, |i: int| None),
        members: Seq::new(clusters.len(), |k: int| Seq::empty()),
    }
}

pub open spec fn cluster_ids(clusters: Seq<GuideCluster>) -> Seq<usize> {
    clusters.map_values(|c: GuideCluster| c.id)
}

/// The placement once no round places anything more.
pub open spec fn final_placement(clusters: Seq<GuideCluster>, atoms: Seq<Seq<usize>>) -> Placement {
    rounds(start(clusters, atoms.len()), cluster_ids(clusters), atoms, atoms.len())
}

/// The constraints left unplaced, in increasing order.
pub open spec fn unplaced(placed: Seq<Option<usize>>, n: nat) -> Seq<usize>
    decreases n,
{
    if n == 0 || n > placed.len() {
        Seq::empty()
    } else {
        unplaced(placed, (n - 1) as nat) + if placed[n - 1] is None {
            seq![(n - 1) as usize]
        } else {
            Seq::empty()
        }
    }
}

/// The first cluster, from position `k` on, that received nothing.
pub open spec fn first_empty(members: Seq<Seq<usize>>, k: nat) -> Option<int>
    decreases members.len() - k,
{
    if k >= members.len() {
        None
    } else if members[k as int].len() == 0 {
        Some(k as int)
    } else {
        first_empty(members, k + 1)
    }
}

/// A list of ids as the `{:?}` of a vector prints it: `[1, 2, 3]`.
pub open spec fn debug_list(v: Seq<usize>) -> Seq<char> {
    seq!['['] + crate::resolved_json::joined(crate::resolved_json::decimals(v)) + seq![']']
}

pub open spec fn uncovered_message(total: nat, missing: Seq<usize>) -> Seq<char> {
    "Guided clustering covered only "@ + decimal((total - missing.len()) as nat) + " of "@ + decimal(total)
        + " recipient constraints: "@ + debug_list(missing.take(if missing.len() > 10 { 10 } else { missing.len() as int }))
        + (if missing.len() > 10 {
        " (and "@ + decimal((missing.len() - 10) as nat) + " more)"@
    } else {
        Seq::empty()
    }) + " share no signal with any cluster of the guide, so nothing covers them"@
}

pub open spec fn empty_cluster_message(id: usize, guide_constraints: Seq<usize>) -> Seq<char> {
    "Recipient cluster "@ + decimal(id as nat) + " is empty; Corresponding guide cluster has atoms "@ + debug_list(guide_constraints)
}

/// What [`guided_clustering`] returns: every recipient constraint placed,
/// each cluster of the guide with the constraints it received; or, naming
/// them, the constraints no cluster covers, or else the first cluster that
/// received nothing.
pub open spec fn guided_outcome(
    clusters: Seq<GuideCluster>,
    atoms: Seq<Seq<usize>>,
    r: Result<Seq<(usize, Seq<usize>)>, Seq<char>>,
) -> bool {
    let st = final_placement(clusters, atoms);
    let missing = unplaced(st.placed, atoms.len());
    if missing.len() > 0 {
        r == Err::<Seq<(usize, Seq<usize>)>, Seq<char>>(uncovered_message(atoms.len(), missing))
    } else {
        match first_empty(st.members, 0) {
            Some(k) => r == Err::<Seq<(usize, Seq<usize>)>, Seq<char>>(
                empty_cluster_message(clusters[k].id, clusters[k].constraints@),
            ),
            None => r == Ok::<Seq<(usize, Seq<usize>)>, Seq<char>>(
                Seq::new(clusters.len(), |k: int| (clusters[k].id, st.members[k])),
            ),
        }
    }
}

// ---------------------------------------------------------------------------
// Computing it.
// ---------------------------------------------------------------------------

/// The number of `atom`'s signals that `s` holds (see [`common`]).
fn common_count(s: &Vec<usize>, atom: &Vec<usize>) -> (r: usize)
    ensures
        r == common(s@, atom@),
{
    let mut c: usize = 0;
    let mut j: usize = 0;
    assert(atom@.take(0) =~= Seq::<usize>::empty());
    while j < atom.len()
        invariant
            j <= atom@.len(),
            c == common(s@, atom@.take(j as int)),
            c <= j,
        decreases atom@.len() - j,
    {
        assert(atom@.take(j + 1).drop_last() =~= atom@.take(j as int));
        assert(atom@.take(j + 1).last() == atom@[j as int]);
        if contains_usize(s, atom[j]) {
            c = c + 1;
        }
        j = j + 1;
    }
    assert(atom@.take(atom@.len() as int) =~= atom@);
    c
}

/// The cluster `atom` goes to (see [`best`]).
fn best_cluster(sigs: &Vec<Vec<usize>>, ids: &Vec<usize>, atom: &Vec<usize>) -> (r: Option<usize>)
    requires
        ids@.len() == sigs@.len(),
    ensures
        r == best(id_lists(sigs@), ids@, atom@, sigs@.len()),
        r matches Some(k) ==> k < sigs@.len(),
{
    let ghost sv = id_lists(sigs@);
    let mut b: Option<usize> = None;
    let mut cb: usize = 0;
    let mut k: usize = 0;
    while k < sigs.len()
        invariant
            sv == id_lists(sigs@),
            ids@.len() == sigs@.len(),
            k <= sigs@.len(),
            b == best(sv, ids@, atom@, k as nat),
            b matches Some(q) ==> q < k && cb == common(sv[q as int], atom@),
        decreases sigs@.len() - k,
    {
        assert(sv[k as int] == sigs@[k as int]@);
        let c = common_count(&sigs[k], atom);
        if c > 0 {
            match b {
                None => {
                    b = Some(k);
                    cb = c;
                },
                Some(q) => {
                    if c > cb || (c == cb && ids[k] < ids[q]) {
                        b = Some(k);
                        cb = c;
                    }
                },
            }
        }
        k = k + 1;
    }
    b
}

/// Appends, in order, every element of `xs` that `v` does not hold yet.
fn push_all_unique_ids(v: &mut Vec<usize>, xs: &Vec<usize>)
    ensures
        final(v)@ == add_all_unique(old(v)@, xs@),
{
    let mut i: usize = 0;
    assert(xs@.take(0) =~= Seq::<usize>::empty());
    while i < xs.len()
        invariant
            i <= xs@.len(),
            v@ == add_all_unique(old(v)@, xs@.take(i as int)),
        decreases xs@.len() - i,
    {
        assert(xs@.take(i + 1).drop_last() =~= xs@.take(i as int));
        assert(xs@.take(i + 1).last() == xs@[i as int]);
        if !contains_usize(v, xs[i]) {
            v.push(xs[i]);
        }
        i = i + 1;
    }
    assert(xs@.take(xs@.len() as int) =~= xs@);
}

pub open spec fn placement_of(sigs: Seq<Vec<usize>>, placed: Seq<Option<usize>>, members: Seq<Vec<usize>>) -> Placement {
    Placement { sigs: id_lists(sigs), placed: placed, members: id_lists(members) }
}

/// One round: the choices of the constraints not placed yet, then each
/// placed in its chosen cluster, in order of constraint. Returns whether
/// anything was placed.
fn place_round(
    sigs: &mut Vec<Vec<usize>>,
    placed: &mut Vec<Option<usize>>,
    members: &mut Vec<Vec<usize>>,
    ids: &Vec<usize>,
    atoms: &Vec<Vec<usize>>,
) -> (r: bool)
    requires
        old(placed)@.len() == atoms@.len(),
        old(sigs)@.len() == ids@.len(),
        old(members)@.len() == ids@.len(),
    ensures
        r == any_choice(choices(placement_of(old(sigs)@, old(placed)@, old(members)@), ids@, id_lists(atoms@))),
        r ==> placement_of(final(sigs)@, final(placed)@, final(members)@) == apply(
            placement_of(old(sigs)@, old(placed)@, old(members)@),
            id_lists(atoms@),
            choices(placement_of(old(sigs)@, old(placed)@, old(members)@), ids@, id_lists(atoms@)),
            atoms@.len(),
        ),
        !r ==> final(sigs)@ == old(sigs)@ && final(placed)@ == old(placed)@ && final(members)@ == old(members)@,
        final(placed)@.len() == atoms@.len(),
        final(sigs)@.len() == ids@.len(),
        final(members)@.len() == ids@.len(),
{
    let ghost st0 = placement_of(sigs@, placed@, members@);
    let ghost av = id_lists(atoms@);
    let ghost ch = choices(st0, ids@, av);
    let mut chosen: Vec<Option<usize>> = Vec::new();
    let mut any = false;
    let mut i: usize = 0;
    while i < atoms.len()
        invariant
            st0 == placement_of(sigs@, placed@, members@),
            av == id_lists(atoms@),
            ch == choices(st0, ids@, av),
            placed@.len() == atoms@.len(),
            sigs@.len() == ids@.len(),
            i <= atoms@.len(),
            chosen@ == ch.take(i as int),
            any == any_choice(ch.take(i as int)),
            forall|j: int| 0 <= j < i ==> ((#[trigger] chosen@[j]) matches Some(k) ==> k < sigs@.len()),
        decreases atoms@.len() - i,
    {
        let c = match placed[i] {
            Some(_) => None,
            None => best_cluster(sigs, ids, &atoms[i]),
        };
        assert(av[i as int] == atoms@[i as int]@);
        assert(c == ch[i as int]);
        chosen.push(c);
        if c.is_some() {
            any = true;
        }
        proof {
            assert(ch.take(i + 1) =~= ch.take(i as int).push(c));
            if any_choice(ch.take(i as int)) {
                let w = choose|w: int| 0 <= w < ch.take(i as int).len() && #[trigger] ch.take(i as int)[w] is Some;
                assert(ch.take(i + 1)[w] is Some);
            }
            if c is Some {
                assert(ch.take(i + 1)[i as int] is Some);
            }
            if any_choice(ch.take(i + 1)) {
                let w = choose|w: int| 0 <= w < ch.take(i + 1).len() && #[trigger] ch.take(i + 1)[w] is Some;
                if w < i {
                    assert(ch.take(i as int)[w] is Some);
                }
            }
        }
        i = i + 1;
    }
    assert(ch.take(atoms@.len() as int) =~= ch);
    if !any {
        return false;
    }
    let mut i: usize = 0;
    while i < atoms.len()
        invariant
            av == id_lists(atoms@),
            ch == choices(st0, ids@, av),
            chosen@ == ch,
            ch.len() == atoms@.len(),
            forall|j: int| 0 <= j < ch.len() ==> ((#[trigger] chosen@[j]) matches Some(k) ==> k < ids@.len()),
            placed@.len() == atoms@.len(),
            sigs@.len() == ids@.len(),
            members@.len() == ids@.len(),
            i <= atoms@.len(),
            placement_of(sigs@, placed@, members@) == apply(st0, av, ch, i as nat),
        decreases atoms@.len() - i,
    {
        let ghost before = placement_of(sigs@, placed@, members@);
        match chosen[i] {
            None => {},
            Some(k) => {
                let mut row = crate::resolve::copy_ids(&sigs[k]);
                push_all_unique_ids(&mut row, &atoms[i]);
                let ghost rv = row@;
                sigs.set(k, row);
                placed.set(i, Some(k));
                let mut ms = crate::resolve::copy_ids(&members[k]);
                ms.push(i);
                let ghost mv = ms@;
                members.set(k, ms);
                proof {
                    assert(av[i as int] == atoms@[i as int]@);
                    assert(id_lists(sigs@) =~= before.sigs.update(k as int, add_all_unique(before.sigs[k as int], av[i as int])));
                    assert(id_lists(members@) =~= before.members.update(k as int, before.members[k as int].push(i)));
                }
            },
        }
        assert(placement_of(sigs@, placed@, members@) =~= apply(st0, av, ch, (i + 1) as nat));
        i = i + 1;
    }
    true
}

pub open spec fn result_pairs(r: Result<Vec<(usize, Vec<usize>)>, String>) -> Result<Seq<(usize, Seq<usize>)>, Seq<char>> {
    match r {
        Ok(v) => Ok(v@.map_values(|p: (usize, Vec<usize>)| (p.0, p.1@))),
        Err(e) => Err(e@),
    }
}

/// Appends `v` as `{:?}` prints a vector of ids.
fn push_debug_list(out: &mut String, v: &[usize])
    ensures
        final(out)@ == old(out)@ + debug_list(v@),
{
    let ghost o = old(out)@;
    push_char(out, '[');
    crate::resolved_json::push_ids(out, v);
    push_char(out, ']');
    assert(out@ =~= o + debug_list(v@));
}

/// Places every constraint of the recipient, given by its signals
/// (`atoms`), into the clusters of the guide (see [`guided_outcome`]): in
/// rounds, each constraint not yet placed goes to the cluster sharing the
/// most signals with it (with [`TiebreakingStrategy::FirstInList`], the
/// smallest id among equals), and a cluster takes on the signals of what it
/// receives.
pub fn guided_clustering(
    clusters: &Vec<GuideCluster>,
    atoms: &Vec<Vec<usize>>,
    options: HybridClusteringMethodOptions,
) -> (r: Result<Vec<(usize, Vec<usize>)>, String>)
    ensures
        guided_outcome(clusters@, id_lists(atoms@), result_pairs(r)),
{
    let ghost av = id_lists(atoms@);
    let ghost cs = clusters@;
    let mut ids: Vec<usize> = Vec::new();
    let mut sigs: Vec<Vec<usize>> = Vec::new();
    let mut members: Vec<Vec<usize>> = Vec::new();
    let mut k: usize = 0;
    while k < clusters.len()
        invariant
            cs == clusters@,
            k <= cs.len(),
            ids@ == cluster_ids(cs).take(k as int),
            id_lists(sigs@) == start(cs, av.len()).sigs.take(k as int),
            id_lists(members@) == start(cs, av.len()).members.take(k as int),
        decreases cs.len() - k,
    {
        ids.push(clusters[k].id);
        let row = crate::resolve::copy_ids(&clusters[k].signals);
        let ghost s0 = sigs@;
        let ghost m0 = members@;
        sigs.push(row);
        members.push(Vec::new());
        assert(id_lists(sigs@) =~= id_lists(s0).push(cs[k as int].signals@));
        assert(id_lists(members@) =~= id_lists(m0).push(Seq::<usize>::empty()));
        assert(ids@ =~= cluster_ids(cs).take(k + 1));
        assert(id_lists(sigs@) =~= start(cs, av.len()).sigs.take(k + 1));
        assert(id_lists(members@) =~= start(cs, av.len()).members.take(k + 1));
        k = k + 1;
    }
    assert(cluster_ids(cs).take(cs.len() as int) =~= cluster_ids(cs));
    assert(start(cs, av.len()).sigs.take(cs.len() as int) =~= start(cs, av.len()).sigs);
    assert(start(cs, av.len()).members.take(cs.len() as int) =~= start(cs, av.len()).members);
    let mut placed: Vec<Option<usize>> = Vec::new();
    let mut i: usize = 0;
    while i < atoms.len()
        invariant
            i <= atoms@.len(),
            placed@ == Seq::new(i as nat, |j: int| None::<usize>),
        decreases atoms@.len() - i,
    {
        placed.push(None);
        assert(placed@ =~= Seq::new((i + 1) as nat, |j: int| None::<usize>));
        i = i + 1;
    }
    assert(placement_of(sigs@, placed@, members@) =~= start(cs, av.len()));
    match options.tiebreaking_strategy {
        TiebreakingStrategy::FirstInList => {},
    }
    let mut fuel: usize = atoms.len();
    while fuel > 0
        invariant
            av == id_lists(atoms@),
            ids@ == cluster_ids(cs),
            placed@.len() == atoms@.len(),
            sigs@.len() == ids@.len(),
            members@.len() == ids@.len(),
            final_placement(cs, av) == rounds(placement_of(sigs@, placed@, members@), ids@, av, fuel as nat),
        ensures
            final_placement(cs, av) == placement_of(sigs@, placed@, members@),
            placed@.len() == atoms@.len(),
            sigs@.len() == ids@.len(),
            members@.len() == ids@.len(),
        decreases fuel,
    {
        let placed_any = place_round(&mut sigs, &mut placed, &mut members, &ids, atoms);
        if !placed_any {
            break;
        }
        fuel = fuel - 1;
    }
    let ghost st = placement_of(sigs@, placed@, members@);
    assert(final_placement(cs, av) == st);
    let mut missing: Vec<usize> = Vec::new();
    let mut i: usize = 0;
    while i < placed.len()
        invariant
            i <= placed@.len(),
            missing@ == unplaced(placed@, i as nat),
            missing@.len() <= i,
        decreases placed@.len() - i,
    {
        if placed[i].is_none() {
            missing.push(i);
        }
        i = i + 1;
    }
    let n = atoms.len();
    if missing.len() > 0 {
        let mut m = string_from("Guided clustering covered only ");
        push_decimal(&mut m, n - missing.len());
        push_str(&mut m, " of ");
        push_decimal(&mut m, n);
        push_str(&mut m, " recipient constraints: ");
        let shown = if missing.len() > 10 { 10 } else { missing.len() };
        let mut first: Vec<usize> = Vec::new();
        let mut j: usize = 0;
        while j < shown
            invariant
                shown <= missing@.len(),
                j <= shown,
                first@ == missing@.take(j as int),
            decreases shown - j,
        {
            first.push(missing[j]);
            assert(first@ =~= missing@.take(j + 1));
            j = j + 1;
        }
        push_debug_list(&mut m, first.as_slice());
        if missing.len() > 10 {
            push_str(&mut m, " (and ");
            push_decimal(&mut m, missing.len() - 10);
            push_str(&mut m, " more)");
        }
        push_str(&mut m, " share no signal with any cluster of the guide, so nothing covers them");
        proof {
            reveal_strlit("Guided clustering covered only ");
            reveal_strlit(" of ");
            reveal_strlit(" recipient constraints: ");
            reveal_strlit(" (and ");
            reveal_strlit(" more)");
            reveal_strlit(" share no signal with any cluster of the guide, so nothing covers them");
            assert(m@ =~= uncovered_message(av.len(), missing@));
        }
        return Err(m);
    }
    let mut k: usize = 0;
    assert(unplaced(st.placed, av.len()).len() == 0);
    while k < members.len()
        invariant
            cs == clusters@,
            av == id_lists(atoms@),
            final_placement(cs, av) == st,
            unplaced(st.placed, av.len()).len() == 0,
            st == placement_of(sigs@, placed@, members@),
            members@.len() == cs.len(),
            k <= members@.len(),
            first_empty(st.members, 0) == first_empty(st.members, k as nat),
        decreases members@.len() - k,
    {
        assert(st.members[k as int] == members@[k as int]@);
        if members[k].len() == 0 {
            assert(first_empty(st.members, k as nat) == Some(k as int));
            let mut m = string_from("Recipient cluster ");
            push_decimal(&mut m, clusters[k].id);
            push_str(&mut m, " is empty; Corresponding guide cluster has atoms ");
            push_debug_list(&mut m, clusters[k].constraints.as_slice());
            proof {
                reveal_strlit("Recipient cluster ");
                reveal_strlit(" is empty; Corresponding guide cluster has atoms ");
                assert(m@ =~= empty_cluster_message(cs[k as int].id, cs[k as int].constraints@));
            }
            return Err(m);
        }
        k = k + 1;
    }
    let mut out: Vec<(usize, Vec<usize>)> = Vec::new();
    let mut k: usize = 0;
    while k < clusters.len()
        invariant
            cs == clusters@,
            st == placement_of(sigs@, placed@, members@),
            members@.len() == cs.len(),
            k <= cs.len(),
            out@.map_values(|p: (usize, Vec<usize>)| (p.0, p.1@)) =~= Seq::new(k as nat, |q: int| (cs[q].id, st.members[q])),
        decreases cs.len() - k,
    {
        let ms = crate::resolve::copy_ids(&members[k]);
        let ghost o0 = out@;
        let ghost mv = ms@;
        out.push((clusters[k].id, ms));
        assert(st.members[k as int] == members@[k as int]@);
        assert(out@.map_values(|p: (usize, Vec<usize>)| (p.0, p.1@)) =~= o0.map_values(|p: (usize, Vec<usize>)| (p.0, p.1@)).push((cs[k as int].id, mv)));
        assert(out@.map_values(|p: (usize, Vec<usize>)| (p.0, p.1@)) =~= Seq::new((k + 1) as nat, |q: int| (cs[q].id, st.members[q])));
        k = k + 1;
    }
    Ok(out)
}

// ---------------------------------------------------------------------------
// The rounds reach their fixpoint.
// ---------------------------------------------------------------------------

/// The number of constraints placed.
pub open spec fn placed_count(p: Seq<Option<usize>>) -> nat
    decreases p.len(),
{
    if p.len() == 0 {
        0
    } else {
        placed_count(p.drop_last()) + if p.last() is Some {
            1nat
        } else {
            0nat
        }
    }
}

proof fn lemma_placed_count_bound(p: Seq<Option<usize>>)
    ensures
        placed_count(p) <= p.len(),
        placed_count(p) == p.len() ==> forall|x: int| 0 <= x < p.len() ==> #[trigger] p[x] is Some,
    decreases p.len(),
{
    if p.len() > 0 {
        lemma_placed_count_bound(p.drop_last());
        if placed_count(p) == p.len() {
            assert forall|x: int| 0 <= x < p.len() implies #[trigger] p[x] is Some by {
                if x < p.len() - 1 {
                    assert(p.drop_last()[x] == p[x]);
                }
            }
        }
    }
}

/// More placed, pointwise, is more placed in number; strictly so where one
/// more constraint is placed.
proof fn lemma_placed_count_grows(p: Seq<Option<usize>>, q: Seq<Option<usize>>)
    requires
        p.len() == q.len(),
        forall|x: int| 0 <= x < p.len() && p[x] is Some ==> #[trigger] q[x] is Some,
    ensures
        placed_count(p) <= placed_count(q),
        (exists|x: int| 0 <= x < p.len() && p[x] is None && #[trigger] q[x] is Some) ==> placed_count(p) < placed_count(q),
    decreases p.len(),
{
    if p.len() > 0 {
        let pd = p.drop_last();
        let qd = q.drop_last();
        assert forall|x: int| 0 <= x < pd.len() && pd[x] is Some implies #[trigger] qd[x] is Some by {
            assert(pd[x] == p[x] && qd[x] == q[x]);
        }
        lemma_placed_count_grows(pd, qd);
        if exists|x: int| 0 <= x < p.len() && p[x] is None && #[trigger] q[x] is Some {
            let x = choose|x: int| 0 <= x < p.len() && p[x] is None && #[trigger] q[x] is Some;
            if x < p.len() - 1 {
                assert(pd[x] == p[x] && qd[x] == q[x]);
                assert(qd[x] is Some);
            }
        }
    }
}

proof fn lemma_apply_placed(st: Placement, atoms: Seq<Seq<usize>>, ch: Seq<Option<usize>>, i: nat)
    requires
        i <= st.placed.len(),
        ch.len() == st.placed.len(),
    ensures
        apply(st, atoms, ch, i).placed.len() == st.placed.len(),
        forall|x: int| 0 <= x < st.placed.len() ==> #[trigger] apply(st, atoms, ch, i).placed[x] == if x < i && ch[x] is Some {
            ch[x]
        } else {
            st.placed[x]
        },
    decreases i,
{
    if i > 0 {
        lemma_apply_placed(st, atoms, ch, (i - 1) as nat);
    }
}

proof fn lemma_rounds_settle(st: Placement, ids: Seq<usize>, atoms: Seq<Seq<usize>>, fuel: nat)
    requires
        st.placed.len() == atoms.len(),
        placed_count(st.placed) + fuel >= atoms.len(),
    ensures
        !any_choice(choices(rounds(st, ids, atoms, fuel), ids, atoms)),
    decreases fuel,
{
    let ch = choices(st, ids, atoms);
    if fuel == 0 || !any_choice(ch) {
        if fuel == 0 && any_choice(ch) {
            lemma_placed_count_bound(st.placed);
            let x = choose|x: int| 0 <= x < ch.len() && #[trigger] ch[x] is Some;
            assert(st.placed[x] is Some);
        }
    } else {
        let st1 = apply(st, atoms, ch, atoms.len());
        lemma_apply_placed(st, atoms, ch, atoms.len());
        let x = choose|x: int| 0 <= x < ch.len() && #[trigger] ch[x] is Some;
        assert(st.placed[x] is None);
        assert(st1.placed[x] is Some);
        assert forall|y: int| 0 <= y < st.placed.len() && st.placed[y] is Some implies #[trigger] st1.placed[y] is Some by {
            assert(ch[y] is None);
        }
        lemma_placed_count_grows(st.placed, st1.placed);
        lemma_rounds_settle(st1, ids, atoms, (fuel - 1) as nat);
    }
}

/// The rounds stop on their own: once they are done, no constraint left
/// unplaced shares a signal with any cluster, however many rounds that took.
pub proof fn law_placement_is_a_fixpoint(clusters: Seq<GuideCluster>, atoms: Seq<Seq<usize>>)
    ensures
        !any_choice(choices(final_placement(clusters, atoms), cluster_ids(clusters), atoms)),
{
    lemma_rounds_settle(start(clusters, atoms.len()), cluster_ids(clusters), atoms, atoms.len());
}

// ---------------------------------------------------------------------------
// A partition.
// ---------------------------------------------------------------------------

/// Each cluster lists what was placed in it, once, and nothing else.
pub open spec fn consistent(st: Placement) -> bool {
    &&& st.members.len() == st.sigs.len()
    &&& forall|x: int| 0 <= x < st.placed.len() ==> (#[trigger] st.placed[x] matches Some(k) ==> k < st.members.len() && st.members[k as int].contains(x as usize))
    &&& forall|k: int, x: int| 0 <= k < st.members.len() && 0 <= x < st.members[k].len() ==> (#[trigger] st.members[k][x]) < st.placed.len()
        && st.placed[st.members[k][x] as int] == Some(k as usize)
    &&& forall|k: int| 0 <= k < st.members.len() ==> crate::strings::no_dups(#[trigger] st.members[k])
}

proof fn lemma_best_range(sigs: Seq<Seq<usize>>, ids: Seq<usize>, atom: Seq<usize>, n: nat)
    requires
        n <= usize::MAX,
    ensures
        best(sigs, ids, atom, n) matches Some(k) ==> k < n,
    decreases n,
{
    if n > 0 {
        lemma_best_range(sigs, ids, atom, (n - 1) as nat);
    }
}

proof fn lemma_apply_consistent(st: Placement, ids: Seq<usize>, atoms: Seq<Seq<usize>>, i: nat)
    requires
        consistent(st),
        st.placed.len() == atoms.len(),
        st.sigs.len() <= usize::MAX,
        atoms.len() <= usize::MAX,
        i <= atoms.len(),
    ensures
        consistent(apply(st, atoms, choices(st, ids, atoms), i)),
        apply(st, atoms, choices(st, ids, atoms), i).placed.len() == st.placed.len(),
        apply(st, atoms, choices(st, ids, atoms), i).sigs.len() == st.sigs.len(),
        forall|x: int| i <= x < st.placed.len() ==> #[trigger] apply(st, atoms, choices(st, ids, atoms), i).placed[x] == st.placed[x],
    decreases i,
{
    let ch = choices(st, ids, atoms);
    if i > 0 {
        lemma_apply_consistent(st, ids, atoms, (i - 1) as nat);
        let s = apply(st, atoms, ch, (i - 1) as nat);
        let x0 = i - 1;
        if let Some(k) = ch[x0] {
            lemma_best_range(st.sigs, ids, atoms[x0], st.sigs.len());
            assert(st.placed[x0] is None);
            assert(s.placed[x0] is None);
            let s1 = apply(st, atoms, ch, i);
            assert(s1.members == s.members.update(k as int, s.members[k as int].push(x0 as usize)));
            assert(s1.placed == s.placed.update(x0, Some(k)));
            assert(!s.members[k as int].contains(x0 as usize)) by {
                if s.members[k as int].contains(x0 as usize) {
                    let y = choose|y: int| 0 <= y < s.members[k as int].len() && s.members[k as int][y] == x0 as usize;
                    assert(s.placed[s.members[k as int][y] as int] == Some(k));
                }
            }
            assert forall|x: int| 0 <= x < s1.placed.len() implies (#[trigger] s1.placed[x] matches Some(q) ==> q < s1.members.len() && s1.members[q as int].contains(x as usize)) by {
                if x == x0 {
                    assert(s1.members[k as int][s.members[k as int].len() as int] == x0 as usize);
                } else if let Some(q) = s.placed[x] {
                    assert(s.members[q as int].contains(x as usize));
                    let y = choose|y: int| 0 <= y < s.members[q as int].len() && s.members[q as int][y] == x as usize;
                    assert(s1.members[q as int][y] == x as usize);
                }
            }
            assert forall|q: int, y: int| 0 <= q < s1.members.len() && 0 <= y < s1.members[q].len() implies (#[trigger] s1.members[q][y]) < s1.placed.len()
                && s1.placed[s1.members[q][y] as int] == Some(q as usize) by {
                if q == k as int && y == s.members[q].len() {
                } else {
                    assert(s1.members[q][y] == s.members[q][y]);
                    assert(s.placed[s.members[q][y] as int] == Some(q as usize));
                    assert(s.members[q][y] != x0 as usize);
                }
            }
            assert forall|q: int| 0 <= q < s1.members.len() implies crate::strings::no_dups(#[trigger] s1.members[q]) by {
                if q == k as int {
                    assert forall|a: int, b: int| 0 <= a < b < s1.members[q].len() implies s1.members[q][a] != s1.members[q][b] by {
                        if b == s.members[q].len() {
                            assert(s1.members[q][a] == s.members[q][a]);
                            assert(s.members[q].contains(s.members[q][a]));
                        } else {
                            assert(s1.members[q][a] == s.members[q][a]);
                            assert(s1.members[q][b] == s.members[q][b]);
                        }
                    }
                } else {
                    assert(s1.members[q] == s.members[q]);
                }
            }
        }
    }
}

proof fn lemma_rounds_consistent(st: Placement, ids: Seq<usize>, atoms: Seq<Seq<usize>>, fuel: nat)
    requires
        consistent(st),
        st.placed.len() == atoms.len(),
        st.sigs.len() <= usize::MAX,
        atoms.len() <= usize::MAX,
    ensures
        consistent(rounds(st, ids, atoms, fuel)),
        rounds(st, ids, atoms, fuel).placed.len() == atoms.len(),
        rounds(st, ids, atoms, fuel).sigs.len() == st.sigs.len(),
    decreases fuel,
{
    if fuel > 0 && any_choice(choices(st, ids, atoms)) {
        lemma_apply_consistent(st, ids, atoms, atoms.len());
        lemma_rounds_consistent(apply(st, atoms, choices(st, ids, atoms), atoms.len()), ids, atoms, (fuel - 1) as nat);
    }
}

proof fn lemma_unplaced_empty(p: Seq<Option<usize>>, n: nat)
    requires
        n <= p.len(),
        n <= usize::MAX,
        unplaced(p, n).len() == 0,
    ensures
        forall|x: int| 0 <= x < n ==> #[trigger] p[x] is Some,
    decreases n,
{
    if n > 0 {
        lemma_unplaced_empty(p, (n - 1) as nat);
    }
}

/// Some cluster of `v` lists `x`.
pub open spec fn listed(v: Seq<(usize, Seq<usize>)>, x: usize) -> bool {
    exists|k: int| 0 <= k < v.len() && v[k].1.contains(x)
}

/// A guided clustering is a partition of the recipient: where it succeeds,
/// every constraint is listed by exactly one cluster, once.
pub proof fn law_guided_partition(clusters: Seq<GuideCluster>, atoms: Seq<Seq<usize>>, v: Seq<(usize, Seq<usize>)>)
    requires
        clusters.len() <= usize::MAX,
        atoms.len() <= usize::MAX,
        guided_outcome(clusters, atoms, Ok(v)),
    ensures
        v.len() == clusters.len(),
        forall|k: int| 0 <= k < v.len() ==> (#[trigger] v[k]).0 == clusters[k].id && crate::strings::no_dups(v[k].1),
        forall|x: usize| x < atoms.len() ==> #[trigger] listed(v, x),
        forall|k1: int, k2: int, x: usize| 0 <= k1 < v.len() && 0 <= k2 < v.len() && #[trigger] v[k1].1.contains(x)
            && #[trigger] v[k2].1.contains(x) ==> k1 == k2,
{
    let st0 = start(clusters, atoms.len());
    assert(consistent(st0)) by {
        assert forall|k: int| 0 <= k < st0.members.len() implies crate::strings::no_dups(#[trigger] st0.members[k]) by {
            assert(st0.members[k] =~= Seq::<usize>::empty());
        }
    }
    lemma_rounds_consistent(st0, cluster_ids(clusters), atoms, atoms.len());
    let st = final_placement(clusters, atoms);
    lemma_unplaced_empty(st.placed, atoms.len());
    assert(st.members.len() == clusters.len());
    assert(v =~= Seq::new(clusters.len(), |k: int| (clusters[k].id, st.members[k])));
    assert forall|x: usize| x < atoms.len() implies #[trigger] listed(v, x) by {
        assert(st.placed[x as int] is Some);
        let k = st.placed[x as int]->0;
        assert(v[k as int].1 == st.members[k as int]);
    }
    assert forall|k1: int, k2: int, x: usize| 0 <= k1 < v.len() && 0 <= k2 < v.len() && #[trigger] v[k1].1.contains(x)
        && #[trigger] v[k2].1.contains(x) implies k1 == k2 by {
        let y1 = choose|y: int| 0 <= y < st.members[k1].len() && st.members[k1][y] == x;
        let y2 = choose|y: int| 0 <= y < st.members[k2].len() && st.members[k2][y] == x;
        assert(st.placed[st.members[k1][y1] as int] == Some(k1 as usize));
        assert(st.placed[st.members[k2][y2] as int] == Some(k2 as usize));
    }
}

} // verus!
