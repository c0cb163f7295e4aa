//! An SMT specification cut into atoms: each atom names the signals it
//! mentions, and the atoms of each component instance lie in one contiguous
//! range.
use vstd::prelude::*;
use std::collections::HashSet;
use num_bigint_dig::BigInt;
use crate::r1cs::clone_bigint;
use crate::resolve::{increasing, insert_sorted};
use crate::specification::lookup;
use crate::strings::{copy_string, string_eq, positions, groups_view};
use crate::tags::{key_index, lemma_key_index, lemma_key_index_push, lemma_key_index_update};

verus! {

/// An atom: a named piece of the formula and the signals it mentions.
pub struct FormulaAtom {
    pub name: String,
    pub signals: Vec<usize>,
}

/// A formula made of atoms.
pub struct Formula {
    prime: BigInt,
    atoms: Vec<FormulaAtom>,
    signals: Vec<usize>,
    input_signals: HashSet<usize>,
    output_signals: HashSet<usize>,
    component_to_atomrange: Vec<(String, (usize, usize))>,
}

/// The atoms of each component, as values.
pub open spec fn comps_view(v: Seq<(String, Vec<FormulaAtom>)>) -> Seq<(Seq<char>, Seq<FormulaAtom>)> {
    v.map_values(|p: (String, Vec<FormulaAtom>)| (p.0@, p.1@))
}

/// The atoms of the first `k` components, one after the other.
pub open spec fn concat_atoms(s: Seq<(Seq<char>, Seq<FormulaAtom>)>, k: nat) -> Seq<FormulaAtom>
    decreases k,
{
    if k == 0 || k > s.len() {
        Seq::empty()
    } else {
        concat_atoms(s, (k - 1) as nat) + s[k - 1].1
    }
}

/// The range of atoms of the last of the first `k` components named `name`.
pub open spec fn last_range(s: Seq<(Seq<char>, Seq<FormulaAtom>)>, k: nat, name: Seq<char>) -> Option<(usize, usize)>
    decreases k,
{
    if k == 0 || k > s.len() {
        None
    } else if s[k - 1].0 == name {
        Some((concat_atoms(s, (k - 1) as nat).len() as usize, concat_atoms(s, k).len() as usize))
    } else {
        last_range(s, (k - 1) as nat, name)
    }
}

/// Every signal some atom mentions.
pub open spec fn atom_signals(atoms: Seq<FormulaAtom>) -> Set<usize> {
    Set::new(|x: usize| exists|i: int, j: int| 0 <= i < atoms.len() && 0 <= j < atoms[i].signals@.len() && #[trigger] atoms[i].signals@[j] == x)
}

pub open spec fn ranges_view(v: Seq<(String, (usize, usize))>) -> Seq<(Seq<char>, (usize, usize))> {
    v.map_values(|p: (String, (usize, usize))| (p.0@, p.1))
}

impl Formula {
    pub closed spec fn atom_list(self) -> Seq<FormulaAtom> {
        self.atoms@
    }

    /// The range of atoms of a component instance, by name.
    pub closed spec fn range_of(self, name: Seq<char>) -> Option<(usize, usize)> {
        lookup(ranges_view(self.component_to_atomrange@), name)
    }

    pub closed spec fn signal_list(self) -> Seq<usize> {
        self.signals@
    }

    pub closed spec fn inputs(self) -> Set<usize> {
        self.input_signals@
    }

    pub closed spec fn outputs(self) -> Set<usize> {
        self.output_signals@
    }

    pub closed spec fn prime_value(self) -> BigInt {
        self.prime
    }

    /// The atoms, in the order the clustering indexes them.
    pub fn atoms(&self) -> (r: &Vec<FormulaAtom>)
        ensures
            r@ == self.atom_list(),
    {
        &self.atoms
    }

    /// The range of atoms of the component instance `component_name`.
    pub fn get_atomrange_for_component(&self, component_name: &String) -> (r: Option<std::ops::Range<usize>>)
        ensures
            match self.range_of(component_name@) {
                Some((l, h)) => r matches Some(rg) && rg.start == l && rg.end == h,
                None => r is None,
            },
    {
        let ghost rv = ranges_view(self.component_to_atomrange@);
        proof {
            lemma_key_index(rv, component_name@);
        }
        let mut i: usize = 0;
        while i < self.component_to_atomrange.len()
            invariant
                rv == ranges_view(self.component_to_atomrange@),
                i <= rv.len(),
                forall|j: int| 0 <= j < i ==> rv[j].0 != component_name@,
            decreases rv.len() - i,
        {
            assert(rv[i as int].0 == self.component_to_atomrange@[i as int].0@);
            if string_eq(&self.component_to_atomrange[i].0, component_name) {
                proof {
                    lemma_key_index(rv, component_name@);
                }
                assert(key_index(rv, component_name@) == Some(i as int));
                let (l, h) = self.component_to_atomrange[i].1;
                return Some(l..h);
            }
            i = i + 1;
        }
        proof {
            lemma_key_index(rv, component_name@);
        }
        None
    }

    /// A formula of the atoms of each component instance in turn, so that
    /// each instance occupies a contiguous range of atoms (a name given twice
    /// keeps its last range); no atom is dropped. Its signals are all those
    /// the atoms mention, in increasing order.
    pub fn from_atoms(
        prime: &BigInt,
        atoms_by_component: Vec<(String, Vec<FormulaAtom>)>,
        input_signals: HashSet<usize>,
        output_signals: HashSet<usize>,
    ) -> (r: Formula)
        requires
            concat_atoms(comps_view(atoms_by_component@), atoms_by_component@.len()).len() <= usize::MAX,
        ensures
            r.atom_list() == concat_atoms(comps_view(atoms_by_component@), atoms_by_component@.len()),
            forall|name: Seq<char>| #[trigger] r.range_of(name) == last_range(
                comps_view(atoms_by_component@),
                atoms_by_component@.len(),
                name,
            ),
            increasing(r.signal_list()),
            r.signal_list().to_set() == atom_signals(r.atom_list()),
            r.inputs() == input_signals@,
            r.outputs() == output_signals@,
            r.prime_value() == *prime,
    {
        let ghost s = comps_view(atoms_by_component@);
        let n_comps = atoms_by_component.len();
        let ghost total = concat_atoms(s, s.len());
        let mut ranges: Vec<(String, (usize, usize))> = Vec::new();
        let mut atoms: Vec<FormulaAtom> = Vec::new();
        let mut rest = atoms_by_component;
        let ghost r0 = rest@;
        let mut k: usize = 0;
        proof {
            lemma_concat_prefix(s, 0, s.len());
        }
        while rest.len() > 0
            invariant
                s == comps_view(r0),
                r0.len() == n_comps,
                total == concat_atoms(s, s.len()),
                total.len() <= usize::MAX,
                k <= s.len(),
                rest@ == r0.subrange(k as int, r0.len() as int),
                atoms@ == concat_atoms(s, k as nat),
                concat_atoms(s, k as nat).len() <= total.len(),
                forall|name: Seq<char>| #[trigger] lookup(ranges_view(ranges@), name) == last_range(s, k as nat, name),
                forall|a: int, b: int| 0 <= a < b < ranges@.len() ==> ranges_view(ranges@)[a].0 != ranges_view(ranges@)[b].0,
            decreases rest@.len(),
        {
            let (name, mut comp) = rest.remove(0);
            let ghost nm0 = name@;
            assert(s[k as int] == (name@, comp@));
            proof {
                lemma_concat_prefix(s, (k + 1) as nat, s.len());
            }
            let start = atoms.len();
            atoms.append(&mut comp);
            let end = atoms.len();
            assert(atoms@ =~= concat_atoms(s, (k + 1) as nat));
            let ghost rv = ranges_view(ranges@);
            assert(forall|nm: Seq<char>| #[trigger] lookup(rv, nm) == last_range(s, k as nat, nm));
            proof {
                lemma_key_index(rv, name@);
            }
            let mut i: usize = 0;
            let mut found = false;
            while i < ranges.len() && !found
                invariant
                    rv == ranges_view(ranges@),
                    i <= rv.len(),
                    !found ==> forall|j: int| 0 <= j < i ==> rv[j].0 != name@,
                    found ==> i > 0 && rv[i - 1].0 == name@ && key_index(rv, name@) == Some(i - 1),
                decreases rv.len() - i + if found { 0int } else { 1int },
            {
                assert(rv[i as int].0 == ranges@[i as int].0@);
                if string_eq(&ranges[i].0, &name) {
                    proof {
                        lemma_key_index(rv, name@);
                    }
                    found = true;
                }
                i = i + 1;
            }
            if found {
                let idx = i - 1;
                ranges.set(idx, (name, (start, end)));
                assert(ranges_view(ranges@) =~= rv.update(idx as int, (rv[idx as int].0, (start, end))));
                assert forall|nm: Seq<char>| #[trigger] lookup(ranges_view(ranges@), nm) == last_range(s, (k + 1) as nat, nm) by {
                    lemma_key_index_update(rv, idx as int, (start, end), nm);
                    lemma_key_index(rv, nm);
                    if nm == nm0 {
                        assert(key_index(ranges_view(ranges@), nm) == Some(idx as int));
                        assert(last_range(s, (k + 1) as nat, nm) == Some((start, end)));
                    } else {
                        assert(last_range(s, (k + 1) as nat, nm) == last_range(s, k as nat, nm));
                        assert(lookup(rv, nm) == last_range(s, k as nat, nm));
                    }
                }
                assert forall|a: int, b: int| 0 <= a < b < ranges@.len() implies ranges_view(ranges@)[a].0 != ranges_view(ranges@)[b].0 by {
                    assert(ranges_view(ranges@)[a].0 == rv[a].0);
                    assert(ranges_view(ranges@)[b].0 == rv[b].0);
                }
            } else {
                ranges.push((name, (start, end)));
                assert(ranges_view(ranges@) =~= rv.push((nm0, (start, end))));
                assert forall|nm: Seq<char>| #[trigger] lookup(ranges_view(ranges@), nm) == last_range(s, (k + 1) as nat, nm) by {
                    lemma_key_index_push(rv, (nm0, (start, end)), nm);
                    lemma_key_index(rv, nm);
                    if nm == nm0 {
                        assert(last_range(s, (k + 1) as nat, nm) == Some((start, end)));
                    } else {
                        assert(last_range(s, (k + 1) as nat, nm) == last_range(s, k as nat, nm));
                        assert(lookup(rv, nm) == last_range(s, k as nat, nm));
                    }
                }
                assert forall|a: int, b: int| 0 <= a < b < ranges@.len() implies ranges_view(ranges@)[a].0 != ranges_view(ranges@)[b].0 by {
                    if b == rv.len() {
                        assert(ranges_view(ranges@)[a].0 == rv[a].0);
                    } else {
                        assert(ranges_view(ranges@)[a].0 == rv[a].0);
                        assert(ranges_view(ranges@)[b].0 == rv[b].0);
                    }
                }
            }
            k = k + 1;
            assert(rest@ =~= r0.subrange(k as int, r0.len() as int));
        }
        assert(atoms@ == total);
        let mut signals: Vec<usize> = Vec::new();
        let mut ai: usize = 0;
        assert(signals@.to_set() =~= Set::<usize>::empty());
        while ai < atoms.len()
            invariant
                ai <= atoms@.len(),
                increasing(signals@),
                signals@.to_set() == Set::new(|x: usize| exists|i: int, j: int| 0 <= i < ai && 0 <= j < atoms@[i].signals@.len() && #[trigger] atoms@[i].signals@[j] == x),
            decreases atoms@.len() - ai,
        {
            let ghost before = signals@.to_set();
            let sig = &atoms[ai].signals;
            let mut j: usize = 0;
            while j < sig.len()
                invariant
                    ai < atoms@.len(),
                    sig@ == atoms@[ai as int].signals@,
                    j <= sig@.len(),
                    increasing(signals@),
                    signals@.to_set() == before.union(Set::new(|x: usize| exists|jj: int| 0 <= jj < j && #[trigger] sig@[jj] == x)),
                decreases sig@.len() - j,
            {
                insert_sorted(&mut signals, sig[j]);
                assert(signals@.to_set() =~= before.union(Set::new(|x: usize| exists|jj: int| 0 <= jj < j + 1 && #[trigger] sig@[jj] == x)));
                j = j + 1;
            }
            assert forall|x: usize| signals@.to_set().contains(x) == (exists|i: int, jj: int| 0 <= i < ai + 1 && 0 <= jj < atoms@[i].signals@.len() && #[trigger] atoms@[i].signals@[jj] == x) by {
                if signals@.to_set().contains(x) && !before.contains(x) {
                    let jj = choose|jj: int| 0 <= jj < sig@.len() && #[trigger] sig@[jj] == x;
                    assert(atoms@[ai as int].signals@[jj] == x);
                }
                if exists|i: int, jj: int| 0 <= i < ai + 1 && 0 <= jj < atoms@[i].signals@.len() && #[trigger] atoms@[i].signals@[jj] == x {
                    let (i, jj) = choose|i: int, jj: int| 0 <= i < ai + 1 && 0 <= jj < atoms@[i].signals@.len() && #[trigger] atoms@[i].signals@[jj] == x;
                    if i == ai {
                        assert(sig@[jj] == x);
                    } else {
                        assert(before.contains(x));
                    }
                }
            }
            assert(signals@.to_set() =~= Set::new(|x: usize| exists|i: int, jj: int| 0 <= i < ai + 1 && 0 <= jj < atoms@[i].signals@.len() && #[trigger] atoms@[i].signals@[jj] == x));
            ai = ai + 1;
        }
        assert(signals@.to_set() =~= atom_signals(atoms@));
        Formula {
            prime: clone_bigint(prime),
            atoms,
            signals,
            input_signals,
            output_signals,
            component_to_atomrange: ranges,
        }
    }
}

proof fn lemma_concat_prefix(s: Seq<(Seq<char>, Seq<FormulaAtom>)>, a: nat, b: nat)
    requires
        a <= b <= s.len(),
    ensures
        concat_atoms(s, a).len() <= concat_atoms(s, b).len(),
    decreases b - a,
{
    if a < b {
        lemma_concat_prefix(s, a, (b - 1) as nat);
    }
}

// ---------------------------------------------------------------------------
// Reading a formula from its instances.
// ---------------------------------------------------------------------------

/// The value of an entry of an instance in a formula file: the instance's
/// name, or an atom's signals as lists to be joined.
pub enum FormulaValue {
    Name(String),
    SignalList(Vec<Vec<usize>>),
}

/// The value of a [`FormulaValue`].
pub enum FValue {
    Name(Seq<char>),
    SignalList(Seq<Seq<usize>>),
}

pub open spec fn fvalue(v: FormulaValue) -> FValue {
    match v {
        FormulaValue::Name(n) => FValue::Name(n@),
        FormulaValue::SignalList(l) => FValue::SignalList(l@.map_values(|x: Vec<usize>| x@)),
    }
}

pub open spec fn entries_view(v: Seq<(String, FormulaValue)>) -> Seq<(Seq<char>, FValue)> {
    v.map_values(|p: (String, FormulaValue)| (p.0@, fvalue(p.1)))
}

/// An atom as values: its name and its signals.
pub open spec fn aview(a: FormulaAtom) -> (Seq<char>, Seq<usize>) {
    (a.name@, a.signals@)
}

/// The lists one after the other.
pub open spec fn joined<T>(lists: Seq<Seq<T>>) -> Seq<T>
    decreases lists.len(),
{
    if lists.len() == 0 {
        Seq::empty()
    } else {
        joined(lists.drop_last()) + lists.last()
    }
}

pub open spec fn no_name_message() -> Seq<char> {
    "Instance does not have a name"@
}

pub open spec fn name_not_string_message() -> Seq<char> {
    "Instance name is not string"@
}

pub open spec fn not_a_list_message() -> Seq<char> {
    "Non-instance entry is not SignalList"@
}

/// The atoms among the first `n` entries of an instance: every entry but
/// `"instance"`, in order, with its signal lists joined; without the atoms
/// that mention no signal when `ignore_empty`. An entry other than
/// `"instance"` that is a name is an error.
pub open spec fn instance_atoms(
    entries: Seq<(Seq<char>, FValue)>,
    ignore_empty: bool,
    n: nat,
) -> Result<Seq<(Seq<char>, Seq<usize>)>, Seq<char>>
    decreases n,
{
    if n == 0 || n > entries.len() {
        Ok(Seq::empty())
    } else {
        match instance_atoms(entries, ignore_empty, (n - 1) as nat) {
            Err(e) => Err(e),
            Ok(a) => {
                let (k, v) = entries[n - 1];
                if k == "instance"@ {
                    Ok(a)
                } else {
                    match v {
                        FValue::Name(_) => Err(not_a_list_message()),
                        FValue::SignalList(l) => if ignore_empty && joined(l).len() == 0 {
                            Ok(a)
                        } else {
                            Ok(a.push((k, joined(l))))
                        },
                    }
                }
            },
        }
    }
}

/// One instance read: its name and its atoms.
pub open spec fn read_instance(
    entries: Seq<(Seq<char>, FValue)>,
    ignore_empty: bool,
) -> Result<(Seq<char>, Seq<(Seq<char>, Seq<usize>)>), Seq<char>> {
    match lookup(entries, "instance"@) {
        None => Err(no_name_message()),
        Some(FValue::SignalList(_)) => Err(name_not_string_message()),
        Some(FValue::Name(nm)) => match instance_atoms(entries, ignore_empty, entries.len()) {
            Err(e) => Err(e),
            Ok(a) => Ok((nm, a)),
        },
    }
}

/// The first `k` instances read, stopping at the first error.
pub open spec fn read_instances(
    insts: Seq<Seq<(Seq<char>, FValue)>>,
    ignore_empty: bool,
    k: nat,
) -> Result<Seq<(Seq<char>, Seq<(Seq<char>, Seq<usize>)>)>, Seq<char>>
    decreases k,
{
    if k == 0 || k > insts.len() {
        Ok(Seq::empty())
    } else {
        match read_instances(insts, ignore_empty, (k - 1) as nat) {
            Err(e) => Err(e),
            Ok(r) => match read_instance(insts[k - 1], ignore_empty) {
                Err(e) => Err(e),
                Ok(x) => Ok(r.push(x)),
            },
        }
    }
}

/// The instances of one name joined, names in the order they first appear.
pub open spec fn group_atoms(read: Seq<(Seq<char>, Seq<(Seq<char>, Seq<usize>)>)>) -> Seq<
    (Seq<char>, Seq<(Seq<char>, Seq<usize>)>),
> {
    let names = read.map_values(|p: (Seq<char>, Seq<(Seq<char>, Seq<usize>)>)| p.0);
    let order = crate::strings::add_all_unique(Seq::empty(), names);
    Seq::new(
        order.len(),
        |g: int| (order[g], joined(crate::strings::positions(names, order[g], read.len()).map_values(|j: usize| read[j as int].1))),
    )
}

/// The atom lists of the groups, as values.
pub open spec fn group_views(v: Seq<(String, Vec<FormulaAtom>)>) -> Seq<(Seq<char>, Seq<(Seq<char>, Seq<usize>)>)> {
    v.map_values(|p: (String, Vec<FormulaAtom>)| (p.0@, p.1@.map_values(|a: FormulaAtom| aview(a))))
}

/// Builds atoms from their values.
fn make_atoms(v: &Vec<(String, Vec<usize>)>) -> (r: Vec<FormulaAtom>)
    ensures
        r@.map_values(|a: FormulaAtom| aview(a)) == v@.map_values(|p: (String, Vec<usize>)| (p.0@, p.1@)),
{
    let mut r: Vec<FormulaAtom> = Vec::new();
    let mut i: usize = 0;
    while i < v.len()
        invariant
            i <= v@.len(),
            r@.map_values(|a: FormulaAtom| aview(a)) == v@.take(i as int).map_values(|p: (String, Vec<usize>)| (p.0@, p.1@)),
        decreases v@.len() - i,
    {
        let ghost r0 = r@;
        let a = FormulaAtom { name: copy_string(&v[i].0), signals: crate::resolve::copy_ids(&v[i].1) };
        assert(aview(a) == (v@[i as int].0@, v@[i as int].1@));
        r.push(a);
        assert(r@.map_values(|a: FormulaAtom| aview(a)) =~= r0.map_values(|a: FormulaAtom| aview(a)).push(aview(a)));
        assert(v@.take(i + 1) =~= v@.take(i as int).push(v@[i as int]));
        assert(r@.map_values(|a: FormulaAtom| aview(a)) =~= v@.take(i + 1).map_values(|p: (String, Vec<usize>)| (p.0@, p.1@)));
        i = i + 1;
    }
    assert(v@.take(v@.len() as int) =~= v@);
    r
}

pub open spec fn atoms_view(v: Seq<(String, Vec<usize>)>) -> Seq<(Seq<char>, Seq<usize>)> {
    v.map_values(|p: (String, Vec<usize>)| (p.0@, p.1@))
}

/// The lists joined (see [`joined`]).
fn join_ids(lists: &Vec<Vec<usize>>) -> (r: Vec<usize>)
    ensures
        r@ == joined(lists@.map_values(|x: Vec<usize>| x@)),
{
    let ghost lv = lists@.map_values(|x: Vec<usize>| x@);
    let mut r: Vec<usize> = Vec::new();
    let mut i: usize = 0;
    assert(lv.take(0) =~= Seq::<Seq<usize>>::empty());
    while i < lists.len()
        invariant
            lv == lists@.map_values(|x: Vec<usize>| x@),
            i <= lists@.len(),
            r@ == joined(lv.take(i as int)),
        decreases lists@.len() - i,
    {
        let l = &lists[i];
        let ghost r0 = r@;
        let mut j: usize = 0;
        while j < l.len()
            invariant
                j <= l@.len(),
                r@ == r0 + l@.take(j as int),
            decreases l@.len() - j,
        {
            r.push(l[j]);
            assert(r@ =~= r0 + l@.take(j + 1));
            j = j + 1;
        }
        assert(l@.take(l@.len() as int) =~= l@);
        assert(lv.take(i + 1).drop_last() =~= lv.take(i as int));
        assert(lv[i as int] == l@);
        i = i + 1;
    }
    assert(lv.take(lists@.len() as int) =~= lv);
    r
}

pub open spec fn read_view(r: Result<(String, Vec<(String, Vec<usize>)>), String>) -> Result<(Seq<char>, Seq<(Seq<char>, Seq<usize>)>), Seq<char>> {
    match r {
        Ok(p) => Ok((p.0@, atoms_view(p.1@))),
        Err(e) => Err(e@),
    }
}

/// One instance of a formula file read (see [`read_instance`]).
fn read_formula_instance(entries: &Vec<(String, FormulaValue)>, ignore_empty: bool) -> (r: Result<(String, Vec<(String, Vec<usize>)>), String>)
    ensures
        read_view(r) == read_instance(entries_view(entries@), ignore_empty),
{
    let ghost ev = entries_view(entries@);
    proof {
        reveal_strlit("instance");
        lemma_key_index(ev, "instance"@);
    }
    let mut i: usize = 0;
    let mut name_at: Option<usize> = None;
    while i < entries.len()
        invariant
            ev == entries_view(entries@),
            i <= entries@.len(),
            name_at is None ==> forall|j: int| 0 <= j < i ==> ev[j].0 != "instance"@,
            name_at matches Some(q) ==> key_index(ev, "instance"@) == Some(q as int) && q < entries@.len(),
        decreases entries@.len() - i,
    {
        assert(ev[i as int].0 == entries@[i as int].0@);
        if name_at.is_none() && crate::text::str_eq(entries[i].0.as_str(), "instance") {
            proof {
                lemma_key_index(ev, "instance"@);
            }
            name_at = Some(i);
        }
        i = i + 1;
    }
    let q = match name_at {
        None => {
            proof {
                lemma_key_index(ev, "instance"@);
            }
            let m = crate::text::string_from("Instance does not have a name");
            proof {
                reveal_strlit("Instance does not have a name");
            }
            return Err(m);
        },
        Some(q) => q,
    };
    assert(ev[q as int] == (entries@[q as int].0@, fvalue(entries@[q as int].1)));
    let name = match &entries[q].1 {
        FormulaValue::Name(n) => copy_string(n),
        FormulaValue::SignalList(_) => {
            let m = crate::text::string_from("Instance name is not string");
            proof {
                reveal_strlit("Instance name is not string");
            }
            return Err(m);
        },
    };
    let mut atoms: Vec<(String, Vec<usize>)> = Vec::new();
    assert(atoms_view(atoms@) =~= Seq::<(Seq<char>, Seq<usize>)>::empty());
    assert(lookup(ev, "instance"@) == Some(FValue::Name(name@)));
    let mut i: usize = 0;
    while i < entries.len()
        invariant
            ev == entries_view(entries@),
            lookup(ev, "instance"@) == Some(FValue::Name(name@)),
            i <= entries@.len(),
            instance_atoms(ev, ignore_empty, i as nat) == Ok::<Seq<(Seq<char>, Seq<usize>)>, Seq<char>>(atoms_view(atoms@)),
        decreases entries@.len() - i,
    {
        assert(ev[i as int] == (entries@[i as int].0@, fvalue(entries@[i as int].1)));
        let is_name = crate::text::str_eq(entries[i].0.as_str(), "instance");
        if !is_name {
            match &entries[i].1 {
                FormulaValue::Name(_) => {
                    assert(instance_atoms(ev, ignore_empty, (i + 1) as nat) == Err::<Seq<(Seq<char>, Seq<usize>)>, Seq<char>>(not_a_list_message()));
                    proof {
                        lemma_instance_atoms_err(ev, ignore_empty, (i + 1) as nat, entries@.len());
                    }
                    let m = crate::text::string_from("Non-instance entry is not SignalList");
                    proof {
                        reveal_strlit("Non-instance entry is not SignalList");
                    }
                    return Err(m);
                },
                FormulaValue::SignalList(l) => {
                    let sigs = join_ids(l);
                    if !(ignore_empty && sigs.len() == 0) {
                        let ghost a0 = atoms@;
                        atoms.push((copy_string(&entries[i].0), sigs));
                        assert(atoms_view(atoms@) =~= atoms_view(a0).push((entries@[i as int].0@, sigs@)));
                    }
                },
            }
        }
        i = i + 1;
    }
    Ok((name, atoms))
}

proof fn lemma_instance_atoms_err(entries: Seq<(Seq<char>, FValue)>, ignore_empty: bool, i: nat, n: nat)
    requires
        i <= n <= entries.len(),
        instance_atoms(entries, ignore_empty, i) is Err,
    ensures
        instance_atoms(entries, ignore_empty, n) == instance_atoms(entries, ignore_empty, i),
    decreases n - i,
{
    if i < n {
        lemma_instance_atoms_err(entries, ignore_empty, i, (n - 1) as nat);
    }
}

pub open spec fn reads_view(v: Seq<(String, Vec<(String, Vec<usize>)>)>) -> Seq<(Seq<char>, Seq<(Seq<char>, Seq<usize>)>)> {
    v.map_values(|p: (String, Vec<(String, Vec<usize>)>)| (p.0@, atoms_view(p.1@)))
}

/// The instances grouped by name (see [`group_atoms`]), with the number of
/// atoms in all (one unit per atom).
fn group_read(read: &Vec<(String, Vec<(String, Vec<usize>)>)>) -> (r: (Vec<(String, Vec<FormulaAtom>)>, Vec<bool>))
    ensures
        group_views(r.0@) == group_atoms(reads_view(read@)),
        r.1@.len() == joined(group_atoms(reads_view(read@)).map_values(|p: (Seq<char>, Seq<(Seq<char>, Seq<usize>)>)| p.1)).len(),
{
    let ghost rv = reads_view(read@);
    let ghost names = rv.map_values(|p: (Seq<char>, Seq<(Seq<char>, Seq<usize>)>)| p.0);
    let mut name_list: Vec<String> = Vec::new();
    let mut j: usize = 0;
    while j < read.len()
        invariant
            rv == reads_view(read@),
            names == rv.map_values(|p: (Seq<char>, Seq<(Seq<char>, Seq<usize>)>)| p.0),
            j <= read@.len(),
            crate::strings::strs(name_list@) == names.take(j as int),
        decreases read@.len() - j,
    {
        let c = copy_string(&read[j].0);
        let ghost n0 = name_list@;
        name_list.push(c);
        assert(crate::strings::strs(name_list@) =~= crate::strings::strs(n0).push(c@));
        assert(names.take(j + 1) =~= names.take(j as int).push(names[j as int]));
        j = j + 1;
    }
    assert(names.take(read@.len() as int) =~= names);
    let groups = crate::strings::group_positions(&name_list);
    let n_read = read.len();
    let ghost ga = group_atoms(rv);
    let ghost order = crate::strings::add_all_unique(Seq::<Seq<char>>::empty(), names);
    let mut out: Vec<(String, Vec<FormulaAtom>)> = Vec::new();
    let mut units: Vec<bool> = Vec::new();
    let mut g: usize = 0;
    assert(ga.take(0).map_values(|p: (Seq<char>, Seq<(Seq<char>, Seq<usize>)>)| p.1) =~= Seq::<Seq<(Seq<char>, Seq<usize>)>>::empty());
    while g < groups.len()
        invariant
            rv == reads_view(read@),
            names == rv.map_values(|p: (Seq<char>, Seq<(Seq<char>, Seq<usize>)>)| p.0),
            crate::strings::strs(name_list@) == names,
            ga == group_atoms(rv),
            n_read == read@.len(),
            order == crate::strings::add_all_unique(Seq::<Seq<char>>::empty(), names),
            groups@.len() == order.len(),
            forall|q: int| 0 <= q < groups@.len() ==> (#[trigger] groups_view(groups@)[q]) == (order[q], positions(names, order[q], read@.len() as nat)),
            g <= groups@.len(),
            group_views(out@) == ga.take(g as int),
            units@.len() == joined(ga.take(g as int).map_values(|p: (Seq<char>, Seq<(Seq<char>, Seq<usize>)>)| p.1)).len(),
        decreases groups@.len() - g,
    {
        let idxs = &groups[g].1;
        assert(groups_view(groups@)[g as int] == (groups@[g as int].0@, idxs@));
        proof {
            crate::strings::lemma_positions_range(names, order[g as int], read@.len() as nat);
        }
        let ghost lists = idxs@.map_values(|j: usize| rv[j as int].1);
        let mut atoms: Vec<(String, Vec<usize>)> = Vec::new();
        let ghost u0 = units@.len();
        let mut t: usize = 0;
        assert(lists.take(0) =~= Seq::<Seq<(Seq<char>, Seq<usize>)>>::empty());
        assert(atoms_view(atoms@) =~= joined(lists.take(0)));
        while t < idxs.len()
            invariant
                rv == reads_view(read@),
                forall|i: int| 0 <= i < idxs@.len() ==> (#[trigger] idxs@[i]) < read@.len(),
                lists == idxs@.map_values(|j: usize| rv[j as int].1),
                t <= idxs@.len(),
                atoms_view(atoms@) == joined(lists.take(t as int)),
                units@.len() == u0 + atoms@.len(),
            decreases idxs@.len() - t,
        {
            let src = &read[idxs[t]].1;
            assert(rv[idxs@[t as int] as int] == (read@[idxs@[t as int] as int].0@, atoms_view(src@)));
            let ghost a0 = atoms@;
            let mut q: usize = 0;
            while q < src.len()
                invariant
                    q <= src@.len(),
                    atoms_view(atoms@) == atoms_view(a0) + atoms_view(src@).take(q as int),
                    units@.len() == u0 + atoms@.len(),
                    atoms@.len() == a0.len() + q,
                decreases src@.len() - q,
            {
                let ghost b0 = atoms@;
                atoms.push((copy_string(&src[q].0), crate::resolve::copy_ids(&src[q].1)));
                units.push(true);
                assert(atoms_view(atoms@) =~= atoms_view(b0).push((src@[q as int].0@, src@[q as int].1@)));
                assert(atoms_view(src@).take(q + 1) =~= atoms_view(src@).take(q as int).push((src@[q as int].0@, src@[q as int].1@)));
                assert(atoms_view(atoms@) =~= atoms_view(a0) + atoms_view(src@).take(q + 1));
                q = q + 1;
            }
            assert(atoms_view(src@).take(src@.len() as int) =~= atoms_view(src@));
            assert(lists.take(t + 1).drop_last() =~= lists.take(t as int));
            assert(lists[t as int] == atoms_view(src@));
            t = t + 1;
        }
        assert(lists.take(idxs@.len() as int) =~= lists);
        let made = make_atoms(&atoms);
        let ghost o0 = out@;
        let nm = copy_string(&groups[g].0);
        out.push((nm, made));
        proof {
            assert(ga[g as int] == (order[g as int], joined(lists)));
            assert(group_views(out@) =~= group_views(o0).push((nm@, atoms_view(atoms@))));
            assert(group_views(out@) =~= ga.take(g + 1));
            let f = |p: (Seq<char>, Seq<(Seq<char>, Seq<usize>)>)| p.1;
            assert(ga.take(g + 1).map_values(f).drop_last() =~= ga.take(g as int).map_values(f));
            assert(ga.take(g + 1).map_values(f).last() == joined(lists));
        }
        g = g + 1;
    }
    assert(ga.take(groups@.len() as int) =~= ga);
    (out, units)
}

pub open spec fn insts_view(v: Seq<Vec<(String, FormulaValue)>>) -> Seq<Seq<(Seq<char>, FValue)>> {
    v.map_values(|x: Vec<(String, FormulaValue)>| entries_view(x@))
}

pub open spec fn group_lists(gs: Seq<(Seq<char>, Seq<(Seq<char>, Seq<usize>)>)>) -> Seq<Seq<(Seq<char>, Seq<usize>)>> {
    gs.map_values(|p: (Seq<char>, Seq<(Seq<char>, Seq<usize>)>)| p.1)
}

/// The range of atoms of the group named `name`.
pub open spec fn group_range(gs: Seq<(Seq<char>, Seq<(Seq<char>, Seq<usize>)>)>, name: Seq<char>) -> Option<(usize, usize)> {
    match key_index(gs, name) {
        Some(i) => Some((joined(group_lists(gs).take(i)).len() as usize, joined(group_lists(gs).take(i + 1)).len() as usize)),
        None => None,
    }
}

/// `f` holds the atoms of the groups `gs` one group after the other, each
/// group's range by its name, and every signal they mention, increasing.
pub open spec fn formula_of(f: Formula, gs: Seq<(Seq<char>, Seq<(Seq<char>, Seq<usize>)>)>) -> bool {
    &&& f.atom_list().map_values(|a: FormulaAtom| aview(a)) == joined(group_lists(gs))
    &&& forall|name: Seq<char>| #[trigger] f.range_of(name) == group_range(gs, name)
    &&& increasing(f.signal_list())
    &&& f.signal_list().to_set() == atom_signals(f.atom_list())
}

proof fn lemma_joined_push<T>(lists: Seq<Seq<T>>, x: Seq<T>)
    ensures
        joined(lists.push(x)) == joined(lists) + x,
{
    assert(lists.push(x).drop_last() =~= lists);
}

proof fn lemma_concat_views(v: Seq<(String, Vec<FormulaAtom>)>, k: nat)
    requires
        k <= v.len(),
    ensures
        concat_atoms(comps_view(v), k).map_values(|a: FormulaAtom| aview(a)) == joined(group_lists(group_views(v)).take(k as int)),
        concat_atoms(comps_view(v), k).len() == joined(group_lists(group_views(v)).take(k as int)).len(),
    decreases k,
{
    let gl = group_lists(group_views(v));
    if k == 0 {
        assert(gl.take(0) =~= Seq::<Seq<(Seq<char>, Seq<usize>)>>::empty());
        assert(concat_atoms(comps_view(v), k).map_values(|a: FormulaAtom| aview(a)) =~= Seq::<(Seq<char>, Seq<usize>)>::empty());
    } else {
        lemma_concat_views(v, (k - 1) as nat);
        assert(gl.take(k as int) =~= gl.take(k - 1).push(gl[k - 1]));
        lemma_joined_push(gl.take(k - 1), gl[k - 1]);
        let prev = concat_atoms(comps_view(v), (k - 1) as nat);
        let last = comps_view(v)[k - 1].1;
        assert(last == v[k - 1].1@);
        assert(gl[k - 1] == v[k - 1].1@.map_values(|a: FormulaAtom| aview(a)));
        assert((prev + last).map_values(|a: FormulaAtom| aview(a)) =~= prev.map_values(|a: FormulaAtom| aview(a)) + last.map_values(|a: FormulaAtom| aview(a)));
    }
}

proof fn lemma_last_range(v: Seq<(String, Vec<FormulaAtom>)>, k: nat, name: Seq<char>)
    requires
        k <= v.len(),
        crate::strings::no_dups(group_views(v).map_values(|p: (Seq<char>, Seq<(Seq<char>, Seq<usize>)>)| p.0)),
    ensures
        last_range(comps_view(v), k, name) == group_range(group_views(v).take(k as int), name),
    decreases k,
{
    let gv = group_views(v);
    let nms = gv.map_values(|p: (Seq<char>, Seq<(Seq<char>, Seq<usize>)>)| p.0);
    if k > 0 {
        lemma_last_range(v, (k - 1) as nat, name);
        let t = gv.take(k as int);
        assert(t.drop_last() =~= gv.take(k - 1));
        assert(group_lists(t).take(k - 1) =~= group_lists(gv.take(k - 1)));
        assert(group_lists(t) =~= group_lists(gv).take(k as int));
        assert(group_lists(gv.take(k - 1)) =~= group_lists(gv).take(k - 1));
        lemma_concat_views(v, k);
        lemma_concat_views(v, (k - 1) as nat);
        assert(comps_view(v)[k - 1].0 == gv[k - 1].0);
        lemma_key_index(t, name);
        lemma_key_index(gv.take(k - 1), name);
        if gv[k - 1].0 == name {
            assert(key_index(t, name) == Some(k - 1)) by {
                if let Some(i) = key_index(t, name) {
                    if i < k - 1 {
                        assert(nms[i] == t[i].0 && nms[k - 1] == gv[k - 1].0);
                    }
                }
            }
            assert(group_lists(t).take(k - 1) =~= group_lists(gv).take(k - 1));
            assert(group_lists(t).take(k as int) =~= group_lists(gv).take(k as int));
        } else {
            assert(key_index(t, name) == key_index(gv.take(k - 1), name)) by {
                crate::tags::lemma_key_index_push(gv.take(k - 1), gv[k - 1], name);
                assert(gv.take(k - 1).push(gv[k - 1]) =~= t);
            }
            if let Some(i) = key_index(t, name) {
                assert(group_lists(t).take(i) =~= group_lists(gv.take(k - 1)).take(i));
                assert(group_lists(t).take(i + 1) =~= group_lists(gv.take(k - 1)).take(i + 1));
            }
        }
    }
}

pub open spec fn reads_result(r: Result<Vec<(String, Vec<(String, Vec<usize>)>)>, String>) -> Result<Seq<(Seq<char>, Seq<(Seq<char>, Seq<usize>)>)>, Seq<char>> {
    match r {
        Ok(v) => Ok(reads_view(v@)),
        Err(e) => Err(e@),
    }
}

proof fn lemma_read_instances_err(insts: Seq<Seq<(Seq<char>, FValue)>>, ignore_empty: bool, i: nat, n: nat)
    requires
        i <= n <= insts.len(),
        read_instances(insts, ignore_empty, i) is Err,
    ensures
        read_instances(insts, ignore_empty, n) == read_instances(insts, ignore_empty, i),
    decreases n - i,
{
    if i < n {
        lemma_read_instances_err(insts, ignore_empty, i, (n - 1) as nat);
    }
}

/// Every instance read (see [`read_instances`]).
fn read_formula_instances(instances: &Vec<Vec<(String, FormulaValue)>>, ignore_empty: bool) -> (r: Result<Vec<(String, Vec<(String, Vec<usize>)>)>, String>)
    ensures
        reads_result(r) == read_instances(insts_view(instances@), ignore_empty, instances@.len()),
{
    let ghost iv = insts_view(instances@);
    let mut out: Vec<(String, Vec<(String, Vec<usize>)>)> = Vec::new();
    let mut k: usize = 0;
    assert(reads_view(out@) =~= Seq::<(Seq<char>, Seq<(Seq<char>, Seq<usize>)>)>::empty());
    while k < instances.len()
        invariant
            iv == insts_view(instances@),
            k <= instances@.len(),
            read_instances(iv, ignore_empty, k as nat) == Ok::<Seq<(Seq<char>, Seq<(Seq<char>, Seq<usize>)>)>, Seq<char>>(reads_view(out@)),
        decreases instances@.len() - k,
    {
        assert(iv[k as int] == entries_view(instances@[k as int]@));
        match read_formula_instance(&instances[k], ignore_empty) {
            Err(e) => {
                proof {
                    lemma_read_instances_err(iv, ignore_empty, (k + 1) as nat, instances@.len());
                }
                return Err(e);
            },
            Ok(x) => {
                let ghost o0 = out@;
                let ghost xv = (x.0@, atoms_view(x.1@));
                out.push(x);
                assert(reads_view(out@) =~= reads_view(o0).push(xv));
            },
        }
        k = k + 1;
    }
    Ok(out)
}

pub open spec fn ignore_flag(ignore_empty_atoms: Option<bool>) -> bool {
    match ignore_empty_atoms {
        Some(b) => b,
        None => true,
    }
}

/// A formula from the instances of a formula file, each given by its
/// entries: its `"instance"` name, and one list of signal lists per atom.
/// The instances of one name are joined into one contiguous range, names in
/// the order they first appear; atoms that mention no signal are dropped
/// unless `ignore_empty_atoms` is `Some(false)`. An instance without a name,
/// a name that is not a string, and an atom that is not a list are errors.
pub fn formula_from_instances(
    prime: &BigInt,
    instances: &Vec<Vec<(String, FormulaValue)>>,
    input_signals: HashSet<usize>,
    output_signals: HashSet<usize>,
    ignore_empty_atoms: Option<bool>,
) -> (r: Result<Formula, String>)
    ensures
        match read_instances(insts_view(instances@), ignore_flag(ignore_empty_atoms), instances@.len()) {
            Err(e) => r matches Err(x) && x@ == e,
            Ok(rd) => r matches Ok(f) && formula_of(f, group_atoms(rd)) && f.inputs() == input_signals@
                && f.outputs() == output_signals@ && f.prime_value() == *prime,
        },
{
    let ignore = match ignore_empty_atoms {
        Some(b) => b,
        None => true,
    };
    let read = match read_formula_instances(instances, ignore) {
        Err(e) => {
            return Err(e);
        },
        Ok(v) => v,
    };
    let (grouped, units) = group_read(&read);
    let ghost gs = group_atoms(reads_view(read@));
    proof {
        lemma_concat_views(grouped@, grouped@.len());
        assert(group_lists(group_views(grouped@)).take(grouped@.len() as int) =~= group_lists(gs));
    }
    let n = grouped.len();
    let ghost gv = group_views(grouped@);
    proof {
        let names = reads_view(read@).map_values(|p: (Seq<char>, Seq<(Seq<char>, Seq<usize>)>)| p.0);
        crate::strings::lemma_add_all_unique(Seq::<Seq<char>>::empty(), names);
        let nms = gv.map_values(|p: (Seq<char>, Seq<(Seq<char>, Seq<usize>)>)| p.0);
        assert(nms =~= crate::strings::add_all_unique(Seq::<Seq<char>>::empty(), names));
        assert forall|name: Seq<char>| last_range(comps_view(grouped@), n as nat, name) == group_range(gs, name) by {
            lemma_last_range(grouped@, n as nat, name);
            assert(gv.take(n as int) =~= gs);
        }
    }
    let total = units.len();
    assert(concat_atoms(comps_view(grouped@), grouped@.len()).len() == total);
    let f = Formula::from_atoms(prime, grouped, input_signals, output_signals);
    Ok(f)
}

} // verus!
