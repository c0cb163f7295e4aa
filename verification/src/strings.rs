//! Sequences of strings: views, duplicate-free insertion and comparison of
//! `String`s by their characters.
use vstd::prelude::*;
use crate::text::{push_str, str_eq, string_from};

verus! {

/// The character sequences of a sequence of strings.
pub open spec fn strs(v: Seq<String>) -> Seq<Seq<char>> {
    v.map_values(|s: String| s@)
}

/// `acc` with `x` appended unless it is already there.
pub open spec fn add_unique<T>(acc: Seq<T>, x: T) -> Seq<T> {
    if acc.contains(x) {
        acc
    } else {
        acc.push(x)
    }
}

/// `acc` extended, in order, with every element of `xs` not yet present.
pub open spec fn add_all_unique<T>(acc: Seq<T>, xs: Seq<T>) -> Seq<T>
    decreases xs.len(),
{
    if xs.len() == 0 {
        acc
    } else {
        add_unique(add_all_unique(acc, xs.drop_last()), xs.last())
    }
}

/// No element occurs twice.
pub open spec fn no_dups<T>(s: Seq<T>) -> bool {
    forall|i: int, j: int| 0 <= i < j < s.len() ==> s[i] != s[j]
}

pub proof fn lemma_add_all_unique<T>(acc: Seq<T>, xs: Seq<T>)
    ensures
        no_dups(acc) ==> no_dups(add_all_unique(acc, xs)),
        forall|x: T| #[trigger] add_all_unique(acc, xs).contains(x) <==> (acc.contains(x)
            || xs.contains(x)),
    decreases xs.len(),
{
    if xs.len() > 0 {
        lemma_add_all_unique(acc, xs.drop_last());
        let r = add_all_unique(acc, xs.drop_last());
        assert forall|x: T| #[trigger] add_all_unique(acc, xs).contains(x) <==> (
        acc.contains(x) || xs.contains(x)) by {
            if xs.contains(x) && !xs.drop_last().contains(x) {
                let k = choose|k: int| 0 <= k < xs.len() && xs[k] == x;
                if k < xs.len() - 1 {
                    assert(xs.drop_last()[k] == x);
                }
            }
            if xs.drop_last().contains(x) {
                let k = choose|k: int| 0 <= k < xs.drop_last().len() && xs.drop_last()[k] == x;
                assert(xs[k] == x);
            }
            if !r.contains(xs.last()) {
                if r.push(xs.last()).contains(x) && x != xs.last() {
                    let k = choose|k: int| 0 <= k < r.push(xs.last()).len() && r.push(xs.last())[k] == x;
                    assert(r[k] == x);
                }
                if r.contains(x) {
                    let k = choose|k: int| 0 <= k < r.len() && r[k] == x;
                    assert(r.push(xs.last())[k] == x);
                }
                assert(r.push(xs.last())[r.len() as int] == xs.last());
            }
        }
    }
}

/// Whether two strings have the same characters.
pub fn string_eq(a: &String, b: &String) -> (r: bool)
    ensures
        r == (a@ == b@),
{
    str_eq(a.as_str(), b.as_str())
}

/// A copy of `s`.
pub fn copy_string(s: &String) -> (r: String)
    ensures
        r@ == s@,
{
    string_from(s.as_str())
}

/// A copy of a vector of strings.
pub fn copy_strings(v: &Vec<String>) -> (r: Vec<String>)
    ensures
        strs(r@) == strs(v@),
{
    let mut r: Vec<String> = Vec::new();
    let mut i: usize = 0;
    while i < v.len()
        invariant
            i <= v@.len(),
            r@.len() == i,
            forall|k: int| 0 <= k < i ==> #[trigger] r@[k]@ == v@[k]@,
        decreases v@.len() - i,
    {
        r.push(copy_string(&v[i]));
        i = i + 1;
    }
    assert(strs(r@) =~= strs(v@));
    r
}

/// Whether `v` holds a string with the characters of `s`.
pub fn contains_str(v: &Vec<String>, s: &str) -> (r: bool)
    ensures
        r == strs(v@).contains(s@),
{
    let mut i: usize = 0;
    while i < v.len()
        invariant
            i <= v@.len(),
            forall|k: int| 0 <= k < i ==> v@[k]@ != s@,
        decreases v@.len() - i,
    {
        if str_eq(v[i].as_str(), s) {
            assert(strs(v@)[i as int] == s@);
            return true;
        }
        i = i + 1;
    }
    assert forall|k: int| 0 <= k < strs(v@).len() implies strs(v@)[k] != s@ by {
        assert(strs(v@)[k] == v@[k]@);
    }
    false
}

/// Appends `s` to `v` unless `v` already holds it.
pub fn push_unique(v: &mut Vec<String>, s: &str)
    ensures
        strs(final(v)@) == add_unique(strs(old(v)@), s@),
{
    if !contains_str(v, s) {
        v.push(string_from(s));
        assert(strs(v@) =~= strs(old(v)@).push(s@));
    }
}

/// Appends, in order, every string of `xs` that `v` does not hold yet.
pub fn push_all_unique(v: &mut Vec<String>, xs: &Vec<String>)
    ensures
        strs(final(v)@) == add_all_unique(strs(old(v)@), strs(xs@)),
{
    let mut i: usize = 0;
    while i < xs.len()
        invariant
            i <= xs@.len(),
            strs(v@) == add_all_unique(strs(old(v)@), strs(xs@.subrange(0, i as int))),
        decreases xs@.len() - i,
    {
        push_unique(v, xs[i].as_str());
        assert(strs(xs@.subrange(0, i + 1)).drop_last() =~= strs(xs@.subrange(0, i as int)));
        i = i + 1;
    }
    assert(xs@.subrange(0, xs@.len() as int) =~= xs@);
}

/// The positions among the first `k` names of those equal to `g`.
pub open spec fn positions(names: Seq<Seq<char>>, g: Seq<char>, k: nat) -> Seq<usize>
    decreases k,
{
    if k == 0 || k > names.len() {
        Seq::empty()
    } else {
        positions(names, g, (k - 1) as nat) + if names[k - 1] == g {
            seq![(k - 1) as usize]
        } else {
            Seq::empty()
        }
    }
}

/// The `(name, positions)` values of a grouping.
pub open spec fn groups_view(v: Seq<(String, Vec<usize>)>) -> Seq<(Seq<char>, Seq<usize>)> {
    v.map_values(|p: (String, Vec<usize>)| (p.0@, p.1@))
}

pub proof fn lemma_positions_range(names: Seq<Seq<char>>, g: Seq<char>, k: nat)
    requires
        k <= names.len(),
        k <= usize::MAX,
    ensures
        forall|i: int| 0 <= i < positions(names, g, k).len() ==> (#[trigger] positions(names, g, k)[i]) < k
            && names[positions(names, g, k)[i] as int] == g,
    decreases k,
{
    if k > 0 {
        lemma_positions_range(names, g, (k - 1) as nat);
        let prev = positions(names, g, (k - 1) as nat);
        let tail = if names[k - 1] == g { seq![(k - 1) as usize] } else { Seq::<usize>::empty() };
        assert(positions(names, g, k) == prev + tail);
        assert forall|i: int| 0 <= i < positions(names, g, k).len() implies (#[trigger] positions(names, g, k)[i]) < k
            && names[positions(names, g, k)[i] as int] == g by {
            if i < prev.len() {
                assert(positions(names, g, k)[i] == prev[i]);
            } else {
                assert(positions(names, g, k)[i] == tail[i - prev.len()]);
            }
        }
    }
}

proof fn lemma_positions_absent(names: Seq<Seq<char>>, nm: Seq<char>, k: nat)
    requires
        k <= names.len(),
        !add_all_unique(Seq::<Seq<char>>::empty(), names.take(k as int)).contains(nm),
    ensures
        positions(names, nm, k) == Seq::<usize>::empty(),
    decreases k,
{
    lemma_add_all_unique(Seq::<Seq<char>>::empty(), names.take(k as int));
    if k > 0 {
        let prev = names.take(k - 1);
        lemma_add_all_unique(Seq::<Seq<char>>::empty(), prev);
        assert(names.take(k as int) =~= prev.push(names[k - 1]));
        assert(!add_all_unique(Seq::<Seq<char>>::empty(), prev).contains(nm)) by {
            if prev.contains(nm) {
                let z = choose|z: int| 0 <= z < prev.len() && #[trigger] prev[z] == nm;
                assert(names.take(k as int)[z] == nm);
            }
        }
        lemma_positions_absent(names, nm, (k - 1) as nat);
        assert(names[k - 1] != nm) by {
            assert(names.take(k as int)[k - 1] == names[k - 1]);
        }
    }
}

/// Groups the positions of `names` by name, names in the order they first
/// appear, the positions of one name in increasing order.
pub fn group_positions(names: &Vec<String>) -> (r: Vec<(String, Vec<usize>)>)
    ensures
        r@.len() == add_all_unique(Seq::<Seq<char>>::empty(), strs(names@)).len(),
        forall|g: int| 0 <= g < r@.len() ==> (#[trigger] groups_view(r@)[g]) == (
            add_all_unique(Seq::<Seq<char>>::empty(), strs(names@))[g],
            positions(strs(names@), add_all_unique(Seq::<Seq<char>>::empty(), strs(names@))[g], names@.len()),
        ),
{
    let ghost ns = strs(names@);
    let mut groups: Vec<(String, Vec<usize>)> = Vec::new();
    let mut j: usize = 0;
    assert(ns.take(0) =~= Seq::<Seq<char>>::empty());
    while j < names.len()
        invariant
            ns == strs(names@),
            j <= ns.len(),
            groups@.len() == add_all_unique(Seq::<Seq<char>>::empty(), ns.take(j as int)).len(),
            forall|g: int| 0 <= g < groups@.len() ==> (#[trigger] groups_view(groups@)[g]) == (
                add_all_unique(Seq::<Seq<char>>::empty(), ns.take(j as int))[g],
                positions(ns, add_all_unique(Seq::<Seq<char>>::empty(), ns.take(j as int))[g], j as nat),
            ),
        decreases ns.len() - j,
    {
        let ghost names0 = add_all_unique(Seq::<Seq<char>>::empty(), ns.take(j as int));
        let ghost gv0 = groups_view(groups@);
        let ghost nm = ns[j as int];
        assert(ns.take(j + 1) =~= ns.take(j as int).push(nm));
        assert(ns.take(j + 1).drop_last() =~= ns.take(j as int));
        assert(ns.take(j + 1).last() == nm);
        proof {
            lemma_add_all_unique(Seq::<Seq<char>>::empty(), ns.take(j as int));
        }
        let mut g: usize = 0;
        let mut found = false;
        while g < groups.len() && !found
            invariant
                ns == strs(names@),
                j < ns.len(),
                nm == ns[j as int],
                gv0 == groups_view(groups@),
                g <= groups@.len(),
                !found ==> forall|h: int| 0 <= h < g ==> gv0[h].0 != nm,
                found ==> g > 0 && gv0[g - 1].0 == nm,
            decreases groups@.len() - g + if found { 0int } else { 1int },
        {
            assert(gv0[g as int].0 == groups@[g as int].0@);
            if string_eq(&groups[g].0, &names[j]) {
                found = true;
            }
            g = g + 1;
        }
        let ghost names1 = add_all_unique(Seq::<Seq<char>>::empty(), ns.take((j + 1) as int));
        if found {
            let h = g - 1;
            assert(names0.contains(nm)) by {
                assert(names0[h as int] == nm);
            }
            assert(names1 == names0);
            let ghost r0 = groups@;
            let (t, mut idxs) = groups.remove(h);
            idxs.push(j);
            let ghost e1 = (t, idxs);
            groups.insert(h, (t, idxs));
            assert(groups@ =~= r0.update(h as int, e1));
            assert forall|q: int| 0 <= q < groups@.len() implies (#[trigger] groups_view(groups@)[q]) == (names1[q], positions(ns, names1[q], (j + 1) as nat)) by {
                if q != h {
                    assert(groups@[q] == r0[q]);
                    assert(gv0[q].0 != nm) by {
                        assert(gv0[q].0 == names0[q]);
                        assert(gv0[h as int].0 == names0[h as int]);
                    }
                } else {
                    assert(positions(ns, nm, (j + 1) as nat) =~= positions(ns, nm, j as nat).push(j));
                }
            }
        } else {
            assert(!names0.contains(nm)) by {
                if names0.contains(nm) {
                    let h = choose|h: int| 0 <= h < names0.len() && names0[h] == nm;
                    assert(gv0[h].0 == nm);
                }
            }
            assert(names1 =~= names0.push(nm));
            let mut idxs: Vec<usize> = Vec::new();
            idxs.push(j);
            let ghost iv = idxs@;
            let ghost r0 = groups@;
            groups.push((copy_string(&names[j]), idxs));
            assert(positions(ns, nm, j as nat) =~= Seq::<usize>::empty()) by {
                lemma_positions_absent(ns, nm, j as nat);
            }
            assert forall|q: int| 0 <= q < groups@.len() implies (#[trigger] groups_view(groups@)[q]) == (names1[q], positions(ns, names1[q], (j + 1) as nat)) by {
                if q < r0.len() {
                    assert(groups@[q] == r0[q]);
                    assert(groups_view(groups@)[q] == gv0[q]);
                    assert(names1[q] == names0[q]);
                    assert(names0[q] != nm);
                    assert(positions(ns, names0[q], (j + 1) as nat) =~= positions(ns, names0[q], j as nat));
                } else {
                    assert(q == r0.len());
                    assert(names1[q] == nm);
                    assert(iv =~= seq![j]);
                    assert(positions(ns, nm, (j + 1) as nat) =~= seq![j]);
                }
            }
        }
        j = j + 1;
    }
    assert(ns.take(ns.len() as int) =~= ns);
    groups
}

} // verus!
