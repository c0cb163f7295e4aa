//! Rank-1 constraints `A * B = C` over the signals of a circuit.
use vstd::prelude::*;
use std::collections::{HashMap, HashSet};
use num_bigint_dig::BigInt;
use vstd::std_specs::iter::IteratorSpec;

verus! {

broadcast use vstd::std_specs::hash::group_hash_axioms;

#[verifier::external_type_specification]
#[verifier::external_body]
pub struct ExBigInt(BigInt);

/// A copy of a big integer: `num_bigint_dig::BigInt::clone`, the derived
/// clone, which copies the sign and the digits, so the copy is the same value.
#[verifier::external_body]
pub(crate) fn clone_bigint(x: &BigInt) -> (r: BigInt)
    ensures
        r == *x,
{
    x.clone()
}

pub proof fn lemma_push_to_set(x: Seq<usize>, a: usize)
    ensures
        x.push(a).to_set() == x.to_set().insert(a),
{
    assert forall|y: usize| x.push(a).to_set().contains(y) == x.to_set().insert(a).contains(y) by {
        if x.push(a).contains(y) && y != a {
            let k = choose|k: int| 0 <= k < x.push(a).len() && x.push(a)[k] == y;
            assert(x[k] == y);
        }
        if x.contains(y) {
            let k = choose|k: int| 0 <= k < x.len() && x[k] == y;
            assert(x.push(a)[k] == y);
        }
        if y == a {
            assert(x.push(a)[x.len() as int] == a);
        }
    }
    assert(x.push(a).to_set() =~= x.to_set().insert(a));
}

fn keys_into(m: &HashMap<usize, BigInt>, s: &mut HashSet<usize>)
    ensures
        final(s)@ == old(s)@.union(m@.dom()),
{
    let ghost s0 = s@;
    let ghost ks = vstd::std_specs::hash::spec_keys_iter(m).remaining();
    proof {
        vstd::std_specs::hash::axiom_spec_keys_iter(m);
    }
    for k in it: m.keys()
        invariant
            it.seq() == ks,
            ks.unref().to_set() == m@.dom(),
            s@ == s0.union(ks.take(it.index()).unref().to_set()),
    {
        assert(ks.take(it.index() + 1) =~= ks.take(it.index()).push(k));
        s.insert(*k);
        assert(ks.take(it.index() + 1).unref() =~= ks.take(it.index()).unref().push(*k));
        proof {
            lemma_push_to_set(ks.take(it.index()).unref(), *k);
        }
        assert(s@ =~= s0.union(ks.take(it.index() + 1).unref().to_set()));
    }
    assert(ks.take(ks.len() as int) =~= ks);
}


/// The header of an r1cs file.
pub struct HeaderData {
    pub field: BigInt,
    pub field_size: usize,
    pub total_wires: usize,
    pub public_outputs: usize,
    pub public_inputs: usize,
    pub private_inputs: usize,
    pub number_of_labels: usize,
    pub number_of_constraints: usize,
}

/// The sections of an r1cs file.
pub struct R1CSData {
    pub header_data: HeaderData,
    pub constraints: Vec<R1CSConstraint>,
    pub signals: Vec<usize>,
    custom_gates: bool,
    custom_gates_used_data: Option<Vec<(String, Vec<BigInt>)>>,
    custom_gates_applied_data: Option<Vec<(usize, Vec<usize>)>>,
}

/// A constraint `A * B = C`, each side a linear combination: signal to
/// coefficient. Signal 0 stands for the constant 1.
pub struct R1CSConstraint {
    pub(crate) a: HashMap<usize, BigInt>,
    pub(crate) b: HashMap<usize, BigInt>,
    pub(crate) c: HashMap<usize, BigInt>,
}

impl R1CSConstraint {
    pub closed spec fn va(self) -> Map<usize, BigInt> {
        self.a@
    }

    pub closed spec fn vb(self) -> Map<usize, BigInt> {
        self.b@
    }

    pub closed spec fn vc(self) -> Map<usize, BigInt> {
        self.c@
    }

    /// The signals of the three sides.
    pub open spec fn all_signals(self) -> Set<usize> {
        self.va().dom().union(self.vb().dom()).union(self.vc().dom())
    }

    pub fn new(a: HashMap<usize, BigInt>, b: HashMap<usize, BigInt>, c: HashMap<usize, BigInt>) -> (r: R1CSConstraint)
        ensures
            r.va() == a@,
            r.vb() == b@,
            r.vc() == c@,
    {
        R1CSConstraint { a, b, c }
    }

    /// The constraint with three empty sides.
    pub fn empty() -> (r: R1CSConstraint)
        ensures
            r.va() == Map::<usize, BigInt>::empty(),
            r.vb() == Map::<usize, BigInt>::empty(),
            r.vc() == Map::<usize, BigInt>::empty(),
    {
        R1CSConstraint::new(HashMap::with_capacity(0), HashMap::with_capacity(0), HashMap::with_capacity(0))
    }

    /// The signal that stands for the constant 1.
    pub fn constant_coefficient() -> (r: usize)
        ensures
            r == 0,
    {
        0
    }

    /// Whether `A` and `B` are both empty, leaving `C` a linear equation.
    pub fn is_linear(constraint: &R1CSConstraint) -> (r: bool)
        ensures
            r == (constraint.va().is_empty() && constraint.vb().is_empty()),
    {
        constraint.a.is_empty() && constraint.b.is_empty()
    }

    /// Every signal of the constraint but the constant one.
    pub fn take_cloned_signals(&self) -> (r: HashSet<usize>)
        ensures
            r@ == self.all_signals().remove(0),
    {
        let mut signals: HashSet<usize> = HashSet::new();
        keys_into(&self.a, &mut signals);
        keys_into(&self.b, &mut signals);
        keys_into(&self.c, &mut signals);
        signals.remove(&0);
        assert(signals@ =~= self.all_signals().remove(0));
        signals
    }

    /// Every signal of the constraint but the constant one.
    pub fn take_signals(&self) -> (r: HashSet<usize>)
        ensures
            r@ == self.all_signals().remove(0),
    {
        let cc = R1CSConstraint::constant_coefficient();
        let mut signals: HashSet<usize> = HashSet::new();
        keys_into(&self.a, &mut signals);
        keys_into(&self.b, &mut signals);
        keys_into(&self.c, &mut signals);
        signals.remove(&cc);
        assert(signals@ =~= self.all_signals().remove(0));
        signals
    }

    /// The signals of `C` that are in neither `A` nor `B`, but the constant one.
    pub fn take_only_linear_signals(&self) -> (r: HashSet<usize>)
        ensures
            r@ == self.vc().dom().difference(self.va().dom()).difference(self.vb().dom()).remove(0),
    {
        let cc = R1CSConstraint::constant_coefficient();
        let mut signals: HashSet<usize> = HashSet::new();
        keys_into(&self.c, &mut signals);
        keys_out_of(&self.a, &mut signals);
        keys_out_of(&self.b, &mut signals);
        signals.remove(&cc);
        assert(signals@ =~= self.vc().dom().difference(self.va().dom()).difference(self.vb().dom()).remove(0));
        signals
    }

    /// Whether all three sides are empty.
    pub fn is_empty(&self) -> (r: bool)
        ensures
            r == (self.va().is_empty() && self.vb().is_empty() && self.vc().is_empty()),
    {
        self.a.is_empty() && self.b.is_empty() && self.c.is_empty()
    }

    /// Whether the constant signal occurs in `A` or in `B`.
    pub fn has_constant_coefficient(&self) -> (r: bool)
        ensures
            r == (self.va().dom().contains(0) || self.vb().dom().contains(0)),
    {
        let cc = R1CSConstraint::constant_coefficient();
        self.a.contains_key(&cc) || self.b.contains_key(&cc) || self.a.contains_key(&cc)
    }

    pub fn a(&self) -> (r: &HashMap<usize, BigInt>)
        ensures
            r@ == self.va(),
    {
        &self.a
    }

    pub fn b(&self) -> (r: &HashMap<usize, BigInt>)
        ensures
            r@ == self.vb(),
    {
        &self.b
    }

    pub fn c(&self) -> (r: &HashMap<usize, BigInt>)
        ensures
            r@ == self.vc(),
    {
        &self.c
    }
}

fn keys_out_of(m: &HashMap<usize, BigInt>, s: &mut HashSet<usize>)
    ensures
        final(s)@ == old(s)@.difference(m@.dom()),
{
    let ghost s0 = s@;
    let ghost ks = vstd::std_specs::hash::spec_keys_iter(m).remaining();
    proof {
        vstd::std_specs::hash::axiom_spec_keys_iter(m);
    }
    for k in it: m.keys()
        invariant
            it.seq() == ks,
            ks.unref().to_set() == m@.dom(),
            s@ == s0.difference(ks.take(it.index()).unref().to_set()),
    {
        assert(ks.take(it.index() + 1).unref() =~= ks.take(it.index()).unref().push(*k));
        proof {
            lemma_push_to_set(ks.take(it.index()).unref(), *k);
        }
        s.remove(k);
        assert(s@ =~= s0.difference(ks.take(it.index() + 1).unref().to_set()));
    }
    assert(ks.take(ks.len() as int) =~= ks);
}

} // verus!
