//! Circuits given as generic arithmetic expressions over signals (an AIR
//! description), and their preparation for clustering: each constraint
//! carries the signals it mentions.
use vstd::prelude::*;
use std::collections::HashSet;
use crate::strings::no_dups;

verus! {

broadcast use vstd::std_specs::hash::group_hash_axioms;

/// A lookup argument: the tuples on the left are found among those on the right.
pub struct LookupData {
    pub left: Vec<ExpressionData>,
    pub right: Vec<ExpressionData>,
}

/// An AIR circuit as described in its input file.
pub struct AIRData {
    pub constraints: Vec<ExpressionData>,
    pub signals: Vec<usize>,
    pub inputs: Vec<usize>,
    pub outputs: Vec<usize>,
    pub lookups: Vec<LookupData>,
}

/// An AIR circuit ready for clustering: each constraint with its signals,
/// inputs and outputs as sets.
pub struct AIRDataWrapper {
    pub constraints: Vec<ExpressionWrapper>,
    pub signals: Vec<usize>,
    pub inputs: HashSet<usize>,
    pub outputs: HashSet<usize>,
    pub lookups: Vec<LookupData>,
}

pub struct BinaryExpressionData {
    pub operator: String,
    pub left: Box<ExpressionData>,
    pub right: Box<ExpressionData>,
}

pub struct UnaryExpressionData {
    pub operator: String,
    pub value: Box<ExpressionData>,
}

pub struct RangeData {
    pub expression: Box<ExpressionData>,
    pub min: String,
    pub max: String,
}

/// An arithmetic expression over signals.
pub enum ExpressionData {
    BinaryExpression(BinaryExpressionData),
    UnaryExpression(UnaryExpressionData),
    Signal(usize),
    Constant(String),
    Range(RangeData),
}

/// A constraint together with the signals it mentions.
pub struct ExpressionWrapper {
    pub expression: ExpressionData,
    pub signals: Vec<usize>,
}

/// The signals an expression mentions.
pub open spec fn expression_signals(e: ExpressionData) -> Set<usize>
    decreases e,
{
    match e {
        ExpressionData::BinaryExpression(inner) => expression_signals(*inner.left).union(
            expression_signals(*inner.right),
        ),
        ExpressionData::UnaryExpression(inner) => expression_signals(*inner.value),
        ExpressionData::Range(inner) => expression_signals(*inner.expression),
        ExpressionData::Signal(sig) => set![sig],
        ExpressionData::Constant(_) => Set::empty(),
    }
}

fn push_new(v: &mut Vec<usize>, x: usize)
    requires
        no_dups(old(v)@),
    ensures
        no_dups(final(v)@),
        final(v)@.to_set() == old(v)@.to_set().insert(x),
{
    let ghost o = v@;
    let mut i: usize = 0;
    while i < v.len()
        invariant
            v@ == o,
            no_dups(o),
            i <= o.len(),
            forall|k: int| 0 <= k < i ==> o[k] != x,
        decreases o.len() - i,
    {
        if v[i] == x {
            assert(o.to_set().insert(x) =~= o.to_set());
            return;
        }
        i = i + 1;
    }
    v.push(x);
    assert forall|y: usize| v@.to_set().contains(y) == o.to_set().insert(x).contains(y) by {
        if v@.contains(y) && y != x {
            let k = choose|k: int| 0 <= k < v@.len() && v@[k] == y;
            assert(o[k] == y);
        }
        if o.contains(y) {
            let k = choose|k: int| 0 <= k < o.len() && o[k] == y;
            assert(v@[k] == y);
        }
        if y == x {
            assert(v@[o.len() as int] == x);
        }
    }
    assert(v@.to_set() =~= o.to_set().insert(x));
}

fn collect_signals(con: &ExpressionData, signals: &mut Vec<usize>)
    requires
        no_dups(old(signals)@),
    ensures
        no_dups(final(signals)@),
        final(signals)@.to_set() == old(signals)@.to_set().union(expression_signals(*con)),
    decreases con,
{
    let ghost s0 = signals@.to_set();
    match con {
        ExpressionData::BinaryExpression(inner) => {
            collect_signals(&inner.left, signals);
            collect_signals(&inner.right, signals);
            assert(signals@.to_set() =~= s0.union(expression_signals(*con)));
        },
        ExpressionData::UnaryExpression(inner) => {
            collect_signals(&inner.value, signals);
        },
        ExpressionData::Range(inner) => {
            collect_signals(&inner.expression, signals);
        },
        ExpressionData::Signal(sig) => {
            push_new(signals, *sig);
            assert(signals@.to_set() =~= s0.union(expression_signals(*con)));
        },
        ExpressionData::Constant(_) => {
            assert(signals@.to_set() =~= s0.union(expression_signals(*con)));
        },
    }
}

fn set_of(v: &Vec<usize>) -> (r: HashSet<usize>)
    ensures
        r@ == v@.to_set(),
{
    let mut r: HashSet<usize> = HashSet::new();
    let mut i: usize = 0;
    while i < v.len()
        invariant
            i <= v@.len(),
            r@ == v@.take(i as int).to_set(),
        decreases v@.len() - i,
    {
        r.insert(v[i]);
        proof {
            assert(v@.take(i + 1) =~= v@.take(i as int).push(v@[i as int]));
            crate::r1cs::lemma_push_to_set(v@.take(i as int), v@[i as int]);
        }
        i = i + 1;
    }
    assert(v@.take(v@.len() as int) =~= v@);
    r
}

/// Each constraint with the signals it mentions (each once, in the order
/// first met), the inputs and outputs as sets; signals and lookups unchanged.
pub fn wrap_airdata(airdata: AIRData) -> (r: AIRDataWrapper)
    ensures
        r.constraints@.len() == airdata.constraints@.len(),
        forall|i: int| 0 <= i < r.constraints@.len() ==> {
            &&& (#[trigger] r.constraints@[i]).expression == airdata.constraints@[i]
            &&& no_dups(r.constraints@[i].signals@)
            &&& r.constraints@[i].signals@.to_set() == expression_signals(airdata.constraints@[i])
        },
        r.signals == airdata.signals,
        r.inputs@ == airdata.inputs@.to_set(),
        r.outputs@ == airdata.outputs@.to_set(),
        r.lookups == airdata.lookups,
{
    let AIRData { constraints, signals, inputs, outputs, lookups } = airdata;
    let ghost c0 = constraints@;
    let mut rest = constraints;
    let mut wrapped: Vec<ExpressionWrapper> = Vec::new();
    while rest.len() > 0
        invariant
            wrapped@.len() <= c0.len(),
            rest@ == c0.subrange(wrapped@.len() as int, c0.len() as int),
            forall|i: int| 0 <= i < wrapped@.len() ==> {
                &&& (#[trigger] wrapped@[i]).expression == c0[i]
                &&& no_dups(wrapped@[i].signals@)
                &&& wrapped@[i].signals@.to_set() == expression_signals(c0[i])
            },
        decreases rest@.len(),
    {
        let con = rest.remove(0);
        assert(con == c0[wrapped@.len() as int]);
        let mut sigs: Vec<usize> = Vec::new();
        assert(sigs@.to_set() =~= Set::<usize>::empty());
        collect_signals(&con, &mut sigs);
        assert(sigs@.to_set() =~= expression_signals(con));
        wrapped.push(ExpressionWrapper { expression: con, signals: sigs });
        assert(rest@ =~= c0.subrange(wrapped@.len() as int, c0.len() as int));
    }
    let inputs = set_of(&inputs);
    let outputs = set_of(&outputs);
    AIRDataWrapper { constraints: wrapped, signals, inputs, outputs, lookups }
}

} // verus!
