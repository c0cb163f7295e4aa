//! Options of the clustering and equivalence tools, and the reasons an
//! equivalence check gives for two circuits not being equivalent.
use vstd::prelude::*;
use num_bigint_dig::BigInt;
use std::collections::{HashMap, HashSet};
use crate::text::{decimal, push_decimal, push_str, string_from};

verus! {

/// The graph library the modularity clustering runs on.
#[derive(Debug, Copy, Clone, PartialEq, Eq)]
pub enum GraphBackend {
    GraphRS,
    SingleClustering,
}

impl GraphBackend {
    /// The name the command line uses.
    pub fn name(&self) -> (r: &'static str)
        ensures
            r@ == match self {
                GraphBackend::GraphRS => "graphrs"@,
                GraphBackend::SingleClustering => "singleclustering"@,
            },
    {
        match self {
            GraphBackend::GraphRS => "graphrs",
            GraphBackend::SingleClustering => "singleclustering",
        }
    }
}

/// Which equivalent subcircuits are clustered alike.
#[derive(Debug, Copy, Clone, PartialEq, Eq)]
pub enum EquivalenceMode {
    Total,
    StructureOnly,
    Local,
    NoEquivalence,
}

impl EquivalenceMode {
    /// The name the command line uses.
    pub fn name(&self) -> (r: &'static str)
        ensures
            r@ == match self {
                EquivalenceMode::Total => "total"@,
                EquivalenceMode::StructureOnly => "structural"@,
                EquivalenceMode::Local => "local"@,
                EquivalenceMode::NoEquivalence => "none"@,
            },
    {
        match self {
            EquivalenceMode::Total => "total",
            EquivalenceMode::StructureOnly => "structural",
            EquivalenceMode::Local => "local",
            EquivalenceMode::NoEquivalence => "none",
        }
    }
}

/// How the specification side of a hybrid clustering is clustered.
#[derive(Debug, Default, Copy, Clone, PartialEq, Eq)]
pub enum HybridClusteringMethods {
    #[default]
    GuidedClustering,
}

impl HybridClusteringMethods {
    pub fn name(&self) -> (r: &'static str)
        ensures
            r@ == "GuidedClustering"@,
    {
        "GuidedClustering"
    }
}

/// How ties are broken while clustering guided by another clustering.
#[derive(Debug, Default, Copy, Clone, PartialEq, Eq)]
pub enum TiebreakingStrategy {
    #[default]
    FirstInList,
}

impl TiebreakingStrategy {
    pub fn name(&self) -> (r: &'static str)
        ensures
            r@ == "FirstInList"@,
    {
        "FirstInList"
    }
}

#[derive(Debug, Default, Copy, Clone)]
pub struct HybridClusteringMethodOptions {
    pub tiebreaking_strategy: TiebreakingStrategy,
    pub recipient_requires_subsets: bool,
}

/// The two circuits differ in a count the comparison takes as given.
#[derive(Debug)]
pub enum AssumptionError {
    DifferentNumConstraints(usize, usize),
    DifferentNumSignals(usize, usize),
    DifferentNumNorms(usize, usize),
}

pub open spec fn assumption_message(e: AssumptionError) -> Seq<char> {
    match e {
        AssumptionError::DifferentNumConstraints(a, b) => "Circuits had different num constraints: "@
            + decimal(a as nat) + " "@ + decimal(b as nat),
        AssumptionError::DifferentNumSignals(a, b) => "Circuits had different num signals: "@
            + decimal(a as nat) + " "@ + decimal(b as nat),
        AssumptionError::DifferentNumNorms(a, b) => "Circuits had different num norms: "@
            + decimal(a as nat) + " "@ + decimal(b as nat),
    }
}

fn two_numbers(prefix: &str, a: usize, b: usize) -> (r: String)
    ensures
        r@ == prefix@ + decimal(a as nat) + " "@ + decimal(b as nat),
{
    let mut r = string_from(prefix);
    push_decimal(&mut r, a);
    push_str(&mut r, " ");
    push_decimal(&mut r, b);
    r
}

impl AssumptionError {
    pub fn message(&self) -> (r: String)
        ensures
            r@ == assumption_message(*self),
    {
        match self {
            AssumptionError::DifferentNumConstraints(a, b) => two_numbers(
                "Circuits had different num constraints: ",
                *a,
                *b,
            ),
            AssumptionError::DifferentNumSignals(a, b) => two_numbers(
                "Circuits had different num signals: ",
                *a,
                *b,
            ),
            AssumptionError::DifferentNumNorms(a, b) => two_numbers(
                "Circuits had different num norms: ",
                *a,
                *b,
            ),
        }
    }
}

/// The fingerprint classes of the two circuits do not match: `(kind, count)`.
#[derive(Debug)]
pub enum FingerprintError {
    DifferentFingerprints(&'static str, usize),
    DifferentFingerprintClasses(&'static str, usize),
}

pub open spec fn fingerprint_message(e: FingerprintError) -> Seq<char> {
    match e {
        FingerprintError::DifferentFingerprints(kind, n) => "Circuits had "@ + decimal(n as nat)
            + " classes for "@ + kind@ + "s unique to one circuit"@,
        FingerprintError::DifferentFingerprintClasses(kind, n) => "Circuits had "@ + decimal(
            n as nat,
        ) + " classes for "@ + kind@ + "s with differently sized classes"@,
    }
}

impl FingerprintError {
    pub fn message(&self) -> (r: String)
        ensures
            r@ == fingerprint_message(*self),
    {
        let (kind, n, tail) = match self {
            FingerprintError::DifferentFingerprints(kind, n) => (*kind, *n, "s unique to one circuit"),
            FingerprintError::DifferentFingerprintClasses(kind, n) => (
                *kind,
                *n,
                "s with differently sized classes",
            ),
        };
        let mut r = string_from("Circuits had ");
        push_decimal(&mut r, n);
        push_str(&mut r, " classes for ");
        push_str(&mut r, kind);
        push_str(&mut r, tail);
        r
    }
}

/// Why the equivalence encoding could not be built.
#[derive(Debug)]
pub enum EncodingError {
    FingerprintAssumptionError,
    NormHasNoValidPair(usize),
}

pub open spec fn encoding_message(e: EncodingError) -> Seq<char> {
    match e {
        EncodingError::FingerprintAssumptionError => "Some fingerprint class has different sizes"@,
        EncodingError::NormHasNoValidPair(n) => "Norm "@ + decimal(n as nat) + " in first circuit has no valid norm to pair"@,
    }
}

impl EncodingError {
    pub fn message(&self) -> (r: String)
        ensures
            r@ == encoding_message(*self),
    {
        match self {
            EncodingError::FingerprintAssumptionError => string_from("Some fingerprint class has different sizes"),
            EncodingError::NormHasNoValidPair(n) => {
                let mut r = string_from("Norm ");
                push_decimal(&mut r, *n);
                push_str(&mut r, " in first circuit has no valid norm to pair");
                r
            },
        }
    }
}

/// Why two circuits were found not equivalent; `Other` carries the message
/// of any other error.
#[derive(Debug)]
pub enum NonequivalentReason {
    Ass(AssumptionError),
    Fin(FingerprintError),
    Enc(EncodingError),
    Other(String),
    Unsatisfiable,
}

pub open spec fn reason_message(e: NonequivalentReason) -> Seq<char> {
    match e {
        NonequivalentReason::Ass(a) => "Discrepancy with Input Assumption: "@ + assumption_message(a),
        NonequivalentReason::Fin(f) => "Error with Fingerprinting Result: "@ + fingerprint_message(f),
        NonequivalentReason::Enc(x) => "Error during Encoding: "@ + encoding_message(x),
        NonequivalentReason::Other(s) => "Error during Encoding: "@ + s@,
        NonequivalentReason::Unsatisfiable => "Equivalence encoded found unsatisfiable"@,
    }
}

impl NonequivalentReason {
    pub fn message(&self) -> (r: String)
        ensures
            r@ == reason_message(*self),
    {
        match self {
            NonequivalentReason::Ass(a) => {
                let mut r = string_from("Discrepancy with Input Assumption: ");
                let m = a.message();
                push_str(&mut r, m.as_str());
                r
            },
            NonequivalentReason::Fin(f) => {
                let mut r = string_from("Error with Fingerprinting Result: ");
                let m = f.message();
                push_str(&mut r, m.as_str());
                r
            },
            NonequivalentReason::Enc(x) => {
                let mut r = string_from("Error during Encoding: ");
                let m = x.message();
                push_str(&mut r, m.as_str());
                r
            },
            NonequivalentReason::Other(s) => {
                let mut r = string_from("Error during Encoding: ");
                push_str(&mut r, s.as_str());
                r
            },
            NonequivalentReason::Unsatisfiable => string_from("Equivalence encoded found unsatisfiable"),
        }
    }
}

/// The outcome of comparing two circuits: the verdict, the reason when they
/// are not equivalent, the time each stage took (nanoseconds, by stage
/// name) and the matchings of normalised constraints and of signals found.
#[derive(Debug, Default)]
pub struct ComparisonData {
    pub result: bool,
    pub reason: Option<NonequivalentReason>,
    pub timing: Vec<(&'static str, u128)>,
    pub norm_mapping: Option<Vec<usize>>,
    pub sig_mapping: Option<Vec<usize>>,
}

/// A constraint of an ACIR circuit: products of two signals, linear terms
/// and a constant, each with its coefficient.
pub struct ACIRConstraint {
    mult: HashMap<(usize, usize), BigInt>,
    linear: HashMap<usize, BigInt>,
    constant: Option<BigInt>,
}

/// An ACIR circuit.
pub struct ACIRCircuit {
    prime: BigInt,
    constraints: Vec<ACIRConstraint>,
    input_signals: HashSet<usize>,
    output_signals: HashSet<usize>,
    signals: HashSet<usize>,
}

/// An index paired with the fingerprint it is compared and hashed by.
#[derive(Default, Copy, Debug, Clone)]
pub struct FingerprintIndex<H> {
    pub fingerprint: H,
    pub index: usize,
}

} // verus!
