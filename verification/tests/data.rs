use std::collections::{HashMap, HashSet};

use circuit_analysis::air::{wrap_airdata, AIRData, BinaryExpressionData, ExpressionData, UnaryExpressionData};
use circuit_analysis::formula::{formula_from_instances, Formula, FormulaAtom, FormulaValue};
use circuit_analysis::options::{
    AssumptionError, EncodingError, EquivalenceMode, FingerprintError, GraphBackend, HybridClusteringMethods,
    NonequivalentReason, TiebreakingStrategy,
};
use circuit_analysis::r1cs::R1CSConstraint;
use circuit_analysis::text::{decimal_string, json_string};
use num_bigint_dig::BigInt;

fn atom(name: &str, signals: &[usize]) -> FormulaAtom {
    FormulaAtom { name: name.to_string(), signals: signals.to_vec() }
}

fn names(f: &Formula) -> Vec<String> {
    f.atoms().iter().map(|a| a.name.clone()).collect()
}

#[test]
fn each_component_occupies_a_contiguous_range_and_no_atom_is_dropped() {
    let f = Formula::from_atoms(
        &BigInt::from(7),
        vec![
            ("main".to_string(), vec![atom("a", &[1, 2]), atom("b", &[])]),
            ("main.sub".to_string(), vec![atom("c", &[3])]),
        ],
        HashSet::new(),
        HashSet::new(),
    );
    assert_eq!(names(&f), vec!["a", "b", "c"]);
    assert_eq!(f.get_atomrange_for_component(&"main".to_string()), Some(0..2));
    assert_eq!(f.get_atomrange_for_component(&"main.sub".to_string()), Some(2..3));
    assert_eq!(f.get_atomrange_for_component(&"other".to_string()), None);
}

fn name(s: &str) -> (String, FormulaValue) {
    ("instance".to_string(), FormulaValue::Name(s.to_string()))
}

fn entry(tag: &str, lists: &[&[usize]]) -> (String, FormulaValue) {
    (tag.to_string(), FormulaValue::SignalList(lists.iter().map(|l| l.to_vec()).collect()))
}

#[test]
fn instances_of_one_name_are_joined_and_empty_atoms_dropped() {
    let instances = vec![
        vec![name("main.a"), entry("t1", &[&[1], &[2, 3]]), entry("t2", &[])],
        vec![entry("t1", &[&[4]]), name("main.b")],
        vec![name("main.a"), entry("t3", &[&[5]])],
    ];
    let f = formula_from_instances(&BigInt::from(7), &instances, HashSet::new(), HashSet::new(), None).unwrap();
    assert_eq!(names(&f), vec!["t1", "t3", "t1"]);
    assert_eq!(f.atoms()[0].signals, vec![1, 2, 3]);
    assert_eq!(f.get_atomrange_for_component(&"main.a".to_string()), Some(0..2));
    assert_eq!(f.get_atomrange_for_component(&"main.b".to_string()), Some(2..3));

    let kept = formula_from_instances(&BigInt::from(7), &instances, HashSet::new(), HashSet::new(), Some(false)).unwrap();
    assert_eq!(names(&kept), vec!["t1", "t2", "t3", "t1"]);
}

#[test]
fn malformed_instances_are_errors() {
    let no_name = vec![vec![entry("t1", &[&[1]])]];
    let err = formula_from_instances(&BigInt::from(7), &no_name, HashSet::new(), HashSet::new(), None).err().unwrap();
    assert_eq!(err, "Instance does not have a name");
    let list_name = vec![vec![entry("instance", &[&[1]])]];
    let err = formula_from_instances(&BigInt::from(7), &list_name, HashSet::new(), HashSet::new(), None).err().unwrap();
    assert_eq!(err, "Instance name is not string");
    let named_atom = vec![vec![name("main"), ("t1".to_string(), FormulaValue::Name("x".to_string()))]];
    let err = formula_from_instances(&BigInt::from(7), &named_atom, HashSet::new(), HashSet::new(), None).err().unwrap();
    assert_eq!(err, "Non-instance entry is not SignalList");
}

fn coefficients(items: &[(usize, i64)]) -> HashMap<usize, BigInt> {
    items.iter().map(|(k, v)| (*k, BigInt::from(*v))).collect()
}

#[test]
fn r1cs_constraint_signals_leave_out_the_constant() {
    let c = R1CSConstraint::new(coefficients(&[(0, 1), (1, 2)]), coefficients(&[(2, 1)]), coefficients(&[(3, 1), (1, 5)]));
    assert_eq!(R1CSConstraint::constant_coefficient(), 0);
    assert!(!R1CSConstraint::is_linear(&c));
    assert!(!c.is_empty());
    assert!(c.has_constant_coefficient());
    let expected: HashSet<usize> = [1, 2, 3].into_iter().collect();
    assert_eq!(c.take_cloned_signals(), expected);
    assert_eq!(c.take_signals(), expected);
    let linear_only: HashSet<usize> = [3].into_iter().collect();
    assert_eq!(c.take_only_linear_signals(), linear_only);
    assert_eq!(c.a().len(), 2);
    assert_eq!(c.b().len(), 1);
    assert_eq!(c.c().len(), 2);
}

#[test]
fn an_empty_r1cs_constraint_is_linear() {
    let c = R1CSConstraint::empty();
    assert!(c.is_empty());
    assert!(R1CSConstraint::is_linear(&c));
    assert!(!c.has_constant_coefficient());
    assert!(c.take_signals().is_empty());
}

#[test]
fn messages_name_the_numbers_involved() {
    assert_eq!(AssumptionError::DifferentNumConstraints(3, 4).message(), "Circuits had different num constraints: 3 4");
    assert_eq!(AssumptionError::DifferentNumSignals(10, 0).message(), "Circuits had different num signals: 10 0");
    assert_eq!(AssumptionError::DifferentNumNorms(1, 2).message(), "Circuits had different num norms: 1 2");
    assert_eq!(
        FingerprintError::DifferentFingerprints("signal", 2).message(),
        "Circuits had 2 classes for signals unique to one circuit"
    );
    assert_eq!(
        FingerprintError::DifferentFingerprintClasses("norm", 5).message(),
        "Circuits had 5 classes for norms with differently sized classes"
    );
    assert_eq!(EncodingError::FingerprintAssumptionError.message(), "Some fingerprint class has different sizes");
    assert_eq!(EncodingError::NormHasNoValidPair(7).message(), "Norm 7 in first circuit has no valid norm to pair");
    assert_eq!(
        NonequivalentReason::Ass(AssumptionError::DifferentNumSignals(1, 2)).message(),
        "Discrepancy with Input Assumption: Circuits had different num signals: 1 2"
    );
    assert_eq!(
        NonequivalentReason::Fin(FingerprintError::DifferentFingerprints("norm", 1)).message(),
        "Error with Fingerprinting Result: Circuits had 1 classes for norms unique to one circuit"
    );
    assert_eq!(
        NonequivalentReason::Enc(EncodingError::NormHasNoValidPair(0)).message(),
        "Error during Encoding: Norm 0 in first circuit has no valid norm to pair"
    );
    assert_eq!(NonequivalentReason::Other("boom".to_string()).message(), "Error during Encoding: boom");
    assert_eq!(NonequivalentReason::Unsatisfiable.message(), "Equivalence encoded found unsatisfiable");
}

#[test]
fn option_names_are_their_variant_names() {
    assert_eq!(TiebreakingStrategy::FirstInList.name(), "FirstInList");
    assert_eq!(HybridClusteringMethods::GuidedClustering.name(), "GuidedClustering");
    assert_eq!(GraphBackend::GraphRS.name(), "graphrs");
    assert_eq!(GraphBackend::SingleClustering.name(), "singleclustering");
    assert_eq!(EquivalenceMode::Total.name(), "total");
    assert_eq!(EquivalenceMode::StructureOnly.name(), "structural");
    assert_eq!(EquivalenceMode::Local.name(), "local");
    assert_eq!(EquivalenceMode::NoEquivalence.name(), "none");
}

#[test]
fn wrapping_air_data_lists_each_constraint_signals_once() {
    let sum = ExpressionData::BinaryExpression(BinaryExpressionData {
        operator: "+".to_string(),
        left: Box::new(ExpressionData::Signal(3)),
        right: Box::new(ExpressionData::UnaryExpression(UnaryExpressionData {
            operator: "-".to_string(),
            value: Box::new(ExpressionData::BinaryExpression(BinaryExpressionData {
                operator: "*".to_string(),
                left: Box::new(ExpressionData::Signal(3)),
                right: Box::new(ExpressionData::Signal(5)),
            })),
        })),
    });
    let data = AIRData {
        constraints: vec![sum, ExpressionData::Constant("1".to_string())],
        signals: vec![3, 5],
        inputs: vec![3, 3],
        outputs: vec![5],
        lookups: Vec::new(),
    };
    let w = wrap_airdata(data);
    assert_eq!(w.constraints.len(), 2);
    let mut s = w.constraints[0].signals.clone();
    s.sort();
    assert_eq!(s, vec![3, 5]);
    assert!(w.constraints[1].signals.is_empty());
    assert_eq!(w.inputs, [3].into_iter().collect::<HashSet<usize>>());
    assert_eq!(w.outputs, [5].into_iter().collect::<HashSet<usize>>());
    assert_eq!(w.signals, vec![3, 5]);
}

#[test]
fn numbers_and_strings_render_as_json() {
    assert_eq!(decimal_string(0), "0");
    assert_eq!(decimal_string(1234567), "1234567");
    assert_eq!(json_string("a\"b\\c\nd\te\u{1}"), "\"a\\\"b\\\\c\\nd\\te\\u0001\"");
}
