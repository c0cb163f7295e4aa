use circuit_analysis::correspondence::{build_correspondence_and_prefixes, resolve_all_macros, resolve_full};
use circuit_analysis::resolve::{resolve_macro_entry, ResolvedMacroEntry, ResolvedTagNode, ResolvedVar};
use circuit_analysis::resolved_json::{
    equality_groups_json, ids_json, resolved_first_var_array_json, resolved_first_var_json, resolved_var_json,
    to_json_flat_resolved, to_json_single_resolved,
};
use circuit_analysis::specification::{MacroDef, NodeInfo, StructureInfo, VarBinding, VarInfo};
use circuit_analysis::tags::{MacroEntry, TagNode};
use serde_json::Value;

fn name(s: &str) -> VarBinding {
    VarBinding::Name(s.to_string())
}

fn names(items: &[&str]) -> VarBinding {
    VarBinding::Names(items.iter().map(|s| Some(s.to_string())).collect())
}

fn macro_def(vars_info: Vec<(&str, VarBinding)>) -> MacroDef {
    MacroDef {
        params: Vec::new(),
        vars_info: vars_info.into_iter().map(|(k, v)| (k.to_string(), v)).collect(),
        components_info: Vec::new(),
        formula: String::new(),
    }
}

fn entry(n: &str, level0: &[&str]) -> MacroEntry {
    MacroEntry {
        name: n.to_string(),
        level0: level0.iter().map(|s| s.to_string()).collect(),
        tree: Vec::new(),
    }
}

/// Signal names in increasing order of name, as a sorted map walks them.
fn signal_names(pairs: &[(&str, usize)]) -> Vec<(String, usize)> {
    let mut v: Vec<(String, usize)> = pairs.iter().map(|(k, id)| (k.to_string(), *id)).collect();
    v.sort();
    v
}

fn resolved_entry(n: &str, prefix: &str, tags: &[(&str, &[usize])]) -> ResolvedMacroEntry {
    ResolvedMacroEntry {
        name: n.to_string(),
        instance_prefix: prefix.to_string(),
        level0: Vec::new(),
        tree: tags
            .iter()
            .map(|(tag, ids)| ResolvedTagNode {
                tag: tag.to_string(),
                own: ids.iter().map(|id| ResolvedVar::Signal(vec![*id])).collect(),
                children: Vec::new(),
                formula: String::new(),
            })
            .collect(),
        bindings: Vec::new(),
    }
}

fn no_macro_defs() -> Vec<(String, MacroDef)> {
    Vec::new()
}

fn single_json(entries: &[ResolvedMacroEntry]) -> Value {
    serde_json::from_str(&to_json_single_resolved(entries, &no_macro_defs()))
        .expect("the single mode has to emit valid JSON")
}

fn ids(v: &[u64]) -> Value {
    Value::from(v.to_vec())
}

#[test]
fn every_instance_lands_in_one_dictionary_under_the_envelope_parse_formula_reads() {
    let entries = vec![
        resolved_entry("@Main_0", "main", &[("step0", &[1, 2])]),
        resolved_entry("@Lt_0", "main.lt", &[("step0", &[3])]),
    ];
    let v = single_json(&entries);
    let obj = v.as_object().unwrap();
    assert_eq!(obj.len(), 1);
    let instances = obj["all"].as_array().unwrap();
    assert_eq!(instances.len(), 1);
    assert_eq!(instances[0]["instance"], "main", "the root prefix names the lot");
}

#[test]
fn the_same_tag_in_two_instances_does_not_collide() {
    let entries = vec![
        resolved_entry("@Lt_0", "main.a", &[("step0", &[1])]),
        resolved_entry("@Lt_0", "main.b", &[("step0", &[2])]),
    ];
    let v = single_json(&entries);
    let inst = v["all"][0].as_object().unwrap();
    assert_eq!(inst["main.a.step0"], ids(&[1]));
    assert_eq!(inst["main.b.step0"], ids(&[2]));
    assert!(inst.get("step0").is_none(), "no tag is left unprefixed");
}

#[test]
fn the_value_is_the_same_as_the_per_macro_view() {
    let mut e = resolved_entry("@Main_0", "main", &[("step0", &[4])]);
    e.tree[0].own.push(ResolvedVar::Signal(vec![7, 9]));
    let v = single_json(&[e]);
    let inst = v["all"][0].as_object().unwrap();
    assert_eq!(inst["main.step0"], ids(&[4, 7, 9]), "the tie shows every id");
    assert_eq!(inst["main.equality1"], ids(&[7, 9]), "and the group is listed apart");
}

#[test]
fn a_temporary_with_no_definer_contributes_no_id() {
    let mut e = resolved_entry("@Main_0", "main", &[("step0", &[4])]);
    e.tree[0].own.push(ResolvedVar::Unresolved("v_9".to_string()));
    let v = single_json(std::slice::from_ref(&e));
    assert_eq!(v["all"][0]["main.step0"], ids(&[4]));
}

#[test]
fn temporaries_do_not_tie_tags_together_by_themselves() {
    let mut a = resolved_entry("@Lt_0", "main.a", &[("step0", &[1]), ("step1", &[2])]);
    a.tree[0].own.push(ResolvedVar::Unresolved("v_9".to_string()));
    a.tree[1].own.push(ResolvedVar::Unresolved("v_9".to_string()));
    let mut b = resolved_entry("@Lt_0", "main.b", &[("step0", &[3])]);
    b.tree[0].own.push(ResolvedVar::Unresolved("v_9".to_string()));
    let v = single_json(&[a, b]);
    let inst = v["all"][0].as_object().unwrap();
    assert_eq!(inst["main.a.step0"], ids(&[1]));
    assert_eq!(inst["main.a.step1"], ids(&[2]));
    assert_eq!(inst["main.b.step0"], ids(&[3]));
}

#[test]
fn resolves_scalar_signal() {
    let e = entry("main", &["v_4", "v_3"]);
    let def = macro_def(vec![("out", name("v_4"))]);
    let n2s = signal_names(&[("main.out", 7)]);
    let resolved = resolve_macro_entry(&e, &def, "main", &[], &n2s);
    assert_eq!(resolved.level0[0], ResolvedVar::Signal(vec![7]));
    assert_eq!(resolved.level0[1], ResolvedVar::Unresolved("v_3".to_string()));
}

#[test]
fn resolves_array_signal() {
    let e = entry("main", &["v_9"]);
    let def = macro_def(vec![("in", names(&["v_8", "v_9"]))]);
    let n2s = signal_names(&[("main.in[1]", 3)]);
    let resolved = resolve_macro_entry(&e, &def, "main", &[], &n2s);
    assert_eq!(resolved.level0[0], ResolvedVar::Signal(vec![3]));
}

#[test]
fn resolves_subcomponent_signal() {
    let e = entry("main", &["v_2"]);
    let def = macro_def(vec![("sub.out", name("v_2"))]);
    let n2s = signal_names(&[("main.sub.out", 11)]);
    let resolved = resolve_macro_entry(&e, &def, "main", &[], &n2s);
    assert_eq!(resolved.level0[0], ResolvedVar::Signal(vec![11]));
}

#[test]
fn prefers_named_key_over_internal_label_on_collision() {
    let e = entry("main", &["v_9"]);
    let def = macro_def(vec![("isz.in", name("v_9")), ("%4", name("v_9")), ("%12", name("v_9"))]);
    let n2s = signal_names(&[("main.isz.in", 5)]);
    let resolved = resolve_macro_entry(&e, &def, "main", &[], &n2s);
    assert_eq!(resolved.level0[0], ResolvedVar::Signal(vec![5]));
}

#[test]
fn prefers_arg_label_over_other_internal_label_on_collision() {
    let e = entry("@IsEqual_1", &["v_1", "v_0"]);
    let def = macro_def(vec![("%1", name("v_1")), ("%3", name("v_0")), ("%arg0", names(&["v_0", "v_1"]))]);
    let resolved = resolve_macro_entry(&e, &def, "main", &[2, 3], &Vec::new());
    assert_eq!(resolved.level0[0], ResolvedVar::Signal(vec![3]));
    assert_eq!(resolved.level0[1], ResolvedVar::Signal(vec![2]));
}

#[test]
fn resolves_scalar_arg_by_position() {
    let e = entry("@IsZero_0", &["v_0"]);
    let def = macro_def(vec![("%arg0", name("v_0"))]);
    let resolved = resolve_macro_entry(&e, &def, "main.isz", &[5], &Vec::new());
    assert_eq!(resolved.level0[0], ResolvedVar::Signal(vec![5]));
}

#[test]
fn resolves_array_arg_by_flattened_position() {
    let e = entry("@IsEqual_1", &["v_1", "v_0"]);
    let def = macro_def(vec![("%arg0", names(&["v_0", "v_1"]))]);
    let resolved = resolve_macro_entry(&e, &def, "main", &[2, 3], &Vec::new());
    assert_eq!(resolved.level0[0], ResolvedVar::Signal(vec![3]));
    assert_eq!(resolved.level0[1], ResolvedVar::Signal(vec![2]));
}

#[test]
fn later_arg_accounts_for_earlier_array_width() {
    let e = entry("main", &["v_2"]);
    let def = macro_def(vec![("%arg0", names(&["v_0", "v_1"])), ("%arg1", name("v_2"))]);
    let resolved = resolve_macro_entry(&e, &def, "main", &[7, 8, 9], &Vec::new());
    assert_eq!(resolved.level0[0], ResolvedVar::Signal(vec![9]));
}

#[test]
fn returns_all_tied_named_candidates() {
    let e = entry("@Main_4", &["v_4"]);
    let def = macro_def(vec![("mux.c", names(&["v_4"])), ("cst.out", names(&["v_4"]))]);
    let n2s = signal_names(&[("main.mux.c[0]", 20), ("main.cst.out[0]", 3)]);
    let resolved = resolve_macro_entry(&e, &def, "main", &[], &n2s);
    match &resolved.level0[0] {
        ResolvedVar::Signal(ids) => {
            let mut sorted = ids.clone();
            sorted.sort();
            assert_eq!(sorted, vec![3, 20]);
        }
        other => panic!("expected Signal(_), got {other:?}"),
    }
}

#[test]
fn tied_internal_labels_stay_unresolved_not_multi_valued() {
    let e = entry("main", &["v_9"]);
    let def = macro_def(vec![("%4", name("v_9")), ("%12", name("v_9"))]);
    let resolved = resolve_macro_entry(&e, &def, "main", &[], &Vec::new());
    assert_eq!(resolved.level0[0], ResolvedVar::Unresolved("v_9".to_string()));
}

#[test]
fn resolves_2d_array_element_by_searching_signal_names() {
    let e = entry("@sum_test_3", &["v_first_row", "v_second_row"]);
    let mut sum_in: Vec<Option<String>> = vec![None; 64];
    sum_in[18] = Some("v_first_row".to_string());
    sum_in[32] = Some("v_second_row".to_string());
    let def = macro_def(vec![("sum.in", VarBinding::Names(sum_in))]);
    let mut n2s: Vec<(String, usize)> = Vec::new();
    for i in 0..32 {
        n2s.push((format!("main.sum.in[0][{}]", i), 100 + i));
        n2s.push((format!("main.sum.in[1][{}]", i), 200 + i));
    }
    n2s.sort();
    let resolved = resolve_macro_entry(&e, &def, "main", &[], &n2s);
    assert_eq!(resolved.level0[0], ResolvedVar::Signal(vec![118]));
    assert_eq!(resolved.level0[1], ResolvedVar::Signal(vec![200]));
}

#[test]
fn prefers_1d_fast_path_when_it_matches() {
    let e = entry("main", &["v_5"]);
    let def = macro_def(vec![("in", names(&["v_4", "v_5"]))]);
    let n2s = signal_names(&[("main.in[1]", 42)]);
    let resolved = resolve_macro_entry(&e, &def, "main", &[], &n2s);
    assert_eq!(resolved.level0[0], ResolvedVar::Signal(vec![42]));
}

#[test]
fn same_macro_at_two_instances_produces_one_array_not_duplicate_keys() {
    let e = entry("@Num2Bits_0", &["v_arg"]);
    let def = macro_def(vec![("%arg0", name("v_arg"))]);
    let first = resolve_macro_entry(&e, &def, "main.n2ba", &[69], &Vec::new());
    let second = resolve_macro_entry(&e, &def, "main.n2bb", &[102], &Vec::new());
    assert_eq!(first.level0[0], ResolvedVar::Signal(vec![69]));
    assert_eq!(second.level0[0], ResolvedVar::Signal(vec![102]));

    let json = to_json_flat_resolved(&[first, second], &no_macro_defs(), false);
    assert_eq!(json.matches("\"@Num2Bits_0\"").count(), 1);
    assert!(json.contains("\"instance\": \"main.n2ba\""));
    assert!(json.contains("\"instance\": \"main.n2bb\""));
    assert!(json.contains("[69]"));
    assert!(json.contains("[102]"));
}

#[test]
fn resolves_subcomponent_key_when_vars_info_uses_hash_but_signals_uses_brackets() {
    let e = entry("@Num2Ternary_1", &["v_24"]);
    let def = macro_def(vec![("Num2Bits_16_325#0.in", name("v_24"))]);
    let n2s = signal_names(&[("main.Num2Bits_16_325[0].in", 10)]);
    let resolved = resolve_macro_entry(&e, &def, "main", &[], &n2s);
    assert_eq!(resolved.level0[0], ResolvedVar::Signal(vec![10]));
}

fn mux4_1_collision_resolved() -> ResolvedMacroEntry {
    let e = entry("@Main_4", &["v_4"]);
    let def = macro_def(vec![("mux.c", names(&["v_4"])), ("cst.out", names(&["v_4"]))]);
    let n2s = signal_names(&[("main.mux.c[0]", 20), ("main.cst.out[0]", 3)]);
    resolve_macro_entry(&e, &def, "main", &[], &n2s)
}

#[test]
fn flat_json_lists_every_tied_id_inline_and_the_group_as_an_equality() {
    let text = to_json_flat_resolved(&[mux4_1_collision_resolved()], &no_macro_defs(), true);
    assert!(text.contains("\"level0\": [3, 20]"), "{text}");
    assert!(text.contains("\"equality1\": [3, 20]"), "{text}");
}

fn node(node_id: usize, component_name: &str, successors: Vec<usize>) -> NodeInfo {
    NodeInfo {
        node_id,
        node_name: component_name.to_string(),
        component_name: component_name.to_string(),
        constraints: Vec::new(),
        input_signals: Vec::new(),
        output_signals: Vec::new(),
        signals: Vec::new(),
        is_custom: false,
        is_deterministic: false,
        predecessors: Vec::new(),
        successors,
    }
}

fn empty_macro_def(components_info: Vec<(&str, &str)>) -> MacroDef {
    MacroDef {
        params: Vec::new(),
        vars_info: Vec::new(),
        components_info: components_info.into_iter().map(|(k, v)| (k.to_string(), v.to_string())).collect(),
        formula: String::new(),
    }
}

#[test]
fn finds_child_macro_when_component_name_uses_brackets_but_components_info_uses_hash() {
    let structure = StructureInfo {
        nodes: vec![node(0, "", vec![1]), node(1, "Num2Bits_16_325[0]", vec![])],
        local_equivalency: vec![vec![0], vec![1]],
        structural_equivalency: vec![vec![0], vec![1]],
    };
    let nodeid2pos: Vec<(usize, usize)> = vec![(0, 0), (1, 1)];
    let macros = vec![
        ("@Num2Ternary_1".to_string(), empty_macro_def(vec![("Num2Bits_16_325#0", "@Num2Bits_0")])),
        ("@Num2Bits_0".to_string(), empty_macro_def(vec![])),
    ];
    let mut correspondence = Vec::new();
    let mut instance_prefixes = Vec::new();
    build_correspondence_and_prefixes(
        &structure,
        &nodeid2pos,
        &macros,
        0,
        "@Num2Ternary_1",
        "main",
        &mut correspondence,
        &mut instance_prefixes,
    )
    .unwrap();
    let find = |v: &Vec<(usize, String)>, k: usize| v.iter().find(|(n, _)| *n == k).unwrap().1.clone();
    assert_eq!(find(&correspondence, 1), "@Num2Bits_0");
    assert_eq!(find(&instance_prefixes, 1), "main.Num2Bits_16_325[0]");
}

// ---------------------------------------------------------------------------
// Further cases.
// ---------------------------------------------------------------------------

#[test]
fn a_missing_subcomponent_stops_the_walk_with_its_name() {
    let structure = StructureInfo {
        nodes: vec![node(0, "", vec![1]), node(1, "isz", vec![])],
        local_equivalency: Vec::new(),
        structural_equivalency: Vec::new(),
    };
    let macros = vec![("@Top".to_string(), empty_macro_def(vec![]))];
    let mut c = Vec::new();
    let mut p = Vec::new();
    let err = build_correspondence_and_prefixes(&structure, &vec![(0, 0), (1, 1)], &macros, 0, "@Top", "main", &mut c, &mut p)
        .unwrap_err();
    assert_eq!(err, "subcomponent 'isz' does not appear in the components_info of macro '@Top'");
}

#[test]
fn a_missing_macro_and_a_missing_node_are_errors() {
    let structure = StructureInfo { nodes: vec![node(0, "", vec![])], local_equivalency: Vec::new(), structural_equivalency: Vec::new() };
    let mut c = Vec::new();
    let mut p = Vec::new();
    let err = build_correspondence_and_prefixes(&structure, &vec![(0, 0)], &Vec::new(), 0, "@Top", "main", &mut c, &mut p)
        .unwrap_err();
    assert_eq!(err, "macro '@Top' does not appear in the specification JSON");
    let err = build_correspondence_and_prefixes(&structure, &vec![], &Vec::new(), 0, "@Top", "main", &mut c, &mut p).unwrap_err();
    assert_eq!(err, "the structure has no node with node_id 0");
}

#[test]
fn a_cycle_in_the_component_graph_is_an_error() {
    let structure = StructureInfo {
        nodes: vec![node(0, "", vec![1]), node(1, "a", vec![0])],
        local_equivalency: Vec::new(),
        structural_equivalency: Vec::new(),
    };
    let macros = vec![
        ("@Top".to_string(), empty_macro_def(vec![("a", "@A")])),
        ("@A".to_string(), empty_macro_def(vec![("", "@Top")])),
    ];
    let mut c = Vec::new();
    let mut p = Vec::new();
    let err = build_correspondence_and_prefixes(&structure, &vec![(0, 0), (1, 1)], &macros, 0, "@Top", "main", &mut c, &mut p)
        .unwrap_err();
    assert_eq!(err, "the component graph reaches a node again below itself");
}

fn two_level_circuit() -> (Vec<MacroEntry>, Vec<(String, MacroDef)>, StructureInfo) {
    let mut root = node(0, "", vec![1]);
    root.input_signals = vec![5];
    let mut child = node(1, "isz", vec![]);
    child.input_signals = vec![9];
    let structure = StructureInfo { nodes: vec![child, root], local_equivalency: Vec::new(), structural_equivalency: Vec::new() };
    let mut main_def = macro_def(vec![("%arg0", name("v_0"))]);
    main_def.formula = "(@Top v_0)".to_string();
    let mut top = macro_def(vec![("%arg0", name("v_0"))]);
    top.components_info = vec![("isz".to_string(), "@IsZero".to_string())];
    let isz = macro_def(vec![("%arg0", name("v_1"))]);
    let defs = vec![("main".to_string(), main_def), ("@Top".to_string(), top), ("@IsZero".to_string(), isz)];
    let entries = vec![entry("main", &["v_0"]), entry("@Top", &["v_0"]), entry("@IsZero", &["v_1"])];
    (entries, defs, structure)
}

#[test]
fn resolve_full_lists_nodes_by_id_then_main() {
    let (entries, defs, structure) = two_level_circuit();
    let out = resolve_full(&entries, &defs, &structure, &Vec::new()).unwrap();
    assert_eq!(out.len(), 3);
    assert_eq!(out[0].name, "@Top");
    assert_eq!(out[0].instance_prefix, "main");
    assert_eq!(out[0].level0[0], ResolvedVar::Signal(vec![5]));
    assert_eq!(out[1].name, "@IsZero");
    assert_eq!(out[1].instance_prefix, "main.isz");
    assert_eq!(out[1].level0[0], ResolvedVar::Signal(vec![9]));
    assert_eq!(out[2].name, "main");
    assert_eq!(out[2].instance_prefix, "main");
}

#[test]
fn resolve_full_refuses_a_specification_without_main() {
    let (entries, defs, structure) = two_level_circuit();
    let defs: Vec<(String, MacroDef)> = defs.into_iter().filter(|(n, _)| n != "main").collect();
    let err = resolve_full(&entries, &defs, &structure, &Vec::new()).unwrap_err();
    assert_eq!(err, "the specification JSON has no 'main' macro");
}

#[test]
fn resolve_full_refuses_an_unanalysed_macro() {
    let (entries, defs, structure) = two_level_circuit();
    let entries: Vec<MacroEntry> = entries.into_iter().filter(|e| e.name != "@IsZero").collect();
    let err = resolve_full(&entries, &defs, &structure, &Vec::new()).unwrap_err();
    assert_eq!(err, "macro '@IsZero' (node 1) could not be analyzed from the specification JSON");
    let entries: Vec<MacroEntry> = Vec::new();
    let (_, defs, structure) = two_level_circuit();
    let err = resolve_full(&entries, &defs, &structure, &Vec::new()).unwrap_err();
    assert_eq!(err, "macro '@Top' (node 0) could not be analyzed from the specification JSON");
}

#[test]
fn resolve_all_macros_follows_the_walk_order() {
    let (entries, defs, structure) = two_level_circuit();
    let n2p = vec![(1, 0), (0, 1)];
    let out = resolve_all_macros(&entries, &defs, &structure, &n2p, 0, "@Top", "main", &Vec::new()).unwrap();
    assert_eq!(out.iter().map(|(n, _)| *n).collect::<Vec<_>>(), vec![0, 1]);
    assert_eq!(out[1].1.instance_prefix, "main.isz");
}

#[test]
fn ids_and_resolved_variables_render_as_json() {
    assert_eq!(ids_json(&[]), "[]");
    assert_eq!(ids_json(&[1, 20, 300]), "[1, 20, 300]");
    assert_eq!(resolved_var_json(&ResolvedVar::Signal(vec![7])), "7");
    assert_eq!(resolved_var_json(&ResolvedVar::Signal(vec![7, 9])), "[7, 9]");
    assert_eq!(resolved_var_json(&ResolvedVar::Unresolved("v_\"1".to_string())), "\"v_\\\"1\"");
    assert_eq!(resolved_first_var_json(&ResolvedVar::Signal(vec![3, 20])), "3, 20");
    assert_eq!(resolved_first_var_json(&ResolvedVar::Signal(vec![])), "[]");
    let items = vec![
        ResolvedVar::Signal(vec![1]),
        ResolvedVar::Unresolved("v_9".to_string()),
        ResolvedVar::Signal(vec![3, 20]),
    ];
    assert_eq!(resolved_first_var_array_json(&items, false), "[1, 3, 20]");
    assert_eq!(resolved_first_var_array_json(&items, true), "[1, \"v_9\", 3, 20]");
}

#[test]
fn equality_lines_are_numbered_from_one() {
    let lines = equality_groups_json(&[vec![3, 20], vec![4, 45]], "      ");
    assert_eq!(lines, vec!["      \"equality1\": [3, 20]".to_string(), "      \"equality2\": [4, 45]".to_string()]);
}

#[test]
fn flat_json_has_the_exact_layout() {
    let text = to_json_flat_resolved(&[resolved_entry("@A", "main", &[("t", &[2, 1])])], &no_macro_defs(), false);
    assert_eq!(
        text,
        "{\n  \"@A\": [\n    {\n      \"instance\": \"main\",\n      \"level0\": [],\n      \"t\": [1, 2]\n    }\n  ]\n}"
    );
}

#[test]
fn the_main_wrapper_is_not_listed_as_an_instance() {
    let text = to_json_flat_resolved(
        &[resolved_entry("main", "main", &[("t", &[1])]), resolved_entry("@A", "main", &[("t", &[2])])],
        &no_macro_defs(),
        false,
    );
    assert!(!text.contains("\"main\": ["), "{text}");
    assert!(text.contains("\"@A\": ["), "{text}");
}

#[test]
fn the_single_view_of_nothing_is_rooted_at_main() {
    assert_eq!(
        to_json_single_resolved(&[], &no_macro_defs()),
        "{\n  \"all\": [\n    {\n      \"instance\": \"main\",\n    }\n  ]\n}"
    );
}

#[test]
fn a_real_name_outranks_an_input_argument() {
    let e = entry("main", &["v_0"]);
    let def = macro_def(vec![("out", name("v_0")), ("%arg0", name("v_0"))]);
    let n2s = signal_names(&[("main.out", 7)]);
    let resolved = resolve_macro_entry(&e, &def, "main", &[5], &n2s);
    assert_eq!(resolved.level0[0], ResolvedVar::Signal(vec![7]));
}

#[test]
fn an_input_argument_outranks_an_internal_label() {
    let e = entry("main", &["v_0"]);
    let def = macro_def(vec![("%3", name("v_0")), ("%arg0", name("v_0"))]);
    let n2s = signal_names(&[]);
    let resolved = resolve_macro_entry(&e, &def, "main", &[5], &n2s);
    assert_eq!(resolved.level0[0], ResolvedVar::Signal(vec![5]));
}
