//! The inputs the tag resolution works from: the macros of the specification
//! JSON (parameters, the variables each local name stands for, the macro of
//! each subcomponent, the formula), the circuit's component graph, and the
//! association lists they are read through.
use vstd::prelude::*;
use crate::strings::{add_all_unique, add_unique, contains_str, copy_string, copy_strings, lemma_add_all_unique, no_dups, push_all_unique, push_unique, string_eq, strs};
use crate::text::{chars_of, decimal, decimal_string, digit_char, digit_value, hex_char, is_ascii_digit, is_digit, is_white, is_whitespace, json_escape, json_escape_char, json_quoted, json_string, push_char, push_decimal, push_json_escaped_char, push_json_string, push_str, str_eq, string_from, string_of};
use crate::tags::key_index;

verus! {

/// A formal parameter of a macro.
pub struct VarInfo {
    pub name: String,
}

/// What a local name of `vars_info` stands for: one SMT variable, an array of
/// them (an element that is not a variable name is `None`), or a value that
/// names no variable (a folded constant).
pub enum VarBinding {
    Name(String),
    Names(Vec<Option<String>>),
    Other,
}

/// One macro of the specification JSON.
pub struct MacroDef {
    pub params: Vec<VarInfo>,
    /// Local name (`"out"`, `"sub.out"`, `"%arg0"`, `"%4"`, ...) to what it
    /// stands for. No local name occurs twice.
    pub vars_info: Vec<(String, VarBinding)>,
    /// Local instance name of each subcomponent to the macro implementing it.
    pub components_info: Vec<(String, String)>,
    pub formula: String,
}

/// A node of the circuit's component graph.
pub struct NodeInfo {
    pub node_id: usize,
    pub node_name: String,
    pub component_name: String,
    pub constraints: Vec<usize>,
    pub input_signals: Vec<usize>,
    pub output_signals: Vec<usize>,
    pub signals: Vec<usize>,
    pub is_custom: bool,
    pub is_deterministic: bool,
    pub predecessors: Vec<usize>,
    pub successors: Vec<usize>,
}

/// The circuit's component graph.
pub struct StructureInfo {
    pub nodes: Vec<NodeInfo>,
    pub local_equivalency: Vec<Vec<usize>>,
    pub structural_equivalency: Vec<Vec<usize>>,
}

/// The value of a [`VarBinding`].
pub enum Binding {
    Name(Seq<char>),
    Names(Seq<Option<Seq<char>>>),
    Other,
}

pub open spec fn opt_view(o: Option<String>) -> Option<Seq<char>> {
    match o {
        Some(s) => Some(s@),
        None => None,
    }
}

pub open spec fn bview(b: VarBinding) -> Binding {
    match b {
        VarBinding::Name(s) => Binding::Name(s@),
        VarBinding::Names(v) => Binding::Names(v@.map_values(|o: Option<String>| opt_view(o))),
        VarBinding::Other => Binding::Other,
    }
}

/// `vars_info` as values.
pub open spec fn vars_view(v: Seq<(String, VarBinding)>) -> Seq<(Seq<char>, Binding)> {
    v.map_values(|p: (String, VarBinding)| (p.0@, bview(p.1)))
}

/// An association list of strings as values.
pub open spec fn str_pairs(v: Seq<(String, String)>) -> Seq<(Seq<char>, Seq<char>)> {
    v.map_values(|p: (String, String)| (p.0@, p.1@))
}

/// Signal name to r1cs id, as values.
pub open spec fn signal_pairs(v: Seq<(String, usize)>) -> Seq<(Seq<char>, usize)> {
    v.map_values(|p: (String, usize)| (p.0@, p.1))
}

/// The names of the parameters.
pub open spec fn param_names(v: Seq<VarInfo>) -> Seq<Seq<char>> {
    v.map_values(|p: VarInfo| p.name@)
}

/// The value of key `k`, if present.
pub open spec fn lookup<V>(pairs: Seq<(Seq<char>, V)>, k: Seq<char>) -> Option<V> {
    match key_index(pairs, k) {
        Some(i) => Some(pairs[i].1),
        None => None,
    }
}

/// The macro implementing the subcomponent named `k`, if listed.
pub fn find_str_value<'a>(pairs: &'a Vec<(String, String)>, k: &str) -> (r: Option<&'a String>)
    ensures
        match lookup(str_pairs(pairs@), k@) {
            Some(v) => r matches Some(s) && s@ == v,
            None => r is None,
        },
{
    let ghost pv = str_pairs(pairs@);
    proof {
        crate::tags::lemma_key_index(pv, k@);
    }
    let mut i: usize = 0;
    while i < pairs.len()
        invariant
            pv == str_pairs(pairs@),
            i <= pairs@.len(),
            forall|j: int| 0 <= j < i ==> pv[j].0 != k@,
        decreases pairs@.len() - i,
    {
        if str_eq(pairs[i].0.as_str(), k) {
            assert(pv[i as int].0 == k@);
            assert(key_index(pv, k@) == Some(i as int)) by {
                crate::tags::lemma_key_index(pv, k@);
            }
            return Some(&pairs[i].1);
        }
        i = i + 1;
    }
    assert(key_index(pv, k@) is None) by {
        crate::tags::lemma_key_index(pv, k@);
    }
    None
}

/// What the local name `k` stands for, if listed.
pub fn find_binding<'a>(pairs: &'a Vec<(String, VarBinding)>, k: &str) -> (r: Option<&'a VarBinding>)
    ensures
        match lookup(vars_view(pairs@), k@) {
            Some(v) => r matches Some(b) && bview(*b) == v,
            None => r is None,
        },
{
    let ghost pv = vars_view(pairs@);
    let mut i: usize = 0;
    while i < pairs.len()
        invariant
            pv == vars_view(pairs@),
            i <= pairs@.len(),
            forall|j: int| 0 <= j < i ==> pv[j].0 != k@,
        decreases pairs@.len() - i,
    {
        if str_eq(pairs[i].0.as_str(), k) {
            assert(pv[i as int].0 == k@);
            assert(key_index(pv, k@) == Some(i as int)) by {
                crate::tags::lemma_key_index(pv, k@);
            }
            return Some(&pairs[i].1);
        }
        i = i + 1;
    }
    assert(key_index(pv, k@) is None) by {
        crate::tags::lemma_key_index(pv, k@);
    }
    None
}

/// The r1cs id of the signal named `k`, if listed.
pub fn find_signal(pairs: &Vec<(String, usize)>, k: &str) -> (r: Option<usize>)
    ensures
        r == lookup(signal_pairs(pairs@), k@),
{
    let ghost pv = signal_pairs(pairs@);
    let mut i: usize = 0;
    while i < pairs.len()
        invariant
            pv == signal_pairs(pairs@),
            i <= pairs@.len(),
            forall|j: int| 0 <= j < i ==> pv[j].0 != k@,
        decreases pairs@.len() - i,
    {
        if str_eq(pairs[i].0.as_str(), k) {
            assert(pv[i as int].0 == k@);
            assert(key_index(pv, k@) == Some(i as int)) by {
                crate::tags::lemma_key_index(pv, k@);
            }
            return Some(pairs[i].1);
        }
        i = i + 1;
    }
    assert(key_index(pv, k@) is None) by {
        crate::tags::lemma_key_index(pv, k@);
    }
    None
}

/// The macros of a specification, by name.
pub open spec fn macro_names(v: Seq<(String, MacroDef)>) -> Seq<(Seq<char>, MacroDef)> {
    v.map_values(|p: (String, MacroDef)| (p.0@, p.1))
}

/// Macros with distinct names, as in a map of the specification.
pub open spec fn distinct_names(v: Seq<(String, MacroDef)>) -> bool {
    forall|i: int, j: int| 0 <= i < j < v.len() ==> (#[trigger] v[i]).0@ != (#[trigger] v[j]).0@
}

/// The definition of macro `k`, if present.
pub fn find_macro<'a>(macros: &'a Vec<(String, MacroDef)>, k: &str) -> (r: Option<&'a MacroDef>)
    ensures
        match lookup(macro_names(macros@), k@) {
            Some(v) => r == Some(&v),
            None => r is None,
        },
{
    let ghost pv = macro_names(macros@);
    let mut i: usize = 0;
    while i < macros.len()
        invariant
            pv == macro_names(macros@),
            i <= macros@.len(),
            forall|j: int| 0 <= j < i ==> pv[j].0 != k@,
        decreases macros@.len() - i,
    {
        if str_eq(macros[i].0.as_str(), k) {
            assert(pv[i as int].0 == k@);
            assert(key_index(pv, k@) == Some(i as int)) by {
                crate::tags::lemma_key_index(pv, k@);
            }
            return Some(&macros[i].1);
        }
        i = i + 1;
    }
    assert(key_index(pv, k@) is None) by {
        crate::tags::lemma_key_index(pv, k@);
    }
    None
}

/// `(p FF0) ` for each parameter `p`.
pub open spec fn param_decls(params: Seq<Seq<char>>, n: nat) -> Seq<char>
    decreases n,
{
    if n == 0 || n > params.len() {
        Seq::empty()
    } else {
        param_decls(params, (n - 1) as nat) + seq!['('] + params[n - 1] + " FF0) "@
    }
}

/// A macro body wrapped in a `define-fun` with one `FF0` parameter per
/// formal parameter, so that a whole-script parser takes it.
pub open spec fn wrapped_macro(name: Seq<char>, params: Seq<Seq<char>>, formula: Seq<char>) -> Seq<
    char,
> {
    "(define-fun "@ + name + " ("@ + param_decls(params, params.len()) + ") Bool\n"@ + formula
        + ")\n"@
}

/// See [`wrapped_macro`].
pub fn wrap_macro_formula(name: &str, params: &Vec<VarInfo>, formula: &str) -> (r: String)
    ensures
        r@ == wrapped_macro(name@, param_names(params@), formula@),
{
    let ghost pn = param_names(params@);
    let mut script = string_from("(define-fun ");
    push_str(&mut script, name);
    push_str(&mut script, " (");
    let ghost head = script@;
    let mut i: usize = 0;
    while i < params.len()
        invariant
            pn == param_names(params@),
            i <= params@.len(),
            script@ == head + param_decls(pn, i as nat),
        decreases params@.len() - i,
    {
        push_char(&mut script, '(');
        push_str(&mut script, params[i].name.as_str());
        push_str(&mut script, " FF0) ");
        assert(script@ =~= head + param_decls(pn, (i + 1) as nat));
        i = i + 1;
    }
    push_str(&mut script, ") Bool\n");
    push_str(&mut script, formula);
    push_str(&mut script, ")\n");
    assert(script@ =~= wrapped_macro(name@, pn, formula@));
    script
}

} // verus!
