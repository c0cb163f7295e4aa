//! The walk of the circuit's component graph: for every node reachable from
//! the root, the macro it corresponds to and its dotted instance prefix
//! (`"main"`, `"main.sub3"`, `"main.Foo[0]"`); and the resolution of every
//! node's macro, with its own prefix and its own input signals.
use vstd::prelude::*;
use crate::specification::{MacroDef, NodeInfo, StructureInfo, find_macro, find_str_value, lookup, macro_names, str_pairs};
use crate::component_walk::{hashified, hashify_brackets};
use crate::tags::{key_index, lemma_key_index};
use crate::text::{decimal, push_char, push_decimal, push_str, string_from};
use crate::strings::copy_string;
use crate::tags::MacroEntry;
use crate::resolve::{ResolvedMacroEntry, entry_resolution, resolve_macro_entry};
use crate::specification::signal_pairs;
use crate::text::str_eq;

verus! {

/// The position of node `id`: the last pair that names it, as a map filled
/// in order keeps it.
pub open spec fn pos_of(n2p: Seq<(usize, usize)>, id: usize) -> Option<usize>
    decreases n2p.len(),
{
    if n2p.len() == 0 {
        None
    } else if n2p.last().0 == id {
        Some(n2p.last().1)
    } else {
        pos_of(n2p.drop_last(), id)
    }
}

/// `pairs` with key `k` set to `v`: in place where `k` is, appended otherwise.
pub open spec fn upsert(pairs: Seq<(usize, Seq<char>)>, k: usize, v: Seq<char>) -> Seq<(usize, Seq<char>)> {
    match key_index(pairs, k) {
        Some(i) => pairs.update(i, (k, v)),
        None => pairs.push((k, v)),
    }
}

pub open spec fn id_strs(v: Seq<(usize, String)>) -> Seq<(usize, Seq<char>)> {
    v.map_values(|p: (usize, String)| (p.0, p.1@))
}

/// Where a walk stands: the macro and the prefix given to each node so far,
/// and the error that stopped it, if any.
#[verifier::ext_equal]
pub struct WalkState {
    pub correspondence: Seq<(usize, Seq<char>)>,
    pub prefixes: Seq<(usize, Seq<char>)>,
    pub error: Option<Seq<char>>,
}

pub open spec fn no_node_message(id: usize) -> Seq<char> {
    "the structure has no node with node_id "@ + decimal(id as nat)
}

pub open spec fn no_macro_message(name: Seq<char>) -> Seq<char> {
    "macro '"@ + name + "' does not appear in the specification JSON"@
}

pub open spec fn no_subcomponent_message(sub: Seq<char>, name: Seq<char>) -> Seq<char> {
    "subcomponent '"@ + sub + "' does not appear in the components_info of macro '"@ + name + "'"@
}

pub open spec fn cycle_message() -> Seq<char> {
    "the component graph reaches a node again below itself"@
}

/// The macro of the subcomponent named `sub` in `components_info`: under its
/// own name, or else under its `#N` form.
pub open spec fn sub_macro(comps: Seq<(Seq<char>, Seq<char>)>, sub: Seq<char>) -> Option<Seq<char>> {
    match lookup(comps, sub) {
        Some(m) => Some(m),
        None => lookup(comps, hashified(sub)),
    }
}

/// The walk from `node`, the instance of macro `name` at `prefix`: the node
/// is registered, then each successor is walked in order, as the instance of
/// the macro that `name`'s `components_info` gives its component name, at
/// `prefix.component_name`. Every step down spends one unit of `fuel`; a
/// walk that runs out of it has met the same (node, macro) pair twice on
/// one path.
pub open spec fn walk(
    nodes: Seq<NodeInfo>,
    n2p: Seq<(usize, usize)>,
    defs: Seq<(Seq<char>, MacroDef)>,
    node: usize,
    name: Seq<char>,
    prefix: Seq<char>,
    st: WalkState,
    fuel: nat,
) -> WalkState
    decreases fuel, 0nat,
{
    let st1 = WalkState {
        correspondence: upsert(st.correspondence, node, name),
        prefixes: upsert(st.prefixes, node, prefix),
        error: None,
    };
    match pos_of(n2p, node) {
        None => WalkState { error: Some(no_node_message(node)), ..st1 },
        Some(p) => if p >= nodes.len() {
            WalkState { error: Some(no_node_message(node)), ..st1 }
        } else {
            match lookup(defs, name) {
                None => WalkState { error: Some(no_macro_message(name)), ..st1 },
                Some(def) => if fuel == 0 {
                    WalkState { error: Some(cycle_message()), ..st1 }
                } else {
                    walk_children(
                        nodes,
                        n2p,
                        defs,
                        nodes[p as int].successors@,
                        0,
                        str_pairs(def.components_info@),
                        name,
                        prefix,
                        st1,
                        (fuel - 1) as nat,
                    )
                },
            }
        },
    }
}

/// The walks of `succs[i..]`, one after the other, stopping at the first
/// error.
pub open spec fn walk_children(
    nodes: Seq<NodeInfo>,
    n2p: Seq<(usize, usize)>,
    defs: Seq<(Seq<char>, MacroDef)>,
    succs: Seq<usize>,
    i: nat,
    comps: Seq<(Seq<char>, Seq<char>)>,
    name: Seq<char>,
    prefix: Seq<char>,
    st: WalkState,
    fuel: nat,
) -> WalkState
    decreases fuel, succs.len() - i,
{
    if i >= succs.len() {
        st
    } else {
        let suc = succs[i as int];
        match pos_of(n2p, suc) {
            None => WalkState { error: Some(no_node_message(suc)), ..st },
            Some(ps) => if ps >= nodes.len() {
                WalkState { error: Some(no_node_message(suc)), ..st }
            } else {
                let sub = nodes[ps as int].component_name@;
                match sub_macro(comps, sub) {
                    None => WalkState { error: Some(no_subcomponent_message(sub, name)), ..st },
                    Some(m) => {
                        let st2 = walk(nodes, n2p, defs, suc, m, prefix + seq!['.'] + sub, st, fuel);
                        if st2.error is Some {
                            st2
                        } else {
                            walk_children(nodes, n2p, defs, succs, i + 1, comps, name, prefix, st2, fuel)
                        }
                    },
                }
            }
        }
    }
}

/// The position of node `id` (see [`pos_of`]).
pub fn find_pos(n2p: &Vec<(usize, usize)>, id: usize) -> (r: Option<usize>)
    ensures
        r == pos_of(n2p@, id),
{
    let mut i: usize = n2p.len();
    assert(n2p@.take(i as int) =~= n2p@);
    while i > 0
        invariant
            i <= n2p@.len(),
            pos_of(n2p@, id) == pos_of(n2p@.take(i as int), id),
        decreases i,
    {
        let ghost t = n2p@.take(i as int);
        assert(t.drop_last() =~= n2p@.take(i - 1));
        assert(t.last() == n2p@[i - 1]);
        if n2p[i - 1].0 == id {
            return Some(n2p[i - 1].1);
        }
        i = i - 1;
    }
    None
}

/// Sets key `k` to `v` (see [`upsert`]).
fn upsert_exec(pairs: &mut Vec<(usize, String)>, k: usize, v: &str)
    ensures
        id_strs(final(pairs)@) == upsert(id_strs(old(pairs)@), k, v@),
{
    let ghost pv = id_strs(old(pairs)@);
    proof {
        lemma_key_index(pv, k);
    }
    let mut i: usize = 0;
    while i < pairs.len()
        invariant
            pv == id_strs(pairs@),
            pv == id_strs(old(pairs)@),
            i <= pairs@.len(),
            forall|j: int| 0 <= j < i ==> pv[j].0 != k,
        decreases pairs@.len() - i,
    {
        assert(pv[i as int] == (pairs@[i as int].0, pairs@[i as int].1@));
        if pairs[i].0 == k {
            assert(key_index(pv, k) == Some(i as int)) by {
                lemma_key_index(pv, k);
            }
            let ghost p0 = pairs@;
            pairs.set(i, (k, string_from(v)));
            assert(id_strs(pairs@) =~= pv.update(i as int, (k, v@)));
            return;
        }
        i = i + 1;
    }
    assert(key_index(pv, k) is None) by {
        lemma_key_index(pv, k);
    }
    pairs.push((k, string_from(v)));
    assert(id_strs(pairs@) =~= pv.push((k, v@)));
}

pub open spec fn state_of(corr: Seq<(usize, String)>, prefs: Seq<(usize, String)>, r: Result<(), String>) -> WalkState {
    WalkState {
        correspondence: id_strs(corr),
        prefixes: id_strs(prefs),
        error: match r {
            Ok(_) => None,
            Err(e) => Some(e@),
        },
    }
}

fn no_node_error(id: usize) -> (r: String)
    ensures
        r@ == no_node_message(id),
{
    let mut m = string_from("the structure has no node with node_id ");
    push_decimal(&mut m, id);
    proof {
        reveal_strlit("the structure has no node with node_id ");
    }
    m
}

fn walk_exec(
    structure: &StructureInfo,
    nodeid2pos: &Vec<(usize, usize)>,
    macros: &Vec<(String, MacroDef)>,
    node_id: usize,
    macro_name: &str,
    prefix: &str,
    correspondence: &mut Vec<(usize, String)>,
    instance_prefixes: &mut Vec<(usize, String)>,
    fuel: usize,
) -> (r: Result<(), String>)
    ensures
        state_of(final(correspondence)@, final(instance_prefixes)@, r) == walk(
            structure.nodes@,
            nodeid2pos@,
            macro_names(macros@),
            node_id,
            macro_name@,
            prefix@,
            state_of(old(correspondence)@, old(instance_prefixes)@, Ok(())),
            fuel as nat,
        ),
    decreases fuel,
{
    let ghost nodes = structure.nodes@;
    let ghost defs = macro_names(macros@);
    let ghost st0 = state_of(correspondence@, instance_prefixes@, Ok(()));
    upsert_exec(correspondence, node_id, macro_name);
    upsert_exec(instance_prefixes, node_id, prefix);
    let pos = match find_pos(nodeid2pos, node_id) {
        Some(p) => p,
        None => {
            return Err(no_node_error(node_id));
        },
    };
    if pos >= structure.nodes.len() {
        return Err(no_node_error(node_id));
    }
    let node_studied = &structure.nodes[pos];
    let macro_studied = match find_macro(macros, macro_name) {
        Some(d) => d,
        None => {
            let mut m = string_from("macro '");
            push_str(&mut m, macro_name);
            push_str(&mut m, "' does not appear in the specification JSON");
            proof {
                reveal_strlit("macro '");
                reveal_strlit("' does not appear in the specification JSON");
            }
            return Err(m);
        },
    };
    if fuel == 0 {
        let m = string_from("the component graph reaches a node again below itself");
        proof {
            reveal_strlit("the component graph reaches a node again below itself");
        }
        return Err(m);
    }
    let ghost succs = node_studied.successors@;
    let ghost comps = str_pairs(macro_studied.components_info@);
    let ghost st1 = state_of(correspondence@, instance_prefixes@, Ok(()));
    assert(nodes[pos as int] == *node_studied);
    assert(walk(nodes, nodeid2pos@, defs, node_id, macro_name@, prefix@, st0, fuel as nat)
        == walk_children(nodes, nodeid2pos@, defs, succs, 0, comps, macro_name@, prefix@, st1, (fuel - 1) as nat));
    let mut i: usize = 0;
    while i < node_studied.successors.len()
        invariant
            nodes == structure.nodes@,
            defs == macro_names(macros@),
            succs == node_studied.successors@,
            comps == str_pairs(macro_studied.components_info@),
            fuel > 0,
            i <= succs.len(),
            walk(nodes, nodeid2pos@, defs, node_id, macro_name@, prefix@, st0, fuel as nat)
                == walk_children(nodes, nodeid2pos@, defs, succs, 0, comps, macro_name@, prefix@, st1, (fuel - 1) as nat),
            st0 == state_of(old(correspondence)@, old(instance_prefixes)@, Ok(())),
            walk_children(nodes, nodeid2pos@, defs, succs, 0, comps, macro_name@, prefix@, st1, (fuel - 1) as nat)
                == walk_children(nodes, nodeid2pos@, defs, succs, i as nat, comps, macro_name@, prefix@,
                    state_of(correspondence@, instance_prefixes@, Ok(())), (fuel - 1) as nat),
        decreases succs.len() - i,
    {
        let suc = node_studied.successors[i];
        let ghost cur = state_of(correspondence@, instance_prefixes@, Ok(()));
        let pos_suc = match find_pos(nodeid2pos, suc) {
            Some(p) => p,
            None => {
                let e = no_node_error(suc);
                assert(walk_children(nodes, nodeid2pos@, defs, succs, i as nat, comps, macro_name@, prefix@, cur, (fuel - 1) as nat)
                    == state_of(correspondence@, instance_prefixes@, Err(e)));
                return Err(e);
            },
        };
        if pos_suc >= structure.nodes.len() {
            let e = no_node_error(suc);
            assert(walk_children(nodes, nodeid2pos@, defs, succs, i as nat, comps, macro_name@, prefix@, cur, (fuel - 1) as nat)
                == state_of(correspondence@, instance_prefixes@, Err(e)));
            return Err(e);
        }
        let suc_name = &structure.nodes[pos_suc].component_name;
        let macro_suc = match find_str_value(&macro_studied.components_info, suc_name.as_str()) {
            Some(m) => m,
            None => {
                let h = hashify_brackets(suc_name.as_str());
                match find_str_value(&macro_studied.components_info, h.as_str()) {
                    Some(m) => m,
                    None => {
                        let mut m = string_from("subcomponent '");
                        push_str(&mut m, suc_name.as_str());
                        push_str(&mut m, "' does not appear in the components_info of macro '");
                        push_str(&mut m, macro_name);
                        push_char(&mut m, '\'');
                        proof {
                            reveal_strlit("subcomponent '");
                            reveal_strlit("' does not appear in the components_info of macro '");
                            reveal_strlit("'");
                            assert(m@ =~= no_subcomponent_message(suc_name@, macro_name@));
                        }
                        return Err(m);
                    },
                }
            },
        };
        assert(sub_macro(comps, suc_name@) == Some(macro_suc@));
        assert(nodes[pos_suc as int].component_name@ == suc_name@);
        let mut suc_prefix = string_from(prefix);
        push_char(&mut suc_prefix, '.');
        push_str(&mut suc_prefix, suc_name.as_str());
        assert(suc_prefix@ =~= prefix@ + seq!['.'] + suc_name@);
        let r = walk_exec(
            structure,
            nodeid2pos,
            macros,
            suc,
            macro_suc.as_str(),
            suc_prefix.as_str(),
            correspondence,
            instance_prefixes,
            fuel - 1,
        );
        assert(walk_children(nodes, nodeid2pos@, defs, succs, i as nat, comps, macro_name@, prefix@, cur, (fuel - 1) as nat)
            == if r is Err {
                state_of(correspondence@, instance_prefixes@, r)
            } else {
                walk_children(nodes, nodeid2pos@, defs, succs, (i + 1) as nat, comps, macro_name@, prefix@,
                    state_of(correspondence@, instance_prefixes@, r), (fuel - 1) as nat)
            });
        match r {
            Err(e) => {
                return Err(e);
            },
            Ok(()) => {},
        }
        i = i + 1;
    }
    Ok(())
}

/// Walks the component graph from `node_id`, the instance of macro
/// `macro_name` at `prefix`, registering in `correspondence` the macro of
/// every node reached and in `instance_prefixes` its dotted prefix (see
/// [`walk`]). A node without a position, a macro missing from `macros` and
/// a subcomponent missing from its parent's `components_info` stop the walk
/// with an error naming them; so does a path down that holds more nodes
/// than there are (node, macro) pairs, on which the walk would go on for
/// ever.
pub fn build_correspondence_and_prefixes(
    structure: &StructureInfo,
    nodeid2pos: &Vec<(usize, usize)>,
    macros: &Vec<(String, MacroDef)>,
    node_id: usize,
    macro_name: &str,
    prefix: &str,
    correspondence: &mut Vec<(usize, String)>,
    instance_prefixes: &mut Vec<(usize, String)>,
) -> (r: Result<(), String>)
    requires
        crate::specification::distinct_names(macros@),
    ensures
        state_of(final(correspondence)@, final(instance_prefixes)@, r) == walk(
            structure.nodes@,
            nodeid2pos@,
            macro_names(macros@),
            node_id,
            macro_name@,
            prefix@,
            state_of(old(correspondence)@, old(instance_prefixes)@, Ok(())),
            walk_fuel(structure.nodes@.len(), macros@.len()),
        ),
{
    let fuel = match structure.nodes.len().checked_mul(macros.len()) {
        Some(f) => f,
        None => usize::MAX,
    };
    walk_exec(structure, nodeid2pos, macros, node_id, macro_name, prefix, correspondence, instance_prefixes, fuel)
}

/// The depth a walk may reach: the number of (node, macro) pairs, or
/// `usize::MAX` where that overflows.
pub open spec fn walk_fuel(nodes: nat, macros: nat) -> nat {
    if nodes * macros > usize::MAX {
        usize::MAX as nat
    } else {
        nodes * macros
    }
}

// ---------------------------------------------------------------------------
// What a walk leaves behind.
// ---------------------------------------------------------------------------

/// The keys of a list of pairs, in order.
pub open spec fn keys_of<V>(pairs: Seq<(usize, V)>) -> Seq<usize> {
    pairs.map_values(|p: (usize, V)| p.0)
}

/// No key occurs twice.
pub open spec fn distinct_keys<V>(pairs: Seq<(usize, V)>) -> bool {
    forall|i: int, j: int| 0 <= i < j < pairs.len() ==> pairs[i].0 != pairs[j].0
}

/// Every node registered has a position among the nodes and a macro among
/// the definitions.
pub open spec fn registered_ok(
    corr: Seq<(usize, Seq<char>)>,
    nodes: Seq<NodeInfo>,
    n2p: Seq<(usize, usize)>,
    defs: Seq<(Seq<char>, MacroDef)>,
) -> bool {
    forall|i: int| 0 <= i < corr.len() ==> {
        &&& #[trigger] pos_of(n2p, corr[i].0) matches Some(p) && p < nodes.len()
        &&& lookup(defs, corr[i].1) is Some
    }
}

/// The state invariant of a walk: both lists hold the same keys, in the
/// same order, none twice.
pub open spec fn aligned(st: WalkState) -> bool {
    &&& keys_of(st.correspondence) == keys_of(st.prefixes)
    &&& distinct_keys(st.correspondence)
}

proof fn lemma_key_index_keys<V, W>(a: Seq<(usize, V)>, b: Seq<(usize, W)>, k: usize)
    requires
        keys_of(a) == keys_of(b),
    ensures
        key_index(a, k) == key_index(b, k),
    decreases a.len(),
{
    assert(a.len() == keys_of(a).len());
    assert(b.len() == keys_of(b).len());
    if a.len() > 0 {
        assert(keys_of(a.drop_last()) =~= keys_of(a).drop_last());
        assert(keys_of(b.drop_last()) =~= keys_of(b).drop_last());
        lemma_key_index_keys(a.drop_last(), b.drop_last(), k);
        assert(a.last().0 == keys_of(a)[a.len() - 1]);
        assert(b.last().0 == keys_of(b)[b.len() - 1]);
    }
}

proof fn lemma_upsert(st: WalkState, k: usize, name: Seq<char>, prefix: Seq<char>)
    requires
        aligned(st),
    ensures
        aligned(WalkState {
            correspondence: upsert(st.correspondence, k, name),
            prefixes: upsert(st.prefixes, k, prefix),
            error: None,
        }),
        forall|e: (usize, Seq<char>)| #[trigger] upsert(st.correspondence, k, name).contains(e) ==> e == (k, name) || st.correspondence.contains(e),
{
    let c = st.correspondence;
    let q = st.prefixes;
    lemma_key_index_keys(c, q, k);
    lemma_key_index(c, k);
    let c1 = upsert(c, k, name);
    let q1 = upsert(q, k, prefix);
    match key_index(c, k) {
        Some(i) => {
            assert(keys_of(c1) =~= keys_of(q1)) by {
                assert(c.len() == keys_of(c).len() && q.len() == keys_of(q).len());
                assert(c1.len() == q1.len());
                assert forall|j: int| 0 <= j < c1.len() implies keys_of(c1)[j] == keys_of(q1)[j] by {
                    assert(keys_of(c)[j] == c[j].0);
                    assert(keys_of(q)[j] == q[j].0);
                    assert(keys_of(c1)[j] == c1[j].0);
                    assert(keys_of(q1)[j] == q1[j].0);
                }
            }
            assert forall|e: (usize, Seq<char>)| #[trigger] c1.contains(e) implies e == (k, name) || c.contains(e) by {
                let j = choose|j: int| 0 <= j < c1.len() && c1[j] == e;
                if j != i {
                    assert(c[j] == e);
                }
            }
        },
        None => {
            assert(keys_of(c1) =~= keys_of(c).push(k));
            assert(keys_of(q1) =~= keys_of(q).push(k));
            assert forall|e: (usize, Seq<char>)| #[trigger] c1.contains(e) implies e == (k, name) || c.contains(e) by {
                let j = choose|j: int| 0 <= j < c1.len() && c1[j] == e;
                if j < c.len() {
                    assert(c[j] == e);
                }
            }
        },
    }
}

/// What a walk keeps: the two lists stay aligned, and a walk that ends
/// without error has registered only nodes with a position and a macro.
pub proof fn lemma_walk(
    nodes: Seq<NodeInfo>,
    n2p: Seq<(usize, usize)>,
    defs: Seq<(Seq<char>, MacroDef)>,
    node: usize,
    name: Seq<char>,
    prefix: Seq<char>,
    st: WalkState,
    fuel: nat,
)
    requires
        aligned(st),
    ensures
        aligned(walk(nodes, n2p, defs, node, name, prefix, st, fuel)),
        registered_ok(st.correspondence, nodes, n2p, defs) && walk(nodes, n2p, defs, node, name, prefix, st, fuel).error is None
            ==> registered_ok(walk(nodes, n2p, defs, node, name, prefix, st, fuel).correspondence, nodes, n2p, defs),
    decreases fuel, 0nat,
{
    lemma_upsert(st, node, name, prefix);
    let st1 = WalkState {
        correspondence: upsert(st.correspondence, node, name),
        prefixes: upsert(st.prefixes, node, prefix),
        error: None,
    };
    if let Some(p) = pos_of(n2p, node) {
        if p < nodes.len() {
            if let Some(def) = lookup(defs, name) {
                if fuel > 0 {
                    if registered_ok(st.correspondence, nodes, n2p, defs) {
                        assert forall|i: int| 0 <= i < st1.correspondence.len() implies {
                            &&& #[trigger] pos_of(n2p, st1.correspondence[i].0) matches Some(q) && q < nodes.len()
                            &&& lookup(defs, st1.correspondence[i].1) is Some
                        } by {
                            let e = st1.correspondence[i];
                            assert(st1.correspondence.contains(e));
                            if e != (node, name) {
                                let j = choose|j: int| 0 <= j < st.correspondence.len() && st.correspondence[j] == e;
                                assert(pos_of(n2p, st.correspondence[j].0) matches Some(q) && q < nodes.len());
                            }
                        }
                    }
                    lemma_walk_children(
                        nodes,
                        n2p,
                        defs,
                        nodes[p as int].successors@,
                        0,
                        str_pairs(def.components_info@),
                        name,
                        prefix,
                        st1,
                        (fuel - 1) as nat,
                    );
                }
            }
        }
    }
}

pub proof fn lemma_walk_children(
    nodes: Seq<NodeInfo>,
    n2p: Seq<(usize, usize)>,
    defs: Seq<(Seq<char>, MacroDef)>,
    succs: Seq<usize>,
    i: nat,
    comps: Seq<(Seq<char>, Seq<char>)>,
    name: Seq<char>,
    prefix: Seq<char>,
    st: WalkState,
    fuel: nat,
)
    requires
        aligned(st),
    ensures
        aligned(walk_children(nodes, n2p, defs, succs, i, comps, name, prefix, st, fuel)),
        registered_ok(st.correspondence, nodes, n2p, defs) && st.error is None
            && walk_children(nodes, n2p, defs, succs, i, comps, name, prefix, st, fuel).error is None
            ==> registered_ok(walk_children(nodes, n2p, defs, succs, i, comps, name, prefix, st, fuel).correspondence, nodes, n2p, defs),
    decreases fuel, succs.len() - i,
{
    if i < succs.len() {
        let suc = succs[i as int];
        if let Some(ps) = pos_of(n2p, suc) {
            if ps < nodes.len() {
                let sub = nodes[ps as int].component_name@;
                if let Some(m) = sub_macro(comps, sub) {
                    lemma_walk(nodes, n2p, defs, suc, m, prefix + seq!['.'] + sub, st, fuel);
                    let st2 = walk(nodes, n2p, defs, suc, m, prefix + seq!['.'] + sub, st, fuel);
                    if st2.error is None {
                        lemma_walk_children(nodes, n2p, defs, succs, i + 1, comps, name, prefix, st2, fuel);
                    }
                }
            }
        }
    }
}

// ---------------------------------------------------------------------------
// Resolving every node.
// ---------------------------------------------------------------------------

/// A walk that has registered nothing yet.
pub open spec fn empty_walk() -> WalkState {
    WalkState { correspondence: Seq::empty(), prefixes: Seq::empty(), error: None }
}

/// The walk of the whole graph from `root`, the instance of `name` at
/// `prefix`, within its full depth (see [`walk_fuel`]).
pub open spec fn root_walk(
    structure: StructureInfo,
    n2p: Seq<(usize, usize)>,
    macros: Seq<(String, MacroDef)>,
    root: usize,
    name: Seq<char>,
    prefix: Seq<char>,
) -> WalkState {
    walk(
        structure.nodes@,
        n2p,
        macro_names(macros),
        root,
        name,
        prefix,
        empty_walk(),
        walk_fuel(structure.nodes@.len(), macros.len()),
    )
}

/// The last analysed macro named `name`, as a map by name keeps it.
pub open spec fn last_entry(ms: Seq<MacroEntry>, name: Seq<char>) -> Option<MacroEntry>
    decreases ms.len(),
{
    if ms.len() == 0 {
        None
    } else if ms.last().name@ == name {
        Some(ms.last())
    } else {
        last_entry(ms.drop_last(), name)
    }
}

/// The last analysed macro named `name` (see [`last_entry`]).
pub fn find_last_entry<'a>(macros: &'a Vec<MacroEntry>, name: &str) -> (r: Option<&'a MacroEntry>)
    ensures
        match last_entry(macros@, name@) {
            Some(e) => r == Some(&e),
            None => r is None,
        },
{
    let mut i: usize = macros.len();
    assert(macros@.take(i as int) =~= macros@);
    while i > 0
        invariant
            i <= macros@.len(),
            last_entry(macros@, name@) == last_entry(macros@.take(i as int), name@),
        decreases i,
    {
        let ghost t = macros@.take(i as int);
        assert(t.drop_last() =~= macros@.take(i - 1));
        assert(t.last() == macros@[i - 1]);
        if str_eq(macros[i - 1].name.as_str(), name) {
            return Some(&macros[i - 1]);
        }
        i = i - 1;
    }
    None
}

/// The first registered node, from position `i` on, whose macro was not
/// analysed.
pub open spec fn first_unanalysed(corr: Seq<(usize, Seq<char>)>, ms: Seq<MacroEntry>, i: nat) -> Option<int>
    decreases corr.len() - i,
{
    if i >= corr.len() {
        None
    } else if last_entry(ms, corr[i as int].1) is None {
        Some(i as int)
    } else {
        first_unanalysed(corr, ms, i + 1)
    }
}

pub open spec fn unanalysed_message(name: Seq<char>, node: usize) -> Seq<char> {
    "macro '"@ + name + "' (node "@ + decimal(node as nat) + ") could not be analyzed from the specification JSON"@
}

/// `r` is node `node.0`, registered as an instance of macro `node.1` at
/// `prefix`, resolved: its analysed macro, for its own prefix and its own
/// input signals.
pub open spec fn node_resolution(
    r: (usize, ResolvedMacroEntry),
    node: (usize, Seq<char>),
    prefix: Seq<char>,
    ms: Seq<MacroEntry>,
    defs: Seq<(Seq<char>, MacroDef)>,
    nodes: Seq<NodeInfo>,
    n2p: Seq<(usize, usize)>,
    names: Seq<(Seq<char>, usize)>,
) -> bool {
    &&& r.0 == node.0
    &&& last_entry(ms, node.1) is Some
    &&& lookup(defs, node.1) is Some
    &&& pos_of(n2p, node.0) matches Some(p) && p < nodes.len() && entry_resolution(
        r.1,
        last_entry(ms, node.1)->0,
        lookup(defs, node.1)->0,
        prefix,
        nodes[p as int].input_signals@,
        names,
    )
}

/// `v` resolves every node that the walk `w` registered, in the order it
/// registered them.
pub open spec fn resolves_all(
    v: Seq<(usize, ResolvedMacroEntry)>,
    w: WalkState,
    ms: Seq<MacroEntry>,
    defs: Seq<(Seq<char>, MacroDef)>,
    nodes: Seq<NodeInfo>,
    n2p: Seq<(usize, usize)>,
    names: Seq<(Seq<char>, usize)>,
) -> bool {
    &&& v.len() == w.correspondence.len()
    &&& forall|i: int| 0 <= i < v.len() ==> #[trigger] node_resolution(
        v[i],
        w.correspondence[i],
        w.prefixes[i].1,
        ms,
        defs,
        nodes,
        n2p,
        names,
    )
}

/// What [`resolve_all_macros`] returns after the walk `w`: the walk's
/// error; else the first registered node whose macro was not analysed;
/// else every node resolved.
pub open spec fn resolution_outcome(
    r: Result<Seq<(usize, ResolvedMacroEntry)>, Seq<char>>,
    w: WalkState,
    ms: Seq<MacroEntry>,
    defs: Seq<(Seq<char>, MacroDef)>,
    nodes: Seq<NodeInfo>,
    n2p: Seq<(usize, usize)>,
    names: Seq<(Seq<char>, usize)>,
) -> bool {
    match w.error {
        Some(e) => r == Err::<Seq<(usize, ResolvedMacroEntry)>, Seq<char>>(e),
        None => match first_unanalysed(w.correspondence, ms, 0) {
            Some(i) => r == Err::<Seq<(usize, ResolvedMacroEntry)>, Seq<char>>(
                unanalysed_message(w.correspondence[i].1, w.correspondence[i].0),
            ),
            None => (r matches Ok(v) && resolves_all(v, w, ms, defs, nodes, n2p, names)),
        },
    }
}

pub open spec fn result_view<T>(r: Result<Vec<T>, String>) -> Result<Seq<T>, Seq<char>> {
    match r {
        Ok(v) => Ok(v@),
        Err(e) => Err(e@),
    }
}

/// Every node reached from `root_node_id` (see [`build_correspondence_and_prefixes`]),
/// with its macro resolved for its own prefix and input signals, in the
/// order the walk first reached them (see [`resolution_outcome`]).
pub fn resolve_all_macros(
    macros: &Vec<MacroEntry>,
    macro_defs: &Vec<(String, MacroDef)>,
    structure: &StructureInfo,
    nodeid2pos: &Vec<(usize, usize)>,
    root_node_id: usize,
    root_macro_name: &str,
    root_prefix: &str,
    name_to_signal: &Vec<(String, usize)>,
) -> (r: Result<Vec<(usize, ResolvedMacroEntry)>, String>)
    requires
        crate::specification::distinct_names(macro_defs@),
    ensures
        resolution_outcome(
            result_view(r),
            root_walk(*structure, nodeid2pos@, macro_defs@, root_node_id, root_macro_name@, root_prefix@),
            macros@,
            macro_names(macro_defs@),
            structure.nodes@,
            nodeid2pos@,
            signal_pairs(name_to_signal@),
        ),
{
    let ghost w = root_walk(*structure, nodeid2pos@, macro_defs@, root_node_id, root_macro_name@, root_prefix@);
    let ghost defs = macro_names(macro_defs@);
    let ghost names = signal_pairs(name_to_signal@);
    let mut correspondence: Vec<(usize, String)> = Vec::new();
    let mut instance_prefixes: Vec<(usize, String)> = Vec::new();
    assert(state_of(correspondence@, instance_prefixes@, Ok(())) =~= empty_walk());
    let walked = build_correspondence_and_prefixes(
        structure,
        nodeid2pos,
        macro_defs,
        root_node_id,
        root_macro_name,
        root_prefix,
        &mut correspondence,
        &mut instance_prefixes,
    );
    proof {
        lemma_walk(
            structure.nodes@,
            nodeid2pos@,
            defs,
            root_node_id,
            root_macro_name@,
            root_prefix@,
            empty_walk(),
            walk_fuel(structure.nodes@.len(), macro_defs@.len()),
        );
    }
    match walked {
        Err(e) => {
            return Err(e);
        },
        Ok(()) => {},
    }
    let ghost corr = w.correspondence;
    assert(corr == id_strs(correspondence@));
    assert(w.prefixes == id_strs(instance_prefixes@));
    assert(keys_of(corr).len() == corr.len() && keys_of(w.prefixes).len() == w.prefixes.len());
    let mut resolved: Vec<(usize, ResolvedMacroEntry)> = Vec::new();
    let mut i: usize = 0;
    while i < correspondence.len()
        invariant
            corr == id_strs(correspondence@),
            w.prefixes.len() == corr.len(),
            w.correspondence == corr,
            w == root_walk(*structure, nodeid2pos@, macro_defs@, root_node_id, root_macro_name@, root_prefix@),
            w.prefixes == id_strs(instance_prefixes@),
            w.error is None,
            aligned(w),
            registered_ok(corr, structure.nodes@, nodeid2pos@, defs),
            defs == macro_names(macro_defs@),
            names == signal_pairs(name_to_signal@),
            i <= corr.len(),
            first_unanalysed(corr, macros@, 0) == first_unanalysed(corr, macros@, i as nat),
            resolved@.len() == i,
            forall|k: int| 0 <= k < i ==> #[trigger] node_resolution(
                resolved@[k],
                corr[k],
                w.prefixes[k].1,
                macros@,
                defs,
                structure.nodes@,
                nodeid2pos@,
                names,
            ),
        decreases corr.len() - i,
    {
        let node_id = correspondence[i].0;
        let name = &correspondence[i].1;
        assert(corr[i as int] == (node_id, name@));
        let entry = match find_last_entry(macros, name.as_str()) {
            Some(e) => e,
            None => {
                assert(first_unanalysed(corr, macros@, i as nat) == Some(i as int));
                let mut m = string_from("macro '");
                push_str(&mut m, name.as_str());
                push_str(&mut m, "' (node ");
                push_decimal(&mut m, node_id);
                push_str(&mut m, ") could not be analyzed from the specification JSON");
                proof {
                    reveal_strlit("macro '");
                    reveal_strlit("' (node ");
                    reveal_strlit(") could not be analyzed from the specification JSON");
                    assert(m@ =~= unanalysed_message(name@, node_id));
                }
                return Err(m);
            },
        };
        assert(pos_of(nodeid2pos@, corr[i as int].0) matches Some(p) && p < structure.nodes@.len());
        let def = find_macro(macro_defs, name.as_str()).unwrap();
        let pos = find_pos(nodeid2pos, node_id).unwrap();
        assert(first_unanalysed(corr, macros@, i as nat) == first_unanalysed(corr, macros@, (i + 1) as nat));
        assert(keys_of(corr)[i as int] == keys_of(w.prefixes)[i as int]);
        assert(id_strs(instance_prefixes@)[i as int] == (instance_prefixes@[i as int].0, instance_prefixes@[i as int].1@));
        let prefix = &instance_prefixes[i].1;
        assert(w.prefixes[i as int].1 == prefix@);
        let inputs = &structure.nodes[pos].input_signals;
        let res = resolve_macro_entry(entry, def, prefix.as_str(), inputs.as_slice(), name_to_signal);
        resolved.push((node_id, res));
        assert(node_resolution(resolved@[i as int], corr[i as int], w.prefixes[i as int].1, macros@, defs, structure.nodes@, nodeid2pos@, names));
        i = i + 1;
    }
    assert(first_unanalysed(corr, macros@, i as nat) is None);
    Ok(resolved)
}

// ---------------------------------------------------------------------------
// Ordering by node id.
// ---------------------------------------------------------------------------

/// Among the first `n` positions of `left`, the first whose key is smallest.
pub open spec fn min_at(keys: Seq<usize>, left: Seq<int>, n: nat) -> int
    decreases n,
{
    if n <= 1 {
        0
    } else {
        let m = min_at(keys, left, (n - 1) as nat);
        if keys[left[n - 1]] < keys[left[m]] {
            n - 1
        } else {
            m
        }
    }
}

proof fn lemma_min_at(keys: Seq<usize>, left: Seq<int>, n: nat)
    requires
        1 <= n <= left.len(),
    ensures
        0 <= min_at(keys, left, n) < n,
        forall|j: int| 0 <= j < n ==> keys[left[min_at(keys, left, n)]] <= #[trigger] keys[left[j]],
    decreases n,
{
    if n > 1 {
        lemma_min_at(keys, left, (n - 1) as nat);
    }
}

#[via_fn]
proof fn order_from_decreases(keys: Seq<usize>, left: Seq<int>) {
    if left.len() > 0 {
        lemma_min_at(keys, left, left.len());
    }
}

/// The indices of `left`, smallest key first (of equal keys, the first
/// listed first).
pub open spec fn order_from(keys: Seq<usize>, left: Seq<int>) -> Seq<int>
    decreases left.len() via order_from_decreases
{
    if left.len() == 0 {
        Seq::empty()
    } else {
        let m = min_at(keys, left, left.len());
        seq![left[m]] + order_from(keys, left.remove(m))
    }
}

/// The positions of `keys`, in increasing order of key.
pub open spec fn node_order(keys: Seq<usize>) -> Seq<int> {
    order_from(keys, Seq::new(keys.len(), |i: int| i))
}

proof fn lemma_order_from(keys: Seq<usize>, left: Seq<int>)
    ensures
        order_from(keys, left).len() == left.len(),
        forall|x: int| #[trigger] order_from(keys, left).contains(x) <==> left.contains(x),
        forall|i: int, j: int| 0 <= i < j < left.len() ==> keys[#[trigger] order_from(keys, left)[i]] <= keys[#[trigger] order_from(keys, left)[j]],
        crate::strings::no_dups(left) ==> crate::strings::no_dups(order_from(keys, left)),
    decreases left.len(),
{
    if left.len() > 0 {
        let m = min_at(keys, left, left.len());
        lemma_min_at(keys, left, left.len());
        let rest = left.remove(m);
        lemma_order_from(keys, rest);
        let o = order_from(keys, left);
        let ro = order_from(keys, rest);
        assert(o == seq![left[m]] + ro);
        assert forall|x: int| rest.contains(x) implies keys[left[m]] <= keys[x] by {
            let j = choose|j: int| 0 <= j < rest.len() && rest[j] == x;
            if j < m {
                assert(rest[j] == left[j]);
                assert(keys[left[m]] <= keys[left[j]]);
            } else {
                assert(rest[j] == left[j + 1]);
                assert(keys[left[m]] <= keys[left[j + 1]]);
            }
        }
        assert forall|x: int| #[trigger] o.contains(x) <==> left.contains(x) by {
            if o.contains(x) {
                let j = choose|j: int| 0 <= j < o.len() && o[j] == x;
                if j > 0 {
                    assert(ro[j - 1] == x);
                    assert(ro.contains(x));
                    let k = choose|k: int| 0 <= k < rest.len() && rest[k] == x;
                    if k < m {
                        assert(left[k] == x);
                    } else {
                        assert(left[k + 1] == x);
                    }
                }
            }
            if left.contains(x) {
                let k = choose|k: int| 0 <= k < left.len() && left[k] == x;
                if k < m {
                    assert(rest[k] == x);
                    assert(rest.contains(x));
                    assert(ro.contains(x));
                    let j = choose|j: int| 0 <= j < ro.len() && ro[j] == x;
                    assert(o[j + 1] == x);
                } else if k > m {
                    assert(rest[k - 1] == x);
                    assert(rest.contains(x));
                    assert(ro.contains(x));
                    let j = choose|j: int| 0 <= j < ro.len() && ro[j] == x;
                    assert(o[j + 1] == x);
                } else {
                    assert(o[0] == x);
                }
            }
        }
        assert forall|i: int, j: int| 0 <= i < j < left.len() implies keys[#[trigger] o[i]] <= keys[#[trigger] o[j]] by {
            assert(o[j] == ro[j - 1]);
            assert(ro.contains(ro[j - 1]));
            if i > 0 {
                assert(o[i] == ro[i - 1]);
            }
        }
        if crate::strings::no_dups(left) {
            assert(crate::strings::no_dups(rest)) by {
                assert forall|a: int, b: int| 0 <= a < b < rest.len() implies rest[a] != rest[b] by {
                    let a1 = if a < m { a } else { a + 1 };
                    let b1 = if b < m { b } else { b + 1 };
                    assert(rest[a] == left[a1] && rest[b] == left[b1]);
                }
            }
            assert(!rest.contains(left[m])) by {
                if rest.contains(left[m]) {
                    let k = choose|k: int| 0 <= k < rest.len() && rest[k] == left[m];
                    if k < m {
                        assert(rest[k] == left[k]);
                    } else {
                        assert(rest[k] == left[k + 1]);
                    }
                }
            }
            assert forall|a: int, b: int| 0 <= a < b < o.len() implies o[a] != o[b] by {
                assert(o[b] == ro[b - 1]);
                assert(ro.contains(ro[b - 1]));
                if a > 0 {
                    assert(o[a] == ro[a - 1]);
                }
            }
        }
    }
}

/// Ordering by node id lists every position once, and, where no two keys
/// are equal, in strictly increasing order of key.
pub proof fn law_node_order_sorted(keys: Seq<usize>)
    ensures
        node_order(keys).len() == keys.len(),
        forall|x: int| #[trigger] node_order(keys).contains(x) <==> 0 <= x < keys.len(),
        crate::strings::no_dups(node_order(keys)),
        crate::strings::no_dups(keys) ==> forall|i: int, j: int| 0 <= i < j < keys.len()
            ==> keys[#[trigger] node_order(keys)[i]] < keys[#[trigger] node_order(keys)[j]],
{
    let all = Seq::new(keys.len(), |i: int| i);
    lemma_order_from(keys, all);
    assert forall|x: int| #[trigger] all.contains(x) <==> 0 <= x < keys.len() by {
        if 0 <= x < keys.len() {
            assert(all[x] == x);
        }
    }
    let o = node_order(keys);
    if crate::strings::no_dups(keys) {
        assert forall|i: int, j: int| 0 <= i < j < keys.len() implies keys[#[trigger] o[i]] < keys[#[trigger] o[j]] by {
            assert(o.contains(o[i]) && o.contains(o[j]));
            assert(o[i] != o[j]);
            assert(keys[o[i]] <= keys[o[j]]);
        }
    }
}

/// The entries of `v` in increasing order of their key (see [`node_order`]).
fn sort_by_node(v: Vec<(usize, ResolvedMacroEntry)>) -> (r: Vec<ResolvedMacroEntry>)
    ensures
        r@.len() == v@.len(),
        forall|i: int| 0 <= i < r@.len() ==> #[trigger] r@[i] == v@[node_order(keys_of(v@))[i]].1,
{
    let ghost v0 = v@;
    let ghost keys = keys_of(v0);
    let ghost all = Seq::new(keys.len(), |i: int| i);
    let ghost f = |j: int| v0[j].1;
    let ghost mut left = all;
    let mut rest = v;
    let mut out: Vec<ResolvedMacroEntry> = Vec::new();
    proof {
        lemma_order_from(keys, all);
    }
    assert(out@ + order_from(keys, left).map_values(f) =~= node_order(keys).map_values(f));
    while rest.len() > 0
        invariant
            keys == keys_of(v0),
            rest@.len() == left.len(),
            forall|j: int| 0 <= j < left.len() ==> 0 <= #[trigger] left[j] < v0.len() && rest@[j] == v0[left[j]],
            out@ + order_from(keys, left).map_values(f) == node_order(keys).map_values(f),
            f == (|j: int| v0[j].1),
        decreases rest@.len(),
    {
        let mut m: usize = 0;
        let mut j: usize = 1;
        assert(keys[left[0]] == rest@[0].0);
        while j < rest.len()
            invariant
                keys == keys_of(v0),
                rest@.len() == left.len(),
                forall|q: int| 0 <= q < left.len() ==> 0 <= #[trigger] left[q] < v0.len() && rest@[q] == v0[left[q]],
                1 <= j <= rest@.len(),
                m as int == min_at(keys, left, j as nat),
                m < j,
            decreases rest@.len() - j,
        {
            assert(keys[left[j as int]] == rest@[j as int].0);
            assert(keys[left[m as int]] == rest@[m as int].0);
            if rest[j].0 < rest[m].0 {
                m = j;
            }
            j = j + 1;
        }
        let ghost l0 = left;
        let ghost o0 = out@;
        let (_, e) = rest.remove(m);
        assert(e == v0[l0[m as int]].1);
        out.push(e);
        proof {
            left = l0.remove(m as int);
            assert(order_from(keys, l0) == seq![l0[m as int]] + order_from(keys, left));
            assert(order_from(keys, l0).map_values(f) =~= seq![f(l0[m as int])] + order_from(keys, left).map_values(f));
            assert(out@ + order_from(keys, left).map_values(f) =~= o0 + order_from(keys, l0).map_values(f));
            assert forall|q: int| 0 <= q < left.len() implies 0 <= #[trigger] left[q] < v0.len() && rest@[q] == v0[left[q]] by {
                if q < m {
                    assert(left[q] == l0[q]);
                } else {
                    assert(left[q] == l0[q + 1]);
                }
            }
        }
    }
    assert(order_from(keys, left) =~= Seq::<int>::empty());
    assert(out@ =~= node_order(keys).map_values(f));
    out
}

// ---------------------------------------------------------------------------
// End to end.
// ---------------------------------------------------------------------------

/// Each node id with its position among the nodes.
pub open spec fn node_positions(nodes: Seq<NodeInfo>) -> Seq<(usize, usize)> {
    Seq::new(nodes.len(), |i: int| (nodes[i].node_id, i as usize))
}

/// The first analysed macro named `name`.
pub open spec fn first_entry(ms: Seq<MacroEntry>, name: Seq<char>) -> Option<MacroEntry>
    decreases ms.len(),
{
    if ms.len() == 0 {
        None
    } else if ms[0].name@ == name {
        Some(ms[0])
    } else {
        first_entry(ms.drop_first(), name)
    }
}

/// The prefix of the root instance: its component name, or `"main"` where
/// that is empty.
pub open spec fn root_prefix_of(node: NodeInfo) -> Seq<char> {
    if node.component_name@.len() == 0 {
        "main"@
    } else {
        node.component_name@
    }
}

pub open spec fn no_main_message() -> Seq<char> {
    "the specification JSON has no 'main' macro"@
}

pub open spec fn main_unanalysed_message() -> Seq<char> {
    "the 'main' macro could not be analyzed from the specification JSON"@
}

/// `out` holds every node the walk `w` registered, resolved, in increasing
/// order of node id, then `main` resolved as the root instance.
pub open spec fn full_resolution(
    out: Seq<ResolvedMacroEntry>,
    w: WalkState,
    ms: Seq<MacroEntry>,
    defs: Seq<(Seq<char>, MacroDef)>,
    nodes: Seq<NodeInfo>,
    names: Seq<(Seq<char>, usize)>,
    main_entry: MacroEntry,
    main_def: MacroDef,
    root: NodeInfo,
) -> bool {
    &&& out.len() == w.correspondence.len() + 1
    &&& forall|i: int| 0 <= i < w.correspondence.len() ==> #[trigger] node_resolution(
        (w.correspondence[node_order(keys_of(w.correspondence))[i]].0, out[i]),
        w.correspondence[node_order(keys_of(w.correspondence))[i]],
        w.prefixes[node_order(keys_of(w.correspondence))[i]].1,
        ms,
        defs,
        nodes,
        node_positions(nodes),
        names,
    )
    &&& entry_resolution(out.last(), main_entry, main_def, root_prefix_of(root), root.input_signals@, names)
}

/// What [`resolve_full`] returns, step by step: the `main` macro and its one
/// call, the root node (node id 0), the walk from it and the resolution of
/// every node it reaches, then `main` itself.
pub open spec fn full_outcome(
    r: Result<Seq<ResolvedMacroEntry>, Seq<char>>,
    ms: Seq<MacroEntry>,
    macro_defs: Seq<(String, MacroDef)>,
    structure: StructureInfo,
    names: Seq<(Seq<char>, usize)>,
) -> bool {
    let defs = macro_names(macro_defs);
    let nodes = structure.nodes@;
    match lookup(defs, "main"@) {
        None => r == Err::<Seq<ResolvedMacroEntry>, Seq<char>>(no_main_message()),
        Some(main_def) => {
            let calls = crate::component_walk::macro_calls_of(main_def.formula@);
            if calls.len() == 0 {
                r == Err::<Seq<ResolvedMacroEntry>, Seq<char>>(crate::component_walk::no_call_message())
            } else if calls.len() > 1 {
                r == Err::<Seq<ResolvedMacroEntry>, Seq<char>>(crate::component_walk::many_calls_message(calls))
            } else {
                match pos_of(node_positions(nodes), 0) {
                    None => r == Err::<Seq<ResolvedMacroEntry>, Seq<char>>(no_node_message(0)),
                    Some(rp) => {
                        let w = root_walk(structure, node_positions(nodes), macro_defs, 0, calls[0], root_prefix_of(nodes[rp as int]));
                        match w.error {
                            Some(e) => r == Err::<Seq<ResolvedMacroEntry>, Seq<char>>(e),
                            None => match first_unanalysed(w.correspondence, ms, 0) {
                                Some(i) => r == Err::<Seq<ResolvedMacroEntry>, Seq<char>>(
                                    unanalysed_message(w.correspondence[i].1, w.correspondence[i].0),
                                ),
                                None => match first_entry(ms, "main"@) {
                                    None => r == Err::<Seq<ResolvedMacroEntry>, Seq<char>>(main_unanalysed_message()),
                                    Some(me) => (r matches Ok(out) && full_resolution(
                                        out, w, ms, defs, nodes, names, me, main_def, nodes[rp as int],
                                    )),
                                },
                            },
                        }
                    },
                }
            }
        },
    }
}

proof fn lemma_node_positions(nodes: Seq<NodeInfo>, id: usize, k: nat)
    requires
        k <= nodes.len(),
    ensures
        pos_of(node_positions(nodes).take(k as int), id) matches Some(p) ==> p < k,
    decreases k,
{
    if k > 0 {
        let t = node_positions(nodes).take(k as int);
        assert(t.drop_last() =~= node_positions(nodes).take(k - 1));
        lemma_node_positions(nodes, id, (k - 1) as nat);
    }
}

/// The first analysed macro named `name` (see [`first_entry`]).
fn find_first_entry<'a>(macros: &'a Vec<MacroEntry>, name: &str) -> (r: Option<&'a MacroEntry>)
    ensures
        match first_entry(macros@, name@) {
            Some(e) => r == Some(&e),
            None => r is None,
        },
{
    let mut i: usize = 0;
    assert(macros@.skip(0) =~= macros@);
    while i < macros.len()
        invariant
            i <= macros@.len(),
            first_entry(macros@, name@) == first_entry(macros@.skip(i as int), name@),
        decreases macros@.len() - i,
    {
        let ghost t = macros@.skip(i as int);
        assert(t.drop_first() =~= macros@.skip(i + 1));
        assert(t[0] == macros@[i as int]);
        if str_eq(macros[i].name.as_str(), name) {
            return Some(&macros[i]);
        }
        i = i + 1;
    }
    assert(macros@.skip(i as int) =~= Seq::<MacroEntry>::empty());
    None
}

/// Every macro of the circuit resolved against the r1cs signal names:
/// each node reached from the root node (node id 0), in increasing order of
/// node id, then `main`, which wraps the root instance and is resolved with
/// its prefix and its input signals (see [`full_outcome`]). `macros` are the
/// macros of `macro_defs` as analysed.
pub fn resolve_full(
    macros: &Vec<MacroEntry>,
    macro_defs: &Vec<(String, MacroDef)>,
    structure: &StructureInfo,
    name_to_signal: &Vec<(String, usize)>,
) -> (r: Result<Vec<ResolvedMacroEntry>, String>)
    requires
        crate::specification::distinct_names(macro_defs@),
    ensures
        full_outcome(result_view(r), macros@, macro_defs@, *structure, signal_pairs(name_to_signal@)),
{
    let ghost nodes = structure.nodes@;
    let mut nodeid2pos: Vec<(usize, usize)> = Vec::new();
    let mut k: usize = 0;
    while k < structure.nodes.len()
        invariant
            nodes == structure.nodes@,
            k <= nodes.len(),
            nodeid2pos@ == node_positions(nodes).take(k as int),
        decreases nodes.len() - k,
    {
        nodeid2pos.push((structure.nodes[k].node_id, k));
        assert(nodeid2pos@ =~= node_positions(nodes).take(k + 1));
        k = k + 1;
    }
    assert(node_positions(nodes).take(nodes.len() as int) =~= node_positions(nodes));
    let main_macro = match find_macro(macro_defs, "main") {
        Some(m) => m,
        None => {
            let m = string_from("the specification JSON has no 'main' macro");
            proof {
                reveal_strlit("the specification JSON has no 'main' macro");
                reveal_strlit("main");
            }
            return Err(m);
        },
    };
    proof {
        reveal_strlit("main");
    }
    let root_macro_name = match crate::component_walk::find_call_target(main_macro.formula.as_str()) {
        Ok(n) => n,
        Err(e) => {
            return Err(e);
        },
    };
    let root_pos = match find_pos(&nodeid2pos, 0) {
        Some(p) => p,
        None => {
            return Err(no_node_error(0));
        },
    };
    proof {
        lemma_node_positions(nodes, 0, nodes.len());
    }
    let root = &structure.nodes[root_pos];
    let unnamed = str_eq(root.component_name.as_str(), "");
    proof {
        reveal_strlit("");
        assert(""@ =~= Seq::<char>::empty());
        if root.component_name@.len() == 0 {
            assert(root.component_name@ =~= ""@);
        }
        assert(*root == nodes[root_pos as int]);
    }
    let root_prefix = if unnamed {
        string_from("main")
    } else {
        copy_string(&root.component_name)
    };
    assert(root_prefix@ == root_prefix_of(nodes[root_pos as int]));
    let resolved_by_node = match resolve_all_macros(
        macros,
        macro_defs,
        structure,
        &nodeid2pos,
        0,
        root_macro_name.as_str(),
        root_prefix.as_str(),
        name_to_signal,
    ) {
        Ok(v) => v,
        Err(e) => {
            return Err(e);
        },
    };
    let ghost rv = resolved_by_node@;
    let ghost w = root_walk(*structure, node_positions(nodes), macro_defs@, 0, root_macro_name@, root_prefix@);
    assert(keys_of(rv) =~= keys_of(w.correspondence)) by {
        assert forall|i: int| 0 <= i < rv.len() implies keys_of(rv)[i] == keys_of(w.correspondence)[i] by {
            assert(node_resolution(rv[i], w.correspondence[i], w.prefixes[i].1, macros@, macro_names(macro_defs@), nodes, node_positions(nodes), signal_pairs(name_to_signal@)));
        }
    }
    let mut out = sort_by_node(resolved_by_node);
    let main_entry = match find_first_entry(macros, "main") {
        Some(e) => e,
        None => {
            let m = string_from("the 'main' macro could not be analyzed from the specification JSON");
            proof {
                reveal_strlit("the 'main' macro could not be analyzed from the specification JSON");
            }
            return Err(m);
        },
    };
    let main_resolved = resolve_macro_entry(
        main_entry,
        main_macro,
        root_prefix.as_str(),
        root.input_signals.as_slice(),
        name_to_signal,
    );
    let ghost sorted = out@;
    out.push(main_resolved);
    proof {
        law_node_order_sorted(keys_of(rv));
        let order = node_order(keys_of(rv));
        assert forall|i: int| 0 <= i < w.correspondence.len() implies #[trigger] node_resolution(
            (w.correspondence[node_order(keys_of(w.correspondence))[i]].0, out@[i]),
            w.correspondence[node_order(keys_of(w.correspondence))[i]],
            w.prefixes[node_order(keys_of(w.correspondence))[i]].1,
            macros@,
            macro_names(macro_defs@),
            nodes,
            node_positions(nodes),
            signal_pairs(name_to_signal@),
        ) by {
            assert(order.contains(order[i]));
            let j = order[i];
            assert(out@[i] == sorted[i]);
            assert(sorted[i] == rv[j].1);
            assert(node_resolution(rv[j], w.correspondence[j], w.prefixes[j].1, macros@, macro_names(macro_defs@), nodes, node_positions(nodes), signal_pairs(name_to_signal@)));
        }
        assert(out@.last() == main_resolved);
    }
    Ok(out)
}

} // verus!
