//! JSON renderings of resolved macros: signal ids, resolved variables, and
//! the per-macro and single-dictionary views of every instance.
use vstd::prelude::*;
use crate::text::{decimal, json_quoted, push_char, push_decimal, push_json_string, push_str, string_from};
use crate::resolve::{RVar, ResolvedMacroEntry, ResolvedVar, copy_ids, rview, rviews};
use crate::instances::{InstanceView, ResolvedInstance, group_order, id_pairs, instance_list, iview, iviews, resolved_instances};
use crate::specification::MacroDef;
use crate::strings::{add_all_unique, copy_string, group_positions, groups_view, positions, strs};

verus! {

/// The parts joined with `", "`.
pub open spec fn joined(parts: Seq<Seq<char>>) -> Seq<char>
    decreases parts.len(),
{
    if parts.len() == 0 {
        Seq::empty()
    } else if parts.len() == 1 {
        parts[0]
    } else {
        joined(parts.drop_last()) + seq![',', ' '] + parts.last()
    }
}

/// The decimal renderings of `ids`.
pub open spec fn decimals(ids: Seq<usize>) -> Seq<Seq<char>> {
    ids.map_values(|i: usize| decimal(i as nat))
}

/// A JSON array of ids: `[1, 2, 3]`.
pub open spec fn ids_text(ids: Seq<usize>) -> Seq<char> {
    seq!['['] + joined(decimals(ids)) + seq![']']
}

proof fn lemma_joined_step(parts: Seq<Seq<char>>, i: int)
    requires
        0 <= i < parts.len(),
    ensures
        joined(parts.take(i + 1)) == joined(parts.take(i)) + (if i > 0 {
            seq![',', ' ']
        } else {
            Seq::empty()
        }) + parts[i],
{
    assert(parts.take(i + 1).drop_last() =~= parts.take(i));
    if i == 0 {
        assert(joined(parts.take(0)) =~= Seq::<char>::empty());
        assert(Seq::<char>::empty() + Seq::<char>::empty() + parts[0] =~= parts[0]);
    }
}

/// Appends the ids, in decimal, separated by `", "`.
pub(crate) fn push_ids(out: &mut String, ids: &[usize])
    ensures
        final(out)@ == old(out)@ + joined(decimals(ids@)),
{
    let ghost o = old(out)@;
    let ghost parts = decimals(ids@);
    let mut i: usize = 0;
    assert(parts.take(0) =~= Seq::<Seq<char>>::empty());
    assert(o + joined(parts.take(0)) =~= o);
    while i < ids.len()
        invariant
            parts == decimals(ids@),
            i <= ids@.len(),
            out@ == o + joined(parts.take(i as int)),
        decreases ids@.len() - i,
    {
        let ghost before = out@;
        if i > 0 {
            push_char(out, ',');
            push_char(out, ' ');
        }
        push_decimal(out, ids[i]);
        proof {
            lemma_joined_step(parts, i as int);
            assert(parts[i as int] == decimal(ids@[i as int] as nat));
            if i > 0 {
                assert(out@ =~= before + seq![',', ' '] + parts[i as int]);
            } else {
                assert(out@ =~= before + parts[i as int]);
            }
            assert(out@ =~= o + joined(parts.take(i + 1)));
        }
        i = i + 1;
    }
    assert(parts.take(ids@.len() as int) =~= parts);
}

/// Appends `ids` as a JSON array.
fn push_ids_array(out: &mut String, ids: &[usize])
    ensures
        final(out)@ == old(out)@ + ids_text(ids@),
{
    let ghost o = old(out)@;
    push_char(out, '[');
    push_ids(out, ids);
    push_char(out, ']');
    assert(out@ =~= o + ids_text(ids@));
}

/// `ids` as a JSON array.
pub fn ids_json(ids: &[usize]) -> (r: String)
    ensures
        r@ == ids_text(ids@),
{
    let mut r = String::new();
    push_ids_array(&mut r, ids);
    assert(Seq::<char>::empty() + ids_text(ids@) =~= ids_text(ids@));
    r
}

/// A resolved variable in JSON: one id bare, several ids as an array, an
/// unresolved variable as its quoted name.
pub open spec fn rvar_text(v: RVar) -> Seq<char> {
    match v {
        RVar::Signal(ids) => if ids.len() == 1 {
            decimal(ids[0] as nat)
        } else {
            ids_text(ids)
        },
        RVar::Unresolved(name) => json_quoted(name),
    }
}

/// A resolved variable in JSON (see [`rvar_text`]).
pub fn resolved_var_json(v: &ResolvedVar) -> (r: String)
    ensures
        r@ == rvar_text(rview(*v)),
{
    let mut r = String::new();
    match v {
        ResolvedVar::Signal(ids) => {
            if ids.len() == 1 {
                push_decimal(&mut r, ids[0]);
            } else {
                push_ids_array(&mut r, ids.as_slice());
            }
        },
        ResolvedVar::Unresolved(name) => {
            push_json_string(&mut r, name.as_str());
        },
    }
    assert(r@ =~= rvar_text(rview(*v)));
    r
}

/// A resolved variable as an array element: every id of a signal, separated
/// by `", "`; anything else as [`rvar_text`] gives it.
pub open spec fn first_var_text(v: RVar) -> Seq<char> {
    match v {
        RVar::Signal(ids) => if ids.len() > 0 {
            joined(decimals(ids))
        } else {
            rvar_text(v)
        },
        RVar::Unresolved(_) => rvar_text(v),
    }
}

/// A resolved variable as an array element (see [`first_var_text`]).
pub fn resolved_first_var_json(v: &ResolvedVar) -> (r: String)
    ensures
        r@ == first_var_text(rview(*v)),
{
    match v {
        ResolvedVar::Signal(ids) => {
            if ids.len() > 0 {
                let mut r = String::new();
                push_ids(&mut r, ids.as_slice());
                assert(r@ =~= first_var_text(rview(*v)));
                r
            } else {
                resolved_var_json(v)
            }
        },
        ResolvedVar::Unresolved(_) => resolved_var_json(v),
    }
}

/// The elements shown among `items`: all of them, or the signals alone.
pub open spec fn shown(items: Seq<RVar>, show_unresolved: bool) -> Seq<Seq<char>>
    decreases items.len(),
{
    if items.len() == 0 {
        Seq::empty()
    } else {
        shown(items.drop_last(), show_unresolved) + if show_unresolved || items.last() is Signal {
            seq![first_var_text(items.last())]
        } else {
            Seq::empty()
        }
    }
}

/// The items as a JSON array (see [`shown`] and [`first_var_text`]).
pub fn resolved_first_var_array_json(items: &[ResolvedVar], show_unresolved: bool) -> (r: String)
    ensures
        r@ == seq!['['] + joined(shown(rviews(items@), show_unresolved)) + seq![']'],
{
    let ghost iv = rviews(items@);
    let mut r = String::new();
    push_char(&mut r, '[');
    let mut i: usize = 0;
    let mut count: usize = 0;
    assert(iv.take(0) =~= Seq::<RVar>::empty());
    assert(seq!['['] + joined(shown(iv.take(0), show_unresolved)) =~= seq!['[']);
    while i < items.len()
        invariant
            iv == rviews(items@),
            i <= items@.len(),
            count == shown(iv.take(i as int), show_unresolved).len(),
            count <= i,
            r@ == seq!['['] + joined(shown(iv.take(i as int), show_unresolved)),
        decreases items@.len() - i,
    {
        let ghost before = r@;
        let ghost s0 = shown(iv.take(i as int), show_unresolved);
        assert(iv.take(i + 1).drop_last() =~= iv.take(i as int));
        assert(iv.take(i + 1).last() == rview(items@[i as int]));
        if show_unresolved || items[i].is_signal() {
            if count > 0 {
                push_char(&mut r, ',');
                push_char(&mut r, ' ');
            }
            let t = resolved_first_var_json(&items[i]);
            push_str(&mut r, t.as_str());
            proof {
                let s1 = shown(iv.take(i + 1), show_unresolved);
                assert(s1 =~= s0.push(first_var_text(rview(items@[i as int]))));
                lemma_joined_step(s1, count as int);
                assert(s1.take(count as int) =~= s0);
                assert(s1.take(count + 1) =~= s1);
                if count > 0 {
                    assert(r@ =~= before + seq![',', ' '] + t@);
                } else {
                    assert(r@ =~= before + t@);
                }
                assert(r@ =~= seq!['['] + joined(s1));
            }
            count = count + 1;
        } else {
            assert(shown(iv.take(i + 1), show_unresolved) =~= s0);
        }
        i = i + 1;
    }
    assert(iv.take(items@.len() as int) =~= iv);
    push_char(&mut r, ']');
    r
}

/// One `"equalityN": [...]` line, indented with `pad`.
pub open spec fn equality_line(pad: Seq<char>, n: nat, ids: Seq<usize>) -> Seq<char> {
    pad + seq!['"'] + "equality"@ + decimal(n) + seq!['"', ':', ' '] + ids_text(ids)
}

/// One `"equalityN": [...]` line per group, numbered from 1, each indented
/// with `pad`. Every group is non-empty and no two share their first
/// (smallest) id, so an id printed alone names one group.
pub fn equality_groups_json(groups: &[Vec<usize>], pad: &str) -> (r: Vec<String>)
    requires
        forall|i: int| 0 <= i < groups@.len() ==> (#[trigger] groups@[i])@.len() > 0,
        forall|i: int, j: int| 0 <= i < j < groups@.len() ==> (#[trigger] groups@[i])@[0] != (#[trigger] groups@[j])@[0],
    ensures
        r@.len() == groups@.len(),
        forall|i: int| 0 <= i < r@.len() ==> (#[trigger] r@[i])@ == equality_line(pad@, (i + 1) as nat, groups@[i]@),
{
    let mut r: Vec<String> = Vec::new();
    let mut i: usize = 0;
    while i < groups.len()
        invariant
            i <= groups@.len(),
            r@.len() == i,
            forall|k: int| 0 <= k < i ==> (#[trigger] r@[k])@ == equality_line(pad@, (k + 1) as nat, groups@[k]@),
        decreases groups@.len() - i,
    {
        let mut line = string_from(pad);
        push_str(&mut line, "\"equality");
        push_decimal(&mut line, i + 1);
        push_str(&mut line, "\": ");
        push_ids_array(&mut line, groups[i].as_slice());
        proof {
            reveal_strlit("\"equality");
            reveal_strlit("\": ");
            assert("\"equality"@ =~= seq!['"'] + "equality"@) by {
                reveal_strlit("equality");
            }
            assert(line@ =~= equality_line(pad@, (i + 1) as nat, groups@[i as int]@));
        }
        r.push(line);
        i = i + 1;
    }
    r
}

// ---------------------------------------------------------------------------
// The per-macro view and the single-dictionary view.
// ---------------------------------------------------------------------------

/// `","` unless `last`.
pub open spec fn comma(last: bool) -> Seq<char> {
    if last {
        Seq::empty()
    } else {
        seq![',']
    }
}

/// One `"tag": [ids]` line, six spaces in, ending with `","` unless `last`.
pub open spec fn id_line(p: (Seq<char>, Seq<usize>), last: bool) -> Seq<char> {
    seq![' ', ' ', ' ', ' ', ' ', ' '] + json_quoted(p.0) + seq![':', ' '] + ids_text(p.1) + comma(last) + seq!['\n']
}

/// The lines of the first `n` pairs, the last of all without a comma.
pub open spec fn id_lines(pairs: Seq<(Seq<char>, Seq<usize>)>, n: nat) -> Seq<char>
    decreases n,
{
    if n == 0 || n > pairs.len() {
        Seq::empty()
    } else {
        id_lines(pairs, (n - 1) as nat) + id_line(pairs[n - 1], n == pairs.len())
    }
}

/// The lines of the first `n` pairs, each with its comma.
pub open spec fn open_id_lines(pairs: Seq<(Seq<char>, Seq<usize>)>, n: nat) -> Seq<char>
    decreases n,
{
    if n == 0 || n > pairs.len() {
        Seq::empty()
    } else {
        open_id_lines(pairs, (n - 1) as nat) + id_line(pairs[n - 1], false)
    }
}

/// The JSON object of one instance: its prefix, its tied groups, its tags.
pub open spec fn instance_block(r: InstanceView, last: bool) -> Seq<char> {
    "    {\n      \"instance\": "@ + json_quoted(r.instance_prefix) + seq![',', '\n']
        + open_id_lines(r.equalities, r.equalities.len()) + id_lines(r.tags, r.tags.len())
        + seq![' ', ' ', ' ', ' ', '}'] + comma(last) + seq!['\n']
}

pub open spec fn instance_blocks(rs: Seq<InstanceView>, n: nat) -> Seq<char>
    decreases n,
{
    if n == 0 || n > rs.len() {
        Seq::empty()
    } else {
        instance_blocks(rs, (n - 1) as nat) + instance_block(rs[n - 1], n == rs.len())
    }
}

/// The entry of one macro: its name and the array of its instances.
pub open spec fn macro_group_block(name: Seq<char>, rs: Seq<InstanceView>, last: bool) -> Seq<char> {
    seq![' ', ' '] + json_quoted(name) + seq![':', ' ', '[', '\n'] + instance_blocks(rs, rs.len())
        + seq![' ', ' ', ']'] + comma(last) + seq!['\n']
}

/// The macro names of the instances.
pub open spec fn instance_names(rs: Seq<InstanceView>) -> Seq<Seq<char>> {
    rs.map_values(|r: InstanceView| r.macro_name)
}

/// The macro names in the order they first appear.
pub open spec fn name_order(rs: Seq<InstanceView>) -> Seq<Seq<char>> {
    add_all_unique(Seq::empty(), instance_names(rs))
}

/// The instances of macro `g`, in their order.
pub open spec fn members(rs: Seq<InstanceView>, g: Seq<char>) -> Seq<InstanceView> {
    positions(instance_names(rs), g, rs.len()).map_values(|j: usize| rs[j as int])
}

pub open spec fn macro_group_blocks(rs: Seq<InstanceView>, n: nat) -> Seq<char>
    decreases n,
{
    if n == 0 || n > name_order(rs).len() {
        Seq::empty()
    } else {
        macro_group_blocks(rs, (n - 1) as nat) + macro_group_block(
            name_order(rs)[n - 1],
            members(rs, name_order(rs)[n - 1]),
            n == name_order(rs).len(),
        )
    }
}

/// Per-macro view: `{ macro: [ { "instance": prefix, "equalityN": [...],
/// tag: [...] }, ... ] }`, one key per macro, in the order the macros
/// first appear.
pub open spec fn flat_resolved_text(rs: Seq<InstanceView>) -> Seq<char> {
    seq!['{', '\n'] + macro_group_blocks(rs, name_order(rs).len()) + seq!['}']
}

/// Appends one id line.
fn push_id_line(out: &mut String, tag: &String, ids: &Vec<usize>, last: bool)
    ensures
        final(out)@ == old(out)@ + id_line((tag@, ids@), last),
{
    let ghost o = old(out)@;
    push_str(out, "      ");
    push_json_string(out, tag.as_str());
    push_str(out, ": ");
    push_ids_array(out, ids.as_slice());
    if !last {
        push_char(out, ',');
    }
    push_char(out, '\n');
    proof {
        reveal_strlit("      ");
        reveal_strlit(": ");
        assert(out@ =~= o + id_line((tag@, ids@), last));
    }
}

/// Appends the lines of `pairs`; with `close`, the last without its comma.
fn push_id_lines(out: &mut String, pairs: &Vec<(String, Vec<usize>)>, close: bool)
    ensures
        final(out)@ == old(out)@ + if close {
            id_lines(groups_view(pairs@), pairs@.len())
        } else {
            open_id_lines(groups_view(pairs@), pairs@.len())
        },
{
    let ghost o = old(out)@;
    let ghost pv = groups_view(pairs@);
    let mut i: usize = 0;
    assert(o + id_lines(pv, 0) =~= o);
    assert(o + open_id_lines(pv, 0) =~= o);
    while i < pairs.len()
        invariant
            pv == groups_view(pairs@),
            i <= pairs@.len(),
            out@ == o + if close {
                id_lines(pv, i as nat)
            } else {
                open_id_lines(pv, i as nat)
            },
        decreases pairs@.len() - i,
    {
        let ghost before = out@;
        push_id_line(out, &pairs[i].0, &pairs[i].1, close && i + 1 == pairs.len());
        assert(pv[i as int] == (pairs@[i as int].0@, pairs@[i as int].1@));
        assert(out@ =~= o + if close {
            id_lines(pv, (i + 1) as nat)
        } else {
            open_id_lines(pv, (i + 1) as nat)
        });
        i = i + 1;
    }
}

fn push_instance_block(out: &mut String, r: &ResolvedInstance, last: bool)
    ensures
        final(out)@ == old(out)@ + instance_block(iview(*r), last),
{
    let ghost o = old(out)@;
    push_str(out, "    {\n      \"instance\": ");
    push_json_string(out, r.instance_prefix.as_str());
    push_char(out, ',');
    push_char(out, '\n');
    push_id_lines(out, &r.equalities, false);
    push_id_lines(out, &r.tags, true);
    push_str(out, "    }");
    if !last {
        push_char(out, ',');
    }
    push_char(out, '\n');
    proof {
        reveal_strlit("    }");
        assert(groups_view(r.equalities@) =~= id_pairs(r.equalities@));
        assert(groups_view(r.tags@) =~= id_pairs(r.tags@));
        assert(out@ =~= o + instance_block(iview(*r), last));
    }
}

/// Appends the entry of macro `name`: its instances, those of `resolved` at
/// the positions `idxs`.
fn push_macro_group(out: &mut String, resolved: &Vec<ResolvedInstance>, name: &String, idxs: &Vec<usize>, last: bool)
    requires
        forall|i: int| 0 <= i < idxs@.len() ==> (#[trigger] idxs@[i]) < resolved@.len(),
    ensures
        final(out)@ == old(out)@ + macro_group_block(name@, idxs@.map_values(|k: usize| iview(resolved@[k as int])), last),
{
    let ghost ms = idxs@.map_values(|k: usize| iview(resolved@[k as int]));
    let ghost before = old(out)@;
    push_str(out, "  ");
    push_json_string(out, name.as_str());
    push_str(out, ": [\n");
    let ghost head = out@;
    let mut t: usize = 0;
    while t < idxs.len()
        invariant
            forall|i: int| 0 <= i < idxs@.len() ==> (#[trigger] idxs@[i]) < resolved@.len(),
            ms == idxs@.map_values(|k: usize| iview(resolved@[k as int])),
            t <= idxs@.len(),
            out@ == head + instance_blocks(ms, t as nat),
        decreases idxs@.len() - t,
    {
        let k = idxs[t];
        push_instance_block(out, &resolved[k], t + 1 == idxs.len());
        assert(ms[t as int] == iview(resolved@[k as int]));
        assert(out@ =~= head + instance_blocks(ms, (t + 1) as nat));
        t = t + 1;
    }
    push_str(out, "  ]");
    if !last {
        push_char(out, ',');
    }
    push_char(out, '\n');
    proof {
        reveal_strlit("  ");
        reveal_strlit(": [\n");
        reveal_strlit("  ]");
        assert(out@ =~= before + macro_group_block(name@, ms, last));
    }
}

/// The per-macro view of every instance (see [`flat_resolved_text`] and
/// [`crate::instances::instance_list`]). `show_unresolved` changes nothing:
/// an unresolved variable contributes the signals it reaches, never itself.
pub fn to_json_flat_resolved(
    macros: &[ResolvedMacroEntry],
    macro_defs: &Vec<(String, MacroDef)>,
    show_unresolved: bool,
) -> (r: String)
    requires
        crate::specification::distinct_names(macro_defs@),
    ensures
        r@ == flat_resolved_text(instance_list(macros@, macro_defs@, group_order(macros@), group_order(macros@).len())),
{
    let resolved = resolved_instances(macros, macro_defs);
    let ghost rs = iviews(resolved@);
    let mut names: Vec<String> = Vec::new();
    let mut j: usize = 0;
    while j < resolved.len()
        invariant
            rs == iviews(resolved@),
            j <= resolved@.len(),
            strs(names@) == instance_names(rs).take(j as int),
        decreases resolved@.len() - j,
    {
        let c = copy_string(&resolved[j].macro_name);
        let ghost n0 = names@;
        names.push(c);
        assert(strs(names@) =~= strs(n0).push(c@));
        assert(instance_names(rs).take(j + 1) =~= instance_names(rs).take(j as int).push(rs[j as int].macro_name));
        j = j + 1;
    }
    assert(instance_names(rs).take(rs.len() as int) =~= instance_names(rs));
    let n = resolved.len();
    let groups = group_positions(&names);
    let ghost order = name_order(rs);
    let mut out = string_from("{\n");
    assert(out@ =~= seq!['{', '\n']) by {
        reveal_strlit("{\n");
    }
    let mut gi: usize = 0;
    while gi < groups.len()
        invariant
            rs == iviews(resolved@),
            rs.len() == n,
            strs(names@) == instance_names(rs),
            order == name_order(rs),
            groups@.len() == order.len(),
            forall|g: int| 0 <= g < groups@.len() ==> (#[trigger] groups_view(groups@)[g]) == (
                order[g],
                positions(instance_names(rs), order[g], n as nat),
            ),
            gi <= groups@.len(),
            out@ == seq!['{', '\n'] + macro_group_blocks(rs, gi as nat),
        decreases groups@.len() - gi,
    {
        let ghost before = out@;
        let name = &groups[gi].0;
        let idxs = &groups[gi].1;
        assert(groups_view(groups@)[gi as int] == (name@, idxs@));
        proof {
            crate::strings::lemma_positions_range(instance_names(rs), order[gi as int], n as nat);
        }
        push_macro_group(&mut out, &resolved, name, idxs, gi + 1 == groups.len());
        proof {
            let ms = members(rs, order[gi as int]);
            assert(ms =~= idxs@.map_values(|k: usize| iview(resolved@[k as int])));
            assert(out@ =~= before + macro_group_block(order[gi as int], ms, gi + 1 == order.len()));
            assert(out@ =~= seq!['{', '\n'] + macro_group_blocks(rs, (gi + 1) as nat));
        }
        gi = gi + 1;
    }
    push_char(&mut out, '}');
    out
}

/// `pairs` with every name prefixed by `prefix` and a dot.
pub open spec fn prefixed(prefix: Seq<char>, pairs: Seq<(Seq<char>, Seq<usize>)>) -> Seq<(Seq<char>, Seq<usize>)> {
    pairs.map_values(|p: (Seq<char>, Seq<usize>)| (prefix + seq!['.'] + p.0, p.1))
}

/// Every tied group and tag of the first `n` instances, prefixed by its
/// instance.
pub open spec fn single_entries(rs: Seq<InstanceView>, n: nat) -> Seq<(Seq<char>, Seq<usize>)>
    decreases n,
{
    if n == 0 || n > rs.len() {
        Seq::empty()
    } else {
        single_entries(rs, (n - 1) as nat) + prefixed(rs[n - 1].instance_prefix, rs[n - 1].equalities + rs[n - 1].tags)
    }
}

/// Single-dictionary view: one key `"all"`, one object under the first
/// instance's prefix (`"main"` when there is none) holding every entry of
/// every instance (see [`single_entries`]).
pub open spec fn single_resolved_text(rs: Seq<InstanceView>) -> Seq<char> {
    let root = if rs.len() > 0 {
        rs[0].instance_prefix
    } else {
        "main"@
    };
    let entries = single_entries(rs, rs.len());
    "{\n  \"all\": [\n    {\n      \"instance\": "@ + json_quoted(root) + seq![',', '\n']
        + id_lines(entries, entries.len()) + "    }\n  ]\n}"@
}

/// Appends the prefixed copies of `pairs`.
fn push_prefixed(entries: &mut Vec<(String, Vec<usize>)>, prefix: &String, pairs: &Vec<(String, Vec<usize>)>)
    ensures
        groups_view(final(entries)@) == groups_view(old(entries)@) + prefixed(prefix@, groups_view(pairs@)),
{
    let ghost e0 = groups_view(old(entries)@);
    let mut i: usize = 0;
    while i < pairs.len()
        invariant
            i <= pairs@.len(),
            groups_view(entries@) == e0 + prefixed(prefix@, groups_view(pairs@).take(i as int)),
        decreases pairs@.len() - i,
    {
        let mut key = copy_string(prefix);
        push_char(&mut key, '.');
        push_str(&mut key, pairs[i].0.as_str());
        let ids = copy_ids(&pairs[i].1);
        let ghost before = entries@;
        entries.push((key, ids));
        proof {
            assert(groups_view(pairs@).take(i + 1) =~= groups_view(pairs@).take(i as int).push(groups_view(pairs@)[i as int]));
            assert(groups_view(entries@) =~= groups_view(before).push((key@, ids@)));
            assert(key@ =~= prefix@ + seq!['.'] + pairs@[i as int].0@);
            assert(groups_view(pairs@)[i as int] == (pairs@[i as int].0@, pairs@[i as int].1@));
            assert(prefixed(prefix@, groups_view(pairs@).take(i + 1)) =~= prefixed(prefix@, groups_view(pairs@).take(i as int)).push(
                (prefix@ + seq!['.'] + pairs@[i as int].0@, pairs@[i as int].1@)));
            assert(groups_view(entries@) =~= e0 + prefixed(prefix@, groups_view(pairs@).take(i + 1)));
        }
        i = i + 1;
    }
    assert(groups_view(pairs@).take(pairs@.len() as int) =~= groups_view(pairs@));
}

/// The single-dictionary view of every instance (see
/// [`single_resolved_text`] and [`crate::instances::instance_list`]).
pub fn to_json_single_resolved(macros: &[ResolvedMacroEntry], macro_defs: &Vec<(String, MacroDef)>) -> (r: String)
    requires
        crate::specification::distinct_names(macro_defs@),
    ensures
        r@ == single_resolved_text(instance_list(macros@, macro_defs@, group_order(macros@), group_order(macros@).len())),
{
    let resolved = resolved_instances(macros, macro_defs);
    let ghost rs = iviews(resolved@);
    let root = if resolved.len() > 0 {
        copy_string(&resolved[0].instance_prefix)
    } else {
        string_from("main")
    };
    proof {
        reveal_strlit("main");
    }
    let mut entries: Vec<(String, Vec<usize>)> = Vec::new();
    let mut i: usize = 0;
    assert(groups_view(entries@) =~= single_entries(rs, 0));
    while i < resolved.len()
        invariant
            rs == iviews(resolved@),
            i <= resolved@.len(),
            groups_view(entries@) == single_entries(rs, i as nat),
        decreases resolved@.len() - i,
    {
        let r = &resolved[i];
        let ghost before = groups_view(entries@);
        push_prefixed(&mut entries, &r.instance_prefix, &r.equalities);
        push_prefixed(&mut entries, &r.instance_prefix, &r.tags);
        proof {
            let rv = rs[i as int];
            assert(rv == iview(*r));
            assert(groups_view(r.equalities@) =~= rv.equalities);
            assert(groups_view(r.tags@) =~= rv.tags);
            assert(prefixed(rv.instance_prefix, rv.equalities + rv.tags) =~= prefixed(rv.instance_prefix, rv.equalities)
                + prefixed(rv.instance_prefix, rv.tags));
            assert(groups_view(entries@) =~= single_entries(rs, (i + 1) as nat));
        }
        i = i + 1;
    }
    let mut out = string_from("{\n  \"all\": [\n    {\n      \"instance\": ");
    push_json_string(&mut out, root.as_str());
    push_char(&mut out, ',');
    push_char(&mut out, '\n');
    push_id_lines(&mut out, &entries, true);
    push_str(&mut out, "    }\n  ]\n}");
    proof {
        reveal_strlit("{\n  \"all\": [\n    {\n      \"instance\": ");
        reveal_strlit("    }\n  ]\n}");
        assert(out@ =~= single_resolved_text(rs));
    }
    out
}

} // verus!
