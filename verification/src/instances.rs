//! Per-instance view of resolved macros: for every tag, the r1cs signals it
//! reaches (its own, and through every unresolved temporary those of the tags
//! that define it), and the groups of ids tied to one variable; and the JSON
//! renderings of that view.
use vstd::prelude::*;
use crate::text::{chars_of, is_white, is_whitespace, is_digit, is_ascii_digit, str_eq, string_of};
use crate::specification::{Binding, MacroDef, VarBinding, bview, find_binding, lookup, vars_view};
use crate::component_walk::{white_end, lemma_white_end};
use crate::resolve::{RTag, RVar, ResolvedTagNode, ResolvedVar, copy_rvar, groups_of, lemma_rtviews, push_all_unique_rvars, ragg, rtview, rtviews, rview, rviews, sorted_ids};
use crate::strings::{add_all_unique, copy_string, string_eq, strs, positions, groups_view, group_positions};
use crate::tags::{key_index, lemma_key_index, lemma_key_index_push, lemma_key_index_update};
use crate::mixed_graph::contains_usize;
use crate::text::{decimal, push_decimal, string_from};

verus! {

// ---------------------------------------------------------------------------
// Words, trimming, `:=`.
// ---------------------------------------------------------------------------

#[via_fn]
proof fn words_from_decreases(s: Seq<char>, i: int) {
    if 0 <= i < s.len() && !is_white(s[i]) {
        lemma_white_end(s, i + 1);
    }
}

/// The whitespace-separated words of `s` from position `i` on.
pub open spec fn words_from(s: Seq<char>, i: int) -> Seq<Seq<char>>
    decreases s.len() - i via words_from_decreases
{
    if i < 0 || i >= s.len() {
        Seq::empty()
    } else if is_white(s[i]) {
        words_from(s, i + 1)
    } else {
        seq![s.subrange(i, white_end(s, i))] + words_from(s, white_end(s, i))
    }
}

/// The whitespace-separated words of `s` (what `str::split_whitespace` gives).
pub open spec fn words(s: Seq<char>) -> Seq<Seq<char>> {
    words_from(s, 0)
}

fn split_words(s: &[char]) -> (r: Vec<Vec<char>>)
    ensures
        r@.map_values(|w: Vec<char>| w@) == words(s@),
{
    let ghost sv = s@;
    let mut out: Vec<Vec<char>> = Vec::new();
    let mut i: usize = 0;
    assert(out@.map_values(|w: Vec<char>| w@) + words_from(sv, 0) =~= words(sv));
    while i < s.len()
        invariant
            sv == s@,
            i <= sv.len(),
            out@.map_values(|w: Vec<char>| w@) + words_from(sv, i as int) == words(sv),
        decreases sv.len() - i,
    {
        if is_whitespace(s[i]) {
            i = i + 1;
        } else {
            let mut e = i;
            proof {
                lemma_white_end(sv, i as int);
            }
            while e < s.len() && !is_whitespace(s[e])
                invariant
                    sv == s@,
                    i <= e <= sv.len(),
                    white_end(sv, e as int) == white_end(sv, i as int),
                decreases sv.len() - e,
            {
                e = e + 1;
            }
            let ghost before = out@.map_values(|w: Vec<char>| w@);
            let mut w: Vec<char> = Vec::new();
            let mut k = i;
            while k < e
                invariant
                    sv == s@,
                    i <= k <= e <= sv.len(),
                    w@ == sv.subrange(i as int, k as int),
                decreases e - k,
            {
                w.push(s[k]);
                assert(sv.subrange(i as int, k + 1) =~= sv.subrange(i as int, k as int).push(sv[k as int]));
                k = k + 1;
            }
            out.push(w);
            assert(out@.map_values(|w: Vec<char>| w@) =~= before.push(sv.subrange(i as int, e as int)));
            assert(before.push(sv.subrange(i as int, e as int)) + words_from(sv, e as int) =~= before + (seq![sv.subrange(i as int, e as int)] + words_from(sv, e as int)));
            i = e;
        }
    }
    assert(out@.map_values(|w: Vec<char>| w@) + Seq::<Seq<char>>::empty() =~= out@.map_values(|w: Vec<char>| w@));
    out
}

/// `s` without leading whitespace.
pub open spec fn trim_start(s: Seq<char>) -> Seq<char>
    decreases s.len(),
{
    if s.len() > 0 && is_white(s[0]) {
        trim_start(s.drop_first())
    } else {
        s
    }
}

/// `s` without trailing whitespace.
pub open spec fn trim_end(s: Seq<char>) -> Seq<char>
    decreases s.len(),
{
    if s.len() > 0 && is_white(s.last()) {
        trim_end(s.drop_last())
    } else {
        s
    }
}

/// `s` without leading and trailing whitespace (what `str::trim` gives).
pub open spec fn trimmed(s: Seq<char>) -> Seq<char> {
    trim_end(trim_start(s))
}

fn trim_chars(s: &[char]) -> (r: Vec<char>)
    ensures
        r@ == trimmed(s@),
{
    let ghost sv = s@;
    let mut a: usize = 0;
    assert(sv.skip(0) =~= sv);
    while a < s.len() && is_whitespace(s[a])
        invariant
            sv == s@,
            a <= sv.len(),
            trim_start(sv.skip(a as int)) == trim_start(sv),
        decreases sv.len() - a,
    {
        assert(sv.skip(a as int).drop_first() =~= sv.skip(a + 1));
        a = a + 1;
    }
    if a < s.len() {
        assert(sv.skip(a as int)[0] == sv[a as int]);
    }
    let ghost t = sv.skip(a as int);
    assert(trim_start(sv) == t);
    let mut b: usize = s.len();
    assert(t.take(t.len() as int) =~= t);
    while b > a && is_whitespace(s[b - 1])
        invariant
            sv == s@,
            t == sv.skip(a as int),
            a <= b <= sv.len(),
            trim_end(t.take(b - a)) == trim_end(t),
        decreases b,
    {
        assert(t.take(b - a).drop_last() =~= t.take(b - 1 - a));
        assert(t.take(b - a).last() == sv[b - 1]);
        b = b - 1;
    }
    if b > a {
        assert(t.take(b - a).last() == sv[b - 1]);
    }
    let mut r: Vec<char> = Vec::new();
    let mut k = a;
    while k < b
        invariant
            sv == s@,
            a <= k <= b <= sv.len(),
            r@ == sv.subrange(a as int, k as int),
        decreases b - k,
    {
        r.push(s[k]);
        assert(sv.subrange(a as int, k + 1) =~= sv.subrange(a as int, k as int).push(sv[k as int]));
        k = k + 1;
    }
    assert(r@ =~= t.take(b - a));
    r
}

/// Position of the first `:=` at or after `i`.
pub open spec fn first_assign(s: Seq<char>, i: int) -> Option<int>
    decreases s.len() - i,
{
    if i < 0 || i + 1 >= s.len() {
        None
    } else if s[i] == ':' && s[i + 1] == '=' {
        Some(i)
    } else {
        first_assign(s, i + 1)
    }
}

// ---------------------------------------------------------------------------
// What a tag defines.
// ---------------------------------------------------------------------------

/// The variable names among the elements of an array binding.
pub open spec fn somes(items: Seq<Option<Seq<char>>>) -> Seq<Seq<char>>
    decreases items.len(),
{
    if items.len() == 0 {
        Seq::empty()
    } else {
        somes(items.drop_last()) + match items.last() {
            Some(v) => seq![v],
            None => Seq::empty(),
        }
    }
}

/// The variables a tag `left := ...` defines: what `vars_info` binds `left`
/// (trimmed) to; nothing without a macro, without `:=`, or for a binding
/// that names no variable.
pub open spec fn tag_defines_of(tag: Seq<char>, vi: Option<Seq<(Seq<char>, Binding)>>) -> Seq<Seq<char>> {
    match vi {
        None => Seq::empty(),
        Some(vi) => match first_assign(tag, 0) {
            None => Seq::empty(),
            Some(i) => match lookup(vi, trimmed(tag.take(i))) {
                Some(Binding::Name(v)) => seq![v],
                Some(Binding::Names(items)) => somes(items),
                _ => Seq::empty(),
            },
        },
    }
}

fn vec_of(s: &String) -> (r: Vec<char>)
    ensures
        r@ == s@,
{
    chars_of(s.as_str())
}

/// See [`tag_defines_of`].
pub fn tag_defines(tag: &String, macro_def: Option<&MacroDef>) -> (r: Vec<String>)
    ensures
        r@.map_values(|s: String| s@) == tag_defines_of(
            tag@,
            match macro_def {
                Some(d) => Some(vars_view(d.vars_info@)),
                None => None,
            },
        ),
{
    let def = match macro_def {
        Some(d) => d,
        None => {
            return Vec::new();
        },
    };
    let cs = vec_of(tag);
    let ghost sv = cs@;
    let mut i: usize = 0;
    let mut found = false;
    while i < cs.len() && i + 1 < cs.len() && !found
        invariant
            sv == cs@,
            i <= sv.len(),
            found ==> i + 1 < sv.len() && sv[i as int] == ':' && sv[i + 1] == '=' && first_assign(sv, 0) == Some(i as int),
            !found ==> first_assign(sv, i as int) == first_assign(sv, 0),
        decreases sv.len() - i + if found { 0int } else { 1int },
    {
        if cs[i] == ':' && cs[i + 1] == '=' {
            found = true;
        } else {
            i = i + 1;
        }
    }
    if !found {
        assert(first_assign(sv, i as int) is None);
        return Vec::new();
    }
    let left = trim_chars(&cs.as_slice()[0..i]);
    assert(cs@.subrange(0, i as int) =~= sv.take(i as int));
    let key = string_of(left.as_slice());
    let ghost vi = vars_view(def.vars_info@);
    match find_binding(&def.vars_info, key.as_str()) {
        None => Vec::new(),
        Some(b) => {
            match b {
                VarBinding::Name(v) => {
                    let mut r: Vec<String> = Vec::new();
                    r.push(crate::strings::copy_string(v));
                    assert(r@.map_values(|s: String| s@) =~= seq![v@]);
                    r
                },
                VarBinding::Names(items) => {
                    let ghost iv = items@.map_values(|o: Option<String>| crate::specification::opt_view(o));
                    let mut r: Vec<String> = Vec::new();
                    let mut k: usize = 0;
                    assert(iv.take(0) =~= Seq::<Option<Seq<char>>>::empty());
                    while k < items.len()
                        invariant
                            iv == items@.map_values(|o: Option<String>| crate::specification::opt_view(o)),
                            k <= iv.len(),
                            r@.map_values(|s: String| s@) == somes(iv.take(k as int)),
                        decreases iv.len() - k,
                    {
                        let ghost before = r@.map_values(|s: String| s@);
                        assert(iv.take(k + 1).drop_last() =~= iv.take(k as int));
                        assert(iv.take(k + 1).last() == iv[k as int]);
                        match &items[k] {
                            Some(v) => {
                                r.push(crate::strings::copy_string(v));
                                assert(r@.map_values(|s: String| s@) =~= before.push(v@));
                            },
                            None => {},
                        }
                        k = k + 1;
                    }
                    assert(iv.take(iv.len() as int) =~= iv);
                    r
                },
                VarBinding::Other => Vec::new(),
            }
        },
    }
}

// ---------------------------------------------------------------------------
// Equated variables.
// ---------------------------------------------------------------------------

/// `v_` followed by digits only.
pub open spec fn is_v_name(p: Seq<char>) -> bool {
    p.len() >= 2 && p[0] == 'v' && p[1] == '_' && forall|k: int| 2 <= k < p.len() ==> is_digit(p[k])
}

/// Position of the first `)` at or after `j`.
pub open spec fn close_paren(s: Seq<char>, j: int) -> Option<int>
    decreases s.len() - j,
{
    if j < 0 || j >= s.len() {
        None
    } else if s[j] == ')' {
        Some(j)
    } else {
        close_paren(s, j + 1)
    }
}

/// Both sides of a bare equality `(= v_A v_B)` starting at `i`, if one does.
pub open spec fn equated_at(s: Seq<char>, i: int) -> Seq<Seq<char>> {
    if s[i] == '(' && s[i + 1] == '=' && s[i + 2] == ' ' {
        match close_paren(s, i + 3) {
            Some(e) => {
                let parts = words(s.subrange(i + 3, e));
                if parts.len() == 2 && is_v_name(parts[0]) && is_v_name(parts[1]) {
                    parts
                } else {
                    Seq::empty()
                }
            },
            None => Seq::empty(),
        }
    } else {
        Seq::empty()
    }
}

/// Both sides of every bare equality between two `v_N` variables of the
/// formula, from position `i` on, in order.
pub open spec fn equated_from(s: Seq<char>, i: int) -> Seq<Seq<char>>
    decreases s.len() - i,
{
    if i < 0 || i + 3 > s.len() {
        Seq::empty()
    } else {
        equated_at(s, i) + equated_from(s, i + 1)
    }
}

fn is_v_name_exec(p: &Vec<char>) -> (r: bool)
    ensures
        r == is_v_name(p@),
{
    if p.len() < 2 || p[0] != 'v' || p[1] != '_' {
        return false;
    }
    let mut k: usize = 2;
    while k < p.len()
        invariant
            2 <= k <= p@.len(),
            p@.len() >= 2,
            p@[0] == 'v' && p@[1] == '_',
            forall|j: int| 2 <= j < k ==> is_digit(p@[j]),
        decreases p@.len() - k,
    {
        if !is_ascii_digit(p[k]) {
            return false;
        }
        k = k + 1;
    }
    true
}

/// Both sides of every bare equality `(= v_A v_B)` of a formula (see
/// [`equated_from`]).
pub fn equated_vars(formula: &String) -> (r: Vec<String>)
    ensures
        r@.map_values(|s: String| s@) == equated_from(formula@, 0),
{
    let cs = vec_of(formula);
    let ghost sv = cs@;
    let mut out: Vec<String> = Vec::new();
    if cs.len() < 3 {
        return out;
    }
    let mut i: usize = 0;
    assert(out@.map_values(|s: String| s@) + equated_from(sv, 0) =~= equated_from(sv, 0));
    while i < cs.len() && cs.len() - i >= 3
        invariant
            sv == cs@,
            sv.len() >= 3,
            i <= sv.len(),
            out@.map_values(|s: String| s@) + equated_from(sv, i as int) == equated_from(sv, 0),
        decreases sv.len() - i,
    {
        let ghost before = out@.map_values(|s: String| s@);
        if cs[i] == '(' && cs[i + 1] == '=' && cs[i + 2] == ' ' {
            let mut e: usize = i + 3;
            while e < cs.len() && cs[e] != ')'
                invariant
                    sv == cs@,
                    i + 3 <= e <= sv.len(),
                    close_paren(sv, e as int) == close_paren(sv, i + 3),
                decreases sv.len() - e,
            {
                e = e + 1;
            }
            if e < cs.len() {
                let parts = split_words(&cs.as_slice()[i + 3..e]);
                assert(cs@.subrange(i + 3, e as int) =~= sv.subrange(i + 3, e as int));
                if parts.len() == 2 && is_v_name_exec(&parts[0]) && is_v_name_exec(&parts[1]) {
                    out.push(string_of(parts[0].as_slice()));
                    out.push(string_of(parts[1].as_slice()));
                    assert(out@.map_values(|s: String| s@) =~= before + equated_at(sv, i as int));
                } else {
                    assert(equated_at(sv, i as int) =~= Seq::<Seq<char>>::empty());
                    assert(out@.map_values(|s: String| s@) =~= before + equated_at(sv, i as int));
                }
            } else {
                assert(out@.map_values(|s: String| s@) =~= before + equated_at(sv, i as int));
            }
        } else {
            assert(out@.map_values(|s: String| s@) =~= before + equated_at(sv, i as int));
        }
        assert(before + equated_at(sv, i as int) + equated_from(sv, i + 1) =~= before + equated_from(sv, i as int));
        i = i + 1;
    }
    assert(equated_from(sv, i as int) =~= Seq::<Seq<char>>::empty());
    assert(out@.map_values(|s: String| s@) + Seq::<Seq<char>>::empty() =~= out@.map_values(|s: String| s@));
    out
}


// ---------------------------------------------------------------------------
// Every variable a tag tree defines.
// ---------------------------------------------------------------------------

/// What a tag and its nested tags define: each tag's `:=` target, then both
/// sides of its formula's bare equalities, then its children's, in order.
pub open spec fn defines_deep(n: RTag, vi: Option<Seq<(Seq<char>, Binding)>>) -> Seq<Seq<char>>
    decreases n, 0nat,
{
    tag_defines_of(n.tag, vi) + equated_from(n.formula, 0) + defines_all(n.children, vi, n.children.len())
}

/// What the first `k` trees define, in order.
pub open spec fn defines_all(s: Seq<RTag>, vi: Option<Seq<(Seq<char>, Binding)>>, k: nat) -> Seq<Seq<char>>
    decreases s, k,
{
    if k == 0 || k > s.len() {
        Seq::empty()
    } else {
        defines_all(s, vi, (k - 1) as nat) + defines_deep(s[k - 1], vi)
    }
}

pub open spec fn def_view(d: Option<&MacroDef>) -> Option<Seq<(Seq<char>, Binding)>> {
    match d {
        Some(d) => Some(vars_view(d.vars_info@)),
        None => None,
    }
}

fn append_strings(dst: &mut Vec<String>, src: Vec<String>)
    ensures
        final(dst)@.map_values(|s: String| s@) == old(dst)@.map_values(|s: String| s@) + src@.map_values(|s: String| s@),
{
    let ghost d0 = dst@;
    let ghost s0 = src@;
    let mut src = src;
    dst.append(&mut src);
    assert(dst@ =~= d0 + s0);
    assert(dst@.map_values(|s: String| s@) =~= d0.map_values(|s: String| s@) + s0.map_values(|s: String| s@));
}

/// Every variable a tag and its nested tags define (see [`defines_deep`]).
pub fn tag_defines_deep(node: &ResolvedTagNode, macro_def: Option<&MacroDef>) -> (r: Vec<String>)
    ensures
        r@.map_values(|s: String| s@) == defines_deep(rtview(*node), def_view(macro_def)),
    decreases node,
{
    let mut out = tag_defines(&node.tag, macro_def);
    append_strings(&mut out, equated_vars(&node.formula));
    let ghost kids = rtviews(node.children@);
    proof {
        lemma_rtviews(node.children@);
    }
    let ghost head = out@.map_values(|s: String| s@);
    let mut i: usize = 0;
    assert(head + defines_all(kids, def_view(macro_def), 0) =~= head);
    while i < node.children.len()
        invariant
            kids == rtviews(node.children@),
            kids.len() == node.children@.len(),
            forall|k: int| 0 <= k < node.children@.len() ==> #[trigger] kids[k] == rtview(node.children@[k]),
            i <= node.children@.len(),
            out@.map_values(|s: String| s@) == head + defines_all(kids, def_view(macro_def), i as nat),
        decreases node.children@.len() - i,
    {
        proof {
            assert(decreases_to!(*node => node.children));
            assert(decreases_to!(node.children => node.children[i as int]));
        }
        let sub = tag_defines_deep(&node.children[i], macro_def);
        append_strings(&mut out, sub);
        assert(head + defines_all(kids, def_view(macro_def), (i + 1) as nat) =~= head + defines_all(kids, def_view(macro_def), i as nat) + defines_deep(kids[i as int], def_view(macro_def)));
        i = i + 1;
    }
    out
}

// ---------------------------------------------------------------------------
// Signals a tag reaches.
// ---------------------------------------------------------------------------

/// The tags whose variables the definer list says define `name`.
pub open spec fn definers_of(definer: Seq<(Seq<char>, Seq<usize>)>, name: Seq<char>) -> Seq<usize> {
    match lookup(definer, name) {
        Some(js) => js,
        None => Seq::empty(),
    }
}

/// Tag `i` mentions an unresolved variable that tag `j` defines.
pub open spec fn reaches_step(per_tag: Seq<Seq<RVar>>, definer: Seq<(Seq<char>, Seq<usize>)>, i: int, j: int) -> bool {
    0 <= i < per_tag.len() && exists|k: int|
        0 <= k < per_tag[i].len() && (#[trigger] per_tag[i][k] matches RVar::Unresolved(name) && lists(definers_of(definer, name), j))
}

/// `j` is one of `js`.
pub open spec fn lists(js: Seq<usize>, j: int) -> bool {
    exists|b: int| 0 <= b < js.len() && #[trigger] js[b] as int == j
}

/// The tags at most `k` steps from `start`.
pub open spec fn reach_within(step: spec_fn(int, int) -> bool, start: int, k: nat) -> Set<int>
    decreases k,
{
    if k == 0 {
        set![start]
    } else {
        let p = reach_within(step, start, (k - 1) as nat);
        p.union(Set::new(|j: int| exists|i: int| p.contains(i) && #[trigger] step(i, j)))
    }
}

pub open spec fn reachable(step: spec_fn(int, int) -> bool, start: int, j: int) -> bool {
    exists|k: nat| #[trigger] reach_within(step, start, k).contains(j)
}

/// The ids of the signals of the tags reachable from `start`.
pub open spec fn reached_ids(per_tag: Seq<Seq<RVar>>, step: spec_fn(int, int) -> bool, start: int) -> Set<usize> {
    Set::new(
        |id: usize|
            exists|j: int, k: int|
                reachable(step, start, j) && 0 <= j < per_tag.len() && 0 <= k < per_tag[j].len() && (#[trigger] per_tag[j][k] matches RVar::Signal(ids) && ids.contains(id)),
    )
}

pub open spec fn count_false(s: Seq<bool>) -> nat
    decreases s.len(),
{
    if s.len() == 0 {
        0
    } else {
        count_false(s.drop_last()) + if s.last() {
            0nat
        } else {
            1nat
        }
    }
}

proof fn lemma_count_false_set(s: Seq<bool>, i: int)
    requires
        0 <= i < s.len(),
        !s[i],
    ensures
        count_false(s.update(i, true)) + 1 == count_false(s),
    decreases s.len(),
{
    let t = s.update(i, true);
    if i < s.len() - 1 {
        lemma_count_false_set(s.drop_last(), i);
        assert(t.drop_last() =~= s.drop_last().update(i, true));
    } else {
        assert(t.drop_last() =~= s.drop_last());
    }
}

proof fn lemma_reach_mono(step: spec_fn(int, int) -> bool, start: int, a: nat, b: nat)
    requires
        a <= b,
    ensures
        reach_within(step, start, a).subset_of(reach_within(step, start, b)),
    decreases b - a,
{
    if a < b {
        lemma_reach_mono(step, start, a, (b - 1) as nat);
    }
}

proof fn lemma_reach_step(step: spec_fn(int, int) -> bool, start: int, i: int, j: int)
    requires
        reachable(step, start, i),
        step(i, j),
    ensures
        reachable(step, start, j),
{
    let k = choose|k: nat| #[trigger] reach_within(step, start, k).contains(i);
    assert(reach_within(step, start, k + 1).contains(j));
}

pub open spec fn definer_view(v: Seq<(String, Vec<usize>)>) -> Seq<(Seq<char>, Seq<usize>)> {
    v.map_values(|p: (String, Vec<usize>)| (p.0@, p.1@))
}

pub open spec fn tag_vars(v: Seq<Vec<ResolvedVar>>) -> Seq<Seq<RVar>> {
    v.map_values(|x: Vec<ResolvedVar>| crate::resolve::rviews(x@))
}

fn find_definers<'a>(definer: &'a Vec<(String, Vec<usize>)>, name: &String) -> (r: Option<&'a Vec<usize>>)
    ensures
        match lookup(definer_view(definer@), name@) {
            Some(js) => r matches Some(v) && v@ == js,
            None => r is None,
        },
{
    let ghost dv = definer_view(definer@);
    let mut i: usize = 0;
    while i < definer.len()
        invariant
            dv == definer_view(definer@),
            i <= dv.len(),
            forall|j: int| 0 <= j < i ==> dv[j].0 != name@,
        decreases dv.len() - i,
    {
        assert(dv[i as int].0 == definer@[i as int].0@);
        if crate::strings::string_eq(&definer[i].0, name) {
            proof {
                crate::tags::lemma_key_index(dv, name@);
            }
            return Some(&definer[i].1);
        }
        i = i + 1;
    }
    proof {
        crate::tags::lemma_key_index(dv, name@);
    }
    None
}

/// The r1cs ids a tag reaches: those of its own variables that are signals,
/// and, for every unresolved variable it mentions, those of the tags that
/// define it, transitively (see [`reached_ids`]), in increasing order.
pub fn signals_reachable(start: usize, per_tag: &Vec<Vec<ResolvedVar>>, definer: &Vec<(String, Vec<usize>)>) -> (r: Vec<usize>)
    requires
        start < per_tag@.len(),
        forall|a: int, b: int| 0 <= a < definer@.len() && 0 <= b < definer@[a].1@.len() ==> #[trigger] definer@[a].1@[b] < per_tag@.len(),
    ensures
        crate::resolve::increasing(r@),
        r@.to_set() == reached_ids(
            tag_vars(per_tag@),
            |i: int, j: int| reaches_step(tag_vars(per_tag@), definer_view(definer@), i, j),
            start as int,
        ),
{
    let ghost pt = tag_vars(per_tag@);
    let ghost dv = definer_view(definer@);
    let ghost step = |i: int, j: int| reaches_step(pt, dv, i, j);
    let n = per_tag.len();
    let mut visited: Vec<bool> = Vec::new();
    let mut v: usize = 0;
    while v < n
        invariant
            v <= n,
            visited@.len() == v,
            forall|k: int| 0 <= k < v ==> !visited@[k],
        decreases n - v,
    {
        visited.push(false);
        v = v + 1;
    }
    let mut found_ids: Vec<usize> = Vec::new();
    let mut pending: Vec<usize> = Vec::new();
    pending.push(start);
    proof {
        assert(reach_within(step, start as int, 0).contains(start as int));
        assert(pending@[0] == start);
    }
    assert(found_ids@.to_set() =~= Set::<usize>::empty());
    while pending.len() > 0
        invariant
            pt == tag_vars(per_tag@),
            dv == definer_view(definer@),
            step == |i: int, j: int| reaches_step(pt, dv, i, j),
            n == per_tag@.len(),
            pt.len() == n,
            start < n,
            forall|a: int, b: int| 0 <= a < definer@.len() && 0 <= b < definer@[a].1@.len() ==> #[trigger] definer@[a].1@[b] < n,
            visited@.len() == n,
            forall|k: int| 0 <= k < pending@.len() ==> #[trigger] pending@[k] < n && reachable(step, start as int, pending@[k] as int),
            forall|j: int| 0 <= j < n && #[trigger] visited@[j] ==> reachable(step, start as int, j),
            forall|i: int, j: int| 0 <= i < n && visited@[i] && #[trigger] step(i, j) ==> 0 <= j < n && (visited@[j] || pending@.contains(j as usize)),
            visited@[start as int] || pending@.contains(start),
            crate::resolve::increasing(found_ids@),
            found_ids@.to_set() == Set::new(|id: usize| exists|j: int, k: int| 0 <= j < n && visited@[j] && 0 <= k < pt[j].len() && (#[trigger] pt[j][k] matches RVar::Signal(ids) && ids.contains(id))),
        decreases count_false(visited@), pending@.len(),
    {
        let ghost p_before = pending@;
        let index = pending.pop().unwrap();
        let ghost pp = pending@;
        assert(p_before =~= pp.push(index));
        assert forall|x: usize| p_before.contains(x) implies pp.contains(x) || x == index by {
            let q = choose|q: int| 0 <= q < p_before.len() && p_before[q] == x;
            if q < pp.len() {
                assert(pp[q] == x);
            }
        }
        if visited[index] {
            proof {
                assert forall|i: int, j: int| 0 <= i < n && visited@[i] && #[trigger] step(i, j) implies 0 <= j < n && (visited@[j] || pending@.contains(j as usize)) by {
                }
                if !visited@[start as int] {
                    assert(p_before.contains(start));
                }
            }
            continue;
        }
        let ghost vis0 = visited@;
        let ghost real0 = found_ids@.to_set();
        proof {
            lemma_count_false_set(visited@, index as int);
        }
        visited.set(index, true);
        let vars = &per_tag[index];
        assert(pt[index as int] == crate::resolve::rviews(vars@));
        let mut k: usize = 0;
        while k < vars.len()
            invariant
                pt == tag_vars(per_tag@),
                dv == definer_view(definer@),
                step == |i: int, j: int| reaches_step(pt, dv, i, j),
                n == per_tag@.len(),
                pt.len() == n,
                index < n,
                vars@ == per_tag@[index as int]@,
                pt[index as int] == crate::resolve::rviews(vars@),
                reachable(step, start as int, index as int),
                forall|a: int, b: int| 0 <= a < definer@.len() && 0 <= b < definer@[a].1@.len() ==> #[trigger] definer@[a].1@[b] < n,
                k <= vars@.len(),
                forall|q: int| 0 <= q < pending@.len() ==> #[trigger] pending@[q] < n && reachable(step, start as int, pending@[q] as int),
                forall|q: int| 0 <= q < k ==> (#[trigger] pt[index as int][q] matches RVar::Unresolved(name) ==> forall|b: int| 0 <= b < definers_of(dv, name).len() ==> pending@.contains(#[trigger] definers_of(dv, name)[b])),
                crate::resolve::increasing(found_ids@),
                found_ids@.to_set() == real0.union(Set::new(|id: usize| exists|q: int| 0 <= q < k && (#[trigger] pt[index as int][q] matches RVar::Signal(ids) && ids.contains(id)))),
                forall|x: usize| pp.contains(x) ==> #[trigger] pending@.contains(x),
            decreases vars@.len() - k,
        {
            let ghost p0 = pending@;
            let ghost rr = found_ids@.to_set();
            match &vars[k] {
                ResolvedVar::Signal(ids) => {
                    let mut t: usize = 0;
                    while t < ids.len()
                        invariant
                            t <= ids@.len(),
                            crate::resolve::increasing(found_ids@),
                            found_ids@.to_set() == rr.union(ids@.take(t as int).to_set()),
                        decreases ids@.len() - t,
                    {
                        crate::resolve::insert_sorted(&mut found_ids, ids[t]);
                        proof {
                            assert(ids@.take(t + 1) =~= ids@.take(t as int).push(ids@[t as int]));
                            crate::r1cs::lemma_push_to_set(ids@.take(t as int), ids@[t as int]);
                        }
                        assert(found_ids@.to_set() =~= rr.union(ids@.take(t + 1).to_set()));
                        t = t + 1;
                    }
                    assert(ids@.take(ids@.len() as int) =~= ids@);
                    assert(pt[index as int][k as int] == RVar::Signal(ids@));
                    assert(found_ids@.to_set() =~= real0.union(Set::new(|id: usize| exists|q: int| 0 <= q < k + 1 && (#[trigger] pt[index as int][q] matches RVar::Signal(ids) && ids.contains(id))))) by {
                        assert forall|id: usize| #[trigger] found_ids@.to_set().contains(id) implies real0.union(Set::new(|id: usize| exists|q: int| 0 <= q < k + 1 && (#[trigger] pt[index as int][q] matches RVar::Signal(ids) && ids.contains(id)))).contains(id) by {
                            if ids@.to_set().contains(id) {
                                assert(pt[index as int][k as int] matches RVar::Signal(ids2) && ids2.contains(id));
                            }
                        }
                    }
                },
                ResolvedVar::Unresolved(name) => {
                    assert(pt[index as int][k as int] == RVar::Unresolved(name@));
                    match find_definers(definer, name) {
                        Some(next) => {
                            proof {
                                crate::tags::lemma_key_index(dv, name@);
                            }
                            let ghost ki = crate::tags::key_index(dv, name@)->0;
                            assert(next@ == definer@[ki].1@);
                            let mut t: usize = 0;
                            while t < next.len()
                                invariant
                                    pt == tag_vars(per_tag@),
                                    dv == definer_view(definer@),
                                    step == |i: int, j: int| reaches_step(pt, dv, i, j),
                                    n == per_tag@.len(),
                                    index < n,
                                    reachable(step, start as int, index as int),
                                    0 <= ki < definer@.len(),
                                    next@ == definer@[ki].1@,
                                    next@ == definers_of(dv, name@),
                                    pt[index as int][k as int] == RVar::Unresolved(name@),
                                    k < pt[index as int].len(),
                                    forall|a: int, b: int| 0 <= a < definer@.len() && 0 <= b < definer@[a].1@.len() ==> #[trigger] definer@[a].1@[b] < n,
                                    t <= next@.len(),
                                    p0.len() <= pending@.len(),
                                    forall|q: int| 0 <= q < p0.len() ==> pending@[q] == p0[q],
                                    forall|q: int| 0 <= q < pending@.len() ==> #[trigger] pending@[q] < n && reachable(step, start as int, pending@[q] as int),
                                    forall|b: int| 0 <= b < t ==> pending@.contains(#[trigger] next@[b]),
                                    forall|x: usize| p0.contains(x) ==> #[trigger] pending@.contains(x),
                                decreases next@.len() - t,
                            {
                                let j = next[t];
                                assert(j == definer@[ki].1@[t as int]);
                                proof {
                                    assert(lists(next@, j as int)) by {
                                        assert(next@[t as int] as int == j as int);
                                    }
                                    assert(pt[index as int][k as int] matches RVar::Unresolved(nm) && lists(definers_of(dv, nm), j as int));
                                    assert(step(index as int, j as int));
                                    lemma_reach_step(step, start as int, index as int, j as int);
                                }
                                let ghost pb = pending@;
                                pending.push(j);
                                assert forall|x: usize| p0.contains(x) implies #[trigger] pending@.contains(x) by {
                                    let q = choose|q: int| 0 <= q < pb.len() && pb[q] == x;
                                    assert(pending@[q] == x);
                                }
                                assert forall|b: int| 0 <= b < t + 1 implies pending@.contains(#[trigger] next@[b]) by {
                                    if b < t {
                                        let q = choose|q: int| 0 <= q < pb.len() && pb[q] == next@[b];
                                        assert(pending@[q] == next@[b]);
                                    } else {
                                        assert(pending@[pb.len() as int] == j);
                                    }
                                }
                                t = t + 1;
                            }
                        },
                        None => {},
                    }
                    assert(found_ids@.to_set() =~= real0.union(Set::new(|id: usize| exists|q: int| 0 <= q < k + 1 && (#[trigger] pt[index as int][q] matches RVar::Signal(ids) && ids.contains(id)))));
                },
            }
            assert forall|q: int| 0 <= q < k + 1 implies (#[trigger] pt[index as int][q] matches RVar::Unresolved(name) ==> forall|b: int| 0 <= b < definers_of(dv, name).len() ==> pending@.contains(#[trigger] definers_of(dv, name)[b])) by {
                if q < k {
                    if let RVar::Unresolved(name) = pt[index as int][q] {
                        assert forall|b: int| 0 <= b < definers_of(dv, name).len() implies pending@.contains(#[trigger] definers_of(dv, name)[b]) by {
                            let x = definers_of(dv, name)[b];
                            assert(p0.contains(x));
                            let w = choose|w: int| 0 <= w < p0.len() && p0[w] == x;
                            assert(pending@[w] == x);
                        }
                    }
                }
            }
            k = k + 1;
        }
        proof {
            assert forall|i: int, j: int| 0 <= i < n && visited@[i] && #[trigger] step(i, j) implies 0 <= j < n && (visited@[j] || pending@.contains(j as usize)) by {
                let kk = choose|kk: int| 0 <= kk < pt[i].len() && (#[trigger] pt[i][kk] matches RVar::Unresolved(name) && lists(definers_of(dv, name), j));
                if let RVar::Unresolved(name) = pt[i][kk] {
                    let b = choose|b: int| 0 <= b < definers_of(dv, name).len() && #[trigger] definers_of(dv, name)[b] as int == j;
                    crate::tags::lemma_key_index(dv, name);
                    let ki = crate::tags::key_index(dv, name)->0;
                    assert(dv[ki].1 == definer@[ki].1@);
                    assert(definer@[ki].1@[b] < n);
                    if i == index {
                        assert(pending@.contains(definers_of(dv, name)[b]));
                    } else {
                        assert(vis0[i]);
                        if !vis0[j] {
                            assert(p_before.contains(j as usize));
                            if j as usize != index {
                                assert(pp.contains(j as usize));
                                assert(pending@.contains(j as usize));
                            }
                        }
                    }
                }
            }
            assert(found_ids@.to_set() =~= Set::new(|id: usize| exists|j: int, k2: int| 0 <= j < n && visited@[j] && 0 <= k2 < pt[j].len() && (#[trigger] pt[j][k2] matches RVar::Signal(ids) && ids.contains(id))));
        }
    }
    proof {
        assert forall|kk: nat, j: int| #[trigger] reach_within(step, start as int, kk).contains(j) implies 0 <= j < n && visited@[j] by {
            lemma_reach_visited(step, start as int, kk, j, visited@, n as int);
        }
        assert forall|id: usize| #[trigger] found_ids@.to_set().contains(id) == reached_ids(pt, step, start as int).contains(id) by {
            if reached_ids(pt, step, start as int).contains(id) {
                let (j, k2) = choose|j: int, k2: int| reachable(step, start as int, j) && 0 <= j < pt.len() && 0 <= k2 < pt[j].len() && (#[trigger] pt[j][k2] matches RVar::Signal(ids) && ids.contains(id));
                let kk = choose|kk: nat| #[trigger] reach_within(step, start as int, kk).contains(j);
                assert(visited@[j]);
            }
        }
        assert(found_ids@.to_set() =~= reached_ids(pt, step, start as int));
    }
    found_ids
}

proof fn lemma_reach_visited(step: spec_fn(int, int) -> bool, start: int, k: nat, j: int, visited: Seq<bool>, n: int)
    requires
        0 <= start < n,
        visited.len() == n,
        visited[start],
        forall|i: int, j2: int| 0 <= i < n && visited[i] && #[trigger] step(i, j2) ==> 0 <= j2 < n && visited[j2],
        reach_within(step, start, k).contains(j),
    ensures
        0 <= j < n && visited[j],
    decreases k,
{
    if k > 0 {
        let p = reach_within(step, start, (k - 1) as nat);
        if !p.contains(j) {
            let i = choose|i: int| p.contains(i) && #[trigger] step(i, j);
            lemma_reach_visited(step, start, (k - 1) as nat, i, visited, n);
        } else {
            lemma_reach_visited(step, start, (k - 1) as nat, j, visited, n);
        }
    }
}


// ---------------------------------------------------------------------------
// One instance.
// ---------------------------------------------------------------------------

/// Pairs `(tag, variables)` as values.
pub open spec fn rpairs(v: Seq<(String, Vec<ResolvedVar>)>) -> Seq<(Seq<char>, Seq<RVar>)> {
    v.map_values(|p: (String, Vec<ResolvedVar>)| (p.0@, rviews(p.1@)))
}

/// A tag seen for the first time is appended; a tag seen again gets only
/// the variables it does not have yet.
pub open spec fn merge_vars(pairs: Seq<(Seq<char>, Seq<RVar>)>, tag: Seq<char>, vars: Seq<RVar>) -> Seq<(Seq<char>, Seq<RVar>)> {
    match key_index(pairs, tag) {
        Some(i) => pairs.update(i, (pairs[i].0, add_all_unique(pairs[i].1, vars))),
        None => pairs.push((tag, vars)),
    }
}

/// See [`merge_vars`].
pub fn merge_pair_resolved(into: &mut Vec<(String, Vec<ResolvedVar>)>, tag: String, vars: Vec<ResolvedVar>)
    ensures
        rpairs(final(into)@) == merge_vars(rpairs(old(into)@), tag@, rviews(vars@)),
{
    let ghost pv = rpairs(into@);
    proof {
        lemma_key_index(pv, tag@);
    }
    let mut i: usize = 0;
    while i < into.len()
        invariant
            pv == rpairs(into@),
            into@ == old(into)@,
            i <= into@.len(),
            forall|j: int| 0 <= j < i ==> pv[j].0 != tag@,
        decreases into@.len() - i,
    {
        assert(pv[i as int].0 == into@[i as int].0@);
        if string_eq(&into[i].0, &tag) {
            assert(key_index(pv, tag@) == Some(i as int)) by {
                lemma_key_index(pv, tag@);
            }
            let ghost r0 = into@;
            let (t, mut existing) = into.remove(i);
            push_all_unique_rvars(&mut existing, &vars);
            let ghost e1 = (t, existing);
            into.insert(i, (t, existing));
            assert(into@ =~= r0.update(i as int, e1));
            assert(rpairs(into@) =~= merge_vars(pv, tag@, rviews(vars@)));
            return ;
        }
        i = i + 1;
    }
    assert(key_index(pv, tag@) is None) by {
        lemma_key_index(pv, tag@);
    }
    let ghost tv = tag@;
    let ghost vv = rviews(vars@);
    into.push((tag, vars));
    assert(rpairs(into@) =~= merge_vars(pv, tv, vv));
}

/// The `(tag, variables)` pairs of an instance after its first `k` top tags:
/// `level0` first, then each top tag with everything it aggregates, a
/// repeated tag merged into its first occurrence.
pub open spec fn inst_pairs(level0: Seq<RVar>, tree: Seq<RTag>, k: nat) -> Seq<(Seq<char>, Seq<RVar>)>
    decreases k,
{
    if k == 0 || k > tree.len() {
        seq![("level0"@, level0)]
    } else {
        merge_vars(inst_pairs(level0, tree, (k - 1) as nat), tree[k - 1].tag, ragg(tree[k - 1]))
    }
}

/// The tag behind each of those pairs: none for `level0`, and the first top
/// tag of each name.
pub open spec fn inst_nodes(level0: Seq<RVar>, tree: Seq<RTag>, k: nat) -> Seq<Option<RTag>>
    decreases k,
{
    if k == 0 || k > tree.len() {
        seq![None]
    } else {
        let n = inst_nodes(level0, tree, (k - 1) as nat);
        if key_index(inst_pairs(level0, tree, (k - 1) as nat), tree[k - 1].tag) is None {
            n.push(Some(tree[k - 1]))
        } else {
            n
        }
    }
}

proof fn lemma_inst_lengths(level0: Seq<RVar>, tree: Seq<RTag>, k: nat)
    ensures
        inst_nodes(level0, tree, k).len() == inst_pairs(level0, tree, k).len(),
        inst_pairs(level0, tree, k).len() >= 1,
    decreases k,
{
    if k > 0 && k <= tree.len() {
        lemma_inst_lengths(level0, tree, (k - 1) as nat);
        lemma_key_index(inst_pairs(level0, tree, (k - 1) as nat), tree[k - 1].tag);
    }
}

/// Tag `j` of the instance defines `name`.
pub open spec fn node_defines(nodes: Seq<Option<RTag>>, vi: Option<Seq<(Seq<char>, Binding)>>, j: int, name: Seq<char>) -> bool {
    0 <= j < nodes.len() && (nodes[j] matches Some(n) && defines_deep(n, vi).contains(name))
}

/// Tag `i` mentions an unresolved variable that tag `j` defines.
pub open spec fn node_step(per_tag: Seq<Seq<RVar>>, nodes: Seq<Option<RTag>>, vi: Option<Seq<(Seq<char>, Binding)>>, i: int, j: int) -> bool {
    0 <= i < per_tag.len() && exists|k: int|
        0 <= k < per_tag[i].len() && (#[trigger] per_tag[i][k] matches RVar::Unresolved(name) && node_defines(nodes, vi, j, name))
}

/// The concatenation of the variable lists.
pub open spec fn all_vars(per_tag: Seq<Seq<RVar>>) -> Seq<RVar>
    decreases per_tag.len(),
{
    if per_tag.len() == 0 {
        Seq::empty()
    } else {
        all_vars(per_tag.drop_last()) + per_tag.last()
    }
}

/// The `(name, ids)` of the tied groups: `"equality1"`, `"equality2"`, ...
pub open spec fn named_groups(groups: Seq<Seq<usize>>) -> Seq<(Seq<char>, Seq<usize>)> {
    Seq::new(groups.len(), |i: int| ("equality"@ + decimal((i + 1) as nat), groups[i]))
}

/// The value of a [`ResolvedInstance`].
pub struct InstanceView {
    pub macro_name: Seq<char>,
    pub instance_prefix: Seq<char>,
    pub equalities: Seq<(Seq<char>, Seq<usize>)>,
    pub tags: Seq<(Seq<char>, Seq<usize>)>,
}

/// One instance's view: its tied groups, and for every tag (`level0` first)
/// the ids it reaches (see [`reached_ids`]) in increasing order.
pub open spec fn instance_view(
    name: Seq<char>,
    prefix: Seq<char>,
    level0: Seq<RVar>,
    tree: Seq<RTag>,
    vi: Option<Seq<(Seq<char>, Binding)>>,
) -> InstanceView {
    let pairs = inst_pairs(level0, tree, tree.len());
    let nodes = inst_nodes(level0, tree, tree.len());
    let per_tag = pairs.map_values(|p: (Seq<char>, Seq<RVar>)| p.1);
    InstanceView {
        macro_name: name,
        instance_prefix: prefix,
        equalities: named_groups(groups_of(all_vars(per_tag))),
        tags: Seq::new(
            pairs.len(),
            |i: int| (pairs[i].0, sorted_ids(reached_ids(per_tag, |a: int, b: int| node_step(per_tag, nodes, vi, a, b), i))),
        ),
    }
}

/// The tags of one instance, resolved to r1cs ids.
pub struct ResolvedInstance {
    pub macro_name: String,
    pub instance_prefix: String,
    /// `("equality1", ids)` per tied group, in first-seen order.
    pub equalities: Vec<(String, Vec<usize>)>,
    /// `(tag, ids)`, `level0` first, in the order the tags appear.
    pub tags: Vec<(String, Vec<usize>)>,
}

pub open spec fn id_pairs(v: Seq<(String, Vec<usize>)>) -> Seq<(Seq<char>, Seq<usize>)> {
    v.map_values(|p: (String, Vec<usize>)| (p.0@, p.1@))
}

pub open spec fn iview(r: ResolvedInstance) -> InstanceView {
    InstanceView {
        macro_name: r.macro_name@,
        instance_prefix: r.instance_prefix@,
        equalities: id_pairs(r.equalities@),
        tags: id_pairs(r.tags@),
    }
}

fn copy_rvars(v: &Vec<ResolvedVar>) -> (r: Vec<ResolvedVar>)
    ensures
        rviews(r@) == rviews(v@),
{
    let mut r: Vec<ResolvedVar> = Vec::new();
    let mut i: usize = 0;
    while i < v.len()
        invariant
            i <= v@.len(),
            rviews(r@) == rviews(v@).take(i as int),
        decreases v@.len() - i,
    {
        let ghost b = r@;
        r.push(copy_rvar(&v[i]));
        assert(rviews(r@) =~= rviews(b).push(rview(v@[i as int])));
        assert(rviews(v@).take(i + 1) =~= rviews(v@).take(i as int).push(rview(v@[i as int])));
        i = i + 1;
    }
    assert(rviews(v@).take(v@.len() as int) =~= rviews(v@));
    r
}

/// Records that tag `idx` defines `var` (once).
fn add_definer(definer: &mut Vec<(String, Vec<usize>)>, var: &String, idx: usize)
    ensures
        forall|name: Seq<char>, j: int| #[trigger] lists(definers_of(definer_view(final(definer)@), name), j) <==> (
            lists(definers_of(definer_view(old(definer)@), name), j) || (name == var@ && j == idx)),
        forall|a: int, b: int| 0 <= a < final(definer)@.len() && 0 <= b < final(definer)@[a].1@.len() ==> (
            #[trigger] final(definer)@[a].1@[b] == idx || exists|a2: int, b2: int| 0 <= a2 < old(definer)@.len() && 0 <= b2 < old(definer)@[a2].1@.len() && old(definer)@[a2].1@[b2] == final(definer)@[a].1@[b]),
{
    let ghost dv = definer_view(definer@);
    proof {
        lemma_key_index(dv, var@);
    }
    let mut i: usize = 0;
    while i < definer.len()
        invariant
            dv == definer_view(definer@),
            definer@ == old(definer)@,
            i <= dv.len(),
            forall|j: int| 0 <= j < i ==> dv[j].0 != var@,
        decreases dv.len() - i,
    {
        assert(dv[i as int].0 == definer@[i as int].0@);
        if string_eq(&definer[i].0, var) {
            assert(key_index(dv, var@) == Some(i as int)) by {
                lemma_key_index(dv, var@);
            }
            let ghost r0 = definer@;
            let (t, mut js) = definer.remove(i);
            let ghost js0 = js@;
            if !contains_usize(&js, idx) {
                js.push(idx);
            }
            let ghost e1 = (t, js);
            definer.insert(i, (t, js));
            assert(definer@ =~= r0.update(i as int, e1));
            let ghost nv = definer_view(definer@);
            assert(nv =~= dv.update(i as int, (dv[i as int].0, e1.1@)));
            assert forall|name: Seq<char>, j: int| #[trigger] lists(definers_of(nv, name), j) <==> (
                lists(definers_of(dv, name), j) || (name == var@ && j == idx)) by {
                lemma_key_index_update(dv, i as int, e1.1@, name);
                lemma_key_index(dv, name);
                if name == var@ {
                    if lists(definers_of(nv, name), j) {
                        let b = choose|b: int| 0 <= b < definers_of(nv, name).len() && #[trigger] definers_of(nv, name)[b] as int == j;
                        if b < js0.len() {
                            assert(js0[b] as int == j);
                        }
                    }
                    if lists(definers_of(dv, name), j) {
                        let b = choose|b: int| 0 <= b < definers_of(dv, name).len() && #[trigger] definers_of(dv, name)[b] as int == j;
                        assert(e1.1@[b] as int == j);
                    }
                    if j == idx {
                        if js0.contains(idx) {
                            let b = choose|b: int| 0 <= b < js0.len() && js0[b] == idx;
                            assert(e1.1@[b] as int == j);
                        } else {
                            assert(e1.1@[js0.len() as int] as int == j);
                        }
                    }
                }
            }
            assert forall|a: int, b: int| 0 <= a < definer@.len() && 0 <= b < definer@[a].1@.len() implies (
                #[trigger] definer@[a].1@[b] == idx || exists|a2: int, b2: int| 0 <= a2 < r0.len() && 0 <= b2 < r0[a2].1@.len() && r0[a2].1@[b2] == definer@[a].1@[b]) by {
                if a == i {
                    if b < js0.len() {
                        assert(r0[a].1@[b] == definer@[a].1@[b]);
                    }
                } else {
                    assert(r0[a].1@[b] == definer@[a].1@[b]);
                }
            }
            return ;
        }
        i = i + 1;
    }
    assert(key_index(dv, var@) is None) by {
        lemma_key_index(dv, var@);
    }
    let ghost r0 = definer@;
    let mut js: Vec<usize> = Vec::new();
    js.push(idx);
    let ghost jv = js@;
    definer.push((copy_string(var), js));
    let ghost nv = definer_view(definer@);
    assert(nv =~= dv.push((var@, jv)));
    assert forall|name: Seq<char>, j: int| #[trigger] lists(definers_of(nv, name), j) <==> (
        lists(definers_of(dv, name), j) || (name == var@ && j == idx)) by {
        lemma_key_index_push(dv, (var@, jv), name);
        lemma_key_index(dv, name);
        if name == var@ && j == idx {
            assert(jv[0] as int == j);
        }
    }
    assert forall|a: int, b: int| 0 <= a < definer@.len() && 0 <= b < definer@[a].1@.len() implies (
        #[trigger] definer@[a].1@[b] == idx || exists|a2: int, b2: int| 0 <= a2 < r0.len() && 0 <= b2 < r0[a2].1@.len() && r0[a2].1@[b2] == definer@[a].1@[b]) by {
        if a < r0.len() {
            assert(r0[a].1@[b] == definer@[a].1@[b]);
        }
    }
}


pub open spec fn nodes_view(v: Seq<Option<usize>>, tree: Seq<RTag>) -> Seq<Option<RTag>> {
    v.map_values(|o: Option<usize>| match o {
        Some(t) => Some(tree[t as int]),
        None => None::<RTag>,
    })
}

proof fn lemma_sorted_is(v: Seq<usize>, s: Set<usize>)
    requires
        crate::resolve::increasing(v),
        v.to_set() == s,
    ensures
        sorted_ids(s) == v,
{
    let c = sorted_ids(s);
    crate::resolve::lemma_increasing_unique(c, v);
}

/// Resolves one instance (see [`instance_view`]).
pub fn resolve_instance(m: &crate::resolve::ResolvedMacroEntry, def: Option<&MacroDef>) -> (r: ResolvedInstance)
    ensures
        iview(r) == instance_view(m.name@, m.instance_prefix@, rviews(m.level0@), rtviews(m.tree@), def_view(def)),
{
    let ghost l0 = rviews(m.level0@);
    let ghost tree = rtviews(m.tree@);
    let ghost vi = def_view(def);
    proof {
        lemma_rtviews(m.tree@);
    }
    let mut pairs: Vec<(String, Vec<ResolvedVar>)> = Vec::new();
    pairs.push((string_from("level0"), copy_rvars(&m.level0)));
    proof {
        reveal_strlit("level0");
    }
    assert(rpairs(pairs@) =~= inst_pairs(l0, tree, 0));
    let mut nodes_idx: Vec<Option<usize>> = Vec::new();
    nodes_idx.push(None);
    assert(nodes_view(nodes_idx@, tree) =~= inst_nodes(l0, tree, 0));
    let mut t: usize = 0;
    while t < m.tree.len()
        invariant
            l0 == rviews(m.level0@),
            tree == rtviews(m.tree@),
            tree.len() == m.tree@.len(),
            forall|k: int| 0 <= k < m.tree@.len() ==> #[trigger] tree[k] == rtview(m.tree@[k]),
            t <= tree.len(),
            rpairs(pairs@) == inst_pairs(l0, tree, t as nat),
            nodes_view(nodes_idx@, tree) == inst_nodes(l0, tree, t as nat),
            forall|q: int| 0 <= q < nodes_idx@.len() ==> (#[trigger] nodes_idx@[q] matches Some(x) ==> x < tree.len()),
        decreases tree.len() - t,
    {
        let before = pairs.len();
        let ghost p0 = rpairs(pairs@);
        proof {
            lemma_key_index(p0, tree[t as int].tag);
        }
        let agg = crate::resolve::aggregate_resolved(&m.tree[t]);
        assert(tree[t as int] == rtview(m.tree@[t as int]));
        assert(tree[t as int].tag == m.tree@[t as int].tag@);
        merge_pair_resolved(&mut pairs, copy_string(&m.tree[t].tag), agg);
        assert(rpairs(pairs@) == inst_pairs(l0, tree, (t + 1) as nat));
        assert(pairs@.len() == rpairs(pairs@).len());
        assert(before == p0.len());
        if pairs.len() > before {
            assert(key_index(p0, tree[t as int].tag) is None);
            let ghost n0 = nodes_idx@;
            nodes_idx.push(Some(t));
            assert(nodes_view(nodes_idx@, tree) =~= nodes_view(n0, tree).push(Some(tree[t as int])));
        } else {
            assert(key_index(p0, tree[t as int].tag) is Some);
        }
        t = t + 1;
    }
    let ghost pairs_v = inst_pairs(l0, tree, tree.len());
    let ghost nodes = inst_nodes(l0, tree, tree.len());
    proof {
        lemma_inst_lengths(l0, tree, tree.len());
    }
    let ghost pt_spec = pairs_v.map_values(|p: (Seq<char>, Seq<RVar>)| p.1);
    let mut per_tag: Vec<Vec<ResolvedVar>> = Vec::new();
    let mut v_acum: Vec<ResolvedVar> = Vec::new();
    let mut i: usize = 0;
    while i < pairs.len()
        invariant
            rpairs(pairs@) == pairs_v,
            pt_spec == pairs_v.map_values(|p: (Seq<char>, Seq<RVar>)| p.1),
            i <= pairs@.len(),
            tag_vars(per_tag@) == pt_spec.take(i as int),
            rviews(v_acum@) == all_vars(pt_spec.take(i as int)),
        decreases pairs@.len() - i,
    {
        let c = copy_rvars(&pairs[i].1);
        let ghost b = per_tag@;
        per_tag.push(c);
        assert(tag_vars(per_tag@) =~= tag_vars(b).push(rviews(pairs@[i as int].1@)));
        assert(pt_spec.take(i + 1) =~= pt_spec.take(i as int).push(pt_spec[i as int]));
        let c2 = copy_rvars(&pairs[i].1);
        let ghost va = v_acum@;
        let mut c2 = c2;
        v_acum.append(&mut c2);
        assert(rviews(v_acum@) =~= rviews(va) + rviews(pairs@[i as int].1@));
        assert(pt_spec.take(i + 1).drop_last() =~= pt_spec.take(i as int));
        i = i + 1;
    }
    assert(pt_spec.take(pairs@.len() as int) =~= pt_spec);
    let groups = crate::resolve::equality_groups(v_acum.as_slice());
    let mut equalities: Vec<(String, Vec<usize>)> = Vec::new();
    let mut g: usize = 0;
    while g < groups.len()
        invariant
            g <= groups@.len(),
            id_pairs(equalities@) == named_groups(crate::resolve::id_lists(groups@)).take(g as int),
        decreases groups@.len() - g,
    {
        let mut name = string_from("equality");
        push_decimal(&mut name, g + 1);
        proof {
            reveal_strlit("equality");
        }
        let ghost b = equalities@;
        let ghost ng0 = named_groups(crate::resolve::id_lists(groups@));
        assert(crate::resolve::id_lists(groups@).len() == groups@.len());
        assert(ng0.len() == groups@.len());
        assert(ng0.take(g as int).len() == g);
        assert(id_pairs(b).len() == b.len());
        let gi = crate::resolve::copy_ids(&groups[g]);
        let ghost nm = name@;
        let ghost giv = gi@;
        equalities.push((name, gi));
        assert(b.len() == g);
        assert(equalities@.len() == g + 1);
        assert(equalities@[g as int].0@ == nm);
        assert(equalities@[g as int].1@ == giv);
        let ghost ng = named_groups(crate::resolve::id_lists(groups@));
        assert(ng[g as int] == ("equality"@ + decimal((g + 1) as nat), groups@[g as int]@));
        assert(id_pairs(equalities@)[g as int] == (nm, giv));
        assert(id_pairs(equalities@) =~= ng.take(g + 1));
        g = g + 1;
    }
    assert(named_groups(crate::resolve::id_lists(groups@)).take(groups@.len() as int) =~= named_groups(crate::resolve::id_lists(groups@)));
    let mut definer: Vec<(String, Vec<usize>)> = Vec::new();
    let mut q: usize = 0;
    let np = pairs.len();
    assert(nodes.len() == np);
    while q < nodes_idx.len()
        invariant
            nodes_view(nodes_idx@, tree) == nodes,
            nodes.len() == np,
            tree == rtviews(m.tree@),
            forall|k: int| 0 <= k < m.tree@.len() ==> #[trigger] tree[k] == rtview(m.tree@[k]),
            forall|q2: int| 0 <= q2 < nodes_idx@.len() ==> (#[trigger] nodes_idx@[q2] matches Some(x) ==> x < tree.len()),
            tree.len() == m.tree@.len(),
            vi == def_view(def),
            q <= nodes_idx@.len(),
            forall|name: Seq<char>, j: int| #[trigger] lists(definers_of(definer_view(definer@), name), j) <==> (j < q && node_defines(nodes, vi, j, name)),
            forall|a: int, b: int| 0 <= a < definer@.len() && 0 <= b < definer@[a].1@.len() ==> #[trigger] definer@[a].1@[b] < q,
        decreases nodes_idx@.len() - q,
    {
        match nodes_idx[q] {
            Some(tt) => {
                assert(nodes[q as int] == Some(tree[tt as int]));
                let vars = tag_defines_deep(&m.tree[tt], def);
                let ghost dvs = vars@.map_values(|s: String| s@);
                assert(dvs == defines_deep(tree[tt as int], vi));
                let mut w: usize = 0;
                while w < vars.len()
                    invariant
                        nodes_view(nodes_idx@, tree) == nodes,
                        q < nodes.len(),
                        nodes[q as int] == Some(tree[tt as int]),
                        dvs == vars@.map_values(|s: String| s@),
                        dvs == defines_deep(tree[tt as int], vi),
                        w <= vars@.len(),
                        forall|name: Seq<char>, j: int| #[trigger] lists(definers_of(definer_view(definer@), name), j) <==> ((j < q && node_defines(nodes, vi, j, name)) || (j == q && dvs.take(w as int).contains(name))),
                        forall|a: int, b: int| 0 <= a < definer@.len() && 0 <= b < definer@[a].1@.len() ==> #[trigger] definer@[a].1@[b] <= q,
                    decreases vars@.len() - w,
                {
                    let ghost dvb = definer@;
                    add_definer(&mut definer, &vars[w], q);
                    assert forall|name: Seq<char>, j: int| #[trigger] lists(definers_of(definer_view(definer@), name), j) <==> ((j < q && node_defines(nodes, vi, j, name)) || (j == q && dvs.take(w + 1).contains(name))) by {
                        let d0 = dvs.take(w as int);
                        let d1 = dvs.take(w + 1);
                        assert(d1 =~= d0.push(dvs[w as int]));
                        if d1.contains(name) && name != dvs[w as int] {
                            let z = choose|z: int| 0 <= z < d1.len() && d1[z] == name;
                            assert(d0[z] == name);
                        }
                        if d0.contains(name) {
                            let z = choose|z: int| 0 <= z < d0.len() && d0[z] == name;
                            assert(d1[z] == name);
                        }
                        if name == dvs[w as int] {
                            assert(d1[w as int] == name);
                        }
                    }
                    assert forall|a: int, b: int| 0 <= a < definer@.len() && 0 <= b < definer@[a].1@.len() implies #[trigger] definer@[a].1@[b] <= q by {
                        if definer@[a].1@[b] != q {
                            let (a2, b2) = choose|a2: int, b2: int| 0 <= a2 < dvb.len() && 0 <= b2 < dvb[a2].1@.len() && dvb[a2].1@[b2] == definer@[a].1@[b];
                            assert(dvb[a2].1@[b2] <= q);
                        }
                    }
                    w = w + 1;
                }
                assert(dvs.take(vars@.len() as int) =~= dvs);
            },
            None => {
                assert(nodes[q as int] == None::<RTag>);
            },
        }
        proof {
            assert forall|name: Seq<char>, j: int| #[trigger] lists(definers_of(definer_view(definer@), name), j) <==> (j < q + 1 && node_defines(nodes, vi, j, name)) by {
            }
        }
        q = q + 1;
    }
    let ghost pt = tag_vars(per_tag@);
    let ghost dv = definer_view(definer@);
    assert(pt == pt_spec);
    proof {
        assert forall|a: int, b: int| reaches_step(pt, dv, a, b) == node_step(pt, nodes, vi, a, b) by {
            if reaches_step(pt, dv, a, b) {
                let k = choose|k: int| 0 <= k < pt[a].len() && (#[trigger] pt[a][k] matches RVar::Unresolved(name) && lists(definers_of(dv, name), b));
                assert(pt[a][k] matches RVar::Unresolved(name) && node_defines(nodes, vi, b, name));
            }
            if node_step(pt, nodes, vi, a, b) {
                let k = choose|k: int| 0 <= k < pt[a].len() && (#[trigger] pt[a][k] matches RVar::Unresolved(name) && node_defines(nodes, vi, b, name));
                assert(pt[a][k] matches RVar::Unresolved(name) && lists(definers_of(dv, name), b));
            }
        }
    }
    let ghost step_e = |a: int, b: int| reaches_step(pt, dv, a, b);
    let ghost step_s = |a: int, b: int| node_step(pt, nodes, vi, a, b);
    assert(step_e =~= step_s);
    let mut tags: Vec<(String, Vec<usize>)> = Vec::new();
    let mut k: usize = 0;
    while k < pairs.len()
        invariant
            rpairs(pairs@) == pairs_v,
            pt == tag_vars(per_tag@),
            dv == definer_view(definer@),
            pt.len() == pairs@.len(),
            per_tag@.len() == pairs@.len(),
            step_e == step_s,
            step_e == |a: int, b: int| reaches_step(pt, dv, a, b),
            step_s == |a: int, b: int| node_step(pt, nodes, vi, a, b),
            forall|a: int, b: int| 0 <= a < definer@.len() && 0 <= b < definer@[a].1@.len() ==> #[trigger] definer@[a].1@[b] < per_tag@.len(),
            k <= pairs@.len(),
            id_pairs(tags@) == Seq::new(
                pairs_v.len(),
                |i: int| (pairs_v[i].0, sorted_ids(reached_ids(pt, step_s, i))),
            ).take(k as int),
        decreases pairs@.len() - k,
    {
        let ids = signals_reachable(k, &per_tag, &definer);
        proof {
            lemma_sorted_is(ids@, reached_ids(pt, step_s, k as int));
        }
        let ghost b = tags@;
        assert(id_pairs(b).len() == b.len());
        assert(b.len() == k);
        let tg = copy_string(&pairs[k].0);
        assert(tg@ == pairs_v[k as int].0);
        let ghost idv = ids@;
        tags.push((tg, ids));
        assert(id_pairs(tags@)[k as int] == (pairs_v[k as int].0, idv));
        assert(id_pairs(tags@) =~= Seq::new(
            pairs_v.len(),
            |i: int| (pairs_v[i].0, sorted_ids(reached_ids(pt, step_s, i))),
        ).take(k + 1));
        k = k + 1;
    }
    let r = ResolvedInstance {
        macro_name: copy_string(&m.name),
        instance_prefix: copy_string(&m.instance_prefix),
        equalities,
        tags,
    };
    assert(iview(r).tags =~= instance_view(m.name@, m.instance_prefix@, l0, tree, vi).tags);
    assert(iview(r) == instance_view(m.name@, m.instance_prefix@, l0, tree, vi));
    r
}


// ---------------------------------------------------------------------------
// Every instance.
// ---------------------------------------------------------------------------

pub open spec fn entry_names(ms: Seq<crate::resolve::ResolvedMacroEntry>) -> Seq<Seq<char>> {
    ms.map_values(|m: crate::resolve::ResolvedMacroEntry| m.name@)
}

/// The macro names in the order they first appear.
pub open spec fn group_order(ms: Seq<crate::resolve::ResolvedMacroEntry>) -> Seq<Seq<char>> {
    add_all_unique(Seq::empty(), entry_names(ms))
}

/// The positions among the first `k` entries of the instances of macro `g`.
pub open spec fn with_name(ms: Seq<crate::resolve::ResolvedMacroEntry>, g: Seq<char>, k: nat) -> Seq<usize> {
    positions(entry_names(ms), g, k)
}

/// The instances of each macro, macros in the order they first appear.
fn group_by_name(macros: &[crate::resolve::ResolvedMacroEntry]) -> (r: Vec<(String, Vec<usize>)>)
    ensures
        r@.len() == group_order(macros@).len(),
        forall|g: int| 0 <= g < r@.len() ==> (#[trigger] groups_view(r@)[g]) == (
            group_order(macros@)[g],
            with_name(macros@, group_order(macros@)[g], macros@.len()),
        ),
{
    let mut names: Vec<String> = Vec::new();
    let mut j: usize = 0;
    while j < macros.len()
        invariant
            j <= macros@.len(),
            strs(names@) == entry_names(macros@).take(j as int),
        decreases macros@.len() - j,
    {
        let c = copy_string(&macros[j].name);
        let ghost n0 = names@;
        names.push(c);
        assert(strs(names@) =~= strs(n0).push(c@));
        assert(entry_names(macros@).take(j + 1) =~= entry_names(macros@).take(j as int).push(macros@[j as int].name@));
        assert(strs(names@) =~= entry_names(macros@).take(j + 1));
        j = j + 1;
    }
    assert(entry_names(macros@).take(macros@.len() as int) =~= entry_names(macros@));
    group_positions(&names)
}

/// The definition used for macro `g`, as values.
pub open spec fn def_for(defs: Seq<(String, MacroDef)>, g: Seq<char>) -> Option<Seq<(Seq<char>, Binding)>> {
    match lookup(crate::specification::macro_names(defs), g) {
        Some(d) => Some(vars_view(d.vars_info@)),
        None => None,
    }
}

/// Every instance of the macros of the first `k` group names, skipping the
/// `main` wrapper: macros in the order they first appear, the instances of
/// one macro in their order.
pub open spec fn instance_list(
    ms: Seq<crate::resolve::ResolvedMacroEntry>,
    defs: Seq<(String, MacroDef)>,
    gs: Seq<Seq<char>>,
    k: nat,
) -> Seq<InstanceView>
    decreases k,
{
    if k == 0 || k > gs.len() {
        Seq::empty()
    } else {
        instance_list(ms, defs, gs, (k - 1) as nat) + if gs[k - 1] == "main"@ {
            Seq::empty()
        } else {
            with_name(ms, gs[k - 1], ms.len()).map_values(
                |j: usize| instance_view(
                    ms[j as int].name@,
                    ms[j as int].instance_prefix@,
                    rviews(ms[j as int].level0@),
                    rtviews(ms[j as int].tree@),
                    def_for(defs, gs[k - 1]),
                ),
            )
        }
    }
}

pub open spec fn iviews(v: Seq<ResolvedInstance>) -> Seq<InstanceView> {
    v.map_values(|r: ResolvedInstance| iview(r))
}

/// Every instance, resolved, skipping the `main` wrapper (see [`instance_list`]).
pub fn resolved_instances(macros: &[crate::resolve::ResolvedMacroEntry], macro_defs: &Vec<(String, MacroDef)>) -> (r: Vec<ResolvedInstance>)
    requires
        crate::specification::distinct_names(macro_defs@),
    ensures
        iviews(r@) == instance_list(macros@, macro_defs@, group_order(macros@), group_order(macros@).len()),
{
    let ghost ms = macros@;
    let ghost gs = group_order(ms);
    let n = macros.len();
    assert(ms.len() == n);
    let groups = group_by_name(macros);
    let mut out: Vec<ResolvedInstance> = Vec::new();
    let mut gi: usize = 0;
    while gi < groups.len()
        invariant
            ms == macros@,
            gs == group_order(ms),
            ms.len() <= usize::MAX,
            groups@.len() == gs.len(),
            forall|g: int| 0 <= g < groups@.len() ==> (#[trigger] groups_view(groups@)[g]) == (gs[g], with_name(ms, gs[g], ms.len())),
            gi <= groups@.len(),
            iviews(out@) == instance_list(ms, macro_defs@, gs, gi as nat),
        decreases groups@.len() - gi,
    {
        let name = &groups[gi].0;
        let idxs = &groups[gi].1;
        assert(groups_view(groups@)[gi as int] == (name@, idxs@));
        let is_main = str_eq(name.as_str(), "main");
        proof {
            reveal_strlit("main");
        }
        if is_main {
            assert(instance_list(ms, macro_defs@, gs, (gi + 1) as nat) =~= instance_list(ms, macro_defs@, gs, gi as nat));
        } else {
            let def = crate::specification::find_macro(macro_defs, name.as_str());
            assert(def_view(def) == def_for(macro_defs@, gs[gi as int]));
            let ghost o0 = iviews(out@);
            proof {
                crate::strings::lemma_positions_range(entry_names(ms), gs[gi as int], ms.len());
            }
            let mut t: usize = 0;
            while t < idxs.len()
                invariant
                    ms == macros@,
                    idxs@ == with_name(ms, gs[gi as int], ms.len()),
                    forall|i: int| 0 <= i < idxs@.len() ==> (#[trigger] idxs@[i]) < ms.len(),
                    def_view(def) == def_for(macro_defs@, gs[gi as int]),
                    t <= idxs@.len(),
                    iviews(out@) == o0 + idxs@.take(t as int).map_values(
                        |j: usize| instance_view(
                            ms[j as int].name@,
                            ms[j as int].instance_prefix@,
                            rviews(ms[j as int].level0@),
                            rtviews(ms[j as int].tree@),
                            def_for(macro_defs@, gs[gi as int]),
                        ),
                    ),
                decreases idxs@.len() - t,
            {
                let j = idxs[t];
                let inst = resolve_instance(&macros[j], def);
                let ghost ob = out@;
                out.push(inst);
                proof {
                    let f = |j: usize| instance_view(
                        ms[j as int].name@,
                        ms[j as int].instance_prefix@,
                        rviews(ms[j as int].level0@),
                        rtviews(ms[j as int].tree@),
                        def_for(macro_defs@, gs[gi as int]),
                    );
                    assert(idxs@.take(t + 1) =~= idxs@.take(t as int).push(j));
                    assert(idxs@.take(t + 1).map_values(f) =~= idxs@.take(t as int).map_values(f).push(f(j)));
                    assert(iviews(out@) =~= iviews(ob).push(iview(inst)));
                    assert(iview(inst) == f(j));
                    assert(iviews(out@) =~= o0 + idxs@.take(t + 1).map_values(f));
                }
                t = t + 1;
            }
            assert(idxs@.take(idxs@.len() as int) =~= idxs@);
        }
        gi = gi + 1;
    }
    out
}

} // verus!
