//! Resolves the SMT variable names of an analysed macro (`v_12`, ...) to the
//! r1cs signal ids of one instance of that macro, through the macro's
//! `vars_info` (local name to variable), the instance's dotted prefix and
//! input signals, and the circuit's signal names.
use vstd::prelude::*;
use crate::text::{chars_of, decimal, is_ascii_digit, is_digit, push_decimal, string_from};
use crate::strings::{add_all_unique, add_unique, copy_string, lemma_add_all_unique, no_dups, string_eq, strs};
use crate::specification::{Binding, MacroDef, VarBinding, VarInfo, bview, find_binding, lookup, opt_view, param_names, signal_pairs, vars_view};
use crate::tags::{MacroEntry, Tag, TagNode, key_index, lemma_key_index, lemma_key_index_push, lemma_key_index_update, lemma_tviews, tview, tviews};
use crate::component_walk::{bracketified, bracketify_hashes};
use crate::signal_names::{by_name, indices_eq, resolve_by_name};

verus! {

// ---------------------------------------------------------------------------
// Local names.
// ---------------------------------------------------------------------------

/// An internal operation label (`%4`, `%arg0`, `%felt_const_1`, ...).
pub open spec fn is_internal(s: Seq<char>) -> bool {
    s.len() > 0 && s[0] == '%'
}

/// `%argN`: an input argument, resolved by position.
pub open spec fn is_arg(s: Seq<char>) -> bool {
    &&& s.len() > 4
    &&& s.take(4) == seq!['%', 'a', 'r', 'g']
    &&& forall|k: int| 4 <= k < s.len() ==> is_digit(s[k])
}

/// The rank of a local name among the candidates for a variable: a real
/// name first (2), resolved by name; then `%argN` (1), resolved by
/// position; any other internal label last (0), which never resolves.
pub open spec fn priority(s: Seq<char>) -> nat {
    if !is_internal(s) {
        2
    } else if is_arg(s) {
        1
    } else {
        0
    }
}

fn is_internal_label(local_name: &String) -> (r: bool)
    ensures
        r == is_internal(local_name@),
{
    let cs = chars_of(local_name.as_str());
    cs.len() > 0 && cs[0] == '%'
}

fn is_arg_label(local_name: &String) -> (r: bool)
    ensures
        r == is_arg(local_name@),
{
    let cs = chars_of(local_name.as_str());
    if cs.len() <= 4 {
        return false;
    }
    if !(cs[0] == '%' && cs[1] == 'a' && cs[2] == 'r' && cs[3] == 'g') {
        assert(cs@.take(4) != seq!['%', 'a', 'r', 'g']) by {
            if cs@.take(4) == seq!['%', 'a', 'r', 'g'] {
                assert(cs@.take(4)[0] == cs@[0]);
                assert(cs@.take(4)[1] == cs@[1]);
                assert(cs@.take(4)[2] == cs@[2]);
                assert(cs@.take(4)[3] == cs@[3]);
            }
        }
        return false;
    }
    assert(cs@.take(4) =~= seq!['%', 'a', 'r', 'g']);
    let mut k: usize = 4;
    while k < cs.len()
        invariant
            cs@ == local_name@,
            cs@.len() > 4,
            cs@.take(4) == seq!['%', 'a', 'r', 'g'],
            4 <= k <= cs@.len(),
            forall|j: int| 4 <= j < k ==> is_digit(cs@[j]),
        decreases cs@.len() - k,
    {
        if !is_ascii_digit(cs[k]) {
            assert(!is_digit(cs@[k as int]));
            return false;
        }
        k = k + 1;
    }
    true
}

fn resolution_priority(local_name: &String) -> (r: u8)
    ensures
        r == priority(local_name@),
{
    if !is_internal_label(local_name) {
        2
    } else if is_arg_label(local_name) {
        1
    } else {
        0
    }
}


// ---------------------------------------------------------------------------
// Which local names produce a variable.
// ---------------------------------------------------------------------------

/// A local name of `vars_info` with the position within its array, if it is one.
pub type LocalKey = (String, Option<usize>);

pub open spec fn key_view(k: LocalKey) -> (Seq<char>, Option<usize>) {
    (k.0@, k.1)
}

pub open spec fn keys_view(v: Seq<LocalKey>) -> Seq<(Seq<char>, Option<usize>)> {
    v.map_values(|k: LocalKey| key_view(k))
}

proof fn lemma_keys_view_push(s: Seq<LocalKey>, k: LocalKey)
    ensures
        keys_view(s.push(k)) == keys_view(s).push(key_view(k)),
{
    let a = keys_view(s.push(k));
    let b = keys_view(s).push(key_view(k));
    assert forall|j: int| 0 <= j < a.len() implies a[j] == b[j] by {
        if j < s.len() {
            assert(s.push(k)[j] == s[j]);
        }
    }
    assert(a =~= b);
}

/// The positions among the first `m` elements of an array binding that hold `var`.
pub open spec fn array_keys(
    name: Seq<char>,
    items: Seq<Option<Seq<char>>>,
    var: Seq<char>,
    m: nat,
) -> Seq<(Seq<char>, Option<usize>)>
    decreases m,
{
    if m == 0 || m > items.len() {
        Seq::empty()
    } else {
        array_keys(name, items, var, (m - 1) as nat) + if items[m - 1] == Some(var) {
            seq![(name, Some((m - 1) as usize))]
        } else {
            Seq::empty()
        }
    }
}

/// The local keys of one `vars_info` entry that produce `var`.
pub open spec fn binding_keys(name: Seq<char>, b: Binding, var: Seq<char>) -> Seq<
    (Seq<char>, Option<usize>),
> {
    match b {
        Binding::Name(v) => if v == var {
            seq![(name, None)]
        } else {
            Seq::empty()
        },
        Binding::Names(items) => array_keys(name, items, var, items.len()),
        Binding::Other => Seq::empty(),
    }
}

/// Every local key of the first `n` entries of `vars_info` that produces
/// `var`, in order: `vars_info` is not injective, so there can be several.
pub open spec fn candidates(vi: Seq<(Seq<char>, Binding)>, var: Seq<char>, n: nat) -> Seq<
    (Seq<char>, Option<usize>),
>
    decreases n,
{
    if n == 0 || n > vi.len() {
        Seq::empty()
    } else {
        candidates(vi, var, (n - 1) as nat) + binding_keys(vi[n - 1].0, vi[n - 1].1, var)
    }
}

pub open spec fn all_candidates(vi: Seq<(Seq<char>, Binding)>, var: Seq<char>) -> Seq<
    (Seq<char>, Option<usize>),
> {
    candidates(vi, var, vi.len())
}

/// Variable to the local keys producing it.
pub open spec fn rev_view(v: Seq<(String, Vec<LocalKey>)>) -> Seq<
    (Seq<char>, Seq<(Seq<char>, Option<usize>)>),
> {
    v.map_values(|p: (String, Vec<LocalKey>)| (p.0@, keys_view(p.1@)))
}

/// The reverse index holds, for each variable with at least one local key,
/// exactly its local keys.
pub open spec fn indexes(
    rev: Seq<(Seq<char>, Seq<(Seq<char>, Option<usize>)>)>,
    cands: spec_fn(Seq<char>) -> Seq<(Seq<char>, Option<usize>)>,
) -> bool {
    forall|var: Seq<char>| #[trigger]
        lookup(rev, var) == if cands(var).len() > 0 {
            Some(cands(var))
        } else {
            None::<Seq<(Seq<char>, Option<usize>)>>
        }
}

fn add_candidate(rev: &mut Vec<(String, Vec<LocalKey>)>, var: &String, key: LocalKey)
    ensures
        forall|v: Seq<char>| #[trigger]
            lookup(rev_view(final(rev)@), v) == if v == var@ {
                match lookup(rev_view(old(rev)@), v) {
                    Some(ks) => Some(ks.push(key_view(key))),
                    None => Some(seq![key_view(key)]),
                }
            } else {
                lookup(rev_view(old(rev)@), v)
            },
{
    let ghost rv = rev_view(rev@);
    let ghost kv = key_view(key);
    proof {
        lemma_key_index(rv, var@);
    }
    let mut i: usize = 0;
    while i < rev.len()
        invariant
            rv == rev_view(rev@),
            kv == key_view(key),
            rev@ == old(rev)@,
            i <= rev@.len(),
            forall|j: int| 0 <= j < i ==> rv[j].0 != var@,
        decreases rev@.len() - i,
    {
        assert(rv[i as int].0 == rev@[i as int].0@);
        if string_eq(&rev[i].0, var) {
            proof {
                lemma_key_index(rv, var@);
            }
            assert(key_index(rv, var@) == Some(i as int));
            let ghost r0 = rev@;
            let (entry_name, mut entry_keys) = rev.remove(i);
            let ghost ks = keys_view(entry_keys@);
            assert(ks == rv[i as int].1);
            let ghost e0 = entry_keys@;
            entry_keys.push(key);
            proof {
                lemma_keys_view_push(e0, key);
            }
            let ghost e1 = (entry_name, entry_keys);
            rev.insert(i, (entry_name, entry_keys));
            assert(rev@ =~= r0.update(i as int, e1));
            assert(e1.0@ == rv[i as int].0);
            assert(keys_view(e1.1@) == ks.push(kv));
            let ghost target = rv.update(i as int, (rv[i as int].0, ks.push(kv)));
            assert forall|j: int| 0 <= j < target.len() implies rev_view(rev@)[j] == target[j] by {
                if j != i {
                    assert(rev@[j] == r0[j]);
                }
            }
            assert(rev_view(rev@) =~= target);
            assert forall|v: Seq<char>| #[trigger] lookup(rev_view(rev@), v) == if v == var@ {
                match lookup(rv, v) {
                    Some(ks) => Some(ks.push(kv)),
                    None => Some(seq![kv]),
                }
            } else {
                lookup(rv, v)
            } by {
                lemma_key_index_update(rv, i as int, ks.push(kv), v);
                lemma_key_index(rv, v);
            }
            return ;
        }
        i = i + 1;
    }
    assert(key_index(rv, var@) is None) by {
        lemma_key_index(rv, var@);
    }
    let mut ks: Vec<LocalKey> = Vec::new();
    ks.push(key);
    assert(keys_view(ks@) =~= seq![kv]);
    rev.push((copy_string(var), ks));
    assert(rev_view(rev@) =~= rv.push((var@, seq![kv])));
    assert forall|v: Seq<char>| #[trigger] lookup(rev_view(rev@), v) == if v == var@ {
        match lookup(rv, v) {
            Some(ks) => Some(ks.push(kv)),
            None => Some(seq![kv]),
        }
    } else {
        lookup(rv, v)
    } by {
        lemma_key_index_push(rv, (var@, seq![kv]), v);
        lemma_key_index(rv, v);
    }
}

/// Inverts `vars_info`: from variable to every local key producing it (see
/// [`candidates`]).
fn build_reverse_index(vars_info: &Vec<(String, VarBinding)>) -> (r: Vec<(String, Vec<LocalKey>)>)
    ensures
        indexes(rev_view(r@), |var: Seq<char>| all_candidates(vars_view(vars_info@), var)),
{
    let ghost vi = vars_view(vars_info@);
    let mut rev: Vec<(String, Vec<LocalKey>)> = Vec::new();
    let mut n: usize = 0;
    while n < vars_info.len()
        invariant
            vi == vars_view(vars_info@),
            n <= vars_info@.len(),
            indexes(rev_view(rev@), |var: Seq<char>| candidates(vi, var, n as nat)),
        decreases vars_info@.len() - n,
    {
        let name = &vars_info[n].0;
        let ghost before = rev_view(rev@);
        match &vars_info[n].1 {
            VarBinding::Name(v) => {
                add_candidate(&mut rev, v, (copy_string(name), None));
                assert forall|var: Seq<char>| #[trigger] lookup(rev_view(rev@), var) == if candidates(
                    vi,
                    var,
                    (n + 1) as nat,
                ).len() > 0 {
                    Some(candidates(vi, var, (n + 1) as nat))
                } else {
                    None::<Seq<(Seq<char>, Option<usize>)>>
                } by {
                    assert(lookup(before, var) == if candidates(vi, var, n as nat).len() > 0 {
                        Some(candidates(vi, var, n as nat))
                    } else {
                        None::<Seq<(Seq<char>, Option<usize>)>>
                    });
                    if var == v@ {
                        assert(candidates(vi, var, (n + 1) as nat) =~= candidates(vi, var, n as nat).push(
                            (name@, None),
                        ));
                    } else {
                        assert(candidates(vi, var, (n + 1) as nat) =~= candidates(vi, var, n as nat));
                    }
                }
            },
            VarBinding::Names(items) => {
                let ghost iv = items@.map_values(|o: Option<String>| opt_view(o));
                let mut j: usize = 0;
                while j < items.len()
                    invariant
                        vi == vars_view(vars_info@),
                        n < vars_info@.len(),
                        vi[n as int] == (name@, Binding::Names(iv)),
                        iv == items@.map_values(|o: Option<String>| opt_view(o)),
                        j <= items@.len(),
                        indexes(rev_view(rev@), |var: Seq<char>| candidates(vi, var, n as nat) + array_keys(
                            name@,
                            iv,
                            var,
                            j as nat,
                        )),
                    decreases items@.len() - j,
                {
                    let ghost b2 = rev_view(rev@);
                    match &items[j] {
                        Some(v) => {
                            add_candidate(&mut rev, v, (copy_string(name), Some(j)));
                            assert forall|var: Seq<char>| #[trigger] lookup(rev_view(rev@), var) == if (
                            candidates(vi, var, n as nat) + array_keys(name@, iv, var, (j + 1) as nat)).len()
                                > 0 {
                                Some(candidates(vi, var, n as nat) + array_keys(name@, iv, var, (j + 1) as nat))
                            } else {
                                None::<Seq<(Seq<char>, Option<usize>)>>
                            } by {
                                assert(iv[j as int] == Some(v@));
                                if var == v@ {
                                    assert(candidates(vi, var, n as nat) + array_keys(name@, iv, var, (j + 1) as nat)
                                        =~= (candidates(vi, var, n as nat) + array_keys(name@, iv, var, j as nat)).push(
                                        (name@, Some(j)),
                                    ));
                                } else {
                                    assert(array_keys(name@, iv, var, (j + 1) as nat) =~= array_keys(name@, iv, var, j as nat));
                                }
                            }
                        },
                        None => {
                            assert forall|var: Seq<char>| #[trigger] lookup(rev_view(rev@), var) == if (
                            candidates(vi, var, n as nat) + array_keys(name@, iv, var, (j + 1) as nat)).len()
                                > 0 {
                                Some(candidates(vi, var, n as nat) + array_keys(name@, iv, var, (j + 1) as nat))
                            } else {
                                None::<Seq<(Seq<char>, Option<usize>)>>
                            } by {
                                assert(iv[j as int] == None::<Seq<char>>);
                                assert(array_keys(name@, iv, var, (j + 1) as nat) =~= array_keys(name@, iv, var, j as nat));
                            }
                        },
                    }
                    j = j + 1;
                }
                assert forall|var: Seq<char>| #[trigger] lookup(rev_view(rev@), var) == if candidates(
                    vi,
                    var,
                    (n + 1) as nat,
                ).len() > 0 {
                    Some(candidates(vi, var, (n + 1) as nat))
                } else {
                    None::<Seq<(Seq<char>, Option<usize>)>>
                } by {
                    assert(candidates(vi, var, (n + 1) as nat) == candidates(vi, var, n as nat) + array_keys(
                        name@,
                        iv,
                        var,
                        items@.len() as nat,
                    ));
                }
            },
            VarBinding::Other => {
                assert forall|var: Seq<char>| #[trigger] lookup(rev_view(rev@), var) == if candidates(
                    vi,
                    var,
                    (n + 1) as nat,
                ).len() > 0 {
                    Some(candidates(vi, var, (n + 1) as nat))
                } else {
                    None::<Seq<(Seq<char>, Option<usize>)>>
                } by {
                    assert(candidates(vi, var, (n + 1) as nat) =~= candidates(vi, var, n as nat));
                }
            },
        }
        n = n + 1;
    }
    rev
}



// ---------------------------------------------------------------------------
// Resolved variables, tags and macros.
// ---------------------------------------------------------------------------

/// A variable once resolved: the r1cs ids it stands for (several when
/// distinct ports share it, in increasing order), or its own name when it
/// stands for no signal.
#[derive(Clone, Debug, PartialEq, Eq)]
pub enum ResolvedVar {
    Signal(Vec<usize>),
    Unresolved(String),
}

impl ResolvedVar {
    /// Whether the variable stands for signals.
    pub fn is_signal(&self) -> (r: bool)
        ensures
            r == (self is Signal),
    {
        match self {
            ResolvedVar::Signal(_) => true,
            ResolvedVar::Unresolved(_) => false,
        }
    }
}

// ---------------------------------------------------------------------------
// `%argN` parameters, resolved by position.
// ---------------------------------------------------------------------------

/// `%arg<n>`.
pub open spec fn arg_label(n: nat) -> Seq<char> {
    seq!['%', 'a', 'r', 'g'] + decimal(n)
}

/// How many input positions a binding takes: one per element of an array,
/// one for anything else.
pub open spec fn binding_width(b: Binding) -> nat {
    match b {
        Binding::Names(items) => items.len(),
        _ => 1,
    }
}

/// A position, capped at `usize::MAX` (no input list reaches it).
pub open spec fn capped(p: int) -> usize {
    if p < usize::MAX {
        p as usize
    } else {
        usize::MAX
    }
}

/// The input positions of the local key(s) of `label`, the first at `offset`.
pub open spec fn binding_slots(label: Seq<char>, b: Binding, offset: nat) -> Seq<
    ((Seq<char>, Option<usize>), usize),
> {
    match b {
        Binding::Names(items) => Seq::new(
            items.len(),
            |j: int| ((label, Some(j as usize)), capped(offset + j)),
        ),
        _ => seq![((label, None::<usize>), capped(offset as int))],
    }
}

/// The input positions of `%arg<n>`, `%arg<n+1>`, ..., for as long as they
/// are present in `vars_info` (which has no more of them than entries), the
/// first at `offset`: each argument follows
/// the previous one, an array taking one position per element.
pub open spec fn arg_slots(vi: Seq<(Seq<char>, Binding)>, n: nat, offset: nat) -> Seq<
    ((Seq<char>, Option<usize>), usize),
>
    decreases vi.len() - n,
{
    if n >= vi.len() {
        Seq::empty()
    } else {
        match lookup(vi, arg_label(n)) {
            None => Seq::empty(),
            Some(b) => binding_slots(arg_label(n), b, offset) + arg_slots(
                vi,
                n + 1,
                offset + binding_width(b),
            ),
        }
    }
}

pub open spec fn slots_view(v: Seq<(LocalKey, usize)>) -> Seq<((Seq<char>, Option<usize>), usize)> {
    v.map_values(|e: (LocalKey, usize)| (key_view(e.0), e.1))
}

fn arg_label_exec(n: usize) -> (r: String)
    ensures
        r@ == arg_label(n as nat),
{
    let mut r = string_from("%arg");
    proof {
        reveal_strlit("%arg");
        assert("%arg"@ =~= seq!['%', 'a', 'r', 'g']);
    }
    push_decimal(&mut r, n);
    r
}

/// The input position of every `%argN` local key (see [`arg_slots`]).
fn build_arg_positions(vars_info: &Vec<(String, VarBinding)>) -> (r: Vec<(LocalKey, usize)>)
    ensures
        slots_view(r@) == arg_slots(vars_view(vars_info@), 0, 0),
{
    let ghost vi = vars_view(vars_info@);
    let mut positions: Vec<(LocalKey, usize)> = Vec::new();
    let mut flattened: usize = 0;
    let ghost mut offset: nat = 0;
    let mut n: usize = 0;
    let mut done = false;
    assert(slots_view(positions@) + arg_slots(vi, 0, 0) =~= arg_slots(vi, 0, 0));
    while !done && n < vars_info.len()
        invariant
            vi == vars_view(vars_info@),
            n <= vi.len(),
            flattened == capped(offset as int),
            slots_view(positions@) + arg_slots(vi, n as nat, offset) == arg_slots(vi, 0, 0),
            done ==> arg_slots(vi, n as nat, offset) == Seq::<((Seq<char>, Option<usize>), usize)>::empty(),
        decreases (vi.len() - n) * 2 + if done {
            0int
        } else {
            1int
        },
    {
        let label = arg_label_exec(n);
        let ghost before = slots_view(positions@);
        match find_binding(vars_info, label.as_str()) {
            None => {
                done = true;
            },
            Some(b) => {
                let ghost bv = bview(*b);
                let ghost chunk = binding_slots(arg_label(n as nat), bv, offset);
                assert(arg_slots(vi, n as nat, offset) == chunk + arg_slots(
                    vi,
                    (n + 1) as nat,
                    offset + binding_width(bv),
                ));
                match b {
                    VarBinding::Names(items) => {
                        let mut j: usize = 0;
                        while j < items.len()
                            invariant
                                j <= items@.len(),
                                bv == bview(*b),
                                *b == VarBinding::Names(*items),
                                label@ == arg_label(n as nat),
                                chunk == binding_slots(arg_label(n as nat), bv, offset),
                                flattened == capped(offset + j),
                                slots_view(positions@) == before + chunk.take(j as int),
                            decreases items@.len() - j,
                        {
                            let ghost b2 = slots_view(positions@);
                            positions.push(((copy_string(&label), Some(j)), flattened));
                            assert(slots_view(positions@) =~= b2.push(((label@, Some(j)), flattened)));
                            assert(chunk[j as int] == ((label@, Some(j)), capped(offset + j)));
                            assert(chunk.take(j + 1) =~= chunk.take(j as int).push(chunk[j as int]));
                            if flattened < usize::MAX {
                                flattened = flattened + 1;
                            }
                            j = j + 1;
                        }
                        assert(chunk.take(items@.len() as int) =~= chunk);
                        proof {
                            offset = offset + items@.len();
                        }
                    },
                    _ => {
                        positions.push(((copy_string(&label), None), flattened));
                        assert(slots_view(positions@) =~= before + chunk);
                        if flattened < usize::MAX {
                            flattened = flattened + 1;
                        }
                        proof {
                            offset = offset + 1;
                        }
                    },
                }
                assert(slots_view(positions@) + arg_slots(vi, (n + 1) as nat, offset) =~= before
                    + arg_slots(vi, n as nat, (offset - binding_width(bv)) as nat));
                n = n + 1;
            },
        }
    }
    assert(slots_view(positions@) + Seq::<((Seq<char>, Option<usize>), usize)>::empty()
        =~= slots_view(positions@));
    positions
}

/// The input position of local key `k`, if it is an `%argN` key.
pub open spec fn slot_lookup(slots: Seq<((Seq<char>, Option<usize>), usize)>, k: (Seq<char>, Option<usize>)) -> Option<usize>
    decreases slots.len(),
{
    if slots.len() == 0 {
        None
    } else if slots[0].0 == k {
        Some(slots[0].1)
    } else {
        slot_lookup(slots.drop_first(), k)
    }
}

fn key_eq(a: &LocalKey, b: &LocalKey) -> (r: bool)
    ensures
        r == (key_view(*a) == key_view(*b)),
{
    string_eq(&a.0, &b.0) && a.1 == b.1
}

fn find_position(slots: &Vec<(LocalKey, usize)>, k: &LocalKey) -> (r: Option<usize>)
    ensures
        r == slot_lookup(slots_view(slots@), key_view(*k)),
{
    let ghost sv = slots_view(slots@);
    let mut i: usize = 0;
    assert(sv.skip(0) =~= sv);
    while i < slots.len()
        invariant
            sv == slots_view(slots@),
            i <= sv.len(),
            slot_lookup(sv.skip(i as int), key_view(*k)) == slot_lookup(sv, key_view(*k)),
        decreases sv.len() - i,
    {
        assert(sv.skip(i as int)[0] == sv[i as int]);
        if key_eq(&slots[i].0, k) {
            return Some(slots[i].1);
        }
        assert(sv.skip(i as int).drop_first() =~= sv.skip(i + 1));
        i = i + 1;
    }
    None
}

// ---------------------------------------------------------------------------
// Resolving one variable.
// ---------------------------------------------------------------------------

/// Whether a name holds a `#`.
pub open spec fn has_hash(s: Seq<char>) -> bool {
    s.contains('#')
}

/// The signal id of one local key: by its input position if it is an
/// `%argN` key within the inputs, else by name, else (for a `#N` name) by
/// its `[N]` form.
pub open spec fn key_id(
    k: (Seq<char>, Option<usize>),
    slots: Seq<((Seq<char>, Option<usize>), usize)>,
    inputs: Seq<usize>,
    prefix: Seq<char>,
    names: Seq<(Seq<char>, usize)>,
) -> Option<usize> {
    let by_position = match slot_lookup(slots, k) {
        Some(p) => if p < inputs.len() {
            Some(inputs[p as int])
        } else {
            None
        },
        None => None,
    };
    if by_position is Some {
        by_position
    } else {
        match by_name(prefix, k.0, k.1, names) {
            Some(id) => Some(id),
            None => if has_hash(k.0) {
                by_name(prefix, bracketified(k.0), k.1, names)
            } else {
                None
            },
        }
    }
}

fn contains_hash(s: &String) -> (r: bool)
    ensures
        r == has_hash(s@),
{
    let cs = chars_of(s.as_str());
    let mut i: usize = 0;
    while i < cs.len()
        invariant
            cs@ == s@,
            i <= cs@.len(),
            forall|k: int| 0 <= k < i ==> cs@[k] != '#',
        decreases cs@.len() - i,
    {
        if cs[i] == '#' {
            assert(cs@[i as int] == '#');
            return true;
        }
        i = i + 1;
    }
    false
}

/// See [`key_id`].
fn resolve_local_key(
    local_key: &LocalKey,
    arg_positions: &Vec<(LocalKey, usize)>,
    input_signals: &[usize],
    instance_prefix: &str,
    name_to_signal: &Vec<(String, usize)>,
) -> (r: Option<usize>)
    ensures
        r == key_id(
            key_view(*local_key),
            slots_view(arg_positions@),
            input_signals@,
            instance_prefix@,
            signal_pairs(name_to_signal@),
        ),
{
    match find_position(arg_positions, local_key) {
        Some(pos) => {
            if pos < input_signals.len() {
                return Some(input_signals[pos]);
            }
        },
        None => {},
    }
    let local_name = &local_key.0;
    match resolve_by_name(instance_prefix, local_name.as_str(), local_key.1, name_to_signal) {
        Some(id) => {
            return Some(id);
        },
        None => {},
    }
    if contains_hash(local_name) {
        let bracketed = bracketify_hashes(local_name.as_str());
        return resolve_by_name(instance_prefix, bracketed.as_str(), local_key.1, name_to_signal);
    }
    None
}

/// The highest rank among the first `n` candidates (`0` when there is none).
pub open spec fn best_priority(cands: Seq<(Seq<char>, Option<usize>)>, n: nat) -> nat
    decreases n,
{
    if n == 0 || n > cands.len() {
        0
    } else {
        let prev = best_priority(cands, (n - 1) as nat);
        let p = priority(cands[n - 1].0);
        if p > prev { p } else { prev }
    }
}

/// The ids of the resolvable ones among the first `n` candidates of rank
/// `best`; none at all when `best` is the rank of internal labels.
pub open spec fn tied_ids(
    cands: Seq<(Seq<char>, Option<usize>)>,
    n: nat,
    best: nat,
    slots: Seq<((Seq<char>, Option<usize>), usize)>,
    inputs: Seq<usize>,
    prefix: Seq<char>,
    names: Seq<(Seq<char>, usize)>,
) -> Set<usize>
    decreases n,
{
    if n == 0 || n > cands.len() {
        Set::empty()
    } else {
        let prev = tied_ids(cands, (n - 1) as nat, best, slots, inputs, prefix, names);
        if best > 0 && priority(cands[n - 1].0) == best {
            match key_id(cands[n - 1], slots, inputs, prefix, names) {
                Some(id) => prev.insert(id),
                None => prev,
            }
        } else {
            prev
        }
    }
}

/// Strictly increasing.
pub open spec fn increasing(s: Seq<usize>) -> bool {
    forall|i: int, j: int| 0 <= i < j < s.len() ==> s[i] < s[j]
}

/// The elements of a finite set of ids in increasing order.
pub open spec fn sorted_ids(s: Set<usize>) -> Seq<usize> {
    choose|v: Seq<usize>| increasing(v) && v.to_set() == s
}

/// Two increasing sequences with the same elements are equal.
pub proof fn lemma_increasing_unique(a: Seq<usize>, b: Seq<usize>)
    requires
        increasing(a),
        increasing(b),
        a.to_set() == b.to_set(),
    ensures
        a == b,
    decreases a.len(),
{
    if a.len() == 0 {
        if b.len() > 0 {
            assert(b.to_set().contains(b[0]));
        }
        assert(a =~= b);
    } else {
        assert(a.to_set().contains(a[0]));
        assert(b.len() > 0);
        assert(b.to_set().contains(b[0]));
        let ja = choose|j: int| 0 <= j < b.len() && b[j] == a[0];
        let jb = choose|j: int| 0 <= j < a.len() && a[j] == b[0];
        assert(b[0] <= a[0]) by {
            if ja > 0 {
                assert(b[0] < b[ja]);
            }
        }
        assert(a[0] <= b[0]) by {
            if jb > 0 {
                assert(a[0] < a[jb]);
            }
        }
        let a1 = a.drop_first();
        let b1 = b.drop_first();
        assert forall|x: usize| a1.to_set().contains(x) == b1.to_set().contains(x) by {
            if a1.to_set().contains(x) {
                let k = choose|k: int| 0 <= k < a1.len() && a1[k] == x;
                assert(a[k + 1] == x);
                assert(a.to_set().contains(x));
                assert(b.to_set().contains(x));
                let m = choose|m: int| 0 <= m < b.len() && b[m] == x;
                assert(a[0] < a[k + 1]);
                assert(m != 0);
                assert(b1[m - 1] == x);
            }
            if b1.to_set().contains(x) {
                let k = choose|k: int| 0 <= k < b1.len() && b1[k] == x;
                assert(b[k + 1] == x);
                assert(b.to_set().contains(x));
                assert(a.to_set().contains(x));
                let m = choose|m: int| 0 <= m < a.len() && a[m] == x;
                assert(b[0] < b[k + 1]);
                assert(m != 0);
                assert(a1[m - 1] == x);
            }
        }
        assert(a1.to_set() =~= b1.to_set());
        lemma_increasing_unique(a1, b1);
        assert(a =~= seq![a[0]] + a1);
        assert(b =~= seq![b[0]] + b1);
    }
}

/// Inserts `x` into an increasing list unless it is already there.
pub(crate) fn insert_sorted(v: &mut Vec<usize>, x: usize)
    requires
        increasing(old(v)@),
    ensures
        increasing(final(v)@),
        final(v)@.to_set() == old(v)@.to_set().insert(x),
{
    let ghost o = v@;
    let mut p: usize = 0;
    while p < v.len() && v[p] < x
        invariant
            v@ == o,
            p <= o.len(),
            forall|k: int| 0 <= k < p ==> o[k] < x,
        decreases o.len() - p,
    {
        p = p + 1;
    }
    if p < v.len() && v[p] == x {
        assert(o.to_set().insert(x) =~= o.to_set());
        return;
    }
    v.insert(p, x);
    assert forall|i: int, j: int| 0 <= i < j < v@.len() implies v@[i] < v@[j] by {
        if j < p {
        } else if j == p {
        } else if i < p {
            assert(v@[j] == o[j - 1]);
            if j - 1 > p {
                assert(o[p as int] < o[j - 1]);
            }
        } else if i == p {
            assert(v@[j] == o[j - 1]);
            if j - 1 > p {
                assert(o[p as int] < o[j - 1]);
            }
        } else {
            assert(v@[i] == o[i - 1]);
            assert(v@[j] == o[j - 1]);
        }
    }
    assert forall|y: usize| v@.to_set().contains(y) == o.to_set().insert(x).contains(y) by {
        if v@.contains(y) {
            let k = choose|k: int| 0 <= k < v@.len() && v@[k] == y;
            if k < p {
                assert(o[k] == y);
            } else if k > p {
                assert(o[k - 1] == y);
            }
        }
        if o.contains(y) {
            let k = choose|k: int| 0 <= k < o.len() && o[k] == y;
            if k < p {
                assert(v@[k] == y);
            } else {
                assert(v@[k + 1] == y);
            }
        }
        if y == x {
            assert(v@[p as int] == x);
        }
    }
    assert(v@.to_set() =~= o.to_set().insert(x));
}

/// The value of a [`ResolvedVar`].
pub enum RVar {
    Signal(Seq<usize>),
    Unresolved(Seq<char>),
}

pub open spec fn rview(v: ResolvedVar) -> RVar {
    match v {
        ResolvedVar::Signal(ids) => RVar::Signal(ids@),
        ResolvedVar::Unresolved(name) => RVar::Unresolved(name@),
    }
}

pub open spec fn rviews(v: Seq<ResolvedVar>) -> Seq<RVar> {
    v.map_values(|x: ResolvedVar| rview(x))
}

/// What `var` resolves to, given its candidate local keys: the ids of the
/// candidates of the best rank present that resolve, in increasing order,
/// or the name itself when there is none.
pub open spec fn resolution(
    var: Seq<char>,
    cands: Seq<(Seq<char>, Option<usize>)>,
    slots: Seq<((Seq<char>, Option<usize>), usize)>,
    inputs: Seq<usize>,
    prefix: Seq<char>,
    names: Seq<(Seq<char>, usize)>,
) -> RVar {
    let s = tied_ids(cands, cands.len(), best_priority(cands, cands.len()), slots, inputs, prefix, names);
    if s == Set::<usize>::empty() {
        RVar::Unresolved(var)
    } else {
        RVar::Signal(sorted_ids(s))
    }
}

/// What variable `var` of a macro with `vars_info` `vi` resolves to, for the
/// instance at `prefix` with inputs `inputs` (see [`resolution`]).
pub open spec fn resolved_var(
    var: Seq<char>,
    vi: Seq<(Seq<char>, Binding)>,
    inputs: Seq<usize>,
    prefix: Seq<char>,
    names: Seq<(Seq<char>, usize)>,
) -> RVar {
    resolution(var, all_candidates(vi, var), arg_slots(vi, 0, 0), inputs, prefix, names)
}

fn resolve_var(
    var_name: &String,
    reverse_index: &Vec<(String, Vec<LocalKey>)>,
    arg_positions: &Vec<(LocalKey, usize)>,
    input_signals: &[usize],
    instance_prefix: &str,
    name_to_signal: &Vec<(String, usize)>,
    Ghost(vi): Ghost<Seq<(Seq<char>, Binding)>>,
) -> (r: ResolvedVar)
    requires
        indexes(rev_view(reverse_index@), |var: Seq<char>| all_candidates(vi, var)),
        slots_view(arg_positions@) == arg_slots(vi, 0, 0),
    ensures
        rview(r) == resolved_var(var_name@, vi, input_signals@, instance_prefix@, signal_pairs(name_to_signal@)),
{
    let ghost slots = slots_view(arg_positions@);
    let ghost names = signal_pairs(name_to_signal@);
    let ghost cands = all_candidates(vi, var_name@);
    let ghost rv = rev_view(reverse_index@);
    proof {
        lemma_key_index(rv, var_name@);
    }
    let mut found: Option<usize> = None;
    let mut i: usize = 0;
    while i < reverse_index.len() && found.is_none()
        invariant
            rv == rev_view(reverse_index@),
            i <= rv.len(),
            found is None ==> forall|j: int| 0 <= j < i ==> rv[j].0 != var_name@,
            found matches Some(f) ==> key_index(rv, var_name@) == Some(f as int) && f < rv.len(),
        decreases rv.len() - i,
    {
        assert(rv[i as int].0 == reverse_index@[i as int].0@);
        if string_eq(&reverse_index[i].0, var_name) {
            proof {
                lemma_key_index(rv, var_name@);
            }
            found = Some(i);
        }
        i = i + 1;
    }
    let ghost nothing = Set::<usize>::empty();
    match found {
        None => {
            assert(key_index(rv, var_name@) is None) by {
                lemma_key_index(rv, var_name@);
            }
            assert(lookup(rv, var_name@) is None);
            assert(cands.len() == 0);
            assert(tied_ids(cands, cands.len(), best_priority(cands, cands.len()), slots, input_signals@, instance_prefix@, names) == nothing);
            ResolvedVar::Unresolved(copy_string(var_name))
        },
        Some(f) => {
            let candidates = &reverse_index[f].1;
            assert(lookup(rv, var_name@) == Some(keys_view(candidates@)));
            assert(keys_view(candidates@) == cands);
            let mut best: u8 = 0;
            let mut k: usize = 0;
            while k < candidates.len()
                invariant
                    cands == keys_view(candidates@),
                    k <= candidates@.len(),
                    best == best_priority(cands, k as nat),
                decreases candidates@.len() - k,
            {
                assert(cands[k as int] == key_view(candidates@[k as int]));
                let p = resolution_priority(&candidates[k].0);
                if p > best {
                    best = p;
                }
                k = k + 1;
            }
            let ghost b = best_priority(cands, cands.len());
            let mut signals: Vec<usize> = Vec::new();
            let mut k: usize = 0;
            assert(signals@.to_set() =~= tied_ids(cands, 0, b, slots, input_signals@, instance_prefix@, names));
            while k < candidates.len()
                invariant
                    cands == keys_view(candidates@),
                    slots == slots_view(arg_positions@),
                    names == signal_pairs(name_to_signal@),
                    best == b,
                    k <= candidates@.len(),
                    increasing(signals@),
                    signals@.to_set() == tied_ids(cands, k as nat, b, slots, input_signals@, instance_prefix@, names),
                decreases candidates@.len() - k,
            {
                let local_key = &candidates[k];
                assert(cands[k as int] == key_view(*local_key));
                if best > 0 && resolution_priority(&local_key.0) == best {
                    match resolve_local_key(local_key, arg_positions, input_signals, instance_prefix, name_to_signal) {
                        Some(id) => {
                            insert_sorted(&mut signals, id);
                        },
                        None => {},
                    }
                }
                k = k + 1;
            }
            if signals.len() == 0 {
                assert(signals@.to_set() =~= nothing);
                ResolvedVar::Unresolved(copy_string(var_name))
            } else {
                proof {
                    let s = tied_ids(cands, cands.len(), b, slots, input_signals@, instance_prefix@, names);
                    assert(signals@.to_set().contains(signals@[0]));
                    assert(s != nothing);
                    assert(increasing(signals@) && signals@.to_set() == s);
                    let c = sorted_ids(s);
                    lemma_increasing_unique(c, signals@);
                }
                ResolvedVar::Signal(signals)
            }
        },
    }
}


// ---------------------------------------------------------------------------
// Copies and comparisons of resolved variables.
// ---------------------------------------------------------------------------

pub(crate) fn copy_ids(v: &Vec<usize>) -> (r: Vec<usize>)
    ensures
        r@ == v@,
{
    let mut r: Vec<usize> = Vec::new();
    let mut i: usize = 0;
    while i < v.len()
        invariant
            i <= v@.len(),
            r@ == v@.take(i as int),
        decreases v@.len() - i,
    {
        r.push(v[i]);
        assert(v@.take(i + 1) =~= v@.take(i as int).push(v@[i as int]));
        i = i + 1;
    }
    assert(v@.take(v@.len() as int) =~= v@);
    r
}

pub(crate) fn copy_rvar(v: &ResolvedVar) -> (r: ResolvedVar)
    ensures
        rview(r) == rview(*v),
{
    match v {
        ResolvedVar::Signal(ids) => ResolvedVar::Signal(copy_ids(ids)),
        ResolvedVar::Unresolved(name) => ResolvedVar::Unresolved(copy_string(name)),
    }
}

fn rvar_eq(a: &ResolvedVar, b: &ResolvedVar) -> (r: bool)
    ensures
        r == (rview(*a) == rview(*b)),
{
    match (a, b) {
        (ResolvedVar::Signal(x), ResolvedVar::Signal(y)) => indices_eq(x, y),
        (ResolvedVar::Unresolved(x), ResolvedVar::Unresolved(y)) => string_eq(x, y),
        _ => false,
    }
}

fn contains_rvar(v: &Vec<ResolvedVar>, x: &ResolvedVar) -> (r: bool)
    ensures
        r == rviews(v@).contains(rview(*x)),
{
    let ghost vv = rviews(v@);
    let mut i: usize = 0;
    while i < v.len()
        invariant
            vv == rviews(v@),
            i <= vv.len(),
            forall|k: int| 0 <= k < i ==> vv[k] != rview(*x),
        decreases vv.len() - i,
    {
        if rvar_eq(&v[i], x) {
            assert(vv[i as int] == rview(*x));
            return true;
        }
        i = i + 1;
    }
    false
}

fn push_unique_rvar(v: &mut Vec<ResolvedVar>, x: &ResolvedVar)
    ensures
        rviews(final(v)@) == add_unique(rviews(old(v)@), rview(*x)),
{
    if !contains_rvar(v, x) {
        let ghost before = v@;
        v.push(copy_rvar(x));
        assert(rviews(v@) =~= rviews(before).push(rview(*x)));
    }
}

pub(crate) fn push_all_unique_rvars(v: &mut Vec<ResolvedVar>, xs: &Vec<ResolvedVar>)
    ensures
        rviews(final(v)@) == add_all_unique(rviews(old(v)@), rviews(xs@)),
{
    let ghost o = rviews(v@);
    let ghost xv = rviews(xs@);
    let mut i: usize = 0;
    assert(xv.take(0) =~= Seq::<RVar>::empty());
    while i < xs.len()
        invariant
            xv == rviews(xs@),
            i <= xv.len(),
            rviews(v@) == add_all_unique(o, xv.take(i as int)),
        decreases xv.len() - i,
    {
        push_unique_rvar(v, &xs[i]);
        assert(xv.take(i + 1).drop_last() =~= xv.take(i as int));
        assert(xv[i as int] == rview(xs@[i as int]));
        i = i + 1;
    }
    assert(xv.take(xv.len() as int) =~= xv);
}

// ---------------------------------------------------------------------------
// Resolved tags.
// ---------------------------------------------------------------------------

/// A tag of the tree with its variables resolved.
#[derive(Debug, PartialEq, Eq)]
pub struct ResolvedTagNode {
    pub tag: String,
    pub own: Vec<ResolvedVar>,
    pub children: Vec<ResolvedTagNode>,
    /// The tag's formula, unchanged: still in the macro's own variables.
    pub formula: String,
}

/// The value of a [`ResolvedTagNode`].
#[verifier::ext_equal]
pub struct RTag {
    pub tag: Seq<char>,
    pub own: Seq<RVar>,
    pub children: Seq<RTag>,
    pub formula: Seq<char>,
}

pub open spec fn rtview(n: ResolvedTagNode) -> RTag
    decreases n,
{
    RTag { tag: n.tag@, own: rviews(n.own@), children: rtviews(n.children@), formula: n.formula@ }
}

pub open spec fn rtviews(s: Seq<ResolvedTagNode>) -> Seq<RTag>
    decreases s,
{
    if s.len() == 0 {
        Seq::empty()
    } else {
        rtviews(s.drop_last()).push(rtview(s.last()))
    }
}

pub proof fn lemma_rtviews(s: Seq<ResolvedTagNode>)
    ensures
        rtviews(s).len() == s.len(),
        forall|k: int| 0 <= k < s.len() ==> #[trigger] rtviews(s)[k] == rtview(s[k]),
    decreases s.len(),
{
    if s.len() > 0 {
        lemma_rtviews(s.drop_last());
    }
}

pub proof fn lemma_rtviews_push(s: Seq<ResolvedTagNode>, e: ResolvedTagNode)
    ensures
        rtviews(s.push(e)) == rtviews(s).push(rtview(e)),
{
    assert(s.push(e).drop_last() =~= s);
}

/// A tag tree with every variable resolved (see [`resolved_var`]).
pub open spec fn resolved_tag(
    t: Tag,
    vi: Seq<(Seq<char>, Binding)>,
    inputs: Seq<usize>,
    prefix: Seq<char>,
    names: Seq<(Seq<char>, usize)>,
) -> RTag
    decreases t, 0nat,
{
    RTag {
        tag: t.tag,
        own: resolved_vars(t.own, vi, inputs, prefix, names),
        children: resolved_tags(t.children, vi, inputs, prefix, names, t.children.len()),
        formula: t.formula,
    }
}

/// The first `k` trees, resolved.
pub open spec fn resolved_tags(
    s: Seq<Tag>,
    vi: Seq<(Seq<char>, Binding)>,
    inputs: Seq<usize>,
    prefix: Seq<char>,
    names: Seq<(Seq<char>, usize)>,
    k: nat,
) -> Seq<RTag>
    decreases s, k,
{
    if k == 0 || k > s.len() {
        Seq::empty()
    } else {
        resolved_tags(s, vi, inputs, prefix, names, (k - 1) as nat).push(
            resolved_tag(s[k - 1], vi, inputs, prefix, names),
        )
    }
}

/// Every variable of `vars`, resolved.
pub open spec fn resolved_vars(
    vars: Seq<Seq<char>>,
    vi: Seq<(Seq<char>, Binding)>,
    inputs: Seq<usize>,
    prefix: Seq<char>,
    names: Seq<(Seq<char>, usize)>,
) -> Seq<RVar> {
    vars.map_values(|v: Seq<char>| resolved_var(v, vi, inputs, prefix, names))
}

fn resolve_vars(
    vars: &Vec<String>,
    reverse_index: &Vec<(String, Vec<LocalKey>)>,
    arg_positions: &Vec<(LocalKey, usize)>,
    input_signals: &[usize],
    instance_prefix: &str,
    name_to_signal: &Vec<(String, usize)>,
    Ghost(vi): Ghost<Seq<(Seq<char>, Binding)>>,
) -> (r: Vec<ResolvedVar>)
    requires
        indexes(rev_view(reverse_index@), |var: Seq<char>| all_candidates(vi, var)),
        slots_view(arg_positions@) == arg_slots(vi, 0, 0),
    ensures
        rviews(r@) == resolved_vars(strs(vars@), vi, input_signals@, instance_prefix@, signal_pairs(name_to_signal@)),
{
    let ghost target = resolved_vars(strs(vars@), vi, input_signals@, instance_prefix@, signal_pairs(name_to_signal@));
    let mut out: Vec<ResolvedVar> = Vec::new();
    let mut i: usize = 0;
    while i < vars.len()
        invariant
            indexes(rev_view(reverse_index@), |var: Seq<char>| all_candidates(vi, var)),
            slots_view(arg_positions@) == arg_slots(vi, 0, 0),
            target == resolved_vars(strs(vars@), vi, input_signals@, instance_prefix@, signal_pairs(name_to_signal@)),
            i <= vars@.len(),
            rviews(out@) == target.take(i as int),
        decreases vars@.len() - i,
    {
        let v = resolve_var(&vars[i], reverse_index, arg_positions, input_signals, instance_prefix, name_to_signal, Ghost(vi));
        let ghost before = out@;
        out.push(v);
        assert(rviews(out@) =~= rviews(before).push(rview(v)));
        assert(target.take(i + 1) =~= target.take(i as int).push(target[i as int]));
        i = i + 1;
    }
    assert(target.take(vars@.len() as int) =~= target);
    out
}

fn resolve_node(
    node: &TagNode,
    reverse_index: &Vec<(String, Vec<LocalKey>)>,
    arg_positions: &Vec<(LocalKey, usize)>,
    input_signals: &[usize],
    instance_prefix: &str,
    name_to_signal: &Vec<(String, usize)>,
    Ghost(vi): Ghost<Seq<(Seq<char>, Binding)>>,
) -> (r: ResolvedTagNode)
    requires
        indexes(rev_view(reverse_index@), |var: Seq<char>| all_candidates(vi, var)),
        slots_view(arg_positions@) == arg_slots(vi, 0, 0),
    ensures
        rtview(r) == resolved_tag(tview(*node), vi, input_signals@, instance_prefix@, signal_pairs(name_to_signal@)),
    decreases node,
{
    let ghost names = signal_pairs(name_to_signal@);
    let ghost kids = tviews(node.children@);
    proof {
        lemma_tviews(node.children@);
    }
    let own = resolve_vars(&node.own, reverse_index, arg_positions, input_signals, instance_prefix, name_to_signal, Ghost(vi));
    let mut children: Vec<ResolvedTagNode> = Vec::new();
    let mut i: usize = 0;
    while i < node.children.len()
        invariant
            indexes(rev_view(reverse_index@), |var: Seq<char>| all_candidates(vi, var)),
            slots_view(arg_positions@) == arg_slots(vi, 0, 0),
            names == signal_pairs(name_to_signal@),
            kids == tviews(node.children@),
            kids.len() == node.children@.len(),
            forall|k: int| 0 <= k < node.children@.len() ==> #[trigger] kids[k] == tview(node.children@[k]),
            i <= node.children@.len(),
            rtviews(children@) == resolved_tags(kids, vi, input_signals@, instance_prefix@, names, i as nat),
        decreases node.children@.len() - i,
    {
        proof {
            assert(decreases_to!(*node => node.children));
            assert(decreases_to!(node.children => node.children[i as int]));
        }
        let c = resolve_node(&node.children[i], reverse_index, arg_positions, input_signals, instance_prefix, name_to_signal, Ghost(vi));
        proof {
            lemma_rtviews_push(children@, c);
        }
        children.push(c);
        i = i + 1;
    }
    let r = ResolvedTagNode {
        tag: copy_string(&node.tag),
        own,
        children,
        formula: copy_string(&node.formula),
    };
    assert(rtview(r) =~= resolved_tag(tview(*node), vi, input_signals@, instance_prefix@, names));
    r
}

// ---------------------------------------------------------------------------
// Order of names.
// ---------------------------------------------------------------------------

/// Lexicographic order of names by character (the order of `String`).
pub open spec fn str_lt(a: Seq<char>, b: Seq<char>) -> bool
    decreases a.len(),
{
    if a.len() == 0 {
        b.len() > 0
    } else if b.len() == 0 {
        false
    } else if a[0] != b[0] {
        a[0] < b[0]
    } else {
        str_lt(a.drop_first(), b.drop_first())
    }
}

pub proof fn lemma_str_lt_irreflexive(a: Seq<char>)
    ensures
        !str_lt(a, a),
    decreases a.len(),
{
    if a.len() > 0 {
        lemma_str_lt_irreflexive(a.drop_first());
    }
}

pub proof fn lemma_str_lt_transitive(a: Seq<char>, b: Seq<char>, c: Seq<char>)
    requires
        str_lt(a, b),
        str_lt(b, c),
    ensures
        str_lt(a, c),
    decreases a.len(),
{
    if a.len() > 0 && b.len() > 0 && c.len() > 0 && a[0] == b[0] && b[0] == c[0] {
        lemma_str_lt_transitive(a.drop_first(), b.drop_first(), c.drop_first());
    }
}

pub proof fn lemma_str_lt_total(a: Seq<char>, b: Seq<char>)
    requires
        a != b,
    ensures
        str_lt(a, b) || str_lt(b, a),
    decreases a.len(),
{
    if a.len() > 0 && b.len() > 0 && a[0] == b[0] {
        if a.drop_first() == b.drop_first() {
            assert(a =~= seq![a[0]] + a.drop_first());
            assert(b =~= seq![b[0]] + b.drop_first());
        }
        lemma_str_lt_total(a.drop_first(), b.drop_first());
    } else if a.len() == 0 && b.len() == 0 {
        assert(a =~= b);
    }
}

fn name_lt(a: &String, b: &String) -> (r: bool)
    ensures
        r == str_lt(a@, b@),
{
    let x = chars_of(a.as_str());
    let y = chars_of(b.as_str());
    let mut i: usize = 0;
    assert(x@.skip(0) =~= x@);
    assert(y@.skip(0) =~= y@);
    while i < x.len() && i < y.len() && x[i] == y[i]
        invariant
            i <= x@.len(),
            i <= y@.len(),
            str_lt(x@.skip(i as int), y@.skip(i as int)) == str_lt(x@, y@),
        decreases x@.len() - i,
    {
        assert(x@.skip(i as int).drop_first() =~= x@.skip(i + 1));
        assert(y@.skip(i as int).drop_first() =~= y@.skip(i + 1));
        i = i + 1;
    }
    if i < x.len() && i < y.len() {
        assert(x@.skip(i as int)[0] == x@[i as int]);
        assert(y@.skip(i as int)[0] == y@[i as int]);
        x[i] < y[i]
    } else {
        i == x.len() && i < y.len()
    }
}

/// The parameter bindings as values.
pub open spec fn binding_views(v: Seq<(String, ResolvedVar)>) -> Seq<(Seq<char>, RVar)> {
    v.map_values(|p: (String, ResolvedVar)| (p.0@, rview(p.1)))
}

/// Keys in strictly increasing order (so each occurs once), as in a sorted map.
pub open spec fn keys_increasing(v: Seq<(Seq<char>, RVar)>) -> bool {
    forall|i: int, j: int| 0 <= i < j < v.len() ==> str_lt(v[i].0, v[j].0)
}

pub open spec fn has_key(v: Seq<(Seq<char>, RVar)>, k: Seq<char>) -> bool {
    exists|i: int| 0 <= i < v.len() && v[i].0 == k
}

/// Adds `(key, value)` at its place in the key order, unless `key` is
/// already there.
fn insert_binding(bs: &mut Vec<(String, ResolvedVar)>, key: String, value: ResolvedVar)
    requires
        keys_increasing(binding_views(old(bs)@)),
    ensures
        keys_increasing(binding_views(final(bs)@)),
        forall|e: (Seq<char>, RVar)| binding_views(final(bs)@).contains(e) <==> (binding_views(old(bs)@).contains(e)
            || (e == (key@, rview(value)) && !has_key(binding_views(old(bs)@), key@))),
{
    let ghost o = binding_views(bs@);
    let ghost e0 = (key@, rview(value));
    let mut p: usize = 0;
    while p < bs.len() && name_lt(&bs[p].0, &key)
        invariant
            o == binding_views(bs@),
            p <= o.len(),
            forall|k: int| 0 <= k < p ==> str_lt(o[k].0, key@),
        decreases o.len() - p,
    {
        assert(o[p as int].0 == bs@[p as int].0@);
        p = p + 1;
    }
    if p < bs.len() && string_eq(&bs[p].0, &key) {
        assert(o[p as int].0 == key@);
        assert(has_key(o, key@));
        return;
    }
    proof {
        if p < o.len() {
            assert(o[p as int].0 == bs@[p as int].0@);
            lemma_str_lt_total(o[p as int].0, key@);
        }
        assert forall|k: int| 0 <= k < o.len() implies o[k].0 != key@ by {
            if k < p {
                lemma_str_lt_irreflexive(key@);
            } else if k > p {
                assert(str_lt(o[p as int].0, o[k].0));
                if o[k].0 == key@ {
                    lemma_str_lt_transitive(key@, o[p as int].0, key@);
                    lemma_str_lt_irreflexive(key@);
                }
            }
        }
    }
    bs.insert(p, (key, value));
    let ghost n = binding_views(bs@);
    assert(n =~= o.insert(p as int, e0));
    assert forall|i: int, j: int| 0 <= i < j < n.len() implies str_lt(n[i].0, n[j].0) by {
        if j < p {
        } else if j == p {
        } else if i < p {
            assert(n[j] == o[j - 1]);
            if j - 1 > p {
                lemma_str_lt_transitive(n[i].0, key@, o[p as int].0);
                lemma_str_lt_transitive(n[i].0, o[p as int].0, o[j - 1].0);
            } else {
                lemma_str_lt_transitive(n[i].0, key@, o[p as int].0);
            }
        } else if i == p {
            assert(n[j] == o[j - 1]);
            if j - 1 > p {
                lemma_str_lt_transitive(key@, o[p as int].0, o[j - 1].0);
            }
        } else {
            assert(n[i] == o[i - 1]);
            assert(n[j] == o[j - 1]);
        }
    }
    assert forall|e: (Seq<char>, RVar)| n.contains(e) <==> (o.contains(e) || (e == e0 && !has_key(o, key@))) by {
        if n.contains(e) {
            let k = choose|k: int| 0 <= k < n.len() && n[k] == e;
            if k < p {
                assert(o[k] == e);
            } else if k > p {
                assert(o[k - 1] == e);
            }
        }
        if o.contains(e) {
            let k = choose|k: int| 0 <= k < o.len() && o[k] == e;
            if k < p {
                assert(n[k] == e);
            } else {
                assert(n[k + 1] == e);
            }
        }
        if e == e0 {
            assert(n[p as int] == e0);
        }
    }
}

// ---------------------------------------------------------------------------
// Resolving a macro.
// ---------------------------------------------------------------------------

/// A macro entry with its variables resolved for one instance of the macro.
#[derive(Debug, PartialEq, Eq)]
pub struct ResolvedMacroEntry {
    pub name: String,
    /// Dotted path of the instance (`"main"`, `"main.sub3"`).
    pub instance_prefix: String,
    pub level0: Vec<ResolvedVar>,
    pub tree: Vec<ResolvedTagNode>,
    /// Every formal parameter, resolved, keyed by its SMT name in increasing
    /// order of name.
    pub bindings: Vec<(String, ResolvedVar)>,
}

/// `r` is `entry` resolved as the instance at `prefix` whose input signals
/// are `inputs`, against the definition `def` and the signal names `names`:
/// its level-0 variables and tag tree resolved variable by variable, and its
/// formal parameters resolved, in increasing order of name.
pub open spec fn entry_resolution(
    r: ResolvedMacroEntry,
    entry: MacroEntry,
    def: MacroDef,
    prefix: Seq<char>,
    inputs: Seq<usize>,
    names: Seq<(Seq<char>, usize)>,
) -> bool {
    &&& r.name@ == entry.name@
    &&& r.instance_prefix@ == prefix
    &&& rviews(r.level0@) == resolved_vars(strs(entry.level0@), vars_view(def.vars_info@), inputs, prefix, names)
    &&& rtviews(r.tree@) == resolved_tags(tviews(entry.tree@), vars_view(def.vars_info@), inputs, prefix, names, entry.tree@.len())
    &&& keys_increasing(binding_views(r.bindings@))
    &&& forall|e: (Seq<char>, RVar)| #[trigger] binding_views(r.bindings@).contains(e) <==> (
        param_names(def.params@).contains(e.0) && e.1 == resolved_var(e.0, vars_view(def.vars_info@), inputs, prefix, names))
}

/// Resolves an analysed macro for the instance at `instance_prefix` whose
/// inputs are `input_signals`: every variable of `level0` and of the tree,
/// and every formal parameter (see [`resolved_var`]).
pub fn resolve_macro_entry(
    entry: &MacroEntry,
    macro_def: &MacroDef,
    instance_prefix: &str,
    input_signals: &[usize],
    name_to_signal: &Vec<(String, usize)>,
) -> (r: ResolvedMacroEntry)
    ensures
        entry_resolution(r, *entry, *macro_def, instance_prefix@, input_signals@, signal_pairs(name_to_signal@)),
{
    let ghost vi = vars_view(macro_def.vars_info@);
    let ghost names = signal_pairs(name_to_signal@);
    let ghost pn = param_names(macro_def.params@);
    let reverse_index = build_reverse_index(&macro_def.vars_info);
    let arg_positions = build_arg_positions(&macro_def.vars_info);
    let mut bindings: Vec<(String, ResolvedVar)> = Vec::new();
    let mut i: usize = 0;
    while i < macro_def.params.len()
        invariant
            indexes(rev_view(reverse_index@), |var: Seq<char>| all_candidates(vi, var)),
            slots_view(arg_positions@) == arg_slots(vi, 0, 0),
            vi == vars_view(macro_def.vars_info@),
            names == signal_pairs(name_to_signal@),
            pn == param_names(macro_def.params@),
            i <= pn.len(),
            keys_increasing(binding_views(bindings@)),
            forall|e: (Seq<char>, RVar)| #[trigger] binding_views(bindings@).contains(e) <==> (
                pn.take(i as int).contains(e.0) && e.1 == resolved_var(e.0, vi, input_signals@, instance_prefix@, names)),
        decreases pn.len() - i,
    {
        let name = &macro_def.params[i].name;
        let v = resolve_var(name, &reverse_index, &arg_positions, input_signals, instance_prefix, name_to_signal, Ghost(vi));
        let ghost before = binding_views(bindings@);
        let ghost e0 = (name@, rview(v));
        insert_binding(&mut bindings, copy_string(name), v);
        proof {
            let pi = pn.take(i as int);
            let pi1 = pn.take(i + 1);
            assert(pn[i as int] == name@);
            assert(pi1 =~= pi.push(name@));
            assert forall|e: (Seq<char>, RVar)| #[trigger] binding_views(bindings@).contains(e) <==> (
                pi1.contains(e.0) && e.1 == resolved_var(e.0, vi, input_signals@, instance_prefix@, names)) by {
                if pi1.contains(e.0) && !pi.contains(e.0) {
                    let k = choose|k: int| 0 <= k < pi1.len() && pi1[k] == e.0;
                    if k < i {
                        assert(pi[k] == e.0);
                    }
                }
                if pi.contains(e.0) {
                    let k = choose|k: int| 0 <= k < pi.len() && pi[k] == e.0;
                    assert(pi1[k] == e.0);
                }
                if e.0 == name@ {
                    assert(pi1[i as int] == e.0);
                }
                if e.0 == name@ && e.1 == resolved_var(e.0, vi, input_signals@, instance_prefix@, names) {
                    if !before.contains(e) && has_key(before, name@) {
                        let k = choose|k: int| 0 <= k < before.len() && before[k].0 == name@;
                        assert(before.contains(before[k]));
                        assert(before[k] == e);
                    }
                }
            }
        }
        i = i + 1;
    }
    assert(pn.take(pn.len() as int) =~= pn);
    let level0 = resolve_vars(&entry.level0, &reverse_index, &arg_positions, input_signals, instance_prefix, name_to_signal, Ghost(vi));
    let ghost kids = tviews(entry.tree@);
    proof {
        lemma_tviews(entry.tree@);
    }
    let mut tree: Vec<ResolvedTagNode> = Vec::new();
    let mut t: usize = 0;
    while t < entry.tree.len()
        invariant
            indexes(rev_view(reverse_index@), |var: Seq<char>| all_candidates(vi, var)),
            slots_view(arg_positions@) == arg_slots(vi, 0, 0),
            names == signal_pairs(name_to_signal@),
            kids == tviews(entry.tree@),
            kids.len() == entry.tree@.len(),
            forall|k: int| 0 <= k < entry.tree@.len() ==> #[trigger] kids[k] == tview(entry.tree@[k]),
            t <= entry.tree@.len(),
            rtviews(tree@) == resolved_tags(kids, vi, input_signals@, instance_prefix@, names, t as nat),
        decreases entry.tree@.len() - t,
    {
        let n = resolve_node(&entry.tree[t], &reverse_index, &arg_positions, input_signals, instance_prefix, name_to_signal, Ghost(vi));
        proof {
            lemma_rtviews_push(tree@, n);
        }
        tree.push(n);
        t = t + 1;
    }
    ResolvedMacroEntry {
        name: copy_string(&entry.name),
        instance_prefix: string_from(instance_prefix),
        level0,
        tree,
        bindings,
    }
}


// ---------------------------------------------------------------------------
// Flat view of resolved tags.
// ---------------------------------------------------------------------------

/// Every variable of a resolved tag and of its nested tags, each once, in
/// the order first met.
pub open spec fn ragg(n: RTag) -> Seq<RVar>
    decreases n, 0nat,
{
    ragg_children(n.children, n.children.len(), add_all_unique(Seq::empty(), n.own))
}

/// `acc` extended with the aggregated variables of the first `k` trees.
pub open spec fn ragg_children(kids: Seq<RTag>, k: nat, acc: Seq<RVar>) -> Seq<RVar>
    decreases kids, k,
{
    if k == 0 || k > kids.len() {
        acc
    } else {
        add_all_unique(ragg_children(kids, (k - 1) as nat, acc), ragg(kids[k - 1]))
    }
}

/// All of a resolved node's variables, aggregating its children (see [`ragg`]).
pub fn aggregate_resolved(node: &ResolvedTagNode) -> (r: Vec<ResolvedVar>)
    ensures
        rviews(r@) == ragg(rtview(*node)),
    decreases node,
{
    let mut out: Vec<ResolvedVar> = Vec::new();
    push_all_unique_rvars(&mut out, &node.own);
    assert(rviews(Seq::<ResolvedVar>::empty()) =~= Seq::<RVar>::empty());
    let ghost kids = rtviews(node.children@);
    proof {
        lemma_rtviews(node.children@);
    }
    let mut i: usize = 0;
    while i < node.children.len()
        invariant
            kids == rtviews(node.children@),
            kids.len() == node.children@.len(),
            forall|k: int| 0 <= k < node.children@.len() ==> #[trigger] kids[k] == rtview(node.children@[k]),
            i <= node.children@.len(),
            rviews(out@) == ragg_children(kids, i as nat, add_all_unique(Seq::empty(), rviews(node.own@))),
        decreases node.children@.len() - i,
    {
        proof {
            assert(decreases_to!(*node => node.children));
            assert(decreases_to!(node.children => node.children[i as int]));
        }
        let sub = aggregate_resolved(&node.children[i]);
        push_all_unique_rvars(&mut out, &sub);
        i = i + 1;
    }
    out
}

/// The id lists of the tied variables of `items` (those standing for more
/// than one signal), in order, repeats included.
pub open spec fn tied_lists(items: Seq<RVar>) -> Seq<Seq<usize>>
    decreases items.len(),
{
    if items.len() == 0 {
        Seq::empty()
    } else {
        tied_lists(items.drop_last()) + match items.last() {
            RVar::Signal(ids) => if ids.len() > 1 {
                seq![ids]
            } else {
                Seq::empty()
            },
            RVar::Unresolved(_) => Seq::empty(),
        }
    }
}

/// Every distinct group of tied ids among `items`, in first-seen order.
pub open spec fn groups_of(items: Seq<RVar>) -> Seq<Seq<usize>> {
    add_all_unique(Seq::empty(), tied_lists(items))
}

pub open spec fn id_lists(v: Seq<Vec<usize>>) -> Seq<Seq<usize>> {
    v.map_values(|g: Vec<usize>| g@)
}

fn contains_ids(v: &Vec<Vec<usize>>, x: &Vec<usize>) -> (r: bool)
    ensures
        r == id_lists(v@).contains(x@),
{
    let ghost vv = id_lists(v@);
    let mut i: usize = 0;
    while i < v.len()
        invariant
            vv == id_lists(v@),
            i <= vv.len(),
            forall|k: int| 0 <= k < i ==> vv[k] != x@,
        decreases vv.len() - i,
    {
        if indices_eq(&v[i], x) {
            assert(vv[i as int] == x@);
            return true;
        }
        i = i + 1;
    }
    false
}

/// Every distinct group of tied ids (two or more ids for one variable)
/// among `items`, in first-seen order (see [`groups_of`]).
pub fn equality_groups(items: &[ResolvedVar]) -> (r: Vec<Vec<usize>>)
    ensures
        id_lists(r@) == groups_of(rviews(items@)),
{
    let ghost iv = rviews(items@);
    let mut groups: Vec<Vec<usize>> = Vec::new();
    let mut i: usize = 0;
    assert(iv.take(0) =~= Seq::<RVar>::empty());
    assert(id_lists(groups@) =~= add_all_unique(Seq::<Seq<usize>>::empty(), tied_lists(iv.take(0))));
    while i < items.len()
        invariant
            iv == rviews(items@),
            i <= iv.len(),
            id_lists(groups@) == add_all_unique(Seq::<Seq<usize>>::empty(), tied_lists(iv.take(i as int))),
        decreases iv.len() - i,
    {
        let ghost t0 = tied_lists(iv.take(i as int));
        assert(iv.take(i + 1).drop_last() =~= iv.take(i as int));
        assert(iv.take(i + 1).last() == rview(items@[i as int]));
        match &items[i] {
            ResolvedVar::Signal(ids) => {
                if ids.len() > 1 {
                    assert(tied_lists(iv.take(i + 1)) =~= t0.push(ids@));
                    proof {
                        assert(t0.push(ids@).drop_last() =~= t0);
                    }
                    if !contains_ids(&groups, ids) {
                        let ghost before = groups@;
                        groups.push(copy_ids(ids));
                        assert(id_lists(groups@) =~= id_lists(before).push(ids@));
                    }
                } else {
                    assert(tied_lists(iv.take(i + 1)) =~= t0);
                }
            },
            ResolvedVar::Unresolved(_) => {
                assert(tied_lists(iv.take(i + 1)) =~= t0);
            },
        }
        i = i + 1;
    }
    assert(iv.take(iv.len() as int) =~= iv);
    groups
}

/// The groups of [`equality_groups`] are distinct, and each holds more than
/// one id.
pub proof fn law_equality_groups_distinct(items: Seq<RVar>)
    ensures
        no_dups(groups_of(items)),
        forall|g: Seq<usize>| #[trigger] groups_of(items).contains(g) ==> g.len() > 1,
{
    lemma_add_all_unique(Seq::<Seq<usize>>::empty(), tied_lists(items));
    lemma_tied_lists_long(items);
}

proof fn lemma_tied_lists_long(items: Seq<RVar>)
    ensures
        forall|g: Seq<usize>| #[trigger] tied_lists(items).contains(g) ==> g.len() > 1,
    decreases items.len(),
{
    if items.len() > 0 {
        lemma_tied_lists_long(items.drop_last());
        let a = tied_lists(items.drop_last());
        assert forall|g: Seq<usize>| #[trigger] tied_lists(items).contains(g) implies g.len() > 1 by {
            let t = tied_lists(items);
            let k = choose|k: int| 0 <= k < t.len() && t[k] == g;
            if k < a.len() {
                assert(a[k] == g);
                assert(a.contains(g));
            }
        }
    }
}

} // verus!
