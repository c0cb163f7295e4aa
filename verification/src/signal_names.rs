//! Finding the r1cs id of a local signal from the circuit's signal names
//! (`"main.sum.in[0][18]"`): by its exact name, or, for an element of an
//! array whose shape the specification does not record, by the position of
//! the element once every name under the array is sorted by its indices.
use vstd::prelude::*;
use crate::text::{chars_of, decimal, digit_value, is_ascii_digit, is_digit, push_char, push_decimal, push_str, string_from};
use crate::specification::{find_signal, lookup, signal_pairs};
use crate::component_walk::{count_before, lemma_count_before};

verus! {

// ---------------------------------------------------------------------------
// Numbers and index lists.
// ---------------------------------------------------------------------------

/// The value of a string of decimal digits.
pub open spec fn digits_value(t: Seq<char>) -> nat
    decreases t.len(),
{
    if t.len() == 0 {
        0
    } else {
        digits_value(t.drop_last()) * 10 + digit_value(t.last())
    }
}

pub open spec fn all_digits(t: Seq<char>) -> bool {
    forall|k: int| 0 <= k < t.len() ==> is_digit(t[k])
}

/// What `str::parse::<usize>` accepts: an optional `+`, then one or more
/// digits whose value fits in a `usize`.
pub open spec fn parsed_usize(t: Seq<char>) -> Option<usize> {
    let d = if t.len() > 0 && t[0] == '+' {
        t.drop_first()
    } else {
        t
    };
    if d.len() > 0 && all_digits(d) && digits_value(d) <= usize::MAX {
        Some(digits_value(d) as usize)
    } else {
        None
    }
}

proof fn lemma_digits_value_grows(t: Seq<char>, j: int)
    requires
        0 <= j <= t.len(),
    ensures
        digits_value(t.take(j)) <= digits_value(t),
    decreases t.len() - j,
{
    if j < t.len() {
        lemma_digits_value_grows(t, j + 1);
        assert(t.take(j + 1).drop_last() =~= t.take(j));
    } else {
        assert(t.take(j) =~= t);
    }
}

fn digit_val(c: char) -> (r: usize)
    requires
        is_digit(c),
    ensures
        r == digit_value(c),
{
    if c == '0' { 0 }
    else if c == '1' { 1 }
    else if c == '2' { 2 }
    else if c == '3' { 3 }
    else if c == '4' { 4 }
    else if c == '5' { 5 }
    else if c == '6' { 6 }
    else if c == '7' { 7 }
    else if c == '8' { 8 }
    else { 9 }
}

/// `str::parse::<usize>` (see [`parsed_usize`]).
pub fn parse_usize(t: &[char]) -> (r: Option<usize>)
    ensures
        r == parsed_usize(t@),
{
    let mut start: usize = 0;
    if t.len() > 0 && t[0] == '+' {
        start = 1;
    }
    let ghost d = if t@.len() > 0 && t@[0] == '+' {
        t@.drop_first()
    } else {
        t@
    };
    assert(d =~= t@.skip(start as int));
    if start >= t.len() {
        return None;
    }
    let mut acc: usize = 0;
    let mut i: usize = start;
    assert(t@.subrange(start as int, start as int) =~= Seq::<char>::empty());
    while i < t.len()
        invariant
            start <= i <= t@.len(),
            start < t@.len(),
            d == t@.skip(start as int),
            d == (if t@.len() > 0 && t@[0] == '+' {
                t@.drop_first()
            } else {
                t@
            }),
            all_digits(t@.subrange(start as int, i as int)),
            acc == digits_value(t@.subrange(start as int, i as int)),
        decreases t@.len() - i,
    {
        if !is_ascii_digit(t[i]) {
            assert(d[i - start] == t@[i as int]);
            return None;
        }
        let v = digit_val(t[i]);
        let ghost pre = t@.subrange(start as int, i + 1);
        assert(pre.drop_last() =~= t@.subrange(start as int, i as int));
        assert(pre =~= d.take(i + 1 - start));
        assert forall|k: int| 0 <= k < pre.len() implies is_digit(pre[k]) by {
            if k < pre.len() - 1 {
                assert(pre[k] == t@.subrange(start as int, i as int)[k]);
            }
        }
        match acc.checked_mul(10) {
            None => {
                proof {
                    lemma_digits_value_grows(d, i + 1 - start);
                }
                return None;
            },
            Some(m) => {
                match m.checked_add(v) {
                    None => {
                        proof {
                            lemma_digits_value_grows(d, i + 1 - start);
                        }
                        return None;
                    },
                    Some(n) => {
                        acc = n;
                    },
                }
            },
        }
        i = i + 1;
    }
    assert(t@.subrange(start as int, t@.len() as int) =~= d);
    Some(acc)
}

#[via_fn]
proof fn bracket_indices_decreases(t: Seq<char>) {
    if t.len() > 0 {
        lemma_count_before(t.drop_first(), ']');
    }
}

/// The indices of a run of `[N]` groups (`"[0][18]"` gives `[0, 18]`), each
/// `N` read as [`parsed_usize`] reads it up to the first `]`; `None` when the
/// text is anything else.
pub open spec fn bracket_indices(t: Seq<char>) -> Option<Seq<usize>>
    decreases t.len() via bracket_indices_decreases
{
    if t.len() == 0 {
        Some(Seq::empty())
    } else if t[0] != '[' {
        None
    } else {
        let rest = t.drop_first();
        let e = count_before(rest, ']') as int;
        if e >= rest.len() {
            None
        } else {
            match parsed_usize(rest.take(e)) {
                None => None,
                Some(v) => match bracket_indices(rest.skip(e + 1)) {
                    None => None,
                    Some(vs) => Some(seq![v] + vs),
                },
            }
        }
    }
}

/// At least one `[N]` group and nothing else.
pub open spec fn parsed_indices(t: Seq<char>) -> Option<Seq<usize>> {
    match bracket_indices(t) {
        Some(vs) => if vs.len() > 0 {
            Some(vs)
        } else {
            None
        },
        None => None,
    }
}

/// See [`parsed_indices`].
pub fn parse_bracket_indices(t: &[char]) -> (r: Option<Vec<usize>>)
    ensures
        match parsed_indices(t@) {
            Some(vs) => r matches Some(v) && v@ == vs,
            None => r is None,
        },
{
    let ghost s = t@;
    let mut indices: Vec<usize> = Vec::new();
    let mut p: usize = 0;
    assert(s.skip(0) =~= s);
    while p < t.len() && t[p] == '['
        invariant
            s == t@,
            p <= s.len(),
            bracket_indices(s) == match bracket_indices(s.skip(p as int)) {
                Some(vs) => Some(indices@ + vs),
                None => None::<Seq<usize>>,
            },
        decreases s.len() - p,
    {
        let ghost u = s.skip(p as int);
        let ghost rest = u.drop_first();
        proof {
            lemma_count_before(rest, ']');
        }
        let ghost e = count_before(rest, ']') as int;
        let mut q: usize = p + 1;
        while q < t.len() && t[q] != ']'
            invariant
                s == t@,
                p < q <= s.len(),
                u == s.skip(p as int),
                rest == u.drop_first(),
                forall|k: int| p + 1 <= k < q ==> s[k] != ']',
            decreases s.len() - q,
        {
            q = q + 1;
        }
        assert(e == q - p - 1) by {
            if e < q - p - 1 {
                assert(rest[e] == s[p + 1 + e]);
            }
            if e > q - p - 1 {
                assert(rest[q - p - 1] == s[q as int]);
            }
        }
        if q >= t.len() {
            assert(bracket_indices(u) is None);
            return None;
        }
        assert(rest.take(e) =~= s.subrange(p + 1, q as int));
        let v = parse_usize(&t[p + 1..q]);
        match v {
            None => {
                assert(bracket_indices(u) is None);
                return None;
            },
            Some(n) => {
                assert(rest.skip(e + 1) =~= s.skip(q + 1));
                let ghost before = indices@;
                indices.push(n);
                proof {
                    match bracket_indices(s.skip(q + 1)) {
                        Some(vs) => {
                            assert(bracket_indices(u) == Some(seq![n] + vs));
                            assert(before + (seq![n] + vs) =~= indices@ + vs);
                        },
                        None => {},
                    }
                }
                p = q + 1;
            },
        }
    }
    if p == t.len() && indices.len() > 0 {
        assert(s.skip(p as int) =~= Seq::<char>::empty());
        assert(indices@ + Seq::<usize>::empty() =~= indices@);
        Some(indices)
    } else {
        proof {
            if p == s.len() {
                assert(s.skip(p as int) =~= Seq::<char>::empty());
                assert(indices@ + Seq::<usize>::empty() =~= indices@);
            } else {
                assert(s.skip(p as int)[0] == s[p as int]);
            }
        }
        None
    }
}

// ---------------------------------------------------------------------------
// Order of index lists.
// ---------------------------------------------------------------------------

/// Lexicographic order of index lists, a proper prefix first (the order of
/// `Vec<usize>`).
pub open spec fn seq_lt(a: Seq<usize>, b: Seq<usize>) -> bool
    decreases a.len(),
{
    if a.len() == 0 {
        b.len() > 0
    } else if b.len() == 0 {
        false
    } else if a[0] != b[0] {
        a[0] < b[0]
    } else {
        seq_lt(a.drop_first(), b.drop_first())
    }
}

/// See [`seq_lt`].
pub fn indices_lt(a: &Vec<usize>, b: &Vec<usize>) -> (r: bool)
    ensures
        r == seq_lt(a@, b@),
{
    let mut i: usize = 0;
    assert(a@.skip(0) =~= a@);
    assert(b@.skip(0) =~= b@);
    while i < a.len() && i < b.len() && a[i] == b[i]
        invariant
            i <= a@.len(),
            i <= b@.len(),
            seq_lt(a@.skip(i as int), b@.skip(i as int)) == seq_lt(a@, b@),
        decreases a@.len() - i,
    {
        assert(a@.skip(i as int).drop_first() =~= a@.skip(i + 1));
        assert(b@.skip(i as int).drop_first() =~= b@.skip(i + 1));
        i = i + 1;
    }
    if i < a.len() && i < b.len() {
        assert(a@.skip(i as int)[0] == a@[i as int]);
        assert(b@.skip(i as int)[0] == b@[i as int]);
        a[i] < b[i]
    } else {
        i == a.len() && i < b.len()
    }
}

/// Equality of index lists.
pub fn indices_eq(a: &Vec<usize>, b: &Vec<usize>) -> (r: bool)
    ensures
        r == (a@ == b@),
{
    if a.len() != b.len() {
        return false;
    }
    let mut i: usize = 0;
    while i < a.len()
        invariant
            a@.len() == b@.len(),
            i <= a@.len(),
            forall|k: int| 0 <= k < i ==> a@[k] == b@[k],
        decreases a@.len() - i,
    {
        if a[i] != b[i] {
            return false;
        }
        i = i + 1;
    }
    assert(a@ =~= b@);
    true
}

// ---------------------------------------------------------------------------
// Looking a signal up.
// ---------------------------------------------------------------------------

/// `prefix.name`.
pub open spec fn dotted(prefix: Seq<char>, name: Seq<char>) -> Seq<char> {
    prefix + seq!['.'] + name
}

/// `prefix.name[i]`.
pub open spec fn element_name(prefix: Seq<char>, name: Seq<char>, i: nat) -> Seq<char> {
    dotted(prefix, name) + seq!['['] + decimal(i) + seq![']']
}

pub open spec fn starts_with(s: Seq<char>, p: Seq<char>) -> bool {
    p.len() <= s.len() && s.take(p.len() as int) == p
}

/// The index list and id of a signal named `base` followed by index
/// groups only, if `key` is one.
pub open spec fn element_entry(key: Seq<char>, id: usize, base: Seq<char>) -> Option<(Seq<usize>, usize)> {
    if starts_with(key, base.push('[')) {
        match parsed_indices(key.skip(base.len() as int)) {
            Some(ix) => Some((ix, id)),
            None => None,
        }
    } else {
        None
    }
}

/// Every signal named `base` followed by index groups, in the order listed.
pub open spec fn element_matches(names: Seq<(Seq<char>, usize)>, base: Seq<char>) -> Seq<(Seq<usize>, usize)>
    decreases names.len(),
{
    if names.len() == 0 {
        Seq::empty()
    } else {
        element_matches(names.drop_last(), base) + match element_entry(
            names.last().0,
            names.last().1,
            base,
        ) {
            Some(e) => seq![e],
            None => Seq::empty(),
        }
    }
}

/// Among the first `k` matches, how many come before match `j` once the
/// matches are sorted stably by index list.
pub open spec fn rank_below(ms: Seq<(Seq<usize>, usize)>, j: int, k: nat) -> nat
    decreases k,
{
    if k == 0 || k > ms.len() {
        0
    } else {
        rank_below(ms, j, (k - 1) as nat) + if seq_lt(ms[k - 1].0, ms[j].0) || (ms[k - 1].0
            == ms[j].0 && k - 1 < j) {
            1nat
        } else {
            0nat
        }
    }
}

/// Position of match `j` in the stable sort of the matches by index list.
pub open spec fn sorted_position(ms: Seq<(Seq<usize>, usize)>, j: int) -> nat {
    rank_below(ms, j, ms.len())
}

/// The id of the match at position `idx` of that sort, searched from match `j` on.
pub open spec fn ranked_from(ms: Seq<(Seq<usize>, usize)>, idx: nat, j: nat) -> Option<usize>
    decreases ms.len() - j,
{
    if j >= ms.len() {
        None
    } else if sorted_position(ms, j as int) == idx {
        Some(ms[j as int].1)
    } else {
        ranked_from(ms, idx, j + 1)
    }
}

/// The id of `prefix.name`, or of its element `idx`: by its exact name
/// (`prefix.name[idx]`), else as the `idx`-th of all the signals under
/// `prefix.name[` sorted by their indices (the row-major order in which the
/// specification flattens an array, whatever its shape).
pub open spec fn by_name(
    prefix: Seq<char>,
    name: Seq<char>,
    idx: Option<usize>,
    names: Seq<(Seq<char>, usize)>,
) -> Option<usize> {
    match idx {
        None => lookup(names, dotted(prefix, name)),
        Some(i) => match lookup(names, element_name(prefix, name, i as nat)) {
            Some(id) => Some(id),
            None => ranked_from(element_matches(names, dotted(prefix, name)), i as nat, 0),
        },
    }
}

fn dotted_name(prefix: &str, name: &str) -> (r: String)
    ensures
        r@ == dotted(prefix@, name@),
{
    let mut r = string_from(prefix);
    push_char(&mut r, '.');
    push_str(&mut r, name);
    r
}

fn starts_with_chars(s: &Vec<char>, p: &Vec<char>) -> (r: bool)
    ensures
        r == starts_with(s@, p@),
{
    if p.len() > s.len() {
        return false;
    }
    let mut i: usize = 0;
    while i < p.len()
        invariant
            p@.len() <= s@.len(),
            i <= p@.len(),
            forall|k: int| 0 <= k < i ==> s@[k] == p@[k],
        decreases p@.len() - i,
    {
        if s[i] != p[i] {
            assert(s@.take(p@.len() as int)[i as int] == s@[i as int]);
            return false;
        }
        i = i + 1;
    }
    assert(s@.take(p@.len() as int) =~= p@);
    true
}

fn collect_matches(names: &Vec<(String, usize)>, base: &str) -> (r: Vec<(Vec<usize>, usize)>)
    ensures
        r@.map_values(|e: (Vec<usize>, usize)| (e.0@, e.1)) == element_matches(
            signal_pairs(names@),
            base@,
        ),
{
    let ghost nv = signal_pairs(names@);
    let b = chars_of(base);
    let mut bracket = chars_of(base);
    bracket.push('[');
    let mut out: Vec<(Vec<usize>, usize)> = Vec::new();
    let mut i: usize = 0;
    assert(nv.take(0) =~= Seq::<(Seq<char>, usize)>::empty());
    assert(out@.map_values(|e: (Vec<usize>, usize)| (e.0@, e.1)) =~= Seq::<(Seq<usize>, usize)>::empty());
    while i < names.len()
        invariant
            nv == signal_pairs(names@),
            b@ == base@,
            bracket@ == base@.push('['),
            i <= names@.len(),
            out@.map_values(|e: (Vec<usize>, usize)| (e.0@, e.1)) == element_matches(nv.take(i as int), base@),
        decreases names@.len() - i,
    {
        let ghost before = out@;
        let key = chars_of(names[i].0.as_str());
        assert(nv[i as int] == (names@[i as int].0@, names@[i as int].1));
        assert(nv.take(i + 1).drop_last() =~= nv.take(i as int));
        if starts_with_chars(&key, &bracket) {
            assert(key@.skip(b@.len() as int) =~= key@.subrange(b@.len() as int, key@.len() as int));
            let parsed = parse_bracket_indices(&key.as_slice()[b.len()..key.len()]);
            match parsed {
                Some(ix) => {
                    out.push((ix, names[i].1));
                    assert(out@.map_values(|e: (Vec<usize>, usize)| (e.0@, e.1)) =~= before.map_values(
                        |e: (Vec<usize>, usize)| (e.0@, e.1),
                    ).push((ix@, names@[i as int].1)));
                },
                None => {},
            }
        }
        i = i + 1;
    }
    assert(nv.take(names@.len() as int) =~= nv);
    out
}

/// Where match `j` lands once the matches are sorted stably by index list.
fn position_of(ms: &Vec<(Vec<usize>, usize)>, j: usize) -> (r: usize)
    requires
        j < ms@.len(),
    ensures
        r == sorted_position(ms@.map_values(|e: (Vec<usize>, usize)| (e.0@, e.1)), j as int),
{
    let ghost mv = ms@.map_values(|e: (Vec<usize>, usize)| (e.0@, e.1));
    let mut count: usize = 0;
    let mut k: usize = 0;
    while k < ms.len()
        invariant
            mv == ms@.map_values(|e: (Vec<usize>, usize)| (e.0@, e.1)),
            j < ms@.len(),
            k <= ms@.len(),
            count == rank_below(mv, j as int, k as nat),
            count <= k,
        decreases ms@.len() - k,
    {
        let before = indices_lt(&ms[k].0, &ms[j].0) || (indices_eq(&ms[k].0, &ms[j].0) && k < j);
        if before {
            count = count + 1;
        }
        k = k + 1;
    }
    count
}

/// The `idx`-th element of the array `prefix.name`, searched among every
/// signal under `prefix.name[` (see [`by_name`]).
pub fn resolve_array_element_by_search(
    instance_prefix: &str,
    local_name: &str,
    idx: usize,
    name_to_signal: &Vec<(String, usize)>,
) -> (r: Option<usize>)
    ensures
        r == ranked_from(
            element_matches(signal_pairs(name_to_signal@), dotted(instance_prefix@, local_name@)),
            idx as nat,
            0,
        ),
{
    let base = dotted_name(instance_prefix, local_name);
    let ms = collect_matches(name_to_signal, base.as_str());
    let ghost mv = ms@.map_values(|e: (Vec<usize>, usize)| (e.0@, e.1));
    let mut j: usize = 0;
    while j < ms.len()
        invariant
            mv == ms@.map_values(|e: (Vec<usize>, usize)| (e.0@, e.1)),
            mv == element_matches(signal_pairs(name_to_signal@), dotted(instance_prefix@, local_name@)),
            j <= ms@.len(),
            ranked_from(mv, idx as nat, j as nat) == ranked_from(mv, idx as nat, 0),
        decreases ms@.len() - j,
    {
        if position_of(&ms, j) == idx {
            assert(mv[j as int].1 == ms@[j as int].1);
            return Some(ms[j].1);
        }
        j = j + 1;
    }
    None
}

/// See [`by_name`].
pub fn resolve_by_name(
    instance_prefix: &str,
    local_name: &str,
    array_idx: Option<usize>,
    name_to_signal: &Vec<(String, usize)>,
) -> (r: Option<usize>)
    ensures
        r == by_name(instance_prefix@, local_name@, array_idx, signal_pairs(name_to_signal@)),
{
    match array_idx {
        None => {
            let name = dotted_name(instance_prefix, local_name);
            let r = find_signal(name_to_signal, name.as_str());
            assert(r == lookup(signal_pairs(name_to_signal@), dotted(instance_prefix@, local_name@)));
            r
        },
        Some(idx) => {
            let mut flat = dotted_name(instance_prefix, local_name);
            push_char(&mut flat, '[');
            push_decimal(&mut flat, idx);
            push_char(&mut flat, ']');
            assert(flat@ =~= element_name(instance_prefix@, local_name@, idx as nat));
            match find_signal(name_to_signal, flat.as_str()) {
                Some(id) => Some(id),
                None => resolve_array_element_by_search(instance_prefix, local_name, idx, name_to_signal),
            }
        },
    }
}

} // verus!
