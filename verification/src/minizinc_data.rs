//! MiniZinc data (`.dzn`) written from JSON-like values, the data of the
//! DAG-extension model (the arcs fixed so far and the arcs it may choose),
//! and the reading of the model's answer.
use vstd::prelude::*;
use std::collections::HashSet;
use crate::text::{chars_of, decimal, push_char, push_decimal, push_str, str_eq};
use crate::resolve::{increasing, sorted_ids};
use crate::dzn::{lemma_sorted_is, sorted_set};
use crate::mixed_graph::{arc_sets, MixedGraph};

verus! {

/// A JSON-like value: what the data of a MiniZinc model is built from, and
/// what its solver answers in. Integers are held by their magnitude,
/// negative ones apart; an object holds its entries in order.
pub enum DznValue {
    Null,
    Bool(bool),
    Natural(usize),
    Negative(usize),
    Str(String),
    Array(Vec<DznValue>),
    Object(Vec<(String, DznValue)>),
}

// ---------------------------------------------------------------------------
// The text of a value.
// ---------------------------------------------------------------------------

/// A character of a string literal, with `\` and `"` escaped.
pub open spec fn escaped_char(c: char) -> Seq<char> {
    if c == '\\' {
        seq!['\\', '\\']
    } else if c == '"' {
        seq!['\\', '"']
    } else {
        seq![c]
    }
}

/// The characters of a string literal's body.
pub open spec fn escaped(s: Seq<char>) -> Seq<char>
    decreases s.len(),
{
    if s.len() == 0 {
        Seq::empty()
    } else {
        escaped(s.drop_last()) + escaped_char(s.last())
    }
}

/// The number of elements of an array value (`0` for any other value).
pub open spec fn row_len(v: DznValue) -> nat {
    match v {
        DznValue::Array(a) => a@.len(),
        _ => 0,
    }
}

/// Whether the elements are arrays of one length: a matrix.
pub open spec fn is_matrix(arr: Seq<DznValue>) -> bool {
    arr.len() == 0 || forall|i: int| 0 <= i < arr.len() ==> (#[trigger] arr[i]) is Array && row_len(arr[i]) == row_len(arr[0])
}

/// Texts joined by commas.
pub open spec fn commas(ts: Seq<Seq<char>>) -> Seq<char>
    decreases ts.len(),
{
    if ts.len() == 0 {
        Seq::empty()
    } else if ts.len() == 1 {
        ts[0]
    } else {
        commas(ts.drop_last()) + seq![','] + ts.last()
    }
}

/// The texts of the first `k` values.
pub open spec fn texts(s: Seq<DznValue>, k: nat) -> Seq<Seq<char>>
    decreases s, k,
{
    if k == 0 || k > s.len() {
        Seq::empty()
    } else {
        texts(s, (k - 1) as nat).push(dzn_text(s[k - 1]))
    }
}

/// The texts of the elements of the first `k` rows, row after row.
pub open spec fn row_texts(rows: Seq<DznValue>, k: nat) -> Seq<Seq<char>>
    decreases rows, k,
{
    if k == 0 || k > rows.len() {
        Seq::empty()
    } else {
        match rows[k - 1] {
            DznValue::Array(r) => row_texts(rows, (k - 1) as nat) + texts(r@, r@.len()),
            _ => row_texts(rows, (k - 1) as nat),
        }
    }
}

/// The MiniZinc text of a value: `undefined` for null, a two-dimensional
/// array for an array of rows of one length (an empty array included), a
/// one-dimensional array for any other array.
pub open spec fn dzn_text(v: DznValue) -> Seq<char>
    decreases v, 0nat,
{
    match v {
        DznValue::Null => "undefined"@,
        DznValue::Bool(b) => if b { "true"@ } else { "false"@ },
        DznValue::Natural(n) => decimal(n as nat),
        DznValue::Negative(n) => seq!['-'] + decimal(n as nat),
        DznValue::Str(s) => seq!['"'] + escaped(s@) + seq!['"'],
        DznValue::Array(a) => if is_matrix(a@) {
            "array2d(1.."@ + decimal(a@.len()) + ", 1.."@ + decimal(if a@.len() == 0 { 0 } else { row_len(a@[0]) })
                + ", ["@ + commas(row_texts(a@, a@.len())) + "])"@
        } else {
            "array1d(1.."@ + decimal(a@.len()) + ", ["@ + commas(texts(a@, a@.len())) + "])"@
        },
        DznValue::Object(_) => Seq::empty(),
    }
}

/// No object occurs in the value (an object has no MiniZinc text).
pub open spec fn object_free(v: DznValue) -> bool
    decreases v,
{
    match v {
        DznValue::Array(a) => forall|i: int| 0 <= i < a@.len() ==> object_free(#[trigger] a@[i]),
        DznValue::Object(_) => false,
        _ => true,
    }
}

// ---------------------------------------------------------------------------
// Writing a value.
// ---------------------------------------------------------------------------

proof fn lemma_texts_len(s: Seq<DznValue>, k: nat)
    requires
        k <= s.len(),
    ensures
        texts(s, k).len() == k,
    decreases k,
{
    if k > 0 {
        lemma_texts_len(s, (k - 1) as nat);
    }
}

proof fn lemma_commas_push(ts: Seq<Seq<char>>, t: Seq<char>)
    ensures
        commas(ts.push(t)) == if ts.len() == 0 { t } else { commas(ts) + seq![','] + t },
{
    assert(ts.push(t).drop_last() =~= ts);
    if ts.len() == 0 {
        assert(ts.push(t)[0] == t);
    }
}

/// Appends the escaped characters of `s` (see [`escaped`]).
fn push_escaped(out: &mut String, s: &String)
    ensures
        final(out)@ == old(out)@ + escaped(s@),
{
    let cs = chars_of(s.as_str());
    let ghost o = out@;
    let mut i: usize = 0;
    while i < cs.len()
        invariant
            cs@ == s@,
            i <= cs@.len(),
            out@ == o + escaped(cs@.take(i as int)),
        decreases cs@.len() - i,
    {
        let c = cs[i];
        assert(cs@.take(i + 1).drop_last() =~= cs@.take(i as int));
        assert(cs@.take(i + 1).last() == c);
        if c == '\\' {
            push_char(out, '\\');
            push_char(out, '\\');
        } else if c == '"' {
            push_char(out, '\\');
            push_char(out, '"');
        } else {
            push_char(out, c);
        }
        assert(out@ =~= o + escaped(cs@.take(i + 1)));
        i = i + 1;
    }
    assert(cs@.take(cs@.len() as int) =~= cs@);
}

/// See [`is_matrix`].
fn matrix(a: &Vec<DznValue>) -> (r: bool)
    ensures
        r == is_matrix(a@),
{
    if a.len() == 0 {
        return true;
    }
    let cols = match &a[0] {
        DznValue::Array(row) => row.len(),
        _ => {
            return false;
        },
    };
    let mut i: usize = 0;
    while i < a.len()
        invariant
            a@.len() > 0,
            a@[0] is Array,
            cols == row_len(a@[0]),
            i <= a@.len(),
            forall|k: int| 0 <= k < i ==> (#[trigger] a@[k]) is Array && row_len(a@[k]) == row_len(a@[0]),
        decreases a@.len() - i,
    {
        match &a[i] {
            DznValue::Array(row) => {
                if row.len() != cols {
                    return false;
                }
            },
            _ => {
                return false;
            },
        }
        i = i + 1;
    }
    true
}

/// Appends the MiniZinc text of `v` (see [`dzn_text`]).
pub fn push_dzn(out: &mut String, v: &DznValue)
    requires
        object_free(*v),
    ensures
        final(out)@ == old(out)@ + dzn_text(*v),
    decreases *v,
{
    let ghost o = out@;
    match v {
        DznValue::Null => {
            push_str(out, "undefined");
        },
        DznValue::Bool(b) => {
            if *b {
                push_str(out, "true");
            } else {
                push_str(out, "false");
            }
        },
        DznValue::Natural(n) => {
            push_decimal(out, *n);
        },
        DznValue::Negative(n) => {
            push_char(out, '-');
            push_decimal(out, *n);
            assert(out@ =~= o + (seq!['-'] + decimal(*n as nat)));
        },
        DznValue::Str(s) => {
            push_char(out, '"');
            push_escaped(out, s);
            push_char(out, '"');
            assert(out@ =~= o + (seq!['"'] + escaped(s@) + seq!['"']));
        },
        DznValue::Array(a) => {
            assert(forall|i: int| 0 <= i < a@.len() ==> object_free(#[trigger] a@[i]));
            if matrix(a) {
                let cols = if a.len() == 0 {
                    0
                } else {
                    match &a[0] {
                        DznValue::Array(row) => row.len(),
                        _ => 0,
                    }
                };
                push_str(out, "array2d(1..");
                push_decimal(out, a.len());
                push_str(out, ", 1..");
                push_decimal(out, cols);
                push_str(out, ", [");
                let ghost head = out@;
                let mut emitted = false;
                let mut r: usize = 0;
                while r < a.len()
                    invariant
                        object_free(*v),
                        *v == DznValue::Array(*a),
                        r <= a@.len(),
                        out@ == head + commas(row_texts(a@, r as nat)),
                        forall|i: int| 0 <= i < a@.len() ==> object_free(#[trigger] a@[i]),
                        emitted == (row_texts(a@, r as nat).len() > 0),
                    decreases a@.len() - r,
                {
                    let ghost before = row_texts(a@, r as nat);
                    match &a[r] {
                        DznValue::Array(row) => {
                            assert(object_free(a@[r as int]));
                            assert(forall|k: int| 0 <= k < row@.len() ==> object_free(#[trigger] row@[k]));
                            let mut j: usize = 0;
                            while j < row.len()
                                invariant
                                    object_free(*v),
                                    *v == DznValue::Array(*a),
                                    a@[r as int] == DznValue::Array(*row),
                                    forall|k: int| 0 <= k < row@.len() ==> object_free(#[trigger] row@[k]),
                                    r < a@.len(),
                                    j <= row@.len(),
                                    out@ == head + commas(before + texts(row@, j as nat)),
                                    emitted == ((before + texts(row@, j as nat)).len() > 0),
                                decreases row@.len() - j,
                            {
                                proof {
                                    assert(decreases_to!(*v => (*v)->Array_0));
                                    assert(decreases_to!(*a => a@[r as int]));
                                    assert(decreases_to!(a@[r as int] => (a@[r as int])->Array_0));
                                    assert(decreases_to!(*row => row@[j as int]));
                                    assert(decreases_to!(*v => row@[j as int]));
                                    assert(object_free(row@[j as int]));
                                }
                                let ghost ts = before + texts(row@, j as nat);
                                proof {
                                    lemma_commas_push(ts, dzn_text(row@[j as int]));
                                    assert(before + texts(row@, (j + 1) as nat) =~= ts.push(dzn_text(row@[j as int])));
                                }
                                if emitted {
                                    push_char(out, ',');
                                }
                                push_dzn(out, &row[j]);
                                emitted = true;
                                assert(out@ =~= head + commas(ts.push(dzn_text(row@[j as int]))));
                                j = j + 1;
                            }
                            assert(row_texts(a@, (r + 1) as nat) == before + texts(row@, row@.len()));
                        },
                        _ => {
                            assert(row_texts(a@, (r + 1) as nat) == before);
                        },
                    }
                    r = r + 1;
                }
                push_str(out, "])");
                proof {
                    reveal_strlit("array2d(1..");
                    reveal_strlit(", 1..");
                    reveal_strlit(", [");
                    reveal_strlit("])");
                    assert(out@ =~= o + dzn_text(*v));
                }
            } else {
                push_str(out, "array1d(1..");
                push_decimal(out, a.len());
                push_str(out, ", [");
                let ghost head = out@;
                let mut j: usize = 0;
                while j < a.len()
                    invariant
                        object_free(*v),
                        *v == DznValue::Array(*a),
                        j <= a@.len(),
                        out@ == head + commas(texts(a@, j as nat)),
                        forall|i: int| 0 <= i < a@.len() ==> object_free(#[trigger] a@[i]),
                    decreases a@.len() - j,
                {
                    proof {
                        assert(decreases_to!(*v => (*v)->Array_0));
                        assert(decreases_to!(*a => a@[j as int]));
                        assert(decreases_to!(*v => a@[j as int]));
                        assert(object_free(a@[j as int]));
                    }
                    let ghost ts = texts(a@, j as nat);
                    proof {
                        lemma_commas_push(ts, dzn_text(a@[j as int]));
                    }
                    if j > 0 {
                        push_char(out, ',');
                    }
                    push_dzn(out, &a[j]);
                    assert(out@ =~= head + commas(ts.push(dzn_text(a@[j as int]))));
                    j = j + 1;
                }
                push_str(out, "])");
                proof {
                    reveal_strlit("array1d(1..");
                    reveal_strlit(", [");
                    reveal_strlit("])");
                    assert(out@ =~= o + dzn_text(*v));
                }
            }
        },
        DznValue::Object(_) => {},
    }
}

// ---------------------------------------------------------------------------
// A data file.
// ---------------------------------------------------------------------------

/// The line `key = value;` of a data file.
pub open spec fn entry_text(key: Seq<char>, v: DznValue) -> Seq<char> {
    key + " = "@ + dzn_text(v) + ";\n"@
}

/// The data file of the entries, one line each, in order.
pub open spec fn document_text(entries: Seq<(String, DznValue)>) -> Seq<char>
    decreases entries.len(),
{
    if entries.len() == 0 {
        Seq::empty()
    } else {
        document_text(entries.drop_last()) + entry_text(entries.last().0@, entries.last().1)
    }
}

/// The text of a MiniZinc data file that binds each key to its value, in the
/// order of the entries.
pub fn dzn_document(entries: &Vec<(String, DznValue)>) -> (r: String)
    requires
        forall|i: int| 0 <= i < entries@.len() ==> object_free(#[trigger] entries@[i].1),
    ensures
        r@ == document_text(entries@),
{
    let mut out = String::new();
    let mut i: usize = 0;
    while i < entries.len()
        invariant
            i <= entries@.len(),
            forall|k: int| 0 <= k < entries@.len() ==> object_free(#[trigger] entries@[k].1),
            out@ == document_text(entries@.take(i as int)),
        decreases entries@.len() - i,
    {
        let ghost o = out@;
        let entry = &entries[i];
        push_str(&mut out, entry.0.as_str());
        push_str(&mut out, " = ");
        push_dzn(&mut out, &entry.1);
        push_str(&mut out, ";\n");
        proof {
            reveal_strlit(" = ");
            reveal_strlit(";\n");
            assert(entries@.take(i + 1).drop_last() =~= entries@.take(i as int));
            assert(entries@.take(i + 1).last() == entries@[i as int]);
            assert(out@ =~= o + entry_text(entry.0@, entry.1));
        }
        i = i + 1;
    }
    assert(entries@.take(entries@.len() as int) =~= entries@);
    out
}

// ---------------------------------------------------------------------------
// The data of the DAG-extension model.
// ---------------------------------------------------------------------------

/// The value `[a, b]` of an arc `(a, b)`.
pub open spec fn is_pair_value(v: DznValue, p: (usize, usize)) -> bool {
    match v {
        DznValue::Array(a) => a@.len() == 2 && a@[0] == DznValue::Natural(p.0) && a@[1] == DznValue::Natural(p.1),
        _ => false,
    }
}

/// The value of a list of arcs: an array of pairs, in order.
pub open spec fn is_pairs_value(v: DznValue, ps: Seq<(usize, usize)>) -> bool {
    match v {
        DznValue::Array(a) => a@.len() == ps.len() && forall|k: int|
            0 <= k < ps.len() ==> is_pair_value(#[trigger] a@[k], ps[k]),
        _ => false,
    }
}

/// Arcs numbered from one.
pub open spec fn one_based(ps: Seq<(usize, usize)>) -> Seq<(usize, usize)> {
    ps.map_values(|p: (usize, usize)| ((p.0 + 1) as usize, (p.1 + 1) as usize))
}

/// The arcs already fixed among the first `k` parts, numbered from one:
/// `(o + 1, i + 1)` for each `o` in `dir[i]`, part after part, each part's
/// in increasing order.
pub open spec fn fixed_arcs(dir: Seq<Set<usize>>, k: nat) -> Seq<(usize, usize)>
    decreases k,
{
    if k == 0 || k > dir.len() {
        Seq::empty()
    } else {
        fixed_arcs(dir, (k - 1) as nat) + sorted_ids(dir[k - 1]).map_values(
            |o: usize| ((o + 1) as usize, k as usize),
        )
    }
}

proof fn lemma_pairs_object_free(v: DznValue, ps: Seq<(usize, usize)>)
    requires
        is_pairs_value(v, ps),
    ensures
        object_free(v),
{
    if let DznValue::Array(a) = v {
        assert forall|k: int| 0 <= k < a@.len() implies object_free(#[trigger] a@[k]) by {
            assert(is_pair_value(a@[k], ps[k]));
            if let DznValue::Array(b) = a@[k] {
                assert forall|j: int| 0 <= j < b@.len() implies object_free(#[trigger] b@[j]) by {
                    assert(j == 0 || j == 1);
                }
            }
        }
    }
}

/// The value of a list of arcs.
fn pairs_value(ps: &Vec<(usize, usize)>) -> (r: DznValue)
    ensures
        is_pairs_value(r, ps@),
{
    let mut a: Vec<DznValue> = Vec::new();
    let mut k: usize = 0;
    while k < ps.len()
        invariant
            k <= ps@.len(),
            a@.len() == k,
            forall|j: int| 0 <= j < k ==> is_pair_value(#[trigger] a@[j], ps@[j]),
        decreases ps@.len() - k,
    {
        let (x, y) = ps[k];
        let pair = vec![DznValue::Natural(x), DznValue::Natural(y)];
        a.push(DznValue::Array(pair));
        k = k + 1;
    }
    DznValue::Array(a)
}

/// The arcs of an adjacency of sets, numbered from one (see [`fixed_arcs`]).
fn fixed_arc_list(dir: &Vec<HashSet<usize>>) -> (r: Vec<(usize, usize)>)
    requires
        forall|i: int, o: usize| 0 <= i < dir@.len() && #[trigger] dir@[i]@.contains(o) ==> o < usize::MAX,
    ensures
        r@ == fixed_arcs(arc_sets(dir@), dir@.len()),
        forall|a: usize, b: usize| #[trigger] r@.contains((a, b)) <==> 1 <= b <= dir@.len() && 1 <= a && dir@[b - 1]@.contains(
            (a - 1) as usize,
        ),
{
    broadcast use vstd::seq_lib::lemma_seq_contains_after_push;
    let ghost sets = arc_sets(dir@);
    let mut r: Vec<(usize, usize)> = Vec::new();
    let mut i: usize = 0;
    while i < dir.len()
        invariant
            sets == arc_sets(dir@),
            i <= dir@.len(),
            forall|i: int, o: usize| 0 <= i < dir@.len() && #[trigger] dir@[i]@.contains(o) ==> o < usize::MAX,
            r@ == fixed_arcs(sets, i as nat),
            forall|a: usize, b: usize| #[trigger] r@.contains((a, b)) <==> 1 <= b <= i && 1 <= a && dir@[b - 1]@.contains(
                (a - 1) as usize,
            ),
        decreases dir@.len() - i,
    {
        let row = sorted_set(&dir[i]);
        proof {
            lemma_sorted_is(row@);
        }
        let ghost base = r@;
        let mut j: usize = 0;
        while j < row.len()
            invariant
                i < dir.len(),
                row@.to_set() == dir@[i as int]@,
                forall|i: int, o: usize| 0 <= i < dir@.len() && #[trigger] dir@[i]@.contains(o) ==> o < usize::MAX,
                j <= row@.len(),
                r@ == base + row@.take(j as int).map_values(|o: usize| ((o + 1) as usize, (i + 1) as usize)),
                forall|a: usize, b: usize| #[trigger] base.contains((a, b)) <==> 1 <= b <= i && 1 <= a && dir@[b - 1]@.contains(
                    (a - 1) as usize,
                ),
                forall|a: usize, b: usize| #[trigger] r@.contains((a, b)) <==> (1 <= b <= i && 1 <= a && dir@[b - 1]@.contains(
                    (a - 1) as usize,
                )) || (b == i + 1 && 1 <= a && row@.take(j as int).contains((a - 1) as usize)),
            decreases row@.len() - j,
        {
            let o = row[j];
            assert(row@.to_set().contains(o));
            let ghost before = r@;
            r.push((o + 1, i + 1));
            assert(row@.take(j + 1) =~= row@.take(j as int).push(o));
            assert forall|a: usize, b: usize| #[trigger] r@.contains((a, b)) <==> (1 <= b <= i && 1 <= a && dir@[b
                - 1]@.contains((a - 1) as usize)) || (b == i + 1 && 1 <= a && row@.take(j + 1).contains((a - 1) as usize)) by {
                assert(r@ == before.push(((o + 1) as usize, (i + 1) as usize)));
                vstd::seq_lib::lemma_seq_contains_after_push(before, ((o + 1) as usize, (i + 1) as usize), (a, b));
                vstd::seq_lib::lemma_seq_contains_after_push(row@.take(j as int), o, (a - 1) as usize);
                assert(before.contains((a, b)) <==> (1 <= b <= i && 1 <= a && dir@[b - 1]@.contains((a - 1) as usize)) || (b
                    == i + 1 && 1 <= a && row@.take(j as int).contains((a - 1) as usize)));
            }
            j = j + 1;
        }
        proof {
            assert(row@.take(row@.len() as int) =~= row@);
            assert(sets[i as int] == dir@[i as int]@);
            assert(r@ =~= fixed_arcs(sets, (i + 1) as nat));
            assert forall|x: usize| row@.contains(x) <==> dir@[i as int]@.contains(x) by {
                assert(row@.to_set().contains(x) == row@.contains(x));
            }
        }
        i = i + 1;
    }
    r
}

/// The data of the model that extends the graph's arcs to a DAG by choosing
/// among `viable_arcs`: the arcs fixed so far (`[o + 1, i + 1]` for each `o`
/// among the arcs of part `i`), the number of parts, the two counts, and the
/// viable arcs numbered from one, with the keys in alphabetical order.
pub fn extend_dag_data(graph: &MixedGraph, viable_arcs: &Vec<(usize, usize)>) -> (r: Vec<(String, DznValue)>)
    requires
        forall|i: int, o: usize|
            0 <= i < graph.dir_adjacencies@.len() && #[trigger] graph.dir_adjacencies@[i]@.contains(o) ==> o
                < usize::MAX,
        forall|k: int|
            0 <= k < viable_arcs@.len() ==> (#[trigger] viable_arcs@[k]).0 < usize::MAX && viable_arcs@[k].1
                < usize::MAX,
    ensures
        r@.len() == 5,
        r@[0].0@ == "fixed_arcs"@,
        is_pairs_value(r@[0].1, fixed_arcs(arc_sets(graph.dir_adjacencies@), graph.dir_adjacencies@.len())),
        forall|a: usize, b: usize|
            #[trigger] fixed_arcs(arc_sets(graph.dir_adjacencies@), graph.dir_adjacencies@.len()).contains((a, b)) <==> 1 <= b
                <= graph.dir_adjacencies@.len() && 1 <= a && graph.dir_adjacencies@[b - 1]@.contains((a - 1) as usize),
        r@[1].0@ == "n"@,
        r@[1].1 == DznValue::Natural(graph.n),
        r@[2].0@ == "num_fixed_arcs"@,
        r@[2].1 == DznValue::Natural(
            fixed_arcs(arc_sets(graph.dir_adjacencies@), graph.dir_adjacencies@.len()).len() as usize,
        ),
        r@[3].0@ == "num_var_arcs"@,
        r@[3].1 == DznValue::Natural(viable_arcs.len()),
        r@[4].0@ == "var_arcs"@,
        is_pairs_value(r@[4].1, one_based(viable_arcs@)),
        forall|i: int| 0 <= i < r@.len() ==> object_free(#[trigger] r@[i].1),
{
    let fixed = fixed_arc_list(&graph.dir_adjacencies);
    let mut var: Vec<(usize, usize)> = Vec::new();
    let mut k: usize = 0;
    while k < viable_arcs.len()
        invariant
            k <= viable_arcs@.len(),
            forall|k: int|
                0 <= k < viable_arcs@.len() ==> (#[trigger] viable_arcs@[k]).0 < usize::MAX && viable_arcs@[k].1
                    < usize::MAX,
            var@ == one_based(viable_arcs@.take(k as int)),
        decreases viable_arcs@.len() - k,
    {
        let (u, v) = viable_arcs[k];
        assert(viable_arcs@[k as int] == (u, v));
        var.push((u + 1, v + 1));
        assert(viable_arcs@.take(k + 1) =~= viable_arcs@.take(k as int).push((u, v)));
        assert(var@ =~= one_based(viable_arcs@.take(k + 1)));
        k = k + 1;
    }
    assert(viable_arcs@.take(viable_arcs@.len() as int) =~= viable_arcs@);
    let fixed_value = pairs_value(&fixed);
    let var_value = pairs_value(&var);
    let num_fixed = fixed.len();
    let num_var = var.len();
    proof {
        lemma_pairs_object_free(fixed_value, fixed@);
        lemma_pairs_object_free(var_value, var@);
    }
    let mut r: Vec<(String, DznValue)> = Vec::new();
    r.push(("fixed_arcs".to_owned(), fixed_value));
    r.push(("n".to_owned(), DznValue::Natural(graph.n)));
    r.push(("num_fixed_arcs".to_owned(), DznValue::Natural(num_fixed)));
    r.push(("num_var_arcs".to_owned(), DznValue::Natural(num_var)));
    r.push(("var_arcs".to_owned(), var_value));
    r
}

// ---------------------------------------------------------------------------
// The model's answer.
// ---------------------------------------------------------------------------

/// The value of the first entry keyed `key`.
pub open spec fn entry_value(entries: Seq<(String, DznValue)>, key: Seq<char>) -> Option<DznValue>
    decreases entries.len(),
{
    if entries.len() == 0 {
        None
    } else if entries[0].0@ == key {
        Some(entries[0].1)
    } else {
        entry_value(entries.drop_first(), key)
    }
}

/// The string at `output.raw` of the second-to-last value of a solver's JSON
/// stream (the last one reports the search's status).
pub open spec fn raw_solution(results: Seq<DznValue>) -> Option<Seq<char>> {
    if results.len() < 2 {
        None
    } else {
        match results[results.len() - 2] {
            DznValue::Object(top) => match entry_value(top@, "output"@) {
                Some(DznValue::Object(out)) => match entry_value(out@, "raw"@) {
                    Some(DznValue::Str(raw)) => Some(raw@),
                    _ => None,
                },
                _ => None,
            },
            _ => None,
        }
    }
}

/// See [`entry_value`].
fn find_entry_value<'a>(entries: &'a Vec<(String, DznValue)>, key: &str) -> (r: Option<&'a DznValue>)
    ensures
        match entry_value(entries@, key@) {
            Some(v) => r == Some(&v),
            None => r is None,
        },
{
    let mut i: usize = 0;
    assert(entries@.skip(0) =~= entries@);
    while i < entries.len()
        invariant
            i <= entries@.len(),
            entry_value(entries@.skip(i as int), key@) == entry_value(entries@, key@),
        decreases entries@.len() - i,
    {
        assert(entries@.skip(i as int)[0] == entries@[i as int]);
        assert(entries@.skip(i as int).drop_first() =~= entries@.skip(i + 1));
        if str_eq(entries[i].0.as_str(), key) {
            return Some(&entries[i].1);
        }
        i = i + 1;
    }
    None
}

/// The solution string in a solver's JSON stream (see [`raw_solution`]);
/// `None` where the stream holds no such string.
pub fn solution_raw(results: &Vec<DznValue>) -> (r: Option<String>)
    ensures
        match raw_solution(results@) {
            Some(s) => r matches Some(x) && x@ == s,
            None => r is None,
        },
{
    if results.len() < 2 {
        return None;
    }
    match &results[results.len() - 2] {
        DznValue::Object(top) => match find_entry_value(top, "output") {
            Some(DznValue::Object(out)) => match find_entry_value(out, "raw") {
                Some(DznValue::Str(raw)) => Some(raw.clone()),
                _ => None,
            },
            _ => None,
        },
        _ => None,
    }
}

/// The flags written in a solution string: `1` chooses, `0` does not, any
/// other character is skipped.
pub open spec fn flags(s: Seq<char>) -> Seq<bool>
    decreases s.len(),
{
    if s.len() == 0 {
        Seq::empty()
    } else if s.last() == '1' {
        flags(s.drop_last()).push(true)
    } else if s.last() == '0' {
        flags(s.drop_last()).push(false)
    } else {
        flags(s.drop_last())
    }
}

/// The arcs among the first `k` whose flag is set, in order.
pub open spec fn chosen(arcs: Seq<(usize, usize)>, f: Seq<bool>, k: nat) -> Seq<(usize, usize)>
    decreases k,
{
    if k == 0 || k > arcs.len() {
        Seq::empty()
    } else if f[k - 1] {
        chosen(arcs, f, (k - 1) as nat).push(arcs[k - 1])
    } else {
        chosen(arcs, f, (k - 1) as nat)
    }
}

/// The number of set flags among the first `k`.
pub open spec fn set_before(f: Seq<bool>, k: int) -> nat
    decreases k,
{
    if k <= 0 {
        0
    } else {
        set_before(f, k - 1) + if f[k - 1] {
            1nat
        } else {
            0nat
        }
    }
}

/// A character that is a flag of a solution string.
pub open spec fn flag_char(c: char) -> bool {
    c == '0' || c == '1'
}

/// The flags of a solution string are its `0` and `1` characters, from the
/// start, `1` standing for a chosen arc.
pub proof fn law_flags_read_in_order(s: Seq<char>)
    ensures
        flags(s) == s.filter(|c: char| flag_char(c)).map_values(|c: char| c == '1'),
    decreases s.len(),
{
    reveal(Seq::filter);
    if s.len() > 0 {
        law_flags_read_in_order(s.drop_last());
        let d = s.drop_last().filter(|c: char| flag_char(c));
        assert(s.filter(|c: char| flag_char(c)) == if flag_char(s.last()) { d.push(s.last()) } else { d });
        if flag_char(s.last()) {
            assert(d.push(s.last()).map_values(|c: char| c == '1') =~= d.map_values(|c: char| c == '1').push(
                s.last() == '1',
            ));
        }
    } else {
        assert(s.filter(|c: char| flag_char(c)).map_values(|c: char| c == '1') =~= Seq::<bool>::empty());
    }
}

/// Choosing keeps the arcs whose flag is set, in order: the arc at `k`
/// whose flag is set is the one after as many chosen arcs as there are set
/// flags before `k`, and there are as many chosen arcs as set flags.
pub proof fn law_chosen_in_order(arcs: Seq<(usize, usize)>, f: Seq<bool>, n: nat)
    requires
        n <= arcs.len(),
        n <= f.len(),
    ensures
        chosen(arcs, f, n).len() == set_before(f, n as int),
        forall|k: int| #![trigger f[k]] 0 <= k < n && f[k] ==> set_before(f, k) < chosen(arcs, f, n).len() && chosen(arcs, f, n)[set_before(f, k) as int] == arcs[k],
    decreases n,
{
    if n > 0 {
        law_chosen_in_order(arcs, f, (n - 1) as nat);
        let prev = chosen(arcs, f, (n - 1) as nat);
        let cur = chosen(arcs, f, n);
        assert(set_before(f, n as int) == set_before(f, n - 1) + if f[n - 1] { 1nat } else { 0nat });
        if f[n - 1] {
            assert(cur == prev.push(arcs[n - 1]));
        } else {
            assert(cur == prev);
        }
        assert forall|k: int| #![trigger f[k]] 0 <= k < n && f[k] implies set_before(f, k) < cur.len() && cur[set_before(f, k) as int] == arcs[k] by {
            if k < n - 1 {
                assert(prev[set_before(f, k) as int] == arcs[k] && set_before(f, k) < prev.len());
            } else {
                assert(set_before(f, k) == prev.len());
            }
        }
    }
}

/// The viable arcs that the solution string chooses, in order (see
/// [`flags`]); `None` when it holds fewer flags than there are arcs.
pub fn chosen_arcs(viable_arcs: &Vec<(usize, usize)>, raw: &str) -> (r: Option<Vec<(usize, usize)>>)
    ensures
        match r {
            Some(c) => flags(raw@).len() >= viable_arcs@.len() && c@ == chosen(
                viable_arcs@,
                flags(raw@),
                viable_arcs@.len(),
            ),
            None => flags(raw@).len() < viable_arcs@.len(),
        },
        r matches Some(c) ==> c@.len() == set_before(flags(raw@), viable_arcs@.len() as int) && forall|k: int|
            #![trigger flags(raw@)[k]]
            0 <= k < viable_arcs@.len() && flags(raw@)[k] ==> set_before(flags(raw@), k) < c@.len() && c@[set_before(
                flags(raw@),
                k,
            ) as int] == viable_arcs@[k],
{
    let cs = chars_of(raw);
    let mut f: Vec<bool> = Vec::new();
    let mut i: usize = 0;
    while i < cs.len()
        invariant
            cs@ == raw@,
            i <= cs@.len(),
            f@ == flags(cs@.take(i as int)),
        decreases cs@.len() - i,
    {
        assert(cs@.take(i + 1).drop_last() =~= cs@.take(i as int));
        assert(cs@.take(i + 1).last() == cs@[i as int]);
        if cs[i] == '1' {
            f.push(true);
        } else if cs[i] == '0' {
            f.push(false);
        }
        i = i + 1;
    }
    assert(cs@.take(cs@.len() as int) =~= cs@);
    if f.len() < viable_arcs.len() {
        return None;
    }
    let mut c: Vec<(usize, usize)> = Vec::new();
    let mut k: usize = 0;
    while k < viable_arcs.len()
        invariant
            f@ == flags(raw@),
            f@.len() >= viable_arcs@.len(),
            k <= viable_arcs@.len(),
            c@ == chosen(viable_arcs@, f@, k as nat),
        decreases viable_arcs@.len() - k,
    {
        if f[k] {
            c.push(viable_arcs[k]);
        }
        k = k + 1;
    }
    proof {
        law_chosen_in_order(viable_arcs@, flags(raw@), viable_arcs@.len());
    }
    Some(c)
}

} // verus!
