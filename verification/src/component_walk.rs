//! Walks the circuit's component graph to find, for each node, the llzk
//! macro it corresponds to and its dotted instance prefix (`"main.sub3"`),
//! and resolves every node's macro against the r1cs signal names.
use vstd::prelude::*;
use crate::text::{chars_of, decimal, decimal_string, digit_char, digit_value, hex_char, is_ascii_digit, is_digit, is_white, is_whitespace, json_escape, json_escape_char, json_quoted, json_string, push_char, push_decimal, push_json_escaped_char, push_json_string, push_str, str_eq, string_from, string_of};

verus! {

// ---------------------------------------------------------------------------
// `[N]` and `#N` forms of a component-array instance name.
// ---------------------------------------------------------------------------

/// Number of characters of `t` before the first `c` (all of them if none).
pub open spec fn count_before(t: Seq<char>, c: char) -> nat
    decreases t.len(),
{
    if t.len() == 0 || t[0] == c {
        0
    } else {
        1 + count_before(t.drop_first(), c)
    }
}

pub proof fn lemma_count_before(t: Seq<char>, c: char)
    ensures
        count_before(t, c) <= t.len(),
        count_before(t, c) < t.len() ==> t[count_before(t, c) as int] == c,
        forall|k: int| 0 <= k < count_before(t, c) ==> t[k] != c,
    decreases t.len(),
{
    if t.len() > 0 && t[0] != c {
        lemma_count_before(t.drop_first(), c);
        let n = count_before(t.drop_first(), c);
        assert forall|k: int| 0 <= k < count_before(t, c) implies t[k] != c by {
            if k > 0 {
                assert(t[k] == t.drop_first()[k - 1]);
            }
        }
    }
}

#[via_fn]
proof fn hashified_decreases(s: Seq<char>) {
    if s.len() > 0 {
        lemma_count_before(s.drop_first(), ']');
    }
}

/// `name` with every `[N]` written `#N`: the `[` becomes `#`, what follows
/// is copied up to the closing `]`, which is dropped.
pub open spec fn hashified(s: Seq<char>) -> Seq<char>
    decreases s.len() via hashified_decreases
{
    if s.len() == 0 {
        Seq::empty()
    } else if s[0] == '[' {
        let c = count_before(s.drop_first(), ']') as int;
        let inner = s.subrange(1, 1 + c);
        if 1 + c < s.len() {
            seq!['#'] + inner + hashified(s.skip(2 + c))
        } else {
            seq!['#'] + inner
        }
    } else {
        seq![s[0]] + hashified(s.drop_first())
    }
}

/// Number of leading ASCII digits of `t`.
pub open spec fn digits_prefix(t: Seq<char>) -> nat
    decreases t.len(),
{
    if t.len() == 0 || !is_digit(t[0]) {
        0
    } else {
        1 + digits_prefix(t.drop_first())
    }
}

pub proof fn lemma_digits_prefix(t: Seq<char>)
    ensures
        digits_prefix(t) <= t.len(),
        digits_prefix(t) < t.len() ==> !is_digit(t[digits_prefix(t) as int]),
        forall|k: int| 0 <= k < digits_prefix(t) ==> is_digit(t[k]),
    decreases t.len(),
{
    if t.len() > 0 && is_digit(t[0]) {
        lemma_digits_prefix(t.drop_first());
        assert forall|k: int| 0 <= k < digits_prefix(t) implies is_digit(t[k]) by {
            if k > 0 {
                assert(t[k] == t.drop_first()[k - 1]);
            }
        }
    }
}

#[via_fn]
proof fn bracketified_decreases(s: Seq<char>) {
    if s.len() > 0 {
        lemma_digits_prefix(s.drop_first());
    }
}

/// `name` with every `#N` (a `#` followed by digits) written `[N]`; a `#`
/// without digits after it stays as it is.
pub open spec fn bracketified(s: Seq<char>) -> Seq<char>
    decreases s.len() via bracketified_decreases
{
    if s.len() == 0 {
        Seq::empty()
    } else if s[0] == '#' {
        let d = digits_prefix(s.drop_first()) as int;
        if d == 0 {
            seq!['#'] + bracketified(s.drop_first())
        } else {
            seq!['['] + s.subrange(1, 1 + d) + seq![']'] + bracketified(s.skip(1 + d))
        }
    } else {
        seq![s[0]] + bracketified(s.drop_first())
    }
}

/// Converts a component name from the `[N]` form (structure and signal
/// files) to the `#N` form that llzk's `components_info` uses.
pub fn hashify_brackets(name: &str) -> (r: String)
    ensures
        r@ == hashified(name@),
{
    let cs = chars_of(name);
    let ghost s = cs@;
    let mut out: Vec<char> = Vec::new();
    let mut i: usize = 0;
    assert(out@ + hashified(s.skip(0)) =~= hashified(s)) by {
        assert(s.skip(0) =~= s);
    }
    while i < cs.len()
        invariant
            s == cs@,
            i <= s.len(),
            out@ + hashified(s.skip(i as int)) == hashified(s),
        decreases s.len() - i,
    {
        let ghost t = s.skip(i as int);
        let ghost o = out@;
        if cs[i] == '[' {
            out.push('#');
            let mut j = i + 1;
            while j < cs.len() && cs[j] != ']'
                invariant
                    s == cs@,
                    i < j <= s.len(),
                    t == s.skip(i as int),
                    out@ == o.push('#') + s.subrange(i + 1, j as int),
                    forall|k: int| i + 1 <= k < j ==> s[k] != ']',
                decreases s.len() - j,
            {
                out.push(cs[j]);
                assert(o.push('#') + s.subrange(i + 1, j + 1) =~= (o.push('#') + s.subrange(
                    i + 1,
                    j as int,
                )).push(s[j as int]));
                j = j + 1;
            }
            proof {
                let td = t.drop_first();
                lemma_count_before(td, ']');
                let c = count_before(td, ']') as int;
                assert(c == j - i - 1) by {
                    if c < j - i - 1 {
                        assert(td[c as int] == s[i + 1 + c]);
                    }
                    if c > j - i - 1 {
                        assert(td[j - i - 1] == s[j as int]);
                    }
                }
                assert(t.subrange(1, 1 + c) =~= s.subrange(i + 1, j as int));
                if j < s.len() {
                    assert(t.skip(2 + c) =~= s.skip(j + 1));
                }
            }
            if j < cs.len() {
                i = j + 1;
            } else {
                i = j;
                assert(s.skip(i as int) =~= Seq::<char>::empty());
            }
        } else {
            out.push(cs[i]);
            assert(t.drop_first() =~= s.skip(i + 1));
            i = i + 1;
        }
    }
    assert(s.skip(s.len() as int) =~= Seq::<char>::empty());
    assert(out@ + Seq::<char>::empty() =~= out@);
    string_of(out.as_slice())
}

/// Converts a local name from llzk's `#N` form to the `[N]` form of the
/// signal names.
pub fn bracketify_hashes(name: &str) -> (r: String)
    ensures
        r@ == bracketified(name@),
{
    let cs = chars_of(name);
    let ghost s = cs@;
    let mut out: Vec<char> = Vec::new();
    let mut i: usize = 0;
    assert(out@ + bracketified(s.skip(0)) =~= bracketified(s)) by {
        assert(s.skip(0) =~= s);
    }
    while i < cs.len()
        invariant
            s == cs@,
            i <= s.len(),
            out@ + bracketified(s.skip(i as int)) == bracketified(s),
        decreases s.len() - i,
    {
        let ghost t = s.skip(i as int);
        let ghost o = out@;
        if cs[i] != '#' {
            out.push(cs[i]);
            assert(t.drop_first() =~= s.skip(i + 1));
            i = i + 1;
        } else {
            let mut j = i + 1;
            while j < cs.len() && is_ascii_digit(cs[j])
                invariant
                    s == cs@,
                    i < j <= s.len(),
                    forall|k: int| i + 1 <= k < j ==> is_digit(s[k]),
                decreases s.len() - j,
            {
                j = j + 1;
            }
            proof {
                let td = t.drop_first();
                lemma_digits_prefix(td);
                let d = digits_prefix(td) as int;
                assert(d == j - i - 1) by {
                    if d < j - i - 1 {
                        assert(td[d as int] == s[i + 1 + d]);
                    }
                    if d > j - i - 1 {
                        assert(td[j - i - 1] == s[j as int]);
                    }
                }
                assert(t.subrange(1, 1 + d) =~= s.subrange(i + 1, j as int));
                assert(t.skip(1 + d) =~= s.skip(j as int));
                assert(td =~= s.skip(i + 1));
            }
            if j == i + 1 {
                out.push('#');
            } else {
                out.push('[');
                let mut k = i + 1;
                while k < j
                    invariant
                        s == cs@,
                        i + 1 <= k <= j <= s.len(),
                        out@ == o.push('[') + s.subrange(i + 1, k as int),
                    decreases j - k,
                {
                    out.push(cs[k]);
                    assert(o.push('[') + s.subrange(i + 1, k + 1) =~= (o.push('[') + s.subrange(
                        i + 1,
                        k as int,
                    )).push(s[k as int]));
                    k = k + 1;
                }
                out.push(']');
            }
            i = j;
        }
    }
    assert(s.skip(s.len() as int) =~= Seq::<char>::empty());
    assert(out@ + Seq::<char>::empty() =~= out@);
    string_of(out.as_slice())
}


/// A component name whose brackets all hold an index: no `#` anywhere, every
/// `[` followed by one or more digits and a `]`, and no digit right after a
/// `]`.
pub open spec fn well_bracketed(s: Seq<char>) -> bool
    decreases s.len(),
{
    if s.len() == 0 {
        true
    } else if s[0] == '#' {
        false
    } else if s[0] == '[' {
        let c = count_before(s.drop_first(), ']') as int;
        &&& c >= 1
        &&& 1 + c < s.len()
        &&& digits_prefix(s.drop_first()) == c
        &&& (2 + c < s.len() ==> !is_digit(s[2 + c]))
        &&& well_bracketed(s.skip(2 + c))
    } else {
        well_bracketed(s.drop_first())
    }
}

proof fn lemma_digits_prefix_append(a: Seq<char>, b: Seq<char>)
    requires
        forall|k: int| 0 <= k < a.len() ==> is_digit(a[k]),
        b.len() == 0 || !is_digit(b[0]),
    ensures
        digits_prefix(a + b) == a.len(),
    decreases a.len(),
{
    if a.len() == 0 {
        assert(a + b =~= b);
    } else {
        lemma_digits_prefix_append(a.drop_first(), b);
        assert((a + b).drop_first() =~= a.drop_first() + b);
    }
}

proof fn lemma_hashified_first(s: Seq<char>)
    requires
        s.len() > 0,
        s[0] != '[',
    ensures
        hashified(s).len() > 0 && hashified(s)[0] == s[0],
{
}

/// Writing a well-bracketed component name in llzk's `#N` form and back
/// gives the name unchanged.
pub proof fn law_bracket_roundtrip(s: Seq<char>)
    requires
        well_bracketed(s),
    ensures
        bracketified(hashified(s)) == s,
    decreases s.len(),
{
    if s.len() == 0 {
        assert(hashified(s) =~= Seq::<char>::empty());
    } else if s[0] == '[' {
        let t = s.drop_first();
        let c = count_before(t, ']') as int;
        lemma_count_before(t, ']');
        lemma_digits_prefix(t);
        let inner = s.subrange(1, 1 + c);
        let r = s.skip(2 + c);
        law_bracket_roundtrip(r);
        let h = hashified(s);
        assert(h == seq!['#'] + inner + hashified(r));
        assert forall|k: int| 0 <= k < inner.len() implies is_digit(inner[k]) by {
            assert(inner[k] == t[k]);
        }
        if r.len() > 0 {
            if r[0] == '[' {
                assert(hashified(r)[0] == '#');
            } else {
                lemma_hashified_first(r);
                assert(r[0] == s[2 + c]);
            }
        }
        lemma_digits_prefix_append(inner, hashified(r));
        assert(h.drop_first() =~= inner + hashified(r));
        assert(h.subrange(1, 1 + c) =~= inner);
        assert(h.skip(1 + c) =~= hashified(r));
        assert(s[1 + c] == ']');
        assert(s =~= seq!['['] + inner + seq![']'] + r);
    } else {
        let t = s.drop_first();
        law_bracket_roundtrip(t);
        let h = hashified(s);
        assert(h == seq![s[0]] + hashified(t));
        assert(h.drop_first() =~= hashified(t));
        assert(s =~= seq![s[0]] + t);
    }
}


// ---------------------------------------------------------------------------
// The `@Name` call of the `main` wrapper.
// ---------------------------------------------------------------------------

/// Index of the first whitespace character at or after `i` (the length if none).
pub open spec fn white_end(s: Seq<char>, i: int) -> int
    decreases s.len() - i,
{
    if i < 0 || i >= s.len() || is_white(s[i]) {
        if i < 0 { 0 } else if i >= s.len() { s.len() as int } else { i }
    } else {
        white_end(s, i + 1)
    }
}

/// `t` without its trailing parentheses and spaces.
pub open spec fn trim_end_parens(t: Seq<char>) -> Seq<char>
    decreases t.len(),
{
    if t.len() > 0 && (t.last() == '(' || t.last() == ')' || t.last() == ' ') {
        trim_end_parens(t.drop_last())
    } else {
        t
    }
}

/// The `@Name` tokens of `s` from position `i` on, in order: a token runs
/// from its `@` to the next whitespace, less its trailing parentheses. An `@`
/// inside a double-quoted string does not count (a doubled quote `""` leaves
/// the string closed).
pub open spec fn calls_from(s: Seq<char>, i: int, in_string: bool) -> Seq<Seq<char>>
    decreases s.len() - i,
{
    if i < 0 || i >= s.len() {
        Seq::empty()
    } else if s[i] == '"' {
        calls_from(s, i + 1, !in_string)
    } else if s[i] == '@' && !in_string {
        let name = trim_end_parens(s.subrange(i, white_end(s, i)));
        if name.len() > 0 {
            seq![name] + calls_from(s, i + 1, in_string)
        } else {
            calls_from(s, i + 1, in_string)
        }
    } else {
        calls_from(s, i + 1, in_string)
    }
}

/// Every `@Name` call of a formula, in the order they appear.
pub open spec fn macro_calls_of(s: Seq<char>) -> Seq<Seq<char>> {
    calls_from(s, 0, false)
}

pub proof fn lemma_white_end(s: Seq<char>, i: int)
    requires
        0 <= i <= s.len(),
    ensures
        i <= white_end(s, i) <= s.len(),
    decreases s.len() - i,
{
    if i < s.len() && !is_white(s[i]) {
        lemma_white_end(s, i + 1);
    }
}

fn macro_calls(formula: &str) -> (r: Vec<String>)
    ensures
        strs_of(r@) == macro_calls_of(formula@),
{
    let cs = chars_of(formula);
    let ghost s = cs@;
    let mut calls: Vec<String> = Vec::new();
    let mut in_string = false;
    let mut i: usize = 0;
    while i < cs.len()
        invariant
            s == cs@,
            i <= s.len(),
            strs_of(calls@) + calls_from(s, i as int, in_string) == macro_calls_of(s),
        decreases s.len() - i,
    {
        let c = cs[i];
        if c == '"' {
            in_string = !in_string;
        } else if c == '@' && !in_string {
            let mut e = i;
            proof {
                lemma_white_end(s, i as int);
            }
            while e < cs.len() && !is_whitespace(cs[e])
                invariant
                    s == cs@,
                    i <= e <= s.len(),
                    white_end(s, e as int) == white_end(s, i as int),
                decreases s.len() - e,
            {
                e = e + 1;
            }
            let mut end = e;
            while end > i && (cs[end - 1] == '(' || cs[end - 1] == ')' || cs[end - 1] == ' ')
                invariant
                    s == cs@,
                    i <= end <= e <= s.len(),
                    e == white_end(s, i as int),
                    trim_end_parens(s.subrange(i as int, end as int)) == trim_end_parens(
                        s.subrange(i as int, e as int),
                    ),
                decreases end - i,
            {
                assert(s.subrange(i as int, end as int).drop_last() =~= s.subrange(
                    i as int,
                    end - 1,
                ));
                end = end - 1;
            }
            let ghost name = s.subrange(i as int, end as int);
            assert(trim_end_parens(name) == name);
            if end > i {
                let ghost before = calls@;
                calls.push(string_of(&cs.as_slice()[i..end]));
                assert(strs_of(calls@) =~= strs_of(before).push(name));
                assert(strs_of(before).push(name) + calls_from(s, i + 1, in_string)
                    =~= strs_of(before) + (seq![name] + calls_from(s, i + 1, in_string)));
            }
        }
        i = i + 1;
    }
    assert(strs_of(calls@) + Seq::<Seq<char>>::empty() =~= strs_of(calls@));
    calls
}

pub open spec fn strs_of(v: Seq<String>) -> Seq<Seq<char>> {
    crate::strings::strs(v)
}

/// The first `n` calls separated by `", "`.
pub open spec fn joined(items: Seq<Seq<char>>, n: nat) -> Seq<char>
    decreases n,
{
    if n == 0 || n > items.len() {
        Seq::empty()
    } else if n == 1 {
        items[0]
    } else {
        joined(items, (n - 1) as nat) + seq![',', ' '] + items[n - 1]
    }
}

pub open spec fn no_call_message() -> Seq<char> {
    "no '@...' call found in the 'main' macro of the specification JSON: there is no template to check the circuit against"@
}

pub open spec fn many_calls_message(calls: Seq<Seq<char>>) -> Seq<char> {
    "the 'main' macro of the specification JSON makes "@ + decimal(calls.len()) + " '@...' calls ("@
        + joined(calls, calls.len())
        + "), and it must make exactly one: it is a wrapper around the macro that carries the specification, so only the first would ever be followed"@
}

/// The `@Name` call of the wrapper `main` formula, which must make exactly
/// one: none means there is nothing to check the circuit against, several
/// mean only the first would be followed. Both are errors naming what was found.
pub fn find_call_target(formula: &str) -> (r: Result<String, String>)
    ensures
        macro_calls_of(formula@).len() == 1 ==> (r matches Ok(name) && name@ == macro_calls_of(
            formula@,
        )[0]),
        macro_calls_of(formula@).len() == 0 ==> (r matches Err(msg) && msg@ == no_call_message()),
        macro_calls_of(formula@).len() > 1 ==> (r matches Err(msg) && msg@ == many_calls_message(
            macro_calls_of(formula@),
        )),
{
    let mut calls = macro_calls(formula);
    let ghost cv = strs_of(calls@);
    if calls.len() == 1 {
        let name = calls.remove(0);
        Ok(name)
    } else if calls.len() == 0 {
        Err(string_from(
            "no '@...' call found in the 'main' macro of the specification JSON: there is no template to check the circuit against",
        ))
    } else {
        let mut msg = string_from("the 'main' macro of the specification JSON makes ");
        push_decimal(&mut msg, calls.len());
        push_str(&mut msg, " '@...' calls (");
        let ghost head = msg@;
        let mut i: usize = 0;
        while i < calls.len()
            invariant
                cv == strs_of(calls@),
                i <= calls@.len(),
                msg@ == head + joined(cv, i as nat),
            decreases calls@.len() - i,
        {
            if i > 0 {
                push_char(&mut msg, ',');
                push_char(&mut msg, ' ');
            }
            push_str(&mut msg, calls[i].as_str());
            assert(msg@ =~= head + joined(cv, (i + 1) as nat));
            i = i + 1;
        }
        push_str(
            &mut msg,
            "), and it must make exactly one: it is a wrapper around the macro that carries the specification, so only the first would ever be followed",
        );
        assert(msg@ =~= many_calls_message(cv));
        Err(msg)
    }
}

} // verus!
