//! The verdict of a weak-safety check from the output of the finite-field
//! solver: its last line that is not blank says `unsat` (no two runs agree on
//! the inputs and differ on the outputs: safe), `sat` (a counterexample
//! exists) or anything else (unknown, a timeout among others).
use vstd::prelude::*;
use crate::text::{chars_of, is_white, is_whitespace};

verus! {

/// The outcome of a safety check.
#[derive(Clone, Copy, Debug, PartialEq, Eq, Structural)]
pub enum SafetyVerdict {
    Verified,
    Failed,
    Unknown,
}

/// The pieces of `s` between its newlines (one more than there are
/// newlines).
pub open spec fn pieces(s: Seq<char>) -> Seq<Seq<char>>
    decreases s.len(),
{
    if s.len() == 0 {
        seq![Seq::empty()]
    } else {
        let p = pieces(s.drop_last());
        if s.last() == '\n' {
            p.push(Seq::empty())
        } else {
            p.update(p.len() - 1, p.last().push(s.last()))
        }
    }
}

/// A line ended by `\n`, without the `\r` of a `\r\n` ending.
pub open spec fn strip_cr(l: Seq<char>) -> Seq<char> {
    if l.len() > 0 && l.last() == '\r' {
        l.drop_last()
    } else {
        l
    }
}

/// The lines of `s` as `str::lines` reads them, and a last empty one when `s`
/// ends with a newline (it is blank, so it changes no verdict).
pub open spec fn lines(s: Seq<char>) -> Seq<Seq<char>> {
    pieces(s).drop_last().map_values(|l: Seq<char>| strip_cr(l)).push(pieces(s).last())
}

/// A line with a character that is not white space.
pub open spec fn has_content(l: Seq<char>) -> bool {
    exists|k: int| 0 <= k < l.len() && !is_white(#[trigger] l[k])
}

/// The last line with content, if any.
pub open spec fn last_content(ls: Seq<Seq<char>>) -> Option<Seq<char>>
    decreases ls.len(),
{
    if ls.len() == 0 {
        None
    } else if has_content(ls.last()) {
        Some(ls.last())
    } else {
        last_content(ls.drop_last())
    }
}

/// The verdict that the solver's output gives.
pub open spec fn verdict_of(out: Seq<char>) -> SafetyVerdict {
    match last_content(lines(out)) {
        Some(l) => if l == "unsat"@ {
            SafetyVerdict::Verified
        } else if l == "sat"@ {
            SafetyVerdict::Failed
        } else {
            SafetyVerdict::Unknown
        },
        None => SafetyVerdict::Unknown,
    }
}

/// The line of the log that reports a verdict.
pub open spec fn verdict_message(v: SafetyVerdict) -> Seq<char> {
    match v {
        SafetyVerdict::Failed => "### THE TEMPLATE DOES NOT ENSURE SAFETY. FOUND COUNTEREXAMPLE USING SMT:\n"@,
        SafetyVerdict::Verified => "### WEAK SAFETY ENSURED BY THE TEMPLATE\n"@,
        SafetyVerdict::Unknown => "### UNKNOWN: VERIFICATION OF WEAK SAFETY USING THE SPECIFICATION TIMEOUT\n"@,
    }
}

fn content(l: &Vec<char>) -> (r: bool)
    ensures
        r == has_content(l@),
{
    let mut k: usize = 0;
    while k < l.len()
        invariant
            k <= l@.len(),
            forall|j: int| 0 <= j < k ==> is_white(#[trigger] l@[j]),
        decreases l@.len() - k,
    {
        if !is_whitespace(l[k]) {
            return true;
        }
        k = k + 1;
    }
    false
}

fn eq_chars(l: &Vec<char>, t: &str) -> (r: bool)
    ensures
        r == (l@ == t@),
{
    let u = chars_of(t);
    if u.len() != l.len() {
        return false;
    }
    let mut k: usize = 0;
    while k < l.len()
        invariant
            u@ == t@,
            u@.len() == l@.len(),
            k <= l@.len(),
            forall|j: int| 0 <= j < k ==> l@[j] == u@[j],
        decreases l@.len() - k,
    {
        if l[k] != u[k] {
            return false;
        }
        k = k + 1;
    }
    assert(l@ =~= u@);
    true
}

/// The verdict of the solver's output (see [`verdict_of`]), logged.
pub fn safety_verdict(output: &str, logs: &mut Vec<String>) -> (r: SafetyVerdict)
    ensures
        r == verdict_of(output@),
        final(logs)@.len() == old(logs)@.len() + 1,
        forall|k: int| 0 <= k < old(logs)@.len() ==> final(logs)@[k] == old(logs)@[k],
        final(logs)@[old(logs)@.len() as int]@ == verdict_message(r),
{
    let cs = chars_of(output);
    let mut last: Option<Vec<char>> = None;
    let mut cur: Vec<char> = Vec::new();
    let mut i: usize = 0;
    while i < cs.len()
        invariant
            cs@ == output@,
            i <= cs@.len(),
            cur@ == pieces(cs@.take(i as int)).last(),
            pieces(cs@.take(i as int)).len() > 0,
            match last {
                Some(l) => last_content(pieces(cs@.take(i as int)).drop_last().map_values(|l: Seq<char>| strip_cr(l)))
                    == Some(l@),
                None => last_content(pieces(cs@.take(i as int)).drop_last().map_values(|l: Seq<char>| strip_cr(l)))
                    is None,
            },
        decreases cs@.len() - i,
    {
        let ghost t = cs@.take(i as int);
        let ghost p = pieces(t);
        assert(cs@.take(i + 1).drop_last() =~= t);
        assert(cs@.take(i + 1).last() == cs@[i as int]);
        let c = cs[i];
        if c == '\n' {
            let mut line = cur;
            let n = line.len();
            if n > 0 && line[n - 1] == '\r' {
                line.pop();
            }
            let ghost np = pieces(cs@.take(i + 1));
            proof {
                assert(np == p.push(Seq::<char>::empty()));
                assert(np.drop_last() =~= p);
                assert(line@ == strip_cr(p.last()));
                assert(p.map_values(|l: Seq<char>| strip_cr(l)) =~= p.drop_last().map_values(
                    |l: Seq<char>| strip_cr(l),
                ).push(strip_cr(p.last())));
                let q = p.drop_last().map_values(|l: Seq<char>| strip_cr(l));
                assert(q.push(line@).drop_last() =~= q);
                assert(q.push(line@).last() == line@);
            }
            if content(&line) {
                last = Some(line);
            }
            cur = Vec::new();
        } else {
            cur.push(c);
            proof {
                let np = pieces(cs@.take(i + 1));
                assert(np.drop_last() =~= p.drop_last());
            }
        }
        i = i + 1;
    }
    assert(cs@.take(cs@.len() as int) =~= cs@);
    let ghost ls = lines(output@);
    proof {
        assert(ls.drop_last() =~= pieces(output@).drop_last().map_values(|l: Seq<char>| strip_cr(l)));
        assert(ls.last() == cur@);
    }
    let found = if content(&cur) {
        Some(cur)
    } else {
        last
    };
    let r = match found {
        Some(l) => if eq_chars(&l, "unsat") {
            SafetyVerdict::Verified
        } else if eq_chars(&l, "sat") {
            SafetyVerdict::Failed
        } else {
            SafetyVerdict::Unknown
        },
        None => SafetyVerdict::Unknown,
    };
    let message = match r {
        SafetyVerdict::Failed => "### THE TEMPLATE DOES NOT ENSURE SAFETY. FOUND COUNTEREXAMPLE USING SMT:\n".to_owned(),
        SafetyVerdict::Verified => "### WEAK SAFETY ENSURED BY THE TEMPLATE\n".to_owned(),
        SafetyVerdict::Unknown => "### UNKNOWN: VERIFICATION OF WEAK SAFETY USING THE SPECIFICATION TIMEOUT\n".to_owned(),
    };
    logs.push(message);
    r
}

} // verus!
