//! Reformats a raw SMT-LIB formula (one very long line, as a macro's formula
//! arrives) so it can be read by eye: a sub-expression that does not fit on
//! one line is opened up into one child per line, indented by depth, while
//! the ones that fit stay flat. Optionally drops the `(! true :meta-data ..)`
//! annotations that hang directly off an `and`, which only name things.
use vstd::prelude::*;
use crate::text::{is_white, is_whitespace, chars_of, string_of};

verus! {

// ---------------------------------------------------------------------------
// Tokens.
// ---------------------------------------------------------------------------

/// A character that ends a bare word: whitespace or a parenthesis.
pub open spec fn is_delimiter(c: char) -> bool {
    is_white(c) || c == '(' || c == ')'
}

/// End (exclusive) of the bare word whose remaining part starts at `i`.
pub open spec fn word_end(s: Seq<char>, i: int) -> int
    decreases s.len() - i,
{
    if i < 0 || i >= s.len() || is_delimiter(s[i]) {
        if i < 0 { 0 } else if i >= s.len() { s.len() as int } else { i }
    } else {
        word_end(s, i + 1)
    }
}

/// End (exclusive) of the quoted string whose body starts at `i`: the first
/// quote that is not doubled closes it (`""` stands for a quote inside), and
/// an unterminated string runs to the end of the text.
pub open spec fn quoted_end(s: Seq<char>, i: int) -> int
    decreases s.len() - i,
{
    if i < 0 {
        0
    } else if i >= s.len() {
        s.len() as int
    } else if s[i] == '"' {
        if i + 1 < s.len() && s[i + 1] == '"' {
            quoted_end(s, i + 2)
        } else {
            i + 1
        }
    } else {
        quoted_end(s, i + 1)
    }
}

proof fn lemma_word_end(s: Seq<char>, i: int)
    requires
        0 <= i <= s.len(),
    ensures
        i <= word_end(s, i) <= s.len(),
    decreases s.len() - i,
{
    if i < s.len() && !is_delimiter(s[i]) {
        lemma_word_end(s, i + 1);
    }
}

proof fn lemma_quoted_end(s: Seq<char>, i: int)
    requires
        0 <= i <= s.len(),
    ensures
        i <= quoted_end(s, i) <= s.len(),
    decreases s.len() - i,
{
    if i < s.len() {
        if s[i] == '"' {
            if i + 1 < s.len() && s[i + 1] == '"' {
                lemma_quoted_end(s, i + 2);
            }
        } else {
            lemma_quoted_end(s, i + 1);
        }
    }
}

#[via_fn]
proof fn tokens_from_decreases(s: Seq<char>, i: int) {
    if 0 <= i < s.len() {
        lemma_word_end(s, i + 1);
        lemma_quoted_end(s, i + 1);
    }
}

/// The tokens of `s` from position `i` on: each parenthesis alone, each
/// quoted string (quotes included, `""` kept), and each run of other
/// characters up to whitespace or a parenthesis. Whitespace separates tokens
/// and is dropped.
pub open spec fn tokens_from(s: Seq<char>, i: int) -> Seq<Seq<char>>
    decreases s.len() - i via tokens_from_decreases
{
    if i < 0 || i >= s.len() {
        Seq::empty()
    } else if is_white(s[i]) {
        tokens_from(s, i + 1)
    } else if s[i] == '(' || s[i] == ')' {
        seq![seq![s[i]]] + tokens_from(s, i + 1)
    } else if s[i] == '"' {
        let e = quoted_end(s, i + 1);
        seq![s.subrange(i, e)] + tokens_from(s, e)
    } else {
        let e = word_end(s, i + 1);
        seq![s.subrange(i, e)] + tokens_from(s, e)
    }
}

pub open spec fn tokens_of(s: Seq<char>) -> Seq<Seq<char>> {
    tokens_from(s, 0)
}

pub open spec fn token_views(t: Seq<Vec<char>>) -> Seq<Seq<char>> {
    t.map_values(|v: Vec<char>| v@)
}

fn copy_range(s: &Vec<char>, from: usize, to: usize) -> (r: Vec<char>)
    requires
        from <= to <= s@.len(),
    ensures
        r@ == s@.subrange(from as int, to as int),
{
    let mut r: Vec<char> = Vec::new();
    let mut k = from;
    while k < to
        invariant
            from <= k <= to <= s@.len(),
            r@ == s@.subrange(from as int, k as int),
        decreases to - k,
    {
        r.push(s[k]);
        assert(s@.subrange(from as int, k as int).push(s@[k as int]) =~= s@.subrange(
            from as int,
            k + 1,
        ));
        k = k + 1;
    }
    r
}

/// Splits `source` into SMT-LIB tokens (see [`tokens_of`]).
fn tokenize(source: &Vec<char>) -> (r: Vec<Vec<char>>)
    ensures
        token_views(r@) == tokens_of(source@),
{
    let ghost s = source@;
    let mut tokens: Vec<Vec<char>> = Vec::new();
    let mut i: usize = 0;
    while i < source.len()
        invariant
            s == source@,
            i <= s.len(),
            tokens_of(s) == token_views(tokens@) + tokens_from(s, i as int),
        decreases s.len() - i,
    {
        let c = source[i];
        let ghost before = token_views(tokens@);
        if is_whitespace(c) {
            i = i + 1;
        } else if c == '(' || c == ')' {
            let mut t: Vec<char> = Vec::new();
            t.push(c);
            tokens.push(t);
            assert(token_views(tokens@) =~= before.push(seq![c]));
            assert(before + (seq![seq![c]] + tokens_from(s, i + 1)) =~= before.push(seq![c])
                + tokens_from(s, i + 1));
            i = i + 1;
        } else if c == '"' {
            let mut j = i + 1;
            let mut closed = false;
            while j < source.len() && !closed
                invariant
                    s == source@,
                    i < j <= s.len(),
                    closed ==> j == quoted_end(s, i + 1),
                    !closed ==> quoted_end(s, j as int) == quoted_end(s, i + 1),
                decreases s.len() - j,
            {
                if source[j] == '"' {
                    if j + 1 < source.len() && source[j + 1] == '"' {
                        j = j + 2;
                    } else {
                        j = j + 1;
                        closed = true;
                    }
                } else {
                    j = j + 1;
                }
            }
            let t = copy_range(source, i, j);
            tokens.push(t);
            assert(token_views(tokens@) =~= before.push(s.subrange(i as int, j as int)));
            assert(before + (seq![s.subrange(i as int, j as int)] + tokens_from(s, j as int))
                =~= before.push(s.subrange(i as int, j as int)) + tokens_from(s, j as int));
            i = j;
        } else {
            let mut j = i + 1;
            while j < source.len() && !(is_whitespace(source[j]) || source[j] == '(' || source[j]
                == ')')
                invariant
                    s == source@,
                    i < j <= s.len(),
                    word_end(s, j as int) == word_end(s, i + 1),
                decreases s.len() - j,
            {
                j = j + 1;
            }
            let t = copy_range(source, i, j);
            tokens.push(t);
            assert(token_views(tokens@) =~= before.push(s.subrange(i as int, j as int)));
            assert(before + (seq![s.subrange(i as int, j as int)] + tokens_from(s, j as int))
                =~= before.push(s.subrange(i as int, j as int)) + tokens_from(s, j as int));
            i = j;
        }
    }
    assert(tokens_of(s) =~= token_views(tokens@));
    tokens
}


// ---------------------------------------------------------------------------
// S-expressions.
// ---------------------------------------------------------------------------

/// A parsed S-expression: a lone token or a parenthesised list.
pub enum Sexpr {
    Atom(Vec<char>),
    List(Vec<Sexpr>),
}

/// The mathematical value of an [`Sexpr`].
pub enum SExp {
    Atom(Seq<char>),
    List(Seq<SExp>),
}

pub open spec fn sview(e: Sexpr) -> SExp
    decreases e,
{
    match e {
        Sexpr::Atom(a) => SExp::Atom(a@),
        Sexpr::List(items) => SExp::List(sviews(items@)),
    }
}

pub open spec fn sviews(s: Seq<Sexpr>) -> Seq<SExp>
    decreases s,
{
    if s.len() == 0 {
        Seq::empty()
    } else {
        sviews(s.drop_last()).push(sview(s.last()))
    }
}

proof fn lemma_sviews(s: Seq<Sexpr>)
    ensures
        sviews(s).len() == s.len(),
        forall|k: int| 0 <= k < s.len() ==> #[trigger] sviews(s)[k] == sview(s[k]),
    decreases s.len(),
{
    if s.len() > 0 {
        lemma_sviews(s.drop_last());
    }
}

proof fn lemma_sviews_push(s: Seq<Sexpr>, e: Sexpr)
    ensures
        sviews(s.push(e)) == sviews(s).push(sview(e)),
{
    assert(s.push(e).drop_last() =~= s);
}

pub open spec fn is_open(t: Seq<char>) -> bool {
    t == seq!['(']
}

pub open spec fn is_close(t: Seq<char>) -> bool {
    t == seq![')']
}

/// Reads one expression from the tokens `t` starting at `p`: an opening
/// parenthesis starts a list that runs to its matching closing one, any other
/// token is an atom. `None` when the tokens run out first.
pub open spec fn parse_one(t: Seq<Seq<char>>, p: int) -> Option<(SExp, int)>
    decreases t.len() - p, 0int,
{
    if p < 0 || p >= t.len() {
        None
    } else if is_open(t[p]) {
        match parse_items(t, p + 1) {
            Some((items, q)) => Some((SExp::List(items), q)),
            None => None,
        }
    } else {
        Some((SExp::Atom(t[p]), p + 1))
    }
}

/// The elements of a list whose first element is at `p`, up to and including
/// the closing parenthesis; returns the position after it.
pub open spec fn parse_items(t: Seq<Seq<char>>, p: int) -> Option<(Seq<SExp>, int)>
    decreases t.len() - p, 1int,
{
    if p < 0 || p >= t.len() {
        None
    } else if is_close(t[p]) {
        Some((Seq::empty(), p + 1))
    } else {
        match parse_one(t, p) {
            Some((e, q)) => if q <= p || q > t.len() {
                None
            } else {
                match parse_items(t, q) {
                    Some((rest, r)) => Some((seq![e] + rest, r)),
                    None => None,
                }
            },
            None => None,
        }
    }
}

/// Every expression of the tokens from `p` to the end, in order.
pub open spec fn parse_all_from(t: Seq<Seq<char>>, p: int) -> Option<Seq<SExp>>
    decreases t.len() - p,
{
    if p < 0 || p >= t.len() {
        Some(Seq::empty())
    } else {
        match parse_one(t, p) {
            Some((e, q)) => if q <= p || q > t.len() {
                None
            } else {
                match parse_all_from(t, q) {
                    Some(rest) => Some(seq![e] + rest),
                    None => None,
                }
            },
            None => None,
        }
    }
}

proof fn lemma_parse_advances(t: Seq<Seq<char>>, p: int)
    ensures
        parse_one(t, p) matches Some((e, q)) ==> p < q <= t.len(),
        parse_items(t, p) matches Some((s, q)) ==> p < q <= t.len(),
    decreases t.len() - p,
{
    if 0 <= p < t.len() {
        if is_open(t[p]) {
            lemma_parse_advances(t, p + 1);
        }
        if !is_close(t[p]) {
            if let Some((e, q)) = parse_one(t, p) {
                if q > p && q <= t.len() {
                    lemma_parse_advances(t, q);
                }
            }
        }
    }
}

fn is_open_token(t: &Vec<char>) -> (r: bool)
    ensures
        r == is_open(t@),
{
    let r = t.len() == 1 && t[0] == '(';
    assert(r ==> t@ =~= seq!['(']);
    r
}

fn is_close_token(t: &Vec<char>) -> (r: bool)
    ensures
        r == is_close(t@),
{
    let r = t.len() == 1 && t[0] == ')';
    assert(r ==> t@ =~= seq![')']);
    r
}

/// Recursive-descent reading of one expression at `*pos`, leaving `*pos`
/// after it.
fn parse_one_exec(tokens: &Vec<Vec<char>>, pos: &mut usize) -> (e: Sexpr)
    requires
        parse_one(token_views(tokens@), *old(pos) as int) is Some,
    ensures
        parse_one(token_views(tokens@), *old(pos) as int) == Some(
            (sview(e), *final(pos) as int),
        ),
    decreases tokens@.len() - *old(pos), 0int,
{
    let ghost t = token_views(tokens@);
    let ghost p0 = *pos as int;
    let n = tokens.len();
    assert(t.len() == tokens@.len());
    assert(p0 < t.len());
    if is_open_token(&tokens[*pos]) {
        *pos = *pos + 1;
        let mut items: Vec<Sexpr> = Vec::new();
        proof {
            lemma_parse_advances(t, p0 + 1);
        }
        let ghost mut remaining = parse_items(t, p0 + 1).unwrap().0;
        let ghost end = parse_items(t, p0 + 1).unwrap().1;
        assert(parse_items(t, p0 + 1) == Some((remaining, end)));
        while !is_close_token(&tokens[*pos])
            invariant
                t == token_views(tokens@),
                t.len() == tokens@.len(),
                p0 == *old(pos) as int,
                p0 < *pos < tokens@.len(),
                end <= tokens@.len(),
                parse_items(t, *pos as int) == Some((remaining, end)),
                parse_items(t, p0 + 1) == Some((sviews(items@) + remaining, end)),
                parse_one(t, p0) == Some((SExp::List(sviews(items@) + remaining), end)),
            decreases tokens@.len() - *pos,
        {
            let ghost p1 = *pos as int;
            proof {
                lemma_parse_advances(t, p1);
            }
            let e = parse_one_exec(tokens, pos);
            proof {
                lemma_parse_advances(t, *pos as int);
                lemma_sviews_push(items@, e);
                let rest = remaining.drop_first();
                assert(remaining == seq![sview(e)] + rest);
                assert(sviews(items@.push(e)) + rest =~= sviews(items@) + remaining);
                remaining = rest;
            }
            items.push(e);
        }
        proof {
            assert(remaining =~= Seq::<SExp>::empty());
            assert(sviews(items@) + remaining =~= sviews(items@));
        }
        *pos = *pos + 1;
        Sexpr::List(items)
    } else {
        let a = copy_token(&tokens[*pos]);
        *pos = *pos + 1;
        Sexpr::Atom(a)
    }
}

fn copy_token(t: &Vec<char>) -> (r: Vec<char>)
    ensures
        r@ == t@,
{
    copy_range(t, 0, t.len())
}


/// Reads every expression of `tokens`, in order.
fn parse_all(tokens: &Vec<Vec<char>>) -> (r: Vec<Sexpr>)
    requires
        parse_all_from(token_views(tokens@), 0) is Some,
    ensures
        parse_all_from(token_views(tokens@), 0) == Some(sviews(r@)),
{
    let ghost t = token_views(tokens@);
    assert(t.len() == tokens@.len());
    let mut pos: usize = 0;
    let mut out: Vec<Sexpr> = Vec::new();
    let ghost mut remaining = parse_all_from(t, 0).unwrap();
    while pos < tokens.len()
        invariant
            t == token_views(tokens@),
            t.len() == tokens@.len(),
            pos <= tokens@.len(),
            parse_all_from(t, pos as int) == Some(remaining),
            parse_all_from(t, 0) == Some(sviews(out@) + remaining),
        decreases tokens@.len() - pos,
    {
        let ghost p1 = pos as int;
        proof {
            lemma_parse_advances(t, p1);
        }
        let e = parse_one_exec(tokens, &mut pos);
        proof {
            lemma_sviews_push(out@, e);
            let rest = remaining.drop_first();
            assert(remaining == seq![sview(e)] + rest);
            assert(sviews(out@.push(e)) + rest =~= sviews(out@) + remaining);
            remaining = rest;
        }
        out.push(e);
    }
    assert(remaining =~= Seq::<SExp>::empty());
    assert(sviews(out@) + remaining =~= sviews(out@));
    out
}

/// Where the expression starting at `p` ends, if it can be read.
pub open spec fn one_end(t: Seq<Seq<char>>, p: int) -> Option<int> {
    match parse_one(t, p) {
        Some((_, q)) => Some(q),
        None => None,
    }
}

/// Where the list whose elements start at `p` ends, if it can be read.
pub open spec fn items_end(t: Seq<Seq<char>>, p: int) -> Option<int> {
    match parse_items(t, p) {
        Some((_, q)) => Some(q),
        None => None,
    }
}

/// Whether the expression at `pos` can be read, and where it ends, without
/// building it.
fn check_one(tokens: &Vec<Vec<char>>, pos: usize) -> (r: Option<usize>)
    requires
        pos <= tokens@.len(),
    ensures
        match r {
            Some(q) => one_end(token_views(tokens@), pos as int) == Some(q as int),
            None => one_end(token_views(tokens@), pos as int) is None,
        },
    decreases tokens@.len() - pos, 0int,
{
    let ghost t = token_views(tokens@);
    assert(t.len() == tokens@.len());
    if pos >= tokens.len() {
        return None;
    }
    if !is_open_token(&tokens[pos]) {
        return Some(pos + 1);
    }
    let r = check_items(tokens, pos + 1);
    r
}

/// Whether the rest of a list, from its element at `start`, can be read, and
/// where its closing parenthesis leaves off.
fn check_items(tokens: &Vec<Vec<char>>, start: usize) -> (r: Option<usize>)
    requires
        start <= tokens@.len(),
    ensures
        match r {
            Some(q) => items_end(token_views(tokens@), start as int) == Some(q as int),
            None => items_end(token_views(tokens@), start as int) is None,
        },
    decreases tokens@.len() - start, 1int,
{
    let ghost t = token_views(tokens@);
    assert(t.len() == tokens@.len());
    let mut pos = start;
    loop
        invariant
            t == token_views(tokens@),
            t.len() == tokens@.len(),
            start <= pos <= tokens@.len(),
            items_end(t, start as int) == items_end(t, pos as int),
        decreases tokens@.len() - pos,
    {
        if pos >= tokens.len() {
            return None;
        }
        if is_close_token(&tokens[pos]) {
            return Some(pos + 1);
        }
        proof {
            lemma_parse_advances(t, pos as int);
        }
        let q = match check_one(tokens, pos) {
            Some(q) => q,
            None => {
                return None;
            },
        };
        proof {
            lemma_parse_advances(t, q as int);
        }
        pos = q;
    }
}

/// Whether every opening parenthesis of `source` is closed, that is, whether
/// [`pretty_print_smt`] can take it.
pub fn smt_parses(source: &str) -> (r: bool)
    ensures
        r == parses(source@),
{
    let cs = chars_of(source);
    let tokens = tokenize(&cs);
    let ghost t = token_views(tokens@);
    assert(t.len() == tokens@.len());
    let mut pos: usize = 0;
    while pos < tokens.len()
        invariant
            t == token_views(tokens@),
            t == tokens_of(source@),
            t.len() == tokens@.len(),
            pos <= tokens@.len(),
            (parse_all_from(t, 0) is Some) == (parse_all_from(t, pos as int) is Some),
        decreases tokens@.len() - pos,
    {
        proof {
            lemma_parse_advances(t, pos as int);
        }
        match check_one(&tokens, pos) {
            Some(q) => {
                pos = q;
            },
            None => {
                return false;
            },
        }
    }
    true
}

// ---------------------------------------------------------------------------
// Pruning of trivial tags.
// ---------------------------------------------------------------------------

pub open spec fn atom_bang() -> SExp {
    SExp::Atom(seq!['!'])
}

pub open spec fn atom_true() -> SExp {
    SExp::Atom(seq!['t', 'r', 'u', 'e'])
}

pub open spec fn atom_and() -> SExp {
    SExp::Atom(seq!['a', 'n', 'd'])
}

/// `(! true ...)`: an annotation whose body is literally `true`.
pub open spec fn is_trivial_true_tag(e: SExp) -> bool {
    match e {
        SExp::List(items) => items.len() >= 2 && items[0] == atom_bang() && items[1]
            == atom_true(),
        SExp::Atom(_) => false,
    }
}

/// A list whose head is the atom `and`.
pub open spec fn is_and_head(items: Seq<SExp>) -> bool {
    items.len() > 0 && items[0] == atom_and()
}

/// Removes, from every `and` (at any depth), the arguments that are exactly a
/// trivial `true` tag; an `and` left with one argument becomes that argument,
/// and one left with none becomes `true`.
pub open spec fn prune(e: SExp) -> SExp
    decreases e, 0nat,
{
    match e {
        SExp::Atom(a) => SExp::Atom(a),
        SExp::List(items) => {
            let and_head = is_and_head(items);
            let kept = prune_prefix(items, and_head, items.len());
            if and_head && kept.len() == 1 {
                atom_true()
            } else if and_head && kept.len() == 2 {
                kept[1]
            } else {
                SExp::List(kept)
            }
        },
    }
}

/// The pruned versions of the first `n` elements of a list, without the
/// trivial tags when the list is an `and` (its head is never dropped).
pub open spec fn prune_prefix(items: Seq<SExp>, and_head: bool, n: nat) -> Seq<SExp>
    decreases items, n,
{
    if n == 0 || n > items.len() {
        Seq::empty()
    } else {
        let rest = prune_prefix(items, and_head, (n - 1) as nat);
        let item = items[n - 1];
        if and_head && n - 1 > 0 && is_trivial_true_tag(item) {
            rest
        } else {
            rest.push(prune(item))
        }
    }
}

fn atom_of(a: &[char]) -> (r: Vec<char>)
    ensures
        r@ == a@,
{
    let mut r: Vec<char> = Vec::new();
    let mut k: usize = 0;
    while k < a.len()
        invariant
            k <= a@.len(),
            r@ == a@.subrange(0, k as int),
        decreases a@.len() - k,
    {
        r.push(a[k]);
        assert(a@.subrange(0, k as int).push(a@[k as int]) =~= a@.subrange(0, k + 1));
        k = k + 1;
    }
    assert(a@.subrange(0, a@.len() as int) =~= a@);
    r
}

fn is_atom_chars(e: &Sexpr, word: &[char]) -> (r: bool)
    ensures
        r == (sview(*e) == SExp::Atom(word@)),
{
    match e {
        Sexpr::Atom(a) => {
            assert(sview(*e) == SExp::Atom(a@));
            if a.len() != word.len() {
                assert(a@ != word@);
                return false;
            }
            let mut k: usize = 0;
            while k < a.len()
                invariant
                    sview(*e) == SExp::Atom(a@),
                    a@.len() == word@.len(),
                    k <= a@.len(),
                    forall|j: int| 0 <= j < k ==> a@[j] == word@[j],
                decreases a@.len() - k,
            {
                if a[k] != word[k] {
                    assert(a@[k as int] != word@[k as int]);
                    return false;
                }
                k = k + 1;
            }
            assert(a@ =~= word@);
            true
        },
        Sexpr::List(_) => false,
    }
}

fn is_trivial_true_tag_exec(e: &Sexpr) -> (r: bool)
    ensures
        r == is_trivial_true_tag(sview(*e)),
{
    match e {
        Sexpr::List(items) => {
            proof {
                lemma_sviews(items@);
            }
            if items.len() < 2 {
                return false;
            }
            let bang = ['!'];
            let tru = ['t', 'r', 'u', 'e'];
            assert(bang@ =~= seq!['!']);
            assert(tru@ =~= seq!['t', 'r', 'u', 'e']);
            is_atom_chars(&items[0], &bang) && is_atom_chars(&items[1], &tru)
        },
        Sexpr::Atom(_) => false,
    }
}

fn is_and_head_exec(items: &Vec<Sexpr>) -> (r: bool)
    ensures
        r == is_and_head(sviews(items@)),
{
    proof {
        lemma_sviews(items@);
    }
    if items.len() == 0 {
        return false;
    }
    let and = ['a', 'n', 'd'];
    assert(and@ =~= seq!['a', 'n', 'd']);
    is_atom_chars(&items[0], &and)
}

/// See [`prune`].
fn prune_trivial_true_tags(e: &Sexpr) -> (r: Sexpr)
    ensures
        sview(r) == prune(sview(*e)),
    decreases e,
{
    match e {
        Sexpr::Atom(a) => Sexpr::Atom(atom_of(a.as_slice())),
        Sexpr::List(items) => {
            let ghost iv = sviews(items@);
            proof {
                lemma_sviews(items@);
            }
            let and_head = is_and_head_exec(items);
            let mut pruned: Vec<Sexpr> = Vec::new();
            let mut i: usize = 0;
            while i < items.len()
                invariant
                    *e == Sexpr::List(*items),
                    iv == sviews(items@),
                    iv.len() == items@.len(),
                    forall|k: int| 0 <= k < items@.len() ==> #[trigger] iv[k] == sview(items@[k]),
                    and_head == is_and_head(iv),
                    i <= items@.len(),
                    sviews(pruned@) == prune_prefix(iv, and_head, i as nat),
                decreases items@.len() - i,
            {
                let drop = and_head && i > 0 && is_trivial_true_tag_exec(&items[i]);
                if !drop {
                    proof {
                        assert(decreases_to!(*e => (*e)->List_0));
                        assert(decreases_to!(*items => items[i as int]));
                        assert(decreases_to!(*e => items[i as int]));
                    }
                    let p = prune_trivial_true_tags(&items[i]);
                    proof {
                        lemma_sviews_push(pruned@, p);
                    }
                    pruned.push(p);
                }
                i = i + 1;
            }
            proof {
                lemma_sviews(pruned@);
            }
            if and_head && pruned.len() == 1 {
                let tru = ['t', 'r', 'u', 'e'];
                assert(tru@ =~= seq!['t', 'r', 'u', 'e']);
                Sexpr::Atom(atom_of(&tru))
            } else if and_head && pruned.len() == 2 {
                pruned.remove(1)
            } else {
                Sexpr::List(pruned)
            }
        },
    }
}


// ---------------------------------------------------------------------------
// Rendering.
// ---------------------------------------------------------------------------

/// The single-line text of an expression: atoms as they are, lists in
/// parentheses with their elements separated by one space.
pub open spec fn flat(e: SExp) -> Seq<char>
    decreases e, 0nat,
{
    match e {
        SExp::Atom(a) => a,
        SExp::List(items) => seq!['('] + flat_prefix(items, items.len()) + seq![')'],
    }
}

/// The flat texts of the first `n` elements, separated by single spaces.
pub open spec fn flat_prefix(items: Seq<SExp>, n: nat) -> Seq<char>
    decreases items, n,
{
    if n == 0 || n > items.len() {
        Seq::empty()
    } else if n == 1 {
        flat(items[0])
    } else {
        flat_prefix(items, (n - 1) as nat) + seq![' '] + flat(items[n - 1])
    }
}

/// How many bytes UTF-8 takes for `c`.
pub open spec fn utf8_width(c: char) -> nat {
    if (c as u32) < 0x80 {
        1
    } else if (c as u32) < 0x800 {
        2
    } else if (c as u32) < 0x10000 {
        3
    } else {
        4
    }
}

/// How many bytes UTF-8 takes for `s`.
pub open spec fn utf8_len(s: Seq<char>) -> nat
    decreases s.len(),
{
    if s.len() == 0 {
        0
    } else {
        utf8_len(s.drop_last()) + utf8_width(s.last())
    }
}

/// `n` spaces.
pub open spec fn spaces(n: nat) -> Seq<char> {
    Seq::new(n, |i: int| ' ')
}

/// The indented text of an expression at depth `indent`: a list whose flat
/// text takes more than `width` bytes has its head on the opening line and
/// each further element on a line of its own, indented two spaces per level;
/// everything else stays flat.
pub open spec fn pretty(e: SExp, indent: nat, width: nat) -> Seq<char>
    decreases e, 0nat,
{
    match e {
        SExp::Atom(a) => a,
        SExp::List(items) => if utf8_len(flat(e)) <= width {
            flat(e)
        } else if items.len() == 0 {
            seq!['(', ')']
        } else {
            seq!['('] + pretty(items[0], indent + 1, width) + pretty_rest(
                items,
                indent,
                width,
                items.len(),
            ) + seq![')']
        },
    }
}

/// Elements `1..n` of a list opened at depth `indent`, one per line.
pub open spec fn pretty_rest(items: Seq<SExp>, indent: nat, width: nat, n: nat) -> Seq<char>
    decreases items, n,
{
    if n <= 1 || n > items.len() {
        Seq::empty()
    } else {
        pretty_rest(items, indent, width, (n - 1) as nat) + seq!['\n'] + spaces(
            2 * (indent + 1),
        ) + pretty(items[n - 1], indent + 1, width)
    }
}

/// Nesting depth of an expression: 0 for an atom.
pub open spec fn depth(e: SExp) -> nat
    decreases e, 0nat,
{
    match e {
        SExp::Atom(_) => 0,
        SExp::List(items) => 1 + depth_prefix(items, items.len()),
    }
}

pub open spec fn depth_prefix(items: Seq<SExp>, n: nat) -> nat
    decreases items, n,
{
    if n == 0 || n > items.len() {
        0
    } else {
        let d = depth(items[n - 1]);
        let r = depth_prefix(items, (n - 1) as nat);
        if d > r { d } else { r }
    }
}

proof fn lemma_depth_prefix(items: Seq<SExp>, n: nat, k: int)
    requires
        n <= items.len(),
        0 <= k < n,
    ensures
        depth(items[k]) <= depth_prefix(items, n),
    decreases n,
{
    if k < n - 1 {
        lemma_depth_prefix(items, (n - 1) as nat, k);
    }
}

fn append_chars(out: &mut Vec<char>, a: &[char])
    ensures
        final(out)@ == old(out)@ + a@,
{
    let ghost o = old(out)@;
    let mut k: usize = 0;
    while k < a.len()
        invariant
            k <= a@.len(),
            out@ == o + a@.subrange(0, k as int),
        decreases a@.len() - k,
    {
        out.push(a[k]);
        assert(o + a@.subrange(0, k as int) + seq![a@[k as int]] =~= o + a@.subrange(0, k + 1));
        k = k + 1;
    }
    assert(a@.subrange(0, a@.len() as int) =~= a@);
}

/// Appends the single-line text of `e` (see [`flat`]).
fn render_flat(e: &Sexpr, out: &mut Vec<char>)
    ensures
        final(out)@ == old(out)@ + flat(sview(*e)),
    decreases e,
{
    match e {
        Sexpr::Atom(a) => {
            append_chars(out, a.as_slice());
        },
        Sexpr::List(items) => {
            let ghost o = old(out)@;
            let ghost iv = sviews(items@);
            proof {
                lemma_sviews(items@);
            }
            out.push('(');
            let mut i: usize = 0;
            while i < items.len()
                invariant
                    *e == Sexpr::List(*items),
                    iv == sviews(items@),
                    iv.len() == items@.len(),
                    forall|k: int| 0 <= k < items@.len() ==> #[trigger] iv[k] == sview(items@[k]),
                    i <= items@.len(),
                    out@ == o + seq!['('] + flat_prefix(iv, i as nat),
                decreases items@.len() - i,
            {
                let ghost before = out@;
                if i > 0 {
                    out.push(' ');
                }
                proof {
                    assert(decreases_to!(*e => (*e)->List_0));
                    assert(decreases_to!(*items => items[i as int]));
                }
                render_flat(&items[i], out);
                assert(out@ =~= o + seq!['('] + flat_prefix(iv, (i + 1) as nat));
                i = i + 1;
            }
            out.push(')');
            assert(out@ =~= o + flat(sview(*e)));
        },
    }
}

/// Whether `v` takes at most `width` bytes in UTF-8.
fn fits_in(v: &Vec<char>, width: usize) -> (r: bool)
    ensures
        r == (utf8_len(v@) <= width),
{
    let mut total: usize = 0;
    let mut k: usize = 0;
    while k < v.len()
        invariant
            k <= v@.len(),
            total == utf8_len(v@.subrange(0, k as int)),
            total <= width,
        decreases v@.len() - k,
    {
        let c = v[k];
        let cw: usize = if (c as u32) < 0x80 {
            1
        } else if (c as u32) < 0x800 {
            2
        } else if (c as u32) < 0x10000 {
            3
        } else {
            4
        };
        assert(v@.subrange(0, k + 1).drop_last() =~= v@.subrange(0, k as int));
        if cw > width - total {
            proof {
                lemma_utf8_len_prefix_mono(v@, k + 1, v@.len() as int);
                assert(v@.subrange(0, v@.len() as int) =~= v@);
            }
            return false;
        }
        total = total + cw;
        k = k + 1;
    }
    assert(v@.subrange(0, v@.len() as int) =~= v@);
    true
}

proof fn lemma_utf8_len_prefix_mono(s: Seq<char>, i: int, j: int)
    requires
        0 <= i <= j <= s.len(),
    ensures
        utf8_len(s.subrange(0, i)) <= utf8_len(s.subrange(0, j)),
    decreases j - i,
{
    if i < j {
        lemma_utf8_len_prefix_mono(s, i, j - 1);
        assert(s.subrange(0, j).drop_last() =~= s.subrange(0, j - 1));
    }
}

fn push_spaces(out: &mut Vec<char>, pairs: usize)
    ensures
        final(out)@ == old(out)@ + spaces(2 * pairs as nat),
{
    let ghost o = old(out)@;
    let mut k: usize = 0;
    while k < pairs
        invariant
            k <= pairs,
            out@ == o + spaces(2 * k as nat),
        decreases pairs - k,
    {
        out.push(' ');
        out.push(' ');
        assert(o + spaces(2 * (k + 1) as nat) =~= o + spaces(2 * k as nat) + seq![' ', ' ']);
        k = k + 1;
    }
}

/// Appends the indented text of `e` at depth `indent` (see [`pretty`]).
fn render_pretty(e: &Sexpr, indent: usize, max_width: usize, out: &mut Vec<char>)
    requires
        indent + depth(sview(*e)) <= usize::MAX,
    ensures
        final(out)@ == old(out)@ + pretty(sview(*e), indent as nat, max_width as nat),
    decreases e,
{
    match e {
        Sexpr::Atom(a) => {
            append_chars(out, a.as_slice());
        },
        Sexpr::List(items) => {
            let ghost o = old(out)@;
            let ghost iv = sviews(items@);
            let ghost ev = sview(*e);
            proof {
                lemma_sviews(items@);
            }
            assert(ev == SExp::List(iv));
            let mut flat_text: Vec<char> = Vec::new();
            render_flat(e, &mut flat_text);
            assert(flat_text@ =~= flat(ev));
            if fits_in(&flat_text, max_width) {
                append_chars(out, flat_text.as_slice());
                return ;
            }
            if items.len() == 0 {
                out.push('(');
                out.push(')');
                assert(out@ =~= o + pretty(ev, indent as nat, max_width as nat));
                return ;
            }
            out.push('(');
            proof {
                assert(decreases_to!(*e => (*e)->List_0));
                assert(decreases_to!(*items => items[0int]));
                lemma_depth_prefix(iv, iv.len(), 0);
            }
            render_pretty(&items[0], indent + 1, max_width, out);
            let mut i: usize = 1;
            while i < items.len()
                invariant
                    *e == Sexpr::List(*items),
                    ev == sview(*e),
                    ev == SExp::List(iv),
                    iv == sviews(items@),
                    iv.len() == items@.len(),
                    forall|k: int| 0 <= k < items@.len() ==> #[trigger] iv[k] == sview(items@[k]),
                    1 <= i <= items@.len(),
                    indent + depth(ev) <= usize::MAX,
                    out@ == o + seq!['('] + pretty(iv[0], indent as nat + 1, max_width as nat)
                        + pretty_rest(iv, indent as nat, max_width as nat, i as nat),
                decreases items@.len() - i,
            {
                out.push('\n');
                push_spaces(out, indent + 1);
                proof {
                    assert(decreases_to!(*e => (*e)->List_0));
                    assert(decreases_to!(*items => items[i as int]));
                    lemma_depth_prefix(iv, iv.len(), i as int);
                }
                render_pretty(&items[i], indent + 1, max_width, out);
                assert(out@ =~= o + seq!['('] + pretty(iv[0], indent as nat + 1, max_width as nat)
                    + pretty_rest(iv, indent as nat, max_width as nat, (i + 1) as nat));
                i = i + 1;
            }
            out.push(')');
            assert(out@ =~= o + pretty(ev, indent as nat, max_width as nat));
        },
    }
}


proof fn lemma_depth_prefix_bound(items: Seq<SExp>, n: nat, b: nat)
    requires
        n <= items.len(),
        forall|k: int| 0 <= k < n ==> depth(#[trigger] items[k]) <= b,
    ensures
        depth_prefix(items, n) <= b,
    decreases n,
{
    if n > 0 {
        lemma_depth_prefix_bound(items, (n - 1) as nat, b);
    }
}

proof fn lemma_parse_depth(t: Seq<Seq<char>>, p: int)
    ensures
        parse_one(t, p) matches Some((e, q)) ==> depth(e) + p + 1 <= q,
        parse_items(t, p) matches Some((s, q)) ==> depth_prefix(s, s.len()) + p + 1 <= q,
    decreases t.len() - p,
{
    if 0 <= p < t.len() {
        lemma_parse_advances(t, p);
        if is_open(t[p]) {
            lemma_parse_depth(t, p + 1);
        }
        if !is_close(t[p]) {
            if let Some((e, q1)) = parse_one(t, p) {
                if q1 > p && q1 <= t.len() {
                    lemma_parse_depth(t, q1);
                    lemma_parse_advances(t, q1);
                    if let Some((rest, q)) = parse_items(t, q1) {
                        let s = seq![e] + rest;
                        assert forall|k: int| 0 <= k < s.len() implies depth(#[trigger] s[k])
                            <= q - p - 1 by {
                            if k > 0 {
                                assert(s[k] == rest[k - 1]);
                                lemma_depth_prefix(rest, rest.len(), k - 1);
                            }
                        }
                        lemma_depth_prefix_bound(s, s.len(), (q - p - 1) as nat);
                    }
                }
            }
        }
    }
}

proof fn lemma_parse_all_depth(t: Seq<Seq<char>>, p: int)
    requires
        0 <= p,
    ensures
        parse_all_from(t, p) matches Some(es) ==> forall|k: int|
            0 <= k < es.len() ==> depth(#[trigger] es[k]) <= t.len(),
    decreases t.len() - p,
{
    if p < t.len() {
        lemma_parse_depth(t, p);
        lemma_parse_advances(t, p);
        if let Some((e, q)) = parse_one(t, p) {
            if q > p && q <= t.len() {
                lemma_parse_all_depth(t, q);
                if let Some(rest) = parse_all_from(t, q) {
                    let es = seq![e] + rest;
                    assert forall|k: int| 0 <= k < es.len() implies depth(#[trigger] es[k])
                        <= t.len() by {
                        if k > 0 {
                            assert(es[k] == rest[k - 1]);
                        }
                    }
                }
            }
        }
    }
}

proof fn lemma_prune_prefix_elements(items: Seq<SExp>, and_head: bool, n: nat)
    requires
        n <= items.len(),
    ensures
        prune_prefix(items, and_head, n).len() <= n,
        forall|k: int|
            0 <= k < prune_prefix(items, and_head, n).len() ==> exists|j: int|
                0 <= j < n && #[trigger] prune_prefix(items, and_head, n)[k] == prune(
                    #[trigger] items[j],
                ),
    decreases n,
{
    if n > 0 {
        lemma_prune_prefix_elements(items, and_head, (n - 1) as nat);
        let rest = prune_prefix(items, and_head, (n - 1) as nat);
        let cur = prune_prefix(items, and_head, n);
        assert forall|k: int| 0 <= k < cur.len() implies exists|j: int|
            0 <= j < n && #[trigger] cur[k] == prune(#[trigger] items[j]) by {
            if k < rest.len() {
                let j = choose|j: int| 0 <= j < n - 1 && rest[k] == prune(items[j]);
                assert(cur[k] == rest[k]);
                assert(cur[k] == prune(items[j]));
            } else {
                assert(cur[k] == prune(items[n - 1]));
            }
        }
    }
}

proof fn lemma_prune_depth(e: SExp)
    ensures
        depth(prune(e)) <= depth(e),
    decreases e,
{
    if let SExp::List(items) = e {
        let and_head = is_and_head(items);
        let kept = prune_prefix(items, and_head, items.len());
        lemma_prune_prefix_elements(items, and_head, items.len());
        assert forall|k: int| 0 <= k < kept.len() implies depth(#[trigger] kept[k])
            <= depth_prefix(items, items.len()) by {
            let j = choose|j: int| 0 <= j < items.len() && kept[k] == prune(items[j]);
            assert(decreases_to!(e => items));
            lemma_prune_depth(items[j]);
            lemma_depth_prefix(items, items.len(), j);
        }
        lemma_depth_prefix_bound(kept, kept.len(), depth_prefix(items, items.len()));
    }
}

/// Line-joined indented texts of the first `n` expressions.
pub open spec fn pretty_join(es: Seq<SExp>, width: nat, n: nat) -> Seq<char>
    decreases n,
{
    if n == 0 || n > es.len() {
        Seq::empty()
    } else if n == 1 {
        pretty(es[0], 0, width)
    } else {
        pretty_join(es, width, (n - 1) as nat) + seq!['\n'] + pretty(es[n - 1], 0, width)
    }
}

/// Whether every opening parenthesis of `source` is closed.
pub open spec fn parses(source: Seq<char>) -> bool {
    parse_all_from(tokens_of(source), 0) is Some
}

/// The expressions of `source`, pruned of trivial tags when `hide` is set.
pub open spec fn shown_expressions(source: Seq<char>, hide: bool) -> Seq<SExp> {
    let es = parse_all_from(tokens_of(source), 0).unwrap();
    if hide {
        es.map_values(|e: SExp| prune(e))
    } else {
        es
    }
}

/// What [`pretty_print_smt`] prints for `source`.
pub open spec fn pretty_text(source: Seq<char>, width: nat, hide: bool) -> Seq<char> {
    let es = shown_expressions(source, hide);
    pretty_join(es, width, es.len())
}

/// Reformats `source` (an SMT-LIB formula) into lines indented by parenthesis
/// depth, keeping on one line every sub-expression that fits in `max_width`
/// bytes. With `hide_trivial_true`, the `(! true :meta-data "...")` arguments
/// of every `and` are dropped first (see [`prune`]).
pub fn pretty_print_smt(source: &str, max_width: usize, hide_trivial_true: bool) -> (r: String)
    requires
        parses(source@),
    ensures
        r@ == pretty_text(source@, max_width as nat, hide_trivial_true),
{
    let cs = chars_of(source);
    let tokens = tokenize(&cs);
    let parsed = parse_all(&tokens);
    let ghost t = token_views(tokens@);
    proof {
        lemma_parse_all_depth(t, 0);
        lemma_sviews(parsed@);
        assert(t.len() == tokens@.len());
    }
    let mut exprs: Vec<Sexpr> = Vec::new();
    if hide_trivial_true {
        let mut i: usize = 0;
        while i < parsed.len()
            invariant
                i <= parsed@.len(),
                exprs@.len() == i,
                forall|k: int| 0 <= k < i ==> #[trigger] sview(exprs@[k]) == prune(
                    sview(parsed@[k]),
                ),
            decreases parsed@.len() - i,
        {
            let p = prune_trivial_true_tags(&parsed[i]);
            exprs.push(p);
            i = i + 1;
        }
    } else {
        exprs = parsed;
    }
    let ghost es = shown_expressions(source@, hide_trivial_true);
    proof {
        lemma_sviews(exprs@);
        assert forall|k: int| 0 <= k < exprs@.len() implies #[trigger] sview(exprs@[k]) == es[k]
            && depth(es[k]) <= usize::MAX by {
            if hide_trivial_true {
                lemma_prune_depth(sview(parsed@[k]));
            }
        }
        assert(es.len() == exprs@.len());
    }
    let mut out: Vec<char> = Vec::new();
    let mut i: usize = 0;
    while i < exprs.len()
        invariant
            i <= exprs@.len(),
            es.len() == exprs@.len(),
            forall|k: int| 0 <= k < exprs@.len() ==> #[trigger] sview(exprs@[k]) == es[k] && depth(
                es[k],
            ) <= usize::MAX,
            out@ == pretty_join(es, max_width as nat, i as nat),
        decreases exprs@.len() - i,
    {
        if i > 0 {
            out.push('\n');
        }
        render_pretty(&exprs[i], 0, max_width, &mut out);
        assert(out@ =~= pretty_join(es, max_width as nat, (i + 1) as nat));
        i = i + 1;
    }
    string_of(out.as_slice())
}

} // verus!
