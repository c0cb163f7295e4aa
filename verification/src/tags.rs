//! The `:meta-data` tag tree of an llzk macro: how the parser's bottom-up
//! callbacks assemble it, its restriction to the macro's formal parameters,
//! its flat view (every variable a top-level tag touches) and the JSON
//! rendering of that view.
use vstd::prelude::*;
use crate::strings::{add_all_unique, add_unique, contains_str, copy_string, copy_strings, lemma_add_all_unique, no_dups, push_all_unique, push_unique, string_eq, strs};
use crate::text::{chars_of, decimal, decimal_string, digit_char, digit_value, hex_char, is_ascii_digit, is_digit, is_white, is_whitespace, json_escape, json_escape_char, json_quoted, json_string, push_char, push_decimal, push_json_escaped_char, push_json_string, push_str, str_eq, string_from, string_of};

verus! {

/// Node of the `:meta-data` tag tree.
pub struct TagNode {
    /// The `:meta-data` value.
    pub tag: String,
    /// Direct parameters of this tag (the ones that don't fall into a child tag).
    pub own: Vec<String>,
    /// Tags nested within this one.
    pub children: Vec<TagNode>,
    /// Character range `(start, end)` of the term the tag encloses, without
    /// the `(! ... :meta-data ...)` wrapper.
    pub range: Option<(usize, usize)>,
    /// That term's literal SMT-LIB text, sliced from the source.
    pub formula: String,
}

/// Result per macro (already filtered down to the formal parameters).
pub struct MacroEntry {
    /// Macro name.
    pub name: String,
    /// Parameters outside any `and`/tag.
    pub level0: Vec<String>,
    /// Top-level tag tree: real tags plus the synthetic `"andN"` ones.
    pub tree: Vec<TagNode>,
}

/// What a term contributes while the tree is assembled bottom-up.
pub struct MetaInfo {
    /// Direct symbols not yet enclosed in any inner tag.
    pub own: Vec<String>,
    /// Tags found in the subtree at the current level.
    pub children: Vec<TagNode>,
    /// Character range of the term this was built from.
    pub range: Option<(usize, usize)>,
}

/// An annotation of a term: a `:meta-data` value or anything else.
pub enum Attr {
    MetaData(String),
    Other,
}

/// The mathematical value of a [`TagNode`].
#[verifier::ext_equal]
pub struct Tag {
    pub tag: Seq<char>,
    pub own: Seq<Seq<char>>,
    pub children: Seq<Tag>,
    pub range: Option<(usize, usize)>,
    pub formula: Seq<char>,
}

pub open spec fn tview(n: TagNode) -> Tag
    decreases n,
{
    Tag {
        tag: n.tag@,
        own: strs(n.own@),
        children: tviews(n.children@),
        range: n.range,
        formula: n.formula@,
    }
}

pub open spec fn tviews(s: Seq<TagNode>) -> Seq<Tag>
    decreases s,
{
    if s.len() == 0 {
        Seq::empty()
    } else {
        tviews(s.drop_last()).push(tview(s.last()))
    }
}

pub proof fn lemma_tviews(s: Seq<TagNode>)
    ensures
        tviews(s).len() == s.len(),
        forall|k: int| 0 <= k < s.len() ==> #[trigger] tviews(s)[k] == tview(s[k]),
    decreases s.len(),
{
    if s.len() > 0 {
        lemma_tviews(s.drop_last());
    }
}

pub proof fn lemma_tviews_push(s: Seq<TagNode>, e: TagNode)
    ensures
        tviews(s.push(e)) == tviews(s).push(tview(e)),
{
    assert(s.push(e).drop_last() =~= s);
}

pub proof fn lemma_tviews_append(a: Seq<TagNode>, b: Seq<TagNode>)
    ensures
        tviews(a + b) == tviews(a) + tviews(b),
    decreases b.len(),
{
    if b.len() == 0 {
        assert(a + b =~= a);
        assert(tviews(a) + tviews(b) =~= tviews(a));
    } else {
        lemma_tviews_append(a, b.drop_last());
        assert((a + b).drop_last() =~= a + b.drop_last());
        assert(tviews(a) + tviews(b) =~= tviews(a) + tviews(b.drop_last()).push(tview(b.last())));
    }
}

/// The value of a [`MacroEntry`]: name, level-0 parameters and tree.
pub open spec fn entry_view(m: MacroEntry) -> (Seq<char>, Seq<Seq<char>>, Seq<Tag>) {
    (m.name@, strs(m.level0@), tviews(m.tree@))
}

// ---------------------------------------------------------------------------
// Restriction to the formal parameters.
// ---------------------------------------------------------------------------

/// The symbols of `syms` that are formal parameters, in order.
pub open spec fn keep_params(syms: Seq<Seq<char>>, params: Seq<Seq<char>>) -> Seq<Seq<char>> {
    syms.filter(|s: Seq<char>| params.contains(s))
}

/// A tag tree restricted, at every level, to the formal parameters.
pub open spec fn restrict(n: Tag, params: Seq<Seq<char>>) -> Tag
    decreases n, 0nat,
{
    Tag {
        tag: n.tag,
        own: keep_params(n.own, params),
        children: restrict_all(n.children, params, n.children.len()),
        range: n.range,
        formula: n.formula,
    }
}

/// The first `k` trees, each restricted to the formal parameters.
pub open spec fn restrict_all(s: Seq<Tag>, params: Seq<Seq<char>>, k: nat) -> Seq<Tag>
    decreases s, k,
{
    if k == 0 || k > s.len() {
        Seq::empty()
    } else {
        restrict_all(s, params, (k - 1) as nat).push(restrict(s[k - 1], params))
    }
}

/// The symbols that are formal parameters (dropping the operator names that
/// are collected alongside them).
pub fn filter_params(syms: &Vec<String>, params: &Vec<String>) -> (r: Vec<String>)
    ensures
        strs(r@) == keep_params(strs(syms@), strs(params@)),
{
    let ghost p = strs(params@);
    let ghost sv = strs(syms@);
    let mut r: Vec<String> = Vec::new();
    let mut i: usize = 0;
    while i < syms.len()
        invariant
            p == strs(params@),
            sv == strs(syms@),
            i <= syms@.len(),
            strs(r@) == keep_params(sv.subrange(0, i as int), p),
        decreases syms@.len() - i,
    {
        let keep = contains_str(params, syms[i].as_str());
        assert(sv.subrange(0, i + 1).drop_last() =~= sv.subrange(0, i as int));
        assert(sv.subrange(0, i + 1).last() == syms@[i as int]@);
        reveal(Seq::filter);
        let ghost before = r@;
        if keep {
            r.push(copy_string(&syms[i]));
            assert(strs(r@) =~= strs(before).push(syms@[i as int]@));
        }
        i = i + 1;
    }
    assert(sv.subrange(0, sv.len() as int) =~= sv);
    r
}


/// `node` restricted, at every level, to the formal parameters.
pub fn filter_node(node: TagNode, params: &Vec<String>) -> (r: TagNode)
    ensures
        tview(r) == restrict(tview(node), strs(params@)),
    decreases node,
{
    let ghost nv = tview(node);
    let ghost orig = node.children@;
    let n_kids = node.children.len();
    proof {
        lemma_tviews(orig);
        assert forall|k: int| 0 <= k < orig.len() implies decreases_to!(node => #[trigger] orig[k]) by {
            assert(decreases_to!(node => node.children));
            assert(decreases_to!(node.children => node.children[k]));
        }
    }
    let TagNode { tag, own, children, range, formula } = node;
    let own2 = filter_params(&own, params);
    let mut rest = children;
    let mut new_children: Vec<TagNode> = Vec::new();
    let mut i: usize = 0;
    while rest.len() > 0
        invariant
            nv == tview(node),
            orig == node.children@,
            nv.children == tviews(orig),
            forall|k: int| 0 <= k < orig.len() ==> #[trigger] tviews(orig)[k] == tview(orig[k]),
            forall|k: int| 0 <= k < orig.len() ==> decreases_to!(node => #[trigger] orig[k]),
            i <= orig.len(),
            orig.len() == n_kids,
            tviews(orig).len() == orig.len(),
            rest@ == orig.subrange(i as int, orig.len() as int),
            tviews(new_children@) == restrict_all(nv.children, strs(params@), i as nat),
        decreases rest@.len(),
    {
        let c = rest.remove(0);
        assert(c == orig[i as int]);
        let f = filter_node(c, params);
        proof {
            lemma_tviews_push(new_children@, f);
        }
        new_children.push(f);
        i = i + 1;
        assert(rest@ =~= orig.subrange(i as int, orig.len() as int));
    }
    let r = TagNode { tag, own: own2, children: new_children, range, formula };
    assert(tviews(orig).len() == orig.len());
    assert(tview(r) =~= restrict(nv, strs(params@)));
    r
}

/// A copy of a tag tree.
pub fn copy_tag_node(n: &TagNode) -> (r: TagNode)
    ensures
        tview(r) == tview(*n),
    decreases n,
{
    let mut kids: Vec<TagNode> = Vec::new();
    let mut i: usize = 0;
    proof {
        lemma_tviews(n.children@);
    }
    while i < n.children.len()
        invariant
            i <= n.children@.len(),
            tviews(kids@) == tviews(n.children@.subrange(0, i as int)),
        decreases n.children@.len() - i,
    {
        proof {
            assert(decreases_to!(*n => n.children));
            assert(decreases_to!(n.children => n.children[i as int]));
        }
        let c = copy_tag_node(&n.children[i]);
        proof {
            lemma_tviews_push(kids@, c);
            assert(n.children@.subrange(0, i + 1) =~= n.children@.subrange(0, i as int).push(
                n.children@[i as int],
            ));
            lemma_tviews_push(n.children@.subrange(0, i as int), n.children@[i as int]);
        }
        kids.push(c);
        i = i + 1;
    }
    assert(n.children@.subrange(0, n.children@.len() as int) =~= n.children@);
    let r = TagNode {
        tag: copy_string(&n.tag),
        own: copy_strings(&n.own),
        children: kids,
        range: n.range,
        formula: copy_string(&n.formula),
    };
    assert(tview(r) =~= tview(*n));
    r
}


/// Builds a macro entry from the parsed body, restricted to its parameters.
pub fn build_entry(name: String, params: &Vec<String>, body: MetaInfo) -> (r: MacroEntry)
    ensures
        r.name@ == name@,
        strs(r.level0@) == keep_params(strs(body.own@), strs(params@)),
        tviews(r.tree@) == restrict_all(
            tviews(body.children@),
            strs(params@),
            body.children@.len(),
        ),
{
    let level0 = filter_params(&body.own, params);
    let ghost orig = body.children@;
    let n_kids = body.children.len();
    proof {
        lemma_tviews(orig);
    }
    let mut rest = body.children;
    let mut tree: Vec<TagNode> = Vec::new();
    let mut i: usize = 0;
    while rest.len() > 0
        invariant
            i <= orig.len(),
            orig.len() == n_kids,
            tviews(orig).len() == orig.len(),
            rest@ == orig.subrange(i as int, orig.len() as int),
            tviews(orig).len() == orig.len(),
            forall|k: int| 0 <= k < orig.len() ==> #[trigger] tviews(orig)[k] == tview(orig[k]),
            tviews(tree@) == restrict_all(tviews(orig), strs(params@), i as nat),
        decreases rest@.len(),
    {
        let c = rest.remove(0);
        assert(c == orig[i as int]);
        let f = filter_node(c, params);
        proof {
            lemma_tviews_push(tree@, f);
        }
        tree.push(f);
        i = i + 1;
        assert(rest@ =~= orig.subrange(i as int, orig.len() as int));
    }
    MacroEntry { name, level0, tree }
}

// ---------------------------------------------------------------------------
// Flat view.
// ---------------------------------------------------------------------------

/// Every variable of a tag and of its nested tags, each once, in the order
/// first met: the tag's own ones, then each child's in turn.
pub open spec fn agg(n: Tag) -> Seq<Seq<char>>
    decreases n, 0nat,
{
    agg_children(n.children, n.children.len(), add_all_unique(Seq::empty(), n.own))
}

/// `acc` extended with the aggregated variables of the first `k` trees.
pub open spec fn agg_children(kids: Seq<Tag>, k: nat, acc: Seq<Seq<char>>) -> Seq<Seq<char>>
    decreases kids, k,
{
    if k == 0 || k > kids.len() {
        acc
    } else {
        add_all_unique(agg_children(kids, (k - 1) as nat, acc), agg(kids[k - 1]))
    }
}

/// All the variables of a node, recursively aggregating its children.
pub fn aggregate(node: &TagNode) -> (r: Vec<String>)
    ensures
        strs(r@) == agg(tview(*node)),
    decreases node,
{
    let mut out: Vec<String> = Vec::new();
    push_all_unique(&mut out, &node.own);
    assert(strs(out@) == add_all_unique(Seq::empty(), strs(node.own@))) by {
        assert(strs(Seq::<String>::empty()) =~= Seq::<Seq<char>>::empty());
    }
    let ghost kids = tviews(node.children@);
    proof {
        lemma_tviews(node.children@);
    }
    let mut i: usize = 0;
    while i < node.children.len()
        invariant
            kids == tviews(node.children@),
            kids.len() == node.children@.len(),
            forall|k: int| 0 <= k < node.children@.len() ==> #[trigger] kids[k] == tview(
                node.children@[k],
            ),
            i <= node.children@.len(),
            strs(out@) == agg_children(kids, i as nat, add_all_unique(Seq::empty(), strs(node.own@))),
        decreases node.children@.len() - i,
    {
        proof {
            assert(decreases_to!(*node => node.children));
            assert(decreases_to!(node.children => node.children[i as int]));
        }
        let sub = aggregate(&node.children[i]);
        push_all_unique(&mut out, &sub);
        i = i + 1;
    }
    out
}

/// Pairs `(tag, variables)` with their keys as character sequences.
pub open spec fn pair_views(v: Seq<(String, Vec<String>)>) -> Seq<(Seq<char>, Seq<Seq<char>>)> {
    v.map_values(|p: (String, Vec<String>)| (p.0@, strs(p.1@)))
}

/// Index of the first pair whose key is `k`, if any.
pub open spec fn key_index<K, V>(pairs: Seq<(K, V)>, k: K) -> Option<int>
    decreases pairs.len(),
{
    if pairs.len() == 0 {
        None
    } else {
        match key_index(pairs.drop_last(), k) {
            Some(i) => Some(i),
            None => if pairs.last().0 == k {
                Some(pairs.len() - 1)
            } else {
                None
            },
        }
    }
}

pub proof fn lemma_key_index<K, V>(pairs: Seq<(K, V)>, k: K)
    ensures
        key_index(pairs, k) matches Some(i) ==> 0 <= i < pairs.len() && pairs[i].0 == k
            && forall|j: int| 0 <= j < i ==> pairs[j].0 != k,
        key_index(pairs, k) is None ==> forall|j: int| 0 <= j < pairs.len() ==> pairs[j].0 != k,
    decreases pairs.len(),
{
    if pairs.len() > 0 {
        let d = pairs.drop_last();
        lemma_key_index(d, k);
        match key_index(d, k) {
            Some(i) => {
                assert forall|j: int| 0 <= j < i implies pairs[j].0 != k by {
                    assert(d[j] == pairs[j]);
                }
            },
            None => {
                assert forall|j: int| 0 <= j < pairs.len() - 1 implies pairs[j].0 != k by {
                    assert(d[j] == pairs[j]);
                }
            },
        }
    }
}

pub proof fn lemma_key_index_push<K, V>(pairs: Seq<(K, V)>, p: (K, V), k: K)
    ensures
        key_index(pairs.push(p), k) == (match key_index(pairs, k) {
            Some(i) => Some(i),
            None => if p.0 == k {
                Some(pairs.len() as int)
            } else {
                None
            },
        }),
{
    assert(pairs.push(p).drop_last() =~= pairs);
}

pub proof fn lemma_key_index_update<K, V>(pairs: Seq<(K, V)>, i: int, v: V, k: K)
    requires
        0 <= i < pairs.len(),
    ensures
        key_index(pairs.update(i, (pairs[i].0, v)), k) == key_index(pairs, k),
{
    let q = pairs.update(i, (pairs[i].0, v));
    lemma_key_index(pairs, k);
    lemma_key_index(q, k);
    match key_index(pairs, k) {
        Some(a) => {
            match key_index(q, k) {
                Some(b) => {
                    if a < b {
                        assert(q[a].0 == pairs[a].0);
                    } else if b < a {
                        assert(q[b].0 == pairs[b].0);
                    }
                },
                None => {
                    assert(q[a].0 == pairs[a].0);
                },
            }
        },
        None => {
            if let Some(b) = key_index(q, k) {
                assert(q[b].0 == pairs[b].0);
            }
        },
    }
}

/// A tag seen for the first time is appended; a tag seen again gets only the
/// variables it does not have yet.
pub open spec fn merge_into(
    pairs: Seq<(Seq<char>, Seq<Seq<char>>)>,
    tag: Seq<char>,
    syms: Seq<Seq<char>>,
) -> Seq<(Seq<char>, Seq<Seq<char>>)> {
    match key_index(pairs, tag) {
        Some(i) => pairs.update(i, (tag, add_all_unique(pairs[i].1, syms))),
        None => pairs.push((tag, syms)),
    }
}

/// Merges `(tag, syms)` into `into` (see [`merge_into`]).
pub fn merge_pair(into: &mut Vec<(String, Vec<String>)>, tag: String, syms: Vec<String>)
    ensures
        pair_views(final(into)@) == merge_into(pair_views(old(into)@), tag@, strs(syms@)),
{
    let ghost pv = pair_views(into@);
    proof {
        lemma_key_index(pv, tag@);
    }
    let mut i: usize = 0;
    while i < into.len()
        invariant
            pv == pair_views(into@),
            into@ == old(into)@,
            i <= into@.len(),
            forall|j: int| 0 <= j < i ==> pv[j].0 != tag@,
        decreases into@.len() - i,
    {
        if string_eq(&into[i].0, &tag) {
            assert(pv[i as int].0 == tag@);
            assert(key_index(pv, tag@) == Some(i as int)) by {
                lemma_key_index(pv, tag@);
            }
            let mut entry = into.remove(i);
            push_all_unique(&mut entry.1, &syms);
            into.insert(i, entry);
            assert(pair_views(into@) =~= merge_into(pv, tag@, strs(syms@)));
            return ;
        }
        i = i + 1;
    }
    assert(key_index(pv, tag@) is None) by {
        lemma_key_index(pv, tag@);
    }
    into.push((tag, syms));
    assert(pair_views(into@) =~= merge_into(pv, tag@, strs(syms@)));
}


// ---------------------------------------------------------------------------
// JSON output.
// ---------------------------------------------------------------------------

/// The first `n` strings as quoted JSON literals separated by `", "`.
pub open spec fn json_items(items: Seq<Seq<char>>, n: nat) -> Seq<char>
    decreases n,
{
    if n == 0 || n > items.len() {
        Seq::empty()
    } else if n == 1 {
        json_quoted(items[0])
    } else {
        json_items(items, (n - 1) as nat) + seq![',', ' '] + json_quoted(items[n - 1])
    }
}

/// A JSON array of strings.
pub open spec fn json_list(items: Seq<Seq<char>>) -> Seq<char> {
    seq!['['] + json_items(items, items.len()) + seq![']']
}

/// Appends `items` as a JSON array of strings.
pub fn push_json_array(out: &mut String, items: &Vec<String>)
    ensures
        final(out)@ == old(out)@ + json_list(strs(items@)),
{
    let ghost o = old(out)@;
    let ghost iv = strs(items@);
    push_char(out, '[');
    let mut i: usize = 0;
    while i < items.len()
        invariant
            iv == strs(items@),
            i <= items@.len(),
            out@ == o.push('[') + json_items(iv, i as nat),
        decreases items@.len() - i,
    {
        if i > 0 {
            push_char(out, ',');
            push_char(out, ' ');
        }
        push_json_string(out, items[i].as_str());
        assert(iv[i as int] == items@[i as int]@);
        assert(out@ =~= o.push('[') + json_items(iv, (i + 1) as nat));
        i = i + 1;
    }
    push_char(out, ']');
    assert(out@ =~= o + json_list(iv));
}

/// The `(tag, variables)` pairs of the flat view of one macro: `level0`
/// first, then each top-level tag with all it aggregates, a repeated tag
/// merged into its first occurrence.
pub open spec fn flat_pairs(level0: Seq<Seq<char>>, tree: Seq<Tag>, k: nat) -> Seq<
    (Seq<char>, Seq<Seq<char>>),
>
    decreases k,
{
    if k == 0 || k > tree.len() {
        seq![("level0"@, level0)]
    } else {
        merge_into(flat_pairs(level0, tree, (k - 1) as nat), tree[k - 1].tag, agg(tree[k - 1]))
    }
}

/// One `"tag": [...]` line of the flat JSON, with its trailing comma unless
/// it is the last.
pub open spec fn pair_line(p: (Seq<char>, Seq<Seq<char>>), last: bool) -> Seq<char> {
    seq![' ', ' ', ' ', ' '] + json_quoted(p.0) + seq![':', ' '] + json_list(p.1) + (if last {
        Seq::empty()
    } else {
        seq![',']
    }) + seq!['\n']
}

/// The lines of the first `n` pairs.
pub open spec fn pair_lines(pairs: Seq<(Seq<char>, Seq<Seq<char>>)>, n: nat) -> Seq<char>
    decreases n,
{
    if n == 0 || n > pairs.len() {
        Seq::empty()
    } else {
        pair_lines(pairs, (n - 1) as nat) + pair_line(pairs[n - 1], n == pairs.len())
    }
}

/// The JSON object of one macro in the flat view, with its trailing comma
/// unless it is the last.
pub open spec fn macro_block(m: (Seq<char>, Seq<Seq<char>>, Seq<Tag>), last: bool) -> Seq<char> {
    let pairs = flat_pairs(m.1, m.2, m.2.len());
    seq![' ', ' '] + json_quoted(m.0) + seq![':', ' ', '{', '\n'] + pair_lines(pairs, pairs.len())
        + seq![' ', ' ', '}'] + (if last {
        Seq::empty()
    } else {
        seq![',']
    }) + seq!['\n']
}

pub open spec fn macro_blocks(ms: Seq<(Seq<char>, Seq<Seq<char>>, Seq<Tag>)>, n: nat) -> Seq<char>
    decreases n,
{
    if n == 0 || n > ms.len() {
        Seq::empty()
    } else {
        macro_blocks(ms, (n - 1) as nat) + macro_block(ms[n - 1], n == ms.len())
    }
}

/// The views of a sequence of macro entries.
pub open spec fn entry_views(v: Seq<MacroEntry>) -> Seq<(Seq<char>, Seq<Seq<char>>, Seq<Tag>)> {
    v.map_values(|m: MacroEntry| entry_view(m))
}

/// Flat view: `{ macro: { "level0": [...], "<top-level tag>": [all...] } }`.
pub open spec fn flat_json(ms: Seq<(Seq<char>, Seq<Seq<char>>, Seq<Tag>)>) -> Seq<char> {
    seq!['{', '\n'] + macro_blocks(ms, ms.len()) + seq!['}']
}

fn flat_pairs_exec(m: &MacroEntry) -> (r: Vec<(String, Vec<String>)>)
    ensures
        pair_views(r@) == flat_pairs(strs(m.level0@), tviews(m.tree@), m.tree@.len()),
{
    let mut pairs: Vec<(String, Vec<String>)> = Vec::new();
    pairs.push((string_from("level0"), copy_strings(&m.level0)));
    let ghost tv = tviews(m.tree@);
    proof {
        lemma_tviews(m.tree@);
    }
    assert(pair_views(pairs@) =~= flat_pairs(strs(m.level0@), tv, 0));
    let mut i: usize = 0;
    while i < m.tree.len()
        invariant
            tv == tviews(m.tree@),
            tv.len() == m.tree@.len(),
            forall|k: int| 0 <= k < m.tree@.len() ==> #[trigger] tv[k] == tview(m.tree@[k]),
            i <= m.tree@.len(),
            pair_views(pairs@) == flat_pairs(strs(m.level0@), tv, i as nat),
        decreases m.tree@.len() - i,
    {
        let node = &m.tree[i];
        let syms = aggregate(node);
        merge_pair(&mut pairs, copy_string(&node.tag), syms);
        i = i + 1;
    }
    pairs
}

fn push_macro_block(out: &mut String, m: &MacroEntry, last: bool)
    ensures
        final(out)@ == old(out)@ + macro_block(entry_view(*m), last),
{
    let pairs = flat_pairs_exec(m);
    let ghost before = out@;
    let ghost pv = pair_views(pairs@);
    proof {
        lemma_tviews(m.tree@);
    }
    push_str(out, "  ");
    push_json_string(out, m.name.as_str());
    push_str(out, ": {\n");
    let ghost head = out@;
    let mut pi: usize = 0;
    while pi < pairs.len()
        invariant
            pv == pair_views(pairs@),
            pi <= pairs@.len(),
            out@ == head + pair_lines(pv, pi as nat),
        decreases pairs@.len() - pi,
    {
        let ghost b2 = out@;
        push_str(out, "    ");
        push_json_string(out, pairs[pi].0.as_str());
        push_str(out, ": ");
        push_json_array(out, &pairs[pi].1);
        if pi + 1 < pairs.len() {
            push_char(out, ',');
        }
        push_char(out, '\n');
        proof {
            reveal_strlit("    ");
            reveal_strlit(": ");
            assert(out@ =~= b2 + pair_line(pv[pi as int], pi + 1 == pv.len()));
        }
        pi = pi + 1;
    }
    push_str(out, "  }");
    if !last {
        push_char(out, ',');
    }
    push_char(out, '\n');
    proof {
        reveal_strlit("  ");
        reveal_strlit(": {\n");
        reveal_strlit("  }");
        assert(out@ =~= before + macro_block(entry_view(*m), last));
    }
}

/// Flat view of every macro (see [`flat_json`]).
pub fn to_json_flat(macros: &Vec<MacroEntry>) -> (r: String)
    ensures
        r@ == flat_json(entry_views(macros@)),
{
    let ghost ms = entry_views(macros@);
    let mut out = string_from("{\n");
    assert(out@ =~= seq!['{', '\n']) by {
        reveal_strlit("{\n");
    }
    let mut mi: usize = 0;
    while mi < macros.len()
        invariant
            ms == entry_views(macros@),
            mi <= macros@.len(),
            out@ == seq!['{', '\n'] + macro_blocks(ms, mi as nat),
        decreases macros@.len() - mi,
    {
        push_macro_block(&mut out, &macros[mi], mi + 1 == macros.len());
        assert(ms[mi as int] == entry_view(macros@[mi as int]));
        assert(out@ =~= seq!['{', '\n'] + macro_blocks(ms, (mi + 1) as nat));
        mi = mi + 1;
    }
    push_char(&mut out, '}');
    out
}


// ---------------------------------------------------------------------------
// Assembling the tree bottom-up, one term at a time.
// ---------------------------------------------------------------------------

/// The value of a [`MetaInfo`].
#[verifier::ext_equal]
pub struct Meta {
    pub own: Seq<Seq<char>>,
    pub children: Seq<Tag>,
    pub range: Option<(usize, usize)>,
}

pub open spec fn mview(m: MetaInfo) -> Meta {
    Meta { own: strs(m.own@), children: tviews(m.children@), range: m.range }
}

pub open spec fn mviews(v: Seq<MetaInfo>) -> Seq<Meta> {
    v.map_values(|m: MetaInfo| mview(m))
}

/// A constant contributes no symbol.
pub fn term_constant(range: (usize, usize)) -> (r: MetaInfo)
    ensures
        mview(r) == (Meta { own: Seq::empty(), children: Seq::empty(), range: Some(range) }),
{
    let r = MetaInfo { own: Vec::new(), children: Vec::new(), range: Some(range) };
    assert(mview(r) =~= (Meta { own: Seq::empty(), children: Seq::empty(), range: Some(range) }));
    r
}

/// An identifier contributes itself.
pub fn term_identifier(range: (usize, usize), identifier: String) -> (r: MetaInfo)
    ensures
        mview(r) == (Meta { own: seq![identifier@], children: Seq::empty(), range: Some(range) }),
{
    let mut own: Vec<String> = Vec::new();
    let ghost id = identifier@;
    own.push(identifier);
    let r = MetaInfo { own, children: Vec::new(), range: Some(range) };
    assert(mview(r) =~= (Meta { own: seq![id], children: Seq::empty(), range: Some(range) }));
    r
}

/// The own symbols of the first `n` terms, concatenated.
pub open spec fn all_own(args: Seq<Meta>, n: nat) -> Seq<Seq<char>>
    decreases n,
{
    if n == 0 || n > args.len() {
        Seq::empty()
    } else {
        all_own(args, (n - 1) as nat) + args[n - 1].own
    }
}

/// The tags of the first `n` terms, concatenated.
pub open spec fn all_children(args: Seq<Meta>, n: nat) -> Seq<Tag>
    decreases n,
{
    if n == 0 || n > args.len() {
        Seq::empty()
    } else {
        all_children(args, (n - 1) as nat) + args[n - 1].children
    }
}

/// The synthetic tag `"and<k>"`.
pub open spec fn and_tag(k: nat) -> Seq<char> {
    seq!['a', 'n', 'd'] + decimal(k)
}

/// The tags of the first `n` branches of an `and`, with the number of
/// synthetic tags made so far: a branch with symbols of its own (so no tag of
/// its own) becomes `"and<k>"`, and its inner tags follow it.
pub open spec fn and_children(args: Seq<Meta>, n: nat) -> (Seq<Tag>, nat)
    decreases n,
{
    if n == 0 || n > args.len() {
        (Seq::empty(), 0)
    } else {
        let (prev, k) = and_children(args, (n - 1) as nat);
        let a = args[n - 1];
        if a.own.len() > 0 {
            (
                prev.push(
                    Tag {
                        tag: and_tag(k),
                        own: a.own,
                        children: Seq::empty(),
                        range: a.range,
                        formula: Seq::empty(),
                    },
                ) + a.children,
                k + 1,
            )
        } else {
            (prev + a.children, k)
        }
    }
}

/// What an application of `identifier` to `args` contributes: each branch of
/// an `and` is a separate assertion and gets a node of its own; any other
/// operator is one assertion, whose symbols (its own name first) are merged.
pub open spec fn app_meta(range: (usize, usize), identifier: Seq<char>, args: Seq<Meta>) -> Meta {
    if identifier == seq!['a', 'n', 'd'] {
        Meta { own: Seq::empty(), children: and_children(args, args.len()).0, range: Some(range) }
    } else {
        Meta {
            own: add_all_unique(seq![identifier], all_own(args, args.len())),
            children: all_children(args, args.len()),
            range: Some(range),
        }
    }
}

fn append_nodes(dst: &mut Vec<TagNode>, src: Vec<TagNode>)
    ensures
        tviews(final(dst)@) == tviews(old(dst)@) + tviews(src@),
{
    let ghost s0 = src@;
    let mut src = src;
    let ghost d0 = dst@;
    proof {
        lemma_tviews_append(d0, s0);
    }
    dst.append(&mut src);
    assert(dst@ =~= d0 + s0);
}

/// The `"and<k>"` tag name.
fn and_tag_exec(k: usize) -> (r: String)
    ensures
        r@ == and_tag(k as nat),
{
    let mut r = string_from("and");
    proof {
        reveal_strlit("and");
    }
    push_decimal(&mut r, k);
    r
}

/// See [`app_meta`].
pub fn term_app(range: (usize, usize), identifier: String, args: Vec<MetaInfo>) -> (r: MetaInfo)
    ensures
        mview(r) == app_meta(range, identifier@, mviews(args@)),
{
    let ghost av = mviews(args@);
    let ghost a0 = args@;
    let n_args = args.len();
    let ghost id = identifier@;
    let is_and = str_eq(identifier.as_str(), "and");
    proof {
        reveal_strlit("and");
        assert("and"@ =~= seq!['a', 'n', 'd']);
    }
    assert(is_and == (id == seq!['a', 'n', 'd']));
    let mut rest = args;
    let mut i: usize = 0;
    if is_and {
        let mut children: Vec<TagNode> = Vec::new();
        let mut and_index: usize = 0;
        while rest.len() > 0
            invariant
                av == mviews(a0),
                is_and == (id == seq!['a', 'n', 'd']),
                i <= a0.len(),
                a0.len() == n_args,
                rest@ == a0.subrange(i as int, a0.len() as int),
                tviews(children@) == and_children(av, i as nat).0,
                and_index == and_children(av, i as nat).1,
                and_index <= i,
            decreases rest@.len(),
        {
            let a = rest.remove(0);
            assert(mview(a) == av[i as int]);
            let MetaInfo { own, children: kids, range: arange } = a;
            if own.len() > 0 {
                let node = TagNode {
                    tag: and_tag_exec(and_index),
                    own,
                    children: Vec::new(),
                    range: arange,
                    formula: String::new(),
                };
                proof {
                    lemma_tviews_push(children@, node);
                }
                children.push(node);
                assert(tview(node) =~= Tag {
                    tag: and_tag(and_index as nat),
                    own: av[i as int].own,
                    children: Seq::empty(),
                    range: av[i as int].range,
                    formula: Seq::empty(),
                });
                and_index = and_index + 1;
            } else {
                assert(strs(own@).len() == 0);
            }
            append_nodes(&mut children, kids);
            i = i + 1;
            assert(rest@ =~= a0.subrange(i as int, a0.len() as int));
        }
        let r = MetaInfo { own: Vec::new(), children, range: Some(range) };
        assert(i == a0.len());
        assert(mview(r) =~= app_meta(range, id, av));
        r
    } else {
        let mut own: Vec<String> = Vec::new();
        own.push(identifier);
        assert(strs(own@) =~= seq![id]);
        let mut children: Vec<TagNode> = Vec::new();
        while rest.len() > 0
            invariant
                av == mviews(a0),
                is_and == (id == seq!['a', 'n', 'd']),
                i <= a0.len(),
                a0.len() == n_args,
                rest@ == a0.subrange(i as int, a0.len() as int),
                strs(own@) == add_all_unique(seq![id], all_own(av, i as nat)),
                tviews(children@) == all_children(av, i as nat),
            decreases rest@.len(),
        {
            let a = rest.remove(0);
            assert(mview(a) == av[i as int]);
            let MetaInfo { own: aown, children: kids, range: _ } = a;
            push_all_unique(&mut own, &aown);
            proof {
                lemma_add_all_unique_append(seq![id], all_own(av, i as nat), av[i as int].own);
            }
            append_nodes(&mut children, kids);
            i = i + 1;
            assert(rest@ =~= a0.subrange(i as int, a0.len() as int));
        }
        let r = MetaInfo { own, children, range: Some(range) };
        assert(i == a0.len());
        assert(av.len() == a0.len());
        assert(id != seq!['a', 'n', 'd']);
        assert(mview(r).own == add_all_unique(seq![id], all_own(av, av.len())));
        assert(mview(r).children == all_children(av, av.len()));
        assert(mview(r) =~= app_meta(range, id, av));
        r
    }
}

pub proof fn lemma_add_all_unique_append<T>(acc: Seq<T>, a: Seq<T>, b: Seq<T>)
    ensures
        add_all_unique(acc, a + b) == add_all_unique(add_all_unique(acc, a), b),
    decreases b.len(),
{
    if b.len() == 0 {
        assert(a + b =~= a);
    } else {
        lemma_add_all_unique_append(acc, a, b.drop_last());
        assert((a + b).drop_last() =~= a + b.drop_last());
    }
}


/// Symbols and tags of several sub-terms that form one assertion: the
/// symbols merged without repetition, the tags concatenated, both in order.
pub open spec fn merged_meta(range: (usize, usize), terms: Seq<Meta>) -> Meta {
    Meta {
        own: add_all_unique(Seq::empty(), all_own(terms, terms.len())),
        children: all_children(terms, terms.len()),
        range: Some(range),
    }
}

fn merge_terms(range: (usize, usize), terms: Vec<MetaInfo>) -> (r: MetaInfo)
    ensures
        mview(r) == merged_meta(range, mviews(terms@)),
{
    let ghost av = mviews(terms@);
    let ghost a0 = terms@;
    let n_args = terms.len();
    let mut rest = terms;
    let mut i: usize = 0;
    let mut own: Vec<String> = Vec::new();
    let mut children: Vec<TagNode> = Vec::new();
    assert(strs(own@) =~= add_all_unique(Seq::<Seq<char>>::empty(), all_own(av, 0)));
    while rest.len() > 0
        invariant
            av == mviews(a0),
            i <= a0.len(),
                a0.len() == n_args,
            rest@ == a0.subrange(i as int, a0.len() as int),
            strs(own@) == add_all_unique(Seq::<Seq<char>>::empty(), all_own(av, i as nat)),
            tviews(children@) == all_children(av, i as nat),
        decreases rest@.len(),
    {
        let a = rest.remove(0);
        assert(mview(a) == av[i as int]);
        let MetaInfo { own: aown, children: kids, range: _ } = a;
        push_all_unique(&mut own, &aown);
        proof {
            lemma_add_all_unique_append(Seq::<Seq<char>>::empty(), all_own(av, i as nat), av[i as int].own);
        }
        append_nodes(&mut children, kids);
        i = i + 1;
        assert(rest@ =~= a0.subrange(i as int, a0.len() as int));
    }
    MetaInfo { own, children, range: Some(range) }
}

/// `(let (bindings) body)`: the bindings' symbols and tags, then the body's.
pub fn term_let(range: (usize, usize), bindings: Vec<MetaInfo>, body: MetaInfo) -> (r: MetaInfo)
    ensures
        mview(r) == merged_meta(range, mviews(bindings@).push(mview(body))),
{
    let mut terms = bindings;
    let ghost b0 = terms@;
    terms.push(body);
    assert(mviews(terms@) =~= mviews(b0).push(mview(body)));
    merge_terms(range, terms)
}

/// `(match scrutinee cases)`: the scrutinee's symbols and tags, then each case body's.
pub fn term_match(range: (usize, usize), scrutinee: MetaInfo, cases: Vec<MetaInfo>) -> (r: MetaInfo)
    ensures
        mview(r) == merged_meta(range, seq![mview(scrutinee)] + mviews(cases@)),
{
    let mut terms: Vec<MetaInfo> = Vec::new();
    let ghost sv = mview(scrutinee);
    let ghost c0 = cases@;
    terms.push(scrutinee);
    let mut cases = cases;
    terms.append(&mut cases);
    assert(mviews(terms@) =~= seq![sv] + mviews(c0));
    merge_terms(range, terms)
}

/// The annotation of a `(! term ...)` with keyword `keyword` and value `value`.
pub fn attribute(keyword: &str, value: String) -> (r: Attr)
    ensures
        keyword@ == "meta-data"@ ==> r == Attr::MetaData(value),
        keyword@ != "meta-data"@ ==> r is Other,
{
    if str_eq(keyword, "meta-data") {
        Attr::MetaData(value)
    } else {
        Attr::Other
    }
}

/// The first `:meta-data` value among the annotations, if any.
pub open spec fn first_meta(attrs: Seq<Attr>) -> Option<Seq<char>>
    decreases attrs.len(),
{
    if attrs.len() == 0 {
        None
    } else {
        match attrs[0] {
            Attr::MetaData(t) => Some(t@),
            Attr::Other => first_meta(attrs.drop_first()),
        }
    }
}

/// `(! t attributes)`: with a `:meta-data`, everything `t` gathered is closed
/// inside a new tag (whose range is `t`'s own) and only that tag goes up;
/// otherwise `t` passes through untouched.
pub open spec fn annotated_meta(range: (usize, usize), t: Meta, meta: Option<Seq<char>>) -> Meta {
    match meta {
        Some(tag) => Meta {
            own: Seq::empty(),
            children: seq![
                Tag {
                    tag,
                    own: t.own,
                    children: t.children,
                    range: t.range,
                    formula: Seq::empty(),
                },
            ],
            range: Some(range),
        },
        None => t,
    }
}

/// See [`annotated_meta`].
pub fn term_annotated(range: (usize, usize), t: MetaInfo, attributes: Vec<Attr>) -> (r: MetaInfo)
    ensures
        mview(r) == annotated_meta(range, mview(t), first_meta(attributes@)),
{
    let ghost a0 = attributes@;
    let mut rest = attributes;
    let mut meta: Option<String> = None;
    while rest.len() > 0 && meta.is_none()
        invariant
            meta is None ==> first_meta(rest@) == first_meta(a0),
            meta matches Some(m) ==> first_meta(a0) == Some(m@),
        decreases rest@.len(),
    {
        let ghost r0 = rest@;
        let a = rest.remove(0);
        assert(rest@ =~= r0.drop_first());
        match a {
            Attr::MetaData(tag) => {
                meta = Some(tag);
            },
            Attr::Other => {},
        }
    }
    assert(meta is None ==> first_meta(a0) is None) by {
        if meta is None {
            assert(rest@.len() == 0);
        }
    }
    match meta {
        Some(tag) => {
            let MetaInfo { own, children, range: trange } = t;
            let node = TagNode { tag, own, children, range: trange, formula: String::new() };
            let mut kids: Vec<TagNode> = Vec::new();
            kids.push(node);
            proof {
                lemma_tviews_push(Seq::empty(), node);
                assert(Seq::<TagNode>::empty().push(node) =~= kids@);
            }
            let r = MetaInfo { own: Vec::new(), children: kids, range: Some(range) };
            assert(mview(r).own =~= Seq::<Seq<char>>::empty());
            r
        },
        None => t,
    }
}

// ---------------------------------------------------------------------------
// Formulas of the tags.
// ---------------------------------------------------------------------------

/// The tag's formula sliced out of the source characters at its range (when
/// the range lies within them), at every level.
pub open spec fn with_formulas(n: Tag, cs: Seq<char>) -> Tag
    decreases n, 0nat,
{
    Tag {
        tag: n.tag,
        own: n.own,
        children: with_formulas_all(n.children, cs, n.children.len()),
        range: n.range,
        formula: match n.range {
            Some((s, e)) => if s <= e && e <= cs.len() {
                cs.subrange(s as int, e as int)
            } else {
                n.formula
            },
            None => n.formula,
        },
    }
}

pub open spec fn with_formulas_all(s: Seq<Tag>, cs: Seq<char>, k: nat) -> Seq<Tag>
    decreases s, k,
{
    if k == 0 || k > s.len() {
        Seq::empty()
    } else {
        with_formulas_all(s, cs, (k - 1) as nat).push(with_formulas(s[k - 1], cs))
    }
}

/// Fills every tag's formula from the source characters (see [`with_formulas`]).
pub fn fill_formulas(node: TagNode, chars: &Vec<char>) -> (r: TagNode)
    ensures
        tview(r) == with_formulas(tview(node), chars@),
    decreases node,
{
    let ghost nv = tview(node);
    let ghost orig = node.children@;
    let n_kids = node.children.len();
    proof {
        lemma_tviews(orig);
        assert forall|k: int| 0 <= k < orig.len() implies decreases_to!(node => #[trigger] orig[k]) by {
            assert(decreases_to!(node => node.children));
            assert(decreases_to!(node.children => node.children[k]));
        }
    }
    let TagNode { tag, own, children, range, formula } = node;
    let mut formula = formula;
    match range {
        Some((start, end)) => {
            if start <= end && end <= chars.len() {
                formula = string_of(&chars.as_slice()[start..end]);
            }
        },
        None => {},
    }
    let mut rest = children;
    let mut new_children: Vec<TagNode> = Vec::new();
    let mut i: usize = 0;
    while rest.len() > 0
        invariant
            nv == tview(node),
            orig == node.children@,
            nv.children == tviews(orig),
            forall|k: int| 0 <= k < orig.len() ==> #[trigger] tviews(orig)[k] == tview(orig[k]),
            forall|k: int| 0 <= k < orig.len() ==> decreases_to!(node => #[trigger] orig[k]),
            i <= orig.len(),
            orig.len() == n_kids,
            tviews(orig).len() == orig.len(),
            rest@ == orig.subrange(i as int, orig.len() as int),
            tviews(new_children@) == with_formulas_all(nv.children, chars@, i as nat),
        decreases rest@.len(),
    {
        let c = rest.remove(0);
        assert(c == orig[i as int]);
        let f = fill_formulas(c, chars);
        proof {
            lemma_tviews_push(new_children@, f);
        }
        new_children.push(f);
        i = i + 1;
        assert(rest@ =~= orig.subrange(i as int, orig.len() as int));
    }
    let r = TagNode { tag, own, children: new_children, range, formula };
    assert(tviews(orig).len() == orig.len());
    assert(tview(r) =~= with_formulas(nv, chars@));
    r
}

/// Fills the formulas of every tag of every macro from the source text.
pub fn fill_entry_formulas(macros: Vec<MacroEntry>, source: &str) -> (r: Vec<MacroEntry>)
    ensures
        r@.len() == macros@.len(),
        forall|i: int| 0 <= i < r@.len() ==> (#[trigger] r@[i]).name@ == macros@[i].name@
            && strs(r@[i].level0@) == strs(macros@[i].level0@) && tviews(r@[i].tree@)
            == with_formulas_all(tviews(macros@[i].tree@), source@, macros@[i].tree@.len()),
{
    let chars = chars_of(source);
    let ghost m0 = macros@;
    let mut rest = macros;
    let mut out: Vec<MacroEntry> = Vec::new();
    while rest.len() > 0
        invariant
            chars@ == source@,
            out@.len() <= m0.len(),
            rest@ == m0.subrange(out@.len() as int, m0.len() as int),
            forall|i: int| 0 <= i < out@.len() ==> (#[trigger] out@[i]).name@ == m0[i].name@
                && strs(out@[i].level0@) == strs(m0[i].level0@) && tviews(out@[i].tree@)
                == with_formulas_all(tviews(m0[i].tree@), source@, m0[i].tree@.len()),
        decreases rest@.len(),
    {
        let ghost k = out@.len() as int;
        let m = rest.remove(0);
        assert(m == m0[k]);
        let MacroEntry { name, level0, tree } = m;
        let ghost t0 = tree@;
        proof {
            lemma_tviews(t0);
        }
        let mut trest = tree;
        let mut new_tree: Vec<TagNode> = Vec::new();
        while trest.len() > 0
            invariant
                chars@ == source@,
                new_tree@.len() <= t0.len(),
                trest@ == t0.subrange(new_tree@.len() as int, t0.len() as int),
                tviews(t0).len() == t0.len(),
                forall|j: int| 0 <= j < t0.len() ==> #[trigger] tviews(t0)[j] == tview(t0[j]),
                tviews(new_tree@) == with_formulas_all(tviews(t0), source@, new_tree@.len() as nat),
            decreases trest@.len(),
        {
            let ghost j = new_tree@.len() as int;
            let n = trest.remove(0);
            assert(n == t0[j]);
            let f = fill_formulas(n, &chars);
            proof {
                lemma_tviews_push(new_tree@, f);
            }
            new_tree.push(f);
            assert(trest@ =~= t0.subrange(new_tree@.len() as int, t0.len() as int));
        }
        out.push(MacroEntry { name, level0, tree: new_tree });
        assert(rest@ =~= m0.subrange(out@.len() as int, m0.len() as int));
    }
    out
}

} // verus!
