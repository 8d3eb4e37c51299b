//! Duplicate code: token sequences that recur, found with a suffix array
//! over the token streams of all files, and the families of files that
//! share several of them.
use vstd::prelude::*;
use crate::analyze::suffix::{is_lcp_array, is_suffix_array, lcp_array, suffix_array};
use crate::java::model::strings_view;
use crate::java::parse::{TreeModel, build_tree, java_parses, parse, syntax_of, tree_fits, SyntaxTree};
use crate::java::tree_query::{kind_is, text_of};
use crate::sort::{lemma_stable_sort_same_elements, sort_stable, stable_sort_of, Ordered};
use vstd::relations::{sorted_by, total_ordering};
use vstd::seq_lib::{lemma_multiset_commutative, lemma_sorted_unique};
use crate::text::{append_chars, ends_with_chars, from_chars, has_suffix, to_chars};
use crate::types::{CloneFamily, CloneGroup, CloneGroupView, CloneInstance, CloneInstanceView};

verus! {

pub const DEFAULT_MIN_TOKENS: usize = 50;
pub const DEFAULT_MIN_LINES: u32 = 5;

/// The tokens of one file: each token's key and the line it starts on.
pub struct FileTokens {
    pub path: String,
    pub keys: Vec<String>,
    pub lines: Vec<u32>,
}

pub struct DuplicationReport {
    pub groups: Vec<CloneGroup>,
    pub families: Vec<CloneFamily>,
}

// ---------------------------------------------------------------------------
// Tokens
// ---------------------------------------------------------------------------

pub open spec fn text_or_empty(t: TreeModel, i: int) -> Seq<char> {
    match t.text(i) {
        Some(s) => s,
        None => Seq::empty(),
    }
}

/// The line node `i` starts on (1-based).
pub open spec fn line_of(t: TreeModel, i: int) -> u32 {
    (t.nodes[i].start_row + 1) as u32
}

/// The tokens under node `i`, in order, as (key, line): comments give none;
/// a literal is its kind and text; another leaf is `id:` and its text for
/// an identifier, else its kind.
pub open spec fn tokens_at(t: TreeModel, i: int) -> Seq<(Seq<char>, u32)>
    decreases t.len() - i, 1int, 0int,
{
    if !(0 <= i < t.len()) {
        Seq::empty()
    } else {
        let k = t.kind(i);
        if k == "line_comment"@ || k == "block_comment"@ {
            Seq::empty()
        } else if has_suffix(k, "literal"@) {
            seq![(k + ":"@ + text_or_empty(t, i), line_of(t, i))]
        } else if t.nchildren(i) == 0 {
            seq![(if k == "identifier"@ || k == "type_identifier"@ {
                "id:"@ + text_or_empty(t, i)
            } else {
                k
            }, line_of(t, i))]
        } else {
            tokens_below(t, i, 0)
        }
    }
}

pub open spec fn tokens_below(t: TreeModel, i: int, k: int) -> Seq<(Seq<char>, u32)>
    decreases t.len() - i, 0int, t.nchildren(i) - k,
{
    if !(0 <= i < t.len()) || k < 0 || k >= t.nchildren(i) {
        Seq::empty()
    } else {
        let c = t.child(i, k);
        (if c <= i || c >= t.len() {
            Seq::empty()
        } else {
            tokens_at(t, c)
        }) + tokens_below(t, i, k + 1)
    }
}

pub open spec fn key_views(keys: Seq<String>) -> Seq<Seq<char>> {
    keys.map_values(|s: String| s@)
}

fn text_or_empty_exec(t: &SyntaxTree, i: usize) -> (r: Vec<char>)
    requires
        t.wf(),
        i < t.nodes@.len(),
    ensures
        r@ == text_or_empty(t@, i as int),
{
    match text_of(t, i) {
        Some(v) => v,
        None => Vec::new(),
    }
}

/// Appends the tokens under node `i`.
pub fn tokenize(t: &SyntaxTree, i: usize, keys: &mut Vec<String>, lines: &mut Vec<u32>)
    requires
        t.wf(),
        i < t.nodes@.len(),
    ensures
        key_views(final(keys)@) == key_views(old(keys)@) + tokens_at(t@, i as int).map_values(|p: (Seq<char>, u32)| p.0),
        final(lines)@ == old(lines)@ + tokens_at(t@, i as int).map_values(|p: (Seq<char>, u32)| p.1),
    decreases t.len() - i,
{
    proof {
        assert(t.node_wf(i as int));
    }
    let ghost k0 = key_views(keys@);
    let ghost l0 = lines@;
    let ghost toks = tokens_at(t@, i as int);
    if kind_is(t, i, "line_comment") || kind_is(t, i, "block_comment") {
        proof {
            assert(key_views(keys@) =~= k0 + toks.map_values(|p: (Seq<char>, u32)| p.0));
            assert(lines@ =~= l0 + toks.map_values(|p: (Seq<char>, u32)| p.1));
        }
        return;
    }
    let kind = to_chars(t.nodes[i].kind.as_str());
    let line: u32 = t.nodes[i].start_row + 1;
    if ends_with_chars(&kind, &to_chars("literal")) {
        let mut key = kind;
        key.push(':');
        let txt = text_or_empty_exec(t, i);
        append_chars(&mut key, &txt);
        proof {
            reveal_strlit(":");
            assert(key@ =~= t.kind(i as int) + ":"@ + text_or_empty(t@, i as int));
        }
        keys.push(from_chars(key.as_slice()));
        lines.push(line);
        proof {
            reveal_strlit(":");
            assert(key_views(keys@) =~= k0 + toks.map_values(|p: (Seq<char>, u32)| p.0));
            assert(lines@ =~= l0 + toks.map_values(|p: (Seq<char>, u32)| p.1));
        }
        return;
    }
    if t.nodes[i].child_count == 0 {
        let key = if kind_is(t, i, "identifier") || kind_is(t, i, "type_identifier") {
            let mut k = to_chars("id:");
            append_chars(&mut k, &text_or_empty_exec(t, i));
            k
        } else {
            kind
        };
        keys.push(from_chars(key.as_slice()));
        lines.push(line);
        proof {
            assert(key_views(keys@) =~= k0 + toks.map_values(|p: (Seq<char>, u32)| p.0));
            assert(lines@ =~= l0 + toks.map_values(|p: (Seq<char>, u32)| p.1));
        }
        return;
    }
    let n = t.nodes[i].child_count;
    let first = t.nodes[i].first_child;
    let total_len = t.nodes.len();
    let mut k: usize = 0;
    while k < n
        invariant
            t.wf(),
            i < t.nodes@.len(),
            t.node_wf(i as int),
            n == t.nchildren(i as int),
            n > 0,
            first == t.nodes@[i as int].first_child,
            first + n <= total_len,
            total_len == t.nodes@.len(),
            t.kind(i as int) != "line_comment"@,
            t.kind(i as int) != "block_comment"@,
            !has_suffix(t.kind(i as int), "literal"@),
            toks == tokens_at(t@, i as int),
            toks == tokens_below(t@, i as int, 0),
            k <= n,
            tokens_below(t@, i as int, 0) == (toks.subrange(0, toks.len() - tokens_below(t@, i as int, k as int).len()) + tokens_below(t@, i as int, k as int)),
            key_views(keys@) == k0 + toks.subrange(0, toks.len() - tokens_below(t@, i as int, k as int).len()).map_values(|p: (Seq<char>, u32)| p.0),
            lines@ == l0 + toks.subrange(0, toks.len() - tokens_below(t@, i as int, k as int).len()).map_values(|p: (Seq<char>, u32)| p.1),
        decreases n - k,
    {
        let c = first + k;
        let ghost before_k = key_views(keys@);
        let ghost before_l = lines@;
        let ghost rest = tokens_below(t@, i as int, k as int);
        let ghost rest2 = tokens_below(t@, i as int, k + 1);
        let ghost done = toks.subrange(0, toks.len() - rest.len());
        assert(rest == tokens_at(t@, c as int) + rest2);
        tokenize(t, c, keys, lines);
        proof {
            let done2 = toks.subrange(0, toks.len() - rest2.len());
            assert(done2 =~= done + tokens_at(t@, c as int));
            assert(key_views(keys@) =~= k0 + done2.map_values(|p: (Seq<char>, u32)| p.0));
            assert(lines@ =~= l0 + done2.map_values(|p: (Seq<char>, u32)| p.1));
            assert(tokens_below(t@, i as int, 0) =~= done2 + rest2);
        }
        k += 1;
    }
    proof {
        assert(tokens_below(t@, i as int, n as int) =~= Seq::<(Seq<char>, u32)>::empty());
        assert(toks.subrange(0, toks.len() as int) =~= toks);
    }
}

/// The tokens of a Java file: those of its syntax tree; `None` exactly when
/// it does not parse (or its tree does not fit a [`SyntaxTree`]).
pub fn file_tokens(path: String, source: &str) -> (r: Option<FileTokens>)
    ensures
        r is Some <==> java_parses(source@) && tree_fits(source@),
        r matches Some(f) ==> f.path@ == path@ && key_views(f.keys@) == tokens_at(
            syntax_of(source@),
            0,
        ).map_values(|p: (Seq<char>, u32)| p.0) && f.lines@ == tokens_at(syntax_of(source@), 0).map_values(
            |p: (Seq<char>, u32)| p.1,
        ),
{
    match parse(source) {
        Some(tree) => match build_tree(source, &tree) {
            Some(t) => {
                let mut keys: Vec<String> = Vec::new();
                let mut lines: Vec<u32> = Vec::new();
                tokenize(&t, 0, &mut keys, &mut lines);
                proof {
                    assert(key_views(keys@) =~= tokens_at(t@, 0).map_values(|p: (Seq<char>, u32)| p.0));
                    assert(lines@ =~= tokens_at(t@, 0).map_values(|p: (Seq<char>, u32)| p.1));
                }
                Some(FileTokens { path, keys, lines })
            },
            None => None,
        },
        None => None,
    }
}

// ---------------------------------------------------------------------------
// One integer text for all files
// ---------------------------------------------------------------------------

/// The layout being built: the keys met so far (each once, in order of first
/// use), the text, and for each text position its file and token offset.
pub type Layout = (Seq<Seq<char>>, Seq<i64>, Seq<usize>, Seq<usize>);

/// Position of `key` in `table`, or -1.
pub open spec fn find_key(table: Seq<Seq<char>>, key: Seq<char>) -> int
    decreases table.len(),
{
    if table.len() == 0 {
        -1
    } else if find_key(table.drop_last(), key) >= 0 {
        find_key(table.drop_last(), key)
    } else if table.last() == key {
        table.len() - 1
    } else {
        -1
    }
}

/// Token `i` of file `fid` goes into the text as its key's number: the
/// number it already has, or the next one.
pub open spec fn add_key(st: Layout, key: Seq<char>, fid: int, i: int) -> Layout {
    let f = find_key(st.0, key);
    let id: int = if f >= 0 {
        f + 1
    } else {
        st.0.len() as int + 1
    };
    (if f >= 0 {
        st.0
    } else {
        st.0.push(key)
    }, st.1.push(id as i64), st.2.push(fid as usize), st.3.push(i as usize))
}

pub open spec fn layout_file(files: Seq<FileTokens>, fid: int, i: int, st: Layout) -> Layout
    decreases i,
{
    if i <= 0 {
        st
    } else {
        add_key(layout_file(files, fid, i - 1, st), files[fid].keys@[i - 1]@, fid, i - 1)
    }
}

/// The tokens of the first `f` files, each file followed by its own
/// negative end marker (`-1`, `-2`, ...), which no other position matches.
pub open spec fn layout_upto(files: Seq<FileTokens>, f: int) -> Layout
    decreases f,
{
    if f <= 0 {
        (Seq::empty(), Seq::empty(), Seq::empty(), Seq::empty())
    } else {
        let st = layout_file(files, f - 1, files[f - 1].keys@.len() as int, layout_upto(files, f - 1));
        (st.0, st.1.push(-f as i64), st.2.push(usize::MAX), st.3.push(0usize))
    }
}

/// Total number of tokens of the first `f` files.
pub open spec fn tokens_upto(files: Seq<FileTokens>, f: int) -> int
    decreases f,
{
    if f <= 0 {
        0
    } else {
        tokens_upto(files, f - 1) + files[f - 1].keys@.len()
    }
}

proof fn lemma_find_key(table: Seq<Seq<char>>, key: Seq<char>)
    ensures
        -1 <= find_key(table, key) < table.len(),
        find_key(table, key) >= 0 ==> table[find_key(table, key)] == key,
        find_key(table, key) < 0 ==> !table.contains(key),
    decreases table.len(),
{
    if table.len() > 0 {
        lemma_find_key(table.drop_last(), key);
        if find_key(table.drop_last(), key) < 0 && table.last() != key {
            assert forall|k: int| 0 <= k < table.len() implies table[k] != key by {
                if k < table.len() - 1 {
                    assert(table.drop_last()[k] == table[k]);
                }
            }
        }
    }
}

proof fn lemma_layout_file_len(files: Seq<FileTokens>, fid: int, i: int, st: Layout)
    requires
        0 <= i,
        st.2.len() == st.1.len(),
        st.3.len() == st.1.len(),
    ensures
        layout_file(files, fid, i, st).1.len() == st.1.len() + i,
        layout_file(files, fid, i, st).2.len() == st.1.len() + i,
        layout_file(files, fid, i, st).3.len() == st.1.len() + i,
        layout_file(files, fid, i, st).0.len() <= st.0.len() + i,
    decreases i,
{
    if i > 0 {
        lemma_layout_file_len(files, fid, i - 1, st);
        lemma_find_key(layout_file(files, fid, i - 1, st).0, files[fid].keys@[i - 1]@);
    }
}

fn find_key_exec(table: &Vec<Vec<char>>, key: &Vec<char>) -> (r: Option<usize>)
    ensures
        ({
            let tv = table@.map_values(|k: Vec<char>| k@);
            match r {
                Some(i) => find_key(tv, key@) == i as int,
                None => find_key(tv, key@) == -1,
            }
        }),
{
    let ghost tv = table@.map_values(|k: Vec<char>| k@);
    let mut i: usize = 0;
    while i < table.len()
        invariant
            tv == table@.map_values(|k: Vec<char>| k@),
            i <= table@.len(),
            find_key(tv.subrange(0, i as int), key@) == -1,
        decreases table@.len() - i,
    {
        proof {
            assert(tv.subrange(0, i + 1).drop_last() =~= tv.subrange(0, i as int));
        }
        if crate::text::chars_eq(&table[i], key) {
            proof {
                lemma_find_key_prefix(tv, key@, i + 1);
            }
            return Some(i);
        }
        i += 1;
    }
    proof {
        assert(tv.subrange(0, tv.len() as int) =~= tv);
    }
    None
}

/// Once found in a prefix, a key is found at the same place in the whole.
proof fn lemma_find_key_prefix(table: Seq<Seq<char>>, key: Seq<char>, k: int)
    requires
        0 <= k <= table.len(),
        find_key(table.subrange(0, k), key) >= 0,
    ensures
        find_key(table, key) == find_key(table.subrange(0, k), key),
    decreases table.len() - k,
{
    if k < table.len() {
        assert(table.subrange(0, k + 1).drop_last() =~= table.subrange(0, k));
        lemma_find_key_prefix(table, key, k + 1);
    } else {
        assert(table.subrange(0, k) =~= table);
    }
}

/// The integer text of all files, with the file and offset of each position.
fn layout(files: &Vec<FileTokens>) -> (r: (Vec<i64>, Vec<usize>, Vec<usize>))
    requires
        tokens_upto(files@, files@.len() as int) + files@.len() < i64::MAX,
        tokens_upto(files@, files@.len() as int) + files@.len() < usize::MAX,
    ensures
        ({
            let l = layout_upto(files@, files@.len() as int);
            &&& r.0@ == l.1
            &&& r.1@ == l.2
            &&& r.2@ == l.3
        }),
{
    let mut table: Vec<Vec<char>> = Vec::new();
    let mut text: Vec<i64> = Vec::new();
    let mut owner: Vec<usize> = Vec::new();
    let mut offset: Vec<usize> = Vec::new();
    let mut fid: usize = 0;
    while fid < files.len()
        invariant
            tokens_upto(files@, files@.len() as int) + files@.len() < i64::MAX,
            tokens_upto(files@, files@.len() as int) + files@.len() < usize::MAX,
            fid <= files@.len(),
            ({
                let l = layout_upto(files@, fid as int);
                &&& table@.map_values(|k: Vec<char>| k@) == l.0
                &&& text@ == l.1
                &&& owner@ == l.2
                &&& offset@ == l.3
            }),
            text@.len() == tokens_upto(files@, fid as int) + fid,
            owner@.len() == text@.len(),
            offset@.len() == text@.len(),
            table@.len() <= text@.len(),
        decreases files@.len() - fid,
    {
        proof {
            lemma_tokens_upto_mono(files@, fid + 1, files@.len() as int);
        }
        let keys = &files[fid].keys;
        let ghost base = layout_upto(files@, fid as int);
        let ghost base_len = text@.len();
        let mut i: usize = 0;
        while i < keys.len()
            invariant
                tokens_upto(files@, fid + 1) + fid + 1 <= tokens_upto(files@, files@.len() as int) + files@.len(),
                tokens_upto(files@, files@.len() as int) + files@.len() < i64::MAX,
                tokens_upto(files@, files@.len() as int) + files@.len() < usize::MAX,
                fid < files@.len(),
                keys == files@[fid as int].keys,
                i <= keys@.len(),
                base_len == tokens_upto(files@, fid as int) + fid,
                ({
                    let l = layout_file(files@, fid as int, i as int, base);
                    &&& table@.map_values(|k: Vec<char>| k@) == l.0
                    &&& text@ == l.1
                    &&& owner@ == l.2
                    &&& offset@ == l.3
                }),
                text@.len() == base_len + i,
                owner@.len() == text@.len(),
                offset@.len() == text@.len(),
                table@.len() <= text@.len(),
            decreases keys@.len() - i,
        {
            let key = to_chars(keys[i].as_str());
            let ghost tv = table@.map_values(|k: Vec<char>| k@);
            proof {
                lemma_find_key(tv, key@);
                assert(tokens_upto(files@, fid + 1) == tokens_upto(files@, fid as int) + keys@.len());
                assert(text@.len() < tokens_upto(files@, fid + 1) + fid);
            }
            proof {
                assert(table@.len() < i64::MAX);
            }
            let id: i64 = match find_key_exec(&table, &key) {
                Some(k) => {
                    let len_now = table.len();
                    assert(k < len_now);
                    let next: usize = k + 1;
                    next as i64
                },
                None => {
                    let n = table.len();
                    table.push(key);
                    proof {
                        assert(table@.map_values(|k: Vec<char>| k@) =~= tv.push(keys@[i as int]@));
                    }
                    let next: usize = n + 1;
                    next as i64
                },
            };
            text.push(id);
            owner.push(fid);
            offset.push(i);
            i += 1;
        }
        proof {
            assert(fid + 1 <= files@.len());
            assert(files@.len() < i64::MAX);
        }
        text.push(-((fid + 1) as i64));
        owner.push(usize::MAX);
        offset.push(0);
        fid += 1;
    }
    (text, owner, offset)
}

proof fn lemma_tokens_upto_mono(files: Seq<FileTokens>, a: int, b: int)
    requires
        0 <= a <= b <= files.len(),
    ensures
        0 <= tokens_upto(files, a) <= tokens_upto(files, b),
    decreases b - a,
{
    if a < b {
        lemma_tokens_upto_mono(files, a, b - 1);
    } else {
        lemma_tokens_upto_nonneg(files, a);
    }
}

proof fn lemma_tokens_upto_nonneg(files: Seq<FileTokens>, a: int)
    ensures
        0 <= tokens_upto(files, a),
    decreases a,
{
    if a > 0 {
        lemma_tokens_upto_nonneg(files, a - 1);
    }
}

// ---------------------------------------------------------------------------
// Ascending positions
// ---------------------------------------------------------------------------

pub open spec fn pos_leq() -> spec_fn(usize, usize) -> bool {
    |a: usize, b: usize| a <= b
}

proof fn lemma_pos_leq_total()
    ensures
        total_ordering(pos_leq()),
{
    let leq = pos_leq();
    assert(vstd::relations::reflexive(leq));
    assert(vstd::relations::antisymmetric(leq));
    assert(vstd::relations::transitive(leq));
    assert(vstd::relations::strongly_connected(leq));
}

proof fn lemma_insert_multiset(s: Seq<usize>, i: int, x: usize)
    requires
        0 <= i <= s.len(),
    ensures
        s.insert(i, x).to_multiset() =~= s.to_multiset().insert(x),
{
    broadcast use vstd::multiset::group_multiset_axioms;
    broadcast use vstd::seq_lib::group_to_multiset_ensures;

    let a = s.subrange(0, i);
    let b = s.subrange(i, s.len() as int);
    assert(s.insert(i, x) =~= a + seq![x] + b);
    assert(s =~= a + b);
    lemma_multiset_commutative(a + seq![x], b);
    lemma_multiset_commutative(a, seq![x]);
    lemma_multiset_commutative(a, b);
    assert(seq![x].to_multiset() =~= vstd::multiset::Multiset::<usize>::empty().insert(x)) by {
        assert(seq![x] =~= Seq::<usize>::empty().push(x));
    }
}

/// The positions in ascending order.
fn sort_positions(v: &Vec<usize>) -> (r: Vec<usize>)
    ensures
        r@ == v@.sort_by(pos_leq()),
{
    broadcast use vstd::seq_lib::group_to_multiset_ensures;

    let mut out: Vec<usize> = Vec::new();
    let mut i: usize = 0;
    while i < v.len()
        invariant
            i <= v@.len(),
            sorted_by(out@, pos_leq()),
            out@.to_multiset() == v@.subrange(0, i as int).to_multiset(),
            out@.len() == i,
        decreases v@.len() - i,
    {
        let x = v[i];
        let mut k: usize = 0;
        while k < out.len() && out[k] <= x
            invariant
                k <= out@.len(),
                forall|m: int| 0 <= m < k ==> out@[m] <= x,
            decreases out@.len() - k,
        {
            k += 1;
        }
        let ghost before = out@;
        out.insert(k, x);
        proof {
            lemma_insert_multiset(before, k as int, x);
            assert(out@ == before.insert(k as int, x));
            assert(v@.subrange(0, i + 1) =~= v@.subrange(0, i as int).push(x));
            v@.subrange(0, i as int).to_multiset_ensures();
            assert(v@.subrange(0, i as int).push(x).to_multiset() =~= v@.subrange(0, i as int).to_multiset().insert(x));
            assert(out@.to_multiset() =~= v@.subrange(0, i + 1).to_multiset());
            assert forall|p: int, q: int| 0 <= p < q < out@.len() implies #[trigger] (pos_leq())(out@[p], out@[q]) by {
                if q < k {
                    assert(out@[p] == before[p] && out@[q] == before[q]);
                } else if q == k {
                    assert(out@[p] == before[p]);
                } else if p < k {
                    assert(out@[q] == before[q - 1]);
                    assert(out@[p] == before[p]);
                    if k < before.len() {
                        assert(before[k as int] > x);
                        assert((pos_leq())(before[p], before[k as int]));
                        assert((pos_leq())(before[k as int], before[q - 1]) || k == q - 1);
                    }
                } else if p == k {
                    assert(out@[q] == before[q - 1]);
                    assert(before[k as int] > x);
                    if k < q - 1 {
                        assert((pos_leq())(before[k as int], before[q - 1]));
                    }
                } else {
                    assert(out@[p] == before[p - 1] && out@[q] == before[q - 1]);
                }
            }
        }
        i += 1;
    }
    proof {
        assert(v@.subrange(0, v@.len() as int) =~= v@);
        lemma_pos_leq_total();
        v@.lemma_sort_by_ensures(pos_leq());
        lemma_sorted_unique(out@, v@.sort_by(pos_leq()), pos_leq());
    }
    out
}

// ---------------------------------------------------------------------------
// One clone group
// ---------------------------------------------------------------------------

/// Each file has a line per token, lines never go down, and lines start at 1.
pub open spec fn tokens_ok(files: Seq<FileTokens>) -> bool {
    forall|f: int| 0 <= f < files.len() ==> lines_ok(#[trigger] files[f])
}

/// A line per token, lines never going down, starting at 1.
pub open spec fn lines_ok(f: FileTokens) -> bool {
    &&& f.lines@.len() == f.keys@.len()
    &&& forall|a: int, b: int| 0 <= a <= b < f.lines@.len() ==> 1 <= #[trigger] f.lines@[a] <= #[trigger] f.lines@[b]
}

/// Each token position names a token of its file.
pub open spec fn layout_ok(files: Seq<FileTokens>, owner: Seq<usize>, offset: Seq<usize>) -> bool {
    &&& owner.len() == offset.len()
    &&& forall|p: int|
        0 <= p < owner.len() && #[trigger] owner[p] != usize::MAX ==> owner[p] < files.len() && offset[p]
            < files[owner[p] as int].keys@.len()
}

/// The positions among `ps` that are tokens (not file ends), in order.
pub open spec fn token_positions(owner: Seq<usize>, ps: Seq<usize>) -> Seq<usize>
    decreases ps.len(),
{
    if ps.len() == 0 {
        Seq::empty()
    } else if owner[ps.last() as int] != usize::MAX {
        token_positions(owner, ps.drop_last()).push(ps.last())
    } else {
        token_positions(owner, ps.drop_last())
    }
}

/// The copy that starts at token `off` of file `fid` and runs `length`
/// tokens (cut at the file's last token): its file and first and last lines.
pub open spec fn instance_at(files: Seq<FileTokens>, fid: int, off: int, length: int) -> CloneInstanceView {
    let lines = files[fid].lines@;
    let last_tok = if lines.len() == 0 {
        0
    } else {
        lines.len() - 1
    };
    let end_tok = if off + length - 1 < last_tok {
        off + length - 1
    } else {
        last_tok
    };
    CloneInstanceView { file: files[fid].path@, start_line: lines[off], end_line: lines[end_tok] }
}

/// The copies at the first `k` positions of `spans`, a copy dropped when it
/// starts inside the previous kept copy of the same file.
pub open spec fn instances_upto(
    files: Seq<FileTokens>,
    owner: Seq<usize>,
    offset: Seq<usize>,
    spans: Seq<usize>,
    length: int,
    k: int,
) -> (Seq<CloneInstanceView>, Option<(usize, usize)>)
    decreases k,
{
    if k <= 0 {
        (Seq::empty(), None)
    } else {
        let st = instances_upto(files, owner, offset, spans, length, k - 1);
        let p = spans[k - 1] as int;
        let fid = owner[p];
        let off = offset[p];
        if st.1 matches Some(l) && l.0 == fid && off < l.1 + length {
            st
        } else {
            (st.0.push(instance_at(files, fid as int, off as int, length)), Some((fid, off)))
        }
    }
}

/// The most lines any of the copies spans.
pub open spec fn max_lines(insts: Seq<CloneInstanceView>) -> int
    decreases insts.len(),
{
    if insts.len() == 0 {
        0
    } else {
        let m = max_lines(insts.drop_last());
        let l = insts.last().end_line - insts.last().start_line + 1;
        if l > m {
            l
        } else {
            m
        }
    }
}

/// The group the positions `ps` of one run make, sharing `length` tokens:
/// their copies in file order, when there are two or more and the longest
/// spans at least `min_lines` lines.
pub open spec fn group_of(
    files: Seq<FileTokens>,
    owner: Seq<usize>,
    offset: Seq<usize>,
    ps: Seq<usize>,
    length: usize,
    min_lines: u32,
) -> Option<CloneGroupView> {
    let spans = token_positions(owner, ps).sort_by(pos_leq());
    let insts = instances_upto(files, owner, offset, spans, length as int, spans.len() as int).0;
    if insts.len() < 2 {
        None
    } else if max_lines(insts) < min_lines {
        None
    } else {
        Some(CloneGroupView { instances: insts, token_count: length, line_count: max_lines(insts) as u32 })
    }
}

proof fn lemma_token_positions(owner: Seq<usize>, ps: Seq<usize>)
    ensures
        forall|k: int| 0 <= k < token_positions(owner, ps).len() ==> ps.contains(#[trigger] token_positions(owner, ps)[k]) && owner[token_positions(owner, ps)[k] as int] != usize::MAX,
    decreases ps.len(),
{
    if ps.len() > 0 {
        lemma_token_positions(owner, ps.drop_last());
        let r = token_positions(owner, ps.drop_last());
        assert forall|k: int| 0 <= k < r.len() implies ps.contains(#[trigger] r[k]) by {
            let j = choose|j: int| 0 <= j < ps.drop_last().len() && ps.drop_last()[j] == r[k];
            assert(ps[j] == r[k]);
        }
    }
}

proof fn lemma_max_lines(insts: Seq<CloneInstanceView>)
    requires
        forall|k: int| 0 <= k < insts.len() ==> 1 <= (#[trigger] insts[k]).start_line <= insts[k].end_line,
    ensures
        0 <= max_lines(insts) <= u32::MAX,
    decreases insts.len(),
{
    if insts.len() > 0 {
        lemma_max_lines(insts.drop_last());
        assert(1 <= insts[insts.len() - 1].start_line);
    }
}

/// The copy at token `off` of file `fid`.
fn instance_exec(files: &Vec<FileTokens>, fid: usize, off: usize, length: usize) -> (r: CloneInstance)
    requires
        tokens_ok(files@),
        fid < files@.len(),
        off < files@[fid as int].lines@.len(),
        length >= 1,
    ensures
        r@ == instance_at(files@, fid as int, off as int, length as int),
        1 <= r.start_line <= r.end_line,
{
    let f = &files[fid];
    let n = f.lines.len();
    let end_tok = if length - 1 >= n - 1 - off {
        n - 1
    } else {
        off + length - 1
    };
    proof {
        assert(lines_ok(files@[fid as int]));
        let lines = files@[fid as int].lines@;
        assert(1 <= lines[off as int] <= lines[end_tok as int]);
    }
    CloneInstance { file: f.path.clone(), start_line: f.lines[off], end_line: f.lines[end_tok] }
}

/// Builds the group of one run: `ps` are its positions, `length` the
/// tokens they share.
pub fn build_group(
    files: &Vec<FileTokens>,
    owner: &Vec<usize>,
    offset: &Vec<usize>,
    ps: &Vec<usize>,
    length: usize,
    min_lines: u32,
) -> (r: Option<CloneGroup>)
    requires
        tokens_ok(files@),
        layout_ok(files@, owner@, offset@),
        forall|k: int| 0 <= k < ps@.len() ==> #[trigger] ps@[k] < owner@.len(),
        length >= 1,
    ensures
        match group_of(files@, owner@, offset@, ps@, length, min_lines) {
            Some(g) => r matches Some(x) && x@ == g,
            None => r is None,
        },
{
    let mut tp: Vec<usize> = Vec::new();
    let mut k: usize = 0;
    while k < ps.len()
        invariant
            forall|j: int| 0 <= j < ps@.len() ==> #[trigger] ps@[j] < owner@.len(),
            k <= ps@.len(),
            tp@ == token_positions(owner@, ps@.subrange(0, k as int)),
        decreases ps@.len() - k,
    {
        proof {
            assert(ps@.subrange(0, k + 1).drop_last() =~= ps@.subrange(0, k as int));
        }
        if owner[ps[k]] != usize::MAX {
            tp.push(ps[k]);
        }
        k += 1;
    }
    proof {
        assert(ps@.subrange(0, ps@.len() as int) =~= ps@);
        lemma_token_positions(owner@, ps@);
    }
    let spans = sort_positions(&tp);
    let ghost sv = spans@;
    proof {
        lemma_pos_leq_total();
        tp@.lemma_sort_by_ensures(pos_leq());
        assert forall|j: int| 0 <= j < sv.len() implies tp@.contains(#[trigger] sv[j]) by {
            assert(sv.to_multiset().count(sv[j]) > 0) by {
                sv.to_multiset_ensures();
                assert(sv.contains(sv[j]));
            }
            tp@.to_multiset_ensures();
        }
    }
    let mut insts: Vec<CloneInstance> = Vec::new();
    let mut last: Option<(usize, usize)> = None;
    let mut i: usize = 0;
    while i < spans.len()
        invariant
            tokens_ok(files@),
            layout_ok(files@, owner@, offset@),
            forall|j: int| 0 <= j < ps@.len() ==> #[trigger] ps@[j] < owner@.len(),
            length >= 1,
            sv == spans@,
            forall|j: int| 0 <= j < sv.len() ==> tp@.contains(#[trigger] sv[j]),
            forall|j: int| 0 <= j < tp@.len() ==> ps@.contains(#[trigger] tp@[j]) && owner@[tp@[j] as int] != usize::MAX,
            i <= sv.len(),
            ({
                let st = instances_upto(files@, owner@, offset@, sv, length as int, i as int);
                &&& insts@.map_values(|x: CloneInstance| x@) == st.0
                &&& last == st.1
            }),
            forall|j: int| 0 <= j < insts@.len() ==> 1 <= (#[trigger] insts@[j]).start_line <= insts@[j].end_line,
        decreases sv.len() - i,
    {
        let p = spans[i];
        proof {
            assert(tp@.contains(p));
            let j = choose|j: int| 0 <= j < tp@.len() && tp@[j] == p;
            assert(ps@.contains(p));
            let q = choose|q: int| 0 <= q < ps@.len() && ps@[q] == p;
            assert(p < owner@.len());
            assert(owner@[p as int] != usize::MAX);
        }
        let fid = owner[p];
        let off = offset[p];
        let skip = match last {
            Some((lf, lo)) => lf == fid && (off as u128) < (lo as u128) + (length as u128),
            None => false,
        };
        if !skip {
            proof {
                assert(lines_ok(files@[fid as int]));
                assert(files@[fid as int].lines@.len() == files@[fid as int].keys@.len());
            }
            let inst = instance_exec(files, fid, off, length);
            let ghost before = insts@;
            insts.push(inst);
            proof {
                assert(insts@.map_values(|x: CloneInstance| x@) =~= before.map_values(|x: CloneInstance| x@).push(inst@));
            }
            last = Some((fid, off));
        }
        i += 1;
    }
    let ghost iv = insts@.map_values(|x: CloneInstance| x@);
    proof {
        assert forall|j: int| 0 <= j < iv.len() implies 1 <= (#[trigger] iv[j]).start_line <= iv[j].end_line by {
            assert(iv[j] == insts@[j]@);
        }
        lemma_max_lines(iv);
    }
    if insts.len() < 2 {
        return None;
    }
    let mut lc: u32 = 0;
    let mut j: usize = 0;
    while j < insts.len()
        invariant
            iv == insts@.map_values(|x: CloneInstance| x@),
            forall|m: int| 0 <= m < insts@.len() ==> 1 <= (#[trigger] insts@[m]).start_line <= insts@[m].end_line,
            j <= insts@.len(),
            lc == max_lines(iv.subrange(0, j as int)),
        decreases insts@.len() - j,
    {
        proof {
            assert(iv.subrange(0, j + 1).drop_last() =~= iv.subrange(0, j as int));
            assert(iv[j as int] == insts@[j as int]@);
        }
        let l = insts[j].end_line - insts[j].start_line + 1;
        if l > lc {
            lc = l;
        }
        j += 1;
    }
    proof {
        assert(iv.subrange(0, iv.len() as int) =~= iv);
    }
    if lc < min_lines {
        return None;
    }
    Some(CloneGroup { instances: insts, token_count: length, line_count: lc })
}

// ---------------------------------------------------------------------------
// All groups
// ---------------------------------------------------------------------------

proof fn lemma_layout_file_ok(files: Seq<FileTokens>, fid: int, i: int, st: Layout)
    requires
        0 <= fid < files.len(),
        files.len() <= usize::MAX,
        files[fid].keys@.len() <= usize::MAX,
        0 <= i <= files[fid].keys@.len(),
        layout_ok(files, st.2, st.3),
        st.1.len() == st.2.len(),
    ensures
        layout_ok(files, layout_file(files, fid, i, st).2, layout_file(files, fid, i, st).3),
        layout_file(files, fid, i, st).1.len() == layout_file(files, fid, i, st).2.len(),
    decreases i,
{
    if i > 0 {
        lemma_layout_file_ok(files, fid, i - 1, st);
        let prev = layout_file(files, fid, i - 1, st);
        let next = layout_file(files, fid, i, st);
        assert(next.2 == prev.2.push(fid as usize));
        assert(next.3 == prev.3.push((i - 1) as usize));
        assert forall|p: int| 0 <= p < next.2.len() && #[trigger] next.2[p] != usize::MAX implies next.2[p] < files.len()
            && next.3[p] < files[next.2[p] as int].keys@.len() by {
            if p < prev.2.len() {
                assert(next.2[p] == prev.2[p] && next.3[p] == prev.3[p]);
            }
        }
    }
}

proof fn lemma_layout_ok(files: Seq<FileTokens>, f: int)
    requires
        0 <= f <= files.len(),
        files.len() <= usize::MAX,
        forall|x: int| 0 <= x < files.len() ==> (#[trigger] files[x]).keys@.len() <= usize::MAX,
    ensures
        layout_ok(files, layout_upto(files, f).2, layout_upto(files, f).3),
        layout_upto(files, f).1.len() == layout_upto(files, f).2.len(),
    decreases f,
{
    if f > 0 {
        lemma_layout_ok(files, f - 1);
        let st = layout_upto(files, f - 1);
        lemma_layout_file_ok(files, f - 1, files[f - 1].keys@.len() as int, st);
        let mid = layout_file(files, f - 1, files[f - 1].keys@.len() as int, st);
        let next = layout_upto(files, f);
        assert forall|p: int| 0 <= p < next.2.len() && #[trigger] next.2[p] != usize::MAX implies next.2[p] < files.len()
            && next.3[p] < files[next.2[p] as int].keys@.len() by {
            if p < mid.2.len() {
                assert(next.2[p] == mid.2[p] && next.3[p] == mid.3[p]);
            }
        }
    }
}

/// The key of the token at position `p` of a layout.
pub open spec fn key_at(files: Seq<FileTokens>, owner: Seq<usize>, offset: Seq<usize>, p: int) -> Seq<char> {
    files[owner[p] as int].keys@[offset[p] as int]@
}

/// What a layout of the first `nf` files holds: file ends are negative
/// (falling, from `-1` down to `-nf`); a token is one more than the place of
/// its key in the table; neighbouring tokens are neighbours in one file.
pub open spec fn layout_inv(files: Seq<FileTokens>, st: Layout, nf: int) -> bool {
    let tab = st.0;
    let t = st.1;
    let owner = st.2;
    let offset = st.3;
    &&& t.len() == owner.len()
    &&& t.len() == offset.len()
    &&& tab.len() <= t.len()
    &&& forall|p: int| 0 <= p < t.len() ==> ((#[trigger] owner[p] == usize::MAX) <==> t[p] < 0)
    &&& forall|p: int| 0 <= p < t.len() && #[trigger] t[p] < 0 ==> -nf <= t[p]
    &&& forall|p: int, q: int|
        0 <= p < q < t.len() && t[p] < 0 && t[q] < 0 ==> #[trigger] t[q] < #[trigger] t[p]
    &&& forall|p: int|
        0 <= p < t.len() && #[trigger] owner[p] != usize::MAX ==> find_key(
            tab,
            key_at(files, owner, offset, p),
        ) >= 0 && t[p] == find_key(tab, key_at(files, owner, offset, p)) + 1
    &&& forall|p: int|
        0 <= p && p + 1 < t.len() && owner[p] != usize::MAX && #[trigger] owner[p + 1]
            != usize::MAX ==> owner[p + 1] == owner[p] && offset[p + 1] == offset[p] + 1
}

proof fn lemma_find_key_push(tab: Seq<Seq<char>>, x: Seq<char>, key: Seq<char>)
    ensures
        find_key(tab, key) >= 0 ==> find_key(tab.push(x), key) == find_key(tab, key),
        find_key(tab, key) < 0 && x == key ==> find_key(tab.push(x), key) == tab.len(),
{
    assert(tab.push(x).drop_last() =~= tab);
}

proof fn lemma_layout_file_inv(files: Seq<FileTokens>, fid: int, i: int, st: Layout, nf: int)
    requires
        files.len() <= usize::MAX,
        files[fid].keys@.len() <= usize::MAX,
        0 <= fid < files.len(),
        0 <= i <= files[fid].keys@.len(),
        layout_inv(files, st, nf),
        st.1.len() == 0 || st.2.last() == usize::MAX,
        st.1.len() + i < i64::MAX,
    ensures
        layout_inv(files, layout_file(files, fid, i, st), nf),
        layout_file(files, fid, i, st).1.len() == st.1.len() + i,
        i > 0 ==> layout_file(files, fid, i, st).2.last() == fid && layout_file(files, fid, i, st).3.last()
            == i - 1,
    decreases i,
{
    if i > 0 {
        lemma_layout_file_inv(files, fid, i - 1, st, nf);
        let prev = layout_file(files, fid, i - 1, st);
        let key = files[fid].keys@[i - 1]@;
        let next = layout_file(files, fid, i, st);
        assert(next == add_key(prev, key, fid, i - 1));
        lemma_find_key(prev.0, key);
        let f = find_key(prev.0, key);
        let n = prev.1.len() as int;
        assert(next.1 == prev.1.push(next.1[n]));
        assert(next.2 == prev.2.push(fid as usize));
        assert(next.3 == prev.3.push((i - 1) as usize));
        assert(key_at(files, next.2, next.3, n) == key);
        assert forall|p: int| 0 <= p < n implies #[trigger] key_at(files, next.2, next.3, p) == key_at(
            files,
            prev.2,
            prev.3,
            p,
        ) by {
            assert(next.2[p] == prev.2[p] && next.3[p] == prev.3[p]);
        }
        assert forall|p: int| 0 <= p < n && #[trigger] prev.2[p] != usize::MAX implies find_key(
            next.0,
            key_at(files, prev.2, prev.3, p),
        ) == find_key(prev.0, key_at(files, prev.2, prev.3, p)) by {
            if f < 0 {
                lemma_find_key_push(prev.0, key, key_at(files, prev.2, prev.3, p));
            }
        }
        if f < 0 {
            lemma_find_key_push(prev.0, key, key);
        }
        assert(next.1[n] > 0);
        let t = next.1;
        let owner = next.2;
        let offset = next.3;
        assert forall|p: int| 0 <= p < t.len() implies ((#[trigger] owner[p] == usize::MAX) <==> t[p] < 0) by {
            if p < n {
                assert(owner[p] == prev.2[p] && t[p] == prev.1[p]);
            }
        }
        assert forall|p: int| 0 <= p < t.len() && #[trigger] t[p] < 0 implies -nf <= t[p] by {
            if p < n {
                assert(t[p] == prev.1[p]);
            }
        }
        assert forall|p: int, q: int| 0 <= p < q < t.len() && t[p] < 0 && t[q] < 0 implies #[trigger] t[q]
            < #[trigger] t[p] by {
            assert(t[p] == prev.1[p]);
            if q < n {
                assert(t[q] == prev.1[q]);
            }
        }
        assert forall|p: int| 0 <= p < t.len() && #[trigger] owner[p] != usize::MAX implies find_key(
            next.0,
            key_at(files, owner, offset, p),
        ) >= 0 && t[p] == find_key(next.0, key_at(files, owner, offset, p)) + 1 by {
            if p < n {
                assert(owner[p] == prev.2[p] && t[p] == prev.1[p]);
            }
        }
        assert forall|p: int| 0 <= p && p + 1 < t.len() && owner[p] != usize::MAX && #[trigger] owner[p
            + 1] != usize::MAX implies owner[p + 1] == owner[p] && offset[p + 1] == offset[p] + 1 by {
            if p + 1 < n {
                assert(owner[p] == prev.2[p] && owner[p + 1] == prev.2[p + 1]);
                assert(offset[p] == prev.3[p] && offset[p + 1] == prev.3[p + 1]);
            } else {
                assert(owner[p] == prev.2[p] && offset[p] == prev.3[p]);
                if i - 1 == 0 {
                    assert(prev == st);
                } else {
                    assert(prev.2.last() == fid && prev.3.last() == i - 2);
                }
            }
        }
    }
}

/// The layout of the first `f` files holds [`layout_inv`], and ends with a
/// file end.
proof fn lemma_layout_inv(files: Seq<FileTokens>, f: int)
    requires
        files.len() <= usize::MAX,
        forall|x: int| 0 <= x < files.len() ==> (#[trigger] files[x]).keys@.len() <= usize::MAX,
        0 <= f <= files.len(),
        tokens_upto(files, f) + f < i64::MAX,
    ensures
        layout_inv(files, layout_upto(files, f), f),
        layout_upto(files, f).1.len() == tokens_upto(files, f) + f,
        f > 0 ==> layout_upto(files, f).2.last() == usize::MAX,
    decreases f,
{
    if f > 0 {
        lemma_tokens_upto_nonneg(files, f - 1);
        lemma_layout_inv(files, f - 1);
        let st = layout_upto(files, f - 1);
        let len = files[f - 1].keys@.len() as int;
        lemma_layout_file_inv(files, f - 1, len, st, f - 1);
        let mid = layout_file(files, f - 1, len, st);
        let next = layout_upto(files, f);
        let n = mid.1.len() as int;
        assert(next.1 == mid.1.push(-f as i64));
        assert(next.2 == mid.2.push(usize::MAX));
        assert(next.3 == mid.3.push(0usize));
        let t = next.1;
        let owner = next.2;
        let offset = next.3;
        assert(t[n] == -f);
        assert forall|p: int| 0 <= p < n implies #[trigger] key_at(files, owner, offset, p) == key_at(
            files,
            mid.2,
            mid.3,
            p,
        ) by {
            assert(owner[p] == mid.2[p] && offset[p] == mid.3[p]);
        }
        assert forall|p: int| 0 <= p < t.len() implies ((#[trigger] owner[p] == usize::MAX) <==> t[p] < 0) by {
            if p < n {
                assert(owner[p] == mid.2[p] && t[p] == mid.1[p]);
            }
        }
        assert forall|p: int| 0 <= p < t.len() && #[trigger] t[p] < 0 implies -f <= t[p] by {
            if p < n {
                assert(t[p] == mid.1[p]);
            }
        }
        assert forall|p: int, q: int| 0 <= p < q < t.len() && t[p] < 0 && t[q] < 0 implies #[trigger] t[q]
            < #[trigger] t[p] by {
            assert(t[p] == mid.1[p]);
            if q < n {
                assert(t[q] == mid.1[q]);
            }
        }
        assert forall|p: int| 0 <= p < t.len() && #[trigger] owner[p] != usize::MAX implies find_key(
            next.0,
            key_at(files, owner, offset, p),
        ) >= 0 && t[p] == find_key(next.0, key_at(files, owner, offset, p)) + 1 by {
            if p < n {
                assert(owner[p] == mid.2[p] && t[p] == mid.1[p]);
            }
        }
        assert forall|p: int| 0 <= p && p + 1 < t.len() && owner[p] != usize::MAX && #[trigger] owner[p
            + 1] != usize::MAX implies owner[p + 1] == owner[p] && offset[p + 1] == offset[p] + 1 by {
            assert(owner[p] == mid.2[p] && owner[p + 1] == mid.2[p + 1]);
            assert(offset[p] == mid.3[p] && offset[p + 1] == mid.3[p + 1]);
        }
    }
}

/// Position `p + k` continues the token at `p` in its file, as does `q + k`
/// that at `q`, where the text at two different positions agrees for `len`
/// symbols.
proof fn lemma_shared_step(files: Seq<FileTokens>, st: Layout, nf: int, p: int, q: int, len: int, k: int)
    requires
        layout_inv(files, st, nf),
        0 <= p < st.1.len(),
        0 <= q < st.1.len(),
        p != q,
        0 <= k < len,
        p + len <= st.1.len(),
        q + len <= st.1.len(),
        forall|x: int| 0 <= x < len ==> #[trigger] st.1[p + x] == st.1[q + x],
    ensures
        st.2[p + k] != usize::MAX && st.2[p + k] == st.2[p] && st.3[p + k] == st.3[p] + k,
        st.2[q + k] != usize::MAX && st.2[q + k] == st.2[q] && st.3[q + k] == st.3[q] + k,
    decreases k,
{
    let t = st.1;
    assert(t[p + k] == t[q + k]);
    if t[p + k] < 0 {
        if p + k < q + k {
            assert(t[q + k] < t[p + k]);
        } else {
            assert(t[p + k] < t[q + k]);
        }
    }
    assert(st.2[p + k] != usize::MAX);
    assert(st.2[q + k] != usize::MAX);
    if k > 0 {
        lemma_shared_step(files, st, nf, p, q, len, k - 1);
        assert(st.2[(p + k - 1) + 1] != usize::MAX);
        assert(st.2[(q + k - 1) + 1] != usize::MAX);
    }
}

/// Copies at two different positions whose text agrees for `len` symbols:
/// both are `len` tokens of their files, with the same keys.
proof fn lemma_shared_run(files: Seq<FileTokens>, st: Layout, nf: int, p: int, q: int, len: int)
    requires
        layout_inv(files, st, nf),
        layout_ok(files, st.2, st.3),
        0 <= p < st.1.len(),
        0 <= q < st.1.len(),
        p != q,
        len >= 1,
        p + len <= st.1.len(),
        q + len <= st.1.len(),
        forall|x: int| 0 <= x < len ==> #[trigger] st.1[p + x] == st.1[q + x],
    ensures
        st.2[p] != usize::MAX,
        st.2[q] != usize::MAX,
        st.3[p] + len <= files[st.2[p] as int].keys@.len(),
        st.3[q] + len <= files[st.2[q] as int].keys@.len(),
        same_keys(files, st.2[p] as int, st.3[p] as int, st.2[q] as int, st.3[q] as int, len),
{
    lemma_shared_step(files, st, nf, p, q, len, 0);
    lemma_shared_step(files, st, nf, p, q, len, len - 1);
    assert(st.2[p + (len - 1)] != usize::MAX);
    assert(st.2[q + (len - 1)] != usize::MAX);
    assert forall|k: int| 0 <= k < len implies #[trigger] files[st.2[p] as int].keys@[st.3[p] + k]@
        == files[st.2[q] as int].keys@[st.3[q] + k]@ by {
        lemma_shared_step(files, st, nf, p, q, len, k);
        assert(st.1[p + k] == st.1[q + k]);
        assert(st.2[p + k] != usize::MAX);
        assert(st.2[q + k] != usize::MAX);
        let kp = key_at(files, st.2, st.3, p + k);
        let kq = key_at(files, st.2, st.3, q + k);
        lemma_find_key(st.0, kp);
        lemma_find_key(st.0, kq);
    }
}

/// Copies of `len` tokens at offset `oa` of file `fa` and `ob` of file `fb`
/// have the same keys.
pub open spec fn same_keys(files: Seq<FileTokens>, fa: int, oa: int, fb: int, ob: int, len: int) -> bool {
    forall|k: int| 0 <= k < len ==> #[trigger] files[fa].keys@[oa + k]@ == files[fb].keys@[ob + k]@
}

/// The end of the run of `lcp` values of at least `m` that goes on at `j`.
pub open spec fn run_end(lcp: Seq<usize>, m: usize, j: int) -> int
    decreases lcp.len() - j,
{
    if 0 <= j < lcp.len() && lcp[j] >= m {
        run_end(lcp, m, j + 1)
    } else {
        j
    }
}

/// The least of `lcp[i..j]`.
pub open spec fn run_min(lcp: Seq<usize>, i: int, j: int) -> int
    decreases j - i,
{
    if j <= i + 1 {
        lcp[i] as int
    } else {
        let m = run_min(lcp, i, j - 1);
        if (lcp[j - 1] as int) < m {
            lcp[j - 1] as int
        } else {
            m
        }
    }
}

/// The groups of the runs from `i` on: each maximal run `i..j` of `lcp`
/// values of at least `m` makes the suffixes `sa[i - 1..j]` one candidate
/// group sharing the run's least value of tokens.
pub open spec fn found_from(
    files: Seq<FileTokens>,
    owner: Seq<usize>,
    offset: Seq<usize>,
    sa: Seq<usize>,
    lcp: Seq<usize>,
    m: usize,
    min_lines: u32,
    i: int,
) -> Seq<CloneGroupView>
    decreases lcp.len() - i,
{
    if i < 1 || i >= lcp.len() {
        Seq::empty()
    } else if lcp[i] >= m {
        let j = run_end(lcp, m, i);
        let next = if i < j && j <= lcp.len() {
            j
        } else {
            i + 1
        };
        (match group_of(files, owner, offset, sa.subrange(i - 1, j), run_min(lcp, i, j) as usize, min_lines) {
            Some(g) => seq![g],
            None => Seq::empty(),
        }) + found_from(files, owner, offset, sa, lcp, m, min_lines, next)
    } else {
        found_from(files, owner, offset, sa, lcp, m, min_lines, i + 1)
    }
}

/// Larger groups first: by lines, then by tokens.
impl Ordered for CloneGroup {
    open spec fn le(a: Self, b: Self) -> bool {
        a.line_count > b.line_count || (a.line_count == b.line_count && a.token_count >= b.token_count)
    }

    proof fn le_total(a: Self, b: Self) {
    }

    proof fn le_trans(a: Self, b: Self, c: Self) {
    }

    fn le_exec(&self, other: &Self) -> (r: bool) {
        self.line_count > other.line_count || (self.line_count == other.line_count && self.token_count
            >= other.token_count)
    }
}

pub open spec fn group_views(gs: Seq<CloneGroup>) -> Seq<CloneGroupView> {
    gs.map_values(|g: CloneGroup| g@)
}

/// Every copy of `g` lies within a span already kept for its file.
pub open spec fn covered(g: CloneGroupView, kept: Seq<(Seq<char>, u32, u32)>) -> bool {
    forall|x: int| 0 <= x < g.instances.len() ==> #[trigger] within(g.instances[x], kept)
}

/// Copy `i` lies within one of the `kept` spans of its file.
pub open spec fn within(i: CloneInstanceView, kept: Seq<(Seq<char>, u32, u32)>) -> bool {
    exists|k: int| 0 <= k < kept.len() && kept[k].0 == i.file && kept[k].1 <= i.start_line && i.end_line <= kept[k].2
}

pub open spec fn spans_of(g: CloneGroupView) -> Seq<(Seq<char>, u32, u32)> {
    g.instances.map_values(|i: CloneInstanceView| (i.file, i.start_line, i.end_line))
}

/// Groups kept among the first `k`: a group whose copies all lie within
/// copies of groups kept before it is dropped.
pub open spec fn retained(gs: Seq<CloneGroupView>, k: int) -> (Seq<CloneGroupView>, Seq<(Seq<char>, u32, u32)>)
    decreases k,
{
    if k <= 0 {
        (Seq::empty(), Seq::empty())
    } else {
        let st = retained(gs, k - 1);
        if covered(gs[k - 1], st.1) {
            st
        } else {
            (st.0.push(gs[k - 1]), st.1 + spans_of(gs[k - 1]))
        }
    }
}

fn is_covered(g: &CloneGroup, kept: &Vec<(String, u32, u32)>) -> (r: bool)
    ensures
        r == covered(g@, kept@.map_values(|s: (String, u32, u32)| (s.0@, s.1, s.2))),
{
    let ghost kv = kept@.map_values(|s: (String, u32, u32)| (s.0@, s.1, s.2));
    let ghost gv = g@;
    let mut x: usize = 0;
    while x < g.instances.len()
        invariant
            kv == kept@.map_values(|s: (String, u32, u32)| (s.0@, s.1, s.2)),
            gv == g@,
            x <= g.instances@.len(),
            forall|y: int| 0 <= y < x ==> #[trigger] within(gv.instances[y], kv),
        decreases g.instances@.len() - x,
    {
        let inst = &g.instances[x];
        let mut found = false;
        let mut k: usize = 0;
        while k < kept.len()
            invariant
                kv == kept@.map_values(|s: (String, u32, u32)| (s.0@, s.1, s.2)),
                gv == g@,
                x < g.instances@.len(),
                inst == g.instances@[x as int],
                k <= kept@.len(),
                found == exists|m: int|
                    0 <= m < k && kv[m].0 == gv.instances[x as int].file && kv[m].1 <= gv.instances[x as int].start_line
                        && gv.instances[x as int].end_line <= kv[m].2,
                forall|y: int| 0 <= y < x ==> #[trigger] within(gv.instances[y], kv),
            decreases kept@.len() - k,
        {
            let s = &kept[k];
            proof {
                assert(kv[k as int] == (s.0@, s.1, s.2));
                assert(gv.instances[x as int] == inst@);
            }
            if str_eq_exec(s.0.as_str(), inst.file.as_str()) && s.1 <= inst.start_line && inst.end_line <= s.2 {
                found = true;
            }
            k += 1;
        }
        proof {
            if found {
                assert(within(gv.instances[x as int], kv));
            }
        }
        if !found {
            proof {
                assert(!within(gv.instances[x as int], kv));
            }
            return false;
        }
        x += 1;
    }
    proof {
        assert(gv.instances.len() == g.instances@.len());
    }
    true
}

fn str_eq_exec(a: &str, b: &str) -> (r: bool)
    ensures
        r == (a@ == b@),
{
    crate::text::str_eq(a, b)
}

/// Sorts the groups, larger first, and drops each group whose copies all lie
/// within copies of a larger group kept before it.
pub fn remove_line_subsets(groups: &mut Vec<CloneGroup>)
    ensures
        exists|sorted: Seq<CloneGroup>|
            #[trigger] stable_sort_of(old(groups)@, sorted) && group_views(final(groups)@) == retained(
                group_views(sorted),
                sorted.len() as int,
            ).0,
{
    let mut taken: Vec<CloneGroup> = Vec::new();
    std::mem::swap(&mut taken, groups);
    let sorted = sort_stable(taken);
    let ghost sv = group_views(sorted@);
    let mut kept: Vec<(String, u32, u32)> = Vec::new();
    let mut out: Vec<CloneGroup> = Vec::new();
    let mut rest = sorted;
    let ghost all = rest@;
    let mut i: usize = 0;
    let n = rest.len();
    proof {
        assert(group_views(out@) =~= Seq::<CloneGroupView>::empty());
        assert(kept@.map_values(|s: (String, u32, u32)| (s.0@, s.1, s.2)) =~= Seq::<(Seq<char>, u32, u32)>::empty());
    }
    while i < n
        invariant
            n == all.len(),
            sv == group_views(all),
            i <= n,
            rest@ == all.subrange(i as int, n as int),
            group_views(out@) == retained(sv, i as int).0,
            kept@.map_values(|s: (String, u32, u32)| (s.0@, s.1, s.2)) == retained(sv, i as int).1,
        decreases n - i,
    {
        let g = rest.remove(0);
        proof {
            assert(g == all[i as int]);
            assert(rest@ =~= all.subrange(i + 1, n as int));
            assert(sv[i as int] == g@);
        }
        if !is_covered(&g, &kept) {
            let ghost kv0 = kept@.map_values(|s: (String, u32, u32)| (s.0@, s.1, s.2));
            let mut x: usize = 0;
            while x < g.instances.len()
                invariant
                    x <= g.instances@.len(),
                    kept@.map_values(|s: (String, u32, u32)| (s.0@, s.1, s.2)) == kv0 + spans_of(g@).subrange(0, x as int),
                decreases g.instances@.len() - x,
            {
                let inst = &g.instances[x];
                let ghost before = kept@;
                proof {
                    assert(spans_of(g@)[x as int] == (inst.file@, inst.start_line, inst.end_line));
                }
                let item = (inst.file.clone(), inst.start_line, inst.end_line);
                proof {
                    assert(item.0@ == inst.file@);
                }
                kept.push(item);
                proof {
                    assert(kept@ == before.push(item));
                    assert(kept@.map_values(|s: (String, u32, u32)| (s.0@, s.1, s.2)) =~= before.map_values(|s: (String, u32, u32)| (s.0@, s.1, s.2)).push((item.0@, item.1, item.2)));
                    assert(kept@.map_values(|s: (String, u32, u32)| (s.0@, s.1, s.2)) =~= kv0 + spans_of(g@).subrange(0, x + 1));
                }
                x += 1;
            }
            proof {
                assert(spans_of(g@).subrange(0, spans_of(g@).len() as int) =~= spans_of(g@));
            }
            let ghost ob = out@;
            out.push(g);
            proof {
                assert(group_views(out@) =~= group_views(ob).push(sv[i as int]));
            }
        }
        i += 1;
    }
    *groups = out;
}

/// `r` is what detection reports on `files`: the groups of the runs of the
/// LCP array over the suffix array of all tokens, larger first, without
/// those that lie within larger ones.
pub open spec fn detected(files: Seq<FileTokens>, min_tokens: usize, min_lines: u32, r: Seq<CloneGroup>) -> bool {
    &&& files.len() == 0 ==> r.len() == 0
    &&& files.len() > 0 ==> exists|sa: Seq<usize>, lcp: Seq<usize>, found: Seq<CloneGroup>, kept: Seq<CloneGroup>|
        {
            &&& is_suffix_array(layout_upto(files, files.len() as int).1, sa)
            &&& #[trigger] is_lcp_array(layout_upto(files, files.len() as int).1, sa, lcp)
            &&& #[trigger] group_views(found) == found_from(
                files,
                layout_upto(files, files.len() as int).2,
                layout_upto(files, files.len() as int).3,
                sa,
                lcp,
                min_tokens,
                min_lines,
                1,
            )
            &&& exists|sorted: Seq<CloneGroup>|
                #[trigger] stable_sort_of(found, sorted) && group_views(kept) == retained(
                    group_views(sorted),
                    sorted.len() as int,
                ).0
            &&& #[trigger] stable_sort_of(kept, r)
        }
}

/// The clone groups of the files: the token sequences of at least
/// `min_tokens` tokens that occur more than once, as found on the suffix
/// array of all files' tokens, each kept when two or more copies remain and
/// it spans at least `min_lines` lines; then groups within larger ones
/// dropped, larger groups first.
pub fn detect(files: &Vec<FileTokens>, min_tokens: usize, min_lines: u32) -> (r: Vec<CloneGroup>)
    requires
        tokens_ok(files@),
        min_tokens >= 1,
        tokens_upto(files@, files@.len() as int) + files@.len() < i64::MAX,
        tokens_upto(files@, files@.len() as int) + files@.len() < usize::MAX,
    ensures
        detected(files@, min_tokens, min_lines, r@),
{
    if files.len() == 0 {
        return Vec::new();
    }
    let (text, owner, offset) = layout(files);
    let ghost l = layout_upto(files@, files@.len() as int);
    proof {
        assert forall|x: int| 0 <= x < files@.len() implies (#[trigger] files@[x]).keys@.len() <= usize::MAX by {
            lemma_tokens_upto_nonneg(files@, x);
            lemma_tokens_upto_mono(files@, x + 1, files@.len() as int);
        }
        lemma_layout_ok(files@, files@.len() as int);
    }
    let sa = suffix_array(&text);
    let lcp = lcp_array(&text, &sa);
    let n = text.len();
    let mut groups: Vec<CloneGroup> = Vec::new();
    let mut i: usize = 1;
    proof {
        assert(group_views(groups@) =~= Seq::<CloneGroupView>::empty());
    }
    while i < n
        invariant
            tokens_ok(files@),
            min_tokens >= 1,
            l == layout_upto(files@, files@.len() as int),
            text@ == l.1,
            owner@ == l.2,
            offset@ == l.3,
            layout_ok(files@, owner@, offset@),
            n == text@.len(),
            owner@.len() == n,
            is_suffix_array(text@, sa@),
            is_lcp_array(text@, sa@, lcp@),
            1 <= i,
            group_views(groups@) + found_from(files@, owner@, offset@, sa@, lcp@, min_tokens, min_lines, i as int)
                == found_from(files@, owner@, offset@, sa@, lcp@, min_tokens, min_lines, 1),
        decreases n - i,
    {
        if lcp[i] >= min_tokens {
            let start = i - 1;
            let mut j = i;
            let mut min_len = lcp[i];
            while j < n && lcp[j] >= min_tokens
                invariant
                    n == lcp@.len(),
                    1 <= i < n,
                    lcp@[i as int] >= min_tokens,
                    i <= j <= n,
                    run_end(lcp@, min_tokens, i as int) == run_end(lcp@, min_tokens, j as int),
                    min_len == run_min(lcp@, i as int, if j > i { j as int } else { i + 1 }),
                    min_len >= min_tokens,
                decreases n - j,
            {
                if lcp[j] < min_len {
                    min_len = lcp[j];
                }
                j += 1;
            }
            proof {
                assert(run_end(lcp@, min_tokens, j as int) == j);
                assert(j > i);
            }
            let mut positions: Vec<usize> = Vec::new();
            let mut k = start;
            while k < j
                invariant
                    start <= k <= j <= n,
                    is_suffix_array(text@, sa@),
                    n == text@.len(),
                    positions@ == sa@.subrange(start as int, k as int),
                decreases j - k,
            {
                positions.push(sa[k]);
                k += 1;
            }
            proof {
                assert forall|x: int| 0 <= x < positions@.len() implies #[trigger] positions@[x] < owner@.len() by {
                    assert(positions@[x] == sa@[start + x]);
                }
            }
            let ghost before = group_views(groups@);
            match build_group(files, &owner, &offset, &positions, min_len, min_lines) {
                Some(g) => {
                    groups.push(g);
                    proof {
                        assert(group_views(groups@) =~= before.push(g@));
                    }
                },
                None => {},
            }
            proof {
                let f_i = found_from(files@, owner@, offset@, sa@, lcp@, min_tokens, min_lines, i as int);
                let f_j = found_from(files@, owner@, offset@, sa@, lcp@, min_tokens, min_lines, j as int);
                let head = match group_of(files@, owner@, offset@, sa@.subrange(i - 1, j as int), min_len, min_lines) {
                    Some(g) => seq![g],
                    None => Seq::<CloneGroupView>::empty(),
                };
                assert(f_i == head + f_j);
                assert(group_views(groups@) == before + head);
                assert(group_views(groups@) + f_j =~= before + f_i);
            }
            i = j;
        } else {
            i += 1;
        }
    }
    proof {
        assert(found_from(files@, owner@, offset@, sa@, lcp@, min_tokens, min_lines, i as int) =~= Seq::<CloneGroupView>::empty());
        assert(group_views(groups@) =~= found_from(files@, owner@, offset@, sa@, lcp@, min_tokens, min_lines, 1));
    }
    let ghost found = groups@;
    remove_line_subsets(&mut groups);
    let ghost kept = groups@;
    let r = sort_stable(groups);
    r
}

// ---------------------------------------------------------------------------
// Clone families
// ---------------------------------------------------------------------------

/// The files a group's copies are in.
pub open spec fn file_set(g: CloneGroupView) -> Set<Seq<char>> {
    Set::new(|f: Seq<char>| exists|x: int| 0 <= x < g.instances.len() && (#[trigger] g.instances[x]).file == f)
}

/// Position of the first bucket whose file set is `s`, or -1.
pub open spec fn find_bucket(b: Seq<(Set<Seq<char>>, Seq<int>)>, s: Set<Seq<char>>) -> int
    decreases b.len(),
{
    if b.len() == 0 {
        -1
    } else if find_bucket(b.drop_last(), s) >= 0 {
        find_bucket(b.drop_last(), s)
    } else if b.last().0 == s {
        b.len() - 1
    } else {
        -1
    }
}

/// The groups among the first `k` bucketed by their file set, buckets in
/// order of first appearance, each listing its groups in order.
pub open spec fn buckets_upto(gs: Seq<CloneGroupView>, k: int) -> Seq<(Set<Seq<char>>, Seq<int>)>
    decreases k,
{
    if k <= 0 {
        Seq::empty()
    } else {
        let b = buckets_upto(gs, k - 1);
        let s = file_set(gs[k - 1]);
        let j = find_bucket(b, s);
        if j >= 0 {
            b.update(j, (s, b[j].1.push(k - 1)))
        } else {
            b.push((s, seq![k - 1]))
        }
    }
}

/// The summed lines of the groups at `idx`.
pub open spec fn lines_sum(gs: Seq<CloneGroupView>, idx: Seq<int>) -> int
    decreases idx.len(),
{
    if idx.len() == 0 {
        0
    } else {
        lines_sum(gs, idx.drop_last()) + gs[idx.last()].line_count
    }
}

/// The buckets with more than one group, in bucket order.
pub open spec fn multi_buckets(b: Seq<(Set<Seq<char>>, Seq<int>)>) -> Seq<(Set<Seq<char>>, Seq<int>)>
    decreases b.len(),
{
    if b.len() == 0 {
        Seq::empty()
    } else if b.last().1.len() > 1 {
        multi_buckets(b.drop_last()).push(b.last())
    } else {
        multi_buckets(b.drop_last())
    }
}

/// `f` is the family of bucket `b`: its files in lexicographic order, the
/// number of its groups and their summed lines, and the advice to extract a
/// shared module (50 lines or more) or a shared method.
pub open spec fn is_family(f: CloneFamily, b: (Set<Seq<char>>, Seq<int>), gs: Seq<CloneGroupView>) -> bool {
    &&& exists|d: Seq<String>|
        strings_view(d).no_duplicates() && strings_view(d).to_set() == b.0
            && #[trigger] stable_sort_of(d, f.files@)
    &&& f.group_count == b.1.len()
    &&& f.total_lines == lines_sum(gs, b.1)
    &&& f.suggestion@ == if lines_sum(gs, b.1) >= 50 {
        "Extract a shared module"@
    } else {
        "Extract a shared method"@
    }
}

/// By summed lines, then by number of groups, largest first.
impl Ordered for CloneFamily {
    open spec fn le(a: Self, b: Self) -> bool {
        a.total_lines > b.total_lines || (a.total_lines == b.total_lines && a.group_count >= b.group_count)
    }

    proof fn le_total(a: Self, b: Self) {
    }

    proof fn le_trans(a: Self, b: Self, c: Self) {
    }

    fn le_exec(&self, other: &Self) -> (r: bool) {
        self.total_lines > other.total_lines || (self.total_lines == other.total_lines && self.group_count
            >= other.group_count)
    }
}

/// The summed lines of the first `k` groups.
pub open spec fn lines_upto(gs: Seq<CloneGroupView>, k: int) -> int
    decreases k,
{
    if k <= 0 {
        0
    } else {
        lines_upto(gs, k - 1) + gs[k - 1].line_count
    }
}

/// The distinct files of a group's copies, in order of first appearance.
fn distinct_files(g: &CloneGroup) -> (r: Vec<String>)
    ensures
        strings_view(r@).no_duplicates(),
        strings_view(r@).to_set() == file_set(g@),
{
    let ghost gv = g@;
    let mut out: Vec<String> = Vec::new();
    let mut x: usize = 0;
    while x < g.instances.len()
        invariant
            gv == g@,
            x <= g.instances@.len(),
            strings_view(out@).no_duplicates(),
            forall|f: Seq<char>| #[trigger] strings_view(out@).contains(f) <==> exists|y: int| 0 <= y < x && (#[trigger] gv.instances[y]).file == f,
        decreases g.instances@.len() - x,
    {
        let file = &g.instances[x].file;
        proof {
            assert(gv.instances[x as int].file == file@);
        }
        let mut seen = false;
        let mut k: usize = 0;
        while k < out.len()
            invariant
                k <= out@.len(),
                seen == exists|m: int| 0 <= m < k && out@[m]@ == file@,
            decreases out@.len() - k,
        {
            if crate::text::str_eq(out[k].as_str(), file.as_str()) {
                seen = true;
            }
            k += 1;
        }
        let ghost ov = strings_view(out@);
        if !seen {
            out.push(file.clone());
            proof {
                assert(strings_view(out@) =~= ov.push(file@));
                assert forall|a: int, b: int| 0 <= a < b < ov.push(file@).len() implies ov.push(file@)[a] != ov.push(file@)[b] by {
                    if b == ov.len() {
                        assert(ov[a] == out@[a]@);
                    }
                }
            }
        }
        proof {
            let nv = strings_view(out@);
            assert forall|f: Seq<char>| #[trigger] nv.contains(f) <==> exists|y: int| 0 <= y < x + 1 && (#[trigger] gv.instances[y]).file == f by {
                if nv.contains(f) && !ov.contains(f) {
                    assert(f == file@);
                    assert(gv.instances[x as int].file == f);
                }
                if ov.contains(f) {
                    let m = choose|m: int| 0 <= m < ov.len() && ov[m] == f;
                    assert(nv[m] == f);
                }
                if exists|y: int| 0 <= y < x + 1 && (#[trigger] gv.instances[y]).file == f {
                    let y = choose|y: int| 0 <= y < x + 1 && (#[trigger] gv.instances[y]).file == f;
                    if y == x {
                        if seen {
                            let m = choose|m: int| 0 <= m < out@.len() && out@[m]@ == file@;
                            assert(nv[m] == f);
                        } else {
                            assert(nv[nv.len() - 1] == f);
                        }
                    } else {
                        assert(ov.contains(f));
                        let m = choose|m: int| 0 <= m < ov.len() && ov[m] == f;
                        assert(nv[m] == f);
                    }
                }
            }
        }
        x += 1;
    }
    proof {
        let nv = strings_view(out@);
        assert(nv.to_set() =~= file_set(gv));
    }
    out
}

/// The two lists of distinct strings hold the same strings.
fn same_strings(a: &Vec<String>, b: &Vec<String>) -> (r: bool)
    ensures
        r == (strings_view(a@).to_set() == strings_view(b@).to_set()),
{
    let ghost av = strings_view(a@);
    let ghost bv = strings_view(b@);
    let r = all_in(a, b) && all_in(b, a);
    proof {
        if r {
            assert(av.to_set() =~= bv.to_set());
        } else if all_in_spec(av, bv) == false {
            let k = choose|k: int| 0 <= k < av.len() && !bv.contains(av[k]);
            assert(av.to_set().contains(av[k]));
        } else {
            let k = choose|k: int| 0 <= k < bv.len() && !av.contains(bv[k]);
            assert(bv.to_set().contains(bv[k]));
        }
    }
    r
}

pub open spec fn all_in_spec(a: Seq<Seq<char>>, b: Seq<Seq<char>>) -> bool {
    forall|k: int| 0 <= k < a.len() ==> b.contains(#[trigger] a[k])
}

fn all_in(a: &Vec<String>, b: &Vec<String>) -> (r: bool)
    ensures
        r == all_in_spec(strings_view(a@), strings_view(b@)),
{
    let ghost av = strings_view(a@);
    let ghost bv = strings_view(b@);
    let mut k: usize = 0;
    while k < a.len()
        invariant
            av == strings_view(a@),
            bv == strings_view(b@),
            k <= a@.len(),
            forall|m: int| 0 <= m < k ==> bv.contains(#[trigger] av[m]),
        decreases a@.len() - k,
    {
        let mut found = false;
        let mut j: usize = 0;
        while j < b.len()
            invariant
                av == strings_view(a@),
                bv == strings_view(b@),
                k < a@.len(),
                j <= b@.len(),
                found == exists|m: int| 0 <= m < j && bv[m] == av[k as int],
            decreases b@.len() - j,
        {
            proof {
                assert(bv[j as int] == b@[j as int]@);
                assert(av[k as int] == a@[k as int]@);
            }
            if crate::text::str_eq(b[j].as_str(), a[k].as_str()) {
                found = true;
            }
            j += 1;
        }
        if !found {
            proof {
                assert(!bv.contains(av[k as int]));
            }
            return false;
        }
        k += 1;
    }
    true
}

proof fn lemma_find_bucket(b: Seq<(Set<Seq<char>>, Seq<int>)>, s: Set<Seq<char>>)
    ensures
        -1 <= find_bucket(b, s) < b.len(),
        find_bucket(b, s) >= 0 ==> b[find_bucket(b, s)].0 == s && forall|i: int| 0 <= i < find_bucket(b, s) ==> b[i].0 != s,
        find_bucket(b, s) < 0 ==> forall|i: int| 0 <= i < b.len() ==> b[i].0 != s,
    decreases b.len(),
{
    if b.len() > 0 {
        lemma_find_bucket(b.drop_last(), s);
        assert forall|i: int| 0 <= i < b.len() - 1 implies b[i] == b.drop_last()[i] by {
        }
    }
}

fn copy_strings(v: &Vec<String>) -> (r: Vec<String>)
    ensures
        strings_view(r@) == strings_view(v@),
{
    let mut r: Vec<String> = Vec::new();
    let mut i: usize = 0;
    while i < v.len()
        invariant
            i <= v@.len(),
            r@.len() == i,
            forall|k: int| 0 <= k < i ==> (#[trigger] r@[k])@ == v@[k]@,
        decreases v@.len() - i,
    {
        r.push(v[i].clone());
        i += 1;
    }
    proof {
        assert(strings_view(r@) =~= strings_view(v@));
    }
    r
}

pub open spec fn ints(v: Seq<usize>) -> Seq<int> {
    v.map_values(|x: usize| x as int)
}

/// `r` holds one family per bucket of two groups or more, sorted stably.
pub open spec fn families_of(gs: Seq<CloneGroupView>, r: Seq<CloneFamily>) -> bool {
    exists|pre: Seq<CloneFamily>|
        {
            &&& pre.len() == multi_buckets(buckets_upto(gs, gs.len() as int)).len()
            &&& forall|k: int|
                0 <= k < pre.len() ==> is_family(#[trigger] pre[k], multi_buckets(buckets_upto(gs, gs.len() as int))[k], gs)
            &&& #[trigger] stable_sort_of(pre, r)
        }
}

/// The families of clone groups: groups whose copies lie in the same set of
/// files, where there are two or more such groups, largest first.
pub fn group_families(groups: &Vec<CloneGroup>) -> (r: Vec<CloneFamily>)
    requires
        lines_upto(group_views(groups@), groups@.len() as int) <= u32::MAX,
    ensures
        families_of(group_views(groups@), r@),
{
    let ghost gs = group_views(groups@);
    let n = groups.len();
    let mut bsets: Vec<Vec<String>> = Vec::new();
    let mut bidx: Vec<Vec<usize>> = Vec::new();
    let mut k: usize = 0;
    while k < n
        invariant
            gs == group_views(groups@),
            n == groups@.len(),
            lines_upto(gs, n as int) <= u32::MAX,
            k <= n,
            bsets@.len() == buckets_upto(gs, k as int).len(),
            bidx@.len() == bsets@.len(),
            forall|j: int| 0 <= j < bsets@.len() ==> strings_view(#[trigger] bsets@[j]@).no_duplicates(),
            forall|j: int| 0 <= j < bsets@.len() ==> strings_view(#[trigger] bsets@[j]@).to_set() == buckets_upto(gs, k as int)[j].0,
            forall|j: int| 0 <= j < bidx@.len() ==> ints(#[trigger] bidx@[j]@) == buckets_upto(gs, k as int)[j].1,
            forall|j: int| 0 <= j < bidx@.len() ==> lines_sum(gs, #[trigger] buckets_upto(gs, k as int)[j].1) <= lines_upto(gs, k as int),
            forall|j: int, m: int| 0 <= j < bidx@.len() && 0 <= m < bidx@[j]@.len() ==> #[trigger] bidx@[j]@[m] < k,
        decreases n - k,
    {
        let ghost b = buckets_upto(gs, k as int);
        let d = distinct_files(&groups[k]);
        proof {
            assert(gs[k as int] == groups@[k as int]@);
            lemma_find_bucket(b, file_set(gs[k as int]));
            lemma_lines_upto_nonneg(gs, k as int);
        }
        let mut j: usize = 0;
        let mut hit = false;
        while j < bsets.len() && !hit
            invariant
                j <= bsets@.len(),
                bsets@.len() == b.len(),
                forall|i: int| 0 <= i < bsets@.len() ==> strings_view(#[trigger] bsets@[i]@).to_set() == b[i].0,
                !hit ==> forall|i: int| 0 <= i < j ==> b[i].0 != file_set(gs[k as int]),
                hit ==> 0 < j && b[j - 1].0 == file_set(gs[k as int]) && forall|i: int| 0 <= i < j - 1 ==> b[i].0 != file_set(gs[k as int]),
                strings_view(d@).to_set() == file_set(gs[k as int]),
            decreases bsets@.len() - j + (if hit { 0int } else { 1int }),
        {
            if same_strings(&bsets[j], &d) {
                hit = true;
            }
            j += 1;
        }
        if hit {
            let at = j - 1;
            proof {
                assert(find_bucket(b, file_set(gs[k as int])) == at);
            }
            let mut row: Vec<usize> = Vec::new();
            bidx.set_and_swap(at, &mut row);
            row.push(k);
            bidx.set_and_swap(at, &mut row);
            proof {
                let nb = buckets_upto(gs, k + 1);
                assert(nb == b.update(at as int, (file_set(gs[k as int]), b[at as int].1.push(k as int))));
                assert forall|i: int| 0 <= i < bidx@.len() implies ints(#[trigger] bidx@[i]@) == nb[i].1 by {
                    if i == at {
                        assert(ints(bidx@[i]@) =~= b[i].1.push(k as int));
                    }
                }
                assert forall|i: int| 0 <= i < bidx@.len() implies lines_sum(gs, #[trigger] nb[i].1) <= lines_upto(gs, k + 1) by {
                    if i == at {
                        assert(nb[i].1.drop_last() =~= b[i].1);
                    }
                }
            }
        } else {
            proof {
                assert(find_bucket(b, file_set(gs[k as int])) == -1);
            }
            let mut one: Vec<usize> = Vec::new();
            one.push(k);
            bsets.push(d);
            bidx.push(one);
            proof {
                let nb = buckets_upto(gs, k + 1);
                assert(nb == b.push((file_set(gs[k as int]), seq![k as int])));
                assert(ints(bidx@[bidx@.len() - 1]@) =~= seq![k as int]);
                assert(seq![k as int].drop_last() =~= Seq::<int>::empty());
                assert(seq![k as int].last() == k as int);
                assert(lines_sum(gs, Seq::<int>::empty()) == 0);
                assert(lines_sum(gs, seq![k as int]) == lines_sum(gs, seq![k as int].drop_last()) + gs[k as int].line_count);
                assert(lines_sum(gs, seq![k as int]) == gs[k as int].line_count);
                assert forall|i: int| 0 <= i < bidx@.len() implies lines_sum(gs, #[trigger] nb[i].1) <= lines_upto(gs, k + 1) by {
                    if i < b.len() {
                        assert(nb[i] == b[i]);
                    }
                }
            }
        }
        k += 1;
    }
    let ghost ball = buckets_upto(gs, n as int);
    let mut pre: Vec<CloneFamily> = Vec::new();
    let mut j: usize = 0;
    while j < bsets.len()
        invariant
            gs == group_views(groups@),
            n == groups@.len(),
            ball == buckets_upto(gs, n as int),
            lines_upto(gs, n as int) <= u32::MAX,
            j <= bsets@.len(),
            bsets@.len() == ball.len(),
            bidx@.len() == ball.len(),
            forall|i: int| 0 <= i < bsets@.len() ==> strings_view(#[trigger] bsets@[i]@).no_duplicates(),
            forall|i: int| 0 <= i < bsets@.len() ==> strings_view(#[trigger] bsets@[i]@).to_set() == ball[i].0,
            forall|i: int| 0 <= i < bidx@.len() ==> ints(#[trigger] bidx@[i]@) == ball[i].1,
            forall|i: int| 0 <= i < bidx@.len() ==> lines_sum(gs, #[trigger] ball[i].1) <= lines_upto(gs, n as int),
            forall|i: int, m: int| 0 <= i < bidx@.len() && 0 <= m < bidx@[i]@.len() ==> #[trigger] bidx@[i]@[m] < n,
            pre@.len() == multi_buckets(ball.subrange(0, j as int)).len(),
            forall|x: int| 0 <= x < pre@.len() ==> is_family(#[trigger] pre@[x], multi_buckets(ball.subrange(0, j as int))[x], gs),
        decreases bsets@.len() - j,
    {
        proof {
            assert(ball.subrange(0, j + 1).drop_last() =~= ball.subrange(0, j as int));
            assert(ball.subrange(0, j + 1).last() == ball[j as int]);
        }
        let idx = &bidx[j];
        proof {
            lemma_lines_sum_prefix(gs, ints(idx@));
        }
        if idx.len() > 1 {
            let mut total: u64 = 0;
            let mut m: usize = 0;
            while m < idx.len()
                invariant
                    gs == group_views(groups@),
                    n == groups@.len(),
                    forall|q: int| 0 <= q < idx@.len() ==> #[trigger] idx@[q] < n,
                    m <= idx@.len(),
                    total == lines_sum(gs, ints(idx@).subrange(0, m as int)),
                    lines_sum(gs, ints(idx@)) <= u32::MAX,
                    forall|q: int| 0 <= q <= idx@.len() ==> lines_sum(gs, ints(idx@).subrange(0, q)) <= lines_sum(gs, ints(idx@)),
                decreases idx@.len() - m,
            {
                proof {
                    assert(ints(idx@).subrange(0, m + 1).drop_last() =~= ints(idx@).subrange(0, m as int));
                    assert(gs[idx@[m as int] as int] == groups@[idx@[m as int] as int]@);
                }
                total = total + groups[idx[m]].line_count as u64;
                m += 1;
            }
            let ghost idv = ints(idx@);
            let c = copy_strings(&bsets[j]);
            let ghost cv = c@;
            let files = sort_stable(c);
            let suggestion = if total >= 50 {
                "Extract a shared module".to_string()
            } else {
                "Extract a shared method".to_string()
            };
            let fam = CloneFamily { files, group_count: idx.len(), total_lines: total as u32, suggestion };
            proof {
                assert(idv.subrange(0, idv.len() as int) =~= idv);
                assert(stable_sort_of(cv, fam.files@));
                assert(strings_view(cv).no_duplicates());
                assert(strings_view(cv).to_set() == ball[j as int].0);
                assert(fam.group_count == ball[j as int].1.len());
                assert(fam.total_lines == lines_sum(gs, ball[j as int].1));
                assert(is_family(fam, ball[j as int], gs));
            }
            pre.push(fam);
        }
        j += 1;
    }
    proof {
        assert(ball.subrange(0, ball.len() as int) =~= ball);
    }
    let r = sort_stable(pre);
    r
}

proof fn lemma_lines_sum_prefix(gs: Seq<CloneGroupView>, idx: Seq<int>)
    ensures
        forall|q: int| 0 <= q <= idx.len() ==> lines_sum(gs, idx.subrange(0, q)) <= lines_sum(gs, idx),
    decreases idx.len(),
{
    if idx.len() > 0 {
        lemma_lines_sum_prefix(gs, idx.drop_last());
        assert forall|q: int| 0 <= q <= idx.len() implies lines_sum(gs, idx.subrange(0, q)) <= lines_sum(gs, idx) by {
            if q == idx.len() {
                assert(idx.subrange(0, q) =~= idx);
            } else {
                assert(idx.subrange(0, q) =~= idx.drop_last().subrange(0, q));
            }
        }
    } else {
        assert forall|q: int| 0 <= q <= idx.len() implies lines_sum(gs, idx.subrange(0, q)) <= lines_sum(gs, idx) by {
            assert(idx.subrange(0, q) =~= idx);
        }
    }
}

proof fn lemma_lines_upto_nonneg(gs: Seq<CloneGroupView>, k: int)
    ensures
        0 <= lines_upto(gs, k),
        forall|a: int| 0 <= a <= k ==> lines_upto(gs, a) <= lines_upto(gs, k),
    decreases k,
{
    if k > 0 {
        lemma_lines_upto_nonneg(gs, k - 1);
    }
}

/// Whether `files` meet what [`detect`] needs: a line per token, lines
/// starting at 1 and never going down, and a token count that fits.
pub fn detect_input_ok(files: &Vec<FileTokens>) -> (r: bool)
    ensures
        r == (tokens_ok(files@) && tokens_upto(files@, files@.len() as int) + files@.len() < i64::MAX
            && tokens_upto(files@, files@.len() as int) + files@.len() < usize::MAX),
{
    let mut total: u128 = 0;
    let mut f: usize = 0;
    while f < files.len()
        invariant
            f <= files@.len(),
            total == tokens_upto(files@, f as int),
            total < i64::MAX,
            forall|g: int| 0 <= g < f ==> lines_ok(#[trigger] files@[g]),
        decreases files@.len() - f,
    {
        let lines = &files[f].lines;
        if lines.len() != files[f].keys.len() {
            return false;
        }
        let mut i: usize = 0;
        while i < lines.len()
            invariant
                f < files@.len(),
                lines == files@[f as int].lines,
                i <= lines@.len(),
                i > 0 ==> 1 <= lines@[0],
                forall|a: int, b: int| 0 <= a <= b < i ==> 1 <= #[trigger] lines@[a] <= #[trigger] lines@[b],
            decreases lines@.len() - i,
        {
            if lines[i] < 1 || (i > 0 && lines[i - 1] > lines[i]) {
                proof {
                    if lines@[i as int] >= 1 {
                        assert(lines@[i - 1] > lines@[i as int]);
                    }
                }
                return false;
            }
            proof {
                assert forall|a: int, b: int| 0 <= a <= b < i + 1 implies 1 <= #[trigger] lines@[a] <= #[trigger] lines@[b] by {
                    if b == i && a < i {
                        assert(lines@[a] <= lines@[i - 1]);
                    }
                }
            }
            i += 1;
        }
        proof {
            assert(lines_ok(files@[f as int]));
        }
        total = total + files[f].keys.len() as u128;
        if total >= i64::MAX as u128 {
            proof {
                lemma_tokens_upto_mono(files@, f + 1, files@.len() as int);
            }
            return false;
        }
        f += 1;
    }
    let n = files.len() as u128;
    total + n < i64::MAX as u128 && total + n < usize::MAX as u128
}

/// Whether the summed lines of `groups` fit in `u32`, as [`group_families`]
/// needs.
pub fn families_input_ok(groups: &Vec<CloneGroup>) -> (r: bool)
    ensures
        r == (lines_upto(group_views(groups@), groups@.len() as int) <= u32::MAX),
{
    let ghost gs = group_views(groups@);
    let mut total: u128 = 0;
    let mut k: usize = 0;
    while k < groups.len()
        invariant
            gs == group_views(groups@),
            k <= groups@.len(),
            total == lines_upto(gs, k as int),
            total <= k * u32::MAX,
        decreases groups@.len() - k,
    {
        proof {
            assert(gs[k as int] == groups@[k as int]@);
        }
        total = total + groups[k].line_count as u128;
        k += 1;
    }
    total <= u32::MAX as u128
}

// ---------------------------------------------------------------------------
// What every reported group satisfies
// ---------------------------------------------------------------------------

/// A group with two copies or more, of at least `min_tokens` tokens, the
/// longest copy spanning at least `min_lines` lines.
pub open spec fn group_sound(g: CloneGroupView, min_tokens: usize, min_lines: u32) -> bool {
    &&& g.instances.len() >= 2
    &&& g.token_count >= min_tokens
    &&& g.line_count >= min_lines
}

proof fn lemma_run_end(lcp: Seq<usize>, m: usize, j: int)
    requires
        0 <= j,
    ensures
        j <= run_end(lcp, m, j),
        run_end(lcp, m, j) == j || run_end(lcp, m, j) <= lcp.len(),
        forall|x: int| j <= x < run_end(lcp, m, j) ==> 0 <= x < lcp.len() && #[trigger] lcp[x] >= m,
    decreases lcp.len() - j,
{
    if 0 <= j < lcp.len() && lcp[j] >= m {
        lemma_run_end(lcp, m, j + 1);
    }
}

proof fn lemma_run_min(lcp: Seq<usize>, m: usize, i: int, j: int)
    requires
        0 <= i < j <= lcp.len(),
        forall|x: int| i <= x < j ==> #[trigger] lcp[x] >= m,
    ensures
        m <= run_min(lcp, i, j) <= usize::MAX,
    decreases j - i,
{
    if j > i + 1 {
        lemma_run_min(lcp, m, i, j - 1);
        assert(lcp[j - 1] >= m);
    }
}

proof fn lemma_instances_wf(
    files: Seq<FileTokens>,
    owner: Seq<usize>,
    offset: Seq<usize>,
    spans: Seq<usize>,
    length: int,
    k: int,
)
    requires
        tokens_ok(files),
        layout_ok(files, owner, offset),
        length >= 1,
        k <= spans.len(),
        forall|q: int| 0 <= q < spans.len() ==> #[trigger] spans[q] < owner.len() && owner[spans[q] as int] != usize::MAX,
    ensures
        forall|x: int|
            0 <= x < instances_upto(files, owner, offset, spans, length, k).0.len() ==> 1 <= (
            #[trigger] instances_upto(files, owner, offset, spans, length, k).0[x]).start_line
                <= instances_upto(files, owner, offset, spans, length, k).0[x].end_line,
    decreases k,
{
    if k > 0 {
        lemma_instances_wf(files, owner, offset, spans, length, k - 1);
        let st = instances_upto(files, owner, offset, spans, length, k - 1);
        let p = spans[k - 1] as int;
        let fid = owner[p] as int;
        let off = offset[p] as int;
        assert(spans[k - 1] < owner.len() && owner[p] != usize::MAX);
        assert(fid < files.len() && off < files[fid].keys@.len());
        assert(lines_ok(files[fid]));
        let lines = files[fid].lines@;
        let last_tok = lines.len() - 1;
        let end_tok = if off + length - 1 < last_tok {
            off + length - 1
        } else {
            last_tok
        };
        assert(1 <= lines[off] <= lines[end_tok]);
        let next = instances_upto(files, owner, offset, spans, length, k);
        assert forall|x: int| 0 <= x < next.0.len() implies 1 <= (#[trigger] next.0[x]).start_line <= next.0[x].end_line by {
            if x < st.0.len() {
                assert(next.0[x] == st.0[x]);
            }
        }
    }
}

proof fn lemma_group_of_sound(
    files: Seq<FileTokens>,
    owner: Seq<usize>,
    offset: Seq<usize>,
    ps: Seq<usize>,
    length: usize,
    min_lines: u32,
)
    requires
        tokens_ok(files),
        layout_ok(files, owner, offset),
        forall|k: int| 0 <= k < ps.len() ==> #[trigger] ps[k] < owner.len(),
        length >= 1,
    ensures
        group_of(files, owner, offset, ps, length, min_lines) matches Some(g) ==> g.instances.len() >= 2
            && g.line_count >= min_lines && g.token_count == length,
{
    let tp = token_positions(owner, ps);
    let spans = tp.sort_by(pos_leq());
    lemma_token_positions(owner, ps);
    lemma_pos_leq_total();
    tp.lemma_sort_by_ensures(pos_leq());
    assert forall|q: int| 0 <= q < spans.len() implies #[trigger] spans[q] < owner.len() && owner[spans[q] as int] != usize::MAX by {
        assert(spans.to_multiset().count(spans[q]) > 0) by {
            spans.to_multiset_ensures();
            assert(spans.contains(spans[q]));
        }
        tp.to_multiset_ensures();
        assert(tp.contains(spans[q]));
        let j = choose|j: int| 0 <= j < tp.len() && tp[j] == spans[q];
        assert(ps.contains(tp[j]));
    }
    lemma_instances_wf(files, owner, offset, spans, length as int, spans.len() as int);
    lemma_max_lines(instances_upto(files, owner, offset, spans, length as int, spans.len() as int).0);
}

proof fn lemma_found_sound(
    files: Seq<FileTokens>,
    owner: Seq<usize>,
    offset: Seq<usize>,
    sa: Seq<usize>,
    lcp: Seq<usize>,
    m: usize,
    min_lines: u32,
    i: int,
)
    requires
        tokens_ok(files),
        layout_ok(files, owner, offset),
        forall|k: int| 0 <= k < sa.len() ==> #[trigger] sa[k] < owner.len(),
        lcp.len() == sa.len(),
        m >= 1,
    ensures
        forall|k: int|
            0 <= k < found_from(files, owner, offset, sa, lcp, m, min_lines, i).len() ==> group_sound(
                #[trigger] found_from(files, owner, offset, sa, lcp, m, min_lines, i)[k],
                m,
                min_lines,
            ),
    decreases lcp.len() - i,
{
    if i < 1 || i >= lcp.len() {
    } else if lcp[i] >= m {
        lemma_run_end(lcp, m, i);
        lemma_run_end(lcp, m, i + 1);
        let j = run_end(lcp, m, i);
        assert(j > i && j <= lcp.len());
        lemma_run_min(lcp, m, i, j);
        let len = run_min(lcp, i, j) as usize;
        assert(len as int == run_min(lcp, i, j));
        assert(len >= m);
        let ps = sa.subrange(i - 1, j);
        assert forall|k: int| 0 <= k < ps.len() implies #[trigger] ps[k] < owner.len() by {
            assert(ps[k] == sa[i - 1 + k]);
        }
        lemma_group_of_sound(files, owner, offset, ps, len, min_lines);
        lemma_found_sound(files, owner, offset, sa, lcp, m, min_lines, j);
        let head: Seq<CloneGroupView> = match group_of(files, owner, offset, ps, len, min_lines) {
            Some(g) => seq![g],
            None => Seq::empty(),
        };
        let rest = found_from(files, owner, offset, sa, lcp, m, min_lines, j);
        let all = found_from(files, owner, offset, sa, lcp, m, min_lines, i);
        assert(all == head + rest);
        assert(head.len() == 1 ==> group_sound(head[0], m, min_lines));
        assert forall|k: int| 0 <= k < all.len() implies group_sound(#[trigger] all[k], m, min_lines) by {
            if k < head.len() {
                assert(all[k] == head[k]);
                assert(group_sound(head[k], m, min_lines));
            } else {
                assert(all[k] == rest[k - head.len()]);
            }
        }
    } else {
        lemma_found_sound(files, owner, offset, sa, lcp, m, min_lines, i + 1);
        assert(found_from(files, owner, offset, sa, lcp, m, min_lines, i) == found_from(
            files, owner, offset, sa, lcp, m, min_lines, i + 1));
    }
}

proof fn lemma_retained_from(gs: Seq<CloneGroupView>, k: int)
    requires
        k <= gs.len(),
    ensures
        forall|x: int| 0 <= x < retained(gs, k).0.len() ==> gs.contains(#[trigger] retained(gs, k).0[x]),
    decreases k,
{
    if k > 0 {
        lemma_retained_from(gs, k - 1);
        let st = retained(gs, k - 1);
        if !covered(gs[k - 1], st.1) {
            let next = retained(gs, k);
            assert forall|x: int| 0 <= x < next.0.len() implies gs.contains(#[trigger] next.0[x]) by {
                if x < st.0.len() {
                    assert(next.0[x] == st.0[x]);
                } else {
                    assert(next.0[x] == gs[k - 1]);
                }
            }
        }
    }
}

/// Every group that detection reports has two copies or more, shares at
/// least `min_tokens` tokens, and spans at least `min_lines` lines.
pub proof fn lemma_reported_groups_sound(
    files: Seq<FileTokens>,
    min_tokens: usize,
    min_lines: u32,
    r: Seq<CloneGroup>,
    i: int,
)
    requires
        tokens_ok(files),
        min_tokens >= 1,
        tokens_upto(files, files.len() as int) + files.len() < usize::MAX,
        detected(files, min_tokens, min_lines, r),
        0 <= i < r.len(),
    ensures
        group_sound(r[i]@, min_tokens, min_lines),
        r[i].instances@.len() >= 2,
{
    let l = layout_upto(files, files.len() as int);
    let (sa, lcp, found, kept) = choose|sa: Seq<usize>, lcp: Seq<usize>, found: Seq<CloneGroup>, kept: Seq<CloneGroup>|
        {
            &&& is_suffix_array(l.1, sa)
            &&& #[trigger] is_lcp_array(l.1, sa, lcp)
            &&& #[trigger] group_views(found) == found_from(files, l.2, l.3, sa, lcp, min_tokens, min_lines, 1)
            &&& exists|sorted: Seq<CloneGroup>|
                #[trigger] stable_sort_of(found, sorted) && group_views(kept) == retained(
                    group_views(sorted),
                    sorted.len() as int,
                ).0
            &&& #[trigger] stable_sort_of(kept, r)
        };
    let sorted = choose|sorted: Seq<CloneGroup>|
        #[trigger] stable_sort_of(found, sorted) && group_views(kept) == retained(group_views(sorted), sorted.len() as int).0;
    assert forall|x: int| 0 <= x < files.len() implies (#[trigger] files[x]).keys@.len() <= usize::MAX by {
        lemma_tokens_upto_nonneg(files, x);
        lemma_tokens_upto_mono(files, x + 1, files.len() as int);
    }
    lemma_tokens_upto_nonneg(files, files.len() as int);
    lemma_layout_ok(files, files.len() as int);
    lemma_found_sound(files, l.2, l.3, sa, lcp, min_tokens, min_lines, 1);
    lemma_stable_sort_same_elements(kept, r);
    let a = choose|a: int| 0 <= a < kept.len() && kept[a] == r[i];
    lemma_retained_from(group_views(sorted), sorted.len() as int);
    assert(group_views(kept)[a] == kept[a]@);
    assert(group_views(sorted).contains(kept[a]@));
    let b = choose|b: int| 0 <= b < sorted.len() && group_views(sorted)[b] == kept[a]@;
    lemma_stable_sort_same_elements(found, sorted);
    let c = choose|c: int| 0 <= c < found.len() && found[c] == sorted[b];
    assert(group_views(found)[c] == found[c]@);
    assert(group_sound(found_from(files, l.2, l.3, sa, lcp, min_tokens, min_lines, 1)[c], min_tokens, min_lines));
}

/// The spans of the copies of the first `a` groups of `gs`.
pub open spec fn spans_upto(gs: Seq<CloneGroupView>, a: int) -> Seq<(Seq<char>, u32, u32)>
    decreases a,
{
    if a <= 0 {
        Seq::empty()
    } else {
        spans_upto(gs, a - 1) + spans_of(gs[a - 1])
    }
}

/// The order by which groups are reported, on views: more lines first, then
/// more tokens.
pub open spec fn view_le(a: CloneGroupView, b: CloneGroupView) -> bool {
    a.line_count > b.line_count || (a.line_count == b.line_count && a.token_count >= b.token_count)
}

proof fn lemma_spans_upto_push(gs: Seq<CloneGroupView>, g: CloneGroupView, a: int)
    requires
        0 <= a <= gs.len(),
    ensures
        spans_upto(gs.push(g), a) == spans_upto(gs, a),
    decreases a,
{
    if a > 0 {
        lemma_spans_upto_push(gs, g, a - 1);
        assert(gs.push(g)[a - 1] == gs[a - 1]);
    }
}

/// What the groups kept among the first `k` satisfy: the spans kept are
/// theirs, none lies within the groups kept before it, each is one of the
/// first `k`, and they keep the order of `gs`.
proof fn lemma_retained_props(gs: Seq<CloneGroupView>, k: int)
    requires
        0 <= k <= gs.len(),
        forall|i: int, j: int| 0 <= i < j < gs.len() ==> view_le(#[trigger] gs[i], #[trigger] gs[j]),
    ensures
        retained(gs, k).1 == spans_upto(retained(gs, k).0, retained(gs, k).0.len() as int),
        forall|a: int|
            0 <= a < retained(gs, k).0.len() ==> !covered(
                #[trigger] retained(gs, k).0[a],
                spans_upto(retained(gs, k).0, a),
            ),
        forall|a: int|
            0 <= a < retained(gs, k).0.len() ==> exists|m: int|
                0 <= m < k && #[trigger] retained(gs, k).0[a] == gs[m],
        forall|a: int, b: int|
            0 <= a < b < retained(gs, k).0.len() ==> view_le(
                #[trigger] retained(gs, k).0[a],
                #[trigger] retained(gs, k).0[b],
            ),
    decreases k,
{
    if k > 0 {
        lemma_retained_props(gs, k - 1);
        let st = retained(gs, k - 1);
        if !covered(gs[k - 1], st.1) {
            let g = gs[k - 1];
            let next = st.0.push(g);
            assert(retained(gs, k).0 == next);
            lemma_spans_upto_push(st.0, g, st.0.len() as int);
            assert(spans_upto(next, next.len() as int) == spans_upto(next, st.0.len() as int)
                + spans_of(next[st.0.len() as int]));
            assert forall|a: int| 0 <= a < next.len() implies !covered(
                #[trigger] next[a],
                spans_upto(next, a),
            ) by {
                if a < st.0.len() {
                    lemma_spans_upto_push(st.0, g, a);
                    assert(next[a] == st.0[a]);
                }
            }
            assert forall|a: int| 0 <= a < next.len() implies exists|m: int|
                0 <= m < k && #[trigger] next[a] == gs[m] by {
                if a < st.0.len() {
                    assert(next[a] == st.0[a]);
                    let m = choose|m: int| 0 <= m < k - 1 && st.0[a] == gs[m];
                    assert(next[a] == gs[m]);
                } else {
                    assert(next[a] == gs[k - 1]);
                }
            }
            assert forall|a: int, b: int| 0 <= a < b < next.len() implies view_le(
                #[trigger] next[a],
                #[trigger] next[b],
            ) by {
                if b < st.0.len() {
                    assert(next[a] == st.0[a] && next[b] == st.0[b]);
                } else {
                    assert(next[a] == st.0[a]);
                    let m = choose|m: int| 0 <= m < k - 1 && st.0[a] == gs[m];
                    assert(view_le(gs[m], gs[k - 1]));
                }
            }
        }
    }
}

/// The groups detection reports, with the sort and the kept groups it went
/// through.
proof fn lemma_detected_parts(files: Seq<FileTokens>, min_tokens: usize, min_lines: u32, r: Seq<CloneGroup>)
    requires
        detected(files, min_tokens, min_lines, r),
        files.len() > 0,
    ensures
        exists|sorted: Seq<CloneGroup>, kept: Seq<CloneGroup>|
            #[trigger] crate::sort::sorted_by(sorted) && #[trigger] group_views(kept) == retained(
                group_views(sorted),
                sorted.len() as int,
            ).0 && #[trigger] stable_sort_of(kept, r),
{
    let l = layout_upto(files, files.len() as int);
    let (sa, lcp, found, kept) = choose|sa: Seq<usize>, lcp: Seq<usize>, found: Seq<CloneGroup>, kept: Seq<CloneGroup>|
        {
            &&& is_suffix_array(l.1, sa)
            &&& #[trigger] is_lcp_array(l.1, sa, lcp)
            &&& #[trigger] group_views(found) == found_from(files, l.2, l.3, sa, lcp, min_tokens, min_lines, 1)
            &&& exists|sorted: Seq<CloneGroup>|
                #[trigger] stable_sort_of(found, sorted) && group_views(kept) == retained(
                    group_views(sorted),
                    sorted.len() as int,
                ).0
            &&& #[trigger] stable_sort_of(kept, r)
        };
    let sorted = choose|sorted: Seq<CloneGroup>|
        #[trigger] stable_sort_of(found, sorted) && group_views(kept) == retained(group_views(sorted), sorted.len() as int).0;
    let p = choose|p: Seq<int>|
        {
            &&& crate::sort::is_perm(p, found.len() as int)
            &&& sorted.len() == found.len()
            &&& (forall|i: int| 0 <= i < sorted.len() ==> sorted[i] == found[#[trigger] p[i]])
            &&& crate::sort::sorted_by(sorted)
            &&& (forall|i: int, j: int|
                0 <= i < j < sorted.len() && CloneGroup::le(sorted[j], sorted[i]) ==> #[trigger] p[i] < #[trigger] p[j])
        };
    assert(crate::sort::sorted_by(sorted));
}

/// Reported groups come larger first: by lines spanned, then by tokens
/// shared, both descending.
pub proof fn lemma_reported_groups_ordered(
    files: Seq<FileTokens>,
    min_tokens: usize,
    min_lines: u32,
    r: Seq<CloneGroup>,
    i: int,
    j: int,
)
    requires
        detected(files, min_tokens, min_lines, r),
        0 <= i < j < r.len(),
    ensures
        r[i].line_count > r[j].line_count || (r[i].line_count == r[j].line_count
            && r[i].token_count >= r[j].token_count),
{
    lemma_detected_parts(files, min_tokens, min_lines, r);
    let (sorted, kept) = choose|sorted: Seq<CloneGroup>, kept: Seq<CloneGroup>|
        #[trigger] crate::sort::sorted_by(sorted) && #[trigger] group_views(kept) == retained(
            group_views(sorted),
            sorted.len() as int,
        ).0 && #[trigger] stable_sort_of(kept, r);
    let p = choose|p: Seq<int>|
        {
            &&& crate::sort::is_perm(p, kept.len() as int)
            &&& r.len() == kept.len()
            &&& (forall|x: int| 0 <= x < r.len() ==> r[x] == kept[#[trigger] p[x]])
            &&& crate::sort::sorted_by(r)
            &&& (forall|x: int, y: int|
                0 <= x < y < r.len() && CloneGroup::le(r[y], r[x]) ==> #[trigger] p[x] < #[trigger] p[y])
        };
    assert(CloneGroup::le(r[i], r[j]));
}

/// No reported group lies within the groups reported before it: some copy
/// of each is not inside any copy of an earlier group in its file.
pub proof fn lemma_reported_groups_not_contained(
    files: Seq<FileTokens>,
    min_tokens: usize,
    min_lines: u32,
    r: Seq<CloneGroup>,
    i: int,
)
    requires
        detected(files, min_tokens, min_lines, r),
        0 <= i < r.len(),
    ensures
        !covered(r[i]@, spans_upto(group_views(r), i)),
{
    lemma_detected_parts(files, min_tokens, min_lines, r);
    let (sorted, kept) = choose|sorted: Seq<CloneGroup>, kept: Seq<CloneGroup>|
        #[trigger] crate::sort::sorted_by(sorted) && #[trigger] group_views(kept) == retained(
            group_views(sorted),
            sorted.len() as int,
        ).0 && #[trigger] stable_sort_of(kept, r);
    let gs = group_views(sorted);
    assert forall|a: int, b: int| 0 <= a < b < gs.len() implies view_le(#[trigger] gs[a], #[trigger] gs[b]) by {
        assert(CloneGroup::le(sorted[a], sorted[b]));
    }
    lemma_retained_props(gs, gs.len() as int);
    let kv = group_views(kept);
    assert forall|a: int, b: int| 0 <= a < b < kept.len() implies CloneGroup::le(#[trigger] kept[a], #[trigger] kept[b]) by {
        assert(kv[a] == kept[a]@ && kv[b] == kept[b]@);
        assert(view_le(kv[a], kv[b]));
    }
    assert(crate::sort::sorted_by(kept));
    crate::sort::lemma_stable_sort_of_sorted(kept, r);
    assert(kv[i] == r[i]@);
}

/// The text at `a` and at `b` agrees for `len` symbols.
pub open spec fn agree(t: Seq<i64>, a: int, b: int, len: int) -> bool {
    &&& 0 <= a
    &&& 0 <= b
    &&& a + len <= t.len()
    &&& b + len <= t.len()
    &&& forall|k: int| 0 <= k < len ==> #[trigger] t[a + k] == t[b + k]
}

proof fn lemma_lcp_agree(t: Seq<i64>, a: int, b: int, len: int)
    requires
        0 <= a <= t.len(),
        0 <= b <= t.len(),
        0 <= len <= crate::analyze::suffix::lcp_from(t, a, b),
    ensures
        agree(t, a, b, len),
    decreases len,
{
    if len > 0 {
        assert(0 <= a < t.len() && 0 <= b < t.len() && t[a] == t[b]);
        assert(crate::analyze::suffix::lcp_from(t, a, b) == 1 + crate::analyze::suffix::lcp_from(t, a + 1, b + 1));
        lemma_lcp_agree(t, a + 1, b + 1, len - 1);
        assert forall|k: int| 0 <= k < len implies #[trigger] t[a + k] == t[b + k] by {
            if k > 0 {
                assert(t[(a + 1) + (k - 1)] == t[(b + 1) + (k - 1)]);
            }
        }
    }
}

/// Within a run of LCP values of at least `len`, the suffixes at any two
/// places of the run agree for `len` symbols.
proof fn lemma_run_agree(t: Seq<i64>, sa: Seq<usize>, lcp: Seq<usize>, i: int, j: int, len: int, a: int, b: int)
    requires
        crate::analyze::suffix::is_lcp_array(t, sa, lcp),
        1 <= i < j <= lcp.len(),
        len >= 0,
        forall|x: int| i <= x < j ==> #[trigger] lcp[x] >= len,
        i - 1 <= a <= b < j,
        t.len() >= 1,
        forall|x: int| 0 <= x < sa.len() ==> #[trigger] sa[x] < t.len(),
    ensures
        agree(t, sa[a] as int, sa[b] as int, len),
    decreases b - a,
{
    if a == b {
        assert(sa[a] < t.len());
        if len > 0 {
            assert(lcp[i] >= len);
            lemma_lcp_agree(t, sa[i - 1] as int, sa[i] as int, len);
        }
        assert(sa[a] + len <= t.len()) by {
            if len > 0 {
                if a == i - 1 {
                    lemma_lcp_agree(t, sa[i - 1] as int, sa[i] as int, len);
                } else {
                    assert(lcp[a] >= len);
                    lemma_lcp_agree(t, sa[a - 1] as int, sa[a] as int, len);
                }
            }
        }
    } else {
        lemma_run_agree(t, sa, lcp, i, j, len, a, b - 1);
        assert(lcp[b] >= len);
        lemma_lcp_agree(t, sa[b - 1] as int, sa[b] as int, len);
        let pa = sa[a] as int;
        let pm = sa[b - 1] as int;
        let pb = sa[b] as int;
        assert forall|k: int| 0 <= k < len implies #[trigger] t[pa + k] == t[pb + k] by {
            assert(t[pa + k] == t[pm + k]);
            assert(t[pm + k] == t[pb + k]);
        }
    }
}

/// Every copy of `g` is `g.token_count` tokens of its file, all with the
/// keys of the first copy; `fids` and `offs` give the file and offset of
/// each copy.
pub open spec fn copies_at(files: Seq<FileTokens>, g: CloneGroupView, fids: Seq<int>, offs: Seq<int>) -> bool {
    &&& fids.len() == g.instances.len()
    &&& offs.len() == g.instances.len()
    &&& forall|x: int|
        0 <= x < g.instances.len() ==> {
            &&& 0 <= fids[x] < files.len()
            &&& 0 <= offs[x]
            &&& offs[x] + g.token_count <= files[fids[x]].keys@.len()
            &&& #[trigger] g.instances[x] == instance_at(files, fids[x], offs[x], g.token_count as int)
            &&& same_keys(files, fids[0], offs[0], fids[x], offs[x], g.token_count as int)
        }
}

/// The copies of `g` are token sequences with identical keys.
pub open spec fn copies_share_keys(files: Seq<FileTokens>, g: CloneGroupView) -> bool {
    exists|fids: Seq<int>, offs: Seq<int>| #[trigger] copies_at(files, g, fids, offs)
}

/// The positions of `spans` whose copies the first `k` steps keep.
proof fn instance_positions(
    files: Seq<FileTokens>,
    owner: Seq<usize>,
    offset: Seq<usize>,
    spans: Seq<usize>,
    length: int,
    k: int,
) -> (poss: Seq<usize>)
    requires
        k <= spans.len(),
    ensures
        poss.len() == instances_upto(files, owner, offset, spans, length, k).0.len(),
        forall|x: int|
            0 <= x < poss.len() ==> spans.contains(#[trigger] poss[x]) && instances_upto(
                files,
                owner,
                offset,
                spans,
                length,
                k,
            ).0[x] == instance_at(files, owner[poss[x] as int] as int, offset[poss[x] as int] as int, length),
    decreases k,
{
    if k <= 0 {
        Seq::empty()
    } else {
        let prev = instance_positions(files, owner, offset, spans, length, k - 1);
        let st = instances_upto(files, owner, offset, spans, length, k - 1);
        let p = spans[k - 1] as int;
        let fid = owner[p];
        let off = offset[p];
        if st.1 matches Some(l) && l.0 == fid && off < l.1 + length {
            prev
        } else {
            let next = instances_upto(files, owner, offset, spans, length, k);
            let r = prev.push(spans[k - 1]);
            assert forall|x: int| 0 <= x < r.len() implies spans.contains(#[trigger] r[x]) && next.0[x]
                == instance_at(files, owner[r[x] as int] as int, offset[r[x] as int] as int, length) by {
                if x < prev.len() {
                    assert(r[x] == prev[x]);
                    assert(next.0[x] == st.0[x]);
                } else {
                    assert(spans[k - 1] == r[x]);
                }
            }
            r
        }
    }
}

/// A group of a run of agreeing, distinct suffixes: its copies share keys.
proof fn lemma_group_of_keys(
    files: Seq<FileTokens>,
    st: Layout,
    nf: int,
    ps: Seq<usize>,
    length: usize,
    min_lines: u32,
)
    requires
        layout_inv(files, st, nf),
        layout_ok(files, st.2, st.3),
        length >= 1,
        ps.len() >= 2,
        forall|k: int| 0 <= k < ps.len() ==> #[trigger] ps[k] < st.1.len(),
        forall|a: int, b: int| 0 <= a < b < ps.len() ==> #[trigger] ps[a] != #[trigger] ps[b],
        forall|a: int, b: int|
            0 <= a < ps.len() && 0 <= b < ps.len() ==> agree(st.1, #[trigger] ps[a] as int, #[trigger] ps[b] as int, length as int),
    ensures
        group_of(files, st.2, st.3, ps, length, min_lines) matches Some(g) ==> copies_share_keys(files, g),
{
    let owner = st.2;
    let offset = st.3;
    let tp = token_positions(owner, ps);
    let spans = tp.sort_by(pos_leq());
    lemma_token_positions(owner, ps);
    lemma_pos_leq_total();
    tp.lemma_sort_by_ensures(pos_leq());
    if let Some(g) = group_of(files, owner, offset, ps, length, min_lines) {
        let poss = instance_positions(files, owner, offset, spans, length as int, spans.len() as int);
        let insts = instances_upto(files, owner, offset, spans, length as int, spans.len() as int).0;
        assert(g.instances == insts);
        // each kept position is a position of the run
        assert forall|x: int| 0 <= x < poss.len() implies ps.contains(#[trigger] poss[x]) by {
            assert(spans.contains(poss[x]));
            let q = choose|q: int| 0 <= q < spans.len() && spans[q] == poss[x];
            assert(spans.to_multiset().count(spans[q]) > 0) by {
                spans.to_multiset_ensures();
            }
            tp.to_multiset_ensures();
            assert(tp.contains(spans[q]));
            let j = choose|j: int| 0 <= j < tp.len() && tp[j] == spans[q];
            assert(ps.contains(tp[j]));
        }
        // a position of the run shares the run's keys with any other
        assert forall|p: int, q: int| #![trigger ps[p], ps[q]] 0 <= p < ps.len() && 0 <= q < ps.len() implies {
            let pp = ps[p] as int;
            let qq = ps[q] as int;
            &&& owner[pp] != usize::MAX
            &&& offset[pp] + length <= files[owner[pp] as int].keys@.len()
            &&& same_keys(files, owner[pp] as int, offset[pp] as int, owner[qq] as int, offset[qq] as int, length as int)
        } by {
            let other = if p == 0 { 1int } else { 0int };
            assert(ps[p] != ps[other]) by {
                if p < other {
                    assert(ps[p] != ps[other]);
                } else {
                    assert(ps[other] != ps[p]);
                }
            }
            assert(agree(st.1, ps[p] as int, ps[other] as int, length as int));
            lemma_shared_run(files, st, nf, ps[p] as int, ps[other] as int, length as int);
            if p != q {
                assert(ps[p] != ps[q]) by {
                    if p < q {
                        assert(ps[p] != ps[q]);
                    } else {
                        assert(ps[q] != ps[p]);
                    }
                }
                assert(agree(st.1, ps[p] as int, ps[q] as int, length as int));
                lemma_shared_run(files, st, nf, ps[p] as int, ps[q] as int, length as int);
            }
        }
        let fids = Seq::new(poss.len(), |x: int| owner[poss[x] as int] as int);
        let offs = Seq::new(poss.len(), |x: int| offset[poss[x] as int] as int);
        assert forall|x: int| 0 <= x < g.instances.len() implies {
            &&& 0 <= fids[x] < files.len()
            &&& 0 <= offs[x]
            &&& offs[x] + g.token_count <= files[fids[x]].keys@.len()
            &&& #[trigger] g.instances[x] == instance_at(files, fids[x], offs[x], g.token_count as int)
            &&& same_keys(files, fids[0], offs[0], fids[x], offs[x], g.token_count as int)
        } by {
            assert(ps.contains(poss[x]));
            assert(ps.contains(poss[0]));
            let a = choose|a: int| 0 <= a < ps.len() && ps[a] == poss[x];
            let b = choose|b: int| 0 <= b < ps.len() && ps[b] == poss[0];
            assert(owner[ps[a] as int] != usize::MAX);
            assert(same_keys(files, owner[ps[b] as int] as int, offset[ps[b] as int] as int, owner[ps[a] as int] as int, offset[ps[a] as int] as int, length as int));
        }
        assert(copies_at(files, g, fids, offs));
    }
}

proof fn lemma_run_min_le(lcp: Seq<usize>, i: int, j: int, x: int)
    requires
        0 <= i <= x < j <= lcp.len(),
    ensures
        run_min(lcp, i, j) <= lcp[x],
    decreases j - i,
{
    if j > i + 1 {
        if x < j - 1 {
            lemma_run_min_le(lcp, i, j - 1, x);
        }
    }
}

proof fn lemma_found_keys(
    files: Seq<FileTokens>,
    st: Layout,
    nf: int,
    sa: Seq<usize>,
    lcp: Seq<usize>,
    m: usize,
    min_lines: u32,
    i: int,
)
    requires
        layout_inv(files, st, nf),
        layout_ok(files, st.2, st.3),
        crate::analyze::suffix::is_suffix_array(st.1, sa),
        crate::analyze::suffix::is_lcp_array(st.1, sa, lcp),
        m >= 1,
    ensures
        forall|k: int|
            0 <= k < found_from(files, st.2, st.3, sa, lcp, m, min_lines, i).len() ==> copies_share_keys(
                files,
                #[trigger] found_from(files, st.2, st.3, sa, lcp, m, min_lines, i)[k],
            ),
    decreases lcp.len() - i,
{
    let t = st.1;
    let owner = st.2;
    let offset = st.3;
    if i < 1 || i >= lcp.len() {
    } else if lcp[i] >= m {
        lemma_run_end(lcp, m, i);
        lemma_run_end(lcp, m, i + 1);
        let j = run_end(lcp, m, i);
        assert(j > i && j <= lcp.len());
        lemma_run_min(lcp, m, i, j);
        let len = run_min(lcp, i, j) as usize;
        assert(len as int == run_min(lcp, i, j));
        let ps = sa.subrange(i - 1, j);
        assert forall|x: int| i <= x < j implies #[trigger] lcp[x] >= len by {
            lemma_run_min_le(lcp, i, j, x);
        }
        assert forall|k: int| 0 <= k < ps.len() implies #[trigger] ps[k] < t.len() by {
            assert(ps[k] == sa[i - 1 + k]);
        }
        assert forall|a: int, b: int| 0 <= a < b < ps.len() implies #[trigger] ps[a] != #[trigger] ps[b] by {
            assert(ps[a] == sa[i - 1 + a] && ps[b] == sa[i - 1 + b]);
            assert(crate::analyze::suffix::suffix_lt(t, sa[i - 1 + a] as int, sa[i - 1 + b] as int));
            crate::analyze::suffix::lemma_suffix_lt_irrefl(t, sa[i - 1 + a] as int);
        }
        assert forall|a: int, b: int| 0 <= a < ps.len() && 0 <= b < ps.len() implies agree(
            t,
            #[trigger] ps[a] as int,
            #[trigger] ps[b] as int,
            len as int,
        ) by {
            assert(ps[a] == sa[i - 1 + a] && ps[b] == sa[i - 1 + b]);
            if a <= b {
                lemma_run_agree(t, sa, lcp, i, j, len as int, i - 1 + a, i - 1 + b);
            } else {
                lemma_run_agree(t, sa, lcp, i, j, len as int, i - 1 + b, i - 1 + a);
            }
        }
        lemma_group_of_keys(files, st, nf, ps, len, min_lines);
        lemma_found_keys(files, st, nf, sa, lcp, m, min_lines, j);
        let head: Seq<CloneGroupView> = match group_of(files, owner, offset, ps, len, min_lines) {
            Some(g) => seq![g],
            None => Seq::empty(),
        };
        let rest = found_from(files, owner, offset, sa, lcp, m, min_lines, j);
        let all = found_from(files, owner, offset, sa, lcp, m, min_lines, i);
        assert(all == head + rest);
        assert forall|k: int| 0 <= k < all.len() implies copies_share_keys(files, #[trigger] all[k]) by {
            if k < head.len() {
                assert(all[k] == head[k]);
            } else {
                assert(all[k] == rest[k - head.len()]);
            }
        }
    } else {
        lemma_found_keys(files, st, nf, sa, lcp, m, min_lines, i + 1);
        assert(found_from(files, owner, offset, sa, lcp, m, min_lines, i) == found_from(
            files, owner, offset, sa, lcp, m, min_lines, i + 1));
    }
}

/// The copies of each reported group are token sequences with identical
/// keys: each is `token_count` tokens of its file, key for key those of the
/// first copy.
pub proof fn lemma_reported_copies_share_keys(
    files: Seq<FileTokens>,
    min_tokens: usize,
    min_lines: u32,
    r: Seq<CloneGroup>,
    i: int,
)
    requires
        tokens_ok(files),
        min_tokens >= 1,
        tokens_upto(files, files.len() as int) + files.len() < usize::MAX,
        tokens_upto(files, files.len() as int) + files.len() < i64::MAX,
        detected(files, min_tokens, min_lines, r),
        0 <= i < r.len(),
    ensures
        copies_share_keys(files, r[i]@),
{
    let l = layout_upto(files, files.len() as int);
    let (sa, lcp, found, kept) = choose|sa: Seq<usize>, lcp: Seq<usize>, found: Seq<CloneGroup>, kept: Seq<CloneGroup>|
        {
            &&& is_suffix_array(l.1, sa)
            &&& #[trigger] is_lcp_array(l.1, sa, lcp)
            &&& #[trigger] group_views(found) == found_from(files, l.2, l.3, sa, lcp, min_tokens, min_lines, 1)
            &&& exists|sorted: Seq<CloneGroup>|
                #[trigger] stable_sort_of(found, sorted) && group_views(kept) == retained(
                    group_views(sorted),
                    sorted.len() as int,
                ).0
            &&& #[trigger] stable_sort_of(kept, r)
        };
    let sorted = choose|sorted: Seq<CloneGroup>|
        #[trigger] stable_sort_of(found, sorted) && group_views(kept) == retained(group_views(sorted), sorted.len() as int).0;
    assert forall|x: int| 0 <= x < files.len() implies (#[trigger] files[x]).keys@.len() <= usize::MAX by {
        lemma_tokens_upto_nonneg(files, x);
        lemma_tokens_upto_mono(files, x + 1, files.len() as int);
    }
    lemma_tokens_upto_nonneg(files, files.len() as int);
    lemma_layout_ok(files, files.len() as int);
    lemma_layout_inv(files, files.len() as int);
    lemma_found_keys(files, l, files.len() as int, sa, lcp, min_tokens, min_lines, 1);
    lemma_stable_sort_same_elements(kept, r);
    let a = choose|a: int| 0 <= a < kept.len() && kept[a] == r[i];
    lemma_retained_from(group_views(sorted), sorted.len() as int);
    assert(group_views(kept)[a] == kept[a]@);
    assert(group_views(sorted).contains(kept[a]@));
    let b = choose|b: int| 0 <= b < sorted.len() && group_views(sorted)[b] == kept[a]@;
    lemma_stable_sort_same_elements(found, sorted);
    let c = choose|c: int| 0 <= c < found.len() && found[c] == sorted[b];
    assert(group_views(found)[c] == found[c]@);
    assert(copies_share_keys(files, found_from(files, l.2, l.3, sa, lcp, min_tokens, min_lines, 1)[c]));
}

proof fn lemma_multi_buckets_many(b: Seq<(Set<Seq<char>>, Seq<int>)>, k: int)
    requires
        0 <= k < multi_buckets(b).len(),
    ensures
        multi_buckets(b)[k].1.len() > 1,
    decreases b.len(),
{
    if b.len() > 0 {
        let prev = multi_buckets(b.drop_last());
        if k < prev.len() {
            lemma_multi_buckets_many(b.drop_last(), k);
            if b.last().1.len() > 1 {
                assert(multi_buckets(b)[k] == prev[k]);
            }
        }
    }
}

/// Every reported family gathers two clone groups or more.
pub proof fn lemma_families_have_two_groups(gs: Seq<CloneGroupView>, r: Seq<CloneFamily>, i: int)
    requires
        families_of(gs, r),
        0 <= i < r.len(),
    ensures
        r[i].group_count >= 2,
{
    let mb = multi_buckets(buckets_upto(gs, gs.len() as int));
    let pre = choose|pre: Seq<CloneFamily>|
        {
            &&& pre.len() == mb.len()
            &&& forall|k: int| 0 <= k < pre.len() ==> is_family(#[trigger] pre[k], mb[k], gs)
            &&& #[trigger] stable_sort_of(pre, r)
        };
    lemma_stable_sort_same_elements(pre, r);
    let j = choose|j: int| 0 <= j < pre.len() && pre[j] == r[i];
    assert(is_family(pre[j], mb[j], gs));
    lemma_multi_buckets_many(buckets_upto(gs, gs.len() as int), j);
}

} // verus!
