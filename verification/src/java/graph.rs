//! The import graph between Java files, its entry points and what they reach.
use vstd::prelude::*;
use crate::java::model::{last_dot_before, lemma_last_dot, strings_view, FileInfo, FileInfoView};
use crate::text::{chars_eq, contains_chars, contains_seq, copy_range, str_eq, to_chars};

verus! {

// ---------------------------------------------------------------------------
// Paths and reachability in an adjacency list
// ---------------------------------------------------------------------------

/// Every listed neighbour is a vertex.
pub open spec fn adj_ok(adj: Seq<Vec<usize>>) -> bool {
    forall|u: int, k: int| 0 <= u < adj.len() && 0 <= k < adj[u]@.len() ==> #[trigger] adj[u]@[k] < adj.len()
}

pub open spec fn has_edge(adj: Seq<Vec<usize>>, u: int, v: int) -> bool {
    0 <= u < adj.len() && exists|k: int| 0 <= k < adj[u]@.len() && #[trigger] adj[u]@[k] as int == v
}

/// `p` walks along edges of `adj`.
pub open spec fn is_path(adj: Seq<Vec<usize>>, p: Seq<int>) -> bool {
    &&& p.len() >= 1
    &&& forall|i: int| 0 <= i < p.len() ==> 0 <= #[trigger] p[i] < adj.len()
    &&& forall|i: int| 0 <= i < p.len() - 1 ==> has_edge(adj, #[trigger] p[i], p[i + 1])
}

/// There is a path from `a` to `b` (of length zero when `a == b`).
pub open spec fn reaches(adj: Seq<Vec<usize>>, a: int, b: int) -> bool {
    exists|p: Seq<int>| #[trigger] is_path(adj, p) && p[0] == a && p.last() == b
}

/// `v` is reached from some seed.
pub open spec fn reached_from(adj: Seq<Vec<usize>>, seeds: Seq<bool>, v: int) -> bool {
    exists|s: int| 0 <= s < seeds.len() && #[trigger] seeds[s] && reaches(adj, s, v)
}

pub proof fn lemma_reaches_refl(adj: Seq<Vec<usize>>, a: int)
    requires
        0 <= a < adj.len(),
    ensures
        reaches(adj, a, a),
{
    let p = seq![a];
    assert(is_path(adj, p));
}

pub proof fn lemma_reaches_step(adj: Seq<Vec<usize>>, a: int, b: int, c: int)
    requires
        reaches(adj, a, b),
        has_edge(adj, b, c),
        adj_ok(adj),
    ensures
        reaches(adj, a, c),
{
    let p = choose|p: Seq<int>| #[trigger] is_path(adj, p) && p[0] == a && p.last() == b;
    let q = p.push(c);
    let k = choose|k: int| 0 <= k < adj[b]@.len() && #[trigger] adj[b]@[k] as int == c;
    assert(adj[b]@[k] < adj.len());
    assert forall|i: int| 0 <= i < q.len() implies 0 <= #[trigger] q[i] < adj.len() by {
        if i < p.len() {
            assert(q[i] == p[i]);
        }
    }
    assert forall|i: int| 0 <= i < q.len() - 1 implies has_edge(adj, #[trigger] q[i], q[i + 1]) by {
        if i < p.len() - 1 {
            assert(q[i] == p[i] && q[i + 1] == p[i + 1]);
        }
    }
    assert(is_path(adj, q));
}

pub proof fn lemma_reaches_trans(adj: Seq<Vec<usize>>, a: int, b: int, c: int)
    requires
        reaches(adj, a, b),
        reaches(adj, b, c),
    ensures
        reaches(adj, a, c),
{
    let p = choose|p: Seq<int>| #[trigger] is_path(adj, p) && p[0] == a && p.last() == b;
    let q = choose|q: Seq<int>| #[trigger] is_path(adj, q) && q[0] == b && q.last() == c;
    let r = p + q.subrange(1, q.len() as int);
    assert forall|i: int| 0 <= i < r.len() implies 0 <= #[trigger] r[i] < adj.len() by {
        if i >= p.len() {
            assert(r[i] == q[i - p.len() + 1]);
        }
    }
    assert forall|i: int| 0 <= i < r.len() - 1 implies has_edge(adj, #[trigger] r[i], r[i + 1]) by {
        if i < p.len() - 1 {
            assert(r[i] == p[i] && r[i + 1] == p[i + 1]);
        } else if i == p.len() - 1 {
            assert(r[i] == q[0]);
            assert(r[i + 1] == q[1]);
        } else {
            assert(r[i] == q[i - p.len() + 1] && r[i + 1] == q[i - p.len() + 2]);
        }
    }
    assert(is_path(adj, r));
    if q.len() == 1 {
        assert(r =~= p);
    } else {
        assert(r.last() == q.last());
    }
}

/// A set that holds the start of a path and is closed under edges holds
/// the end of it.
proof fn lemma_closed_holds_path(adj: Seq<Vec<usize>>, m: Seq<bool>, p: Seq<int>, i: int)
    requires
        is_path(adj, p),
        m.len() == adj.len(),
        m[p[0]],
        forall|u: int, v: int| 0 <= u < m.len() && #[trigger] m[u] && #[trigger] has_edge(adj, u, v) ==> m[v],
        0 <= i < p.len(),
    ensures
        m[p[i]],
    decreases i,
{
    if i > 0 {
        lemma_closed_holds_path(adj, m, p, i - 1);
        assert(has_edge(adj, p[i - 1], p[i]));
    }
}

/// Number of `true` among `m[..k]`.
pub open spec fn count_true(m: Seq<bool>, k: int) -> int
    decreases k,
{
    if k <= 0 || k > m.len() {
        0
    } else {
        count_true(m, k - 1) + if m[k - 1] {
            1int
        } else {
            0int
        }
    }
}

proof fn lemma_count_true_bound(m: Seq<bool>, k: int)
    requires
        0 <= k <= m.len(),
    ensures
        0 <= count_true(m, k) <= k,
    decreases k,
{
    if k > 0 {
        lemma_count_true_bound(m, k - 1);
    }
}

proof fn lemma_count_true_set(m: Seq<bool>, k: int, x: int)
    requires
        0 <= x < m.len(),
        0 <= k <= m.len(),
        !m[x],
    ensures
        count_true(m.update(x, true), k) == count_true(m, k) + if x < k {
            1int
        } else {
            0int
        },
    decreases k,
{
    if k > 0 {
        lemma_count_true_set(m, k - 1, x);
    }
}

/// The bookkeeping of a breadth-first search: `order` lists the marked
/// vertices once each, every marked vertex is reached from a seed, every
/// seed is marked, and the first `head` listed vertices have all their
/// successors marked.
#[verifier::opaque]
spec fn bfs_inv(adj: Seq<Vec<usize>>, seeds: Seq<bool>, marked: Seq<bool>, order: Seq<usize>, head: int) -> bool {
    let n = adj.len();
    &&& adj_ok(adj)
    &&& marked.len() == n
    &&& seeds.len() == n
    &&& 0 <= head <= order.len()
    &&& order.len() == count_true(marked, n as int)
    &&& forall|k: int| 0 <= k < order.len() ==> #[trigger] order[k] < n && marked[order[k] as int]
    &&& forall|v: int| 0 <= v < n && #[trigger] marked[v] ==> listed(order, v)
    &&& forall|v: int| 0 <= v < n && #[trigger] marked[v] ==> reached_from(adj, seeds, v)
    &&& forall|k: int, v: int|
        0 <= k < head && #[trigger] has_edge(adj, order[k] as int, v) ==> 0 <= v < n && marked[v]
}

/// `v` occurs in `order`.
spec fn listed(order: Seq<usize>, v: int) -> bool {
    exists|k: int| 0 <= k < order.len() && #[trigger] order[k] as int == v
}

/// Marking a vertex that is reached, and listing it, keeps the bookkeeping.
proof fn lemma_bfs_mark(adj: Seq<Vec<usize>>, seeds: Seq<bool>, marked: Seq<bool>, order: Seq<usize>, head: int, x: usize)
    requires
        bfs_inv(adj, seeds, marked, order, head),
        x < adj.len(),
        !marked[x as int],
        reached_from(adj, seeds, x as int),
    ensures
        bfs_inv(adj, seeds, marked.update(x as int, true), order.push(x), head),
{
    reveal(bfs_inv);
    let n = adj.len();
    let m2 = marked.update(x as int, true);
    let o2 = order.push(x);
    lemma_count_true_set(marked, n as int, x as int);
    assert forall|v: int| 0 <= v < n && #[trigger] m2[v] implies listed(o2, v) by {
        if v == x {
            assert(o2[order.len() as int] == x);
        } else {
            assert(marked[v]);
            let k = choose|k: int| 0 <= k < order.len() && #[trigger] order[k] as int == v;
            assert(o2[k] == order[k]);
        }
    }
    assert forall|k: int| 0 <= k < o2.len() implies #[trigger] o2[k] < n && m2[o2[k] as int] by {
        if k < order.len() {
            assert(o2[k] == order[k]);
            assert(order[k] < n && marked[order[k] as int]);
        } else {
            assert(o2[k] == x);
        }
    }
    assert forall|k: int, v: int| 0 <= k < head && #[trigger] has_edge(adj, o2[k] as int, v) implies 0 <= v < n && m2[v] by {
        assert(o2[k] == order[k]);
        assert(has_edge(adj, order[k] as int, v));
    }
}

/// Once every listed vertex has been expanded, the marked set is closed
/// under edges, so it holds every vertex reached from a seed.
proof fn lemma_bfs_done(adj: Seq<Vec<usize>>, seeds: Seq<bool>, marked: Seq<bool>, order: Seq<usize>)
    requires
        bfs_inv(adj, seeds, marked, order, order.len() as int),
        adj_ok(adj),
        forall|v: int| 0 <= v < adj.len() && #[trigger] seeds[v] ==> marked[v],
    ensures
        forall|v: int| 0 <= v < adj.len() ==> (marked[v] <==> reached_from(adj, seeds, v)),
{
    reveal(bfs_inv);
    assert forall|a: int, b: int| 0 <= a < marked.len() && #[trigger] marked[a] && #[trigger] has_edge(adj, a, b) implies marked[b] by {
        let k = choose|k: int| 0 <= k < order.len() && #[trigger] order[k] as int == a;
        assert(has_edge(adj, order[k] as int, b));
    }
    assert forall|v: int| 0 <= v < adj.len() && reached_from(adj, seeds, v) implies marked[v] by {
        let s = choose|s: int| 0 <= s < seeds.len() && #[trigger] seeds[s] && reaches(adj, s, v);
        let p = choose|p: Seq<int>| #[trigger] is_path(adj, p) && p[0] == s && p.last() == v;
        lemma_closed_holds_path(adj, marked, p, p.len() - 1);
    }
}

/// After the successors of `order[head]` are all marked, the first
/// `head + 1` listed vertices are expanded.
proof fn lemma_bfs_advance(adj: Seq<Vec<usize>>, seeds: Seq<bool>, marked: Seq<bool>, order: Seq<usize>, head: int)
    requires
        bfs_inv(adj, seeds, marked, order, head),
        head < order.len(),
        forall|q: int| 0 <= q < adj[order[head] as int]@.len() ==> marked[#[trigger] adj[order[head] as int]@[q] as int],
    ensures
        bfs_inv(adj, seeds, marked, order, head + 1),
{
    reveal(bfs_inv);
    assert forall|k: int, v: int| 0 <= k < head + 1 && #[trigger] has_edge(adj, order[k] as int, v) implies 0 <= v < adj.len() && marked[v] by {
        if k == head {
            let q = choose|q: int| 0 <= q < adj[order[head] as int]@.len() && #[trigger] adj[order[head] as int]@[q] as int == v;
            assert(marked[adj[order[head] as int]@[q] as int]);
            assert(adj[order[head] as int]@[q] < adj.len());
        }
    }
}

proof fn lemma_bfs_facts(adj: Seq<Vec<usize>>, seeds: Seq<bool>, marked: Seq<bool>, order: Seq<usize>, head: int)
    requires
        bfs_inv(adj, seeds, marked, order, head),
    ensures
        marked.len() == adj.len(),
        0 <= head <= order.len() <= adj.len(),
        forall|k: int| 0 <= k < order.len() ==> #[trigger] order[k] < adj.len(),
        forall|k: int| 0 <= k < order.len() ==> marked[#[trigger] order[k] as int],
        forall|v: int| 0 <= v < adj.len() && #[trigger] marked[v] ==> reached_from(adj, seeds, v),
{
    reveal(bfs_inv);
    lemma_count_true_bound(marked, adj.len() as int);
}

/// The vertices reached from the seeds (breadth-first).
pub fn reach_from_seeds(adj: &Vec<Vec<usize>>, seeds: &Vec<bool>) -> (r: Vec<bool>)
    requires
        seeds@.len() == adj@.len(),
        adj_ok(adj@),
    ensures
        r@.len() == adj@.len(),
        forall|v: int| 0 <= v < adj@.len() ==> (r@[v] <==> reached_from(adj@, seeds@, v)),
{
    let n = adj.len();
    let mut marked: Vec<bool> = Vec::new();
    let mut i: usize = 0;
    while i < n
        invariant
            i <= n == adj@.len(),
            marked@.len() == i,
            forall|j: int| 0 <= j < i ==> !marked@[j],
        decreases n - i,
    {
        marked.push(false);
        i += 1;
    }
    let mut order: Vec<usize> = Vec::new();
    proof {
        lemma_count_zero(marked@, n as int);
        reveal(bfs_inv);
        assert(bfs_inv(adj@, seeds@, marked@, order@, 0));
    }
    let mut id: usize = 0;
    while id < n
        invariant
            n == adj@.len() == seeds@.len(),
            id <= n,
            bfs_inv(adj@, seeds@, marked@, order@, 0),
            forall|v: int| 0 <= v < id && #[trigger] seeds@[v] ==> marked@[v],
        decreases n - id,
    {
        proof {
            lemma_bfs_facts(adj@, seeds@, marked@, order@, 0);
        }
        if seeds[id] && !marked[id] {
            proof {
                lemma_reaches_refl(adj@, id as int);
                lemma_bfs_mark(adj@, seeds@, marked@, order@, 0, id);
            }
            marked.set(id, true);
            order.push(id);
        }
        id += 1;
    }
    let mut head: usize = 0;
    while head < order.len()
        invariant
            n == adj@.len() == seeds@.len(),
            adj_ok(adj@),
            bfs_inv(adj@, seeds@, marked@, order@, head as int),
            forall|v: int| 0 <= v < n && #[trigger] seeds@[v] ==> marked@[v],
        decreases n - head,
    {
        proof {
            lemma_bfs_facts(adj@, seeds@, marked@, order@, head as int);
        }
        let u = order[head];
        let outs = &adj[u];
        let mut j: usize = 0;
        while j < outs.len()
            invariant
                n == adj@.len() == seeds@.len(),
                adj_ok(adj@),
                u < n,
                outs == adj@[u as int],
                head < order@.len(),
                order@[head as int] == u,
                j <= outs@.len(),
                bfs_inv(adj@, seeds@, marked@, order@, head as int),
                forall|v: int| 0 <= v < n && #[trigger] seeds@[v] ==> marked@[v],
                forall|q: int| 0 <= q < j ==> marked@[#[trigger] outs@[q] as int],
            decreases outs@.len() - j,
        {
            proof {
                lemma_bfs_facts(adj@, seeds@, marked@, order@, head as int);
            }
            let tgt = outs[j];
            assert(adj@[u as int]@[j as int] < adj@.len());
            if !marked[tgt] {
                proof {
                    assert(marked@[u as int]);
                    let s = choose|s: int| 0 <= s < seeds@.len() && #[trigger] seeds@[s] && reaches(adj@, s, u as int);
                    assert(outs@[j as int] == tgt);
                    assert(has_edge(adj@, u as int, tgt as int));
                    lemma_reaches_step(adj@, s, u as int, tgt as int);
                    lemma_bfs_mark(adj@, seeds@, marked@, order@, head as int, tgt);
                }
                marked.set(tgt, true);
                order.push(tgt);
            }
            j += 1;
        }
        proof {
            lemma_bfs_advance(adj@, seeds@, marked@, order@, head as int);
            lemma_bfs_facts(adj@, seeds@, marked@, order@, head as int + 1);
        }
        head += 1;
    }
    proof {
        lemma_bfs_done(adj@, seeds@, marked@, order@);
    }
    marked
}

proof fn lemma_count_zero(m: Seq<bool>, k: int)
    requires
        0 <= k <= m.len(),
        forall|j: int| 0 <= j < m.len() ==> !m[j],
    ensures
        count_true(m, k) == 0,
    decreases k,
{
    if k > 0 {
        lemma_count_zero(m, k - 1);
    }
}

// ---------------------------------------------------------------------------
// Which file depends on which
// ---------------------------------------------------------------------------

/// The views of a sequence of files.
pub open spec fn file_views(s: Seq<FileInfo>) -> Seq<FileInfoView> {
    s.map_values(|f: FileInfo| f.view_of())
}

/// `x` occurs in `v`.
pub open spec fn lists(v: Seq<usize>, x: int) -> bool {
    exists|k: int| 0 <= k < v.len() && #[trigger] v[k] as int == x
}

/// `q` is the text of some element of `v`.
pub open spec fn lists_text(v: Seq<Vec<char>>, q: Seq<char>) -> bool {
    exists|k: int| 0 <= k < v.len() && #[trigger] v[k]@ == q
}

/// File `f` declares a type whose fully qualified name is `q`.
pub open spec fn declares(f: FileInfoView, q: Seq<char>) -> bool {
    exists|j: int| 0 <= j < f.types.len() && #[trigger] f.types[j].fqn == q
}

/// `id` is the first file that declares `q`: the file a lookup of `q` finds.
pub open spec fn owner_is(fs: Seq<FileInfoView>, q: Seq<char>, id: int) -> bool {
    &&& 0 <= id < fs.len()
    &&& declares(fs[id], q)
    &&& forall|i: int| 0 <= i < id ==> !declares(#[trigger] fs[i], q)
}

/// `a.b`.
pub open spec fn dotted(a: Seq<char>, b: Seq<char>) -> Seq<char> {
    a + seq!['.'] + b
}

pub open spec fn has_dot(s: Seq<char>) -> bool {
    last_dot_before(s, s.len() as int) >= 0
}

/// What comes before the last `.` of `s`.
pub open spec fn before_last_dot(s: Seq<char>) -> Seq<char> {
    s.subrange(0, last_dot_before(s, s.len() as int))
}

/// The names file `f` looks up: its imports and static imports, the
/// class part of each static import, each referenced name under each
/// wildcard import, and each referenced name in the file's own package.
pub open spec fn is_query(f: FileInfoView, q: Seq<char>) -> bool {
    ||| f.imports.contains(q)
    ||| f.static_imports.contains(q)
    ||| exists|s: Seq<char>| #[trigger] f.static_imports.contains(s) && has_dot(s) && q == before_last_dot(s)
    ||| exists|p: Seq<char>, m: Seq<char>|
        #[trigger] f.wildcard_imports.contains(p) && #[trigger] f.referenced.contains(m) && q == dotted(p, m)
    ||| f.package.len() > 0 && exists|m: Seq<char>| #[trigger] f.referenced.contains(m) && q == dotted(f.package, m)
}

/// File `s` depends on file `t`: a name that `s` looks up is first
/// declared in `t`, and `t` is another file.
pub open spec fn depends_on(fs: Seq<FileInfoView>, s: int, t: int) -> bool {
    &&& 0 <= s < fs.len()
    &&& t != s
    &&& exists|q: Seq<char>| #[trigger] owner_is(fs, q, t) && is_query(fs[s], q)
}

proof fn lemma_owner_unique(fs: Seq<FileInfoView>, q: Seq<char>, a: int, b: int)
    requires
        owner_is(fs, q, a),
        owner_is(fs, q, b),
    ensures
        a == b,
{
    if a < b {
        assert(!declares(fs[a], q));
    } else if b < a {
        assert(!declares(fs[b], q));
    }
}

/// The fully qualified names each file declares, as characters.
spec fn table_ok(table: Seq<Vec<Vec<char>>>, files: Seq<FileInfo>) -> bool {
    &&& table.len() == files.len()
    &&& forall|i: int| 0 <= i < table.len() ==> #[trigger] table[i]@.len() == files[i].types@.len()
    &&& forall|i: int, j: int|
        0 <= i < table.len() && 0 <= j < table[i]@.len() ==> #[trigger] table[i]@[j]@ == files[i].types@[j].fqn@
}

fn fqn_table(files: &Vec<FileInfo>) -> (r: Vec<Vec<Vec<char>>>)
    ensures
        table_ok(r@, files@),
{
    let mut r: Vec<Vec<Vec<char>>> = Vec::new();
    let mut i: usize = 0;
    while i < files.len()
        invariant
            i <= files@.len(),
            r@.len() == i,
            forall|a: int| 0 <= a < i ==> #[trigger] r@[a]@.len() == files@[a].types@.len(),
            forall|a: int, j: int|
                0 <= a < i && 0 <= j < r@[a]@.len() ==> #[trigger] r@[a]@[j]@ == files@[a].types@[j].fqn@,
        decreases files@.len() - i,
    {
        let types = &files[i].types;
        let mut row: Vec<Vec<char>> = Vec::new();
        let mut j: usize = 0;
        while j < types.len()
            invariant
                j <= types@.len(),
                row@.len() == j,
                forall|b: int| 0 <= b < j ==> #[trigger] row@[b]@ == types@[b].fqn@,
            decreases types@.len() - j,
        {
            row.push(to_chars(types[j].fqn.as_str()));
            j += 1;
        }
        r.push(row);
        i += 1;
    }
    r
}

/// The first file that declares `q`.
fn owner_of(files: &Vec<FileInfo>, table: &Vec<Vec<Vec<char>>>, q: &Vec<char>) -> (r: Option<usize>)
    requires
        table_ok(table@, files@),
    ensures
        r matches Some(i) ==> owner_is(file_views(files@), q@, i as int),
        r is None ==> forall|i: int| 0 <= i < files@.len() ==> !declares(#[trigger] file_views(files@)[i], q@),
{
    let ghost fs = file_views(files@);
    let mut i: usize = 0;
    while i < table.len()
        invariant
            table_ok(table@, files@),
            fs == file_views(files@),
            i <= table@.len(),
            forall|k: int| 0 <= k < i ==> !declares(#[trigger] fs[k], q@),
        decreases table@.len() - i,
    {
        let row = &table[i];
        let mut j: usize = 0;
        while j < row.len()
            invariant
                table_ok(table@, files@),
                fs == file_views(files@),
                i < table@.len(),
                forall|k: int| 0 <= k < i ==> !declares(#[trigger] fs[k], q@),
                row == table@[i as int],
                j <= row@.len(),
                forall|m: int| 0 <= m < j ==> #[trigger] row@[m]@ != q@,
            decreases row@.len() - j,
        {
            if chars_eq(&row[j], q) {
                proof {
                    assert(fs[i as int].types[j as int].fqn == q@);
                    assert(declares(fs[i as int], q@));
                }
                return Some(i);
            }
            j += 1;
        }
        proof {
            assert forall|m: int| 0 <= m < fs[i as int].types.len() implies #[trigger] fs[i as int].types[m].fqn != q@ by {
                assert(row@[m]@ != q@);
            }
        }
        i += 1;
    }
    None
}

fn holds(v: &Vec<usize>, x: usize) -> (r: bool)
    ensures
        r == lists(v@, x as int),
{
    let mut k: usize = 0;
    while k < v.len()
        invariant
            k <= v@.len(),
            forall|m: int| 0 <= m < k ==> #[trigger] v@[m] != x,
        decreases v@.len() - k,
    {
        if v[k] == x {
            return true;
        }
        k += 1;
    }
    false
}

/// Some name among `qs` is first declared in `t`, and `t` is not `id`.
pub open spec fn resolves(fs: Seq<FileInfoView>, qs: Seq<Vec<char>>, id: int, t: int) -> bool {
    t != id && exists|q: Seq<char>| #[trigger] owner_is(fs, q, t) && lists_text(qs, q)
}

proof fn lemma_resolves_step(fs: Seq<FileInfoView>, qs: Seq<Vec<char>>, id: int, t: int, k: int)
    requires
        0 <= k < qs.len(),
    ensures
        resolves(fs, qs.subrange(0, k + 1), id, t) <==> (resolves(fs, qs.subrange(0, k), id, t) || (t != id
            && owner_is(fs, qs[k]@, t))),
{
    let a = qs.subrange(0, k);
    let b = qs.subrange(0, k + 1);
    if resolves(fs, b, id, t) {
        let q = choose|q: Seq<char>| #[trigger] owner_is(fs, q, t) && lists_text(b, q);
        let m = choose|m: int| 0 <= m < b.len() && #[trigger] b[m]@ == q;
        if m < k {
            assert(a[m]@ == q);
        }
    }
    if resolves(fs, a, id, t) {
        let q = choose|q: Seq<char>| #[trigger] owner_is(fs, q, t) && lists_text(a, q);
        let m = choose|m: int| 0 <= m < a.len() && #[trigger] a[m]@ == q;
        assert(b[m]@ == q);
    }
    if t != id && owner_is(fs, qs[k]@, t) {
        assert(b[k]@ == qs[k]@);
        assert(lists_text(b, qs[k]@));
    }
}

/// Adds to `targets` the file each of `qs` resolves to, but `id` itself.
fn add_targets(files: &Vec<FileInfo>, table: &Vec<Vec<Vec<char>>>, id: usize, qs: &Vec<Vec<char>>, targets: &mut Vec<usize>)
    requires
        table_ok(table@, files@),
        id < files@.len(),
        old(targets)@.no_duplicates(),
        forall|k: int| 0 <= k < old(targets)@.len() ==> #[trigger] old(targets)@[k] < files@.len(),
    ensures
        final(targets)@.no_duplicates(),
        forall|k: int| 0 <= k < final(targets)@.len() ==> #[trigger] final(targets)@[k] < files@.len(),
        forall|t: int|
            #[trigger] lists(final(targets)@, t) <==> (lists(old(targets)@, t) || resolves(file_views(files@), qs@, id as int, t)),
{
    let ghost fs = file_views(files@);
    let ghost start = targets@;
    let mut k: usize = 0;
    proof {
        assert forall|t: int| !resolves(fs, qs@.subrange(0, 0), id as int, t) by {
            if resolves(fs, qs@.subrange(0, 0), id as int, t) {
                let q = choose|q: Seq<char>| #[trigger] owner_is(fs, q, t) && lists_text(qs@.subrange(0, 0), q);
            }
        }
    }
    while k < qs.len()
        invariant
            table_ok(table@, files@),
            fs == file_views(files@),
            id < files@.len(),
            k <= qs@.len(),
            targets@.no_duplicates(),
            forall|m: int| 0 <= m < targets@.len() ==> #[trigger] targets@[m] < files@.len(),
            forall|t: int|
                #[trigger] lists(targets@, t) <==> (lists(start, t) || resolves(fs, qs@.subrange(0, k as int), id as int, t)),
        decreases qs@.len() - k,
    {
        let q = &qs[k];
        let found = owner_of(files, table, q);
        let ghost before = targets@;
        match found {
            Some(t) => {
                if t != id && !holds(targets, t) {
                    targets.push(t);
                }
            }
            None => {}
        }
        proof {
            assert forall|t: int|
                #[trigger] lists(targets@, t) <==> (lists(before, t) || (t != id && owner_is(fs, q@, t))) by {
                lemma_resolves_step(fs, qs@, id as int, t, k as int);
                if lists(before, t) {
                    let m = choose|m: int| 0 <= m < before.len() && #[trigger] before[m] as int == t;
                    assert(targets@[m] == before[m]);
                }
                if lists(targets@, t) && !lists(before, t) {
                    let m = choose|m: int| 0 <= m < targets@.len() && #[trigger] targets@[m] as int == t;
                    if m < before.len() {
                        assert(before[m] == targets@[m]);
                    }
                }
                if t != id && owner_is(fs, q@, t) {
                    match found {
                        Some(t0) => {
                            lemma_owner_unique(fs, q@, t0 as int, t);
                            if !lists(before, t) {
                                assert(targets@[targets@.len() - 1] == t0);
                            }
                        }
                        None => {
                            assert(!declares(fs[t], q@));
                        }
                    }
                }
            }
            assert forall|t: int|
                #[trigger] lists(targets@, t) <==> (lists(start, t) || resolves(fs, qs@.subrange(0, k + 1), id as int, t)) by {
                lemma_resolves_step(fs, qs@, id as int, t, k as int);
            }
        }
        k += 1;
    }
    proof {
        assert(qs@.subrange(0, qs@.len() as int) =~= qs@);
    }
}

/// The characters of each string.
fn texts_of(v: &Vec<String>) -> (r: Vec<Vec<char>>)
    ensures
        r@.len() == v@.len(),
        forall|k: int| 0 <= k < v@.len() ==> #[trigger] r@[k]@ == v@[k]@,
        forall|q: Seq<char>| lists_text(r@, q) <==> strings_view(v@).contains(q),
{
    let mut r: Vec<Vec<char>> = Vec::new();
    let mut i: usize = 0;
    while i < v.len()
        invariant
            i <= v@.len(),
            r@.len() == i,
            forall|k: int| 0 <= k < i ==> #[trigger] r@[k]@ == v@[k]@,
        decreases v@.len() - i,
    {
        r.push(to_chars(v[i].as_str()));
        i += 1;
    }
    proof {
        assert forall|q: Seq<char>| lists_text(r@, q) <==> strings_view(v@).contains(q) by {
            if lists_text(r@, q) {
                let k = choose|k: int| 0 <= k < r@.len() && #[trigger] r@[k]@ == q;
                assert(strings_view(v@)[k] == q);
            }
            if strings_view(v@).contains(q) {
                let k = choose|k: int| 0 <= k < strings_view(v@).len() && strings_view(v@)[k] == q;
                assert(r@[k]@ == q);
            }
        }
    }
    r
}

/// What precedes the last `.` of `s`, when `s` has a `.`.
fn before_last_dot_exec(s: &Vec<char>) -> (r: Option<Vec<char>>)
    ensures
        r is Some <==> has_dot(s@),
        r matches Some(p) ==> p@ == before_last_dot(s@),
{
    let mut j = s.len();
    while j > 0 && s[j - 1] != '.'
        invariant
            j <= s.len(),
            last_dot_before(s@, s@.len() as int) == last_dot_before(s@, j as int),
        decreases j,
    {
        j -= 1;
    }
    proof {
        lemma_last_dot(s@, j as int);
    }
    if j == 0 {
        None
    } else {
        Some(copy_range(s, 0, j - 1))
    }
}

/// The class part of each static import that has one.
fn parents_of(v: &Vec<String>) -> (r: Vec<Vec<char>>)
    ensures
        forall|q: Seq<char>|
            lists_text(r@, q) <==> exists|s: Seq<char>|
                #[trigger] strings_view(v@).contains(s) && has_dot(s) && q == before_last_dot(s),
{
    let mut r: Vec<Vec<char>> = Vec::new();
    let mut i: usize = 0;
    while i < v.len()
        invariant
            i <= v@.len(),
            forall|q: Seq<char>|
                lists_text(r@, q) <==> exists|k: int|
                    0 <= k < i && has_dot(#[trigger] v@[k]@) && q == before_last_dot(v@[k]@),
        decreases v@.len() - i,
    {
        let sc = to_chars(v[i].as_str());
        let ghost old_r = r@;
        match before_last_dot_exec(&sc) {
            Some(p) => {
                r.push(p);
            }
            None => {}
        }
        proof {
            assert forall|q: Seq<char>|
                lists_text(r@, q) <==> exists|k: int|
                    0 <= k < i + 1 && has_dot(#[trigger] v@[k]@) && q == before_last_dot(v@[k]@) by {
                if lists_text(r@, q) {
                    let m = choose|m: int| 0 <= m < r@.len() && #[trigger] r@[m]@ == q;
                    if m < old_r.len() {
                        assert(old_r[m]@ == q);
                        assert(lists_text(old_r, q));
                    } else {
                        assert(has_dot(v@[i as int]@));
                    }
                }
                if exists|k: int| 0 <= k < i + 1 && has_dot(#[trigger] v@[k]@) && q == before_last_dot(v@[k]@) {
                    let k = choose|k: int| 0 <= k < i + 1 && has_dot(#[trigger] v@[k]@) && q == before_last_dot(v@[k]@);
                    if k < i {
                        assert(exists|k2: int| 0 <= k2 < i && has_dot(#[trigger] v@[k2]@) && q == before_last_dot(v@[k2]@));
                        assert(lists_text(old_r, q));
                        let m = choose|m: int| 0 <= m < old_r.len() && #[trigger] old_r[m]@ == q;
                        assert(r@[m]@ == q);
                    } else {
                        assert(r@[r@.len() - 1]@ == q);
                    }
                }
            }
        }
        i += 1;
    }
    proof {
        assert forall|q: Seq<char>|
            lists_text(r@, q) <==> exists|s: Seq<char>|
                #[trigger] strings_view(v@).contains(s) && has_dot(s) && q == before_last_dot(s) by {
            if lists_text(r@, q) {
                let k = choose|k: int| 0 <= k < v@.len() && has_dot(#[trigger] v@[k]@) && q == before_last_dot(v@[k]@);
                assert(strings_view(v@)[k] == v@[k]@);
                assert(strings_view(v@).contains(v@[k]@));
            }
            if exists|s: Seq<char>| #[trigger] strings_view(v@).contains(s) && has_dot(s) && q == before_last_dot(s) {
                let s = choose|s: Seq<char>| #[trigger] strings_view(v@).contains(s) && has_dot(s) && q == before_last_dot(s);
                let k = choose|k: int| 0 <= k < strings_view(v@).len() && strings_view(v@)[k] == s;
                assert(v@[k]@ == s);
            }
        }
    }
    r
}

fn dotted_exec(a: &Vec<char>, b: &Vec<char>) -> (r: Vec<char>)
    ensures
        r@ == dotted(a@, b@),
{
    let mut r = a.clone();
    proof {
        assert(r@ == a@);
    }
    r.push('.');
    let mut i: usize = 0;
    while i < b.len()
        invariant
            i <= b@.len(),
            r@ == a@ + seq!['.'] + b@.subrange(0, i as int),
        decreases b@.len() - i,
    {
        r.push(b[i]);
        proof {
            assert(b@.subrange(0, i + 1) =~= b@.subrange(0, i as int).push(b@[i as int]));
        }
        i += 1;
    }
    proof {
        assert(b@.subrange(0, b@.len() as int) =~= b@);
    }
    r
}

/// `p.m` for every prefix `p` and every name `m`.
fn products(prefixes: &Vec<Vec<char>>, names: &Vec<Vec<char>>) -> (r: Vec<Vec<char>>)
    ensures
        forall|q: Seq<char>|
            lists_text(r@, q) <==> exists|a: int, b: int|
                0 <= a < prefixes@.len() && 0 <= b < names@.len() && q == dotted(
                    #[trigger] prefixes@[a]@,
                    #[trigger] names@[b]@,
                ),
{
    let mut r: Vec<Vec<char>> = Vec::new();
    let mut i: usize = 0;
    while i < prefixes.len()
        invariant
            i <= prefixes@.len(),
            forall|q: Seq<char>|
                lists_text(r@, q) <==> exists|a: int, b: int|
                    0 <= a < i && 0 <= b < names@.len() && q == dotted(
                        #[trigger] prefixes@[a]@,
                        #[trigger] names@[b]@,
                    ),
        decreases prefixes@.len() - i,
    {
        let mut j: usize = 0;
        while j < names.len()
            invariant
                i < prefixes@.len(),
                j <= names@.len(),
                forall|q: Seq<char>|
                    lists_text(r@, q) <==> (exists|a: int, b: int|
                        0 <= a < i && 0 <= b < names@.len() && q == dotted(
                            #[trigger] prefixes@[a]@,
                            #[trigger] names@[b]@,
                        )) || (exists|b: int| 0 <= b < j && q == dotted(prefixes@[i as int]@, #[trigger] names@[b]@)),
            decreases names@.len() - j,
        {
            let d = dotted_exec(&prefixes[i], &names[j]);
            let ghost old_r = r@;
            r.push(d);
            proof {
                assert forall|q: Seq<char>|
                    lists_text(r@, q) <==> (exists|a: int, b: int|
                        0 <= a < i && 0 <= b < names@.len() && q == dotted(
                            #[trigger] prefixes@[a]@,
                            #[trigger] names@[b]@,
                        )) || (exists|b: int| 0 <= b < j + 1 && q == dotted(prefixes@[i as int]@, #[trigger] names@[b]@)) by {
                    if lists_text(r@, q) {
                        let m = choose|m: int| 0 <= m < r@.len() && #[trigger] r@[m]@ == q;
                        if m < old_r.len() {
                            assert(old_r[m]@ == q);
                            assert(lists_text(old_r, q));
                        }
                    }
                    if lists_text(old_r, q) {
                        let m = choose|m: int| 0 <= m < old_r.len() && #[trigger] old_r[m]@ == q;
                        assert(r@[m]@ == q);
                    }
                    if exists|b: int| 0 <= b < j + 1 && q == dotted(prefixes@[i as int]@, #[trigger] names@[b]@) {
                        let b = choose|b: int| 0 <= b < j + 1 && q == dotted(prefixes@[i as int]@, #[trigger] names@[b]@);
                        if b == j {
                            assert(r@[r@.len() - 1]@ == q);
                        } else {
                            assert(exists|b: int| 0 <= b < j && q == dotted(prefixes@[i as int]@, #[trigger] names@[b]@));
                        }
                    }
                }
            }
            j += 1;
        }
        proof {
            assert forall|q: Seq<char>|
                lists_text(r@, q) <==> exists|a: int, b: int|
                    0 <= a < i + 1 && 0 <= b < names@.len() && q == dotted(
                        #[trigger] prefixes@[a]@,
                        #[trigger] names@[b]@,
                    ) by {
                if exists|a: int, b: int|
                    0 <= a < i + 1 && 0 <= b < names@.len() && q == dotted(
                        #[trigger] prefixes@[a]@,
                        #[trigger] names@[b]@,
                    ) {
                    let (a, b) = choose|a: int, b: int|
                        0 <= a < i + 1 && 0 <= b < names@.len() && q == dotted(
                            #[trigger] prefixes@[a]@,
                            #[trigger] names@[b]@,
                        );
                    if a == i {
                        assert(exists|b: int| 0 <= b < j && q == dotted(prefixes@[i as int]@, #[trigger] names@[b]@));
                    } else {
                        assert(exists|a: int, b: int|
                            0 <= a < i && 0 <= b < names@.len() && q == dotted(
                                #[trigger] prefixes@[a]@,
                                #[trigger] names@[b]@,
                            ));
                    }
                }
            }
        }
        i += 1;
    }
    r
}

proof fn lemma_resolves_union(fs: Seq<FileInfoView>, f: FileInfoView, id: int, t: int, a: Seq<Vec<char>>, b: Seq<Vec<char>>, c: Seq<Vec<char>>, d: Seq<Vec<char>>, e: Seq<Vec<char>>)
    requires
        0 <= id < fs.len(),
        fs[id] == f,
        forall|q: Seq<char>| is_query(f, q) <==> (lists_text(a, q) || lists_text(b, q) || lists_text(c, q)
            || lists_text(d, q) || lists_text(e, q)),
    ensures
        depends_on(fs, id, t) <==> (resolves(fs, a, id, t) || resolves(fs, b, id, t) || resolves(fs, c, id, t)
            || resolves(fs, d, id, t) || resolves(fs, e, id, t)),
{
    if depends_on(fs, id, t) {
        let q = choose|q: Seq<char>| #[trigger] owner_is(fs, q, t) && is_query(fs[id], q);
        assert(lists_text(a, q) || lists_text(b, q) || lists_text(c, q) || lists_text(d, q) || lists_text(e, q));
    }
    if resolves(fs, a, id, t) {
        let q = choose|q: Seq<char>| #[trigger] owner_is(fs, q, t) && lists_text(a, q);
        assert(is_query(f, q));
    }
    if resolves(fs, b, id, t) {
        let q = choose|q: Seq<char>| #[trigger] owner_is(fs, q, t) && lists_text(b, q);
        assert(is_query(f, q));
    }
    if resolves(fs, c, id, t) {
        let q = choose|q: Seq<char>| #[trigger] owner_is(fs, q, t) && lists_text(c, q);
        assert(is_query(f, q));
    }
    if resolves(fs, d, id, t) {
        let q = choose|q: Seq<char>| #[trigger] owner_is(fs, q, t) && lists_text(d, q);
        assert(is_query(f, q));
    }
    if resolves(fs, e, id, t) {
        let q = choose|q: Seq<char>| #[trigger] owner_is(fs, q, t) && lists_text(e, q);
        assert(is_query(f, q));
    }
}

/// The files that file `id` depends on, each once.
fn edges_of(files: &Vec<FileInfo>, table: &Vec<Vec<Vec<char>>>, id: usize) -> (r: Vec<usize>)
    requires
        table_ok(table@, files@),
        id < files@.len(),
    ensures
        r@.no_duplicates(),
        forall|k: int| 0 <= k < r@.len() ==> #[trigger] r@[k] < files@.len(),
        forall|t: int| #[trigger] lists(r@, t) <==> depends_on(file_views(files@), id as int, t),
{
    let ghost fs = file_views(files@);
    let f = &files[id];
    let ghost fv = f.view_of();
    let imps = texts_of(&f.imports);
    let stats = texts_of(&f.static_imports);
    let pars = parents_of(&f.static_imports);
    let wild = texts_of(&f.wildcard_imports);
    let refs = texts_of(&f.referenced);
    let wprod = products(&wild, &refs);
    let pkg = to_chars(f.package.as_str());
    let mut pk: Vec<Vec<char>> = Vec::new();
    if pkg.len() > 0 {
        pk.push(pkg);
    }
    let pprod = products(&pk, &refs);
    proof {
        assert forall|q: Seq<char>| is_query(fv, q) <==> (lists_text(imps@, q) || lists_text(stats@, q)
            || lists_text(pars@, q) || lists_text(wprod@, q) || lists_text(pprod@, q)) by {
            let rv = strings_view(f.referenced@);
            if exists|p: Seq<char>, m: Seq<char>|
                #[trigger] fv.wildcard_imports.contains(p) && #[trigger] fv.referenced.contains(m) && q == dotted(p, m) {
                let (p, m) = choose|p: Seq<char>, m: Seq<char>|
                    #[trigger] fv.wildcard_imports.contains(p) && #[trigger] fv.referenced.contains(m) && q == dotted(p, m);
                assert(lists_text(wild@, p));
                let a = choose|a: int| 0 <= a < wild@.len() && #[trigger] wild@[a]@ == p;
                assert(rv.contains(m));
                let b = choose|b: int| 0 <= b < rv.len() && rv[b] == m;
                assert(refs@[b]@ == m);
                assert(lists_text(wprod@, q));
            }
            if lists_text(wprod@, q) {
                let (a, b) = choose|a: int, b: int|
                    0 <= a < wild@.len() && 0 <= b < refs@.len() && q == dotted(#[trigger] wild@[a]@, #[trigger] refs@[b]@);
                assert(lists_text(wild@, wild@[a]@));
                assert(rv[b] == refs@[b]@);
                assert(fv.referenced.contains(refs@[b]@));
            }
            if fv.package.len() > 0 && exists|m: Seq<char>| #[trigger] fv.referenced.contains(m) && q == dotted(fv.package, m) {
                let m = choose|m: Seq<char>| #[trigger] fv.referenced.contains(m) && q == dotted(fv.package, m);
                assert(rv.contains(m));
                let b = choose|b: int| 0 <= b < rv.len() && rv[b] == m;
                assert(refs@[b]@ == m);
                assert(pk@[0]@ == fv.package);
                assert(lists_text(pprod@, q));
            }
            if lists_text(pprod@, q) {
                let (a, b) = choose|a: int, b: int|
                    0 <= a < pk@.len() && 0 <= b < refs@.len() && q == dotted(#[trigger] pk@[a]@, #[trigger] refs@[b]@);
                assert(rv[b] == refs@[b]@);
                assert(fv.referenced.contains(refs@[b]@));
            }
        }
    }
    let mut targets: Vec<usize> = Vec::new();
    add_targets(files, table, id, &imps, &mut targets);
    let ghost t1 = targets@;
    add_targets(files, table, id, &stats, &mut targets);
    let ghost t2 = targets@;
    add_targets(files, table, id, &pars, &mut targets);
    let ghost t3 = targets@;
    add_targets(files, table, id, &wprod, &mut targets);
    let ghost t4 = targets@;
    add_targets(files, table, id, &pprod, &mut targets);
    proof {
        assert forall|t: int| #[trigger] lists(targets@, t) <==> depends_on(fs, id as int, t) by {
            lemma_resolves_union(fs, fv, id as int, t, imps@, stats@, pars@, wprod@, pprod@);
            assert(lists(targets@, t) <==> lists(t4, t) || resolves(fs, pprod@, id as int, t));
            assert(lists(t4, t) <==> lists(t3, t) || resolves(fs, wprod@, id as int, t));
            assert(lists(t3, t) <==> lists(t2, t) || resolves(fs, pars@, id as int, t));
            assert(lists(t2, t) <==> lists(t1, t) || resolves(fs, stats@, id as int, t));
            assert(lists(t1, t) <==> lists(Seq::<usize>::empty(), t) || resolves(fs, imps@, id as int, t));
        }
    }
    targets
}

// ---------------------------------------------------------------------------
// Entry points
// ---------------------------------------------------------------------------

/// Annotations that make a class an entry point of its own (framework
/// components, entities, JAX-RS resources).
pub open spec fn is_root_annotation(a: Seq<char>) -> bool {
    ||| a == "Component"@
    ||| a == "Service"@
    ||| a == "Repository"@
    ||| a == "Controller"@
    ||| a == "RestController"@
    ||| a == "Configuration"@
    ||| a == "Bean"@
    ||| a == "SpringBootApplication"@
    ||| a == "Entity"@
    ||| a == "Mapper"@
    ||| a == "Path"@
}

/// A file is an entry point when it lies under a test directory, declares a
/// `main` function, carries one of the root annotations, or declares a
/// class that a `META-INF/services` file names as a service provider.
pub open spec fn is_root_file(f: FileInfoView, services: Seq<Seq<char>>) -> bool {
    ||| contains_seq(f.path, "/src/test/"@)
    ||| contains_seq(f.path, "/test/"@)
    ||| exists|k: int| 0 <= k < f.functions.len() && #[trigger] f.functions[k].name == "main"@
    ||| exists|a: Seq<char>| #[trigger] f.annotations.contains(a) && is_root_annotation(a)
    ||| exists|q: int| 0 <= q < services.len() && declares(f, #[trigger] services[q])
}

pub open spec fn has_public_type(f: FileInfoView) -> bool {
    exists|k: int| 0 <= k < f.types.len() && #[trigger] f.types[k].is_public
}

/// File `v` is a root: an entry point, or, in a project with no entry point
/// at all, any file that declares a public type.
pub open spec fn is_root_in(fs: Seq<FileInfoView>, services: Seq<Seq<char>>, v: int) -> bool {
    if exists|i: int| 0 <= i < fs.len() && is_root_file(#[trigger] fs[i], services) {
        is_root_file(fs[v], services)
    } else {
        has_public_type(fs[v])
    }
}

fn root_annotation(a: &str) -> (r: bool)
    ensures
        r == is_root_annotation(a@),
{
    str_eq(a, "Component") || str_eq(a, "Service") || str_eq(a, "Repository") || str_eq(a, "Controller")
        || str_eq(a, "RestController") || str_eq(a, "Configuration") || str_eq(a, "Bean") || str_eq(
        a,
        "SpringBootApplication",
    ) || str_eq(a, "Entity") || str_eq(a, "Mapper") || str_eq(a, "Path")
}

/// File `f` declares one of the `services`.
fn provides_service(f: &FileInfo, services: &Vec<String>) -> (r: bool)
    ensures
        r == exists|q: int| 0 <= q < services@.len() && declares(f.view_of(), #[trigger] services@[q]@),
{
    let ghost fv = f.view_of();
    let mut q: usize = 0;
    while q < services.len()
        invariant
            fv == f.view_of(),
            q <= services@.len(),
            forall|m: int| 0 <= m < q ==> !declares(fv, #[trigger] services@[m]@),
        decreases services@.len() - q,
    {
        let mut k: usize = 0;
        while k < f.types.len()
            invariant
                fv == f.view_of(),
                q < services@.len(),
                k <= f.types@.len(),
                forall|m: int| 0 <= m < k ==> (#[trigger] fv.types[m]).fqn != services@[q as int]@,
            decreases f.types@.len() - k,
        {
            proof {
                assert(fv.types[k as int].fqn == f.types@[k as int].fqn@);
            }
            if str_eq(f.types[k].fqn.as_str(), services[q].as_str()) {
                proof {
                    assert(declares(fv, services@[q as int]@));
                }
                return true;
            }
            k += 1;
        }
        q += 1;
    }
    false
}

fn root_file(f: &FileInfo, services: &Vec<String>) -> (r: bool)
    ensures
        r == is_root_file(f.view_of(), strings_view(services@)),
{
    proof {
        let sv = strings_view(services@);
        assert forall|q: int| 0 <= q < sv.len() implies sv[q] == #[trigger] services@[q]@ by {}
    }
    if provides_service(f, services) {
        proof {
            let q = choose|q: int| 0 <= q < services@.len() && declares(f.view_of(), #[trigger] services@[q]@);
            assert(strings_view(services@)[q] == services@[q]@);
        }
        return true;
    }
    proof {
        let sv = strings_view(services@);
        assert forall|q: int| 0 <= q < sv.len() implies !declares(f.view_of(), #[trigger] sv[q]) by {
            assert(sv[q] == services@[q]@);
        }
    }
    let path = to_chars(f.path.as_str());
    if contains_chars(&path, &to_chars("/src/test/")) || contains_chars(&path, &to_chars("/test/")) {
        return true;
    }
    let ghost fv = f.view_of();
    let mut k: usize = 0;
    while k < f.functions.len()
        invariant
            fv == f.view_of(),
            k <= f.functions@.len(),
            forall|m: int| 0 <= m < k ==> #[trigger] fv.functions[m].name != "main"@,
        decreases f.functions@.len() - k,
    {
        proof {
            assert(fv.functions[k as int].name == f.functions@[k as int].name@);
        }
        if str_eq(f.functions[k].name.as_str(), "main") {
            return true;
        }
        k += 1;
    }
    let mut a: usize = 0;
    while a < f.annotations.len()
        invariant
            fv == f.view_of(),
            a <= f.annotations@.len(),
            forall|m: int| 0 <= m < a ==> !is_root_annotation(#[trigger] f.annotations@[m]@),
        decreases f.annotations@.len() - a,
    {
        if root_annotation(f.annotations[a].as_str()) {
            proof {
                let sv = strings_view(f.annotations@);
                assert(sv[a as int] == f.annotations@[a as int]@);
                assert(sv.contains(f.annotations@[a as int]@));
                assert(fv.annotations.contains(f.annotations@[a as int]@));
            }
            return true;
        }
        a += 1;
    }
    proof {
        let sv = strings_view(f.annotations@);
        assert forall|x: Seq<char>| #[trigger] fv.annotations.contains(x) implies !is_root_annotation(x) by {
            let m = choose|m: int| 0 <= m < sv.len() && sv[m] == x;
            assert(f.annotations@[m]@ == x);
        }
    }
    false
}

fn public_type(f: &FileInfo) -> (r: bool)
    ensures
        r == has_public_type(f.view_of()),
{
    let ghost fv = f.view_of();
    let mut k: usize = 0;
    while k < f.types.len()
        invariant
            fv == f.view_of(),
            k <= f.types@.len(),
            forall|m: int| 0 <= m < k ==> !(#[trigger] fv.types[m]).is_public,
        decreases f.types@.len() - k,
    {
        if f.types[k].is_public {
            proof {
                assert(fv.types[k as int].is_public);
            }
            return true;
        }
        k += 1;
    }
    false
}

fn compute_roots(files: &Vec<FileInfo>, services: &Vec<String>) -> (r: Vec<bool>)
    ensures
        r@.len() == files@.len(),
        forall|v: int| 0 <= v < files@.len() ==> r@[v] == is_root_in(file_views(files@), strings_view(services@), v),
{
    let ghost fs = file_views(files@);
    let ghost ss = strings_view(services@);
    let mut roots: Vec<bool> = Vec::new();
    let mut any = false;
    let mut i: usize = 0;
    while i < files.len()
        invariant
            fs == file_views(files@),
            ss == strings_view(services@),
            i <= files@.len(),
            roots@.len() == i,
            forall|v: int| 0 <= v < i ==> roots@[v] == is_root_file(#[trigger] fs[v], ss),
            any == exists|v: int| 0 <= v < i && is_root_file(#[trigger] fs[v], ss),
        decreases files@.len() - i,
    {
        let b = root_file(&files[i], services);
        proof {
            assert(fs[i as int] == files@[i as int].view_of());
        }
        roots.push(b);
        any = any || b;
        i += 1;
    }
    if !any {
        proof {
            assert forall|v: int| 0 <= v < files@.len() implies !roots@[v] by {
                assert(!is_root_file(fs[v], ss));
            }
        }
        let mut j: usize = 0;
        while j < files.len()
            invariant
                fs == file_views(files@),
                ss == strings_view(services@),
                j <= files@.len(),
                roots@.len() == files@.len(),
                !exists|v: int| 0 <= v < files@.len() && is_root_file(#[trigger] fs[v], ss),
                forall|v: int| 0 <= v < j ==> roots@[v] == has_public_type(#[trigger] fs[v]),
                forall|v: int| j <= v < files@.len() ==> !roots@[v],
            decreases files@.len() - j,
        {
            proof {
                assert(fs[j as int] == files@[j as int].view_of());
            }
            if public_type(&files[j]) {
                roots.set(j, true);
            }
            j += 1;
        }
    }
    roots
}

// ---------------------------------------------------------------------------
// The graph
// ---------------------------------------------------------------------------

/// Strictly increasing.
pub open spec fn increasing(v: Seq<usize>) -> bool {
    forall|i: int, j: int| 0 <= i < j < v.len() ==> v[i] < v[j]
}

/// For each vertex, the vertices with an edge to it, in increasing order.
fn build_reverse(edges: &Vec<Vec<usize>>) -> (r: Vec<Vec<usize>>)
    requires
        adj_ok(edges@),
        forall|s: int| 0 <= s < edges@.len() ==> (#[trigger] edges@[s])@.no_duplicates(),
    ensures
        r@.len() == edges@.len(),
        forall|t: int| 0 <= t < r@.len() ==> increasing(#[trigger] r@[t]@),
        forall|t: int, s: int| 0 <= t < r@.len() ==> (#[trigger] lists(r@[t]@, s) <==> has_edge(edges@, s, t)),
{
    let n = edges.len();
    let mut rev: Vec<Vec<usize>> = Vec::new();
    let mut i: usize = 0;
    while i < n
        invariant
            i <= n == edges@.len(),
            rev@.len() == i,
            forall|t: int| 0 <= t < i ==> (#[trigger] rev@[t])@.len() == 0,
        decreases n - i,
    {
        rev.push(Vec::new());
        i += 1;
    }
    let mut src: usize = 0;
    while src < n
        invariant
            n == edges@.len(),
            adj_ok(edges@),
            forall|s: int| 0 <= s < edges@.len() ==> (#[trigger] edges@[s])@.no_duplicates(),
            src <= n,
            rev@.len() == n,
            forall|t: int| 0 <= t < n ==> increasing(#[trigger] rev@[t]@),
            forall|t: int, k: int| 0 <= t < n && 0 <= k < rev@[t]@.len() ==> #[trigger] rev@[t]@[k] < src,
            forall|t: int, s: int| 0 <= t < n ==> (#[trigger] lists(rev@[t]@, s) <==> (s < src && has_edge(edges@, s, t))),
        decreases n - src,
    {
        let outs = &edges[src];
        let mut k: usize = 0;
        while k < outs.len()
            invariant
                n == edges@.len(),
                adj_ok(edges@),
                src < n,
                outs == edges@[src as int],
                outs@.no_duplicates(),
                k <= outs@.len(),
                rev@.len() == n,
                forall|t: int| 0 <= t < n ==> increasing(#[trigger] rev@[t]@),
                forall|t: int, m: int| 0 <= t < n && 0 <= m < rev@[t]@.len() ==> #[trigger] rev@[t]@[m] <= src,
                forall|t: int, m: int|
                    0 <= t < n && 0 <= m < rev@[t]@.len() && rev@[t]@[m] == src ==> exists|j: int|
                        0 <= j < k && #[trigger] outs@[j] as int == t,
                forall|t: int, s: int| 0 <= t < n ==> (#[trigger] lists(rev@[t]@, s) <==> ((s < src && has_edge(edges@, s, t)) || (
                    s == src && exists|j: int| 0 <= j < k && #[trigger] outs@[j] as int == t))),
            decreases outs@.len() - k,
        {
            let tgt = outs[k];
            assert(edges@[src as int]@[k as int] < n);
            let ghost old_rev = rev@;
            let mut row: Vec<usize> = Vec::new();
            rev.set_and_swap(tgt, &mut row);
            proof {
                assert forall|m: int| 0 <= m < row@.len() implies #[trigger] row@[m] < src by {
                    if row@[m] == src {
                        let j = choose|j: int| 0 <= j < k && #[trigger] outs@[j] as int == tgt as int;
                        assert(outs@[j] == outs@[k as int]);
                    }
                }
            }
            row.push(src);
            rev.set_and_swap(tgt, &mut row);
            proof {
                assert forall|t: int, s: int| 0 <= t < n implies (#[trigger] lists(rev@[t]@, s) <==> ((s < src && has_edge(edges@, s, t)) || (
                    s == src && exists|j: int| 0 <= j < k + 1 && #[trigger] outs@[j] as int == t))) by {
                    if t == tgt as int {
                        let o = old_rev[t]@;
                        assert(rev@[t]@ == o.push(src));
                        if lists(o, s) {
                            let m = choose|m: int| 0 <= m < o.len() && #[trigger] o[m] as int == s;
                            assert(rev@[t]@[m] == o[m]);
                        }
                        if lists(rev@[t]@, s) {
                            let m = choose|m: int| 0 <= m < rev@[t]@.len() && #[trigger] rev@[t]@[m] as int == s;
                            if m < o.len() {
                                assert(o[m] == rev@[t]@[m]);
                                assert(lists(o, s));
                            }
                        }
                        if s == src {
                            assert(rev@[t]@[o.len() as int] == src);
                            assert(outs@[k as int] as int == t);
                        }
                    } else {
                        assert(rev@[t] == old_rev[t]);
                        if s == src && exists|j: int| 0 <= j < k + 1 && #[trigger] outs@[j] as int == t {
                            let j = choose|j: int| 0 <= j < k + 1 && #[trigger] outs@[j] as int == t;
                            assert(j != k);
                        }
                    }
                }
                assert forall|t: int, m: int|
                    0 <= t < n && 0 <= m < rev@[t]@.len() && rev@[t]@[m] == src implies exists|j: int|
                        0 <= j < k + 1 && #[trigger] outs@[j] as int == t by {
                    if t == tgt as int {
                        assert(outs@[k as int] as int == t);
                    } else {
                        assert(rev@[t] == old_rev[t]);
                        let j = choose|j: int| 0 <= j < k && #[trigger] outs@[j] as int == t;
                    }
                }
            }
            k += 1;
        }
        proof {
            assert forall|t: int, s: int| 0 <= t < n implies (#[trigger] lists(rev@[t]@, s) <==> (s < src + 1 && has_edge(edges@, s, t))) by {
                if s == src && has_edge(edges@, s, t) {
                    let j = choose|j: int| 0 <= j < edges@[s]@.len() && #[trigger] edges@[s]@[j] as int == t;
                    assert(outs@[j] as int == t);
                }
            }
            assert forall|t: int, m: int| 0 <= t < n && 0 <= m < rev@[t]@.len() implies #[trigger] rev@[t]@[m] < src + 1 by {
            }
        }
        src += 1;
    }
    rev
}

/// The files of a project, which file depends on which, and which are
/// reachable from the project's entry points.
pub struct ModuleGraph {
    pub files: Vec<FileInfo>,
    /// For each file, the files it depends on, each once.
    pub edges: Vec<Vec<usize>>,
    /// For each file, the files that depend on it, in increasing order.
    pub reverse: Vec<Vec<usize>>,
    pub reachable: Vec<bool>,
    pub is_root: Vec<bool>,
    /// The service providers named in `META-INF/services` files (fully
    /// qualified class names); the files declaring them are entry points.
    pub services: Vec<String>,
}

impl ModuleGraph {
    /// The graph agrees with the files it was built from.
    pub open spec fn wf(&self) -> bool {
        let fs = file_views(self.files@);
        let n = fs.len();
        &&& self.edges@.len() == n
        &&& adj_ok(self.edges@)
        &&& forall|s: int| 0 <= s < n ==> (#[trigger] self.edges@[s])@.no_duplicates()
        &&& forall|s: int, t: int| 0 <= s < n ==> (#[trigger] lists(self.edges@[s]@, t) <==> depends_on(fs, s, t))
        &&& self.reverse@.len() == n
        &&& forall|t: int| 0 <= t < n ==> increasing(#[trigger] self.reverse@[t]@)
        &&& forall|t: int, s: int| 0 <= t < n ==> (#[trigger] lists(self.reverse@[t]@, s) <==> depends_on(fs, s, t))
        &&& self.is_root@.len() == n
        &&& forall|v: int| 0 <= v < n ==> #[trigger] self.is_root@[v] == is_root_in(fs, strings_view(self.services@), v)
        &&& self.reachable@.len() == n
        &&& forall|v: int| 0 <= v < n ==> #[trigger] self.reachable@[v] == reached_from(self.edges@, self.is_root@, v)
    }

    /// Resolves each file's imports and references to the files that
    /// declare them, finds the entry points (`services` lists the service
    /// providers the project registers) and what they reach.
    pub fn build(files: Vec<FileInfo>, services: Vec<String>) -> (r: ModuleGraph)
        ensures
            r.wf(),
            r.files@ == files@,
            r.services@ == services@,
    {
        let table = fqn_table(&files);
        let ghost fs = file_views(files@);
        let mut edges: Vec<Vec<usize>> = Vec::new();
        let mut id: usize = 0;
        while id < files.len()
            invariant
                table_ok(table@, files@),
                fs == file_views(files@),
                id <= files@.len(),
                edges@.len() == id,
                forall|s: int, k: int| 0 <= s < id && 0 <= k < edges@[s]@.len() ==> #[trigger] edges@[s]@[k] < files@.len(),
                forall|s: int| 0 <= s < id ==> (#[trigger] edges@[s])@.no_duplicates(),
                forall|s: int, t: int| 0 <= s < id ==> (#[trigger] lists(edges@[s]@, t) <==> depends_on(fs, s, t)),
            decreases files@.len() - id,
        {
            let e = edges_of(&files, &table, id);
            edges.push(e);
            proof {
                assert(edges@[id as int] == e);
            }
            id += 1;
        }
        let reverse = build_reverse(&edges);
        let is_root = compute_roots(&files, &services);
        let reachable = reach_from_seeds(&edges, &is_root);
        proof {
            assert forall|t: int, s: int| 0 <= t < fs.len() implies (#[trigger] lists(reverse@[t]@, s) <==> depends_on(fs, s, t)) by {
                if depends_on(fs, s, t) {
                    assert(lists(edges@[s]@, t));
                    let k = choose|k: int| 0 <= k < edges@[s]@.len() && #[trigger] edges@[s]@[k] as int == t;
                    assert(has_edge(edges@, s, t));
                }
                if lists(reverse@[t]@, s) {
                    assert(has_edge(edges@, s, t));
                    let k = choose|k: int| 0 <= k < edges@[s]@.len() && #[trigger] edges@[s]@[k] as int == t;
                    assert(lists(edges@[s]@, t));
                }
            }
        }
        ModuleGraph { files, edges, reverse, reachable, is_root, services }
    }

    /// How many files depend on file `id`.
    pub fn fan_in(&self, id: usize) -> (r: usize)
        requires
            self.wf(),
            id < self.files@.len(),
        ensures
            r == self.reverse@[id as int]@.len(),
    {
        self.reverse[id].len()
    }

    /// How many files file `id` depends on.
    pub fn fan_out(&self, id: usize) -> (r: usize)
        requires
            self.wf(),
            id < self.files@.len(),
        ensures
            r == self.edges@[id as int]@.len(),
    {
        self.edges[id].len()
    }
}

// ---------------------------------------------------------------------------
// Properties of a built graph
// ---------------------------------------------------------------------------

/// Every entry point of a graph is reachable.
pub proof fn lemma_roots_reachable(g: &ModuleGraph, v: int)
    requires
        g.wf(),
        0 <= v < g.files@.len(),
        g.is_root@[v],
    ensures
        g.reachable@[v],
{
    lemma_reaches_refl(g.edges@, v);
}

/// Whatever a reachable file depends on is reachable too.
pub proof fn lemma_reachable_closed(g: &ModuleGraph, u: int, v: int)
    requires
        g.wf(),
        0 <= u < g.files@.len(),
        g.reachable@[u],
        depends_on(file_views(g.files@), u, v),
    ensures
        0 <= v < g.files@.len(),
        g.reachable@[v],
{
    assert(lists(g.edges@[u]@, v));
    let k = choose|k: int| 0 <= k < g.edges@[u]@.len() && #[trigger] g.edges@[u]@[k] as int == v;
    assert(g.edges@[u]@[k] < g.edges@.len());
    assert(has_edge(g.edges@, u, v));
    let s = choose|s: int| 0 <= s < g.is_root@.len() && #[trigger] g.is_root@[s] && reaches(g.edges@, s, u);
    lemma_reaches_step(g.edges@, s, u, v);
}

/// The fan-in of a file is the number of files that depend on it.
pub proof fn lemma_fan_in_counts_dependents(g: &ModuleGraph, id: int)
    requires
        g.wf(),
        0 <= id < g.files@.len(),
    ensures
        g.reverse@[id]@.len() == Set::new(|s: usize| depends_on(file_views(g.files@), s as int, id)).len(),
{
    let fs = file_views(g.files@);
    let rv = g.reverse@[id]@;
    let deps = Set::new(|s: usize| depends_on(fs, s as int, id));
    assert(rv.no_duplicates()) by {
        assert forall|i: int, j: int| 0 <= i < rv.len() && 0 <= j < rv.len() && i != j implies rv[i] != rv[j] by {
            if i < j {
                assert(rv[i] < rv[j]);
            } else {
                assert(rv[j] < rv[i]);
            }
        }
    }
    rv.unique_seq_to_set();
    assert forall|s: usize| #[trigger] rv.to_set().contains(s) <==> deps.contains(s) by {
        if rv.to_set().contains(s) {
            let k = choose|k: int| 0 <= k < rv.len() && rv[k] == s;
            assert(lists(rv, s as int));
        }
        if deps.contains(s) {
            assert(lists(rv, s as int));
            let k = choose|k: int| 0 <= k < rv.len() && #[trigger] rv[k] as int == s as int;
            assert(rv[k] == s);
        }
    }
    assert(rv.to_set() =~= deps);
}

/// The summed fan-out of the first `k` files.
pub open spec fn fan_out_sum(g: &ModuleGraph, k: int) -> int
    decreases k,
{
    if k <= 0 {
        0
    } else {
        fan_out_sum(g, k - 1) + g.edges@[k - 1]@.len()
    }
}

/// The summed fan-in of the first `k` files.
pub open spec fn fan_in_sum(g: &ModuleGraph, k: int) -> int
    decreases k,
{
    if k <= 0 {
        0
    } else {
        fan_in_sum(g, k - 1) + g.reverse@[k - 1]@.len()
    }
}

/// The dependencies `(s, t)` of the files `s` among the first `k`.
spec fn out_pairs(g: &ModuleGraph, k: int) -> Set<(int, int)> {
    Set::new(|p: (int, int)| 0 <= p.0 < k && lists(g.edges@[p.0]@, p.1))
}

/// The dependencies `(s, t)` on the files `t` among the first `k`.
spec fn in_pairs(g: &ModuleGraph, k: int) -> Set<(int, int)> {
    Set::new(|p: (int, int)| 0 <= p.1 < k && lists(g.reverse@[p.1]@, p.0))
}

/// The pairs `(a, x)` (or `(x, a)` when `flip`) for the `x` that `v` lists.
spec fn row_set(v: Seq<usize>, a: int, flip: bool) -> Set<(int, int)> {
    Set::new(|p: (int, int)| if flip { p.1 == a && lists(v, p.0) } else { p.0 == a && lists(v, p.1) })
}

/// A row numbers `v`'s length when `v` lists nothing twice.
proof fn lemma_row_len(v: Seq<usize>, a: int, flip: bool)
    requires
        v.no_duplicates(),
    ensures
        row_set(v, a, flip).finite(),
        row_set(v, a, flip).len() == v.len(),
{
    let row = row_set(v, a, flip);
    let m = v.map_values(|x: usize| if flip { (x as int, a) } else { (a, x as int) });
    assert(m.no_duplicates()) by {
        assert forall|i: int, j: int| 0 <= i < m.len() && 0 <= j < m.len() && i != j implies m[i] != m[j] by {
            assert(v[i] != v[j]);
        }
    }
    m.unique_seq_to_set();
    assert forall|p: (int, int)| #[trigger] row.contains(p) <==> m.to_set().contains(p) by {
        if row.contains(p) {
            let x = if flip { p.0 } else { p.1 };
            let k = choose|k: int| 0 <= k < v.len() && #[trigger] v[k] as int == x;
            assert(m[k] == p);
        }
        if m.to_set().contains(p) {
            let k = choose|k: int| 0 <= k < m.len() && m[k] == p;
            assert(lists(v, v[k] as int));
        }
    }
    assert(row =~= m.to_set());
    vstd::seq_lib::seq_to_set_is_finite(m);
}

proof fn lemma_out_pairs_len(g: &ModuleGraph, k: int)
    requires
        g.wf(),
        0 <= k <= g.files@.len(),
    ensures
        out_pairs(g, k).finite(),
        out_pairs(g, k).len() == fan_out_sum(g, k),
    decreases k,
{
    if k == 0 {
        assert(out_pairs(g, 0) =~= Set::empty());
    } else {
        lemma_out_pairs_len(g, k - 1);
        let v = g.edges@[k - 1]@;
        let row = row_set(v, k - 1, false);
        lemma_row_len(v, k - 1, false);
        assert(out_pairs(g, k) =~= out_pairs(g, k - 1) + row);
        assert(out_pairs(g, k - 1).disjoint(row));
        vstd::set_lib::lemma_set_disjoint_lens(out_pairs(g, k - 1), row);
    }
}

proof fn lemma_in_pairs_len(g: &ModuleGraph, k: int)
    requires
        g.wf(),
        0 <= k <= g.files@.len(),
    ensures
        in_pairs(g, k).finite(),
        in_pairs(g, k).len() == fan_in_sum(g, k),
    decreases k,
{
    if k == 0 {
        assert(in_pairs(g, 0) =~= Set::empty());
    } else {
        lemma_in_pairs_len(g, k - 1);
        let v = g.reverse@[k - 1]@;
        assert(v.no_duplicates()) by {
            assert forall|i: int, j: int| 0 <= i < v.len() && 0 <= j < v.len() && i != j implies v[i] != v[j] by {
                if i < j {
                    assert(v[i] < v[j]);
                } else {
                    assert(v[j] < v[i]);
                }
            }
        }
        let row = row_set(v, k - 1, true);
        lemma_row_len(v, k - 1, true);
        assert(in_pairs(g, k) =~= in_pairs(g, k - 1) + row);
        assert(in_pairs(g, k - 1).disjoint(row));
        vstd::set_lib::lemma_set_disjoint_lens(in_pairs(g, k - 1), row);
    }
}

/// Every dependency counts once as the fan-out of the file that has it and
/// once as the fan-in of the file it is on: the two sums agree, and no file
/// depends on more files than the others.
pub proof fn lemma_fan_sums_agree(g: &ModuleGraph)
    requires
        g.wf(),
    ensures
        fan_out_sum(g, g.files@.len() as int) == fan_in_sum(g, g.files@.len() as int),
        forall|id: int| 0 <= id < g.files@.len() ==> #[trigger] g.edges@[id]@.len() <= g.files@.len() - 1,
{
    let n = g.files@.len() as int;
    let fs = file_views(g.files@);
    lemma_out_pairs_len(g, n);
    lemma_in_pairs_len(g, n);
    assert forall|p: (int, int)| #[trigger] out_pairs(g, n).contains(p) <==> in_pairs(g, n).contains(p) by {
        if out_pairs(g, n).contains(p) {
            assert(depends_on(fs, p.0, p.1));
            let k = choose|k: int| 0 <= k < g.edges@[p.0]@.len() && #[trigger] g.edges@[p.0]@[k] as int == p.1;
            assert(g.edges@[p.0]@[k] < g.edges@.len());
        }
        if in_pairs(g, n).contains(p) {
            assert(depends_on(fs, p.0, p.1));
        }
    }
    assert(out_pairs(g, n) =~= in_pairs(g, n));
    assert forall|id: int| 0 <= id < n implies #[trigger] g.edges@[id]@.len() <= n - 1 by {
        let v = g.edges@[id]@;
        let others = Set::new(|x: int| 0 <= x < n && x != id);
        let m = v.map_values(|x: usize| x as int);
        assert(m.no_duplicates()) by {
            assert forall|i: int, j: int| 0 <= i < m.len() && 0 <= j < m.len() && i != j implies m[i] != m[j] by {
                assert(v[i] != v[j]);
            }
        }
        m.unique_seq_to_set();
        assert forall|x: int| m.to_set().contains(x) implies others.contains(x) by {
            let k = choose|k: int| 0 <= k < m.len() && m[k] == x;
            assert(v[k] < g.edges@.len());
            assert(lists(v, x));
            assert(depends_on(fs, id, x));
        }
        vstd::set_lib::lemma_int_range(0, n);
        assert(others =~= vstd::set_lib::set_int_range(0, n).remove(id));
        vstd::set_lib::lemma_len_subset(m.to_set(), others);
    }
}

/// A file annotated with one of the framework root annotations (Spring's
/// Component, Service, Repository, Controller, RestController,
/// Configuration, Bean, SpringBootApplication; JPA's Entity; MyBatis'
/// Mapper; JAX-RS's Path) is a root of the graph, and so reachable.
pub proof fn lemma_annotated_file_is_root(g: &ModuleGraph, v: int, a: Seq<char>)
    requires
        g.wf(),
        0 <= v < g.files@.len(),
        file_views(g.files@)[v].annotations.contains(a),
        a == "Component"@ || a == "Service"@ || a == "Repository"@ || a == "Controller"@ || a
            == "RestController"@ || a == "Configuration"@ || a == "Bean"@ || a == "SpringBootApplication"@
            || a == "Entity"@ || a == "Mapper"@ || a == "Path"@,
    ensures
        g.is_root@[v],
        g.reachable@[v],
{
    let fs = file_views(g.files@);
    assert(is_root_annotation(a));
    assert(is_root_file(fs[v], strings_view(g.services@)));
    assert(exists|i: int| 0 <= i < fs.len() && is_root_file(#[trigger] fs[i], strings_view(g.services@)));
    assert(g.is_root@[v]);
    lemma_roots_reachable(g, v);
}

proof fn lemma_last_dot_joined(x: Seq<char>, m: Seq<char>, j: int)
    requires
        forall|k: int| 0 <= k < m.len() ==> m[k] != '.',
        x.len() < j <= x.len() + 1 + m.len(),
    ensures
        last_dot_before(x + seq!['.'] + m, j) == x.len(),
    decreases j,
{
    let s = x + seq!['.'] + m;
    if j > x.len() + 1 {
        assert(s[j - 1] == m[j - 1 - x.len() - 1]);
        lemma_last_dot_joined(x, m, j - 1);
    } else {
        assert(s[j - 1] == '.');
    }
}

/// A static import `X.Y.m` of file `s`, where `X.Y` is a type first declared
/// in another file `t`, makes `s` depend on `t`: the graph has the edge
/// `s -> t`.
pub proof fn lemma_static_import_edge(g: &ModuleGraph, s: int, t: int, x: Seq<char>, m: Seq<char>)
    requires
        g.wf(),
        0 <= s < g.files@.len(),
        0 <= t < g.files@.len(),
        s != t,
        file_views(g.files@)[s].static_imports.contains(x + seq!['.'] + m),
        forall|k: int| 0 <= k < m.len() ==> m[k] != '.',
        exists|j: int| 0 <= j < file_views(g.files@)[t].types.len() && #[trigger] file_views(g.files@)[t].types[j].fqn == x,
        forall|i: int, j: int|
            0 <= i < t && 0 <= j < file_views(g.files@)[i].types.len() ==> #[trigger] file_views(g.files@)[i].types[j].fqn != x,
    ensures
        lists(g.edges@[s]@, t),
{
    let fs = file_views(g.files@);
    let full = x + seq!['.'] + m;
    lemma_last_dot_joined(x, m, full.len() as int);
    assert(has_dot(full));
    assert(before_last_dot(full) =~= x);
    assert(is_query(fs[s], x));
    assert(declares(fs[t], x));
    assert forall|i: int| 0 <= i < t implies !declares(#[trigger] fs[i], x) by {
        if declares(fs[i], x) {
            let j = choose|j: int| 0 <= j < fs[i].types.len() && #[trigger] fs[i].types[j].fqn == x;
            assert(fs[i].types[j].fqn != x);
        }
    }
    assert(owner_is(fs, x, t));
    assert(depends_on(fs, s, t));
}

} // verus!
