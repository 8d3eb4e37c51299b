//! Import cycles: the strongly connected components of the module graph
//! with more than one file.
use vstd::prelude::*;
use crate::java::graph::{
    adj_ok, depends_on, file_views, has_edge, is_path, lemma_reaches_trans, lists, reach_from_seeds,
    reached_from, reaches, ModuleGraph,
};
use crate::paths::{path_relative_to, rel_path};
use crate::sort::{
    lemma_lex_strs_total, lemma_lex_strs_trans, lemma_stable_sort_same_elements, lex_strs_le, lex_strs_le_exec,
    sort_stable, stable_sort_of, Ordered,
};
use crate::text::str_eq;
use crate::types::CircularDependency;

verus! {

// ---------------------------------------------------------------------------
// Strongly connected components
// ---------------------------------------------------------------------------

/// `u` and `v` lie on a common cycle (or are the same vertex).
pub open spec fn same_scc(adj: Seq<Vec<usize>>, u: int, v: int) -> bool {
    reaches(adj, u, v) && reaches(adj, v, u)
}

/// `rev` has an edge `b -> a` exactly when `adj` has `a -> b`.
pub open spec fn reversed(adj: Seq<Vec<usize>>, rev: Seq<Vec<usize>>) -> bool {
    &&& rev.len() == adj.len()
    &&& forall|a: int, b: int| #[trigger] has_edge(rev, b, a) <==> has_edge(adj, a, b)
}

/// A path read backwards is a path of the reversed graph.
pub proof fn lemma_reaches_reversed(adj: Seq<Vec<usize>>, rev: Seq<Vec<usize>>, a: int, b: int)
    requires
        reversed(adj, rev),
        reaches(adj, a, b),
    ensures
        reaches(rev, b, a),
{
    let p = choose|p: Seq<int>| #[trigger] is_path(adj, p) && p[0] == a && p.last() == b;
    let q = p.reverse();
    let n = p.len();
    assert forall|i: int| 0 <= i < q.len() implies 0 <= #[trigger] q[i] < rev.len() by {
        assert(q[i] == p[n - 1 - i]);
    }
    assert forall|i: int| 0 <= i < q.len() - 1 implies has_edge(rev, #[trigger] q[i], q[i + 1]) by {
        assert(q[i] == p[n - 1 - i]);
        assert(q[i + 1] == p[n - 2 - i]);
        assert(has_edge(adj, p[n - 2 - i], p[(n - 2 - i) + 1]));
    }
    assert(is_path(rev, q));
}

/// Reached from the one seed `v` is reached from `v`.
proof fn lemma_single_seed(adj: Seq<Vec<usize>>, seeds: Seq<bool>, v: int, u: int)
    requires
        0 <= v < seeds.len(),
        forall|i: int| 0 <= i < seeds.len() ==> (#[trigger] seeds[i] <==> i == v),
    ensures
        reached_from(adj, seeds, u) <==> reaches(adj, v, u),
{
    if reaches(adj, v, u) {
        assert(seeds[v]);
    }
}

proof fn lemma_graph_reversed(g: &ModuleGraph)
    requires
        g.wf(),
    ensures
        reversed(g.edges@, g.reverse@),
        adj_ok(g.reverse@),
{
    let fs = file_views(g.files@);
    assert forall|a: int, b: int| #[trigger] has_edge(g.reverse@, b, a) <==> has_edge(g.edges@, a, b) by {
        if has_edge(g.reverse@, b, a) {
            assert(lists(g.reverse@[b]@, a));
            assert(depends_on(fs, a, b));
            assert(lists(g.edges@[a]@, b));
        }
        if has_edge(g.edges@, a, b) {
            assert(lists(g.edges@[a]@, b));
            assert(depends_on(fs, a, b));
            assert(lists(g.reverse@[b]@, a));
        }
    }
    assert forall|u: int, k: int| 0 <= u < g.reverse@.len() && 0 <= k < g.reverse@[u]@.len() implies #[trigger] g.reverse@[u]@[k] < g.reverse@.len() by {
        assert(lists(g.reverse@[u]@, g.reverse@[u]@[k] as int));
        assert(depends_on(fs, g.reverse@[u]@[k] as int, u));
    }
}

fn one_seed(n: usize, v: usize) -> (r: Vec<bool>)
    ensures
        r@.len() == n,
        forall|i: int| 0 <= i < n ==> (#[trigger] r@[i] <==> i == v),
{
    let mut r: Vec<bool> = Vec::new();
    let mut i: usize = 0;
    while i < n
        invariant
            i <= n,
            r@.len() == i,
            forall|k: int| 0 <= k < i ==> (#[trigger] r@[k] <==> k == v),
        decreases n - i,
    {
        r.push(i == v);
        i += 1;
    }
    r
}

/// The files on a common cycle with file `v`.
fn scc_of(g: &ModuleGraph, v: usize) -> (r: Vec<bool>)
    requires
        g.wf(),
        v < g.files@.len(),
    ensures
        r@.len() == g.files@.len(),
        forall|u: int| 0 <= u < g.files@.len() ==> (#[trigger] r@[u] <==> same_scc(g.edges@, u, v as int)),
{
    let n = g.files.len();
    proof {
        lemma_graph_reversed(g);
    }
    let seeds = one_seed(n, v);
    let fwd = reach_from_seeds(&g.edges, &seeds);
    let bwd = reach_from_seeds(&g.reverse, &seeds);
    let mut r: Vec<bool> = Vec::new();
    let mut u: usize = 0;
    while u < n
        invariant
            g.wf(),
            n == g.files@.len(),
            v < n,
            reversed(g.edges@, g.reverse@),
            fwd@.len() == n,
            bwd@.len() == n,
            forall|x: int| 0 <= x < n ==> (#[trigger] fwd@[x] <==> reached_from(g.edges@, seeds@, x)),
            forall|x: int| 0 <= x < n ==> (#[trigger] bwd@[x] <==> reached_from(g.reverse@, seeds@, x)),
            forall|i: int| 0 <= i < n ==> (#[trigger] seeds@[i] <==> i == v),
            seeds@.len() == n,
            u <= n,
            r@.len() == u,
            forall|x: int| 0 <= x < u ==> (#[trigger] r@[x] <==> same_scc(g.edges@, x, v as int)),
        decreases n - u,
    {
        proof {
            lemma_single_seed(g.edges@, seeds@, v as int, u as int);
            lemma_single_seed(g.reverse@, seeds@, v as int, u as int);
            if reaches(g.reverse@, v as int, u as int) {
                lemma_reaches_reversed(g.reverse@, g.edges@, v as int, u as int);
            }
            if reaches(g.edges@, u as int, v as int) {
                lemma_reaches_reversed(g.edges@, g.reverse@, u as int, v as int);
            }
        }
        r.push(fwd[u] && bwd[u]);
        u += 1;
    }
    r
}

// ---------------------------------------------------------------------------
// Cycles
// ---------------------------------------------------------------------------

/// The path of file `u` relative to `cwd`.
pub open spec fn rel_of(g: &ModuleGraph, cwd: Seq<char>, u: int) -> Seq<char> {
    path_relative_to(g.files@[u].path@, cwd)
}

/// The relative paths of the files among `0..k` on a common cycle with
/// `v`, in file order.
pub open spec fn member_paths(g: &ModuleGraph, cwd: Seq<char>, v: int, k: int) -> Seq<Seq<char>>
    decreases k,
{
    if k <= 0 {
        Seq::empty()
    } else if same_scc(g.edges@, k - 1, v) {
        member_paths(g, cwd, v, k - 1).push(rel_of(g, cwd, k - 1))
    } else {
        member_paths(g, cwd, v, k - 1)
    }
}

/// `v` is the first file of its component.
pub open spec fn is_leader(g: &ModuleGraph, v: int) -> bool {
    forall|w: int| 0 <= w < v ==> !#[trigger] same_scc(g.edges@, v, w)
}

/// The first files of the components with two files or more, among `0..k`.
pub open spec fn cycle_leaders(g: &ModuleGraph, cwd: Seq<char>, k: int) -> Seq<int>
    decreases k,
{
    if k <= 0 {
        Seq::empty()
    } else if is_leader(g, k - 1) && member_paths(g, cwd, k - 1, g.files@.len() as int).len() >= 2 {
        cycle_leaders(g, cwd, k - 1).push(k - 1)
    } else {
        cycle_leaders(g, cwd, k - 1)
    }
}

/// `c` reports the component of `v`: its files' relative paths in
/// lexicographic order, and whether they span more than one package.
pub open spec fn describes(g: &ModuleGraph, cwd: Seq<char>, v: int, c: CircularDependency) -> bool {
    &&& exists|s: Seq<String>|
        s.map_values(|x: String| x@) == member_paths(g, cwd, v, g.files@.len() as int) && #[trigger] stable_sort_of(
            s,
            c.files@,
        )
    &&& c.cross_package == exists|a: int, b: int|
        0 <= a < g.files@.len() && 0 <= b < g.files@.len() && #[trigger] same_scc(g.edges@, a, v)
            && #[trigger] same_scc(g.edges@, b, v) && g.files@[a].package@ != g.files@[b].package@
}

/// Cycles are ordered by size, then by their file lists.
impl Ordered for CircularDependency {
    open spec fn le(a: Self, b: Self) -> bool {
        ||| a.files@.len() < b.files@.len()
        ||| a.files@.len() == b.files@.len() && lex_strs_le(
            a.files@.map_values(|s: String| s@),
            b.files@.map_values(|s: String| s@),
        )
    }

    proof fn le_total(a: Self, b: Self) {
        lemma_lex_strs_total(a.files@.map_values(|s: String| s@), b.files@.map_values(|s: String| s@), 0);
    }

    proof fn le_trans(a: Self, b: Self, c: Self) {
        if a.files@.len() == b.files@.len() && b.files@.len() == c.files@.len() {
            lemma_lex_strs_trans(
                a.files@.map_values(|s: String| s@),
                b.files@.map_values(|s: String| s@),
                c.files@.map_values(|s: String| s@),
                0,
            );
        }
    }

    fn le_exec(&self, other: &Self) -> (r: bool) {
        if self.files.len() != other.files.len() {
            self.files.len() < other.files.len()
        } else {
            lex_strs_le_exec(&self.files, &other.files)
        }
    }
}

proof fn lemma_same_scc_equiv(adj: Seq<Vec<usize>>, a: int, b: int, c: int)
    requires
        same_scc(adj, a, b),
        same_scc(adj, b, c),
    ensures
        same_scc(adj, a, c),
        same_scc(adj, c, a),
{
    lemma_reaches_trans(adj, a, b, c);
    lemma_reaches_trans(adj, c, b, a);
}

/// The component of leader `v`, described.
fn describe(g: &ModuleGraph, cwd: &str, v: usize, m: &Vec<bool>) -> (r: (CircularDependency, usize))
    requires
        g.wf(),
        v < g.files@.len(),
        m@.len() == g.files@.len(),
        forall|u: int| 0 <= u < g.files@.len() ==> (#[trigger] m@[u] <==> same_scc(g.edges@, u, v as int)),
    ensures
        r.1 == member_paths(g, cwd@, v as int, g.files@.len() as int).len(),
        r.1 >= 2 ==> describes(g, cwd@, v as int, r.0),
{
    let n = g.files.len();
    let mut paths: Vec<String> = Vec::new();
    let mut first: usize = n;
    let mut cross = false;
    let mut u: usize = 0;
    while u < n
        invariant
            g.wf(),
            n == g.files@.len(),
            v < n,
            m@.len() == n,
            forall|x: int| 0 <= x < n ==> (#[trigger] m@[x] <==> same_scc(g.edges@, x, v as int)),
            u <= n,
            paths@.map_values(|x: String| x@) == member_paths(g, cwd@, v as int, u as int),
            first <= n,
            first < n <==> exists|x: int| 0 <= x < u && #[trigger] same_scc(g.edges@, x, v as int),
            first < n ==> first < u && same_scc(g.edges@, first as int, v as int),
            !cross ==> forall|x: int|
                0 <= x < u && #[trigger] same_scc(g.edges@, x, v as int) ==> g.files@[x].package@ == g.files@[first as int].package@,
            cross == exists|a: int, b: int|
                0 <= a < u && 0 <= b < u && #[trigger] same_scc(g.edges@, a, v as int) && #[trigger] same_scc(
                    g.edges@,
                    b,
                    v as int,
                ) && g.files@[a].package@ != g.files@[b].package@,
        decreases n - u,
    {
        if m[u] {
            let p = rel_path(g.files[u].path.as_str(), cwd);
            let ghost old_paths = paths@;
            paths.push(p);
            proof {
                assert(paths@.map_values(|x: String| x@) =~= old_paths.map_values(|x: String| x@).push(
                    p@,
                ));
            }
            if first == n {
                first = u;
            } else if !cross && !str_eq(g.files[u].package.as_str(), g.files[first].package.as_str()) {
                cross = true;
                proof {
                    assert(same_scc(g.edges@, u as int, v as int));
                    assert(same_scc(g.edges@, first as int, v as int));
                }
            }
            proof {
                if !cross {
                    assert forall|x: int|
                        0 <= x < u + 1 && #[trigger] same_scc(g.edges@, x, v as int) implies g.files@[x].package@
                        == g.files@[first as int].package@ by {
                    }
                }
                if cross {
                    assert(exists|a: int, b: int|
                        0 <= a < u + 1 && 0 <= b < u + 1 && #[trigger] same_scc(g.edges@, a, v as int)
                            && #[trigger] same_scc(g.edges@, b, v as int) && g.files@[a].package@
                            != g.files@[b].package@);
                } else {
                    assert forall|a: int, b: int|
                        0 <= a < u + 1 && 0 <= b < u + 1 && #[trigger] same_scc(g.edges@, a, v as int)
                            && #[trigger] same_scc(g.edges@, b, v as int) implies g.files@[a].package@
                            == g.files@[b].package@ by {
                        assert(g.files@[a].package@ == g.files@[first as int].package@);
                        assert(g.files@[b].package@ == g.files@[first as int].package@);
                    }
                }
            }
        }
        u += 1;
    }
    let count = paths.len();
    let ghost pv = paths@;
    let files = sort_stable(paths);
    let c = CircularDependency { files, cross_package: cross };
    proof {
        assert(stable_sort_of(pv, c.files@));
        assert(pv.map_values(|x: String| x@) == member_paths(g, cwd@, v as int, n as int));
    }
    (c, count)
}

/// `r` describes the components of two files or more, one per component
/// in the order of their first files, sorted stably.
pub open spec fn cycles_reported(graph: &ModuleGraph, cwd: Seq<char>, r: Seq<CircularDependency>) -> bool {
    exists|pre: Seq<CircularDependency>|
        {
            &&& pre.len() == cycle_leaders(graph, cwd, graph.files@.len() as int).len()
            &&& forall|k: int|
                0 <= k < pre.len() ==> describes(
                    graph,
                    cwd,
                    #[trigger] cycle_leaders(graph, cwd, graph.files@.len() as int)[k],
                    pre[k],
                )
            &&& stable_sort_of(pre, r)
        }
}

/// The import cycles of `graph`: each set of two or more files that reach
/// one another, as paths relative to `cwd` in lexicographic order, the
/// cycles ordered by size and then by their paths.
pub fn collect(graph: &ModuleGraph, cwd: &str) -> (r: Vec<CircularDependency>)
    requires
        graph.wf(),
    ensures
        cycles_reported(graph, cwd@, r@),
{
    let n = graph.files.len();
    let mut assigned: Vec<bool> = Vec::new();
    let mut i: usize = 0;
    while i < n
        invariant
            i <= n,
            assigned@.len() == i,
            forall|k: int| 0 <= k < i ==> !assigned@[k],
        decreases n - i,
    {
        assigned.push(false);
        i += 1;
    }
    let mut pre: Vec<CircularDependency> = Vec::new();
    let mut v: usize = 0;
    while v < n
        invariant
            graph.wf(),
            n == graph.files@.len(),
            v <= n,
            assigned@.len() == n,
            forall|u: int| 0 <= u < n ==> (#[trigger] assigned@[u] <==> exists|w: int| 0 <= w < v && #[trigger] same_scc(graph.edges@, u, w)),
            pre@.len() == cycle_leaders(graph, cwd@, v as int).len(),
            forall|k: int|
                0 <= k < pre@.len() ==> describes(graph, cwd@, #[trigger] cycle_leaders(graph, cwd@, v as int)[k], pre@[k]),
        decreases n - v,
    {
        if !assigned[v] {
            let m = scc_of(graph, v);
            proof {
                assert forall|w: int| 0 <= w < v implies !#[trigger] same_scc(graph.edges@, v as int, w) by {
                }
                assert(is_leader(graph, v as int));
            }
            let (c, count) = describe(graph, cwd, v, &m);
            let mut u: usize = 0;
            while u < n
                invariant
                    graph.wf(),
                    n == graph.files@.len(),
                    v < n,
                    m@.len() == n,
                    forall|x: int| 0 <= x < n ==> (#[trigger] m@[x] <==> same_scc(graph.edges@, x, v as int)),
                    u <= n,
                    assigned@.len() == n,
                    forall|x: int| 0 <= x < n ==> (#[trigger] assigned@[x] <==> (exists|w: int| 0 <= w < v && #[trigger] same_scc(graph.edges@, x, w))
                        || (x < u && same_scc(graph.edges@, x, v as int))),
                decreases n - u,
            {
                if m[u] {
                    assigned.set(u, true);
                }
                u += 1;
            }
            if count >= 2 {
                pre.push(c);
            }
            proof {
                let cl = cycle_leaders(graph, cwd@, v + 1);
                assert forall|k: int| 0 <= k < pre@.len() implies describes(graph, cwd@, #[trigger] cl[k], pre@[k]) by {
                    if k < cycle_leaders(graph, cwd@, v as int).len() {
                        assert(cl[k] == cycle_leaders(graph, cwd@, v as int)[k]);
                    }
                }
                assert forall|x: int| 0 <= x < n implies (#[trigger] assigned@[x] <==> exists|w: int| 0 <= w < v + 1 && #[trigger] same_scc(graph.edges@, x, w)) by {
                    if exists|w: int| 0 <= w < v + 1 && #[trigger] same_scc(graph.edges@, x, w) {
                        let w = choose|w: int| 0 <= w < v + 1 && #[trigger] same_scc(graph.edges@, x, w);
                        if w < v {
                            assert(exists|w2: int| 0 <= w2 < v && #[trigger] same_scc(graph.edges@, x, w2));
                        }
                    }
                }
            }
        } else {
            proof {
                let w0 = choose|w: int| 0 <= w < v && #[trigger] same_scc(graph.edges@, v as int, w);
                assert(!is_leader(graph, v as int));
                assert(cycle_leaders(graph, cwd@, v + 1) == cycle_leaders(graph, cwd@, v as int));
                assert forall|x: int| 0 <= x < n implies (#[trigger] assigned@[x] <==> exists|w: int| 0 <= w < v + 1 && #[trigger] same_scc(graph.edges@, x, w)) by {
                    if exists|w: int| 0 <= w < v + 1 && #[trigger] same_scc(graph.edges@, x, w) {
                        let w = choose|w: int| 0 <= w < v + 1 && #[trigger] same_scc(graph.edges@, x, w);
                        if w == v {
                            lemma_same_scc_equiv(graph.edges@, x, v as int, w0);
                        }
                        assert(exists|w2: int| 0 <= w2 < v && #[trigger] same_scc(graph.edges@, x, w2));
                    }
                }
            }
        }
        v += 1;
    }
    let ghost pv = pre@;
    let r = sort_stable(pre);
    r
}

/// The leaders listed among `0..k` are leaders of components of two
/// files or more.
proof fn lemma_leaders_have_two(g: &ModuleGraph, cwd: Seq<char>, k: int, j: int)
    requires
        0 <= j < cycle_leaders(g, cwd, k).len(),
    ensures
        member_paths(g, cwd, cycle_leaders(g, cwd, k)[j], g.files@.len() as int).len() >= 2,
    decreases k,
{
    if k > 0 {
        let prev = cycle_leaders(g, cwd, k - 1);
        if j < prev.len() {
            lemma_leaders_have_two(g, cwd, k - 1, j);
            if is_leader(g, k - 1) && member_paths(g, cwd, k - 1, g.files@.len() as int).len() >= 2 {
                assert(cycle_leaders(g, cwd, k)[j] == prev[j]);
            }
        }
    }
}

/// Every reported cycle has at least two files.
pub proof fn lemma_cycles_have_two_files(graph: &ModuleGraph, cwd: Seq<char>, r: Seq<CircularDependency>, i: int)
    requires
        graph.wf(),
        cycles_reported(graph, cwd, r),
        0 <= i < r.len(),
    ensures
        r[i].files@.len() >= 2,
{
    let leaders = cycle_leaders(graph, cwd, graph.files@.len() as int);
    let pre = choose|pre: Seq<CircularDependency>|
        {
            &&& pre.len() == leaders.len()
            &&& forall|k: int| 0 <= k < pre.len() ==> describes(graph, cwd, #[trigger] leaders[k], pre[k])
            &&& stable_sort_of(pre, r)
        };
    lemma_stable_sort_same_elements(pre, r);
    assert(pre.contains(r[i]));
    let j = choose|j: int| 0 <= j < pre.len() && pre[j] == r[i];
    assert(describes(graph, cwd, leaders[j], pre[j]));
    lemma_leaders_have_two(graph, cwd, graph.files@.len() as int, j);
    let s = choose|s: Seq<String>|
        s.map_values(|x: String| x@) == member_paths(graph, cwd, leaders[j], graph.files@.len() as int)
            && #[trigger] stable_sort_of(s, pre[j].files@);
    lemma_stable_sort_same_elements(s, pre[j].files@);
    assert(s.map_values(|x: String| x@).len() == s.len());
}

} // verus!
