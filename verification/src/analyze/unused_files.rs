//! Files that no entry point reaches.
use vstd::prelude::*;
use crate::java::graph::ModuleGraph;
use crate::paths::{file_name, path_file_name, path_relative_to, rel_path};
use crate::sort::{lemma_lex_total, lemma_lex_trans, lex_le, sort_stable, stable_sort_of, Ordered};
use crate::text::{str_eq, to_chars};
use crate::types::UnusedFile;

verus! {

/// Package and module descriptors are never reported.
pub open spec fn is_excluded(path: Seq<char>) -> bool {
    path_file_name(path) == Some("package-info.java"@) || path_file_name(path) == Some("module-info.java"@)
}

pub fn excluded(path: &str) -> (r: bool)
    ensures
        r == is_excluded(path@),
{
    match file_name(path) {
        Some(name) => {
            proof {
                reveal_strlit("package-info.java");
                reveal_strlit("module-info.java");
            }
            str_eq(name.as_str(), "package-info.java") || str_eq(name.as_str(), "module-info.java")
        },
        None => false,
    }
}

/// File `v` is neither a root nor reached from one, and is not a descriptor.
pub open spec fn is_unused(g: &ModuleGraph, v: int) -> bool {
    !g.reachable@[v] && !g.is_root@[v] && !is_excluded(g.files@[v].path@)
}

/// The unused files among the first `k`, in file order.
pub open spec fn unused_ids(g: &ModuleGraph, k: int) -> Seq<int>
    decreases k,
{
    if k <= 0 {
        Seq::empty()
    } else if is_unused(g, k - 1) {
        unused_ids(g, k - 1).push(k - 1)
    } else {
        unused_ids(g, k - 1)
    }
}

/// By path.
impl Ordered for UnusedFile {
    open spec fn le(a: Self, b: Self) -> bool {
        lex_le(a.path@, b.path@)
    }

    proof fn le_total(a: Self, b: Self) {
        lemma_lex_total(a.path@, b.path@, 0);
    }

    proof fn le_trans(a: Self, b: Self, c: Self) {
        lemma_lex_trans(a.path@, b.path@, c.path@, 0);
    }

    fn le_exec(&self, other: &Self) -> (r: bool) {
        crate::sort::lex_le_exec(&to_chars(self.path.as_str()), &to_chars(other.path.as_str()))
    }
}

/// The files of `graph` that are not roots, not reachable from a root,
/// and not `package-info.java` or `module-info.java`, as paths relative to
/// `cwd`, sorted.
pub fn collect(graph: &ModuleGraph, cwd: &str) -> (r: Vec<UnusedFile>)
    requires
        graph.wf(),
    ensures
        exists|pre: Seq<UnusedFile>|
            {
                let ids = unused_ids(graph, graph.files@.len() as int);
                &&& pre.len() == ids.len()
                &&& forall|k: int|
                    0 <= k < pre.len() ==> (#[trigger] pre[k]).path@ == path_relative_to(
                        graph.files@[ids[k]].path@,
                        cwd@,
                    )
                &&& #[trigger] stable_sort_of(pre, r@)
            },
{
    let n = graph.files.len();
    let mut pre: Vec<UnusedFile> = Vec::new();
    let mut i: usize = 0;
    while i < n
        invariant
            graph.wf(),
            n == graph.files@.len(),
            i <= n,
            pre@.len() == unused_ids(graph, i as int).len(),
            forall|k: int|
                0 <= k < pre@.len() ==> (#[trigger] pre@[k]).path@ == path_relative_to(
                    graph.files@[unused_ids(graph, i as int)[k]].path@,
                    cwd@,
                ),
        decreases n - i,
    {
        let path = graph.files[i].path.as_str();
        if !graph.reachable[i] && !graph.is_root[i] && !excluded(path) {
            pre.push(UnusedFile { path: rel_path(path, cwd) });
            proof {
                let ids = unused_ids(graph, i + 1);
                assert forall|k: int| 0 <= k < pre@.len() implies (#[trigger] pre@[k]).path@ == path_relative_to(
                    graph.files@[ids[k]].path@,
                    cwd@,
                ) by {
                    if k < pre@.len() - 1 {
                        assert(ids[k] == unused_ids(graph, i as int)[k]);
                    }
                }
            }
        }
        i += 1;
    }
    let r = sort_stable(pre);
    r
}

/// No file that an entry point reaches is reported unused, and neither is
/// an entry point or a descriptor.
pub proof fn lemma_unused_unreachable(g: &ModuleGraph, k: int, j: int)
    requires
        g.wf(),
        0 <= k <= g.files@.len(),
        0 <= j < unused_ids(g, k).len(),
    ensures
        0 <= unused_ids(g, k)[j] < k,
        !g.reachable@[unused_ids(g, k)[j]],
        !g.is_root@[unused_ids(g, k)[j]],
        !is_excluded(g.files@[unused_ids(g, k)[j]].path@),
    decreases k,
{
    if k > 0 {
        let prev = unused_ids(g, k - 1);
        if j < prev.len() {
            lemma_unused_unreachable(g, k - 1, j);
            if is_unused(g, k - 1) {
                assert(unused_ids(g, k)[j] == prev[j]);
            }
        }
    }
}

/// A file annotated with a framework root annotation (Component, Service,
/// Repository, Controller, RestController, Configuration, Bean,
/// SpringBootApplication, Entity, Mapper, Path) is never reported unused.
pub proof fn lemma_annotated_file_never_unused(g: &ModuleGraph, v: int, a: Seq<char>, j: int)
    requires
        g.wf(),
        0 <= v < g.files@.len(),
        crate::java::graph::file_views(g.files@)[v].annotations.contains(a),
        a == "Component"@ || a == "Service"@ || a == "Repository"@ || a == "Controller"@ || a
            == "RestController"@ || a == "Configuration"@ || a == "Bean"@ || a == "SpringBootApplication"@
            || a == "Entity"@ || a == "Mapper"@ || a == "Path"@,
        0 <= j < unused_ids(g, g.files@.len() as int).len(),
    ensures
        unused_ids(g, g.files@.len() as int)[j] != v,
{
    crate::java::graph::lemma_annotated_file_is_root(g, v, a);
    lemma_unused_unreachable(g, g.files@.len() as int, j);
}

} // verus!
