//! Finding the Maven project a directory belongs to.
use vstd::prelude::*;
use crate::paths::{file_name, parent, path_file_name, path_parent};
use crate::text::str_eq;

verus! {

#[derive(Debug, Clone, Copy, PartialEq, Eq, Structural)]
pub enum Lang {
    Java,
    Unknown,
}

pub struct ProjectInfo {
    pub lang: Lang,
    pub root: String,
    pub name: String,
}

/// How many directories, counting the start, are searched for `pom.xml`.
pub const SEARCH_DEPTH: usize = 6;

/// The directories searched for `pom.xml`, from `dir` up at most `k` levels:
/// each next one is the parent, as long as there is one and it differs.
pub open spec fn dirs_up(dir: Seq<char>, k: nat) -> Seq<Seq<char>>
    decreases k,
{
    if k == 0 {
        Seq::empty()
    } else {
        seq![dir] + match path_parent(dir) {
            Some(p) => if p != dir {
                dirs_up(p, (k - 1) as nat)
            } else {
                Seq::empty()
            },
            None => Seq::empty(),
        }
    }
}

/// The directories to look in for `pom.xml`, nearest first.
pub fn candidate_dirs(from: &str) -> (r: Vec<String>)
    ensures
        r@.map_values(|s: String| s@) == dirs_up(from@, SEARCH_DEPTH as nat),
{
    let mut out: Vec<String> = Vec::new();
    let mut dir: String = from.to_string();
    let mut left: usize = SEARCH_DEPTH;
    loop
        invariant
            left <= SEARCH_DEPTH,
            out@.map_values(|s: String| s@) + dirs_up(dir@, left as nat) == dirs_up(from@, SEARCH_DEPTH as nat),
        decreases left,
    {
        if left == 0 {
            proof {
                assert(out@.map_values(|s: String| s@) + dirs_up(dir@, 0) =~= out@.map_values(|s: String| s@));
            }
            return out;
        }
        let ghost before = out@.map_values(|s: String| s@);
        let ghost d = dir@;
        let next = parent(dir.as_str());
        out.push(dir);
        proof {
            assert(out@.map_values(|s: String| s@) =~= before.push(d));
        }
        match next {
            Some(p) => {
                if str_eq(p.as_str(), out[out.len() - 1].as_str()) {
                    proof {
                        assert(out@.map_values(|s: String| s@) =~= before + dirs_up(d, left as nat));
                    }
                    return out;
                }
                proof {
                    assert(before + dirs_up(d, left as nat) =~= before.push(d) + dirs_up(p@, (left - 1) as nat));
                }
                dir = p;
                left -= 1;
            },
            None => {
                proof {
                    assert(out@.map_values(|s: String| s@) =~= before + dirs_up(d, left as nat));
                }
                return out;
            },
        }
    }
}

/// The first of `dirs` that `has_pom` marks.
pub open spec fn first_pom(dirs: Seq<Seq<char>>, has_pom: Seq<bool>) -> Option<int> {
    if exists|i: int| 0 <= i < dirs.len() && i < has_pom.len() && #[trigger] has_pom[i] {
        Some(choose|i: int| 0 <= i < dirs.len() && i < has_pom.len() && #[trigger] has_pom[i] && forall|j: int| 0 <= j < i ==> !has_pom[j])
    } else {
        None
    }
}

/// The project of `cwd`: a Java project rooted at the nearest of its
/// candidate directories that has a `pom.xml` (`has_pom[i]` tells whether
/// the `i`-th does), named after that directory; else an unknown project at
/// `cwd` with no name.
pub fn detect_project(cwd: &str, has_pom: &Vec<bool>) -> (r: ProjectInfo)
    ensures
        ({
            let dirs = dirs_up(cwd@, SEARCH_DEPTH as nat);
            match first_pom(dirs, has_pom@) {
                Some(i) => {
                    &&& r.lang == Lang::Java
                    &&& r.root@ == dirs[i]
                    &&& r.name@ == match path_file_name(dirs[i]) {
                        Some(n) => n,
                        None => Seq::<char>::empty(),
                    }
                },
                None => {
                    &&& r.lang == Lang::Unknown
                    &&& r.root@ == cwd@
                    &&& r.name@ == Seq::<char>::empty()
                },
            }
        }),
{
    let dirs = candidate_dirs(cwd);
    let ghost dv = dirs@.map_values(|s: String| s@);
    let mut i: usize = 0;
    while i < dirs.len()
        invariant
            dv == dirs@.map_values(|s: String| s@),
            dv == dirs_up(cwd@, SEARCH_DEPTH as nat),
            i <= dirs@.len(),
            forall|j: int| 0 <= j < i && j < has_pom@.len() ==> !has_pom@[j],
        decreases dirs@.len() - i,
    {
        if i < has_pom.len() && has_pom[i] {
            let root = dirs[i].clone();
            let name = match file_name(root.as_str()) {
                Some(n) => n,
                None => String::new(),
            };
            proof {
                assert(forall|j: int| 0 <= j < i ==> !has_pom@[j]);
                let c = choose|c: int| 0 <= c < dv.len() && c < has_pom@.len() && #[trigger] has_pom@[c] && forall|j: int| 0 <= j < c ==> !has_pom@[j];
                assert(c == i) by {
                    if c < i {
                        assert(!has_pom@[c]);
                    } else if c > i {
                        assert(!has_pom@[i as int]);
                    }
                }
            }
            return ProjectInfo { lang: Lang::Java, root, name };
        }
        i += 1;
    }
    ProjectInfo { lang: Lang::Unknown, root: cwd.to_string(), name: String::new() }
}

} // verus!
