//! Which directories a scan descends into and which files it reads.
use vstd::prelude::*;
use crate::paths::{file_name, path_file_name};
use crate::text::{
    contains_chars, contains_seq, ends_with_chars, from_chars, has_suffix, lines_of, lines_spec, split_char,
    split_chars, str_eq, to_chars, trim, trim_chars,
};

verus! {

/// Build output, version control, dependency and generated directories.
pub open spec fn skip_dir_names() -> Seq<Seq<char>> {
    seq!["target"@, "build"@, "out"@, ".git"@, "node_modules"@, "generated"@]
}

/// A directory named `name` is not searched.
pub fn skipped_dir(name: &str) -> (r: bool)
    ensures
        r == skip_dir_names().contains(name@),
{
    let r = str_eq(name, "target") || str_eq(name, "build") || str_eq(name, "out") || str_eq(name, ".git")
        || str_eq(name, "node_modules") || str_eq(name, "generated");
    proof {
        let names = skip_dir_names();
        if r {
            if name@ == "target"@ {
                assert(names[0] == name@);
            } else if name@ == "build"@ {
                assert(names[1] == name@);
            } else if name@ == "out"@ {
                assert(names[2] == name@);
            } else if name@ == ".git"@ {
                assert(names[3] == name@);
            } else if name@ == "node_modules"@ {
                assert(names[4] == name@);
            } else {
                assert(names[5] == name@);
            }
        }
    }
    r
}

/// A file name whose extension is `java`: it ends in `.java` with
/// something before the dot (`.java` alone is a hidden file without
/// extension).
pub open spec fn is_java_name(name: Seq<char>) -> bool {
    name.len() > 5 && has_suffix(name, ".java"@)
}

/// `path` names a Java source file.
pub fn is_java_file(path: &str) -> (r: bool)
    ensures
        r == (path_file_name(path@) matches Some(n) && is_java_name(n)),
{
    match file_name(path) {
        Some(n) => {
            let chars = to_chars(n.as_str());
            let ext = to_chars(".java");
            proof {
                reveal_strlit(".java");
            }
            chars.len() > 5 && ends_with_chars(&chars, &ext)
        },
        None => false,
    }
}

/// A `META-INF/services` registration file: its lines name service
/// providers.
pub open spec fn is_service_path(path: Seq<char>) -> bool {
    contains_seq(path, "/META-INF/services/"@)
}

pub fn is_service_file(path: &str) -> (r: bool)
    ensures
        r == is_service_path(path@),
{
    let tag = to_chars("/META-INF/services/");
    proof {
        reveal_strlit("/META-INF/services/");
    }
    contains_chars(&to_chars(path), &tag)
}

/// The provider named on one line of a registration file: the text before
/// any `#` comment, trimmed; nothing when that is blank.
pub open spec fn provider_of(line: Seq<char>) -> Seq<char> {
    trim(split_char(line, '#')[0])
}

/// The providers named on the first `k` lines, in order.
pub open spec fn providers_upto(lines: Seq<Seq<char>>, k: int) -> Seq<Seq<char>>
    decreases k,
{
    if k <= 0 {
        Seq::empty()
    } else if provider_of(lines[k - 1]).len() == 0 {
        providers_upto(lines, k - 1)
    } else {
        providers_upto(lines, k - 1).push(provider_of(lines[k - 1]))
    }
}

/// The service providers a registration file names, one per non-blank line,
/// comments after `#` dropped.
pub fn service_providers(text: &str) -> (r: Vec<String>)
    ensures
        r@.map_values(|s: String| s@) == providers_upto(lines_spec(text@), lines_spec(text@).len() as int),
{
    let lines = lines_of(&to_chars(text));
    let ghost ls = lines_spec(text@);
    let mut out: Vec<String> = Vec::new();
    let mut i: usize = 0;
    proof {
        assert(out@.map_values(|s: String| s@) =~= Seq::<Seq<char>>::empty());
    }
    while i < lines.len()
        invariant
            ls == lines_spec(text@),
            lines@.len() == ls.len(),
            forall|k: int| 0 <= k < lines@.len() ==> (#[trigger] lines@[k])@ == ls[k],
            i <= lines@.len(),
            out@.map_values(|s: String| s@) == providers_upto(ls, i as int),
        decreases lines@.len() - i,
    {
        let pieces = split_chars(&lines[i], '#');
        proof {
            crate::text::lemma_split_from_nonempty(ls[i as int], '#', 0);
        }
        let name = trim_chars(&pieces[0]);
        if name.len() > 0 {
            let ghost before = out@;
            let s = from_chars(name.as_slice());
            out.push(s);
            proof {
                assert(out@.map_values(|x: String| x@) =~= before.map_values(|x: String| x@).push(s@));
            }
        }
        i += 1;
    }
    out
}

} // verus!
