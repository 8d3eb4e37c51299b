//! The `explain` topics: what each report section measures and how to act
//! on it.
use vstd::prelude::*;
use crate::text::{ascii_lower, from_chars, is_ascii_seq, is_ws, lemma_trim_ascii, lemma_trim_ends, lemma_trim_fixed, lowercase, to_chars, to_lowercase, trim, trim_chars, str_eq};

verus! {

/// One report section, explained.
#[derive(Clone, Copy)]
pub struct Topic {
    pub id: &'static str,
    pub aliases: &'static [&'static str],
    pub name: &'static str,
    pub legend: &'static str,
    pub full: &'static str,
    pub how_to_fix: &'static str,
}

/// Number of topics.
pub const TOPIC_COUNT: usize = 10;
pub open spec fn topic_ids() -> Seq<Seq<char>> {
    seq![
        "complexity"@,
        "large-functions"@,
        "hotspots"@,
        "circular"@,
        "unused-files"@,
        "unused-exports"@,
        "deps"@,
        "duplicates"@,
        "clone-families"@,
        "targets"@,
    ]
}

pub open spec fn topic_names() -> Seq<Seq<char>> {
    seq![
        "High Complexity Functions"@,
        "Large Functions"@,
        "Hotspots"@,
        "Circular Dependencies"@,
        "Unused Files"@,
        "Unused Exports"@,
        "Dependencies"@,
        "Duplicates"@,
        "Clone Families"@,
        "Refactoring Targets"@,
    ]
}

pub open spec fn topic_legends() -> Seq<Seq<char>> {
    seq![
        "cyclomatic = independent paths (1 + each if/for/while/case/catch/&&/|| /?:); >20 flagged, ≥30 high, ≥50 critical — e.g. 42 ≈ 42 paths, very hard to test. cognitive = reading difficulty (penalizes nesting); >15 flagged, ≥25 high, ≥40 critical."@,
        "functions longer than 60 lines (very high risk); ranked by length."@,
        "score 0–100 = recency-weighted churn × complexity-density, normalized to the worst file. density = total cyclomatic ÷ lines. fan-in = files importing this. ▲ accelerating · ▼ cooling · ─ stable."@,
        "import cycles between classes — each entry is a group that (transitively) imports itself; (cross-package) = spans Maven modules."@,
        "files unreachable from any entry point (main / tests / Spring beans / SPI services)."@,
        "public/protected methods with no caller in any other file (heuristic: name-based; skips @Override, main, tests)."@,
        "unused = declared in pom.xml but never imported. undeclared = imported but only available transitively."@,
        "identical token sequences (≥50 tokens, ≥5 lines). \"N instances\" = number of copies; line range is per copy."@,
        "clone groups spanning the same set of files — candidates to extract into shared code."@,
        "efficiency = priority ÷ effort (quick-win ROI, higher = better). pri = absolute priority 0–100. category = the dominant signal that flagged it."@,
    ]
}

pub open spec fn topic_fulls() -> Seq<Seq<char>> {
    seq![
        "Two complementary measures of how hard a function is to understand and test.\n\
               \n\
               Cyclomatic complexity (McCabe) counts the independent paths through a function: \
               start at 1 and add one for every branching point — if, for, while, case, catch, \
               ternary, and each && or || in a condition. A value of 42 means roughly 42 distinct \
               paths, so you'd need ~42 test cases for full path coverage. >20 is flagged, ≥30 is \
               high, ≥50 is critical.\n\
               \n\
               Cognitive complexity (SonarSource) measures how hard the code is to READ rather than \
               to test. It penalizes nested control flow more heavily (a branch three levels deep \
               costs more than one at the top) and treats else-if/logical runs more naturally than \
               cyclomatic does. >15 is flagged, ≥25 is high, ≥40 is critical."@,
        "Functions whose body exceeds 60 lines. Long functions tend to do several things at \
               once, are harder to name, harder to test in isolation, and accumulate complexity over \
               time. Length is a blunt but reliable smell that usually correlates with mixed \
               responsibilities."@,
        "Hotspots rank files by where churn and complexity collide — the code most likely to \
               cause maintenance pain. The score (0–100) multiplies recency-weighted git churn by \
               complexity density and normalizes against the worst file in the project.\n\
               \n\
               Churn is weighted with a 90-day half-life, so recent edits count more than old ones. \
               Density is total cyclomatic complexity divided by lines. Fan-in is how many other \
               files import this one (high fan-in means a change here ripples widely). The trend \
               arrow compares recent vs older commit rates: ▲ accelerating (>1.5×), ▼ cooling \
               (<0.67×), ─ stable."@,
        "Groups of classes that import each other in a cycle (directly or transitively). \
               Cycles make code hard to understand and impossible to compile, test, or reason about \
               in isolation — you can't pull one class out without dragging the rest along. \
               Cross-package cycles (spanning Maven modules) are worse: they break modular \
               boundaries you presumably set up on purpose."@,
        "Files that cannot be reached from any entry point by following imports. Entry points \
               include main methods, test classes, Spring-managed beans, and SPI service providers. \
               If nothing reachable references a file, it's likely dead code that can be deleted."@,
        "Public or protected methods that no other file appears to call. This is a name-based \
               heuristic: it scans every file for the method name being referenced. It deliberately \
               skips @Override methods, main, and test methods. Because it's name-based, a method \
               called only via reflection or by an external consumer of your library will show up \
               here as a false positive."@,
        "Maven dependency hygiene, sourced from `mvn dependency:analyze`.\n\
               \n\
               Unused dependencies are declared in your pom.xml but nothing in your code imports \
               them — dead weight that slows builds and bloats the classpath. Undeclared \
               dependencies are the dangerous ones: your code imports them but they're only present \
               transitively (pulled in by something else). A transitive bump or removal upstream can \
               break your build with no warning."@,
        "Blocks of code that are token-for-token identical across the project, found via a \
               suffix-array scan (default thresholds: ≥50 tokens and ≥5 lines). Each group lists \
               every copy and its line range. Duplication means a bug fixed in one copy stays broken \
               in the others, and behavior drifts as copies are edited independently."@,
        "A clone family groups together duplicate blocks that recur across the same set of \
               files. Where a single duplicate group is one repeated block, a family reveals that \
               two or more files share multiple duplicated blocks — a strong signal they should \
               share a common abstraction (a base class, a utility, a template)."@,
        "A prioritized, ROI-ranked list of what to refactor first. It fuses every other signal \
               — hotspot score, complexity, cycles, duplication, unused exports — into one ranking.\n\
               \n\
               Priority (0–100) is the absolute importance of fixing a file. Effort estimates how \
               much work it would take. Efficiency = priority ÷ effort, so high-efficiency targets \
               are quick wins: a lot of risk removed for relatively little work. Category names the \
               dominant problem that flagged the file."@,
    ]
}

pub open spec fn topic_fixes() -> Seq<Seq<char>> {
    seq![
        "Extract nested blocks into well-named helper methods; replace deep if/else \
                     ladders with early returns or guard clauses; collapse boolean chains into named \
                     predicates; consider polymorphism or a lookup table instead of large switch \
                     statements."@,
        "Split the function along its natural seams — each distinct step or responsibility \
                     becomes its own method. Look for comment-delimited sections; those are almost \
                     always extractable units."@,
        "Prioritize hotspots for refactoring, extra tests, and review attention. A file \
                     that's both complex and frequently changed is your highest-leverage place to \
                     reduce risk."@,
        "Break the cycle by introducing an interface one side depends on, moving the \
                     shared type to a third location, or inverting a dependency (dependency \
                     inversion). Cross-package cycles usually signal a misplaced class — move it to \
                     the module that truly owns it."@,
        "Confirm the file truly isn't loaded reflectively or by a framework, then delete \
                     it. If it IS an entry point reap doesn't recognize (e.g. a custom framework \
                     hook), that's a false positive — the reachability roots may need extending."@,
        "If the method is genuinely internal and unused, delete it or reduce its \
                     visibility to private/package-private. If it's part of a public library API \
                     consumed externally, it's expected to appear here — reap analyzes only this \
                     codebase."@,
        "Remove unused dependencies from pom.xml. For undeclared dependencies, add an \
                     explicit <dependency> entry so you control the version directly instead of \
                     relying on a transitive accident."@,
        "Extract the duplicated block into a single shared method or class and call it \
                     from each site. If the copies have diverged slightly, reconcile the differences \
                     first, then unify."@,
        "Look at the files in the family as a unit: they likely want a shared base class, \
                     helper, or strategy. Extracting the common structure once removes several \
                     duplicate groups at a time."@,
        "Work top-down by efficiency for the best return on effort. The category tells you \
                     what kind of fix is needed; cross-reference the matching section (complexity, \
                     duplicates, etc.) for the specifics."@,
    ]
}

/// The aliases of topic `i`.
pub open spec fn topic_aliases(i: int) -> Seq<Seq<char>> {
    if i == 0 {
        seq!["cyclomatic"@, "cognitive"@, "high-complexity"@, "high-complexity-functions"@, "complexity-functions"@]
    } else if i == 1 {
        seq!["large"@, "large-functions"@, "long-functions"@, "long"@]
    } else if i == 2 {
        seq!["hotspot"@, "churn"@]
    } else if i == 3 {
        seq!["circular-dependencies"@, "cycles"@, "circular-deps"@, "circular-dependency"@]
    } else if i == 4 {
        seq!["dead-files"@, "unreachable-files"@]
    } else if i == 5 {
        seq!["dead-exports"@, "exports"@, "unused-export"@]
    } else if i == 6 {
        seq!["dependencies"@, "unused-dependencies"@, "undeclared-dependencies"@, "unused-deps"@, "maven"@]
    } else if i == 7 {
        seq!["dupes"@, "duplicate-code"@, "clones"@, "clone"@]
    } else if i == 8 {
        seq!["families"@, "clone-family"@, "clone-families"@]
    } else if i == 9 {
        seq!["refactoring-targets"@, "refactor"@, "refactoring"@, "target"@]
    } else {
        Seq::empty()
    }
}

/// Topic `t` is the `i`-th of the table.
pub open spec fn is_topic(t: Topic, i: int) -> bool {
    &&& 0 <= i < TOPIC_COUNT
    &&& t.id@ == topic_ids()[i]
    &&& t.aliases@.map_values(|a: &str| a@) == topic_aliases(i)
    &&& t.name@ == topic_names()[i]
    &&& t.legend@ == topic_legends()[i]
    &&& t.full@ == topic_fulls()[i]
    &&& t.how_to_fix@ == topic_fixes()[i]
}

/// The topics, in the order `explain` lists them.
pub fn topics() -> (r: Vec<Topic>)
    ensures
        r@.len() == TOPIC_COUNT,
        forall|i: int| 0 <= i < TOPIC_COUNT ==> is_topic(#[trigger] r@[i], i),
{
    let mut r: Vec<Topic> = Vec::new();
    r.push(
        Topic {
            id: "complexity",
            aliases: &["cyclomatic", "cognitive", "high-complexity", "high-complexity-functions", "complexity-functions"],
            name: "High Complexity Functions",
            legend: "cyclomatic = independent paths (1 + each if/for/while/case/catch/&&/|| /?:); >20 flagged, ≥30 high, ≥50 critical — e.g. 42 ≈ 42 paths, very hard to test. cognitive = reading difficulty (penalizes nesting); >15 flagged, ≥25 high, ≥40 critical.",
            full: "Two complementary measures of how hard a function is to understand and test.\n\
               \n\
               Cyclomatic complexity (McCabe) counts the independent paths through a function: \
               start at 1 and add one for every branching point — if, for, while, case, catch, \
               ternary, and each && or || in a condition. A value of 42 means roughly 42 distinct \
               paths, so you'd need ~42 test cases for full path coverage. >20 is flagged, ≥30 is \
               high, ≥50 is critical.\n\
               \n\
               Cognitive complexity (SonarSource) measures how hard the code is to READ rather than \
               to test. It penalizes nested control flow more heavily (a branch three levels deep \
               costs more than one at the top) and treats else-if/logical runs more naturally than \
               cyclomatic does. >15 is flagged, ≥25 is high, ≥40 is critical.",
            how_to_fix: "Extract nested blocks into well-named helper methods; replace deep if/else \
                     ladders with early returns or guard clauses; collapse boolean chains into named \
                     predicates; consider polymorphism or a lookup table instead of large switch \
                     statements.",
        },
    );
    r.push(
        Topic {
            id: "large-functions",
            aliases: &["large", "large-functions", "long-functions", "long"],
            name: "Large Functions",
            legend: "functions longer than 60 lines (very high risk); ranked by length.",
            full: "Functions whose body exceeds 60 lines. Long functions tend to do several things at \
               once, are harder to name, harder to test in isolation, and accumulate complexity over \
               time. Length is a blunt but reliable smell that usually correlates with mixed \
               responsibilities.",
            how_to_fix: "Split the function along its natural seams — each distinct step or responsibility \
                     becomes its own method. Look for comment-delimited sections; those are almost \
                     always extractable units.",
        },
    );
    r.push(
        Topic {
            id: "hotspots",
            aliases: &["hotspot", "churn"],
            name: "Hotspots",
            legend: "score 0–100 = recency-weighted churn × complexity-density, normalized to the worst file. density = total cyclomatic ÷ lines. fan-in = files importing this. ▲ accelerating · ▼ cooling · ─ stable.",
            full: "Hotspots rank files by where churn and complexity collide — the code most likely to \
               cause maintenance pain. The score (0–100) multiplies recency-weighted git churn by \
               complexity density and normalizes against the worst file in the project.\n\
               \n\
               Churn is weighted with a 90-day half-life, so recent edits count more than old ones. \
               Density is total cyclomatic complexity divided by lines. Fan-in is how many other \
               files import this one (high fan-in means a change here ripples widely). The trend \
               arrow compares recent vs older commit rates: ▲ accelerating (>1.5×), ▼ cooling \
               (<0.67×), ─ stable.",
            how_to_fix: "Prioritize hotspots for refactoring, extra tests, and review attention. A file \
                     that's both complex and frequently changed is your highest-leverage place to \
                     reduce risk.",
        },
    );
    r.push(
        Topic {
            id: "circular",
            aliases: &["circular-dependencies", "cycles", "circular-deps", "circular-dependency"],
            name: "Circular Dependencies",
            legend: "import cycles between classes — each entry is a group that (transitively) imports itself; (cross-package) = spans Maven modules.",
            full: "Groups of classes that import each other in a cycle (directly or transitively). \
               Cycles make code hard to understand and impossible to compile, test, or reason about \
               in isolation — you can't pull one class out without dragging the rest along. \
               Cross-package cycles (spanning Maven modules) are worse: they break modular \
               boundaries you presumably set up on purpose.",
            how_to_fix: "Break the cycle by introducing an interface one side depends on, moving the \
                     shared type to a third location, or inverting a dependency (dependency \
                     inversion). Cross-package cycles usually signal a misplaced class — move it to \
                     the module that truly owns it.",
        },
    );
    r.push(
        Topic {
            id: "unused-files",
            aliases: &["dead-files", "unreachable-files"],
            name: "Unused Files",
            legend: "files unreachable from any entry point (main / tests / Spring beans / SPI services).",
            full: "Files that cannot be reached from any entry point by following imports. Entry points \
               include main methods, test classes, Spring-managed beans, and SPI service providers. \
               If nothing reachable references a file, it's likely dead code that can be deleted.",
            how_to_fix: "Confirm the file truly isn't loaded reflectively or by a framework, then delete \
                     it. If it IS an entry point reap doesn't recognize (e.g. a custom framework \
                     hook), that's a false positive — the reachability roots may need extending.",
        },
    );
    r.push(
        Topic {
            id: "unused-exports",
            aliases: &["dead-exports", "exports", "unused-export"],
            name: "Unused Exports",
            legend: "public/protected methods with no caller in any other file (heuristic: name-based; skips @Override, main, tests).",
            full: "Public or protected methods that no other file appears to call. This is a name-based \
               heuristic: it scans every file for the method name being referenced. It deliberately \
               skips @Override methods, main, and test methods. Because it's name-based, a method \
               called only via reflection or by an external consumer of your library will show up \
               here as a false positive.",
            how_to_fix: "If the method is genuinely internal and unused, delete it or reduce its \
                     visibility to private/package-private. If it's part of a public library API \
                     consumed externally, it's expected to appear here — reap analyzes only this \
                     codebase.",
        },
    );
    r.push(
        Topic {
            id: "deps",
            aliases: &["dependencies", "unused-dependencies", "undeclared-dependencies", "unused-deps", "maven"],
            name: "Dependencies",
            legend: "unused = declared in pom.xml but never imported. undeclared = imported but only available transitively.",
            full: "Maven dependency hygiene, sourced from `mvn dependency:analyze`.\n\
               \n\
               Unused dependencies are declared in your pom.xml but nothing in your code imports \
               them — dead weight that slows builds and bloats the classpath. Undeclared \
               dependencies are the dangerous ones: your code imports them but they're only present \
               transitively (pulled in by something else). A transitive bump or removal upstream can \
               break your build with no warning.",
            how_to_fix: "Remove unused dependencies from pom.xml. For undeclared dependencies, add an \
                     explicit <dependency> entry so you control the version directly instead of \
                     relying on a transitive accident.",
        },
    );
    r.push(
        Topic {
            id: "duplicates",
            aliases: &["dupes", "duplicate-code", "clones", "clone"],
            name: "Duplicates",
            legend: "identical token sequences (≥50 tokens, ≥5 lines). \"N instances\" = number of copies; line range is per copy.",
            full: "Blocks of code that are token-for-token identical across the project, found via a \
               suffix-array scan (default thresholds: ≥50 tokens and ≥5 lines). Each group lists \
               every copy and its line range. Duplication means a bug fixed in one copy stays broken \
               in the others, and behavior drifts as copies are edited independently.",
            how_to_fix: "Extract the duplicated block into a single shared method or class and call it \
                     from each site. If the copies have diverged slightly, reconcile the differences \
                     first, then unify.",
        },
    );
    r.push(
        Topic {
            id: "clone-families",
            aliases: &["families", "clone-family", "clone-families"],
            name: "Clone Families",
            legend: "clone groups spanning the same set of files — candidates to extract into shared code.",
            full: "A clone family groups together duplicate blocks that recur across the same set of \
               files. Where a single duplicate group is one repeated block, a family reveals that \
               two or more files share multiple duplicated blocks — a strong signal they should \
               share a common abstraction (a base class, a utility, a template).",
            how_to_fix: "Look at the files in the family as a unit: they likely want a shared base class, \
                     helper, or strategy. Extracting the common structure once removes several \
                     duplicate groups at a time.",
        },
    );
    r.push(
        Topic {
            id: "targets",
            aliases: &["refactoring-targets", "refactor", "refactoring", "target"],
            name: "Refactoring Targets",
            legend: "efficiency = priority ÷ effort (quick-win ROI, higher = better). pri = absolute priority 0–100. category = the dominant signal that flagged it.",
            full: "A prioritized, ROI-ranked list of what to refactor first. It fuses every other signal \
               — hotspot score, complexity, cycles, duplication, unused exports — into one ranking.\n\
               \n\
               Priority (0–100) is the absolute importance of fixing a file. Effort estimates how \
               much work it would take. Efficiency = priority ÷ effort, so high-efficiency targets \
               are quick wins: a lot of risk removed for relatively little work. Category names the \
               dominant problem that flagged the file.",
            how_to_fix: "Work top-down by efficiency for the best return on effort. The category tells you \
                     what kind of fix is needed; cross-reference the matching section (complexity, \
                     duplicates, etc.) for the specifics.",
        },
    );
    proof {
        assert(r@[0].aliases@.map_values(|a: &str| a@) =~= topic_aliases(0));
        assert(r@[1].aliases@.map_values(|a: &str| a@) =~= topic_aliases(1));
        assert(r@[2].aliases@.map_values(|a: &str| a@) =~= topic_aliases(2));
        assert(r@[3].aliases@.map_values(|a: &str| a@) =~= topic_aliases(3));
        assert(r@[4].aliases@.map_values(|a: &str| a@) =~= topic_aliases(4));
        assert(r@[5].aliases@.map_values(|a: &str| a@) =~= topic_aliases(5));
        assert(r@[6].aliases@.map_values(|a: &str| a@) =~= topic_aliases(6));
        assert(r@[7].aliases@.map_values(|a: &str| a@) =~= topic_aliases(7));
        assert(r@[8].aliases@.map_values(|a: &str| a@) =~= topic_aliases(8));
        assert(r@[9].aliases@.map_values(|a: &str| a@) =~= topic_aliases(9));
    }
    r
}

/// A query as looked up: trimmed, lowercased, spaces and underscores
/// turned into dashes.
pub open spec fn normalize_spec(query: Seq<char>) -> Seq<char> {
    lowercase(trim(query)).map_values(|c: char| if c == ' ' || c == '_' { '-' } else { c })
}

/// Spaces and underscores turned into dashes.
pub open spec fn dashify(s: Seq<char>) -> Seq<char> {
    s.map_values(|c: char| if c == ' ' || c == '_' { '-' } else { c })
}

/// [`normalize_spec`] of an ASCII query, with the lowercasing written out.
pub open spec fn normalize_ascii(query: Seq<char>) -> Seq<char> {
    dashify(ascii_lower(trim(query)))
}

pub fn normalize(query: &str) -> (r: String)
    ensures
        r@ == normalize_spec(query@),
        is_ascii_seq(query@) ==> r@ == normalize_ascii(query@),
{
    let t = from_chars(trim_chars(&to_chars(query)).as_slice());
    proof {
        if is_ascii_seq(query@) {
            lemma_trim_ascii(query@);
        }
    }
    let low = to_chars(to_lowercase(t.as_str()).as_str());
    let mut out: Vec<char> = Vec::new();
    let mut i: usize = 0;
    while i < low.len()
        invariant
            i <= low@.len(),
            out@ == low@.subrange(0, i as int).map_values(|c: char| if c == ' ' || c == '_' { '-' } else { c }),
        decreases low@.len() - i,
    {
        let c = low[i];
        out.push(if c == ' ' || c == '_' { '-' } else { c });
        proof {
            assert(low@.subrange(0, i + 1) =~= low@.subrange(0, i as int).push(c));
        }
        i += 1;
    }
    proof {
        assert(low@.subrange(0, low@.len() as int) =~= low@);
        if is_ascii_seq(query@) {
            assert(out@ =~= normalize_ascii(query@));
        }
    }
    from_chars(out.as_slice())
}

/// What normalizing an ASCII query leaves: ASCII with no space, underscore
/// or uppercase letter, no whitespace at either end, and nothing more for a
/// second normalizing to change.
pub proof fn lemma_normalize_settled(q: Seq<char>)
    requires
        is_ascii_seq(q),
    ensures
        is_ascii_seq(normalize_ascii(q)),
        forall|i: int|
            0 <= i < normalize_ascii(q).len() ==> {
                let c = #[trigger] normalize_ascii(q)[i];
                c != ' ' && c != '_' && !(65 <= (c as u32) <= 90)
            },
        trim(normalize_ascii(q)) == normalize_ascii(q),
        normalize_ascii(normalize_ascii(q)) == normalize_ascii(q),
{
    let t = trim(q);
    lemma_trim_ascii(q);
    lemma_trim_ends(q);
    let n = normalize_ascii(q);
    assert(n.len() == t.len());
    assert forall|i: int| 0 <= i < n.len() implies (#[trigger] n[i] as u32) < 128 && n[i] != ' '
        && n[i] != '_' && !(65 <= (n[i] as u32) <= 90) && (is_ws(n[i]) ==> is_ws(t[i])) by {
        assert((t[i] as u32) < 128);
    }
    if n.len() > 0 {
        assert(!is_ws(n[0]));
        assert(!is_ws(n.last())) by {
            assert(n.last() == n[n.len() - 1]);
            assert(t.last() == t[t.len() - 1]);
        }
    }
    lemma_trim_fixed(n);
    assert(normalize_ascii(n) =~= n);
}

/// Looking up an ASCII query and looking up its normalized form find the
/// same topic.
pub proof fn lemma_find_topic_normalized(q: Seq<char>)
    requires
        is_ascii_seq(q),
    ensures
        first_answering(normalize_ascii(normalize_ascii(q))) == first_answering(normalize_ascii(q)),
        is_ascii_seq(normalize_ascii(q)),
{
    lemma_normalize_settled(q);
}

/// Topic `i` answers to `key` by its id or an alias.
pub open spec fn answers(i: int, key: Seq<char>) -> bool {
    topic_ids()[i] == key || topic_aliases(i).contains(key)
}

/// The first topic that answers to `key`.
pub open spec fn first_answering(key: Seq<char>) -> Option<int> {
    if exists|i: int| 0 <= i < TOPIC_COUNT && #[trigger] answers(i, key) {
        Some(choose|i: int| 0 <= i < TOPIC_COUNT && #[trigger] answers(i, key) && forall|j: int| 0 <= j < i ==> !answers(j, key))
    } else {
        None
    }
}

fn answers_exec(t: &Topic, key: &str, Ghost(i): Ghost<int>) -> (r: bool)
    requires
        is_topic(*t, i),
    ensures
        r == answers(i, key@),
{
    if str_eq(t.id, key) {
        return true;
    }
    let mut k: usize = 0;
    while k < t.aliases.len()
        invariant
            is_topic(*t, i),
            k <= t.aliases@.len(),
            forall|m: int| 0 <= m < k ==> (#[trigger] t.aliases@[m])@ != key@,
        decreases t.aliases@.len() - k,
    {
        if str_eq(t.aliases[k], key) {
            proof {
                assert(topic_aliases(i)[k as int] == key@);
            }
            return true;
        }
        k += 1;
    }
    proof {
        if topic_aliases(i).contains(key@) {
            let m = choose|m: int| 0 <= m < topic_aliases(i).len() && topic_aliases(i)[m] == key@;
            assert(t.aliases@[m]@ == key@);
        }
    }
    false
}

/// The topic a query names, by id or alias, once normalized.
pub fn find_topic(query: &str) -> (r: Option<Topic>)
    ensures
        match first_answering(normalize_spec(query@)) {
            Some(i) => r matches Some(t) && is_topic(t, i),
            None => r is None,
        },
        is_ascii_seq(query@) ==> match first_answering(normalize_ascii(query@)) {
            Some(i) => r matches Some(t) && is_topic(t, i),
            None => r is None,
        },
{
    let key = normalize(query);
    let table = topics();
    let mut i: usize = 0;
    while i < table.len()
        invariant
            key@ == normalize_spec(query@),
            is_ascii_seq(query@) ==> key@ == normalize_ascii(query@),
            table@.len() == TOPIC_COUNT,
            forall|j: int| 0 <= j < TOPIC_COUNT ==> is_topic(#[trigger] table@[j], j),
            i <= TOPIC_COUNT,
            forall|j: int| 0 <= j < i ==> !#[trigger] answers(j, key@),
        decreases TOPIC_COUNT - i,
    {
        if answers_exec(&table[i], key.as_str(), Ghost(i as int)) {
            proof {
                let c = choose|c: int| 0 <= c < TOPIC_COUNT && #[trigger] answers(c, key@) && forall|j: int| 0 <= j < c ==> !answers(j, key@);
                assert(c == i) by {
                    if c < i {
                        assert(!answers(c, key@));
                    } else if c > i {
                        assert(!answers(i as int, key@));
                    }
                }
            }
            return Some(table[i]);
        }
        i += 1;
    }
    None
}

/// The first topic whose id is `id`.
pub open spec fn first_with_id(id: Seq<char>) -> Option<int> {
    if exists|i: int| 0 <= i < TOPIC_COUNT && #[trigger] topic_ids()[i] == id {
        Some(choose|i: int| 0 <= i < TOPIC_COUNT && #[trigger] topic_ids()[i] == id && forall|j: int| 0 <= j < i ==> topic_ids()[j] != id)
    } else {
        None
    }
}

/// The one-line legend of the section with this id.
pub fn legend_for(id: &str) -> (r: Option<&'static str>)
    ensures
        match first_with_id(id@) {
            Some(i) => r matches Some(l) && l@ == topic_legends()[i],
            None => r is None,
        },
{
    let table = topics();
    let mut i: usize = 0;
    while i < table.len()
        invariant
            table@.len() == TOPIC_COUNT,
            forall|j: int| 0 <= j < TOPIC_COUNT ==> is_topic(#[trigger] table@[j], j),
            i <= TOPIC_COUNT,
            forall|j: int| 0 <= j < i ==> #[trigger] topic_ids()[j] != id@,
        decreases TOPIC_COUNT - i,
    {
        if str_eq(table[i].id, id) {
            proof {
                let c = choose|c: int| 0 <= c < TOPIC_COUNT && #[trigger] topic_ids()[c] == id@ && forall|j: int| 0 <= j < c ==> topic_ids()[j] != id@;
                assert(c == i) by {
                    if c < i {
                        assert(topic_ids()[c] != id@);
                    } else if c > i {
                        assert(topic_ids()[i as int] != id@);
                    }
                }
            }
            return Some(table[i].legend);
        }
        i += 1;
    }
    None
}

/// Each section's id names that section and no other, so its legend is
/// found by its id.
pub proof fn lemma_each_id_finds_its_topic(i: int)
    requires
        0 <= i < TOPIC_COUNT,
    ensures
        first_with_id(topic_ids()[i]) == Some(i),
{
    reveal_strlit("complexity");
    reveal_strlit("large-functions");
    reveal_strlit("hotspots");
    reveal_strlit("circular");
    reveal_strlit("unused-files");
    reveal_strlit("unused-exports");
    reveal_strlit("deps");
    reveal_strlit("duplicates");
    reveal_strlit("clone-families");
    reveal_strlit("targets");
    let ids = topic_ids();
    assert forall|a: int, b: int| 0 <= a < TOPIC_COUNT && 0 <= b < TOPIC_COUNT && a != b implies ids[a] != ids[b] by {
        if ids[a].len() == ids[b].len() {
            assert(ids[a][0] != ids[b][0]);
        }
    }
    assert(ids[i] == ids[i]);
    let c = choose|c: int| 0 <= c < TOPIC_COUNT && #[trigger] ids[c] == ids[i] && forall|j: int| 0 <= j < c ==> ids[j] != ids[i];
    assert(c == i);
}

} // verus!
