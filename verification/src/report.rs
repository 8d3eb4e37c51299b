//! The text pieces of the terminal report: labels, colours (ANSI escapes as
//! `owo-colors` writes them), padded numbers and short paths.
use vstd::prelude::*;
use owo_colors::OwoColorize;
use crate::text::{
    append_chars, copy_range, decimal, decimal_chars, from_chars, has_prefix, starts_at, str_eq, to_chars,
};
use crate::types::{Severity, Trend};

verus! {

/// `s.red()` as `owo-colors` displays it: the red foreground code, `s`, and
/// the code that resets the foreground.
#[verifier::external_body]
pub fn red(s: &str) -> (r: String)
    ensures
        r@ == "\x1b[31m"@ + s@ + "\x1b[39m"@,
{
    s.red().to_string()
}

/// `s.green()` as displayed.
#[verifier::external_body]
pub fn green(s: &str) -> (r: String)
    ensures
        r@ == "\x1b[32m"@ + s@ + "\x1b[39m"@,
{
    s.green().to_string()
}

/// `s.yellow()` as displayed.
#[verifier::external_body]
pub fn yellow(s: &str) -> (r: String)
    ensures
        r@ == "\x1b[33m"@ + s@ + "\x1b[39m"@,
{
    s.yellow().to_string()
}

/// `s.blue()` as displayed.
#[verifier::external_body]
pub fn blue(s: &str) -> (r: String)
    ensures
        r@ == "\x1b[34m"@ + s@ + "\x1b[39m"@,
{
    s.blue().to_string()
}

/// `s.cyan()` as displayed.
#[verifier::external_body]
pub fn cyan(s: &str) -> (r: String)
    ensures
        r@ == "\x1b[36m"@ + s@ + "\x1b[39m"@,
{
    s.cyan().to_string()
}

/// `s.white()` as displayed.
#[verifier::external_body]
pub fn white(s: &str) -> (r: String)
    ensures
        r@ == "\x1b[37m"@ + s@ + "\x1b[39m"@,
{
    s.white().to_string()
}

/// `s.bold()` as displayed: the bold code, `s`, and the reset code.
#[verifier::external_body]
pub fn bold(s: &str) -> (r: String)
    ensures
        r@ == "\x1b[1m"@ + s@ + "\x1b[0m"@,
{
    s.bold().to_string()
}

/// `s.dimmed()` as displayed.
#[verifier::external_body]
pub fn dimmed(s: &str) -> (r: String)
    ensures
        r@ == "\x1b[2m"@ + s@ + "\x1b[0m"@,
{
    s.dimmed().to_string()
}

pub open spec fn severity_label_spec(s: Severity) -> Seq<char> {
    match s {
        Severity::Critical => "critical"@,
        Severity::High => "high"@,
        Severity::Medium => "medium"@,
        Severity::Low => "low"@,
    }
}

pub fn severity_label(s: Severity) -> (r: &'static str)
    ensures
        r@ == severity_label_spec(s),
{
    match s {
        Severity::Critical => "critical",
        Severity::High => "high",
        Severity::Medium => "medium",
        Severity::Low => "low",
    }
}

/// Critical in bold red, high in bold yellow, medium in yellow, low in blue.
pub fn colorize_severity(s: Severity, text: &str) -> (r: String)
    ensures
        r@ == match s {
            Severity::Critical => "\x1b[1m"@ + ("\x1b[31m"@ + text@ + "\x1b[39m"@) + "\x1b[0m"@,
            Severity::High => "\x1b[1m"@ + ("\x1b[33m"@ + text@ + "\x1b[39m"@) + "\x1b[0m"@,
            Severity::Medium => "\x1b[33m"@ + text@ + "\x1b[39m"@,
            Severity::Low => "\x1b[34m"@ + text@ + "\x1b[39m"@,
        },
{
    match s {
        Severity::Critical => bold(red(text).as_str()),
        Severity::High => bold(yellow(text).as_str()),
        Severity::Medium => yellow(text),
        Severity::Low => blue(text),
    }
}

/// ▲ red when accelerating, ▼ green when cooling, ─ dimmed when stable.
pub fn trend_symbol(t: Trend) -> (r: String)
    ensures
        r@ == match t {
            Trend::Accelerating => "\x1b[31m"@ + "▲"@ + "\x1b[39m"@,
            Trend::Cooling => "\x1b[32m"@ + "▼"@ + "\x1b[39m"@,
            Trend::Stable => "\x1b[2m"@ + "─"@ + "\x1b[0m"@,
        },
{
    match t {
        Trend::Accelerating => red("▲"),
        Trend::Cooling => green("▼"),
        Trend::Stable => dimmed("─"),
    }
}

fn cat(a: String, b: &str) -> (r: String)
    ensures
        r@ == a@ + b@,
{
    let mut v = to_chars(a.as_str());
    append_chars(&mut v, &to_chars(b));
    from_chars(v.as_slice())
}

/// The trend symbol followed by its word.
pub fn trend_label(t: Trend) -> (r: String)
    ensures
        r@ == match t {
            Trend::Accelerating => "\x1b[31m"@ + "▲"@ + "\x1b[39m"@ + " accelerating"@,
            Trend::Cooling => "\x1b[32m"@ + "▼"@ + "\x1b[39m"@ + " cooling"@,
            Trend::Stable => "\x1b[2m"@ + "─"@ + "\x1b[0m"@ + " stable"@,
        },
{
    match t {
        Trend::Accelerating => cat(red("▲"), " accelerating"),
        Trend::Cooling => cat(green("▼"), " cooling"),
        Trend::Stable => cat(dimmed("─"), " stable"),
    }
}

/// ` CRITICAL` in bold red, ` HIGH` in bold yellow, nothing for the rest.
pub fn severity_tag(s: Severity) -> (r: String)
    ensures
        r@ == match s {
            Severity::Critical => "\x1b[1m"@ + ("\x1b[31m"@ + " CRITICAL"@ + "\x1b[39m"@) + "\x1b[0m"@,
            Severity::High => "\x1b[1m"@ + ("\x1b[33m"@ + " HIGH"@ + "\x1b[39m"@) + "\x1b[0m"@,
            _ => Seq::<char>::empty(),
        },
{
    match s {
        Severity::Critical => bold(red(" CRITICAL").as_str()),
        Severity::High => bold(yellow(" HIGH").as_str()),
        _ => String::new(),
    }
}

/// `format!("{value:>3}")`: the digits, right-aligned to three columns.
pub open spec fn pad3(value: nat) -> Seq<char> {
    let d = decimal(value);
    if d.len() >= 3 {
        d
    } else {
        Seq::new((3 - d.len()) as nat, |i: int| ' ') + d
    }
}

pub fn pad3_exec(value: u32) -> (r: String)
    ensures
        r@ == pad3(value as nat),
{
    let d = decimal_chars(value as u64);
    let mut out: Vec<char> = Vec::new();
    if d.len() < 3 {
        let pad = 3 - d.len();
        let mut i: usize = 0;
        while i < pad
            invariant
                i <= pad,
                out@ == Seq::new(i as nat, |k: int| ' '),
            decreases pad - i,
        {
            out.push(' ');
            proof {
                assert(out@ =~= Seq::new((i + 1) as nat, |k: int| ' '));
            }
            i += 1;
        }
    }
    append_chars(&mut out, &d);
    proof {
        if d@.len() >= 3 {
            assert(out@ =~= d@);
        }
    }
    from_chars(out.as_slice())
}

/// A metric column: over its limit in bold red, else dimmed.
pub fn metric(value: u32, over: bool) -> (r: String)
    ensures
        r@ == if over {
            "\x1b[1m"@ + ("\x1b[31m"@ + pad3(value as nat) + "\x1b[39m"@) + "\x1b[0m"@
        } else {
            "\x1b[2m"@ + pad3(value as nat) + "\x1b[0m"@
        },
{
    let s = pad3_exec(value);
    if over {
        bold(red(s.as_str()).as_str())
    } else {
        dimmed(s.as_str())
    }
}

/// The part of a path after its last `/`.
pub open spec fn basename_spec(p: Seq<char>) -> Seq<char>
    decreases p.len(),
{
    if p.len() == 0 {
        p
    } else if p.last() == '/' {
        Seq::empty()
    } else {
        basename_spec(p.drop_last()).push(p.last())
    }
}

pub fn basename(p: &str) -> (r: String)
    ensures
        r@ == basename_spec(p@),
{
    let c = to_chars(p);
    let mut j = c.len();
    proof {
        assert(c@.subrange(0, c@.len() as int) =~= c@);
        assert(c@.subrange(c@.len() as int, c@.len() as int) =~= Seq::<char>::empty());
        assert(basename_spec(c@) + Seq::<char>::empty() =~= basename_spec(c@));
    }
    while j > 0 && c[j - 1] != '/'
        invariant
            j <= c@.len(),
            basename_spec(c@) == basename_spec(c@.subrange(0, j as int)) + c@.subrange(j as int, c@.len() as int),
        decreases j,
    {
        proof {
            let s = c@.subrange(0, j as int);
            assert(s.drop_last() =~= c@.subrange(0, j - 1));
            assert(c@.subrange(j - 1, c@.len() as int) =~= seq![s.last()] + c@.subrange(j as int, c@.len() as int));
            assert(basename_spec(s) == basename_spec(s.drop_last()).push(s.last()));
            assert(basename_spec(s.drop_last()).push(s.last()) + c@.subrange(j as int, c@.len() as int) =~= basename_spec(s.drop_last()) + c@.subrange(j - 1, c@.len() as int));
        }
        j -= 1;
    }
    proof {
        assert(c@.subrange(0, c@.len() as int) =~= c@);
        let s = c@.subrange(0, j as int);
        assert(basename_spec(s) =~= Seq::<char>::empty());
    }
    from_chars(copy_range(&c, j, c.len()).as_slice())
}

/// `p` without a leading `cwd/`.
pub open spec fn shorten_spec(p: Seq<char>, cwd: Seq<char>) -> Seq<char> {
    let prefix = cwd.push('/');
    if has_prefix(p, prefix) {
        p.subrange(prefix.len() as int, p.len() as int)
    } else {
        p
    }
}

/// Shortens `p` against the displayed working directory `cwd`.
pub fn shorten(p: &str, cwd: &str) -> (r: String)
    ensures
        r@ == shorten_spec(p@, cwd@),
{
    let pc = to_chars(p);
    let mut prefix = to_chars(cwd);
    prefix.push('/');
    proof {
        assert(pc@.subrange(0, pc@.len() as int) =~= pc@);
    }
    if starts_at(&pc, 0, &prefix) {
        from_chars(copy_range(&pc, prefix.len(), pc.len()).as_slice())
    } else {
        from_chars(pc.as_slice())
    }
}

/// The distinct paths of `paths` in order of first appearance, each with the
/// positions that carry it.
pub open spec fn groups_upto(paths: Seq<Seq<char>>, k: int) -> Seq<(Seq<char>, Seq<int>)>
    decreases k,
{
    if k <= 0 {
        Seq::empty()
    } else {
        let g = groups_upto(paths, k - 1);
        let p = paths[k - 1];
        if exists|j: int| 0 <= j < g.len() && #[trigger] g[j].0 == p {
            let j = choose|j: int| 0 <= j < g.len() && #[trigger] g[j].0 == p;
            g.update(j, (p, g[j].1.push(k - 1)))
        } else {
            g.push((p, seq![k - 1]))
        }
    }
}

proof fn lemma_groups_distinct(paths: Seq<Seq<char>>, k: int)
    ensures
        forall|a: int, b: int| 0 <= a < b < groups_upto(paths, k).len() ==> groups_upto(paths, k)[a].0 != groups_upto(paths, k)[b].0,
    decreases k,
{
    if k > 0 {
        lemma_groups_distinct(paths, k - 1);
        let g = groups_upto(paths, k - 1);
        let p = paths[k - 1];
        let ng = groups_upto(paths, k);
        if exists|j: int| 0 <= j < g.len() && #[trigger] g[j].0 == p {
            let j = choose|j: int| 0 <= j < g.len() && #[trigger] g[j].0 == p;
            assert forall|a: int, b: int| 0 <= a < b < ng.len() implies ng[a].0 != ng[b].0 by {
                assert(ng[a].0 == g[a].0);
                assert(ng[b].0 == g[b].0);
            }
        } else {
            assert forall|a: int, b: int| 0 <= a < b < ng.len() implies ng[a].0 != ng[b].0 by {
                if b == g.len() {
                    assert(ng[a] == g[a]);
                } else {
                    assert(ng[a] == g[a] && ng[b] == g[b]);
                }
            }
        }
    }
}

/// Findings grouped by path: each path once, in order of first appearance,
/// with the positions of its findings.
pub fn group_by_path(paths: &Vec<String>) -> (r: Vec<(String, Vec<usize>)>)
    ensures
        r@.len() == groups_upto(paths@.map_values(|s: String| s@), paths@.len() as int).len(),
        forall|j: int| 0 <= j < r@.len() ==> (#[trigger] r@[j]).0@ == groups_upto(paths@.map_values(|s: String| s@), paths@.len() as int)[j].0
            && r@[j].1@.map_values(|x: usize| x as int) == groups_upto(paths@.map_values(|s: String| s@), paths@.len() as int)[j].1,
{
    let ghost pv = paths@.map_values(|s: String| s@);
    let mut out: Vec<(String, Vec<usize>)> = Vec::new();
    let mut k: usize = 0;
    while k < paths.len()
        invariant
            pv == paths@.map_values(|s: String| s@),
            k <= paths@.len(),
            out@.len() == groups_upto(pv, k as int).len(),
            forall|j: int| 0 <= j < out@.len() ==> (#[trigger] out@[j]).0@ == groups_upto(pv, k as int)[j].0
                && out@[j].1@.map_values(|x: usize| x as int) == groups_upto(pv, k as int)[j].1,
        decreases paths@.len() - k,
    {
        let ghost g = groups_upto(pv, k as int);
        proof {
            lemma_groups_distinct(pv, k as int);
        }
        let mut j: usize = 0;
        let mut hit = false;
        while j < out.len() && !hit
            invariant
                pv == paths@.map_values(|s: String| s@),
                k < paths@.len(),
                j <= out@.len(),
                out@.len() == g.len(),
                forall|i: int| 0 <= i < out@.len() ==> (#[trigger] out@[i]).0@ == g[i].0,
                !hit ==> forall|i: int| 0 <= i < j ==> g[i].0 != pv[k as int],
                hit ==> 0 < j && g[j - 1].0 == pv[k as int],
            decreases out@.len() - j + (if hit { 0int } else { 1int }),
        {
            proof {
                assert(pv[k as int] == paths@[k as int]@);
            }
            if str_eq(out[j].0.as_str(), paths[k].as_str()) {
                hit = true;
            }
            j += 1;
        }
        if hit {
            let at = j - 1;
            let ghost chosen = choose|i: int| 0 <= i < g.len() && #[trigger] g[i].0 == pv[k as int];
            proof {
                assert(g[at as int].0 == pv[k as int]);
                if chosen != at {
                    assert(g[chosen].0 != g[at as int].0);
                }
            }
            let mut entry: (String, Vec<usize>) = (String::new(), Vec::new());
            out.set_and_swap(at, &mut entry);
            entry.1.push(k);
            let ghost e1 = entry.1@;
            out.set_and_swap(at, &mut entry);
            proof {
                let ng = groups_upto(pv, k + 1);
                assert(ng == g.update(at as int, (pv[k as int], g[at as int].1.push(k as int))));
                assert forall|i: int| 0 <= i < out@.len() implies (#[trigger] out@[i]).0@ == ng[i].0
                    && out@[i].1@.map_values(|x: usize| x as int) == ng[i].1 by {
                    if i == at {
                        assert(out@[i].1@.map_values(|x: usize| x as int) =~= g[i].1.push(k as int));
                    }
                }
            }
        } else {
            let mut idx: Vec<usize> = Vec::new();
            idx.push(k);
            out.push((paths[k].clone(), idx));
            proof {
                let ng = groups_upto(pv, k + 1);
                assert(ng == g.push((pv[k as int], seq![k as int])));
                assert forall|i: int| 0 <= i < out@.len() implies (#[trigger] out@[i]).0@ == ng[i].0
                    && out@[i].1@.map_values(|x: usize| x as int) == ng[i].1 by {
                    if i == g.len() {
                        assert(out@[i].1@.map_values(|x: usize| x as int) =~= seq![k as int]);
                    }
                }
            }
        }
        k += 1;
    }
    out
}

} // verus!
