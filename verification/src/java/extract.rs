//! Per-function metrics of Java source: cyclomatic (McCabe, base 1) and
//! cognitive (SonarSource, base 0, nesting penalty) complexity, line count,
//! parameter count.
use vstd::prelude::*;
use crate::java::parse::{TreeModel, build_tree, java_parses, parse, syntax_of, tree_fits, Field, SyntaxTree};
use crate::text::{from_chars, to_chars};
use crate::java::tree_query::{kind_is, lemma_named_from_bounds, named_child_count, named_child_count_exec, sat, sat_add, sat_from_usize, field_of, text_of};

verus! {

#[derive(Debug)]
pub struct FunctionMetrics {
    pub name: String,
    pub line: u32,
    pub col: u32,
    pub cyclomatic: u16,
    pub cognitive: u16,
    pub line_count: u32,
    pub param_count: u8,
}

/// What a [`FunctionMetrics`] says, with the name as characters.
pub struct FunctionMetricsView {
    pub name: Seq<char>,
    pub line: u32,
    pub col: u32,
    pub cyclomatic: u16,
    pub cognitive: u16,
    pub line_count: u32,
    pub param_count: u8,
}

impl View for FunctionMetrics {
    type V = FunctionMetricsView;

    open spec fn view(&self) -> FunctionMetricsView {
        FunctionMetricsView {
            name: self.name@,
            line: self.line,
            col: self.col,
            cyclomatic: self.cyclomatic,
            cognitive: self.cognitive,
            line_count: self.line_count,
            param_count: self.param_count,
        }
    }
}

impl FunctionMetrics {
    pub fn duplicate(&self) -> (r: FunctionMetrics)
        ensures
            r@ == self@,
    {
        FunctionMetrics {
            name: self.name.clone(),
            line: self.line,
            col: self.col,
            cyclomatic: self.cyclomatic,
            cognitive: self.cognitive,
            line_count: self.line_count,
            param_count: self.param_count,
        }
    }
}

pub open spec fn seq_view<T: View>(s: Seq<T>) -> Seq<T::V> {
    s.map_values(|x: T| x@)
}

/// Node kinds that are functions of their own.
pub open spec fn is_function_kind(k: Seq<char>) -> bool {
    ||| k == "method_declaration"@
    ||| k == "constructor_declaration"@
    ||| k == "compact_constructor_declaration"@
    ||| k == "lambda_expression"@
}

pub fn is_function(t: &SyntaxTree, i: usize) -> (r: bool)
    requires
        i < t.nodes@.len(),
    ensures
        r == is_function_kind(t.kind(i as int)),
{
    kind_is(t, i, "method_declaration") || kind_is(t, i, "constructor_declaration") || kind_is(
        t,
        i,
        "compact_constructor_declaration",
    ) || kind_is(t, i, "lambda_expression")
}

// --- cyclomatic ------------------------------------------------------------

pub open spec fn is_branch_kind(k: Seq<char>) -> bool {
    ||| k == "if_statement"@
    ||| k == "for_statement"@
    ||| k == "enhanced_for_statement"@
    ||| k == "while_statement"@
    ||| k == "do_statement"@
    ||| k == "catch_clause"@
    ||| k == "ternary_expression"@
}

/// What one node adds to the cyclomatic count.
pub open spec fn cyclo_increment(t: TreeModel, c: int) -> int {
    let k = t.kind(c);
    if is_branch_kind(k) {
        1
    } else if k == "switch_label"@ {
        if named_child_count(t, c) > 0 {
            1
        } else {
            0
        }
    } else if k == "&&"@ || k == "||"@ {
        1
    } else {
        0
    }
}

/// Decision points below node `i`, from child `k` on, not entering nested
/// functions.
pub open spec fn walk_cyclo_from(t: TreeModel, i: int, k: int) -> int
    decreases t.len() - i, t.nchildren(i) - k,
{
    if !(0 <= i < t.len()) || k < 0 || k >= t.nchildren(i) {
        0
    } else {
        let c = t.child(i, k);
        (if c <= i || c >= t.len() || is_function_kind(t.kind(c)) {
            0
        } else {
            cyclo_increment(t, c) + walk_cyclo_from(t, c, 0)
        }) + walk_cyclo_from(t, i, k + 1)
    }
}

/// Cyclomatic complexity of function node `f`: 1 plus its decision points,
/// capped at `u16::MAX`.
pub open spec fn cyclomatic(t: TreeModel, f: int) -> int {
    let c = 1 + walk_cyclo_from(t, f, 0);
    if c > u16::MAX {
        u16::MAX as int
    } else {
        c
    }
}

/// Each decision point of a function adds exactly one to its cyclomatic
/// count: an `if`, every loop (`for`, for-each, `while`, `do`), a `catch`,
/// a conditional expression, a `&&` or `||`; a `case` label adds one when it
/// has a value (a `default` adds none); every other node adds nothing.
pub proof fn lemma_decision_points_add_one(t: TreeModel, c: int)
    ensures
        t.kind(c) == "if_statement"@ || t.kind(c) == "for_statement"@ || t.kind(c)
            == "enhanced_for_statement"@ || t.kind(c) == "while_statement"@ || t.kind(c)
            == "do_statement"@ || t.kind(c) == "catch_clause"@ || t.kind(c) == "ternary_expression"@
            || t.kind(c) == "&&"@ || t.kind(c) == "||"@ ==> cyclo_increment(t, c) == 1,
        t.kind(c) == "switch_label"@ ==> cyclo_increment(t, c) == if named_child_count(t, c) > 0 {
            1int
        } else {
            0int
        },
        !(t.kind(c) == "if_statement"@ || t.kind(c) == "for_statement"@ || t.kind(c)
            == "enhanced_for_statement"@ || t.kind(c) == "while_statement"@ || t.kind(c)
            == "do_statement"@ || t.kind(c) == "catch_clause"@ || t.kind(c) == "ternary_expression"@
            || t.kind(c) == "&&"@ || t.kind(c) == "||"@ || t.kind(c) == "switch_label"@) ==> cyclo_increment(
            t,
            c,
        ) == 0,
{
    reveal_strlit("if_statement");
    reveal_strlit("for_statement");
    reveal_strlit("enhanced_for_statement");
    reveal_strlit("while_statement");
    reveal_strlit("do_statement");
    reveal_strlit("catch_clause");
    reveal_strlit("ternary_expression");
    reveal_strlit("switch_label");
    reveal_strlit("&&");
    reveal_strlit("||");
    let k = t.kind(c);
    if k == "switch_label"@ {
        assert(k[0] == 's' && k.len() == 12);
    }
    if k == "&&"@ || k == "||"@ {
        assert(k.len() == 2);
    }
}

/// The count below node `i` from child `k` on takes in, for each later child
/// that is not a function of its own, that child's own increment and
/// everything below it.
pub proof fn lemma_child_counted(t: TreeModel, i: int, k: int, x: int)
    requires
        t.wf(),
        0 <= i < t.len(),
        0 <= k <= x < t.nchildren(i),
        !is_function_kind(t.kind(t.child(i, x))),
    ensures
        walk_cyclo_from(t, i, k) >= cyclo_increment(t, t.child(i, x)) + walk_cyclo_from(t, t.child(i, x), 0),
    decreases x - k,
{
    assert(t.node_wf(i));
    let c = t.child(i, k);
    lemma_walk_cyclo_nonneg(t, i, k + 1);
    lemma_walk_cyclo_nonneg(t, c, 0);
    if c < t.len() && t.kind(c) == "switch_label"@ {
        lemma_named_from_bounds(t, c, 0);
    }
    if k < x {
        lemma_child_counted(t, i, k + 1, x);
        if !(c <= i || c >= t.len() || is_function_kind(t.kind(c))) {
            assert(cyclo_increment(t, c) >= 0);
        }
    }
}

pub proof fn lemma_walk_cyclo_nonneg(t: TreeModel, i: int, k: int)
    ensures
        walk_cyclo_from(t, i, k) >= 0,
    decreases t.len() - i, t.nchildren(i) - k,
{
    if 0 <= i < t.len() && 0 <= k < t.nchildren(i) {
        let c = t.child(i, k);
        if !(c <= i || c >= t.len() || is_function_kind(t.kind(c))) {
            lemma_walk_cyclo_nonneg(t, c, 0);
            if t.kind(c) == "switch_label"@ {
                lemma_named_from_bounds(t, c, 0);
            }
        }
        lemma_walk_cyclo_nonneg(t, i, k + 1);
    }
}

fn cyclo_increment_exec(t: &SyntaxTree, c: usize) -> (r: u32)
    requires
        t.wf(),
        c < t.nodes@.len(),
    ensures
        r == cyclo_increment(t@, c as int),
{
    if kind_is(t, c, "if_statement") || kind_is(t, c, "for_statement") || kind_is(
        t,
        c,
        "enhanced_for_statement",
    ) || kind_is(t, c, "while_statement") || kind_is(t, c, "do_statement") || kind_is(
        t,
        c,
        "catch_clause",
    ) || kind_is(t, c, "ternary_expression") {
        1
    } else if kind_is(t, c, "switch_label") {
        if named_child_count_exec(t, c) > 0 {
            1
        } else {
            0
        }
    } else if kind_is(t, c, "&&") || kind_is(t, c, "||") {
        1
    } else {
        0
    }
}

fn walk_cyclo(t: &SyntaxTree, i: usize) -> (r: u32)
    requires
        t.wf(),
        i < t.nodes@.len(),
    ensures
        r == sat(walk_cyclo_from(t@, i as int, 0)),
    decreases t.len() - i,
{
    proof {
        assert(t.node_wf(i as int));
    }
    let n = t.nodes[i].child_count;
    let first = t.nodes[i].first_child;
    let total_len = t.nodes.len();
    let mut k: usize = 0;
    let mut acc: u32 = 0;
    let ghost mut total: int = 0;
    while k < n
        invariant
            t.wf(),
            i < t.nodes@.len(),
            t.node_wf(i as int),
            n == t.nchildren(i as int),
            first == t.nodes@[i as int].first_child,
            first + n <= total_len,
            total_len == t.nodes@.len(),
            k <= n,
            total >= 0,
            walk_cyclo_from(t@, i as int, 0) == total + walk_cyclo_from(t@, i as int, k as int),
            acc == sat(total),
        decreases n - k,
    {
        let c = first + k;
        let ghost part: int = if is_function_kind(t.kind(c as int)) {
            0
        } else {
            cyclo_increment(t@, c as int) + walk_cyclo_from(t@, c as int, 0)
        };
        proof {
            lemma_walk_cyclo_nonneg(t@, c as int, 0);
            lemma_named_from_bounds(t@, c as int, 0);
        }
        if !is_function(t, c) {
            let inc = cyclo_increment_exec(t, c);
            let sub = walk_cyclo(t, c);
            acc = sat_add(acc, sat_add(inc, sub));
        }
        proof {
            total = total + part;
        }
        k += 1;
    }
    acc
}

// --- cognitive -------------------------------------------------------------

pub open spec fn is_loop_kind(k: Seq<char>) -> bool {
    ||| k == "for_statement"@
    ||| k == "enhanced_for_statement"@
    ||| k == "while_statement"@
    ||| k == "do_statement"@
}

/// The first `&&` or `||` among the children of node `i`, from child `k` on.
pub open spec fn logical_from(t: TreeModel, i: int, k: int) -> Option<Seq<char>>
    decreases t.nchildren(i) - k,
{
    if !(0 <= i < t.len()) || k < 0 || k >= t.nchildren(i) {
        None
    } else {
        let c = t.child(i, k);
        if t.kind(c) == "&&"@ {
            Some("&&"@)
        } else if t.kind(c) == "||"@ {
            Some("||"@)
        } else {
            logical_from(t, i, k + 1)
        }
    }
}

pub open spec fn logical_op(t: TreeModel, i: int) -> Option<Seq<char>> {
    logical_from(t, i, 0)
}

/// The parent of `i` is a binary expression with the same logical operator.
pub open spec fn parent_is_same_logical(t: TreeModel, i: int, op: Seq<char>) -> bool {
    match t.nodes[i].parent {
        Some(p) => t.kind(p as int) == "binary_expression"@ && logical_op(t, p as int) == Some(
            op,
        ),
        None => false,
    }
}

/// Some named child of `i` is an identifier (a labelled break/continue).
pub open spec fn has_label(t: TreeModel, i: int) -> bool {
    exists|k: int|
        0 <= k < t.nchildren(i) && t.nodes[#[trigger] t.child(i, k)].named && t.kind(
            t.child(i, k),
        ) == "identifier"@
}

/// `visit_cog` over the children of `i` from child `k` on, at nesting `n`.
pub open spec fn cog_from(t: TreeModel, i: int, k: int, n: int) -> int
    decreases t.len() - i, 0int, t.nchildren(i) - k,
{
    if !(0 <= i < t.len()) || k < 0 || k >= t.nchildren(i) {
        0
    } else {
        let c = t.child(i, k);
        (if c <= i || c >= t.len() {
            0
        } else {
            cog_child(t, c, n)
        }) + cog_from(t, i, k + 1, n)
    }
}

/// `visit_cog` of node `d`'s children, when `d` is a child of `up`.
pub open spec fn cog_below(t: TreeModel, up: int, d: Option<usize>, n: int) -> int
    decreases t.len() - up, 0int, 0int,
{
    match d {
        Some(d) => if up < d < t.len() {
            cog_from(t, d as int, 0, n)
        } else {
            0
        },
        None => 0,
    }
}

/// What child `c` adds to the cognitive count at nesting `n`.
pub open spec fn cog_child(t: TreeModel, c: int, n: int) -> int
    decreases t.len() - c, 2int, 0int,
{
    let k = t.kind(c);
    if !(0 <= c < t.len()) {
        0
    } else if is_function_kind(k) {
        0
    } else if k == "if_statement"@ {
        1 + n + cog_below(t, c, t.field(c, Field::Condition), n) + cog_below(
            t,
            c,
            t.field(c, Field::Consequence),
            n + 1,
        ) + else_chain(t, c, n)
    } else if is_loop_kind(k) || k == "switch_expression"@ || k == "catch_clause"@ {
        1 + n + body_nested(t, c, 0, n)
    } else if k == "ternary_expression"@ {
        1 + n + cog_below(t, c, t.field(c, Field::Condition), n) + cog_below(
            t,
            c,
            t.field(c, Field::Consequence),
            n + 1,
        ) + cog_below(t, c, t.field(c, Field::Alternative), n + 1)
    } else if k == "break_statement"@ || k == "continue_statement"@ {
        if has_label(t, c) {
            1
        } else {
            0
        }
    } else if k == "binary_expression"@ {
        (match logical_op(t, c) {
            Some(op) => if parent_is_same_logical(t, c, op) {
                0int
            } else {
                1int
            },
            None => 0int,
        }) + cog_from(t, c, 0, n)
    } else {
        cog_from(t, c, 0, n)
    }
}

/// The `else` / `else if` chain after if-statement `cur`.
pub open spec fn else_chain(t: TreeModel, cur: int, n: int) -> int
    decreases t.len() - cur, 1int, 0int,
{
    match t.field(cur, Field::Alternative) {
        Some(a) => if !(cur < a < t.len()) {
            0
        } else if t.kind(a as int) == "if_statement"@ {
            1 + cog_below(t, a as int, t.field(a as int, Field::Condition), n) + cog_below(
                t,
                a as int,
                t.field(a as int, Field::Consequence),
                n + 1,
            ) + else_chain(t, a as int, n)
        } else {
            1 + cog_from(t, a as int, 0, n + 1)
        },
        None => 0,
    }
}

/// Children of `c` from child `k` on; the `body` field one level deeper.
pub open spec fn body_nested(t: TreeModel, c: int, k: int, n: int) -> int
    decreases t.len() - c, 1int, t.nchildren(c) - k,
{
    if !(0 <= c < t.len()) || k < 0 || k >= t.nchildren(c) {
        0
    } else {
        let d = t.child(c, k);
        (if d <= c || d >= t.len() {
            0
        } else {
            cog_from(
                t,
                d,
                0,
                if t.field(c, Field::Body) == Some(d as usize) {
                    n + 1
                } else {
                    n
                },
            )
        }) + body_nested(t, c, k + 1, n)
    }
}

/// Cognitive complexity of function node `f`, capped at `u16::MAX`.
pub open spec fn cognitive(t: TreeModel, f: int) -> int {
    let c = cog_from(t, f, 0, 0);
    if c > u16::MAX {
        u16::MAX as int
    } else {
        c
    }
}

pub proof fn lemma_cog_nonneg(t: TreeModel, i: int, k: int, n: int)
    requires
        n >= 0,
    ensures
        cog_from(t, i, k, n) >= 0,
    decreases t.len() - i, 0int, t.nchildren(i) - k,
{
    if 0 <= i < t.len() && 0 <= k < t.nchildren(i) {
        let c = t.child(i, k);
        if !(c <= i || c >= t.len()) {
            lemma_cog_child_nonneg(t, c, n);
        }
        lemma_cog_nonneg(t, i, k + 1, n);
    }
}

pub proof fn lemma_cog_below_nonneg(t: TreeModel, up: int, d: Option<usize>, n: int)
    requires
        n >= 0,
    ensures
        cog_below(t, up, d, n) >= 0,
    decreases t.len() - up, 0int, 0int,
{
    match d {
        Some(d) => if up < d < t.len() {
            lemma_cog_nonneg(t, d as int, 0, n);
        },
        None => {},
    }
}

pub proof fn lemma_cog_child_nonneg(t: TreeModel, c: int, n: int)
    requires
        n >= 0,
    ensures
        cog_child(t, c, n) >= 0,
    decreases t.len() - c, 2int, 0int,
{
    let k = t.kind(c);
    if !(0 <= c < t.len()) {
    } else if is_function_kind(k) {
    } else if k == "if_statement"@ {
        lemma_cog_below_nonneg(t, c, t.field(c, Field::Condition), n);
        lemma_cog_below_nonneg(t, c, t.field(c, Field::Consequence), n + 1);
        lemma_else_chain_nonneg(t, c, n);
    } else if is_loop_kind(k) || k == "switch_expression"@ || k == "catch_clause"@ {
        lemma_body_nested_nonneg(t, c, 0, n);
    } else if k == "ternary_expression"@ {
        lemma_cog_below_nonneg(t, c, t.field(c, Field::Condition), n);
        lemma_cog_below_nonneg(t, c, t.field(c, Field::Consequence), n + 1);
        lemma_cog_below_nonneg(t, c, t.field(c, Field::Alternative), n + 1);
    } else if k == "break_statement"@ || k == "continue_statement"@ {
    } else {
        lemma_cog_nonneg(t, c, 0, n);
    }
}

pub proof fn lemma_else_chain_nonneg(t: TreeModel, cur: int, n: int)
    requires
        n >= 0,
    ensures
        else_chain(t, cur, n) >= 0,
    decreases t.len() - cur, 1int, 0int,
{
    match t.field(cur, Field::Alternative) {
        Some(a) => if cur < a < t.len() {
            if t.kind(a as int) == "if_statement"@ {
                lemma_cog_below_nonneg(t, a as int, t.field(a as int, Field::Condition), n);
                lemma_cog_below_nonneg(t, a as int, t.field(a as int, Field::Consequence), n + 1);
                lemma_else_chain_nonneg(t, a as int, n);
            } else {
                lemma_cog_nonneg(t, a as int, 0, n + 1);
            }
        },
        None => {},
    }
}

pub proof fn lemma_body_nested_nonneg(t: TreeModel, c: int, k: int, n: int)
    requires
        n >= 0,
    ensures
        body_nested(t, c, k, n) >= 0,
    decreases t.len() - c, 1int, t.nchildren(c) - k,
{
    if 0 <= c < t.len() && 0 <= k < t.nchildren(c) {
        let d = t.child(c, k);
        if !(d <= c || d >= t.len()) {
            lemma_cog_nonneg(t, d, 0, if t.field(c, Field::Body) == Some(d as usize) {
                n + 1
            } else {
                n
            });
        }
        lemma_body_nested_nonneg(t, c, k + 1, n);
    }
}

fn logical_op_exec(t: &SyntaxTree, i: usize) -> (r: Option<&'static str>)
    requires
        t.wf(),
        i < t.nodes@.len(),
    ensures
        match r {
            Some(s) => logical_op(t@, i as int) == Some(s@),
            None => logical_op(t@, i as int) is None,
        },
{
    proof {
        assert(t.node_wf(i as int));
    }
    let n = t.nodes[i].child_count;
    let first = t.nodes[i].first_child;
    let total_len = t.nodes.len();
    let mut k: usize = 0;
    while k < n
        invariant
            t.wf(),
            i < t.nodes@.len(),
            t.node_wf(i as int),
            n == t.nchildren(i as int),
            first == t.nodes@[i as int].first_child,
            first + n <= total_len,
            total_len == t.nodes@.len(),
            k <= n,
            logical_op(t@, i as int) == logical_from(t@, i as int, k as int),
        decreases n - k,
    {
        if kind_is(t, first + k, "&&") {
            return Some("&&");
        }
        if kind_is(t, first + k, "||") {
            return Some("||");
        }
        k += 1;
    }
    None
}

fn parent_is_same_logical_exec(t: &SyntaxTree, i: usize, op: &str) -> (r: bool)
    requires
        t.wf(),
        i < t.nodes@.len(),
    ensures
        r == parent_is_same_logical(t@, i as int, op@),
{
    match t.nodes[i].parent {
        Some(p) => {
            proof {
                assert(t.node_wf(i as int));
            }
            if !kind_is(t, p, "binary_expression") {
                return false;
            }
            match logical_op_exec(t, p) {
                Some(q) => crate::text::str_eq(q, op),
                None => false,
            }
        },
        None => false,
    }
}

fn has_label_exec(t: &SyntaxTree, i: usize) -> (r: bool)
    requires
        t.wf(),
        i < t.nodes@.len(),
    ensures
        r == has_label(t@, i as int),
{
    proof {
        assert(t.node_wf(i as int));
    }
    let n = t.nodes[i].child_count;
    let first = t.nodes[i].first_child;
    let total_len = t.nodes.len();
    let mut k: usize = 0;
    while k < n
        invariant
            t.wf(),
            i < t.nodes@.len(),
            t.node_wf(i as int),
            n == t.nchildren(i as int),
            first == t.nodes@[i as int].first_child,
            first + n <= total_len,
            total_len == t.nodes@.len(),
            k <= n,
            forall|j: int|
                0 <= j < k ==> !(t.nodes@[#[trigger] t.child(i as int, j)].named && t.kind(
                    t.child(i as int, j),
                ) == "identifier"@),
        decreases n - k,
    {
        if t.nodes[first + k].named && kind_is(t, first + k, "identifier") {
            assert(t.child(i as int, k as int) == first + k);
            return true;
        }
        k += 1;
    }
    false
}

proof fn lemma_sat_add(a: int, b: int)
    requires
        a >= 0,
        b >= 0,
    ensures
        sat(sat(a) + sat(b)) == sat(a + b),
{
}

fn cog_from_exec(t: &SyntaxTree, i: usize, n: usize) -> (r: u32)
    requires
        t.wf(),
        i < t.nodes@.len(),
        n <= i,
    ensures
        r == sat(cog_from(t@, i as int, 0, n as int)),
    decreases t.len() - i, 0int,
{
    proof {
        assert(t.node_wf(i as int));
    }
    let cnt = t.nodes[i].child_count;
    let first = t.nodes[i].first_child;
    let total_len = t.nodes.len();
    let mut k: usize = 0;
    let mut acc: u32 = 0;
    let ghost mut total: int = 0;
    while k < cnt
        invariant
            t.wf(),
            i < t.nodes@.len(),
            n <= i,
            t.node_wf(i as int),
            cnt == t.nchildren(i as int),
            first == t.nodes@[i as int].first_child,
            first + cnt <= total_len,
            total_len == t.nodes@.len(),
            k <= cnt,
            total >= 0,
            cog_from(t@, i as int, 0, n as int) == total + cog_from(t@, i as int, k as int, n as int),
            acc == sat(total),
        decreases cnt - k,
    {
        let c = first + k;
        proof {
            lemma_cog_child_nonneg(t@, c as int, n as int);
            lemma_sat_add(total, cog_child(t@, c as int, n as int));
        }
        let part = cog_child_exec(t, c, n);
        acc = sat_add(acc, part);
        proof {
            total = total + cog_child(t@, c as int, n as int);
        }
        k += 1;
    }
    acc
}

fn cog_below_exec(t: &SyntaxTree, up: usize, d: Option<usize>, n: usize) -> (r: u32)
    requires
        t.wf(),
        up < t.nodes@.len(),
        n <= up + 1,
    ensures
        r == sat(cog_below(t@, up as int, d, n as int)),
    decreases t.len() - up, 0int,
{
    match d {
        Some(d) => {
            if up < d && d < t.nodes.len() {
                cog_from_exec(t, d, n)
            } else {
                0
            }
        },
        None => 0,
    }
}

fn cog_child_exec(t: &SyntaxTree, c: usize, n: usize) -> (r: u32)
    requires
        t.wf(),
        c < t.nodes@.len(),
        n < c,
    ensures
        r == sat(cog_child(t@, c as int, n as int)),
    decreases t.len() - c, 2int,
{
    let one_n = sat_add(1, sat_from_usize(n));
    if is_function(t, c) {
        0
    } else if kind_is(t, c, "if_statement") {
        let cond = cog_below_exec(t, c, field_of(t, c, Field::Condition), n);
        let cons = cog_below_exec(t, c, field_of(t, c, Field::Consequence), n + 1);
        let rest = else_chain_exec(t, c, n);
        proof {
            lemma_cog_below_nonneg(t@, c as int, t.field(c as int, Field::Condition), n as int);
            lemma_cog_below_nonneg(t@, c as int, t.field(c as int, Field::Consequence), n + 1);
            lemma_else_chain_nonneg(t@, c as int, n as int);
        }
        sat_add(sat_add(sat_add(one_n, cond), cons), rest)
    } else if kind_is(t, c, "for_statement") || kind_is(t, c, "enhanced_for_statement")
        || kind_is(t, c, "while_statement") || kind_is(t, c, "do_statement") || kind_is(
        t,
        c,
        "switch_expression",
    ) || kind_is(t, c, "catch_clause") {
        let body = body_nested_exec(t, c, n);
        proof {
            lemma_body_nested_nonneg(t@, c as int, 0, n as int);
        }
        sat_add(one_n, body)
    } else if kind_is(t, c, "ternary_expression") {
        let cond = cog_below_exec(t, c, field_of(t, c, Field::Condition), n);
        let cons = cog_below_exec(t, c, field_of(t, c, Field::Consequence), n + 1);
        let alt = cog_below_exec(t, c, field_of(t, c, Field::Alternative), n + 1);
        proof {
            lemma_cog_below_nonneg(t@, c as int, t.field(c as int, Field::Condition), n as int);
            lemma_cog_below_nonneg(t@, c as int, t.field(c as int, Field::Consequence), n + 1);
            lemma_cog_below_nonneg(t@, c as int, t.field(c as int, Field::Alternative), n + 1);
        }
        sat_add(sat_add(sat_add(one_n, cond), cons), alt)
    } else if kind_is(t, c, "break_statement") || kind_is(t, c, "continue_statement") {
        if has_label_exec(t, c) {
            1
        } else {
            0
        }
    } else if kind_is(t, c, "binary_expression") {
        let own: u32 = match logical_op_exec(t, c) {
            Some(op) => if parent_is_same_logical_exec(t, c, op) {
                0
            } else {
                1
            },
            None => 0,
        };
        let below = cog_from_exec(t, c, n);
        proof {
            lemma_cog_nonneg(t@, c as int, 0, n as int);
        }
        sat_add(own, below)
    } else {
        cog_from_exec(t, c, n)
    }
}

fn else_chain_exec(t: &SyntaxTree, cur: usize, n: usize) -> (r: u32)
    requires
        t.wf(),
        cur < t.nodes@.len(),
        n <= cur,
    ensures
        r == sat(else_chain(t@, cur as int, n as int)),
    decreases t.len() - cur, 1int,
{
    match field_of(t, cur, Field::Alternative) {
        Some(a) => {
            if kind_is(t, a, "if_statement") {
                let cond = cog_below_exec(t, a, field_of(t, a, Field::Condition), n);
                let cons = cog_below_exec(t, a, field_of(t, a, Field::Consequence), n + 1);
                let rest = else_chain_exec(t, a, n);
                proof {
                    lemma_cog_below_nonneg(t@, a as int, t.field(a as int, Field::Condition), n as int);
                    lemma_cog_below_nonneg(t@, a as int, t.field(a as int, Field::Consequence), n + 1);
                    lemma_else_chain_nonneg(t@, a as int, n as int);
                }
                sat_add(sat_add(sat_add(1, cond), cons), rest)
            } else {
                let below = cog_from_exec(t, a, n + 1);
                proof {
                    lemma_cog_nonneg(t@, a as int, 0, n + 1);
                }
                sat_add(1, below)
            }
        },
        None => 0,
    }
}

fn body_nested_exec(t: &SyntaxTree, c: usize, n: usize) -> (r: u32)
    requires
        t.wf(),
        c < t.nodes@.len(),
        n < c,
    ensures
        r == sat(body_nested(t@, c as int, 0, n as int)),
    decreases t.len() - c, 1int,
{
    proof {
        assert(t.node_wf(c as int));
    }
    let cnt = t.nodes[c].child_count;
    let first = t.nodes[c].first_child;
    let total_len = t.nodes.len();
    let body = field_of(t, c, Field::Body);
    let mut k: usize = 0;
    let mut acc: u32 = 0;
    let ghost mut total: int = 0;
    while k < cnt
        invariant
            t.wf(),
            c < t.nodes@.len(),
            n < c,
            t.node_wf(c as int),
            cnt == t.nchildren(c as int),
            first == t.nodes@[c as int].first_child,
            first + cnt <= total_len,
            total_len == t.nodes@.len(),
            body == t.field(c as int, Field::Body),
            k <= cnt,
            total >= 0,
            body_nested(t@, c as int, 0, n as int) == total + body_nested(t@, c as int, k as int, n as int),
            acc == sat(total),
        decreases cnt - k,
    {
        let d = first + k;
        let inner = if body == Some(d) {
            n + 1
        } else {
            n
        };
        proof {
            lemma_cog_nonneg(t@, d as int, 0, inner as int);
            lemma_sat_add(total, cog_from(t@, d as int, 0, inner as int));
        }
        let part = cog_from_exec(t, d, inner);
        acc = sat_add(acc, part);
        proof {
            total = total + cog_from(t@, d as int, 0, inner as int);
        }
        k += 1;
    }
    acc
}

// --- name, parameters, whole functions ------------------------------------

/// Named children of `p` from child `k` on that are formal or spread parameters.
pub open spec fn formal_from(t: TreeModel, p: int, k: int) -> int
    decreases t.nchildren(p) - k,
{
    if !(0 <= p < t.len()) || k < 0 || k >= t.nchildren(p) {
        0
    } else {
        let c = t.child(p, k);
        (if t.nodes[c].named && (t.kind(c) == "formal_parameter"@ || t.kind(c)
            == "spread_parameter"@) {
            1int
        } else {
            0int
        }) + formal_from(t, p, k + 1)
    }
}

pub open spec fn cap_u8(x: int) -> int {
    if x > u8::MAX {
        u8::MAX as int
    } else {
        x
    }
}

/// Parameter count of function node `f`, capped at `u8::MAX`.
pub open spec fn param_count(t: TreeModel, f: int) -> int {
    match t.field(f, Field::Parameters) {
        None => 0,
        Some(p) => {
            let pk = t.kind(p as int);
            if pk == "formal_parameters"@ {
                cap_u8(formal_from(t, p as int, 0))
            } else if pk == "inferred_parameters"@ {
                cap_u8(named_child_count(t, p as int))
            } else if pk == "identifier"@ {
                1
            } else {
                0
            }
        },
    }
}

/// Name of function node `f`: `<lambda>` for lambdas, `<anonymous>` when it
/// has no readable name.
pub open spec fn function_name(t: TreeModel, f: int) -> Seq<char> {
    if t.kind(f) == "lambda_expression"@ {
        "<lambda>"@
    } else {
        match t.field(f, Field::Name) {
            Some(n) => match t.text(n as int) {
                Some(s) => s,
                None => "<anonymous>"@,
            },
            None => "<anonymous>"@,
        }
    }
}

pub open spec fn metrics(t: TreeModel, f: int) -> FunctionMetricsView {
    let n = t.nodes[f];
    FunctionMetricsView {
        name: function_name(t, f),
        line: (n.start_row + 1) as u32,
        col: n.start_col,
        cyclomatic: cyclomatic(t, f) as u16,
        cognitive: cognitive(t, f) as u16,
        line_count: (n.end_row - n.start_row + 1) as u32,
        param_count: param_count(t, f) as u8,
    }
}

/// Functions at or below node `i`, in pre-order.
pub open spec fn functions_at(t: TreeModel, i: int) -> Seq<FunctionMetricsView>
    decreases t.len() - i, 1int, 0int,
{
    if !(0 <= i < t.len()) {
        Seq::empty()
    } else {
        (if is_function_kind(t.kind(i)) {
            seq![metrics(t, i)]
        } else {
            Seq::empty()
        }) + functions_below(t, i, 0)
    }
}

/// Functions below the children of `i` from child `k` on.
pub open spec fn functions_below(t: TreeModel, i: int, k: int) -> Seq<FunctionMetricsView>
    decreases t.len() - i, 0int, t.nchildren(i) - k,
{
    if !(0 <= i < t.len()) || k < 0 || k >= t.nchildren(i) {
        Seq::empty()
    } else {
        let c = t.child(i, k);
        (if c <= i || c >= t.len() {
            Seq::empty()
        } else {
            functions_at(t, c)
        }) + functions_below(t, i, k + 1)
    }
}

/// All functions of a tree, in pre-order.
pub open spec fn functions_of(t: TreeModel) -> Seq<FunctionMetricsView> {
    functions_at(t, 0)
}

fn param_count_exec(t: &SyntaxTree, f: usize) -> (r: u8)
    requires
        t.wf(),
        f < t.nodes@.len(),
    ensures
        r == param_count(t@, f as int),
{
    match field_of(t, f, Field::Parameters) {
        None => 0,
        Some(p) => {
            if kind_is(t, p, "formal_parameters") {
                proof {
                    assert(t.node_wf(p as int));
                }
                let cnt = t.nodes[p].child_count;
                let first = t.nodes[p].first_child;
                let total_len = t.nodes.len();
                let mut k = cnt;
                let mut acc: usize = 0;
                while k > 0
                    invariant
                        t.wf(),
                        p < t.nodes@.len(),
                        cnt == t.nchildren(p as int),
                        first == t.nodes@[p as int].first_child,
                        first + cnt <= total_len,
                        total_len == t.nodes@.len(),
                        k <= cnt,
                        acc == formal_from(t@, p as int, k as int),
                        acc <= cnt - k,
                    decreases k,
                {
                    k -= 1;
                    if t.nodes[first + k].named && (kind_is(t, first + k, "formal_parameter")
                        || kind_is(t, first + k, "spread_parameter")) {
                        acc += 1;
                    }
                }
                if acc > 255 {
                    255
                } else {
                    acc as u8
                }
            } else if kind_is(t, p, "inferred_parameters") {
                let c = named_child_count_exec(t, p);
                if c > 255 {
                    255
                } else {
                    c as u8
                }
            } else if kind_is(t, p, "identifier") {
                1
            } else {
                0
            }
        },
    }
}

fn function_name_exec(t: &SyntaxTree, f: usize) -> (r: String)
    requires
        t.wf(),
        f < t.nodes@.len(),
    ensures
        r@ == function_name(t@, f as int),
{
    if kind_is(t, f, "lambda_expression") {
        return from_chars(to_chars("<lambda>").as_slice());
    }
    match field_of(t, f, Field::Name) {
        Some(n) => match text_of(t, n) {
            Some(v) => from_chars(v.as_slice()),
            None => from_chars(to_chars("<anonymous>").as_slice()),
        },
        None => from_chars(to_chars("<anonymous>").as_slice()),
    }
}

fn metrics_of(t: &SyntaxTree, f: usize) -> (r: FunctionMetrics)
    requires
        t.wf(),
        f < t.nodes@.len(),
    ensures
        r@ == metrics(t@, f as int),
{
    proof {
        assert(t.node_wf(f as int));
        lemma_walk_cyclo_nonneg(t@, f as int, 0);
        lemma_cog_nonneg(t@, f as int, 0, 0);
    }
    let name = function_name_exec(t, f);
    let w = walk_cyclo(t, f);
    let c1 = sat_add(1, w);
    let cyclomatic: u16 = if c1 > 65535 {
        65535
    } else {
        c1 as u16
    };
    let cg = cog_from_exec(t, f, 0);
    let cognitive: u16 = if cg > 65535 {
        65535
    } else {
        cg as u16
    };
    let node = &t.nodes[f];
    FunctionMetrics {
        name,
        line: node.start_row + 1,
        col: node.start_col,
        cyclomatic,
        cognitive,
        line_count: node.end_row - node.start_row + 1,
        param_count: param_count_exec(t, f),
    }
}

fn collect_functions(t: &SyntaxTree, i: usize, out: &mut Vec<FunctionMetrics>)
    requires
        t.wf(),
        i < t.nodes@.len(),
    ensures
        seq_view(final(out)@) == seq_view(old(out)@) + functions_at(t@, i as int),
    decreases t.len() - i,
{
    let ghost start = seq_view(out@);
    if is_function(t, i) {
        let m = metrics_of(t, i);
        out.push(m);
    }
    assert(seq_view(out@) == start + (if is_function_kind(t.kind(i as int)) {
        seq![metrics(t@, i as int)]
    } else {
        Seq::empty()
    }));
    let ghost mid = seq_view(out@);
    proof {
        assert(t.node_wf(i as int));
    }
    let cnt = t.nodes[i].child_count;
    let first = t.nodes[i].first_child;
    let total_len = t.nodes.len();
    let mut k: usize = 0;
    while k < cnt
        invariant
            t.wf(),
            i < t.nodes@.len(),
            t.node_wf(i as int),
            cnt == t.nchildren(i as int),
            first == t.nodes@[i as int].first_child,
            first + cnt <= total_len,
            total_len == t.nodes@.len(),
            k <= cnt,
            mid + functions_below(t@, i as int, 0) == seq_view(out@) + functions_below(
                t@,
                i as int,
                k as int,
            ),
        decreases cnt - k,
    {
        let ghost before = seq_view(out@);
        collect_functions(t, first + k, out);
        proof {
            assert(functions_below(t@, i as int, k as int) == functions_at(t@, (first + k) as int)
                + functions_below(t@, i as int, k + 1));
            assert(before + functions_below(t@, i as int, k as int) =~= seq_view(out@)
                + functions_below(t@, i as int, k + 1));
        }
        k += 1;
    }
    proof {
        assert(seq_view(out@) + functions_below(t@, i as int, cnt as int) =~= seq_view(out@));
        assert(functions_at(t@, i as int) == (if is_function_kind(t.kind(i as int)) {
            seq![metrics(t@, i as int)]
        } else {
            Seq::empty()
        }) + functions_below(t@, i as int, 0));
        assert(seq_view(out@) =~= start + functions_at(t@, i as int));
    }
}

/// The functions of a syntax tree, in pre-order.
pub fn functions_in(t: &SyntaxTree) -> (r: Vec<FunctionMetrics>)
    requires
        t.wf(),
    ensures
        seq_view(r@) == functions_of(t@),
{
    let mut out: Vec<FunctionMetrics> = Vec::new();
    collect_functions(t, 0, &mut out);
    assert(seq_view(Seq::<FunctionMetrics>::empty()) =~= Seq::<FunctionMetricsView>::empty());
    out
}

/// The functions in Java source, in pre-order: those of its syntax tree;
/// empty when tree-sitter does not parse it (or its tree does not fit a
/// [`SyntaxTree`]).
pub fn extract_functions(source: &str) -> (r: Vec<FunctionMetrics>)
    ensures
        seq_view(r@) == if java_parses(source@) && tree_fits(source@) {
            functions_of(syntax_of(source@))
        } else {
            Seq::empty()
        },
{
    match parse(source) {
        Some(tree) => match build_tree(source, &tree) {
            Some(t) => functions_in(&t),
            None => {
                let v: Vec<FunctionMetrics> = Vec::new();
                assert(seq_view(v@) =~= Seq::<FunctionMetricsView>::empty());
                v
            },
        },
        None => {
            let v: Vec<FunctionMetrics> = Vec::new();
            assert(seq_view(v@) =~= Seq::<FunctionMetricsView>::empty());
            v
        },
    }
}

} // verus!
