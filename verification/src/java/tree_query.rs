//! Small queries on a [`SyntaxTree`] shared by the Java analyses.
use vstd::prelude::*;
use crate::java::parse::{TreeModel, Field, SyntaxTree};
use crate::text::{copy_range, str_eq};

verus! {

/// Saturating `u32` bound used by the counters.
pub open spec fn sat(x: int) -> int {
    if x > u32::MAX {
        u32::MAX as int
    } else {
        x
    }
}

pub fn sat_add(a: u32, b: u32) -> (r: u32)
    ensures
        r == sat(a + b),
{
    if a > u32::MAX - b {
        u32::MAX
    } else {
        a + b
    }
}

pub fn sat_from_usize(a: usize) -> (r: u32)
    ensures
        r == sat(a as int),
{
    if a > u32::MAX as usize {
        u32::MAX
    } else {
        a as u32
    }
}

/// Does node `i` have kind `lit`?
pub fn kind_is(t: &SyntaxTree, i: usize, lit: &str) -> (r: bool)
    requires
        i < t.nodes@.len(),
    ensures
        r == (t.kind(i as int) == lit@),
{
    str_eq(t.nodes[i].kind.as_str(), lit)
}

/// Number of named children of node `i` from child `k` on.
pub open spec fn named_from(t: TreeModel, i: int, k: int) -> int
    decreases t.nchildren(i) - k,
{
    if !(0 <= i < t.len()) || k < 0 || k >= t.nchildren(i) {
        0
    } else {
        (if t.nodes[t.child(i, k)].named {
            1int
        } else {
            0int
        }) + named_from(t, i, k + 1)
    }
}

/// `Node::named_child_count`.
pub open spec fn named_child_count(t: TreeModel, i: int) -> int {
    named_from(t, i, 0)
}

pub proof fn lemma_named_from_bounds(t: TreeModel, i: int, k: int)
    requires
        0 <= i < t.len(),
        0 <= k <= t.nchildren(i),
    ensures
        0 <= named_from(t, i, k) <= t.nchildren(i) - k,
    decreases t.nchildren(i) - k,
{
    if k < t.nchildren(i) {
        lemma_named_from_bounds(t, i, k + 1);
    }
}

pub fn named_child_count_exec(t: &SyntaxTree, i: usize) -> (r: usize)
    requires
        t.wf(),
        i < t.nodes@.len(),
    ensures
        r == named_child_count(t@, i as int),
{
    let n = t.nodes[i].child_count;
    let first = t.nodes[i].first_child;
    let total_len = t.nodes.len();
    let mut k = n;
    let mut acc: usize = 0;
    proof {
        assert(t.node_wf(i as int));
    }
    while k > 0
        invariant
            t.wf(),
            i < t.nodes@.len(),
            n == t.nchildren(i as int),
            first == t.nodes@[i as int].first_child,
            first + n <= total_len,
            total_len == t.nodes@.len(),
            k <= n,
            acc == named_from(t@, i as int, k as int),
            acc <= n - k,
        decreases k,
    {
        k -= 1;
        if t.nodes[first + k].named {
            acc += 1;
        }
    }
    acc
}

/// Field `f` of node `i`, as the index of the child it names.
pub fn field_of(t: &SyntaxTree, i: usize, f: Field) -> (r: Option<usize>)
    requires
        t.wf(),
        i < t.nodes@.len(),
    ensures
        r == t.field(i as int, f),
        r matches Some(c) ==> i < c < t.nodes@.len(),
{
    proof {
        assert(t.node_wf(i as int));
    }
    t.nodes[i].get_field(f)
}

/// Text of node `i`.
pub fn text_of(t: &SyntaxTree, i: usize) -> (r: Option<Vec<char>>)
    requires
        t.wf(),
        i < t.nodes@.len(),
    ensures
        r is Some <==> t.text(i as int) is Some,
        r matches Some(v) ==> t.text(i as int) == Some(v@),
{
    proof {
        assert(t.node_wf(i as int));
    }
    if t.nodes[i].has_text {
        Some(copy_range(&t.source, t.nodes[i].text_start, t.nodes[i].text_end))
    } else {
        None
    }
}

/// Does the text of node `i` equal `lit`?
pub fn text_is(t: &SyntaxTree, i: usize, lit: &Vec<char>) -> (r: bool)
    requires
        t.wf(),
        i < t.nodes@.len(),
    ensures
        r == (t.text(i as int) == Some(lit@)),
{
    proof {
        assert(t.node_wf(i as int));
    }
    if !t.nodes[i].has_text {
        return false;
    }
    let a = t.nodes[i].text_start;
    let b = t.nodes[i].text_end;
    if b - a != lit.len() {
        assert(t.source@.subrange(a as int, b as int).len() == b - a);
        return false;
    }
    let mut k: usize = 0;
    while k < lit.len()
        invariant
            t.wf(),
            a <= b <= t.source@.len(),
            i < t.nodes@.len(),
            t.nodes@[i as int].has_text,
            a == t.nodes@[i as int].text_start,
            b == t.nodes@[i as int].text_end,
            b - a == lit.len(),
            k <= lit.len(),
            forall|j: int| 0 <= j < k ==> t.source@[a + j] == lit@[j],
        decreases lit.len() - k,
    {
        if t.source[a + k] != lit[k] {
            assert(t.source@.subrange(a as int, b as int)[k as int] != lit@[k as int]);
            return false;
        }
        k += 1;
    }
    assert(t.source@.subrange(a as int, b as int) =~= lit@);
    true
}

} // verus!
