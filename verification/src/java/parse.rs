//! A plain-value syntax tree for Java source, filled from tree-sitter.
//!
//! What tree-sitter reports of each node is named ([`ts_kind`] and its
//! siblings, keyed by the node's path of child indexes); [`build_tree`] is
//! proved to yield [`syntax_of`] the source, the one breadth-first tree that
//! holds those reports. Every analysis of the tree works on its
//! [`TreeModel`].
use vstd::prelude::*;
use crate::text::to_chars;

verus! {

#[verifier::external_type_specification]
#[verifier::external_body]
pub struct ExTree(tree_sitter::Tree);

#[verifier::external_type_specification]
#[verifier::external_body]
pub struct ExNode<'a>(tree_sitter::Node<'a>);

/// Whether tree-sitter, with the Java grammar loaded, returns a tree for
/// `source`.
pub uninterp spec fn java_parses(source: Seq<char>) -> bool;

/// `Node::kind` of the node at `path` (child indexes from the root) in the
/// tree of `source`.
pub uninterp spec fn ts_kind(source: Seq<char>, path: Seq<u32>) -> Seq<char>;

/// `Node::is_named` of the node at `path`.
pub uninterp spec fn ts_named(source: Seq<char>, path: Seq<u32>) -> bool;

/// `Node::start_byte` of the node at `path`.
pub uninterp spec fn ts_start_byte(source: Seq<char>, path: Seq<u32>) -> usize;

/// `Node::end_byte` of the node at `path`.
pub uninterp spec fn ts_end_byte(source: Seq<char>, path: Seq<u32>) -> usize;

/// `Node::start_position` of the node at `path`, as (row, column).
pub uninterp spec fn ts_start_point(source: Seq<char>, path: Seq<u32>) -> (usize, usize);

/// `Node::end_position().row` of the node at `path`.
pub uninterp spec fn ts_end_row(source: Seq<char>, path: Seq<u32>) -> usize;

/// `Node::child_count` of the node at `path`.
pub uninterp spec fn ts_child_count(source: Seq<char>, path: Seq<u32>) -> u32;

/// The index among its siblings of the child that
/// `Node::child_by_field_name(field)` returns for the node at `path`.
pub uninterp spec fn ts_field_child(source: Seq<char>, path: Seq<u32>, field: Seq<char>) -> Option<
    u32,
>;

/// A tree-sitter tree and the source it was parsed from.
pub struct TsTree {
    tree: tree_sitter::Tree,
    src: Ghost<Seq<char>>,
}

impl TsTree {
    /// The source the tree was parsed from.
    pub closed spec fn source(&self) -> Seq<char> {
        self.src@
    }
}

/// A node of a [`TsTree`], with its position: the child indexes that lead
/// to it from the root. Only the functions of this module make one.
pub struct TsNode<'a> {
    node: tree_sitter::Node<'a>,
    pub tree: &'a TsTree,
    pub path: Ghost<Seq<u32>>,
}

/// Parses Java source with tree-sitter (`Parser::new`, `Parser::set_language`
/// with `tree_sitter_java::LANGUAGE`, then `Parser::parse`). Claims that a
/// tree comes back exactly when [`java_parses`] holds of the source, and
/// records the source beside it.
#[verifier::external_body]
pub fn parse(source: &str) -> (r: Option<TsTree>)
    ensures
        r is Some <==> java_parses(source@),
        r matches Some(t) ==> t.source() == source@,
{
    let mut parser = tree_sitter::Parser::new();
    parser.set_language(&tree_sitter_java::LANGUAGE.into()).ok()?;
    match parser.parse(source, None) {
        Some(tree) => Some(TsTree { tree, src: Ghost(source@) }),
        None => None,
    }
}

/// `Tree::root_node`: the node at the empty path.
#[verifier::external_body]
fn root_node<'a>(t: &'a TsTree) -> (r: TsNode<'a>)
    ensures
        r.tree == t,
        r.path@ == Seq::<u32>::empty(),
{
    TsNode { node: t.tree.root_node(), tree: t, path: Ghost(Seq::empty()) }
}

/// `Node::kind`, copied into a `String`: [`ts_kind`] at the node's path.
#[verifier::external_body]
fn node_kind(n: &TsNode) -> (r: String)
    ensures
        r@ == ts_kind(n.tree.src@, n.path@),
{
    n.node.kind().to_string()
}

/// `Node::is_named`: [`ts_named`] at the node's path.
#[verifier::external_body]
fn node_is_named(n: &TsNode) -> (r: bool)
    ensures
        r == ts_named(n.tree.src@, n.path@),
{
    n.node.is_named()
}

/// `Node::start_byte`: [`ts_start_byte`] at the node's path.
#[verifier::external_body]
fn node_start_byte(n: &TsNode) -> (r: usize)
    ensures
        r == ts_start_byte(n.tree.src@, n.path@),
{
    n.node.start_byte()
}

/// `Node::end_byte`: [`ts_end_byte`] at the node's path.
#[verifier::external_body]
fn node_end_byte(n: &TsNode) -> (r: usize)
    ensures
        r == ts_end_byte(n.tree.src@, n.path@),
{
    n.node.end_byte()
}

/// `Node::start_position`, as (row, column): [`ts_start_point`] at the
/// node's path.
#[verifier::external_body]
fn node_start_point(n: &TsNode) -> (r: (usize, usize))
    ensures
        r == ts_start_point(n.tree.src@, n.path@),
{
    let p = n.node.start_position();
    (p.row, p.column)
}

/// `Node::end_position().row`: [`ts_end_row`] at the node's path.
#[verifier::external_body]
fn node_end_row(n: &TsNode) -> (r: usize)
    ensures
        r == ts_end_row(n.tree.src@, n.path@),
{
    n.node.end_position().row
}

/// `Node::child_count`: [`ts_child_count`] at the node's path.
#[verifier::external_body]
fn node_child_count(n: &TsNode) -> (r: u32)
    ensures
        r == ts_child_count(n.tree.src@, n.path@),
{
    n.node.child_count()
}

/// `Node::child`: a child exactly for the indexes below the child count, and
/// the child with index `i` sits at the node's path extended by `i`.
#[verifier::external_body]
fn node_child<'a>(n: &TsNode<'a>, i: u32) -> (r: Option<TsNode<'a>>)
    ensures
        r is Some <==> i < ts_child_count(n.tree.src@, n.path@),
        r matches Some(c) ==> c.tree == n.tree && c.path@ == n.path@.push(i),
{
    match n.node.child(i) {
        Some(c) => Some(TsNode { node: c, tree: n.tree, path: Ghost(n.path@.push(i)) }),
        None => None,
    }
}

/// `Node::child_by_field_name`: a node exactly where [`ts_field_child`] is
/// `Some(k)`, and then it is the node's child with index `k` (the function
/// returns a child of the node, as its documentation says).
#[verifier::external_body]
fn node_field_child<'a>(n: &TsNode<'a>, field: &str) -> (r: Option<TsNode<'a>>)
    ensures
        r is Some <==> ts_field_child(n.tree.src@, n.path@, field@) is Some,
        r matches Some(c) ==> c.tree == n.tree && c.path@ == n.path@.push(
            ts_field_child(n.tree.src@, n.path@, field@)->0,
        ) && ts_field_child(n.tree.src@, n.path@, field@)->0 < ts_child_count(
            n.tree.src@,
            n.path@,
        ),
{
    match n.node.child_by_field_name(field) {
        Some(c) => Some(
            TsNode { node: c, tree: n.tree, path: Ghost(n.path@.push(ts_field_child(n.tree.src@, n.path@, field@)->0)) },
        ),
        None => None,
    }
}

/// `Node::eq`, which compares node ids: within one tree (tree-sitter
/// documents that no two nodes of a tree share an id) two handles are equal
/// exactly when they are at the same path.
#[verifier::external_body]
fn same_node(a: &TsNode, b: &TsNode) -> (r: bool)
    ensures
        a.tree == b.tree ==> (r <==> a.path@ == b.path@),
{
    a.node == b.node
}

/// Copy of a node handle (`Node` is `Copy`).
#[verifier::external_body]
fn copy_node<'a>(n: &TsNode<'a>) -> (r: TsNode<'a>)
    ensures
        r.tree == n.tree,
        r.path@ == n.path@,
{
    TsNode { node: n.node, tree: n.tree, path: Ghost(n.path@) }
}

/// The node at `path` exists in the tree of `source`: each index is below
/// the child count of the node before it.
pub open spec fn ts_reachable(source: Seq<char>, path: Seq<u32>) -> bool
    decreases path.len(),
{
    path.len() == 0 || (ts_reachable(source, path.drop_last()) && path.last() < ts_child_count(
        source,
        path.drop_last(),
    ))
}

/// The rows and column of the node at `path` fit in `u32`, start before end.
pub open spec fn point_fits(source: Seq<char>, path: Seq<u32>) -> bool {
    &&& ts_start_point(source, path).0 <= ts_end_row(source, path)
    &&& ts_end_row(source, path) < u32::MAX
    &&& ts_start_point(source, path).1 < u32::MAX
}

/// The tree of `source` can be held as a [`SyntaxTree`]: the source length
/// fits in `usize` and every node's position fits in `u32`.
pub open spec fn tree_fits(source: Seq<char>) -> bool {
    &&& source.len() < usize::MAX
    &&& forall|p: Seq<u32>| #[trigger] ts_reachable(source, p) ==> point_fits(source, p)
}

// ---------------------------------------------------------------------------
// UTF-8 offsets
// ---------------------------------------------------------------------------

/// Bytes that `c` takes in UTF-8 (`char::len_utf8`).
pub open spec fn utf8_width(c: char) -> nat {
    let u = c as u32;
    if u < 0x80 {
        1
    } else if u < 0x800 {
        2
    } else if u < 0x10000 {
        3
    } else {
        4
    }
}

/// Bytes that `s` takes in UTF-8.
pub open spec fn byte_len(s: Seq<char>) -> nat
    decreases s.len(),
{
    if s.len() == 0 {
        0
    } else {
        byte_len(s.drop_last()) + utf8_width(s.last())
    }
}

/// Byte offset of character `k` of `s`.
pub open spec fn byte_offset(s: Seq<char>, k: int) -> nat {
    byte_len(s.take(k))
}

/// Byte `b` starts character `k` of `s` (or `b` is the end, for `k == s.len()`).
pub open spec fn is_boundary(s: Seq<char>, b: int, k: int) -> bool {
    0 <= k <= s.len() && byte_offset(s, k) == b
}

fn width_of(c: char) -> (w: usize)
    ensures
        w == utf8_width(c),
{
    let u = c as u32;
    if u < 0x80 {
        1
    } else if u < 0x800 {
        2
    } else if u < 0x10000 {
        3
    } else {
        4
    }
}

proof fn lemma_offset_step(s: Seq<char>, k: int)
    requires
        0 <= k < s.len(),
    ensures
        byte_offset(s, k + 1) == byte_offset(s, k) + utf8_width(s[k]),
{
    assert(s.take(k + 1).drop_last() =~= s.take(k));
}

proof fn lemma_offset_mono(s: Seq<char>, j: int, k: int)
    requires
        0 <= j <= k <= s.len(),
    ensures
        byte_offset(s, j) + (k - j) <= byte_offset(s, k),
    decreases k - j,
{
    if j < k {
        lemma_offset_mono(s, j, k - 1);
        lemma_offset_step(s, k - 1);
    }
}

/// `m[b]` is the index of the character that starts at byte `b`, or
/// `usize::MAX` where no character starts there.
pub open spec fn boundary_map(s: Seq<char>, m: Seq<usize>) -> bool {
    &&& m.len() == byte_len(s) + 1
    &&& forall|b: int|
        0 <= b < m.len() ==> {
            &&& (#[trigger] m[b] != usize::MAX ==> is_boundary(s, b, m[b] as int))
            &&& (m[b] == usize::MAX ==> forall|k: int| !is_boundary(s, b, k))
        }
}

fn build_boundary_map(s: &Vec<char>) -> (m: Vec<usize>)
    requires
        s.len() < usize::MAX,
    ensures
        boundary_map(s@, m@),
{
    let mut m: Vec<usize> = Vec::new();
    let mut k: usize = 0;
    assert(s@.take(0) =~= Seq::<char>::empty());
    while k < s.len()
        invariant
            k <= s.len() < usize::MAX,
            m@.len() == byte_offset(s@, k as int),
            forall|j: int| 0 <= j < k ==> m@[byte_offset(s@, j) as int] == j,
            forall|b: int|
                0 <= b < m@.len() ==> {
                    &&& (#[trigger] m@[b] != usize::MAX ==> (m@[b] < k && is_boundary(
                        s@,
                        b,
                        m@[b] as int,
                    )))
                    &&& (m@[b] == usize::MAX ==> forall|j: int| !is_boundary(s@, b, j))
                },
        decreases s.len() - k,
    {
        let w = width_of(s[k]);
        proof {
            lemma_offset_step(s@, k as int);
            assert forall|j: int| 0 <= j < k implies byte_offset(s@, j) < m@.len() by {
                lemma_offset_mono(s@, j, k as int);
            }
        }
        let ghost base = m@.len();
        m.push(k);
        let mut r: usize = 1;
        while r < w
            invariant
                1 <= r <= w <= 4,
                w == utf8_width(s@[k as int]),
                k < s.len() < usize::MAX,
                m@.len() == base + r,
                base == byte_offset(s@, k as int),
                m@[base as int] == k,
                forall|j: int| 0 <= j < k ==> m@[byte_offset(s@, j) as int] == j,
                forall|j: int| 0 <= j < k ==> byte_offset(s@, j) < base,
                forall|b: int|
                    0 <= b < m@.len() ==> {
                        &&& (#[trigger] m@[b] != usize::MAX ==> (m@[b] <= k && is_boundary(
                            s@,
                            b,
                            m@[b] as int,
                        )))
                        &&& (m@[b] == usize::MAX ==> forall|j: int| !is_boundary(s@, b, j))
                    },
            decreases w - r,
        {
            proof {
                let b = m@.len() as int;
                assert forall|j: int| !is_boundary(s@, b, j) by {
                    if 0 <= j <= s@.len() && byte_offset(s@, j) == b {
                        if j <= k {
                            if j < k {
                            } else {
                            }
                        } else {
                            lemma_offset_mono(s@, k + 1, j);
                            lemma_offset_step(s@, k as int);
                        }
                    }
                }
            }
            m.push(usize::MAX);
            r += 1;
        }
        k += 1;
        proof {
            assert forall|j: int| 0 <= j < k implies m@[byte_offset(s@, j) as int] == j by {
                if j == k - 1 {
                } else {
                }
            }
        }
    }
    proof {
        assert(s@.take(s@.len() as int) =~= s@);
        assert forall|j: int| 0 <= j < k implies byte_offset(s@, j) < m@.len() by {
            lemma_offset_mono(s@, j, k as int);
        }
    }
    m.push(k);
    proof {
        assert forall|b: int| 0 <= b < m@.len() implies {
            &&& (#[trigger] m@[b] != usize::MAX ==> is_boundary(s@, b, m@[b] as int))
            &&& (m@[b] == usize::MAX ==> forall|j: int| !is_boundary(s@, b, j))
        } by {
            if b == m@.len() - 1 {
            } else {
                if m@[b] == usize::MAX {
                    assert forall|j: int| !is_boundary(s@, b, j) by {
                        if j == k as int && is_boundary(s@, b, j) {
                        }
                    }
                }
            }
        }
    }
    m
}

// ---------------------------------------------------------------------------
// The tree
// ---------------------------------------------------------------------------

/// One node of a [`SyntaxTree`]. Children of a node are the
/// `child_count` consecutive nodes that start at `first_child`.
pub struct SyntaxNode {
    pub kind: String,
    pub named: bool,
    pub start_byte: usize,
    pub end_byte: usize,
    pub start_row: u32,
    pub start_col: u32,
    pub end_row: u32,
    /// The node's text is `source[text_start..text_end]` when `has_text`;
    /// it has none when its byte range does not fall on character boundaries.
    pub has_text: bool,
    pub text_start: usize,
    pub text_end: usize,
    pub parent: Option<usize>,
    pub first_child: usize,
    pub child_count: usize,
    pub name: Option<usize>,
    pub condition: Option<usize>,
    pub consequence: Option<usize>,
    pub alternative: Option<usize>,
    pub body: Option<usize>,
    pub parameters: Option<usize>,
    /// Where the node sits in tree-sitter's tree: the child indexes that
    /// lead to it from the root.
    pub path: Ghost<Seq<u32>>,
}

/// The node fields that the analyses read (`child_by_field_name`).
#[derive(Clone, Copy, PartialEq, Eq, Structural)]
pub enum Field {
    Name,
    Condition,
    Consequence,
    Alternative,
    Body,
    Parameters,
}

/// The name tree-sitter's Java grammar gives field `f`.
pub open spec fn field_name(f: Field) -> Seq<char> {
    match f {
        Field::Name => "name"@,
        Field::Condition => "condition"@,
        Field::Consequence => "consequence"@,
        Field::Alternative => "alternative"@,
        Field::Body => "body"@,
        Field::Parameters => "parameters"@,
    }
}

/// A syntax tree; node 0 is the root.
pub struct SyntaxTree {
    pub source: Vec<char>,
    pub nodes: Vec<SyntaxNode>,
}

/// What a [`SyntaxNode`] holds, as plain values.
pub struct NodeModel {
    pub kind: Seq<char>,
    pub named: bool,
    pub start_byte: usize,
    pub end_byte: usize,
    pub start_row: u32,
    pub start_col: u32,
    pub end_row: u32,
    pub has_text: bool,
    pub text_start: usize,
    pub text_end: usize,
    pub parent: Option<usize>,
    pub first_child: usize,
    pub child_count: usize,
    pub name: Option<usize>,
    pub condition: Option<usize>,
    pub consequence: Option<usize>,
    pub alternative: Option<usize>,
    pub body: Option<usize>,
    pub parameters: Option<usize>,
    pub path: Seq<u32>,
}

/// What a [`SyntaxTree`] holds, as plain values: the source and the nodes.
pub struct TreeModel {
    pub source: Seq<char>,
    pub nodes: Seq<NodeModel>,
}

impl View for SyntaxNode {
    type V = NodeModel;

    open spec fn view(&self) -> NodeModel {
        NodeModel {
            kind: self.kind@,
            named: self.named,
            start_byte: self.start_byte,
            end_byte: self.end_byte,
            start_row: self.start_row,
            start_col: self.start_col,
            end_row: self.end_row,
            has_text: self.has_text,
            text_start: self.text_start,
            text_end: self.text_end,
            parent: self.parent,
            first_child: self.first_child,
            child_count: self.child_count,
            name: self.name,
            condition: self.condition,
            consequence: self.consequence,
            alternative: self.alternative,
            body: self.body,
            parameters: self.parameters,
            path: self.path@,
        }
    }
}

impl View for SyntaxTree {
    type V = TreeModel;

    open spec fn view(&self) -> TreeModel {
        TreeModel { source: self.source@, nodes: self.nodes@.map_values(|n: SyntaxNode| n@) }
    }
}

impl SyntaxNode {
    pub open spec fn field(&self, f: Field) -> Option<usize> {
        match f {
            Field::Name => self.name,
            Field::Condition => self.condition,
            Field::Consequence => self.consequence,
            Field::Alternative => self.alternative,
            Field::Body => self.body,
            Field::Parameters => self.parameters,
        }
    }

    pub fn get_field(&self, f: Field) -> (r: Option<usize>)
        ensures
            r == self.field(f),
    {
        match f {
            Field::Name => self.name,
            Field::Condition => self.condition,
            Field::Consequence => self.consequence,
            Field::Alternative => self.alternative,
            Field::Body => self.body,
            Field::Parameters => self.parameters,
        }
    }
}

impl NodeModel {
    pub open spec fn field(&self, f: Field) -> Option<usize> {
        match f {
            Field::Name => self.name,
            Field::Condition => self.condition,
            Field::Consequence => self.consequence,
            Field::Alternative => self.alternative,
            Field::Body => self.body,
            Field::Parameters => self.parameters,
        }
    }
}

impl TreeModel {
    pub open spec fn len(&self) -> int {
        self.nodes.len() as int
    }

    pub open spec fn kind(&self, i: int) -> Seq<char> {
        self.nodes[i].kind
    }

    pub open spec fn nchildren(&self, i: int) -> int {
        self.nodes[i].child_count as int
    }

    /// Index of the `k`-th child of node `i`.
    pub open spec fn child(&self, i: int, k: int) -> int {
        self.nodes[i].first_child + k
    }

    pub open spec fn field(&self, i: int, f: Field) -> Option<usize> {
        self.nodes[i].field(f)
    }

    /// `Node::utf8_text`: `None` where the range is not valid UTF-8.
    pub open spec fn text(&self, i: int) -> Option<Seq<char>> {
        let n = self.nodes[i];
        if n.has_text {
            Some(self.source.subrange(n.text_start as int, n.text_end as int))
        } else {
            None
        }
    }

    pub open spec fn node_wf(&self, i: int) -> bool {
        let n = self.nodes[i];
        &&& i < n.first_child
        &&& n.first_child + n.child_count <= self.nodes.len()
        &&& forall|k: int|
            0 <= k < n.child_count ==> self.nodes[#[trigger] (n.first_child + k)].parent == Some(
                i as usize,
            )
        &&& forall|f: Field|
            (#[trigger] n.field(f)) matches Some(c) ==> n.first_child <= c < n.first_child
                + n.child_count
        &&& (n.has_text ==> n.text_start <= n.text_end <= self.source.len())
        &&& n.start_row <= n.end_row < u32::MAX
        &&& n.start_col < u32::MAX
        &&& (n.parent matches Some(p) ==> p < i)
    }

    /// Well-formedness: children come after their parent, fields point at
    /// children, text ranges lie in the source.
    pub open spec fn wf(&self) -> bool {
        &&& self.nodes.len() > 0
        &&& self.nodes[0].parent is None
        &&& forall|i: int| 0 <= i < self.nodes.len() ==> #[trigger] self.node_wf(i)
    }

    /// The node's text range agrees with its byte range in the source.
    pub open spec fn text_matches_bytes(&self) -> bool {
        forall|i: int|
            0 <= i < self.nodes.len() ==> {
                let n = #[trigger] self.nodes[i];
                n.has_text <==> (n.start_byte <= n.end_byte && exists|a: int, b: int|
                    is_boundary(self.source, n.start_byte as int, a) && is_boundary(
                        self.source,
                        n.end_byte as int,
                        b,
                    )) && (n.has_text ==> is_boundary(
                    self.source,
                    n.start_byte as int,
                    n.text_start as int,
                ) && is_boundary(self.source, n.end_byte as int, n.text_end as int))
            }
    }

    /// Node `i` holds what tree-sitter reports of the node at its path in the
    /// tree of `src`, and its children and fields sit at the paths below it.
    pub open spec fn node_reflects(&self, src: Seq<char>, i: int) -> bool {
        let n = self.nodes[i];
        &&& node_matches(n, src)
        &&& forall|k: int|
            0 <= k < n.child_count ==> self.nodes[#[trigger] (n.first_child + k)].path
                == n.path.push(k as u32)
    }

    /// The tree is tree-sitter's tree of `src`: the root is at the empty
    /// path and every node reflects its tree-sitter node.
    pub open spec fn reflects(&self, src: Seq<char>) -> bool {
        &&& self.nodes.len() > 0
        &&& self.nodes[0].path == Seq::<u32>::empty()
        &&& forall|i: int| 0 <= i < self.nodes.len() ==> #[trigger] self.node_reflects(src, i)
    }

    /// Nodes are numbered breadth-first: the children of each node come
    /// right after those of the node before it, and the last node's children
    /// end the tree.
    pub open spec fn canonical(&self) -> bool {
        &&& self.nodes.len() > 0
        &&& self.nodes[0].first_child == 1
        &&& forall|i: int|
            0 <= i < self.nodes.len() - 1 ==> #[trigger] self.nodes[i + 1].first_child
                == self.nodes[i].first_child + self.nodes[i].child_count
        &&& self.nodes.len() == self.nodes[self.nodes.len() - 1].first_child + self.nodes[self.nodes.len()
            - 1].child_count
        &&& forall|i: int|
            0 <= i < self.nodes.len() && !(#[trigger] self.nodes[i]).has_text ==> self.nodes[i].text_start
                == 0 && self.nodes[i].text_end == 0
    }
}

/// `m` is the tree of `src`: well-formed, with text ranges that agree with
/// the bytes, reflecting tree-sitter's tree of `src`, numbered breadth-first.
pub open spec fn is_syntax_of(m: TreeModel, src: Seq<char>) -> bool {
    &&& m.wf()
    &&& m.text_matches_bytes()
    &&& m.source == src
    &&& m.reflects(src)
    &&& m.canonical()
}

/// The syntax tree of `src`. There is at most one ([`lemma_syntax_unique`]);
/// [`build_tree`] makes it whenever the tree fits.
pub open spec fn syntax_of(src: Seq<char>) -> TreeModel {
    choose|m: TreeModel| is_syntax_of(m, src)
}

impl SyntaxTree {
    #[verifier::inline]
    pub open spec fn len(&self) -> int {
        self@.len()
    }

    #[verifier::inline]
    pub open spec fn kind(&self, i: int) -> Seq<char> {
        self@.kind(i)
    }

    #[verifier::inline]
    pub open spec fn nchildren(&self, i: int) -> int {
        self@.nchildren(i)
    }

    #[verifier::inline]
    pub open spec fn child(&self, i: int, k: int) -> int {
        self@.child(i, k)
    }

    #[verifier::inline]
    pub open spec fn field(&self, i: int, f: Field) -> Option<usize> {
        self@.field(i, f)
    }

    #[verifier::inline]
    pub open spec fn text(&self, i: int) -> Option<Seq<char>> {
        self@.text(i)
    }

    #[verifier::inline]
    pub open spec fn node_wf(&self, i: int) -> bool {
        self@.node_wf(i)
    }

    #[verifier::inline]
    pub open spec fn wf(&self) -> bool {
        self@.wf()
    }

    #[verifier::inline]
    pub open spec fn text_matches_bytes(&self) -> bool {
        self@.text_matches_bytes()
    }

    #[verifier::inline]
    pub open spec fn reflects(&self, src: Seq<char>) -> bool {
        self@.reflects(src)
    }
}

/// The index in `kids` of the field child `fc` of the node at `p`, whose
/// children are `kids[first..first + count]`.
#[verifier::loop_isolation(false)]
fn resolve_field<'a>(
    kids: &Vec<TsNode<'a>>,
    first: usize,
    count: usize,
    fc: &Option<TsNode<'a>>,
    tree: &'a TsTree,
    Ghost(p): Ghost<Seq<u32>>,
) -> (r: Option<usize>)
    requires
        first + count <= kids.len(),
        count <= u32::MAX,
        forall|m: int|
            0 <= m < count ==> (#[trigger] kids@[first + m]).tree == tree && kids@[first
                + m].path@ == p.push(m as u32),
        fc matches Some(c) ==> c.tree == tree && c.path@ == p.push(c.path@.last())
            && c.path@.last() < count,
    ensures
        fc is None ==> r is None,
        fc matches Some(c) ==> r matches Some(x) && first <= x < first + count && x - first
            == c.path@.last(),
{
    match fc {
        None => None,
        Some(c) => {
            let ghost k: int = c.path@.last() as int;
            let mut m: usize = 0;
            while m < count
                invariant
                    first + count <= kids.len(),
                    count <= u32::MAX,
                    forall|j: int|
                        0 <= j < count ==> (#[trigger] kids@[first + j]).tree == tree
                            && kids@[first + j].path@ == p.push(j as u32),
                    c.tree == tree,
                    c.path@ == p.push(k as u32),
                    0 <= k < count,
                    m <= k,
                decreases count - m,
            {
                if same_node(&kids[first + m], c) {
                    proof {
                        lemma_push_injective(p, m as u32, k as u32);
                    }
                    return Some(first + m);
                }
                proof {
                    assert(kids@[first + m].path@ == p.push(m as u32));
                }
                m += 1;
            }
            None
        },
    }
}

proof fn lemma_push_injective(p: Seq<u32>, a: u32, b: u32)
    requires
        p.push(a) == p.push(b),
    ensures
        a == b,
{
    assert(p.push(a)[p.len() as int] == a);
    assert(p.push(b)[p.len() as int] == b);
}

/// The child of `node` that `child_by_field_name(field)` returns, as an index
/// in `kids`, whose `first..first + count` are the node's children.
fn field_index<'a>(
    node: &TsNode<'a>,
    field: &str,
    kids: &Vec<TsNode<'a>>,
    first: usize,
    count: usize,
    tree: &'a TsTree,
) -> (r: Option<usize>)
    requires
        node.tree == tree,
        count == ts_child_count(tree.src@, node.path@),
        first + count <= kids.len(),
        forall|m: int|
            0 <= m < count ==> (#[trigger] kids@[first + m]).tree == tree && kids@[first
                + m].path@ == node.path@.push(m as u32),
    ensures
        r == match ts_field_child(tree.src@, node.path@, field@) {
            Some(k) => Some((first + k) as usize),
            None => None,
        },
        r matches Some(x) ==> first <= x < first + count,
{
    let fc = node_field_child(node, field);
    proof {
        if fc is Some {
            let c = fc->0;
            let kf = ts_field_child(tree.src@, node.path@, field@)->0;
            assert(c.path@.last() == kf);
        }
    }
    resolve_field(kids, first, count, &fc, tree, Ghost(node.path@))
}

/// What node `n` holds agrees with tree-sitter's node at its path.
pub open spec fn node_matches(n: NodeModel, src: Seq<char>) -> bool {
    let p = n.path;
    &&& n.kind == ts_kind(src, p)
    &&& n.named == ts_named(src, p)
    &&& n.start_byte == ts_start_byte(src, p)
    &&& n.end_byte == ts_end_byte(src, p)
    &&& n.start_row == ts_start_point(src, p).0
    &&& n.start_col == ts_start_point(src, p).1
    &&& n.end_row == ts_end_row(src, p)
    &&& n.child_count == ts_child_count(src, p)
    &&& forall|f: Field|
        #[trigger] n.field(f) == match ts_field_child(src, p, field_name(f)) {
            Some(k) => Some((n.first_child + k) as usize),
            None => None,
        }
}

/// Converts tree-sitter's tree of `source` into a [`SyntaxTree`], in
/// breadth-first order. `None` exactly where the tree does not fit
/// ([`tree_fits`]).
#[verifier::loop_isolation(false)]
pub fn build_tree(source: &str, tree: &TsTree) -> (r: Option<SyntaxTree>)
    requires
        tree.source() == source@,
    ensures
        r is Some <==> tree_fits(source@),
        r matches Some(t) ==> t.wf() && t.text_matches_bytes() && t.source@ == source@
            && t.reflects(source@) && t@ == syntax_of(source@),
{
    let ghost src = source@;
    let chars = to_chars(source);
    if chars.len() >= usize::MAX {
        return None;
    }
    let map = build_boundary_map(&chars);
    let root = root_node(tree);
    let mut ts_nodes: Vec<TsNode> = Vec::new();
    ts_nodes.push(root);
    let mut parents: Vec<Option<usize>> = Vec::new();
    parents.push(None);
    let mut nodes: Vec<SyntaxNode> = Vec::new();
    proof {
        assert(ts_reachable(src, ts_nodes@[0].path@));
    }
    while nodes.len() < ts_nodes.len()
        invariant
            ts_nodes.len() == parents.len(),
            1 <= ts_nodes.len(),
            nodes.len() <= ts_nodes.len(),
            parents@[0] is None,
            ts_nodes@[0].path@ == Seq::<u32>::empty(),
            forall|j: int|
                0 <= j < ts_nodes@.len() ==> (#[trigger] ts_nodes@[j]).tree == tree
                    && ts_reachable(src, ts_nodes@[j].path@),
            forall|j: int| 0 <= j < parents@.len() ==> (#[trigger] parents@[j] matches Some(p) ==> p < j),
            boundary_map(chars@, map@),
            chars@ == source@,
            tree.src@ == src,
            src == source@,
            forall|j: int| 0 <= j < nodes@.len() ==> #[trigger] nodes@[j].parent == parents@[j],
            forall|j: int|
                0 <= j < nodes@.len() ==> (#[trigger] nodes@[j]).path@ == ts_nodes@[j].path@
                    && node_matches(nodes@[j]@, src),
            forall|j: int|
                0 <= j < nodes@.len() ==> {
                    let n = #[trigger] nodes@[j];
                    &&& j < n.first_child
                    &&& n.first_child + n.child_count <= ts_nodes.len()
                    &&& forall|k: int|
                        0 <= k < n.child_count ==> parents@[#[trigger] (n.first_child + k)]
                            == Some(j as usize) && ts_nodes@[n.first_child + k].path@
                            == n.path@.push(k as u32)
                    &&& forall|f: Field|
                        (#[trigger] n.field(f)) matches Some(c) ==> n.first_child <= c
                            < n.first_child + n.child_count
                    &&& (n.has_text ==> n.text_start <= n.text_end <= chars@.len())
                    &&& n.start_row <= n.end_row < u32::MAX
                    &&& n.start_col < u32::MAX
                    &&& (n.has_text <==> (n.start_byte <= n.end_byte && exists|a: int, b: int|
                        is_boundary(chars@, n.start_byte as int, a) && is_boundary(
                            chars@,
                            n.end_byte as int,
                            b,
                        )))
                    &&& (n.has_text ==> is_boundary(
                        chars@,
                        n.start_byte as int,
                        n.text_start as int,
                    ) && is_boundary(chars@, n.end_byte as int, n.text_end as int))
                },
            nodes.len() == 0 ==> ts_nodes.len() == 1,
            nodes.len() > 0 ==> ts_nodes.len() == nodes@[nodes.len() - 1].first_child
                + nodes@[nodes.len() - 1].child_count,
            nodes.len() > 0 ==> nodes@[0].first_child == 1,
            forall|j: int|
                0 <= j < nodes@.len() && !(#[trigger] nodes@[j]).has_text ==> nodes@[j].text_start == 0
                    && nodes@[j].text_end == 0,
            forall|j: int|
                0 <= j < nodes@.len() - 1 ==> #[trigger] nodes@[j + 1].first_child
                    == nodes@[j].first_child + nodes@[j].child_count,
        decreases usize::MAX - nodes.len(),
    {
        let i = nodes.len();
        let node = copy_node(&ts_nodes[i]);
        let kind = node_kind(&node);
        let named = node_is_named(&node);
        let start_byte = node_start_byte(&node);
        let end_byte = node_end_byte(&node);
        let (start_row, start_col) = node_start_point(&node);
        let end_row = node_end_row(&node);
        if start_row > end_row || end_row >= u32::MAX as usize || start_col >= u32::MAX as usize {
            proof {
                assert(!point_fits(src, node.path@));
                assert(ts_reachable(src, node.path@));
            }
            return None;
        }
        let count32 = node_child_count(&node);
        let count = count32 as usize;
        let first = ts_nodes.len();
        let ghost p0 = parents@;
        let ghost t0 = ts_nodes@;
        let mut k: usize = 0;
        while k < count
            invariant
                ts_nodes.len() == parents.len() == first + k,
                k <= count,
                count == count32,
                count32 == ts_child_count(src, node.path@),
                node.tree == tree,
                ts_reachable(src, node.path@),
                i < first,
                i == nodes.len(),
                forall|j: int| 0 <= j < first + k ==> j < first || parents@[j] == Some(i),
                forall|j: int| 0 <= j < first ==> parents@[j] == p0[j],
                forall|j: int| 0 <= j < first ==> ts_nodes@[j] == t0[j],
                forall|j: int| 0 <= j < parents@.len() ==> (#[trigger] parents@[j] matches Some(p) ==> p < j),
                forall|j: int|
                    0 <= j < ts_nodes@.len() ==> (#[trigger] ts_nodes@[j]).tree == tree
                        && ts_reachable(src, ts_nodes@[j].path@),
                forall|m: int|
                    0 <= m < k ==> (#[trigger] ts_nodes@[first + m]).path@ == node.path@.push(
                        m as u32,
                    ),
            decreases count - k,
        {
            match node_child(&node, k as u32) {
                Some(c) => {
                    proof {
                        assert(c.path@.drop_last() =~= node.path@);
                        assert(ts_reachable(src, c.path@));
                    }
                    ts_nodes.push(c);
                    parents.push(Some(i));
                },
                None => {
                    return None;
                },
            }
            k += 1;
        }
        let name = field_index(&node, "name", &ts_nodes, first, count, tree);
        let condition = field_index(&node, "condition", &ts_nodes, first, count, tree);
        let consequence = field_index(&node, "consequence", &ts_nodes, first, count, tree);
        let alternative = field_index(&node, "alternative", &ts_nodes, first, count, tree);
        let body = field_index(&node, "body", &ts_nodes, first, count, tree);
        let parameters = field_index(&node, "parameters", &ts_nodes, first, count, tree);
        let mut has_text = false;
        let mut text_start: usize = 0;
        let mut text_end: usize = 0;
        if start_byte <= end_byte && end_byte < map.len() {
            let a = map[start_byte];
            let b = map[end_byte];
            if a != usize::MAX && b != usize::MAX {
                proof {
                    lemma_boundary_order(chars@, start_byte as int, end_byte as int, a as int, b as int);
                }
                has_text = true;
                text_start = a;
                text_end = b;
            }
        }
        proof {
            if !has_text && start_byte <= end_byte {
                assert forall|a: int, b: int|
                    !(is_boundary(chars@, start_byte as int, a) && is_boundary(
                        chars@,
                        end_byte as int,
                        b,
                    )) by {
                    if is_boundary(chars@, start_byte as int, a) && is_boundary(
                        chars@,
                        end_byte as int,
                        b,
                    ) {
                        lemma_boundary_in_map(chars@, map@, end_byte as int, b);
                        lemma_boundary_in_map(chars@, map@, start_byte as int, a);
                    }
                }
            }
        }
        let sn = SyntaxNode {
            kind,
            named,
            start_byte,
            end_byte,
            start_row: start_row as u32,
            start_col: start_col as u32,
            end_row: end_row as u32,
            has_text,
            text_start,
            text_end,
            parent: parents[i],
            first_child: first,
            child_count: count,
            name,
            condition,
            consequence,
            alternative,
            body,
            parameters,
            path: Ghost(node.path@),
        };
        proof {
            assert forall|f: Field|
                #[trigger] sn@.field(f) == match ts_field_child(src, sn.path@, field_name(f)) {
                    Some(k) => Some((sn.first_child + k) as usize),
                    None => None,
                } by {
                match f {
                    Field::Name => {},
                    Field::Condition => {},
                    Field::Consequence => {},
                    Field::Alternative => {},
                    Field::Body => {},
                    Field::Parameters => {},
                }
            }
            assert(node_matches(sn@, src));
        }
        nodes.push(sn);
    }
    let t = SyntaxTree { source: chars, nodes };
    proof {
        let m = t@;
        assert forall|i: int| 0 <= i < m.nodes.len() implies #[trigger] m.node_wf(i) by {
            let n = m.nodes[i];
            assert(n == t.nodes@[i]@);
            assert forall|k: int| 0 <= k < n.child_count implies m.nodes[#[trigger] (
            n.first_child + k)].parent == Some(i as usize) by {
                assert(m.nodes[n.first_child + k] == t.nodes@[n.first_child + k]@);
                assert(t.nodes@[n.first_child + k].parent == parents@[n.first_child + k]);
            }
            assert forall|f: Field| #[trigger] n.field(f) == t.nodes@[i].field(f) by {}
        }
        assert(m.nodes[0] == t.nodes@[0]@);
        assert(t.nodes@[0].parent == parents@[0]);
        assert forall|i: int| 0 <= i < m.nodes.len() implies {
            let n = #[trigger] m.nodes[i];
            n.has_text <==> (n.start_byte <= n.end_byte && exists|a: int, b: int|
                is_boundary(m.source, n.start_byte as int, a) && is_boundary(
                    m.source,
                    n.end_byte as int,
                    b,
                )) && (n.has_text ==> is_boundary(
                m.source,
                n.start_byte as int,
                n.text_start as int,
            ) && is_boundary(m.source, n.end_byte as int, n.text_end as int))
        } by {
            assert(m.nodes[i] == t.nodes@[i]@);
        }
        assert forall|i: int| 0 <= i < m.nodes.len() implies #[trigger] m.node_reflects(src, i) by {
            let n = m.nodes[i];
            assert(n == t.nodes@[i]@);
            assert(node_matches(n, src));
            assert forall|k: int| 0 <= k < n.child_count implies m.nodes[#[trigger] (
            n.first_child + k)].path == n.path.push(k as u32) by {
                assert(m.nodes[n.first_child + k] == t.nodes@[n.first_child + k]@);
                assert(t.nodes@[n.first_child + k].path@ == ts_nodes@[n.first_child + k].path@);
            }
        }
        assert(m.nodes[0] == t.nodes@[0]@);
        assert(m.reflects(src));
        assert forall|j: int| 0 <= j < m.nodes.len() - 1 implies #[trigger] m.nodes[j + 1].first_child
            == m.nodes[j].first_child + m.nodes[j].child_count by {
            assert(m.nodes[j + 1] == t.nodes@[j + 1]@);
            assert(m.nodes[j] == t.nodes@[j]@);
            assert(t.nodes@[j + 1].first_child == t.nodes@[j].first_child + t.nodes@[j].child_count);
        }
        assert forall|j: int| 0 <= j < m.nodes.len() && !(#[trigger] m.nodes[j]).has_text implies m.nodes[j].text_start
            == 0 && m.nodes[j].text_end == 0 by {
            assert(m.nodes[j] == t.nodes@[j]@);
        }
        assert(m.nodes[m.nodes.len() - 1] == t.nodes@[m.nodes.len() - 1]@);
        assert(m.canonical());
        assert(is_syntax_of(m, src));
        lemma_syntax_of(m, src);
        assert forall|p: Seq<u32>| #[trigger] ts_reachable(src, p) implies point_fits(src, p) by {
            lemma_reachable_is_node(m, src, p);
            let i = choose|i: int| 0 <= i < m.nodes.len() && #[trigger] m.nodes[i].path == p;
            assert(m.node_wf(i));
            assert(node_matches(m.nodes[i], src));
        }
    }
    Some(t)
}

/// Node `i` of a breadth-first tree, other than the root, is a child of an
/// earlier node; the search starts at node `q`.
proof fn lemma_parent_range(m: TreeModel, i: int, q: int)
    requires
        m.wf(),
        m.canonical(),
        1 <= i < m.nodes.len(),
        0 <= q < m.nodes.len(),
        m.nodes[q].first_child <= i,
    ensures
        exists|p: int|
            0 <= p < i && (#[trigger] m.nodes[p]).first_child <= i < m.nodes[p].first_child
                + m.nodes[p].child_count,
    decreases m.nodes.len() - q,
{
    assert(m.node_wf(q));
    if i >= m.nodes[q].first_child + m.nodes[q].child_count {
        assert(m.nodes[q + 1].first_child == m.nodes[q].first_child + m.nodes[q].child_count);
        lemma_parent_range(m, i, q + 1);
    }
}

/// Two trees of one source agree on node `j` when they agree on the nodes
/// before it.
proof fn lemma_node_agree(m1: TreeModel, m2: TreeModel, src: Seq<char>, j: int)
    requires
        is_syntax_of(m1, src),
        is_syntax_of(m2, src),
        0 <= j < m1.nodes.len(),
        j < m2.nodes.len(),
        forall|x: int| 0 <= x < j ==> m1.nodes[x] == m2.nodes[x],
    ensures
        m1.nodes[j] == m2.nodes[j],
{
    let a = m1.nodes[j];
    let b = m2.nodes[j];
    if j == 0 {
        assert(a.path == b.path);
        assert(a.parent == b.parent);
        assert(a.first_child == b.first_child);
    } else {
        assert(m1.nodes[0].first_child == 1);
        lemma_parent_range(m1, j, 0);
        let p = choose|p: int|
            0 <= p < j && (#[trigger] m1.nodes[p]).first_child <= j < m1.nodes[p].first_child
                + m1.nodes[p].child_count;
        assert(m1.nodes[p] == m2.nodes[p]);
        assert(m1.node_wf(p));
        assert(m2.node_wf(p));
        assert(m1.node_reflects(src, p));
        assert(m2.node_reflects(src, p));
        let first = m1.nodes[p].first_child as int;
        let k = j - first;
        assert(m1.nodes[first + k].path == m1.nodes[p].path.push(k as u32));
        assert(m2.nodes[first + k].path == m2.nodes[p].path.push(k as u32));
        assert(m1.nodes[first + k].parent == Some(p as usize));
        assert(m2.nodes[first + k].parent == Some(p as usize));
        assert(m1.nodes[(j - 1) + 1].first_child == m1.nodes[j - 1].first_child + m1.nodes[j - 1].child_count);
        assert(m2.nodes[(j - 1) + 1].first_child == m2.nodes[j - 1].first_child + m2.nodes[j - 1].child_count);
        assert(m1.nodes[j - 1] == m2.nodes[j - 1]);
    }
    assert(a.path == b.path);
    assert(a.first_child == b.first_child);
    assert(m1.node_reflects(src, j));
    assert(m2.node_reflects(src, j));
    assert(node_matches(a, src));
    assert(node_matches(b, src));
    assert(a.field(Field::Name) == b.field(Field::Name));
    assert(a.field(Field::Condition) == b.field(Field::Condition));
    assert(a.field(Field::Consequence) == b.field(Field::Consequence));
    assert(a.field(Field::Alternative) == b.field(Field::Alternative));
    assert(a.field(Field::Body) == b.field(Field::Body));
    assert(a.field(Field::Parameters) == b.field(Field::Parameters));
    assert(a.has_text == b.has_text);
    if a.has_text {
        lemma_boundary_unique(src, a.start_byte as int, a.text_start as int, b.text_start as int);
        lemma_boundary_unique(src, a.end_byte as int, a.text_end as int, b.text_end as int);
    }
    assert(a == b);
}

proof fn lemma_prefix_agree(m1: TreeModel, m2: TreeModel, src: Seq<char>, i: int)
    requires
        is_syntax_of(m1, src),
        is_syntax_of(m2, src),
        0 <= i <= m1.nodes.len(),
        i <= m2.nodes.len(),
    ensures
        forall|x: int| 0 <= x < i ==> m1.nodes[x] == m2.nodes[x],
    decreases i,
{
    if i > 0 {
        lemma_prefix_agree(m1, m2, src, i - 1);
        lemma_node_agree(m1, m2, src, i - 1);
    }
}

/// A source has at most one syntax tree.
pub proof fn lemma_syntax_unique(m1: TreeModel, m2: TreeModel, src: Seq<char>)
    requires
        is_syntax_of(m1, src),
        is_syntax_of(m2, src),
    ensures
        m1 == m2,
{
    let n1 = m1.nodes.len() as int;
    let n2 = m2.nodes.len() as int;
    if n1 < n2 {
        lemma_prefix_agree(m1, m2, src, n1);
        assert(m2.nodes[(n1 - 1) + 1].first_child == m2.nodes[n1 - 1].first_child + m2.nodes[n1 - 1].child_count);
        assert(m1.nodes[n1 - 1] == m2.nodes[n1 - 1]);
        assert(m2.node_wf(n1));
    } else if n2 < n1 {
        lemma_prefix_agree(m2, m1, src, n2);
        assert(m1.nodes[(n2 - 1) + 1].first_child == m1.nodes[n2 - 1].first_child + m1.nodes[n2 - 1].child_count);
        assert(m2.nodes[n2 - 1] == m1.nodes[n2 - 1]);
        assert(m1.node_wf(n2));
    } else {
        lemma_prefix_agree(m1, m2, src, n1);
        assert(m1.nodes =~= m2.nodes);
    }
}

/// A syntax tree of `src` is [`syntax_of`]`(src)`.
pub proof fn lemma_syntax_of(m: TreeModel, src: Seq<char>)
    requires
        is_syntax_of(m, src),
    ensures
        syntax_of(src) == m,
{
    assert(exists|x: TreeModel| is_syntax_of(x, src));
    lemma_syntax_unique(syntax_of(src), m, src);
}

/// Every node of tree-sitter's tree has a node in a tree that reflects it.
proof fn lemma_reachable_is_node(t: TreeModel, src: Seq<char>, p: Seq<u32>)
    requires
        t.wf(),
        t.reflects(src),
        ts_reachable(src, p),
    ensures
        exists|i: int| 0 <= i < t.nodes.len() && #[trigger] t.nodes[i].path == p,
    decreases p.len(),
{
    if p.len() == 0 {
        assert(p =~= Seq::<u32>::empty());
        assert(t.nodes[0].path == p);
    } else {
        let q = p.drop_last();
        lemma_reachable_is_node(t, src, q);
        let i = choose|i: int| 0 <= i < t.nodes.len() && #[trigger] t.nodes[i].path == q;
        assert(t.node_reflects(src, i));
        assert(t.node_wf(i));
        let k = p.last();
        assert(q.push(k) =~= p);
        let n = t.nodes[i];
        assert(t.nodes[n.first_child + k as int].path == q.push(k));
    }
}

proof fn lemma_boundary_unique(s: Seq<char>, b: int, j: int, k: int)
    requires
        is_boundary(s, b, j),
        is_boundary(s, b, k),
    ensures
        j == k,
{
    if j < k {
        lemma_offset_mono(s, j, k);
    } else if k < j {
        lemma_offset_mono(s, k, j);
    }
}

proof fn lemma_boundary_in_map(s: Seq<char>, m: Seq<usize>, b: int, k: int)
    requires
        boundary_map(s, m),
        is_boundary(s, b, k),
    ensures
        0 <= b < m.len(),
        m[b] == k,
{
    lemma_offset_mono(s, k, s.len() as int);
    assert(s.take(s.len() as int) =~= s);
    let v = m[b];
    if v != usize::MAX {
        lemma_boundary_unique(s, b, v as int, k);
    }
}

proof fn lemma_boundary_order(s: Seq<char>, b1: int, b2: int, k1: int, k2: int)
    requires
        b1 <= b2,
        is_boundary(s, b1, k1),
        is_boundary(s, b2, k2),
    ensures
        k1 <= k2,
{
    if k2 < k1 {
        lemma_offset_mono(s, k2, k1);
    }
}

} // verus!
