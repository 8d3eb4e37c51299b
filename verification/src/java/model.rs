//! What one Java file declares and references: package, imports, type
//! declarations, referenced names, exported methods, functions.
use vstd::prelude::*;
use crate::java::extract::{functions_in, functions_of, seq_view, FunctionMetrics, FunctionMetricsView};
use crate::java::parse::{TreeModel, build_tree, java_parses, parse, syntax_of, tree_fits, Field, SyntaxTree};
use crate::java::tree_query::{field_of, kind_is, text_is, text_of};
use crate::text::{
    chars_eq, copy_range, ends_with_chars, from_chars, has_prefix, has_suffix, starts_at,
    strip_prefix_all, strip_prefix_all_chars, strip_suffix_char_all, strip_suffix_char_all_chars,
    to_chars, trim, trim_chars,
};

verus! {

#[derive(Debug)]
pub struct TypeDecl {
    pub fqn: String,
    pub simple: String,
    pub line: u32,
    pub is_public: bool,
}

#[derive(Debug)]
pub struct MemberDecl {
    pub name: String,
    pub line: u32,
}

#[derive(Debug)]
pub struct FileInfo {
    pub path: String,
    pub package: String,
    pub imports: Vec<String>,
    pub wildcard_imports: Vec<String>,
    pub static_imports: Vec<String>,
    pub types: Vec<TypeDecl>,
    /// Type names this file mentions (a set: no duplicates).
    pub referenced: Vec<String>,
    /// Every identifier this file mentions (a set: no duplicates).
    pub used_names: Vec<String>,
    pub exports: Vec<MemberDecl>,
    pub functions: Vec<FunctionMetrics>,
    pub line_count: u32,
    /// Simple names of the annotations this file uses (a set: no duplicates).
    pub annotations: Vec<String>,
}

pub struct TypeDeclView {
    pub fqn: Seq<char>,
    pub simple: Seq<char>,
    pub line: u32,
    pub is_public: bool,
}

pub struct MemberDeclView {
    pub name: Seq<char>,
    pub line: u32,
}

pub struct FileInfoView {
    pub path: Seq<char>,
    pub package: Seq<char>,
    pub imports: Seq<Seq<char>>,
    pub wildcard_imports: Seq<Seq<char>>,
    pub static_imports: Seq<Seq<char>>,
    pub types: Seq<TypeDeclView>,
    pub referenced: Set<Seq<char>>,
    pub used_names: Set<Seq<char>>,
    pub exports: Seq<MemberDeclView>,
    pub functions: Seq<FunctionMetricsView>,
    pub line_count: u32,
    pub annotations: Set<Seq<char>>,
}

impl View for TypeDecl {
    type V = TypeDeclView;

    open spec fn view(&self) -> TypeDeclView {
        TypeDeclView {
            fqn: self.fqn@,
            simple: self.simple@,
            line: self.line,
            is_public: self.is_public,
        }
    }
}

impl View for MemberDecl {
    type V = MemberDeclView;

    open spec fn view(&self) -> MemberDeclView {
        MemberDeclView { name: self.name@, line: self.line }
    }
}

/// Views of a vector of strings.
pub open spec fn strings_view(v: Seq<String>) -> Seq<Seq<char>> {
    v.map_values(|s: String| s@)
}

impl FileInfo {
    pub open spec fn view_of(&self) -> FileInfoView {
        FileInfoView {
            path: self.path@,
            package: self.package@,
            imports: strings_view(self.imports@),
            wildcard_imports: strings_view(self.wildcard_imports@),
            static_imports: strings_view(self.static_imports@),
            types: seq_view(self.types@),
            referenced: strings_view(self.referenced@).to_set(),
            used_names: strings_view(self.used_names@).to_set(),
            exports: seq_view(self.exports@),
            functions: seq_view(self.functions@),
            line_count: self.line_count,
            annotations: strings_view(self.annotations@).to_set(),
        }
    }

    /// The set-valued fields hold no repeats.
    pub open spec fn sets_distinct(&self) -> bool {
        &&& strings_view(self.referenced@).no_duplicates()
        &&& strings_view(self.used_names@).no_duplicates()
        &&& strings_view(self.annotations@).no_duplicates()
    }
}

// --- package ---------------------------------------------------------------

/// Text of the first named child of `c` (from child `j` on) that has text.
pub open spec fn first_named_text(t: TreeModel, c: int, j: int) -> Option<Seq<char>>
    decreases t.nchildren(c) - j,
{
    if !(0 <= c < t.len()) || j < 0 || j >= t.nchildren(c) {
        None
    } else {
        let d = t.child(c, j);
        if t.nodes[d].named && t.text(d) is Some {
            t.text(d)
        } else {
            first_named_text(t, c, j + 1)
        }
    }
}

/// The package name: from the first `package_declaration` among the root's
/// children (from child `k` on) that has a named child with text.
pub open spec fn package_from(t: TreeModel, k: int) -> Seq<char>
    decreases t.nchildren(0) - k,
{
    if k < 0 || k >= t.nchildren(0) || t.len() == 0 {
        Seq::empty()
    } else {
        let c = t.child(0, k);
        if t.kind(c) == "package_declaration"@ && first_named_text(t, c, 0) is Some {
            first_named_text(t, c, 0)->0
        } else {
            package_from(t, k + 1)
        }
    }
}

pub open spec fn package_of(t: TreeModel) -> Seq<char> {
    package_from(t, 0)
}

fn first_named_text_exec(t: &SyntaxTree, c: usize) -> (r: Option<Vec<char>>)
    requires
        t.wf(),
        c < t.nodes@.len(),
    ensures
        r is Some <==> first_named_text(t@, c as int, 0) is Some,
        r matches Some(v) ==> first_named_text(t@, c as int, 0) == Some(v@),
{
    proof {
        assert(t.node_wf(c as int));
    }
    let cnt = t.nodes[c].child_count;
    let first = t.nodes[c].first_child;
    let total_len = t.nodes.len();
    let mut j: usize = 0;
    while j < cnt
        invariant
            t.wf(),
            c < t.nodes@.len(),
            cnt == t.nchildren(c as int),
            first == t.nodes@[c as int].first_child,
            first + cnt <= total_len,
            total_len == t.nodes@.len(),
            j <= cnt,
            first_named_text(t@, c as int, 0) == first_named_text(t@, c as int, j as int),
        decreases cnt - j,
    {
        let d = first + j;
        if t.nodes[d].named {
            let tx = text_of(t, d);
            if tx.is_some() {
                return tx;
            }
        }
        j += 1;
    }
    None
}

fn find_package(t: &SyntaxTree) -> (r: Vec<char>)
    requires
        t.wf(),
    ensures
        r@ == package_of(t@),
{
    proof {
        assert(t.node_wf(0));
    }
    let cnt = t.nodes[0].child_count;
    let first = t.nodes[0].first_child;
    let total_len = t.nodes.len();
    let mut k: usize = 0;
    while k < cnt
        invariant
            t.wf(),
            cnt == t.nchildren(0),
            first == t.nodes@[0].first_child,
            first + cnt <= total_len,
            total_len == t.nodes@.len(),
            k <= cnt,
            package_of(t@) == package_from(t@, k as int),
        decreases cnt - k,
    {
        let c = first + k;
        if kind_is(t, c, "package_declaration") {
            match first_named_text_exec(t, c) {
                Some(v) => {
                    return v;
                },
                None => {},
            }
        }
        k += 1;
    }
    Vec::new()
}

// --- imports ---------------------------------------------------------------

/// The import's target once `import`, `;` and surrounding whitespace are
/// removed.
pub open spec fn import_spec(text: Seq<char>) -> Seq<char> {
    trim(strip_suffix_char_all(trim(strip_prefix_all(trim(text), "import"@)), ';'))
}

pub open spec fn import_is_static(text: Seq<char>) -> bool {
    has_prefix(import_spec(text), "static"@)
}

/// The target once a leading `static` is also removed.
pub open spec fn import_target(text: Seq<char>) -> Seq<char> {
    trim(strip_prefix_all(import_spec(text), "static"@))
}

/// 0: a single-type import, 1: an on-demand (`.*`) import, 2: a static import.
pub open spec fn import_class(text: Seq<char>) -> int {
    if has_suffix(import_target(text), ".*"@) {
        1
    } else if import_is_static(text) {
        2
    } else {
        0
    }
}

/// What an import of class `which` contributes.
pub open spec fn import_entry(text: Seq<char>) -> Seq<char> {
    let tg = import_target(text);
    if import_class(text) == 1 {
        tg.subrange(0, tg.len() - 2)
    } else {
        tg
    }
}

/// Imports of class `which` among the root's children from child `k` on.
pub open spec fn imports_from(t: TreeModel, k: int, which: int) -> Seq<Seq<char>>
    decreases t.nchildren(0) - k,
{
    if k < 0 || k >= t.nchildren(0) || t.len() == 0 {
        Seq::empty()
    } else {
        let c = t.child(0, k);
        (if t.kind(c) == "import_declaration"@ && t.text(c) is Some && import_class(t.text(c)->0)
            == which {
            seq![import_entry(t.text(c)->0)]
        } else {
            Seq::empty()
        }) + imports_from(t, k + 1, which)
    }
}

fn classify_import(text: &Vec<char>) -> (r: (u8, Vec<char>))
    ensures
        r.0 == import_class(text@),
        r.1@ == import_entry(text@),
{
    let kw_import = to_chars("import");
    let kw_static = to_chars("static");
    let dot_star = to_chars(".*");
    let a = trim_chars(text);
    let b = strip_prefix_all_chars(&a, &kw_import);
    let c = trim_chars(&b);
    let d = strip_suffix_char_all_chars(&c, ';');
    let spec = trim_chars(&d);
    let is_static = starts_at(&spec, 0, &kw_static);
    proof {
        assert(spec@.subrange(0, spec@.len() as int) =~= spec@);
    }
    let e = strip_prefix_all_chars(&spec, &kw_static);
    let target = trim_chars(&e);
    proof {
        reveal_strlit(".*");
    }
    if ends_with_chars(&target, &dot_star) {
        let n = target.len() - 2;
        (1, copy_range(&target, 0, n))
    } else if is_static {
        (2, target)
    } else {
        (0, target)
    }
}

fn collect_imports(t: &SyntaxTree) -> (r: (Vec<String>, Vec<String>, Vec<String>))
    requires
        t.wf(),
    ensures
        strings_view(r.0@) == imports_from(t@, 0, 0),
        strings_view(r.1@) == imports_from(t@, 0, 1),
        strings_view(r.2@) == imports_from(t@, 0, 2),
{
    proof {
        assert(t.node_wf(0));
    }
    let cnt = t.nodes[0].child_count;
    let first = t.nodes[0].first_child;
    let total_len = t.nodes.len();
    let mut imports: Vec<String> = Vec::new();
    let mut wildcard: Vec<String> = Vec::new();
    let mut statics: Vec<String> = Vec::new();
    let mut k: usize = 0;
    while k < cnt
        invariant
            t.wf(),
            cnt == t.nchildren(0),
            first == t.nodes@[0].first_child,
            first + cnt <= total_len,
            total_len == t.nodes@.len(),
            k <= cnt,
            imports_from(t@, 0, 0) == strings_view(imports@) + imports_from(t@, k as int, 0),
            imports_from(t@, 0, 1) == strings_view(wildcard@) + imports_from(t@, k as int, 1),
            imports_from(t@, 0, 2) == strings_view(statics@) + imports_from(t@, k as int, 2),
        decreases cnt - k,
    {
        let c = first + k;
        let ghost i0 = strings_view(imports@);
        let ghost i1 = strings_view(wildcard@);
        let ghost i2 = strings_view(statics@);
        if kind_is(t, c, "import_declaration") {
            match text_of(t, c) {
                Some(text) => {
                    let (which, entry) = classify_import(&text);
                    let s = from_chars(entry.as_slice());
                    if which == 1 {
                        wildcard.push(s);
                    } else if which == 2 {
                        statics.push(s);
                    } else {
                        imports.push(s);
                    }
                },
                None => {},
            }
        }
        proof {
            assert(strings_view(imports@) =~= i0 + (if t.kind(c as int) == "import_declaration"@
                && t.text(c as int) is Some && import_class(t.text(c as int)->0) == 0 {
                seq![import_entry(t.text(c as int)->0)]
            } else {
                Seq::empty()
            }));
            assert(strings_view(wildcard@) =~= i1 + (if t.kind(c as int)
                == "import_declaration"@ && t.text(c as int) is Some && import_class(
                t.text(c as int)->0,
            ) == 1 {
                seq![import_entry(t.text(c as int)->0)]
            } else {
                Seq::empty()
            }));
            assert(strings_view(statics@) =~= i2 + (if t.kind(c as int) == "import_declaration"@
                && t.text(c as int) is Some && import_class(t.text(c as int)->0) == 2 {
                seq![import_entry(t.text(c as int)->0)]
            } else {
                Seq::empty()
            }));
            assert(imports_from(t@, k as int, 0) =~= (if t.kind(c as int)
                == "import_declaration"@ && t.text(c as int) is Some && import_class(
                t.text(c as int)->0,
            ) == 0 {
                seq![import_entry(t.text(c as int)->0)]
            } else {
                Seq::empty()
            }) + imports_from(t@, k + 1, 0));
            assert(imports_from(t@, k as int, 1) =~= (if t.kind(c as int)
                == "import_declaration"@ && t.text(c as int) is Some && import_class(
                t.text(c as int)->0,
            ) == 1 {
                seq![import_entry(t.text(c as int)->0)]
            } else {
                Seq::empty()
            }) + imports_from(t@, k + 1, 1));
            assert(imports_from(t@, k as int, 2) =~= (if t.kind(c as int)
                == "import_declaration"@ && t.text(c as int) is Some && import_class(
                t.text(c as int)->0,
            ) == 2 {
                seq![import_entry(t.text(c as int)->0)]
            } else {
                Seq::empty()
            }) + imports_from(t@, k + 1, 2));
        }
        k += 1;
    }
    proof {
        assert(strings_view(imports@) + imports_from(t@, cnt as int, 0) =~= strings_view(imports@));
        assert(strings_view(wildcard@) + imports_from(t@, cnt as int, 1) =~= strings_view(
            wildcard@,
        ));
        assert(strings_view(statics@) + imports_from(t@, cnt as int, 2) =~= strings_view(
            statics@,
        ));
    }
    (imports, wildcard, statics)
}

// --- modifiers and annotations ---------------------------------------------

/// Some child of modifiers node `c` has text `m`.
pub open spec fn modifier_in(t: TreeModel, c: int, m: Seq<char>) -> bool {
    exists|j: int| 0 <= j < t.nchildren(c) && #[trigger] t.text(t.child(c, j)) == Some(m)
}

/// Node `i` carries modifier `m` (a child `modifiers` node with a child whose
/// text is `m`).
pub open spec fn has_modifier(t: TreeModel, i: int, m: Seq<char>) -> bool {
    exists|k: int|
        0 <= k < t.nchildren(i) && t.kind(#[trigger] t.child(i, k)) == "modifiers"@
            && modifier_in(t, t.child(i, k), m)
}

/// Index of the last `.` in `s[..j]`, or -1.
pub open spec fn last_dot_before(s: Seq<char>, j: int) -> int
    decreases j,
{
    if j <= 0 || j > s.len() {
        -1
    } else if s[j - 1] == '.' {
        j - 1
    } else {
        last_dot_before(s, j - 1)
    }
}

/// `s.rsplit('.').next()`: the part after the last `.`.
pub open spec fn last_segment(s: Seq<char>) -> Seq<char> {
    s.subrange(last_dot_before(s, s.len() as int) + 1, s.len() as int)
}

pub proof fn lemma_last_dot(s: Seq<char>, j: int)
    requires
        0 <= j <= s.len(),
    ensures
        -1 <= last_dot_before(s, j) < j,
    decreases j,
{
    if j > 0 && s[j - 1] != '.' {
        lemma_last_dot(s, j - 1);
    }
}

fn last_segment_exec(s: &Vec<char>) -> (r: Vec<char>)
    ensures
        r@ == last_segment(s@),
{
    let mut j = s.len();
    while j > 0 && s[j - 1] != '.'
        invariant
            j <= s.len(),
            last_dot_before(s@, s@.len() as int) == last_dot_before(s@, j as int),
        decreases j,
    {
        j -= 1;
    }
    proof {
        lemma_last_dot(s@, j as int);
    }
    copy_range(s, j, s.len())
}

/// The simple name of annotation node `c`.
pub open spec fn annotation_name(t: TreeModel, c: int) -> Option<Seq<char>> {
    if t.kind(c) == "marker_annotation"@ || t.kind(c) == "annotation"@ {
        match t.field(c, Field::Name) {
            Some(n) => match t.text(n as int) {
                Some(s) => Some(last_segment(s)),
                None => None,
            },
            None => None,
        }
    } else {
        None
    }
}

/// Some child of modifiers node `c` is an annotation named `name`.
pub open spec fn annotation_in(t: TreeModel, c: int, name: Seq<char>) -> bool {
    exists|j: int|
        0 <= j < t.nchildren(c) && #[trigger] annotation_name(t, t.child(c, j)) == Some(name)
}

/// Node `i` is annotated `@name` (or `@pkg.name`) among its modifiers.
pub open spec fn has_annotation(t: TreeModel, i: int, name: Seq<char>) -> bool {
    exists|k: int|
        0 <= k < t.nchildren(i) && t.kind(#[trigger] t.child(i, k)) == "modifiers"@
            && annotation_in(t, t.child(i, k), name)
}

fn annotation_name_exec(t: &SyntaxTree, c: usize) -> (r: Option<Vec<char>>)
    requires
        t.wf(),
        c < t.nodes@.len(),
    ensures
        r is Some <==> annotation_name(t@, c as int) is Some,
        r matches Some(v) ==> annotation_name(t@, c as int) == Some(v@),
{
    if kind_is(t, c, "marker_annotation") || kind_is(t, c, "annotation") {
        match field_of(t, c, Field::Name) {
            Some(n) => match text_of(t, n) {
                Some(s) => Some(last_segment_exec(&s)),
                None => None,
            },
            None => None,
        }
    } else {
        None
    }
}

/// Does node `i` have a `modifiers` child with a child matching `m`
/// (as text when `as_annotation` is false, as an annotation name otherwise)?
fn modifiers_match(t: &SyntaxTree, i: usize, m: &Vec<char>, as_annotation: bool) -> (r: bool)
    requires
        t.wf(),
        i < t.nodes@.len(),
    ensures
        !as_annotation ==> r == has_modifier(t@, i as int, m@),
        as_annotation ==> r == has_annotation(t@, i as int, m@),
{
    proof {
        assert(t.node_wf(i as int));
    }
    let cnt = t.nodes[i].child_count;
    let first = t.nodes[i].first_child;
    let total_len = t.nodes.len();
    let mut k: usize = 0;
    while k < cnt
        invariant
            t.wf(),
            i < t.nodes@.len(),
            cnt == t.nchildren(i as int),
            first == t.nodes@[i as int].first_child,
            first + cnt <= total_len,
            total_len == t.nodes@.len(),
            k <= cnt,
            forall|kk: int|
                0 <= kk < k ==> !(t.kind(#[trigger] t.child(i as int, kk)) == "modifiers"@ && (if as_annotation {
                    annotation_in(t@, t.child(i as int, kk), m@)
                } else {
                    modifier_in(t@, t.child(i as int, kk), m@)
                })),
        decreases cnt - k,
    {
        let c = first + k;
        assert(t.child(i as int, k as int) == c);
        if kind_is(t, c, "modifiers") {
            proof {
                assert(t.node_wf(c as int));
            }
            let cc = t.nodes[c].child_count;
            let cfirst = t.nodes[c].first_child;
            let mut j: usize = 0;
            while j < cc
                invariant
                    t.wf(),
                    c < t.nodes@.len(),
                    cc == t.nchildren(c as int),
                    i < t.nodes@.len(),
                    c == t.child(i as int, k as int),
                    t.kind(c as int) == "modifiers"@,
                    k < cnt,
                    cnt == t.nchildren(i as int),
                    cfirst == t.nodes@[c as int].first_child,
                    cfirst + cc <= total_len,
                    total_len == t.nodes@.len(),
                    j <= cc,
                    forall|jj: int|
                        0 <= jj < j ==> !(if as_annotation {
                            annotation_name(t@, #[trigger] t.child(c as int, jj)) == Some(m@)
                        } else {
                            t.text(t.child(c as int, jj)) == Some(m@)
                        }),
                decreases cc - j,
            {
                let d = cfirst + j;
                assert(t.child(c as int, j as int) == d);
                let hit = if as_annotation {
                    match annotation_name_exec(t, d) {
                        Some(v) => chars_eq(&v, m),
                        None => false,
                    }
                } else {
                    text_is(t, d, m)
                };
                proof {
                    if as_annotation && hit {
                        assert(annotation_name(t@, d as int) == Some(m@));
                        assert(annotation_name(t@, t.child(c as int, j as int)) == Some(m@));
                    }
                }
                if hit {
                    proof {
                        if as_annotation {
                            assert(annotation_in(t@, t.child(i as int, k as int), m@));
                            assert(has_annotation(t@, i as int, m@));
                        } else {
                            assert(modifier_in(t@, t.child(i as int, k as int), m@));
                            assert(has_modifier(t@, i as int, m@));
                        }
                    }
                    return true;
                }
                j += 1;
            }
            proof {
                if as_annotation {
                    assert(!annotation_in(t@, c as int, m@));
                } else {
                    assert(!modifier_in(t@, c as int, m@));
                }
            }
        }
        k += 1;
    }
    false
}

// --- type declarations -----------------------------------------------------

pub open spec fn is_type_decl_kind(k: Seq<char>) -> bool {
    ||| k == "class_declaration"@
    ||| k == "interface_declaration"@
    ||| k == "enum_declaration"@
    ||| k == "record_declaration"@
    ||| k == "annotation_type_declaration"@
}

/// The declared name of type declaration `c` (empty when unreadable).
pub open spec fn declared_name(t: TreeModel, c: int) -> Seq<char> {
    match t.field(c, Field::Name) {
        Some(n) => match t.text(n as int) {
            Some(s) => s,
            None => Seq::empty(),
        },
        None => Seq::empty(),
    }
}

/// Views of a vector of character vectors.
pub open spec fn vviews(v: Seq<Vec<char>>) -> Seq<Seq<char>> {
    v.map_values(|x: Vec<char>| x@)
}

/// `parts.join(".")`.
pub open spec fn join_dot(parts: Seq<Seq<char>>) -> Seq<char>
    decreases parts.len(),
{
    if parts.len() == 0 {
        Seq::empty()
    } else if parts.len() == 1 {
        parts[0]
    } else {
        join_dot(parts.drop_last()) + seq!['.'] + parts.last()
    }
}

/// Fully-qualified name of a type: package (when there is one), enclosing
/// types, the simple name.
pub open spec fn fqn_parts(pkg: Seq<char>, enc: Seq<Seq<char>>, simple: Seq<char>) -> Seq<
    Seq<char>,
> {
    (if pkg.len() > 0 {
        seq![pkg]
    } else {
        Seq::empty()
    }) + enc + seq![simple]
}

/// Type declarations below the children of `i` from child `k` on, inside
/// the types `enc`.
pub open spec fn types_below(
    t: TreeModel,
    i: int,
    k: int,
    pkg: Seq<char>,
    enc: Seq<Seq<char>>,
) -> Seq<TypeDeclView>
    decreases t.len() - i, t.nchildren(i) - k,
{
    if !(0 <= i < t.len()) || k < 0 || k >= t.nchildren(i) {
        Seq::empty()
    } else {
        let c = t.child(i, k);
        (if c <= i || c >= t.len() {
            Seq::empty()
        } else if is_type_decl_kind(t.kind(c)) && declared_name(t, c).len() > 0 {
            let simple = declared_name(t, c);
            seq![
                TypeDeclView {
                    fqn: join_dot(fqn_parts(pkg, enc, simple)),
                    simple,
                    line: (t.nodes[c].start_row + 1) as u32,
                    is_public: has_modifier(t, c, "public"@),
                },
            ] + types_below(t, c, 0, pkg, enc.push(simple))
        } else {
            types_below(t, c, 0, pkg, enc)
        }) + types_below(t, i, k + 1, pkg, enc)
    }
}

pub open spec fn types_of(t: TreeModel, pkg: Seq<char>) -> Seq<TypeDeclView> {
    types_below(t, 0, 0, pkg, Seq::empty())
}

fn join_dot_exec(parts: &Vec<Vec<char>>) -> (r: Vec<char>)
    ensures
        r@ == join_dot(vviews(parts@)),
{
    let ghost pv = vviews(parts@);
    let mut out: Vec<char> = Vec::new();
    let mut i: usize = 0;
    while i < parts.len()
        invariant
            i <= parts.len(),
            pv == vviews(parts@),
            out@ == join_dot(pv.take(i as int)),
        decreases parts.len() - i,
    {
        let ghost before = out@;
        if i > 0 {
            out.push('.');
        }
        let p = &parts[i];
        let mut j: usize = 0;
        while j < p.len()
            invariant
                j <= p.len(),
                i < parts.len(),
                p == parts@[i as int],
                out@ == before + (if i > 0 {
                    seq!['.']
                } else {
                    Seq::empty()
                }) + p@.take(j as int),
            decreases p.len() - j,
        {
            out.push(p[j]);
            j += 1;
            assert(p@.take(j as int) =~= p@.take(j - 1).push(p@[j - 1]));
        }
        proof {
            assert(p@.take(p.len() as int) =~= p@);
            assert(pv.take(i + 1).drop_last() =~= pv.take(i as int));
            if i == 0 {
                assert(pv.take(1) =~= seq![pv[0]]);
            }
        }
        i += 1;
    }
    assert(pv.take(parts.len() as int) =~= pv);
    out
}

fn collect_types(
    t: &SyntaxTree,
    i: usize,
    pkg: &Vec<char>,
    enc: &mut Vec<Vec<char>>,
    out: &mut Vec<TypeDecl>,
)
    requires
        t.wf(),
        i < t.nodes@.len(),
    ensures
        final(enc)@ == old(enc)@,
        seq_view(final(out)@) == seq_view(old(out)@) + types_below(
            t@,
            i as int,
            0,
            pkg@,
            old(enc)@.map_values(|v: Vec<char>| v@),
        ),
    decreases t.len() - i,
{
    let ghost enc0 = enc@;
    let ghost encv = vviews(enc@);
    let ghost out0 = seq_view(out@);
    proof {
        assert(t.node_wf(i as int));
    }
    let cnt = t.nodes[i].child_count;
    let first = t.nodes[i].first_child;
    let total_len = t.nodes.len();
    let kw_public = to_chars("public");
    let mut k: usize = 0;
    while k < cnt
        invariant
            t.wf(),
            i < t.nodes@.len(),
            t.node_wf(i as int),
            cnt == t.nchildren(i as int),
            first == t.nodes@[i as int].first_child,
            first + cnt <= total_len,
            total_len == t.nodes@.len(),
            kw_public@ == "public"@,
            k <= cnt,
            enc@ == enc0,
            encv == vviews(enc0),
            out0 + types_below(t@, i as int, 0, pkg@, encv) == seq_view(out@) + types_below(
                t@,
                i as int,
                k as int,
                pkg@,
                encv,
            ),
        decreases cnt - k,
    {
        let c = first + k;
        let ghost before = seq_view(out@);
        let is_type = kind_is(t, c, "class_declaration") || kind_is(t, c, "interface_declaration")
            || kind_is(t, c, "enum_declaration") || kind_is(t, c, "record_declaration") || kind_is(
            t,
            c,
            "annotation_type_declaration",
        );
        let simple: Vec<char> = match field_of(t, c, Field::Name) {
            Some(n) => match text_of(t, n) {
                Some(v) => v,
                None => Vec::new(),
            },
            None => Vec::new(),
        };
        if is_type && simple.len() > 0 {
            let mut parts: Vec<Vec<char>> = Vec::new();
            if pkg.len() > 0 {
                parts.push(copy_range(pkg, 0, pkg.len()));
            }
            proof {
                assert(pkg@.subrange(0, pkg@.len() as int) =~= pkg@);
                assert(encv.take(0) =~= Seq::<Seq<char>>::empty());
                if pkg@.len() > 0 {
                    assert(vviews(parts@) =~= seq![pkg@]);
                } else {
                    assert(vviews(parts@) =~= Seq::<Seq<char>>::empty());
                }
            }
            let mut e: usize = 0;
            while e < enc.len()
                invariant
                    e <= enc.len(),
                    enc@ == enc0,
                    vviews(parts@) == (if pkg@.len() > 0 {
                        seq![pkg@]
                    } else {
                        Seq::empty()
                    }) + encv.take(e as int),
                    encv == vviews(enc0),
                decreases enc.len() - e,
            {
                let ghost pv = vviews(parts@);
                parts.push(copy_range(&enc[e], 0, enc[e].len()));
                proof {
                    assert(enc@[e as int]@.subrange(0, enc@[e as int]@.len() as int) =~= enc@[e as int]@);
                    assert(vviews(parts@) =~= pv.push(encv[e as int]));
                    assert(encv.take(e + 1) =~= encv.take(e as int).push(encv[e as int]));
                }
                e += 1;
            }
            let ghost pv2 = vviews(parts@);
            parts.push(copy_range(&simple, 0, simple.len()));
            proof {
                assert(simple@.subrange(0, simple@.len() as int) =~= simple@);
                assert(encv.take(enc.len() as int) =~= encv);
                assert(vviews(parts@) =~= fqn_parts(pkg@, encv, simple@));
            }
            let fqn = join_dot_exec(&parts);
            let is_public = modifiers_match(t, c, &kw_public, false);
            proof {
                assert(t.node_wf(c as int));
            }
            let node_line = t.nodes[c].start_row + 1;
            out.push(
                TypeDecl {
                    fqn: from_chars(fqn.as_slice()),
                    simple: from_chars(simple.as_slice()),
                    line: node_line,
                    is_public,
                },
            );
            let ghost mid = seq_view(out@);
            enc.push(copy_range(&simple, 0, simple.len()));
            proof {
                assert(simple@.subrange(0, simple@.len() as int) =~= simple@);
                assert(vviews(enc@) =~= encv.push(simple@));
            }
            collect_types(t, c, pkg, enc, out);
            let _ = enc.pop();
            proof {
                assert(enc@ =~= enc0);
            }
        } else {
            collect_types(t, c, pkg, enc, out);
        }
        proof {
            assert(before + types_below(t@, i as int, k as int, pkg@, encv) =~= seq_view(out@)
                + types_below(t@, i as int, k + 1, pkg@, encv));
        }
        k += 1;
    }
    proof {
        assert(seq_view(out@) + types_below(t@, i as int, cnt as int, pkg@, encv) =~= seq_view(
            out@,
        ));
    }
}

// --- references ------------------------------------------------------------

/// What node `c` adds to the referenced type names (0), the used names (1)
/// and the annotation names (2).
pub open spec fn name_contrib(t: TreeModel, c: int, which: int) -> Set<Seq<char>> {
    let k = t.kind(c);
    if which == 0 {
        if k == "type_identifier"@ && t.text(c) is Some {
            set![t.text(c)->0]
        } else if annotation_name(t, c) is Some {
            set![annotation_name(t, c)->0]
        } else {
            Set::empty()
        }
    } else if which == 1 {
        if (k == "type_identifier"@ || k == "identifier"@) && t.text(c) is Some {
            set![t.text(c)->0]
        } else {
            Set::empty()
        }
    } else {
        if annotation_name(t, c) is Some {
            set![annotation_name(t, c)->0]
        } else {
            Set::empty()
        }
    }
}

/// Names of kind `which` at the descendants of `i` through children `k..`.
pub open spec fn names_below(t: TreeModel, i: int, k: int, which: int) -> Set<Seq<char>>
    decreases t.len() - i, t.nchildren(i) - k,
{
    if !(0 <= i < t.len()) || k < 0 || k >= t.nchildren(i) {
        Set::empty()
    } else {
        let c = t.child(i, k);
        (if c <= i || c >= t.len() {
            Set::empty()
        } else {
            name_contrib(t, c, which).union(names_below(t, c, 0, which))
        }).union(names_below(t, i, k + 1, which))
    }
}

/// Adds `x` to a vector used as a set.
fn insert_unique(v: &mut Vec<Vec<char>>, x: Vec<char>)
    requires
        vviews(old(v)@).no_duplicates(),
    ensures
        vviews(final(v)@).no_duplicates(),
        vviews(final(v)@).to_set() == vviews(old(v)@).to_set().insert(x@),
{
    let mut j: usize = 0;
    while j < v.len()
        invariant
            j <= v.len(),
            vviews(v@).no_duplicates(),
            forall|q: int| 0 <= q < j ==> v@[q]@ != x@,
        decreases v.len() - j,
    {
        if chars_eq(&v[j], &x) {
            proof {
                assert(vviews(v@)[j as int] == x@);
                assert(vviews(v@).to_set().insert(x@) =~= vviews(v@).to_set());
            }
            return;
        }
        j += 1;
    }
    let ghost before = vviews(v@);
    v.push(x);
    proof {
        assert(vviews(v@) =~= before.push(x@));
        assert forall|q: int| 0 <= q < before.len() implies before[q] != x@ by {
            assert(before[q] == v@[q]@);
        }
        assert(!before.contains(x@));
        assert forall|a: Seq<char>| vviews(v@).contains(a) <==> (before.contains(a) || a == x@) by {
            if before.contains(a) {
                let q = choose|q: int| 0 <= q < before.len() && before[q] == a;
                assert(vviews(v@)[q] == a);
            }
            if a == x@ {
                assert(vviews(v@)[before.len() as int] == a);
            }
            if vviews(v@).contains(a) {
                let q = choose|q: int| 0 <= q < vviews(v@).len() && vviews(v@)[q] == a;
                if q < before.len() {
                    assert(before[q] == a);
                }
            }
        }
        assert(vviews(v@).to_set() =~= before.to_set().insert(x@));
    }
}

proof fn lemma_name_kinds_distinct()
    ensures
        "type_identifier"@ != "identifier"@,
        "type_identifier"@ != "marker_annotation"@,
        "type_identifier"@ != "annotation"@,
        "identifier"@ != "marker_annotation"@,
        "identifier"@ != "annotation"@,
{
    reveal_strlit("type_identifier");
    reveal_strlit("identifier");
    reveal_strlit("marker_annotation");
    reveal_strlit("annotation");
    assert("type_identifier"@.len() != "identifier"@.len());
    assert("type_identifier"@.len() != "marker_annotation"@.len());
    assert("type_identifier"@.len() != "annotation"@.len());
    assert("identifier"@.len() != "marker_annotation"@.len());
    assert("identifier"@[0] != "annotation"@[0]);
}

fn add_names(t: &SyntaxTree, c: usize, s0v: &mut Vec<Vec<char>>, s1v: &mut Vec<Vec<char>>, s2v: &mut Vec<Vec<char>>)
    requires
        t.wf(),
        c < t.nodes@.len(),
        vviews(old(s0v)@).no_duplicates(),
        vviews(old(s1v)@).no_duplicates(),
        vviews(old(s2v)@).no_duplicates(),
    ensures
        vviews(final(s0v)@).no_duplicates(),
        vviews(final(s1v)@).no_duplicates(),
        vviews(final(s2v)@).no_duplicates(),
        vviews(final(s0v)@).to_set() == vviews(old(s0v)@).to_set().union(name_contrib(t@, c as int, 0)),
        vviews(final(s1v)@).to_set() == vviews(old(s1v)@).to_set().union(name_contrib(t@, c as int, 1)),
        vviews(final(s2v)@).to_set() == vviews(old(s2v)@).to_set().union(name_contrib(t@, c as int, 2)),
{
    let ghost s0 = vviews(s0v@).to_set();
    let ghost s1 = vviews(s1v@).to_set();
    let ghost s2 = vviews(s2v@).to_set();
    proof {
        lemma_name_kinds_distinct();
    }
    if kind_is(t, c, "type_identifier") {
        match text_of(t, c) {
            Some(v) => {
                let w = copy_range(&v, 0, v.len());
                proof {
                    assert(v@.subrange(0, v@.len() as int) =~= v@);
                }
                insert_unique(s0v, v);
                insert_unique(s1v, w);
            },
            None => {},
        }
    } else if kind_is(t, c, "identifier") {
        match text_of(t, c) {
            Some(v) => {
                insert_unique(s1v, v);
            },
            None => {},
        }
    } else {
        match annotation_name_exec(t, c) {
            Some(a) => {
                let w = copy_range(&a, 0, a.len());
                proof {
                    assert(a@.subrange(0, a@.len() as int) =~= a@);
                }
                insert_unique(s2v, a);
                insert_unique(s0v, w);
            },
            None => {},
        }
    }
    proof {
        assert(vviews(s0v@).to_set() =~= s0.union(name_contrib(t@, c as int, 0)));
        assert(vviews(s1v@).to_set() =~= s1.union(name_contrib(t@, c as int, 1)));
        assert(vviews(s2v@).to_set() =~= s2.union(name_contrib(t@, c as int, 2)));
    }
}

fn collect_references(
    t: &SyntaxTree,
    i: usize,
    s0v: &mut Vec<Vec<char>>,
    s1v: &mut Vec<Vec<char>>,
    s2v: &mut Vec<Vec<char>>,
)
    requires
        t.wf(),
        i < t.nodes@.len(),
        vviews(old(s0v)@).no_duplicates(),
        vviews(old(s1v)@).no_duplicates(),
        vviews(old(s2v)@).no_duplicates(),
    ensures
        vviews(final(s0v)@).no_duplicates(),
        vviews(final(s1v)@).no_duplicates(),
        vviews(final(s2v)@).no_duplicates(),
        vviews(final(s0v)@).to_set() == vviews(old(s0v)@).to_set().union(names_below(t@, i as int, 0, 0)),
        vviews(final(s1v)@).to_set() == vviews(old(s1v)@).to_set().union(names_below(t@, i as int, 0, 1)),
        vviews(final(s2v)@).to_set() == vviews(old(s2v)@).to_set().union(names_below(t@, i as int, 0, 2)),
    decreases t.len() - i,
{
    let ghost s0 = vviews(s0v@).to_set();
    let ghost s1 = vviews(s1v@).to_set();
    let ghost s2 = vviews(s2v@).to_set();
    proof {
        assert(t.node_wf(i as int));
    }
    let cnt = t.nodes[i].child_count;
    let first = t.nodes[i].first_child;
    let total_len = t.nodes.len();
    let mut k: usize = 0;
    while k < cnt
        invariant
            t.wf(),
            i < t.nodes@.len(),
            t.node_wf(i as int),
            cnt == t.nchildren(i as int),
            first == t.nodes@[i as int].first_child,
            first + cnt <= total_len,
            total_len == t.nodes@.len(),
            k <= cnt,
            vviews(s0v@).no_duplicates(),
            vviews(s1v@).no_duplicates(),
            vviews(s2v@).no_duplicates(),
            s0.union(names_below(t@, i as int, 0, 0)) == vviews(s0v@).to_set().union(names_below(t@, i as int, k as int, 0)),
            s1.union(names_below(t@, i as int, 0, 1)) == vviews(s1v@).to_set().union(names_below(t@, i as int, k as int, 1)),
            s2.union(names_below(t@, i as int, 0, 2)) == vviews(s2v@).to_set().union(names_below(t@, i as int, k as int, 2)),
        decreases cnt - k,
    {
        let c = first + k;
        let ghost a0 = vviews(s0v@).to_set();
        let ghost a1 = vviews(s1v@).to_set();
        let ghost a2 = vviews(s2v@).to_set();
        add_names(t, c, s0v, s1v, s2v);
        collect_references(t, c, s0v, s1v, s2v);
        proof {
            assert(a0.union(names_below(t@, i as int, k as int, 0)) =~= vviews(s0v@).to_set().union(names_below(t@, i as int, k + 1, 0)));
            assert(a1.union(names_below(t@, i as int, k as int, 1)) =~= vviews(s1v@).to_set().union(names_below(t@, i as int, k + 1, 1)));
            assert(a2.union(names_below(t@, i as int, k as int, 2)) =~= vviews(s2v@).to_set().union(names_below(t@, i as int, k + 1, 2)));
        }
        k += 1;
    }
    proof {
        assert(vviews(s0v@).to_set().union(names_below(t@, i as int, cnt as int, 0)) =~= vviews(s0v@).to_set());
        assert(vviews(s1v@).to_set().union(names_below(t@, i as int, cnt as int, 1)) =~= vviews(s1v@).to_set());
        assert(vviews(s2v@).to_set().union(names_below(t@, i as int, cnt as int, 2)) =~= vviews(s2v@).to_set());
    }
}

/// Strings of a vector of character vectors.
fn to_strings(v: &Vec<Vec<char>>) -> (r: Vec<String>)
    ensures
        strings_view(r@) == vviews(v@),
{
    let mut out: Vec<String> = Vec::new();
    let mut j: usize = 0;
    while j < v.len()
        invariant
            j <= v.len(),
            strings_view(out@) == vviews(v@).take(j as int),
        decreases v.len() - j,
    {
        out.push(from_chars(v[j].as_slice()));
        proof {
            assert(vviews(v@).take(j + 1) =~= vviews(v@).take(j as int).push(v@[j as int]@));
            assert(strings_view(out@) =~= vviews(v@).take(j + 1));
        }
        j += 1;
    }
    assert(vviews(v@).take(v.len() as int) =~= vviews(v@));
    out
}

// --- exported methods ------------------------------------------------------

/// Public or protected, and not an `@Override`.
pub open spec fn is_exported_method(t: TreeModel, c: int) -> bool {
    (has_modifier(t, c, "public"@) || has_modifier(t, c, "protected"@)) && !has_annotation(
        t,
        c,
        "Override"@,
    )
}

/// The member that node `c` exports, if any.
pub open spec fn export_at(t: TreeModel, c: int) -> Seq<MemberDeclView> {
    if t.kind(c) == "method_declaration"@ && is_exported_method(t, c) {
        match t.field(c, Field::Name) {
            Some(n) => match t.text(n as int) {
                Some(s) => if s != "main"@ {
                    seq![MemberDeclView { name: s, line: (t.nodes[c].start_row + 1) as u32 }]
                } else {
                    Seq::empty()
                },
                None => Seq::empty(),
            },
            None => Seq::empty(),
        }
    } else {
        Seq::empty()
    }
}

/// Exported methods below the children of `i` from child `k` on, in pre-order.
pub open spec fn exports_below(t: TreeModel, i: int, k: int) -> Seq<MemberDeclView>
    decreases t.len() - i, t.nchildren(i) - k,
{
    if !(0 <= i < t.len()) || k < 0 || k >= t.nchildren(i) {
        Seq::empty()
    } else {
        let c = t.child(i, k);
        (if c <= i || c >= t.len() {
            Seq::empty()
        } else {
            export_at(t, c) + exports_below(t, c, 0)
        }) + exports_below(t, i, k + 1)
    }
}

fn export_at_exec(t: &SyntaxTree, c: usize, out: &mut Vec<MemberDecl>)
    requires
        t.wf(),
        c < t.nodes@.len(),
    ensures
        seq_view(final(out)@) == seq_view(old(out)@) + export_at(t@, c as int),
{
    let ghost before = seq_view(out@);
    if kind_is(t, c, "method_declaration") {
        let kw_public = to_chars("public");
        let kw_protected = to_chars("protected");
        let kw_override = to_chars("Override");
        let kw_main = to_chars("main");
        let exported = (modifiers_match(t, c, &kw_public, false) || modifiers_match(
            t,
            c,
            &kw_protected,
            false,
        )) && !modifiers_match(t, c, &kw_override, true);
        if exported {
            match field_of(t, c, Field::Name) {
                Some(n) => match text_of(t, n) {
                    Some(s) => {
                        if !chars_eq(&s, &kw_main) {
                            proof {
                                assert(t.node_wf(c as int));
                            }
                            let line = t.nodes[c].start_row + 1;
                            out.push(MemberDecl { name: from_chars(s.as_slice()), line });
                        }
                    },
                    None => {},
                },
                None => {},
            }
        }
    }
    assert(seq_view(out@) =~= before + export_at(t@, c as int));
}

fn collect_public_methods(t: &SyntaxTree, i: usize, out: &mut Vec<MemberDecl>)
    requires
        t.wf(),
        i < t.nodes@.len(),
    ensures
        seq_view(final(out)@) == seq_view(old(out)@) + exports_below(t@, i as int, 0),
    decreases t.len() - i,
{
    let ghost out0 = seq_view(out@);
    proof {
        assert(t.node_wf(i as int));
    }
    let cnt = t.nodes[i].child_count;
    let first = t.nodes[i].first_child;
    let total_len = t.nodes.len();
    let mut k: usize = 0;
    while k < cnt
        invariant
            t.wf(),
            i < t.nodes@.len(),
            t.node_wf(i as int),
            cnt == t.nchildren(i as int),
            first == t.nodes@[i as int].first_child,
            first + cnt <= total_len,
            total_len == t.nodes@.len(),
            k <= cnt,
            out0 + exports_below(t@, i as int, 0) == seq_view(out@) + exports_below(
                t@,
                i as int,
                k as int,
            ),
        decreases cnt - k,
    {
        let c = first + k;
        let ghost before = seq_view(out@);
        export_at_exec(t, c, out);
        collect_public_methods(t, c, out);
        proof {
            assert(before + exports_below(t@, i as int, k as int) =~= seq_view(out@)
                + exports_below(t@, i as int, k + 1));
        }
        k += 1;
    }
    proof {
        assert(seq_view(out@) + exports_below(t@, i as int, cnt as int) =~= seq_view(out@));
    }
}

// --- the whole file --------------------------------------------------------

/// Number of `c` in `s[..k]`.
pub open spec fn count_char(s: Seq<char>, c: char, k: int) -> nat
    decreases k,
{
    if k <= 0 || k > s.len() {
        0
    } else {
        count_char(s, c, k - 1) + if s[k - 1] == c {
            1nat
        } else {
            0nat
        }
    }
}

/// `source.split('\n').count() as u32`.
pub open spec fn line_count_of(s: Seq<char>) -> u32 {
    (count_char(s, '\n', s.len() as int) + 1) as u32
}

fn line_count_exec(s: &Vec<char>) -> (r: u32)
    ensures
        r == line_count_of(s@),
{
    let mut k: usize = 0;
    let mut n: u64 = 0;
    while k < s.len()
        invariant
            k <= s.len(),
            n == count_char(s@, '\n', k as int),
            n <= k,
        decreases s.len() - k,
    {
        if s[k] == '\n' {
            n += 1;
        }
        k += 1;
    }
    let total: u128 = n as u128 + 1;
    #[verifier::truncate]
    (total as u32)
}

/// What a file declares and references, read from its syntax tree.
pub open spec fn file_info_of(path: Seq<char>, t: TreeModel) -> FileInfoView {
    FileInfoView {
        path,
        package: package_of(t),
        imports: imports_from(t, 0, 0),
        wildcard_imports: imports_from(t, 0, 1),
        static_imports: imports_from(t, 0, 2),
        types: types_of(t, package_of(t)),
        referenced: names_below(t, 0, 0, 0),
        used_names: names_below(t, 0, 0, 1),
        exports: exports_below(t, 0, 0),
        functions: functions_of(t),
        line_count: line_count_of(t.source),
        annotations: names_below(t, 0, 0, 2),
    }
}

/// Builds the [`FileInfo`] of a file from its syntax tree.
pub fn file_info(path: String, t: &SyntaxTree) -> (r: FileInfo)
    requires
        t.wf(),
    ensures
        r.view_of() == file_info_of(path@, t@),
        r.sets_distinct(),
{
    let package = find_package(t);
    let (imports, wildcard_imports, static_imports) = collect_imports(t);
    let mut types: Vec<TypeDecl> = Vec::new();
    let mut enc: Vec<Vec<char>> = Vec::new();
    proof {
        assert(seq_view(types@) =~= Seq::<TypeDeclView>::empty());
        assert(vviews(enc@) =~= Seq::<Seq<char>>::empty());
    }
    collect_types(t, 0, &package, &mut enc, &mut types);
    let mut s0v: Vec<Vec<char>> = Vec::new();
    let mut s1v: Vec<Vec<char>> = Vec::new();
    let mut s2v: Vec<Vec<char>> = Vec::new();
    proof {
        assert(vviews(s0v@) =~= Seq::<Seq<char>>::empty());
        assert(vviews(s1v@) =~= Seq::<Seq<char>>::empty());
        assert(vviews(s2v@) =~= Seq::<Seq<char>>::empty());
    }
    collect_references(t, 0, &mut s0v, &mut s1v, &mut s2v);
    let mut exports: Vec<MemberDecl> = Vec::new();
    proof {
        assert(seq_view(exports@) =~= Seq::<MemberDeclView>::empty());
    }
    collect_public_methods(t, 0, &mut exports);
    let functions = functions_in(t);
    let line_count = line_count_exec(&t.source);
    let referenced = to_strings(&s0v);
    let used_names = to_strings(&s1v);
    let annotations = to_strings(&s2v);
    proof {
        assert(Set::<Seq<char>>::empty().union(names_below(t@, 0, 0, 0)) =~= names_below(t@, 0, 0, 0));
        assert(Set::<Seq<char>>::empty().union(names_below(t@, 0, 0, 1)) =~= names_below(t@, 0, 0, 1));
        assert(Set::<Seq<char>>::empty().union(names_below(t@, 0, 0, 2)) =~= names_below(t@, 0, 0, 2));
        assert(Seq::<Seq<char>>::empty().to_set() =~= Set::<Seq<char>>::empty());
        assert(seq_view(types@) =~= types_of(t@, package_of(t@)));
        assert(seq_view(exports@) =~= exports_below(t@, 0, 0));
    }
    FileInfo {
        path,
        package: from_chars(package.as_slice()),
        imports,
        wildcard_imports,
        static_imports,
        types,
        referenced,
        used_names,
        exports,
        functions,
        line_count,
        annotations,
    }
}

/// Parses one Java file: what [`file_info_of`] says of the syntax tree of
/// the source; `None` exactly when tree-sitter yields no tree, or one that
/// does not fit a [`SyntaxTree`].
pub fn parse_file(path: String, source: &str) -> (r: Option<FileInfo>)
    ensures
        r is Some <==> java_parses(source@) && tree_fits(source@),
        r matches Some(f) ==> f.sets_distinct() && f.view_of() == file_info_of(
            path@,
            syntax_of(source@),
        ),
{
    match parse(source) {
        Some(tree) => match build_tree(source, &tree) {
            Some(t) => Some(file_info(path, &t)),
            None => None,
        },
        None => None,
    }
}

/// The functions the file parser records for a source are those the
/// function extractor returns for it.
pub proof fn lemma_file_functions_are_extracted(path: Seq<char>, src: Seq<char>)
    ensures
        file_info_of(path, syntax_of(src)).functions == crate::java::extract::functions_of(
            syntax_of(src),
        ),
{
}

} // verus!
