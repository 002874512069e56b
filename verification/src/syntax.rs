//! The surface model the rename refactor reads: for every document of
//! the workspace, the declaration sites, element uses, export
//! specifiers and import specifiers of its syntax tree, each with the
//! source span of the tokens the refactor may rewrite.
//!
//! The module loader (an external collaborator) builds this model: it
//! resolves each import's path, fills the per-document symbol
//! registries, and lists the documents so that an importing document
//! precedes the document it imports from — the import relation is
//! acyclic, so such an order exists.

use vstd::prelude::*;
use vstd::multiset::Multiset;

verus! {

/// A byte range of one document's source text.
#[derive(Clone, Copy, PartialEq, Eq, Structural)]
pub struct Span {
    pub start: usize,
    pub end: usize,
}

/// One text replacement of the edit set the rename refactor computes:
/// in document `doc` (an index into the workspace), replace the text at
/// `span` by `new_text` — `None` deletes the spanned text, as when a
/// now-redundant alias clause is removed.
pub struct TextEdit {
    pub doc: usize,
    pub span: Span,
    pub new_text: Option<String>,
}

/// An element use site: the base type's qualified name as written
/// (absent for an anonymous wrapper node), the span of that name, and
/// the child nodes below it.
pub struct SyntaxElement {
    pub qualified_name: Option<String>,
    pub qualified_name_span: Span,
    pub children: Vec<SubNode>,
}

/// One child of an element node: a plain sub-element, a `for` wrapper,
/// an `if` wrapper — each holding the wrapped element — or any other
/// kind of node, which the rename pass does not descend into.
pub enum SubNode {
    Sub(SyntaxElement),
    Repeated(SyntaxElement),
    Conditional(SyntaxElement),
    Other,
}

/// A component declaration: its declared name, the span of the declared
/// identifier, and the root element of its body.
pub struct ComponentDecl {
    pub name: String,
    pub name_span: Span,
    pub root: SyntaxElement,
}

/// The `as` clause of an export specifier: the external alias and the
/// byte offset just after its token (the removal span of a redundant
/// alias runs from the internal name's end to here).
pub struct ExportAlias {
    pub name: String,
    pub end: usize,
}

/// One entry of an `export { ... }` list: the internal name, its span,
/// and the optional external alias.
pub struct ExportSpecifier {
    pub internal: String,
    pub internal_span: Span,
    pub external: Option<ExportAlias>,
}

/// One export declaration of a document: a specifier list, possibly a
/// directly exported component, and exported struct and enum
/// declarations.
pub struct ExportsList {
    pub specifiers: Vec<ExportSpecifier>,
    pub component: Option<ComponentDecl>,
    pub struct_names: Vec<String>,
    pub enum_names: Vec<String>,
}

/// The `as` clause of an import identifier: the local alias and the
/// byte offset just after its token.
pub struct ImportAlias {
    pub name: String,
    pub end: usize,
}

/// One name of an import list: the external name as written in the
/// source document, its span, and the optional local alias.
pub struct ImportIdentifier {
    pub external: String,
    pub external_span: Span,
    pub internal: Option<ImportAlias>,
}

/// One `import { ... } from "..."` of a document; the loader has
/// resolved the quoted path against the importing document's directory.
pub struct ImportSpecifier {
    pub resolved_path: String,
    pub identifiers: Vec<ImportIdentifier>,
}

/// One loaded document: its resolved path (its identity in the
/// workspace), its declarations and its import/export tables, plus the
/// local symbol registry the loader built (type names and element
/// names, each unique within the document).
pub struct SourceDocument {
    pub path: String,
    pub is_builtin: bool,
    pub components: Vec<ComponentDecl>,
    pub exports: Vec<ExportsList>,
    pub imports: Vec<ImportSpecifier>,
    pub local_types: Vec<String>,
    pub local_elements: Vec<String>,
}

/// A read-only snapshot of the loaded workspace.
pub struct Workspace {
    pub documents: Vec<SourceDocument>,
}

/// Some string of the list reads `v`.
pub open spec fn contains_view(s: Seq<String>, v: Seq<char>) -> bool {
    exists|i: int| 0 <= i < s.len() && (#[trigger] s[i])@ == v
}

/// The documents' paths are distinct, and the loader listed the
/// documents so that an importing document precedes the document its
/// import resolves to; the import relation being acyclic, the rename
/// propagation terminates.
pub open spec fn workspace_wf(w: Workspace) -> bool {
    &&& forall|i: int, j: int|
        0 <= i < j < w.documents@.len() ==> (#[trigger] w.documents@[i]).path@ != (
        #[trigger] w.documents@[j]).path@
    &&& forall|i: int, k: int, j: int|
        0 <= i < w.documents@.len() && 0 <= k < w.documents@[i].imports@.len() && 0 <= j
            < w.documents@.len() && (#[trigger] w.documents@[i].imports@[k]).resolved_path@ == (
        #[trigger] w.documents@[j]).path@ ==> i < j
}

/// Lexicographic order on strings by character scalar value.
pub open spec fn str_le(a: Seq<char>, b: Seq<char>) -> bool
    decreases a.len(),
{
    if a.len() == 0 {
        true
    } else if b.len() == 0 {
        false
    } else if (a[0] as u32) < (b[0] as u32) {
        true
    } else if (a[0] as u32) > (b[0] as u32) {
        false
    } else {
        str_le(a.drop_first(), b.drop_first())
    }
}

pub proof fn lemma_str_le_total(a: Seq<char>, b: Seq<char>)
    ensures
        str_le(a, b) || str_le(b, a),
    decreases a.len(),
{
    if a.len() > 0 && b.len() > 0 && (a[0] as u32) == (b[0] as u32) {
        lemma_str_le_total(a.drop_first(), b.drop_first());
    }
}

pub proof fn lemma_str_le_trans(a: Seq<char>, b: Seq<char>, c: Seq<char>)
    requires
        str_le(a, b),
        str_le(b, c),
    ensures
        str_le(a, c),
    decreases a.len(),
{
    if a.len() > 0 && b.len() > 0 && c.len() > 0 {
        if (a[0] as u32) == (b[0] as u32) && (b[0] as u32) == (c[0] as u32) {
            lemma_str_le_trans(a.drop_first(), b.drop_first(), c.drop_first());
        }
    }
}

/// Compare two strings in the lexicographic order `str_le`.
pub fn string_le(a: &String, b: &String) -> (r: bool)
    ensures
        r == str_le(a@, b@),
{
    let a_str = a.as_str();
    let b_str = b.as_str();
    let a_len = a_str.unicode_len();
    let b_len = b_str.unicode_len();
    let mut i: usize = 0;
    proof {
        assert(a@.skip(0) =~= a@);
        assert(b@.skip(0) =~= b@);
    }
    loop
        invariant
            i <= a_len,
            i <= b_len,
            a_len == a@.len(),
            b_len == b@.len(),
            a_str@ == a@,
            b_str@ == b@,
            str_le(a@, b@) == str_le(a@.skip(i as int), b@.skip(i as int)),
        decreases a_len - i,
    {
        if i == a_len {
            proof {
                assert(a@.skip(i as int).len() == 0);
            }
            return true;
        }
        if i == b_len {
            proof {
                assert(b@.skip(i as int).len() == 0);
                assert(a@.skip(i as int).len() > 0);
            }
            return false;
        }
        let ca = a_str.get_char(i);
        let cb = b_str.get_char(i);
        proof {
            assert(a@.skip(i as int)[0] == a@[i as int]);
            assert(b@.skip(i as int)[0] == b@[i as int]);
            assert(a@.skip(i as int).drop_first() =~= a@.skip(i as int + 1));
            assert(b@.skip(i as int).drop_first() =~= b@.skip(i as int + 1));
        }
        if (ca as u32) < (cb as u32) {
            return true;
        }
        if (ca as u32) > (cb as u32) {
            return false;
        }
        i = i + 1;
    }
}

pub open spec fn sorted_by_str_le(s: Seq<Seq<char>>) -> bool {
    forall|i: int, j: int| 0 <= i <= j < s.len() ==> str_le(#[trigger] s[i], #[trigger] s[j])
}

pub open spec fn views_of(s: Seq<String>) -> Seq<Seq<char>> {
    s.map_values(|x: String| x@)
}

/// First position of the sorted list at or after which `x` belongs.
fn lower_bound(v: &Vec<String>, x: &String) -> (p: usize)
    ensures
        p <= v@.len(),
        forall|j: int| 0 <= j < p ==> !str_le(x@, (#[trigger] v@[j])@),
        p < v@.len() ==> str_le(x@, v@[p as int]@),
{
    let mut p: usize = 0;
    let n = v.len();
    while p < n
        invariant
            n == v@.len(),
            p <= n,
            forall|j: int| 0 <= j < p ==> !str_le(x@, (#[trigger] v@[j])@),
        decreases n - p,
    {
        if string_le(x, &v[p]) {
            return p;
        }
        p = p + 1;
    }
    p
}

/// Insert `x` into the sorted list `v`, keeping it sorted; the result
/// holds the same strings plus `x`.
pub fn sorted_insert(v: &mut Vec<String>, x: String)
    requires
        sorted_by_str_le(views_of(old(v)@)),
    ensures
        sorted_by_str_le(views_of(final(v)@)),
        views_of(final(v)@).to_multiset() == views_of(old(v)@).to_multiset().insert(x@),
{
    let ghost n = old(v)@.len() as int;
    let p = lower_bound(v, &x);
    v.insert(p, x);
    proof {
        broadcast use vstd::seq_lib::group_to_multiset_ensures;
        broadcast use vstd::multiset::group_multiset_axioms;

        let vs0 = views_of(old(v)@);
        let vs = views_of(v@);
        assert(vs =~= vs0.insert(p as int, x@));
        assert forall|i: int, j: int| 0 <= i <= j < vs.len() implies str_le(
            #[trigger] vs[i],
            #[trigger] vs[j],
        ) by {
            let oi = if i < p {
                i
            } else {
                i - 1
            };
            let oj = if j < p {
                j
            } else {
                j - 1
            };
            if i == j {
                if i == p {
                    lemma_str_le_total(x@, x@);
                } else {
                    assert(str_le(vs0[oi], vs0[oi]));
                }
            } else {
                if j < p {
                    assert(str_le(vs0[oi], vs0[oj]));
                } else if j == p {
                    lemma_str_le_total(x@, vs0[oi]);
                } else if i == p {
                    if oj == p {
                    } else {
                        lemma_str_le_trans(x@, vs0[p as int], vs0[oj]);
                    }
                } else if i < p {
                    assert(str_le(vs0[oi], vs0[oj]));
                } else {
                    assert(str_le(vs0[oi], vs0[oj]));
                }
            }
        }
        let t = vs0.take(p as int);
        let sk = vs0.skip(p as int);
        let s1 = seq![x@];
        assert(vs0.insert(p as int, x@) =~= t + s1 + sk);
        vstd::seq_lib::lemma_multiset_commutative(t + s1, sk);
        vstd::seq_lib::lemma_multiset_commutative(t, s1);
        vstd::seq_lib::lemma_multiset_commutative(t, sk);
        assert(t + sk =~= vs0);
        assert(s1.to_multiset() =~= Multiset::empty().insert(x@)) by {
            assert(Seq::<Seq<char>>::empty().push(x@) =~= s1);
            assert(Seq::<Seq<char>>::empty().to_multiset().len() == 0);
            assert(Seq::<Seq<char>>::empty().to_multiset() =~= Multiset::<Seq<char>>::empty());
        }
        assert(views_of(v@).to_multiset() =~= views_of(old(v)@).to_multiset().insert(x@));
    }
}

} // verus!
