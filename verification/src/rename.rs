//! The rename refactor: given a component type's declaration site and a
//! proposed new name, either fail with a conflict error or compute the
//! set of text edits that renames every visible occurrence of the type —
//! local uses, exports, and every importing document's import,
//! re-export and use sites — leaving unrelated same-named declarations
//! untouched.  The engine never mutates the object tree: it only reads
//! the workspace model and produces edits; nothing is emitted on
//! failure.

use vstd::prelude::*;

use crate::syntax::ComponentDecl;
use crate::syntax::ExportsList;
use crate::syntax::SourceDocument;
use crate::syntax::SubNode;
use crate::syntax::SyntaxElement;
use crate::syntax::TextEdit;
use crate::syntax::Workspace;

verus! {

/// The edit renaming this element's own base-type name, when it reads
/// `old`.
pub open spec fn elem_own_edits(el: SyntaxElement, old: Seq<char>, new: String, doc: usize) -> Seq<
    TextEdit,
> {
    match el.qualified_name {
        Some(n) => if n@ == old {
            seq![TextEdit { doc, span: el.qualified_name_span, new_text: Some(new) }]
        } else {
            Seq::empty()
        },
        None => Seq::empty(),
    }
}

/// Every edit renaming a use of `old` as a base type in this element's
/// subtree, in source order.
pub open spec fn elem_edits(el: SyntaxElement, old: Seq<char>, new: String, doc: usize) -> Seq<
    TextEdit,
>
    decreases el, 1int, 0int,
{
    elem_own_edits(el, old, new, doc) + nodes_edits(el.children@, 0, old, new, doc)
}

pub open spec fn nodes_edits(s: Seq<SubNode>, i: int, old: Seq<char>, new: String, doc: usize) -> Seq<
    TextEdit,
>
    decreases s, 0int, s.len() - i,
{
    if i < 0 || i >= s.len() {
        Seq::empty()
    } else {
        sub_edits(s[i], old, new, doc) + nodes_edits(s, i + 1, old, new, doc)
    }
}

pub open spec fn sub_edits(sn: SubNode, old: Seq<char>, new: String, doc: usize) -> Seq<TextEdit>
    decreases sn, 1int, 0int,
{
    match sn {
        SubNode::Sub(e) => elem_edits(e, old, new, doc),
        SubNode::Repeated(e) => elem_edits(e, old, new, doc),
        SubNode::Conditional(e) => elem_edits(e, old, new, doc),
        SubNode::Other => Seq::empty(),
    }
}

/// Rewrite every reference to the type `old_type` used as a base type
/// anywhere in this element's subtree — plain sub-elements and the
/// wrapped element of every `for` and `if` form included — appending
/// one edit per occurrence, in source order.
pub fn replace_element_types(
    element: &SyntaxElement,
    old_type: &String,
    new_type: &String,
    doc: usize,
    edits: &mut Vec<TextEdit>,
)
    ensures
        final(edits)@ == old(edits)@ + elem_edits(*element, old_type@, *new_type, doc),
    decreases *element,
{
    let ghost goal = old(edits)@ + elem_edits(*element, old_type@, *new_type, doc);
    if let Some(name) = &element.qualified_name {
        if *name == *old_type {
            edits.push(
                TextEdit {
                    doc,
                    span: element.qualified_name_span,
                    new_text: Some(new_type.clone()),
                },
            );
        }
    }
    proof {
        assert(elem_edits(*element, old_type@, *new_type, doc) == elem_own_edits(
            *element,
            old_type@,
            *new_type,
            doc,
        ) + nodes_edits(element.children@, 0, old_type@, *new_type, doc));
        assert(edits@ =~= old(edits)@ + elem_own_edits(*element, old_type@, *new_type, doc));
        assert(edits@ + nodes_edits(element.children@, 0, old_type@, *new_type, doc) =~= goal);
    }
    let mut i: usize = 0;
    while i < element.children.len()
        invariant
            i <= element.children@.len(),
            edits@ + nodes_edits(element.children@, i as int, old_type@, *new_type, doc) == goal,
        decreases element.children@.len() - i,
    {
        let ghost before = edits@;
        match &element.children[i] {
            SubNode::Sub(e) => replace_element_types(e, old_type, new_type, doc, edits),
            SubNode::Repeated(e) => replace_element_types(e, old_type, new_type, doc, edits),
            SubNode::Conditional(e) => replace_element_types(e, old_type, new_type, doc, edits),
            SubNode::Other => {},
        }
        proof {
            assert(edits@ =~= before + sub_edits(
                element.children@[i as int],
                old_type@,
                *new_type,
                doc,
            ));
            assert(edits@ + nodes_edits(element.children@, i as int + 1, old_type@, *new_type, doc)
                =~= before + nodes_edits(element.children@, i as int, old_type@, *new_type, doc));
        }
        i = i + 1;
    }
    proof {
        assert(edits@ =~= edits@ + nodes_edits(
            element.children@,
            element.children@.len() as int,
            old_type@,
            *new_type,
            doc,
        ));
    }
}

pub open spec fn comps_edits(
    s: Seq<ComponentDecl>,
    i: int,
    old: Seq<char>,
    new: String,
    doc: usize,
) -> Seq<TextEdit>
    decreases s.len() - i,
{
    if i < 0 || i >= s.len() {
        Seq::empty()
    } else {
        elem_edits(s[i].root, old, new, doc) + comps_edits(s, i + 1, old, new, doc)
    }
}

pub open spec fn export_comps_edits(
    s: Seq<ExportsList>,
    i: int,
    old: Seq<char>,
    new: String,
    doc: usize,
) -> Seq<TextEdit>
    decreases s.len() - i,
{
    if i < 0 || i >= s.len() {
        Seq::empty()
    } else {
        (match s[i].component {
            Some(c) => elem_edits(c.root, old, new, doc),
            None => Seq::empty(),
        }) + export_comps_edits(s, i + 1, old, new, doc)
    }
}

/// Every edit renaming a local element use of `old` in the document:
/// the body of every top-level component declaration, then of every
/// exported component declaration.
pub open spec fn clet_edits(d: SourceDocument, old: Seq<char>, new: String, doc: usize) -> Seq<
    TextEdit,
> {
    comps_edits(d.components@, 0, old, new, doc) + export_comps_edits(d.exports@, 0, old, new, doc)
}

/// Rewrite every local element use of the type within the document:
/// every top-level and every exported component declaration's body.
pub fn change_local_element_type(
    document: &SourceDocument,
    old_type: &String,
    new_type: &String,
    doc: usize,
    edits: &mut Vec<TextEdit>,
)
    ensures
        final(edits)@ == old(edits)@ + clet_edits(*document, old_type@, *new_type, doc),
{
    let ghost goal = old(edits)@ + clet_edits(*document, old_type@, *new_type, doc);
    let ghost mid = old(edits)@ + comps_edits(document.components@, 0, old_type@, *new_type, doc);
    let mut i: usize = 0;
    while i < document.components.len()
        invariant
            i <= document.components@.len(),
            edits@ + comps_edits(document.components@, i as int, old_type@, *new_type, doc) == mid,
        decreases document.components@.len() - i,
    {
        let ghost before = edits@;
        replace_element_types(&document.components[i].root, old_type, new_type, doc, edits);
        proof {
            assert(edits@ + comps_edits(
                document.components@,
                i as int + 1,
                old_type@,
                *new_type,
                doc,
            ) =~= before + comps_edits(document.components@, i as int, old_type@, *new_type, doc));
        }
        i = i + 1;
    }
    proof {
        assert(edits@ =~= mid);
        assert(edits@ + export_comps_edits(document.exports@, 0, old_type@, *new_type, doc)
            =~= goal);
    }
    let mut k: usize = 0;
    while k < document.exports.len()
        invariant
            k <= document.exports@.len(),
            edits@ + export_comps_edits(document.exports@, k as int, old_type@, *new_type, doc)
                == goal,
        decreases document.exports@.len() - k,
    {
        let ghost before = edits@;
        if let Some(c) = &document.exports[k].component {
            replace_element_types(&c.root, old_type, new_type, doc, edits);
        }
        proof {
            assert(edits@ + export_comps_edits(
                document.exports@,
                k as int + 1,
                old_type@,
                *new_type,
                doc,
            ) =~= before + export_comps_edits(
                document.exports@,
                k as int,
                old_type@,
                *new_type,
                doc,
            ));
        }
        k = k + 1;
    }
    proof {
        assert(edits@ =~= edits@ + export_comps_edits(
            document.exports@,
            document.exports@.len() as int,
            old_type@,
            *new_type,
            doc,
        ));
        assert(edits@ =~= goal);
    }
}

pub open spec fn names_in_specifiers(s: Seq<crate::syntax::ExportSpecifier>, i: int, t: Seq<char>) -> Seq<
    Seq<char>,
>
    decreases s.len() - i,
{
    if i < 0 || i >= s.len() {
        Seq::empty()
    } else {
        (if s[i].internal@ == t {
            match s[i].external {
                Some(al) => seq![al.name@],
                None => seq![t],
            }
        } else {
            Seq::empty()
        }) + names_in_specifiers(s, i + 1, t)
    }
}

pub open spec fn names_in_strings(s: Seq<String>, i: int, t: Seq<char>) -> Seq<Seq<char>>
    decreases s.len() - i,
{
    if i < 0 || i >= s.len() {
        Seq::empty()
    } else {
        (if s[i]@ == t {
            seq![t]
        } else {
            Seq::empty()
        }) + names_in_strings(s, i + 1, t)
    }
}

pub open spec fn names_in_list(l: ExportsList, t: Seq<char>) -> Seq<Seq<char>> {
    names_in_specifiers(l.specifiers@, 0, t) + (match l.component {
        Some(c) => if c.name@ == t {
            seq![t]
        } else {
            Seq::empty()
        },
        None => Seq::empty(),
    }) + names_in_strings(l.struct_names@, 0, t) + names_in_strings(l.enum_names@, 0, t)
}

/// The external names under which a type named `t` is exported by the
/// document, one entry per export site, before sorting.
pub open spec fn export_names(d: SourceDocument, i: int, t: Seq<char>) -> Seq<Seq<char>>
    decreases d.exports@.len() - i,
{
    if i < 0 || i >= d.exports@.len() {
        Seq::empty()
    } else {
        names_in_list(d.exports@[i], t) + export_names(d, i + 1, t)
    }
}

fn push_string_clone(out: &mut Vec<String>, s: &String)
    ensures
        final(out)@ == old(out)@.push(*s),
{
    out.push(s.clone());
}

/// Sort the strings into the lexicographic order, keeping multiplicity.
fn sort_strings(v: &Vec<String>) -> (r: Vec<String>)
    ensures
        crate::syntax::sorted_by_str_le(crate::syntax::views_of(r@)),
        crate::syntax::views_of(r@).to_multiset() == crate::syntax::views_of(v@).to_multiset(),
{
    let mut r: Vec<String> = Vec::new();
    let mut i: usize = 0;
    proof {
        broadcast use vstd::seq_lib::group_to_multiset_ensures;

        assert(crate::syntax::views_of(v@.take(0)) =~= Seq::<Seq<char>>::empty());
        assert(crate::syntax::views_of(r@) =~= Seq::<Seq<char>>::empty());
    }
    while i < v.len()
        invariant
            i <= v@.len(),
            crate::syntax::sorted_by_str_le(crate::syntax::views_of(r@)),
            crate::syntax::views_of(r@).to_multiset() == crate::syntax::views_of(
                v@.take(i as int),
            ).to_multiset(),
        decreases v@.len() - i,
    {
        let x = v[i].clone();
        crate::syntax::sorted_insert(&mut r, x);
        proof {
            broadcast use vstd::seq_lib::group_to_multiset_ensures;

            assert(crate::syntax::views_of(v@.take(i as int + 1)) =~= crate::syntax::views_of(
                v@.take(i as int),
            ).push(v@[i as int]@));
        }
        i = i + 1;
    }
    proof {
        assert(v@.take(v@.len() as int) =~= v@);
    }
    r
}

/// Collect the set of external names under which the type `name` is
/// exported by the document — an identifier may be exported several
/// times under different aliases — sorted lexicographically.
pub fn symbol_export_names(document: &SourceDocument, name: &String) -> (r: Vec<String>)
    ensures
        crate::syntax::sorted_by_str_le(crate::syntax::views_of(r@)),
        crate::syntax::views_of(r@).to_multiset() == export_names(*document, 0, name@).to_multiset(),
{
    let ghost full = export_names(*document, 0, name@);
    let mut found: Vec<String> = Vec::new();
    let mut k: usize = 0;
    proof {
        assert(crate::syntax::views_of(found@) =~= Seq::<Seq<char>>::empty());
    }
    while k < document.exports.len()
        invariant
            k <= document.exports@.len(),
            crate::syntax::views_of(found@) + export_names(*document, k as int, name@) == full,
        decreases document.exports@.len() - k,
    {
        let ghost before = crate::syntax::views_of(found@);
        let list = &document.exports[k];
        let ghost t = name@;

        let ghost goal_list = names_in_list(document.exports@[k as int], t);
        let mut si: usize = 0;
        while si < list.specifiers.len()
            invariant
                si <= list.specifiers@.len(),
                list == &document.exports@[k as int],
                crate::syntax::views_of(found@) + names_in_specifiers(
                    list.specifiers@,
                    si as int,
                    name@,
                ) == before + names_in_specifiers(list.specifiers@, 0, name@),
            decreases list.specifiers@.len() - si,
        {
            let sp = &list.specifiers[si];
            if sp.internal == *name {
                match &sp.external {
                    Some(al) => push_string_clone(&mut found, &al.name),
                    None => push_string_clone(&mut found, name),
                }
            }
            proof {
                assert(crate::syntax::views_of(found@) + names_in_specifiers(
                    list.specifiers@,
                    si as int + 1,
                    name@,
                ) =~= before + names_in_specifiers(list.specifiers@, 0, name@));
            }
            si = si + 1;
        }
        let ghost sp_part = names_in_specifiers(list.specifiers@, 0, t);
        proof {
            assert(crate::syntax::views_of(found@) =~= before + sp_part);
        }
        if let Some(c) = &list.component {
            if c.name == *name {
                push_string_clone(&mut found, name);
            }
        }
        let ghost comp_part = (match document.exports@[k as int].component {
            Some(c) => if c.name@ == t {
                seq![t]
            } else {
                Seq::<Seq<char>>::empty()
            },
            None => Seq::<Seq<char>>::empty(),
        });
        proof {
            assert(crate::syntax::views_of(found@) =~= before + sp_part + comp_part);
        }
        let mut sti: usize = 0;
        let ghost after_comp = crate::syntax::views_of(found@);
        while sti < list.struct_names.len()
            invariant
                sti <= list.struct_names@.len(),
                list == &document.exports@[k as int],
                crate::syntax::views_of(found@) + names_in_strings(
                    list.struct_names@,
                    sti as int,
                    name@,
                ) == after_comp + names_in_strings(list.struct_names@, 0, name@),
            decreases list.struct_names@.len() - sti,
        {
            if list.struct_names[sti] == *name {
                push_string_clone(&mut found, name);
            }
            sti = sti + 1;
        }
        let mut eni: usize = 0;
        let ghost after_structs = crate::syntax::views_of(found@);
        while eni < list.enum_names.len()
            invariant
                eni <= list.enum_names@.len(),
                list == &document.exports@[k as int],
                crate::syntax::views_of(found@) + names_in_strings(
                    list.enum_names@,
                    eni as int,
                    name@,
                ) == after_structs + names_in_strings(list.enum_names@, 0, name@),
            decreases list.enum_names@.len() - eni,
        {
            if list.enum_names[eni] == *name {
                push_string_clone(&mut found, name);
            }
            eni = eni + 1;
        }
        proof {
            assert(crate::syntax::views_of(found@) =~= after_comp + names_in_strings(
                list.struct_names@,
                0,
                t,
            ) + names_in_strings(list.enum_names@, 0, t));
            assert(goal_list == sp_part + comp_part + names_in_strings(list.struct_names@, 0, t)
                + names_in_strings(list.enum_names@, 0, t));
            assert(crate::syntax::views_of(found@) =~= before + goal_list);
            assert(crate::syntax::views_of(found@) + export_names(
                *document,
                k as int + 1,
                name@,
            ) =~= before + export_names(*document, k as int, name@));
        }
        k = k + 1;
    }
    proof {
        assert(crate::syntax::views_of(found@) =~= full);
    }
    sort_strings(&found)
}

/// The edits renaming one export specifier whose internal name reads
/// `old`: the internal name itself, and — when the external alias
/// coincides with the new name, making it redundant — the removal of
/// the whole `as` clause, collapsing `export { Foo as Bar }` into a
/// plain re-export.
pub open spec fn specifier_edits(
    sp: crate::syntax::ExportSpecifier,
    old: Seq<char>,
    new: String,
    di: usize,
) -> Seq<TextEdit> {
    if sp.internal@ == old {
        seq![TextEdit { doc: di, span: sp.internal_span, new_text: Some(new) }] + (
        match sp.external {
            Some(al) => if al.name@ == new@ {
                seq![
                    TextEdit {
                        doc: di,
                        span: crate::syntax::Span { start: sp.internal_span.end, end: al.end },
                        new_text: None,
                    },
                ]
            } else {
                Seq::empty()
            },
            None => Seq::empty(),
        })
    } else {
        Seq::empty()
    }
}

/// Renaming this export specifier changes the name importers see — the
/// type was exported bare, or its alias now coincides with the new
/// name — so the rename must propagate to the importing documents.
pub open spec fn specifier_propagates(sp: crate::syntax::ExportSpecifier, new: String) -> bool {
    match sp.external {
        Some(al) => al.name@ == new@,
        None => true,
    }
}

/// The edits the rename makes to the export lists of document `di`,
/// starting at list `li`, specifier `si`, including the propagation
/// into importers that each rewritten bare export demands.
pub open spec fn fe_from(
    w: Workspace,
    di: int,
    li: int,
    si: int,
    old: Seq<char>,
    new: String,
) -> Seq<TextEdit>
    decreases
            di,
            4int,
            w.documents@[di].exports@.len() - li,
            w.documents@[di].exports@[li].specifiers@.len() - si,
{
    if di < 0 || di >= w.documents@.len() || li < 0 || si < 0 {
        Seq::empty()
    } else {
        let d = w.documents@[di];
        if li >= d.exports@.len() {
            Seq::empty()
        } else if si >= d.exports@[li].specifiers@.len() {
            fe_from(w, di, li + 1, 0, old, new)
        } else {
            let sp = d.exports@[li].specifiers@[si];
            (if sp.internal@ == old {
                specifier_edits(sp, old, new, di as usize) + (if specifier_propagates(sp, new) {
                    fi_docs(w, di, 0, old, new)
                } else {
                    Seq::empty()
                })
            } else {
                Seq::empty()
            }) + fe_from(w, di, li, si + 1, old, new)
        }
    }
}

/// The edits the rename propagation makes across the workspace when the
/// type is visible under `old` from document `ex`: every other,
/// non-built-in document whose imports resolve to `ex`'s path is
/// rewritten.  The loader lists importers before their exporters, so an
/// entry at or after `ex` has no import resolving to it and contributes
/// nothing.
pub open spec fn fi_docs(w: Workspace, ex: int, j: int, old: Seq<char>, new: String) -> Seq<
    TextEdit,
>
    decreases ex, 2int, w.documents@.len() - j, 0int,
{
    if ex < 0 || ex >= w.documents@.len() || j < 0 || j >= w.documents@.len() {
        Seq::empty()
    } else {
        (if j < ex && !w.documents@[j].is_builtin {
            fiid_from(w, j, ex, 0, 0, old, new)
        } else {
            Seq::empty()
        }) + fi_docs(w, ex, j + 1, old, new)
    }
}

/// The edits made inside importing document `j` for one rewritten
/// import identifier: the external name token; then either the removal
/// of a local alias the new name made redundant — the importer's own
/// code reads the alias and needs nothing further — or, for a bare
/// import, the rewrite of the importer's own exports and local uses,
/// which continues the propagation to its importers in turn.
pub open spec fn ident_edits(
    w: Workspace,
    j: int,
    idt: crate::syntax::ImportIdentifier,
    old: Seq<char>,
    new: String,
) -> Seq<TextEdit>
    decreases j, 5int, 0int, 0int,
{
    if j < 0 || j >= w.documents@.len() {
        Seq::empty()
    } else if idt.external@ == old {
        seq![TextEdit { doc: j as usize, span: idt.external_span, new_text: Some(new) }] + (
        match idt.internal {
            Some(al) => if al.name@ == new@ {
                seq![
                    TextEdit {
                        doc: j as usize,
                        span: crate::syntax::Span { start: idt.external_span.end, end: al.end },
                        new_text: None,
                    },
                ]
            } else {
                Seq::empty()
            },
            None => fe_from(w, j, 0, 0, old, new) + clet_edits(
                w.documents@[j],
                old,
                new,
                j as usize,
            ),
        })
    } else {
        Seq::empty()
    }
}

/// The edits made inside importing document `j` for the rename of `old`
/// exported by document `ex`, scanning import specifiers from `k` and,
/// within a specifier whose path resolves to `ex`, identifiers from
/// `t`.  Identity is tracked by the resolved source path, never by
/// name: a specifier importing from any other path is skipped whole.
pub open spec fn fiid_from(
    w: Workspace,
    j: int,
    ex: int,
    k: int,
    t: int,
    old: Seq<char>,
    new: String,
) -> Seq<TextEdit>
    decreases
            j,
            6int,
            w.documents@[j].imports@.len() - k,
            w.documents@[j].imports@[k].identifiers@.len() - t,
{
    if j < 0 || j >= w.documents@.len() || ex < 0 || ex >= w.documents@.len() || k < 0 || t < 0 {
        Seq::empty()
    } else {
        let d = w.documents@[j];
        if k >= d.imports@.len() {
            Seq::empty()
        } else if d.imports@[k].resolved_path@ != w.documents@[ex].path@ || t
            >= d.imports@[k].identifiers@.len() {
            fiid_from(w, j, ex, k + 1, 0, old, new)
        } else {
            ident_edits(w, j, d.imports@[k].identifiers@[t], old, new) + fiid_from(
                w,
                j,
                ex,
                k,
                t + 1,
                old,
                new,
            )
        }
    }
}

/// Rewrite every export specifier of document `di` whose internal name
/// reads `old_type`: the internal name takes the new name; an external
/// alias equal to the new name is removed as redundant; and whenever the
/// rewritten specifier changes the externally visible name, the rename
/// is propagated into the importing documents.
pub fn fix_exports(
    w: &Workspace,
    di: usize,
    old_type: &String,
    new_type: &String,
    edits: &mut Vec<TextEdit>,
)
    requires
        crate::syntax::workspace_wf(*w),
        di < w.documents@.len(),
    ensures
        final(edits)@ == old(edits)@ + fe_from(*w, di as int, 0, 0, old_type@, *new_type),
    decreases di, 4int,
{
    let ghost goal = old(edits)@ + fe_from(*w, di as int, 0, 0, old_type@, *new_type);
    let mut li: usize = 0;
    while li < w.documents[di].exports.len()
        invariant
            crate::syntax::workspace_wf(*w),
            di < w.documents@.len(),
            li <= w.documents@[di as int].exports@.len(),
            edits@ + fe_from(*w, di as int, li as int, 0, old_type@, *new_type) == goal,
        decreases w.documents@[di as int].exports@.len() - li,
    {
        let mut si: usize = 0;
        while si < w.documents[di].exports[li].specifiers.len()
            invariant
                crate::syntax::workspace_wf(*w),
                di < w.documents@.len(),
                li < w.documents@[di as int].exports@.len(),
                si <= w.documents@[di as int].exports@[li as int].specifiers@.len(),
                edits@ + fe_from(*w, di as int, li as int, si as int, old_type@, *new_type)
                    == goal,
            decreases w.documents@[di as int].exports@[li as int].specifiers@.len() - si,
        {
            let ghost before = edits@;
            let ghost spg = w.documents@[di as int].exports@[li as int].specifiers@[si as int];
            let internal_matches = {
                let sp = &w.documents[di].exports[li].specifiers[si];
                sp.internal == *old_type
            };
            if internal_matches {
                let update_imports: bool;
                {
                    let sp = &w.documents[di].exports[li].specifiers[si];
                    edits.push(
                        TextEdit {
                            doc: di,
                            span: sp.internal_span,
                            new_text: Some(new_type.clone()),
                        },
                    );
                    match &sp.external {
                        Some(al) => {
                            if al.name == *new_type {
                                edits.push(
                                    TextEdit {
                                        doc: di,
                                        span: crate::syntax::Span {
                                            start: sp.internal_span.end,
                                            end: al.end,
                                        },
                                        new_text: None,
                                    },
                                );
                                update_imports = true;
                            } else {
                                update_imports = false;
                            }
                        },
                        None => {
                            update_imports = true;
                        },
                    }
                }
                proof {
                    assert(edits@ =~= before + specifier_edits(spg, old_type@, *new_type, di));
                    assert(update_imports == specifier_propagates(spg, *new_type));
                }
                if update_imports {
                    fix_imports(w, di, old_type, new_type, edits);
                }
            }
            proof {
                assert(edits@ + fe_from(
                    *w,
                    di as int,
                    li as int,
                    si as int + 1,
                    old_type@,
                    *new_type,
                ) =~= before + fe_from(*w, di as int, li as int, si as int, old_type@, *new_type));
            }
            si = si + 1;
        }
        proof {
            assert(fe_from(
                *w,
                di as int,
                li as int,
                w.documents@[di as int].exports@[li as int].specifiers@.len() as int,
                old_type@,
                *new_type,
            ) == fe_from(*w, di as int, li as int + 1, 0, old_type@, *new_type));
        }
        li = li + 1;
    }
    proof {
        assert(fe_from(
            *w,
            di as int,
            w.documents@[di as int].exports@.len() as int,
            0,
            old_type@,
            *new_type,
        ) =~= Seq::<TextEdit>::empty());
        assert(edits@ =~= goal);
    }
}

/// Propagate the rename of `old_type`, exported by the document at
/// `exporter`, into every other non-built-in document of the workspace
/// that imports from the exporter's resolved path.
pub fn fix_imports(
    w: &Workspace,
    exporter: usize,
    old_type: &String,
    new_type: &String,
    edits: &mut Vec<TextEdit>,
)
    requires
        crate::syntax::workspace_wf(*w),
        exporter < w.documents@.len(),
    ensures
        final(edits)@ == old(edits)@ + fi_docs(*w, exporter as int, 0, old_type@, *new_type),
    decreases exporter, 2int,
{
    let ghost goal = old(edits)@ + fi_docs(*w, exporter as int, 0, old_type@, *new_type);
    let mut j: usize = 0;
    while j < w.documents.len()
        invariant
            crate::syntax::workspace_wf(*w),
            exporter < w.documents@.len(),
            j <= w.documents@.len(),
            edits@ + fi_docs(*w, exporter as int, j as int, old_type@, *new_type) == goal,
        decreases w.documents@.len() - j,
    {
        let ghost before = edits@;
        if j < exporter {
            if !w.documents[j].is_builtin {
                fix_import_in_document(w, j, exporter, old_type, new_type, edits);
            }
        }
        proof {
            assert(edits@ + fi_docs(*w, exporter as int, j as int + 1, old_type@, *new_type)
                =~= before + fi_docs(*w, exporter as int, j as int, old_type@, *new_type));
        }
        j = j + 1;
    }
    proof {
        assert(edits@ =~= goal);
    }
}

/// Rewrite document `doc_idx`'s imports of `old_type` from the
/// exporter's path: the external name token of every matching
/// identifier; a local alias equal to the new name is removed as
/// redundant (its uses already read the new name); a bare import also
/// has the importer's own exports and local uses rewritten, continuing
/// the propagation.
pub fn fix_import_in_document(
    w: &Workspace,
    doc_idx: usize,
    exporter: usize,
    old_type: &String,
    new_type: &String,
    edits: &mut Vec<TextEdit>,
)
    requires
        crate::syntax::workspace_wf(*w),
        exporter < w.documents@.len(),
        doc_idx < exporter,
    ensures
        final(edits)@ == old(edits)@ + fiid_from(
            *w,
            doc_idx as int,
            exporter as int,
            0,
            0,
            old_type@,
            *new_type,
        ),
    decreases doc_idx, 6int,
{
    let ghost goal = old(edits)@ + fiid_from(
        *w,
        doc_idx as int,
        exporter as int,
        0,
        0,
        old_type@,
        *new_type,
    );
    let mut k: usize = 0;
    while k < w.documents[doc_idx].imports.len()
        invariant
            crate::syntax::workspace_wf(*w),
            exporter < w.documents@.len(),
            doc_idx < exporter,
            k <= w.documents@[doc_idx as int].imports@.len(),
            edits@ + fiid_from(
                *w,
                doc_idx as int,
                exporter as int,
                k as int,
                0,
                old_type@,
                *new_type,
            ) == goal,
        decreases w.documents@[doc_idx as int].imports@.len() - k,
    {
        let path_matches = {
            let imp = &w.documents[doc_idx].imports[k];
            imp.resolved_path == w.documents[exporter].path
        };
        if path_matches {
            let mut t: usize = 0;
            while t < w.documents[doc_idx].imports[k].identifiers.len()
                invariant
                    crate::syntax::workspace_wf(*w),
                    exporter < w.documents@.len(),
                    doc_idx < exporter,
                    k < w.documents@[doc_idx as int].imports@.len(),
                    w.documents@[doc_idx as int].imports@[k as int].resolved_path@
                        == w.documents@[exporter as int].path@,
                    t <= w.documents@[doc_idx as int].imports@[k as int].identifiers@.len(),
                    edits@ + fiid_from(
                        *w,
                        doc_idx as int,
                        exporter as int,
                        k as int,
                        t as int,
                        old_type@,
                        *new_type,
                    ) == goal,
                decreases w.documents@[doc_idx as int].imports@[k as int].identifiers@.len() - t,
            {
                let ghost before = edits@;
                let ghost idg = w.documents@[doc_idx as int].imports@[k as int].identifiers@[t as int];
                let external_matches = {
                    let idt = &w.documents[doc_idx].imports[k].identifiers[t];
                    idt.external == *old_type
                };
                if external_matches {
                    let mut had_alias = false;
                    {
                        let idt = &w.documents[doc_idx].imports[k].identifiers[t];
                        edits.push(
                            TextEdit {
                                doc: doc_idx,
                                span: idt.external_span,
                                new_text: Some(new_type.clone()),
                            },
                        );
                        match &idt.internal {
                            Some(al) => {
                                had_alias = true;
                                if al.name == *new_type {
                                    edits.push(
                                        TextEdit {
                                            doc: doc_idx,
                                            span: crate::syntax::Span {
                                                start: idt.external_span.end,
                                                end: al.end,
                                            },
                                            new_text: None,
                                        },
                                    );
                                }
                            },
                            None => {},
                        }
                    }
                    if !had_alias {
                        fix_exports(w, doc_idx, old_type, new_type, edits);
                        change_local_element_type(
                            &w.documents[doc_idx],
                            old_type,
                            new_type,
                            doc_idx,
                            edits,
                        );
                    }
                }
                proof {
                    assert(edits@ =~= before + ident_edits(
                        *w,
                        doc_idx as int,
                        idg,
                        old_type@,
                        *new_type,
                    ));
                    assert(edits@ + fiid_from(
                        *w,
                        doc_idx as int,
                        exporter as int,
                        k as int,
                        t as int + 1,
                        old_type@,
                        *new_type,
                    ) =~= before + fiid_from(
                        *w,
                        doc_idx as int,
                        exporter as int,
                        k as int,
                        t as int,
                        old_type@,
                        *new_type,
                    ));
                }
                t = t + 1;
            }
            proof {
                assert(fiid_from(
                    *w,
                    doc_idx as int,
                    exporter as int,
                    k as int,
                    w.documents@[doc_idx as int].imports@[k as int].identifiers@.len() as int,
                    old_type@,
                    *new_type,
                ) == fiid_from(
                    *w,
                    doc_idx as int,
                    exporter as int,
                    k as int + 1,
                    0,
                    old_type@,
                    *new_type,
                ));
            }
        } else {
            proof {
                assert(fiid_from(
                    *w,
                    doc_idx as int,
                    exporter as int,
                    k as int,
                    0,
                    old_type@,
                    *new_type,
                ) == fiid_from(
                    *w,
                    doc_idx as int,
                    exporter as int,
                    k as int + 1,
                    0,
                    old_type@,
                    *new_type,
                ));
            }
        }
        k = k + 1;
    }
    proof {
        assert(edits@ =~= goal);
    }
}

/// The recoverable, user-facing conflicts of a rename request.  A
/// conflict aborts the request; no edits are emitted.
#[derive(Debug)]
pub enum RenameError {
    /// The proposed name already denotes a registered type of the
    /// declaring document's local registry.
    TypeAlreadyRegistered,
    /// The proposed name already denotes a registered element of the
    /// declaring document's local registry.
    ElementAlreadyRegistered,
}

impl RenameError {
    /// The conflict as a descriptive message.
    pub fn message(&self) -> (m: &'static str)
        ensures
            *self is TypeAlreadyRegistered ==> m@ == "the name is already a registered type"@,
            *self is ElementAlreadyRegistered ==> m@
                == "the name is already a registered element"@,
    {
        match self {
            RenameError::TypeAlreadyRegistered => "the name is already a registered type",
            RenameError::ElementAlreadyRegistered => "the name is already a registered element",
        }
    }
}

fn contains_string(v: &Vec<String>, x: &String) -> (r: bool)
    ensures
        r == crate::syntax::contains_view(v@, x@),
{
    let mut i: usize = 0;
    while i < v.len()
        invariant
            i <= v@.len(),
            forall|j: int| 0 <= j < i ==> (#[trigger] v@[j])@ != x@,
        decreases v@.len() - i,
    {
        if v[i] == *x {
            return true;
        }
        i = i + 1;
    }
    false
}

/// The complete edit set of a successful rename: the declared
/// identifier itself, every local element use, the document's exports
/// (with the propagation each rewritten bare export demands), and — when
/// the type was exported under its own old name, so that the rename is
/// externally visible — the propagation into every importing document.
pub open spec fn rename_edits(
    w: Workspace,
    di: int,
    decl_span: crate::syntax::Span,
    old: String,
    new: String,
) -> Seq<TextEdit> {
    seq![TextEdit { doc: di as usize, span: decl_span, new_text: Some(new) }] + clet_edits(
        w.documents@[di],
        old@,
        new,
        di as usize,
    ) + fe_from(w, di, 0, 0, old@, new) + (if export_names(w.documents@[di], 0, old@).contains(
        old@,
    ) {
        fi_docs(w, di, 0, old@, new)
    } else {
        Seq::empty()
    })
}

/// Rename the component type declared in the document at `doc_idx`,
/// whose declared identifier reads `old_name` and spans `decl_span`, to
/// `new_name`.  Fails — emitting nothing — when the proposed name
/// already denotes a registered type or element of the declaring
/// document's local registry; otherwise returns the complete edit set,
/// which is empty when the name is unchanged.  Unrelated same-named
/// declarations elsewhere are never touched: propagation follows each
/// import's resolved path, never mere name equality.
pub fn rename_component_from_definition(
    w: &Workspace,
    doc_idx: usize,
    decl_span: crate::syntax::Span,
    old_name: &String,
    new_name: String,
) -> (result: Result<Vec<TextEdit>, RenameError>)
    requires
        crate::syntax::workspace_wf(*w),
        doc_idx < w.documents@.len(),
    ensures
        crate::syntax::contains_view(w.documents@[doc_idx as int].local_types@, new_name@)
            ==> result == Err::<Vec<TextEdit>, RenameError>(RenameError::TypeAlreadyRegistered),
        !crate::syntax::contains_view(w.documents@[doc_idx as int].local_types@, new_name@)
            && crate::syntax::contains_view(
            w.documents@[doc_idx as int].local_elements@,
            new_name@,
        ) ==> result == Err::<Vec<TextEdit>, RenameError>(RenameError::ElementAlreadyRegistered),
        !crate::syntax::contains_view(w.documents@[doc_idx as int].local_types@, new_name@)
            && !crate::syntax::contains_view(
            w.documents@[doc_idx as int].local_elements@,
            new_name@,
        ) && old_name@ == new_name@ ==> (result matches Ok(v) && v@ == Seq::<TextEdit>::empty()),
        !crate::syntax::contains_view(w.documents@[doc_idx as int].local_types@, new_name@)
            && !crate::syntax::contains_view(
            w.documents@[doc_idx as int].local_elements@,
            new_name@,
        ) && old_name@ != new_name@ ==> (result matches Ok(v) && v@ == rename_edits(
            *w,
            doc_idx as int,
            decl_span,
            *old_name,
            new_name,
        )),
{
    if contains_string(&w.documents[doc_idx].local_types, &new_name) {
        return Err(RenameError::TypeAlreadyRegistered);
    }
    if contains_string(&w.documents[doc_idx].local_elements, &new_name) {
        return Err(RenameError::ElementAlreadyRegistered);
    }
    if *old_name == new_name {
        return Ok(Vec::new());
    }

    let mut edits: Vec<TextEdit> = Vec::new();

    // Replace the declared identifier itself.
    edits.push(TextEdit { doc: doc_idx, span: decl_span, new_text: Some(new_name.clone()) });

    // Change all local usages.
    change_local_element_type(&w.documents[doc_idx], old_name, &new_name, doc_idx, &mut edits);

    // Change exports (propagating where a rewritten export is visible).
    fix_exports(w, doc_idx, old_name, &new_name, &mut edits);

    // The rename is externally visible only if the old name itself is
    // among the names the type was exported under.
    let export_name_list = symbol_export_names(&w.documents[doc_idx], old_name);
    let ghost head = seq![
        TextEdit { doc: doc_idx, span: decl_span, new_text: Some(new_name) },
    ] + clet_edits(w.documents@[doc_idx as int], old_name@, new_name, doc_idx) + fe_from(
        *w,
        doc_idx as int,
        0,
        0,
        old_name@,
        new_name,
    );
    proof {
        assert(edits@ =~= head);
        broadcast use vstd::seq_lib::group_to_multiset_ensures;

        let names = export_names(w.documents@[doc_idx as int], 0, old_name@);
        let sorted_views = crate::syntax::views_of(export_name_list@);
        assert(crate::syntax::contains_view(export_name_list@, old_name@) == names.contains(
            old_name@,
        )) by {
            if crate::syntax::contains_view(export_name_list@, old_name@) {
                let i = choose|i: int|
                    0 <= i < export_name_list@.len() && (export_name_list@[i])@ == old_name@;
                assert(sorted_views[i] == old_name@);
                assert(sorted_views.contains(old_name@));
                assert(sorted_views.to_multiset().count(old_name@) > 0);
                assert(names.contains(old_name@));
            }
            if names.contains(old_name@) {
                assert(names.to_multiset().count(old_name@) > 0);
                assert(sorted_views.contains(old_name@));
                let i = choose|i: int|
                    0 <= i < sorted_views.len() && sorted_views[i] == old_name@;
                assert((export_name_list@[i])@ == old_name@);
            }
        }
    }
    if contains_string(&export_name_list, old_name) {
        fix_imports(w, doc_idx, old_name, &new_name, &mut edits);
        proof {
            assert(edits@ =~= rename_edits(
                *w,
                doc_idx as int,
                decl_span,
                *old_name,
                new_name,
            ));
        }
    } else {
        proof {
            assert(edits@ + Seq::<TextEdit>::empty() =~= edits@);
            assert(edits@ =~= rename_edits(
                *w,
                doc_idx as int,
                decl_span,
                *old_name,
                new_name,
            ));
        }
    }
    Ok(edits)
}

proof fn lemma_concat_contains<T>(a: Seq<T>, b: Seq<T>, e: T)
    requires
        a.contains(e) || b.contains(e),
    ensures
        (a + b).contains(e),
{
    if a.contains(e) {
        let i = choose|i: int| 0 <= i < a.len() && a[i] == e;
        assert((a + b)[i] == e);
    } else {
        let i = choose|i: int| 0 <= i < b.len() && b[i] == e;
        assert((a + b)[a.len() + i] == e);
    }
}

proof fn lemma_nodes_edits_contain(
    s: Seq<SubNode>,
    i: int,
    j: int,
    old: Seq<char>,
    new: String,
    doc: usize,
    e: TextEdit,
)
    requires
        0 <= j <= i < s.len(),
        sub_edits(s[i], old, new, doc).contains(e),
    ensures
        nodes_edits(s, j, old, new, doc).contains(e),
    decreases i - j,
{
    if j == i {
        lemma_concat_contains(
            sub_edits(s[i], old, new, doc),
            nodes_edits(s, i + 1, old, new, doc),
            e,
        );
    } else {
        lemma_nodes_edits_contain(s, i, j + 1, old, new, doc, e);
        lemma_concat_contains(
            sub_edits(s[j], old, new, doc),
            nodes_edits(s, j + 1, old, new, doc),
            e,
        );
    }
}

/// Local completeness, at the element level: an element whose base-type
/// name reads `old` has its replacement edit in the computed set, and
/// the edit set of every child node — the wrapped element of a `for` or
/// `if` form included — is contained whole in the parent's edit set, so
/// by induction no occurrence of the old name in the subtree is left
/// without its edit.
pub proof fn lemma_local_completeness_element(
    el: SyntaxElement,
    old: Seq<char>,
    new: String,
    doc: usize,
)
    ensures
        (el.qualified_name matches Some(n) && n@ == old) ==> elem_edits(
            el,
            old,
            new,
            doc,
        ).contains(TextEdit { doc, span: el.qualified_name_span, new_text: Some(new) }),
        forall|i: int, e: TextEdit|
            0 <= i < el.children@.len() && #[trigger] sub_edits(
                el.children@[i],
                old,
                new,
                doc,
            ).contains(e) ==> elem_edits(el, old, new, doc).contains(e),
{
    if el.qualified_name matches Some(n) && n@ == old {
        let own = elem_own_edits(el, old, new, doc);
        assert(own[0] == TextEdit { doc, span: el.qualified_name_span, new_text: Some(new) });
        assert(own.contains(TextEdit { doc, span: el.qualified_name_span, new_text: Some(new) }));
        lemma_concat_contains(
            own,
            nodes_edits(el.children@, 0, old, new, doc),
            TextEdit { doc, span: el.qualified_name_span, new_text: Some(new) },
        );
    }
    assert forall|i: int, e: TextEdit|
        0 <= i < el.children@.len() && #[trigger] sub_edits(
            el.children@[i],
            old,
            new,
            doc,
        ).contains(e) implies elem_edits(el, old, new, doc).contains(e) by {
        lemma_nodes_edits_contain(el.children@, i, 0, old, new, doc, e);
        lemma_concat_contains(
            elem_own_edits(el, old, new, doc),
            nodes_edits(el.children@, 0, old, new, doc),
            e,
        );
    }
}

proof fn lemma_comps_edits_contain(
    s: Seq<ComponentDecl>,
    i: int,
    j: int,
    old: Seq<char>,
    new: String,
    doc: usize,
    e: TextEdit,
)
    requires
        0 <= j <= i < s.len(),
        elem_edits(s[i].root, old, new, doc).contains(e),
    ensures
        comps_edits(s, j, old, new, doc).contains(e),
    decreases i - j,
{
    if j == i {
        lemma_concat_contains(
            elem_edits(s[i].root, old, new, doc),
            comps_edits(s, i + 1, old, new, doc),
            e,
        );
    } else {
        lemma_comps_edits_contain(s, i, j + 1, old, new, doc, e);
        lemma_concat_contains(
            elem_edits(s[j].root, old, new, doc),
            comps_edits(s, j + 1, old, new, doc),
            e,
        );
    }
}

proof fn lemma_export_comps_edits_contain(
    s: Seq<ExportsList>,
    i: int,
    j: int,
    old: Seq<char>,
    new: String,
    doc: usize,
    e: TextEdit,
)
    requires
        0 <= j <= i < s.len(),
        s[i].component matches Some(c) && elem_edits(c.root, old, new, doc).contains(e),
    ensures
        export_comps_edits(s, j, old, new, doc).contains(e),
    decreases i - j,
{
    let part = (match s[j].component {
        Some(c) => elem_edits(c.root, old, new, doc),
        None => Seq::<TextEdit>::empty(),
    });
    if j == i {
        lemma_concat_contains(part, export_comps_edits(s, i + 1, old, new, doc), e);
    } else {
        lemma_export_comps_edits_contain(s, i, j + 1, old, new, doc, e);
        lemma_concat_contains(part, export_comps_edits(s, j + 1, old, new, doc), e);
    }
}

/// Local completeness, at the rename level: the edit replacing the
/// declared identifier is in the computed set, and so is every edit of
/// every local component body — top-level or exported — computed for
/// the declaring document.
pub proof fn lemma_local_completeness(
    w: Workspace,
    di: int,
    decl_span: crate::syntax::Span,
    old: String,
    new: String,
)
    requires
        0 <= di < w.documents@.len(),
    ensures
        rename_edits(w, di, decl_span, old, new).contains(
            TextEdit { doc: di as usize, span: decl_span, new_text: Some(new) },
        ),
        forall|ci: int, e: TextEdit|
            0 <= ci < w.documents@[di].components@.len() && #[trigger] elem_edits(
                w.documents@[di].components@[ci].root,
                old@,
                new,
                di as usize,
            ).contains(e) ==> rename_edits(w, di, decl_span, old, new).contains(e),
        forall|li: int, e: TextEdit|
            0 <= li < w.documents@[di].exports@.len() && w.documents@[di].exports@[li].component
                is Some && #[trigger] elem_edits(
                w.documents@[di].exports@[li].component->Some_0.root,
                old@,
                new,
                di as usize,
            ).contains(e) ==> rename_edits(w, di, decl_span, old, new).contains(e),
{
    let d = w.documents@[di];
    let head = seq![TextEdit { doc: di as usize, span: decl_span, new_text: Some(new) }];
    let clet = clet_edits(d, old@, new, di as usize);
    let fe = fe_from(w, di, 0, 0, old@, new);
    let tail = (if export_names(d, 0, old@).contains(old@) {
        fi_docs(w, di, 0, old@, new)
    } else {
        Seq::<TextEdit>::empty()
    });
    assert(rename_edits(w, di, decl_span, old, new) =~= head + clet + fe + tail);
    assert(head.contains(TextEdit { doc: di as usize, span: decl_span, new_text: Some(new) })) by {
        assert(head[0] == TextEdit { doc: di as usize, span: decl_span, new_text: Some(new) });
    }
    lemma_concat_contains(
        head,
        clet,
        TextEdit { doc: di as usize, span: decl_span, new_text: Some(new) },
    );
    lemma_concat_contains(
        head + clet,
        fe,
        TextEdit { doc: di as usize, span: decl_span, new_text: Some(new) },
    );
    lemma_concat_contains(
        head + clet + fe,
        tail,
        TextEdit { doc: di as usize, span: decl_span, new_text: Some(new) },
    );
    assert forall|ci: int, e: TextEdit|
        0 <= ci < d.components@.len() && #[trigger] elem_edits(
            d.components@[ci].root,
            old@,
            new,
            di as usize,
        ).contains(e) implies rename_edits(w, di, decl_span, old, new).contains(e) by {
        lemma_comps_edits_contain(d.components@, ci, 0, old@, new, di as usize, e);
        lemma_concat_contains(
            comps_edits(d.components@, 0, old@, new, di as usize),
            export_comps_edits(d.exports@, 0, old@, new, di as usize),
            e,
        );
        lemma_concat_contains(head, clet, e);
        lemma_concat_contains(head + clet, fe, e);
        lemma_concat_contains(head + clet + fe, tail, e);
    }
    assert forall|li: int, e: TextEdit|
        0 <= li < d.exports@.len() && d.exports@[li].component is Some && #[trigger] elem_edits(
            d.exports@[li].component->Some_0.root,
            old@,
            new,
            di as usize,
        ).contains(e) implies rename_edits(w, di, decl_span, old, new).contains(e) by {
        lemma_export_comps_edits_contain(d.exports@, li, 0, old@, new, di as usize, e);
        lemma_concat_contains(
            comps_edits(d.components@, 0, old@, new, di as usize),
            export_comps_edits(d.exports@, 0, old@, new, di as usize),
            e,
        );
        lemma_concat_contains(head, clet, e);
        lemma_concat_contains(head + clet, fe, e);
        lemma_concat_contains(head + clet + fe, tail, e);
    }
}

/// Alias isolation: when an importer binds the type to a local alias
/// and the alias does not coincide with the new name, rewriting that
/// import changes exactly the imported external name — one edit — and
/// touches neither the importer's local uses of the alias nor its
/// re-exports.
pub proof fn lemma_alias_isolation(
    w: Workspace,
    j: int,
    idt: crate::syntax::ImportIdentifier,
    old: Seq<char>,
    new: String,
)
    requires
        0 <= j < w.documents@.len(),
        idt.external@ == old,
        idt.internal matches Some(al) && al.name@ != new@,
    ensures
        ident_edits(w, j, idt, old, new) == seq![
            TextEdit { doc: j as usize, span: idt.external_span, new_text: Some(new) },
        ],
{
    assert(ident_edits(w, j, idt, old, new) =~= seq![
        TextEdit { doc: j as usize, span: idt.external_span, new_text: Some(new) },
    ]);
}

/// Alias collapse: when the importer's local alias coincides textually
/// with the new name, rewriting that import yields exactly the external
/// name edit and the removal of the now-redundant alias clause; the
/// importer's local code already reads the new name through the alias,
/// so no further edit inside it is needed.
pub proof fn lemma_alias_collapse(
    w: Workspace,
    j: int,
    idt: crate::syntax::ImportIdentifier,
    old: Seq<char>,
    new: String,
)
    requires
        0 <= j < w.documents@.len(),
        idt.external@ == old,
        idt.internal matches Some(al) && al.name@ == new@,
    ensures
        ident_edits(w, j, idt, old, new) == seq![
            TextEdit { doc: j as usize, span: idt.external_span, new_text: Some(new) },
            TextEdit {
                doc: j as usize,
                span: crate::syntax::Span {
                    start: idt.external_span.end,
                    end: idt.internal->Some_0.end,
                },
                new_text: None,
            },
        ],
{
    assert(ident_edits(w, j, idt, old, new) =~= seq![
        TextEdit { doc: j as usize, span: idt.external_span, new_text: Some(new) },
        TextEdit {
            doc: j as usize,
            span: crate::syntax::Span {
                start: idt.external_span.end,
                end: idt.internal->Some_0.end,
            },
            new_text: None,
        },
    ]);
}

/// Export alias redundancy removal: an export specifier whose alias
/// equals the post-rename name collapses — the computed edits are
/// exactly the internal-name replacement and the deletion of the `as`
/// clause, turning `export { Foo as Bar }` into `export { Bar }`.
pub proof fn lemma_export_alias_redundancy_removal(
    sp: crate::syntax::ExportSpecifier,
    old: Seq<char>,
    new: String,
    di: usize,
)
    requires
        sp.internal@ == old,
        sp.external matches Some(al) && al.name@ == new@,
    ensures
        specifier_edits(sp, old, new, di) == seq![
            TextEdit { doc: di, span: sp.internal_span, new_text: Some(new) },
            TextEdit {
                doc: di,
                span: crate::syntax::Span {
                    start: sp.internal_span.end,
                    end: sp.external->Some_0.end,
                },
                new_text: None,
            },
        ],
{
    assert(specifier_edits(sp, old, new, di) =~= seq![
        TextEdit { doc: di, span: sp.internal_span, new_text: Some(new) },
        TextEdit {
            doc: di,
            span: crate::syntax::Span { start: sp.internal_span.end, end: sp.external->Some_0.end },
            new_text: None,
        },
    ]);
}

/// The document holds an import identifier whose external name reads
/// `old`, whatever path it imports from.
pub open spec fn doc_imports_name(d: SourceDocument, old: Seq<char>) -> bool {
    exists|k: int, t: int|
        0 <= k < d.imports@.len() && 0 <= t < d.imports@[k].identifiers@.len() && (
        #[trigger] d.imports@[k].identifiers@[t]).external@ == old
}

pub open spec fn propagated_edit_ok(w: Workspace, e: TextEdit, old: Seq<char>) -> bool {
    &&& e.doc < w.documents@.len()
    &&& doc_imports_name(w.documents@[e.doc as int], old)
}

proof fn lemma_fe_from_docs(w: Workspace, di: int, li: int, si: int, old: Seq<char>, new: String)
    ensures
        forall|e: TextEdit|
            #[trigger] fe_from(w, di, li, si, old, new).contains(e) ==> e.doc == di
                || propagated_edit_ok(w, e, old),
    decreases
            di,
            4int,
            w.documents@[di].exports@.len() - li,
            w.documents@[di].exports@[li].specifiers@.len() - si,
{
    assert(w.documents@.len() <= usize::MAX) by {
        assert(vstd::std_specs::vec::spec_vec_len(&w.documents) == w.documents@.len());
    }
    if di < 0 || di >= w.documents@.len() || li < 0 || si < 0 {
    } else {
        let d = w.documents@[di];
        if li >= d.exports@.len() {
        } else if si >= d.exports@[li].specifiers@.len() {
            lemma_fe_from_docs(w, di, li + 1, 0, old, new);
            assert forall|e: TextEdit|
                #[trigger] fe_from(w, di, li, si, old, new).contains(e) implies e.doc == di
                || propagated_edit_ok(w, e, old) by {
                assert(fe_from(w, di, li + 1, 0, old, new).contains(e));
            }
        } else {
            let sp = d.exports@[li].specifiers@[si];
            lemma_fe_from_docs(w, di, li, si + 1, old, new);
            if sp.internal@ == old && specifier_propagates(sp, new) {
                lemma_fi_docs_docs(w, di, 0, old, new);
            }
            assert forall|e: TextEdit|
                #[trigger] fe_from(w, di, li, si, old, new).contains(e) implies e.doc == di
                || propagated_edit_ok(w, e, old) by {
                let whole = fe_from(w, di, li, si, old, new);
                let part = (if sp.internal@ == old {
                    specifier_edits(sp, old, new, di as usize) + (if specifier_propagates(
                        sp,
                        new,
                    ) {
                        fi_docs(w, di, 0, old, new)
                    } else {
                        Seq::<TextEdit>::empty()
                    })
                } else {
                    Seq::<TextEdit>::empty()
                });
                assert(whole =~= part + fe_from(w, di, li, si + 1, old, new));
                let i = choose|i: int| 0 <= i < whole.len() && whole[i] == e;
                if i < part.len() {
                    if sp.internal@ == old {
                        let se = specifier_edits(sp, old, new, di as usize);
                        if i < se.len() {
                            assert(part[i] == se[i]);
                            if i == 0 {
                                assert(se[0] == TextEdit {
                                    doc: di as usize,
                                    span: sp.internal_span,
                                    new_text: Some(new),
                                });
                            } else {
                                match sp.external {
                                    Some(al) => {
                                        assert(se.len() == 2 && i == 1);
                                        assert(se[1] == TextEdit {
                                            doc: di as usize,
                                            span: crate::syntax::Span {
                                                start: sp.internal_span.end,
                                                end: al.end,
                                            },
                                            new_text: None,
                                        });
                                    },
                                    None => {
                                        assert(se.len() == 1);
                                    },
                                }
                            }
                            assert(e.doc == di);
                        } else {
                            assert(specifier_propagates(sp, new));
                            assert(fi_docs(w, di, 0, old, new).contains(e)) by {
                                assert(part[i] == fi_docs(w, di, 0, old, new)[i - se.len()]);
                            }
                        }
                    }
                } else {
                    assert(fe_from(w, di, li, si + 1, old, new).contains(e)) by {
                        assert(whole[i] == fe_from(w, di, li, si + 1, old, new)[i - part.len()]);
                    }
                }
            }
        }
    }
}

proof fn lemma_fi_docs_docs(w: Workspace, ex: int, j: int, old: Seq<char>, new: String)
    ensures
        forall|e: TextEdit|
            #[trigger] fi_docs(w, ex, j, old, new).contains(e) ==> propagated_edit_ok(w, e, old),
    decreases ex, 2int, w.documents@.len() - j, 0int,
{
    assert(w.documents@.len() <= usize::MAX) by {
        assert(vstd::std_specs::vec::spec_vec_len(&w.documents) == w.documents@.len());
    }
    if ex < 0 || ex >= w.documents@.len() || j < 0 || j >= w.documents@.len() {
    } else {
        lemma_fi_docs_docs(w, ex, j + 1, old, new);
        let part = (if j < ex && !w.documents@[j].is_builtin {
            fiid_from(w, j, ex, 0, 0, old, new)
        } else {
            Seq::<TextEdit>::empty()
        });
        if j < ex && !w.documents@[j].is_builtin {
            lemma_fiid_from_docs(w, j, ex, 0, 0, old, new);
        }
        assert forall|e: TextEdit|
            #[trigger] fi_docs(w, ex, j, old, new).contains(e) implies propagated_edit_ok(
            w,
            e,
            old,
        ) by {
            let whole = fi_docs(w, ex, j, old, new);
            assert(whole =~= part + fi_docs(w, ex, j + 1, old, new));
            let i = choose|i: int| 0 <= i < whole.len() && whole[i] == e;
            if i < part.len() {
                assert(part.contains(e));
                assert(j < ex && !w.documents@[j].is_builtin);
                assert(fiid_from(w, j, ex, 0, 0, old, new).contains(e));
            } else {
                assert(fi_docs(w, ex, j + 1, old, new).contains(e)) by {
                    assert(whole[i] == fi_docs(w, ex, j + 1, old, new)[i - part.len()]);
                }
            }
        }
    }
}

proof fn lemma_fiid_from_docs(
    w: Workspace,
    j: int,
    ex: int,
    k: int,
    t: int,
    old: Seq<char>,
    new: String,
)
    ensures
        forall|e: TextEdit|
            #[trigger] fiid_from(w, j, ex, k, t, old, new).contains(e) ==> propagated_edit_ok(
                w,
                e,
                old,
            ),
    decreases
            j,
            6int,
            w.documents@[j].imports@.len() - k,
            w.documents@[j].imports@[k].identifiers@.len() - t,
{
    assert(w.documents@.len() <= usize::MAX) by {
        assert(vstd::std_specs::vec::spec_vec_len(&w.documents) == w.documents@.len());
    }
    if j < 0 || j >= w.documents@.len() || ex < 0 || ex >= w.documents@.len() || k < 0 || t < 0 {
    } else {
        let d = w.documents@[j];
        if k >= d.imports@.len() {
        } else if d.imports@[k].resolved_path@ != w.documents@[ex].path@ || t
            >= d.imports@[k].identifiers@.len() {
            lemma_fiid_from_docs(w, j, ex, k + 1, 0, old, new);
            assert forall|e: TextEdit|
                #[trigger] fiid_from(w, j, ex, k, t, old, new).contains(e) implies propagated_edit_ok(
                w,
                e,
                old,
            ) by {
                assert(fiid_from(w, j, ex, k + 1, 0, old, new).contains(e));
            }
        } else {
            let idt = d.imports@[k].identifiers@[t];
            lemma_fiid_from_docs(w, j, ex, k, t + 1, old, new);
            lemma_ident_edits_docs(w, j, idt, old, new);
            assert forall|e: TextEdit|
                #[trigger] fiid_from(w, j, ex, k, t, old, new).contains(e) implies propagated_edit_ok(
                w,
                e,
                old,
            ) by {
                let whole = fiid_from(w, j, ex, k, t, old, new);
                let part = ident_edits(w, j, idt, old, new);
                assert(whole =~= part + fiid_from(w, j, ex, k, t + 1, old, new));
                let i = choose|i: int| 0 <= i < whole.len() && whole[i] == e;
                if i < part.len() {
                    assert(part.contains(e));
                    assert(idt.external@ == old && (e.doc == j || propagated_edit_ok(w, e, old)));
                    assert(doc_imports_name(d, old));
                } else {
                    assert(fiid_from(w, j, ex, k, t + 1, old, new).contains(e)) by {
                        assert(whole[i] == fiid_from(w, j, ex, k, t + 1, old, new)[i - part.len()]);
                    }
                }
            }
        }
    }
}

proof fn lemma_ident_edits_docs(
    w: Workspace,
    j: int,
    idt: crate::syntax::ImportIdentifier,
    old: Seq<char>,
    new: String,
)
    ensures
        forall|e: TextEdit|
            #[trigger] ident_edits(w, j, idt, old, new).contains(e) ==> (idt.external@ == old && (
            e.doc == j || propagated_edit_ok(w, e, old))),
    decreases j, 5int, 0int, 0int,
{
    assert(w.documents@.len() <= usize::MAX) by {
        assert(vstd::std_specs::vec::spec_vec_len(&w.documents) == w.documents@.len());
    }
    if j < 0 || j >= w.documents@.len() {
    } else if idt.external@ == old {
        match idt.internal {
            Some(al) => {
                assert forall|e: TextEdit|
                    #[trigger] ident_edits(w, j, idt, old, new).contains(e) implies (idt.external@
                    == old && (e.doc == j || propagated_edit_ok(w, e, old))) by {
                    let whole = ident_edits(w, j, idt, old, new);
                    let ed1 = TextEdit {
                        doc: j as usize,
                        span: idt.external_span,
                        new_text: Some(new),
                    };
                    if al.name@ == new@ {
                        let ed2 = TextEdit {
                            doc: j as usize,
                            span: crate::syntax::Span {
                                start: idt.external_span.end,
                                end: al.end,
                            },
                            new_text: None,
                        };
                        assert(whole =~= seq![ed1, ed2]);
                        let i = choose|i: int| 0 <= i < whole.len() && whole[i] == e;
                        assert(e == ed1 || e == ed2);
                    } else {
                        assert(whole =~= seq![ed1]);
                        let i = choose|i: int| 0 <= i < whole.len() && whole[i] == e;
                        assert(e == ed1);
                    }
                }
            },
            None => {
                lemma_fe_from_docs(w, j, 0, 0, old, new);
                assert forall|e: TextEdit|
                    #[trigger] ident_edits(w, j, idt, old, new).contains(e) implies (idt.external@
                    == old && (e.doc == j || propagated_edit_ok(w, e, old))) by {
                    let whole = ident_edits(w, j, idt, old, new);
                    let head = seq![
                        TextEdit { doc: j as usize, span: idt.external_span, new_text: Some(new) },
                    ];
                    let fe = fe_from(w, j, 0, 0, old, new);
                    let cl = clet_edits(w.documents@[j], old, new, j as usize);
                    assert(whole =~= head + (fe + cl));
                    let i = choose|i: int| 0 <= i < whole.len() && whole[i] == e;
                    if i < 1 {
                        assert(e == whole[0]);
                        assert(whole[0] == head[0]);
                        assert(head[0] == TextEdit {
                            doc: j as usize,
                            span: idt.external_span,
                            new_text: Some(new),
                        });
                    } else if i < 1 + fe.len() {
                        assert(fe.contains(e)) by {
                            assert(whole[i] == (fe + cl)[i - 1]);
                            assert((fe + cl)[i - 1] == fe[i - 1]);
                        }
                    } else {
                        assert(cl.contains(e)) by {
                            assert(whole[i] == (fe + cl)[i - 1]);
                            assert((fe + cl)[i - 1] == cl[i - 1 - fe.len()]);
                        }
                        lemma_clet_edits_docs(w.documents@[j], old, new, j as usize, e);
                    }
                }
            },
        }
    }
}

proof fn lemma_clet_edits_docs(
    d: SourceDocument,
    old: Seq<char>,
    new: String,
    doc: usize,
    e: TextEdit,
)
    requires
        clet_edits(d, old, new, doc).contains(e),
    ensures
        e.doc == doc,
{
    let a = comps_edits(d.components@, 0, old, new, doc);
    let b = export_comps_edits(d.exports@, 0, old, new, doc);
    let i = choose|i: int| 0 <= i < (a + b).len() && (a + b)[i] == e;
    if i < a.len() {
        lemma_comps_edits_doc(d.components@, 0, old, new, doc, e);
    } else {
        assert(b.contains(e)) by {
            assert((a + b)[i] == b[i - a.len()]);
        }
        lemma_export_comps_edits_doc(d.exports@, 0, old, new, doc, e);
    }
}

proof fn lemma_elem_edits_doc(
    el: SyntaxElement,
    old: Seq<char>,
    new: String,
    doc: usize,
    e: TextEdit,
)
    requires
        elem_edits(el, old, new, doc).contains(e),
    ensures
        e.doc == doc,
    decreases el, 1int, 0int,
{
    let own = elem_own_edits(el, old, new, doc);
    let rest = nodes_edits(el.children@, 0, old, new, doc);
    let i = choose|i: int| 0 <= i < (own + rest).len() && (own + rest)[i] == e;
    if i < own.len() {
    } else {
        assert(rest.contains(e)) by {
            assert((own + rest)[i] == rest[i - own.len()]);
        }
        lemma_nodes_edits_doc(el.children@, 0, old, new, doc, e);
    }
}

proof fn lemma_nodes_edits_doc(
    s: Seq<SubNode>,
    i: int,
    old: Seq<char>,
    new: String,
    doc: usize,
    e: TextEdit,
)
    requires
        nodes_edits(s, i, old, new, doc).contains(e),
    ensures
        e.doc == doc,
    decreases s, 0int, s.len() - i,
{
    if i < 0 || i >= s.len() {
        assert(false);
    } else {
        let a = sub_edits(s[i], old, new, doc);
        let b = nodes_edits(s, i + 1, old, new, doc);
        let ix = choose|ix: int| 0 <= ix < (a + b).len() && (a + b)[ix] == e;
        if ix < a.len() {
            lemma_sub_edits_doc(s[i], old, new, doc, e);
        } else {
            assert(b.contains(e)) by {
                assert((a + b)[ix] == b[ix - a.len()]);
            }
            lemma_nodes_edits_doc(s, i + 1, old, new, doc, e);
        }
    }
}

proof fn lemma_sub_edits_doc(sn: SubNode, old: Seq<char>, new: String, doc: usize, e: TextEdit)
    requires
        sub_edits(sn, old, new, doc).contains(e),
    ensures
        e.doc == doc,
    decreases sn, 1int, 0int,
{
    match sn {
        SubNode::Sub(el) => lemma_elem_edits_doc(el, old, new, doc, e),
        SubNode::Repeated(el) => lemma_elem_edits_doc(el, old, new, doc, e),
        SubNode::Conditional(el) => lemma_elem_edits_doc(el, old, new, doc, e),
        SubNode::Other => {
            assert(false);
        },
    }
}

proof fn lemma_comps_edits_doc(
    s: Seq<ComponentDecl>,
    i: int,
    old: Seq<char>,
    new: String,
    doc: usize,
    e: TextEdit,
)
    requires
        comps_edits(s, i, old, new, doc).contains(e),
    ensures
        e.doc == doc,
    decreases s.len() - i,
{
    if i < 0 || i >= s.len() {
        assert(false);
    } else {
        let a = elem_edits(s[i].root, old, new, doc);
        let b = comps_edits(s, i + 1, old, new, doc);
        let ix = choose|ix: int| 0 <= ix < (a + b).len() && (a + b)[ix] == e;
        if ix < a.len() {
            lemma_elem_edits_doc(s[i].root, old, new, doc, e);
        } else {
            assert(b.contains(e)) by {
                assert((a + b)[ix] == b[ix - a.len()]);
            }
            lemma_comps_edits_doc(s, i + 1, old, new, doc, e);
        }
    }
}

proof fn lemma_export_comps_edits_doc(
    s: Seq<ExportsList>,
    i: int,
    old: Seq<char>,
    new: String,
    doc: usize,
    e: TextEdit,
)
    requires
        export_comps_edits(s, i, old, new, doc).contains(e),
    ensures
        e.doc == doc,
    decreases s.len() - i,
{
    if i < 0 || i >= s.len() {
        assert(false);
    } else {
        let a = (match s[i].component {
            Some(c) => elem_edits(c.root, old, new, doc),
            None => Seq::<TextEdit>::empty(),
        });
        let b = export_comps_edits(s, i + 1, old, new, doc);
        let ix = choose|ix: int| 0 <= ix < (a + b).len() && (a + b)[ix] == e;
        if ix < a.len() {
            match s[i].component {
                Some(c) => lemma_elem_edits_doc(c.root, old, new, doc, e),
                None => {
                    assert(false);
                },
            }
        } else {
            assert(b.contains(e)) by {
                assert((a + b)[ix] == b[ix - a.len()]);
            }
            lemma_export_comps_edits_doc(s, i + 1, old, new, doc, e);
        }
    }
}

/// Identity, not name, drives propagation: every edit of the computed
/// rename set lies either in the declaring document itself or in a
/// document that imports the old name — so a document that merely
/// declares or uses an identically named but unrelated type, without
/// importing the renamed one, is never touched.
pub proof fn lemma_identity_drives_propagation(
    w: Workspace,
    di: int,
    decl_span: crate::syntax::Span,
    old: String,
    new: String,
)
    requires
        0 <= di < w.documents@.len(),
    ensures
        forall|e: TextEdit|
            #[trigger] rename_edits(w, di, decl_span, old, new).contains(e) ==> e.doc == di
                || propagated_edit_ok(w, e, old@),
{
    assert(w.documents@.len() <= usize::MAX) by {
        assert(vstd::std_specs::vec::spec_vec_len(&w.documents) == w.documents@.len());
    }
    let d = w.documents@[di];
    let head = seq![TextEdit { doc: di as usize, span: decl_span, new_text: Some(new) }];
    let clet = clet_edits(d, old@, new, di as usize);
    let fe = fe_from(w, di, 0, 0, old@, new);
    let tail = (if export_names(d, 0, old@).contains(old@) {
        fi_docs(w, di, 0, old@, new)
    } else {
        Seq::<TextEdit>::empty()
    });
    lemma_fe_from_docs(w, di, 0, 0, old@, new);
    lemma_fi_docs_docs(w, di, 0, old@, new);
    assert(rename_edits(w, di, decl_span, old, new) =~= head + clet + fe + tail);
    assert forall|e: TextEdit|
        #[trigger] rename_edits(w, di, decl_span, old, new).contains(e) implies e.doc == di
        || propagated_edit_ok(w, e, old@) by {
        let whole = head + clet + fe + tail;
        assert(whole.contains(e));
        let i = choose|i: int| 0 <= i < whole.len() && whole[i] == e;
        if i < 1 {
            assert(whole[0] == ((head + clet) + fe)[0]);
            assert(((head + clet) + fe)[0] == (head + clet)[0]);
            assert((head + clet)[0] == head[0]);
            assert(e.doc == di);
        } else if i < 1 + clet.len() {
            assert(clet.contains(e)) by {
                assert(whole[i] == ((head + clet) + fe)[i]);
                assert(((head + clet) + fe)[i] == (head + clet)[i]);
                assert((head + clet)[i] == clet[i - 1]);
            }
            lemma_clet_edits_docs(d, old@, new, di as usize, e);
        } else if i < 1 + clet.len() + fe.len() {
            assert(fe.contains(e)) by {
                assert(whole[i] == ((head + clet) + fe)[i]);
                assert(((head + clet) + fe)[i] == fe[i - 1 - clet.len()]);
            }
        } else {
            assert(tail.contains(e)) by {
                assert(whole[i] == tail[i - 1 - clet.len() - fe.len()]);
            }
        }
    }
}

} // verus!
