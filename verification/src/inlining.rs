//! The inlining pass: rewrites a document's object tree in place,
//! replacing every element whose base is a user-defined component with a
//! structurally merged expansion of that component's definition,
//! bottom-up over the component reference graph, until every base is a
//! built-in kind.
//!
//! Splicing a base component `B` into a referencing element `e` copies
//! `B`'s whole arena (root excepted) to the end of `e`'s component's
//! arena and rewrites every element identity through the index
//! translation `tr_id`: `B`'s root maps to `e` itself, every other
//! element to its fresh copy.

use vstd::prelude::*;

use crate::object_tree::BaseType;
use crate::object_tree::Component;
use crate::object_tree::Document;
use crate::object_tree::Element;
use crate::object_tree::Expression;
use crate::object_tree::NamedReference;
use crate::object_tree::RepeatedElementInfo;
use crate::object_tree::State;
use crate::object_tree::Transition;
use crate::object_tree::expr_refs_ok;
use crate::object_tree::opt_expr_refs_ok;
use crate::object_tree::state_refs_ok;
use crate::object_tree::transition_refs_ok;

verus! {

/// The identity translation used when component `B` (root index `r`,
/// arena size `m`) is spliced into element `e` of an arena that held
/// `n0` elements: `B`'s root becomes `e` itself, and the copy of every
/// other element `j` is appended in order after index `n0`.
pub open spec fn tr_id(j: int, r: int, e: int, n0: int) -> int {
    if j == r {
        e
    } else if j < r {
        n0 + j
    } else {
        n0 + j - 1
    }
}

pub open spec fn tr_ref(nr: NamedReference, r: int, e: int, n0: int) -> NamedReference {
    NamedReference {
        element: tr_id(nr.element as int, r, e, n0) as usize,
        prop_name: nr.prop_name,
    }
}

pub open spec fn tr_expr(x: Expression, r: int, e: int, n0: int) -> Expression
    decreases x,
{
    match x {
        Expression::Invalid => Expression::Invalid,
        Expression::NumberLiteral(n) => Expression::NumberLiteral(n),
        Expression::PropertyReference(nr) => Expression::PropertyReference(tr_ref(nr, r, e, n0)),
        Expression::SignalReference(nr) => Expression::SignalReference(tr_ref(nr, r, e, n0)),
        Expression::BinaryExpression(a, b) => Expression::BinaryExpression(
            Box::new(tr_expr(*a, r, e, n0)),
            Box::new(tr_expr(*b, r, e, n0)),
        ),
    }
}

pub open spec fn tr_opt_expr(x: Option<Expression>, r: int, e: int, n0: int) -> Option<
    Expression,
> {
    match x {
        Some(v) => Some(tr_expr(v, r, e, n0)),
        None => None,
    }
}

pub open spec fn tr_binding_seq(s: Seq<(String, Expression)>, r: int, e: int, n0: int) -> Seq<
    (String, Expression),
> {
    s.map_values(|p: (String, Expression)| (p.0, tr_expr(p.1, r, e, n0)))
}

pub open spec fn tr_anim_seq(s: Seq<(String, usize)>, r: int, e: int, n0: int) -> Seq<
    (String, usize),
> {
    s.map_values(|p: (String, usize)| (p.0, tr_id(p.1 as int, r, e, n0) as usize))
}

pub open spec fn tr_child_seq(s: Seq<usize>, r: int, e: int, n0: int) -> Seq<usize> {
    s.map_values(|c: usize| tr_id(c as int, r, e, n0) as usize)
}

pub open spec fn tr_change_seq(s: Seq<(NamedReference, Expression)>, r: int, e: int, n0: int) -> Seq<
    (NamedReference, Expression),
> {
    s.map_values(|p: (NamedReference, Expression)| (tr_ref(p.0, r, e, n0), tr_expr(p.1, r, e, n0)))
}

pub open spec fn tr_anim_ref_seq(s: Seq<(NamedReference, usize)>, r: int, e: int, n0: int) -> Seq<
    (NamedReference, usize),
> {
    s.map_values(
        |p: (NamedReference, usize)| (tr_ref(p.0, r, e, n0), tr_id(p.1 as int, r, e, n0) as usize),
    )
}

/// `n` is the duplicate of state `o` with every reference rewritten
/// through the translation.
pub open spec fn translated_state(o: State, n: State, r: int, e: int, n0: int) -> bool {
    &&& n.id == o.id
    &&& n.condition == tr_opt_expr(o.condition, r, e, n0)
    &&& n.property_changes@ == tr_change_seq(o.property_changes@, r, e, n0)
}

/// `n` is the duplicate of transition `o` with every reference and
/// animation element rewritten through the translation.
pub open spec fn translated_transition(o: Transition, n: Transition, r: int, e: int, n0: int) -> bool {
    &&& n.is_out == o.is_out
    &&& n.state_id == o.state_id
    &&& n.property_animations@ == tr_anim_ref_seq(o.property_animations@, r, e, n0)
}

pub open spec fn translated_repeated(
    o: Option<RepeatedElementInfo>,
    n: Option<RepeatedElementInfo>,
    r: int,
    e: int,
    n0: int,
) -> bool {
    match (o, n) {
        (Option::None, Option::None) => true,
        (Option::Some(ov), Option::Some(nv)) => {
            &&& nv.model == tr_expr(ov.model, r, e, n0)
            &&& nv.model_data_id == ov.model_data_id
            &&& nv.index_id == ov.index_id
        },
        _ => false,
    }
}

/// `n` is the duplicate of element `o`: all attributes copied, every
/// element identity rewritten through the translation, and the weak
/// back-reference re-pointed at component `cid`, whose arena now owns
/// the duplicate.
pub open spec fn translated_element(o: Element, n: Element, r: int, e: int, n0: int, cid: int) -> bool {
    &&& n.base_type == o.base_type
    &&& n.id == o.id
    &&& n.property_declarations@ == o.property_declarations@
    &&& n.bindings@ == tr_binding_seq(o.bindings@, r, e, n0)
    &&& n.property_animations@ == tr_anim_seq(o.property_animations@, r, e, n0)
    &&& n.children@ == tr_child_seq(o.children@, r, e, n0)
    &&& translated_repeated(o.repeated, n.repeated, r, e, n0)
    &&& n.states@.len() == o.states@.len()
    &&& forall|i: int|
        0 <= i < o.states@.len() ==> translated_state(
            #[trigger] o.states@[i],
            n.states@[i],
            r,
            e,
            n0,
        )
    &&& n.transitions@.len() == o.transitions@.len()
    &&& forall|i: int|
        0 <= i < o.transitions@.len() ==> translated_transition(
            #[trigger] o.transitions@[i],
            n.transitions@[i],
            r,
            e,
            n0,
        )
    &&& n.enclosing_component == cid
}

/// Index of the first entry of a keyed list whose property name reads
/// `k`, or `-1` when no entry does.
pub open spec fn first_key_index<V>(s: Seq<(String, V)>, k: Seq<char>) -> int
    decreases s.len(),
{
    if s.len() == 0 {
        -1
    } else if s[0].0@ == k {
        0
    } else {
        let rest = first_key_index(s.drop_first(), k);
        if rest < 0 {
            -1
        } else {
            rest + 1
        }
    }
}

/// Insert-or-overwrite one entry of a keyed list: an entry whose name is
/// already present keeps its place and its key and takes the new value;
/// a new name is appended.  This is the documented merge policy of the
/// inlining pass: an entry the base component's root contributes
/// overwrites an identically named entry of the referencing element.
pub open spec fn upsert<V>(s: Seq<(String, V)>, k: String, v: V) -> Seq<(String, V)> {
    let i = first_key_index(s, k@);
    if i < 0 {
        s.push((k, v))
    } else {
        s.update(i, (s[i].0, v))
    }
}

/// Fold `base` into `own`, entry by entry in `base`'s order, with
/// overwrite-on-duplicate-name semantics.
pub open spec fn merge_keyed<V>(own: Seq<(String, V)>, base: Seq<(String, V)>) -> Seq<(String, V)>
    decreases base.len(),
{
    if base.len() == 0 {
        own
    } else {
        upsert(merge_keyed(own, base.drop_last()), base.last().0, base.last().1)
    }
}

proof fn lemma_first_key_index<V>(s: Seq<(String, V)>, k: Seq<char>)
    ensures
        first_key_index(s, k) >= 0 ==> {
            &&& first_key_index(s, k) < s.len()
            &&& s[first_key_index(s, k)].0@ == k
            &&& forall|j: int| 0 <= j < first_key_index(s, k) ==> (#[trigger] s[j]).0@ != k
        },
        first_key_index(s, k) < 0 ==> forall|j: int| 0 <= j < s.len() ==> (#[trigger] s[j]).0@ != k,
    decreases s.len(),
{
    if s.len() > 0 {
        if s[0].0@ == k {
        } else {
            lemma_first_key_index(s.drop_first(), k);
            assert forall|j: int| 1 <= j < s.len() implies s[j] == s.drop_first()[j - 1] by {}
        }
    }
}

/// Replace the value stored under `k`, or append `(k, v)` when the name
/// is new; the list's view becomes `upsert` of its old view.
fn upsert_into<V>(own: &mut Vec<(String, V)>, k: String, v: V)
    ensures
        final(own)@ == upsert(old(own)@, k, v),
{
    proof {
        lemma_first_key_index(own@, k@);
    }
    let mut i: usize = 0;
    let n = own.len();
    while i < n
        invariant
            n == own@.len(),
            i <= n,
            own@ == old(own)@,
            forall|j: int| 0 <= j < i ==> (#[trigger] own@[j]).0@ != k@,
            first_key_index(own@, k@) >= 0 ==> {
                &&& first_key_index(own@, k@) < own@.len()
                &&& own@[first_key_index(own@, k@)].0@ == k@
                &&& forall|j: int|
                    0 <= j < first_key_index(own@, k@) ==> (#[trigger] own@[j]).0@ != k@
            },
            first_key_index(own@, k@) < 0 ==> forall|j: int|
                0 <= j < own@.len() ==> (#[trigger] own@[j]).0@ != k@,
        decreases n - i,
    {
        if own[i].0 == k {
            proof {
                assert(first_key_index(own@, k@) == i);
            }
            let old_pair = own.remove(i);
            own.insert(i, (old_pair.0, v));
            proof {
                assert(final(own)@ =~= upsert(old(own)@, k, v));
            }
            return ;
        }
        i = i + 1;
    }
    proof {
        assert(first_key_index(own@, k@) < 0);
    }
    own.push((k, v));
}

/// Extend `own` with `base`'s entries in order, overwriting on duplicate
/// names.
fn merge_keyed_into<V>(own: &mut Vec<(String, V)>, base: Vec<(String, V)>)
    ensures
        final(own)@ == merge_keyed(old(own)@, base@),
{
    let ghost base0 = base@;
    let mut base = base;
    let mut t: usize = 0;
    let n = base.len();
    while t < n
        invariant
            n == base0.len(),
            t <= n,
            base@ == base0.skip(t as int),
            own@ == merge_keyed(old(own)@, base0.take(t as int)),
        decreases n - t,
    {
        let p = base.remove(0);
        proof {
            assert(p == base0[t as int]);
            assert(base@ =~= base0.skip(t as int + 1));
        }
        upsert_into(own, p.0, p.1);
        proof {
            assert(base0.take(t as int + 1).drop_last() =~= base0.take(t as int));
            assert(base0.take(t as int + 1).last() == base0[t as int]);
        }
        t = t + 1;
    }
    proof {
        assert(base0.take(n as int) =~= base0);
    }
}

/// Translate one element identity.  `e < n0` is where the base's root
/// maps; copies land at `n0` and upward, in arena order with the root
/// skipped.
fn translate_id(j: usize, r: usize, e: usize, n0: usize, m: Ghost<nat>) -> (k: usize)
    requires
        j < m@,
        r < m@,
        e < n0,
        n0 + m@ <= usize::MAX + 1,
    ensures
        k == tr_id(j as int, r as int, e as int, n0 as int),
        j != r ==> n0 <= k < n0 + m@ - 1,
        j == r ==> k == e,
{
    if j == r {
        e
    } else if j < r {
        n0 + j
    } else {
        n0 + (j - 1)
    }
}

/// Rewrite one named reference through the translation; the original
/// weak reference must resolve (an unresolvable reference at this point
/// is an upstream model-construction bug, ruled out by `requires`).
fn fixup_reference(nr: &NamedReference, r: usize, e: usize, n0: usize, m: Ghost<nat>) -> (res:
    NamedReference)
    requires
        nr.element < m@,
        r < m@,
        e < n0,
        n0 + m@ <= usize::MAX + 1,
    ensures
        res == tr_ref(*nr, r as int, e as int, n0 as int),
{
    NamedReference {
        element: translate_id(nr.element, r, e, n0, m),
        prop_name: nr.prop_name.clone(),
    }
}

/// Duplicate a binding expression, rewriting every property and signal
/// reference inside it through the translation.
fn fold_binding(x: &Expression, r: usize, e: usize, n0: usize, m: Ghost<nat>) -> (res: Expression)
    requires
        expr_refs_ok(*x, m@),
        r < m@,
        e < n0,
        n0 + m@ <= usize::MAX + 1,
    ensures
        res == tr_expr(*x, r as int, e as int, n0 as int),
    decreases x,
{
    match x {
        Expression::Invalid => Expression::Invalid,
        Expression::NumberLiteral(n) => Expression::NumberLiteral(*n),
        Expression::PropertyReference(nr) => Expression::PropertyReference(
            fixup_reference(nr, r, e, n0, m),
        ),
        Expression::SignalReference(nr) => Expression::SignalReference(
            fixup_reference(nr, r, e, n0, m),
        ),
        Expression::BinaryExpression(a, b) => Expression::BinaryExpression(
            Box::new(fold_binding(&**a, r, e, n0, m)),
            Box::new(fold_binding(&**b, r, e, n0, m)),
        ),
    }
}

fn fold_opt_binding(x: &Option<Expression>, r: usize, e: usize, n0: usize, m: Ghost<nat>) -> (res:
    Option<Expression>)
    requires
        opt_expr_refs_ok(*x, m@),
        r < m@,
        e < n0,
        n0 + m@ <= usize::MAX + 1,
    ensures
        res == tr_opt_expr(*x, r as int, e as int, n0 as int),
{
    match x {
        Some(v) => Some(fold_binding(v, r, e, n0, m)),
        None => None,
    }
}

fn fold_binding_list(
    v: &Vec<(String, Expression)>,
    r: usize,
    e: usize,
    n0: usize,
    m: Ghost<nat>,
) -> (res: Vec<(String, Expression)>)
    requires
        forall|i: int| 0 <= i < v@.len() ==> expr_refs_ok((#[trigger] v@[i]).1, m@),
        r < m@,
        e < n0,
        n0 + m@ <= usize::MAX + 1,
    ensures
        res@ == tr_binding_seq(v@, r as int, e as int, n0 as int),
{
    let mut res: Vec<(String, Expression)> = Vec::new();
    let mut i: usize = 0;
    while i < v.len()
        invariant
            i <= v@.len(),
            res@.len() == i,
            forall|j: int|
                0 <= j < i ==> res@[j] == ((#[trigger] v@[j]).0, tr_expr(
                    v@[j].1,
                    r as int,
                    e as int,
                    n0 as int,
                )),
            forall|j: int| 0 <= j < v@.len() ==> expr_refs_ok((#[trigger] v@[j]).1, m@),
            r < m@,
            e < n0,
            n0 + m@ <= usize::MAX + 1,
        decreases v@.len() - i,
    {
        let k = v[i].0.clone();
        let x = fold_binding(&v[i].1, r, e, n0, m);
        res.push((k, x));
        i = i + 1;
    }
    proof {
        assert(res@ =~= tr_binding_seq(v@, r as int, e as int, n0 as int));
    }
    res
}

fn translate_anim_list(
    v: &Vec<(String, usize)>,
    r: usize,
    e: usize,
    n0: usize,
    m: Ghost<nat>,
) -> (res: Vec<(String, usize)>)
    requires
        forall|i: int| 0 <= i < v@.len() ==> (#[trigger] v@[i]).1 < m@,
        r < m@,
        e < n0,
        n0 + m@ <= usize::MAX + 1,
    ensures
        res@ == tr_anim_seq(v@, r as int, e as int, n0 as int),
{
    let mut res: Vec<(String, usize)> = Vec::new();
    let mut i: usize = 0;
    while i < v.len()
        invariant
            i <= v@.len(),
            res@.len() == i,
            forall|j: int|
                0 <= j < i ==> res@[j] == ((#[trigger] v@[j]).0, tr_id(
                    v@[j].1 as int,
                    r as int,
                    e as int,
                    n0 as int,
                ) as usize),
            forall|j: int| 0 <= j < v@.len() ==> (#[trigger] v@[j]).1 < m@,
            r < m@,
            e < n0,
            n0 + m@ <= usize::MAX + 1,
        decreases v@.len() - i,
    {
        let k = v[i].0.clone();
        let t = translate_id(v[i].1, r, e, n0, m);
        res.push((k, t));
        i = i + 1;
    }
    proof {
        assert(res@ =~= tr_anim_seq(v@, r as int, e as int, n0 as int));
    }
    res
}

fn translate_child_list(v: &Vec<usize>, r: usize, e: usize, n0: usize, m: Ghost<nat>) -> (res: Vec<
    usize,
>)
    requires
        forall|i: int| 0 <= i < v@.len() ==> #[trigger] v@[i] < m@,
        r < m@,
        e < n0,
        n0 + m@ <= usize::MAX + 1,
    ensures
        res@ == tr_child_seq(v@, r as int, e as int, n0 as int),
{
    let mut res: Vec<usize> = Vec::new();
    let mut i: usize = 0;
    while i < v.len()
        invariant
            i <= v@.len(),
            res@.len() == i,
            forall|j: int|
                0 <= j < i ==> res@[j] == tr_id(
                    #[trigger] v@[j] as int,
                    r as int,
                    e as int,
                    n0 as int,
                ) as usize,
            forall|j: int| 0 <= j < v@.len() ==> #[trigger] v@[j] < m@,
            r < m@,
            e < n0,
            n0 + m@ <= usize::MAX + 1,
        decreases v@.len() - i,
    {
        let t = translate_id(v[i], r, e, n0, m);
        res.push(t);
        i = i + 1;
    }
    proof {
        assert(res@ =~= tr_child_seq(v@, r as int, e as int, n0 as int));
    }
    res
}

fn translate_change_list(
    v: &Vec<(NamedReference, Expression)>,
    r: usize,
    e: usize,
    n0: usize,
    m: Ghost<nat>,
) -> (res: Vec<(NamedReference, Expression)>)
    requires
        forall|i: int|
            0 <= i < v@.len() ==> (#[trigger] v@[i]).0.element < m@ && expr_refs_ok(v@[i].1, m@),
        r < m@,
        e < n0,
        n0 + m@ <= usize::MAX + 1,
    ensures
        res@ == tr_change_seq(v@, r as int, e as int, n0 as int),
{
    let mut res: Vec<(NamedReference, Expression)> = Vec::new();
    let mut i: usize = 0;
    while i < v.len()
        invariant
            i <= v@.len(),
            res@.len() == i,
            forall|j: int|
                0 <= j < i ==> res@[j] == (tr_ref(
                    (#[trigger] v@[j]).0,
                    r as int,
                    e as int,
                    n0 as int,
                ), tr_expr(v@[j].1, r as int, e as int, n0 as int)),
            forall|j: int|
                0 <= j < v@.len() ==> (#[trigger] v@[j]).0.element < m@ && expr_refs_ok(
                    v@[j].1,
                    m@,
                ),
            r < m@,
            e < n0,
            n0 + m@ <= usize::MAX + 1,
        decreases v@.len() - i,
    {
        let nr = fixup_reference(&v[i].0, r, e, n0, m);
        let x = fold_binding(&v[i].1, r, e, n0, m);
        res.push((nr, x));
        i = i + 1;
    }
    proof {
        assert(res@ =~= tr_change_seq(v@, r as int, e as int, n0 as int));
    }
    res
}

fn translate_anim_ref_list(
    v: &Vec<(NamedReference, usize)>,
    r: usize,
    e: usize,
    n0: usize,
    m: Ghost<nat>,
) -> (res: Vec<(NamedReference, usize)>)
    requires
        forall|i: int| 0 <= i < v@.len() ==> (#[trigger] v@[i]).0.element < m@ && v@[i].1 < m@,
        r < m@,
        e < n0,
        n0 + m@ <= usize::MAX + 1,
    ensures
        res@ == tr_anim_ref_seq(v@, r as int, e as int, n0 as int),
{
    let mut res: Vec<(NamedReference, usize)> = Vec::new();
    let mut i: usize = 0;
    while i < v.len()
        invariant
            i <= v@.len(),
            res@.len() == i,
            forall|j: int|
                0 <= j < i ==> res@[j] == (tr_ref(
                    (#[trigger] v@[j]).0,
                    r as int,
                    e as int,
                    n0 as int,
                ), tr_id(v@[j].1 as int, r as int, e as int, n0 as int) as usize),
            forall|j: int|
                0 <= j < v@.len() ==> (#[trigger] v@[j]).0.element < m@ && v@[j].1 < m@,
            r < m@,
            e < n0,
            n0 + m@ <= usize::MAX + 1,
        decreases v@.len() - i,
    {
        let nr = fixup_reference(&v[i].0, r, e, n0, m);
        let t = translate_id(v[i].1, r, e, n0, m);
        res.push((nr, t));
        i = i + 1;
    }
    proof {
        assert(res@ =~= tr_anim_ref_seq(v@, r as int, e as int, n0 as int));
    }
    res
}

fn clone_decl_list(v: &Vec<(String, String)>) -> (res: Vec<(String, String)>)
    ensures
        res@ == v@,
{
    let mut res: Vec<(String, String)> = Vec::new();
    let mut i: usize = 0;
    while i < v.len()
        invariant
            i <= v@.len(),
            res@ == v@.subrange(0, i as int),
        decreases v@.len() - i,
    {
        let k = v[i].0.clone();
        let t = v[i].1.clone();
        res.push((k, t));
        proof {
            assert(res@ =~= v@.subrange(0, i + 1));
        }
        i = i + 1;
    }
    proof {
        assert(v@.subrange(0, v@.len() as int) =~= v@);
    }
    res
}

fn duplicate_state(s: &State, r: usize, e: usize, n0: usize, m: Ghost<nat>) -> (res: State)
    requires
        state_refs_ok(*s, m@),
        r < m@,
        e < n0,
        n0 + m@ <= usize::MAX + 1,
    ensures
        translated_state(*s, res, r as int, e as int, n0 as int),
{
    State {
        id: s.id.clone(),
        condition: fold_opt_binding(&s.condition, r, e, n0, m),
        property_changes: translate_change_list(&s.property_changes, r, e, n0, m),
    }
}

fn duplicate_transition(t: &Transition, r: usize, e: usize, n0: usize, m: Ghost<nat>) -> (res:
    Transition)
    requires
        transition_refs_ok(*t, m@),
        r < m@,
        e < n0,
        n0 + m@ <= usize::MAX + 1,
    ensures
        translated_transition(*t, res, r as int, e as int, n0 as int),
{
    Transition {
        is_out: t.is_out,
        state_id: t.state_id.clone(),
        property_animations: translate_anim_ref_list(&t.property_animations, r, e, n0, m),
    }
}

fn clone_base_type(b: &BaseType) -> (res: BaseType)
    ensures
        res == *b,
{
    match b {
        BaseType::Builtin(s) => BaseType::Builtin(s.clone()),
        BaseType::Component(c) => BaseType::Component(*c),
    }
}

fn duplicate_repeated(
    x: &Option<RepeatedElementInfo>,
    r: usize,
    e: usize,
    n0: usize,
    m: Ghost<nat>,
) -> (res: Option<RepeatedElementInfo>)
    requires
        match *x {
            Some(rep) => expr_refs_ok(rep.model, m@),
            None => true,
        },
        r < m@,
        e < n0,
        n0 + m@ <= usize::MAX + 1,
    ensures
        translated_repeated(*x, res, r as int, e as int, n0 as int),
{
    match x {
        Some(rep) => Some(
            RepeatedElementInfo {
                model: fold_binding(&rep.model, r, e, n0, m),
                model_data_id: rep.model_data_id.clone(),
                index_id: rep.index_id.clone(),
            },
        ),
        None => None,
    }
}

/// Duplicate one element of the base component's arena, rewriting every
/// element identity it holds through the index translation and
/// re-pointing its weak back-reference at component `cid`.
fn duplicate_element_with_mapping(
    o: &Element,
    r: usize,
    e: usize,
    n0: usize,
    m: Ghost<nat>,
    cid: usize,
) -> (res: Element)
    requires
        crate::object_tree::element_refs_ok(*o, m@),
        r < m@,
        e < n0,
        n0 + m@ <= usize::MAX + 1,
    ensures
        translated_element(*o, res, r as int, e as int, n0 as int, cid as int),
{
    let mut states: Vec<State> = Vec::new();
    let mut i: usize = 0;
    while i < o.states.len()
        invariant
            i <= o.states@.len(),
            states@.len() == i,
            forall|j: int|
                0 <= j < i ==> translated_state(
                    #[trigger] o.states@[j],
                    states@[j],
                    r as int,
                    e as int,
                    n0 as int,
                ),
            forall|j: int| 0 <= j < o.states@.len() ==> state_refs_ok(#[trigger] o.states@[j], m@),
            r < m@,
            e < n0,
            n0 + m@ <= usize::MAX + 1,
        decreases o.states@.len() - i,
    {
        let s = duplicate_state(&o.states[i], r, e, n0, m);
        states.push(s);
        i = i + 1;
    }
    let mut transitions: Vec<Transition> = Vec::new();
    let mut i2: usize = 0;
    while i2 < o.transitions.len()
        invariant
            i2 <= o.transitions@.len(),
            transitions@.len() == i2,
            forall|j: int|
                0 <= j < i2 ==> translated_transition(
                    #[trigger] o.transitions@[j],
                    transitions@[j],
                    r as int,
                    e as int,
                    n0 as int,
                ),
            forall|j: int|
                0 <= j < o.transitions@.len() ==> transition_refs_ok(
                    #[trigger] o.transitions@[j],
                    m@,
                ),
            r < m@,
            e < n0,
            n0 + m@ <= usize::MAX + 1,
        decreases o.transitions@.len() - i2,
    {
        let t = duplicate_transition(&o.transitions[i2], r, e, n0, m);
        transitions.push(t);
        i2 = i2 + 1;
    }
    Element {
        base_type: clone_base_type(&o.base_type),
        id: o.id.clone(),
        property_declarations: clone_decl_list(&o.property_declarations),
        bindings: fold_binding_list(&o.bindings, r, e, n0, m),
        property_animations: translate_anim_list(&o.property_animations, r, e, n0, m),
        children: translate_child_list(&o.children, r, e, n0, m),
        repeated: duplicate_repeated(&o.repeated, r, e, n0, m),
        states,
        transitions,
        enclosing_component: cid,
    }
}

fn empty_element() -> (res: Element) {
    Element {
        base_type: BaseType::Builtin(String::new()),
        id: String::new(),
        property_declarations: Vec::new(),
        bindings: Vec::new(),
        property_animations: Vec::new(),
        children: Vec::new(),
        repeated: None,
        states: Vec::new(),
        transitions: Vec::new(),
        enclosing_component: 0,
    }
}

fn vec_set<T>(v: &mut Vec<T>, i: usize, x: T)
    requires
        i < old(v)@.len(),
    ensures
        final(v)@ == old(v)@.update(i as int, x),
{
    let mut x = x;
    core::mem::swap(&mut v[i], &mut x);
}

/// What splicing component `base` into the referencing element leaves in
/// that element's slot: the element takes the base root's base type,
/// receives the root's property declarations, rewritten bindings and
/// rewritten animations (entries of the base overwriting identically
/// named local entries, the documented policy), and the root's
/// duplicated children are placed before its own; everything else is
/// kept.
pub open spec fn inlined_root_ok(own: Element, base: Component, ne: Element, e: int, n0: int) -> bool {
    let r = base.root as int;
    let broot = base.elements@[r];
    &&& ne.base_type == broot.base_type
    &&& ne.id == own.id
    &&& ne.property_declarations@ == merge_keyed(
        own.property_declarations@,
        broot.property_declarations@,
    )
    &&& ne.bindings@ == merge_keyed(own.bindings@, tr_binding_seq(broot.bindings@, r, e, n0))
    &&& ne.property_animations@ == merge_keyed(
        own.property_animations@,
        tr_anim_seq(broot.property_animations@, r, e, n0),
    )
    &&& ne.children@ == tr_child_seq(broot.children@, r, e, n0) + own.children@
    &&& ne.repeated == own.repeated
    &&& ne.states == own.states
    &&& ne.transitions == own.transitions
    &&& ne.enclosing_component == own.enclosing_component
}

/// Splice the definition of `base` into element `e_idx` of `comp`
/// (which must be registered at index `comp_id`): the base's arena is
/// duplicated after the end of `comp`'s arena with every element
/// identity rewritten through `tr_id` — the base's root mapping to the
/// referencing element itself — and the root's attributes are merged
/// into the referencing element.
pub fn inline_element(comp: &mut Component, e_idx: usize, base: &Component, comp_id: usize)
    requires
        e_idx < old(comp).elements@.len(),
        crate::object_tree::component_refs_ok(*base),
    ensures
        final(comp).name == old(comp).name,
        final(comp).root == old(comp).root,
        final(comp).elements@.len() == old(comp).elements@.len() + base.elements@.len() - 1,
        forall|j: int|
            0 <= j < old(comp).elements@.len() && j != e_idx ==> final(comp).elements@[j]
                == old(comp).elements@[j],
        inlined_root_ok(
            old(comp).elements@[e_idx as int],
            *base,
            final(comp).elements@[e_idx as int],
            e_idx as int,
            old(comp).elements@.len() as int,
        ),
        forall|j: int|
            0 <= j < base.elements@.len() && j != base.root ==> translated_element(
                #[trigger] base.elements@[j],
                final(comp).elements@[tr_id(
                    j,
                    base.root as int,
                    e_idx as int,
                    old(comp).elements@.len() as int,
                )],
                base.root as int,
                e_idx as int,
                old(comp).elements@.len() as int,
                comp_id as int,
            ),
{
    let ghost m: nat = base.elements@.len();
    let ghost els0 = old(comp).elements@;
    let n0 = comp.elements.len();
    let r = base.root;

    // Reserve one fresh arena slot for every base element but the root.
    let total = base.elements.len() - 1;
    let mut j: usize = 0;
    while j < total
        invariant
            total == m - 1,
            j <= total,
            comp.elements@.len() == n0 + j,
            comp.elements@.subrange(0, n0 as int) == els0,
            comp.name == old(comp).name,
            comp.root == old(comp).root,
            n0 == els0.len(),
        decreases total - j,
    {
        comp.elements.push(empty_element());
        proof {
            assert(comp.elements@.subrange(0, n0 as int) =~= els0);
        }
        j = j + 1;
    }
    // The arena length is a machine word, so every translated identity
    // fits one as well.
    let l = comp.elements.len();
    proof {
        assert(l == n0 + m - 1);
        assert(n0 + m <= usize::MAX + 1);
    }

    // Fill the reserved slots with the duplicated elements.
    let mut j2: usize = 0;
    while j2 < base.elements.len()
        invariant
            m == base.elements@.len(),
            j2 <= m,
            comp.elements@.len() == n0 + m - 1,
            forall|i: int| 0 <= i < n0 ==> comp.elements@[i] == els0[i],
            forall|jj: int|
                0 <= jj < j2 && jj != r ==> translated_element(
                    #[trigger] base.elements@[jj],
                    comp.elements@[tr_id(jj, r as int, e_idx as int, n0 as int)],
                    r as int,
                    e_idx as int,
                    n0 as int,
                    comp_id as int,
                ),
            comp.name == old(comp).name,
            comp.root == old(comp).root,
            e_idx < n0,
            n0 == els0.len(),
            r < m,
            n0 + m <= usize::MAX + 1,
            crate::object_tree::component_refs_ok(*base),
        decreases m - j2,
    {
        if j2 != r {
            let ne = duplicate_element_with_mapping(
                &base.elements[j2],
                r,
                e_idx,
                n0,
                Ghost(m),
                comp_id,
            );
            let k = translate_id(j2, r, e_idx, n0, Ghost(m));
            vec_set(&mut comp.elements, k, ne);
        }
        j2 = j2 + 1;
    }

    // Merge the base root's attributes into the referencing element.
    let broot = &base.elements[r];
    let tb_bind = fold_binding_list(&broot.bindings, r, e_idx, n0, Ghost(m));
    let tb_anim = translate_anim_list(&broot.property_animations, r, e_idx, n0, Ghost(m));
    let mut children = translate_child_list(&broot.children, r, e_idx, n0, Ghost(m));
    let tb_decls = clone_decl_list(&broot.property_declarations);
    let new_base = clone_base_type(&broot.base_type);

    let mut own = empty_element();
    core::mem::swap(&mut own, &mut comp.elements[e_idx]);
    proof {
        assert(own == els0[e_idx as int]);
    }
    let Element {
        base_type: _,
        id,
        property_declarations,
        bindings,
        property_animations,
        children: own_children,
        repeated,
        states,
        transitions,
        enclosing_component,
    } = own;
    let mut property_declarations = property_declarations;
    merge_keyed_into(&mut property_declarations, tb_decls);
    let mut bindings = bindings;
    merge_keyed_into(&mut bindings, tb_bind);
    let mut property_animations = property_animations;
    merge_keyed_into(&mut property_animations, tb_anim);
    let mut own_children = own_children;
    children.append(&mut own_children);
    let ne = Element {
        base_type: new_base,
        id,
        property_declarations,
        bindings,
        property_animations,
        children,
        repeated,
        states,
        transitions,
        enclosing_component,
    };
    vec_set(&mut comp.elements, e_idx, ne);
}

proof fn lemma_expr_refs_ok_mono(x: Expression, n: nat, n2: nat)
    requires
        expr_refs_ok(x, n),
        n <= n2,
    ensures
        expr_refs_ok(x, n2),
    decreases x,
{
    match x {
        Expression::BinaryExpression(a, b) => {
            lemma_expr_refs_ok_mono(*a, n, n2);
            lemma_expr_refs_ok_mono(*b, n, n2);
        },
        _ => {},
    }
}

proof fn lemma_state_refs_ok_mono(s: State, n: nat, n2: nat)
    requires
        state_refs_ok(s, n),
        n <= n2,
    ensures
        state_refs_ok(s, n2),
{
    match s.condition {
        Some(c) => lemma_expr_refs_ok_mono(c, n, n2),
        None => {},
    }
    assert forall|i: int| 0 <= i < s.property_changes@.len() implies (
    #[trigger] s.property_changes@[i]).0.element < n2 && expr_refs_ok(
        s.property_changes@[i].1,
        n2,
    ) by {
        lemma_expr_refs_ok_mono(s.property_changes@[i].1, n, n2);
    }
}

proof fn lemma_element_refs_ok_mono(e: Element, n: nat, n2: nat)
    requires
        crate::object_tree::element_refs_ok(e, n),
        n <= n2,
    ensures
        crate::object_tree::element_refs_ok(e, n2),
{
    assert forall|i: int| 0 <= i < e.bindings@.len() implies expr_refs_ok(
        (#[trigger] e.bindings@[i]).1,
        n2,
    ) by {
        lemma_expr_refs_ok_mono(e.bindings@[i].1, n, n2);
    }
    match e.repeated {
        Some(r) => lemma_expr_refs_ok_mono(r.model, n, n2),
        None => {},
    }
    assert forall|i: int| 0 <= i < e.states@.len() implies state_refs_ok(
        #[trigger] e.states@[i],
        n2,
    ) by {
        lemma_state_refs_ok_mono(e.states@[i], n, n2);
    }
    assert forall|i: int| 0 <= i < e.transitions@.len() implies transition_refs_ok(
        #[trigger] e.transitions@[i],
        n2,
    ) by {}
}

proof fn lemma_tr_expr_refs_ok(x: Expression, r: int, e: int, n0: int, m: nat)
    requires
        expr_refs_ok(x, m),
        0 <= r < m,
        0 <= e < n0,
    ensures
        expr_refs_ok(tr_expr(x, r, e, n0), (n0 + m - 1) as nat),
    decreases x,
{
    match x {
        Expression::BinaryExpression(a, b) => {
            lemma_tr_expr_refs_ok(*a, r, e, n0, m);
            lemma_tr_expr_refs_ok(*b, r, e, n0, m);
        },
        _ => {},
    }
}

proof fn lemma_translated_element_refs_ok(
    o: Element,
    n: Element,
    r: int,
    e: int,
    n0: int,
    m: nat,
    cid: int,
)
    requires
        crate::object_tree::element_refs_ok(o, m),
        translated_element(o, n, r, e, n0, cid),
        0 <= r < m,
        0 <= e < n0,
    ensures
        crate::object_tree::element_refs_ok(n, (n0 + m - 1) as nat),
{
    let ghost l = (n0 + m - 1) as nat;
    assert forall|i: int| 0 <= i < n.children@.len() implies #[trigger] n.children@[i] < l by {
        assert(o.children@[i] < m);
    }
    assert forall|i: int| 0 <= i < n.bindings@.len() implies expr_refs_ok(
        (#[trigger] n.bindings@[i]).1,
        l,
    ) by {
        assert(n.bindings@[i].1 == tr_expr(o.bindings@[i].1, r, e, n0));
        lemma_tr_expr_refs_ok(o.bindings@[i].1, r, e, n0, m);
    }
    assert forall|i: int| 0 <= i < n.property_animations@.len() implies (
    #[trigger] n.property_animations@[i]).1 < l by {
        assert(o.property_animations@[i].1 < m);
    }
    match n.repeated {
        Some(rep) => {
            match o.repeated {
                Some(orep) => {
                    lemma_tr_expr_refs_ok(orep.model, r, e, n0, m);
                },
                None => {
                    assert(false);
                },
            }
        },
        None => {},
    }
    assert forall|i: int| 0 <= i < n.states@.len() implies state_refs_ok(
        #[trigger] n.states@[i],
        l,
    ) by {
        let os = o.states@[i];
        let ns = n.states@[i];
        assert(translated_state(os, ns, r, e, n0));
        match ns.condition {
            Some(c) => {
                match os.condition {
                    Some(oc) => {
                        lemma_tr_expr_refs_ok(oc, r, e, n0, m);
                    },
                    None => {
                        assert(false);
                    },
                }
            },
            None => {},
        }
        assert forall|j: int| 0 <= j < ns.property_changes@.len() implies (
        #[trigger] ns.property_changes@[j]).0.element < l && expr_refs_ok(
            ns.property_changes@[j].1,
            l,
        ) by {
            assert(ns.property_changes@[j] == (
                tr_ref(os.property_changes@[j].0, r, e, n0),
                tr_expr(os.property_changes@[j].1, r, e, n0),
            ));
            assert(os.property_changes@[j].0.element < m);
            lemma_tr_expr_refs_ok(os.property_changes@[j].1, r, e, n0, m);
        }
    }
    assert forall|i: int| 0 <= i < n.transitions@.len() implies transition_refs_ok(
        #[trigger] n.transitions@[i],
        l,
    ) by {
        let ot = o.transitions@[i];
        let nt = n.transitions@[i];
        assert(translated_transition(ot, nt, r, e, n0));
        assert forall|j: int| 0 <= j < nt.property_animations@.len() implies (
        #[trigger] nt.property_animations@[j]).0.element < l && nt.property_animations@[j].1
            < l by {
            assert(nt.property_animations@[j] == (
                tr_ref(ot.property_animations@[j].0, r, e, n0),
                tr_id(ot.property_animations@[j].1 as int, r, e, n0) as usize,
            ));
            assert(ot.property_animations@[j].0.element < m);
            assert(ot.property_animations@[j].1 < m);
        }
    }
    assert(crate::object_tree::unique_keys(n.property_declarations@));
    assert forall|i: int, j: int| 0 <= i < j < n.bindings@.len() implies (
    #[trigger] n.bindings@[i]).0@ != (#[trigger] n.bindings@[j]).0@ by {
        assert(n.bindings@[i].0 == o.bindings@[i].0);
        assert(n.bindings@[j].0 == o.bindings@[j].0);
    }
    assert forall|i: int, j: int| 0 <= i < j < n.property_animations@.len() implies (
    #[trigger] n.property_animations@[i]).0@ != (#[trigger] n.property_animations@[j]).0@ by {
        assert(n.property_animations@[i].0 == o.property_animations@[i].0);
        assert(n.property_animations@[j].0 == o.property_animations@[j].0);
    }
}

proof fn lemma_upsert_unique<V>(s: Seq<(String, V)>, k: String, v: V)
    requires
        crate::object_tree::unique_keys(s),
    ensures
        crate::object_tree::unique_keys(upsert(s, k, v)),
{
    lemma_first_key_index(s, k@);
}

proof fn lemma_merge_unique<V>(own: Seq<(String, V)>, base: Seq<(String, V)>)
    requires
        crate::object_tree::unique_keys(own),
    ensures
        crate::object_tree::unique_keys(merge_keyed(own, base)),
    decreases base.len(),
{
    if base.len() > 0 {
        lemma_merge_unique(own, base.drop_last());
        lemma_upsert_unique(merge_keyed(own, base.drop_last()), base.last().0, base.last().1);
    }
}

/// Every value stored by the merge comes from one of the two inputs.
proof fn lemma_merge_values<V>(own: Seq<(String, V)>, base: Seq<(String, V)>, pv: spec_fn(V) -> bool)
    requires
        forall|i: int| 0 <= i < own.len() ==> pv((#[trigger] own[i]).1),
        forall|i: int| 0 <= i < base.len() ==> pv((#[trigger] base[i]).1),
    ensures
        forall|i: int|
            0 <= i < merge_keyed(own, base).len() ==> pv((#[trigger] merge_keyed(own, base)[i]).1),
    decreases base.len(),
{
    if base.len() > 0 {
        lemma_merge_values(own, base.drop_last(), pv);
        let mid = merge_keyed(own, base.drop_last());
        let k = base.last().0;
        let v = base.last().1;
        lemma_first_key_index(mid, k@);
        let fki = first_key_index(mid, k@);
        assert forall|i: int| 0 <= i < merge_keyed(own, base).len() implies pv(
            (#[trigger] merge_keyed(own, base)[i]).1,
        ) by {
            if fki < 0 {
                if i < mid.len() {
                    assert(merge_keyed(own, base)[i].1 == mid[i].1);
                }
            } else {
                if i != fki {
                    assert(merge_keyed(own, base)[i].1 == mid[i].1);
                }
            }
        }
    }
}

/// After splicing, every element of the grown arena is well-formed for
/// the same component index, the referencing element and every
/// duplicate are flat (the base being flat), and the referencing slot
/// keeps its place.
proof fn lemma_inline_element_wf(
    oldc: Component,
    newc: Component,
    base: Component,
    e_idx: int,
    cid: int,
)
    requires
        0 <= e_idx < oldc.elements@.len(),
        crate::object_tree::component_refs_ok(base),
        crate::object_tree::component_flat(base),
        forall|j: int|
            0 <= j < oldc.elements@.len() ==> crate::object_tree::element_wf(
                #[trigger] oldc.elements@[j],
                oldc.elements@.len(),
                cid,
            ),
        newc.elements@.len() == oldc.elements@.len() + base.elements@.len() - 1,
        forall|j: int|
            0 <= j < oldc.elements@.len() && j != e_idx ==> newc.elements@[j]
                == oldc.elements@[j],
        inlined_root_ok(
            oldc.elements@[e_idx],
            base,
            newc.elements@[e_idx],
            e_idx,
            oldc.elements@.len() as int,
        ),
        forall|j: int|
            0 <= j < base.elements@.len() && j != base.root ==> translated_element(
                #[trigger] base.elements@[j],
                newc.elements@[tr_id(
                    j,
                    base.root as int,
                    e_idx,
                    oldc.elements@.len() as int,
                )],
                base.root as int,
                e_idx,
                oldc.elements@.len() as int,
                cid,
            ),
    ensures
        forall|j: int|
            0 <= j < newc.elements@.len() ==> crate::object_tree::element_wf(
                #[trigger] newc.elements@[j],
                newc.elements@.len(),
                cid,
            ),
        crate::object_tree::element_flat(newc.elements@[e_idx]),
        forall|j: int|
            oldc.elements@.len() <= j < newc.elements@.len() ==> crate::object_tree::element_flat(
                #[trigger] newc.elements@[j],
            ),
{
    let n0 = oldc.elements@.len() as int;
    let m = base.elements@.len() as nat;
    let r = base.root as int;
    let l = newc.elements@.len() as nat;
    let broot = base.elements@[r];
    let own = oldc.elements@[e_idx];
    let ne = newc.elements@[e_idx];

    // Appended duplicates: recover the base index a slot copies.
    assert forall|k: int| n0 <= k < l implies crate::object_tree::element_wf(
        #[trigger] newc.elements@[k],
        l,
        cid,
    ) && crate::object_tree::element_flat(newc.elements@[k]) by {
        let j = if k - n0 < r {
            k - n0
        } else {
            k - n0 + 1
        };
        assert(tr_id(j, r, e_idx, n0) == k);
        assert(j != r);
        assert(translated_element(base.elements@[j], newc.elements@[k], r, e_idx, n0, cid));
        lemma_translated_element_refs_ok(
            base.elements@[j],
            newc.elements@[k],
            r,
            e_idx,
            n0,
            m,
            cid,
        );
        assert(crate::object_tree::element_flat(base.elements@[j]));
    }

    // Untouched elements of the old arena stay well-formed in the
    // larger arena.
    assert forall|j: int| 0 <= j < n0 && j != e_idx implies crate::object_tree::element_wf(
        #[trigger] newc.elements@[j],
        l,
        cid,
    ) by {
        lemma_element_refs_ok_mono(oldc.elements@[j], n0 as nat, l);
    }

    // The referencing element itself.
    assert forall|i: int| 0 <= i < ne.children@.len() implies #[trigger] ne.children@[i] < l by {
        let tc = tr_child_seq(broot.children@, r, e_idx, n0);
        if i < tc.len() {
            assert(ne.children@[i] == tr_id(broot.children@[i] as int, r, e_idx, n0) as usize);
            assert(broot.children@[i] < m);
        } else {
            assert(ne.children@[i] == own.children@[i - tc.len()]);
        }
    }
    let pv_expr = |x: Expression| expr_refs_ok(x, l);
    assert forall|i: int| 0 <= i < own.bindings@.len() implies pv_expr(
        (#[trigger] own.bindings@[i]).1,
    ) by {
        lemma_expr_refs_ok_mono(own.bindings@[i].1, n0 as nat, l);
    }
    let tb = tr_binding_seq(broot.bindings@, r, e_idx, n0);
    assert forall|i: int| 0 <= i < tb.len() implies pv_expr((#[trigger] tb[i]).1) by {
        assert(tb[i].1 == tr_expr(broot.bindings@[i].1, r, e_idx, n0));
        lemma_tr_expr_refs_ok(broot.bindings@[i].1, r, e_idx, n0, m);
    }
    lemma_merge_values(own.bindings@, tb, pv_expr);
    lemma_merge_unique(own.bindings@, tb);
    let pv_id = |x: usize| x < l;
    assert forall|i: int| 0 <= i < own.property_animations@.len() implies pv_id(
        (#[trigger] own.property_animations@[i]).1,
    ) by {}
    let ta = tr_anim_seq(broot.property_animations@, r, e_idx, n0);
    assert forall|i: int| 0 <= i < ta.len() implies pv_id((#[trigger] ta[i]).1) by {
        assert(ta[i].1 == tr_id(broot.property_animations@[i].1 as int, r, e_idx, n0) as usize);
        assert(broot.property_animations@[i].1 < m);
    }
    lemma_merge_values(own.property_animations@, ta, pv_id);
    lemma_merge_unique(own.property_animations@, ta);
    lemma_merge_unique(own.property_declarations@, broot.property_declarations@);
    match ne.repeated {
        Some(rep) => {
            assert(own.repeated == ne.repeated);
            lemma_expr_refs_ok_mono(rep.model, n0 as nat, l);
        },
        None => {},
    }
    assert forall|i: int| 0 <= i < ne.states@.len() implies state_refs_ok(
        #[trigger] ne.states@[i],
        l,
    ) by {
        assert(ne.states@[i] == own.states@[i]);
        lemma_state_refs_ok_mono(own.states@[i], n0 as nat, l);
    }
    assert forall|i: int| 0 <= i < ne.transitions@.len() implies transition_refs_ok(
        #[trigger] ne.transitions@[i],
        l,
    ) by {
        assert(ne.transitions@[i] == own.transitions@[i]);
    }
    assert(crate::object_tree::element_flat(broot));
    assert(crate::object_tree::element_wf(ne, l, cid));
}

/// What the pass leaves, in place, of one element of a component's
/// original arena: an element whose base was already a built-in kind is
/// untouched; an element whose base was the user-defined component
/// `reg[b]` keeps its identity, its id, its repeated descriptor, its
/// states and transitions and its back-reference, takes the flattened
/// base's root base type, and ends with the duplicated base children
/// placed before its own, which close the list unchanged.
pub open spec fn inlined_element_shape(oe: Element, ne: Element, reg: Seq<Component>) -> bool {
    match oe.base_type {
        BaseType::Builtin(_) => ne == oe,
        BaseType::Component(b) => {
            let base = reg[b as int];
            let broot = base.elements@[base.root as int];
            &&& ne.id == oe.id
            &&& ne.repeated == oe.repeated
            &&& ne.states == oe.states
            &&& ne.transitions == oe.transitions
            &&& ne.enclosing_component == oe.enclosing_component
            &&& ne.base_type == broot.base_type
            &&& ne.property_declarations@ == merge_keyed(
                oe.property_declarations@,
                broot.property_declarations@,
            )
            &&& ne.children@.len() == broot.children@.len() + oe.children@.len()
            &&& ne.children@.skip(broot.children@.len() as int) == oe.children@
        },
    }
}

fn empty_component() -> (res: Component)
    ensures
        res.elements@.len() == 0,
{
    Component { name: String::new(), root: 0, elements: Vec::new() }
}

fn base_component_id(e: &Element) -> (res: Option<usize>)
    ensures
        match e.base_type {
            BaseType::Component(c) => res == Some(c),
            BaseType::Builtin(_) => res is None,
        },
{
    match &e.base_type {
        BaseType::Component(c) => Some(*c),
        BaseType::Builtin(_) => None,
    }
}

/// Flatten the component registered at index `c`, first flattening —
/// depth-first, bottom-up over the component reference graph — every
/// component used as a base anywhere in its tree.  Components that were
/// already flat are left untouched, registry entries above `c` are
/// never visited, and the whole registry stays well-formed.
pub fn inline_component(components: &mut Vec<Component>, c: usize)
    requires
        c < old(components)@.len(),
        crate::object_tree::registry_wf(old(components)@),
    ensures
        final(components)@.len() == old(components)@.len(),
        crate::object_tree::registry_wf(final(components)@),
        forall|k: int|
            c < k < old(components)@.len() ==> final(components)@[k] == old(components)@[k],
        forall|k: int|
            0 <= k < old(components)@.len() && crate::object_tree::component_flat(
                old(components)@[k],
            ) ==> final(components)@[k] == old(components)@[k],
        forall|k: int|
            0 <= k < old(components)@.len() ==> (#[trigger] final(components)@[k]).name
                == old(components)@[k].name && final(components)@[k].root
                == old(components)@[k].root,
        crate::object_tree::component_flat(final(components)@[c as int]),
        final(components)@[c as int].elements@.len() >= old(components)@[c as int].elements@.len(),
        forall|j: int|
            0 <= j < old(components)@[c as int].elements@.len() ==> inlined_element_shape(
                #[trigger] old(components)@[c as int].elements@[j],
                final(components)@[c as int].elements@[j],
                final(components)@,
            ),
    decreases c,
{
    let ghost orig = old(components)@;

    // First make sure every component referenced as a base from this
    // tree is itself fully flattened.
    let n = components[c].elements.len();
    let mut idx: usize = 0;
    while idx < n
        invariant
            c < components@.len(),
            components@.len() == orig.len(),
            crate::object_tree::registry_wf(components@),
            components@[c as int] == orig[c as int],
            n == orig[c as int].elements@.len(),
            idx <= n,
            forall|k: int| c < k < orig.len() ==> components@[k] == orig[k],
            forall|k: int|
                0 <= k < orig.len() && crate::object_tree::component_flat(orig[k])
                    ==> components@[k] == orig[k],
            forall|k: int|
                0 <= k < orig.len() ==> (#[trigger] components@[k]).name == orig[k].name
                    && components@[k].root == orig[k].root,
            forall|i: int|
                0 <= i < idx ==> match (#[trigger] orig[c as int].elements@[i]).base_type {
                    BaseType::Component(b) => crate::object_tree::component_flat(
                        components@[b as int],
                    ),
                    BaseType::Builtin(_) => true,
                },
        decreases n - idx,
    {
        let b_opt = base_component_id(&components[c].elements[idx]);
        if let Some(b) = b_opt {
            proof {
                assert(crate::object_tree::component_wf(components@[c as int], c as int));
                assert(crate::object_tree::element_wf(
                    orig[c as int].elements@[idx as int],
                    orig[c as int].elements@.len(),
                    c as int,
                ));
                assert(b < c);
            }
            let ghost before = components@;
            inline_component(components, b);
            proof {
                assert forall|i: int|
                    0 <= i < idx + 1 implies match (
                #[trigger] orig[c as int].elements@[i]).base_type {
                    BaseType::Component(b2) => crate::object_tree::component_flat(
                        components@[b2 as int],
                    ),
                    BaseType::Builtin(_) => true,
                } by {
                    if i < idx {
                        match orig[c as int].elements@[i].base_type {
                            BaseType::Component(b2) => {
                                assert(crate::object_tree::component_flat(before[b2 as int]));
                                assert(components@[b2 as int] == before[b2 as int]);
                            },
                            BaseType::Builtin(_) => {},
                        }
                    }
                }
            }
        }
        idx = idx + 1;
    }

    // Now splice every component base of this tree; duplicates appended
    // by a splice are already flat, so one sweep over the original
    // arena suffices.
    let ghost phase1 = components@;
    let mut comp = empty_component();
    core::mem::swap(&mut comp, &mut components[c]);
    proof {
        assert(comp == orig[c as int]);
    }
    let n2 = comp.elements.len();
    let mut i: usize = 0;
    while i < n2
        invariant
            c < components@.len(),
            components@.len() == orig.len(),
            forall|k: int| 0 <= k < orig.len() && k != c ==> components@[k] == phase1[k],
            components@[c as int].elements@.len() == 0,
            crate::object_tree::registry_wf(phase1),
            phase1.len() == orig.len(),
            phase1[c as int] == orig[c as int],
            comp.name == orig[c as int].name,
            comp.root == orig[c as int].root,
            n2 == orig[c as int].elements@.len(),
            i <= n2,
            n2 <= comp.elements@.len(),
            comp.root < n2,
            comp.elements@[comp.root as int].repeated is None,
            forall|j: int|
                0 <= j < comp.elements@.len() ==> crate::object_tree::element_wf(
                    #[trigger] comp.elements@[j],
                    comp.elements@.len(),
                    c as int,
                ),
            forall|j: int| 0 <= j < i ==> crate::object_tree::element_flat(
                #[trigger] comp.elements@[j],
            ),
            forall|j: int| n2 <= j < comp.elements@.len() ==> crate::object_tree::element_flat(
                #[trigger] comp.elements@[j],
            ),
            forall|j: int| i <= j < n2 ==> comp.elements@[j] == orig[c as int].elements@[j],
            forall|j: int|
                0 <= j < i ==> inlined_element_shape(
                    #[trigger] orig[c as int].elements@[j],
                    comp.elements@[j],
                    components@,
                ),
            forall|ii: int|
                0 <= ii < n2 ==> match (#[trigger] orig[c as int].elements@[ii]).base_type {
                    BaseType::Component(b) => crate::object_tree::component_flat(
                        phase1[b as int],
                    ),
                    BaseType::Builtin(_) => true,
                },
            crate::object_tree::component_flat(orig[c as int]) ==> comp == orig[c as int],
        decreases n2 - i,
    {
        let b_opt = base_component_id(&comp.elements[i]);
        if let Some(b) = b_opt {
            proof {
                assert(comp.elements@[i as int] == orig[c as int].elements@[i as int]);
                assert(crate::object_tree::component_wf(phase1[c as int], c as int));
                assert(crate::object_tree::element_wf(
                    orig[c as int].elements@[i as int],
                    orig[c as int].elements@.len(),
                    c as int,
                ));
                assert(b < c);
                assert(components@[b as int] == phase1[b as int]);
                assert(crate::object_tree::component_wf(phase1[b as int], b as int));
                assert(crate::object_tree::component_flat(phase1[b as int]));
            }
            let ghost oldcomp = comp;
            let base = &components[b];
            inline_element(&mut comp, i, base, c);
            proof {
                lemma_inline_element_wf(oldcomp, comp, *base, i as int, c as int);
                assert(comp.elements@[comp.root as int].repeated is None) by {
                    if comp.root == i {
                        assert(inlined_root_ok(
                            oldcomp.elements@[i as int],
                            *base,
                            comp.elements@[i as int],
                            i as int,
                            oldcomp.elements@.len() as int,
                        ));
                    }
                }
                assert(inlined_element_shape(
                    orig[c as int].elements@[i as int],
                    comp.elements@[i as int],
                    components@,
                )) by {
                    let oe = orig[c as int].elements@[i as int];
                    let ne = comp.elements@[i as int];
                    let base2 = components@[b as int];
                    let broot = base2.elements@[base2.root as int];
                    let n0 = oldcomp.elements@.len() as int;
                    assert(inlined_root_ok(oe, base2, ne, i as int, n0));
                    let tc = tr_child_seq(broot.children@, base2.root as int, i as int, n0);
                    assert(ne.children@ == tc + oe.children@);
                    assert(tc.len() == broot.children@.len());
                    assert((tc + oe.children@).skip(tc.len() as int) =~= oe.children@);
                }
            }
        }
        i = i + 1;
    }
    core::mem::swap(&mut comp, &mut components[c]);
    proof {
        assert(crate::object_tree::component_wf(components@[c as int], c as int));
        assert(crate::object_tree::component_flat(components@[c as int]));
        assert forall|k: int| 0 <= k < orig.len() implies crate::object_tree::component_wf(
            #[trigger] components@[k],
            k,
        ) by {
            if k != c {
                assert(components@[k] == phase1[k]);
            }
        }
        assert forall|k: int|
            0 <= k < orig.len() && crate::object_tree::component_flat(orig[k])
                implies components@[k] == orig[k] by {
            if k != c {
                assert(phase1[k] == orig[k]);
            }
        }
        assert forall|j: int|
            0 <= j < orig[c as int].elements@.len() implies inlined_element_shape(
            #[trigger] orig[c as int].elements@[j],
            components@[c as int].elements@[j],
            components@,
        ) by {
            match orig[c as int].elements@[j].base_type {
                BaseType::Builtin(_) => {},
                BaseType::Component(b) => {
                    assert(crate::object_tree::component_wf(phase1[c as int], c as int));
                    assert(crate::object_tree::element_wf(
                        orig[c as int].elements@[j],
                        orig[c as int].elements@.len(),
                        c as int,
                    ));
                    assert(b < c);
                },
            }
        }
    }
}

/// Flatten the document's root component: afterwards no element
/// anywhere in its tree has a user-defined component as its base — every
/// base is a built-in kind — and the whole registry is still
/// well-formed, so in particular every named reference of the flattened
/// tree still resolves inside it.
pub fn inline(doc: &mut Document)
    requires
        crate::object_tree::document_wf(*old(doc)),
    ensures
        crate::object_tree::document_wf(*final(doc)),
        final(doc).root_component == old(doc).root_component,
        final(doc).components@.len() == old(doc).components@.len(),
        forall|k: int|
            0 <= k < old(doc).components@.len() && crate::object_tree::component_flat(
                old(doc).components@[k],
            ) ==> final(doc).components@[k] == old(doc).components@[k],
        forall|k: int|
            0 <= k < old(doc).components@.len() ==> (#[trigger] final(doc).components@[k]).name
                == old(doc).components@[k].name && final(doc).components@[k].root
                == old(doc).components@[k].root,
        crate::object_tree::component_flat(
            final(doc).components@[final(doc).root_component as int],
        ),
        forall|j: int|
            0 <= j < old(doc).components@[old(doc).root_component as int].elements@.len()
                ==> inlined_element_shape(
                #[trigger] old(doc).components@[old(doc).root_component as int].elements@[j],
                final(doc).components@[old(doc).root_component as int].elements@[j],
                final(doc).components@,
            ),
{
    let rc = doc.root_component;
    inline_component(&mut doc.components, rc);
}

/// Inlining merges children with the documented order: the duplicated
/// children of the base's root come first, then the element's
/// pre-existing children, each group keeping its relative order — and
/// every duplicated child slot is the translation of the original, so a
/// reference inside the copied subtree resolves to the corresponding
/// duplicate (the referencing element, or a slot at `n0` or above),
/// never to an element of the now-discarded base definition.
pub proof fn lemma_inlining_child_order(
    own: Element,
    base: Component,
    ne: Element,
    e: int,
    n0: int,
)
    requires
        inlined_root_ok(own, base, ne, e, n0),
        crate::object_tree::component_refs_ok(base),
        0 <= e < n0,
        n0 + base.elements@.len() <= usize::MAX + 1,
    ensures
        ne.children@.len() == base.elements@[base.root as int].children@.len()
            + own.children@.len(),
        forall|i: int|
            0 <= i < base.elements@[base.root as int].children@.len() ==> ne.children@[i]
                == tr_id(
                #[trigger] base.elements@[base.root as int].children@[i] as int,
                base.root as int,
                e,
                n0,
            ) as usize,
        forall|i: int|
            0 <= i < own.children@.len()
                ==> ne.children@[base.elements@[base.root as int].children@.len() + i]
                == own.children@[i],
        forall|i: int|
            0 <= i < base.elements@[base.root as int].children@.len() ==> ne.children@[i] == e
                || n0 <= ne.children@[i],
{
    let broot = base.elements@[base.root as int];
    let tc = tr_child_seq(broot.children@, base.root as int, e, n0);
    assert(ne.children@ == tc + own.children@);
    assert forall|i: int| 0 <= i < broot.children@.len() implies ne.children@[i] == tr_id(
        #[trigger] broot.children@[i] as int,
        base.root as int,
        e,
        n0,
    ) as usize by {
        assert(ne.children@[i] == (tc + own.children@)[i]);
        assert((tc + own.children@)[i] == tc[i]);
        assert(tc[i] == tr_id(broot.children@[i] as int, base.root as int, e, n0) as usize);
    }
    assert forall|i: int| 0 <= i < broot.children@.len() implies ne.children@[i] == e || n0
        <= ne.children@[i] by {
        assert(crate::object_tree::element_refs_ok(broot, base.elements@.len()));
        assert(broot.children@[i] < base.elements@.len());
        assert(0 <= tr_id(broot.children@[i] as int, base.root as int, e, n0) <= usize::MAX);
    }
}

/// Weak-reference revalidation: in a well-formed document — which the
/// inlining pass both requires and preserves — every named reference
/// reachable from any element of the root component (bindings, repeated
/// models, state conditions and property overrides, transition
/// animation targets) resolves to an element of that same component's
/// arena.
pub proof fn lemma_weak_references_revalidate(d: Document)
    requires
        crate::object_tree::document_wf(d),
    ensures
        forall|j: int|
            0 <= j < d.components@[d.root_component as int].elements@.len()
                ==> crate::object_tree::element_refs_ok(
                #[trigger] d.components@[d.root_component as int].elements@[j],
                d.components@[d.root_component as int].elements@.len(),
            ),
{
    assert(crate::object_tree::component_wf(
        d.components@[d.root_component as int],
        d.root_component as int,
    ));
}

} // verus!
