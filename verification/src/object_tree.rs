//! The structural program model shared by the compiler passes: components
//! made of elements, linked by named property bindings and references.
//!
//! Elements of a component live in an arena (`Component::elements`); the
//! tree's parent-to-child ownership and every back-reference are expressed
//! as plain arena indices.  A reference is revalidated by an index lookup,
//! which keeps the model free of ownership cycles and makes the identity
//! remapping of the inlining pass an index-translation table.

use vstd::prelude::*;

verus! {

/// Index of an element slot in its component's arena.
pub type ElementId = usize;

/// Identifies a specific `(element, property name)` pair, used inside
/// binding expressions.  The element is referred to by its arena index
/// and must be revalidated against the arena on every traversal.
pub struct NamedReference {
    pub element: ElementId,
    pub prop_name: String,
}

impl Clone for NamedReference {
    fn clone(&self) -> (r: Self)
        ensures
            r == *self,
    {
        NamedReference { element: self.element, prop_name: self.prop_name.clone() }
    }
}

/// An AST node for a binding's computed value; property and signal
/// references each wrap a `NamedReference`.
pub enum Expression {
    Invalid,
    NumberLiteral(i64),
    PropertyReference(NamedReference),
    SignalReference(NamedReference),
    BinaryExpression(Box<Expression>, Box<Expression>),
}

impl Clone for Expression {
    fn clone(&self) -> (r: Self)
        ensures
            r == *self,
        decreases self,
    {
        match self {
            Expression::Invalid => Expression::Invalid,
            Expression::NumberLiteral(n) => Expression::NumberLiteral(*n),
            Expression::PropertyReference(nr) => Expression::PropertyReference(nr.clone()),
            Expression::SignalReference(nr) => Expression::SignalReference(nr.clone()),
            Expression::BinaryExpression(a, b) => Expression::BinaryExpression(
                Box::new((&**a).clone()),
                Box::new((&**b).clone()),
            ),
        }
    }
}

/// Marks an element as a template instantiated once per model entry
/// (or zero or one times if conditional).
pub struct RepeatedElementInfo {
    pub model: Expression,
    pub model_data_id: String,
    pub index_id: String,
}

/// A named set of conditional property overrides.
pub struct State {
    pub id: String,
    pub condition: Option<Expression>,
    pub property_changes: Vec<(NamedReference, Expression)>,
}

/// Enter/exit animations attached to a state change.  Each animation is
/// itself an element, referred to by its arena index.
pub struct Transition {
    pub is_out: bool,
    pub state_id: String,
    pub property_animations: Vec<(NamedReference, ElementId)>,
}

/// The base an element instantiates: either a built-in kind or another
/// component of the document's registry, referred to by its index there.
pub enum BaseType {
    Builtin(String),
    Component(usize),
}

/// A node of a component's element tree.
pub struct Element {
    pub base_type: BaseType,
    pub id: String,
    /// Property name to declared type name; keys unique.
    pub property_declarations: Vec<(String, String)>,
    /// Property name to bound expression; keys unique.
    pub bindings: Vec<(String, Expression)>,
    /// Property name to animation descriptor element; keys unique.
    pub property_animations: Vec<(String, ElementId)>,
    /// Owned child elements, in order, as arena indices.
    pub children: Vec<ElementId>,
    pub repeated: Option<RepeatedElementInfo>,
    pub states: Vec<State>,
    pub transitions: Vec<Transition>,
    /// Weak back-reference to the registry index of the component this
    /// element belongs to; informational only, never an owning link.
    pub enclosing_component: usize,
}

/// A named UI type: a root element and the arena owning every element of
/// its tree (animation descriptor elements included).
pub struct Component {
    pub name: String,
    pub root: ElementId,
    pub elements: Vec<Element>,
}

/// One compiled source unit, reduced to what the inlining pass consumes:
/// the registry of user-defined components and the root component's index.
/// The registry is ordered so that a component's bases precede it.
pub struct Document {
    pub components: Vec<Component>,
    pub root_component: usize,
}

/// Every element reference inside the expression resolves within an arena
/// of `n` elements.
pub open spec fn expr_refs_ok(e: Expression, n: nat) -> bool
    decreases e,
{
    match e {
        Expression::PropertyReference(r) => r.element < n,
        Expression::SignalReference(r) => r.element < n,
        Expression::BinaryExpression(a, b) => expr_refs_ok(*a, n) && expr_refs_ok(*b, n),
        _ => true,
    }
}

pub open spec fn opt_expr_refs_ok(e: Option<Expression>, n: nat) -> bool {
    match e {
        Some(e) => expr_refs_ok(e, n),
        None => true,
    }
}

pub open spec fn state_refs_ok(s: State, n: nat) -> bool {
    &&& opt_expr_refs_ok(s.condition, n)
    &&& forall|i: int|
        0 <= i < s.property_changes@.len() ==> (#[trigger] s.property_changes@[i]).0.element < n
            && expr_refs_ok(s.property_changes@[i].1, n)
}

pub open spec fn transition_refs_ok(t: Transition, n: nat) -> bool {
    forall|i: int|
        0 <= i < t.property_animations@.len() ==> (#[trigger] t.property_animations@[i]).0.element
            < n && t.property_animations@[i].1 < n
}

/// No two entries of a keyed list share a property name.
pub open spec fn unique_keys<V>(s: Seq<(String, V)>) -> bool {
    forall|i: int, j: int| 0 <= i < j < s.len() ==> (#[trigger] s[i]).0@ != (#[trigger] s[j]).0@
}

/// Every reference, child index and animation index the element holds
/// resolves within an arena of `n` elements, and its keyed lists hold no
/// duplicate property name.
pub open spec fn element_refs_ok(e: Element, n: nat) -> bool {
    &&& forall|i: int| 0 <= i < e.children@.len() ==> #[trigger] e.children@[i] < n
    &&& forall|i: int|
        0 <= i < e.bindings@.len() ==> expr_refs_ok((#[trigger] e.bindings@[i]).1, n)
    &&& forall|i: int|
        0 <= i < e.property_animations@.len() ==> (#[trigger] e.property_animations@[i]).1 < n
    &&& match e.repeated {
        Some(r) => expr_refs_ok(r.model, n),
        None => true,
    }
    &&& forall|i: int| 0 <= i < e.states@.len() ==> state_refs_ok(#[trigger] e.states@[i], n)
    &&& forall|i: int|
        0 <= i < e.transitions@.len() ==> transition_refs_ok(#[trigger] e.transitions@[i], n)
    &&& unique_keys(e.property_declarations@)
    &&& unique_keys(e.bindings@)
    &&& unique_keys(e.property_animations@)
}

/// Well-formedness of one element belonging to component `cid`: its
/// references resolve, a component base refers to an earlier registry
/// entry, and the back-reference names the owning component.
pub open spec fn element_wf(e: Element, n: nat, cid: int) -> bool {
    &&& element_refs_ok(e, n)
    &&& match e.base_type {
        BaseType::Component(c) => c < cid,
        BaseType::Builtin(_) => true,
    }
    &&& e.enclosing_component == cid
}

/// The structural part of a component's well-formedness, independent of
/// where the component is registered: the root is part of the arena and
/// is not a repeated instantiation, and every reference reachable from
/// any element resolves within the arena.
pub open spec fn component_refs_ok(c: Component) -> bool {
    &&& c.root < c.elements@.len()
    &&& c.elements@[c.root as int].repeated is None
    &&& forall|j: int|
        0 <= j < c.elements@.len() ==> element_refs_ok(
            #[trigger] c.elements@[j],
            c.elements@.len(),
        )
}

/// Well-formedness of the component registered at index `cid`.
pub open spec fn component_wf(c: Component, cid: int) -> bool {
    &&& component_refs_ok(c)
    &&& forall|j: int|
        0 <= j < c.elements@.len() ==> element_wf(
            #[trigger] c.elements@[j],
            c.elements@.len(),
            cid,
        )
}

pub open spec fn registry_wf(s: Seq<Component>) -> bool {
    forall|k: int| 0 <= k < s.len() ==> component_wf(#[trigger] s[k], k)
}

pub open spec fn document_wf(d: Document) -> bool {
    &&& d.root_component < d.components@.len()
    &&& registry_wf(d.components@)
}

/// The element's base is a built-in kind, not a user-defined component.
pub open spec fn element_flat(e: Element) -> bool {
    e.base_type is Builtin
}

/// No element of the component's tree has a user-defined component base.
pub open spec fn component_flat(c: Component) -> bool {
    forall|j: int| 0 <= j < c.elements@.len() ==> element_flat(#[trigger] c.elements@[j])
}

} // verus!
