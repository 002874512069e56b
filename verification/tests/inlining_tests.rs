use object_tree_transform::object_tree::BaseType;
use object_tree_transform::object_tree::Component;
use object_tree_transform::object_tree::Document;
use object_tree_transform::object_tree::Element;
use object_tree_transform::object_tree::Expression;
use object_tree_transform::object_tree::NamedReference;
use object_tree_transform::object_tree::RepeatedElementInfo;
use object_tree_transform::object_tree::State;
use object_tree_transform::object_tree::Transition;

fn plain_element(base: &str, id: &str, enclosing: usize) -> Element {
    Element {
        base_type: BaseType::Builtin(base.to_string()),
        id: id.to_string(),
        property_declarations: vec![],
        bindings: vec![],
        property_animations: vec![],
        children: vec![],
        repeated: None,
        states: vec![],
        transitions: vec![],
        enclosing_component: enclosing,
    }
}

fn prop_ref(element: usize, prop: &str) -> Expression {
    Expression::PropertyReference(NamedReference {
        element,
        prop_name: prop.to_string(),
    })
}

/// A base component whose root has two children `a` and `b`; `a` holds a
/// binding, a state, a transition and a property animation, all
/// referring to `b` or to the animation element, so that every kind of
/// reference must be remapped when the component is spliced in.
fn low_component() -> Component {
    let mut root = plain_element("Rectangle", "", 0);
    root.children = vec![1, 2];
    root.bindings = vec![("width".to_string(), Expression::NumberLiteral(10))];
    root.property_declarations =
        vec![("width".to_string(), "length".to_string())];

    let mut a = plain_element("Text", "a", 0);
    a.bindings = vec![("t".to_string(), prop_ref(2, "u"))];
    a.property_animations = vec![("t".to_string(), 3)];
    a.states = vec![State {
        id: "s".to_string(),
        condition: Some(prop_ref(2, "u")),
        property_changes: vec![(
            NamedReference { element: 2, prop_name: "u".to_string() },
            Expression::NumberLiteral(1),
        )],
    }];
    a.transitions = vec![Transition {
        is_out: false,
        state_id: "s".to_string(),
        property_animations: vec![(
            NamedReference { element: 2, prop_name: "u".to_string() },
            3,
        )],
    }];

    let b = plain_element("Image", "b", 0);
    let anim = plain_element("PropertyAnimation", "", 0);

    Component {
        name: "Low".to_string(),
        root: 0,
        elements: vec![root, a, b, anim],
    }
}

/// The root component: a window holding one element whose base is the
/// `Low` component and whose own children are `c` and `d`.
fn high_component() -> Component {
    let mut root = plain_element("Window", "", 1);
    root.children = vec![1];

    let mut e = plain_element("", "e", 1);
    e.base_type = BaseType::Component(0);
    e.children = vec![2, 3];
    e.bindings = vec![("width".to_string(), Expression::NumberLiteral(5))];
    e.repeated = Some(RepeatedElementInfo {
        model: Expression::NumberLiteral(3),
        model_data_id: "m".to_string(),
        index_id: "i".to_string(),
    });

    let c = plain_element("Text", "c", 1);
    let d = plain_element("Text", "d", 1);

    Component {
        name: "High".to_string(),
        root: 0,
        elements: vec![root, e, c, d],
    }
}

#[test]
fn inlining_merges_children_in_documented_order() {
    let mut doc = Document {
        components: vec![low_component(), high_component()],
        root_component: 1,
    };
    object_tree_transform::inlining::inline(&mut doc);

    let high = &doc.components[1];
    // One fresh slot per base element except the root.
    assert_eq!(high.elements.len(), 4 + 4 - 1);

    // The referencing element's base is now the base root's built-in kind.
    let e = &high.elements[1];
    assert!(matches!(&e.base_type, BaseType::Builtin(k) if k == "Rectangle"));

    // Duplicated base children come first, pre-existing children after,
    // each group in order: [a', b', c, d].
    assert_eq!(e.children, vec![4, 5, 2, 3]);
    assert_eq!(high.elements[4].id, "a");
    assert_eq!(high.elements[5].id, "b");
    assert_eq!(high.elements[2].id, "c");
    assert_eq!(high.elements[3].id, "d");

    // The duplicate of `a` refers to the duplicate of `b`, never to the
    // orphaned original inside the base definition's arena.
    let a2 = &high.elements[4];
    match &a2.bindings[0].1 {
        Expression::PropertyReference(r) => {
            assert_eq!(r.element, 5);
            assert_eq!(r.prop_name, "u");
        }
        _ => panic!("expected a property reference"),
    }
    // Its animation now names the duplicated animation element, and its
    // state and transition follow the same mapping.
    assert_eq!(a2.property_animations, vec![("t".to_string(), 6)]);
    match &a2.states[0].condition {
        Some(Expression::PropertyReference(r)) => assert_eq!(r.element, 5),
        _ => panic!("expected a condition"),
    }
    assert_eq!(a2.states[0].property_changes[0].0.element, 5);
    assert_eq!(a2.transitions[0].property_animations[0].0.element, 5);
    assert_eq!(a2.transitions[0].property_animations[0].1, 6);
    assert_eq!(high.elements[6].id, "");

    // Duplicates now live inside the compiled component.
    assert_eq!(a2.enclosing_component, 1);
    assert_eq!(high.elements[5].enclosing_component, 1);
    assert_eq!(high.elements[6].enclosing_component, 1);

    // The referencing element keeps what the splice does not touch.
    assert!(e.repeated.is_some());
    assert_eq!(e.id, "e");
}

#[test]
fn inlining_base_entries_overwrite_local_ones() {
    let mut doc = Document {
        components: vec![low_component(), high_component()],
        root_component: 1,
    };
    object_tree_transform::inlining::inline(&mut doc);

    // The documented merge policy: an entry contributed by the base
    // root overwrites an identically named local entry, in place.
    let e = &doc.components[1].elements[1];
    assert_eq!(e.bindings.len(), 1);
    assert_eq!(e.bindings[0].0, "width");
    assert!(matches!(e.bindings[0].1, Expression::NumberLiteral(10)));
    assert_eq!(
        e.property_declarations,
        vec![("width".to_string(), "length".to_string())]
    );
}

#[test]
fn inlining_flattens_nested_components_bottom_up() {
    // Mid's root uses Low as its base; Top uses Mid.  After the pass no
    // element of the root component has a user-defined base.
    let low = Component {
        name: "Low".to_string(),
        root: 0,
        elements: vec![plain_element("Rectangle", "low", 0)],
    };
    let mut mid_root = plain_element("", "mid", 1);
    mid_root.base_type = BaseType::Component(0);
    let mid = Component { name: "Mid".to_string(), root: 0, elements: vec![mid_root] };
    let mut top_root = plain_element("Window", "", 2);
    top_root.children = vec![1];
    let mut user = plain_element("", "use", 2);
    user.base_type = BaseType::Component(1);
    let top = Component {
        name: "Top".to_string(),
        root: 0,
        elements: vec![top_root, user],
    };
    let mut doc = Document { components: vec![low, mid, top], root_component: 2 };
    object_tree_transform::inlining::inline(&mut doc);

    let top = &doc.components[2];
    for el in &top.elements {
        assert!(matches!(el.base_type, BaseType::Builtin(_)));
    }
    assert!(matches!(&top.elements[1].base_type, BaseType::Builtin(k) if k == "Rectangle"));
}

#[test]
fn inlining_expands_a_base_shared_by_two_elements() {
    // Two elements share one base component definition; each splice gets
    // its own duplicates.
    let mut low_root = plain_element("Rectangle", "", 0);
    low_root.children = vec![1];
    let low = Component {
        name: "Low".to_string(),
        root: 0,
        elements: vec![low_root, plain_element("Text", "x", 0)],
    };
    let mut top_root = plain_element("Window", "", 1);
    top_root.children = vec![1, 2];
    let mut e1 = plain_element("", "e1", 1);
    e1.base_type = BaseType::Component(0);
    let mut e2 = plain_element("", "e2", 1);
    e2.base_type = BaseType::Component(0);
    let top = Component {
        name: "Top".to_string(),
        root: 0,
        elements: vec![top_root, e1, e2],
    };
    let mut doc = Document { components: vec![low, top], root_component: 1 };
    object_tree_transform::inlining::inline(&mut doc);

    let top = &doc.components[1];
    assert_eq!(top.elements.len(), 5);
    assert_eq!(top.elements[1].children, vec![3]);
    assert_eq!(top.elements[2].children, vec![4]);
    assert_eq!(top.elements[3].id, "x");
    assert_eq!(top.elements[4].id, "x");
    for el in &top.elements {
        assert!(matches!(el.base_type, BaseType::Builtin(_)));
    }
}

#[test]
fn inlining_leaves_every_reference_resolvable() {
    let mut doc = Document {
        components: vec![low_component(), high_component()],
        root_component: 1,
    };
    object_tree_transform::inlining::inline(&mut doc);

    // Weak-reference revalidation: every named reference and element
    // index in the flattened tree resolves within the same arena.
    let high = &doc.components[1];
    let n = high.elements.len();
    for el in &high.elements {
        for ch in &el.children {
            assert!(*ch < n);
        }
        for (_, x) in &el.bindings {
            if let Expression::PropertyReference(r) = x {
                assert!(r.element < n);
            }
        }
        for (_, a) in &el.property_animations {
            assert!(*a < n);
        }
        for st in &el.states {
            for (r, _) in &st.property_changes {
                assert!(r.element < n);
            }
        }
        for tr in &el.transitions {
            for (r, a) in &tr.property_animations {
                assert!(r.element < n);
                assert!(*a < n);
            }
        }
        assert_eq!(el.enclosing_component, 1);
    }
}
