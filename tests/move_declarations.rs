use sixtyfps_compiler::expression_tree::{Expression, NamedReference};
use sixtyfps_compiler::move_declarations::{
    assert_optized_item_unused, fixup_bindings, map_name, move_declarations,
    simplify_optimized_items, MoveError,
};
use sixtyfps_compiler::object_tree::{
    BuiltinElement, Component, Element, ElementType, PropertyDeclaration, PropertyType,
};

const KEY: u64 = 1;
const OTHER_KEY: u64 = 2;

fn decl(t: PropertyType) -> PropertyDeclaration {
    PropertyDeclaration { property_type: t, expose_in_public_api: false }
}

fn element(id: &str, decls: Vec<(&str, PropertyType)>, bindings: Vec<(&str, Expression)>) -> Element {
    Element {
        id: id.to_string(),
        base_type: ElementType::Invalid,
        property_declarations: decls.into_iter().map(|(n, t)| (n.to_string(), decl(t))).collect(),
        bindings: bindings.into_iter().map(|(n, e)| (n.to_string(), e)).collect(),
        children: Vec::new(),
    }
}

fn prop(component: u64, element: &str, name: &str) -> Expression {
    Expression::PropertyReference(NamedReference {
        component,
        element: element.to_string(),
        name: name.to_string(),
    })
}

fn signal(component: u64, element: &str, name: &str) -> Expression {
    Expression::SignalReference(NamedReference {
        component,
        element: element.to_string(),
        name: name.to_string(),
    })
}

fn names(v: &[(String, PropertyDeclaration)]) -> Vec<String> {
    v.iter().map(|(n, _)| n.clone()).collect()
}

fn binding<'a>(e: &'a Element, name: &str) -> Option<&'a Expression> {
    e.bindings.iter().find(|(n, _)| n == name).map(|(_, e)| e)
}

fn as_ref(e: &Expression) -> (u64, String, String) {
    match e {
        Expression::PropertyReference(r) | Expression::SignalReference(r) => {
            (r.component, r.element.clone(), r.name.clone())
        }
        _ => panic!("not a reference"),
    }
}

fn button_component() -> Component {
    let mut root = element(
        "root",
        vec![("some_condition", PropertyType::Bool)],
        vec![("some_condition", Expression::BoolLiteral(true))],
    );
    root.children = vec![1];
    let btn = element(
        "btn",
        vec![("pressed", PropertyType::Bool)],
        vec![("pressed", prop(KEY, "root", "some_condition"))],
    );
    Component { key: KEY, elements: vec![root, btn], optimized_elements: Vec::new() }
}

#[test]
fn declaration_and_binding_move_to_root() {
    let mut c = button_component();
    assert_eq!(move_declarations(&mut c), Ok(()));
    assert!(c.elements[1].property_declarations.is_empty());
    assert!(c.elements[1].bindings.is_empty());
    let root = &c.elements[0];
    assert_eq!(names(&root.property_declarations), vec!["some_condition", "btn_pressed"]);
    assert_eq!(root.property_declarations[1].1, decl(PropertyType::Bool));
    let b = binding(root, "btn_pressed").expect("moved binding");
    assert_eq!(as_ref(b), (KEY, "root".to_string(), "some_condition".to_string()));
    assert!(matches!(binding(root, "some_condition"), Some(Expression::BoolLiteral(true))));
    assert_eq!(c.elements[0].children, vec![1]);
}

#[test]
fn reference_in_same_component_is_rewritten() {
    let mut c = button_component();
    c.elements[0].children.push(2);
    c.elements.push(element(
        "label",
        vec![],
        vec![
            ("visible", prop(KEY, "btn", "pressed")),
            ("clicked", signal(KEY, "btn", "pressed")),
            ("text", prop(OTHER_KEY, "btn", "pressed")),
        ],
    ));
    assert_eq!(move_declarations(&mut c), Ok(()));
    let label = &c.elements[2];
    assert_eq!(
        as_ref(binding(label, "visible").unwrap()),
        (KEY, "root".to_string(), "btn_pressed".to_string())
    );
    assert!(matches!(binding(label, "clicked"), Some(Expression::SignalReference(_))));
    assert_eq!(
        as_ref(binding(label, "clicked").unwrap()),
        (KEY, "root".to_string(), "btn_pressed".to_string())
    );
    assert_eq!(
        as_ref(binding(label, "text").unwrap()),
        (OTHER_KEY, "btn".to_string(), "pressed".to_string())
    );
}

#[test]
fn self_reference_in_moved_binding_is_rewritten() {
    let mut c = button_component();
    c.elements[1].property_declarations.push(("count".to_string(), decl(PropertyType::Int32)));
    c.elements[1].bindings.push((
        "count".to_string(),
        Expression::BinaryOp {
            lhs: Box::new(prop(KEY, "btn", "count")),
            rhs: Box::new(Expression::NumberLiteral(1)),
            op: '+',
        },
    ));
    assert_eq!(move_declarations(&mut c), Ok(()));
    match binding(&c.elements[0], "btn_count") {
        Some(Expression::BinaryOp { lhs, rhs, op }) => {
            assert_eq!(*op, '+');
            assert_eq!(as_ref(lhs), (KEY, "root".to_string(), "btn_count".to_string()));
            assert!(matches!(**rhs, Expression::NumberLiteral(1)));
        }
        _ => panic!("binding not moved"),
    }
}

#[test]
fn binding_of_inherited_property_stays_on_element() {
    let mut c = button_component();
    c.elements[1].bindings.push(("width".to_string(), Expression::NumberLiteral(10)));
    c.elements[1].bindings.push((
        "height".to_string(),
        Expression::Condition {
            condition: Box::new(prop(KEY, "btn", "pressed")),
            true_expr: Box::new(prop(KEY, "btn", "width")),
            false_expr: Box::new(Expression::StringLiteral("x".to_string())),
        },
    ));
    assert_eq!(move_declarations(&mut c), Ok(()));
    let btn = &c.elements[1];
    assert_eq!(btn.bindings.len(), 2);
    assert!(matches!(binding(btn, "width"), Some(Expression::NumberLiteral(10))));
    match binding(btn, "height") {
        Some(Expression::Condition { condition, true_expr, false_expr }) => {
            assert_eq!(as_ref(condition), (KEY, "root".to_string(), "btn_pressed".to_string()));
            assert_eq!(as_ref(true_expr), (KEY, "btn".to_string(), "width".to_string()));
            assert!(matches!(&**false_expr, Expression::StringLiteral(s) if s == "x"));
        }
        _ => panic!("binding lost"),
    }
}

#[test]
fn only_root_declares_after_pass() {
    let mut c = button_component();
    c.elements[1].children.push(2);
    c.elements.push(element(
        "inner",
        vec![("a", PropertyType::Length), ("b", PropertyType::Color)],
        vec![],
    ));
    assert_eq!(move_declarations(&mut c), Ok(()));
    for e in &c.elements[1..] {
        assert!(e.property_declarations.is_empty());
    }
    assert_eq!(
        names(&c.elements[0].property_declarations),
        vec!["some_condition", "btn_pressed", "inner_a", "inner_b"]
    );
    assert_eq!(c.elements[0].property_declarations[3].1, decl(PropertyType::Color));
}

#[test]
fn broken_reference_is_reported() {
    let mut c = button_component();
    c.elements[0].bindings.push(("x".to_string(), prop(KEY, "missing", "y")));
    assert_eq!(move_declarations(&mut c), Err(MoveError::BrokenReference));
}

#[test]
fn name_collision_is_reported() {
    let mut c = button_component();
    c.elements[0].property_declarations.push(("btn_pressed".to_string(), decl(PropertyType::Bool)));
    assert_eq!(move_declarations(&mut c), Err(MoveError::NameCollision));
}

#[test]
fn optimized_builtin_element_is_resolved_and_dropped() {
    let mut c = button_component();
    let mut rect = element("rect", vec![], vec![]);
    rect.base_type = ElementType::Builtin(BuiltinElement {
        name: "Rectangle".to_string(),
        properties: vec![("color".to_string(), PropertyType::Color)],
    });
    c.optimized_elements.push(rect);
    c.elements[1].bindings.push(("tint".to_string(), prop(KEY, "rect", "color")));
    assert_eq!(move_declarations(&mut c), Ok(()));
    assert!(c.optimized_elements.is_empty());
    assert_eq!(
        as_ref(binding(&c.elements[1], "tint").unwrap()),
        (KEY, "root".to_string(), "rect_color".to_string())
    );
}

#[test]
fn referenced_optimized_element_is_reported_after_merge() {
    let mut c = button_component();
    c.optimized_elements.push(element("rect", vec![], vec![]));
    c.elements[0].bindings.push(("x".to_string(), prop(KEY, "rect", "unknown")));
    assert_eq!(move_declarations(&mut c), Err(MoveError::ReferencedOptimizedElement));
    assert!(c.optimized_elements.is_empty());
    assert!(c.elements[1].property_declarations.is_empty());
    assert!(binding(&c.elements[0], "btn_pressed").is_some());
}

#[test]
fn base_component_chain_is_flattened() {
    let mut base_root = element("base", vec![("x", PropertyType::Number)], vec![]);
    base_root.base_type = ElementType::Builtin(BuiltinElement {
        name: "Text".to_string(),
        properties: vec![("text".to_string(), PropertyType::String)],
    });
    let base = Component { key: 9, elements: vec![base_root], optimized_elements: Vec::new() };
    let mut opt = element("o", vec![("own", PropertyType::Bool)], vec![]);
    opt.base_type = ElementType::Component(Box::new(base));
    let mut items = vec![opt];
    simplify_optimized_items(&mut items);
    assert_eq!(names(&items[0].property_declarations), vec!["own", "x", "text"]);
    assert_eq!(items[0].property_declarations[2].1, decl(PropertyType::String));
    assert!(matches!(items[0].base_type, ElementType::Invalid));
}

#[test]
fn map_name_joins_with_underscore() {
    assert_eq!(map_name(&"btn".to_string(), &"pressed".to_string()), "btn_pressed");
    assert_eq!(map_name(&"".to_string(), &"".to_string()), "_");
}

#[test]
fn fixup_leaves_other_components_alone() {
    let c = button_component();
    let e = Expression::UnaryOp { sub: Box::new(prop(OTHER_KEY, "nowhere", "p")), op: '!' };
    match fixup_bindings(e, &c) {
        Ok(Expression::UnaryOp { sub, op: '!' }) => {
            assert_eq!(as_ref(&sub), (OTHER_KEY, "nowhere".to_string(), "p".to_string()))
        }
        _ => panic!("unexpected rewrite"),
    }
    assert!(fixup_bindings(prop(KEY, "nowhere", "p"), &c).is_err());
    assert_eq!(
        as_ref(&fixup_bindings(prop(KEY, "btn", "pressed"), &c).ok().unwrap()),
        (KEY, "root".to_string(), "btn_pressed".to_string())
    );
    assert_eq!(
        as_ref(&fixup_bindings(prop(KEY, "root", "some_condition"), &c).ok().unwrap()),
        (KEY, "root".to_string(), "root_some_condition".to_string())
    );
    assert_eq!(
        as_ref(&fixup_bindings(prop(KEY, "root", "width"), &c).ok().unwrap()),
        (KEY, "root".to_string(), "width".to_string())
    );
}

#[test]
fn root_properties_keep_their_names_in_the_pass() {
    let mut c = button_component();
    c.elements[1].bindings.push(("enabled".to_string(), prop(KEY, "root", "some_condition")));
    assert_eq!(move_declarations(&mut c), Ok(()));
    assert_eq!(
        as_ref(binding(&c.elements[1], "enabled").unwrap()),
        (KEY, "root".to_string(), "some_condition".to_string())
    );
}

#[test]
fn unused_check_sees_references_to_removed_elements() {
    let removed = vec![element("gone", vec![], vec![])];
    let live = vec![element("a", vec![], vec![("p", prop(KEY, "gone", "q"))])];
    assert!(!assert_optized_item_unused(KEY, &removed, &live));
    assert!(assert_optized_item_unused(OTHER_KEY, &removed, &live));
    let clean = vec![element("a", vec![], vec![("p", prop(KEY, "a", "q"))])];
    assert!(assert_optized_item_unused(KEY, &removed, &clean));
}
