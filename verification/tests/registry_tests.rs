use graph_script::display::{make_label, remove_before_double_colon, TypeInfoWrapper};
use graph_script::registry::FunctionRegistry;
use graph_script::scripting::FieldNode;

#[test]
fn empty_registry_resolves_nothing() {
    let registry = FunctionRegistry::new();
    assert_eq!(registry.len(), 0);
    assert_eq!(registry.resolve(&"add_i32".to_string()), None);
}

#[test]
fn registered_names_resolve_to_place_and_arity() {
    let mut registry = FunctionRegistry::new();
    assert_eq!(registry.register_function("add_i32".to_string(), 2), 0);
    assert_eq!(registry.register_function("print_i32".to_string(), 1), 1);
    assert_eq!(registry.len(), 2);
    assert_eq!(registry.resolve(&"add_i32".to_string()), Some((0, 2)));
    assert_eq!(registry.resolve(&"print_i32".to_string()), Some((1, 1)));
    assert_eq!(registry.resolve(&"add_f32".to_string()), None);
}

#[test]
fn registering_a_name_again_keeps_its_place() {
    let mut registry = FunctionRegistry::new();
    registry.register_function("f".to_string(), 2);
    registry.register_function("g".to_string(), 0);
    assert_eq!(registry.register_function("f".to_string(), 3), 0);
    assert_eq!(registry.len(), 2);
    assert_eq!(registry.resolve(&"f".to_string()), Some((0, 3)));
}

#[test]
fn short_name_is_what_follows_the_last_double_colon() {
    assert_eq!(remove_before_double_colon("bevy_transform::components::Transform"), "Transform");
    assert_eq!(remove_before_double_colon("f32"), "f32");
    assert_eq!(remove_before_double_colon(""), "");
    assert_eq!(remove_before_double_colon("::"), "");
    assert_eq!(remove_before_double_colon("a::"), "");
    assert_eq!(remove_before_double_colon("::b"), "b");
    assert_eq!(remove_before_double_colon("a:::b"), "b");
    assert_eq!(remove_before_double_colon("a:b"), "a:b");
    assert_eq!(remove_before_double_colon("é::ü::ß"), "ß");
}

#[test]
fn short_name_agrees_with_rsplit() {
    for s in ["a::b::c", "x", "a:::b", "::::", "a::b:", ":a::b", "core::option::Option<alloc::string::String>"] {
        let expected = s.rsplit("::").next().unwrap_or(s).to_string();
        assert_eq!(remove_before_double_colon(s), expected, "{}", s);
    }
}

#[test]
fn label_joins_short_type_and_name() {
    assert_eq!(make_label(&"glam::Vec3".to_string(), &Some("translation".to_string())), "Vec3: translation");
    assert_eq!(make_label(&"glam::Vec3".to_string(), &None), "Vec3");
}

#[test]
fn field_node_shows_its_type_and_name() {
    let node = FieldNode { field: Some("glam::f32::Vec3".to_string()), name: Some("scale".to_string()) };
    assert_eq!(node.convert_string(), "Vec3: scale");
    let unnamed = FieldNode { field: Some("f32".to_string()), name: None };
    assert_eq!(unnamed.convert_string(), "f32");
}

#[test]
fn type_info_wrapper_compares_type_and_name() {
    let a = TypeInfoWrapper::new("glam::Vec3".to_string(), Some("x".to_string()));
    let b = TypeInfoWrapper::new("glam::Vec3".to_string(), Some("x".to_string()));
    let c = TypeInfoWrapper::new("glam::Vec3".to_string(), Some("y".to_string()));
    let d = TypeInfoWrapper::new("glam::Vec2".to_string(), Some("x".to_string()));
    let e = TypeInfoWrapper::new("glam::Vec3".to_string(), None);
    assert!(a == b);
    assert!(a != c);
    assert!(a != d);
    assert!(a != e);
    assert!(e.same_as(&TypeInfoWrapper::new("glam::Vec3".to_string(), None)));
    assert_eq!(a.convert_string(), "Vec3: x");
    assert_eq!(e.convert_string(), "Vec3");
}
