use graph_script::error::RuntimeError;
use graph_script::value::{clone_fields, find_field, Field, Value};

fn field(name: &str, value: Value) -> Field {
    Field { name: name.to_string(), value }
}

fn vec3(x: f64, y: f64, z: f64) -> Value {
    Value::Struct(vec![
        field("x", Value::Real(x.to_bits())),
        field("y", Value::Real(y.to_bits())),
        field("z", Value::Real(z.to_bits())),
    ])
}

fn path(names: &[&str]) -> Vec<String> {
    names.iter().map(|n| n.to_string()).collect()
}

#[test]
fn field_of_a_record_is_found_by_name() {
    let v = vec3(1.0, 2.0, 3.0);
    assert_eq!(v.field(&"y".to_string()), Some(&Value::Real(2.0f64.to_bits())));
    assert_eq!(v.field(&"w".to_string()), None);
}

#[test]
fn field_of_a_scalar_is_none() {
    assert_eq!(Value::Int(3).field(&"x".to_string()), None);
}

#[test]
fn first_member_wins_when_a_name_repeats() {
    let v = Value::Struct(vec![field("a", Value::Int(1)), field("a", Value::Int(2))]);
    assert_eq!(v.field(&"a".to_string()), Some(&Value::Int(1)));
    match &v {
        Value::Struct(fields) => assert_eq!(find_field(fields, &"a".to_string()), Some(0)),
        _ => unreachable!(),
    }
}

#[test]
fn clone_value_is_equal_and_deep() {
    let v = Value::Struct(vec![field("pos", vec3(1.0, 2.0, 3.0)), field("name", Value::Text("a".to_string()))]);
    let copy = v.clone_value();
    assert_eq!(copy, v);
    let changed = copy.applied_at(&path(&["pos", "x"]), 0, &Value::Real(9.0f64.to_bits())).unwrap();
    assert_ne!(changed, v);
    assert_eq!(v.get_path(&path(&["pos", "x"]), 0), Some(&Value::Real(1.0f64.to_bits())));
}

#[test]
fn clone_fields_copies_every_member() {
    let fields = vec![field("a", Value::Int(1)), field("b", Value::Bool(true))];
    assert_eq!(clone_fields(&fields), fields);
}

#[test]
fn scalar_replaces_scalar_of_same_kind() {
    assert_eq!(Value::Int(1).applied(&Value::Int(7)), Some(Value::Int(7)));
    assert_eq!(Value::Bool(false).applied(&Value::Bool(true)), Some(Value::Bool(true)));
    assert_eq!(Value::Real(0).applied(&Value::Real(5.0f64.to_bits())), Some(Value::Real(5.0f64.to_bits())));
    assert_eq!(
        Value::Text("a".to_string()).applied(&Value::Text("b".to_string())),
        Some(Value::Text("b".to_string()))
    );
}

#[test]
fn scalar_of_other_kind_is_refused() {
    assert_eq!(Value::Int(1).applied(&Value::Bool(true)), None);
    assert_eq!(Value::Int(1).applied(&vec3(0.0, 0.0, 0.0)), None);
    assert_eq!(vec3(0.0, 0.0, 0.0).applied(&Value::Int(1)), None);
}

#[test]
fn record_is_assigned_member_by_member() {
    let target = vec3(1.0, 2.0, 3.0);
    let source = Value::Struct(vec![field("z", Value::Real(9.0f64.to_bits())), field("x", Value::Real(7.0f64.to_bits()))]);
    assert_eq!(target.applied(&source), Some(vec3(7.0, 2.0, 9.0)));
}

#[test]
fn members_that_the_target_lacks_are_skipped() {
    let target = Value::Struct(vec![field("a", Value::Int(1))]);
    let source = Value::Struct(vec![field("b", Value::Int(5)), field("a", Value::Int(2))]);
    assert_eq!(target.applied(&source), Some(Value::Struct(vec![field("a", Value::Int(2))])));
}

#[test]
fn a_member_of_other_shape_fails_the_whole_assignment() {
    let target = Value::Struct(vec![field("a", Value::Int(1)), field("b", Value::Int(2))]);
    let source = Value::Struct(vec![field("a", Value::Int(5)), field("b", Value::Bool(true))]);
    assert_eq!(target.applied(&source), None);
}

#[test]
fn get_path_follows_names_in_turn() {
    let v = Value::Struct(vec![field("t", Value::Struct(vec![field("pos", vec3(1.0, 2.0, 3.0))]))]);
    assert_eq!(v.get_path(&path(&["t", "pos", "z"]), 0), Some(&Value::Real(3.0f64.to_bits())));
    assert_eq!(v.get_path(&path(&["t", "pos", "z"]), 1), None);
    assert_eq!(v.get_path(&path(&[]), 0), Some(&v));
    assert_eq!(v.get_path(&path(&["t", "nope"]), 0), None);
}

#[test]
fn applied_at_rebuilds_only_the_path() {
    let v = Value::Struct(vec![field("pos", vec3(1.0, 2.0, 3.0)), field("n", Value::Int(4))]);
    let got = v.applied_at(&path(&["pos", "y"]), 0, &Value::Real(8.0f64.to_bits()));
    assert_eq!(
        got,
        Some(Value::Struct(vec![field("pos", vec3(1.0, 8.0, 3.0)), field("n", Value::Int(4))]))
    );
}

#[test]
fn applied_at_with_empty_path_is_applied() {
    assert_eq!(Value::Int(1).applied_at(&path(&[]), 0, &Value::Int(2)), Some(Value::Int(2)));
}

#[test]
fn assigned_along_tells_missing_name_from_wrong_shape() {
    let v = Value::Struct(vec![field("pos", vec3(1.0, 2.0, 3.0))]);
    assert_eq!(v.assigned_along(&path(&["pos", "w"]), &Value::Int(1)), Err(RuntimeError::Unresolved));
    assert_eq!(
        v.assigned_along(&path(&["pos", "x"]), &Value::Int(1)),
        Err(RuntimeError::IncompatibleShape)
    );
    assert_eq!(
        v.assigned_along(&path(&["pos", "x"]), &Value::Real(5.0f64.to_bits())),
        Ok(Value::Struct(vec![field("pos", vec3(5.0, 2.0, 3.0))]))
    );
}

#[test]
fn clone_trait_gives_an_equal_value() {
    let v = vec3(1.0, 2.0, 3.0);
    assert_eq!(v.clone(), v);
    let f = field("a", Value::Int(1));
    assert_eq!(f.clone(), f);
}
