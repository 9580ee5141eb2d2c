use graph_script::error::RuntimeError;
use graph_script::stack::{IndirectStack, StackValue};
use graph_script::value::{Field, Value};

fn field(name: &str, value: Value) -> Field {
    Field { name: name.to_string(), value }
}

fn vec3(x: f64, y: f64, z: f64) -> Value {
    Value::Struct(vec![
        field("x", Value::Real(x.to_bits())),
        field("y", Value::Real(y.to_bits())),
        field("z", Value::Real(z.to_bits())),
    ])
}

fn transform() -> Value {
    Value::Struct(vec![field("translation", vec3(3.0, 3.0, 3.0)), field("scale", vec3(1.0, 1.0, 1.0))])
}

fn double(x: f64) -> Value {
    Value::Real(x.to_bits())
}

#[test]
fn new_stack_is_empty() {
    let mut stack = IndirectStack::new();
    assert_eq!(stack.len(), 0);
    assert_eq!(stack.pop(), None);
    assert_eq!(IndirectStack::default().len(), 0);
}

#[test]
fn push_and_pop_are_last_in_first_out() {
    let mut stack = IndirectStack::new();
    stack.push(StackValue::Owned(Value::Int(1)));
    stack.push_owned(Value::Int(2));
    stack.push_mut(4);
    stack.push_internal_ref("x".to_string(), 0);
    assert_eq!(stack.len(), 4);
    assert_eq!(stack.pop(), Some(StackValue::InternalReference { name: "x".to_string(), parent: 0 }));
    assert_eq!(stack.pop(), Some(StackValue::Mut(4)));
    assert_eq!(stack.pop(), Some(StackValue::Owned(Value::Int(2))));
    assert_eq!(stack.pop(), Some(StackValue::Owned(Value::Int(1))));
    assert_eq!(stack.pop(), None);
}

#[test]
fn truncate_drops_the_top_slots() {
    let mut stack = IndirectStack::new();
    stack.push_owned(Value::Int(1));
    stack.push_owned(Value::Int(2));
    stack.push_owned(Value::Int(3));
    stack.truncate(5);
    assert_eq!(stack.len(), 3);
    stack.truncate(1);
    assert_eq!(stack.len(), 1);
    assert_eq!(stack.pop(), Some(StackValue::Owned(Value::Int(1))));
}

#[test]
fn owned_and_borrowed_slots_resolve_directly() {
    let record = vec![transform()];
    let mut stack = IndirectStack::new();
    stack.push_mut(0);
    stack.push_owned(Value::Int(9));
    assert_eq!(stack.get_ref_internal(&record, 0), Some(&transform()));
    assert_eq!(stack.get_ref_internal(&record, 1), Some(&Value::Int(9)));
    assert_eq!(stack.get_ref_internal(&record, 2), None);
}

#[test]
fn borrowed_slot_without_field_group_does_not_resolve() {
    let record: Vec<Value> = vec![];
    let mut stack = IndirectStack::new();
    stack.push_mut(0);
    assert_eq!(stack.get_ref_internal(&record, 0), None);
}

#[test]
fn alias_chain_resolves_through_its_parents() {
    let record = vec![transform()];
    let mut stack = IndirectStack::new();
    stack.push_mut(0);
    stack.push_internal_ref("translation".to_string(), 0);
    stack.push_internal_ref("y".to_string(), 1);
    assert_eq!(stack.get_ref_internal(&record, 1), Some(&vec3(3.0, 3.0, 3.0)));
    assert_eq!(stack.get_ref_internal(&record, 2), Some(&double(3.0)));
    assert_eq!(stack.get_internal_from_ref(&record, 1, "z".to_string()), Some(&double(3.0)));
    assert_eq!(stack.get_internal_from_ref(&record, 1, "w".to_string()), None);
}

#[test]
fn alias_of_itself_or_of_a_later_slot_is_invalid() {
    let record = vec![transform()];
    let mut stack = IndirectStack::new();
    stack.push_internal_ref("translation".to_string(), 0);
    stack.push_internal_ref("translation".to_string(), 2);
    stack.push_mut(0);
    assert_eq!(stack.get_ref_internal(&record, 0), None);
    assert_eq!(stack.get_ref_internal(&record, 1), None);
    assert_eq!(
        stack.get_mut_internal(&mut record.clone(), 1, &vec3(0.0, 0.0, 0.0)),
        Err(RuntimeError::Unresolved)
    );
}

#[test]
fn write_through_alias_changes_the_record_in_place() {
    let mut record = vec![transform()];
    let mut stack = IndirectStack::new();
    stack.push_mut(0);
    stack.push_internal_ref("translation".to_string(), 0);
    stack.push_internal_ref("x".to_string(), 1);
    assert_eq!(stack.get_mut_internal(&mut record, 2, &double(5.0)), Ok(()));
    assert_eq!(
        record,
        vec![Value::Struct(vec![
            field("translation", vec3(5.0, 3.0, 3.0)),
            field("scale", vec3(1.0, 1.0, 1.0)),
        ])]
    );
    assert_eq!(stack.get_ref_internal(&record, 2), Some(&double(5.0)));
    assert_eq!(stack.len(), 3);
}

#[test]
fn write_through_owned_root_changes_the_stack_only() {
    let mut record = vec![transform()];
    let mut stack = IndirectStack::new();
    stack.push_owned(vec3(1.0, 2.0, 3.0));
    stack.push_internal_ref("z".to_string(), 0);
    assert_eq!(stack.get_mut_internal(&mut record, 1, &double(8.0)), Ok(()));
    assert_eq!(record, vec![transform()]);
    assert_eq!(stack.get_ref_internal(&record, 0), Some(&vec3(1.0, 2.0, 8.0)));
}

#[test]
fn write_to_named_member_of_a_slot() {
    let mut record = vec![transform()];
    let mut stack = IndirectStack::new();
    stack.push_mut(0);
    stack.push_internal_ref("scale".to_string(), 0);
    assert_eq!(stack.get_mut_internal_from_ref(&mut record, 1, "y".to_string(), &double(2.0)), Ok(()));
    assert_eq!(
        record[0],
        Value::Struct(vec![field("translation", vec3(3.0, 3.0, 3.0)), field("scale", vec3(1.0, 2.0, 1.0))])
    );
}

#[test]
fn failed_write_changes_nothing() {
    let mut record = vec![transform()];
    let mut stack = IndirectStack::new();
    stack.push_mut(0);
    stack.push_internal_ref("translation".to_string(), 0);
    assert_eq!(stack.get_mut_internal(&mut record, 1, &Value::Int(3)), Err(RuntimeError::IncompatibleShape));
    assert_eq!(
        stack.get_mut_internal_from_ref(&mut record, 1, "w".to_string(), &double(1.0)),
        Err(RuntimeError::Unresolved)
    );
    assert_eq!(stack.get_mut_internal(&mut record, 7, &double(1.0)), Err(RuntimeError::Unresolved));
    assert_eq!(record, vec![transform()]);
}

#[test]
fn stack_value_clone_is_equal() {
    let v = StackValue::InternalReference { name: "x".to_string(), parent: 3 };
    assert_eq!(v.clone(), v);
    let o = StackValue::Owned(vec3(1.0, 2.0, 3.0));
    assert_eq!(o.clone(), o);
}
