use graph_script::error::RuntimeError;
use graph_script::registry::FunctionRegistry;
use graph_script::stack::{IndirectStack, StackValue};
use graph_script::value::{Field, Value};
use graph_script::virtual_machine::{
    clone_components, execute, is_well_formed, run, run_record, take_arguments, Bytecode,
    Component,
};

fn field(name: &str, value: Value) -> Field {
    Field { name: name.to_string(), value }
}

fn num(x: f64) -> Value {
    Value::Real(x.to_bits())
}

fn vec3(x: f64, y: f64, z: f64) -> Value {
    Value::Struct(vec![field("x", num(x)), field("y", num(y)), field("z", num(z))])
}

fn pos_query() -> Bytecode {
    Bytecode::Query {
        components: vec![Component {
            name: "pos".to_string(),
            id: 3,
            type_path: "glam::Vec3".to_string(),
        }],
    }
}

fn no_functions(_index: usize, _args: Vec<Value>) -> Option<Value> {
    None
}

#[test]
fn push_pushes_an_owned_copy() {
    let mut stack = IndirectStack::new();
    let mut record = vec![];
    assert_eq!(execute(&Bytecode::Push(Value::Int(4)), &mut stack, &mut record), Ok(()));
    assert_eq!(stack.pop(), Some(StackValue::Owned(Value::Int(4))));
}

#[test]
fn pop_discards_the_top_and_tolerates_an_empty_stack() {
    let mut stack = IndirectStack::new();
    let mut record = vec![];
    stack.push_owned(Value::Int(1));
    assert_eq!(execute(&Bytecode::Pop, &mut stack, &mut record), Ok(()));
    assert_eq!(stack.len(), 0);
    assert_eq!(execute(&Bytecode::Pop, &mut stack, &mut record), Ok(()));
    assert_eq!(stack.len(), 0);
}

#[test]
fn get_field_pushes_an_alias_without_reading() {
    let mut stack = IndirectStack::new();
    let mut record = vec![];
    assert_eq!(execute(&Bytecode::GetField(9, "x".to_string()), &mut stack, &mut record), Ok(()));
    assert_eq!(stack.pop(), Some(StackValue::InternalReference { name: "x".to_string(), parent: 9 }));
}

#[test]
fn copy_pushes_what_the_slot_leads_to() {
    let mut stack = IndirectStack::new();
    let mut record = vec![vec3(1.0, 2.0, 3.0)];
    stack.push_mut(0);
    stack.push_internal_ref("y".to_string(), 0);
    assert_eq!(execute(&Bytecode::Copy(1), &mut stack, &mut record), Ok(()));
    assert_eq!(stack.pop(), Some(StackValue::Owned(num(2.0))));
    assert_eq!(execute(&Bytecode::Copy(5), &mut stack, &mut record), Err(RuntimeError::Unresolved));
}

#[test]
fn set_field_on_empty_stack_underflows() {
    let mut stack = IndirectStack::new();
    let mut record = vec![vec3(1.0, 2.0, 3.0)];
    assert_eq!(execute(&Bytecode::SetField(0), &mut stack, &mut record), Err(RuntimeError::StackUnderflow));
}

#[test]
fn set_field_through_alias_is_visible_to_later_reads() {
    let mut stack = IndirectStack::new();
    let mut record = vec![vec3(1.0, 2.0, 3.0)];
    stack.push_mut(0);
    stack.push_internal_ref("x".to_string(), 0);
    stack.push_owned(num(5.0));
    assert_eq!(execute(&Bytecode::SetField(1), &mut stack, &mut record), Ok(()));
    assert_eq!(stack.len(), 2);
    assert_eq!(record, vec![vec3(5.0, 2.0, 3.0)]);
    assert_eq!(execute(&Bytecode::Copy(1), &mut stack, &mut record), Ok(()));
    assert_eq!(stack.pop(), Some(StackValue::Owned(num(5.0))));
    assert_eq!(execute(&Bytecode::GetField(0, "x".to_string()), &mut stack, &mut record), Ok(()));
    assert_eq!(stack.get_ref_internal(&record, 2), Some(&num(5.0)));
}

#[test]
fn set_field_takes_its_source_through_an_alias() {
    let mut stack = IndirectStack::new();
    let mut record = vec![vec3(1.0, 2.0, 3.0)];
    stack.push_mut(0);
    stack.push_internal_ref("x".to_string(), 0);
    stack.push_internal_ref("z".to_string(), 0);
    assert_eq!(execute(&Bytecode::SetField(1), &mut stack, &mut record), Ok(()));
    assert_eq!(record, vec![vec3(3.0, 2.0, 3.0)]);
}

#[test]
fn set_field_of_wrong_shape_leaves_the_record() {
    let mut stack = IndirectStack::new();
    let mut record = vec![vec3(1.0, 2.0, 3.0)];
    stack.push_mut(0);
    stack.push_owned(Value::Int(1));
    assert_eq!(execute(&Bytecode::SetField(0), &mut stack, &mut record), Err(RuntimeError::IncompatibleShape));
    assert_eq!(record, vec![vec3(1.0, 2.0, 3.0)]);
}

#[test]
fn example_program_sets_x_of_pos_on_every_record() {
    let program = vec![
        pos_query(),
        Bytecode::GetField(0, "x".to_string()),
        Bytecode::Push(num(5.0)),
        Bytecode::SetField(1),
    ];
    assert!(is_well_formed(&program));
    let mut records = vec![vec![vec3(3.0, 3.0, 3.0)], vec![vec3(5.0, 6.0, 7.0)]];
    let outcomes = run(program, &mut records, &FunctionRegistry::new(), &no_functions);
    assert_eq!(outcomes, vec![Ok(()), Ok(())]);
    assert_eq!(records, vec![vec![vec3(5.0, 3.0, 3.0)], vec![vec3(5.0, 6.0, 7.0)]]);
}

#[test]
fn two_aliases_of_one_parent_do_not_disturb_each_other() {
    let program = vec![
        pos_query(),
        Bytecode::GetField(0, "x".to_string()),
        Bytecode::GetField(0, "y".to_string()),
        Bytecode::Push(num(9.0)),
        Bytecode::SetField(1),
        Bytecode::Copy(2),
        Bytecode::SetField(0),
    ];
    let mut record = vec![vec3(1.0, 2.0, 3.0)];
    let outcome = run_record(&program, 1, 1, &mut record, &FunctionRegistry::new(), &no_functions);
    assert_eq!(outcome, Err(RuntimeError::IncompatibleShape));
    assert_eq!(record, vec![vec3(9.0, 2.0, 3.0)]);
    let mut stack = IndirectStack::new();
    stack.push_mut(0);
    stack.push_internal_ref("x".to_string(), 0);
    stack.push_internal_ref("y".to_string(), 0);
    assert_eq!(stack.get_mut_internal(&mut record, 2, &num(4.0)), Ok(()));
    assert_eq!(stack.get_ref_internal(&record, 1), Some(&num(9.0)));
    assert_eq!(stack.get_ref_internal(&record, 2), Some(&num(4.0)));
}

#[test]
fn copy_is_independent_of_what_it_copied() {
    let mut stack = IndirectStack::new();
    let mut record = vec![];
    assert_eq!(execute(&Bytecode::Push(vec3(1.0, 2.0, 3.0)), &mut stack, &mut record), Ok(()));
    assert_eq!(execute(&Bytecode::Copy(0), &mut stack, &mut record), Ok(()));
    assert_eq!(stack.get_mut_internal_from_ref(&mut record, 1, "x".to_string(), &num(7.0)), Ok(()));
    assert_eq!(stack.get_ref_internal(&record, 0), Some(&vec3(1.0, 2.0, 3.0)));
    assert_eq!(stack.get_ref_internal(&record, 1), Some(&vec3(7.0, 2.0, 3.0)));
    assert_eq!(stack.get_mut_internal_from_ref(&mut record, 0, "y".to_string(), &num(8.0)), Ok(()));
    assert_eq!(stack.get_ref_internal(&record, 0), Some(&vec3(1.0, 8.0, 3.0)));
    assert_eq!(stack.get_ref_internal(&record, 1), Some(&vec3(7.0, 2.0, 3.0)));
}

#[test]
fn zero_records_means_no_outcome_and_no_error() {
    let program = vec![pos_query(), Bytecode::Copy(0), Bytecode::SetField(0)];
    let mut records: Vec<Vec<Value>> = vec![];
    let outcomes = run(program, &mut records, &FunctionRegistry::new(), &no_functions);
    assert_eq!(outcomes, vec![]);
    assert_eq!(records, Vec::<Vec<Value>>::new());
}

#[test]
fn an_error_on_one_record_does_not_stop_the_others() {
    let program = vec![pos_query(), Bytecode::GetField(0, "x".to_string()), Bytecode::Push(num(1.0)), Bytecode::SetField(1)];
    let mut records = vec![vec![Value::Int(3)], vec![vec3(0.0, 0.0, 0.0)], vec![]];
    let outcomes = run(program, &mut records, &FunctionRegistry::new(), &no_functions);
    assert_eq!(outcomes, vec![Err(RuntimeError::Unresolved), Ok(()), Err(RuntimeError::Unresolved)]);
    assert_eq!(records, vec![vec![Value::Int(3)], vec![vec3(1.0, 0.0, 0.0)], vec![]]);
}

#[test]
fn take_arguments_gives_the_last_pushed_first() {
    let mut stack = IndirectStack::new();
    let record = vec![vec3(1.0, 2.0, 3.0)];
    stack.push_mut(0);
    stack.push_owned(Value::Int(1));
    stack.push_internal_ref("z".to_string(), 0);
    assert_eq!(take_arguments(&mut stack, &record, 2), Ok(vec![num(3.0), Value::Int(1)]));
    assert_eq!(stack.len(), 1);
    assert_eq!(take_arguments(&mut stack, &record, 2), Err(RuntimeError::StackUnderflow));
    assert_eq!(stack.len(), 1);
    assert_eq!(take_arguments(&mut stack, &record, 0), Ok(vec![]));
}

#[test]
fn take_arguments_fails_on_an_unresolved_slot_and_keeps_the_stack() {
    let mut stack = IndirectStack::new();
    let record = vec![];
    stack.push_owned(Value::Int(1));
    stack.push_mut(0);
    assert_eq!(take_arguments(&mut stack, &record, 2), Err(RuntimeError::Unresolved));
    assert_eq!(stack.len(), 2);
}

#[test]
fn call_pops_its_arguments_and_pushes_the_result() {
    let mut registry = FunctionRegistry::new();
    assert_eq!(registry.register_function("sub".to_string(), 2), 0);
    let program = vec![
        Bytecode::Query { components: vec![] },
        Bytecode::Push(Value::Int(10)),
        Bytecode::Push(Value::Int(3)),
        Bytecode::Push(Value::Int(0)),
        Bytecode::Copy(0),
        Bytecode::Copy(1),
        Bytecode::Call("sub".to_string()),
        Bytecode::SetField(2),
        Bytecode::Copy(2),
        Bytecode::Call("check".to_string()),
    ];
    let invoke = |index: usize, args: Vec<Value>| -> Option<Value> {
        assert_eq!(index, 0);
        match (&args[0], &args[1]) {
            (Value::Int(a), Value::Int(b)) => Some(Value::Int(a - b)),
            _ => None,
        }
    };
    let mut record = vec![];
    let outcome = run_record(&program, 1, 0, &mut record, &registry, &invoke);
    assert_eq!(outcome, Err(RuntimeError::UnknownFunction));
    let seen = std::cell::RefCell::new(Vec::new());
    registry.register_function("check".to_string(), 1);
    let record_call = |index: usize, args: Vec<Value>| -> Option<Value> {
        if index == 1 {
            seen.borrow_mut().push(args[0].clone());
            None
        } else {
            invoke(index, args)
        }
    };
    let outcome = run_record(&program, 1, 0, &mut record, &registry, &record_call);
    assert_eq!(outcome, Ok(()));
    assert_eq!(seen.into_inner(), vec![Value::Int(-7)]);
}

#[test]
fn call_without_enough_values_underflows() {
    let mut registry = FunctionRegistry::new();
    registry.register_function("two".to_string(), 2);
    let program = vec![Bytecode::Query { components: vec![] }, Bytecode::Push(Value::Int(1)), Bytecode::Call("two".to_string())];
    let mut records = vec![vec![]];
    let outcomes = run(program, &mut records, &registry, &no_functions);
    assert_eq!(outcomes, vec![Err(RuntimeError::StackUnderflow)]);
}

#[test]
fn a_program_is_one_query_then_no_query() {
    assert!(!is_well_formed(&vec![]));
    assert!(!is_well_formed(&vec![Bytecode::Pop]));
    assert!(is_well_formed(&vec![pos_query()]));
    assert!(is_well_formed(&vec![pos_query(), Bytecode::Pop, Bytecode::Copy(0)]));
    assert!(!is_well_formed(&vec![pos_query(), Bytecode::Pop, pos_query()]));
}

#[test]
fn bytecode_clone_is_equal() {
    let all = vec![
        Bytecode::Push(vec3(1.0, 2.0, 3.0)),
        Bytecode::Pop,
        Bytecode::Call("f".to_string()),
        Bytecode::GetField(2, "x".to_string()),
        Bytecode::SetField(1),
        pos_query(),
        Bytecode::Copy(4),
    ];
    for instruction in &all {
        assert_eq!(&instruction.clone(), instruction);
    }
    let components = vec![Component { name: "a".to_string(), id: 1, type_path: "b::A".to_string() }];
    assert_eq!(clone_components(&components), components);
}

#[test]
fn each_record_starts_on_a_fresh_stack() {
    let program = vec![
        Bytecode::Query { components: vec![] },
        Bytecode::Push(Value::Int(1)),
        Bytecode::Push(Value::Int(2)),
        Bytecode::Copy(1),
        Bytecode::SetField(0),
        Bytecode::Copy(2),
    ];
    let mut records = vec![vec![], vec![]];
    let outcomes = run(program, &mut records, &FunctionRegistry::new(), &no_functions);
    assert_eq!(outcomes, vec![Err(RuntimeError::Unresolved), Err(RuntimeError::Unresolved)]);
}
