use graph_script::compiler::{compile_graph, find_entry};
use graph_script::error::CompileError;
use graph_script::graph::{Graph, InPinId, NodeId, OutPinId, Wire};
use graph_script::linearize::{linearize, TreeNode};
use graph_script::scripting::{
    FieldNode, FunctionInfo, FunctionNode, QueryNode, ScriptNode, SetNode, TypeCreationNode,
};
use graph_script::slots::{Pin, PinSlots};
use graph_script::value::Value;
use graph_script::virtual_machine::{Bytecode, Component};
use graph_script::wiring::WiringIndex;

fn component(name: &str, id: usize) -> Component {
    Component { name: name.to_string(), id, type_path: format!("game::{}", name) }
}

fn o(node: NodeId, output: usize) -> OutPinId {
    OutPinId { node, output }
}

fn i(node: NodeId, input: usize) -> InPinId {
    InPinId { node, input }
}

fn query(names: &[&str]) -> ScriptNode {
    ScriptNode::Query(QueryNode {
        components: names.iter().enumerate().map(|(k, n)| component(n, k)).collect(),
    })
}

fn field_of(name: &str) -> ScriptNode {
    ScriptNode::Field(FieldNode { field: None, name: Some(name.to_string()) })
}

fn function(name: &str, arg_count: usize, returns_value: bool) -> ScriptNode {
    ScriptNode::Function(FunctionNode::new(FunctionInfo {
        name: Some(name.to_string()),
        arg_count,
        returns_value,
    }))
}

fn constant(v: i64) -> ScriptNode {
    ScriptNode::TypeCreation(TypeCreationNode::new(Value::Int(v)))
}

#[test]
fn nodes_are_numbered_in_insertion_order() {
    let mut graph = Graph::new();
    assert_eq!(graph.insert_node(ScriptNode::set()), NodeId(0));
    assert_eq!(graph.insert_node(ScriptNode::field()), NodeId(1));
    assert_eq!(graph.node_count(), 2);
    assert_eq!(graph.node(NodeId(0)), Some(&ScriptNode::SetField(SetNode::new())));
    assert_eq!(graph.node(NodeId(1)), Some(&ScriptNode::Field(FieldNode::new())));
    assert_eq!(graph.node(NodeId(2)), None);
    assert_eq!(graph.node_at(NodeId(1)), &ScriptNode::Field(FieldNode::new()));
}

#[test]
fn connect_refuses_missing_nodes_and_second_wires_into_one_input() {
    let mut graph = Graph::new();
    let a = graph.insert_node(constant(1));
    let b = graph.insert_node(constant(2));
    let s = graph.insert_node(ScriptNode::set());
    assert!(!graph.connect(o(a, 0), i(NodeId(9), 0)));
    assert!(!graph.connect(o(NodeId(9), 0), i(s, 1)));
    assert!(graph.connect(o(a, 0), i(s, 2)));
    assert!(!graph.connect(o(b, 0), i(s, 2)));
    assert!(!graph.connect(o(a, 0), i(s, 2)));
    assert!(graph.connect(o(a, 0), i(s, 1)));
    assert_eq!(
        graph.wire_list(),
        &vec![Wire { from: o(a, 0), to: i(s, 2) }, Wire { from: o(a, 0), to: i(s, 1) }]
    );
}

#[test]
fn can_flow_holds_of_set_function_and_query() {
    assert!(ScriptNode::set().can_flow());
    assert!(function("f", 0, false).can_flow());
    assert!(ScriptNode::query().can_flow());
    assert!(!ScriptNode::field().can_flow());
    assert!(!ScriptNode::type_creation(Value::Int(0)).can_flow());
}

#[test]
fn data_inputs_follow_the_flow_pin() {
    assert_eq!(ScriptNode::set().data_inputs(), 2);
    assert_eq!(ScriptNode::set().data_pin(0), 1);
    assert_eq!(ScriptNode::set().data_pin(1), 2);
    assert_eq!(ScriptNode::field().data_inputs(), 1);
    assert_eq!(ScriptNode::field().data_pin(0), 0);
    assert_eq!(function("f", 3, true).data_inputs(), 3);
    assert_eq!(function("f", 3, true).data_pin(2), 3);
    assert_eq!(ScriptNode::query().data_inputs(), 0);
    assert_eq!(constant(1).data_inputs(), 0);
}

#[test]
fn script_node_clone_is_equal() {
    for node in [ScriptNode::set(), field_of("x"), function("f", 2, true), constant(4), query(&["a", "b"])] {
        assert_eq!(node.clone(), node);
    }
}

#[test]
fn wiring_index_answers_sources_and_targets() {
    let mut graph = Graph::new();
    let q = graph.insert_node(query(&["pos"]));
    let f = graph.insert_node(field_of("x"));
    let g = graph.insert_node(field_of("y"));
    let s = graph.insert_node(ScriptNode::set());
    assert!(graph.connect(o(q, 1), i(f, 0)));
    assert!(graph.connect(o(q, 0), i(s, 0)));
    assert!(graph.connect(o(q, 1), i(g, 0)));
    assert!(graph.connect(o(f, 0), i(s, 1)));
    let index = WiringIndex::build(&graph);
    assert_eq!(index.node_total(), 4);
    assert_eq!(index.source(i(f, 0)), Some(o(q, 1)));
    assert_eq!(index.source(i(s, 1)), Some(o(f, 0)));
    assert_eq!(index.source(i(s, 2)), None);
    assert_eq!(index.source(i(NodeId(17), 0)), None);
    assert_eq!(index.first_target(o(q, 1)), Some(i(f, 0)));
    assert_eq!(index.first_target(o(q, 0)), Some(i(s, 0)));
    assert_eq!(index.first_target(o(g, 0)), None);
    assert_eq!(index.first_target(o(NodeId(17), 0)), None);
    assert_eq!(index.targets(o(q, 1)), vec![i(f, 0), i(g, 0)]);
    assert_eq!(index.targets(o(s, 0)), vec![]);
    assert_eq!(index.targets(o(NodeId(17), 0)), vec![]);
    assert_eq!(
        index.incoming(s),
        Some(&vec![Wire { from: o(q, 0), to: i(s, 0) }, Wire { from: o(f, 0), to: i(s, 1) }])
    );
    assert_eq!(
        index.outgoing(q),
        Some(&vec![
            Wire { from: o(q, 1), to: i(f, 0) },
            Wire { from: o(q, 0), to: i(s, 0) },
            Wire { from: o(q, 1), to: i(g, 0) },
        ])
    );
    assert_eq!(index.incoming(q), Some(&vec![]));
    assert_eq!(index.incoming(NodeId(4)), None);
    assert_eq!(index.outgoing(NodeId(4)), None);
}

#[test]
fn slots_are_read_through_the_wiring() {
    let mut graph = Graph::new();
    let a = graph.insert_node(constant(1));
    let s = graph.insert_node(ScriptNode::set());
    assert!(graph.connect(o(a, 0), i(s, 2)));
    let mut slots = PinSlots::new(WiringIndex::build(&graph));
    assert_eq!(slots.get_data_info(o(a, 0)), None);
    assert!(!slots.has_data_info(o(a, 0)));
    assert!(!slots.has_data_info(i(s, 2)));
    slots.set_data_info(o(a, 0), 5);
    assert_eq!(slots.get_data_info(o(a, 0)), Some(5));
    assert_eq!(slots.get_data_info(i(s, 2)), Some(5));
    assert!(slots.has_data_info(i(s, 2)));
    assert_eq!(slots.get_data_info(i(s, 1)), None);
    assert_eq!(slots.get_data_info(o(a, 1)), None);
    slots.set_data_info(i(s, 2), 8);
    assert_eq!(slots.get_data_info(o(a, 0)), Some(8));
    slots.set_data_info(i(s, 1), 3);
    assert_eq!(slots.get_data_info(i(s, 1)), None);
    slots.set_data_info(o(NodeId(7), 0), 1);
    assert_eq!(slots.get_data_info(o(NodeId(7), 0)), None);
    assert_eq!(slots.wiring().source(i(s, 2)), Some(o(a, 0)));
}

#[test]
fn entry_is_the_one_query() {
    let mut graph = Graph::new();
    assert_eq!(find_entry(&graph), Err(CompileError::NoEntryPoint));
    graph.insert_node(constant(1));
    assert_eq!(find_entry(&graph), Err(CompileError::NoEntryPoint));
    let q = graph.insert_node(query(&[]));
    assert_eq!(find_entry(&graph), Ok(q));
    graph.insert_node(ScriptNode::set());
    graph.insert_node(query(&[]));
    assert_eq!(find_entry(&graph), Err(CompileError::MultipleEntryPoints));
}

#[test]
fn dependencies_are_placed_before_their_consumer_in_pin_order() {
    let mut graph = Graph::new();
    let q = graph.insert_node(query(&[]));
    let call = graph.insert_node(function("f", 2, false));
    let a = graph.insert_node(constant(1));
    let b = graph.insert_node(constant(2));
    assert!(graph.connect(o(b, 0), i(call, 2)));
    assert!(graph.connect(o(a, 0), i(call, 1)));
    assert!(graph.connect(o(q, 0), i(call, 0)));
    let index = WiringIndex::build(&graph);
    assert_eq!(linearize(&graph, &index, q), Ok(vec![q, a, b, call]));
}

#[test]
fn a_node_that_feeds_two_consumers_is_placed_once() {
    let mut graph = Graph::new();
    let q = graph.insert_node(query(&["pos"]));
    let first = graph.insert_node(ScriptNode::set());
    let second = graph.insert_node(ScriptNode::set());
    let x = graph.insert_node(field_of("x"));
    let y = graph.insert_node(field_of("y"));
    let shared = graph.insert_node(constant(7));
    assert!(graph.connect(o(q, 0), i(first, 0)));
    assert!(graph.connect(o(first, 0), i(second, 0)));
    assert!(graph.connect(o(q, 1), i(x, 0)));
    assert!(graph.connect(o(q, 1), i(y, 0)));
    assert!(graph.connect(o(x, 0), i(first, 1)));
    assert!(graph.connect(o(y, 0), i(second, 1)));
    assert!(graph.connect(o(shared, 0), i(first, 2)));
    assert!(graph.connect(o(shared, 0), i(second, 2)));
    let index = WiringIndex::build(&graph);
    assert_eq!(linearize(&graph, &index, q), Ok(vec![q, x, shared, first, y, second]));
    assert_eq!(
        compile_graph(&graph),
        Ok(vec![
            Bytecode::Query { components: vec![component("pos", 0)] },
            Bytecode::GetField(0, "x".to_string()),
            Bytecode::Push(Value::Int(7)),
            Bytecode::Copy(2),
            Bytecode::SetField(1),
            Bytecode::GetField(0, "y".to_string()),
            Bytecode::Copy(2),
            Bytecode::SetField(3),
        ])
    );
}

#[test]
fn a_data_cycle_is_a_compile_error() {
    let mut graph = Graph::new();
    let q = graph.insert_node(query(&[]));
    let s = graph.insert_node(ScriptNode::set());
    let a = graph.insert_node(field_of("a"));
    let b = graph.insert_node(field_of("b"));
    assert!(graph.connect(o(q, 0), i(s, 0)));
    assert!(graph.connect(o(a, 0), i(s, 1)));
    assert!(graph.connect(o(b, 0), i(a, 0)));
    assert!(graph.connect(o(a, 0), i(b, 0)));
    let index = WiringIndex::build(&graph);
    assert_eq!(linearize(&graph, &index, q), Err(CompileError::DataCycle));
    assert_eq!(compile_graph(&graph), Err(CompileError::DataCycle));
}

#[test]
fn a_node_that_feeds_itself_is_a_data_cycle() {
    let mut graph = Graph::new();
    let q = graph.insert_node(query(&[]));
    let f = graph.insert_node(function("f", 1, true));
    assert!(graph.connect(o(q, 0), i(f, 0)));
    assert!(graph.connect(o(f, 1), i(f, 1)));
    assert_eq!(compile_graph(&graph), Err(CompileError::DataCycle));
}

#[test]
fn a_cycle_that_the_walk_does_not_reach_is_no_error() {
    let mut graph = Graph::new();
    graph.insert_node(query(&[]));
    let a = graph.insert_node(field_of("a"));
    let b = graph.insert_node(field_of("b"));
    assert!(graph.connect(o(b, 0), i(a, 0)));
    assert!(graph.connect(o(a, 0), i(b, 0)));
    assert_eq!(compile_graph(&graph), Ok(vec![Bytecode::Query { components: vec![] }]));
}

#[test]
fn the_walk_follows_the_first_flow_wire_only() {
    let mut graph = Graph::new();
    let q = graph.insert_node(query(&[]));
    let f = graph.insert_node(function("f", 0, false));
    let g = graph.insert_node(function("g", 0, false));
    let h = graph.insert_node(function("h", 0, false));
    assert!(graph.connect(o(q, 0), i(g, 0)));
    assert!(graph.connect(o(q, 0), i(f, 0)));
    assert!(graph.connect(o(g, 0), i(h, 0)));
    let index = WiringIndex::build(&graph);
    assert_eq!(linearize(&graph, &index, q), Ok(vec![q, g, h]));
}

#[test]
fn a_flow_wire_back_to_a_placed_node_ends_the_walk() {
    let mut graph = Graph::new();
    let q = graph.insert_node(query(&[]));
    let f = graph.insert_node(function("f", 0, false));
    let g = graph.insert_node(function("g", 0, false));
    assert!(graph.connect(o(q, 0), i(f, 0)));
    assert!(graph.connect(o(f, 0), i(g, 0)));
    assert!(graph.connect(o(g, 0), i(f, 0)) == false);
    let mut looped = Graph::new();
    let q = looped.insert_node(query(&[]));
    let f = looped.insert_node(function("f", 0, false));
    assert!(looped.connect(o(q, 0), i(f, 0)));
    assert!(looped.connect(o(f, 0), i(q, 0)));
    let index = WiringIndex::build(&looped);
    assert_eq!(linearize(&looped, &index, q), Ok(vec![q, f]));
}

#[test]
fn a_flow_node_placed_as_a_dependency_does_not_bring_its_successor() {
    let mut graph = Graph::new();
    let q = graph.insert_node(query(&["pos"]));
    let s = graph.insert_node(ScriptNode::set());
    let f = graph.insert_node(function("make", 0, true));
    let after = graph.insert_node(function("after", 0, false));
    let x = graph.insert_node(field_of("x"));
    assert!(graph.connect(o(q, 0), i(s, 0)));
    assert!(graph.connect(o(q, 1), i(x, 0)));
    assert!(graph.connect(o(x, 0), i(s, 1)));
    assert!(graph.connect(o(f, 1), i(s, 2)));
    assert!(graph.connect(o(f, 0), i(after, 0)));
    let index = WiringIndex::build(&graph);
    assert_eq!(linearize(&graph, &index, q), Ok(vec![q, x, f, s]));
}

#[test]
fn query_gives_the_first_slots_to_its_field_groups() {
    let mut graph = Graph::new();
    let q = graph.insert_node(query(&["a", "b", "c"]));
    let s = graph.insert_node(ScriptNode::set());
    assert!(graph.connect(o(q, 0), i(s, 0)));
    assert!(graph.connect(o(q, 3), i(s, 1)));
    assert!(graph.connect(o(q, 2), i(s, 2)));
    assert_eq!(
        compile_graph(&graph),
        Ok(vec![
            Bytecode::Query { components: vec![component("a", 0), component("b", 1), component("c", 2)] },
            Bytecode::Copy(1),
            Bytecode::SetField(2),
        ])
    );
}

#[test]
fn the_flow_pin_of_a_query_has_no_slot() {
    let mut graph = Graph::new();
    let q = graph.insert_node(query(&["a"]));
    let s = graph.insert_node(ScriptNode::set());
    assert!(graph.connect(o(q, 0), i(s, 0)));
    assert!(graph.connect(o(q, 1), i(s, 1)));
    assert!(graph.connect(o(q, 0), i(s, 2)));
    assert_eq!(compile_graph(&graph), Err(CompileError::MissingInput));
}

#[test]
fn an_unwired_input_is_reported() {
    let mut graph = Graph::new();
    let q = graph.insert_node(query(&["a"]));
    let s = graph.insert_node(ScriptNode::set());
    assert!(graph.connect(o(q, 0), i(s, 0)));
    assert!(graph.connect(o(q, 1), i(s, 1)));
    assert_eq!(compile_graph(&graph), Err(CompileError::MissingInput));
    let mut call = Graph::new();
    let q = call.insert_node(query(&["a"]));
    let f = call.insert_node(function("f", 2, false));
    assert!(call.connect(o(q, 0), i(f, 0)));
    assert!(call.connect(o(q, 1), i(f, 2)));
    assert_eq!(compile_graph(&call), Err(CompileError::MissingInput));
}

#[test]
fn a_field_without_a_name_is_reported() {
    let mut graph = Graph::new();
    let q = graph.insert_node(query(&["a"]));
    let s = graph.insert_node(ScriptNode::set());
    let f = graph.insert_node(ScriptNode::field());
    assert!(graph.connect(o(q, 0), i(s, 0)));
    assert!(graph.connect(o(q, 1), i(f, 0)));
    assert!(graph.connect(o(f, 0), i(s, 1)));
    assert!(graph.connect(o(q, 1), i(s, 2)));
    assert_eq!(compile_graph(&graph), Err(CompileError::MissingName));
}

#[test]
fn a_function_without_a_name_is_reported() {
    let mut graph = Graph::new();
    let q = graph.insert_node(query(&[]));
    let f = graph.insert_node(ScriptNode::function(FunctionInfo { name: None, arg_count: 0, returns_value: false }));
    assert!(graph.connect(o(q, 0), i(f, 0)));
    assert_eq!(compile_graph(&graph), Err(CompileError::MissingName));
}

#[test]
fn the_result_of_a_call_takes_the_next_slot() {
    let mut graph = Graph::new();
    let q = graph.insert_node(query(&["n"]));
    let add = graph.insert_node(function("add_i32", 2, true));
    let one = graph.insert_node(constant(1));
    let s = graph.insert_node(ScriptNode::set());
    assert!(graph.connect(o(q, 0), i(add, 0)));
    assert!(graph.connect(o(add, 0), i(s, 0)));
    assert!(graph.connect(o(q, 1), i(add, 1)));
    assert!(graph.connect(o(one, 0), i(add, 2)));
    assert!(graph.connect(o(q, 1), i(s, 1)));
    assert!(graph.connect(o(add, 1), i(s, 2)));
    assert_eq!(
        compile_graph(&graph),
        Ok(vec![
            Bytecode::Query { components: vec![component("n", 0)] },
            Bytecode::Push(Value::Int(1)),
            Bytecode::Copy(0),
            Bytecode::Copy(1),
            Bytecode::Call("add_i32".to_string()),
            Bytecode::Copy(2),
            Bytecode::SetField(0),
        ])
    );
}

#[test]
fn the_output_of_a_call_that_returns_nothing_has_no_slot() {
    let mut graph = Graph::new();
    let q = graph.insert_node(query(&["n"]));
    let f = graph.insert_node(function("print", 0, false));
    let s = graph.insert_node(ScriptNode::set());
    assert!(graph.connect(o(q, 0), i(f, 0)));
    assert!(graph.connect(o(f, 0), i(s, 0)));
    assert!(graph.connect(o(q, 1), i(s, 1)));
    assert!(graph.connect(o(f, 1), i(s, 2)));
    assert_eq!(compile_graph(&graph), Err(CompileError::MissingInput));
}

#[test]
fn a_field_emits_one_get_field_and_no_copy() {
    let mut graph = Graph::new();
    let q = graph.insert_node(query(&["t"]));
    let s = graph.insert_node(ScriptNode::set());
    let pos = graph.insert_node(field_of("translation"));
    let x = graph.insert_node(field_of("x"));
    assert!(graph.connect(o(q, 0), i(s, 0)));
    assert!(graph.connect(o(q, 1), i(pos, 0)));
    assert!(graph.connect(o(pos, 0), i(x, 0)));
    assert!(graph.connect(o(x, 0), i(s, 1)));
    assert!(graph.connect(o(x, 0), i(s, 2)));
    let program = compile_graph(&graph).unwrap();
    assert_eq!(
        program,
        vec![
            Bytecode::Query { components: vec![component("t", 0)] },
            Bytecode::GetField(0, "translation".to_string()),
            Bytecode::GetField(1, "x".to_string()),
            Bytecode::Copy(2),
            Bytecode::SetField(2),
        ]
    );
    let copies = program.iter().filter(|b| matches!(b, Bytecode::Copy(_))).count();
    assert_eq!(copies, 1);
}

#[test]
fn chain_push_left_hangs_at_the_end() {
    let chain = TreeNode::new(NodeId(3));
    assert_eq!(chain.to_order(), vec![NodeId(3)]);
    let chain = chain.push_left(TreeNode::new(NodeId(1)));
    let tail = TreeNode::new(NodeId(4)).push_left(TreeNode::new(NodeId(0)));
    let chain = chain.push_left(tail);
    assert_eq!(chain.to_order(), vec![NodeId(3), NodeId(1), NodeId(4), NodeId(0)]);
    assert_eq!(chain.node_id, NodeId(3));
}

#[test]
fn emitters_refuse_a_slot_number_that_does_not_exist() {
    let mut graph = Graph::new();
    let q = graph.insert_node(query(&["a"]));
    let c = graph.insert_node(constant(1));
    let f = graph.insert_node(field_of("x"));
    let call = graph.insert_node(function("make", 0, true));
    assert!(graph.connect(o(q, 1), i(f, 0)));
    let mut pins = PinSlots::new(WiringIndex::build(&graph));
    pins.set_data_info(o(q, 1), 0);
    let mut bytecode = vec![Bytecode::Pop];
    let mut current_stack = usize::MAX;
    let creation = TypeCreationNode::new(Value::Int(1));
    assert_eq!(
        graph_script::compiler::type_creation_node(c, &creation, &mut pins, &mut bytecode, &mut current_stack),
        Err(CompileError::SlotOverflow)
    );
    let field = FieldNode { field: None, name: Some("x".to_string()) };
    assert_eq!(
        graph_script::compiler::field_node(f, &field, &mut pins, &mut bytecode, &mut current_stack),
        Err(CompileError::SlotOverflow)
    );
    let function = FunctionNode::new(FunctionInfo { name: Some("make".to_string()), arg_count: 0, returns_value: true });
    assert_eq!(
        graph_script::compiler::function_node(call, &function, &mut pins, &mut bytecode, &mut current_stack),
        Err(CompileError::SlotOverflow)
    );
    let one = QueryNode { components: vec![component("a", 0)] };
    assert_eq!(
        graph_script::compiler::query_node(q, &one, &mut pins, &mut bytecode, &mut current_stack),
        Err(CompileError::SlotOverflow)
    );
    assert_eq!(bytecode, vec![Bytecode::Pop]);
    assert_eq!(current_stack, usize::MAX);
    assert_eq!(pins.get_data_info(o(c, 0)), None);
    assert_eq!(pins.get_data_info(o(f, 0)), None);
    assert_eq!(pins.get_data_info(o(call, 1)), None);
    assert_eq!(pins.get_data_info(o(q, 1)), Some(0));
}

#[test]
fn emitters_give_slots_and_emit_in_place() {
    let mut graph = Graph::new();
    let q = graph.insert_node(query(&["a", "b"]));
    let f = graph.insert_node(field_of("x"));
    let call = graph.insert_node(function("pair", 2, true));
    let s = graph.insert_node(ScriptNode::set());
    assert!(graph.connect(o(q, 2), i(f, 0)));
    assert!(graph.connect(o(f, 0), i(call, 1)));
    assert!(graph.connect(o(q, 1), i(call, 2)));
    assert!(graph.connect(o(call, 1), i(s, 2)));
    assert!(graph.connect(o(f, 0), i(s, 1)));
    let mut pins = PinSlots::new(WiringIndex::build(&graph));
    let mut bytecode = vec![];
    let mut current_stack = 0;
    let two = QueryNode { components: vec![component("a", 0), component("b", 1)] };
    assert_eq!(graph_script::compiler::query_node(q, &two, &mut pins, &mut bytecode, &mut current_stack), Ok(()));
    assert_eq!(current_stack, 2);
    assert_eq!(pins.get_data_info(o(q, 1)), Some(0));
    assert_eq!(pins.get_data_info(o(q, 2)), Some(1));
    assert_eq!(pins.get_data_info(o(q, 0)), None);
    let field = FieldNode { field: None, name: Some("x".to_string()) };
    assert_eq!(graph_script::compiler::field_node(f, &field, &mut pins, &mut bytecode, &mut current_stack), Ok(()));
    assert_eq!(current_stack, 3);
    let function = FunctionNode::new(FunctionInfo { name: Some("pair".to_string()), arg_count: 2, returns_value: true });
    assert_eq!(graph_script::compiler::function_node(call, &function, &mut pins, &mut bytecode, &mut current_stack), Ok(()));
    assert_eq!(current_stack, 4);
    assert_eq!(pins.get_data_info(o(call, 1)), Some(3));
    assert_eq!(graph_script::compiler::set_node(s, &SetNode::new(), &mut pins, &mut bytecode, &mut current_stack), Ok(()));
    assert_eq!(current_stack, 4);
    assert_eq!(
        bytecode,
        vec![
            Bytecode::Query { components: vec![component("a", 0), component("b", 1)] },
            Bytecode::GetField(1, "x".to_string()),
            Bytecode::Copy(2),
            Bytecode::Copy(0),
            Bytecode::Call("pair".to_string()),
            Bytecode::Copy(3),
            Bytecode::SetField(2),
        ]
    );
}

#[test]
fn a_failed_function_emits_no_copy() {
    let mut graph = Graph::new();
    let q = graph.insert_node(query(&["a"]));
    let call = graph.insert_node(function("pair", 2, false));
    assert!(graph.connect(o(q, 1), i(call, 1)));
    let mut pins = PinSlots::new(WiringIndex::build(&graph));
    pins.set_data_info(o(q, 1), 0);
    let mut bytecode = vec![];
    let mut current_stack = 1;
    let function = FunctionNode::new(FunctionInfo { name: Some("pair".to_string()), arg_count: 2, returns_value: false });
    assert_eq!(
        graph_script::compiler::function_node(call, &function, &mut pins, &mut bytecode, &mut current_stack),
        Err(CompileError::MissingInput)
    );
    assert_eq!(bytecode, vec![]);
}
