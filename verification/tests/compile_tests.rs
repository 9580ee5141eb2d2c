use graph_script::compiler::compile_graph;
use graph_script::error::CompileError;
use graph_script::graph::{Graph, InPinId, NodeId, OutPinId};
use graph_script::scripting::{
    FieldNode, FunctionInfo, FunctionNode, QueryNode, ScriptNode, SetNode, TypeCreationNode,
};
use graph_script::value::Value;
use graph_script::virtual_machine::{Bytecode, Component};

fn position() -> Component {
    Component { name: "pos".to_string(), id: 7, type_path: "game::Position".to_string() }
}

fn out_pin(node: NodeId, output: usize) -> OutPinId {
    OutPinId { node, output }
}

fn in_pin(node: NodeId, input: usize) -> InPinId {
    InPinId { node, input }
}

#[test]
fn empty_graph_has_no_entry_point() {
    let graph = Graph::new();
    assert_eq!(compile_graph(&graph), Err(CompileError::NoEntryPoint));
}

#[test]
fn two_queries_are_rejected() {
    let mut graph = Graph::new();
    graph.insert_node(ScriptNode::query());
    graph.insert_node(ScriptNode::query());
    assert_eq!(compile_graph(&graph), Err(CompileError::MultipleEntryPoints));
}

#[test]
fn query_alone_compiles_to_one_instruction() {
    let mut graph = Graph::new();
    graph.insert_node(ScriptNode::Query(QueryNode { components: vec![position()] }));
    assert_eq!(compile_graph(&graph), Ok(vec![Bytecode::Query { components: vec![position()] }]));
}

#[test]
fn set_of_a_field_compiles_in_dependency_order() {
    let mut graph = Graph::new();
    let query = graph.insert_node(ScriptNode::Query(QueryNode { components: vec![position()] }));
    let set = graph.insert_node(ScriptNode::SetField(SetNode::new()));
    let field = graph.insert_node(ScriptNode::Field(FieldNode {
        field: Some("f32".to_string()),
        name: Some("x".to_string()),
    }));
    let five = graph.insert_node(ScriptNode::TypeCreation(TypeCreationNode::new(Value::Int(5))));
    assert!(graph.connect(out_pin(query, 0), in_pin(set, 0)));
    assert!(graph.connect(out_pin(query, 1), in_pin(field, 0)));
    assert!(graph.connect(out_pin(field, 0), in_pin(set, 1)));
    assert!(graph.connect(out_pin(five, 0), in_pin(set, 2)));
    assert_eq!(
        compile_graph(&graph),
        Ok(vec![
            Bytecode::Query { components: vec![position()] },
            Bytecode::GetField(0, "x".to_string()),
            Bytecode::Push(Value::Int(5)),
            Bytecode::Copy(2),
            Bytecode::SetField(1),
        ])
    );
}

#[test]
fn function_consuming_a_created_value() {
    let mut graph = Graph::new();
    let query = graph.insert_node(ScriptNode::query());
    let call = graph.insert_node(ScriptNode::Function(FunctionNode::new(FunctionInfo {
        name: Some("print_i32".to_string()),
        arg_count: 1,
        returns_value: false,
    })));
    let value = graph.insert_node(ScriptNode::type_creation(Value::Int(3)));
    assert!(graph.connect(out_pin(query, 0), in_pin(call, 0)));
    assert!(graph.connect(out_pin(value, 0), in_pin(call, 1)));
    assert_eq!(
        compile_graph(&graph),
        Ok(vec![
            Bytecode::Query { components: vec![] },
            Bytecode::Push(Value::Int(3)),
            Bytecode::Copy(0),
            Bytecode::Call("print_i32".to_string()),
        ])
    );
}
