//! The kinds of node that a script graph is made of.

use crate::value::{Tree, Value};
use crate::virtual_machine::{clone_components, components_view, Component, ComponentView};
use vstd::prelude::*;

verus! {

/// Applies a value to a referenced field.  Inputs: 0 is flow, 1 the field
/// to assign to, 2 the value to assign.  Output 0 is flow.
#[derive(Debug, PartialEq, Eq)]
pub struct SetNode {}

impl SetNode {
    pub fn new() -> (node: Self)
        ensures
            node == (SetNode {  }),
    {
        SetNode {  }
    }
}

/// Exposes a named member of its single data input as an alias.
#[derive(Debug, PartialEq, Eq)]
pub struct FieldNode {
    /// The path of the member's type, for display.
    pub field: Option<String>,
    /// The member's name.
    pub name: Option<String>,
}

impl FieldNode {
    pub fn new() -> (node: Self)
        ensures
            node.field is None,
            node.name is None,
    {
        FieldNode { field: None, name: None }
    }
}

/// What a graph knows of a callable: its name, how many values it takes,
/// and whether it gives one back.
#[derive(Debug, PartialEq, Eq)]
pub struct FunctionInfo {
    pub name: Option<String>,
    pub arg_count: usize,
    pub returns_value: bool,
}

/// Calls a function.  Input 0 is flow, inputs 1 to `arg_count` are the
/// arguments.  Output 0 is flow, output 1 the result if there is one.
#[derive(Debug, PartialEq, Eq)]
pub struct FunctionNode {
    pub function_info: FunctionInfo,
}

impl FunctionNode {
    pub fn new(function_info: FunctionInfo) -> (node: Self)
        ensures
            node.function_info == function_info,
    {
        FunctionNode { function_info }
    }
}

/// Produces a fixed value on its single output.
#[derive(Debug, PartialEq, Eq)]
pub struct TypeCreationNode {
    pub value: Value,
    /// The path of the value's type, for display.
    pub type_path: Option<String>,
}

impl TypeCreationNode {
    pub fn new(value: Value) -> (node: Self)
        ensures
            node.value == value,
            node.type_path is None,
    {
        TypeCreationNode { value, type_path: None }
    }
}

/// The entry point: asks for records that have the listed field groups.
/// Output 0 is flow, output `i + 1` the field group `i`.
#[derive(Debug, PartialEq, Eq)]
pub struct QueryNode {
    pub components: Vec<Component>,
}

impl QueryNode {
    pub fn new() -> (node: Self)
        ensures
            node.components@ == Seq::<Component>::empty(),
    {
        QueryNode { components: Vec::new() }
    }
}

/// A node of a script graph.
#[derive(Debug, PartialEq, Eq)]
pub enum ScriptNode {
    /// A [`SetNode`].
    SetField(SetNode),
    Field(FieldNode),
    Function(FunctionNode),
    TypeCreation(TypeCreationNode),
    Query(QueryNode),
}

/// The model of an optional name.
pub open spec fn name_view(name: Option<String>) -> Option<Seq<char>> {
    match name {
        Some(s) => Some(s@),
        None => None,
    }
}

/// Mathematical model of a [`ScriptNode`]: what compilation reads of it.
pub enum NodeView {
    SetField,
    Field { name: Option<Seq<char>> },
    Function { name: Option<Seq<char>>, arg_count: usize, returns_value: bool },
    TypeCreation { value: Tree },
    Query { components: Seq<ComponentView> },
}

impl View for ScriptNode {
    type V = NodeView;

    open spec fn view(&self) -> NodeView {
        match self {
            ScriptNode::SetField(_) => NodeView::SetField,
            ScriptNode::Field(n) => NodeView::Field { name: name_view(n.name) },
            ScriptNode::Function(n) => NodeView::Function {
                name: name_view(n.function_info.name),
                arg_count: n.function_info.arg_count,
                returns_value: n.function_info.returns_value,
            },
            ScriptNode::TypeCreation(n) => NodeView::TypeCreation { value: n.value@ },
            ScriptNode::Query(n) => NodeView::Query { components: components_view(n.components@) },
        }
    }
}

impl NodeView {
    /// Whether the node takes part in the order of execution: its input 0
    /// and output 0 are then flow pins.
    pub open spec fn can_flow(self) -> bool {
        self is SetField || self is Function || self is Query
    }

    /// The number of input pins that carry data.
    pub open spec fn data_inputs(self) -> nat {
        match self {
            NodeView::SetField => 2,
            NodeView::Field { .. } => 1,
            NodeView::Function { arg_count, .. } => arg_count as nat,
            NodeView::TypeCreation { .. } => 0,
            NodeView::Query { .. } => 0,
        }
    }

    /// The number of the input pin that carries the data input `j`: the
    /// data inputs follow the flow pin where there is one.
    pub open spec fn data_pin(self, j: nat) -> nat {
        if self.can_flow() {
            j + 1
        } else {
            j
        }
    }
}

/// A copy of an optional name.
pub fn clone_name(name: &Option<String>) -> (copy: Option<String>)
    ensures
        name_view(copy) == name_view(*name),
{
    match name {
        Some(s) => Some(s.clone()),
        None => None,
    }
}

impl Clone for ScriptNode {
    /// A deep copy of the node.
    fn clone(&self) -> (copy: Self)
        ensures
            copy@ == self@,
    {
        match self {
            ScriptNode::SetField(_) => ScriptNode::SetField(SetNode {  }),
            ScriptNode::Field(n) => ScriptNode::Field(
                FieldNode { field: clone_name(&n.field), name: clone_name(&n.name) },
            ),
            ScriptNode::Function(n) => ScriptNode::Function(
                FunctionNode {
                    function_info: FunctionInfo {
                        name: clone_name(&n.function_info.name),
                        arg_count: n.function_info.arg_count,
                        returns_value: n.function_info.returns_value,
                    },
                },
            ),
            ScriptNode::TypeCreation(n) => ScriptNode::TypeCreation(
                TypeCreationNode {
                    value: n.value.clone_value(),
                    type_path: clone_name(&n.type_path),
                },
            ),
            ScriptNode::Query(n) => ScriptNode::Query(
                QueryNode { components: clone_components(&n.components) },
            ),
        }
    }
}

impl ScriptNode {
    /// Whether the node takes part in the order of execution.
    pub fn can_flow(&self) -> (flows: bool)
        ensures
            flows == self@.can_flow(),
    {
        match self {
            ScriptNode::SetField(_) => true,
            ScriptNode::Field(_) => false,
            ScriptNode::Function(_) => true,
            ScriptNode::TypeCreation(_) => false,
            ScriptNode::Query(_) => true,
        }
    }

    /// The number of input pins that carry data.
    pub fn data_inputs(&self) -> (count: usize)
        ensures
            count == self@.data_inputs(),
    {
        match self {
            ScriptNode::SetField(_) => 2,
            ScriptNode::Field(_) => 1,
            ScriptNode::Function(n) => n.function_info.arg_count,
            ScriptNode::TypeCreation(_) => 0,
            ScriptNode::Query(_) => 0,
        }
    }

    /// The number of the input pin that carries the data input `j`.
    pub fn data_pin(&self, j: usize) -> (pin: usize)
        requires
            j < self@.data_inputs(),
        ensures
            pin == self@.data_pin(j as nat),
    {
        if self.can_flow() {
            j + 1
        } else {
            j
        }
    }

    pub fn set() -> (node: Self)
        ensures
            node@ == NodeView::SetField,
    {
        ScriptNode::SetField(SetNode::new())
    }

    pub fn function(function_info: FunctionInfo) -> (node: Self)
        ensures
            node == ScriptNode::Function(FunctionNode { function_info }),
    {
        ScriptNode::Function(FunctionNode::new(function_info))
    }

    pub fn field() -> (node: Self)
        ensures
            node@ == (NodeView::Field { name: None }),
    {
        ScriptNode::Field(FieldNode::new())
    }

    pub fn type_creation(value: Value) -> (node: Self)
        ensures
            node == ScriptNode::TypeCreation(TypeCreationNode { value, type_path: None }),
    {
        ScriptNode::TypeCreation(TypeCreationNode::new(value))
    }

    pub fn query() -> (node: Self)
        ensures
            node@ == (NodeView::Query { components: Seq::empty() }),
    {
        let node = ScriptNode::Query(QueryNode::new());
        assert(node@->Query_components =~= Seq::<ComponentView>::empty());
        node
    }
}

} // verus!
