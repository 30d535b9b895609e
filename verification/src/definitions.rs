//! Node kinds: the schema that describes a kind to a front end, the logic
//! that computes it, and the registry that holds one definition per kind.

use crate::value::{bool_value, int_value, str_value, value_of_bool, value_of_int, value_of_str};
use serde_json::Value;
use vstd::prelude::*;

verus! {

/// How a socket is shown.
#[derive(Clone, Debug)]
pub struct SocketUI {
    pub ui_type: String,
    pub show_name: bool,
}

/// An input or output socket of a node kind.
#[derive(Clone, Debug)]
pub struct SocketDef {
    pub name: String,
    pub val_type: String,
    pub ui: SocketUI,
    pub max_connections: usize,
}

/// How a data slot is shown.
#[derive(Clone, Debug)]
pub struct DataUI {
    pub ui_type: String,
    pub show_name: bool,
    pub options: Option<Vec<String>>,
}

/// A slot of local data of a node kind, standing in for the input socket
/// `input_index` while nothing is connected there.
#[derive(Clone, Debug)]
pub struct DataDef {
    pub data_type: String,
    pub input_index: usize,
    pub ui: DataUI,
    pub default_value: Value,
}

/// The sockets of a node kind.
#[derive(Clone, Debug)]
pub struct IO {
    pub inputs: Vec<SocketDef>,
    pub outputs: Vec<SocketDef>,
}

/// What a front end needs to know of a node kind.
#[derive(Clone, Debug)]
pub struct NodeSchema {
    pub name: String,
    pub io: IO,
    pub data: Vec<DataDef>,
    pub auto_evaluate_on_connect: bool,
}

/// The computation of a node kind.
#[derive(Clone, Copy, Debug, PartialEq, Eq, Structural)]
pub enum Logic {
    Boolean,
    Number,
    Text,
    Addition,
    Subtraction,
    Multiplication,
    Division,
    Comparison,
    Condition,
    Output,
}

/// A node kind: its schema and its logic.
#[derive(Clone, Debug)]
pub struct NodeDefinition {
    pub schema: NodeSchema,
    pub logic: Logic,
}

pub struct SocketUIModel {
    pub ui_type: Seq<char>,
    pub show_name: bool,
}

pub struct SocketModel {
    pub name: Seq<char>,
    pub val_type: Seq<char>,
    pub ui: SocketUIModel,
    pub max_connections: nat,
}

pub struct DataUIModel {
    pub ui_type: Seq<char>,
    pub show_name: bool,
    pub options: Option<Seq<Seq<char>>>,
}

pub struct DataModel {
    pub data_type: Seq<char>,
    pub input_index: nat,
    pub ui: DataUIModel,
    pub default_value: Value,
}

pub struct IOModel {
    pub inputs: Seq<SocketModel>,
    pub outputs: Seq<SocketModel>,
}

pub struct SchemaModel {
    pub name: Seq<char>,
    pub io: IOModel,
    pub data: Seq<DataModel>,
    pub auto_evaluate_on_connect: bool,
}

pub struct DefinitionModel {
    pub schema: SchemaModel,
    pub logic: Logic,
}

impl View for SocketUI {
    type V = SocketUIModel;

    open spec fn view(&self) -> SocketUIModel {
        SocketUIModel { ui_type: self.ui_type@, show_name: self.show_name }
    }
}

impl View for SocketDef {
    type V = SocketModel;

    open spec fn view(&self) -> SocketModel {
        SocketModel {
            name: self.name@,
            val_type: self.val_type@,
            ui: self.ui@,
            max_connections: self.max_connections as nat,
        }
    }
}

impl View for DataUI {
    type V = DataUIModel;

    open spec fn view(&self) -> DataUIModel {
        DataUIModel {
            ui_type: self.ui_type@,
            show_name: self.show_name,
            options: match self.options {
                Some(options) => Some(options@.map_values(|o: String| o@)),
                None => None,
            },
        }
    }
}

impl View for DataDef {
    type V = DataModel;

    open spec fn view(&self) -> DataModel {
        DataModel {
            data_type: self.data_type@,
            input_index: self.input_index as nat,
            ui: self.ui@,
            default_value: self.default_value,
        }
    }
}

impl View for IO {
    type V = IOModel;

    open spec fn view(&self) -> IOModel {
        IOModel {
            inputs: self.inputs@.map_values(|s: SocketDef| s@),
            outputs: self.outputs@.map_values(|s: SocketDef| s@),
        }
    }
}

impl View for NodeSchema {
    type V = SchemaModel;

    open spec fn view(&self) -> SchemaModel {
        SchemaModel {
            name: self.name@,
            io: self.io@,
            data: self.data@.map_values(|d: DataDef| d@),
            auto_evaluate_on_connect: self.auto_evaluate_on_connect,
        }
    }
}

impl View for NodeDefinition {
    type V = DefinitionModel;

    open spec fn view(&self) -> DefinitionModel {
        DefinitionModel { schema: self.schema@, logic: self.logic }
    }
}

/// The model of a registry: the kinds and their definitions, in order.
pub open spec fn registry_model(registry: Seq<(String, NodeDefinition)>) -> Seq<
    (Seq<char>, DefinitionModel),
> {
    registry.map_values(|entry: (String, NodeDefinition)| (entry.0@, entry.1@))
}

/// Whether `i` is the first position of `registry` that holds `kind`.
pub open spec fn is_first(registry: Seq<(Seq<char>, DefinitionModel)>, kind: Seq<char>, i: int) -> bool {
    &&& 0 <= i < registry.len()
    &&& registry[i].0 == kind
    &&& forall|j: int| 0 <= j < i ==> (#[trigger] registry[j]).0 != kind
}

/// The definition that `registry` holds for `kind`, if it holds one: the
/// first, should the kind stand there twice.
pub open spec fn definition_of(
    registry: Seq<(Seq<char>, DefinitionModel)>,
    kind: Seq<char>,
) -> Option<DefinitionModel> {
    if exists|i: int| is_first(registry, kind, i) {
        Some(registry[choose|i: int| is_first(registry, kind, i)].1)
    } else {
        None
    }
}

/// Looks up the definition of `kind`.
pub fn lookup<'a>(registry: &'a Vec<(String, NodeDefinition)>, kind: &String) -> (r: Option<
    &'a NodeDefinition,
>)
    ensures
        match r {
            Some(definition) => definition_of(registry_model(registry@), kind@) == Some(
                definition@,
            ),
            None => definition_of(registry_model(registry@), kind@) is None,
        },
{
    let ghost model = registry_model(registry@);
    let mut i: usize = 0;
    while i < registry.len()
        invariant
            i <= registry.len(),
            model == registry_model(registry@),
            forall|j: int| 0 <= j < i ==> (#[trigger] model[j]).0 != kind@,
        decreases registry.len() - i,
    {
        if registry[i].0 == *kind {
            proof {
                assert(is_first(model, kind@, i as int));
                let c = choose|c: int| is_first(model, kind@, c);
                assert(c == i) by {
                    if c < i {
                        assert(model[c].0 != kind@);
                    } else if c > i {
                        assert(model[i as int].0 == kind@);
                    }
                }
            }
            return Some(&registry[i].1);
        }
        i += 1;
    }
    proof {
        if exists|c: int| is_first(model, kind@, c) {
            let c = choose|c: int| is_first(model, kind@, c);
            assert(model[c].0 != kind@);
        }
    }
    None
}

/// The number of connections that stands for "no limit" on a socket.
pub const UNLIMITED: usize = 9999;

/// A socket that does not show its name.
pub open spec fn socket(
    name: Seq<char>,
    val_type: Seq<char>,
    ui_type: Seq<char>,
    max_connections: nat,
) -> SocketModel {
    SocketModel {
        name,
        val_type,
        ui: SocketUIModel { ui_type, show_name: false },
        max_connections,
    }
}

/// A data slot of the built-in kinds: it stands in for input `input_index`
/// and starts out as `default_value`.
pub open spec fn slot(input_index: nat, ui_type: Seq<char>, default_value: Value) -> DataModel {
    DataModel {
        data_type: "plugin"@,
        input_index,
        ui: DataUIModel { ui_type, show_name: false, options: None },
        default_value,
    }
}

/// The schema of a kind that holds one constant of type `val_type`.
pub open spec fn constant_schema(name: Seq<char>, val_type: Seq<char>, default_value: Value) -> SchemaModel {
    SchemaModel {
        name,
        io: IOModel {
            inputs: seq![socket("value"@, val_type, "none"@, 0)],
            outputs: seq![socket("value"@, val_type, "show"@, UNLIMITED as nat)],
        },
        data: seq![slot(0, "input"@, default_value)],
        auto_evaluate_on_connect: false,
    }
}

/// The schema of a kind with two operands `a` and `b` of type `operand_type`
/// and one output.
pub open spec fn binary_schema(
    name: Seq<char>,
    operand_type: Seq<char>,
    output_name: Seq<char>,
    output_type: Seq<char>,
) -> SchemaModel {
    SchemaModel {
        name,
        io: IOModel {
            inputs: seq![
                socket("a"@, operand_type, "show"@, 1),
                socket("b"@, operand_type, "show"@, 1),
            ],
            outputs: seq![socket(output_name, output_type, "show"@, UNLIMITED as nat)],
        },
        data: seq![slot(0, "input"@, value_of_int(0)), slot(1, "input"@, value_of_int(0))],
        auto_evaluate_on_connect: false,
    }
}

/// The identifier under which the registry holds the kind of each logic.
pub open spec fn kind_of(logic: Logic) -> Seq<char> {
    match logic {
        Logic::Boolean => "booleanNode"@,
        Logic::Number => "numberNode"@,
        Logic::Text => "stringNode"@,
        Logic::Addition => "additionNode"@,
        Logic::Subtraction => "subractionNode"@,
        Logic::Multiplication => "multiplicationNode"@,
        Logic::Division => "divisionNode"@,
        Logic::Comparison => "comparisonNode"@,
        Logic::Condition => "ifNode"@,
        Logic::Output => "outputNode"@,
    }
}

/// The schema of the built-in kind of each logic.
pub open spec fn schema_of(logic: Logic) -> SchemaModel {
    match logic {
        Logic::Boolean => constant_schema("Boolean"@, "boolean"@, value_of_bool(false)),
        Logic::Number => constant_schema("Number"@, "number"@, value_of_int(0)),
        Logic::Text => constant_schema("String"@, "string"@, value_of_str(""@)),
        Logic::Addition => binary_schema("Add"@, "any"@, "sum"@, "any"@),
        Logic::Subtraction => binary_schema("Subtract"@, "number"@, "sum"@, "any"@),
        Logic::Multiplication => binary_schema("Multiply"@, "number"@, "sum"@, "any"@),
        Logic::Division => binary_schema("Divide"@, "number"@, "sum"@, "any"@),
        Logic::Comparison => binary_schema("Compare"@, "any"@, "isEqual"@, "boolean"@),
        Logic::Condition => SchemaModel {
            name: "If"@,
            io: IOModel {
                inputs: seq![
                    socket("condition"@, "boolean"@, "show"@, 1),
                    socket("trueValue"@, "any"@, "show"@, 1),
                    socket("falseValue"@, "any"@, "show"@, 1),
                ],
                outputs: seq![socket("output"@, "any"@, "show"@, UNLIMITED as nat)],
            },
            data: seq![
                slot(0, "input"@, value_of_bool(false)),
                slot(1, "input"@, value_of_int(0)),
                slot(2, "input"@, value_of_int(0)),
            ],
            auto_evaluate_on_connect: false,
        },
        Logic::Output => SchemaModel {
            name: "Output"@,
            io: IOModel {
                inputs: seq![socket("input"@, "any"@, "none"@, 1)],
                outputs: Seq::empty(),
            },
            data: seq![slot(0, "display"@, value_of_str(" "@))],
            auto_evaluate_on_connect: true,
        },
    }
}

/// The entry of the registry for the built-in kind of a logic.
pub open spec fn entry_of(logic: Logic) -> (Seq<char>, DefinitionModel) {
    (kind_of(logic), DefinitionModel { schema: schema_of(logic), logic })
}

/// The registry of the built-in kinds.
pub open spec fn builtin_registry() -> Seq<(Seq<char>, DefinitionModel)> {
    seq![
        entry_of(Logic::Boolean),
        entry_of(Logic::Number),
        entry_of(Logic::Text),
        entry_of(Logic::Addition),
        entry_of(Logic::Subtraction),
        entry_of(Logic::Multiplication),
        entry_of(Logic::Division),
        entry_of(Logic::Comparison),
        entry_of(Logic::Condition),
        entry_of(Logic::Output),
    ]
}

fn mk_socket(name: &str, val_type: &str, ui_type: &str, max_connections: usize) -> (r: SocketDef)
    ensures
        r@ == socket(name@, val_type@, ui_type@, max_connections as nat),
{
    SocketDef {
        name: name.to_owned(),
        val_type: val_type.to_owned(),
        ui: SocketUI { ui_type: ui_type.to_owned(), show_name: false },
        max_connections,
    }
}

fn mk_data(input_index: usize, ui_type: &str, default_value: Value) -> (r: DataDef)
    ensures
        r@ == slot(input_index as nat, ui_type@, default_value),
{
    DataDef {
        data_type: "plugin".to_owned(),
        input_index,
        ui: DataUI { ui_type: ui_type.to_owned(), show_name: false, options: None },
        default_value,
    }
}

fn mk_constant(name: &str, val_type: &str, default_value: Value) -> (r: NodeSchema)
    ensures
        r@ == constant_schema(name@, val_type@, default_value),
{
    let mut inputs: Vec<SocketDef> = Vec::new();
    inputs.push(mk_socket("value", val_type, "none", 0));
    let mut outputs: Vec<SocketDef> = Vec::new();
    outputs.push(mk_socket("value", val_type, "show", UNLIMITED));
    let mut data: Vec<DataDef> = Vec::new();
    data.push(mk_data(0, "input", default_value));
    let schema = NodeSchema {
        name: name.to_owned(),
        io: IO { inputs, outputs },
        data,
        auto_evaluate_on_connect: false,
    };
    proof {
        let model = constant_schema(name@, val_type@, default_value);
        assert(schema@.io.inputs =~= model.io.inputs);
        assert(schema@.io.outputs =~= model.io.outputs);
        assert(schema@.data =~= model.data);
    }
    schema
}

fn mk_binary(name: &str, operand_type: &str, output_name: &str, output_type: &str) -> (r:
    NodeSchema)
    ensures
        r@ == binary_schema(name@, operand_type@, output_name@, output_type@),
{
    let mut inputs: Vec<SocketDef> = Vec::new();
    inputs.push(mk_socket("a", operand_type, "show", 1));
    inputs.push(mk_socket("b", operand_type, "show", 1));
    let mut outputs: Vec<SocketDef> = Vec::new();
    outputs.push(mk_socket(output_name, output_type, "show", UNLIMITED));
    let mut data: Vec<DataDef> = Vec::new();
    data.push(mk_data(0, "input", int_value(0)));
    data.push(mk_data(1, "input", int_value(0)));
    let schema = NodeSchema {
        name: name.to_owned(),
        io: IO { inputs, outputs },
        data,
        auto_evaluate_on_connect: false,
    };
    proof {
        let model = binary_schema(name@, operand_type@, output_name@, output_type@);
        assert(schema@.io.inputs =~= model.io.inputs);
        assert(schema@.io.outputs =~= model.io.outputs);
        assert(schema@.data =~= model.data);
    }
    schema
}

fn mk_condition() -> (r: NodeSchema)
    ensures
        r@ == schema_of(Logic::Condition),
{
    let mut inputs: Vec<SocketDef> = Vec::new();
    inputs.push(mk_socket("condition", "boolean", "show", 1));
    inputs.push(mk_socket("trueValue", "any", "show", 1));
    inputs.push(mk_socket("falseValue", "any", "show", 1));
    let mut outputs: Vec<SocketDef> = Vec::new();
    outputs.push(mk_socket("output", "any", "show", UNLIMITED));
    let mut data: Vec<DataDef> = Vec::new();
    data.push(mk_data(0, "input", bool_value(false)));
    data.push(mk_data(1, "input", int_value(0)));
    data.push(mk_data(2, "input", int_value(0)));
    let schema = NodeSchema {
        name: "If".to_owned(),
        io: IO { inputs, outputs },
        data,
        auto_evaluate_on_connect: false,
    };
    proof {
        let model = schema_of(Logic::Condition);
        assert(schema@.io.inputs =~= model.io.inputs);
        assert(schema@.io.outputs =~= model.io.outputs);
        assert(schema@.data =~= model.data);
    }
    schema
}

fn mk_output() -> (r: NodeSchema)
    ensures
        r@ == schema_of(Logic::Output),
{
    let mut inputs: Vec<SocketDef> = Vec::new();
    inputs.push(mk_socket("input", "any", "none", 1));
    let outputs: Vec<SocketDef> = Vec::new();
    let mut data: Vec<DataDef> = Vec::new();
    data.push(mk_data(0, "display", str_value(" ")));
    let schema = NodeSchema {
        name: "Output".to_owned(),
        io: IO { inputs, outputs },
        data,
        auto_evaluate_on_connect: true,
    };
    proof {
        let model = schema_of(Logic::Output);
        assert(schema@.io.inputs =~= model.io.inputs);
        assert(schema@.io.outputs =~= model.io.outputs);
        assert(schema@.data =~= model.data);
    }
    schema
}

/// The registry entry of the built-in kind of a logic.
fn define(logic: Logic) -> (r: (String, NodeDefinition))
    ensures
        (r.0@, r.1@) == entry_of(logic),
{
    let (kind, schema) = match logic {
        Logic::Boolean => ("booleanNode", mk_constant("Boolean", "boolean", bool_value(false))),
        Logic::Number => ("numberNode", mk_constant("Number", "number", int_value(0))),
        Logic::Text => ("stringNode", mk_constant("String", "string", str_value(""))),
        Logic::Addition => ("additionNode", mk_binary("Add", "any", "sum", "any")),
        Logic::Subtraction => ("subractionNode", mk_binary("Subtract", "number", "sum", "any")),
        Logic::Multiplication => (
            "multiplicationNode",
            mk_binary("Multiply", "number", "sum", "any"),
        ),
        Logic::Division => ("divisionNode", mk_binary("Divide", "number", "sum", "any")),
        Logic::Comparison => ("comparisonNode", mk_binary("Compare", "any", "isEqual", "boolean")),
        Logic::Condition => ("ifNode", mk_condition()),
        Logic::Output => ("outputNode", mk_output()),
    };
    (kind.to_owned(), NodeDefinition { schema, logic })
}

/// The registry of the built-in node kinds: ten kinds, each with its schema
/// and its logic.
pub fn get_node_registry() -> (registry: Vec<(String, NodeDefinition)>)
    ensures
        registry_model(registry@) == builtin_registry(),
{
    let mut registry: Vec<(String, NodeDefinition)> = Vec::new();
    registry.push(define(Logic::Boolean));
    registry.push(define(Logic::Number));
    registry.push(define(Logic::Text));
    registry.push(define(Logic::Addition));
    registry.push(define(Logic::Subtraction));
    registry.push(define(Logic::Multiplication));
    registry.push(define(Logic::Division));
    registry.push(define(Logic::Comparison));
    registry.push(define(Logic::Condition));
    registry.push(define(Logic::Output));
    proof {
        assert(registry_model(registry@) =~= builtin_registry());
    }
    registry
}

} // verus!
