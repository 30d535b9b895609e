use graph_engine::{
    get_node_registry, EngineError, GraphEngine, Logic, NoArithmetic,
};
use serde_json::Value;

fn engine_with(nodes: &[(&str, &str)]) -> GraphEngine<NoArithmetic> {
    let mut engine = GraphEngine::new(NoArithmetic);
    for (id, kind) in nodes {
        engine.add_node(id.to_string(), kind.to_string(), vec![]).unwrap();
    }
    engine
}

fn sorted(mut ids: Vec<String>) -> Vec<String> {
    ids.sort();
    ids
}

fn names(ids: &[&str]) -> Vec<String> {
    ids.iter().map(|s| s.to_string()).collect()
}

fn outputs_of(engine: &GraphEngine<NoArithmetic>, id: &str, socket: usize) -> Vec<(String, usize)> {
    engine.node(id).unwrap().outputs[socket]
        .iter()
        .map(|c| (c.id.clone(), c.input_index))
        .collect()
}

fn inputs_of(engine: &GraphEngine<NoArithmetic>, id: &str, socket: usize) -> Vec<(String, usize)> {
    engine.node(id).unwrap().inputs[socket]
        .iter()
        .map(|c| (c.id.clone(), c.output_index))
        .collect()
}

#[test]
fn registry_holds_the_ten_built_in_kinds() {
    let registry = get_node_registry();
    let kinds: Vec<&str> = registry.iter().map(|e| e.0.as_str()).collect();
    assert_eq!(
        kinds,
        vec![
            "booleanNode",
            "numberNode",
            "stringNode",
            "additionNode",
            "subractionNode",
            "multiplicationNode",
            "divisionNode",
            "comparisonNode",
            "ifNode",
            "outputNode",
        ]
    );
    let arities: Vec<(usize, usize, usize)> = registry
        .iter()
        .map(|e| (e.1.schema.io.inputs.len(), e.1.schema.io.outputs.len(), e.1.schema.data.len()))
        .collect();
    assert_eq!(
        arities,
        vec![
            (1, 1, 1),
            (1, 1, 1),
            (1, 1, 1),
            (2, 1, 2),
            (2, 1, 2),
            (2, 1, 2),
            (2, 1, 2),
            (2, 1, 2),
            (3, 1, 3),
            (1, 0, 1),
        ]
    );
    assert_eq!(registry[3].1.logic, Logic::Addition);
    assert_eq!(registry[9].1.logic, Logic::Output);
}

#[test]
fn registry_describes_the_sockets_and_data_of_a_kind() {
    let registry = get_node_registry();
    let boolean = &registry[0].1.schema;
    assert_eq!(boolean.name, "Boolean");
    assert_eq!(boolean.io.inputs[0].name, "value");
    assert_eq!(boolean.io.inputs[0].val_type, "boolean");
    assert_eq!(boolean.io.inputs[0].ui.ui_type, "none");
    assert!(!boolean.io.inputs[0].ui.show_name);
    assert_eq!(boolean.io.inputs[0].max_connections, 0);
    assert_eq!(boolean.io.outputs[0].ui.ui_type, "show");
    assert_eq!(boolean.io.outputs[0].max_connections, 9999);
    assert_eq!(boolean.data[0].data_type, "plugin");
    assert_eq!(boolean.data[0].input_index, 0);
    assert_eq!(boolean.data[0].ui.ui_type, "input");
    assert!(boolean.data[0].ui.options.is_none());
    assert_eq!(boolean.data[0].default_value, Value::Bool(false));
    assert!(!boolean.auto_evaluate_on_connect);

    assert_eq!(registry[1].1.schema.data[0].default_value, Value::from(0));
    assert_eq!(registry[2].1.schema.data[0].default_value, Value::from(""));

    let compare = &registry[7].1.schema;
    assert_eq!(compare.name, "Compare");
    assert_eq!(compare.io.inputs[0].name, "a");
    assert_eq!(compare.io.inputs[1].name, "b");
    assert_eq!(compare.io.inputs[1].val_type, "any");
    assert_eq!(compare.io.inputs[1].max_connections, 1);
    assert_eq!(compare.io.outputs[0].name, "isEqual");
    assert_eq!(compare.io.outputs[0].val_type, "boolean");
    assert_eq!(compare.data[1].input_index, 1);

    let condition = &registry[8].1.schema;
    assert_eq!(condition.name, "If");
    assert_eq!(condition.io.inputs[0].name, "condition");
    assert_eq!(condition.io.inputs[1].name, "trueValue");
    assert_eq!(condition.io.inputs[2].name, "falseValue");
    assert_eq!(condition.data[0].default_value, Value::Bool(false));
    assert_eq!(condition.data[2].default_value, Value::from(0));

    let output = &registry[9].1.schema;
    assert_eq!(output.name, "Output");
    assert_eq!(output.io.inputs[0].name, "input");
    assert_eq!(output.data[0].ui.ui_type, "display");
    assert_eq!(output.data[0].default_value, Value::from(" "));
    assert!(output.auto_evaluate_on_connect);
}

#[test]
fn engine_lists_the_schemas_of_its_registry() {
    let engine = GraphEngine::new(NoArithmetic);
    let schemas = engine.get_node_defs();
    assert_eq!(schemas.len(), 10);
    assert_eq!(schemas[0].0, "booleanNode");
    assert_eq!(schemas[0].1.name, "Boolean");
    assert_eq!(schemas[4].0, "subractionNode");
    assert_eq!(schemas[4].1.name, "Subtract");
    assert_eq!(schemas[9].0, "outputNode");
    assert_eq!(schemas[9].1.io.outputs.len(), 0);
}

#[test]
fn added_node_has_the_sockets_of_its_kind_and_its_data() {
    let mut engine = GraphEngine::new(NoArithmetic);
    assert!(engine.node("a").is_none());
    engine
        .add_node("a".to_string(), "ifNode".to_string(), vec![Value::Bool(true), Value::from(7)])
        .unwrap();
    let node = engine.node("a").unwrap();
    assert_eq!(node.id, "a");
    assert_eq!(node.node_type, "ifNode");
    assert_eq!(node.inputs.len(), 3);
    assert_eq!(node.outputs.len(), 1);
    assert!(node.inputs.iter().all(|s| s.is_empty()));
    assert!(node.outputs.iter().all(|s| s.is_empty()));
    assert_eq!(node.data, vec![Value::Bool(true), Value::from(7)]);
    assert!(engine.cached("a").is_none());
    engine.add_node("o".to_string(), "outputNode".to_string(), vec![]).unwrap();
    assert_eq!(engine.node("o").unwrap().inputs.len(), 1);
    assert_eq!(engine.node("o").unwrap().outputs.len(), 0);
}

#[test]
fn unknown_kind_is_refused() {
    let mut engine = GraphEngine::new(NoArithmetic);
    let r = engine.add_node("a".to_string(), "squareRootNode".to_string(), vec![]);
    assert_eq!(r, Err(EngineError::UnknownKind("squareRootNode".to_string())));
    assert!(engine.node("a").is_none());
}

#[test]
fn taken_identifier_is_refused() {
    let mut engine = engine_with(&[("a", "numberNode")]);
    let r = engine.add_node("a".to_string(), "ifNode".to_string(), vec![]);
    assert_eq!(r, Err(EngineError::InvalidOperation));
    assert_eq!(engine.node("a").unwrap().node_type, "numberNode");
    let r = engine.add_node("a".to_string(), "squareRootNode".to_string(), vec![]);
    assert_eq!(r, Err(EngineError::InvalidOperation));
}

#[test]
fn edge_is_recorded_on_both_ends() {
    let mut engine = engine_with(&[("a", "numberNode"), ("b", "additionNode")]);
    let dirty = engine.add_edge("a".to_string(), 0, "b".to_string(), 1).unwrap();
    assert_eq!(dirty, names(&["b"]));
    assert_eq!(outputs_of(&engine, "a", 0), vec![("b".to_string(), 1)]);
    assert_eq!(inputs_of(&engine, "b", 1), vec![("a".to_string(), 0)]);
    assert!(inputs_of(&engine, "b", 0).is_empty());
    assert!(inputs_of(&engine, "a", 0).is_empty());
    assert!(outputs_of(&engine, "b", 0).is_empty());
}

#[test]
fn every_record_has_exactly_one_counterpart_after_a_sequence_of_edits() {
    let mut engine =
        engine_with(&[("a", "numberNode"), ("b", "additionNode"), ("c", "additionNode")]);
    engine.add_edge("a".to_string(), 0, "b".to_string(), 0).unwrap();
    engine.add_edge("a".to_string(), 0, "b".to_string(), 0).unwrap();
    engine.add_edge("a".to_string(), 0, "b".to_string(), 1).unwrap();
    engine.add_edge("a".to_string(), 0, "c".to_string(), 0).unwrap();
    engine.add_edge("b".to_string(), 0, "c".to_string(), 1).unwrap();
    engine.add_edge("b".to_string(), 0, "c".to_string(), 1).unwrap();
    engine.remove_edge("a".to_string(), 0, "b".to_string(), 1).unwrap();
    engine.remove_edge("a".to_string(), 0, "c".to_string(), 1).unwrap();
    engine.add_edge("a".to_string(), 0, "b".to_string(), 0).unwrap();
    let ids = ["a", "b", "c"];
    for source in ids {
        let from = engine.node(source).unwrap();
        for (out, socket) in from.outputs.iter().enumerate() {
            for link in socket {
                let forward = socket
                    .iter()
                    .filter(|l| l.id == link.id && l.input_index == link.input_index)
                    .count();
                let to = engine.node(&link.id).unwrap();
                let backward = to.inputs[link.input_index]
                    .iter()
                    .filter(|l| l.id == source && l.output_index == out)
                    .count();
                assert_eq!(forward, 1);
                assert_eq!(backward, 1);
            }
        }
        for (inp, socket) in from.inputs.iter().enumerate() {
            for link in socket {
                let backward = socket
                    .iter()
                    .filter(|l| l.id == link.id && l.output_index == link.output_index)
                    .count();
                let other = engine.node(&link.id).unwrap();
                let forward = other.outputs[link.output_index]
                    .iter()
                    .filter(|l| l.id == source && l.input_index == inp)
                    .count();
                assert_eq!(backward, 1);
                assert_eq!(forward, 1);
            }
        }
    }
    assert_eq!(outputs_of(&engine, "a", 0), vec![("b".to_string(), 0), ("c".to_string(), 0)]);
    assert_eq!(inputs_of(&engine, "b", 0), vec![("a".to_string(), 0)]);
    assert!(inputs_of(&engine, "b", 1).is_empty());
    assert_eq!(inputs_of(&engine, "c", 0), vec![("a".to_string(), 0)]);
    assert_eq!(inputs_of(&engine, "c", 1), vec![("b".to_string(), 0)]);
}

#[test]
fn edge_added_again_is_accepted_and_recorded_once() {
    let mut engine =
        engine_with(&[("a", "numberNode"), ("b", "additionNode"), ("c", "outputNode")]);
    engine.add_edge("b".to_string(), 0, "c".to_string(), 0).unwrap();
    let first = engine.add_edge("a".to_string(), 0, "b".to_string(), 1).unwrap();
    let second = engine.add_edge("a".to_string(), 0, "b".to_string(), 1).unwrap();
    assert_eq!(sorted(first), names(&["b", "c"]));
    assert_eq!(sorted(second), names(&["b", "c"]));
    assert_eq!(outputs_of(&engine, "a", 0), vec![("b".to_string(), 1)]);
    assert_eq!(inputs_of(&engine, "b", 1), vec![("a".to_string(), 0)]);
    engine.add_edge("a".to_string(), 0, "b".to_string(), 0).unwrap();
    assert_eq!(outputs_of(&engine, "a", 0), vec![("b".to_string(), 1), ("b".to_string(), 0)]);
    engine.remove_edge("a".to_string(), 0, "b".to_string(), 1).unwrap();
    assert_eq!(outputs_of(&engine, "a", 0), vec![("b".to_string(), 0)]);
    assert!(inputs_of(&engine, "b", 1).is_empty());
    assert_eq!(inputs_of(&engine, "b", 0), vec![("a".to_string(), 0)]);
}

#[test]
fn self_loop_is_refused_whatever_the_graph_holds() {
    let mut engine = engine_with(&[("x", "additionNode")]);
    let r = engine.add_edge("x".to_string(), 0, "x".to_string(), 0);
    assert_eq!(r, Err(EngineError::InvalidOperation));
    assert!(outputs_of(&engine, "x", 0).is_empty());
    assert!(inputs_of(&engine, "x", 0).is_empty());
    let r = engine.add_edge("ghost".to_string(), 0, "ghost".to_string(), 0);
    assert_eq!(r, Err(EngineError::InvalidOperation));
    let r = engine.add_edge("x".to_string(), 5, "x".to_string(), 9);
    assert_eq!(r, Err(EngineError::InvalidOperation));
    let mut empty = GraphEngine::new(NoArithmetic);
    let r = empty.add_edge("x".to_string(), 0, "x".to_string(), 0);
    assert_eq!(r, Err(EngineError::InvalidOperation));
}

#[test]
fn edge_between_missing_nodes_is_refused() {
    let mut engine = engine_with(&[("a", "numberNode"), ("b", "additionNode")]);
    let r = engine.add_edge("nope".to_string(), 0, "b".to_string(), 0);
    assert_eq!(r, Err(EngineError::NotFound("nope".to_string())));
    let r = engine.add_edge("a".to_string(), 0, "gone".to_string(), 0);
    assert_eq!(r, Err(EngineError::NotFound("gone".to_string())));
    let r = engine.add_edge("nope".to_string(), 0, "gone".to_string(), 0);
    assert_eq!(r, Err(EngineError::NotFound("nope".to_string())));
    assert!(outputs_of(&engine, "a", 0).is_empty());
}

#[test]
fn edge_with_a_socket_out_of_range_is_refused_and_leaves_no_record() {
    let mut engine = engine_with(&[("a", "numberNode"), ("b", "additionNode")]);
    let r = engine.add_edge("a".to_string(), 1, "b".to_string(), 0);
    assert_eq!(r, Err(EngineError::InvalidIndex { output: true }));
    let r = engine.add_edge("a".to_string(), 0, "b".to_string(), 2);
    assert_eq!(r, Err(EngineError::InvalidIndex { output: false }));
    let r = engine.add_edge("a".to_string(), 1, "b".to_string(), 2);
    assert_eq!(r, Err(EngineError::InvalidIndex { output: true }));
    assert!(outputs_of(&engine, "a", 0).is_empty());
    assert!(inputs_of(&engine, "b", 0).is_empty());
    assert!(inputs_of(&engine, "b", 1).is_empty());
    engine.add_node("o".to_string(), "outputNode".to_string(), vec![]).unwrap();
    let r = engine.add_edge("o".to_string(), 0, "b".to_string(), 0);
    assert_eq!(r, Err(EngineError::InvalidIndex { output: true }));
}

#[test]
fn new_edge_dirties_its_target_and_what_follows() {
    let mut engine = engine_with(&[
        ("a", "numberNode"),
        ("b", "additionNode"),
        ("c", "additionNode"),
        ("d", "numberNode"),
    ]);
    engine.add_edge("b".to_string(), 0, "c".to_string(), 0).unwrap();
    let dirty = engine.add_edge("a".to_string(), 0, "b".to_string(), 0).unwrap();
    assert_eq!(sorted(dirty), names(&["b", "c"]));
}

#[test]
fn removing_an_edge_twice_gives_the_same_both_times() {
    let mut engine =
        engine_with(&[("a", "numberNode"), ("b", "additionNode"), ("c", "outputNode")]);
    engine.add_edge("a".to_string(), 0, "b".to_string(), 0).unwrap();
    engine.add_edge("b".to_string(), 0, "c".to_string(), 0).unwrap();
    let first = engine.remove_edge("a".to_string(), 0, "b".to_string(), 0).unwrap();
    assert_eq!(sorted(first.clone()), names(&["b", "c"]));
    assert!(outputs_of(&engine, "a", 0).is_empty());
    assert!(inputs_of(&engine, "b", 0).is_empty());
    let second = engine.remove_edge("a".to_string(), 0, "b".to_string(), 0).unwrap();
    assert_eq!(second, first);
    assert!(outputs_of(&engine, "a", 0).is_empty());
    assert!(inputs_of(&engine, "b", 0).is_empty());
    assert_eq!(outputs_of(&engine, "b", 0), vec![("c".to_string(), 0)]);
}

#[test]
fn removing_an_edge_from_a_node_to_itself_does_nothing() {
    let mut engine = engine_with(&[("a", "additionNode")]);
    let first = engine.remove_edge("a".to_string(), 0, "a".to_string(), 0).unwrap();
    assert!(first.is_empty());
    let second = engine.remove_edge("a".to_string(), 0, "a".to_string(), 0).unwrap();
    assert!(second.is_empty());
    let missing = engine.remove_edge("ghost".to_string(), 0, "ghost".to_string(), 0).unwrap();
    assert!(missing.is_empty());
}

#[test]
fn removing_an_edge_takes_its_record_and_no_other() {
    let mut engine = engine_with(&[("a", "numberNode"), ("b", "additionNode")]);
    engine.add_edge("a".to_string(), 0, "b".to_string(), 0).unwrap();
    engine.add_edge("a".to_string(), 0, "b".to_string(), 1).unwrap();
    engine.add_edge("a".to_string(), 0, "b".to_string(), 0).unwrap();
    assert_eq!(outputs_of(&engine, "a", 0), vec![("b".to_string(), 0), ("b".to_string(), 1)]);
    engine.remove_edge("a".to_string(), 0, "b".to_string(), 0).unwrap();
    assert_eq!(outputs_of(&engine, "a", 0), vec![("b".to_string(), 1)]);
    assert!(inputs_of(&engine, "b", 0).is_empty());
    assert_eq!(inputs_of(&engine, "b", 1), vec![("a".to_string(), 0)]);
}

#[test]
fn removing_an_edge_that_is_not_there_is_no_failure() {
    let mut engine = engine_with(&[("a", "numberNode"), ("b", "additionNode")]);
    engine.add_edge("a".to_string(), 0, "b".to_string(), 1).unwrap();
    let dirty = engine.remove_edge("a".to_string(), 0, "b".to_string(), 0).unwrap();
    assert_eq!(dirty, names(&["b"]));
    let dirty = engine.remove_edge("a".to_string(), 7, "b".to_string(), 9).unwrap();
    assert_eq!(dirty, names(&["b"]));
    assert_eq!(outputs_of(&engine, "a", 0), vec![("b".to_string(), 1)]);
    assert_eq!(inputs_of(&engine, "b", 1), vec![("a".to_string(), 0)]);
}

#[test]
fn removing_an_edge_between_missing_nodes_is_refused() {
    let mut engine = engine_with(&[("a", "numberNode"), ("b", "additionNode")]);
    engine.add_edge("a".to_string(), 0, "b".to_string(), 0).unwrap();
    let r = engine.remove_edge("nope".to_string(), 0, "b".to_string(), 0);
    assert_eq!(r, Err(EngineError::NotFound("nope".to_string())));
    let r = engine.remove_edge("a".to_string(), 0, "gone".to_string(), 0);
    assert_eq!(r, Err(EngineError::NotFound("gone".to_string())));
    assert_eq!(outputs_of(&engine, "a", 0), vec![("b".to_string(), 0)]);
}

#[test]
fn new_data_dirties_the_whole_chain() {
    let mut engine = engine_with(&[
        ("a", "numberNode"),
        ("b", "additionNode"),
        ("c", "additionNode"),
        ("z", "numberNode"),
    ]);
    engine.add_edge("a".to_string(), 0, "b".to_string(), 0).unwrap();
    engine.add_edge("b".to_string(), 0, "c".to_string(), 0).unwrap();
    engine.add_edge("z".to_string(), 0, "c".to_string(), 1).unwrap();
    let dirty = engine.update_node_data("a", vec![Value::from(4)]).unwrap();
    assert_eq!(sorted(dirty), names(&["a", "b", "c"]));
    assert_eq!(engine.node("a").unwrap().data, vec![Value::from(4)]);
    let dirty = engine.update_node_data("c", vec![]).unwrap();
    assert_eq!(dirty, names(&["c"]));
}

#[test]
fn dirty_identifiers_come_once_each() {
    let mut engine = engine_with(&[
        ("a", "numberNode"),
        ("l", "additionNode"),
        ("r", "additionNode"),
        ("j", "additionNode"),
    ]);
    engine.add_edge("a".to_string(), 0, "l".to_string(), 0).unwrap();
    engine.add_edge("a".to_string(), 0, "r".to_string(), 0).unwrap();
    engine.add_edge("l".to_string(), 0, "j".to_string(), 0).unwrap();
    engine.add_edge("r".to_string(), 0, "j".to_string(), 1).unwrap();
    let dirty = engine.update_node_data("a", vec![Value::from(1)]).unwrap();
    assert_eq!(sorted(dirty), names(&["a", "j", "l", "r"]));
}

#[test]
fn new_data_for_a_missing_node_changes_nothing() {
    let mut engine = engine_with(&[("a", "numberNode")]);
    let dirty = engine.update_node_data("ghost", vec![Value::from(1)]).unwrap();
    assert!(dirty.is_empty());
    assert!(engine.node("ghost").is_none());
    assert!(engine.node("a").unwrap().data.is_empty());
}

#[test]
fn removed_node_names_its_direct_consumers_only() {
    let mut engine = engine_with(&[
        ("a", "numberNode"),
        ("b", "additionNode"),
        ("c", "additionNode"),
        ("s", "numberNode"),
    ]);
    engine.add_edge("a".to_string(), 0, "b".to_string(), 0).unwrap();
    engine.add_edge("a".to_string(), 0, "b".to_string(), 1).unwrap();
    engine.add_edge("b".to_string(), 0, "c".to_string(), 0).unwrap();
    engine.add_edge("s".to_string(), 0, "c".to_string(), 1).unwrap();
    let dirty = engine.remove_node("b").unwrap();
    assert_eq!(dirty, names(&["c"]));
    assert!(engine.node("b").is_none());
    assert!(outputs_of(&engine, "a", 0).is_empty());
    assert!(inputs_of(&engine, "c", 0).is_empty());
    assert_eq!(inputs_of(&engine, "c", 1), vec![("s".to_string(), 0)]);
    assert_eq!(outputs_of(&engine, "s", 0), vec![("c".to_string(), 1)]);
    let dirty = engine.remove_node("a").unwrap();
    assert!(dirty.is_empty());
}

#[test]
fn consumer_on_two_sockets_is_named_once() {
    let mut engine = engine_with(&[("a", "numberNode"), ("b", "additionNode")]);
    engine.add_edge("a".to_string(), 0, "b".to_string(), 0).unwrap();
    engine.add_edge("a".to_string(), 0, "b".to_string(), 1).unwrap();
    let dirty = engine.remove_node("a").unwrap();
    assert_eq!(dirty, names(&["b"]));
    assert!(inputs_of(&engine, "b", 0).is_empty());
    assert!(inputs_of(&engine, "b", 1).is_empty());
}

#[test]
fn removing_a_missing_node_is_refused() {
    let mut engine = engine_with(&[("a", "numberNode")]);
    let r = engine.remove_node("ghost");
    assert_eq!(r, Err(EngineError::NotFound("ghost".to_string())));
    assert!(engine.node("a").is_some());
    engine.remove_node("a").unwrap();
    let r = engine.remove_node("a");
    assert_eq!(r, Err(EngineError::NotFound("a".to_string())));
    engine.add_node("a".to_string(), "ifNode".to_string(), vec![]).unwrap();
    assert_eq!(engine.node("a").unwrap().node_type, "ifNode");
}
