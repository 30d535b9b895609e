use graph_engine::{Arithmetic, EngineError, GraphEngine, NodeCache, Operation};
use serde_json::Value;
use std::cell::Cell;
use std::rc::Rc;

/// Floating-point arithmetic as a host supplies it. It counts its calls and
/// can be told to fail on one operation.
struct Floats {
    calls: Rc<Cell<usize>>,
    failing: Option<Operation>,
}

fn number(v: Option<&Value>) -> f64 {
    v.and_then(|v| v.as_f64()).unwrap_or(0.0)
}

impl Arithmetic for Floats {
    fn answer(
        &self,
        operation: Operation,
        left: Option<Value>,
        right: Option<Value>,
    ) -> Result<Value, String> {
        if self.failing == Some(operation) {
            return Err("no such number".to_string());
        }
        let a = number(left.as_ref());
        let b = number(right.as_ref());
        Ok(match operation {
            Operation::Add => Value::from(a + b),
            Operation::Subtract => Value::from(a - b),
            Operation::Multiply => Value::from(a * b),
            Operation::Divide => {
                if b == 0.0 {
                    Value::from(0.0)
                } else {
                    Value::from(a / b)
                }
            }
        })
    }

    fn apply(
        &self,
        operation: Operation,
        left: Option<&Value>,
        right: Option<&Value>,
    ) -> Result<Value, String> {
        self.calls.set(self.calls.get() + 1);
        self.answer(operation, left.cloned(), right.cloned())
    }
}

fn engine() -> GraphEngine<Floats> {
    GraphEngine::new(Floats { calls: Rc::new(Cell::new(0)), failing: None })
}

fn counting(calls: Rc<Cell<usize>>) -> GraphEngine<Floats> {
    GraphEngine::new(Floats { calls, failing: None })
}

fn node(engine: &mut GraphEngine<Floats>, id: &str, kind: &str, data: Vec<Value>) {
    engine.add_node(id.to_string(), kind.to_string(), data).unwrap();
}

fn edge(engine: &mut GraphEngine<Floats>, source: &str, target: &str, input: usize) {
    engine.add_edge(source.to_string(), 0, target.to_string(), input).unwrap();
}

fn entry<'a>(trace: &'a [(String, NodeCache)], id: &str) -> &'a NodeCache {
    let found: Vec<&(String, NodeCache)> = trace.iter().filter(|e| e.0 == id).collect();
    assert_eq!(found.len(), 1);
    &found[0].1
}

fn output(engine: &mut GraphEngine<Floats>, id: &str) -> Value {
    let trace = engine.evaluate_node(id).unwrap();
    let shown = entry(&trace, id);
    assert_eq!(shown.outputs.len(), 1);
    shown.outputs[0].clone()
}

fn sorted(mut ids: Vec<String>) -> Vec<String> {
    ids.sort();
    ids
}

fn names(ids: &[&str]) -> Vec<String> {
    ids.iter().map(|s| s.to_string()).collect()
}

/// n1 = 5, n2 = 3, n3 = n1 + n2.
fn sum_graph(calls: Rc<Cell<usize>>) -> GraphEngine<Floats> {
    let mut engine = counting(calls);
    node(&mut engine, "n1", "numberNode", vec![Value::from(5)]);
    node(&mut engine, "n2", "numberNode", vec![Value::from(3)]);
    node(&mut engine, "n3", "additionNode", vec![Value::from(0), Value::from(0)]);
    edge(&mut engine, "n1", "n3", 0);
    edge(&mut engine, "n2", "n3", 1);
    engine
}

#[test]
fn sum_of_two_numbers_is_evaluated() {
    let mut engine = sum_graph(Rc::new(Cell::new(0)));
    let trace = engine.evaluate_node("n3").unwrap();
    assert_eq!(trace.len(), 3);
    let n3 = entry(&trace, "n3");
    assert_eq!(n3.outputs, vec![Value::from(8.0)]);
    assert_eq!(n3.inputs, vec![Some(Value::from(5)), Some(Value::from(3))]);
    let n1 = entry(&trace, "n1");
    assert_eq!(n1.outputs, vec![Value::from(5)]);
    assert_eq!(n1.inputs, vec![None]);
    assert_eq!(entry(&trace, "n2").outputs, vec![Value::from(3)]);
    assert_eq!(engine.cached("n3"), Some(&Value::from(8.0)));
    assert_eq!(engine.cached("n1"), Some(&Value::from(5)));
}

#[test]
fn changed_data_is_reflected_after_reevaluation() {
    let mut engine = sum_graph(Rc::new(Cell::new(0)));
    engine.evaluate_node("n3").unwrap();
    let dirty = engine.update_node_data("n1", vec![Value::from(10)]).unwrap();
    assert_eq!(sorted(dirty), names(&["n1", "n3"]));
    assert!(engine.cached("n1").is_none());
    assert!(engine.cached("n3").is_none());
    assert_eq!(engine.cached("n2"), Some(&Value::from(3)));
    assert_eq!(output(&mut engine, "n3"), Value::from(13.0));
}

#[test]
fn change_at_the_head_of_a_chain_reaches_its_end() {
    let mut engine = engine();
    node(&mut engine, "a", "numberNode", vec![Value::from(1)]);
    node(&mut engine, "b", "additionNode", vec![Value::from(0), Value::from(10)]);
    node(&mut engine, "c", "multiplicationNode", vec![Value::from(0), Value::from(2)]);
    edge(&mut engine, "a", "b", 0);
    edge(&mut engine, "b", "c", 0);
    assert_eq!(output(&mut engine, "c"), Value::from(22.0));
    let dirty = engine.update_node_data("a", vec![Value::from(5)]).unwrap();
    assert_eq!(sorted(dirty), names(&["a", "b", "c"]));
    assert!(engine.cached("a").is_none());
    assert!(engine.cached("b").is_none());
    assert!(engine.cached("c").is_none());
    assert_eq!(output(&mut engine, "c"), Value::from(30.0));
}

#[test]
fn division_by_zero_yields_zero() {
    let mut engine = engine();
    node(&mut engine, "d", "divisionNode", vec![Value::from(10), Value::from(0)]);
    let trace = engine.evaluate_node("d").unwrap();
    assert_eq!(entry(&trace, "d").outputs, vec![Value::from(0.0)]);
    assert_eq!(entry(&trace, "d").inputs, vec![None, None]);
}

#[test]
fn arriving_values_go_before_data() {
    let mut engine = engine();
    node(&mut engine, "a", "numberNode", vec![Value::from(10)]);
    node(&mut engine, "b", "numberNode", vec![Value::from(4)]);
    node(&mut engine, "d", "divisionNode", vec![Value::from(1), Value::from(1)]);
    node(&mut engine, "s", "subractionNode", vec![Value::from(100), Value::from(1)]);
    edge(&mut engine, "a", "d", 0);
    edge(&mut engine, "b", "d", 1);
    edge(&mut engine, "b", "s", 1);
    assert_eq!(output(&mut engine, "d"), Value::from(2.5));
    assert_eq!(output(&mut engine, "s"), Value::from(96.0));
}

#[test]
fn operand_without_value_or_data_counts_as_missing() {
    let mut engine = engine();
    node(&mut engine, "m", "multiplicationNode", vec![Value::from(6)]);
    node(&mut engine, "s", "subractionNode", vec![]);
    assert_eq!(output(&mut engine, "m"), Value::from(0.0));
    assert_eq!(output(&mut engine, "s"), Value::from(0.0));
}

#[test]
fn removing_a_source_dirties_its_consumer_and_falls_back_to_data() {
    let mut engine = sum_graph(Rc::new(Cell::new(0)));
    engine.evaluate_node("n3").unwrap();
    let dirty = engine.remove_node("n1").unwrap();
    assert_eq!(dirty, names(&["n3"]));
    assert!(engine.node("n1").is_none());
    assert!(engine.cached("n1").is_none());
    assert!(engine.cached("n3").is_none());
    assert!(engine.node("n3").unwrap().inputs[0].is_empty());
    assert_eq!(engine.node("n3").unwrap().inputs[1].len(), 1);
    let trace = engine.evaluate_node("n3").unwrap();
    assert_eq!(trace.len(), 2);
    assert_eq!(entry(&trace, "n3").outputs, vec![Value::from(3.0)]);
    assert_eq!(entry(&trace, "n3").inputs, vec![None, Some(Value::from(3))]);
    assert_eq!(
        engine.evaluate_node("n1").err(),
        Some(EngineError::NotFound("n1".to_string()))
    );
}

#[test]
fn removing_a_node_empties_the_cache_further_down() {
    let mut engine = engine();
    node(&mut engine, "a", "numberNode", vec![Value::from(1)]);
    node(&mut engine, "b", "additionNode", vec![Value::from(0), Value::from(1)]);
    node(&mut engine, "c", "additionNode", vec![Value::from(0), Value::from(1)]);
    edge(&mut engine, "a", "b", 0);
    edge(&mut engine, "b", "c", 0);
    assert_eq!(output(&mut engine, "c"), Value::from(3.0));
    let dirty = engine.remove_node("a").unwrap();
    assert_eq!(dirty, names(&["b"]));
    assert!(engine.cached("b").is_none());
    assert!(engine.cached("c").is_none());
    assert_eq!(output(&mut engine, "c"), Value::from(2.0));
}

#[test]
fn second_evaluation_computes_nothing_and_shows_the_same() {
    let calls = Rc::new(Cell::new(0));
    let mut engine = sum_graph(calls.clone());
    let first = engine.evaluate_node("n3").unwrap();
    assert_eq!(calls.get(), 1);
    let second = engine.evaluate_node("n3").unwrap();
    assert_eq!(calls.get(), 1);
    assert_eq!(first.len(), second.len());
    for (id, shown) in &first {
        let again = entry(&second, id);
        assert_eq!(shown.inputs, again.inputs);
        assert_eq!(shown.outputs, again.outputs);
    }
    assert_eq!(engine.cached("n3"), Some(&Value::from(8.0)));
}

#[test]
fn unrelated_edit_leaves_the_cache_alone() {
    let calls = Rc::new(Cell::new(0));
    let mut engine = sum_graph(calls.clone());
    engine.evaluate_node("n3").unwrap();
    node(&mut engine, "other", "numberNode", vec![Value::from(1)]);
    node(&mut engine, "sink", "outputNode", vec![]);
    edge(&mut engine, "other", "sink", 0);
    engine.update_node_data("other", vec![Value::from(2)]).unwrap();
    assert_eq!(engine.cached("n3"), Some(&Value::from(8.0)));
    assert_eq!(output(&mut engine, "n3"), Value::from(8.0));
    assert_eq!(calls.get(), 1);
}

#[test]
fn shared_source_is_computed_once() {
    let calls = Rc::new(Cell::new(0));
    let mut engine = counting(calls.clone());
    node(&mut engine, "x", "additionNode", vec![Value::from(1), Value::from(2)]);
    node(&mut engine, "l", "multiplicationNode", vec![Value::from(0), Value::from(2)]);
    node(&mut engine, "r", "multiplicationNode", vec![Value::from(0), Value::from(3)]);
    node(&mut engine, "j", "subractionNode", vec![]);
    edge(&mut engine, "x", "l", 0);
    edge(&mut engine, "x", "r", 0);
    edge(&mut engine, "l", "j", 0);
    edge(&mut engine, "r", "j", 1);
    let trace = engine.evaluate_node("j").unwrap();
    assert_eq!(calls.get(), 4);
    assert_eq!(trace.len(), 4);
    assert_eq!(entry(&trace, "j").outputs, vec![Value::from(-3.0)]);
    assert_eq!(entry(&trace, "j").inputs, vec![Some(Value::from(6.0)), Some(Value::from(9.0))]);
    assert_eq!(entry(&trace, "x").outputs, vec![Value::from(3.0)]);
}

#[test]
fn trace_shows_the_first_value_on_each_socket() {
    let mut engine = engine();
    node(&mut engine, "a", "numberNode", vec![Value::from(1)]);
    node(&mut engine, "b", "numberNode", vec![Value::from(2)]);
    node(&mut engine, "o", "outputNode", vec![]);
    edge(&mut engine, "a", "o", 0);
    edge(&mut engine, "b", "o", 0);
    let trace = engine.evaluate_node("o").unwrap();
    assert_eq!(trace.len(), 3);
    assert_eq!(entry(&trace, "o").inputs, vec![Some(Value::from(1))]);
    assert_eq!(entry(&trace, "o").outputs, vec![Value::from(1)]);
}

#[test]
fn edge_added_again_empties_the_cache_of_its_target() {
    let calls = Rc::new(Cell::new(0));
    let mut engine = sum_graph(calls.clone());
    engine.evaluate_node("n3").unwrap();
    let dirty = engine.add_edge("n1".to_string(), 0, "n3".to_string(), 0).unwrap();
    assert_eq!(dirty, names(&["n3"]));
    assert!(engine.cached("n3").is_none());
    assert_eq!(engine.cached("n1"), Some(&Value::from(5)));
    assert_eq!(engine.node("n3").unwrap().inputs[0].len(), 1);
    assert_eq!(output(&mut engine, "n3"), Value::from(8.0));
    assert_eq!(calls.get(), 2);
}

#[test]
fn engine_without_arithmetic_refuses_numeric_nodes_only() {
    let mut engine = GraphEngine::new(graph_engine::NoArithmetic);
    engine.add_node("s".to_string(), "stringNode".to_string(), vec![Value::from("t")]).unwrap();
    engine.add_node("j".to_string(), "additionNode".to_string(), vec![]).unwrap();
    engine.add_node("m".to_string(), "multiplicationNode".to_string(), vec![]).unwrap();
    engine.add_edge("s".to_string(), 0, "j".to_string(), 0).unwrap();
    let trace = engine.evaluate_node("j").unwrap();
    assert_eq!(entry(&trace, "j").outputs, vec![Value::from("t0")]);
    assert_eq!(
        engine.evaluate_node("m").err(),
        Some(EngineError::ComputeError("no arithmetic".to_string()))
    );
}

#[test]
fn evaluating_a_missing_node_is_refused() {
    let mut engine = engine();
    assert_eq!(
        engine.evaluate_node("ghost").err(),
        Some(EngineError::NotFound("ghost".to_string()))
    );
}

#[test]
fn dependency_on_itself_is_reported() {
    let mut engine = engine();
    node(&mut engine, "a", "additionNode", vec![]);
    node(&mut engine, "b", "additionNode", vec![]);
    node(&mut engine, "c", "numberNode", vec![Value::from(1)]);
    edge(&mut engine, "a", "b", 0);
    edge(&mut engine, "b", "a", 0);
    edge(&mut engine, "c", "a", 1);
    assert_eq!(engine.evaluate_node("a").err(), Some(EngineError::CyclicDependency));
    assert_eq!(engine.evaluate_node("b").err(), Some(EngineError::CyclicDependency));
    assert!(engine.cached("a").is_none());
    assert!(engine.cached("b").is_none());
    assert_eq!(output(&mut engine, "c"), Value::from(1));
    let dirty = engine.update_node_data("a", vec![]).unwrap();
    assert_eq!(sorted(dirty), names(&["a", "b"]));
    engine.remove_edge("b".to_string(), 0, "a".to_string(), 0).unwrap();
    assert_eq!(output(&mut engine, "b"), Value::from(1.0));
}

#[test]
fn long_chain_is_evaluated() {
    let mut engine = engine();
    node(&mut engine, "n0", "numberNode", vec![Value::from(1)]);
    for i in 1..40 {
        let id = format!("n{}", i);
        node(&mut engine, &id, "additionNode", vec![Value::from(0), Value::from(1)]);
        edge(&mut engine, &format!("n{}", i - 1), &id, 0);
    }
    assert_eq!(output(&mut engine, "n39"), Value::from(40.0));
}

#[test]
fn failure_of_the_arithmetic_is_passed_on_and_not_cached() {
    let calls = Rc::new(Cell::new(0));
    let mut engine =
        GraphEngine::new(Floats { calls: calls.clone(), failing: Some(Operation::Divide) });
    node(&mut engine, "a", "additionNode", vec![Value::from(1), Value::from(2)]);
    node(&mut engine, "d", "divisionNode", vec![Value::from(0), Value::from(2)]);
    node(&mut engine, "o", "outputNode", vec![]);
    edge(&mut engine, "a", "d", 0);
    edge(&mut engine, "d", "o", 0);
    assert_eq!(
        engine.evaluate_node("o").err(),
        Some(EngineError::ComputeError("no such number".to_string()))
    );
    assert_eq!(engine.cached("a"), Some(&Value::from(3.0)));
    assert!(engine.cached("d").is_none());
    assert!(engine.cached("o").is_none());
    assert_eq!(calls.get(), 2);
    assert!(engine.evaluate_node("o").is_err());
    assert_eq!(calls.get(), 3);
}

#[test]
fn constants_come_from_data_or_from_their_defaults() {
    let mut engine = engine();
    node(&mut engine, "b", "booleanNode", vec![Value::Bool(true)]);
    node(&mut engine, "b0", "booleanNode", vec![]);
    node(&mut engine, "n", "numberNode", vec![Value::from(2.5), Value::from(9)]);
    node(&mut engine, "n0", "numberNode", vec![]);
    node(&mut engine, "s", "stringNode", vec![Value::from("text")]);
    node(&mut engine, "s0", "stringNode", vec![]);
    assert_eq!(output(&mut engine, "b"), Value::Bool(true));
    assert_eq!(output(&mut engine, "b0"), Value::Bool(false));
    assert_eq!(output(&mut engine, "n"), Value::from(2.5));
    assert_eq!(output(&mut engine, "n0"), Value::from(0));
    assert_eq!(output(&mut engine, "s"), Value::from("text"));
    assert_eq!(output(&mut engine, "s0"), Value::from(""));
}

#[test]
fn constant_ignores_what_arrives_on_its_input() {
    let mut engine = engine();
    node(&mut engine, "a", "numberNode", vec![Value::from(1)]);
    node(&mut engine, "n", "numberNode", vec![Value::from(7)]);
    edge(&mut engine, "a", "n", 0);
    let trace = engine.evaluate_node("n").unwrap();
    assert_eq!(entry(&trace, "n").outputs, vec![Value::from(7)]);
    assert_eq!(entry(&trace, "n").inputs, vec![Some(Value::from(1))]);
}

#[test]
fn addition_joins_text() {
    let calls = Rc::new(Cell::new(0));
    let mut engine = counting(calls.clone());
    node(&mut engine, "t", "additionNode", vec![Value::from("a"), Value::from(1)]);
    node(&mut engine, "u", "additionNode", vec![Value::from(1.5), Value::from("b")]);
    node(&mut engine, "v", "additionNode", vec![Value::from("x"), Value::from("y")]);
    node(&mut engine, "w", "additionNode", vec![Value::from("only")]);
    node(&mut engine, "n", "additionNode", vec![Value::Null, Value::from("!")]);
    node(&mut engine, "q", "additionNode", vec![Value::from("say \"hi\""), Value::Bool(true)]);
    assert_eq!(output(&mut engine, "t"), Value::from("a1"));
    assert_eq!(output(&mut engine, "u"), Value::from("1.5b"));
    assert_eq!(output(&mut engine, "v"), Value::from("xy"));
    assert_eq!(output(&mut engine, "w"), Value::from("only0"));
    assert_eq!(output(&mut engine, "n"), Value::from("null!"));
    assert_eq!(output(&mut engine, "q"), Value::from("say \"hi\"true"));
    assert_eq!(calls.get(), 0);
}

#[test]
fn addition_of_text_that_arrives() {
    let mut engine = engine();
    node(&mut engine, "s", "stringNode", vec![Value::from("left")]);
    node(&mut engine, "t", "additionNode", vec![Value::from(1), Value::from(2)]);
    edge(&mut engine, "s", "t", 0);
    assert_eq!(output(&mut engine, "t"), Value::from("left2"));
}

#[test]
fn comparison_tells_equal_from_unequal() {
    let mut engine = engine();
    node(&mut engine, "same", "comparisonNode", vec![Value::from(2), Value::from(2)]);
    node(&mut engine, "other", "comparisonNode", vec![Value::from(2), Value::from(3)]);
    node(&mut engine, "kinds", "comparisonNode", vec![Value::from("2"), Value::from(2)]);
    node(&mut engine, "zero", "comparisonNode", vec![]);
    node(&mut engine, "half", "comparisonNode", vec![Value::from(0)]);
    node(&mut engine, "text", "comparisonNode", vec![Value::from("a"), Value::from("a")]);
    assert_eq!(output(&mut engine, "same"), Value::Bool(true));
    assert_eq!(output(&mut engine, "other"), Value::Bool(false));
    assert_eq!(output(&mut engine, "kinds"), Value::Bool(false));
    assert_eq!(output(&mut engine, "zero"), Value::Bool(true));
    assert_eq!(output(&mut engine, "half"), Value::Bool(true));
    assert_eq!(output(&mut engine, "text"), Value::Bool(true));
}

#[test]
fn condition_chooses_between_its_values() {
    let mut engine = engine();
    node(
        &mut engine,
        "yes",
        "ifNode",
        vec![Value::Bool(true), Value::from("then"), Value::from("else")],
    );
    node(
        &mut engine,
        "no",
        "ifNode",
        vec![Value::Bool(false), Value::from("then"), Value::from("else")],
    );
    node(&mut engine, "odd", "ifNode", vec![Value::from(1), Value::from("then"), Value::from(9)]);
    node(&mut engine, "short", "ifNode", vec![Value::Bool(true)]);
    node(&mut engine, "bare", "ifNode", vec![]);
    assert_eq!(output(&mut engine, "yes"), Value::from("then"));
    assert_eq!(output(&mut engine, "no"), Value::from("else"));
    assert_eq!(output(&mut engine, "odd"), Value::from(9));
    assert_eq!(output(&mut engine, "short"), Value::Null);
    assert_eq!(output(&mut engine, "bare"), Value::Null);
}

#[test]
fn condition_takes_what_arrives() {
    let mut engine = engine();
    node(&mut engine, "c", "booleanNode", vec![Value::Bool(true)]);
    node(&mut engine, "t", "numberNode", vec![Value::from(1)]);
    node(&mut engine, "i", "ifNode", vec![Value::Bool(false), Value::from(10), Value::from(20)]);
    edge(&mut engine, "c", "i", 0);
    edge(&mut engine, "t", "i", 1);
    assert_eq!(output(&mut engine, "i"), Value::from(1));
    engine.update_node_data("c", vec![Value::Bool(false)]).unwrap();
    assert_eq!(output(&mut engine, "i"), Value::from(20));
}

#[test]
fn output_node_passes_on_what_arrives_or_null() {
    let mut engine = engine();
    node(&mut engine, "idle", "outputNode", vec![Value::from("shown")]);
    node(&mut engine, "n", "numberNode", vec![Value::from(4)]);
    node(&mut engine, "o", "outputNode", vec![]);
    edge(&mut engine, "n", "o", 0);
    let trace = engine.evaluate_node("idle").unwrap();
    assert_eq!(entry(&trace, "idle").outputs, vec![Value::Null]);
    assert_eq!(entry(&trace, "idle").inputs, vec![None]);
    assert_eq!(output(&mut engine, "o"), Value::from(4));
    assert_eq!(engine.cached("o"), Some(&Value::from(4)));
}
