//! The computations of the node kinds.
//!
//! A node computes one value from the values that arrive on its input sockets
//! and from its local data; a data slot stands in for the input socket of the
//! same position while nothing arrives there. Most kinds only select, copy and
//! compare values. The numeric kinds need floating-point arithmetic, which the
//! library does not do itself: it decides which operands take part and hands
//! them to an [`Arithmetic`] that its host supplies.

use crate::definitions::{definition_of, lookup, registry_model, Logic, NodeDefinition};
use crate::error::{EngineError, Failure};
use crate::value::{
    as_bool, as_str, bool_value, int_value, json_text, null_value, str_value,
    value_as_bool, value_as_str, value_equal, value_is_null, value_json_text, value_of_bool,
    value_of_int, value_of_str, values_equal,
};
use serde_json::Value;
use vstd::prelude::*;
use vstd::string::StringExecFns;

verus! {

/// A binary operation on numbers.
#[derive(Clone, Copy, Debug, PartialEq, Eq, Structural)]
pub enum Operation {
    Add,
    Subtract,
    Multiply,
    Divide,
}

/// The operand that a reference hands over.
pub open spec fn held(operand: Option<&Value>) -> Option<Value> {
    match operand {
        Some(v) => Some(*v),
        None => None,
    }
}

/// Whether `r` is the answer `answer`: the same value, or a failure with the
/// same text.
pub open spec fn same_answer(answer: Result<Value, String>, r: Result<Value, String>) -> bool {
    match (answer, r) {
        (Ok(v), Ok(w)) => v == w,
        (Err(m), Err(n)) => m@ == n@,
        _ => false,
    }
}

/// Arithmetic on JSON numbers. It works in floating point, which the library
/// leaves to its host: the library chooses the operands and hands them over,
/// an operand that is missing as `None`, and takes the answer as it comes.
///
/// The arithmetic is a function: `answer` says what it gives for an operation
/// and two operands, and `apply` gives just that. The library relies on this
/// for every implementation; of implementations outside the library it is
/// not checked.
pub trait Arithmetic {
    spec fn answer(&self, operation: Operation, left: Option<Value>, right: Option<Value>) -> Result<
        Value,
        String,
    >;

    fn apply(&self, operation: Operation, left: Option<&Value>, right: Option<&Value>) -> (r:
        Result<Value, String>)
        ensures
            same_answer(self.answer(operation, held(left), held(right)), r),
    ;
}

/// The text with which [`NoArithmetic`] refuses.
pub open spec fn refusal() -> String {
    choose|message: String| (#[trigger] message@) == "no arithmetic"@
}

/// The arithmetic of an engine that computes no numbers: it refuses every
/// operation.
pub struct NoArithmetic;

impl Arithmetic for NoArithmetic {
    open spec fn answer(
        &self,
        operation: Operation,
        left: Option<Value>,
        right: Option<Value>,
    ) -> Result<Value, String> {
        Err(refusal())
    }

    fn apply(&self, operation: Operation, left: Option<&Value>, right: Option<&Value>) -> (r:
        Result<Value, String>) {
        let message = "no arithmetic".to_owned();
        assert(message@ == "no arithmetic"@);
        Err(message)
    }
}

/// What the logic of a node decides: the value of the node, or the operation
/// that the arithmetic is to carry out for it.
pub enum Plan {
    Done(Value),
    Ask { operation: Operation, left: Option<Value>, right: Option<Value> },
}

/// The values arriving on each input socket.
pub open spec fn arrivals(inputs: Seq<Vec<Value>>) -> Seq<Seq<Value>> {
    inputs.map_values(|socket: Vec<Value>| socket@)
}

/// Whether a value arrives on input socket `index`.
pub open spec fn arrives(inputs: Seq<Seq<Value>>, index: int) -> bool {
    0 <= index < inputs.len() && inputs[index].len() > 0
}

/// The operand at position `index`: the first value arriving on that input
/// socket; failing that, the data slot of that position; failing that, none.
pub open spec fn operand(inputs: Seq<Seq<Value>>, data: Seq<Value>, index: int) -> Option<Value> {
    if arrives(inputs, index) {
        Some(inputs[index][0])
    } else if 0 <= index < data.len() {
        Some(data[index])
    } else {
        None
    }
}

/// The operand at position `index`, or `default` where there is none.
pub open spec fn operand_or(
    inputs: Seq<Seq<Value>>,
    data: Seq<Value>,
    index: int,
    default: Value,
) -> Value {
    match operand(inputs, data, index) {
        Some(v) => v,
        None => default,
    }
}

/// The first data slot, or `default` where the node has no data.
pub open spec fn constant(data: Seq<Value>, default: Value) -> Value {
    if data.len() > 0 {
        data[0]
    } else {
        default
    }
}

/// The text that a value contributes to a concatenation: its content if it is
/// a string, its JSON text otherwise.
pub open spec fn text_of(v: Value) -> Seq<char> {
    match value_as_str(v) {
        Some(text) => text,
        None => value_json_text(v),
    }
}

/// Whether an addition of the two operands is a concatenation of text.
pub open spec fn concatenates(a: Value, b: Value) -> bool {
    value_as_str(a) is Some || value_as_str(b) is Some
}

/// Whether the condition of a conditional node holds.
pub open spec fn condition_holds(inputs: Seq<Seq<Value>>, data: Seq<Value>) -> bool {
    match operand(inputs, data, 0) {
        Some(v) => value_as_bool(v) == Some(true),
        None => false,
    }
}

/// What the logic asks of the arithmetic, where it asks anything: the
/// operation and its two operands.
pub open spec fn request(logic: Logic, inputs: Seq<Seq<Value>>, data: Seq<Value>) -> Option<
    (Operation, Option<Value>, Option<Value>),
> {
    match logic {
        Logic::Addition => {
            let a = operand_or(inputs, data, 0, value_of_int(0));
            let b = operand_or(inputs, data, 1, value_of_int(0));
            if concatenates(a, b) {
                None
            } else {
                Some((Operation::Add, Some(a), Some(b)))
            }
        },
        Logic::Subtraction => Some(
            (Operation::Subtract, operand(inputs, data, 0), operand(inputs, data, 1)),
        ),
        Logic::Multiplication => Some(
            (Operation::Multiply, operand(inputs, data, 0), operand(inputs, data, 1)),
        ),
        Logic::Division => Some(
            (Operation::Divide, operand(inputs, data, 0), operand(inputs, data, 1)),
        ),
        _ => None,
    }
}

/// Whether `result` is the value that the logic gives a node by itself, for
/// the kinds and operands that need no arithmetic.
pub open spec fn computes(
    logic: Logic,
    inputs: Seq<Seq<Value>>,
    data: Seq<Value>,
    result: Value,
) -> bool {
    match logic {
        Logic::Boolean => result == constant(data, value_of_bool(false)),
        Logic::Number => result == constant(data, value_of_int(0)),
        Logic::Text => result == constant(data, value_of_str(Seq::empty())),
        Logic::Addition => {
            let a = operand_or(inputs, data, 0, value_of_int(0));
            let b = operand_or(inputs, data, 1, value_of_int(0));
            concatenates(a, b) && result == value_of_str(text_of(a) + text_of(b))
        },
        Logic::Comparison => {
            let a = operand_or(inputs, data, 0, value_of_int(0));
            let b = operand_or(inputs, data, 1, value_of_int(0));
            result == value_of_bool(value_equal(a, b))
        },
        Logic::Condition => {
            let chosen = operand(
                inputs,
                data,
                if condition_holds(inputs, data) {
                    1
                } else {
                    2
                },
            );
            match chosen {
                Some(v) => result == v,
                None => value_is_null(result),
            }
        },
        Logic::Output => if arrives(inputs, 0) {
            result == inputs[0][0]
        } else {
            value_is_null(result)
        },
        _ => false,
    }
}

/// Whether `plan` is what the logic decides for a node.
pub open spec fn plans(logic: Logic, inputs: Seq<Seq<Value>>, data: Seq<Value>, plan: Plan) -> bool {
    match plan {
        Plan::Done(result) => request(logic, inputs, data) is None && computes(
            logic,
            inputs,
            data,
            result,
        ),
        Plan::Ask { operation, left, right } => request(logic, inputs, data) == Some(
            (operation, left, right),
        ),
    }
}

/// The operand at position `index`.
pub fn select_operand<'a>(inputs: &'a Vec<Vec<Value>>, data: &'a Vec<Value>, index: usize) -> (r:
    Option<&'a Value>)
    ensures
        match r {
            Some(v) => operand(arrivals(inputs@), data@, index as int) == Some(*v),
            None => operand(arrivals(inputs@), data@, index as int) is None,
        },
{
    if index < inputs.len() && inputs[index].len() > 0 {
        Some(&inputs[index][0])
    } else if index < data.len() {
        Some(&data[index])
    } else {
        None
    }
}

/// A copy of the operand at position `index`, if there is one.
pub fn copy_operand(inputs: &Vec<Vec<Value>>, data: &Vec<Value>, index: usize) -> (r: Option<Value>)
    ensures
        r == operand(arrivals(inputs@), data@, index as int),
{
    match select_operand(inputs, data, index) {
        Some(v) => Some(v.clone()),
        None => None,
    }
}

/// A copy of the operand at position `index`, or zero where there is none.
pub fn operand_or_zero(inputs: &Vec<Vec<Value>>, data: &Vec<Value>, index: usize) -> (r: Value)
    ensures
        r == operand_or(arrivals(inputs@), data@, index as int, value_of_int(0)),
{
    match select_operand(inputs, data, index) {
        Some(v) => v.clone(),
        None => int_value(0),
    }
}

/// The text that a value contributes to a concatenation.
pub fn text(v: &Value) -> (r: String)
    ensures
        r@ == text_of(*v),
{
    match as_str(v) {
        Some(s) => s.to_owned(),
        None => json_text(v),
    }
}

/// Decides what a node of the given logic computes from the values arriving
/// on its inputs and from its data.
pub fn plan(logic: Logic, inputs: &Vec<Vec<Value>>, data: &Vec<Value>) -> (r: Plan)
    ensures
        plans(logic, arrivals(inputs@), data@, r),
{
    match logic {
        Logic::Boolean => Plan::Done(
            if data.len() > 0 {
                data[0].clone()
            } else {
                bool_value(false)
            },
        ),
        Logic::Number => Plan::Done(
            if data.len() > 0 {
                data[0].clone()
            } else {
                int_value(0)
            },
        ),
        Logic::Text => {
            proof {
                reveal_strlit("");
                assert(""@ =~= Seq::<char>::empty());
            }
            Plan::Done(
                if data.len() > 0 {
                    data[0].clone()
                } else {
                    str_value("")
                },
            )
        },
        Logic::Addition => {
            let a = operand_or_zero(inputs, data, 0);
            let b = operand_or_zero(inputs, data, 1);
            if as_str(&a).is_some() || as_str(&b).is_some() {
                let mut joined = text(&a);
                let tail = text(&b);
                joined.append(tail.as_str());
                Plan::Done(str_value(joined.as_str()))
            } else {
                Plan::Ask { operation: Operation::Add, left: Some(a), right: Some(b) }
            }
        },
        Logic::Subtraction => Plan::Ask {
            operation: Operation::Subtract,
            left: copy_operand(inputs, data, 0),
            right: copy_operand(inputs, data, 1),
        },
        Logic::Multiplication => Plan::Ask {
            operation: Operation::Multiply,
            left: copy_operand(inputs, data, 0),
            right: copy_operand(inputs, data, 1),
        },
        Logic::Division => Plan::Ask {
            operation: Operation::Divide,
            left: copy_operand(inputs, data, 0),
            right: copy_operand(inputs, data, 1),
        },
        Logic::Comparison => {
            let a = operand_or_zero(inputs, data, 0);
            let b = operand_or_zero(inputs, data, 1);
            Plan::Done(bool_value(values_equal(&a, &b)))
        },
        Logic::Condition => {
            let holds = match select_operand(inputs, data, 0) {
                Some(v) => match as_bool(v) {
                    Some(b) => b,
                    None => false,
                },
                None => false,
            };
            let chosen = select_operand(
                inputs,
                data,
                if holds {
                    1
                } else {
                    2
                },
            );
            Plan::Done(
                match chosen {
                    Some(v) => v.clone(),
                    None => null_value(),
                },
            )
        },
        Logic::Output => Plan::Done(
            if inputs.len() > 0 && inputs[0].len() > 0 {
                inputs[0][0].clone()
            } else {
                null_value()
            },
        ),
    }
}

/// Whether `r` is what an evaluation makes of the answer `answer` of the
/// arithmetic: the value, or the failure with the text that the arithmetic
/// gave.
pub open spec fn settled(answer: Result<Value, String>, r: Result<Value, EngineError>) -> bool {
    match answer {
        Ok(v) => r == Ok::<Value, EngineError>(v),
        Err(message) => r matches Err(e) && e@ == Failure::ComputeError(message@),
    }
}

/// What an evaluation makes of the answer of the arithmetic.
pub fn settle(answer: Result<Value, String>) -> (r: Result<Value, EngineError>)
    ensures
        settled(answer, r),
{
    match answer {
        Ok(v) => Ok(v),
        Err(message) => Err(EngineError::ComputeError(message)),
    }
}

/// Whether `r` is the outcome of computing a node of the given logic: the
/// value that the logic gives by itself, or what the arithmetic answers to
/// what the logic asks of it.
pub open spec fn outcome<A: Arithmetic>(
    arithmetic: A,
    logic: Logic,
    inputs: Seq<Seq<Value>>,
    data: Seq<Value>,
    r: Result<Value, EngineError>,
) -> bool {
    match request(logic, inputs, data) {
        None => r matches Ok(v) && computes(logic, inputs, data, v),
        Some(asked) => settled(arithmetic.answer(asked.0, asked.1, asked.2), r),
    }
}

/// Computes the value of a node of kind `node_type`: looks the kind up,
/// decides by its logic, and consults the arithmetic where the logic asks for
/// it.
pub fn compute_logic<A: Arithmetic>(
    registry: &Vec<(String, NodeDefinition)>,
    arithmetic: &A,
    node_type: &String,
    inputs: &Vec<Vec<Value>>,
    data: &Vec<Value>,
) -> (r: Result<Value, EngineError>)
    ensures
        match definition_of(registry_model(registry@), node_type@) {
            None => r matches Err(e) && e@ == Failure::UnknownKind(node_type@),
            Some(definition) => outcome(
                *arithmetic,
                definition.logic,
                arrivals(inputs@),
                data@,
                r,
            ),
        },
{
    let definition = match lookup(registry, node_type) {
        Some(definition) => definition,
        None => {
            return Err(EngineError::UnknownKind(node_type.clone()));
        },
    };
    match plan(definition.logic, inputs, data) {
        Plan::Done(v) => Ok(v),
        Plan::Ask { operation, left, right } => {
            let first = left.as_ref();
            let second = right.as_ref();
            proof {
                assert(held(first) == left);
                assert(held(second) == right);
            }
            settle(arithmetic.apply(operation, first, second))
        },
    }
}

} // verus!
