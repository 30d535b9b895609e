//! What the operations of the engine do, said over the model: when each one
//! refuses, the state that it leaves, and the identifiers that it returns.

use crate::definitions::{definition_of, DefinitionModel, Logic};
use crate::logic::{request, Arithmetic};
use crate::error::{EngineError, Failure};
use crate::model::{
    cyclic_from, distinct_ids, has_node, index_of, reaches, GraphModel, NodeModel,
};
use crate::reach::{is_marked, listed_before, lists_marked};
use crate::trace::{traces, NodeCache};
use serde_json::Value;
use vstd::prelude::*;

verus! {

/// The identifiers that a list holds.
pub open spec fn id_set(ids: Seq<String>) -> Set<Seq<char>> {
    Set::new(|id: Seq<char>| exists|q: int| 0 <= q < ids.len() && (#[trigger] ids[q])@ == id)
}

/// No identifier stands twice in the list.
pub open spec fn distinct(ids: Seq<String>) -> bool {
    forall|p: int, q: int|
        0 <= p < ids.len() && 0 <= q < ids.len() && p != q ==> (#[trigger] ids[p])@ != (
        #[trigger] ids[q])@
}

/// The identifiers of the nodes that `picked` lists are those of the marked
/// nodes, each once.
pub proof fn lemma_names_of_marked(
    nodes: Seq<NodeModel>,
    marks: Seq<bool>,
    picked: Seq<usize>,
    ids: Seq<String>,
)
    requires
        distinct_ids(nodes),
        marks.len() == nodes.len(),
        lists_marked(marks, picked),
        ids.len() == picked.len(),
        forall|q: int| 0 <= q < ids.len() ==> (#[trigger] ids[q])@ == nodes[picked[q] as int].id,
    ensures
        distinct(ids),
        forall|id: Seq<char>|
            id_set(ids).contains(id) <==> exists|t: int|
                is_marked(marks, t) && (#[trigger] nodes[t]).id == id,
{
    assert forall|p: int, q: int|
        0 <= p < ids.len() && 0 <= q < ids.len() && p != q implies (#[trigger] ids[p])@ != (
        #[trigger] ids[q])@ by {
        assert(is_marked(marks, picked[p] as int));
        assert(is_marked(marks, picked[q] as int));
        if p < q {
            assert(picked[p] < picked[q]);
        } else {
            assert(picked[q] < picked[p]);
        }
        assert(nodes[picked[p] as int].id != nodes[picked[q] as int].id);
    }
    assert forall|id: Seq<char>|
        id_set(ids).contains(id) <==> exists|t: int|
            is_marked(marks, t) && (#[trigger] nodes[t]).id == id by {
        if id_set(ids).contains(id) {
            let q = choose|q: int| 0 <= q < ids.len() && (#[trigger] ids[q])@ == id;
            assert(is_marked(marks, picked[q] as int));
            assert(nodes[picked[q] as int].id == id);
        }
        if exists|t: int| is_marked(marks, t) && (#[trigger] nodes[t]).id == id {
            let t = choose|t: int| is_marked(marks, t) && (#[trigger] nodes[t]).id == id;
            assert(listed_before(picked, picked.len() as int, t));
            let q = choose|q: int| 0 <= q < picked.len() && #[trigger] picked[q] as int == t;
            assert(ids[q]@ == id);
        }
    }
}

/// Why `add_node` refuses, if it does.
pub open spec fn add_node_failure(
    m: GraphModel,
    registry: Seq<(Seq<char>, DefinitionModel)>,
    id: Seq<char>,
    node_type: Seq<char>,
) -> Option<Failure> {
    if has_node(m.nodes, id) {
        Some(Failure::InvalidOperation)
    } else if definition_of(registry, node_type) is None {
        Some(Failure::UnknownKind(node_type))
    } else {
        None
    }
}

/// The state that `add_node` leaves: with the node added at the end of the
/// table, with the sockets that its kind declares, or the state as it was
/// where the operation is refused.
pub open spec fn after_add_node(
    m: GraphModel,
    registry: Seq<(Seq<char>, DefinitionModel)>,
    id: Seq<char>,
    node_type: Seq<char>,
    data: Seq<Value>,
) -> GraphModel {
    if add_node_failure(m, registry, id, node_type) is Some {
        m
    } else {
        m.add_node(
            NodeModel::fresh(
                id,
                node_type,
                arity(registry, node_type).0,
                arity(registry, node_type).1,
                data,
            ),
        )
    }
}

/// Why `add_edge` refuses, if it does.
pub open spec fn add_edge_failure(
    m: GraphModel,
    source: Seq<char>,
    out: nat,
    target: Seq<char>,
    inp: nat,
) -> Option<Failure> {
    if source == target {
        Some(Failure::InvalidOperation)
    } else if !has_node(m.nodes, source) {
        Some(Failure::NotFound(source))
    } else if !has_node(m.nodes, target) {
        Some(Failure::NotFound(target))
    } else if out >= m.nodes[index_of(m.nodes, source)].outputs.len() {
        Some(Failure::InvalidIndex { output: true })
    } else if inp >= m.nodes[index_of(m.nodes, target)].inputs.len() {
        Some(Failure::InvalidIndex { output: false })
    } else {
        None
    }
}

/// Why `remove_edge` refuses, if it does.
pub open spec fn remove_edge_failure(m: GraphModel, source: Seq<char>, target: Seq<char>) -> Option<
    Failure,
> {
    if source == target {
        None
    } else if !has_node(m.nodes, source) {
        Some(Failure::NotFound(source))
    } else if !has_node(m.nodes, target) {
        Some(Failure::NotFound(target))
    } else {
        None
    }
}

/// The state that `add_edge` leaves: the edge added and its target
/// invalidated, or the state as it was where the operation is refused.
pub open spec fn after_add_edge(
    m: GraphModel,
    source: Seq<char>,
    out: nat,
    target: Seq<char>,
    inp: nat,
) -> GraphModel {
    if add_edge_failure(m, source, out, target, inp) is Some {
        m
    } else {
        m.connect(index_of(m.nodes, source), out, index_of(m.nodes, target), inp)
    }
}

/// The identifiers that `add_edge` returns: those of the target and of
/// everything downstream of it once the edge is recorded.
pub open spec fn add_edge_dirty(
    m: GraphModel,
    source: Seq<char>,
    out: nat,
    target: Seq<char>,
    inp: nat,
) -> Set<Seq<char>> {
    after_add_edge(m, source, out, target, inp).downstream(index_of(m.nodes, target))
}

/// The state that `remove_edge` leaves: the edge removed and its target
/// invalidated, or the state as it was where the operation is refused or the
/// two ends are one node.
pub open spec fn after_remove_edge(
    m: GraphModel,
    source: Seq<char>,
    out: nat,
    target: Seq<char>,
    inp: nat,
) -> GraphModel {
    if source == target || remove_edge_failure(m, source, target) is Some {
        m
    } else {
        m.disconnect(index_of(m.nodes, source), out, index_of(m.nodes, target), inp)
    }
}

/// The identifiers that `remove_edge` returns: none where the two ends are
/// one node, otherwise those of the target and of everything downstream of
/// it once the edge is gone.
pub open spec fn remove_edge_dirty(
    m: GraphModel,
    source: Seq<char>,
    out: nat,
    target: Seq<char>,
    inp: nat,
) -> Set<Seq<char>> {
    if source == target {
        Set::empty()
    } else {
        after_remove_edge(m, source, out, target, inp).downstream(index_of(m.nodes, target))
    }
}

/// The state that `update_node_data` leaves.
pub open spec fn after_update(m: GraphModel, id: Seq<char>, data: Seq<Value>) -> GraphModel {
    if has_node(m.nodes, id) {
        m.set_data(index_of(m.nodes, id), data)
    } else {
        m
    }
}

/// The identifiers that `update_node_data` returns: those of the node and of
/// everything downstream of it, or none where the node does not exist.
pub open spec fn update_dirty(m: GraphModel, id: Seq<char>) -> Set<Seq<char>> {
    if has_node(m.nodes, id) {
        m.downstream(index_of(m.nodes, id))
    } else {
        Set::empty()
    }
}

/// Why `remove_node` refuses, if it does.
pub open spec fn remove_node_failure(m: GraphModel, id: Seq<char>) -> Option<Failure> {
    if has_node(m.nodes, id) {
        None
    } else {
        Some(Failure::NotFound(id))
    }
}

/// The identifiers that `remove_node` returns: those that the output links
/// of the node name.
pub open spec fn remove_node_dirty(m: GraphModel, id: Seq<char>) -> Set<Seq<char>> {
    m.consumers(index_of(m.nodes, id))
}

/// The state that `remove_node` leaves.
pub open spec fn after_remove_node(m: GraphModel, id: Seq<char>) -> GraphModel {
    if has_node(m.nodes, id) {
        m.remove_node(index_of(m.nodes, id))
    } else {
        m
    }
}

/// Whether the logic is one of those that may ask the arithmetic.
pub open spec fn is_numeric(logic: Logic) -> bool {
    logic is Addition || logic is Subtraction || logic is Multiplication || logic is Division
}

/// Whether `kind` is registered with a logic that may ask the arithmetic.
pub open spec fn asks_arithmetic(registry: Seq<(Seq<char>, DefinitionModel)>, kind: Seq<char>) -> bool {
    definition_of(registry, kind) matches Some(definition) && is_numeric(definition.logic)
}

/// Whether node `i`, or a node that it depends on, is of a kind that may ask
/// the arithmetic.
pub open spec fn numeric_upstream(
    registry: Seq<(Seq<char>, DefinitionModel)>,
    m: GraphModel,
    i: int,
) -> bool {
    exists|j: int| #[trigger]
        reaches(m.nodes, false, i, j) && asks_arithmetic(registry, m.nodes[j].node_type)
}

/// Whether the arithmetic refuses node `j` with the text `message`: the node
/// is not cached, and to what its logic asks for the values that arrive on
/// its inputs the arithmetic answers with that failure.
pub open spec fn refused_at<A: Arithmetic>(
    registry: Seq<(Seq<char>, DefinitionModel)>,
    arithmetic: A,
    m: GraphModel,
    j: int,
    message: Seq<char>,
) -> bool {
    &&& 0 <= j < m.nodes.len()
    &&& m.cache[j] is None
    &&& definition_of(registry, m.nodes[j].node_type) matches Some(definition)
    &&& request(definition.logic, m.gathered(j), m.nodes[j].data) matches Some(asked)
    &&& arithmetic.answer(asked.0, asked.1, asked.2) matches Err(text)
    &&& text@ == message
}

/// Whether an evaluation of node `i` that left the state `after` may have
/// failed as `failure` says: with a cyclic dependency only where what the
/// node depends on depends on itself, with a failure of the arithmetic only
/// where the arithmetic refuses a node that the node depends on, and in no
/// other way.
pub open spec fn may_fail<A: Arithmetic>(
    registry: Seq<(Seq<char>, DefinitionModel)>,
    arithmetic: A,
    after: GraphModel,
    i: int,
    failure: Failure,
) -> bool {
    match failure {
        Failure::CyclicDependency => cyclic_from(after.nodes, i),
        Failure::ComputeError(message) => exists|j: int| #[trigger]
            reaches(after.nodes, false, i, j) && refused_at(
                registry,
                arithmetic,
                after,
                j,
                message,
            ),
        _ => false,
    }
}

/// What holds of an evaluation of node `id` that found the state `before`,
/// returned `r` and left the state `after`.
pub open spec fn evaluates<A: Arithmetic>(
    registry: Seq<(Seq<char>, DefinitionModel)>,
    arithmetic: A,
    before: GraphModel,
    id: Seq<char>,
    r: Result<Vec<(String, NodeCache)>, EngineError>,
    after: GraphModel,
) -> bool {
    if has_node(before.nodes, id) {
        let i = index_of(before.nodes, id);
        &&& before.grown(after, i)
        &&& before.cache[i] is Some ==> r is Ok && after == before
        &&& match r {
            Ok(trace) => after.cache[i] is Some && traces(after, i, trace@),
            Err(e) => after.cache[i] is None && may_fail(registry, arithmetic, after, i, e@),
        }
    } else {
        &&& after == before
        &&& r matches Err(e)
        &&& e@ == Failure::NotFound(id)
    }
}

/// The numbers of input and output sockets that `registry` declares for
/// `kind`; zero for a kind that it does not hold.
pub open spec fn arity(registry: Seq<(Seq<char>, DefinitionModel)>, kind: Seq<char>) -> (nat, nat) {
    match definition_of(registry, kind) {
        Some(definition) => (
            definition.schema.io.inputs.len(),
            definition.schema.io.outputs.len(),
        ),
        None => (0, 0),
    }
}

} // verus!
