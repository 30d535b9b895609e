//! What holds of the engine across its operations, stated over the model and
//! proved from the contracts of the operations.

use crate::contract::{
    add_edge_failure, after_add_edge, after_remove_edge, after_update, evaluates, id_set,
    numeric_upstream, remove_edge_dirty, remove_edge_failure,
};
use crate::logic::Arithmetic;
use crate::definitions::DefinitionModel;
use crate::error::{EngineError, Failure};
use crate::graph::{lemma_count_at, lemma_index_of};
use crate::model::{
    agrees, backward_count, count, cyclic_from, forward_count, has_node, index_of, is_path,
    joined, on_cycle, reaches, step, GraphModel, Link, NodeModel,
};
use crate::reach::{
    lemma_count_found, lemma_counterpart, lemma_reaches_in_table,
    lemma_reaches_self, lemma_reaches_step,
};
use crate::sound::{
    lemma_count_push, lemma_count_without, lemma_linked_sound, lemma_same_ids,
    lemma_unlinked_sound, lemma_upstream_cached, lemma_without_again,
};
use crate::trace::{shows, trace_ids, NodeCache};
use serde_json::Value;
use vstd::prelude::*;

verus! {

/// Removing an edge is idempotent: a second `remove_edge` with the same
/// arguments succeeds or fails as the first did, leaves the state that the
/// first left, and returns the identifiers that the first returned.
pub proof fn law_remove_edge_idempotent(
    m: GraphModel,
    source: Seq<char>,
    out: nat,
    target: Seq<char>,
    inp: nat,
)
    requires
        m.valid(),
    ensures
        ({
            let once = after_remove_edge(m, source, out, target, inp);
            &&& remove_edge_failure(once, source, target) == remove_edge_failure(m, source, target)
            &&& after_remove_edge(once, source, out, target, inp) == once
            &&& remove_edge_dirty(once, source, out, target, inp) == remove_edge_dirty(
                m,
                source,
                out,
                target,
                inp,
            )
        }),
{
    let once = after_remove_edge(m, source, out, target, inp);
    if source != target && remove_edge_failure(m, source, target) is None {
        let a = index_of(m.nodes, source);
        let b = index_of(m.nodes, target);
        lemma_same_ids(m.nodes, once.nodes);
        assert(index_of(once.nodes, source) == a);
        assert(index_of(once.nodes, target) == b);
        let twice = once.disconnect(a, out, b, inp);
        let to_target = Link { id: m.nodes[b].id, index: inp };
        let to_source = Link { id: m.nodes[a].id, index: out };
        if out < m.nodes[a].outputs.len() {
            lemma_without_again(m.nodes[a].outputs[out as int], to_target.id, Some(inp));
        }
        if inp < m.nodes[b].inputs.len() {
            lemma_without_again(m.nodes[b].inputs[inp as int], to_source.id, Some(out));
        }
        assert(once.nodes[a].without_link(true, out as int, to_target).outputs
            =~= once.nodes[a].outputs);
        assert(once.nodes[b].without_link(false, inp as int, to_source).inputs
            =~= once.nodes[b].inputs);
        assert(twice.nodes =~= once.nodes);
        assert(twice.cache =~= once.cache);
    }
}

/// Between a node and itself `remove_edge` finds nothing to do: it succeeds,
/// changes nothing and returns no identifier, the first time and every time.
pub proof fn law_remove_edge_of_self(m: GraphModel, id: Seq<char>, out: nat, inp: nat)
    ensures
        remove_edge_failure(m, id, id) is None,
        after_remove_edge(m, id, out, id, inp) == m,
        remove_edge_dirty(m, id, out, id, inp) == Set::<Seq<char>>::empty(),
{
}

/// In a valid state every edge has as many backward records on its target as
/// forward records on its source, and at most one of each: exactly one
/// backward record for a forward record, none where there is none, and none
/// at all from a node to itself.
pub proof fn law_records_agree(m: GraphModel, a: Seq<char>, out: nat, b: Seq<char>, inp: nat)
    requires
        m.valid(),
    ensures
        forward_count(m.nodes, a, out, b, inp) == backward_count(m.nodes, a, out, b, inp),
        forward_count(m.nodes, a, out, b, inp) <= 1,
        a == b ==> forward_count(m.nodes, a, out, b, inp) == 0,
{
    assert(agrees(m.nodes, a, out, b, inp));
}

/// In a valid state every record of an edge stands once on its socket and
/// has exactly one counterpart: the node that the link names exists, has the
/// socket that the link names, and holds there, once, the link back to the
/// socket that the link stands on.
pub proof fn law_record_has_counterpart(m: GraphModel, forward: bool, i: int, s: int, k: int)
    requires
        m.valid(),
        0 <= i < m.nodes.len(),
        m.nodes[i].has_link(forward, s, k),
    ensures
        ({
            let link = m.nodes[i].link(forward, s, k);
            let back = Link { id: m.nodes[i].id, index: s as nat };
            let j = index_of(m.nodes, link.id);
            &&& has_node(m.nodes, link.id)
            &&& j != i
            &&& link.index < m.nodes[j].sockets(!forward).len()
            &&& count(m.nodes[i].sockets(forward)[s], link) == 1
            &&& count(m.nodes[j].sockets(!forward)[link.index as int], back) == 1
            &&& m.nodes[j].holds(!forward, link.index as int, back)
        }),
{
    let link = m.nodes[i].link(forward, s, k);
    let j = index_of(m.nodes, link.id);
    lemma_counterpart(m.nodes, forward, i, s, k);
    lemma_count_at(m.nodes[i].sockets(forward)[s], k);
    lemma_index_of(m.nodes, i);
    if forward {
        assert(agrees(m.nodes, m.nodes[i].id, s as nat, link.id, link.index));
    } else {
        assert(agrees(m.nodes, link.id, link.index, m.nodes[i].id, s as nat));
    }
    let back = Link { id: m.nodes[i].id, index: s as nat };
    let socket = m.nodes[j].sockets(!forward)[link.index as int];
    lemma_count_found(socket, back);
    let k2 = choose|k2: int| 0 <= k2 < socket.len() && socket[k2] == back;
    assert(m.nodes[j].has_link(!forward, link.index as int, k2));
    assert(m.nodes[j].link(!forward, link.index as int, k2) == back);
}

/// After `add_edge` has accepted an edge, the edge has exactly one forward
/// and exactly one backward record, whether it was recorded before or not.
pub proof fn law_added_edge_recorded_once(
    m: GraphModel,
    source: Seq<char>,
    out: nat,
    target: Seq<char>,
    inp: nat,
)
    requires
        m.valid(),
        add_edge_failure(m, source, out, target, inp) is None,
    ensures
        forward_count(after_add_edge(m, source, out, target, inp).nodes, source, out, target, inp)
            == 1,
        backward_count(after_add_edge(m, source, out, target, inp).nodes, source, out, target, inp)
            == 1,
{
    let a = index_of(m.nodes, source);
    let b = index_of(m.nodes, target);
    let after = m.linked(a, out, b, inp);
    assert(a != b);
    lemma_linked_sound(m, a, out, b, inp);
    lemma_same_ids(m.nodes, after);
    assert(agrees(m.nodes, source, out, target, inp));
    assert(agrees(after, source, out, target, inp));
    if !m.recorded(a, out, b, inp) {
        lemma_count_push(
            m.nodes[a].outputs[out as int],
            Link { id: target, index: inp },
            Link { id: target, index: inp },
        );
    }
}

/// After `remove_edge` has succeeded, the edge has no record on either end.
pub proof fn law_removed_edge_absent(
    m: GraphModel,
    source: Seq<char>,
    out: nat,
    target: Seq<char>,
    inp: nat,
)
    requires
        m.valid(),
        remove_edge_failure(m, source, target) is None,
    ensures
        forward_count(
            after_remove_edge(m, source, out, target, inp).nodes,
            source,
            out,
            target,
            inp,
        ) == 0,
        backward_count(
            after_remove_edge(m, source, out, target, inp).nodes,
            source,
            out,
            target,
            inp,
        ) == 0,
{
    assert(agrees(m.nodes, source, out, target, inp));
    if source != target {
        let a = index_of(m.nodes, source);
        let b = index_of(m.nodes, target);
        let after = m.unlinked(a, out, b, inp);
        assert(a != b);
        lemma_unlinked_sound(m, a, out, b, inp);
        lemma_same_ids(m.nodes, after);
        assert(agrees(after, source, out, target, inp));
        if out < m.nodes[a].outputs.len() {
            lemma_count_without(
                m.nodes[a].outputs[out as int],
                target,
                Some(inp),
                Link { id: target, index: inp },
            );
        }
    }
}

/// The cache is sound: after an evaluation of a node has succeeded, a second
/// evaluation of the node, with no operation between the two, succeeds,
/// leaves the state as it found it (it computes nothing), and shows under
/// every identifier what the first showed.
pub proof fn law_cache_sound<A: Arithmetic>(
    registry: Seq<(Seq<char>, DefinitionModel)>,
    arithmetic: A,
    s0: GraphModel,
    id: Seq<char>,
    r1: Result<Vec<(String, NodeCache)>, EngineError>,
    s1: GraphModel,
    r2: Result<Vec<(String, NodeCache)>, EngineError>,
    s2: GraphModel,
)
    requires
        s0.valid(),
        s1.valid(),
        evaluates(registry, arithmetic, s0, id, r1, s1),
        r1 is Ok,
        evaluates(registry, arithmetic, s1, id, r2, s2),
    ensures
        s2 == s1,
        r2 is Ok,
        id_set(trace_ids(r2->Ok_0@)) == id_set(trace_ids(r1->Ok_0@)),
        forall|p: int, q: int|
            0 <= p < r1->Ok_0@.len() && 0 <= q < r2->Ok_0@.len() && (#[trigger] r1->Ok_0@[p]).0@ == (
            #[trigger] r2->Ok_0@[q]).0@ ==> r1->Ok_0@[p].1@ == r2->Ok_0@[q].1@,
{
    let i = index_of(s0.nodes, id);
    assert(has_node(s1.nodes, id));
    assert(index_of(s1.nodes, id) == i);
    let t1 = r1->Ok_0@;
    let t2 = r2->Ok_0@;
    assert forall|p: int, q: int|
        0 <= p < t1.len() && 0 <= q < t2.len() && (#[trigger] t1[p]).0@ == (#[trigger] t2[q]).0@
            implies t1[p].1@ == t2[q].1@ by {
        let e1 = t1[p].1@;
        let e2 = t2[q].1@;
        let name = t1[p].0@;
        let j = index_of(s1.nodes, name);
        assert(trace_ids(t1)[p]@ == name);
        assert(id_set(trace_ids(t1)).contains(name));
        assert(s1.upstream(i).contains(name));
        let x = choose|x: int| #[trigger] reaches(s1.nodes, false, i, x) && s1.nodes[x].id == name;
        lemma_reaches_in_table(s1.nodes, false, i, x);
        lemma_index_of(s1.nodes, x);
        lemma_upstream_cached(s1, i, x);
        assert(shows(s1, j, e1));
        assert(shows(s1, j, e2));
        assert(e1.inputs =~= e2.inputs);
        assert(e1.outputs =~= e2.outputs);
    }
}

/// A successful evaluation fills the cache upstream: afterwards a node is
/// cached exactly if it was cached before or the node evaluated depends on it
/// (or is it).
pub proof fn law_evaluation_fills_upstream<A: Arithmetic>(
    registry: Seq<(Seq<char>, DefinitionModel)>,
    arithmetic: A,
    before: GraphModel,
    id: Seq<char>,
    r: Result<Vec<(String, NodeCache)>, EngineError>,
    after: GraphModel,
    j: int,
)
    requires
        before.valid(),
        after.valid(),
        evaluates(registry, arithmetic, before, id, r, after),
        r is Ok,
        0 <= j < before.nodes.len(),
    ensures
        after.cache[j] is Some <==> before.cache[j] is Some || reaches(
            before.nodes,
            false,
            index_of(before.nodes, id),
            j,
        ),
{
    let i = index_of(before.nodes, id);
    if reaches(before.nodes, false, i, j) {
        lemma_upstream_cached(after, i, j);
    }
}

/// An evaluation does not succeed across a cycle: after a success no node
/// that the node evaluated depends on, and that was not cached before,
/// depends on itself. (So where one does, the evaluation fails.)
pub proof fn law_evaluation_crosses_no_cycle<A: Arithmetic>(
    registry: Seq<(Seq<char>, DefinitionModel)>,
    arithmetic: A,
    before: GraphModel,
    id: Seq<char>,
    r: Result<Vec<(String, NodeCache)>, EngineError>,
    after: GraphModel,
    j: int,
)
    requires
        before.valid(),
        after.valid(),
        evaluates(registry, arithmetic, before, id, r, after),
        r is Ok,
        reaches(before.nodes, false, index_of(before.nodes, id), j),
        before.cache[j] is None,
    ensures
        !on_cycle(before.nodes, j),
{
    let i = index_of(before.nodes, id);
    lemma_upstream_cached(after, i, j);
}

/// An evaluation can fail in two ways only: where nothing that the node
/// depends on depends on itself, and no node that takes part is of a kind
/// that may ask the arithmetic, the evaluation of an existing node succeeds.
pub proof fn law_evaluation_succeeds<A: Arithmetic>(
    registry: Seq<(Seq<char>, DefinitionModel)>,
    arithmetic: A,
    before: GraphModel,
    id: Seq<char>,
    r: Result<Vec<(String, NodeCache)>, EngineError>,
    after: GraphModel,
)
    requires
        evaluates(registry, arithmetic, before, id, r, after),
        has_node(before.nodes, id),
        !cyclic_from(before.nodes, index_of(before.nodes, id)),
        !numeric_upstream(registry, before, index_of(before.nodes, id)),
    ensures
        r is Ok,
{
}

/// Two tables whose nodes have the same identifiers and the same links have
/// the same paths.
pub proof fn lemma_same_path(
    before: Seq<NodeModel>,
    after: Seq<NodeModel>,
    forward: bool,
    path: Seq<int>,
)
    requires
        after.len() == before.len(),
        forall|x: int|
            0 <= x < before.len() ==> {
                &&& (#[trigger] after[x]).id == before[x].id
                &&& after[x].inputs == before[x].inputs
                &&& after[x].outputs == before[x].outputs
            },
        is_path(before, forward, path),
    ensures
        is_path(after, forward, path),
{
    assert forall|k: int| 0 <= k < path.len() - 1 implies #[trigger] joined(
        after,
        forward,
        path,
        k,
    ) by {
        assert(joined(before, forward, path, k));
        let x = path[k];
        let y = path[k + 1];
        let (s, q) = choose|s: int, q: int|
            before[x].has_link(forward, s, q) && (#[trigger] before[x].link(forward, s, q)).id
                == before[y].id;
        assert(after[x].has_link(forward, s, q));
        assert(after[x].link(forward, s, q).id == after[y].id);
    }
}

/// Two tables whose nodes have the same identifiers and the same links reach
/// the same nodes.
pub proof fn lemma_same_reach(
    before: Seq<NodeModel>,
    after: Seq<NodeModel>,
    forward: bool,
    i: int,
    j: int,
)
    requires
        after.len() == before.len(),
        forall|x: int|
            0 <= x < before.len() ==> {
                &&& (#[trigger] after[x]).id == before[x].id
                &&& after[x].inputs == before[x].inputs
                &&& after[x].outputs == before[x].outputs
            },
    ensures
        reaches(after, forward, i, j) == reaches(before, forward, i, j),
{
    if reaches(before, forward, i, j) {
        let path = choose|path: Seq<int>|
            #[trigger] is_path(before, forward, path) && path[0] == i && path.last() == j;
        lemma_same_path(before, after, forward, path);
    }
    if reaches(after, forward, i, j) {
        let path = choose|path: Seq<int>|
            #[trigger] is_path(after, forward, path) && path[0] == i && path.last() == j;
        lemma_same_path(after, before, forward, path);
    }
}

/// Invalidation is complete: after the data of a node is replaced, no node
/// that the node reaches along output links is cached, and the identifiers
/// returned hold the identifier of each of them.
pub proof fn law_invalidation_complete(m: GraphModel, id: Seq<char>, data: Seq<Value>, j: int)
    requires
        m.valid(),
        has_node(m.nodes, id),
        reaches(m.nodes, true, index_of(m.nodes, id), j),
    ensures
        after_update(m, id, data).cache[j] is None,
        after_update(m, id, data).downstream(index_of(m.nodes, id)).contains(m.nodes[j].id),
{
    let i = index_of(m.nodes, id);
    let after = after_update(m, id, data);
    lemma_reaches_in_table(m.nodes, true, i, j);
    lemma_same_reach(m.nodes, after.nodes, true, i, j);
    assert(after.nodes[j].id == m.nodes[j].id);
}

/// Along a chain of edges from a first node to a second and from the second
/// to a third, what is downstream of the first holds all three.
pub proof fn law_chain_downstream(m: GraphModel, a: int, b: int, c: int)
    requires
        step(m.nodes, true, a, b),
        step(m.nodes, true, b, c),
    ensures
        m.downstream(a).contains(m.nodes[a].id),
        m.downstream(a).contains(m.nodes[b].id),
        m.downstream(a).contains(m.nodes[c].id),
{
    lemma_reaches_self(m.nodes, true, a);
    lemma_reaches_step(m.nodes, true, a, a, b);
    lemma_reaches_step(m.nodes, true, a, b, c);
}

/// An edge from a node to itself is refused as an invalid operation, whatever
/// the state and whatever the sockets.
pub proof fn law_self_loop_refused(m: GraphModel, id: Seq<char>, out: nat, inp: nat)
    ensures
        add_edge_failure(m, id, out, id, inp) == Some(Failure::InvalidOperation),
{
}

} // verus!
