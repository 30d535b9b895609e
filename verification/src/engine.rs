//! The graph engine: the node table, the cache, and the operations that edit
//! the one and keep the other in step.

use crate::computed::{
    cache_computed, lemma_add_node_computed, lemma_invalidate_computed,
    lemma_remove_node_computed, lemma_store_computed,
};
use crate::contract::{
    add_edge_dirty, add_edge_failure, add_node_failure, after_add_edge, after_add_node,
    after_remove_edge, after_remove_node, after_update, distinct, evaluates, id_set,
    lemma_names_of_marked, refused_at, remove_edge_dirty, remove_edge_failure,
    remove_node_dirty, remove_node_failure, update_dirty,
};
use crate::definitions::{
    builtin_registry, definition_of, get_node_registry, lookup, registry_model, DefinitionModel,
    NodeDefinition, NodeSchema,
};
use crate::error::{EngineError, Failure};
use crate::graph::{
    drop_links, empty_sockets, find_index, lemma_index_of, node_models, push_link, records,
    strip_node, Node,
};
use crate::logic::{arrivals, compute_logic, Arithmetic};
use crate::model::{
    cyclic_from, has_node, index_of, is_path, reaches, sound, step, GraphModel, NodeModel,
};
use crate::reach::{
    is_marked, lemma_counterpart, lemma_mark, lemma_path_push, lemma_reaches_in_table,
    lemma_reaches_self, lemma_reaches_step, lemma_reaches_trans, listed_before, lists_marked,
    mark_reachable, marked_positions, unmarked,
};
use crate::sound::{
    lemma_add_node_valid, lemma_connect_valid, lemma_data_sound, lemma_disconnect_valid,
    lemma_fresh_off_cycle, lemma_linked_sound, lemma_remove_node_valid, lemma_set_data_valid,
    lemma_unlinked_sound,
};
use crate::trace::{shows, trace_ids, traces, NodeCache};
use crate::value::null_value;
use serde_json::Value;
use vstd::prelude::*;

verus! {

/// Whether a link before position `(s, k)` of the output sockets leads to
/// node `id`.
pub open spec fn linked_before(node: NodeModel, s: int, k: int, id: Seq<char>) -> bool {
    exists|s2: int, k2: int|
        node.has_link(true, s2, k2) && (s2 < s || (s2 == s && k2 < k)) && (#[trigger] node.link(
            true,
            s2,
            k2,
        )).id == id
}

/// Whether the list holds the identifier.
fn holds(ids: &Vec<String>, id: &String) -> (r: bool)
    ensures
        r == id_set(ids@).contains(id@),
{
    let mut q: usize = 0;
    while q < ids.len()
        invariant
            q <= ids.len(),
            forall|p: int| 0 <= p < q ==> (#[trigger] ids[p])@ != id@,
        decreases ids.len() - q,
    {
        if ids[q] == *id {
            return true;
        }
        q += 1;
    }
    false
}

/// The identifiers that the output links of a node name, each once.
fn consumers_of(node: &Node) -> (ids: Vec<String>)
    ensures
        id_set(ids@) == Set::new(|id: Seq<char>| node@.links_to(true, id)),
        distinct(ids@),
{
    let mut ids: Vec<String> = Vec::new();
    let sockets = node.outputs.len();
    let mut s: usize = 0;
    while s < sockets
        invariant
            sockets == node@.outputs.len(),
            s <= sockets,
            distinct(ids@),
            forall|id: Seq<char>|
                #![trigger id_set(ids@).contains(id)]
                #![trigger linked_before(node@, s as int, 0, id)]
                id_set(ids@).contains(id) == linked_before(node@, s as int, 0, id),
        decreases sockets - s,
    {
        let links = node.outputs[s].len();
        let mut k: usize = 0;
        while k < links
            invariant
                sockets == node@.outputs.len(),
                s < sockets,
                links == node@.outputs[s as int].len(),
                k <= links,
                distinct(ids@),
                forall|id: Seq<char>|
                    #![trigger id_set(ids@).contains(id)]
                    #![trigger linked_before(node@, s as int, k as int, id)]
                    id_set(ids@).contains(id) == linked_before(node@, s as int, k as int, id),
            decreases links - k,
        {
            let peer = &node.outputs[s][k].id;
            let ghost held = ids@;
            let known = holds(&ids, peer);
            if !known {
                ids.push(peer.clone());
                assert(ids@[held.len() as int]@ == peer@);
            }
            proof {
                assert(node@.has_link(true, s as int, k as int));
                assert(node@.link(true, s as int, k as int).id == peer@);
                assert forall|id: Seq<char>|
                    #![trigger id_set(ids@).contains(id)]
                    #![trigger linked_before(node@, s as int, k + 1, id)]
                    id_set(ids@).contains(id) == linked_before(node@, s as int, k + 1, id) by {
                    if id_set(ids@).contains(id) {
                        let q = choose|q: int| 0 <= q < ids.len() && (#[trigger] ids[q])@ == id;
                        if q < held.len() {
                            assert(held[q]@ == id);
                            assert(id_set(held).contains(id));
                            assert(linked_before(node@, s as int, k as int, id));
                            let (s2, k2) = choose|s2: int, k2: int|
                                node@.has_link(true, s2, k2) && (s2 < s || (s2 == s && k2 < k)) && (
                                #[trigger] node@.link(true, s2, k2)).id == id;
                            assert(node@.has_link(true, s2, k2) && (s2 < s || (s2 == s && k2 < k
                                + 1)) && node@.link(true, s2, k2).id == id);
                        }
                    }
                    if linked_before(node@, s as int, k + 1, id) {
                        let (s2, k2) = choose|s2: int, k2: int|
                            node@.has_link(true, s2, k2) && (s2 < s || (s2 == s && k2 < k + 1)) && (
                            #[trigger] node@.link(true, s2, k2)).id == id;
                        if s2 == s && k2 == k {
                            if known {
                                assert(id_set(held).contains(id));
                            } else {
                                assert(ids@[held.len() as int]@ == id);
                            }
                        } else {
                            assert(node@.has_link(true, s2, k2) && (s2 < s || (s2 == s && k2 < k))
                                && node@.link(true, s2, k2).id == id);
                            assert(linked_before(node@, s as int, k as int, id));
                            assert(id_set(held).contains(id));
                            let q = choose|q: int|
                                0 <= q < held.len() && (#[trigger] held[q])@ == id;
                            assert(ids[q]@ == id);
                        }
                    }
                }
                assert(distinct(ids@)) by {
                    assert forall|p: int, q: int|
                        0 <= p < ids.len() && 0 <= q < ids.len() && p != q implies (
                        #[trigger] ids@[p])@ != (#[trigger] ids@[q])@ by {
                        if p < held.len() && q < held.len() {
                            assert(held[p]@ != held[q]@);
                        } else if p < held.len() {
                            assert(!id_set(held).contains(peer@));
                            assert(held[p]@ != peer@);
                        } else {
                            assert(!id_set(held).contains(peer@));
                            assert(held[q]@ != peer@);
                        }
                    }
                }
            }
            k += 1;
        }
        proof {
            assert forall|id: Seq<char>|
                #![trigger id_set(ids@).contains(id)]
                #![trigger linked_before(node@, s + 1, 0, id)]
                id_set(ids@).contains(id) == linked_before(node@, s + 1, 0, id) by {
                if linked_before(node@, s as int, k as int, id) {
                    let (s2, k2) = choose|s2: int, k2: int|
                        node@.has_link(true, s2, k2) && (s2 < s || (s2 == s && k2 < k)) && (
                        #[trigger] node@.link(true, s2, k2)).id == id;
                    assert(node@.has_link(true, s2, k2) && (s2 < s + 1 || (s2 == s + 1 && k2 < 0))
                        && node@.link(true, s2, k2).id == id);
                }
                if linked_before(node@, s + 1, 0, id) {
                    let (s2, k2) = choose|s2: int, k2: int|
                        node@.has_link(true, s2, k2) && (s2 < s + 1 || (s2 == s + 1 && k2 < 0)) && (
                        #[trigger] node@.link(true, s2, k2)).id == id;
                    assert(node@.has_link(true, s2, k2) && (s2 < s || (s2 == s && k2 < k))
                        && node@.link(true, s2, k2).id == id);
                }
            }
        }
        s += 1;
    }
    proof {
        assert(id_set(ids@) =~= Set::new(|id: Seq<char>| node@.links_to(true, id))) by {
            assert forall|id: Seq<char>| id_set(ids@).contains(id) == node@.links_to(
                true,
                id,
            ) by {
                if linked_before(node@, s as int, 0, id) {
                    let (s2, k2) = choose|s2: int, k2: int|
                        node@.has_link(true, s2, k2) && (s2 < s || (s2 == s && k2 < 0)) && (
                        #[trigger] node@.link(true, s2, k2)).id == id;
                    assert(node@.has_link(true, s2, k2) && node@.link(true, s2, k2).id == id);
                }
                if node@.links_to(true, id) {
                    let (s2, k2) = choose|s2: int, k2: int|
                        node@.has_link(true, s2, k2) && (#[trigger] node@.link(true, s2, k2)).id
                            == id;
                    assert(node@.has_link(true, s2, k2) && (s2 < s || (s2 == s && k2 < 0))
                        && node@.link(true, s2, k2).id == id);
                }
            }
        }
    }
    ids
}

/// Whether node `x` stands on `path` before its end.
pub open spec fn before_end(path: Seq<int>, x: int) -> bool {
    exists|p: int| 0 <= p < path.len() - 1 && path[p] == x
}

/// Whether position `x` of the cache holds the value `v`.
pub open spec fn holds_value(cache: Seq<Option<Value>>, x: int, v: Value) -> bool {
    0 <= x < cache.len() && cache[x] == Some(v)
}

/// A cache that grew on behalf of a source of a node grew on behalf of the
/// node.
pub proof fn lemma_grown_through(
    before: GraphModel,
    between: GraphModel,
    after: GraphModel,
    i: int,
    j: int,
)
    requires
        before.grown(between, i),
        between.grown(after, j),
        step(before.nodes, false, i, j),
    ensures
        before.grown(after, i),
{
    lemma_reaches_self(before.nodes, false, i);
    lemma_reaches_step(before.nodes, false, i, i, j);
    assert forall|x: int|
        0 <= x < before.cache.len() && before.cache[x] is None && (#[trigger] after.cache[x])
            is Some implies reaches(before.nodes, false, i, x) by {
        if between.cache[x] is None {
            lemma_reaches_trans(before.nodes, false, i, j, x);
        }
    }
}

/// The engine: a table of nodes, the cached output of each, the registry of
/// node kinds, and the arithmetic that the numeric kinds rely on.
pub struct GraphEngine<A: Arithmetic> {
    nodes: Vec<Node>,
    cache: Vec<Option<Value>>,
    node_registry: Vec<(String, NodeDefinition)>,
    arithmetic: A,
}

impl<A: Arithmetic> View for GraphEngine<A> {
    type V = GraphModel;

    closed spec fn view(&self) -> GraphModel {
        GraphModel { nodes: node_models(self.nodes@), cache: self.cache@ }
    }
}

impl<A: Arithmetic> GraphEngine<A> {
    /// The registry of node kinds that the engine was made with.
    pub closed spec fn registry(&self) -> Seq<(Seq<char>, DefinitionModel)> {
        registry_model(self.node_registry@)
    }

    /// The arithmetic that the engine was made with.
    pub closed spec fn arithmetic(&self) -> A {
        self.arithmetic
    }

    /// Every node is of a registered kind and has the sockets that the kind
    /// declares.
    pub open spec fn kinds_registered(&self) -> bool {
        forall|i: int|
            0 <= i < self@.nodes.len() ==> {
                let node = #[trigger] self@.nodes[i];
                &&& definition_of(self.registry(), node.node_type) matches Some(definition)
                &&& node.inputs.len() == definition.schema.io.inputs.len()
                &&& node.outputs.len() == definition.schema.io.outputs.len()
            }
    }

    /// The engine is well formed: its state is valid, its nodes are of
    /// registered kinds, and its cache holds what the logic computes.
    pub open spec fn wf(&self) -> bool {
        self@.valid() && self.kinds_registered() && cache_computed(self@, self.registry(), self.arithmetic())
    }

    /// An engine with the built-in node kinds, no node and nothing cached,
    /// whose numeric kinds rely on `arithmetic`.
    pub fn new(arithmetic: A) -> (engine: Self)
        ensures
            engine.wf(),
            engine@.nodes.len() == 0,
            engine@.cache.len() == 0,
            engine.registry() == builtin_registry(),
            engine.arithmetic() == arithmetic,
    {
        let engine = GraphEngine {
            nodes: Vec::new(),
            cache: Vec::new(),
            node_registry: get_node_registry(),
            arithmetic,
        };
        proof {
            assert(engine@.nodes.len() == 0);
            assert forall|a: Seq<char>, out: nat, b: Seq<char>, inp: nat|
                #![trigger crate::model::forward_count(engine@.nodes, a, out, b, inp)]
                #![trigger crate::model::backward_count(engine@.nodes, a, out, b, inp)]
                crate::model::agrees(engine@.nodes, a, out, b, inp) by {
                assert(!has_node(engine@.nodes, a));
                assert(!has_node(engine@.nodes, b));
            }
        }
        engine
    }

    /// The schema of every registered node kind, under the identifier of the
    /// kind, in the order of the registry.
    pub fn get_node_defs(&self) -> (schemas: Vec<(&String, &NodeSchema)>)
        ensures
            schemas@.len() == self.registry().len(),
            forall|i: int|
                0 <= i < schemas@.len() ==> {
                    &&& (#[trigger] schemas@[i]).0@ == self.registry()[i].0
                    &&& schemas@[i].1@ == self.registry()[i].1.schema
                },
    {
        let mut schemas: Vec<(&String, &NodeSchema)> = Vec::new();
        let mut i: usize = 0;
        while i < self.node_registry.len()
            invariant
                i <= self.node_registry.len(),
                schemas@.len() == i,
                forall|t: int|
                    0 <= t < i ==> {
                        &&& (#[trigger] schemas@[t]).0@ == self.registry()[t].0
                        &&& schemas@[t].1@ == self.registry()[t].1.schema
                    },
            decreases self.node_registry.len() - i,
        {
            schemas.push((&self.node_registry[i].0, &self.node_registry[i].1.schema));
            i += 1;
        }
        schemas
    }

    /// The node with the given identifier, if there is one.
    pub fn node(&self, id: &str) -> (r: Option<&Node>)
        requires
            self.wf(),
        ensures
            match r {
                Some(node) => has_node(self@.nodes, id@) && node@ == self@.nodes[index_of(
                    self@.nodes,
                    id@,
                )],
                None => !has_node(self@.nodes, id@),
            },
    {
        let key = id.to_owned();
        match find_index(&self.nodes, &key) {
            Some(i) => {
                proof {
                    lemma_index_of(self@.nodes, i as int);
                }
                Some(&self.nodes[i])
            },
            None => None,
        }
    }

    /// The cached output of the node with the given identifier, if the node
    /// exists and has one.
    pub fn cached(&self, id: &str) -> (r: Option<&Value>)
        requires
            self.wf(),
        ensures
            match r {
                Some(v) => self@.cached(id@) == Some(*v),
                None => self@.cached(id@) is None,
            },
    {
        let key = id.to_owned();
        match find_index(&self.nodes, &key) {
            Some(i) => {
                proof {
                    lemma_index_of(self@.nodes, i as int);
                }
                self.cache[i].as_ref()
            },
            None => None,
        }
    }

    /// Adds a node of a registered kind under a new identifier, with the
    /// sockets that the kind declares, nothing connected and nothing cached.
    pub fn add_node(&mut self, id: String, node_type: String, data: Vec<Value>) -> (r: Result<
        (),
        EngineError,
    >)
        requires
            old(self).wf(),
        ensures
            final(self).wf(),
            final(self).registry() == old(self).registry(),
            final(self).arithmetic() == old(self).arithmetic(),
            final(self)@ == after_add_node(
                old(self)@,
                old(self).registry(),
                id@,
                node_type@,
                data@,
            ),
            match r {
                Ok(()) => add_node_failure(old(self)@, old(self).registry(), id@, node_type@)
                    is None,
                Err(e) => add_node_failure(old(self)@, old(self).registry(), id@, node_type@)
                    == Some(e@),
            },
    {
        if let Some(i) = find_index(&self.nodes, &id) {
            assert(self@.nodes[i as int].id == id@);
            return Err(EngineError::InvalidOperation);
        }
        let (inputs, outputs) = match lookup(&self.node_registry, &node_type) {
            Some(definition) => (
                definition.schema.io.inputs.len(),
                definition.schema.io.outputs.len(),
            ),
            None => {
                return Err(EngineError::UnknownKind(node_type));
            },
        };
        let node = Node {
            id,
            node_type,
            inputs: empty_sockets(inputs),
            outputs: empty_sockets(outputs),
            data,
        };
        let ghost fresh = NodeModel::fresh(
            id@,
            node_type@,
            inputs as nat,
            outputs as nat,
            data@,
        );
        proof {
            assert(node@.inputs =~~= fresh.inputs);
            assert(node@.outputs =~~= fresh.outputs);
            assert(node@ == fresh);
        }
        self.nodes.push(node);
        self.cache.push(None);
        proof {
            assert(self@.nodes =~= old(self)@.nodes.push(fresh));
            lemma_add_node_valid(old(self)@, fresh);
            lemma_add_node_computed(old(self)@, fresh, old(self).registry(), old(self).arithmetic());
            assert forall|i: int| 0 <= i < self@.nodes.len() implies {
                let node = #[trigger] self@.nodes[i];
                &&& definition_of(self.registry(), node.node_type) matches Some(definition)
                &&& node.inputs.len() == definition.schema.io.inputs.len()
                &&& node.outputs.len() == definition.schema.io.outputs.len()
            } by {
                if i < old(self)@.nodes.len() {
                    assert(self@.nodes[i] == old(self)@.nodes[i]);
                }
            }
        }
        Ok(())
    }

    /// Adds an edge from an output socket of one node to an input socket of
    /// another, recorded once on either end, and invalidates the target. An
    /// edge that is recorded already is accepted and left as it is; the
    /// target is invalidated all the same. Returns the identifiers of the
    /// target and of everything downstream of it.
    pub fn add_edge(
        &mut self,
        source_id: String,
        source_output_index: usize,
        target_id: String,
        target_input_index: usize,
    ) -> (r: Result<Vec<String>, EngineError>)
        requires
            old(self).wf(),
        ensures
            final(self).wf(),
            final(self).registry() == old(self).registry(),
            final(self).arithmetic() == old(self).arithmetic(),
            final(self)@ == after_add_edge(
                old(self)@,
                source_id@,
                source_output_index as nat,
                target_id@,
                target_input_index as nat,
            ),
            match r {
                Ok(dirty) => {
                    &&& add_edge_failure(
                        old(self)@,
                        source_id@,
                        source_output_index as nat,
                        target_id@,
                        target_input_index as nat,
                    ) is None
                    &&& id_set(dirty@) == add_edge_dirty(
                        old(self)@,
                        source_id@,
                        source_output_index as nat,
                        target_id@,
                        target_input_index as nat,
                    )
                    &&& distinct(dirty@)
                },
                Err(e) => add_edge_failure(
                    old(self)@,
                    source_id@,
                    source_output_index as nat,
                    target_id@,
                    target_input_index as nat,
                ) == Some(e@),
            },
    {
        if source_id == target_id {
            return Err(EngineError::InvalidOperation);
        }
        let a = match find_index(&self.nodes, &source_id) {
            Some(a) => a,
            None => {
                return Err(EngineError::NotFound(source_id));
            },
        };
        proof {
            lemma_index_of(self@.nodes, a as int);
        }
        let b = match find_index(&self.nodes, &target_id) {
            Some(b) => b,
            None => {
                return Err(EngineError::NotFound(target_id));
            },
        };
        proof {
            lemma_index_of(self@.nodes, b as int);
        }
        if source_output_index >= self.nodes[a].outputs.len() {
            return Err(EngineError::InvalidIndex { output: true });
        }
        if target_input_index >= self.nodes[b].inputs.len() {
            return Err(EngineError::InvalidIndex { output: false });
        }
        if !records(&self.nodes[a].outputs[source_output_index], &target_id, target_input_index) {
            push_link(&mut self.nodes, a, true, source_output_index, target_id, target_input_index);
            assert(self@.nodes[b as int] == old(self)@.nodes[b as int]);
            push_link(
                &mut self.nodes,
                b,
                false,
                target_input_index,
                source_id,
                source_output_index,
            );
        }
        proof {
            let before = old(self)@;
            let linked = before.linked(
                a as int,
                source_output_index as nat,
                b as int,
                target_input_index as nat,
            );
            assert(self@.nodes =~= linked);
            lemma_linked_sound(
                before,
                a as int,
                source_output_index as nat,
                b as int,
                target_input_index as nat,
            );
            lemma_connect_valid(
                before,
                a as int,
                source_output_index as nat,
                b as int,
                target_input_index as nat,
            );
            lemma_invalidate_computed(
                before, linked, b as int,
                old(self).registry(),
                old(self).arithmetic(),
            );
        }
        let dirty = self.invalidate_cache(b);
        proof {
            assert(id_set(dirty@) =~= self@.downstream(b as int));
            self.lemma_kinds_kept(old(self));
        }
        Ok(dirty)
    }

    /// Removes the record of an edge from both of its ends and invalidates
    /// the target. Returns the identifiers of the target and of everything
    /// downstream of it. An edge that is not there is no failure, nor is a
    /// socket index that is out of range; between a node and itself there is
    /// nothing to remove and nothing to invalidate.
    pub fn remove_edge(
        &mut self,
        source_id: String,
        source_output_index: usize,
        target_id: String,
        target_input_index: usize,
    ) -> (r: Result<Vec<String>, EngineError>)
        requires
            old(self).wf(),
        ensures
            final(self).wf(),
            final(self).registry() == old(self).registry(),
            final(self).arithmetic() == old(self).arithmetic(),
            final(self)@ == after_remove_edge(
                old(self)@,
                source_id@,
                source_output_index as nat,
                target_id@,
                target_input_index as nat,
            ),
            match r {
                Ok(dirty) => {
                    &&& remove_edge_failure(old(self)@, source_id@, target_id@) is None
                    &&& id_set(dirty@) == remove_edge_dirty(
                        old(self)@,
                        source_id@,
                        source_output_index as nat,
                        target_id@,
                        target_input_index as nat,
                    )
                    &&& distinct(dirty@)
                },
                Err(e) => remove_edge_failure(old(self)@, source_id@, target_id@) == Some(e@),
            },
    {
        if source_id == target_id {
            return Ok(Vec::new());
        }
        let a = match find_index(&self.nodes, &source_id) {
            Some(a) => a,
            None => {
                return Err(EngineError::NotFound(source_id));
            },
        };
        proof {
            lemma_index_of(self@.nodes, a as int);
        }
        let b = match find_index(&self.nodes, &target_id) {
            Some(b) => b,
            None => {
                return Err(EngineError::NotFound(target_id));
            },
        };
        proof {
            lemma_index_of(self@.nodes, b as int);
        }
        drop_links(&mut self.nodes, a, true, source_output_index, &target_id, target_input_index);
        assert(self@.nodes[b as int] == old(self)@.nodes[b as int]);
        drop_links(&mut self.nodes, b, false, target_input_index, &source_id, source_output_index);
        proof {
            let before = old(self)@;
            let unlinked = before.unlinked(
                a as int,
                source_output_index as nat,
                b as int,
                target_input_index as nat,
            );
            assert(self@.nodes =~= unlinked);
            lemma_unlinked_sound(
                before,
                a as int,
                source_output_index as nat,
                b as int,
                target_input_index as nat,
            );
            lemma_disconnect_valid(
                before,
                a as int,
                source_output_index as nat,
                b as int,
                target_input_index as nat,
            );
            lemma_invalidate_computed(
                before, unlinked, b as int,
                old(self).registry(),
                old(self).arithmetic(),
            );
        }
        let dirty = self.invalidate_cache(b);
        proof {
            assert(id_set(dirty@) =~= self@.downstream(b as int));
            self.lemma_kinds_kept(old(self));
        }
        Ok(dirty)
    }

    /// Replaces the data of a node and invalidates it. Returns the identifiers
    /// of the node and of everything downstream of it; for an identifier that
    /// no node has, changes nothing and returns none.
    pub fn update_node_data(&mut self, id: &str, data: Vec<Value>) -> (r: Result<
        Vec<String>,
        EngineError,
    >)
        requires
            old(self).wf(),
        ensures
            final(self).wf(),
            final(self).registry() == old(self).registry(),
            final(self).arithmetic() == old(self).arithmetic(),
            final(self)@ == after_update(old(self)@, id@, data@),
            r matches Ok(dirty) && id_set(dirty@) == update_dirty(final(self)@, id@) && distinct(
                dirty@,
            ),
    {
        let key = id.to_owned();
        let i = match find_index(&self.nodes, &key) {
            Some(i) => i,
            None => {
                return Ok(Vec::new());
            },
        };
        proof {
            lemma_index_of(self@.nodes, i as int);
        }
        self.nodes[i].data = data;
        proof {
            let before = old(self)@;
            let node = before.nodes[i as int];
            assert(self@.nodes[i as int] == NodeModel { data: data@, ..node });
            assert(self@.nodes =~= before.nodes.update(
                i as int,
                NodeModel { data: data@, ..node },
            ));
            lemma_data_sound(before.nodes, i as int, data@);
            lemma_set_data_valid(before, i as int, data@);
            lemma_invalidate_computed(
                before, self@.nodes, i as int,
                old(self).registry(),
                old(self).arithmetic(),
            );
        }
        let dirty = self.invalidate_cache(i);
        proof {
            assert(id_set(dirty@) =~= self@.downstream(i as int));
            self.lemma_kinds_kept(old(self));
        }
        Ok(dirty)
    }

    /// Deletes a node: empties the cache slots of the node and of everything
    /// downstream of it, takes every link to the node off the other nodes, and
    /// drops the node from the table. Returns the identifiers that its output
    /// links name: its direct consumers.
    pub fn remove_node(&mut self, id: &str) -> (r: Result<Vec<String>, EngineError>)
        requires
            old(self).wf(),
        ensures
            final(self).wf(),
            final(self).registry() == old(self).registry(),
            final(self).arithmetic() == old(self).arithmetic(),
            final(self)@ == after_remove_node(old(self)@, id@),
            match r {
                Ok(dirty) => {
                    &&& remove_node_failure(old(self)@, id@) is None
                    &&& id_set(dirty@) == remove_node_dirty(old(self)@, id@)
                    &&& distinct(dirty@)
                },
                Err(e) => remove_node_failure(old(self)@, id@) == Some(e@),
            },
    {
        let key = id.to_owned();
        let i = match find_index(&self.nodes, &key) {
            Some(i) => i,
            None => {
                return Err(EngineError::NotFound(key));
            },
        };
        proof {
            lemma_index_of(self@.nodes, i as int);
        }
        let ghost before = self@;
        let dirty = consumers_of(&self.nodes[i]);
        let _ = self.invalidate_cache(i);
        let _ = self.nodes.remove(i);
        let _ = self.cache.remove(i);
        let ghost cut = self@.nodes;
        proof {
            assert(cut =~= before.nodes.remove(i as int));
        }
        let n = self.nodes.len();
        let mut j: usize = 0;
        while j < n
            invariant
                n == self.nodes.len(),
                n == cut.len(),
                j <= n,
                0 <= i < before.invalidate(i as int).cache.len(),
                self.registry() == old(self).registry(),
                self.arithmetic() == old(self).arithmetic(),
                self.cache@ == before.invalidate(i as int).cache.remove(i as int),
                forall|t: int| 0 <= t < j ==> (#[trigger] self@.nodes[t]) == cut[t].stripped_of(key@),
                forall|t: int| j <= t < n ==> (#[trigger] self@.nodes[t]) == cut[t],
            decreases n - j,
        {
            let ghost held = self@.nodes;
            strip_node(&mut self.nodes[j], &key);
            proof {
                assert(held[j as int] == cut[j as int]);
                assert(self@.nodes[j as int] == held[j as int].stripped_of(key@));
                assert forall|t: int| 0 <= t < n && t != j implies #[trigger] self@.nodes[t]
                    == held[t] by {}
            }
            j += 1;
        }
        proof {
            assert(self@.nodes =~= before.severed(i as int));
            lemma_remove_node_valid(before, i as int);
            lemma_remove_node_computed(
                before,
                i as int,
                old(self).registry(),
                old(self).arithmetic(),
            );
            assert forall|t: int| 0 <= t < self@.nodes.len() implies {
                let node = #[trigger] self@.nodes[t];
                &&& definition_of(self.registry(), node.node_type) matches Some(definition)
                &&& node.inputs.len() == definition.schema.io.inputs.len()
                &&& node.outputs.len() == definition.schema.io.outputs.len()
            } by {
                let at = if t < i { t } else { t + 1 };
                let node = before.nodes[at];
                assert(definition_of(old(self).registry(), node.node_type) is Some);
                assert(self@.nodes[t] == node.stripped_of(key@));
            }
        }
        Ok(dirty)
    }

    /// Evaluates node `i`: returns its cached value if it has one; otherwise
    /// evaluates its sources, socket by socket and link by link, computes the
    /// node from their values and its data, and caches the result. `visiting`
    /// marks the nodes whose evaluation is under way, those on `path` before
    /// the node: to come by one of them again is to depend on oneself.
    fn eval_recursive(
        &mut self,
        i: usize,
        visiting: &mut Vec<bool>,
        Ghost(path): Ghost<Seq<int>>,
    ) -> (r: Result<Value, EngineError>)
        requires
            old(self).wf(),
            i < old(self)@.nodes.len(),
            old(visiting).len() == old(self)@.nodes.len(),
            is_path(old(self)@.nodes, false, path),
            path.last() == i,
            forall|x: int|
                0 <= x < old(visiting).len() && #[trigger] old(visiting)@[x] ==> {
                    &&& old(self)@.cache[x] is None
                    &&& before_end(path, x)
                },
        ensures
            final(self).wf(),
            final(self).registry() == old(self).registry(),
            final(self).arithmetic() == old(self).arithmetic(),
            final(visiting)@ == old(visiting)@,
            old(self)@.grown(final(self)@, i as int),
            old(self)@.cache[i as int] is Some ==> final(self)@ == old(self)@,
            forall|x: int|
                0 <= x < old(visiting).len() && #[trigger] old(visiting)@[x]
                    ==> final(self)@.cache[x] is None,
            match r {
                Ok(v) => final(self)@.cache[i as int] == Some(v),
                Err(e) => {
                    &&& final(self)@.cache[i as int] is None
                    &&& match e@ {
                        Failure::CyclicDependency => cyclic_from(old(self)@.nodes, path[0]),
                        Failure::ComputeError(message) => exists|j: int| #[trigger]
                            reaches(old(self)@.nodes, false, i as int, j) && refused_at(
                                old(self).registry(),
                                old(self).arithmetic(),
                                final(self)@,
                                j,
                                message,
                            ),
                        _ => false,
                    }
                },
            },
        decreases unmarked(old(visiting)@),
    {
        match &self.cache[i] {
            Some(v) => {
                return Ok(v.clone());
            },
            None => {},
        }
        if visiting[i] {
            proof {
                assert(old(visiting)@[i as int]);
                assert(before_end(path, i as int));
                let p = choose|p: int| 0 <= p < path.len() - 1 && path[p] == i as int;
                assert(path[p] == path[path.len() - 1]);
            }
            return Err(EngineError::CyclicDependency);
        }
        let ghost before = self@;
        let ghost table = self@.nodes;
        let ghost marks = visiting@;
        visiting.set(i, true);
        proof {
            lemma_mark(marks, i as int);
        }
        let mut input_values: Vec<Vec<Value>> = Vec::new();
        let sockets = self.nodes[i].inputs.len();
        let mut s: usize = 0;
        while s < sockets
            invariant
                before == old(self)@,
                table == before.nodes,
                marks == old(visiting)@,
                visiting@ == marks.update(i as int, true),
                !marks[i as int],
                marks.len() == table.len(),
                self.wf(),
                self.registry() == old(self).registry(),
                self.arithmetic() == old(self).arithmetic(),
                before.grown(self@, i as int),
                unmarked(visiting@) < unmarked(marks),
                forall|x: int|
                    0 <= x < marks.len() && #[trigger] visiting@[x] ==> self@.cache[x] is None,
                forall|x: int| 0 <= x < marks.len() && #[trigger] marks[x] ==> before_end(path, x),
                i < table.len(),
                is_path(table, false, path),
                path.last() == i,
                sockets == table[i as int].inputs.len(),
                s <= sockets,
                input_values.len() == s,
                forall|s2: int|
                    0 <= s2 < s ==> (#[trigger] input_values[s2])@.len()
                        == table[i as int].inputs[s2].len(),
                forall|s2: int, k2: int|
                    0 <= s2 < s && table[i as int].has_link(false, s2, k2) ==> holds_value(
                        self@.cache,
                        index_of(table, (#[trigger] table[i as int].link(false, s2, k2)).id),
                        input_values[s2][k2],
                    ),
            decreases sockets - s,
        {
            let mut socket_values: Vec<Value> = Vec::new();
            let links = self.nodes[i].inputs[s].len();
            let mut k: usize = 0;
            while k < links
                invariant
                    before == old(self)@,
                    table == before.nodes,
                    marks == old(visiting)@,
                    visiting@ == marks.update(i as int, true),
                    !marks[i as int],
                    marks.len() == table.len(),
                    unmarked(visiting@) < unmarked(marks),
                    self.wf(),
                    self.registry() == old(self).registry(),
                    self.arithmetic() == old(self).arithmetic(),
                    before.grown(self@, i as int),
                    forall|x: int|
                        0 <= x < marks.len() && #[trigger] visiting@[x] ==> self@.cache[x] is None,
                    forall|x: int|
                        0 <= x < marks.len() && #[trigger] marks[x] ==> before_end(path, x),
                    i < table.len(),
                    is_path(table, false, path),
                    path.last() == i,
                    s < table[i as int].inputs.len(),
                    links == table[i as int].inputs[s as int].len(),
                    k <= links,
                    input_values.len() == s,
                    socket_values.len() == k,
                    forall|s2: int|
                        0 <= s2 < s ==> (#[trigger] input_values[s2])@.len()
                            == table[i as int].inputs[s2].len(),
                    forall|s2: int, k2: int|
                        0 <= s2 < s && table[i as int].has_link(false, s2, k2) ==> holds_value(
                            self@.cache,
                            index_of(table, (#[trigger] table[i as int].link(false, s2, k2)).id),
                            input_values[s2][k2],
                        ),
                    forall|k2: int|
                        0 <= k2 < k ==> holds_value(
                            self@.cache,
                            index_of(
                                table,
                                (#[trigger] table[i as int].link(false, s as int, k2)).id,
                            ),
                            socket_values[k2],
                        ),
                decreases links - k,
            {
                proof {
                    assert(table[i as int].has_link(false, s as int, k as int));
                    lemma_counterpart(table, false, i as int, s as int, k as int);
                }
                let j = match find_index(&self.nodes, &self.nodes[i].inputs[s][k].id) {
                    Some(j) => j,
                    None => {
                        proof {
                            assert(false);
                        }
                        return Err(EngineError::NotFound(self.nodes[i].inputs[s][k].id.clone()));
                    },
                };
                let ghost between = self@;
                let ghost longer = path.push(j as int);
                proof {
                    lemma_index_of(table, j as int);
                    assert(table[i as int].link(false, s as int, k as int).id == table[j as int].id);
                    assert(step(table, false, i as int, j as int));
                    lemma_path_push(table, false, path, j as int);
                    lemma_reaches_self(table, false, i as int);
                    lemma_reaches_step(table, false, i as int, i as int, j as int);
                    assert forall|x: int|
                        0 <= x < visiting.len() && #[trigger] visiting@[x] implies before_end(
                        longer,
                        x,
                    ) by {
                        if x == i {
                            assert(longer[path.len() - 1] == x);
                        } else {
                            assert(marks[x]);
                            assert(before_end(path, x));
                            let p = choose|p: int| 0 <= p < path.len() - 1 && path[p] == x;
                            assert(longer[p] == x);
                        }
                    }
                }
                let v = match self.eval_recursive(j, visiting, Ghost(longer)) {
                    Ok(v) => v,
                    Err(e) => {
                        proof {
                            lemma_grown_through(before, between, self@, i as int, j as int);
                            if e@ is ComputeError {
                                let message = e@->ComputeError_0;
                                let x = choose|x: int| #[trigger]
                                    reaches(table, false, j as int, x) && refused_at(
                                        self.registry(),
                                        self.arithmetic(),
                                        self@,
                                        x,
                                        message,
                                    );
                                lemma_reaches_trans(table, false, i as int, j as int, x);
                            }
                            assert(longer[0] == path[0]);
                            assert(visiting@[i as int]);
                            assert(self@.cache[i as int] is None);
                        }
                        visiting.set(i, false);
                        proof {
                            assert(visiting@ =~= marks);
                        }
                        return Err(e);
                    },
                };
                proof {
                    lemma_grown_through(before, between, self@, i as int, j as int);
                    assert forall|s2: int, k2: int|
                        0 <= s2 < s && table[i as int].has_link(
                            false,
                            s2,
                            k2,
                        ) implies holds_value(
                        self@.cache,
                        index_of(table, (#[trigger] table[i as int].link(false, s2, k2)).id),
                        input_values[s2][k2],
                    ) by {
                        assert(holds_value(
                            between.cache,
                            index_of(table, table[i as int].link(false, s2, k2).id),
                            input_values[s2][k2],
                        ));
                    }
                    assert forall|k2: int| 0 <= k2 < k implies holds_value(
                        self@.cache,
                        index_of(table, (#[trigger] table[i as int].link(false, s as int, k2)).id),
                        socket_values[k2],
                    ) by {
                        assert(holds_value(
                            between.cache,
                            index_of(table, table[i as int].link(false, s as int, k2).id),
                            socket_values[k2],
                        ));
                    }
                }
                socket_values.push(v);
                k += 1;
            }
            input_values.push(socket_values);
            s += 1;
        }
        proof {
            assert(visiting@[i as int]);
            assert(self@.cache[i as int] is None);
        }
        visiting.set(i, false);
        let ghost held = self@;
        proof {
            assert(visiting@ =~= marks);
            assert(definition_of(self.registry(), table[i as int].node_type) is Some);
            assert forall|j: int| #[trigger] step(table, false, i as int, j) implies held.cache[j]
                is Some by {
                let (s2, k2) = choose|s2: int, k2: int|
                    table[i as int].has_link(false, s2, k2) && (#[trigger] table[i as int].link(
                        false,
                        s2,
                        k2,
                    )).id == table[j].id;
                lemma_index_of(table, j);
                assert(holds_value(
                    held.cache,
                    index_of(table, table[i as int].link(false, s2, k2).id),
                    input_values[s2][k2],
                ));
            }
            assert forall|s2: int| 0 <= s2 < sockets implies #[trigger] arrivals(
                input_values@,
            )[s2] == held.gathered(i as int)[s2] by {
                assert forall|k2: int| 0 <= k2 < table[i as int].inputs[s2].len() implies arrivals(
                    input_values@,
                )[s2][k2] == held.gathered(i as int)[s2][k2] by {
                    assert(table[i as int].has_link(false, s2, k2));
                    lemma_counterpart(table, false, i as int, s2, k2);
                    assert(holds_value(
                        held.cache,
                        index_of(table, table[i as int].link(false, s2, k2).id),
                        input_values[s2][k2],
                    ));
                }
                assert(arrivals(input_values@)[s2] =~= held.gathered(i as int)[s2]);
            }
            assert(arrivals(input_values@) =~= held.gathered(i as int));
        }
        let result = match compute_logic(
            &self.node_registry,
            &self.arithmetic,
            &self.nodes[i].node_type,
            &input_values,
            &self.nodes[i].data,
        ) {
            Ok(v) => v,
            Err(e) => {
                proof {
                    lemma_reaches_self(table, false, i as int);
                    assert(e@ is ComputeError);
                    assert(refused_at(
                        self.registry(),
                        self.arithmetic(),
                        held,
                        i as int,
                        e@->ComputeError_0,
                    ));
                }
                return Err(e);
            },
        };
        self.cache.set(i, Some(result.clone()));
        proof {
            lemma_reaches_self(table, false, i as int);
            assert(self@.nodes == held.nodes);
            assert(self@.cache =~= held.cache.update(i as int, Some(result)));
            assert forall|x: int, y: int|
                0 <= x < self@.cache.len() && self@.cache[x] is Some && #[trigger] step(
                    self@.nodes,
                    false,
                    x,
                    y,
                ) implies self@.cache[y] is Some by {
                assert(step(held.nodes, false, x, y));
            }
            lemma_fresh_off_cycle(held, i as int);
            lemma_store_computed(held, i as int, result, self.registry(), self.arithmetic());
            self.lemma_kinds_kept(old(self));
        }
        Ok(result)
    }

    /// The value that arrives first on input socket `s` of node `j`, if any
    /// does: the cached value of the first source that has one.
    fn first_arrival(&self, j: usize, s: usize) -> (r: Option<Value>)
        requires
            self.wf(),
            j < self@.nodes.len(),
            s < self@.nodes[j as int].inputs.len(),
        ensures
            r == self@.display(self@.nodes[j as int].inputs[s as int]),
    {
        let ghost m = self@;
        let ghost links = m.nodes[j as int].inputs[s as int];
        let count = self.nodes[j].inputs[s].len();
        let mut k: usize = 0;
        while k < count
            invariant
                m == self@,
                self.wf(),
                j < m.nodes.len(),
                s < m.nodes[j as int].inputs.len(),
                links == m.nodes[j as int].inputs[s as int],
                count == links.len(),
                k <= count,
                forall|k2: int| 0 <= k2 < k ==> m.cached((#[trigger] links[k2]).id) is None,
            decreases count - k,
        {
            proof {
                assert(m.nodes[j as int].has_link(false, s as int, k as int));
                assert(m.nodes[j as int].link(false, s as int, k as int) == links[k as int]);
                lemma_counterpart(m.nodes, false, j as int, s as int, k as int);
            }
            match find_index(&self.nodes, &self.nodes[j].inputs[s][k].id) {
                Some(x) => {
                    proof {
                        lemma_index_of(m.nodes, x as int);
                    }
                    match &self.cache[x] {
                        Some(v) => {
                            proof {
                                assert(m.is_first_cached(links, k as int));
                                let c = choose|c: int| m.is_first_cached(links, c);
                                if c < k {
                                    assert(m.cached(links[c].id) is None);
                                } else if c > k {
                                    assert(m.cached(links[k as int].id) is None);
                                }
                            }
                            return Some(v.clone());
                        },
                        None => {},
                    }
                },
                None => {},
            }
            k += 1;
        }
        proof {
            if exists|c: int| m.is_first_cached(links, c) {
                let c = choose|c: int| m.is_first_cached(links, c);
                assert(m.cached(links[c].id) is None);
            }
        }
        None
    }

    /// What the state shows of node `j`.
    fn trace_entry(&self, j: usize) -> (entry: NodeCache)
        requires
            self.wf(),
            j < self@.nodes.len(),
        ensures
            shows(self@, j as int, entry@),
    {
        let mut inputs: Vec<Option<Value>> = Vec::new();
        let sockets = self.nodes[j].inputs.len();
        let mut s: usize = 0;
        while s < sockets
            invariant
                self.wf(),
                j < self@.nodes.len(),
                sockets == self@.nodes[j as int].inputs.len(),
                s <= sockets,
                inputs.len() == s,
                forall|t: int|
                    0 <= t < s ==> #[trigger] inputs[t] == self@.display(
                        self@.nodes[j as int].inputs[t],
                    ),
            decreases sockets - s,
        {
            inputs.push(self.first_arrival(j, s));
            s += 1;
        }
        let mut outputs: Vec<Value> = Vec::new();
        match &self.cache[j] {
            Some(v) => {
                outputs.push(v.clone());
            },
            None => {
                outputs.push(null_value());
            },
        }
        NodeCache { inputs, outputs }
    }

    /// The trace of node `i`: what the state shows of the node and of every
    /// node upstream of it.
    fn build_trace(&self, i: usize) -> (trace: Vec<(String, NodeCache)>)
        requires
            self.wf(),
            i < self@.nodes.len(),
        ensures
            traces(self@, i as int, trace@),
    {
        let ghost m = self@;
        let marks = mark_reachable(&self.nodes, i, false);
        let picked = marked_positions(&marks);
        let mut trace: Vec<(String, NodeCache)> = Vec::new();
        let mut q: usize = 0;
        while q < picked.len()
            invariant
                m == self@,
                self.wf(),
                marks.len() == m.nodes.len(),
                lists_marked(marks@, picked@),
                q <= picked.len(),
                trace.len() == q,
                forall|p: int|
                    0 <= p < q ==> {
                        &&& (#[trigger] trace[p]).0@ == m.nodes[picked[p] as int].id
                        &&& shows(m, picked[p] as int, trace[p].1@)
                    },
            decreases picked.len() - q,
        {
            let j = picked[q];
            assert(is_marked(marks@, picked@[q as int] as int));
            let entry = self.trace_entry(j);
            trace.push((self.nodes[j].id.clone(), entry));
            q += 1;
        }
        proof {
            let ids = trace_ids(trace@);
            assert forall|p: int| 0 <= p < ids.len() implies (#[trigger] ids[p])@
                == m.nodes[picked[p] as int].id by {
                assert(trace[p].0@ == m.nodes[picked[p] as int].id);
            }
            lemma_names_of_marked(m.nodes, marks@, picked@, ids);
            assert forall|p: int| 0 <= p < trace.len() implies shows(
                m,
                index_of(m.nodes, (#[trigger] trace[p]).0@),
                trace[p].1@,
            ) by {
                assert(is_marked(marks@, picked@[p] as int));
                lemma_index_of(m.nodes, picked[p] as int);
            }
            assert(id_set(ids) =~= m.upstream(i as int)) by {
                assert forall|id: Seq<char>| id_set(ids).contains(id) == m.upstream(
                    i as int,
                ).contains(id) by {
                    if id_set(ids).contains(id) {
                        let t = choose|t: int|
                            is_marked(marks@, t) && (#[trigger] m.nodes[t]).id == id;
                        assert(reaches(m.nodes, false, i as int, t));
                    }
                    if m.upstream(i as int).contains(id) {
                        let t = choose|t: int| #[trigger]
                            reaches(m.nodes, false, i as int, t) && m.nodes[t].id == id;
                        lemma_reaches_in_table(m.nodes, false, i as int, t);
                        assert(is_marked(marks@, t));
                    }
                }
            }
        }
        trace
    }

    /// Evaluates a node and everything that it depends on, as far as it is
    /// not cached yet, and returns the trace of the node: for the node and
    /// each node upstream of it, the values arriving on its inputs and its
    /// output.
    pub fn evaluate_node(&mut self, id: &str) -> (r: Result<Vec<(String, NodeCache)>, EngineError>)
        requires
            old(self).wf(),
        ensures
            final(self).wf(),
            final(self).registry() == old(self).registry(),
            final(self).arithmetic() == old(self).arithmetic(),
            evaluates(
                old(self).registry(),
                old(self).arithmetic(),
                old(self)@,
                id@,
                r,
                final(self)@,
            ),
    {
        let key = id.to_owned();
        let i = match find_index(&self.nodes, &key) {
            Some(i) => i,
            None => {
                return Err(EngineError::NotFound(key));
            },
        };
        proof {
            lemma_index_of(self@.nodes, i as int);
        }
        let mut visiting: Vec<bool> = vec![false; self.nodes.len()];
        let ghost start = Seq::<int>::empty().push(i as int);
        proof {
            assert(is_path(self@.nodes, false, start));
        }
        match self.eval_recursive(i, &mut visiting, Ghost(start)) {
            Ok(_) => {},
            Err(e) => {
                return Err(e);
            },
        }
        Ok(self.build_trace(i))
    }

    /// An engine whose nodes are those of another with the same kinds and the
    /// same numbers of sockets, under the same registry, has its kinds
    /// registered if the other has.
    proof fn lemma_kinds_kept(&self, other: &Self)
        requires
            other.kinds_registered(),
            self.registry() == other.registry(),
            self@.nodes.len() == other@.nodes.len(),
            forall|i: int|
                0 <= i < self@.nodes.len() ==> {
                    &&& (#[trigger] self@.nodes[i]).node_type == other@.nodes[i].node_type
                    &&& self@.nodes[i].inputs.len() == other@.nodes[i].inputs.len()
                    &&& self@.nodes[i].outputs.len() == other@.nodes[i].outputs.len()
                },
        ensures
            self.kinds_registered(),
    {
        assert forall|i: int| 0 <= i < self@.nodes.len() implies {
            let node = #[trigger] self@.nodes[i];
            &&& definition_of(self.registry(), node.node_type) matches Some(definition)
            &&& node.inputs.len() == definition.schema.io.inputs.len()
            &&& node.outputs.len() == definition.schema.io.outputs.len()
        } by {
            let node = other@.nodes[i];
            assert(definition_of(other.registry(), node.node_type) is Some);
        }
    }

    /// Empties the cache slot of node `root` and of every node downstream of
    /// it, and returns their identifiers.
    fn invalidate_cache(&mut self, root: usize) -> (dirty: Vec<String>)
        requires
            sound(old(self)@.nodes),
            old(self)@.cache.len() == old(self)@.nodes.len(),
            root < old(self)@.nodes.len(),
        ensures
            final(self)@ == old(self)@.invalidate(root as int),
            final(self).registry() == old(self).registry(),
            final(self).arithmetic() == old(self).arithmetic(),
            id_set(dirty@) == old(self)@.downstream(root as int),
            distinct(dirty@),
    {
        let marks = mark_reachable(&self.nodes, root, true);
        let picked = marked_positions(&marks);
        let ghost before = self@;
        let mut dirty: Vec<String> = Vec::new();
        let mut q: usize = 0;
        while q < picked.len()
            invariant
                before == old(self)@,
                self@.nodes == before.nodes,
                self.registry() == old(self).registry(),
                self.arithmetic() == old(self).arithmetic(),
                self@.cache.len() == before.cache.len(),
                before.cache.len() == before.nodes.len(),
                marks.len() == before.nodes.len(),
                lists_marked(marks@, picked@),
                q <= picked.len(),
                dirty.len() == q,
                forall|p: int| 0 <= p < q ==> (#[trigger] dirty[p])@ == before.nodes[picked[p] as int].id,
                forall|t: int|
                    0 <= t < before.cache.len() ==> #[trigger] self@.cache[t] == if listed_before(
                        picked@,
                        q as int,
                        t,
                    ) {
                        None
                    } else {
                        before.cache[t]
                    },
            decreases picked.len() - q,
        {
            let t = picked[q];
            assert(is_marked(marks@, picked@[q as int] as int));
            self.cache.set(t, None);
            dirty.push(self.nodes[t].id.clone());
            proof {
                assert forall|x: int| 0 <= x < before.cache.len() implies #[trigger] self@.cache[x]
                    == if listed_before(picked@, q + 1, x) {
                    None
                } else {
                    before.cache[x]
                } by {
                    if listed_before(picked@, q as int, x) {
                        let p = choose|p: int| 0 <= p < q && #[trigger] picked@[p] as int == x;
                        assert(0 <= p < q + 1 && picked@[p] as int == x);
                    }
                    if x == t {
                        assert(0 <= q < q + 1 && picked@[q as int] as int == x);
                    }
                }
            }
            q += 1;
        }
        proof {
            lemma_names_of_marked(before.nodes, marks@, picked@, dirty@);
            assert(self@.cache =~= before.invalidate(root as int).cache) by {
                assert forall|t: int| 0 <= t < before.cache.len() implies self@.cache[t]
                    == before.invalidate(root as int).cache[t] by {
                    if listed_before(picked@, q as int, t) {
                        let p = choose|p: int| 0 <= p < q && #[trigger] picked@[p] as int == t;
                        assert(is_marked(marks@, picked@[p] as int));
                    }
                    if marks[t] {
                        assert(is_marked(marks@, t));
                    }
                }
            }
            assert(id_set(dirty@) =~= before.downstream(root as int)) by {
                assert forall|id: Seq<char>| id_set(dirty@).contains(id)
                    == before.downstream(root as int).contains(id) by {
                    if id_set(dirty@).contains(id) {
                        let t = choose|t: int|
                            is_marked(marks@, t) && (#[trigger] before.nodes[t]).id == id;
                        assert(reaches(before.nodes, true, root as int, t));
                    }
                    if before.downstream(root as int).contains(id) {
                        let t = choose|t: int| #[trigger]
                            reaches(before.nodes, true, root as int, t) && before.nodes[t].id
                                == id;
                        lemma_reaches_in_table(before.nodes, true, root as int, t);
                        assert(is_marked(marks@, t));
                    }
                }
            }
        }
        dirty
    }
}

} // verus!
