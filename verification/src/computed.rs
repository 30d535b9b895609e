//! The cache holds what the nodes compute: the cached value of every node is
//! the value that its logic gives it from its data and from the cached values
//! of its sources, by itself or by what the arithmetic answers to what the
//! logic asks of it.

use crate::definitions::{definition_of, DefinitionModel};
use crate::graph::lemma_index_of;
use crate::logic::{outcome, Arithmetic};
use crate::model::{distinct_ids, has_node, index_of, reaches, sound, step, GraphModel, NodeModel};
use crate::reach::{lemma_counterpart, lemma_reaches_self, lemma_reaches_step, lemma_step_back};
use crate::sound::{
    lemma_pushed_index, lemma_same_ids, lemma_severed_index, lemma_without_nothing,
};
use serde_json::Value;
use vstd::prelude::*;

verus! {

/// Whether the cached value of node `j`, if it has one, is what the node
/// computes.
pub open spec fn computed<A: Arithmetic>(
    m: GraphModel,
    registry: Seq<(Seq<char>, DefinitionModel)>,
    arithmetic: A,
    j: int,
) -> bool {
    match (m.cache[j], definition_of(registry, m.nodes[j].node_type)) {
        (Some(v), Some(definition)) => outcome(
            arithmetic,
            definition.logic,
            m.gathered(j),
            m.nodes[j].data,
            Ok(v),
        ),
        _ => true,
    }
}

/// Whether every cached value is what its node computes.
pub open spec fn cache_computed<A: Arithmetic>(
    m: GraphModel,
    registry: Seq<(Seq<char>, DefinitionModel)>,
    arithmetic: A,
) -> bool {
    forall|j: int| 0 <= j < m.nodes.len() ==> #[trigger] computed(m, registry, arithmetic, j)
}

/// A node that keeps its input links, and whose sources keep their cached
/// values, keeps the values that arrive on its inputs.
pub proof fn lemma_gathered_same(before: GraphModel, after: GraphModel, jb: int, ja: int)
    requires
        after.nodes[ja].inputs == before.nodes[jb].inputs,
        forall|s: int, k: int|
            before.nodes[jb].has_link(false, s, k) ==> after.cached(
                (#[trigger] before.nodes[jb].link(false, s, k)).id,
            ) == before.cached(before.nodes[jb].link(false, s, k).id),
    ensures
        after.gathered(ja) == before.gathered(jb),
{
    assert forall|s: int| 0 <= s < before.nodes[jb].inputs.len() implies #[trigger] after.gathered(
        ja,
    )[s] == before.gathered(jb)[s] by {
        assert forall|k: int| 0 <= k < before.nodes[jb].inputs[s].len() implies after.gathered(
            ja,
        )[s][k] == before.gathered(jb)[s][k] by {
            assert(before.nodes[jb].has_link(false, s, k));
            assert(before.nodes[jb].link(false, s, k) == before.nodes[jb].inputs[s][k]);
        }
        assert(after.gathered(ja)[s] =~= before.gathered(jb)[s]);
    }
    assert(after.gathered(ja) =~= before.gathered(jb));
}

/// Emptying the cache downstream of a node keeps the rest of the cache
/// computed, also where the node table has changed meanwhile, as long as
/// every node but the one invalidated has kept its kind, data and input
/// links.
pub proof fn lemma_invalidate_computed<A: Arithmetic>(
    before: GraphModel,
    nodes: Seq<NodeModel>,
    root: int,
    registry: Seq<(Seq<char>, DefinitionModel)>,
    arithmetic: A,
)
    requires
        distinct_ids(before.nodes),
        before.cache.len() == before.nodes.len(),
        cache_computed(before, registry, arithmetic),
        sound(nodes),
        nodes.len() == before.nodes.len(),
        0 <= root < nodes.len(),
        forall|j: int| 0 <= j < nodes.len() ==> (#[trigger] nodes[j]).id == before.nodes[j].id,
        forall|j: int|
            0 <= j < nodes.len() && j != root ==> {
                &&& (#[trigger] nodes[j]).node_type == before.nodes[j].node_type
                &&& nodes[j].data == before.nodes[j].data
                &&& nodes[j].inputs == before.nodes[j].inputs
            },
    ensures
        cache_computed(GraphModel { nodes, cache: before.cache }.invalidate(root), registry, arithmetic),
{
    let after = GraphModel { nodes, cache: before.cache }.invalidate(root);
    lemma_same_ids(before.nodes, nodes);
    lemma_reaches_self(nodes, true, root);
    assert forall|j: int| 0 <= j < after.nodes.len() implies #[trigger] computed(after, registry, arithmetic, j) by {
        if after.cache[j] is Some {
            assert(!reaches(nodes, true, root, j));
            assert(j != root);
            assert(computed(before, registry, arithmetic, j));
            assert forall|s: int, k: int| before.nodes[j].has_link(false, s, k) implies after.cached(
                (#[trigger] before.nodes[j].link(false, s, k)).id,
            ) == before.cached(before.nodes[j].link(false, s, k).id) by {
                assert(nodes[j].has_link(false, s, k));
                lemma_counterpart(nodes, false, j, s, k);
                let name = nodes[j].link(false, s, k).id;
                let x = index_of(nodes, name);
                assert(step(nodes, false, j, x));
                lemma_step_back(nodes, false, j, x);
                if reaches(nodes, true, root, x) {
                    lemma_reaches_step(nodes, true, root, x, j);
                }
                assert(index_of(before.nodes, name) == x);
            }
            lemma_gathered_same(before, after, j, j);
        }
    }
}

/// Adding a node keeps the cache computed.
pub proof fn lemma_add_node_computed<A: Arithmetic>(
    m: GraphModel,
    node: NodeModel,
    registry: Seq<(Seq<char>, DefinitionModel)>,
    arithmetic: A,
)
    requires
        m.valid(),
        cache_computed(m, registry, arithmetic),
        !has_node(m.nodes, node.id),
    ensures
        cache_computed(m.add_node(node), registry, arithmetic),
{
    let after = m.add_node(node);
    assert forall|j: int| 0 <= j < after.nodes.len() implies #[trigger] computed(after, registry, arithmetic, j) by {
        if j < m.nodes.len() && after.cache[j] is Some {
            assert(computed(m, registry, arithmetic, j));
            assert forall|s: int, k: int| m.nodes[j].has_link(false, s, k) implies after.cached(
                (#[trigger] m.nodes[j].link(false, s, k)).id,
            ) == m.cached(m.nodes[j].link(false, s, k).id) by {
                lemma_counterpart(m.nodes, false, j, s, k);
                lemma_pushed_index(m.nodes, node, m.nodes[j].link(false, s, k).id);
            }
            lemma_gathered_same(m, after, j, j);
        }
    }
}

/// Deleting a node keeps the cache computed.
pub proof fn lemma_remove_node_computed<A: Arithmetic>(
    m: GraphModel,
    i: int,
    registry: Seq<(Seq<char>, DefinitionModel)>,
    arithmetic: A,
)
    requires
        m.valid(),
        cache_computed(m, registry, arithmetic),
        0 <= i < m.nodes.len(),
    ensures
        cache_computed(m.remove_node(i), registry, arithmetic),
{
    let after = m.remove_node(i);
    let gone = m.nodes[i].id;
    lemma_reaches_self(m.nodes, true, i);
    assert forall|ja: int| 0 <= ja < after.nodes.len() implies #[trigger] computed(after, registry, arithmetic, ja) by {
        let jb = if ja < i {
            ja
        } else {
            ja + 1
        };
        assert(after.nodes[ja] == m.nodes[jb].stripped_of(gone));
        assert(after.cache[ja] == m.invalidate(i).cache[jb]);
        if after.cache[ja] is Some {
            assert(!reaches(m.nodes, true, i, jb));
            assert(computed(m, registry, arithmetic, jb));
            assert forall|s: int, k: int| m.nodes[jb].has_link(false, s, k) implies {
                &&& (#[trigger] m.nodes[jb].link(false, s, k)).id != gone
                &&& after.cached(m.nodes[jb].link(false, s, k).id) == m.cached(
                    m.nodes[jb].link(false, s, k).id,
                )
            } by {
                lemma_counterpart(m.nodes, false, jb, s, k);
                let name = m.nodes[jb].link(false, s, k).id;
                let x = index_of(m.nodes, name);
                assert(step(m.nodes, false, jb, x));
                lemma_step_back(m.nodes, false, jb, x);
                if reaches(m.nodes, true, i, x) {
                    lemma_reaches_step(m.nodes, true, i, x, jb);
                }
                lemma_index_of(m.nodes, i);
                assert(x != i);
                lemma_severed_index(m, i, name);
            }
            assert forall|s: int| 0 <= s < m.nodes[jb].inputs.len() implies #[trigger] after.nodes[ja].inputs[s]
                == m.nodes[jb].inputs[s] by {
                assert forall|k: int| 0 <= k < m.nodes[jb].inputs[s].len() implies !crate::model::leads_to(
                    #[trigger] m.nodes[jb].inputs[s][k],
                    gone,
                    None,
                ) by {
                    assert(m.nodes[jb].has_link(false, s, k));
                    assert(m.nodes[jb].link(false, s, k).id != gone);
                }
                lemma_without_nothing(m.nodes[jb].inputs[s], gone, None);
            }
            assert(after.nodes[ja].inputs =~= m.nodes[jb].inputs);
            lemma_gathered_same(m, after, jb, ja);
        }
    }
}

/// Caching the value of a node that was not cached keeps the cache computed,
/// provided that the value is what the logic of the node computes where the
/// logic decides by itself.
pub proof fn lemma_store_computed<A: Arithmetic>(
    m: GraphModel,
    i: int,
    v: Value,
    registry: Seq<(Seq<char>, DefinitionModel)>,
    arithmetic: A,
)
    requires
        m.valid(),
        cache_computed(m, registry, arithmetic),
        0 <= i < m.nodes.len(),
        m.cache[i] is None,
        forall|j: int| #[trigger] step(m.nodes, false, i, j) ==> m.cache[j] is Some,
        match definition_of(registry, m.nodes[i].node_type) {
            Some(definition) => outcome(
                arithmetic,
                definition.logic,
                m.gathered(i),
                m.nodes[i].data,
                Ok(v),
            ),
            None => true,
        },
    ensures
        cache_computed(
            GraphModel { nodes: m.nodes, cache: m.cache.update(i, Some(v)) },
            registry,
            arithmetic,
        ),
{
    let after = GraphModel { nodes: m.nodes, cache: m.cache.update(i, Some(v)) };
    assert forall|j: int| 0 <= j < after.nodes.len() implies #[trigger] computed(after, registry, arithmetic, j) by {
        if after.cache[j] is Some {
            assert(computed(m, registry, arithmetic, j));
            assert forall|s: int, k: int| m.nodes[j].has_link(false, s, k) implies after.cached(
                (#[trigger] m.nodes[j].link(false, s, k)).id,
            ) == m.cached(m.nodes[j].link(false, s, k).id) by {
                lemma_counterpart(m.nodes, false, j, s, k);
                let name = m.nodes[j].link(false, s, k).id;
                let x = index_of(m.nodes, name);
                assert(step(m.nodes, false, j, x));
                assert(m.cache[x] is Some);
            }
            lemma_gathered_same(m, after, j, j);
        }
    }
}

} // verus!
