//! The trace of an evaluation: what the state shows of a node and of the
//! nodes that it depends on.

use crate::contract::{distinct, id_set};
use crate::model::{index_of, GraphModel};
use crate::value::value_is_null;
use serde_json::Value;
use vstd::prelude::*;

verus! {

/// What an evaluation shows of one node: for each input socket the value
/// that arrives there first, if any, and the output of the node.
#[derive(Clone, Debug)]
pub struct NodeCache {
    pub inputs: Vec<Option<Value>>,
    pub outputs: Vec<Value>,
}

/// The model of a [`NodeCache`].
pub struct NodeCacheModel {
    pub inputs: Seq<Option<Value>>,
    pub outputs: Seq<Value>,
}

impl View for NodeCache {
    type V = NodeCacheModel;

    open spec fn view(&self) -> NodeCacheModel {
        NodeCacheModel { inputs: self.inputs@, outputs: self.outputs@ }
    }
}

/// Whether `entry` shows node `j` as the state has it: on each input socket
/// the cached value of the first source that has one, and as the one output
/// the cached value of the node, or null where it has none.
pub open spec fn shows(m: GraphModel, j: int, entry: NodeCacheModel) -> bool {
    &&& entry.inputs.len() == m.nodes[j].inputs.len()
    &&& forall|s: int|
        0 <= s < entry.inputs.len() ==> #[trigger] entry.inputs[s] == m.display(
            m.nodes[j].inputs[s],
        )
    &&& entry.outputs.len() == 1
    &&& match m.cache[j] {
        Some(v) => entry.outputs[0] == v,
        None => value_is_null(entry.outputs[0]),
    }
}

/// The identifiers under which a trace holds its entries.
pub open spec fn trace_ids(trace: Seq<(String, NodeCache)>) -> Seq<String> {
    trace.map_values(|entry: (String, NodeCache)| entry.0)
}

/// Whether `trace` shows what node `root` depends on: one entry for the node
/// and for each node upstream of it, under its identifier, and no other.
pub open spec fn traces(m: GraphModel, root: int, trace: Seq<(String, NodeCache)>) -> bool {
    &&& id_set(trace_ids(trace)) == m.upstream(root)
    &&& distinct(trace_ids(trace))
    &&& forall|q: int|
        0 <= q < trace.len() ==> shows(
            m,
            index_of(m.nodes, (#[trigger] trace[q]).0@),
            trace[q].1@,
        )
}

} // verus!
