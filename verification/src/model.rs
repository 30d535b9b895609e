//! The mathematical model of the graph: what the contracts of the engine
//! speak about.
//!
//! A graph is a table of nodes with distinct identifiers and, beside it, a
//! table of cached output values, one slot per node. An edge from an output
//! socket of one node to an input socket of another is recorded as a
//! [`Link`] on either end, once on each: a socket is a set of links.

use serde_json::Value;
use vstd::prelude::*;

verus! {

/// One end's record of an edge: the node at the other end and the socket
/// there.
pub struct Link {
    pub id: Seq<char>,
    pub index: nat,
}

/// A node: its identifier, its kind, local data, and the links recorded on
/// each input and output socket.
pub struct NodeModel {
    pub id: Seq<char>,
    pub node_type: Seq<char>,
    pub inputs: Seq<Seq<Link>>,
    pub outputs: Seq<Seq<Link>>,
    pub data: Seq<Value>,
}

/// The whole state: the node table and the cached value of each node.
pub struct GraphModel {
    pub nodes: Seq<NodeModel>,
    pub cache: Seq<Option<Value>>,
}

/// How many times `link` occurs in `links`.
pub open spec fn count(links: Seq<Link>, link: Link) -> nat
    decreases links.len(),
{
    if links.len() == 0 {
        0
    } else {
        count(links.drop_last(), link) + if links.last() == link {
            1nat
        } else {
            0nat
        }
    }
}

/// Whether `link` leads to node `id` and, where `index` is given, to that
/// socket of it.
pub open spec fn leads_to(link: Link, id: Seq<char>, index: Option<nat>) -> bool {
    link.id == id && (index is None || index == Some(link.index))
}

/// `links` without the links that lead to node `id` (to socket `index` of it,
/// where one is given), the others in their order.
pub open spec fn without(links: Seq<Link>, id: Seq<char>, index: Option<nat>) -> Seq<Link> {
    links.filter(|l: Link| !leads_to(l, id, index))
}

impl NodeModel {
    /// The sockets on one side of the node: outputs when `forward`, inputs
    /// otherwise.
    pub open spec fn sockets(self, forward: bool) -> Seq<Seq<Link>> {
        if forward {
            self.outputs
        } else {
            self.inputs
        }
    }

    /// The link at position `k` of socket `s` on the given side.
    pub open spec fn link(self, forward: bool, s: int, k: int) -> Link {
        self.sockets(forward)[s][k]
    }

    /// Whether `(s, k)` is a position of a link on the given side.
    pub open spec fn has_link(self, forward: bool, s: int, k: int) -> bool {
        0 <= s < self.sockets(forward).len() && 0 <= k < self.sockets(forward)[s].len()
    }

    /// Whether socket `s` on the given side holds `link`.
    pub open spec fn holds(self, forward: bool, s: int, link: Link) -> bool {
        exists|k: int| self.has_link(forward, s, k) && #[trigger] self.link(forward, s, k) == link
    }

    /// Whether some socket on the given side holds a link to node `id`.
    pub open spec fn links_to(self, forward: bool, id: Seq<char>) -> bool {
        exists|s: int, k: int|
            self.has_link(forward, s, k) && (#[trigger] self.link(forward, s, k)).id == id
    }

    /// The node with `sockets` in place of the sockets on the given side.
    pub open spec fn with_sockets(self, forward: bool, sockets: Seq<Seq<Link>>) -> NodeModel {
        if forward {
            NodeModel { outputs: sockets, ..self }
        } else {
            NodeModel { inputs: sockets, ..self }
        }
    }

    /// The node after `link` is appended to socket `s` on the given side.
    pub open spec fn with_link(self, forward: bool, s: int, link: Link) -> NodeModel {
        self.with_sockets(forward, self.sockets(forward).update(s, self.sockets(forward)[s].push(link)))
    }

    /// The node after every occurrence of `link` is taken off socket `s` on
    /// the given side; unchanged if the node has no such socket.
    pub open spec fn without_link(self, forward: bool, s: int, link: Link) -> NodeModel {
        if 0 <= s < self.sockets(forward).len() {
            self.with_sockets(
                forward,
                self.sockets(forward).update(
                    s,
                    without(self.sockets(forward)[s], link.id, Some(link.index)),
                ),
            )
        } else {
            self
        }
    }

    /// The node after every link to node `id` is taken off all its sockets.
    pub open spec fn stripped_of(self, id: Seq<char>) -> NodeModel {
        NodeModel {
            inputs: Seq::new(self.inputs.len(), |s: int| without(self.inputs[s], id, None)),
            outputs: Seq::new(self.outputs.len(), |s: int| without(self.outputs[s], id, None)),
            ..self
        }
    }

    /// A node of the given kind with empty sockets.
    pub open spec fn fresh(
        id: Seq<char>,
        node_type: Seq<char>,
        inputs: nat,
        outputs: nat,
        data: Seq<Value>,
    ) -> NodeModel {
        NodeModel {
            id,
            node_type,
            inputs: Seq::new(inputs, |s: int| Seq::<Link>::empty()),
            outputs: Seq::new(outputs, |s: int| Seq::<Link>::empty()),
            data,
        }
    }
}

/// Whether a node of `nodes` has the identifier `id`.
pub open spec fn has_node(nodes: Seq<NodeModel>, id: Seq<char>) -> bool {
    exists|i: int| 0 <= i < nodes.len() && (#[trigger] nodes[i]).id == id
}

/// The position in `nodes` of the node `id`, where there is one.
pub open spec fn index_of(nodes: Seq<NodeModel>, id: Seq<char>) -> int {
    choose|i: int| 0 <= i < nodes.len() && (#[trigger] nodes[i]).id == id
}

/// No two nodes share an identifier.
pub open spec fn distinct_ids(nodes: Seq<NodeModel>) -> bool {
    forall|i: int, j: int|
        0 <= i < nodes.len() && 0 <= j < nodes.len() && i != j ==> (#[trigger] nodes[i]).id != (
        #[trigger] nodes[j]).id
}

/// How many forward records the edge from output `out` of node `a` to input
/// `inp` of node `b` has: occurrences of the link on the source's socket.
pub open spec fn forward_count(
    nodes: Seq<NodeModel>,
    a: Seq<char>,
    out: nat,
    b: Seq<char>,
    inp: nat,
) -> nat {
    if has_node(nodes, a) && out < nodes[index_of(nodes, a)].outputs.len() {
        count(nodes[index_of(nodes, a)].outputs[out as int], Link { id: b, index: inp })
    } else {
        0
    }
}

/// How many backward records the same edge has: occurrences of the link on
/// the target's socket.
pub open spec fn backward_count(
    nodes: Seq<NodeModel>,
    a: Seq<char>,
    out: nat,
    b: Seq<char>,
    inp: nat,
) -> nat {
    if has_node(nodes, b) && inp < nodes[index_of(nodes, b)].inputs.len() {
        count(nodes[index_of(nodes, b)].inputs[inp as int], Link { id: a, index: out })
    } else {
        0
    }
}

/// Whether the edge from output `out` of node `a` to input `inp` of node `b`
/// is recorded as it should be: as often on its target as on its source, at
/// most once, and not at all where the two nodes are one.
pub open spec fn agrees(nodes: Seq<NodeModel>, a: Seq<char>, out: nat, b: Seq<char>, inp: nat) -> bool {
    &&& forward_count(nodes, a, out, b, inp) == backward_count(nodes, a, out, b, inp)
    &&& forward_count(nodes, a, out, b, inp) <= 1
    &&& a == b ==> forward_count(nodes, a, out, b, inp) == 0
}

/// Every socket is a set of links, and every edge that is recorded on one of
/// its ends is recorded on the other: exactly one backward record for every
/// forward record, and none from a node to itself.
pub open spec fn recorded_once(nodes: Seq<NodeModel>) -> bool {
    forall|a: Seq<char>, out: nat, b: Seq<char>, inp: nat|
        #![trigger forward_count(nodes, a, out, b, inp)]
        #![trigger backward_count(nodes, a, out, b, inp)]
        agrees(nodes, a, out, b, inp)
}

/// The node table is sound: identifiers are distinct and every edge has its
/// one record on either end.
pub open spec fn sound(nodes: Seq<NodeModel>) -> bool {
    distinct_ids(nodes) && recorded_once(nodes)
}

/// Whether node `i` has a link to node `j` on the given side: an edge from `i`
/// to `j` when `forward`, from `j` to `i` otherwise.
pub open spec fn step(nodes: Seq<NodeModel>, forward: bool, i: int, j: int) -> bool {
    0 <= i < nodes.len() && 0 <= j < nodes.len() && nodes[i].links_to(forward, nodes[j].id)
}

/// Whether positions `k` and `k + 1` of `path` are joined by a step.
pub open spec fn joined(nodes: Seq<NodeModel>, forward: bool, path: Seq<int>, k: int) -> bool {
    step(nodes, forward, path[k], path[k + 1])
}

/// Whether `path` is a non-empty walk along links of the given side.
pub open spec fn is_path(nodes: Seq<NodeModel>, forward: bool, path: Seq<int>) -> bool {
    &&& path.len() > 0
    &&& 0 <= path[0] < nodes.len()
    &&& forall|k: int| 0 <= k < path.len() - 1 ==> #[trigger] joined(nodes, forward, path, k)
}

/// Whether node `j` can be reached from node `i` along links of the given
/// side, in zero or more steps.
pub open spec fn reaches(nodes: Seq<NodeModel>, forward: bool, i: int, j: int) -> bool {
    exists|path: Seq<int>|
        #[trigger] is_path(nodes, forward, path) && path[0] == i && path.last() == j
}

/// Whether some node stands twice on `path`.
pub open spec fn repeats(path: Seq<int>) -> bool {
    exists|p: int, q: int| 0 <= p < q < path.len() && #[trigger] path[p] == #[trigger] path[q]
}

/// Whether what node `i` depends on depends on itself somewhere: a walk along
/// input links that starts at `i` comes by some node twice.
pub open spec fn cyclic_from(nodes: Seq<NodeModel>, i: int) -> bool {
    exists|walk: Seq<int>| #[trigger] is_path(nodes, false, walk) && walk[0] == i && repeats(walk)
}

/// Whether node `j` depends on itself: a walk of one or more input links
/// leads from it back to it.
pub open spec fn on_cycle(nodes: Seq<NodeModel>, j: int) -> bool {
    exists|walk: Seq<int>|
        #[trigger] is_path(nodes, false, walk) && walk.len() > 1 && walk[0] == j && walk.last()
            == j
}

impl GraphModel {
    /// The state is valid: the node table is sound, every node has a cache
    /// slot, and whatever is cached has all that it depends on cached too.
    pub open spec fn valid(self) -> bool {
        &&& sound(self.nodes)
        &&& self.cache.len() == self.nodes.len()
        &&& self.cache_closed()
    }

    /// Every cached node has each of its sources cached.
    pub open spec fn cache_closed(self) -> bool {
        forall|i: int, j: int|
            0 <= i < self.cache.len() && self.cache[i] is Some && #[trigger] step(
                self.nodes,
                false,
                i,
                j,
            ) ==> self.cache[j] is Some
    }

    /// The cached value of node `id`, if the node exists and has one.
    pub open spec fn cached(self, id: Seq<char>) -> Option<Value> {
        if has_node(self.nodes, id) {
            self.cache[index_of(self.nodes, id)]
        } else {
            None
        }
    }

    /// The values that arrive on the input sockets of node `j`: socket by
    /// socket and link by link, the cached value of the source.
    pub open spec fn gathered(self, j: int) -> Seq<Seq<Value>> {
        Seq::new(
            self.nodes[j].inputs.len(),
            |s: int|
                Seq::new(
                    self.nodes[j].inputs[s].len(),
                    |k: int| self.cached(self.nodes[j].inputs[s][k].id).unwrap(),
                ),
        )
    }

    /// The identifiers of the nodes that node `root` reaches along output
    /// links: the node itself and everything that consumes its value, directly
    /// or through others.
    pub open spec fn downstream(self, root: int) -> Set<Seq<char>> {
        Set::new(
            |id: Seq<char>|
                exists|j: int| #[trigger]
                    reaches(self.nodes, true, root, j) && self.nodes[j].id == id,
        )
    }

    /// The identifiers of the nodes that node `root` depends on, directly or
    /// through others, and of the node itself.
    pub open spec fn upstream(self, root: int) -> Set<Seq<char>> {
        Set::new(
            |id: Seq<char>|
                exists|j: int| #[trigger]
                    reaches(self.nodes, false, root, j) && self.nodes[j].id == id,
        )
    }

    /// The identifiers that the output links of node `i` name.
    pub open spec fn consumers(self, i: int) -> Set<Seq<char>> {
        Set::new(|id: Seq<char>| self.nodes[i].links_to(true, id))
    }

    /// Whether `later` is this state with its cache grown on behalf of node
    /// `root`: the nodes are the same, whatever was cached is cached
    /// unchanged, and whatever is newly cached is upstream of `root` and does
    /// not depend on itself.
    pub open spec fn grown(self, later: GraphModel, root: int) -> bool {
        &&& later.nodes == self.nodes
        &&& later.cache.len() == self.cache.len()
        &&& forall|j: int|
            0 <= j < self.cache.len() && self.cache[j] is Some ==> #[trigger] later.cache[j]
                == self.cache[j]
        &&& forall|j: int|
            0 <= j < self.cache.len() && self.cache[j] is None && (#[trigger] later.cache[j])
                is Some ==> reaches(self.nodes, false, root, j) && !on_cycle(self.nodes, j)
    }

    /// Whether `k` is the first position of `links` whose node is cached.
    pub open spec fn is_first_cached(self, links: Seq<Link>, k: int) -> bool {
        &&& 0 <= k < links.len()
        &&& self.cached(links[k].id) is Some
        &&& forall|k2: int| 0 <= k2 < k ==> self.cached((#[trigger] links[k2]).id) is None
    }

    /// The value shown for an input socket that holds `links`: the cached
    /// value of the first of its sources that has one.
    pub open spec fn display(self, links: Seq<Link>) -> Option<Value> {
        if exists|k: int| self.is_first_cached(links, k) {
            self.cached(links[choose|k: int| self.is_first_cached(links, k)].id)
        } else {
            None
        }
    }

    /// The state after the cache slots of node `root` and of everything
    /// downstream of it are emptied.
    pub open spec fn invalidate(self, root: int) -> GraphModel {
        GraphModel {
            nodes: self.nodes,
            cache: Seq::new(
                self.cache.len(),
                |j: int|
                    if reaches(self.nodes, true, root, j) {
                        None
                    } else {
                        self.cache[j]
                    },
            ),
        }
    }

    /// The state after `node` is added at the end of the table, not cached.
    pub open spec fn add_node(self, node: NodeModel) -> GraphModel {
        GraphModel { nodes: self.nodes.push(node), cache: self.cache.push(None) }
    }

    /// Whether the edge from output `out` of node `a` to input `inp` of node
    /// `b` is recorded.
    pub open spec fn recorded(self, a: int, out: nat, b: int, inp: nat) -> bool {
        count(self.nodes[a].outputs[out as int], Link { id: self.nodes[b].id, index: inp }) > 0
    }

    /// The node table once the edge from output `out` of node `a` to input
    /// `inp` of node `b` is recorded on both ends: with the two records added
    /// if the edge was not recorded yet, as it was if it was.
    pub open spec fn linked(self, a: int, out: nat, b: int, inp: nat) -> Seq<NodeModel> {
        if self.recorded(a, out, b, inp) {
            self.nodes
        } else {
            self.nodes.update(
                a,
                self.nodes[a].with_link(
                    true,
                    out as int,
                    Link { id: self.nodes[b].id, index: inp },
                ),
            ).update(
                b,
                self.nodes[b].with_link(
                    false,
                    inp as int,
                    Link { id: self.nodes[a].id, index: out },
                ),
            )
        }
    }

    /// The state after the edge is recorded and its target invalidated.
    pub open spec fn connect(self, a: int, out: nat, b: int, inp: nat) -> GraphModel {
        GraphModel { nodes: self.linked(a, out, b, inp), cache: self.cache }.invalidate(b)
    }

    /// The node table after every record of the edge from output `out` of
    /// node `a` to input `inp` of node `b` is removed from both ends.
    pub open spec fn unlinked(self, a: int, out: nat, b: int, inp: nat) -> Seq<NodeModel> {
        self.nodes.update(
            a,
            self.nodes[a].without_link(
                true,
                out as int,
                Link { id: self.nodes[b].id, index: inp },
            ),
        ).update(
            b,
            self.nodes[b].without_link(
                false,
                inp as int,
                Link { id: self.nodes[a].id, index: out },
            ),
        )
    }

    /// The state after the edge is removed and its target invalidated.
    pub open spec fn disconnect(self, a: int, out: nat, b: int, inp: nat) -> GraphModel {
        GraphModel { nodes: self.unlinked(a, out, b, inp), cache: self.cache }.invalidate(b)
    }

    /// The state after the data of node `i` is replaced and the node
    /// invalidated.
    pub open spec fn set_data(self, i: int, data: Seq<Value>) -> GraphModel {
        GraphModel {
            nodes: self.nodes.update(i, NodeModel { data, ..self.nodes[i] }),
            cache: self.cache,
        }.invalidate(i)
    }

    /// The node table after node `i` is deleted and every link to it taken
    /// off the other nodes.
    pub open spec fn severed(self, i: int) -> Seq<NodeModel> {
        self.nodes.remove(i).map_values(|n: NodeModel| n.stripped_of(self.nodes[i].id))
    }

    /// The state after node `i` is invalidated, deleted, and severed from its
    /// neighbours.
    pub open spec fn remove_node(self, i: int) -> GraphModel {
        GraphModel { nodes: self.severed(i), cache: self.invalidate(i).cache.remove(i) }
    }
}

} // verus!
