//! The node table as it is stored, and its view as a sequence of
//! [`NodeModel`]s.

use crate::model::{
    count, distinct_ids, has_node, index_of, leads_to, without, Link, NodeModel,
};
use serde_json::Value;
use vstd::prelude::*;

verus! {

/// The record, on a node's input socket, of an edge that arrives there.
#[derive(Clone, Debug)]
pub struct InputConnection {
    pub id: String,
    pub output_index: usize,
}

/// The record, on a node's output socket, of an edge that leaves from there.
#[derive(Clone, Debug)]
pub struct OutputConnection {
    pub id: String,
    pub input_index: usize,
}

/// A computation node.
#[derive(Clone, Debug)]
pub struct Node {
    pub id: String,
    pub node_type: String,
    pub inputs: Vec<Vec<InputConnection>>,
    pub outputs: Vec<Vec<OutputConnection>>,
    pub data: Vec<Value>,
}

impl View for InputConnection {
    type V = Link;

    open spec fn view(&self) -> Link {
        Link { id: self.id@, index: self.output_index as nat }
    }
}

impl View for OutputConnection {
    type V = Link;

    open spec fn view(&self) -> Link {
        Link { id: self.id@, index: self.input_index as nat }
    }
}

/// A record of an edge on one of its ends: what input and output
/// connections have in common.
pub trait Connection: Sized {
    /// The link that the record stands for.
    spec fn link(&self) -> Link;

    /// The identifier of the node at the other end.
    fn peer(&self) -> (id: &String)
        ensures
            id@ == self.link().id,
    ;

    /// The socket at the other end.
    fn peer_socket(&self) -> (index: usize)
        ensures
            index as nat == self.link().index,
    ;
}

impl Connection for InputConnection {
    open spec fn link(&self) -> Link {
        self@
    }

    fn peer(&self) -> (id: &String) {
        &self.id
    }

    fn peer_socket(&self) -> (index: usize) {
        self.output_index
    }
}

impl Connection for OutputConnection {
    open spec fn link(&self) -> Link {
        self@
    }

    fn peer(&self) -> (id: &String) {
        &self.id
    }

    fn peer_socket(&self) -> (index: usize) {
        self.input_index
    }
}

/// The links that a socket holds.
pub open spec fn links<C: Connection>(socket: Seq<C>) -> Seq<Link> {
    socket.map_values(|c: C| c.link())
}

/// The links that each of some sockets holds.
pub open spec fn socket_links<C: Connection>(sockets: Seq<Vec<C>>) -> Seq<Seq<Link>> {
    sockets.map_values(|socket: Vec<C>| links(socket@))
}

impl View for Node {
    type V = NodeModel;

    open spec fn view(&self) -> NodeModel {
        NodeModel {
            id: self.id@,
            node_type: self.node_type@,
            inputs: socket_links(self.inputs@),
            outputs: socket_links(self.outputs@),
            data: self.data@,
        }
    }
}

/// The models of a table of nodes, in table order.
pub open spec fn node_models(nodes: Seq<Node>) -> Seq<NodeModel> {
    nodes.map_values(|n: Node| n@)
}

impl Node {
    /// The number of sockets on one side of the node.
    pub fn socket_count(&self, forward: bool) -> (n: usize)
        ensures
            n == self@.sockets(forward).len(),
    {
        if forward {
            self.outputs.len()
        } else {
            self.inputs.len()
        }
    }

    /// The number of links on socket `s` of the given side.
    pub fn link_count(&self, forward: bool, s: usize) -> (n: usize)
        requires
            s < self@.sockets(forward).len(),
        ensures
            n == self@.sockets(forward)[s as int].len(),
    {
        if forward {
            self.outputs[s].len()
        } else {
            self.inputs[s].len()
        }
    }

    /// The identifier of the node at the other end of link `k` of socket `s`.
    pub fn peer(&self, forward: bool, s: usize, k: usize) -> (id: &String)
        requires
            self@.has_link(forward, s as int, k as int),
        ensures
            id@ == self@.link(forward, s as int, k as int).id,
    {
        if forward {
            &self.outputs[s][k].id
        } else {
            &self.inputs[s][k].id
        }
    }
}

/// In a table with distinct identifiers, the position of a node is the
/// position that its identifier is found at.
pub proof fn lemma_index_of(nodes: Seq<NodeModel>, i: int)
    requires
        distinct_ids(nodes),
        0 <= i < nodes.len(),
    ensures
        has_node(nodes, nodes[i].id),
        index_of(nodes, nodes[i].id) == i,
{
    let j = index_of(nodes, nodes[i].id);
    assert(0 <= j < nodes.len() && nodes[j].id == nodes[i].id);
}

/// Looks a node up by its identifier: the first position that holds it.
pub fn find_index(nodes: &Vec<Node>, id: &String) -> (r: Option<usize>)
    ensures
        match r {
            Some(i) => {
                &&& i < nodes.len()
                &&& nodes[i as int].id@ == id@
                &&& forall|j: int| 0 <= j < i ==> (#[trigger] node_models(nodes@)[j]).id != id@
            },
            None => !has_node(node_models(nodes@), id@),
        },
{
    let mut i: usize = 0;
    while i < nodes.len()
        invariant
            i <= nodes.len(),
            forall|j: int| 0 <= j < i ==> (#[trigger] node_models(nodes@)[j]).id != id@,
        decreases nodes.len() - i,
    {
        if nodes[i].id == *id {
            return Some(i);
        }
        i += 1;
    }
    None
}

/// Appends a link to socket `s` on the given side of node `i`.
pub fn push_link(
    nodes: &mut Vec<Node>,
    i: usize,
    forward: bool,
    s: usize,
    id: String,
    index: usize,
)
    requires
        i < old(nodes).len(),
        s < old(nodes)[i as int]@.sockets(forward).len(),
    ensures
        final(nodes).len() == old(nodes).len(),
        node_models(final(nodes)@) == node_models(old(nodes)@).update(
            i as int,
            old(nodes)[i as int]@.with_link(
                forward,
                s as int,
                Link { id: id@, index: index as nat },
            ),
        ),
{
    if forward {
        nodes[i].outputs[s].push(OutputConnection { id, input_index: index });
    } else {
        nodes[i].inputs[s].push(InputConnection { id, output_index: index });
    }
    proof {
        let before = old(nodes)[i as int]@;
        let after = nodes[i as int]@;
        let link = Link { id: id@, index: index as nat };
        assert(after.sockets(forward) =~~= before.sockets(forward).update(
            s as int,
            before.sockets(forward)[s as int].push(link),
        ));
        assert(after.sockets(!forward) =~~= before.sockets(!forward));
        assert(after == before.with_link(forward, s as int, link));
        assert(node_models(nodes@) =~= node_models(old(nodes)@).update(
            i as int,
            before.with_link(forward, s as int, link),
        ));
    }
}

/// The model of an optional socket index.
pub open spec fn index_model(index: Option<usize>) -> Option<nat> {
    match index {
        Some(index) => Some(index as nat),
        None => None,
    }
}

/// Whether a record leads to node `id` and, where `index` is given, to that
/// socket.
pub fn leads<C: Connection>(record: &C, id: &String, index: Option<usize>) -> (r: bool)
    ensures
        r == leads_to(record.link(), id@, index_model(index)),
{
    *record.peer() == *id && match index {
        Some(index) => record.peer_socket() == index,
        None => true,
    }
}

/// `n` sockets with nothing connected.
pub fn empty_sockets<C: Connection>(n: usize) -> (sockets: Vec<Vec<C>>)
    ensures
        sockets@.len() == n,
        forall|s: int| 0 <= s < n ==> (#[trigger] sockets@[s])@.len() == 0,
{
    let mut sockets: Vec<Vec<C>> = Vec::new();
    let mut s: usize = 0;
    while s < n
        invariant
            s <= n,
            sockets@.len() == s,
            forall|t: int| 0 <= t < s ==> (#[trigger] sockets@[t])@.len() == 0,
        decreases n - s,
    {
        sockets.push(Vec::new());
        s += 1;
    }
    sockets
}

/// Whether a socket holds a record of the link to socket `index` of node
/// `id`.
pub fn records<C: Connection>(socket: &Vec<C>, id: &String, index: usize) -> (r: bool)
    ensures
        r == (count(links(socket@), Link { id: id@, index: index as nat }) > 0),
{
    let ghost link = Link { id: id@, index: index as nat };
    let mut k: usize = 0;
    while k < socket.len()
        invariant
            k <= socket.len(),
            link == (Link { id: id@, index: index as nat }),
            count(links(socket@).take(k as int), link) == 0,
        decreases socket.len() - k,
    {
        proof {
            assert(links(socket@).take(k + 1).drop_last() =~= links(socket@).take(k as int));
        }
        if leads(&socket[k], id, Some(index)) {
            proof {
                assert(links(socket@)[k as int] == link);
                lemma_count_at(links(socket@), k as int);
            }
            return true;
        }
        k += 1;
    }
    proof {
        assert(links(socket@).take(k as int) =~= links(socket@));
    }
    false
}

/// A link that stands at some position of a socket is counted at least once.
pub proof fn lemma_count_at(links: Seq<Link>, k: int)
    requires
        0 <= k < links.len(),
    ensures
        count(links, links[k]) >= 1,
    decreases links.len(),
{
    if k < links.len() - 1 {
        lemma_count_at(links.drop_last(), k);
    }
}

/// Takes off a socket every record that leads to node `id` (to its socket
/// `index`, where one is given).
pub fn drop_records<C: Connection>(socket: &mut Vec<C>, id: &String, index: Option<usize>)
    ensures
        links(final(socket)@) == without(links(old(socket)@), id@, index_model(index)),
{
    let ghost before = links(old(socket)@);
    let ghost mut seen: int = 0;
    let mut k: usize = 0;
    proof {
        reveal(Seq::filter);
        assert(before.take(0) =~= Seq::empty());
        assert(links(socket@).take(0) =~= Seq::empty());
        assert(links(socket@).skip(0) =~= before.skip(0));
    }
    while k < socket.len()
        invariant
            before == links(old(socket)@),
            0 <= k <= socket.len(),
            0 <= seen <= before.len(),
            links(socket@).take(k as int) == without(before.take(seen), id@, index_model(index)),
            links(socket@).skip(k as int) == before.skip(seen),
        decreases socket.len() - k,
    {
        let ghost current = links(socket@);
        proof {
            reveal(Seq::filter);
            assert(current.skip(k as int).len() == before.skip(seen).len());
            assert(current.skip(k as int)[0] == before.skip(seen)[0]);
            assert(before.take(seen + 1).drop_last() =~= before.take(seen));
            assert(before.skip(seen + 1) =~= before.skip(seen).skip(1));
        }
        if leads(&socket[k], id, index) {
            socket.remove(k);
            proof {
                assert(links(socket@) =~= current.remove(k as int));
                assert(links(socket@).take(k as int) =~= current.take(k as int));
                assert(links(socket@).skip(k as int) =~= current.skip(k as int).skip(1));
            }
        } else {
            proof {
                assert(current.take(k as int + 1) =~= current.take(k as int).push(current[k as int]));
                assert(current.skip(k as int + 1) =~= current.skip(k as int).skip(1));
            }
            k += 1;
        }
        proof {
            seen = seen + 1;
        }
    }
    proof {
        assert(links(socket@).take(k as int) =~= links(socket@));
        assert(before.skip(seen).len() == 0);
        assert(before.take(seen) =~= before);
    }
}

/// Takes every record that leads to node `id` off each of some sockets.
pub fn strip_sockets<C: Connection>(sockets: &mut Vec<Vec<C>>, id: &String)
    ensures
        final(sockets).len() == old(sockets).len(),
        forall|t: int|
            0 <= t < old(sockets).len() ==> #[trigger] socket_links(final(sockets)@)[t] == without(
                socket_links(old(sockets)@)[t],
                id@,
                None,
            ),
{
    let ghost before = socket_links(old(sockets)@);
    let mut s: usize = 0;
    while s < sockets.len()
        invariant
            before == socket_links(old(sockets)@),
            s <= sockets.len(),
            sockets.len() == before.len(),
            forall|t: int|
                0 <= t < s ==> #[trigger] socket_links(sockets@)[t] == without(before[t], id@, None),
            forall|t: int| s <= t < sockets.len() ==> #[trigger] socket_links(sockets@)[t] == before[t],
        decreases sockets.len() - s,
    {
        let ghost held = socket_links(sockets@);
        drop_records(&mut sockets[s], id, None);
        proof {
            assert(index_model(None) == None::<nat>);
            assert(socket_links(sockets@)[s as int] == without(held[s as int], id@, None));
            assert forall|t: int| 0 <= t < sockets.len() && t != s implies #[trigger] socket_links(
                sockets@,
            )[t] == held[t] by {}
        }
        s += 1;
    }
}

/// Takes off socket `s` on the given side of node `i` every record of the
/// link to socket `index` of node `id`; does nothing if the node has no such
/// socket.
pub fn drop_links(
    nodes: &mut Vec<Node>,
    i: usize,
    forward: bool,
    s: usize,
    id: &String,
    index: usize,
)
    requires
        i < old(nodes).len(),
    ensures
        final(nodes).len() == old(nodes).len(),
        node_models(final(nodes)@) == node_models(old(nodes)@).update(
            i as int,
            old(nodes)[i as int]@.without_link(
                forward,
                s as int,
                Link { id: id@, index: index as nat },
            ),
        ),
{
    if forward {
        if s < nodes[i].outputs.len() {
            drop_records(&mut nodes[i].outputs[s], id, Some(index));
        }
    } else {
        if s < nodes[i].inputs.len() {
            drop_records(&mut nodes[i].inputs[s], id, Some(index));
        }
    }
    proof {
        let before = old(nodes)[i as int]@;
        let after = nodes[i as int]@;
        let link = Link { id: id@, index: index as nat };
        if s < before.sockets(forward).len() {
            assert(after.sockets(forward) =~~= before.sockets(forward).update(
                s as int,
                without(before.sockets(forward)[s as int], id@, Some(index as nat)),
            ));
        } else {
            assert(after.sockets(forward) =~~= before.sockets(forward));
        }
        assert(after.sockets(!forward) =~~= before.sockets(!forward));
        assert(after == before.without_link(forward, s as int, link));
        assert(node_models(nodes@) =~= node_models(old(nodes)@).update(
            i as int,
            before.without_link(forward, s as int, link),
        ));
    }
}

/// Takes every link to node `id` off all sockets of `node`.
pub fn strip_node(node: &mut Node, id: &String)
    ensures
        final(node)@ == old(node)@.stripped_of(id@),
{
    strip_sockets(&mut node.inputs, id);
    strip_sockets(&mut node.outputs, id);
    proof {
        assert(node@.inputs =~= old(node)@.stripped_of(id@).inputs);
        assert(node@.outputs =~= old(node)@.stripped_of(id@).outputs);
    }
}

} // verus!
