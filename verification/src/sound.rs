//! Every transition of the model keeps a valid state valid.

use crate::graph::{lemma_count_at, lemma_index_of};
use crate::model::{
    agrees, backward_count, count, distinct_ids, forward_count, has_node, index_of, is_path,
    joined, leads_to, on_cycle, reaches, sound, step, without, GraphModel, Link, NodeModel,
};
use crate::reach::{
    lemma_count_found, lemma_counterpart, lemma_reaches_self, lemma_reaches_step, lemma_step_back,
};
use vstd::prelude::*;

verus! {

/// Appending a link adds one to its count and leaves the others.
pub proof fn lemma_count_push(links: Seq<Link>, added: Link, link: Link)
    ensures
        count(links.push(added), link) == count(links, link) + if added == link {
            1nat
        } else {
            0nat
        },
{
    assert(links.push(added).drop_last() =~= links);
}

/// Taking links off a socket brings their count to zero and leaves the
/// others.
pub proof fn lemma_count_without(links: Seq<Link>, id: Seq<char>, index: Option<nat>, link: Link)
    ensures
        count(without(links, id, index), link) == if leads_to(link, id, index) {
            0
        } else {
            count(links, link)
        },
    decreases links.len(),
{
    reveal(Seq::filter);
    if links.len() > 0 {
        lemma_count_without(links.drop_last(), id, index, link);
        if !leads_to(links.last(), id, index) {
            lemma_count_push(without(links.drop_last(), id, index), links.last(), link);
        }
    }
}

/// Taking the same links off a second time changes nothing.
pub proof fn lemma_without_again(links: Seq<Link>, id: Seq<char>, index: Option<nat>)
    ensures
        without(without(links, id, index), id, index) == without(links, id, index),
    decreases links.len(),
{
    reveal(Seq::filter);
    if links.len() > 0 {
        let rest = links.drop_last();
        lemma_without_again(rest, id, index);
        if !leads_to(links.last(), id, index) {
            let kept = without(rest, id, index).push(links.last());
            assert(kept.drop_last() =~= without(rest, id, index));
        }
    }
}

/// A socket none of whose links leads to a node loses nothing when the links
/// to that node are taken off.
pub proof fn lemma_without_nothing(links: Seq<Link>, id: Seq<char>, index: Option<nat>)
    requires
        forall|k: int| 0 <= k < links.len() ==> !leads_to(#[trigger] links[k], id, index),
    ensures
        without(links, id, index) == links,
    decreases links.len(),
{
    reveal(Seq::filter);
    if links.len() > 0 {
        let rest = links.drop_last();
        assert forall|k: int| 0 <= k < rest.len() implies !leads_to(
            #[trigger] rest[k],
            id,
            index,
        ) by {
            assert(rest[k] == links[k]);
        }
        lemma_without_nothing(rest, id, index);
        assert(!leads_to(links[links.len() - 1], id, index));
        assert(rest.push(links.last()) =~= links);
    }
}

/// A node that stood in a table before another was added at its end stands
/// where it stood.
pub proof fn lemma_pushed_index(nodes: Seq<NodeModel>, node: NodeModel, id: Seq<char>)
    requires
        distinct_ids(nodes),
        !has_node(nodes, node.id),
        has_node(nodes, id),
    ensures
        has_node(nodes.push(node), id),
        index_of(nodes.push(node), id) == index_of(nodes, id),
{
    let after = nodes.push(node);
    let n = nodes.len() as int;
    assert forall|i: int, j: int|
        0 <= i < after.len() && 0 <= j < after.len() && i != j implies (#[trigger] after[i]).id
        != (#[trigger] after[j]).id by {
        if i < n && j < n {
            assert(nodes[i].id != nodes[j].id);
        } else if i < n {
            assert(nodes[i].id != node.id);
        } else {
            assert(nodes[j].id != node.id);
        }
    }
    let i = index_of(nodes, id);
    assert(after[i].id == id);
    lemma_index_of(after, i);
}

/// A node that is left when another is deleted stands where it stood, or one
/// position before if it stood behind the other.
pub proof fn lemma_severed_index(m: GraphModel, i: int, id: Seq<char>)
    requires
        distinct_ids(m.nodes),
        0 <= i < m.nodes.len(),
        has_node(m.nodes, id),
        id != m.nodes[i].id,
    ensures
        has_node(m.severed(i), id),
        ({
            let j = index_of(m.severed(i), id);
            &&& 0 <= j < m.severed(i).len()
            &&& index_of(m.nodes, id) == if j < i {
                j
            } else {
                j + 1
            }
        }),
{
    let before = m.nodes;
    let after = m.severed(i);
    let jb = index_of(before, id);
    let k = if jb < i {
        jb
    } else {
        jb - 1
    };
    assert(after[k].id == id);
    let j = index_of(after, id);
    let at = if j < i {
        j
    } else {
        j + 1
    };
    assert(before[at].id == id);
    lemma_index_of(before, at);
}

/// What is left on a socket stood on it before, and does not lead where the
/// removed links led.
pub proof fn lemma_without_kept(links: Seq<Link>, id: Seq<char>, index: Option<nat>, k: int)
    requires
        0 <= k < without(links, id, index).len(),
    ensures
        !leads_to(without(links, id, index)[k], id, index),
        exists|k0: int| 0 <= k0 < links.len() && links[k0] == without(links, id, index)[k],
{
    let kept = without(links, id, index);
    lemma_count_at(kept, k);
    lemma_count_without(links, id, index, kept[k]);
    lemma_count_found(links, kept[k]);
}

/// A table whose nodes keep their identifiers keeps the positions of all of
/// them.
pub proof fn lemma_same_ids(before: Seq<NodeModel>, after: Seq<NodeModel>)
    requires
        distinct_ids(before),
        after.len() == before.len(),
        forall|i: int| 0 <= i < before.len() ==> (#[trigger] after[i]).id == before[i].id,
    ensures
        distinct_ids(after),
        forall|id: Seq<char>| #[trigger] has_node(after, id) == has_node(before, id),
        forall|id: Seq<char>|
            has_node(before, id) ==> #[trigger] index_of(after, id) == index_of(before, id),
{
    assert forall|i: int, j: int|
        0 <= i < after.len() && 0 <= j < after.len() && i != j implies (#[trigger] after[i]).id
        != (#[trigger] after[j]).id by {
        assert(before[i].id != before[j].id);
    }
    assert forall|id: Seq<char>| #[trigger] has_node(after, id) == has_node(before, id) by {
        if has_node(before, id) {
            let i = index_of(before, id);
            assert(after[i].id == id);
        }
        if has_node(after, id) {
            let i = index_of(after, id);
            assert(before[i].id == id);
        }
    }
    assert forall|id: Seq<char>| has_node(before, id) implies #[trigger] index_of(after, id)
        == index_of(before, id) by {
        let i = index_of(before, id);
        assert(after[i].id == id);
        lemma_index_of(after, i);
    }
}

/// Adding both records of an edge keeps the table sound.
pub proof fn lemma_linked_sound(m: GraphModel, a: int, out: nat, b: int, inp: nat)
    requires
        sound(m.nodes),
        0 <= a < m.nodes.len(),
        0 <= b < m.nodes.len(),
        a != b,
        out < m.nodes[a].outputs.len(),
        inp < m.nodes[b].inputs.len(),
    ensures
        sound(m.linked(a, out, b, inp)),
{
    if m.recorded(a, out, b, inp) {
        return ;
    }
    let before = m.nodes;
    let after = m.linked(a, out, b, inp);
    lemma_same_ids(before, after);
    lemma_index_of(before, a);
    lemma_index_of(before, b);
    assert forall|x: Seq<char>, o: nat, y: Seq<char>, p: nat|
        #![trigger forward_count(after, x, o, y, p)]
        #![trigger backward_count(after, x, o, y, p)]
        agrees(after, x, o, y, p) by {
        let link_out = Link { id: before[b].id, index: inp };
        let link_in = Link { id: before[a].id, index: out };
        assert(forward_count(before, x, o, y, p) == backward_count(before, x, o, y, p));
        if has_node(before, x) {
            let ix = index_of(before, x);
            assert(index_of(after, x) == ix);
            if ix == a && o == out {
                lemma_count_push(before[a].outputs[out as int], link_out, Link { id: y, index: p });
            }
        }
        if has_node(before, y) {
            let iy = index_of(before, y);
            assert(index_of(after, y) == iy);
            if iy == b && p == inp {
                lemma_count_push(before[b].inputs[inp as int], link_in, Link { id: x, index: o });
            }
        }
    }
}

/// Removing every record of an edge from both ends keeps the table sound.
pub proof fn lemma_unlinked_sound(m: GraphModel, a: int, out: nat, b: int, inp: nat)
    requires
        sound(m.nodes),
        0 <= a < m.nodes.len(),
        0 <= b < m.nodes.len(),
        a != b,
    ensures
        sound(m.unlinked(a, out, b, inp)),
{
    let before = m.nodes;
    let after = m.unlinked(a, out, b, inp);
    lemma_same_ids(before, after);
    lemma_index_of(before, a);
    lemma_index_of(before, b);
    assert forall|x: Seq<char>, o: nat, y: Seq<char>, p: nat|
        #![trigger forward_count(after, x, o, y, p)]
        #![trigger backward_count(after, x, o, y, p)]
        agrees(after, x, o, y, p) by {
        assert(forward_count(before, x, o, y, p) == backward_count(before, x, o, y, p));
        if has_node(before, x) {
            let ix = index_of(before, x);
            assert(index_of(after, x) == ix);
            if ix == a && o == out && out < before[a].outputs.len() {
                lemma_count_without(
                    before[a].outputs[out as int],
                    before[b].id,
                    Some(inp),
                    Link { id: y, index: p },
                );
            }
        }
        if has_node(before, y) {
            let iy = index_of(before, y);
            assert(index_of(after, y) == iy);
            if iy == b && p == inp && inp < before[b].inputs.len() {
                lemma_count_without(
                    before[b].inputs[inp as int],
                    before[a].id,
                    Some(out),
                    Link { id: x, index: o },
                );
            }
        }
    }
}

/// Replacing a node's data keeps the table sound.
pub proof fn lemma_data_sound(nodes: Seq<NodeModel>, i: int, data: Seq<serde_json::Value>)
    requires
        sound(nodes),
        0 <= i < nodes.len(),
    ensures
        sound(nodes.update(i, NodeModel { data, ..nodes[i] })),
{
    let after = nodes.update(i, NodeModel { data, ..nodes[i] });
    lemma_same_ids(nodes, after);
    assert forall|x: Seq<char>, o: nat, y: Seq<char>, p: nat|
        #![trigger forward_count(after, x, o, y, p)]
        #![trigger backward_count(after, x, o, y, p)]
        agrees(after, x, o, y, p) by {
        assert(forward_count(nodes, x, o, y, p) == backward_count(nodes, x, o, y, p));
        if has_node(nodes, x) {
            assert(index_of(after, x) == index_of(nodes, x));
        }
        if has_node(nodes, y) {
            assert(index_of(after, y) == index_of(nodes, y));
        }
    }
}

/// Adding a node with a new identifier and empty sockets keeps the state
/// valid.
pub proof fn lemma_add_node_valid(m: GraphModel, node: NodeModel)
    requires
        m.valid(),
        !has_node(m.nodes, node.id),
        forall|s: int| 0 <= s < node.inputs.len() ==> (#[trigger] node.inputs[s]).len() == 0,
        forall|s: int| 0 <= s < node.outputs.len() ==> (#[trigger] node.outputs[s]).len() == 0,
    ensures
        m.add_node(node).valid(),
{
    let before = m.nodes;
    let after = m.add_node(node).nodes;
    let n = before.len() as int;
    assert(distinct_ids(after)) by {
        assert forall|i: int, j: int|
            0 <= i < after.len() && 0 <= j < after.len() && i != j implies (
            #[trigger] after[i]).id != (#[trigger] after[j]).id by {
            if i < n && j < n {
                assert(before[i].id != before[j].id);
            } else if i < n {
                assert(before[i].id != node.id);
            } else {
                assert(before[j].id != node.id);
            }
        }
    }
    assert forall|id: Seq<char>| has_node(before, id) implies has_node(after, id) && index_of(
        after,
        id,
    ) == index_of(before, id) by {
        let i = index_of(before, id);
        assert(after[i].id == id);
        lemma_index_of(after, i);
    }
    assert(after[n].id == node.id);
    lemma_index_of(after, n);
    assert forall|id: Seq<char>| has_node(after, id) && id != node.id implies has_node(
        before,
        id,
    ) by {
        let i = index_of(after, id);
        assert(before[i].id == id);
    }
    assert forall|x: Seq<char>, o: nat, y: Seq<char>, p: nat|
        #![trigger forward_count(after, x, o, y, p)]
        #![trigger backward_count(after, x, o, y, p)]
        agrees(after, x, o, y, p) by {
        assert(forward_count(before, x, o, y, p) == backward_count(before, x, o, y, p));
        if x == node.id {
            if o < node.outputs.len() {
                assert(node.outputs[o as int].len() == 0);
            }
        }
        if y == node.id {
            if p < node.inputs.len() {
                assert(node.inputs[p as int].len() == 0);
            }
        }
    }
    let grown = m.add_node(node);
    assert forall|i: int, j: int|
        0 <= i < grown.cache.len() && grown.cache[i] is Some && #[trigger] step(
            grown.nodes,
            false,
            i,
            j,
        ) implies grown.cache[j] is Some by {
        assert(i < n);
        let (s, k) = choose|s: int, k: int|
            after[i].has_link(false, s, k) && (#[trigger] after[i].link(false, s, k)).id
                == after[j].id;
        lemma_counterpart(before, false, i, s, k);
        assert(j < n);
        assert(before[i].link(false, s, k).id == before[j].id);
        assert(step(before, false, i, j));
    }
}

/// Emptying the cache downstream of a node makes the cache closed, provided
/// that it was closed everywhere else.
pub proof fn lemma_invalidate_valid(m: GraphModel, root: int)
    requires
        sound(m.nodes),
        m.cache.len() == m.nodes.len(),
        0 <= root < m.nodes.len(),
        forall|i: int, j: int|
            0 <= i < m.cache.len() && m.cache[i] is Some && #[trigger] step(m.nodes, false, i, j)
                && !reaches(m.nodes, true, root, i) ==> m.cache[j] is Some,
    ensures
        m.invalidate(root).valid(),
{
    let after = m.invalidate(root);
    assert forall|i: int, j: int|
        0 <= i < after.cache.len() && after.cache[i] is Some && #[trigger] step(
            after.nodes,
            false,
            i,
            j,
        ) implies after.cache[j] is Some by {
        if reaches(m.nodes, true, root, j) {
            lemma_step_back(m.nodes, false, i, j);
            lemma_reaches_step(m.nodes, true, root, j, i);
        }
    }
}

/// Adding an edge and invalidating its target keeps the state valid.
pub proof fn lemma_connect_valid(m: GraphModel, a: int, out: nat, b: int, inp: nat)
    requires
        m.valid(),
        0 <= a < m.nodes.len(),
        0 <= b < m.nodes.len(),
        a != b,
        out < m.nodes[a].outputs.len(),
        inp < m.nodes[b].inputs.len(),
    ensures
        m.connect(a, out, b, inp).valid(),
{
    let after = m.linked(a, out, b, inp);
    lemma_linked_sound(m, a, out, b, inp);
    let mid = GraphModel { nodes: after, cache: m.cache };
    lemma_reaches_self(after, true, b);
    assert forall|i: int, j: int|
        0 <= i < mid.cache.len() && mid.cache[i] is Some && #[trigger] step(after, false, i, j)
            && !reaches(after, true, b, i) implies mid.cache[j] is Some by {
        assert(i != b);
        assert(after[i].inputs == m.nodes[i].inputs);
        let (s, k) = choose|s: int, k: int|
            after[i].has_link(false, s, k) && (#[trigger] after[i].link(false, s, k)).id
                == after[j].id;
        assert(m.nodes[i].has_link(false, s, k));
        assert(m.nodes[i].link(false, s, k).id == m.nodes[j].id);
        assert(step(m.nodes, false, i, j));
    }
    lemma_invalidate_valid(mid, b);
}

/// Removing an edge and invalidating its target keeps the state valid.
pub proof fn lemma_disconnect_valid(m: GraphModel, a: int, out: nat, b: int, inp: nat)
    requires
        m.valid(),
        0 <= a < m.nodes.len(),
        0 <= b < m.nodes.len(),
        a != b,
    ensures
        m.disconnect(a, out, b, inp).valid(),
{
    let after = m.unlinked(a, out, b, inp);
    lemma_unlinked_sound(m, a, out, b, inp);
    let mid = GraphModel { nodes: after, cache: m.cache };
    lemma_reaches_self(after, true, b);
    assert forall|i: int, j: int|
        0 <= i < mid.cache.len() && mid.cache[i] is Some && #[trigger] step(after, false, i, j)
            && !reaches(after, true, b, i) implies mid.cache[j] is Some by {
        assert(i != b);
        assert(after[i].inputs == m.nodes[i].inputs);
        let (s, k) = choose|s: int, k: int|
            after[i].has_link(false, s, k) && (#[trigger] after[i].link(false, s, k)).id
                == after[j].id;
        assert(m.nodes[i].has_link(false, s, k));
        assert(m.nodes[i].link(false, s, k).id == m.nodes[j].id);
        assert(step(m.nodes, false, i, j));
    }
    lemma_invalidate_valid(mid, b);
}

/// Replacing a node's data and invalidating the node keeps the state valid.
pub proof fn lemma_set_data_valid(m: GraphModel, i: int, data: Seq<serde_json::Value>)
    requires
        m.valid(),
        0 <= i < m.nodes.len(),
    ensures
        m.set_data(i, data).valid(),
{
    let after = m.nodes.update(i, NodeModel { data, ..m.nodes[i] });
    lemma_data_sound(m.nodes, i, data);
    let mid = GraphModel { nodes: after, cache: m.cache };
    assert forall|i2: int, j: int|
        0 <= i2 < mid.cache.len() && mid.cache[i2] is Some && #[trigger] step(after, false, i2, j)
            && !reaches(after, true, i, i2) implies mid.cache[j] is Some by {
        let (s, k) = choose|s: int, k: int|
            after[i2].has_link(false, s, k) && (#[trigger] after[i2].link(false, s, k)).id
                == after[j].id;
        assert(m.nodes[i2].has_link(false, s, k));
        assert(m.nodes[i2].link(false, s, k).id == m.nodes[j].id);
        assert(step(m.nodes, false, i2, j));
    }
    lemma_invalidate_valid(mid, i);
}

/// Deleting a node, severing it from its neighbours and emptying the cache
/// downstream of it keeps the state valid.
pub proof fn lemma_remove_node_valid(m: GraphModel, i: int)
    requires
        m.valid(),
        0 <= i < m.nodes.len(),
    ensures
        m.remove_node(i).valid(),
{
    let before = m.nodes;
    let after = m.severed(i);
    let gone = before[i].id;
    let at = |j: int| if j < i { j } else { j + 1 };
    assert forall|j: int| 0 <= j < after.len() implies #[trigger] after[j] == before[at(
        j,
    )].stripped_of(gone) by {}
    assert(distinct_ids(after)) by {
        assert forall|j: int, k: int|
            0 <= j < after.len() && 0 <= k < after.len() && j != k implies (
            #[trigger] after[j]).id != (#[trigger] after[k]).id by {
            assert(before[at(j)].id != before[at(k)].id);
        }
    }
    assert forall|id: Seq<char>| has_node(after, id) implies has_node(before, id) && id != gone
        && index_of(before, id) == at(index_of(after, id)) by {
        let j = index_of(after, id);
        assert(before[at(j)].id == id);
        lemma_index_of(before, at(j));
        assert(before[at(j)].id != before[i].id);
    }
    assert forall|id: Seq<char>| has_node(before, id) && id != gone implies has_node(
        after,
        id,
    ) by {
        let j = index_of(before, id);
        let k = if j < i { j } else { j - 1 };
        assert(after[k].id == id);
    }
    assert forall|x: Seq<char>, o: nat, y: Seq<char>, p: nat|
        #![trigger forward_count(after, x, o, y, p)]
        #![trigger backward_count(after, x, o, y, p)]
        agrees(after, x, o, y, p) by {
        assert(forward_count(before, x, o, y, p) == backward_count(before, x, o, y, p));
        if has_node(after, x) {
            let jx = index_of(before, x);
            if o < before[jx].outputs.len() {
                lemma_count_without(
                    before[jx].outputs[o as int],
                    gone,
                    None,
                    Link { id: y, index: p },
                );
            }
        }
        if has_node(after, y) {
            let jy = index_of(before, y);
            if p < before[jy].inputs.len() {
                lemma_count_without(
                    before[jy].inputs[p as int],
                    gone,
                    None,
                    Link { id: x, index: o },
                );
            }
        }
    }
    lemma_invalidate_valid(m, i);
    let cleared = m.invalidate(i);
    let last = m.remove_node(i);
    assert forall|j: int, k: int|
        0 <= j < last.cache.len() && last.cache[j] is Some && #[trigger] step(
            last.nodes,
            false,
            j,
            k,
        ) implies last.cache[k] is Some by {
        let (s, q) = choose|s: int, q: int|
            after[j].has_link(false, s, q) && (#[trigger] after[j].link(false, s, q)).id
                == after[k].id;
        let socket = before[at(j)].inputs[s];
        let kept = without(socket, gone, None)[q];
        lemma_without_kept(socket, gone, None, q);
        let q0 = choose|q0: int| 0 <= q0 < socket.len() && socket[q0] == kept;
        assert(before[at(j)].has_link(false, s, q0));
        assert(before[at(j)].link(false, s, q0).id == before[at(k)].id);
        assert(step(before, false, at(j), at(k)));
        assert(cleared.cache[at(j)] is Some);
    }
}

/// In a valid state whatever a cached node depends on is cached.
pub proof fn lemma_upstream_cached(m: GraphModel, i: int, j: int)
    requires
        m.valid(),
        0 <= i < m.nodes.len(),
        m.cache[i] is Some,
        reaches(m.nodes, false, i, j),
    ensures
        0 <= j < m.nodes.len(),
        m.cache[j] is Some,
{
    let path = choose|path: Seq<int>|
        #[trigger] is_path(m.nodes, false, path) && path[0] == i && path.last() == j;
    lemma_cached_along(m, path, path.len() - 1);
}

/// In a valid state every node on a path of input links that starts at a
/// cached node is cached.
pub proof fn lemma_cached_along(m: GraphModel, path: Seq<int>, k: int)
    requires
        m.valid(),
        is_path(m.nodes, false, path),
        m.cache[path[0]] is Some,
        0 <= k < path.len(),
    ensures
        0 <= path[k] < m.nodes.len(),
        m.cache[path[k]] is Some,
    decreases k,
{
    if k > 0 {
        lemma_cached_along(m, path, k - 1);
        assert(joined(m.nodes, false, path, k - 1));
    }
}

/// A node that is not cached while all its sources are does not depend on
/// itself.
pub proof fn lemma_fresh_off_cycle(m: GraphModel, i: int)
    requires
        m.valid(),
        0 <= i < m.nodes.len(),
        m.cache[i] is None,
        forall|j: int| #[trigger] step(m.nodes, false, i, j) ==> m.cache[j] is Some,
    ensures
        !on_cycle(m.nodes, i),
{
    if on_cycle(m.nodes, i) {
        let walk = choose|walk: Seq<int>|
            #[trigger] is_path(m.nodes, false, walk) && walk.len() > 1 && walk[0] == i
                && walk.last() == i;
        let rest = walk.skip(1);
        assert(joined(m.nodes, false, walk, 0));
        assert forall|k: int| 0 <= k < rest.len() - 1 implies #[trigger] joined(
            m.nodes,
            false,
            rest,
            k,
        ) by {
            assert(joined(m.nodes, false, walk, k + 1));
        }
        assert(is_path(m.nodes, false, rest));
        lemma_cached_along(m, rest, rest.len() - 1);
    }
}

} // verus!
