//! Reachability in the node table: the walk that invalidation and tracing
//! share, proved to mark exactly the nodes that [`reaches`] names.

use crate::graph::{find_index, lemma_count_at, lemma_index_of, node_models, Node};
use crate::model::{
    backward_count, count, forward_count, has_node, index_of, is_path, joined, reaches, sound,
    step, Link, NodeModel,
};
use vstd::prelude::*;

verus! {

/// A link that is counted stands at some position of the socket.
pub proof fn lemma_count_found(links: Seq<Link>, link: Link)
    requires
        count(links, link) >= 1,
    ensures
        exists|k: int| 0 <= k < links.len() && links[k] == link,
    decreases links.len(),
{
    if links.last() != link {
        lemma_count_found(links.drop_last(), link);
        let k = choose|k: int| 0 <= k < links.drop_last().len() && links.drop_last()[k] == link;
        assert(links[k] == link);
    }
}

/// In a sound table every link has its counterpart: the node it names exists,
/// has the socket it names, and that socket holds the link back.
pub proof fn lemma_counterpart(nodes: Seq<NodeModel>, forward: bool, i: int, s: int, k: int)
    requires
        sound(nodes),
        0 <= i < nodes.len(),
        nodes[i].has_link(forward, s, k),
    ensures
        has_node(nodes, nodes[i].link(forward, s, k).id),
        ({
            let l = nodes[i].link(forward, s, k);
            let j = index_of(nodes, l.id);
            &&& 0 <= j < nodes.len()
            &&& nodes[j].id == l.id
            &&& l.index < nodes[j].sockets(!forward).len()
            &&& count(nodes[j].sockets(!forward)[l.index as int], Link { id: nodes[i].id, index: s as nat })
                == count(nodes[i].sockets(forward)[s], l)
        }),
{
    let l = nodes[i].link(forward, s, k);
    lemma_index_of(nodes, i);
    lemma_count_at(nodes[i].sockets(forward)[s], k);
    if forward {
        assert(forward_count(nodes, nodes[i].id, s as nat, l.id, l.index) == backward_count(
            nodes,
            nodes[i].id,
            s as nat,
            l.id,
            l.index,
        ));
    } else {
        assert(forward_count(nodes, l.id, l.index, nodes[i].id, s as nat) == backward_count(
            nodes,
            l.id,
            l.index,
            nodes[i].id,
            s as nat,
        ));
    }
}

/// In a sound table, a step one way is a step the other way back.
pub proof fn lemma_step_back(nodes: Seq<NodeModel>, forward: bool, i: int, j: int)
    requires
        sound(nodes),
        step(nodes, forward, i, j),
    ensures
        step(nodes, !forward, j, i),
{
    let (s, k) = choose|s: int, k: int|
        nodes[i].has_link(forward, s, k) && (#[trigger] nodes[i].link(forward, s, k)).id
            == nodes[j].id;
    let l = nodes[i].link(forward, s, k);
    lemma_counterpart(nodes, forward, i, s, k);
    lemma_index_of(nodes, j);
    lemma_count_at(nodes[i].sockets(forward)[s], k);
    let back = Link { id: nodes[i].id, index: s as nat };
    let socket = nodes[j].sockets(!forward)[l.index as int];
    lemma_count_found(socket, back);
    let k2 = choose|k2: int| 0 <= k2 < socket.len() && socket[k2] == back;
    assert(nodes[j].has_link(!forward, l.index as int, k2));
    assert(nodes[j].link(!forward, l.index as int, k2).id == nodes[i].id);
}

/// Every node reaches itself.
pub proof fn lemma_reaches_self(nodes: Seq<NodeModel>, forward: bool, i: int)
    requires
        0 <= i < nodes.len(),
    ensures
        reaches(nodes, forward, i, i),
{
    let path = seq![i];
    assert(is_path(nodes, forward, path));
    assert(path[0] == i && path.last() == i);
}

/// What reaches a node reaches the nodes one step further.
pub proof fn lemma_reaches_step(nodes: Seq<NodeModel>, forward: bool, a: int, i: int, j: int)
    requires
        reaches(nodes, forward, a, i),
        step(nodes, forward, i, j),
    ensures
        reaches(nodes, forward, a, j),
{
    let path = choose|path: Seq<int>|
        #[trigger] is_path(nodes, forward, path) && path[0] == a && path.last() == i;
    let longer = path.push(j);
    assert forall|k: int| 0 <= k < longer.len() - 1 implies #[trigger] joined(
        nodes,
        forward,
        longer,
        k,
    ) by {
        if k < path.len() - 1 {
            assert(joined(nodes, forward, path, k));
        }
    }
    assert(is_path(nodes, forward, longer));
    assert(longer[0] == a && longer.last() == j);
}

/// Only nodes of the table are reached.
pub proof fn lemma_reaches_in_table(nodes: Seq<NodeModel>, forward: bool, i: int, j: int)
    requires
        reaches(nodes, forward, i, j),
    ensures
        0 <= i < nodes.len(),
        0 <= j < nodes.len(),
{
    let path = choose|path: Seq<int>|
        #[trigger] is_path(nodes, forward, path) && path[0] == i && path.last() == j;
    if path.len() > 1 {
        assert(joined(nodes, forward, path, path.len() - 2));
    }
}

/// Reaching is transitive.
pub proof fn lemma_reaches_trans(nodes: Seq<NodeModel>, forward: bool, a: int, b: int, c: int)
    requires
        reaches(nodes, forward, a, b),
        reaches(nodes, forward, b, c),
    ensures
        reaches(nodes, forward, a, c),
{
    let path = choose|path: Seq<int>|
        #[trigger] is_path(nodes, forward, path) && path[0] == b && path.last() == c;
    lemma_along(nodes, forward, a, path, path.len() - 1);
}

/// What reaches the start of a path reaches every node on it.
pub proof fn lemma_along(nodes: Seq<NodeModel>, forward: bool, a: int, path: Seq<int>, k: int)
    requires
        is_path(nodes, forward, path),
        reaches(nodes, forward, a, path[0]),
        0 <= k < path.len(),
    ensures
        reaches(nodes, forward, a, path[k]),
    decreases k,
{
    if k > 0 {
        lemma_along(nodes, forward, a, path, k - 1);
        assert(joined(nodes, forward, path, k - 1));
        lemma_reaches_step(nodes, forward, a, path[k - 1], path[k]);
    }
}

/// A path with a step added at its end is a path.
pub proof fn lemma_path_push(nodes: Seq<NodeModel>, forward: bool, path: Seq<int>, j: int)
    requires
        is_path(nodes, forward, path),
        step(nodes, forward, path.last(), j),
    ensures
        is_path(nodes, forward, path.push(j)),
{
    let longer = path.push(j);
    assert forall|k: int| 0 <= k < longer.len() - 1 implies #[trigger] joined(
        nodes,
        forward,
        longer,
        k,
    ) by {
        if k < path.len() - 1 {
            assert(joined(nodes, forward, path, k));
        }
    }
}

/// Whether the marked nodes are closed under steps of the given side.
pub open spec fn closed(nodes: Seq<NodeModel>, forward: bool, marks: Seq<bool>) -> bool {
    forall|i: int, j: int|
        0 <= i < marks.len() && marks[i] && #[trigger] step(nodes, forward, i, j) ==> marks[j]
}

/// A closed set of marks that holds the start of a path holds all of it.
pub proof fn lemma_closed_holds_path(
    nodes: Seq<NodeModel>,
    forward: bool,
    marks: Seq<bool>,
    path: Seq<int>,
    k: int,
)
    requires
        marks.len() == nodes.len(),
        closed(nodes, forward, marks),
        is_path(nodes, forward, path),
        marks[path[0]],
        0 <= k < path.len(),
    ensures
        0 <= path[k] < nodes.len(),
        marks[path[k]],
    decreases k,
{
    if k > 0 {
        lemma_closed_holds_path(nodes, forward, marks, path, k - 1);
        assert(joined(nodes, forward, path, k - 1));
    }
}

/// The number of nodes not marked.
pub open spec fn unmarked(marks: Seq<bool>) -> nat
    decreases marks.len(),
{
    if marks.len() == 0 {
        0
    } else {
        unmarked(marks.drop_last()) + if marks.last() {
            0nat
        } else {
            1nat
        }
    }
}

/// Marking one more node leaves one fewer unmarked.
pub proof fn lemma_mark(marks: Seq<bool>, j: int)
    requires
        0 <= j < marks.len(),
        !marks[j],
    ensures
        unmarked(marks.update(j, true)) + 1 == unmarked(marks),
    decreases marks.len(),
{
    let after = marks.update(j, true);
    if j < marks.len() - 1 {
        lemma_mark(marks.drop_last(), j);
        assert(after.drop_last() =~= marks.drop_last().update(j, true));
    } else {
        assert(after.drop_last() =~= marks.drop_last());
    }
}

/// Whether `j` is a position of `marks` that is marked.
pub open spec fn is_marked(marks: Seq<bool>, j: int) -> bool {
    0 <= j < marks.len() && marks[j]
}

/// Marks every node that `start` reaches along links of the given side, and
/// no other.
pub fn mark_reachable(nodes: &Vec<Node>, start: usize, forward: bool) -> (marks: Vec<bool>)
    requires
        sound(node_models(nodes@)),
        start < nodes.len(),
    ensures
        marks.len() == nodes.len(),
        forall|j: int|
            0 <= j < nodes.len() ==> marks[j] == reaches(
                node_models(nodes@),
                forward,
                start as int,
                j,
            ),
{
    let ghost table = node_models(nodes@);
    let n = nodes.len();
    let mut marks: Vec<bool> = vec![false; n];
    let mut stack: Vec<usize> = Vec::new();
    marks.set(start, true);
    stack.push(start);
    proof {
        lemma_reaches_self(table, forward, start as int);
        assert(stack@[0] == start);
    }
    while stack.len() > 0
        invariant
            table == node_models(nodes@),
            sound(table),
            n == nodes.len(),
            marks.len() == n,
            start < n,
            marks[start as int],
            forall|q: int| 0 <= q < stack.len() ==> stack[q] < n && marks[stack[q] as int],
            forall|j: int| 0 <= j < n && marks[j] ==> reaches(table, forward, start as int, j),
            forall|i: int, j: int|
                0 <= i < n && marks[i] && #[trigger] step(table, forward, i, j) && !marks[j]
                    ==> stack@.contains(i as usize),
        decreases unmarked(marks@), stack.len(),
    {
        let ghost before = unmarked(marks@);
        let ghost height = stack.len();
        let ghost old_stack = stack@;
        let i = stack.pop().unwrap();
        assert forall|i2: int, j: int|
            0 <= i2 < n && marks[i2] && #[trigger] step(table, forward, i2, j) && !marks[j]
                implies stack@.contains(i2 as usize) || i2 == i by {
            let q = choose|q: int| 0 <= q < old_stack.len() && old_stack[q] == i2 as usize;
            if q < old_stack.len() - 1 {
                assert(stack@[q] == i2 as usize);
            }
        }
        let sockets = nodes[i].socket_count(forward);
        let mut s: usize = 0;
        while s < sockets
            invariant
                table == node_models(nodes@),
                sound(table),
                n == nodes.len(),
                marks.len() == n,
                start < n,
                i < n,
                marks[start as int],
                marks[i as int],
                sockets == table[i as int].sockets(forward).len(),
                s <= sockets,
                forall|q: int| 0 <= q < stack.len() ==> stack[q] < n && marks[stack[q] as int],
                forall|j: int| 0 <= j < n && marks[j] ==> reaches(table, forward, start as int, j),
                forall|i2: int, j: int|
                    0 <= i2 < n && marks[i2] && #[trigger] step(table, forward, i2, j) && !marks[j]
                        ==> stack@.contains(i2 as usize) || i2 == i,
                forall|s2: int, k2: int|
                    0 <= s2 < s && table[i as int].has_link(forward, s2, k2) ==> is_marked(
                        marks@,
                        index_of(table, (#[trigger] table[i as int].link(forward, s2, k2)).id),
                    ),
                unmarked(marks@) < before || (unmarked(marks@) == before && stack.len() < height),
            decreases sockets - s,
        {
            let links = nodes[i].link_count(forward, s);
            let mut k: usize = 0;
            while k < links
                invariant
                    table == node_models(nodes@),
                    sound(table),
                    n == nodes.len(),
                    marks.len() == n,
                    start < n,
                    i < n,
                    marks[start as int],
                    marks[i as int],
                    s < table[i as int].sockets(forward).len(),
                    links == table[i as int].sockets(forward)[s as int].len(),
                    k <= links,
                    forall|q: int|
                        0 <= q < stack.len() ==> stack[q] < n && marks[stack[q] as int],
                    forall|j: int|
                        0 <= j < n && marks[j] ==> reaches(table, forward, start as int, j),
                    forall|i2: int, j: int|
                        0 <= i2 < n && marks[i2] && #[trigger] step(table, forward, i2, j)
                            && !marks[j] ==> stack@.contains(i2 as usize) || i2 == i,
                    forall|s2: int, k2: int|
                        (0 <= s2 < s || (s2 == s && k2 < k)) && table[i as int].has_link(
                            forward,
                            s2,
                            k2,
                        ) ==> is_marked(
                            marks@,
                            index_of(table, (#[trigger] table[i as int].link(forward, s2, k2)).id),
                        ),
                    unmarked(marks@) < before || (unmarked(marks@) == before && stack.len()
                        < height),
                decreases links - k,
            {
                let id = nodes[i].peer(forward, s, k);
                proof {
                    lemma_counterpart(table, forward, i as int, s as int, k as int);
                }
                match find_index(nodes, id) {
                    Some(j) => {
                        proof {
                            lemma_index_of(table, j as int);
                            assert(table[i as int].has_link(forward, s as int, k as int));
                            assert(step(table, forward, i as int, j as int));
                            lemma_reaches_step(table, forward, start as int, i as int, j as int);
                            assert(index_of(
                                table,
                                table[i as int].link(forward, s as int, k as int).id,
                            ) == j);
                        }
                        if !marks[j] {
                            let ghost old_marks = marks@;
                            let ghost held = stack@;
                            marks.set(j, true);
                            stack.push(j);
                            proof {
                                lemma_mark(old_marks, j as int);
                                assert(stack@[held.len() as int] == j);
                                assert forall|i2: int, j2: int|
                                    0 <= i2 < n && marks[i2] && #[trigger] step(
                                        table,
                                        forward,
                                        i2,
                                        j2,
                                    ) && !marks[j2] implies stack@.contains(i2 as usize) || i2
                                    == i by {
                                    if i2 == j {
                                    } else if i2 != i {
                                        let q = choose|q: int|
                                            0 <= q < held.len() && held[q] == i2 as usize;
                                        assert(stack@[q] == i2 as usize);
                                    }
                                }
                            }
                        }
                    },
                    None => {
                        assert(false);
                    },
                }
                k += 1;
            }
            s += 1;
        }
        proof {
            assert forall|i2: int, j: int|
                0 <= i2 < n && marks[i2] && #[trigger] step(table, forward, i2, j) && !marks[j]
                    implies stack@.contains(i2 as usize) by {
                if i2 == i {
                    let (s2, k2) = choose|s2: int, k2: int|
                        table[i2].has_link(forward, s2, k2) && (#[trigger] table[i2].link(
                            forward,
                            s2,
                            k2,
                        )).id == table[j].id;
                    lemma_index_of(table, j);
                    assert(is_marked(marks@, index_of(table, table[i2].link(forward, s2, k2).id)));
                }
            }
        }
    }
    proof {
        assert(closed(table, forward, marks@)) by {
            assert forall|i: int, j: int|
                0 <= i < marks@.len() && marks@[i] && #[trigger] step(
                    table,
                    forward,
                    i,
                    j,
                ) implies marks@[j] by {
                if !marks[j] {
                    assert(stack@.contains(i as usize));
                }
            }
        }
        assert forall|j: int| 0 <= j < nodes.len() implies marks[j] == reaches(
            table,
            forward,
            start as int,
            j,
        ) by {
            if reaches(table, forward, start as int, j) {
                let path = choose|path: Seq<int>|
                    #[trigger] is_path(table, forward, path) && path[0] == start as int
                        && path.last() == j;
                lemma_closed_holds_path(table, forward, marks@, path, path.len() - 1);
            }
        }
    }
    marks
}

/// Whether position `t` is listed in `picked` before position `q`.
pub open spec fn listed_before(picked: Seq<usize>, q: int, t: int) -> bool {
    exists|p: int| 0 <= p < q && #[trigger] picked[p] as int == t
}

/// Whether `picked` lists the marked positions: each of them, in rising
/// order, and no other.
pub open spec fn lists_marked(marks: Seq<bool>, picked: Seq<usize>) -> bool {
    &&& forall|q: int| 0 <= q < picked.len() ==> is_marked(marks, #[trigger] picked[q] as int)
    &&& forall|p: int, q: int| 0 <= p < q < picked.len() ==> picked[p] < picked[q]
    &&& forall|t: int| #[trigger] is_marked(marks, t) ==> listed_before(picked, picked.len() as int, t)
}

/// The marked positions, in rising order.
pub fn marked_positions(marks: &Vec<bool>) -> (picked: Vec<usize>)
    ensures
        lists_marked(marks@, picked@),
{
    let mut picked: Vec<usize> = Vec::new();
    let mut t: usize = 0;
    while t < marks.len()
        invariant
            t <= marks.len(),
            forall|q: int|
                0 <= q < picked.len() ==> is_marked(marks@, #[trigger] picked[q] as int)
                    && picked[q] < t,
            forall|p: int, q: int| 0 <= p < q < picked.len() ==> picked[p] < picked[q],
            forall|x: int|
                0 <= x < t && #[trigger] is_marked(marks@, x) ==> listed_before(
                    picked@,
                    picked.len() as int,
                    x,
                ),
        decreases marks.len() - t,
    {
        let ghost held = picked@;
        if marks[t] {
            picked.push(t);
            assert(picked@[held.len() as int] as int == t);
        }
        proof {
            assert forall|x: int| 0 <= x < t + 1 && #[trigger] is_marked(
                marks@,
                x,
            ) implies listed_before(picked@, picked.len() as int, x) by {
                if x < t {
                    assert(listed_before(held, held.len() as int, x));
                    let p = choose|p: int| 0 <= p < held.len() && #[trigger] held[p] as int == x;
                    assert(picked@[p] as int == x);
                }
            }
        }
        t += 1;
    }
    picked
}

} // verus!
