//! What holds of the order that the walk gives: no node is placed twice,
//! the nodes that feed a node are placed before it, the placed nodes are
//! those that can be reached from the entry node, and the walk fails on
//! cycles of data wires and on nothing else.

use crate::error::CompileError;
use crate::graph::{wires_wf, InPinId, NodeId, OutPinId};
use crate::linearize::{
    dependency, flow_next, fresh, lemma_count_bound, lemma_count_monotone, lemma_count_set,
    lemma_source_in_graph, lemma_target_in_graph, linear_order, unvisited, visit, visit_inputs,
    walk, Net, Walk,
};
use vstd::prelude::*;

verus! {

/// `d` is among the first `k` nodes of `order`.
pub open spec fn placed(order: Seq<usize>, d: usize, k: int) -> bool {
    exists|i: int| 0 <= i < k && order[i] == d
}

/// The invariant of a walk: the flags say which nodes are in the order,
/// what was placed was entered, no node is placed twice, and whatever
/// feeds a placed node was placed before it.
pub open spec fn consistent(net: Net, w: Walk) -> bool {
    &&& w.visited.len() == net.kinds.len()
    &&& w.emitted.len() == net.kinds.len()
    &&& forall|i: int|
        0 <= i < net.kinds.len() ==> (#[trigger] w.emitted[i] <==> placed(
            w.order,
            i as usize,
            w.order.len() as int,
        ))
    &&& forall|i: int| 0 <= i < net.kinds.len() && #[trigger] w.emitted[i] ==> w.visited[i]
    &&& forall|a: int, b: int|
        0 <= a < b < w.order.len() ==> #[trigger] w.order[a] != #[trigger] w.order[b]
    &&& forall|k: int| 0 <= k < w.order.len() ==> #[trigger] w.order[k] < net.kinds.len()
    &&& forall|k: int, j: nat|
        0 <= k < w.order.len() && j < net.kinds[w.order[k] as int].data_inputs() && (
        #[trigger] dependency(net, w.order[k] as int, j)) is Some ==> placed(
            w.order,
            dependency(net, w.order[k] as int, j).unwrap(),
            k,
        )
}

/// `after` continues `before`: the order grew at its end, no flag was
/// cleared, and the nodes that are entered and not yet placed are the same.
pub open spec fn extends(before: Walk, after: Walk) -> bool {
    &&& after.visited.len() == before.visited.len()
    &&& after.emitted.len() == before.emitted.len()
    &&& before.order.len() <= after.order.len()
    &&& forall|i: int| 0 <= i < before.order.len() ==> #[trigger] after.order[i] == before.order[i]
    &&& forall|i: int|
        0 <= i < before.visited.len() && before.visited[i] ==> #[trigger] after.visited[i]
    &&& forall|i: int|
        0 <= i < before.emitted.len() && before.emitted[i] ==> #[trigger] after.emitted[i]
    &&& forall|i: int|
        0 <= i < before.visited.len() ==> ((#[trigger] after.visited[i] && !after.emitted[i]) <==> (
        before.visited[i] && !before.emitted[i]))
}

/// Every node that was entered was placed.
pub open spec fn settled(w: Walk) -> bool {
    forall|i: int| 0 <= i < w.visited.len() && #[trigger] w.visited[i] ==> w.emitted[i]
}

/// Between two states of which one continues the other, a node is entered
/// and not yet placed in both or in neither.
proof fn lemma_in_progress_kept(b: Walk, c: Walk, i: int)
    requires
        extends(b, c),
        0 <= i < b.visited.len(),
    ensures
        (c.visited[i] && !c.emitted[i]) <==> (b.visited[i] && !b.emitted[i]),
{
}

proof fn lemma_extends_trans(a: Walk, b: Walk, c: Walk)
    requires
        extends(a, b),
        extends(b, c),
    ensures
        extends(a, c),
{
    assert forall|i: int| 0 <= i < a.order.len() implies #[trigger] c.order[i] == a.order[i] by {
        assert(b.order[i] == a.order[i]);
    }
    assert forall|i: int| 0 <= i < a.visited.len() && a.visited[i] implies #[trigger] c.visited[i] by {
        assert(b.visited[i]);
    }
    assert forall|i: int| 0 <= i < a.emitted.len() && a.emitted[i] implies #[trigger] c.emitted[i] by {
        assert(b.emitted[i]);
    }
    assert forall|i: int| 0 <= i < a.visited.len() implies ((#[trigger] c.visited[i]
        && !c.emitted[i]) <==> (a.visited[i] && !a.emitted[i])) by {
        lemma_in_progress_kept(a, b, i);
        lemma_in_progress_kept(b, c, i);
    }
}

/// A successful placing of `n` keeps the invariant and places `n`.
proof fn lemma_visit(net: Net, n: int, w: Walk, fuel: nat)
    requires
        wires_wf(net.wires, net.kinds.len()),
        net.kinds.len() <= usize::MAX,
        consistent(net, w),
        0 <= n < net.kinds.len(),
        !w.visited[n],
        visit(net, n, w, fuel) is Ok,
    ensures
        consistent(net, visit(net, n, w, fuel).unwrap()),
        extends(w, visit(net, n, w, fuel).unwrap()),
        visit(net, n, w, fuel).unwrap().emitted[n],
    decreases fuel, 0nat, 0nat,
{
    let entered = Walk { visited: w.visited.update(n, true), emitted: w.emitted, order: w.order };
    assert(consistent(net, entered));
    lemma_visit_inputs(net, n, 0, entered, (fuel - 1) as nat);
    let b = visit_inputs(net, n, 0, entered, (fuel - 1) as nat).unwrap();
    let a = visit(net, n, w, fuel).unwrap();
    let len = b.order.len() as int;
    assert(a.order == b.order.push(n as usize));
    assert(!b.emitted[n]);
    assert(!placed(b.order, n as usize, len));
    assert forall|i: int| 0 <= i < net.kinds.len() implies (#[trigger] a.emitted[i] <==> placed(
        a.order,
        i as usize,
        a.order.len() as int,
    )) by {
        if i == n {
            assert(a.order[len] == n as usize);
        } else {
            if b.emitted[i] {
                let at = choose|at: int| 0 <= at < len && b.order[at] == i as usize;
                assert(a.order[at] == i as usize);
            }
            if placed(a.order, i as usize, a.order.len() as int) {
                let at = choose|at: int| 0 <= at < a.order.len() && a.order[at] == i as usize;
                assert(at < len);
                assert(b.order[at] == i as usize);
            }
        }
    }
    assert forall|x: int, y: int| 0 <= x < y < a.order.len() implies #[trigger] a.order[x]
        != #[trigger] a.order[y] by {
        if y == len {
            assert(b.order[x] == a.order[x]);
        } else {
            assert(b.order[x] == a.order[x]);
            assert(b.order[y] == a.order[y]);
        }
    }
    assert forall|k: int, j: nat|
        0 <= k < a.order.len() && j < net.kinds[a.order[k] as int].data_inputs() && (
        #[trigger] dependency(net, a.order[k] as int, j)) is Some implies placed(
        a.order,
        dependency(net, a.order[k] as int, j).unwrap(),
        k,
    ) by {
        let d = dependency(net, a.order[k] as int, j).unwrap();
        if k == len {
            lemma_source_in_graph(
                net.wires,
                net.kinds.len(),
                InPinId { node: NodeId(n as usize), input: net.kinds[n].data_pin(j) as usize },
            );
            assert(b.emitted[d as int]);
            let at = choose|at: int| 0 <= at < len && b.order[at] == d;
            assert(a.order[at] == d);
        } else {
            assert(a.order[k] == b.order[k]);
            assert(placed(b.order, d, k));
            let at = choose|at: int| 0 <= at < k && b.order[at] == d;
            assert(a.order[at] == d);
        }
    }
    assert(consistent(net, a));
    assert(extends(w, a)) by {
        assert forall|i: int| 0 <= i < w.order.len() implies #[trigger] a.order[i]
            == w.order[i] by {
            assert(b.order[i] == entered.order[i]);
        }
        assert forall|i: int| 0 <= i < w.visited.len() && w.visited[i] implies #[trigger] a.visited[i] by {
            assert(entered.visited[i]);
            assert(b.visited[i]);
        }
        assert forall|i: int| 0 <= i < w.emitted.len() && w.emitted[i] implies #[trigger] a.emitted[i] by {
            assert(b.emitted[i]);
        }
        assert forall|i: int| 0 <= i < w.visited.len() implies ((#[trigger] a.visited[i]
            && !a.emitted[i]) <==> (w.visited[i] && !w.emitted[i])) by {
            assert((b.visited[i] && !b.emitted[i]) <==> (entered.visited[i]
                && !entered.emitted[i]));
        }
    }
}

/// A successful placing of what feeds `n` keeps the invariant and leaves
/// everything that feeds `n` placed.
proof fn lemma_visit_inputs(net: Net, n: int, j: nat, w: Walk, fuel: nat)
    requires
        wires_wf(net.wires, net.kinds.len()),
        net.kinds.len() <= usize::MAX,
        consistent(net, w),
        0 <= n < net.kinds.len(),
        w.visited[n],
        !w.emitted[n],
        forall|i: nat|
            i < j && i < net.kinds[n].data_inputs() && (#[trigger] dependency(net, n, i)) is Some
                ==> w.emitted[dependency(net, n, i).unwrap() as int],
        visit_inputs(net, n, j, w, fuel) is Ok,
    ensures
        consistent(net, visit_inputs(net, n, j, w, fuel).unwrap()),
        extends(w, visit_inputs(net, n, j, w, fuel).unwrap()),
        forall|i: nat|
            i < net.kinds[n].data_inputs() && (#[trigger] dependency(net, n, i)) is Some
                ==> visit_inputs(net, n, j, w, fuel).unwrap().emitted[dependency(
                net,
                n,
                i,
            ).unwrap() as int],
    decreases fuel, 1nat, net.kinds[n].data_inputs() - j,
{
    if j < net.kinds[n].data_inputs() {
        lemma_source_in_graph(
            net.wires,
            net.kinds.len(),
            InPinId { node: NodeId(n as usize), input: net.kinds[n].data_pin(j) as usize },
        );
        match dependency(net, n, j) {
            None => {
                lemma_visit_inputs(net, n, j + 1, w, fuel);
            },
            Some(d) => {
                if w.emitted[d as int] {
                    lemma_visit_inputs(net, n, j + 1, w, fuel);
                } else {
                    lemma_visit(net, d as int, w, fuel);
                    let mid = visit(net, d as int, w, fuel).unwrap();
                    assert forall|i: nat|
                        i < j + 1 && i < net.kinds[n].data_inputs() && (#[trigger] dependency(
                            net,
                            n,
                            i,
                        )) is Some implies mid.emitted[dependency(net, n, i).unwrap() as int] by {
                        let x = dependency(net, n, i).unwrap();
                        lemma_source_in_graph(
                            net.wires,
                            net.kinds.len(),
                            InPinId {
                                node: NodeId(n as usize),
                                input: net.kinds[n].data_pin(i) as usize,
                            },
                        );
                        if i < j {
                            assert(w.emitted[x as int]);
                        }
                    }
                    lemma_visit_inputs(net, n, j + 1, mid, fuel);
                    lemma_extends_trans(w, mid, visit_inputs(net, n, j + 1, mid, fuel).unwrap());
                }
            },
        }
    }
}

/// A successful walk from `n` keeps the invariant and places `n`.
proof fn lemma_walk(net: Net, n: int, w: Walk, steps: nat)
    requires
        wires_wf(net.wires, net.kinds.len()),
        net.kinds.len() <= usize::MAX,
        consistent(net, w),
        settled(w),
        0 <= n < net.kinds.len(),
        !w.visited[n],
        walk(net, n, w, steps) is Ok,
    ensures
        consistent(net, walk(net, n, w, steps).unwrap()),
        extends(w, walk(net, n, w, steps).unwrap()),
        settled(walk(net, n, w, steps).unwrap()),
        walk(net, n, w, steps).unwrap().emitted[n],
    decreases steps,
{
    lemma_visit(net, n, w, net.kinds.len());
    let after = visit(net, n, w, net.kinds.len()).unwrap();
    assert(settled(after)) by {
        assert forall|i: int| 0 <= i < after.visited.len() && #[trigger] after.visited[i] implies after.emitted[i] by {
            if !after.emitted[i] {
                assert(w.visited[i] && !w.emitted[i]);
            }
        }
    }
    lemma_target_in_graph(
        net.wires,
        net.kinds.len(),
        OutPinId { node: NodeId(n as usize), output: 0 },
    );
    match flow_next(net, n) {
        Some(m) => {
            if !(after.visited[m as int] || steps == 0) {
                lemma_walk(net, m as int, after, (steps - 1) as nat);
                lemma_extends_trans(w, after, walk(net, m as int, after, (steps - 1) as nat).unwrap());
            }
        },
        None => {},
    }
}

/// Before the walk, nothing is entered and nothing is placed.
proof fn lemma_fresh(net: Net)
    ensures
        consistent(net, fresh(net.kinds.len())),
        settled(fresh(net.kinds.len())),
{
}

/// No node appears twice in the order of the walk, whatever feeds many
/// inputs or is reached on many ways.
pub proof fn law_each_node_once(net: Net, entry: usize)
    requires
        wires_wf(net.wires, net.kinds.len()),
        net.kinds.len() <= usize::MAX,
        entry < net.kinds.len(),
        linear_order(net, entry as int) is Ok,
    ensures
        linear_order(net, entry as int).unwrap().no_duplicates(),
        placed(
            linear_order(net, entry as int).unwrap(),
            entry,
            linear_order(net, entry as int).unwrap().len() as int,
        ),
        forall|k: int|
            0 <= k < linear_order(net, entry as int).unwrap().len() ==> (
            #[trigger] linear_order(net, entry as int).unwrap()[k]) < net.kinds.len(),
{
    lemma_fresh(net);
    lemma_walk(net, entry as int, fresh(net.kinds.len()), net.kinds.len());
    let order = linear_order(net, entry as int).unwrap();
    assert forall|a: int, b: int| 0 <= a < order.len() && 0 <= b < order.len() && a != b implies order[a] != order[b] by {
        if a < b {
            assert(order[a] != order[b]);
        } else {
            assert(order[b] != order[a]);
        }
    }
}

/// Whatever feeds a data input of a node stands before that node in the
/// order of the walk.
pub proof fn law_dependencies_come_first(net: Net, entry: usize, k: int, j: nat)
    requires
        wires_wf(net.wires, net.kinds.len()),
        net.kinds.len() <= usize::MAX,
        entry < net.kinds.len(),
        linear_order(net, entry as int) is Ok,
        0 <= k < linear_order(net, entry as int).unwrap().len(),
        j < net.kinds[linear_order(net, entry as int).unwrap()[k] as int].data_inputs(),
        dependency(net, linear_order(net, entry as int).unwrap()[k] as int, j) is Some,
    ensures
        placed(
            linear_order(net, entry as int).unwrap(),
            dependency(net, linear_order(net, entry as int).unwrap()[k] as int, j).unwrap(),
            k,
        ),
{
    lemma_fresh(net);
    lemma_walk(net, entry as int, fresh(net.kinds.len()), net.kinds.len());
}

/// `b` feeds a data input of `a`.
pub open spec fn feeds(net: Net, a: usize, b: usize) -> bool {
    exists|j: nat|
        j < net.kinds[a as int].data_inputs() && #[trigger] dependency(net, a as int, j) == Some(b)
}

/// The walk can go from `a` to `b`: `b` feeds `a`, or `b` is at the end
/// of the flow output of `a`.
pub open spec fn leads_to(net: Net, a: usize, b: usize) -> bool {
    feeds(net, a, b) || flow_next(net, a as int) == Some(b)
}

/// A way through the graph on which the walk can go.
pub open spec fn is_path(net: Net, path: Seq<usize>) -> bool {
    path.len() > 0 && forall|i: int|
        0 <= i < path.len() - 1 ==> leads_to(net, #[trigger] path[i], path[i + 1])
}

/// There is a way from `from` to `to`.
pub open spec fn reachable(net: Net, from: usize, to: usize) -> bool {
    exists|path: Seq<usize>| is_path(net, path) && path[0] == from && #[trigger] path.last() == to
}

/// Whatever stands at the end of the flow output of a node of `order` is
/// in `order` too.
pub open spec fn follows_flow(net: Net, order: Seq<usize>) -> bool {
    forall|k: int|
        0 <= k < order.len() && (#[trigger] flow_next(net, order[k] as int)) is Some ==> placed(
            order,
            flow_next(net, order[k] as int).unwrap(),
            order.len() as int,
        )
}

proof fn lemma_path_is_placed(net: Net, entry: usize, path: Seq<usize>, k: int)
    requires
        wires_wf(net.wires, net.kinds.len()),
        net.kinds.len() <= usize::MAX,
        entry < net.kinds.len(),
        linear_order(net, entry as int) is Ok,
        follows_flow(net, linear_order(net, entry as int).unwrap()),
        is_path(net, path),
        path[0] == entry,
        0 <= k < path.len(),
    ensures
        placed(
            linear_order(net, entry as int).unwrap(),
            path[k],
            linear_order(net, entry as int).unwrap().len() as int,
        ),
    decreases k,
{
    let order = linear_order(net, entry as int).unwrap();
    if k == 0 {
        law_each_node_once(net, entry);
    } else {
        lemma_path_is_placed(net, entry, path, k - 1);
        let at = choose|at: int| 0 <= at < order.len() && order[at] == path[k - 1];
        assert(leads_to(net, path[k - 1], path[k - 1 + 1]));
        if feeds(net, path[k - 1], path[k]) {
            let j = choose|j: nat|
                j < net.kinds[path[k - 1] as int].data_inputs() && #[trigger] dependency(
                    net,
                    path[k - 1] as int,
                    j,
                ) == Some(path[k]);
            law_dependencies_come_first(net, entry, at, j);
            let before = choose|before: int| 0 <= before < at && order[before] == path[k];
            assert(order[before] == path[k]);
        } else {
            assert(flow_next(net, order[at] as int) is Some);
        }
    }
}

/// Every node that can be reached from the entry node appears in the
/// order of the walk, at exactly one place.  This is stated of the orders
/// that hold the flow successor of each of their nodes: the walk follows
/// flow wires from the entry node only, so a node that is first placed
/// because it feeds another node does not bring its flow successor in.
pub proof fn law_reachable_nodes_placed_once(net: Net, entry: usize, target: usize)
    requires
        wires_wf(net.wires, net.kinds.len()),
        net.kinds.len() <= usize::MAX,
        entry < net.kinds.len(),
        linear_order(net, entry as int) is Ok,
        follows_flow(net, linear_order(net, entry as int).unwrap()),
        reachable(net, entry, target),
    ensures
        exists|at: int|
            0 <= at < linear_order(net, entry as int).unwrap().len() && (#[trigger] linear_order(
                net,
                entry as int,
            ).unwrap()[at]) == target && forall|other: int|
                0 <= other < linear_order(net, entry as int).unwrap().len() && linear_order(
                    net,
                    entry as int,
                ).unwrap()[other] == target ==> other == at,
{
    let order = linear_order(net, entry as int).unwrap();
    let path = choose|path: Seq<usize>|
        is_path(net, path) && path[0] == entry && #[trigger] path.last() == target;
    lemma_path_is_placed(net, entry, path, path.len() - 1);
    law_each_node_once(net, entry);
    let at = choose|at: int| 0 <= at < order.len() && order[at] == target;
    assert(order[at] == target);
    assert forall|other: int| 0 <= other < order.len() && order[other] == target implies other
        == at by {
        if other != at {
            assert(order[other] != order[at]);
        }
    }
}

/// A way along data wires that comes back to where it started.
pub open spec fn is_data_cycle(net: Net, path: Seq<usize>) -> bool {
    path.len() >= 2 && path[0] == path.last() && forall|i: int|
        0 <= i < path.len() - 1 ==> feeds(net, #[trigger] path[i], path[i + 1])
}

/// Some node of the graph depends on itself through data wires.
pub open spec fn has_data_cycle(net: Net) -> bool {
    exists|path: Seq<usize>| #[trigger] is_data_cycle(net, path)
}

/// The nodes that are entered and not yet placed are those of `stack`,
/// and each of them is fed by the next.
pub open spec fn chain(net: Net, w: Walk, stack: Seq<usize>) -> bool {
    &&& forall|i: int|
        0 <= i < net.kinds.len() ==> ((#[trigger] w.visited[i] && !w.emitted[i]) <==> placed(
            stack,
            i as usize,
            stack.len() as int,
        ))
    &&& forall|k: int| 0 <= k < stack.len() - 1 ==> feeds(net, #[trigger] stack[k], stack[k + 1])
}

proof fn lemma_chain_kept(net: Net, w: Walk, after: Walk, stack: Seq<usize>)
    requires
        w.visited.len() == net.kinds.len(),
        chain(net, w, stack),
        extends(w, after),
    ensures
        chain(net, after, stack),
{
    assert forall|i: int| 0 <= i < net.kinds.len() implies ((#[trigger] after.visited[i]
        && !after.emitted[i]) <==> placed(stack, i as usize, stack.len() as int)) by {
        lemma_in_progress_kept(w, after, i);
        assert((w.visited[i] && !w.emitted[i]) <==> placed(stack, i as usize, stack.len() as int));
    }
}

proof fn lemma_visit_fails(net: Net, n: int, w: Walk, fuel: nat, stack: Seq<usize>)
    requires
        wires_wf(net.wires, net.kinds.len()),
        net.kinds.len() <= usize::MAX,
        consistent(net, w),
        0 <= n < net.kinds.len(),
        !w.visited[n],
        fuel >= unvisited(w),
        chain(net, w, stack),
        stack.len() > 0 ==> feeds(net, stack.last(), n as usize),
        visit(net, n, w, fuel) is Err,
    ensures
        visit(net, n, w, fuel) == Err::<Walk, CompileError>(CompileError::DataCycle),
        has_data_cycle(net),
    decreases fuel, 0nat, 0nat,
{
    lemma_count_set(w.visited, n, w.visited.len() as int);
    let entered = Walk { visited: w.visited.update(n, true), emitted: w.emitted, order: w.order };
    let deeper = stack.push(n as usize);
    assert(consistent(net, entered));
    assert(chain(net, entered, deeper)) by {
        assert forall|i: int| 0 <= i < net.kinds.len() implies ((#[trigger] entered.visited[i]
            && !entered.emitted[i]) <==> placed(deeper, i as usize, deeper.len() as int)) by {
            if i == n {
                assert(deeper[stack.len() as int] == n as usize);
            } else {
                assert((w.visited[i] && !w.emitted[i]) <==> placed(
                    stack,
                    i as usize,
                    stack.len() as int,
                ));
                if placed(stack, i as usize, stack.len() as int) {
                    let at = choose|at: int| 0 <= at < stack.len() && stack[at] == i as usize;
                    assert(deeper[at] == i as usize);
                }
                if placed(deeper, i as usize, deeper.len() as int) {
                    let at = choose|at: int| 0 <= at < deeper.len() && deeper[at] == i as usize;
                    assert(at < stack.len());
                    assert(stack[at] == i as usize);
                }
            }
        }
        assert forall|k: int| 0 <= k < deeper.len() - 1 implies feeds(
            net,
            #[trigger] deeper[k],
            deeper[k + 1],
        ) by {
            if k < stack.len() - 1 {
                assert(feeds(net, stack[k], stack[k + 1]));
            }
        }
    }
    lemma_visit_inputs_fails(net, n, 0, entered, (fuel - 1) as nat, deeper);
}

proof fn lemma_visit_inputs_fails(
    net: Net,
    n: int,
    j: nat,
    w: Walk,
    fuel: nat,
    stack: Seq<usize>,
)
    requires
        wires_wf(net.wires, net.kinds.len()),
        net.kinds.len() <= usize::MAX,
        consistent(net, w),
        0 <= n < net.kinds.len(),
        w.visited[n],
        !w.emitted[n],
        fuel >= unvisited(w),
        chain(net, w, stack),
        stack.len() > 0,
        stack.last() == n as usize,
        visit_inputs(net, n, j, w, fuel) is Err,
    ensures
        visit_inputs(net, n, j, w, fuel) == Err::<Walk, CompileError>(CompileError::DataCycle),
        has_data_cycle(net),
    decreases fuel, 1nat, net.kinds[n].data_inputs() - j,
{
    lemma_source_in_graph(
        net.wires,
        net.kinds.len(),
        InPinId { node: NodeId(n as usize), input: net.kinds[n].data_pin(j) as usize },
    );
    match dependency(net, n, j) {
        None => {
            lemma_visit_inputs_fails(net, n, j + 1, w, fuel, stack);
        },
        Some(d) => {
            assert(feeds(net, n as usize, d));
            if w.emitted[d as int] {
                lemma_visit_inputs_fails(net, n, j + 1, w, fuel, stack);
            } else if w.visited[d as int] {
                assert(placed(stack, d, stack.len() as int));
                let at = choose|at: int| 0 <= at < stack.len() && stack[at] == d;
                let path = stack.subrange(at, stack.len() as int).push(d);
                assert forall|i: int| 0 <= i < path.len() - 1 implies feeds(
                    net,
                    #[trigger] path[i],
                    path[i + 1],
                ) by {
                    if i < path.len() - 2 {
                        assert(feeds(net, stack[at + i], stack[at + i + 1]));
                    }
                }
                assert(is_data_cycle(net, path));
            } else {
                if visit(net, d as int, w, fuel) is Err {
                    lemma_visit_fails(net, d as int, w, fuel, stack);
                } else {
                    lemma_visit(net, d as int, w, fuel);
                    let mid = visit(net, d as int, w, fuel).unwrap();
                    lemma_chain_kept(net, w, mid, stack);
                    lemma_count_monotone(w.visited, mid.visited, w.visited.len() as int);
                    lemma_in_progress_kept(w, mid, n);
                    lemma_visit_inputs_fails(net, n, j + 1, mid, fuel, stack);
                }
            }
        },
    }
}

proof fn lemma_walk_fails(net: Net, n: int, w: Walk, steps: nat)
    requires
        wires_wf(net.wires, net.kinds.len()),
        net.kinds.len() <= usize::MAX,
        consistent(net, w),
        settled(w),
        0 <= n < net.kinds.len(),
        !w.visited[n],
        walk(net, n, w, steps) is Err,
    ensures
        walk(net, n, w, steps) == Err::<Walk, CompileError>(CompileError::DataCycle),
        has_data_cycle(net),
    decreases steps,
{
    lemma_count_bound(w.visited, w.visited.len() as int);
    if visit(net, n, w, net.kinds.len()) is Err {
        let stack = Seq::<usize>::empty();
        assert(chain(net, w, stack));
        lemma_visit_fails(net, n, w, net.kinds.len(), stack);
    } else {
        lemma_visit(net, n, w, net.kinds.len());
        let after = visit(net, n, w, net.kinds.len()).unwrap();
        assert(settled(after)) by {
            assert forall|i: int|
                0 <= i < after.visited.len() && #[trigger] after.visited[i] implies after.emitted[i] by {
                lemma_in_progress_kept(w, after, i);
            }
        }
        lemma_target_in_graph(
            net.wires,
            net.kinds.len(),
            OutPinId { node: NodeId(n as usize), output: 0 },
        );
        match flow_next(net, n) {
            Some(m) => {
                lemma_walk_fails(net, m as int, after, (steps - 1) as nat);
            },
            None => {},
        }
    }
}

/// The walk fails only with `DataCycle`, and only on a graph in which
/// some node depends on itself through data wires.  So a graph without
/// such a cycle always has an order.
pub proof fn law_only_data_cycles_fail(net: Net, entry: usize)
    requires
        wires_wf(net.wires, net.kinds.len()),
        net.kinds.len() <= usize::MAX,
        entry < net.kinds.len(),
    ensures
        linear_order(net, entry as int) is Err ==> linear_order(net, entry as int) == Err::<
            Seq<usize>,
            CompileError,
        >(CompileError::DataCycle) && has_data_cycle(net),
        !has_data_cycle(net) ==> linear_order(net, entry as int) is Ok,
{
    lemma_fresh(net);
    if linear_order(net, entry as int) is Err {
        lemma_walk_fails(net, entry as int, fresh(net.kinds.len()), net.kinds.len());
    }
}

proof fn lemma_cycle_descends(net: Net, entry: usize, path: Seq<usize>, i: int, start: int)
    requires
        wires_wf(net.wires, net.kinds.len()),
        net.kinds.len() <= usize::MAX,
        entry < net.kinds.len(),
        linear_order(net, entry as int) is Ok,
        forall|k: int| 0 <= k < path.len() - 1 ==> feeds(net, #[trigger] path[k], path[k + 1]),
        0 <= i < path.len(),
        0 <= start < linear_order(net, entry as int).unwrap().len(),
        linear_order(net, entry as int).unwrap()[start] == path[0],
    ensures
        exists|at: int|
            0 <= at <= start - i && #[trigger] linear_order(net, entry as int).unwrap()[at]
                == path[i],
    decreases i,
{
    let order = linear_order(net, entry as int).unwrap();
    if i == 0 {
        assert(order[start] == path[0]);
    } else {
        lemma_cycle_descends(net, entry, path, i - 1, start);
        let at = choose|at: int| 0 <= at <= start - (i - 1) && #[trigger] order[at] == path[i - 1];
        assert(feeds(net, path[i - 1], path[i - 1 + 1]));
        let j = choose|j: nat|
            j < net.kinds[path[i - 1] as int].data_inputs() && #[trigger] dependency(
                net,
                path[i - 1] as int,
                j,
            ) == Some(path[i]);
        law_dependencies_come_first(net, entry, at, j);
        let before = choose|before: int| 0 <= before < at && order[before] == path[i];
        assert(order[before] == path[i]);
    }
}

/// Where the walk gives an order, no node of that order lies on a cycle
/// of data wires: the walk fails on every such cycle that it reaches.
pub proof fn law_no_cycle_among_placed(net: Net, entry: usize, path: Seq<usize>)
    requires
        wires_wf(net.wires, net.kinds.len()),
        net.kinds.len() <= usize::MAX,
        entry < net.kinds.len(),
        linear_order(net, entry as int) is Ok,
        is_data_cycle(net, path),
    ensures
        !placed(
            linear_order(net, entry as int).unwrap(),
            path[0],
            linear_order(net, entry as int).unwrap().len() as int,
        ),
{
    let order = linear_order(net, entry as int).unwrap();
    if placed(order, path[0], order.len() as int) {
        let start = choose|start: int| 0 <= start < order.len() && order[start] == path[0];
        lemma_cycle_descends(net, entry, path, path.len() - 1, start);
        let at = choose|at: int|
            0 <= at <= start - (path.len() - 1) && #[trigger] order[at] == path[path.len() - 1];
        law_each_node_once(net, entry);
        assert(order[at] == order[start]);
        assert(at != start);
    }
}

/// The order of the walk starts with the entry node where nothing feeds
/// the entry node.
pub proof fn lemma_order_starts_at_entry(net: Net, entry: usize)
    requires
        wires_wf(net.wires, net.kinds.len()),
        net.kinds.len() <= usize::MAX,
        entry < net.kinds.len(),
        net.kinds[entry as int].data_inputs() == 0,
        linear_order(net, entry as int) is Ok,
    ensures
        linear_order(net, entry as int).unwrap().len() > 0,
        linear_order(net, entry as int).unwrap()[0] == entry,
{
    let w = fresh(net.kinds.len());
    let count = net.kinds.len();
    lemma_fresh(net);
    let entered = Walk { visited: w.visited.update(entry as int, true), emitted: w.emitted, order: w.order };
    assert(visit_inputs(net, entry as int, 0, entered, (count - 1) as nat) == Ok::<
        Walk,
        CompileError,
    >(entered));
    let after = visit(net, entry as int, w, count).unwrap();
    assert(after.order[0] == entry);
    lemma_visit(net, entry as int, w, count);
    assert(settled(after)) by {
        assert forall|i: int| 0 <= i < after.visited.len() && #[trigger] after.visited[i] implies after.emitted[i] by {
            lemma_in_progress_kept(w, after, i);
        }
    }
    lemma_target_in_graph(
        net.wires,
        net.kinds.len(),
        OutPinId { node: NodeId(entry), output: 0 },
    );
    match flow_next(net, entry as int) {
        Some(m) => {
            if !(after.visited[m as int] || count == 0) {
                lemma_walk(net, m as int, after, (count - 1) as nat);
                let end = walk(net, m as int, after, (count - 1) as nat).unwrap();
                assert(end.order[0] == after.order[0]);
            }
        },
        None => {},
    }
}

/// A way can be made longer by one step.
pub proof fn lemma_reachable_step(net: Net, from: usize, via: usize, to: usize)
    requires
        reachable(net, from, via),
        leads_to(net, via, to),
    ensures
        reachable(net, from, to),
{
    let path = choose|path: Seq<usize>|
        is_path(net, path) && path[0] == from && #[trigger] path.last() == via;
    let longer = path.push(to);
    assert forall|i: int| 0 <= i < longer.len() - 1 implies leads_to(
        net,
        #[trigger] longer[i],
        longer[i + 1],
    ) by {
        if i < path.len() - 1 {
            assert(leads_to(net, path[i], path[i + 1]));
        }
    }
    assert(is_path(net, longer) && longer[0] == from && longer.last() == to);
}

/// Every node is reachable from itself.
pub proof fn lemma_reachable_self(net: Net, n: usize)
    ensures
        reachable(net, n, n),
{
    let path = seq![n];
    assert(is_path(net, path) && path[0] == n && path.last() == n);
}

/// Every node that was entered can be reached from `entry`.
pub open spec fn within_reach(net: Net, entry: usize, w: Walk) -> bool {
    forall|i: int|
        0 <= i < w.visited.len() && #[trigger] w.visited[i] ==> reachable(net, entry, i as usize)
}

proof fn lemma_visit_within_reach(net: Net, entry: usize, n: int, w: Walk, fuel: nat)
    requires
        wires_wf(net.wires, net.kinds.len()),
        net.kinds.len() <= usize::MAX,
        w.visited.len() == net.kinds.len(),
        w.emitted.len() == net.kinds.len(),
        0 <= n < net.kinds.len(),
        within_reach(net, entry, w),
        reachable(net, entry, n as usize),
        visit(net, n, w, fuel) is Ok,
    ensures
        within_reach(net, entry, visit(net, n, w, fuel).unwrap()),
        visit(net, n, w, fuel).unwrap().visited.len() == net.kinds.len(),
        visit(net, n, w, fuel).unwrap().emitted.len() == net.kinds.len(),
    decreases fuel, 0nat, 0nat,
{
    let entered = Walk { visited: w.visited.update(n, true), emitted: w.emitted, order: w.order };
    assert(within_reach(net, entry, entered)) by {
        assert forall|i: int| 0 <= i < entered.visited.len() && #[trigger] entered.visited[i] implies reachable(
            net,
            entry,
            i as usize,
        ) by {
            if i != n {
                assert(w.visited[i]);
            }
        }
    }
    lemma_inputs_within_reach(net, entry, n, 0, entered, (fuel - 1) as nat);
}

proof fn lemma_inputs_within_reach(net: Net, entry: usize, n: int, j: nat, w: Walk, fuel: nat)
    requires
        wires_wf(net.wires, net.kinds.len()),
        net.kinds.len() <= usize::MAX,
        w.visited.len() == net.kinds.len(),
        w.emitted.len() == net.kinds.len(),
        0 <= n < net.kinds.len(),
        within_reach(net, entry, w),
        reachable(net, entry, n as usize),
        visit_inputs(net, n, j, w, fuel) is Ok,
    ensures
        within_reach(net, entry, visit_inputs(net, n, j, w, fuel).unwrap()),
        visit_inputs(net, n, j, w, fuel).unwrap().visited.len() == net.kinds.len(),
        visit_inputs(net, n, j, w, fuel).unwrap().emitted.len() == net.kinds.len(),
    decreases fuel, 1nat, net.kinds[n].data_inputs() - j,
{
    if j < net.kinds[n].data_inputs() {
        lemma_source_in_graph(
            net.wires,
            net.kinds.len(),
            InPinId { node: NodeId(n as usize), input: net.kinds[n].data_pin(j) as usize },
        );
        match dependency(net, n, j) {
            None => {
                lemma_inputs_within_reach(net, entry, n, j + 1, w, fuel);
            },
            Some(d) => {
                if w.emitted[d as int] {
                    lemma_inputs_within_reach(net, entry, n, j + 1, w, fuel);
                } else {
                    assert(feeds(net, n as usize, d));
                    lemma_reachable_step(net, entry, n as usize, d);
                    lemma_visit_within_reach(net, entry, d as int, w, fuel);
                    let mid = visit(net, d as int, w, fuel).unwrap();
                    lemma_inputs_within_reach(net, entry, n, j + 1, mid, fuel);
                }
            },
        }
    }
}

proof fn lemma_walk_within_reach(net: Net, entry: usize, n: int, w: Walk, steps: nat)
    requires
        wires_wf(net.wires, net.kinds.len()),
        net.kinds.len() <= usize::MAX,
        w.visited.len() == net.kinds.len(),
        w.emitted.len() == net.kinds.len(),
        0 <= n < net.kinds.len(),
        within_reach(net, entry, w),
        reachable(net, entry, n as usize),
        walk(net, n, w, steps) is Ok,
    ensures
        within_reach(net, entry, walk(net, n, w, steps).unwrap()),
    decreases steps,
{
    lemma_visit_within_reach(net, entry, n, w, net.kinds.len());
    let after = visit(net, n, w, net.kinds.len()).unwrap();
    lemma_target_in_graph(
        net.wires,
        net.kinds.len(),
        OutPinId { node: NodeId(n as usize), output: 0 },
    );
    match flow_next(net, n) {
        Some(m) => {
            if !(after.visited[m as int] || steps == 0) {
                lemma_reachable_step(net, entry, n as usize, m);
                lemma_walk_within_reach(net, entry, m as int, after, (steps - 1) as nat);
            }
        },
        None => {},
    }
}

/// Every node in the order of the walk can be reached from the entry
/// node: nothing is compiled that the program does not need.
pub proof fn law_placed_nodes_are_reachable(net: Net, entry: usize, k: int)
    requires
        wires_wf(net.wires, net.kinds.len()),
        net.kinds.len() <= usize::MAX,
        entry < net.kinds.len(),
        linear_order(net, entry as int) is Ok,
        0 <= k < linear_order(net, entry as int).unwrap().len(),
    ensures
        reachable(net, entry, linear_order(net, entry as int).unwrap()[k]),
{
    let start = fresh(net.kinds.len());
    lemma_fresh(net);
    lemma_reachable_self(net, entry);
    lemma_walk(net, entry as int, start, net.kinds.len());
    lemma_walk_within_reach(net, entry, entry as int, start, net.kinds.len());
    let end = walk(net, entry as int, start, net.kinds.len()).unwrap();
    let node = end.order[k];
    assert(placed(end.order, node, end.order.len() as int));
    assert(end.emitted[node as int]);
    assert(end.visited[node as int]);
}

} // verus!
