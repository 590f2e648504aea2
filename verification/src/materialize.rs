//! From rows of concepts to the rows that are drawn: an edge that would skip
//! a row is led through pass-through nodes, one in each row it crosses, and
//! each row is put in the order of where its nodes' parents stand.

use crate::concept_map::ConceptMap;
use crate::cost::{grid_view, nodes_view};
use crate::graph::{children, children_of, is_edge, is_node, lemma_children_members};
use crate::ids::{ConceptID, NodeID};
use crate::layering::{distinct, edge_ids, forward, holds, plain_edges, row_ids, rows_view};
use crate::node::{ConceptNode, NodeView};
use vstd::prelude::*;

verus! {

/// The identifiers as node identifiers.
pub open spec fn as_nodes(s: Seq<usize>) -> Seq<NodeID> {
    Seq::new(s.len(), |i: int| NodeID(s[i]))
}

/// The node that stands for the concept `c`.
pub open spec fn real_node(edges: Seq<(usize, usize)>, c: usize) -> NodeView {
    NodeView { id: NodeID(c), children: as_nodes(children(edges, c)), fake: false, cheap: true }
}

/// The pass-through node `id`, which leads to `child`.
pub open spec fn fake_node(id: int, child: NodeID) -> NodeView {
    NodeView { id: NodeID(id as usize), children: seq![child], fake: true, cheap: false }
}

/// The nodes that stand for the concepts of a layer.
pub open spec fn real_nodes(edges: Seq<(usize, usize)>, layer: Seq<usize>) -> Seq<NodeView> {
    Seq::new(layer.len(), |i: int| real_node(edges, layer[i]))
}

/// A node with some of its edges led through pass-through nodes.
pub struct Routed {
    /// The node, its edges led to the new pass-through nodes.
    pub node: NodeView,
    /// The new pass-through nodes, which belong in the row below.
    pub extras: Seq<NodeView>,
    /// The first identifier that is still free.
    pub next: int,
}

/// Leads the edges of `node` through pass-through nodes, as far as the first
/// `k` of `targets` ask for it: for each of them that is not in `below`, a
/// new pass-through node takes every edge of the node to it.
pub open spec fn routed(
    node: NodeView,
    targets: Seq<NodeID>,
    below: Seq<usize>,
    next: int,
    k: int,
) -> Routed
    decreases k,
{
    if k <= 0 {
        Routed { node, extras: Seq::empty(), next }
    } else {
        let r = routed(node, targets, below, next, k - 1);
        let ch = targets[k - 1];
        if below.contains(ch.0) {
            r
        } else {
            Routed {
                node: r.node.replace_child(ch, NodeID(r.next as usize)),
                extras: r.extras.push(fake_node(r.next, ch)),
                next: r.next + 1,
            }
        }
    }
}

/// A row with the edges of its nodes led through pass-through nodes.
pub struct Threaded {
    pub row: Seq<NodeView>,
    /// The new pass-through nodes, which belong in the row below.
    pub extras: Seq<NodeView>,
    /// The first identifier that is still free.
    pub next: int,
}

/// The first `k` of `nodes`, each with its edges led to nodes of `below` or
/// through new pass-through nodes.
pub open spec fn threaded(nodes: Seq<NodeView>, below: Seq<usize>, next: int, k: int) -> Threaded
    decreases k,
{
    if k <= 0 {
        Threaded { row: Seq::empty(), extras: Seq::empty(), next }
    } else {
        let t = threaded(nodes, below, next, k - 1);
        let nd = nodes[k - 1];
        let r = routed(nd, nd.children, below, t.next, nd.children.len() as int);
        Threaded { row: t.row.push(r.node), extras: t.extras + r.extras, next: r.next }
    }
}

/// Among the first `n` nodes of `above`: how many have an edge to `id`.
pub open spec fn parent_count(above: Seq<NodeView>, id: NodeID, n: int) -> int
    decreases n,
{
    if n <= 0 {
        0
    } else {
        parent_count(above, id, n - 1) + if above[n - 1].children.contains(id) {
            1int
        } else {
            0int
        }
    }
}

/// Among the first `n` nodes of `above`: the sum of the places of those that
/// have an edge to `id`.
pub open spec fn parent_places(above: Seq<NodeView>, id: NodeID, n: int) -> int
    decreases n,
{
    if n <= 0 {
        0
    } else {
        parent_places(above, id, n - 1) + if above[n - 1].children.contains(id) {
            n - 1
        } else {
            0int
        }
    }
}

/// Where the parents of `id` stand in the row above, as one number: with two
/// parents or more, a thousand times the sum of their places, divided by one
/// less than their number; 500 otherwise.
pub open spec fn barycenter(above: Seq<NodeView>, id: NodeID) -> int {
    let count = parent_count(above, id, above.len() as int);
    if count < 2 {
        500
    } else {
        parent_places(above, id, above.len() as int) * 1000 / (count - 1)
    }
}

/// `sorted` with `x` behind the last node whose barycenter is no greater.
pub open spec fn inserted(above: Seq<NodeView>, sorted: Seq<NodeView>, x: NodeView) -> Seq<
    NodeView,
>
    decreases sorted.len(),
{
    if sorted.len() == 0 {
        seq![x]
    } else if barycenter(above, sorted.last().id) <= barycenter(above, x.id) {
        sorted.push(x)
    } else {
        inserted(above, sorted.drop_last(), x).push(sorted.last())
    }
}

/// `row` in the order of the barycenters; nodes of equal barycenter keep
/// their order.
pub open spec fn ordered(above: Seq<NodeView>, row: Seq<NodeView>) -> Seq<NodeView>
    decreases row.len(),
{
    if row.len() == 0 {
        Seq::empty()
    } else {
        inserted(above, ordered(above, row.drop_last()), row.last())
    }
}

/// The rows that are made so far.
pub struct Built {
    pub rows: Seq<Seq<NodeView>>,
    /// The pass-through nodes that belong in the next row.
    pub extras: Seq<NodeView>,
    /// The first identifier that is still free.
    pub next: int,
}

/// The first `n` rows. A row holds the nodes of its layer and the
/// pass-through nodes that the row above asked for.
pub open spec fn built(
    layers: Seq<Seq<usize>>,
    edges: Seq<(usize, usize)>,
    first: int,
    n: int,
) -> Built
    decreases n,
{
    if n <= 0 {
        Built { rows: Seq::empty(), extras: Seq::empty(), next: first }
    } else {
        let b = built(layers, edges, first, n - 1);
        let nodes = real_nodes(edges, layers[n - 1]) + b.extras;
        let t = threaded(nodes, layers[n], b.next, nodes.len() as int);
        let above = if b.rows.len() == 0 {
            Seq::empty()
        } else {
            b.rows.last()
        };
        Built { rows: b.rows.push(ordered(above, t.row)), extras: t.extras, next: t.next }
    }
}

/// The first identifier that no node of the grid has.
pub open spec fn free_after(layers: Seq<Seq<usize>>, edges: Seq<(usize, usize)>, first: int) -> int {
    built(layers, edges, first, layers.len() - 1).next
}

/// The grid that is drawn for `layers`: all rows but the last as `built`,
/// the last one of its concepts alone.
pub open spec fn materialized(
    layers: Seq<Seq<usize>>,
    edges: Seq<(usize, usize)>,
    first: int,
) -> Seq<Seq<NodeView>> {
    if layers.len() == 0 {
        Seq::empty()
    } else {
        built(layers, edges, first, layers.len() - 1).rows.push(real_nodes(edges, layers.last()))
    }
}

/// Every edge out of a concept of a layer leads to the next layer.
pub open spec fn steps(layers: Seq<Seq<usize>>, edges: Seq<(usize, usize)>) -> bool {
    forall|i: int, k: int, c: usize|
        0 <= i < layers.len() - 1 && 0 <= k < layers[i].len() && #[trigger] is_edge(
            edges,
            layers[i][k],
            c,
        ) ==> layers[i + 1].contains(c)
}

/// A node whose edges all lead to the row below is left as it is.
pub proof fn lemma_routed_none(
    node: NodeView,
    targets: Seq<NodeID>,
    below: Seq<usize>,
    next: int,
    k: int,
)
    requires
        0 <= k <= targets.len(),
        forall|h: int| 0 <= h < k ==> below.contains((#[trigger] targets[h]).0),
    ensures
        routed(node, targets, below, next, k) == (Routed { node, extras: Seq::empty(), next }),
    decreases k,
{
    if k > 0 {
        lemma_routed_none(node, targets, below, next, k - 1);
        assert(below.contains(targets[k - 1].0));
    }
}

/// Nodes whose edges all lead to the row below are left as they are.
pub proof fn lemma_threaded_none(nodes: Seq<NodeView>, below: Seq<usize>, next: int, k: int)
    requires
        0 <= k <= nodes.len(),
        forall|j: int, h: int|
            0 <= j < k && 0 <= h < nodes[j].children.len() ==> below.contains(
                (#[trigger] nodes[j].children[h]).0,
            ),
    ensures
        threaded(nodes, below, next, k) == (Threaded {
            row: nodes.take(k),
            extras: Seq::empty(),
            next,
        }),
    decreases k,
{
    if k > 0 {
        lemma_threaded_none(nodes, below, next, k - 1);
        let nd = nodes[k - 1];
        assert forall|h: int| 0 <= h < nd.children.len() implies below.contains(
            (#[trigger] nd.children[h]).0,
        ) by {
            assert(below.contains(nodes[k - 1].children[h].0));
        }
        lemma_routed_none(nd, nd.children, below, next, nd.children.len() as int);
        let t = threaded(nodes, below, next, k);
        assert(nodes.take(k - 1).push(nd) =~= nodes.take(k));
        assert(t.row =~= nodes.take(k));
        assert(t.extras =~= Seq::empty());
    } else {
        assert(nodes.take(0) =~= Seq::empty());
    }
}

/// Where every edge leads to the next layer, the first `n` rows hold no
/// pass-through node, and none waits for the next row.
pub proof fn lemma_built_plain(
    layers: Seq<Seq<usize>>,
    edges: Seq<(usize, usize)>,
    first: int,
    n: int,
)
    requires
        steps(layers, edges),
        0 <= n <= layers.len() - 1,
    ensures
        built(layers, edges, first, n).extras == Seq::<NodeView>::empty(),
        built(layers, edges, first, n).next == first,
        built(layers, edges, first, n).rows.len() == n,
        forall|i: int, k: int|
            0 <= i < n && 0 <= k < built(layers, edges, first, n).rows[i].len() ==> !(
            #[trigger] built(layers, edges, first, n).rows[i][k]).fake,
    decreases n,
{
    if n > 0 {
        lemma_built_plain(layers, edges, first, n - 1);
        let b = built(layers, edges, first, n - 1);
        let reals = real_nodes(edges, layers[n - 1]);
        let nodes = reals + b.extras;
        assert(nodes =~= reals);
        assert forall|j: int, h: int|
            0 <= j < nodes.len() && 0 <= h < nodes[j].children.len() implies layers[n].contains(
            (#[trigger] nodes[j].children[h]).0,
        ) by {
            let p = layers[n - 1][j];
            let kids = children(edges, p);
            lemma_children_members(edges, p);
            assert(nodes[j].children[h].0 == kids[h]);
            assert(kids.contains(kids[h]));
            assert(is_edge(edges, layers[n - 1][j], kids[h]));
        }
        lemma_threaded_none(nodes, layers[n], b.next, nodes.len() as int);
        let t = threaded(nodes, layers[n], b.next, nodes.len() as int);
        assert(nodes.take(nodes.len() as int) =~= nodes);
        let above = if b.rows.len() == 0 {
            Seq::empty()
        } else {
            b.rows.last()
        };
        lemma_ordered(above, t.row);
        let now = built(layers, edges, first, n);
        assert forall|i: int, k: int| 0 <= i < n && 0 <= k < now.rows[i].len() implies !(
        #[trigger] now.rows[i][k]).fake by {
            if i < n - 1 {
                assert(now.rows[i] == b.rows[i]);
            } else {
                let x = now.rows[i][k];
                assert(ordered(above, t.row).contains(x));
                assert(nodes.contains(x));
                let j = choose|j: int| 0 <= j < nodes.len() && nodes[j] == x;
                assert(x == real_node(edges, layers[n - 1][j]));
            }
        }
    }
}

/// Where every edge leads to the next layer, the grid needs no pass-through
/// node: it holds none, and no identifier is used for one.
pub proof fn lemma_no_pass_through(layers: Seq<Seq<usize>>, edges: Seq<(usize, usize)>, first: int)
    requires
        steps(layers, edges),
        layers.len() > 0,
    ensures
        free_after(layers, edges, first) == first,
        forall|r: int, k: int|
            0 <= r < materialized(layers, edges, first).len() && 0 <= k < materialized(
                layers,
                edges,
                first,
            )[r].len() ==> !(#[trigger] materialized(layers, edges, first)[r][k]).fake,
{
    let n = layers.len() - 1;
    lemma_built_plain(layers, edges, first, n);
    let b = built(layers, edges, first, n);
    let g = materialized(layers, edges, first);
    assert forall|r: int, k: int| 0 <= r < g.len() && 0 <= k < g[r].len() implies !(
    #[trigger] g[r][k]).fake by {
        if r < n {
            assert(g[r] == b.rows[r]);
        } else {
            assert(g[r] == real_nodes(edges, layers.last()));
        }
    }
}

/// Every edge of `node` leads where the edge of `was` at the same place led,
/// or to a pass-through node of `extras` that leads there.
pub open spec fn leads_on(node: NodeView, was: Seq<NodeID>, extras: Seq<NodeView>) -> bool {
    &&& node.children.len() == was.len()
    &&& forall|h: int|
        0 <= h < was.len() ==> #[trigger] node.children[h] == was[h] || exists|j: int|
            0 <= j < extras.len() && node.children[h] == (#[trigger] extras[j]).id
                && extras[j].children == seq![was[h]]
}

/// The pass-through nodes `extras` have the identifiers from `from` on, and
/// each leads to one node, which is not in `below`.
pub open spec fn fresh(extras: Seq<NodeView>, below: Seq<usize>, from: int) -> bool {
    forall|j: int|
        0 <= j < extras.len() ==> {
            &&& (#[trigger] extras[j]).id == NodeID((from + j) as usize)
            &&& extras[j].fake
            &&& extras[j].children.len() == 1
            &&& !below.contains(extras[j].children[0].0)
        }
}

/// What routing does to a node whose edges lead to identifiers below `next`.
pub proof fn lemma_routed(
    node: NodeView,
    targets: Seq<NodeID>,
    below: Seq<usize>,
    next: int,
    k: int,
)
    requires
        0 <= k <= targets.len(),
        node.children == targets,
        0 <= next,
        forall|h: int| 0 <= h < targets.len() ==> (#[trigger] targets[h]).0 < next,
        routed(node, targets, below, next, k).next <= usize::MAX,
    ensures
        ({
            let r = routed(node, targets, below, next, k);
            &&& r.node.id == node.id
            &&& r.node.fake == node.fake
            &&& r.next == next + r.extras.len()
            &&& fresh(r.extras, below, next)
            &&& leads_on(r.node, targets, r.extras)
            &&& forall|h: int|
                0 <= h < k && #[trigger] r.node.children[h] == targets[h] ==> below.contains(
                    targets[h].0,
                )
            &&& forall|j: int|
                0 <= j < r.extras.len() ==> targets.contains((#[trigger] r.extras[j]).children[0])
        }),
    decreases k,
{
    if k > 0 {
        lemma_routed(node, targets, below, next, k - 1);
        let r0 = routed(node, targets, below, next, k - 1);
        let r = routed(node, targets, below, next, k);
        let ch = targets[k - 1];
        if !below.contains(ch.0) {
            let f = fake_node(r0.next, ch);
            assert(r.extras.last() == f);
            assert forall|j: int| 0 <= j < r.extras.len() implies targets.contains(
                (#[trigger] r.extras[j]).children[0],
            ) by {
                if j < r0.extras.len() {
                    assert(r.extras[j] == r0.extras[j]);
                }
            }
            assert(fresh(r.extras, below, next)) by {
                assert forall|j: int| 0 <= j < r.extras.len() implies {
                    &&& (#[trigger] r.extras[j]).id == NodeID((next + j) as usize)
                    &&& r.extras[j].fake
                    &&& r.extras[j].children.len() == 1
                    &&& !below.contains(r.extras[j].children[0].0)
                } by {
                    if j < r0.extras.len() {
                        assert(r.extras[j] == r0.extras[j]);
                    }
                }
            }
            assert forall|h: int| 0 <= h < targets.len() implies #[trigger] r.node.children[h]
                == targets[h] || exists|j: int|
                0 <= j < r.extras.len() && r.node.children[h] == (#[trigger] r.extras[j]).id
                    && r.extras[j].children == seq![targets[h]] by {
                if r0.node.children[h] == ch {
                    // an edge to `ch` was not rerouted before: it still leads where it led
                    if r0.node.children[h] != targets[h] {
                        let j = choose|j: int|
                            0 <= j < r0.extras.len() && r0.node.children[h] == (
                            #[trigger] r0.extras[j]).id && r0.extras[j].children
                                == seq![targets[h]];
                        assert(r0.extras[j].id == NodeID((next + j) as usize));
                        assert(false);
                    }
                    let j = r.extras.len() - 1;
                    assert(r.extras[j].children == seq![targets[h]]);
                } else {
                    if r0.node.children[h] != targets[h] {
                        let j = choose|j: int|
                            0 <= j < r0.extras.len() && r0.node.children[h] == (
                            #[trigger] r0.extras[j]).id && r0.extras[j].children
                                == seq![targets[h]];
                        assert(r.extras[j] == r0.extras[j]);
                    }
                }
            }
            assert forall|h: int|
                0 <= h < k && #[trigger] r.node.children[h] == targets[h] implies below.contains(
                targets[h].0,
            ) by {
                if r0.node.children[h] == ch {
                    assert(r.node.children[h] == NodeID(r0.next as usize));
                    assert(targets[h].0 < r0.next);
                }
            }
        }
    }
}

/// Routing uses up identifiers, and never gives one back.
pub proof fn lemma_routed_grows(
    node: NodeView,
    targets: Seq<NodeID>,
    below: Seq<usize>,
    next: int,
    k: int,
)
    ensures
        routed(node, targets, below, next, k).next >= next,
        k > 0 ==> routed(node, targets, below, next, k).next >= routed(
            node,
            targets,
            below,
            next,
            k - 1,
        ).next,
    decreases k,
{
    if k > 0 {
        lemma_routed_grows(node, targets, below, next, k - 1);
    }
}

/// Threading a row uses up identifiers, and never gives one back.
pub proof fn lemma_threaded_grows(nodes: Seq<NodeView>, below: Seq<usize>, next: int, k: int)
    ensures
        threaded(nodes, below, next, k).next >= next,
        k > 0 ==> threaded(nodes, below, next, k).next >= threaded(nodes, below, next, k - 1).next,
    decreases k,
{
    if k > 0 {
        lemma_threaded_grows(nodes, below, next, k - 1);
        let t = threaded(nodes, below, next, k - 1);
        let nd = nodes[k - 1];
        lemma_routed_grows(nd, nd.children, below, t.next, nd.children.len() as int);
    }
}

/// What threading does to a row whose edges lead to identifiers below `next`.
pub proof fn lemma_threaded(nodes: Seq<NodeView>, below: Seq<usize>, next: int, k: int)
    requires
        0 <= k <= nodes.len(),
        0 <= next,
        forall|i: int, h: int|
            0 <= i < nodes.len() && 0 <= h < nodes[i].children.len() ==> (
            #[trigger] nodes[i].children[h]).0 < next,
        threaded(nodes, below, next, k).next <= usize::MAX,
    ensures
        ({
            let t = threaded(nodes, below, next, k);
            &&& t.row.len() == k
            &&& t.next == next + t.extras.len()
            &&& fresh(t.extras, below, next)
            &&& forall|i: int|
                0 <= i < k ==> (#[trigger] t.row[i]).id == nodes[i].id && t.row[i].fake
                    == nodes[i].fake && leads_on(t.row[i], nodes[i].children, t.extras)
            &&& forall|i: int, h: int|
                0 <= i < k && 0 <= h < nodes[i].children.len() && (#[trigger] t.row[i].children[h])
                    == nodes[i].children[h] ==> below.contains(nodes[i].children[h].0)
            &&& forall|j: int|
                0 <= j < t.extras.len() ==> exists|i: int|
                    0 <= i < k && (#[trigger] nodes[i]).children.contains(
                        (#[trigger] t.extras[j]).children[0],
                    )
        }),
    decreases k,
{
    if k > 0 {
        let t0 = threaded(nodes, below, next, k - 1);
        let nd = nodes[k - 1];
        let r = routed(nd, nd.children, below, t0.next, nd.children.len() as int);
        let t = threaded(nodes, below, next, k);
        lemma_threaded_grows(nodes, below, next, k);
        lemma_threaded_grows(nodes, below, next, k - 1);
        lemma_threaded(nodes, below, next, k - 1);
        assert forall|h: int| 0 <= h < nd.children.len() implies (#[trigger] nd.children[h]).0
            < t0.next by {
            assert(nodes[k - 1].children[h].0 < next);
        }
        lemma_routed(nd, nd.children, below, t0.next, nd.children.len() as int);
        let n0 = t0.extras.len() as int;
        assert forall|j: int| 0 <= j < t.extras.len() implies {
            &&& (#[trigger] t.extras[j]).id == NodeID((next + j) as usize)
            &&& t.extras[j].fake
            &&& t.extras[j].children.len() == 1
            &&& !below.contains(t.extras[j].children[0].0)
        } by {
            if j < n0 {
                assert(t.extras[j] == t0.extras[j]);
            } else {
                assert(t.extras[j] == r.extras[j - n0]);
            }
        }
        assert forall|i: int| 0 <= i < k implies (#[trigger] t.row[i]).id == nodes[i].id
            && t.row[i].fake == nodes[i].fake && leads_on(
            t.row[i],
            nodes[i].children,
            t.extras,
        ) by {
            let was = nodes[i].children;
            if i < k - 1 {
                assert(t.row[i] == t0.row[i]);
                assert(leads_on(t0.row[i], was, t0.extras));
                assert forall|h: int| 0 <= h < was.len() implies #[trigger] t.row[i].children[h]
                    == was[h] || exists|j: int|
                    0 <= j < t.extras.len() && t.row[i].children[h] == (#[trigger] t.extras[j]).id
                        && t.extras[j].children == seq![was[h]] by {
                    if t0.row[i].children[h] != was[h] {
                        let j = choose|j: int|
                            0 <= j < t0.extras.len() && t0.row[i].children[h] == (
                            #[trigger] t0.extras[j]).id && t0.extras[j].children == seq![was[h]];
                        assert(t.extras[j] == t0.extras[j]);
                    }
                }
            } else {
                assert(t.row[i] == r.node);
                assert forall|h: int| 0 <= h < was.len() implies #[trigger] t.row[i].children[h]
                    == was[h] || exists|j: int|
                    0 <= j < t.extras.len() && t.row[i].children[h] == (#[trigger] t.extras[j]).id
                        && t.extras[j].children == seq![was[h]] by {
                    if r.node.children[h] != was[h] {
                        let j = choose|j: int|
                            0 <= j < r.extras.len() && r.node.children[h] == (
                            #[trigger] r.extras[j]).id && r.extras[j].children == seq![was[h]];
                        assert(t.extras[n0 + j] == r.extras[j]);
                    }
                }
            }
        }
        assert forall|i: int, h: int|
            0 <= i < k && 0 <= h < nodes[i].children.len() && (#[trigger] t.row[i].children[h])
                == nodes[i].children[h] implies below.contains(nodes[i].children[h].0) by {
            if i < k - 1 {
                assert(t.row[i] == t0.row[i]);
                assert(t0.row[i].children[h] == nodes[i].children[h]);
            } else {
                assert(t.row[i] == r.node);
                assert(r.node.children[h] == nd.children[h]);
            }
        }
        assert forall|j: int| 0 <= j < t.extras.len() implies exists|i: int|
            0 <= i < k && (#[trigger] nodes[i]).children.contains(
                (#[trigger] t.extras[j]).children[0],
            ) by {
            if j < n0 {
                assert(t.extras[j] == t0.extras[j]);
                let i = choose|i: int|
                    0 <= i < k - 1 && (#[trigger] nodes[i]).children.contains(
                        t0.extras[j].children[0],
                    );
                assert(nodes[i].children.contains(t.extras[j].children[0]));
            } else {
                assert(t.extras[j] == r.extras[j - n0]);
                assert(nodes[k - 1].children.contains(t.extras[j].children[0]));
            }
        }
    }
}

/// How many nodes of `row` stand for a concept.
pub open spec fn real_count(row: Seq<NodeView>) -> nat
    decreases row.len(),
{
    if row.len() == 0 {
        0
    } else {
        real_count(row.drop_last()) + if row.last().fake {
            0nat
        } else {
            1nat
        }
    }
}

/// Some node of `row` has the identifier `id`.
pub open spec fn has_id(row: Seq<NodeView>, id: NodeID) -> bool {
    exists|k: int| 0 <= k < row.len() && (#[trigger] row[k]).id == id
}

/// No two nodes of `row` have the same identifier.
pub open spec fn unique_in_row(row: Seq<NodeView>) -> bool {
    forall|a: int, b: int| 0 <= a < b < row.len() ==> row[a].id != row[b].id
}

/// Inserting by barycenter puts the node at some place and moves no other.
pub proof fn lemma_inserted(above: Seq<NodeView>, sorted: Seq<NodeView>, x: NodeView) -> (p: int)
    ensures
        0 <= p <= sorted.len(),
        inserted(above, sorted, x) == sorted.insert(p, x),
    decreases sorted.len(),
{
    if sorted.len() == 0 {
        assert(seq![x] =~= sorted.insert(0, x));
        0
    } else if barycenter(above, sorted.last().id) <= barycenter(above, x.id) {
        assert(sorted.push(x) =~= sorted.insert(sorted.len() as int, x));
        sorted.len() as int
    } else {
        let p = lemma_inserted(above, sorted.drop_last(), x);
        assert(sorted.drop_last().insert(p, x).push(sorted.last()) =~= sorted.insert(p, x));
        p
    }
}

/// Where a node is put into a row, the number of concept nodes grows by it.
pub proof fn lemma_real_count_insert(s: Seq<NodeView>, p: int, x: NodeView)
    requires
        0 <= p <= s.len(),
    ensures
        real_count(s.insert(p, x)) == real_count(s) + if x.fake {
            0nat
        } else {
            1nat
        },
    decreases s.len(),
{
    let r = s.insert(p, x);
    if p == s.len() {
        assert(r.drop_last() =~= s);
    } else {
        assert(r.drop_last() =~= s.drop_last().insert(p, x));
        assert(r.last() == s.last());
        lemma_real_count_insert(s.drop_last(), p, x);
    }
}

/// Ordering a row keeps its nodes: their number, which they are, that no two
/// share an identifier, and how many stand for a concept.
pub proof fn lemma_ordered(above: Seq<NodeView>, row: Seq<NodeView>)
    ensures
        ordered(above, row).len() == row.len(),
        forall|x: NodeView| ordered(above, row).contains(x) <==> row.contains(x),
        unique_in_row(row) ==> unique_in_row(ordered(above, row)),
        real_count(ordered(above, row)) == real_count(row),
    decreases row.len(),
{
    if row.len() > 0 {
        let head = row.drop_last();
        let x = row.last();
        lemma_ordered(above, head);
        let r0 = ordered(above, head);
        let p = lemma_inserted(above, r0, x);
        let r = ordered(above, row);
        assert(r == r0.insert(p, x));
        lemma_real_count_insert(r0, p, x);
        assert forall|v: NodeView| r.contains(v) <==> row.contains(v) by {
            if r.contains(v) {
                let i = choose|i: int| 0 <= i < r.len() && r[i] == v;
                if i < p {
                    assert(r0[i] == v);
                    assert(r0.contains(v));
                } else if i > p {
                    assert(r0[i - 1] == v);
                    assert(r0.contains(v));
                }
                if v != x {
                    assert(head.contains(v));
                    let j = choose|j: int| 0 <= j < head.len() && head[j] == v;
                    assert(row[j] == v);
                } else {
                    assert(row[row.len() - 1] == v);
                }
            }
            if row.contains(v) {
                let j = choose|j: int| 0 <= j < row.len() && row[j] == v;
                if j == row.len() - 1 {
                    assert(r[p] == v);
                } else {
                    assert(head[j] == v);
                    assert(head.contains(v));
                    assert(r0.contains(v));
                    let i = choose|i: int| 0 <= i < r0.len() && r0[i] == v;
                    if i < p {
                        assert(r[i] == v);
                    } else {
                        assert(r[i + 1] == v);
                    }
                }
            }
        }
        if unique_in_row(row) {
            assert(unique_in_row(head)) by {
                assert forall|a: int, b: int| 0 <= a < b < head.len() implies head[a].id
                    != head[b].id by {
                    assert(row[a].id != row[b].id);
                }
            }
            assert forall|a: int| 0 <= a < r0.len() implies (#[trigger] r0[a]).id != x.id by {
                assert(r0.contains(r0[a]));
                assert(head.contains(r0[a]));
                let j = choose|j: int| 0 <= j < head.len() && head[j] == r0[a];
                assert(row[j].id != row[row.len() - 1].id);
            }
            assert forall|a: int, b: int| 0 <= a < b < r.len() implies r[a].id != r[b].id by {
                let a0 = if a < p { a } else { a - 1 };
                let b0 = if b < p { b } else { b - 1 };
                if a != p && b != p {
                    assert(r[a] == r0[a0] && r[b] == r0[b0]);
                    assert(r0[a0].id != r0[b0].id);
                } else if a == p {
                    assert(r[b] == r0[b0]);
                } else {
                    assert(r[a] == r0[a0]);
                }
            }
        }
    }
}

/// Two rows whose nodes are pass-through nodes at the same places hold as
/// many concept nodes.
pub proof fn lemma_real_count_same(a: Seq<NodeView>, b: Seq<NodeView>)
    requires
        a.len() == b.len(),
        forall|i: int| 0 <= i < a.len() ==> (#[trigger] a[i]).fake == b[i].fake,
    ensures
        real_count(a) == real_count(b),
    decreases a.len(),
{
    if a.len() > 0 {
        assert forall|i: int| 0 <= i < a.drop_last().len()
            implies (#[trigger] a.drop_last()[i]).fake
            == b.drop_last()[i].fake by {
            assert(a[i].fake == b[i].fake);
        }
        lemma_real_count_same(a.drop_last(), b.drop_last());
    }
}

/// Concept nodes followed by pass-through nodes: as many concept nodes as
/// there are concepts.
pub proof fn lemma_real_count_parts(reals: Seq<NodeView>, fakes: Seq<NodeView>)
    requires
        forall|i: int| 0 <= i < reals.len() ==> !(#[trigger] reals[i]).fake,
        forall|i: int| 0 <= i < fakes.len() ==> (#[trigger] fakes[i]).fake,
    ensures
        real_count(reals + fakes) == reals.len(),
    decreases reals.len() + fakes.len(),
{
    let all = reals + fakes;
    if fakes.len() > 0 {
        assert(all.drop_last() =~= reals + fakes.drop_last());
        assert(all.last() == fakes.last());
        lemma_real_count_parts(reals, fakes.drop_last());
    } else if reals.len() > 0 {
        assert(all.drop_last() =~= reals.drop_last() + fakes);
        assert(all.last() == reals.last());
        lemma_real_count_parts(reals.drop_last(), fakes);
    }
}

/// Routing changes neither what a node is nor how many edges it has, and
/// what it adds are pass-through nodes.
pub proof fn lemma_routed_kind(
    node: NodeView,
    targets: Seq<NodeID>,
    below: Seq<usize>,
    next: int,
    k: int,
)
    ensures
        ({
            let r = routed(node, targets, below, next, k);
            &&& r.node.id == node.id
            &&& r.node.fake == node.fake
            &&& r.node.children.len() == node.children.len()
            &&& forall|j: int| 0 <= j < r.extras.len() ==> (#[trigger] r.extras[j]).fake
        }),
    decreases k,
{
    if k > 0 {
        lemma_routed_kind(node, targets, below, next, k - 1);
    }
}

/// Threading changes neither what the nodes of a row are nor their order, and
/// what it adds are pass-through nodes.
pub proof fn lemma_threaded_kind(nodes: Seq<NodeView>, below: Seq<usize>, next: int, k: int)
    requires
        0 <= k <= nodes.len(),
    ensures
        ({
            let t = threaded(nodes, below, next, k);
            &&& t.row.len() == k
            &&& forall|i: int|
                0 <= i < k ==> (#[trigger] t.row[i]).id == nodes[i].id && t.row[i].fake
                    == nodes[i].fake
            &&& forall|j: int| 0 <= j < t.extras.len() ==> (#[trigger] t.extras[j]).fake
        }),
    decreases k,
{
    if k > 0 {
        lemma_threaded_kind(nodes, below, next, k - 1);
        let t0 = threaded(nodes, below, next, k - 1);
        let nd = nodes[k - 1];
        lemma_routed_kind(nd, nd.children, below, t0.next, nd.children.len() as int);
        let r = routed(nd, nd.children, below, t0.next, nd.children.len() as int);
        let t = threaded(nodes, below, next, k);
        assert forall|i: int| 0 <= i < k implies (#[trigger] t.row[i]).id == nodes[i].id
            && t.row[i].fake == nodes[i].fake by {
            if i < k - 1 {
                assert(t.row[i] == t0.row[i]);
            }
        }
        assert forall|j: int| 0 <= j < t.extras.len() implies (#[trigger] t.extras[j]).fake by {
            if j < t0.extras.len() {
                assert(t.extras[j] == t0.extras[j]);
            } else {
                assert(t.extras[j] == r.extras[j - t0.extras.len()]);
            }
        }
    }
}

/// Building rows uses up identifiers, and never gives one back.
pub proof fn lemma_built_grows(
    layers: Seq<Seq<usize>>,
    edges: Seq<(usize, usize)>,
    first: int,
    m: int,
    n: int,
)
    requires
        m <= n,
    ensures
        first <= built(layers, edges, first, m).next <= built(layers, edges, first, n).next,
    decreases n - m, n,
{
    if m < n {
        lemma_built_grows(layers, edges, first, m, n - 1);
        if n > 0 {
            let b = built(layers, edges, first, n - 1);
            let nodes = real_nodes(edges, layers[n - 1]) + b.extras;
            lemma_threaded_grows(nodes, layers[n], b.next, nodes.len() as int);
        }
    } else if n > 0 {
        lemma_built_grows(layers, edges, first, n - 1, n - 1);
        let b = built(layers, edges, first, n - 1);
        let nodes = real_nodes(edges, layers[n - 1]) + b.extras;
        lemma_threaded_grows(nodes, layers[n], b.next, nodes.len() as int);
    }
}

/// The concept nodes of `row` stand for concepts of `layer`.
pub open spec fn concepts_from(row: Seq<NodeView>, layer: Seq<usize>) -> bool {
    forall|k: int| 0 <= k < row.len() && !(#[trigger] row[k]).fake ==> in_layer(layer, row[k].id)
}

/// A concept node of `row` stands for the concept `c`.
pub open spec fn stands_in(row: Seq<NodeView>, c: usize) -> bool {
    exists|j: int| 0 <= j < row.len() && (#[trigger] row[j]).id == NodeID(c) && !row[j].fake
}

/// Every concept of `layer` has its node in `row`.
pub open spec fn holds_layer(row: Seq<NodeView>, layer: Seq<usize>) -> bool {
    forall|k: int| 0 <= k < layer.len() ==> stands_in(row, #[trigger] layer[k])
}

/// Each of the first `n` rows holds as many concept nodes as its layer holds
/// concepts, all of them concepts of the layer, and what waits for the next
/// row are pass-through nodes.
pub proof fn lemma_built_counts(
    layers: Seq<Seq<usize>>,
    edges: Seq<(usize, usize)>,
    first: int,
    n: int,
)
    requires
        0 <= n,
    ensures
        ({
            let b = built(layers, edges, first, n);
            &&& b.rows.len() == n
            &&& forall|i: int| 0 <= i < n ==> real_count(#[trigger] b.rows[i]) == layers[i].len()
            &&& forall|i: int| 0 <= i < n ==> concepts_from(#[trigger] b.rows[i], layers[i])
            &&& forall|i: int| 0 <= i < n ==> holds_layer(#[trigger] b.rows[i], layers[i])
            &&& forall|j: int| 0 <= j < b.extras.len() ==> (#[trigger] b.extras[j]).fake
        }),
    decreases n,
{
    if n > 0 {
        lemma_built_counts(layers, edges, first, n - 1);
        let b0 = built(layers, edges, first, n - 1);
        let reals = real_nodes(edges, layers[n - 1]);
        let nodes = reals + b0.extras;
        lemma_threaded_kind(nodes, layers[n], b0.next, nodes.len() as int);
        let t = threaded(nodes, layers[n], b0.next, nodes.len() as int);
        let above = if b0.rows.len() == 0 {
            Seq::empty()
        } else {
            b0.rows.last()
        };
        lemma_ordered(above, t.row);
        lemma_real_count_same(t.row, nodes);
        lemma_real_count_parts(reals, b0.extras);
        let b = built(layers, edges, first, n);
        assert forall|i: int| 0 <= i < n implies real_count(#[trigger] b.rows[i])
            == layers[i].len() by {
            if i < n - 1 {
                assert(b.rows[i] == b0.rows[i]);
            }
        }
        let row = ordered(above, t.row);
        assert(concepts_from(row, layers[n - 1])) by {
            assert forall|k: int| 0 <= k < row.len() && !(#[trigger] row[k]).fake implies in_layer(
                layers[n - 1],
                row[k].id,
            ) by {
                assert(row.contains(row[k]));
                assert(t.row.contains(row[k]));
                let i = choose|i: int| 0 <= i < t.row.len() && t.row[i] == row[k];
                if i < reals.len() {
                    assert(nodes[i] == real_node(edges, layers[n - 1][i]));
                    assert(NodeID(layers[n - 1][i]) == row[k].id);
                } else {
                    assert(nodes[i] == b0.extras[i - reals.len()]);
                }
            }
        }
        assert forall|i: int| 0 <= i < n implies concepts_from(#[trigger] b.rows[i], layers[i]) by {
            if i < n - 1 {
                assert(b.rows[i] == b0.rows[i]);
            }
        }
        assert(holds_layer(row, layers[n - 1])) by {
            assert forall|k: int| 0 <= k < layers[n - 1].len() implies stands_in(
                row,
                #[trigger] layers[n - 1][k],
            ) by {
                assert(nodes[k] == real_node(edges, layers[n - 1][k]));
                assert(t.row.contains(t.row[k]));
                assert(row.contains(t.row[k]));
                let j = choose|j: int| 0 <= j < row.len() && row[j] == t.row[k];
                assert(row[j].id == NodeID(layers[n - 1][k]) && !row[j].fake);
            }
        }
        assert forall|i: int| 0 <= i < n implies holds_layer(#[trigger] b.rows[i], layers[i]) by {
            if i < n - 1 {
                assert(b.rows[i] == b0.rows[i]);
            }
        }
    }
}

/// Every row of the grid holds as many concept nodes as its layer holds
/// concepts.
pub proof fn lemma_materialized_counts(
    layers: Seq<Seq<usize>>,
    edges: Seq<(usize, usize)>,
    first: int,
)
    ensures
        materialized(layers, edges, first).len() == layers.len(),
        forall|i: int|
            0 <= i < layers.len() ==> real_count(#[trigger] materialized(layers, edges, first)[i])
                == layers[i].len(),
        forall|i: int|
            0 <= i < layers.len() ==> concepts_from(
                #[trigger] materialized(layers, edges, first)[i],
                layers[i],
            ),
        forall|i: int|
            0 <= i < layers.len() ==> holds_layer(
                #[trigger] materialized(layers, edges, first)[i],
                layers[i],
            ),
{
    if layers.len() > 0 {
        let n = layers.len() - 1;
        lemma_built_counts(layers, edges, first, n);
        let b = built(layers, edges, first, n);
        let last = real_nodes(edges, layers.last());
        lemma_real_count_parts(last, Seq::empty());
        assert(last + Seq::<NodeView>::empty() =~= last);
        let g = materialized(layers, edges, first);
        assert forall|i: int| 0 <= i < layers.len() implies real_count(#[trigger] g[i])
            == layers[i].len() by {
            if i < n {
                assert(g[i] == b.rows[i]);
            }
        }
        assert forall|i: int| 0 <= i < layers.len() implies concepts_from(
            #[trigger] g[i],
            layers[i],
        ) by {
            if i < n {
                assert(g[i] == b.rows[i]);
            } else {
                assert forall|k: int| 0 <= k < last.len()
                    && !(#[trigger] last[k]).fake implies in_layer(
                    layers[n],
                    last[k].id,
                ) by {
                    assert(NodeID(layers[n][k]) == last[k].id);
                }
            }
        }
        assert forall|i: int| 0 <= i < layers.len()
            implies holds_layer(#[trigger] g[i], layers[i]) by {
            if i < n {
                assert(g[i] == b.rows[i]);
            } else {
                assert forall|k: int| 0 <= k < layers[n].len() implies stands_in(
                    last,
                    #[trigger] layers[n][k],
                ) by {
                    assert(last[k].id == NodeID(layers[n][k]) && !last[k].fake);
                }
            }
        }
    }
}

/// The layers are sound: every node of the edges stands in exactly one of
/// them, every edge leads to a later layer, and the identifiers of the
/// concepts lie below `first`, where those of the pass-through nodes begin.
pub open spec fn layered(layers: Seq<Seq<usize>>, edges: Seq<(usize, usize)>, first: int) -> bool {
    &&& distinct(layers)
    &&& forward(layers, edges)
    &&& forall|n: usize| is_node(edges, n) ==> holds(layers, n)
    &&& forall|r: int, k: int|
        0 <= r < layers.len() && 0 <= k < layers[r].len() ==> (#[trigger] layers[r][k]) < first
}

/// The concept `c` stands in a layer after layer `n`.
pub open spec fn later(layers: Seq<Seq<usize>>, c: usize, n: int) -> bool {
    exists|m: int, k: int|
        n < m < layers.len() && 0 <= k < layers[m].len() && (#[trigger] layers[m][k]) == c
}

/// `id` is that of a concept of `layer`.
pub open spec fn in_layer(layer: Seq<usize>, id: NodeID) -> bool {
    exists|k: int| 0 <= k < layer.len() && NodeID(#[trigger] layer[k]) == id
}

/// The first identifier of the pass-through nodes of row `i`.
pub open spec fn start(
    layers: Seq<Seq<usize>>,
    edges: Seq<(usize, usize)>,
    first: int,
    i: int,
) -> int {
    let b = built(layers, edges, first, i);
    b.next - b.extras.len()
}

/// The row holds the concepts of its layer, each once, and pass-through nodes
/// with identifiers from `lo` up to `hi`, each once.
pub open spec fn row_sound(row: Seq<NodeView>, layer: Seq<usize>, lo: int, hi: int) -> bool {
    &&& forall|k: int|
        0 <= k < row.len() ==> if (#[trigger] row[k]).fake {
            lo <= row[k].id.0 < hi
        } else {
            in_layer(layer, row[k].id)
        }
    &&& forall|k: int| 0 <= k < layer.len() ==> has_id(row, NodeID(#[trigger] layer[k]))
    &&& unique_in_row(row)
}

/// The pass-through nodes that wait for row `n` have the identifiers from
/// `from` on, and each leads to a concept of a layer after `n`.
pub open spec fn extras_sound(
    extras: Seq<NodeView>,
    layers: Seq<Seq<usize>>,
    first: int,
    n: int,
    from: int,
) -> bool {
    forall|j: int|
        0 <= j < extras.len() ==> {
            &&& (#[trigger] extras[j]).id == NodeID((from + j) as usize)
            &&& extras[j].fake
            &&& extras[j].children.len() == 1
            &&& extras[j].children[0].0 < first
            &&& later(layers, extras[j].children[0].0, n)
        }
}

/// Every edge of `row` leads to a node of `below`.
pub open spec fn leads_to(row: Seq<NodeView>, below: Seq<NodeView>) -> bool {
    forall|k: int, h: int|
        0 <= k < row.len() && 0 <= h < row[k].children.len() ==> has_id(
            below,
            #[trigger] row[k].children[h],
        )
}

/// Every edge of `row` leads to a concept of `layer` or to one of `extras`.
pub open spec fn leads_below(row: Seq<NodeView>, layer: Seq<usize>, extras: Seq<NodeView>) -> bool {
    forall|k: int, h: int|
        0 <= k < row.len() && 0 <= h < row[k].children.len() ==> in_layer(
            layer,
            #[trigger] row[k].children[h],
        ) || has_id(extras, row[k].children[h])
}

/// What holds of the first `n` rows of soundly layered concepts.
pub open spec fn sound(
    layers: Seq<Seq<usize>>,
    edges: Seq<(usize, usize)>,
    first: int,
    n: int,
) -> bool {
    let b = built(layers, edges, first, n);
    &&& b.rows.len() == n
    &&& first <= start(layers, edges, first, n)
    &&& forall|i: int|
        0 <= i < n ==> first <= #[trigger] start(layers, edges, first, i) <= start(
            layers,
            edges,
            first,
            i + 1,
        )
    &&& forall|i: int|
        0 <= i < n ==> row_sound(
            #[trigger] b.rows[i],
            layers[i],
            start(layers, edges, first, i),
            start(layers, edges, first, i + 1),
        )
    &&& extras_sound(b.extras, layers, first, n, start(layers, edges, first, n))
    &&& forall|i: int| 0 <= i < n - 1 ==> leads_to(#[trigger] b.rows[i], b.rows[i + 1])
    &&& n >= 1 ==> leads_below(b.rows[n - 1], layers[n], b.extras)
}

/// The edges of a concept node lead to concepts below `first`, which stand in
/// a later layer.
proof fn lemma_real_children(
    layers: Seq<Seq<usize>>,
    edges: Seq<(usize, usize)>,
    first: int,
    r: int,
    k: int,
    h: int,
)
    requires
        layered(layers, edges, first),
        0 <= r < layers.len(),
        0 <= k < layers[r].len(),
        0 <= h < children(edges, layers[r][k]).len(),
    ensures
        children(edges, layers[r][k])[h] < first,
        later(layers, children(edges, layers[r][k])[h], r),
        real_node(edges, layers[r][k]).children[h] == NodeID(children(edges, layers[r][k])[h]),
{
    let c = layers[r][k];
    let y = children(edges, c)[h];
    crate::graph::lemma_children_members(edges, c);
    assert(children(edges, c).contains(y));
    assert(is_edge(edges, c, y));
    let i = choose|i: int| 0 <= i < edges.len() && edges[i].0 == c && edges[i].1 == y;
    assert(is_node(edges, y));
    assert(holds(layers, y));
    let (m, j) = choose|m: int, j: int|
        0 <= m < layers.len() && 0 <= j < layers[m].len() && layers[m][j] == y;
    assert(is_edge(edges, layers[r][k], layers[m][j]));
    assert(r < m);
    assert(layers[m][j] < first);
}

/// The rows of soundly layered concepts are sound.
pub proof fn lemma_sound(layers: Seq<Seq<usize>>, edges: Seq<(usize, usize)>, first: int, n: int)
    requires
        layered(layers, edges, first),
        0 <= first,
        0 <= n <= layers.len() - 1,
        built(layers, edges, first, n).next <= usize::MAX,
    ensures
        sound(layers, edges, first, n),
    decreases n,
{
    if n > 0 {
        lemma_built_grows(layers, edges, first, n - 1, n);
        lemma_sound(layers, edges, first, n - 1);
        let b0 = built(layers, edges, first, n - 1);
        let b = built(layers, edges, first, n);
        let layer = layers[n - 1];
        let below = layers[n];
        let reals = real_nodes(edges, layer);
        let nr = reals.len() as int;
        let nodes = reals + b0.extras;
        let t = threaded(nodes, below, b0.next, nodes.len() as int);
        let above = if b0.rows.len() == 0 {
            Seq::empty()
        } else {
            b0.rows.last()
        };
        let row = ordered(above, t.row);
        let s0 = start(layers, edges, first, n - 1);
        assert(b.rows == b0.rows.push(row));
        assert(b.extras == t.extras);
        assert(b.next == t.next);
        // the edges of the nodes lead to concepts, whose identifiers lie below `first`
        assert forall|i: int, h: int|
            0 <= i < nodes.len() && 0 <= h < nodes[i].children.len() implies (
        #[trigger] nodes[i].children[h]).0 < b0.next by {
            if i < nr {
                lemma_real_children(layers, edges, first, n - 1, i, h);
            } else {
                assert(nodes[i] == b0.extras[i - nr]);
            }
        }
        lemma_threaded(nodes, below, b0.next, nodes.len() as int);
        lemma_ordered(above, t.row);
        let s1 = start(layers, edges, first, n);
        assert(s1 == b0.next);
        // what the nodes of the new row are
        assert forall|i: int| 0 <= i < t.row.len() implies if (#[trigger] t.row[i]).fake {
            s0 <= t.row[i].id.0 < s1
        } else {
            in_layer(layer, t.row[i].id)
        } by {
            if i < nr {
                assert(nodes[i] == real_node(edges, layer[i]));
                assert(NodeID(layer[i]) == t.row[i].id);
            } else {
                assert(nodes[i] == b0.extras[i - nr]);
            }
        }
        assert(unique_in_row(t.row)) by {
            assert forall|a: int, c: int| 0 <= a < c < t.row.len() implies t.row[a].id
                != t.row[c].id by {
                if a < nr {
                    assert(nodes[a] == real_node(edges, layer[a]));
                    assert(layer[a] < first);
                } else {
                    assert(nodes[a] == b0.extras[a - nr]);
                }
                if c < nr {
                    assert(nodes[c] == real_node(edges, layer[c]));
                    assert(layer[c] < first);
                } else {
                    assert(nodes[c] == b0.extras[c - nr]);
                }
            }
        }
        assert(row_sound(row, layer, s0, s1)) by {
            assert forall|k: int| 0 <= k < row.len() implies if (#[trigger] row[k]).fake {
                s0 <= row[k].id.0 < s1
            } else {
                in_layer(layer, row[k].id)
            } by {
                assert(row.contains(row[k]));
                assert(t.row.contains(row[k]));
                let i = choose|i: int| 0 <= i < t.row.len() && t.row[i] == row[k];
            }
            assert forall|k: int| 0 <= k < layer.len() implies has_id(
                row,
                NodeID(#[trigger] layer[k]),
            ) by {
                assert(nodes[k] == real_node(edges, layer[k]));
                assert(t.row.contains(t.row[k]));
                let i = choose|i: int| 0 <= i < row.len() && row[i] == t.row[k];
                assert(row[i].id == NodeID(layer[k]));
            }
        }
        assert forall|i: int| 0 <= i < n implies row_sound(
            #[trigger] b.rows[i],
            layers[i],
            start(layers, edges, first, i),
            start(layers, edges, first, i + 1),
        ) by {
            if i < n - 1 {
                assert(b.rows[i] == b0.rows[i]);
            }
        }
        // the new pass-through nodes lead to concepts of later layers
        assert(extras_sound(t.extras, layers, first, n, s1)) by {
            assert forall|j: int| 0 <= j < t.extras.len() implies {
                &&& (#[trigger] t.extras[j]).id == NodeID((s1 + j) as usize)
                &&& t.extras[j].fake
                &&& t.extras[j].children.len() == 1
                &&& t.extras[j].children[0].0 < first
                &&& later(layers, t.extras[j].children[0].0, n)
            } by {
                let ch = t.extras[j].children[0];
                let i = choose|i: int|
                    0 <= i < nodes.len() && (#[trigger] nodes[i]).children.contains(ch);
                let h = choose|h: int| 0 <= h < nodes[i].children.len() && nodes[i].children[h]
                    == ch;
                if i < nr {
                    assert(nodes[i] == real_node(edges, layer[i]));
                    lemma_real_children(layers, edges, first, n - 1, i, h);
                } else {
                    assert(nodes[i] == b0.extras[i - nr]);
                    assert(later(layers, ch.0, n - 1));
                }
                let (m, k) = choose|m: int, k: int|
                    n - 1 < m < layers.len() && 0 <= k < layers[m].len() && (
                    #[trigger] layers[m][k]) == ch.0;
                if m == n {
                    assert(below[k] == ch.0);
                    assert(below.contains(ch.0));
                }
            }
        }
        // the row above leads to the new row
        if n >= 2 {
            let up = b0.rows[n - 2];
            assert(leads_to(up, row)) by {
                assert forall|k: int, h: int|
                    0 <= k < up.len() && 0 <= h < up[k].children.len() implies has_id(
                    row,
                    #[trigger] up[k].children[h],
                ) by {
                    let c = up[k].children[h];
                    if in_layer(layer, c) {
                        let k2 = choose|k2: int| 0 <= k2 < layer.len() && NodeID(layer[k2]) == c;
                        assert(has_id(row, NodeID(layer[k2])));
                    } else {
                        assert(has_id(b0.extras, c));
                        let j = choose|j: int| 0 <= j < b0.extras.len() && b0.extras[j].id == c;
                        assert(nodes[nr + j] == b0.extras[j]);
                        assert(t.row.contains(t.row[nr + j]));
                        let i = choose|i: int| 0 <= i < row.len() && row[i] == t.row[nr + j];
                        assert(row[i].id == c);
                    }
                }
            }
        }
        assert forall|i: int| 0 <= i < n - 1 implies leads_to(
            #[trigger] b.rows[i],
            b.rows[i + 1],
        ) by {
            if i < n - 2 {
                assert(b.rows[i] == b0.rows[i]);
                assert(b.rows[i + 1] == b0.rows[i + 1]);
                assert(leads_to(b0.rows[i], b0.rows[i + 1]));
            }
        }
        // the new row leads to the layer below or to the new pass-through nodes
        assert(leads_below(row, below, t.extras)) by {
            assert forall|k: int, h: int|
                0 <= k < row.len() && 0 <= h < row[k].children.len() implies in_layer(
                below,
                #[trigger] row[k].children[h],
            ) || has_id(t.extras, row[k].children[h]) by {
                assert(row.contains(row[k]));
                assert(t.row.contains(row[k]));
                let i = choose|i: int| 0 <= i < t.row.len() && t.row[i] == row[k];
                let c = t.row[i].children[h];
                assert(leads_on(t.row[i], nodes[i].children, t.extras));
                if c == nodes[i].children[h] {
                    assert(below.contains(c.0));
                    let k2 = choose|k2: int| 0 <= k2 < below.len() && below[k2] == c.0;
                    assert(NodeID(below[k2]) == c);
                } else {
                    let j = choose|j: int|
                        0 <= j < t.extras.len() && t.row[i].children[h] == (
                        #[trigger] t.extras[j]).id && t.extras[j].children == seq![
                            nodes[i].children[h],
                        ];
                    assert(has_id(t.extras, c));
                }
            }
        }
    }
}

/// Below row `r` there is a row, and it holds the node `c`.
pub open spec fn leads_down(grid: Seq<Seq<NodeView>>, r: int, c: NodeID) -> bool {
    r + 1 < grid.len() && has_id(grid[r + 1], c)
}

/// Every edge of the grid leads from a node to a node of the next row.
pub open spec fn adjacent(grid: Seq<Seq<NodeView>>) -> bool {
    forall|r: int, k: int, h: int|
        0 <= r < grid.len() && 0 <= k < grid[r].len() && 0 <= h < grid[r][k].children.len()
            ==> leads_down(grid, r, #[trigger] grid[r][k].children[h])
}

/// No two nodes of the grid have the same identifier.
pub open spec fn unique_ids(grid: Seq<Seq<NodeView>>) -> bool {
    forall|r1: int, k1: int, r2: int, k2: int|
        0 <= r1 < grid.len() && 0 <= k1 < grid[r1].len() && 0 <= r2 < grid.len() && 0 <= k2
            < grid[r2].len() && (#[trigger] grid[r1][k1]).id == (#[trigger] grid[r2][k2]).id ==> r1
            == r2 && k1 == k2
}

/// The pass-through nodes of a later row have the greater identifiers.
proof fn lemma_starts(
    layers: Seq<Seq<usize>>,
    edges: Seq<(usize, usize)>,
    first: int,
    n: int,
    a: int,
    b: int,
)
    requires
        sound(layers, edges, first, n),
        0 <= a <= b <= n,
    ensures
        first <= start(layers, edges, first, a) <= start(layers, edges, first, b),
    decreases b - a,
{
    if a < b {
        lemma_starts(layers, edges, first, n, a + 1, b);
        assert(start(layers, edges, first, a) <= start(layers, edges, first, a + 1));
    }
}

/// Where the layers are sound, every edge of the grid leads from its row to
/// the next, to a node that is the only one of its identifier.
pub proof fn lemma_materialized(layers: Seq<Seq<usize>>, edges: Seq<(usize, usize)>, first: int)
    requires
        layered(layers, edges, first),
        0 <= first,
        free_after(layers, edges, first) <= usize::MAX,
    ensures
        adjacent(materialized(layers, edges, first)),
        unique_ids(materialized(layers, edges, first)),
{
    if layers.len() > 0 {
        let n = layers.len() - 1;
        lemma_sound(layers, edges, first, n);
        let b = built(layers, edges, first, n);
        let last = real_nodes(edges, layers[n]);
        let g = materialized(layers, edges, first);
        assert(g == b.rows.push(last));
        // nothing waits for a row after the last
        if b.extras.len() > 0 {
            assert(later(layers, b.extras[0].children[0].0, n));
        }
        // the concepts of the last layer have no dependents
        assert forall|k: int| 0 <= k < last.len() implies (#[trigger] last[k]).children.len()
            == 0 by {
            if children(edges, layers[n][k]).len() > 0 {
                lemma_real_children(layers, edges, first, n, k, 0);
            }
        }
        assert(adjacent(g)) by {
            assert forall|r: int, k: int, h: int|
                0 <= r < g.len() && 0 <= k < g[r].len()
                    && 0 <= h < g[r][k].children.len() implies leads_down(
                g,
                r,
                #[trigger] g[r][k].children[h],
            ) by {
                let c = g[r][k].children[h];
                if r < n - 1 {
                    assert(g[r] == b.rows[r] && g[r + 1] == b.rows[r + 1]);
                    assert(leads_to(b.rows[r], b.rows[r + 1]));
                } else if r == n - 1 {
                    assert(g[r] == b.rows[r]);
                    assert(in_layer(layers[n], c));
                    let k2 = choose|k2: int| 0 <= k2 < layers[n].len() && NodeID(layers[n][k2])
                        == c;
                    assert(last[k2].id == c);
                } else {
                    assert(g[r] == last);
                }
            }
        }
        assert(unique_ids(g)) by {
            assert forall|r1: int, k1: int, r2: int, k2: int|
                0 <= r1 < g.len() && 0 <= k1 < g[r1].len() && 0 <= r2 < g.len() && 0 <= k2
                    < g[r2].len() && (#[trigger] g[r1][k1]).id
                        == (#[trigger] g[r2][k2]).id implies r1
                == r2 && k1 == k2 by {
                let x = g[r1][k1];
                let y = g[r2][k2];
                // each node is a concept of its layer, or a pass-through node of its row
                if r1 < n {
                    assert(g[r1] == b.rows[r1]);
                    lemma_starts(layers, edges, first, n, 0, r1);
                    lemma_starts(layers, edges, first, n, r1 + 1, n);
                } else {
                    assert(x == real_node(edges, layers[n][k1]));
                }
                if r2 < n {
                    assert(g[r2] == b.rows[r2]);
                    lemma_starts(layers, edges, first, n, 0, r2);
                    lemma_starts(layers, edges, first, n, r2 + 1, n);
                } else {
                    assert(y == real_node(edges, layers[n][k2]));
                }
                if x.fake {
                    if r1 < r2 {
                        lemma_starts(layers, edges, first, n, r1 + 1, r2);
                    }
                    if r2 < r1 {
                        lemma_starts(layers, edges, first, n, r2 + 1, r1);
                    }
                    if !y.fake {
                        if r2 < n {
                            let j = choose|j: int|
                                0 <= j < layers[r2].len() && NodeID(layers[r2][j]) == y.id;
                            assert(layers[r2][j] < first);
                        } else {
                            assert(layers[n][k2] < first);
                        }
                    }
                } else {
                    assert(in_layer(layers[r1], x.id)) by {
                        if r1 == n {
                            assert(NodeID(layers[n][k1]) == x.id);
                        }
                    }
                    assert(in_layer(layers[r2], y.id)) by {
                        if r2 == n {
                            assert(NodeID(layers[n][k2]) == y.id);
                        }
                    }
                    let j1 = choose|j: int|
                        0 <= j < layers[r1].len() && NodeID(layers[r1][j]) == x.id;
                    let j2 = choose|j: int|
                        0 <= j < layers[r2].len() && NodeID(layers[r2][j]) == y.id;
                    assert(layers[r1][j1] == layers[r2][j2]);
                    assert(layers[r1][j1] < first);
                    assert(r1 == r2);
                    if r1 == n {
                        assert(layers[n][k1] == layers[n][k2]);
                    }
                }
            }
        }
    }
}

/// Routing more targets uses up no fewer identifiers.
pub proof fn lemma_routed_monotone(
    node: NodeView,
    targets: Seq<NodeID>,
    below: Seq<usize>,
    next: int,
    k: int,
    n: int,
)
    requires
        k <= n,
    ensures
        routed(node, targets, below, next, k).next <= routed(node, targets, below, next, n).next,
    decreases n - k,
{
    if k < n {
        lemma_routed_monotone(node, targets, below, next, k, n - 1);
        lemma_routed_grows(node, targets, below, next, n);
        lemma_routed_grows(node, targets, below, next, n - 1);
    }
}

/// Threading more nodes uses up no fewer identifiers.
pub proof fn lemma_threaded_monotone(
    nodes: Seq<NodeView>,
    below: Seq<usize>,
    next: int,
    k: int,
    n: int,
)
    requires
        k <= n,
    ensures
        threaded(nodes, below, next, k).next <= threaded(nodes, below, next, n).next,
    decreases n - k,
{
    if k < n {
        lemma_threaded_monotone(nodes, below, next, k, n - 1);
        lemma_threaded_grows(nodes, below, next, n);
        lemma_threaded_grows(nodes, below, next, n - 1);
    }
}

/// No node of the row carries what is shown of a concept.
pub open spec fn plain(row: Seq<ConceptNode>) -> bool {
    forall|k: int| 0 <= k < row.len() ==> !((#[trigger] row[k]) is Concept)
}

/// Whether `x` is among `layer`.
pub fn contains_id(layer: &Vec<usize>, x: usize) -> (b: bool)
    ensures
        b == layer@.contains(x),
{
    let mut i: usize = 0;
    while i < layer.len()
        invariant
            i <= layer.len(),
            forall|j: int| 0 <= j < i ==> layer@[j] != x,
        decreases layer.len() - i,
    {
        if layer[i] == x {
            return true;
        }
        i += 1;
    }
    false
}

/// Where the parents of `id` stand in the row `above`, as one number.
pub fn barycenter_of(above: &Vec<ConceptNode>, id: NodeID) -> (key: u128)
    ensures
        key == barycenter(nodes_view(above@), id),
{
    let ghost av = nodes_view(above@);
    let mut count: usize = 0;
    let mut places: u128 = 0;
    let mut i: usize = 0;
    while i < above.len()
        invariant
            i <= above.len(),
            av == nodes_view(above@),
            count <= i,
            count == parent_count(av, id, i as int),
            places == parent_places(av, id, i as int),
            places <= count * 0xffff_ffff_ffff_ffff,
        decreases above.len() - i,
    {
        assert(av[i as int] == above@[i as int]@);
        if above[i].has_child(id) {
            count += 1;
            places += i as u128;
        }
        i += 1;
    }
    if count < 2 {
        500
    } else {
        let d: u128 = (count - 1) as u128;
        let q: u128 = places / d;
        let r: u128 = places % d;
        proof {
            assert(d == count - 1);
            assert(places <= 0x1_ffff_ffff_ffff_fffe * d);
            assert(q <= 0x1_ffff_ffff_ffff_fffe) by (nonlinear_arith)
                requires
                    q == places / d,
                    places <= 0x1_ffff_ffff_ffff_fffe * d,
                    d > 0,
            ;
            assert(places == q * d + r) by (nonlinear_arith)
                requires
                    q == places / d,
                    r == places % d,
                    d > 0,
            ;
            assert(r * 1000 + (q * 1000) * d == places * 1000) by (nonlinear_arith)
                requires
                    places == q * d + r,
            ;
            vstd::arithmetic::div_mod::lemma_hoist_over_denominator(
                r * 1000,
                q * 1000,
                d as nat,
            );
        }
        q * 1000 + (r * 1000) / d
    }
}

/// The row in the order of the barycenters of its nodes in the row `above`;
/// nodes of equal barycenter keep their order.
pub fn order_row(above: &Vec<ConceptNode>, row: &Vec<ConceptNode>) -> (out: Vec<ConceptNode>)
    ensures
        nodes_view(out@) == ordered(nodes_view(above@), nodes_view(row@)),
        plain(row@) ==> plain(out@),
{
    let ghost av = nodes_view(above@);
    let ghost rv = nodes_view(row@);
    let mut out: Vec<ConceptNode> = Vec::new();
    let mut keys: Vec<u128> = Vec::new();
    let mut i: usize = 0;
    assert(nodes_view(out@) =~= ordered(av, rv.take(0)));
    while i < row.len()
        invariant
            i <= row.len(),
            av == nodes_view(above@),
            rv == nodes_view(row@),
            nodes_view(out@) == ordered(av, rv.take(i as int)),
            keys@.len() == out@.len(),
            forall|j: int| 0 <= j < out@.len() ==> keys@[j]
                == barycenter(av, (#[trigger] out@[j])@.id),
            plain(row@) ==> plain(out@),
        decreases row.len() - i,
    {
        let x = row[i].clone();
        let key = barycenter_of(above, x.id());
        let ghost ov = nodes_view(out@);
        let ghost xv = x@;
        let mut p: usize = out.len();
        assert(ov.take(p as int) == ov);
        assert(inserted(av, ov.take(p as int), xv) + ov.skip(p as int) =~= inserted(av, ov, xv));
        while p > 0 && keys[p - 1] > key
            invariant
                p <= out@.len(),
                keys@.len() == out@.len(),
                ov == nodes_view(out@),
                key == barycenter(av, xv.id),
                forall|j: int|
                    0 <= j < out@.len() ==> keys@[j] == barycenter(av, (#[trigger] out@[j])@.id),
                inserted(av, ov.take(p as int), xv) + ov.skip(p as int) == inserted(av, ov, xv),
            decreases p,
        {
            proof {
                let head = ov.take(p as int);
                assert(head.last() == out@[p - 1]@);
                assert(head.drop_last() == ov.take(p - 1));
                assert(inserted(av, head, xv)
                    == inserted(av, ov.take(p - 1), xv).push(head.last()));
                assert(inserted(av, ov.take(p - 1), xv) + ov.skip(p - 1) =~= inserted(av, head, xv)
                    + ov.skip(p as int));
            }
            p -= 1;
        }
        proof {
            let head = ov.take(p as int);
            if p > 0 {
                assert(head.last() == out@[p - 1]@);
            }
            assert(inserted(av, head, xv) == head.push(xv));
            assert(head.push(xv) + ov.skip(p as int) =~= ov.insert(p as int, xv));
            assert(rv.take(i + 1).drop_last() == rv.take(i as int));
            assert(rv.take(i + 1).last() == xv);
        }
        out.insert(p, x);
        keys.insert(p, key);
        assert(nodes_view(out@) =~= ov.insert(p as int, xv));
        i += 1;
    }
    assert(rv.take(i as int) == rv);
    out
}

/// The nodes that stand for the concepts of a layer.
pub fn real_row(edges: &Vec<(usize, usize)>, layer: &Vec<usize>) -> (out: Vec<ConceptNode>)
    ensures
        nodes_view(out@) == real_nodes(edges@, layer@),
        plain(out@),
{
    let mut out: Vec<ConceptNode> = Vec::new();
    let mut i: usize = 0;
    while i < layer.len()
        invariant
            i <= layer.len(),
            out@.len() == i,
            forall|j: int| 0 <= j < i ==> (#[trigger] out@[j])@ == real_node(edges@, layer@[j]),
            plain(out@),
        decreases layer.len() - i,
    {
        let c = layer[i];
        let kids = children_of(edges, c);
        let mut children: Vec<NodeID> = Vec::new();
        let mut k: usize = 0;
        while k < kids.len()
            invariant
                k <= kids.len(),
                children@.len() == k,
                forall|h: int| 0 <= h < k ==> children@[h] == NodeID(kids@[h]),
            decreases kids.len() - k,
        {
            children.push(NodeID(kids[k]));
            k += 1;
        }
        assert(children@ =~= as_nodes(kids@));
        out.push(ConceptNode::CheapConcept { concept: ConceptID(c), children });
        i += 1;
    }
    assert(nodes_view(out@) =~= real_nodes(edges@, layer@));
    out
}

/// Leads the edges of `node` that do not lead into `below` through new
/// pass-through nodes, which are added to `extras`. Gives up, and says so,
/// where the identifiers run out.
pub fn route(
    node: &mut ConceptNode,
    below: &Vec<usize>,
    next: &mut usize,
    extras: &mut Vec<ConceptNode>,
) -> (ok: bool)
    ensures
        ({
            let r = routed(
                old(node)@,
                old(node)@.children,
                below@,
                *old(next) as int,
                old(node)@.children.len() as int,
            );
            if ok {
                &&& final(node)@ == r.node
                &&& nodes_view(final(extras)@) == nodes_view(old(extras)@) + r.extras
                &&& *final(next) == r.next
                &&& final(node).same_kind(old(node))
                &&& plain(old(extras)@) ==> plain(final(extras)@)
            } else {
                r.next > usize::MAX
            }
        }),
{
    let targets = node.children();
    let ghost node0 = node@;
    let ghost next0 = *next as int;
    let ghost extras0 = nodes_view(extras@);
    let mut k: usize = 0;
    assert(nodes_view(extras@) =~= extras0 + Seq::<NodeView>::empty());
    while k < targets.len()
        invariant
            k <= targets.len(),
            targets@ == node0.children,
            node0 == old(node)@,
            next0 == *old(next),
            extras0 == nodes_view(old(extras)@),
            node@ == routed(node0, targets@, below@, next0, k as int).node,
            nodes_view(extras@)
                == extras0 + routed(node0, targets@, below@, next0, k as int).extras,
            *next == routed(node0, targets@, below@, next0, k as int).next,
            node.same_kind(old(node)),
            plain(old(extras)@) ==> plain(extras@),
        decreases targets.len() - k,
    {
        let ch = targets[k];
        if !contains_id(below, ch.0) {
            if *next == usize::MAX {
                proof {
                    assert(routed(node0, targets@, below@, next0, k + 1).next == *next + 1);
                    lemma_routed_monotone(
                        node0,
                        targets@,
                        below@,
                        next0,
                        k + 1,
                        targets@.len() as int,
                    );
                }
                return false;
            }
            let id = NodeID(*next);
            let ghost before = nodes_view(extras@);
            node.replace_child(ch, id);
            extras.push(ConceptNode::Fake { fakeid: id, child: ch });
            *next = *next + 1;
            proof {
                let r0 = routed(node0, targets@, below@, next0, k as int);
                let r = routed(node0, targets@, below@, next0, k + 1);
                assert(nodes_view(extras@) =~= before.push(fake_node(r0.next, ch)));
                assert(nodes_view(extras@) =~= extras0 + r.extras);
            }
        }
        k += 1;
    }
    true
}

/// Leads the edges of the nodes of a row into `below`; see `route`. Returns
/// the row and the new pass-through nodes, or nothing where the identifiers
/// run out.
pub fn thread(nodes: &Vec<ConceptNode>, below: &Vec<usize>, next: &mut usize) -> (out: Option<
    (Vec<ConceptNode>, Vec<ConceptNode>),
>)
    ensures
        ({
            let t = threaded(
                nodes_view(nodes@),
                below@,
                *old(next) as int,
                nodes@.len() as int,
            );
            match out {
                Some((row, extras)) => {
                    &&& nodes_view(row@) == t.row
                    &&& nodes_view(extras@) == t.extras
                    &&& *final(next) == t.next
                    &&& plain(nodes@) ==> plain(row@)
                    &&& plain(extras@)
                },
                None => t.next > usize::MAX,
            }
        }),
{
    let ghost nv = nodes_view(nodes@);
    let ghost next0 = *next as int;
    let mut row: Vec<ConceptNode> = Vec::new();
    let mut extras: Vec<ConceptNode> = Vec::new();
    let mut k: usize = 0;
    assert(nodes_view(row@) =~= threaded(nv, below@, next0, 0).row);
    assert(nodes_view(extras@) =~= threaded(nv, below@, next0, 0).extras);
    while k < nodes.len()
        invariant
            k <= nodes.len(),
            nv == nodes_view(nodes@),
            next0 == *old(next),
            nodes_view(row@) == threaded(nv, below@, next0, k as int).row,
            nodes_view(extras@) == threaded(nv, below@, next0, k as int).extras,
            *next == threaded(nv, below@, next0, k as int).next,
            row@.len() == k,
            forall|j: int| 0 <= j < k ==> (#[trigger] row@[j]).same_kind(&nodes@[j]),
            plain(extras@),
        decreases nodes.len() - k,
    {
        let mut nd = nodes[k].clone();
        assert(nd@ == nv[k as int]);
        let ghost row0 = nodes_view(row@);
        let ok = route(&mut nd, below, next, &mut extras);
        if !ok {
            proof {
                assert(threaded(nv, below@, next0, k + 1).next > usize::MAX);
                lemma_threaded_monotone(nv, below@, next0, k + 1, nodes@.len() as int);
            }
            return None;
        }
        row.push(nd);
        assert(nodes_view(row@) =~= row0.push(nd@));
        k += 1;
    }
    proof {
        if plain(nodes@) {
            assert forall|j: int| 0 <= j < row@.len()
                implies !((#[trigger] row@[j]) is Concept) by {
                assert(row@[j].same_kind(&nodes@[j]));
            }
        }
    }
    Some((row, extras))
}

/// No node of the grid carries what is shown of a concept.
pub open spec fn plain_rows(rows: Seq<Vec<ConceptNode>>) -> bool {
    forall|r: int| 0 <= r < rows.len() ==> plain((#[trigger] rows[r])@)
}

/// The grid that is drawn for `layers`, the rows of the concepts that `edges`
/// connect. The pass-through nodes get the identifiers from `first` on.
/// Returns nothing where these run out.
///
/// Each row holds the concepts of its layer and the pass-through nodes of the
/// edges that cross it. Where every node of the edges stands in exactly one
/// layer, every edge leads to a later layer and the concepts' identifiers lie
/// below `first`, every edge of the grid leads from its row to the next.
pub fn materialize_rows(layers: &Vec<Vec<usize>>, edges: &Vec<(usize, usize)>, first: usize) -> (out:
    Option<ConceptMap>)
    ensures
        match out {
            Some(m) => {
                &&& m@ == materialized(rows_view(layers@), edges@, first as int)
                &&& free_after(rows_view(layers@), edges@, first as int) <= usize::MAX
                &&& plain_rows(m.rows@)
                &&& m@.len() == layers@.len()
                &&& forall|i: int|
                    0 <= i < layers@.len() ==> real_count(#[trigger] m@[i]) == layers@[i]@.len()
                &&& forall|i: int|
                    0 <= i < layers@.len() ==> concepts_from(#[trigger] m@[i], layers@[i]@)
                &&& forall|i: int|
                    0 <= i < layers@.len() ==> holds_layer(#[trigger] m@[i], layers@[i]@)
                &&& layered(rows_view(layers@), edges@, first as int) ==> adjacent(m@)
                    && unique_ids(m@)
            },
            None => free_after(rows_view(layers@), edges@, first as int) > usize::MAX,
        },
{
    let ghost lv = rows_view(layers@);
    let mut rows: Vec<Vec<ConceptNode>> = Vec::new();
    if layers.len() == 0 {
        assert(grid_view(rows@) =~= materialized(lv, edges@, first as int));
        return Some(ConceptMap { rows });
    }
    let mut extras: Vec<ConceptNode> = Vec::new();
    let mut next: usize = first;
    let mut n: usize = 0;
    assert(grid_view(rows@) =~= built(lv, edges@, first as int, 0).rows);
    assert(nodes_view(extras@) =~= built(lv, edges@, first as int, 0).extras);
    while n < layers.len() - 1
        invariant
            n <= layers.len() - 1,
            lv == rows_view(layers@),
            rows@.len() == n,
            grid_view(rows@) == built(lv, edges@, first as int, n as int).rows,
            nodes_view(extras@) == built(lv, edges@, first as int, n as int).extras,
            next == built(lv, edges@, first as int, n as int).next,
            plain_rows(rows@),
            plain(extras@),
        decreases layers.len() - n,
    {
        let ghost b0 = built(lv, edges@, first as int, n as int);
        let mut nodes = real_row(edges, &layers[n]);
        let ghost reals = nodes_view(nodes@);
        nodes.append(&mut extras);
        assert(nodes_view(nodes@) =~= reals + b0.extras);
        assert(lv[n as int] == layers@[n as int]@);
        assert(lv[n + 1] == layers@[n + 1]@);
        match thread(&nodes, &layers[n + 1], &mut next) {
            None => {
                proof {
                    assert(built(lv, edges@, first as int, n + 1).next > usize::MAX);
                    lemma_built_grows(lv, edges@, first as int, n + 1, layers.len() - 1);
                }
                return None;
            },
            Some((row, more)) => {
                let ghost above = if b0.rows.len() == 0 {
                    Seq::empty()
                } else {
                    b0.rows.last()
                };
                let sorted = if rows.len() == 0 {
                    let none: Vec<ConceptNode> = Vec::new();
                    assert(nodes_view(none@) =~= above);
                    order_row(&none, &row)
                } else {
                    assert(grid_view(rows@).last() == nodes_view(rows@[rows@.len() - 1]@));
                    order_row(&rows[rows.len() - 1], &row)
                };
                let ghost before = grid_view(rows@);
                rows.push(sorted);
                assert(grid_view(rows@) =~= before.push(nodes_view(sorted@)));
                extras = more;
            },
        }
        n += 1;
    }
    let last = real_row(edges, &layers[layers.len() - 1]);
    let ghost before = grid_view(rows@);
    rows.push(last);
    let m = ConceptMap { rows };
    proof {
        assert(lv.last() == layers@[layers@.len() - 1]@);
        assert(m@ =~= before.push(nodes_view(last@)));
        assert(m@ == materialized(lv, edges@, first as int));
        lemma_materialized_counts(lv, edges@, first as int);
        assert forall|i: int| 0 <= i < layers@.len() implies #[trigger] lv[i] == layers@[i]@ by {}
        if layered(lv, edges@, first as int) {
            lemma_materialized(lv, edges@, first as int);
        }
    }
    Some(m)
}

/// The rows as sequences of plain identifiers.
pub fn plain_layers(layers: &Vec<Vec<ConceptID>>) -> (out: Vec<Vec<usize>>)
    ensures
        rows_view(out@) == row_ids(layers@),
{
    let mut out: Vec<Vec<usize>> = Vec::new();
    let mut r: usize = 0;
    while r < layers.len()
        invariant
            r <= layers.len(),
            out@.len() == r,
            forall|j: int| 0 <= j < r ==> (#[trigger] out@[j])@ == row_ids(layers@)[j],
        decreases layers.len() - r,
    {
        let mut row: Vec<usize> = Vec::new();
        let mut k: usize = 0;
        while k < layers[r].len()
            invariant
                r < layers.len(),
                k <= layers@[r as int]@.len(),
                row@.len() == k,
                forall|h: int| 0 <= h < k ==> row@[h] == (#[trigger] layers@[r as int]@[h]).0,
            decreases layers@[r as int]@.len() - k,
        {
            row.push(layers[r][k].0);
            k += 1;
        }
        assert(row@ =~= row_ids(layers@)[r as int]);
        out.push(row);
        r += 1;
    }
    assert(rows_view(out@) =~= row_ids(layers@));
    out
}

impl ConceptMap {
    /// The grid that is drawn for `layers`, the rows of the concepts that
    /// `edges` (prerequisite, dependent) connect: an edge that would skip a row
    /// is led through pass-through nodes, and each row but the last is put in
    /// the order of where the parents of its nodes stand in the row above. The
    /// pass-through nodes get the identifiers from `first_fake` on. Returns
    /// nothing where these run out.
    pub fn materialize(
        layers: &Vec<Vec<ConceptID>>,
        edges: &Vec<(ConceptID, ConceptID)>,
        first_fake: usize,
    ) -> (out: Option<ConceptMap>)
        ensures
            match out {
                Some(m) => {
                    &&& m@ == materialized(row_ids(layers@), edge_ids(edges@), first_fake as int)
                    &&& free_after(row_ids(layers@), edge_ids(edges@), first_fake as int)
                        <= usize::MAX
                    &&& plain_rows(m.rows@)
                    &&& m@.len() == layers@.len()
                    &&& forall|i: int|
                        0 <= i < layers@.len() ==> real_count(#[trigger] m@[i])
                            == layers@[i]@.len()
                    &&& forall|i: int|
                        0 <= i < layers@.len() ==> concepts_from(
                            #[trigger] m@[i],
                            row_ids(layers@)[i],
                        )
                    &&& forall|i: int|
                        0 <= i < layers@.len() ==> holds_layer(
                            #[trigger] m@[i],
                            row_ids(layers@)[i],
                        )
                    &&& layered(row_ids(layers@), edge_ids(edges@), first_fake as int)
                        ==> adjacent(m@) && unique_ids(m@)
                },
                None => free_after(row_ids(layers@), edge_ids(edges@), first_fake as int)
                    > usize::MAX,
            },
    {
        let raw_layers = plain_layers(layers);
        let raw_edges = plain_edges(edges);
        let out = materialize_rows(&raw_layers, &raw_edges, first_fake);
        proof {
            assert forall|i: int| 0 <= i < layers@.len() implies raw_layers@[i]@.len()
                == layers@[i]@.len() by {
                assert(rows_view(raw_layers@)[i] == row_ids(layers@)[i]);
            }
            if out is Some {
                let m = out->0;
                assert forall|i: int| 0 <= i < layers@.len() implies concepts_from(
                    #[trigger] m@[i],
                    row_ids(layers@)[i],
                ) && holds_layer(m@[i], row_ids(layers@)[i]) by {
                    assert(rows_view(raw_layers@)[i] == row_ids(layers@)[i]);
                    assert(concepts_from(m@[i], raw_layers@[i]@));
                    assert(holds_layer(m@[i], raw_layers@[i]@));
                }
            }
        }
        out
    }
}

} // verus!
