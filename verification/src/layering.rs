//! Assigning the nodes of the prerequisite graph to rows of bounded width.
//!
//! The nodes are first put into one sequence in which every node follows all
//! of its prerequisites, and the sequence is then packed into rows. What cannot
//! be sequenced (the nodes on or behind a cycle) ends up in rows of its own.

use crate::graph::{
    acyclic, ascending, children, descendants, is_edge, is_node, lemma_children_members,
    lemma_parents_members, parents, ranks_rise, Adjacency,
};
use crate::ids::ConceptID;
use std::collections::BTreeMap;
use vstd::prelude::*;

verus! {

/// `s` lists the nodes of `edges`, ascending.
pub open spec fn lists_nodes(edges: Seq<(usize, usize)>, s: Seq<usize>) -> bool {
    ascending(s) && forall|n: usize| s.contains(n) <==> is_node(edges, n)
}

/// The nodes of `edges`, ascending.
pub open spec fn node_seq(edges: Seq<(usize, usize)>) -> Seq<usize> {
    choose|s: Seq<usize>| lists_nodes(edges, s)
}

/// Where `p` stands in `order`.
pub open spec fn position(order: Seq<usize>, p: usize) -> int {
    choose|i: int| 0 <= i < order.len() && order[i] == p
}

/// How long `p` has been waiting: the number of nodes sequenced since `p`,
/// `p` included; 0 while `p` is not sequenced.
pub open spec fn wait(order: Seq<usize>, p: usize) -> int {
    if order.contains(p) {
        order.len() - position(order, p)
    } else {
        0
    }
}

/// The longest wait among `ps`; 0 for none.
pub open spec fn max_wait(order: Seq<usize>, ps: Seq<usize>) -> int
    decreases ps.len(),
{
    if ps.len() == 0 {
        0
    } else {
        let m = max_wait(order, ps.drop_last());
        let w = wait(order, ps.last());
        if w > m {
            w
        } else {
            m
        }
    }
}

/// The longest wait among the prerequisites of those of `ids` that are in `ds`.
pub open spec fn group_wait(
    edges: Seq<(usize, usize)>,
    order: Seq<usize>,
    ds: Set<usize>,
    ids: Seq<usize>,
) -> int
    decreases ids.len(),
{
    if ids.len() == 0 {
        0
    } else {
        let m = group_wait(edges, order, ds, ids.drop_last());
        let w = max_wait(order, parents(edges, ids.last()));
        if ds.contains(ids.last()) && w > m {
            w
        } else {
            m
        }
    }
}

/// The urgency of `c`: the lower, the sooner it is sequenced. The wait of its
/// own prerequisites counts sixteen times, that of its descendants'
/// prerequisites once.
pub open spec fn urgency(
    edges: Seq<(usize, usize)>,
    ids: Seq<usize>,
    order: Seq<usize>,
    c: usize,
) -> int {
    -(16 * max_wait(order, parents(edges, c)) + group_wait(
        edges,
        order,
        descendants(edges, c),
        ids,
    ))
}

/// Every prerequisite of `c` is sequenced.
pub open spec fn eligible(edges: Seq<(usize, usize)>, order: Seq<usize>, c: usize) -> bool {
    forall|p: usize| is_edge(edges, p, c) ==> order.contains(p)
}

/// Among the first `n` of `remaining`: the index of the first eligible node of
/// least urgency.
pub open spec fn pick_upto(
    edges: Seq<(usize, usize)>,
    ids: Seq<usize>,
    order: Seq<usize>,
    remaining: Seq<usize>,
    n: int,
) -> Option<int>
    decreases n,
{
    if n <= 0 {
        None
    } else {
        let before = pick_upto(edges, ids, order, remaining, n - 1);
        let c = remaining[n - 1];
        if !eligible(edges, order, c) {
            before
        } else {
            match before {
                None => Some(n - 1),
                Some(b) => if urgency(edges, ids, order, c) < urgency(
                    edges,
                    ids,
                    order,
                    remaining[b],
                ) {
                    Some(n - 1)
                } else {
                    Some(b)
                },
            }
        }
    }
}

/// Among the first `n` of `ids`: the index of the first node without
/// prerequisites that has the most descendants.
pub open spec fn seed_upto(edges: Seq<(usize, usize)>, ids: Seq<usize>, n: int) -> Option<int>
    decreases n,
{
    if n <= 0 {
        None
    } else {
        let before = seed_upto(edges, ids, n - 1);
        let c = ids[n - 1];
        if parents(edges, c).len() > 0 {
            before
        } else {
            match before {
                None => Some(n - 1),
                Some(b) => if descendants(edges, c).len() > descendants(edges, ids[b]).len() {
                    Some(n - 1)
                } else {
                    Some(b)
                },
            }
        }
    }
}

/// Sequences what can be sequenced of `remaining` after `order`: the final
/// order, and what is left over.
pub open spec fn sequenced(
    edges: Seq<(usize, usize)>,
    ids: Seq<usize>,
    order: Seq<usize>,
    remaining: Seq<usize>,
) -> (Seq<usize>, Seq<usize>)
    decreases remaining.len(),
{
    match pick_upto(edges, ids, order, remaining, remaining.len() as int) {
        Some(k) if 0 <= k < remaining.len() => sequenced(
            edges,
            ids,
            order.push(remaining[k]),
            remaining.remove(k),
        ),
        _ => (order, remaining),
    }
}

/// The order in which the nodes `ids` are sequenced, and the nodes that
/// cannot be.
pub open spec fn sequence(edges: Seq<(usize, usize)>, ids: Seq<usize>) -> (
    Seq<usize>,
    Seq<usize>,
) {
    match seed_upto(edges, ids, ids.len() as int) {
        Some(s) if 0 <= s < ids.len() => sequenced(edges, ids, seq![ids[s]], ids.remove(s)),
        _ => (Seq::empty(), ids),
    }
}

/// Some node of `row` is a prerequisite of `c`.
pub open spec fn blocks(edges: Seq<(usize, usize)>, row: Seq<usize>, c: usize) -> bool {
    exists|k: int| 0 <= k < row.len() && is_edge(edges, #[trigger] row[k], c)
}

/// The row that takes `c`: one of the last two, or a new one (`rows.len()`).
///
/// The last row takes it unless that row holds a prerequisite of `c` or is
/// full. A node without dependents moves one row further up where that row has
/// room and holds no prerequisite of it.
pub open spec fn slot(
    edges: Seq<(usize, usize)>,
    rows: Seq<Seq<usize>>,
    c: usize,
    max_width: usize,
) -> int {
    let n = rows.len() as int;
    if n == 0 || blocks(edges, rows[n - 1], c) || rows[n - 1].len() >= max_width {
        n
    } else if children(edges, c).len() > 0 || n == 1 || blocks(edges, rows[n - 2], c) || rows[n
        - 2].len() >= max_width {
        n - 1
    } else {
        n - 2
    }
}

/// `rows` with `c` in its slot.
pub open spec fn placed(
    edges: Seq<(usize, usize)>,
    rows: Seq<Seq<usize>>,
    c: usize,
    max_width: usize,
) -> Seq<Seq<usize>> {
    let t = slot(edges, rows, c, max_width);
    if t == rows.len() {
        rows.push(seq![c])
    } else {
        rows.update(t, rows[t].push(c))
    }
}

/// The rows that come of placing the nodes of `order` one after the other.
pub open spec fn packed(edges: Seq<(usize, usize)>, order: Seq<usize>, max_width: usize) -> Seq<
    Seq<usize>,
>
    decreases order.len(),
{
    if order.len() == 0 {
        Seq::empty()
    } else {
        placed(edges, packed(edges, order.drop_last(), max_width), order.last(), max_width)
    }
}

/// One row for each node.
pub open spec fn singles(s: Seq<usize>) -> Seq<Seq<usize>> {
    Seq::new(s.len(), |i: int| seq![s[i]])
}

/// The rows of the layered graph.
pub open spec fn layering(edges: Seq<(usize, usize)>, max_width: usize) -> Seq<Seq<usize>> {
    let (order, rest) = sequence(edges, node_seq(edges));
    packed(edges, order, max_width) + singles(rest)
}

/// `n` stands in some row.
pub open spec fn holds(rows: Seq<Seq<usize>>, n: usize) -> bool {
    exists|r: int, k: int| 0 <= r < rows.len() && 0 <= k < rows[r].len() && rows[r][k] == n
}

/// No node stands in two places.
pub open spec fn distinct(rows: Seq<Seq<usize>>) -> bool {
    forall|r1: int, k1: int, r2: int, k2: int|
        0 <= r1 < rows.len() && 0 <= k1 < rows[r1].len() && 0 <= r2 < rows.len() && 0 <= k2
            < rows[r2].len() && rows[r1][k1] == rows[r2][k2] ==> r1 == r2 && k1 == k2
}

/// Every edge between two nodes of `rows` leads to a later row.
pub open spec fn forward(rows: Seq<Seq<usize>>, edges: Seq<(usize, usize)>) -> bool {
    forall|r1: int, k1: int, r2: int, k2: int|
        0 <= r1 < rows.len() && 0 <= k1 < rows[r1].len() && 0 <= r2 < rows.len() && 0 <= k2
            < rows[r2].len() && is_edge(edges, rows[r1][k1], rows[r2][k2]) ==> r1 < r2
}

/// No row is empty, and none is wider than `max_width` (than 1, where
/// `max_width` is 0: a row holds at least the node it was opened for).
pub open spec fn within(rows: Seq<Seq<usize>>, max_width: usize) -> bool {
    forall|r: int|
        0 <= r < rows.len() ==> 1 <= (#[trigger] rows[r]).len() && (rows[r].len() <= max_width
            || rows[r].len() == 1)
}

/// Every prerequisite of a node of `order` stands before it in `order`.
pub open spec fn parents_first(edges: Seq<(usize, usize)>, order: Seq<usize>) -> bool {
    forall|i: int, p: usize|
        0 <= i < order.len() && #[trigger] is_edge(edges, p, order[i]) ==> exists|h: int|
            0 <= h < i && order[h] == p
}

/// `order` and `rest` share the nodes `ids` between them.
pub open spec fn shares(ids: Seq<usize>, order: Seq<usize>, rest: Seq<usize>) -> bool {
    &&& order.no_duplicates()
    &&& rest.no_duplicates()
    &&& forall|i: int, j: int| 0 <= i < order.len() && 0 <= j < rest.len() ==> order[i] != rest[j]
    &&& forall|n: usize| ids.contains(n) <==> (order.contains(n) || rest.contains(n))
}

/// Two ascending sequences with the same members are the same sequence.
pub proof fn lemma_ascending_unique(a: Seq<usize>, b: Seq<usize>)
    requires
        ascending(a),
        ascending(b),
        forall|n: usize| a.contains(n) <==> b.contains(n),
    ensures
        a == b,
    decreases a.len(),
{
    if a.len() == 0 {
        if b.len() > 0 {
            assert(b.contains(b[0]));
        }
        assert(a =~= b);
    } else {
        assert(a.contains(a.last()));
        let kb = choose|k: int| 0 <= k < b.len() && b[k] == a.last();
        assert(b.contains(b.last()));
        let ka = choose|k: int| 0 <= k < a.len() && a[k] == b.last();
        assert(a.last() == b.last());
        let a1 = a.drop_last();
        let b1 = b.drop_last();
        assert forall|n: usize| a1.contains(n) <==> b1.contains(n) by {
            if a1.contains(n) {
                let k = choose|k: int| 0 <= k < a1.len() && a1[k] == n;
                assert(a[k] == n);
                assert(a.contains(n));
                let j = choose|j: int| 0 <= j < b.len() && b[j] == n;
                assert(j < b.len() - 1);
                assert(b1[j] == n);
            }
            if b1.contains(n) {
                let k = choose|k: int| 0 <= k < b1.len() && b1[k] == n;
                assert(b[k] == n);
                assert(b.contains(n));
                let j = choose|j: int| 0 <= j < a.len() && a[j] == n;
                assert(j < a.len() - 1);
                assert(a1[j] == n);
            }
        }
        lemma_ascending_unique(a1, b1);
        assert(a =~= a1.push(a.last()));
        assert(b =~= b1.push(b.last()));
    }
}

/// An ascending list of the nodes is `node_seq`.
pub proof fn lemma_node_seq(edges: Seq<(usize, usize)>, s: Seq<usize>)
    requires
        lists_nodes(edges, s),
    ensures
        s == node_seq(edges),
{
    let t = node_seq(edges);
    assert(lists_nodes(edges, t));
    lemma_ascending_unique(s, t);
}

/// What `pick_upto` returns is an eligible node, and it returns one where
/// there is one.
pub proof fn lemma_pick_upto(
    edges: Seq<(usize, usize)>,
    ids: Seq<usize>,
    order: Seq<usize>,
    remaining: Seq<usize>,
    n: int,
)
    requires
        0 <= n <= remaining.len(),
    ensures
        match pick_upto(edges, ids, order, remaining, n) {
            Some(k) => 0 <= k < n && eligible(edges, order, remaining[k]),
            None => forall|j: int| 0 <= j < n ==> !eligible(edges, order, #[trigger] remaining[j]),
        },
    decreases n,
{
    if n > 0 {
        lemma_pick_upto(edges, ids, order, remaining, n - 1);
    }
}

/// What `seed_upto` returns is a node without prerequisites, and it returns
/// one where there is one.
pub proof fn lemma_seed_upto(edges: Seq<(usize, usize)>, ids: Seq<usize>, n: int)
    requires
        0 <= n <= ids.len(),
    ensures
        match seed_upto(edges, ids, n) {
            Some(k) => 0 <= k < n && parents(edges, ids[k]).len() == 0,
            None => forall|j: int| 0 <= j < n ==> parents(edges, #[trigger] ids[j]).len() > 0,
        },
    decreases n,
{
    if n > 0 {
        lemma_seed_upto(edges, ids, n - 1);
    }
}

/// One step of sequencing: moving an eligible node from the rest to the end of
/// the order keeps the nodes shared out and prerequisites first.
pub proof fn lemma_sequence_step(
    edges: Seq<(usize, usize)>,
    ids: Seq<usize>,
    order: Seq<usize>,
    remaining: Seq<usize>,
    k: int,
)
    requires
        shares(ids, order, remaining),
        parents_first(edges, order),
        0 <= k < remaining.len(),
        eligible(edges, order, remaining[k]),
    ensures
        shares(ids, order.push(remaining[k]), remaining.remove(k)),
        parents_first(edges, order.push(remaining[k])),
        !order.contains(remaining[k]),
{
    let c = remaining[k];
    let order1 = order.push(c);
    let rest1 = remaining.remove(k);
    assert(!order.contains(c));
    assert forall|i: int, j: int|
        0 <= i < order1.len() && 0 <= j < order1.len() && i != j implies order1[i]
        != order1[j] by {
        if i == order.len() {
            assert(order.contains(order[j]));
        }
        if j == order.len() {
            assert(order.contains(order[i]));
        }
    }
    assert forall|i: int, j: int| 0 <= i < order1.len() && 0 <= j < rest1.len() implies order1[i]
        != rest1[j] by {
        if j < k {
            assert(rest1[j] == remaining[j]);
        } else {
            assert(rest1[j] == remaining[j + 1]);
        }
    }
    assert forall|n: usize| ids.contains(n) <==> (order1.contains(n) || rest1.contains(n)) by {
        if order1.contains(n) {
            let i = choose|i: int| 0 <= i < order1.len() && order1[i] == n;
            if i < order.len() {
                assert(order[i] == n);
                assert(order.contains(n));
            } else {
                assert(remaining.contains(n));
            }
        }
        if rest1.contains(n) {
            let j = choose|j: int| 0 <= j < rest1.len() && rest1[j] == n;
            if j < k {
                assert(remaining[j] == n);
            } else {
                assert(remaining[j + 1] == n);
            }
            assert(remaining.contains(n));
        }
        if order.contains(n) {
            let i = choose|i: int| 0 <= i < order.len() && order[i] == n;
            assert(order1[i] == n);
        }
        if remaining.contains(n) {
            let j = choose|j: int| 0 <= j < remaining.len() && remaining[j] == n;
            if j < k {
                assert(rest1[j] == n);
            } else if j == k {
                assert(order1[order.len() as int] == n);
            } else {
                assert(rest1[j - 1] == n);
            }
        }
    }
    assert(rest1.no_duplicates()) by {
        assert forall|i: int, j: int|
            0 <= i < rest1.len() && 0 <= j < rest1.len() && i != j implies rest1[i] != rest1[j] by {
            let i0 = if i < k { i } else { i + 1 };
            let j0 = if j < k { j } else { j + 1 };
            assert(rest1[i] == remaining[i0]);
            assert(rest1[j] == remaining[j0]);
        }
    }
    assert(parents_first(edges, order1)) by {
        assert forall|i: int, p: usize|
            0 <= i < order1.len() && #[trigger] is_edge(edges, p, order1[i]) implies exists|h: int|
            0 <= h < i && order1[h] == p by {
            if i < order.len() {
                assert(is_edge(edges, p, order[i]));
                let h = choose|h: int| 0 <= h < i && order[h] == p;
                assert(order1[h] == p);
            } else {
                assert(order.contains(p));
                let h = choose|h: int| 0 <= h < order.len() && order[h] == p;
                assert(order1[h] == p);
            }
        }
    }
}

/// Sequencing keeps the nodes shared out between the order and the rest, keeps
/// prerequisites first, and stops only where nothing of the rest is eligible.
pub proof fn lemma_sequenced(
    edges: Seq<(usize, usize)>,
    ids: Seq<usize>,
    order: Seq<usize>,
    remaining: Seq<usize>,
)
    requires
        shares(ids, order, remaining),
        parents_first(edges, order),
    ensures
        ({
            let (o, r) = sequenced(edges, ids, order, remaining);
            &&& shares(ids, o, r)
            &&& parents_first(edges, o)
            &&& forall|j: int| 0 <= j < r.len() ==> !eligible(edges, o, #[trigger] r[j])
        }),
    decreases remaining.len(),
{
    lemma_pick_upto(edges, ids, order, remaining, remaining.len() as int);
    match pick_upto(edges, ids, order, remaining, remaining.len() as int) {
        Some(k) => {
            lemma_sequence_step(edges, ids, order, remaining, k);
            lemma_sequenced(edges, ids, order.push(remaining[k]), remaining.remove(k));
        },
        None => {},
    }
}

/// The seed alone, and the other nodes, share the nodes between them.
pub proof fn lemma_seed_shares(edges: Seq<(usize, usize)>, ids: Seq<usize>, s: int)
    requires
        ids.no_duplicates(),
        0 <= s < ids.len(),
        parents(edges, ids[s]).len() == 0,
    ensures
        shares(ids, seq![ids[s]], ids.remove(s)),
        parents_first(edges, seq![ids[s]]),
{
    let c = ids[s];
    let order = seq![c];
    let rest = ids.remove(s);
    lemma_parents_members(edges, c);
    assert(parents_first(edges, order)) by {
        assert forall|i: int, p: usize|
            0 <= i < order.len() && #[trigger] is_edge(edges, p, order[i]) implies exists|h: int|
            0 <= h < i && order[h] == p by {
            assert(parents(edges, c).contains(p));
        }
    }
    assert(rest.no_duplicates()) by {
        assert forall|i: int, j: int|
            0 <= i < rest.len() && 0 <= j < rest.len() && i != j implies rest[i] != rest[j] by {
            let i0 = if i < s { i } else { i + 1 };
            let j0 = if j < s { j } else { j + 1 };
            assert(rest[i] == ids[i0]);
            assert(rest[j] == ids[j0]);
        }
    }
    assert forall|i: int, j: int| 0 <= i < order.len() && 0 <= j < rest.len() implies order[i]
        != rest[j] by {
        let j0 = if j < s { j } else { j + 1 };
        assert(rest[j] == ids[j0]);
    }
    assert forall|n: usize| ids.contains(n) <==> (order.contains(n) || rest.contains(n)) by {
        if order.contains(n) {
            assert(ids[s] == n);
        }
        if rest.contains(n) {
            let j = choose|j: int| 0 <= j < rest.len() && rest[j] == n;
            let j0 = if j < s { j } else { j + 1 };
            assert(ids[j0] == n);
        }
        if ids.contains(n) {
            let j = choose|j: int| 0 <= j < ids.len() && ids[j] == n;
            if j < s {
                assert(rest[j] == n);
            } else if j == s {
                assert(order[0] == n);
            } else {
                assert(rest[j - 1] == n);
            }
        }
    }
}

/// `lemma_sequenced`, for the whole sequence.
pub proof fn lemma_sequence(edges: Seq<(usize, usize)>, ids: Seq<usize>)
    requires
        ids.no_duplicates(),
    ensures
        ({
            let (o, r) = sequence(edges, ids);
            &&& shares(ids, o, r)
            &&& parents_first(edges, o)
            &&& forall|j: int| 0 <= j < r.len() ==> !eligible(edges, o, #[trigger] r[j])
        }),
{
    lemma_seed_upto(edges, ids, ids.len() as int);
    match seed_upto(edges, ids, ids.len() as int) {
        Some(s) => {
            lemma_seed_shares(edges, ids, s);
            lemma_sequenced(edges, ids, seq![ids[s]], ids.remove(s));
        },
        None => {
            let o = Seq::<usize>::empty();
            assert forall|j: int| 0 <= j < ids.len() implies !eligible(edges, o, #[trigger] ids[j]) by {
                lemma_parents_members(edges, ids[j]);
                let p = parents(edges, ids[j])[0];
                assert(parents(edges, ids[j]).contains(p));
                assert(is_edge(edges, p, ids[j]));
                assert(!o.contains(p));
            }
        },
    }
}

/// Some member of a nonempty sequence has the lowest rank.
proof fn lemma_lowest_rank(s: Seq<usize>, rank: Map<usize, nat>) -> (k: int)
    requires
        s.len() > 0,
    ensures
        0 <= k < s.len(),
        forall|j: int| 0 <= j < s.len() ==> rank[s[k]] <= rank[#[trigger] s[j]],
    decreases s.len(),
{
    if s.len() == 1 {
        0
    } else {
        let k0 = lemma_lowest_rank(s.drop_last(), rank);
        let k = if rank[s.last()] < rank[s[k0]] {
            s.len() - 1
        } else {
            k0
        };
        assert forall|j: int| 0 <= j < s.len() implies rank[s[k]] <= rank[#[trigger] s[j]] by {
            if j < s.len() - 1 {
                assert(s.drop_last()[j] == s[j]);
            }
        }
        k
    }
}

/// Where some nodes are left and none of them is eligible, the edges hold a
/// cycle.
pub proof fn lemma_stuck_is_cyclic(
    edges: Seq<(usize, usize)>,
    order: Seq<usize>,
    rest: Seq<usize>,
)
    requires
        rest.len() > 0,
        forall|n: usize| is_node(edges, n) ==> order.contains(n) || rest.contains(n),
        forall|j: int| 0 <= j < rest.len() ==> !eligible(edges, order, #[trigger] rest[j]),
    ensures
        !acyclic(edges),
{
    if acyclic(edges) {
        let rank = choose|rank: Map<usize, nat>| ranks_rise(edges, rank);
        let k = lemma_lowest_rank(rest, rank);
        let c = rest[k];
        assert(!eligible(edges, order, c));
        let p = choose|p: usize| is_edge(edges, p, c) && !order.contains(p);
        let i = choose|i: int| 0 <= i < edges.len() && edges[i].0 == p && edges[i].1 == c;
        assert(is_node(edges, p));
        let j = choose|j: int| 0 <= j < rest.len() && rest[j] == p;
        assert(rank[edges[i].0] < rank[edges[i].1]);
        assert(rank[rest[k]] <= rank[rest[j]]);
    }
}

/// Packing puts every node of the order into exactly one row, behind the rows
/// of its prerequisites, and fills no row beyond the width.
pub proof fn lemma_packed(edges: Seq<(usize, usize)>, order: Seq<usize>, max_width: usize)
    requires
        order.no_duplicates(),
        parents_first(edges, order),
    ensures
        ({
            let rows = packed(edges, order, max_width);
            &&& distinct(rows)
            &&& forall|n: usize| holds(rows, n) <==> order.contains(n)
            &&& forward(rows, edges)
            &&& within(rows, max_width)
        }),
    decreases order.len(),
{
    if order.len() > 0 {
        let head = order.drop_last();
        let c = order.last();
        let last = order.len() - 1;
        assert(parents_first(edges, head)) by {
            assert forall|i: int, p: usize|
                0 <= i < head.len() && #[trigger] is_edge(edges, p, head[i]) implies exists|
                h: int,
            | 0 <= h < i && head[h] == p by {
                assert(is_edge(edges, p, order[i]));
                let h = choose|h: int| 0 <= h < i && order[h] == p;
                assert(head[h] == p);
            }
        }
        lemma_packed(edges, head, max_width);
        let prev = packed(edges, head, max_width);
        let rows = placed(edges, prev, c, max_width);
        let t = slot(edges, prev, c, max_width);
        let n = prev.len() as int;
        assert(!head.contains(c)) by {
            if head.contains(c) {
                let i = choose|i: int| 0 <= i < head.len() && head[i] == c;
                assert(order[i] == order[last]);
            }
        }
        assert(!holds(prev, c));
        let tk = rows[t].len() - 1;
        assert(rows[t][tk] == c);
        // every place of `rows` is a place of `prev`, or the new one
        assert forall|r: int, k: int| 0 <= r < rows.len() && 0 <= k < rows[r].len() implies (r == t
            && k == tk) || (r < n && k < prev[r].len() && prev[r][k] == #[trigger] rows[r][k]) by {}
        assert forall|r: int, k: int| 0 <= r < n && 0 <= k < prev[r].len() implies r < rows.len()
            && k < rows[r].len() && #[trigger] prev[r][k] == rows[r][k] && head.contains(
            prev[r][k],
        ) by {
            assert(holds(prev, prev[r][k]));
        }
        assert(distinct(rows)) by {
            assert forall|r1: int, k1: int, r2: int, k2: int|
                0 <= r1 < rows.len() && 0 <= k1 < rows[r1].len() && 0 <= r2 < rows.len() && 0
                    <= k2 < rows[r2].len() && rows[r1][k1] == rows[r2][k2] implies r1 == r2 && k1
                == k2 by {
                let new1 = r1 == t && k1 == tk;
                let new2 = r2 == t && k2 == tk;
                if new1 && !new2 {
                    assert(holds(prev, prev[r2][k2]));
                }
                if new2 && !new1 {
                    assert(holds(prev, prev[r1][k1]));
                }
            }
        }
        assert forall|v: usize| holds(rows, v) <==> order.contains(v) by {
            if holds(rows, v) {
                let (r, k) = choose|r: int, k: int|
                    0 <= r < rows.len() && 0 <= k < rows[r].len() && rows[r][k] == v;
                if r == t && k == tk {
                    assert(order[last] == v);
                } else {
                    assert(holds(prev, prev[r][k]));
                    let i = choose|i: int| 0 <= i < head.len() && head[i] == v;
                    assert(order[i] == v);
                }
            }
            if order.contains(v) {
                let i = choose|i: int| 0 <= i < order.len() && order[i] == v;
                if i == last {
                    assert(rows[t][tk] == v);
                } else {
                    assert(head[i] == v);
                    assert(head.contains(v));
                    assert(holds(prev, v));
                    let (r, k) = choose|r: int, k: int|
                        0 <= r < prev.len() && 0 <= k < prev[r].len() && prev[r][k] == v;
                    assert(rows[r][k] == v);
                }
            }
        }
        assert(within(rows, max_width));
        assert(forward(rows, edges)) by {
            assert forall|r1: int, k1: int, r2: int, k2: int|
                0 <= r1 < rows.len() && 0 <= k1 < rows[r1].len() && 0 <= r2 < rows.len() && 0
                    <= k2 < rows[r2].len() && is_edge(edges, rows[r1][k1], rows[r2][k2]) implies r1
                < r2 by {
                let new1 = r1 == t && k1 == tk;
                let new2 = r2 == t && k2 == tk;
                if new1 {
                    // an edge out of the new node: its dependent would follow it in the order
                    let y = rows[r2][k2];
                    assert(order.contains(y));
                    let i = choose|i: int| 0 <= i < order.len() && order[i] == y;
                    assert(is_edge(edges, c, order[i]));
                    let h = choose|h: int| 0 <= h < i && order[h] == c;
                    assert(order[h] == order[last]);
                    assert(false);
                } else if new2 {
                    let x = prev[r1][k1];
                    if r1 == n - 1 {
                        assert(is_edge(edges, prev[n - 1][k1], c));
                        assert(blocks(edges, prev[n - 1], c));
                    }
                    if r1 == n - 2 && t == n - 2 {
                        assert(is_edge(edges, prev[n - 2][k1], c));
                        assert(blocks(edges, prev[n - 2], c));
                    }
                } else {
                    assert(is_edge(edges, prev[r1][k1], prev[r2][k2]));
                }
            }
        }
    }
}

/// What holds of the layering: every node stands in exactly one row, no row
/// is empty or wider than allowed, and unless the edges hold a cycle every
/// edge leads to a later row.
pub proof fn lemma_layering(edges: Seq<(usize, usize)>, ids: Seq<usize>, max_width: usize)
    requires
        lists_nodes(edges, ids),
    ensures
        ({
            let rows = layering(edges, max_width);
            &&& distinct(rows)
            &&& forall|n: usize| holds(rows, n) <==> is_node(edges, n)
            &&& within(rows, max_width)
            &&& acyclic(edges) ==> forward(rows, edges)
        }),
{
    lemma_node_seq(edges, ids);
    lemma_sequence(edges, ids);
    let (o, r) = sequence(edges, ids);
    lemma_packed(edges, o, max_width);
    let body = packed(edges, o, max_width);
    let tail = singles(r);
    let rows = body + tail;
    let m = body.len() as int;
    assert(rows == layering(edges, max_width));
    assert forall|i: int, k: int| 0 <= i < rows.len() && 0 <= k < rows[i].len() implies (i < m
        && #[trigger] rows[i][k] == body[i][k] && o.contains(body[i][k])) || (i >= m && k == 0
        && rows[i][k] == r[i - m]) by {
        if i < m {
            assert(holds(body, body[i][k]));
        }
    }
    assert(distinct(rows)) by {
        assert forall|r1: int, k1: int, r2: int, k2: int|
            0 <= r1 < rows.len() && 0 <= k1 < rows[r1].len() && 0 <= r2 < rows.len() && 0 <= k2
                < rows[r2].len() && rows[r1][k1] == rows[r2][k2] implies r1 == r2 && k1 == k2 by {
            if r1 < m && r2 >= m {
                let i = choose|i: int| 0 <= i < o.len() && o[i] == body[r1][k1];
                assert(o[i] != r[r2 - m]);
            }
            if r2 < m && r1 >= m {
                let i = choose|i: int| 0 <= i < o.len() && o[i] == body[r2][k2];
                assert(o[i] != r[r1 - m]);
            }
        }
    }
    assert forall|v: usize| holds(rows, v) <==> is_node(edges, v) by {
        if holds(rows, v) {
            let (i, k) = choose|i: int, k: int|
                0 <= i < rows.len() && 0 <= k < rows[i].len() && rows[i][k] == v;
            if i >= m {
                assert(r[i - m] == v);
                assert(r.contains(v));
            }
            assert(ids.contains(v));
        }
        if is_node(edges, v) {
            assert(ids.contains(v));
            if o.contains(v) {
                assert(holds(body, v));
                let (i, k) = choose|i: int, k: int|
                    0 <= i < body.len() && 0 <= k < body[i].len() && body[i][k] == v;
                assert(rows[i][k] == v);
            } else {
                let j = choose|j: int| 0 <= j < r.len() && r[j] == v;
                assert(rows[m + j][0] == v);
            }
        }
    }
    assert(within(rows, max_width)) by {
        assert forall|i: int| 0 <= i < rows.len() implies 1 <= (#[trigger] rows[i]).len() && (
        rows[i].len() <= max_width || rows[i].len() == 1) by {
            if i < m {
                assert(rows[i] == body[i]);
            }
        }
    }
    if acyclic(edges) {
        if r.len() > 0 {
            lemma_stuck_is_cyclic(edges, o, r);
        }
        assert(rows =~= body);
    }
}

/// `pos` gives each node of `order` its position, and holds nothing else.
pub open spec fn tracks(pos: Map<usize, usize>, order: Seq<usize>) -> bool {
    &&& forall|i: int|
        0 <= i < order.len() ==> pos.contains_key(#[trigger] order[i]) && pos[order[i]] == i
    &&& forall|n: usize| #[trigger]
        pos.contains_key(n) ==> 0 <= pos[n] < order.len() && order[pos[n] as int] == n
}

/// The rows as sequences.
pub open spec fn rows_view(rows: Seq<Vec<usize>>) -> Seq<Seq<usize>> {
    Seq::new(rows.len(), |i: int| rows[i]@)
}

fn wait_of(pos: &BTreeMap<usize, usize>, n: usize, p: usize, Ghost(order): Ghost<Seq<usize>>) -> (w:
    usize)
    requires
        tracks(pos@, order),
        n == order.len(),
    ensures
        w == wait(order, p),
{
    match pos.get(&p) {
        Some(i) => {
            proof {
                assert(order[*i as int] == p);
                let q = position(order, p);
                assert(pos@[order[q]] == q);
            }
            n - *i
        },
        None => {
            proof {
                if order.contains(p) {
                    let i = choose|i: int| 0 <= i < order.len() && order[i] == p;
                    assert(pos@.contains_key(order[i]));
                }
            }
            0
        },
    }
}

fn max_wait_of(
    pos: &BTreeMap<usize, usize>,
    n: usize,
    ps: &Vec<usize>,
    Ghost(order): Ghost<Seq<usize>>,
) -> (m: usize)
    requires
        tracks(pos@, order),
        n == order.len(),
    ensures
        m == max_wait(order, ps@),
{
    let mut m: usize = 0;
    let mut i: usize = 0;
    while i < ps.len()
        invariant
            i <= ps.len(),
            tracks(pos@, order),
            n == order.len(),
            m == max_wait(order, ps@.take(i as int)),
        decreases ps.len() - i,
    {
        assert(ps@.take(i + 1).drop_last() == ps@.take(i as int));
        let w = wait_of(pos, n, ps[i], Ghost(order));
        if w > m {
            m = w;
        }
        i += 1;
    }
    assert(ps@.take(i as int) == ps@);
    m
}

fn parent_wait_of(
    t: &Adjacency,
    pos: &BTreeMap<usize, usize>,
    n: usize,
    c: usize,
    Ghost(edges): Ghost<Seq<(usize, usize)>>,
    Ghost(order): Ghost<Seq<usize>>,
) -> (m: usize)
    requires
        t.wf(edges),
        tracks(pos@, order),
        n == order.len(),
        is_node(edges, c),
    ensures
        m == max_wait(order, parents(edges, c)),
{
    match t.pars.get(&c) {
        Some(ps) => max_wait_of(pos, n, ps, Ghost(order)),
        None => 0,
    }
}

fn urgency_of(
    t: &Adjacency,
    pos: &BTreeMap<usize, usize>,
    n: usize,
    c: usize,
    Ghost(edges): Ghost<Seq<(usize, usize)>>,
    Ghost(order): Ghost<Seq<usize>>,
) -> (u: i128)
    requires
        t.wf(edges),
        tracks(pos@, order),
        n == order.len(),
        is_node(edges, c),
    ensures
        u == urgency(edges, t.ids@, order, c),
{
    let own = parent_wait_of(t, pos, n, c, Ghost(edges), Ghost(order));
    let mut far: usize = 0;
    match t.desc.get(&c) {
        Some(ds) => {
            let mut j: usize = 0;
            while j < t.ids.len()
                invariant
                    j <= t.ids.len(),
                    t.wf(edges),
                    tracks(pos@, order),
                    n == order.len(),
                    ds@ == descendants(edges, c),
                    far == group_wait(edges, order, ds@, t.ids@.take(j as int)),
                decreases t.ids.len() - j,
            {
                assert(t.ids@.take(j + 1).drop_last() == t.ids@.take(j as int));
                let cc = t.ids[j];
                assert(t.ids@.contains(cc));
                assert(is_node(edges, cc));
                if ds.contains(&cc) {
                    let w = parent_wait_of(t, pos, n, cc, Ghost(edges), Ghost(order));
                    if w > far {
                        far = w;
                    }
                }
                j += 1;
            }
            assert(t.ids@.take(j as int) == t.ids@);
        },
        None => {},
    }
    -(16 * (own as i128) + (far as i128))
}

fn is_eligible(
    t: &Adjacency,
    pos: &BTreeMap<usize, usize>,
    c: usize,
    Ghost(edges): Ghost<Seq<(usize, usize)>>,
    Ghost(order): Ghost<Seq<usize>>,
) -> (b: bool)
    requires
        t.wf(edges),
        tracks(pos@, order),
        is_node(edges, c),
    ensures
        b == eligible(edges, order, c),
{
    proof {
        lemma_parents_members(edges, c);
    }
    match t.pars.get(&c) {
        Some(ps) => {
            let mut i: usize = 0;
            while i < ps.len()
                invariant
                    i <= ps.len(),
                    tracks(pos@, order),
                    ps@ == parents(edges, c),
                    forall|p: usize| parents(edges, c).contains(p) <==> is_edge(edges, p, c),
                    forall|h: int| 0 <= h < i ==> order.contains(#[trigger] ps@[h]),
                decreases ps.len() - i,
            {
                if !pos.contains_key(&ps[i]) {
                    proof {
                        let p = ps@[i as int];
                        assert(ps@.contains(p));
                        assert(is_edge(edges, p, c));
                        if order.contains(p) {
                            let h = choose|h: int| 0 <= h < order.len() && order[h] == p;
                            assert(pos@.contains_key(order[h]));
                        }
                    }
                    return false;
                }
                proof {
                    let p = ps@[i as int];
                    assert(order[pos@[p] as int] == p);
                }
                i += 1;
            }
            proof {
                assert forall|p: usize| is_edge(edges, p, c) implies order.contains(p) by {
                    assert(ps@.contains(p));
                    let h = choose|h: int| 0 <= h < ps@.len() && ps@[h] == p;
                    assert(order.contains(ps@[h]));
                }
            }
            true
        },
        None => true,
    }
}

fn pick(
    t: &Adjacency,
    pos: &BTreeMap<usize, usize>,
    n: usize,
    remaining: &Vec<usize>,
    Ghost(edges): Ghost<Seq<(usize, usize)>>,
    Ghost(order): Ghost<Seq<usize>>,
) -> (r: Option<usize>)
    requires
        t.wf(edges),
        tracks(pos@, order),
        n == order.len(),
        forall|j: int| 0 <= j < remaining.len() ==> is_node(edges, #[trigger] remaining@[j]),
    ensures
        match r {
            Some(k) => pick_upto(edges, t.ids@, order, remaining@, remaining.len() as int) == Some(
                k as int,
            ),
            None => pick_upto(edges, t.ids@, order, remaining@, remaining.len() as int) is None,
        },
{
    let mut best: Option<usize> = None;
    let mut best_u: i128 = 0;
    let mut i: usize = 0;
    while i < remaining.len()
        invariant
            i <= remaining.len(),
            t.wf(edges),
            tracks(pos@, order),
            n == order.len(),
            forall|j: int| 0 <= j < remaining.len() ==> is_node(edges, #[trigger] remaining@[j]),
            match best {
                Some(b) => pick_upto(edges, t.ids@, order, remaining@, i as int) == Some(b as int)
                    && b < i && best_u == urgency(edges, t.ids@, order, remaining@[b as int]),
                None => pick_upto(edges, t.ids@, order, remaining@, i as int) is None,
            },
        decreases remaining.len() - i,
    {
        let c = remaining[i];
        if is_eligible(t, pos, c, Ghost(edges), Ghost(order)) {
            let u = urgency_of(t, pos, n, c, Ghost(edges), Ghost(order));
            match best {
                None => {
                    best = Some(i);
                    best_u = u;
                },
                Some(_) => {
                    if u < best_u {
                        best = Some(i);
                        best_u = u;
                    }
                },
            }
        }
        i += 1;
    }
    best
}

fn seed(t: &Adjacency, Ghost(edges): Ghost<Seq<(usize, usize)>>) -> (r: Option<usize>)
    requires
        t.wf(edges),
    ensures
        match r {
            Some(k) => seed_upto(edges, t.ids@, t.ids@.len() as int) == Some(k as int),
            None => seed_upto(edges, t.ids@, t.ids@.len() as int) is None,
        },
{
    let mut best: Option<usize> = None;
    let mut best_d: usize = 0;
    let mut i: usize = 0;
    while i < t.ids.len()
        invariant
            i <= t.ids.len(),
            t.wf(edges),
            match best {
                Some(b) => seed_upto(edges, t.ids@, i as int) == Some(b as int) && b < i && best_d
                    == descendants(edges, t.ids@[b as int]).len(),
                None => seed_upto(edges, t.ids@, i as int) is None,
            },
        decreases t.ids.len() - i,
    {
        let c = t.ids[i];
        assert(t.ids@.contains(c));
        assert(is_node(edges, c));
        let no_parents = match t.pars.get(&c) {
            Some(ps) => ps.len() == 0,
            None => true,
        };
        if no_parents {
            let d = match t.desc.get(&c) {
                Some(ds) => ds.len(),
                None => 0,
            };
            match best {
                None => {
                    best = Some(i);
                    best_d = d;
                },
                Some(_) => {
                    if d > best_d {
                        best = Some(i);
                        best_d = d;
                    }
                },
            }
        }
        i += 1;
    }
    best
}

fn sequence_nodes(t: &Adjacency, Ghost(edges): Ghost<Seq<(usize, usize)>>) -> (r: (
    Vec<usize>,
    Vec<usize>,
))
    requires
        t.wf(edges),
    ensures
        (r.0@, r.1@) == sequence(edges, t.ids@),
{
    let mut remaining = t.ids.clone();
    assert(remaining@ == t.ids@);
    let mut order: Vec<usize> = Vec::new();
    let mut pos: BTreeMap<usize, usize> = BTreeMap::new();
    match seed(t, Ghost(edges)) {
        None => {},
        Some(s) => {
            proof {
                lemma_seed_upto(edges, t.ids@, t.ids@.len() as int);
                lemma_seed_shares(edges, t.ids@, s as int);
            }
            let c = remaining.remove(s);
            pos.insert(c, 0);
            order.push(c);
            assert(order@ == seq![c]);
            let ghost order0 = order@;
            let ghost rest0 = remaining@;
            let mut done = false;
            while !done
                invariant
                    t.wf(edges),
                    shares(t.ids@, order@, remaining@),
                    parents_first(edges, order@),
                    tracks(pos@, order@),
                    sequenced(edges, t.ids@, order@, remaining@) == sequenced(
                        edges,
                        t.ids@,
                        order0,
                        rest0,
                    ),
                    done ==> pick_upto(
                        edges,
                        t.ids@,
                        order@,
                        remaining@,
                        remaining@.len() as int,
                    ) is None,
                decreases remaining.len() + (if done { 0int } else { 1int }),
            {
                assert forall|j: int| 0 <= j < remaining.len() implies is_node(
                    edges,
                    #[trigger] remaining@[j],
                ) by {
                    assert(remaining@.contains(remaining@[j]));
                }
                match pick(t, &pos, order.len(), &remaining, Ghost(edges), Ghost(order@)) {
                    None => {
                        done = true;
                    },
                    Some(k) => {
                        proof {
                            lemma_pick_upto(
                                edges,
                                t.ids@,
                                order@,
                                remaining@,
                                remaining@.len() as int,
                            );
                            lemma_sequence_step(edges, t.ids@, order@, remaining@, k as int);
                        }
                        let ghost before = order@;
                        let c = remaining.remove(k);
                        pos.insert(c, order.len());
                        order.push(c);
                        proof {
                            assert forall|i: int| 0 <= i < order@.len() implies pos@.contains_key(
                                #[trigger] order@[i],
                            ) && pos@[order@[i]] == i by {
                                if i < before.len() {
                                    assert(before[i] == order@[i]);
                                    assert(before.contains(before[i]));
                                }
                            }
                        }
                    },
                }
            }
        },
    }
    (order, remaining)
}

fn has_child(t: &Adjacency, x: usize, c: usize, Ghost(edges): Ghost<Seq<(usize, usize)>>) -> (b:
    bool)
    requires
        t.wf(edges),
    ensures
        b == is_edge(edges, x, c),
{
    proof {
        lemma_children_members(edges, x);
    }
    match t.kids.get(&x) {
        Some(v) => {
            assert(t.kids@.contains_key(x));
            assert(is_node(edges, x));
            let mut i: usize = 0;
            while i < v.len()
                invariant
                    i <= v.len(),
                    v@ == children(edges, x),
                    forall|y: usize| children(edges, x).contains(y) <==> is_edge(edges, x, y),
                    forall|h: int| 0 <= h < i ==> v@[h] != c,
                decreases v.len() - i,
            {
                if v[i] == c {
                    assert(v@.contains(c));
                    return true;
                }
                i += 1;
            }
            false
        },
        None => {
            proof {
                if is_edge(edges, x, c) {
                    let i = choose|i: int| 0 <= i < edges.len() && edges[i].0 == x && edges[i].1
                        == c;
                    assert(is_node(edges, x));
                }
            }
            false
        },
    }
}

fn has_children(t: &Adjacency, c: usize, Ghost(edges): Ghost<Seq<(usize, usize)>>) -> (b: bool)
    requires
        t.wf(edges),
    ensures
        b == (children(edges, c).len() > 0),
{
    match t.kids.get(&c) {
        Some(v) => {
            assert(t.kids@.contains_key(c));
            assert(is_node(edges, c));
            v.len() > 0
        },
        None => {
            proof {
                lemma_children_members(edges, c);
                if children(edges, c).len() > 0 {
                    let y = children(edges, c)[0];
                    assert(children(edges, c).contains(y));
                    assert(is_edge(edges, c, y));
                    let i = choose|i: int| 0 <= i < edges.len() && edges[i].0 == c && edges[i].1
                        == y;
                    assert(is_node(edges, c));
                }
            }
            false
        },
    }
}

fn row_blocks(t: &Adjacency, row: &Vec<usize>, c: usize, Ghost(edges): Ghost<Seq<(usize, usize)>>) -> (b:
    bool)
    requires
        t.wf(edges),
    ensures
        b == blocks(edges, row@, c),
{
    let mut k: usize = 0;
    while k < row.len()
        invariant
            k <= row.len(),
            t.wf(edges),
            forall|h: int| 0 <= h < k ==> !is_edge(edges, #[trigger] row@[h], c),
        decreases row.len() - k,
    {
        if has_child(t, row[k], c, Ghost(edges)) {
            return true;
        }
        k += 1;
    }
    false
}

fn slot_of(
    t: &Adjacency,
    rows: &Vec<Vec<usize>>,
    c: usize,
    max_width: usize,
    Ghost(edges): Ghost<Seq<(usize, usize)>>,
) -> (s: usize)
    requires
        t.wf(edges),
    ensures
        s == slot(edges, rows_view(rows@), c, max_width),
{
    let n = rows.len();
    if n == 0 {
        return n;
    }
    assert(rows_view(rows@)[n - 1] == rows@[n - 1]@);
    if row_blocks(t, &rows[n - 1], c, Ghost(edges)) || rows[n - 1].len() >= max_width {
        return n;
    }
    if has_children(t, c, Ghost(edges)) || n == 1 {
        return n - 1;
    }
    assert(rows_view(rows@)[n - 2] == rows@[n - 2]@);
    if row_blocks(t, &rows[n - 2], c, Ghost(edges)) || rows[n - 2].len() >= max_width {
        return n - 1;
    }
    n - 2
}

fn pack(
    t: &Adjacency,
    order: &Vec<usize>,
    max_width: usize,
    Ghost(edges): Ghost<Seq<(usize, usize)>>,
) -> (rows: Vec<Vec<usize>>)
    requires
        t.wf(edges),
    ensures
        rows_view(rows@) == packed(edges, order@, max_width),
{
    let mut rows: Vec<Vec<usize>> = Vec::new();
    let mut i: usize = 0;
    assert(rows_view(rows@) =~= Seq::<Seq<usize>>::empty());
    while i < order.len()
        invariant
            i <= order.len(),
            t.wf(edges),
            rows_view(rows@) == packed(edges, order@.take(i as int), max_width),
        decreases order.len() - i,
    {
        assert(order@.take(i + 1).drop_last() == order@.take(i as int));
        let c = order[i];
        let ghost before = rows_view(rows@);
        let s = slot_of(t, &rows, c, max_width, Ghost(edges));
        if s == rows.len() {
            let mut row: Vec<usize> = Vec::new();
            row.push(c);
            rows.push(row);
            assert(rows_view(rows@) =~= before.push(seq![c]));
        } else {
            let mut row = rows.remove(s);
            row.push(c);
            rows.insert(s, row);
            assert(rows_view(rows@) =~= before.update(s as int, before[s as int].push(c)));
        }
        i += 1;
    }
    assert(order@.take(i as int) == order@);
    rows
}

/// Lays the nodes of `edges` out in rows of at most `max_width` nodes.
///
/// Every node stands in exactly one row. Unless the edges hold a cycle, every
/// edge leads from its row to a later one. A node on or behind a cycle gets a
/// row of its own after all the others.
pub fn layer_rows(edges: &Vec<(usize, usize)>, max_width: usize) -> (rows: Vec<Vec<usize>>)
    ensures
        rows_view(rows@) == layering(edges@, max_width),
        distinct(rows_view(rows@)),
        forall|n: usize| holds(rows_view(rows@), n) <==> is_node(edges@, n),
        within(rows_view(rows@), max_width),
        acyclic(edges@) ==> forward(rows_view(rows@), edges@),
{
    let t = Adjacency::new(edges);
    let (order, rest) = sequence_nodes(&t, Ghost(edges@));
    let mut rows = pack(&t, &order, max_width, Ghost(edges@));
    let ghost body = rows_view(rows@);
    let mut i: usize = 0;
    while i < rest.len()
        invariant
            i <= rest.len(),
            rows@.len() == body.len() + i,
            forall|j: int| 0 <= j < body.len() ==> (#[trigger] rows@[j])@ == body[j],
            forall|j: int| 0 <= j < i ==> (#[trigger] rows@[body.len() + j])@ == seq![rest@[j]],
        decreases rest.len() - i,
    {
        let mut row: Vec<usize> = Vec::new();
        row.push(rest[i]);
        assert(row@ =~= seq![rest@[i as int]]);
        rows.push(row);
        i += 1;
    }
    proof {
        let all = body + singles(rest@);
        assert forall|j: int| 0 <= j < rows@.len() implies rows_view(rows@)[j] == all[j] by {
            if j >= body.len() {
                let k = j - body.len();
                assert(rows@[body.len() + k]@ == seq![rest@[k]]);
            }
        }
        assert(rows_view(rows@) =~= all);
    }
    proof {
        lemma_node_seq(edges@, t.ids@);
        lemma_layering(edges@, t.ids@, max_width);
    }
    rows
}

/// The edges as pairs of plain identifiers.
pub open spec fn edge_ids(edges: Seq<(ConceptID, ConceptID)>) -> Seq<(usize, usize)> {
    Seq::new(edges.len(), |i: int| (edges[i].0.0, edges[i].1.0))
}

/// The rows as sequences of plain identifiers.
pub open spec fn row_ids(rows: Seq<Vec<ConceptID>>) -> Seq<Seq<usize>> {
    Seq::new(rows.len(), |r: int| Seq::new(rows[r]@.len(), |k: int| rows[r]@[k].0))
}

/// The edges as pairs of plain identifiers.
pub fn plain_edges(edges: &Vec<(ConceptID, ConceptID)>) -> (raw: Vec<(usize, usize)>)
    ensures
        raw@ == edge_ids(edges@),
{
    let mut raw: Vec<(usize, usize)> = Vec::new();
    let mut i: usize = 0;
    while i < edges.len()
        invariant
            i <= edges.len(),
            raw@.len() == i,
            forall|j: int| 0 <= j < i ==> raw@[j] == (edges@[j].0.0, edges@[j].1.0),
        decreases edges.len() - i,
    {
        let e = edges[i];
        raw.push((e.0.0, e.1.0));
        i += 1;
    }
    assert(raw@ =~= edge_ids(edges@));
    raw
}

/// Lays the concepts that `edges` (prerequisite, dependent) connect out in
/// rows of at most `max_width` concepts, prerequisites above dependents.
///
/// Every concept of an edge stands in exactly one row, and no row is empty.
/// Unless the edges hold a cycle, every edge leads from its row to a later
/// one. A concept on or behind a cycle gets a row of its own after all the
/// others. With `max_width` 0 every concept gets a row of its own.
pub fn layer_concepts(edges: Vec<(ConceptID, ConceptID)>, max_width: usize) -> (rows: Vec<
    Vec<ConceptID>,
>)
    ensures
        row_ids(rows@) == layering(edge_ids(edges@), max_width),
        distinct(row_ids(rows@)),
        forall|n: usize| holds(row_ids(rows@), n) <==> is_node(edge_ids(edges@), n),
        within(row_ids(rows@), max_width),
        acyclic(edge_ids(edges@)) ==> forward(row_ids(rows@), edge_ids(edges@)),
{
    let raw = plain_edges(&edges);
    let layers = layer_rows(&raw, max_width);
    let mut rows: Vec<Vec<ConceptID>> = Vec::new();
    let mut r: usize = 0;
    while r < layers.len()
        invariant
            r <= layers.len(),
            rows@.len() == r,
            forall|j: int| 0 <= j < r ==> row_ids(rows@)[j] == (#[trigger] layers@[j])@,
        decreases layers.len() - r,
    {
        let mut row: Vec<ConceptID> = Vec::new();
        let mut k: usize = 0;
        while k < layers[r].len()
            invariant
                r < layers.len(),
                k <= layers@[r as int]@.len(),
                row@.len() == k,
                forall|h: int| 0 <= h < k ==> (#[trigger] row@[h]).0 == layers@[r as int]@[h],
            decreases layers@[r as int]@.len() - k,
        {
            row.push(ConceptID(layers[r][k]));
            k += 1;
        }
        let ghost before = rows@;
        rows.push(row);
        proof {
            assert forall|j: int| 0 <= j < r + 1 implies row_ids(rows@)[j] == (
            #[trigger] layers@[j])@ by {
                if j < r {
                    assert(rows@[j] == before[j]);
                    assert(row_ids(before)[j] == layers@[j]@);
                    assert(row_ids(rows@)[j] =~= row_ids(before)[j]);
                } else {
                    assert(row_ids(rows@)[j] =~= layers@[j]@);
                }
            }
        }
        r += 1;
    }
    assert(row_ids(rows@) =~= rows_view(layers@));
    rows
}

} // verus!
