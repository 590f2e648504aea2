//! The concept map: the rows of nodes that are drawn, and the search for an
//! order within the rows that costs little.

use crate::cost::{clip, cost, grid_cost, grid_view, nodes_view};
use crate::ids::{ConceptID, NodeID};
use crate::node::{ConceptNode, NodeView};
use vstd::prelude::*;

verus! {

/// The rows of the drawn graph, each in its order from left to right.
#[derive(Debug)]
pub struct ConceptMap {
    pub rows: Vec<Vec<ConceptNode>>,
}

impl View for ConceptMap {
    type V = Seq<Seq<NodeView>>;

    open spec fn view(&self) -> Seq<Seq<NodeView>> {
        grid_view(self.rows@)
    }
}

/// What a grid costs, as far as a `usize` holds it.
pub open spec fn price(grid: Seq<Seq<NodeView>>) -> usize {
    clip(cost(grid))
}

/// The grid with the nodes at `i` and `j` of row `row` exchanged; the grid
/// itself where these are no places of it.
pub open spec fn swapped(grid: Seq<Seq<NodeView>>, row: int, i: int, j: int) -> Seq<
    Seq<NodeView>,
> {
    if 0 <= row < grid.len() && 0 <= i < grid[row].len() && 0 <= j < grid[row].len() {
        grid.update(row, grid[row].update(i, grid[row][j]).update(j, grid[row][i]))
    } else {
        grid
    }
}

/// The change that three numbers stand for: the first picks the row, the
/// others the two places in it that are exchanged.
pub open spec fn proposed(grid: Seq<Seq<NodeView>>, a: usize, b: usize, c: usize) -> Seq<
    Seq<NodeView>,
> {
    if grid.len() == 0 {
        grid
    } else {
        let row = a as int % grid.len() as int;
        let width = grid[row].len() as int;
        if width == 0 {
            grid
        } else {
            swapped(grid, row, b as int % width, c as int % width)
        }
    }
}

/// The two grids have the same rows, but for the order within each row.
pub open spec fn same_rows(a: Seq<Seq<NodeView>>, b: Seq<Seq<NodeView>>) -> bool {
    a.len() == b.len() && forall|r: int|
        0 <= r < a.len() ==> (#[trigger] a[r]).to_multiset() == b[r].to_multiset()
}

/// Exchanging two nodes of a row keeps the rows.
pub proof fn lemma_swapped_same_rows(grid: Seq<Seq<NodeView>>, row: int, i: int, j: int)
    ensures
        same_rows(grid, swapped(grid, row, i, j)),
{
    let out = swapped(grid, row, i, j);
    if 0 <= row < grid.len() && 0 <= i < grid[row].len() && 0 <= j < grid[row].len() {
        let s = grid[row];
        let s1 = s.update(i, s[j]);
        vstd::seq_lib::to_multiset_update(s, i, s[j]);
        vstd::seq_lib::to_multiset_update(s1, j, s[i]);
        broadcast use vstd::multiset::group_multiset_axioms;

        s.to_multiset_ensures();
        assert(s.to_multiset().count(s[i]) > 0);
        assert(s.to_multiset().count(s[j]) > 0);
        assert(s1.update(j, s[i]).to_multiset() =~= s.to_multiset());
        assert forall|r: int| 0 <= r < grid.len() implies (#[trigger] grid[r]).to_multiset()
            == out[r].to_multiset() by {}
    }
}

/// Any proposed change keeps the rows.
pub proof fn lemma_proposed_same_rows(grid: Seq<Seq<NodeView>>, a: usize, b: usize, c: usize)
    ensures
        same_rows(grid, proposed(grid, a, b, c)),
{
    if grid.len() > 0 {
        let row = a as int % grid.len() as int;
        let width = grid[row].len() as int;
        if width > 0 {
            lemma_swapped_same_rows(grid, row, b as int % width, c as int % width);
        }
    }
}

/// A copy of a row.
pub fn copy_row(row: &Vec<ConceptNode>) -> (out: Vec<ConceptNode>)
    ensures
        nodes_view(out@) == nodes_view(row@),
        out@.len() == row@.len(),
        forall|i: int| 0 <= i < row@.len() ==> (#[trigger] out@[i]).same_kind(&row@[i]),
{
    let mut out: Vec<ConceptNode> = Vec::new();
    let mut i: usize = 0;
    while i < row.len()
        invariant
            i <= row.len(),
            out@.len() == i,
            forall|j: int| 0 <= j < i ==> (#[trigger] out@[j])@ == row@[j]@,
            forall|j: int| 0 <= j < i ==> (#[trigger] out@[j]).same_kind(&row@[j]),
        decreases row.len() - i,
    {
        out.push(row[i].clone());
        i += 1;
    }
    assert(nodes_view(out@) =~= nodes_view(row@));
    out
}

impl Clone for ConceptMap {
    fn clone(&self) -> (r: Self)
        ensures
            r@ == self@,
    {
        let mut rows: Vec<Vec<ConceptNode>> = Vec::new();
        let mut i: usize = 0;
        while i < self.rows.len()
            invariant
                i <= self.rows.len(),
                rows@.len() == i,
                forall|j: int|
                    0 <= j < i ==> nodes_view((#[trigger] rows@[j])@) == nodes_view(
                        self.rows@[j]@,
                    ),
            decreases self.rows.len() - i,
        {
            rows.push(copy_row(&self.rows[i]));
            i += 1;
        }
        assert(grid_view(rows@) =~= grid_view(self.rows@));
        ConceptMap { rows }
    }
}

/// A number from the thread's random number generator, `rand::random`. Nothing
/// is known of it.
#[verifier::external_body]
pub(crate) fn random_number() -> usize {
    rand::random::<usize>()
}

impl ConceptMap {
    /// What the map costs: `SCALE` for each crossing of two edges between
    /// adjacent rows, and `SCALE / DISTANCE_SCALE` for each unit of the summed
    /// squares of the edges' displacements. A cost beyond the largest `usize`
    /// is given as that.
    pub fn crossings(&self) -> (c: usize)
        ensures
            c == price(self@),
    {
        grid_cost(&self.rows)
    }

    /// Exchanges the nodes at `i` and `j` of row `row`. Does nothing where
    /// these are no places of the map.
    pub fn swap(&mut self, row: usize, i: usize, j: usize)
        ensures
            final(self)@ == swapped(old(self)@, row as int, i as int, j as int),
    {
        if row >= self.rows.len() {
            return ;
        }
        let width = self.rows[row].len();
        assert(old(self)@[row as int].len() == width);
        if i >= width || j >= width || i == j {
            assert(swapped(old(self)@, row as int, i as int, j as int) =~~= old(self)@);
            return ;
        }
        let lo = if i < j {
            i
        } else {
            j
        };
        let hi = if i < j {
            j
        } else {
            i
        };
        let mut r = self.rows.remove(row);
        let ghost r0 = r@;
        let b = r.remove(hi);
        let a = r.remove(lo);
        r.insert(lo, b);
        r.insert(hi, a);
        assert(r@ =~= r0.update(lo as int, r0[hi as int]).update(hi as int, r0[lo as int]));
        self.rows.insert(row, r);
        proof {
            let before = old(self)@;
            let want = swapped(before, row as int, i as int, j as int);
            assert(self.rows@.len() == old(self).rows@.len());
            assert forall|k: int| 0 <= k < self@.len() implies self@[k] == want[k] by {
                if k == row {
                    assert(self@[k] =~= want[k]);
                } else if k < row {
                    assert(self.rows@[k] == old(self).rows@[k]);
                } else {
                    assert(self.rows@[k] == old(self).rows@[k]);
                }
            }
            assert(self@ =~= want);
        }
    }

    /// A copy with the change made that `a`, `b` and `c` stand for.
    pub fn propose(&self, a: usize, b: usize, c: usize) -> (out: Self)
        ensures
            out@ == proposed(self@, a, b, c),
    {
        let mut out = self.clone();
        if out.rows.len() == 0 {
            return out;
        }
        let row = a % out.rows.len();
        let width = out.rows[row].len();
        assert(self@[row as int].len() == width);
        if width == 0 {
            return out;
        }
        out.swap(row, b % width, c % width);
        out
    }

    /// A copy with two nodes of one row exchanged, the row and the nodes
    /// chosen at random.
    pub fn random_change(&self) -> (out: Self)
        ensures
            exists|a: usize, b: usize, c: usize| out@ == proposed(self@, a, b, c),
            same_rows(self@, out@),
    {
        let a = random_number();
        let b = random_number();
        let c = random_number();
        proof {
            lemma_proposed_same_rows(self@, a, b, c);
        }
        self.propose(a, b, c)
    }
}

/// The nodes that stand for concepts without any edge.
pub open spec fn orphan_nodes(orphans: Seq<ConceptID>) -> Seq<NodeView> {
    Seq::new(
        orphans.len(),
        |i: int|
            NodeView {
                id: NodeID(orphans[i].0),
                children: Seq::empty(),
                fake: false,
                cheap: true,
            },
    )
}

/// `nodes` in rows of `width`, the last one as long as what is left.
pub open spec fn chunked(nodes: Seq<NodeView>, width: int) -> Seq<Seq<NodeView>>
    decreases nodes.len(),
{
    if nodes.len() == 0 || width <= 0 {
        Seq::empty()
    } else if nodes.len() <= width {
        seq![nodes]
    } else {
        seq![nodes.take(width)] + chunked(nodes.skip(width), width)
    }
}

impl ConceptMap {
    /// Puts the concepts `orphans`, which have no edges, below the map, in
    /// rows of `max_width`.
    pub fn append_orphans(&mut self, orphans: &Vec<ConceptID>, max_width: usize)
        requires
            max_width > 0,
        ensures
            final(self)@ == old(self)@ + chunked(orphan_nodes(orphans@), max_width as int),
    {
        let ghost all = orphan_nodes(orphans@);
        let mut i: usize = 0;
        assert(all.skip(0) =~= all);
        assert(self@ + chunked(all.skip(0), max_width as int) =~= old(self)@ + chunked(
            all,
            max_width as int,
        ));
        while i < orphans.len()
            invariant
                i <= orphans.len(),
                max_width > 0,
                all == orphan_nodes(orphans@),
                self@ + chunked(all.skip(i as int), max_width as int) == old(self)@ + chunked(
                    all,
                    max_width as int,
                ),
            decreases orphans.len() - i,
        {
            let end = if orphans.len() - i <= max_width {
                orphans.len()
            } else {
                i + max_width
            };
            let mut row: Vec<ConceptNode> = Vec::new();
            let mut k: usize = i;
            while k < end
                invariant
                    i <= k <= end <= orphans.len(),
                    all == orphan_nodes(orphans@),
                    row@.len() == k - i,
                    forall|j: int| 0 <= j < k - i ==> (#[trigger] row@[j])@ == all[i + j],
                decreases end - k,
            {
                row.push(ConceptNode::CheapConcept { concept: orphans[k], children: Vec::new() });
                k += 1;
            }
            let ghost before = self@;
            let ghost rest = all.skip(i as int);
            self.rows.push(row);
            proof {
                assert(nodes_view(row@) =~= rest.take(end - i));
                assert(self@ =~= before.push(rest.take(end - i)));
                if end == orphans.len() {
                    assert(rest.take(end - i) =~= rest);
                    assert(all.skip(end as int).len() == 0);
                    assert(chunked(rest, max_width as int) =~= seq![rest] + chunked(
                        all.skip(end as int),
                        max_width as int,
                    ));
                } else {
                    assert(rest.skip(max_width as int) =~= all.skip(end as int));
                }
                assert(self@ + chunked(all.skip(end as int), max_width as int) =~= before + chunked(
                    rest,
                    max_width as int,
                ));
            }
            i = end;
        }
        assert(self@ + chunked(all.skip(i as int), max_width as int) =~= self@);
    }
}

} // verus!
