//! What a layout costs: the crossings between adjacent rows, and how far the
//! edges lean.

use crate::ids::NodeID;
use crate::layering::rows_view;
use crate::node::{ConceptNode, NodeView};
use vstd::prelude::*;

verus! {

/// What one crossing weighs.
pub const SCALE: usize = 2;

/// What the summed squares of the edges' displacements are divided by.
pub const DISTANCE_SCALE: usize = 1_000_000;

/// The nodes of a row as the layout sees them.
pub open spec fn nodes_view(row: Seq<ConceptNode>) -> Seq<NodeView> {
    Seq::new(row.len(), |i: int| row[i]@)
}

/// The rows of a grid as the layout sees them.
pub open spec fn grid_view(rows: Seq<Vec<ConceptNode>>) -> Seq<Seq<NodeView>> {
    Seq::new(rows.len(), |r: int| nodes_view(rows[r]@))
}

/// Where `id` stands in `row`: the last place that holds it.
pub open spec fn find(row: Seq<NodeView>, id: NodeID) -> Option<usize>
    decreases row.len(),
{
    if row.len() == 0 {
        None
    } else if row.last().id == id {
        Some((row.len() - 1) as usize)
    } else {
        find(row.drop_last(), id)
    }
}

/// The places in `below` that `children` lead to, in their order; a child that
/// is not in `below` has none.
pub open spec fn targets(children: Seq<NodeID>, below: Seq<NodeView>) -> Seq<usize>
    decreases children.len(),
{
    if children.len() == 0 {
        Seq::empty()
    } else {
        let ts = targets(children.drop_last(), below);
        match find(below, children.last()) {
            Some(j) => ts.push(j),
            None => ts,
        }
    }
}

/// For each node of `above`, the places in `below` that its edges lead to.
pub open spec fn all_targets(above: Seq<NodeView>, below: Seq<NodeView>) -> Seq<Seq<usize>> {
    Seq::new(above.len(), |i: int| targets(above[i].children, below))
}

/// Where place `i` of a row of `width` nodes lies across the page, in
/// thousandths.
pub open spec fn place(i: int, width: int) -> int {
    (500 + i * 1000) / (1 + width)
}

/// How many of `ts` lie left of `a`.
pub open spec fn count_below(ts: Seq<usize>, a: usize) -> int
    decreases ts.len(),
{
    if ts.len() == 0 {
        0
    } else {
        count_below(ts.drop_last(), a) + if ts.last() < a {
            1int
        } else {
            0int
        }
    }
}

/// The crossings between the edges of a node with targets `t1` and those of a
/// node to its right with targets `t2`.
pub open spec fn pair_crossings(t1: Seq<usize>, t2: Seq<usize>) -> int
    decreases t1.len(),
{
    if t1.len() == 0 {
        0
    } else {
        pair_crossings(t1.drop_last(), t2) + count_below(t2, t1.last())
    }
}

/// The crossings between the edges of node `i` and those of the nodes between
/// it and `n`.
pub open spec fn crossings_right(ts: Seq<Seq<usize>>, i: int, n: int) -> int
    decreases n - i,
{
    if n <= i + 1 {
        0
    } else {
        crossings_right(ts, i, n - 1) + pair_crossings(ts[i], ts[n - 1])
    }
}

/// The crossings that involve one of the first `n` nodes as the left one.
pub open spec fn row_crossings(ts: Seq<Seq<usize>>, n: int) -> int
    decreases n,
{
    if n <= 0 {
        0
    } else {
        row_crossings(ts, n - 1) + crossings_right(ts, n - 1, ts.len() as int)
    }
}

/// The squared displacements of the edges from a place `p` to the targets
/// `ts` in a row of `width` nodes.
pub open spec fn lean(ts: Seq<usize>, p: int, width: int) -> int
    decreases ts.len(),
{
    if ts.len() == 0 {
        0
    } else {
        let d = place(ts.last() as int, width) - p;
        lean(ts.drop_last(), p, width) + d * d
    }
}

/// The squared displacements of the edges of the first `n` nodes of a row of
/// `w0` nodes, to a row of `w1` nodes.
pub open spec fn row_lean(ts: Seq<Seq<usize>>, w0: int, w1: int, n: int) -> int
    decreases n,
{
    if n <= 0 {
        0
    } else {
        row_lean(ts, w0, w1, n - 1) + lean(ts[n - 1], place(n - 1, w0), w1)
    }
}

/// The crossings between the first `n` pairs of adjacent rows.
pub open spec fn grid_crossings(grid: Seq<Seq<NodeView>>, n: int) -> int
    decreases n,
{
    if n <= 0 {
        0
    } else {
        let ts = all_targets(grid[n - 1], grid[n]);
        grid_crossings(grid, n - 1) + row_crossings(ts, ts.len() as int)
    }
}

/// The squared displacements of the edges between the first `n` pairs of
/// adjacent rows.
pub open spec fn grid_lean(grid: Seq<Seq<NodeView>>, n: int) -> int
    decreases n,
{
    if n <= 0 {
        0
    } else {
        let ts = all_targets(grid[n - 1], grid[n]);
        grid_lean(grid, n - 1) + row_lean(
            ts,
            grid[n - 1].len() as int,
            grid[n].len() as int,
            ts.len() as int,
        )
    }
}

/// What a grid costs: each crossing counts `SCALE`, the lean of the edges
/// `SCALE / DISTANCE_SCALE` per unit.
pub open spec fn cost(grid: Seq<Seq<NodeView>>) -> int {
    let n = grid.len() - 1;
    grid_crossings(grid, n) * SCALE + grid_lean(grid, n) * SCALE / (DISTANCE_SCALE as int)
}

/// `x`, or the largest `usize` where `x` is larger.
pub open spec fn clip(x: int) -> usize {
    if x > usize::MAX {
        usize::MAX
    } else {
        x as usize
    }
}

/// The bound that running sums are held to.
pub const CAP: u128 = 0x1_0000_0000_0000_0000_0000_0000;

/// `x`, or `CAP` where `x` is larger.
pub open spec fn capped(x: int) -> int {
    if x > CAP {
        CAP as int
    } else {
        x
    }
}

/// No more targets lie below a place than there are targets.
pub proof fn lemma_count_below_bounds(ts: Seq<usize>, a: usize)
    ensures
        0 <= count_below(ts, a) <= ts.len(),
    decreases ts.len(),
{
    if ts.len() > 0 {
        lemma_count_below_bounds(ts.drop_last(), a);
    }
}

/// Two nodes cross a number of times that is not negative.
pub proof fn lemma_pair_crossings_bounds(t1: Seq<usize>, t2: Seq<usize>)
    ensures
        0 <= pair_crossings(t1, t2),
    decreases t1.len(),
{
    if t1.len() > 0 {
        lemma_pair_crossings_bounds(t1.drop_last(), t2);
        lemma_count_below_bounds(t2, t1.last());
    }
}

/// A node crosses those to its right a number of times that is not
/// negative.
pub proof fn lemma_crossings_right_bounds(ts: Seq<Seq<usize>>, i: int, n: int)
    ensures
        0 <= crossings_right(ts, i, n),
    decreases n - i,
{
    if n > i + 1 {
        lemma_crossings_right_bounds(ts, i, n - 1);
        lemma_pair_crossings_bounds(ts[i], ts[n - 1]);
    }
}

/// The crossings below a row are not negative.
pub proof fn lemma_row_crossings_bounds(ts: Seq<Seq<usize>>, n: int)
    ensures
        0 <= row_crossings(ts, n),
    decreases n,
{
    if n > 0 {
        lemma_row_crossings_bounds(ts, n - 1);
        lemma_crossings_right_bounds(ts, n - 1, ts.len() as int);
    }
}

/// The lean of the edges of a node is not negative.
pub proof fn lemma_lean_bounds(ts: Seq<usize>, p: int, width: int)
    ensures
        0 <= lean(ts, p, width),
    decreases ts.len(),
{
    if ts.len() > 0 {
        lemma_lean_bounds(ts.drop_last(), p, width);
        let d = place(ts.last() as int, width) - p;
        assert(d * d >= 0) by (nonlinear_arith);
    }
}

/// The lean of the edges of a row is not negative.
pub proof fn lemma_row_lean_bounds(ts: Seq<Seq<usize>>, w0: int, w1: int, n: int)
    ensures
        0 <= row_lean(ts, w0, w1, n),
    decreases n,
{
    if n > 0 {
        lemma_row_lean_bounds(ts, w0, w1, n - 1);
        lemma_lean_bounds(ts[n - 1], place(n - 1, w0), w1);
    }
}

/// Neither the crossings nor the lean of a grid are negative.
pub proof fn lemma_grid_bounds(grid: Seq<Seq<NodeView>>, n: int)
    ensures
        0 <= grid_crossings(grid, n),
        0 <= grid_lean(grid, n),
    decreases n,
{
    if n > 0 {
        lemma_grid_bounds(grid, n - 1);
        let ts = all_targets(grid[n - 1], grid[n]);
        lemma_row_crossings_bounds(ts, ts.len() as int);
        lemma_row_lean_bounds(ts, grid[n - 1].len() as int, grid[n].len() as int, ts.len() as int);
    }
}

/// A place lies within the thousand.
pub proof fn lemma_place_bounds(i: int, width: int)
    requires
        0 <= i < width,
    ensures
        0 <= place(i, width) < 1000,
{
    let a = 500 + i * 1000;
    let b = 1 + width;
    assert(a < b * 1000);
    vstd::arithmetic::div_mod::lemma_multiply_divide_lt(a, b, 1000);
    vstd::arithmetic::div_mod::lemma_div_pos_is_pos(a, b);
}

/// What `find` returns is a place of the row.
pub proof fn lemma_find_bounds(row: Seq<NodeView>, id: NodeID)
    requires
        row.len() <= usize::MAX,
    ensures
        match find(row, id) {
            Some(j) => j < row.len() && row[j as int].id == id,
            None => forall|k: int| 0 <= k < row.len() ==> (#[trigger] row[k]).id != id,
        },
    decreases row.len(),
{
    if row.len() > 0 {
        let rest = row.drop_last();
        lemma_find_bounds(rest, id);
        if row.last().id != id {
            match find(rest, id) {
                Some(j) => {
                    assert(rest[j as int] == row[j as int]);
                },
                None => {
                    assert forall|k: int| 0 <= k < row.len() implies (#[trigger] row[k]).id != id by {
                        if k < rest.len() {
                            assert(rest[k] == row[k]);
                        }
                    }
                },
            }
        }
    }
}

/// Every target is a place of the row below.
pub proof fn lemma_targets_bounds(children: Seq<NodeID>, below: Seq<NodeView>)
    requires
        below.len() <= usize::MAX,
    ensures
        forall|k: int|
            0 <= k < targets(children, below).len() ==> (#[trigger] targets(children, below)[k])
                < below.len(),
    decreases children.len(),
{
    if children.len() > 0 {
        lemma_targets_bounds(children.drop_last(), below);
        lemma_find_bounds(below, children.last());
        let ts = targets(children.drop_last(), below);
        assert forall|k: int| 0 <= k < targets(children, below).len() implies (#[trigger] targets(
            children,
            below,
        )[k]) < below.len() by {
            if k < ts.len() {
                assert(targets(children, below)[k] == ts[k]);
            }
        }
    }
}

/// Capping a running sum early changes nothing.
pub proof fn lemma_capped_add(x: int, t: int)
    requires
        t >= 0,
    ensures
        capped(capped(x) + t) == capped(x + t),
{
}

/// Where `id` stands in `row`.
pub fn find_in(row: &Vec<ConceptNode>, id: NodeID) -> (r: Option<usize>)
    ensures
        r == find(nodes_view(row@), id),
{
    let ghost whole = nodes_view(row@);
    let mut i: usize = row.len();
    assert(whole.take(i as int) == whole);
    while i > 0
        invariant
            i <= row.len(),
            whole == nodes_view(row@),
            find(whole, id) == find(whole.take(i as int), id),
        decreases i,
    {
        assert(whole.take(i as int).last() == row@[i - 1]@);
        if row[i - 1].id() == id {
            return Some(i - 1);
        }
        assert(whole.take(i as int).drop_last() == whole.take(i - 1));
        i -= 1;
    }
    None
}

/// The places in `below` that the edges of `node` lead to.
pub fn targets_of(node: &ConceptNode, below: &Vec<ConceptNode>) -> (out: Vec<usize>)
    ensures
        out@ == targets(node@.children, nodes_view(below@)),
{
    let children = node.children();
    let mut out: Vec<usize> = Vec::new();
    let mut k: usize = 0;
    while k < children.len()
        invariant
            k <= children.len(),
            out@ == targets(children@.take(k as int), nodes_view(below@)),
        decreases children.len() - k,
    {
        assert(children@.take(k + 1).drop_last() == children@.take(k as int));
        match find_in(below, children[k]) {
            Some(j) => {
                out.push(j);
            },
            None => {},
        }
        k += 1;
    }
    assert(children@.take(k as int) == children@);
    out
}

/// For each node of `above`, the places in `below` that its edges lead to.
pub fn targets_between(above: &Vec<ConceptNode>, below: &Vec<ConceptNode>) -> (out: Vec<
    Vec<usize>,
>)
    ensures
        rows_view(out@) == all_targets(nodes_view(above@), nodes_view(below@)),
{
    let mut out: Vec<Vec<usize>> = Vec::new();
    let mut i: usize = 0;
    while i < above.len()
        invariant
            i <= above.len(),
            out@.len() == i,
            forall|j: int|
                0 <= j < i ==> (#[trigger] out@[j])@ == targets(
                    above@[j]@.children,
                    nodes_view(below@),
                ),
        decreases above.len() - i,
    {
        out.push(targets_of(&above[i], below));
        i += 1;
    }
    assert(rows_view(out@) =~= all_targets(nodes_view(above@), nodes_view(below@)));
    out
}

fn count_below_of(ts: &Vec<usize>, a: usize) -> (r: usize)
    ensures
        r == count_below(ts@, a),
{
    let mut r: usize = 0;
    let mut k: usize = 0;
    while k < ts.len()
        invariant
            k <= ts.len(),
            r <= k,
            r == count_below(ts@.take(k as int), a),
        decreases ts.len() - k,
    {
        assert(ts@.take(k + 1).drop_last() == ts@.take(k as int));
        if ts[k] < a {
            r += 1;
        }
        k += 1;
    }
    assert(ts@.take(k as int) == ts@);
    r
}

fn add_capped(acc: u128, t: u128) -> (r: u128)
    requires
        acc <= CAP,
        t <= CAP,
    ensures
        r == capped(acc + t),
{
    let sum = acc + t;
    if sum > CAP {
        CAP
    } else {
        sum
    }
}

fn add_pair_crossings(acc: u128, t1: &Vec<usize>, t2: &Vec<usize>, Ghost(base): Ghost<int>) -> (r:
    u128)
    requires
        acc == capped(base),
        base >= 0,
    ensures
        r == capped(base + pair_crossings(t1@, t2@)),
{
    let mut acc = acc;
    let mut k: usize = 0;
    while k < t1.len()
        invariant
            k <= t1.len(),
            base >= 0,
            acc == capped(base + pair_crossings(t1@.take(k as int), t2@)),
        decreases t1.len() - k,
    {
        proof {
            assert(t1@.take(k + 1).drop_last() == t1@.take(k as int));
            lemma_count_below_bounds(t2@, t1@[k as int]);
            lemma_pair_crossings_bounds(t1@.take(k as int), t2@);
            lemma_capped_add(
                base + pair_crossings(t1@.take(k as int), t2@),
                count_below(t2@, t1@[k as int]),
            );
        }
        let c = count_below_of(t2, t1[k]);
        acc = add_capped(acc, c as u128);
        k += 1;
    }
    assert(t1@.take(k as int) == t1@);
    acc
}

fn add_crossings_right(acc: u128, ts: &Vec<Vec<usize>>, i: usize, Ghost(base): Ghost<int>) -> (r:
    u128)
    requires
        acc == capped(base),
        base >= 0,
        i < ts.len(),
    ensures
        r == capped(base + crossings_right(rows_view(ts@), i as int, ts.len() as int)),
{
    let mut acc = acc;
    let mut n: usize = i + 1;
    while n < ts.len()
        invariant
            i < n <= ts.len(),
            base >= 0,
            acc == capped(base + crossings_right(rows_view(ts@), i as int, n as int)),
        decreases ts.len() - n,
    {
        proof {
            lemma_crossings_right_bounds(rows_view(ts@), i as int, n as int);
        }
        acc =
        add_pair_crossings(
            acc,
            &ts[i],
            &ts[n],
            Ghost(base + crossings_right(rows_view(ts@), i as int, n as int)),
        );
        n += 1;
    }
    acc
}

fn add_row_crossings(acc: u128, ts: &Vec<Vec<usize>>, Ghost(base): Ghost<int>) -> (r: u128)
    requires
        acc == capped(base),
        base >= 0,
    ensures
        r == capped(base + row_crossings(rows_view(ts@), ts.len() as int)),
{
    let mut acc = acc;
    let mut i: usize = 0;
    while i < ts.len()
        invariant
            i <= ts.len(),
            base >= 0,
            acc == capped(base + row_crossings(rows_view(ts@), i as int)),
        decreases ts.len() - i,
    {
        proof {
            lemma_row_crossings_bounds(rows_view(ts@), i as int);
        }
        acc = add_crossings_right(acc, ts, i, Ghost(base + row_crossings(rows_view(ts@), i as int)));
        i += 1;
    }
    acc
}

/// Where place `i` of a row of `width` nodes lies across the page.
pub fn place_of(i: usize, width: usize) -> (p: u128)
    requires
        i < width,
    ensures
        p == place(i as int, width as int),
        p < 1000,
{
    proof {
        lemma_place_bounds(i as int, width as int);
    }
    (500 + (i as u128) * 1000) / (1 + (width as u128))
}

fn add_lean(acc: u128, ts: &Vec<usize>, p: u128, width: usize, Ghost(base): Ghost<int>) -> (r: u128)
    requires
        acc == capped(base),
        base >= 0,
        p < 1000,
        forall|k: int| 0 <= k < ts@.len() ==> (#[trigger] ts@[k]) < width,
    ensures
        r == capped(base + lean(ts@, p as int, width as int)),
{
    let mut acc = acc;
    let mut k: usize = 0;
    while k < ts.len()
        invariant
            k <= ts.len(),
            base >= 0,
            p < 1000,
            forall|k: int| 0 <= k < ts@.len() ==> (#[trigger] ts@[k]) < width,
            acc == capped(base + lean(ts@.take(k as int), p as int, width as int)),
        decreases ts.len() - k,
    {
        let q = place_of(ts[k], width);
        let d = if q >= p {
            q - p
        } else {
            p - q
        };
        assert(d * d <= 1000000) by (nonlinear_arith)
            requires
                d <= 1000,
        ;
        let sq = d * d;
        proof {
            assert(ts@.take(k + 1).drop_last() == ts@.take(k as int));
            let e = place(ts@[k as int] as int, width as int) - p;
            assert(e * e == d * d) by (nonlinear_arith)
                requires
                    e == d || e == -d,
            ;
            lemma_lean_bounds(ts@.take(k as int), p as int, width as int);
            lemma_capped_add(base + lean(ts@.take(k as int), p as int, width as int), sq as int);
        }
        acc = add_capped(acc, sq);
        k += 1;
    }
    assert(ts@.take(k as int) == ts@);
    acc
}

fn add_row_lean(
    acc: u128,
    ts: &Vec<Vec<usize>>,
    w0: usize,
    w1: usize,
    Ghost(base): Ghost<int>,
) -> (r: u128)
    requires
        acc == capped(base),
        base >= 0,
        ts.len() == w0,
        forall|i: int, k: int|
            0 <= i < ts@.len() && 0 <= k < ts@[i]@.len() ==> (#[trigger] ts@[i]@[k]) < w1,
    ensures
        r == capped(base + row_lean(rows_view(ts@), w0 as int, w1 as int, ts.len() as int)),
{
    let mut acc = acc;
    let mut i: usize = 0;
    while i < ts.len()
        invariant
            i <= ts.len(),
            base >= 0,
            ts.len() == w0,
            forall|i: int, k: int|
                0 <= i < ts@.len() && 0 <= k < ts@[i]@.len() ==> (#[trigger] ts@[i]@[k]) < w1,
            acc == capped(base + row_lean(rows_view(ts@), w0 as int, w1 as int, i as int)),
        decreases ts.len() - i,
    {
        proof {
            lemma_row_lean_bounds(rows_view(ts@), w0 as int, w1 as int, i as int);
        }
        let p = place_of(i, w0);
        acc =
        add_lean(
            acc,
            &ts[i],
            p,
            w1,
            Ghost(base + row_lean(rows_view(ts@), w0 as int, w1 as int, i as int)),
        );
        i += 1;
    }
    acc
}

/// What the rows cost, as far as a `usize` holds it.
pub fn grid_cost(rows: &Vec<Vec<ConceptNode>>) -> (c: usize)
    ensures
        c == clip(cost(grid_view(rows@))),
{
    let ghost grid = grid_view(rows@);
    let mut crossed: u128 = 0;
    let mut leaned: u128 = 0;
    let mut r: usize = 1;
    while r < rows.len()
        invariant
            1 <= r,
            r <= rows.len() || (rows.len() == 0 && r == 1),
            grid == grid_view(rows@),
            crossed == capped(grid_crossings(grid, r - 1)),
            leaned == capped(grid_lean(grid, r - 1)),
        decreases rows.len() - r,
    {
        let ts = targets_between(&rows[r - 1], &rows[r]);
        let w0 = rows[r - 1].len();
        let w1 = rows[r].len();
        proof {
            lemma_grid_bounds(grid, r - 1);
            assert(grid[r - 1] == nodes_view(rows@[r - 1]@));
            assert(grid[r as int] == nodes_view(rows@[r as int]@));
            assert(rows_view(ts@).len() == ts@.len());
            assert(ts@.len() == rows@[r - 1]@.len());
            assert(grid[r as int].len() == w1);
            assert forall|i: int, k: int|
                0 <= i < ts@.len() && 0 <= k < ts@[i]@.len() implies (#[trigger] ts@[i]@[k])
                < rows@[r as int]@.len() by {
                assert(rows_view(ts@)[i] == ts@[i]@);
                lemma_targets_bounds(grid[r - 1][i].children, grid[r as int]);
            }
        }
        crossed = add_row_crossings(crossed, &ts, Ghost(grid_crossings(grid, r - 1)));
        leaned =
        add_row_lean(leaned, &ts, w0, w1, Ghost(grid_lean(grid, r - 1)));
        r += 1;
    }
    proof {
        let n = grid.len() - 1;
        lemma_grid_bounds(grid, n);
        assert(grid.len() == rows.len());
        assert(r - 1 == n || (rows.len() == 0 && r == 1));
        assert(grid_crossings(grid, -1) == 0 && grid_lean(grid, -1) == 0);
        assert(cost(grid) == grid_crossings(grid, n) * 2 + grid_lean(grid, n) * 2 / 1000000);
    }
    if crossed >= CAP || leaned >= CAP {
        usize::MAX
    } else {
        let total: u128 = crossed * 2 + leaned * 2 / 1000000;
        if total > usize::MAX as u128 {
            usize::MAX
        } else {
            total as usize
        }
    }
}

} // verus!
