//! The search for a cheaper order within the rows.
//!
//! The search walks from map to map by exchanging two nodes of a row. It keeps
//! a weight for every cost it has been at, and moves to a proposed map only
//! where the cost of that map weighs less than the cost it is at.

use crate::concept_map::{
    lemma_proposed_same_rows, price, proposed, same_rows, swapped, ConceptMap,
};
use crate::materialize::{adjacent, has_id, leads_down, real_count};
use crate::node::NodeView;
use std::collections::BTreeMap;
use vstd::prelude::*;

verus! {

/// The state of a search, as mathematics: the map it is at, the cheapest map
/// it has been at, and the weight of each cost.
pub struct SearchView {
    pub current: Seq<Seq<NodeView>>,
    pub best: Seq<Seq<NodeView>>,
    pub logw: Map<usize, int>,
}

/// The weight of the cost `e`; 0 where it has none yet.
pub open spec fn weight(logw: Map<usize, int>, e: usize) -> int {
    if logw.contains_key(e) {
        logw[e]
    } else {
        0
    }
}

/// The weights as integers.
pub open spec fn weights(logw: Map<usize, u128>) -> Map<usize, int> {
    Map::new(|k: usize| logw.contains_key(k), |k: usize| logw[k] as int)
}

impl SearchView {
    /// The search at its start.
    pub open spec fn start(grid: Seq<Seq<NodeView>>) -> SearchView {
        SearchView { current: grid, best: grid, logw: Map::empty().insert(price(grid), 1int) }
    }

    /// Whether the search moves to `trial`: where the cost of `trial` weighs
    /// less than the cost of the map it is at.
    pub open spec fn accepts(self, trial: Seq<Seq<NodeView>>) -> bool {
        weight(self.logw, price(trial)) < weight(self.logw, price(self.current))
    }

    /// The search after `trial` was proposed. Whether it moved or not, the
    /// cost it is at then gains that cost in weight.
    pub open spec fn step(self, trial: Seq<Seq<NodeView>>) -> SearchView {
        let current = if self.accepts(trial) {
            trial
        } else {
            self.current
        };
        let best = if self.accepts(trial) && price(trial) < price(self.best) {
            trial
        } else {
            self.best
        };
        let e = price(current);
        SearchView { current, best, logw: self.logw.insert(e, weight(self.logw, e) + e) }
    }

    /// Nothing is left to gain.
    pub open spec fn done(self) -> bool {
        price(self.best) == 0
    }

    /// The search after the changes that `proposals` stand for were
    /// proposed one after the other, as long as something was left to gain.
    pub open spec fn run(self, proposals: Seq<(usize, usize, usize)>) -> SearchView
        decreases proposals.len(),
    {
        if proposals.len() == 0 {
            self
        } else {
            let before = self.run(proposals.drop_last());
            let p = proposals.last();
            if before.done() {
                before
            } else {
                before.step(proposed(before.current, p.0, p.1, p.2))
            }
        }
    }
}

/// The cheapest map of a search never gets dearer.
pub proof fn lemma_step_never_worse(s: SearchView, trial: Seq<Seq<NodeView>>)
    ensures
        price(s.step(trial).best) <= price(s.best),
{
}

/// A step on a proposed change keeps the rows of both maps of the search.
pub proof fn lemma_step_same_rows(
    grid: Seq<Seq<NodeView>>,
    s: SearchView,
    a: usize,
    b: usize,
    c: usize,
)
    requires
        same_rows(grid, s.current),
        same_rows(grid, s.best),
    ensures
        same_rows(grid, s.step(proposed(s.current, a, b, c)).current),
        same_rows(grid, s.step(proposed(s.current, a, b, c)).best),
{
    lemma_proposed_same_rows(s.current, a, b, c);
}

/// Whatever is proposed: the cheapest map found costs no more than the map
/// the search began with, and has the same rows.
pub proof fn lemma_run_never_worse(grid: Seq<Seq<NodeView>>, proposals: Seq<(usize, usize, usize)>)
    ensures
        price(SearchView::start(grid).run(proposals).best) <= price(grid),
        same_rows(grid, SearchView::start(grid).run(proposals).best),
        same_rows(grid, SearchView::start(grid).run(proposals).current),
    decreases proposals.len(),
{
    if proposals.len() > 0 {
        lemma_run_never_worse(grid, proposals.drop_last());
        let before = SearchView::start(grid).run(proposals.drop_last());
        let p = proposals.last();
        if !before.done() {
            lemma_step_same_rows(grid, before, p.0, p.1, p.2);
        }
    }
}

/// With each further proposal the cheapest map found costs the same or less.
pub proof fn lemma_run_monotonic(
    grid: Seq<Seq<NodeView>>,
    proposals: Seq<(usize, usize, usize)>,
    n: int,
)
    requires
        0 <= n <= proposals.len(),
    ensures
        price(SearchView::start(grid).run(proposals).best) <= price(
            SearchView::start(grid).run(proposals.take(n)).best,
        ),
    decreases proposals.len() - n,
{
    if n < proposals.len() {
        lemma_run_monotonic(grid, proposals, n + 1);
        assert(proposals.take(n + 1).drop_last() == proposals.take(n));
    } else {
        assert(proposals.take(n) == proposals);
    }
}

/// A map that costs nothing is what the search returns for it.
pub proof fn lemma_run_keeps_free_map(
    grid: Seq<Seq<NodeView>>,
    proposals: Seq<(usize, usize, usize)>,
)
    requires
        price(grid) == 0,
    ensures
        SearchView::start(grid).run(proposals) == SearchView::start(grid),
    decreases proposals.len(),
{
    if proposals.len() > 0 {
        lemma_run_keeps_free_map(grid, proposals.drop_last());
    }
}

/// Putting another node in a place changes the number of concept nodes by
/// what the two nodes are.
pub proof fn lemma_real_count_update(row: Seq<NodeView>, i: int, x: NodeView)
    requires
        0 <= i < row.len(),
    ensures
        real_count(row.update(i, x)) + (if row[i].fake { 0int } else { 1int }) == real_count(row)
            + (if x.fake { 0int } else { 1int }),
    decreases row.len(),
{
    let r = row.update(i, x);
    if i == row.len() - 1 {
        assert(r.drop_last() =~= row.drop_last());
    } else {
        assert(r.drop_last() =~= row.drop_last().update(i, x));
        lemma_real_count_update(row.drop_last(), i, x);
    }
}

/// Rows that hold the same nodes hold as many concept nodes, and lead to
/// each other as before.
pub open spec fn same_counts(a: Seq<Seq<NodeView>>, b: Seq<Seq<NodeView>>) -> bool {
    a.len() == b.len() && forall|r: int|
        0 <= r < a.len() ==> real_count(#[trigger] a[r]) == real_count(b[r])
}

/// Exchanging two nodes of a row keeps the number of concept nodes of every
/// row.
pub proof fn lemma_swapped_same_counts(grid: Seq<Seq<NodeView>>, row: int, i: int, j: int)
    ensures
        same_counts(grid, swapped(grid, row, i, j)),
{
    if 0 <= row < grid.len() && 0 <= i < grid[row].len() && 0 <= j < grid[row].len() {
        let s = grid[row];
        lemma_real_count_update(s, i, s[j]);
        lemma_real_count_update(s.update(i, s[j]), j, s[i]);
    }
}

/// Whatever is proposed: every row of the cheapest map found holds as many
/// concept nodes as that row of the map the search began with.
pub proof fn lemma_run_same_counts(grid: Seq<Seq<NodeView>>, proposals: Seq<(usize, usize, usize)>)
    ensures
        same_counts(grid, SearchView::start(grid).run(proposals).best),
        same_counts(grid, SearchView::start(grid).run(proposals).current),
    decreases proposals.len(),
{
    if proposals.len() > 0 {
        lemma_run_same_counts(grid, proposals.drop_last());
        let before = SearchView::start(grid).run(proposals.drop_last());
        let p = proposals.last();
        if !before.done() {
            let g = before.current;
            if g.len() > 0 {
                let row = p.0 as int % g.len() as int;
                let width = g[row].len() as int;
                if width > 0 {
                    lemma_swapped_same_counts(g, row, p.1 as int % width, p.2 as int % width);
                }
            }
        }
    }
}

/// Where the rows hold the same nodes, every edge still leads to the next
/// row.
pub proof fn lemma_same_rows_adjacent(a: Seq<Seq<NodeView>>, b: Seq<Seq<NodeView>>)
    requires
        same_rows(a, b),
        adjacent(a),
    ensures
        adjacent(b),
{
    assert forall|r: int, k: int, h: int|
        0 <= r < b.len() && 0 <= k < b[r].len()
            && 0 <= h < b[r][k].children.len() implies leads_down(
        b,
        r,
        #[trigger] b[r][k].children[h],
    ) by {
        broadcast use vstd::seq_lib::group_to_multiset_ensures;

        let x = b[r][k];
        assert(a[r].to_multiset() == b[r].to_multiset());
        assert(b[r].contains(x));
        assert(b[r].to_multiset().count(x) > 0);
        assert(a[r].contains(x));
        let k0 = choose|k0: int| 0 <= k0 < a[r].len() && a[r][k0] == x;
        let c = a[r][k0].children[h];
        assert(leads_down(a, r, c));
        let next = a[r + 1];
        let k2 = choose|k2: int| 0 <= k2 < next.len() && (#[trigger] next[k2]).id == c;
        let y = next[k2];
        let below = b[r + 1];
        assert(next.to_multiset() == below.to_multiset());
        assert(next.contains(y));
        assert(next.to_multiset().count(y) > 0);
        assert(below.contains(y));
        let k3 = choose|k3: int| 0 <= k3 < below.len() && below[k3] == y;
        assert(below[k3].id == c);
        assert(has_id(below, c));
    }
}

/// A search in progress.
pub struct Search {
    /// The map the search is at.
    pub current: ConceptMap,
    /// The cheapest map the search has been at.
    pub best: ConceptMap,
    /// What `current` costs.
    pub e: usize,
    /// What `best` costs.
    pub e_best: usize,
    /// The weight of each cost.
    pub logw: BTreeMap<usize, u128>,
    /// How many changes have been proposed.
    pub steps: usize,
}

impl View for Search {
    type V = SearchView;

    open spec fn view(&self) -> SearchView {
        SearchView { current: self.current@, best: self.best@, logw: weights(self.logw@) }
    }
}

impl Search {
    /// The costs are those of the maps, and no weight is beyond what
    /// `steps` steps can have given it.
    pub open spec fn wf(&self) -> bool {
        &&& self.e == price(self.current@)
        &&& self.e_best == price(self.best@)
        &&& forall|k: usize| #[trigger]
            self.logw@.contains_key(k) ==> self.logw@[k] <= 1 + self.steps * usize::MAX
    }

    /// A search that starts at `map`.
    pub fn new(map: &ConceptMap) -> (s: Self)
        ensures
            s.wf(),
            s.steps == 0,
            s@ == SearchView::start(map@),
    {
        let e = map.crossings();
        let mut logw: BTreeMap<usize, u128> = BTreeMap::new();
        logw.insert(e, 1);
        let s = Search { current: map.clone(), best: map.clone(), e, e_best: e, logw, steps: 0 };
        assert(s@.logw =~= SearchView::start(map@).logw);
        s
    }

    /// Whether nothing is left to gain.
    pub fn done(&self) -> (b: bool)
        requires
            self.wf(),
        ensures
            b == self@.done(),
    {
        self.e_best == 0
    }

    fn weight_of(&self, e: usize) -> (w: u128)
        requires
            self.wf(),
        ensures
            w == weight(self@.logw, e),
            w <= 1 + self.steps * usize::MAX,
    {
        match self.logw.get(&e) {
            Some(w) => *w,
            None => 0,
        }
    }

    /// Proposes `trial` to the search.
    pub fn step(&mut self, trial: ConceptMap)
        requires
            old(self).wf(),
            old(self).steps < usize::MAX,
        ensures
            final(self).wf(),
            final(self).steps == old(self).steps + 1,
            final(self)@ == old(self)@.step(trial@),
            final(self).e_best <= old(self).e_best,
    {
        let e_trial = trial.crossings();
        let w_old = self.weight_of(self.e);
        let w_new = self.weight_of(e_trial);
        if w_new < w_old {
            self.e = e_trial;
            if e_trial < self.e_best {
                self.e_best = e_trial;
                self.best = trial.clone();
            }
            self.current = trial;
        }
        let w = self.weight_of(self.e);
        let e = self.e;
        let ghost steps = self.steps as int;
        assert(w + e <= 1 + (steps + 1) * usize::MAX) by (nonlinear_arith)
            requires
                w <= 1 + steps * usize::MAX,
                e <= usize::MAX,
        ;
        assert((steps + 1) * usize::MAX <= 0xffff_ffff_ffff_ffff * 0xffff_ffff_ffff_ffff)
            by (nonlinear_arith)
            requires
                0 <= steps + 1 <= 0xffff_ffff_ffff_ffff,
                usize::MAX <= 0xffff_ffff_ffff_ffff,
        ;
        self.logw.insert(e, w + (e as u128));
        self.steps = self.steps + 1;
        proof {
            assert forall|k: usize| #[trigger] self.logw@.contains_key(k) implies self.logw@[k] <= 1
                + self.steps * usize::MAX by {
                if k != e {
                    assert(old(self).logw@.contains_key(k));
                    assert(steps * usize::MAX <= (steps + 1) * usize::MAX) by (nonlinear_arith)
                        requires
                            steps >= 0,
                    ;
                }
            }
            assert(self@.logw =~= old(self)@.step(trial@).logw);
        }
    }
}

impl ConceptMap {
    /// Searches for a cheaper order within the rows with the changes that
    /// `proposals` stand for, and returns the cheapest map it came by.
    pub fn optimize_with(&self, proposals: &Vec<(usize, usize, usize)>) -> (out: Self)
        ensures
            out@ == SearchView::start(self@).run(proposals@).best,
            price(out@) <= price(self@),
            same_rows(self@, out@),
            same_counts(self@, out@),
            price(self@) == 0 ==> out@ == self@,
    {
        let mut s = Search::new(self);
        let mut i: usize = 0;
        while i < proposals.len()
            invariant
                i <= proposals.len(),
                s.wf(),
                s.steps <= i,
                s@ == SearchView::start(self@).run(proposals@.take(i as int)),
            decreases proposals.len() - i,
        {
            assert(proposals@.take(i + 1).drop_last() == proposals@.take(i as int));
            if !s.done() {
                let p = proposals[i];
                let trial = s.current.propose(p.0, p.1, p.2);
                s.step(trial);
            }
            i += 1;
        }
        proof {
            assert(proposals@.take(i as int) == proposals@);
            lemma_run_never_worse(self@, proposals@);
            lemma_run_same_counts(self@, proposals@);
            if price(self@) == 0 {
                lemma_run_keeps_free_map(self@, proposals@);
            }
        }
        s.best
    }

    /// Searches for a cheaper order within the rows by proposing up to
    /// `num_iters` random changes, and returns the cheapest map it came by.
    /// It stops as soon as that map costs nothing.
    pub fn optimize(&self, num_iters: usize) -> (out: Self)
        ensures
            exists|proposals: Seq<(usize, usize, usize)>|
                proposals.len() <= num_iters && out@ == #[trigger] SearchView::start(self@).run(
                    proposals,
                ).best,
            price(out@) <= price(self@),
            same_rows(self@, out@),
            same_counts(self@, out@),
            price(self@) == 0 ==> out@ == self@,
    {
        let mut s = Search::new(self);
        let ghost mut proposals: Seq<(usize, usize, usize)> = Seq::empty();
        let mut i: usize = 0;
        while i < num_iters && !s.done()
            invariant
                i <= num_iters,
                s.wf(),
                s.steps == i,
                proposals.len() == i,
                s@ == SearchView::start(self@).run(proposals),
            decreases num_iters - i,
        {
            let a = crate::concept_map::random_number();
            let b = crate::concept_map::random_number();
            let c = crate::concept_map::random_number();
            let trial = s.current.propose(a, b, c);
            s.step(trial);
            proof {
                let before = proposals;
                proposals = proposals.push((a, b, c));
                assert(proposals.drop_last() == before);
            }
            i += 1;
        }
        proof {
            lemma_run_never_worse(self@, proposals);
            lemma_run_same_counts(self@, proposals);
            if price(self@) == 0 {
                lemma_run_keeps_free_map(self@, proposals);
            }
        }
        s.best
    }
}

} // verus!
