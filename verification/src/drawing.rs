//! From the store to the concept map: the prerequisite graph of the
//! concepts, laid out in rows and drawn with few crossings.

use crate::concept_map::{chunked, orphan_nodes, ConceptMap};
use crate::data::Data;
use crate::graph::{acyclic, ascending, endpoints, is_node};
use crate::ids::{ConceptID, NodeID};
use crate::layering::{
    distinct, edge_ids, holds, layer_concepts, layering, plain_edges, row_ids,
};
use crate::materialize::{
    adjacent, concepts_from, contains_id, free_after, holds_layer, in_layer, layered,
    leads_down, lemma_no_pass_through, lemma_real_count_insert, materialized, plain,
    real_count, stands_in, steps,
};
use crate::node::{ConceptNode, NodeView};
use crate::search::{lemma_same_rows_adjacent, SearchView};
use vstd::prelude::*;

verus! {

impl Data {
    /// The prerequisite edges of the first `n` concepts: for each concept, in
    /// the order of the store, one edge from each of its prerequisites to it.
    pub open spec fn edges_upto(&self, n: int) -> Seq<(ConceptID, ConceptID)>
        decreases n,
    {
        if n <= 0 {
            Seq::empty()
        } else {
            let c = self.concepts@[n - 1];
            self.edges_upto(n - 1) + Seq::new(
                c.prereq_concepts@.len(),
                |k: int| (c.prereq_concepts@[k], c.id),
            )
        }
    }

    /// The prerequisite edges of the store.
    pub open spec fn all_edges(&self) -> Seq<(ConceptID, ConceptID)> {
        self.edges_upto(self.concepts@.len() as int)
    }

    /// Among the first `n` concepts: those without any edge.
    pub open spec fn orphans_upto(&self, n: int) -> Seq<ConceptID>
        decreases n,
    {
        if n <= 0 {
            Seq::empty()
        } else if is_node(edge_ids(self.all_edges()), self.concepts@[n - 1].id.0) {
            self.orphans_upto(n - 1)
        } else {
            self.orphans_upto(n - 1).push(self.concepts@[n - 1].id)
        }
    }

    /// The prerequisite edges: (prerequisite, dependent).
    pub fn edges(&self) -> (out: Vec<(ConceptID, ConceptID)>)
        ensures
            out@ == self.all_edges(),
    {
        let mut out: Vec<(ConceptID, ConceptID)> = Vec::new();
        let mut i: usize = 0;
        while i < self.concepts.len()
            invariant
                i <= self.concepts.len(),
                out@ == self.edges_upto(i as int),
            decreases self.concepts.len() - i,
        {
            let c = &self.concepts[i];
            let ghost before = out@;
            let ghost all = Seq::new(
                c.prereq_concepts@.len(),
                |k: int| (c.prereq_concepts@[k], c.id),
            );
            let mut k: usize = 0;
            assert(out@ =~= before + all.take(0));
            while k < c.prereq_concepts.len()
                invariant
                    k <= c.prereq_concepts.len(),
                    all == Seq::new(c.prereq_concepts@.len(), |k: int| (c.prereq_concepts@[k], c.id)),
                    out@ == before + all.take(k as int),
                decreases c.prereq_concepts.len() - k,
            {
                out.push((c.prereq_concepts[k], c.id));
                assert(out@ =~= before + all.take(k + 1));
                k += 1;
            }
            assert(all.take(k as int) == all);
            i += 1;
        }
        out
    }

    /// The concepts that have an edge, ascending.
    pub fn nodes(&self) -> (out: Vec<ConceptID>)
        ensures
            out@.len() == crate::layering::node_seq(edge_ids(self.all_edges())).len(),
            forall|i: int|
                0 <= i < out@.len() ==> (#[trigger] out@[i]).0 == crate::layering::node_seq(
                    edge_ids(self.all_edges()),
                )[i],
    {
        let edges = self.edges();
        let raw = plain_edges(&edges);
        let ids = endpoints(&raw);
        proof {
            crate::layering::lemma_node_seq(raw@, ids@);
        }
        let mut out: Vec<ConceptID> = Vec::new();
        let mut i: usize = 0;
        while i < ids.len()
            invariant
                i <= ids.len(),
                out@.len() == i,
                forall|j: int| 0 <= j < i ==> (#[trigger] out@[j]).0 == ids@[j],
            decreases ids.len() - i,
        {
            out.push(ConceptID(ids[i]));
            i += 1;
        }
        out
    }

    /// The concepts without any edge, in the order of the store.
    pub fn orphans(&self) -> (out: Vec<ConceptID>)
        ensures
            out@ == self.orphans_upto(self.concepts@.len() as int),
    {
        let edges = self.edges();
        let raw = plain_edges(&edges);
        let ids = endpoints(&raw);
        let mut out: Vec<ConceptID> = Vec::new();
        let mut i: usize = 0;
        while i < self.concepts.len()
            invariant
                i <= self.concepts.len(),
                raw@ == edge_ids(self.all_edges()),
                forall|n: usize| ids@.contains(n) <==> is_node(raw@, n),
                out@ == self.orphans_upto(i as int),
            decreases self.concepts.len() - i,
        {
            if !contains_id(&ids, self.concepts[i].id.0) {
                out.push(self.concepts[i].id);
            }
            i += 1;
        }
        out
    }

    /// The edges of a linked store connect concepts of the store.
    pub proof fn lemma_edges(&self, n: int)
        requires
            self.linked(),
            0 <= n <= self.concepts@.len(),
        ensures
            forall|k: int|
                0 <= k < self.edges_upto(n).len() ==> (#[trigger] self.edges_upto(n)[k]).0.0
                    < self.concepts@.len() && self.edges_upto(n)[k].1.0 < self.concepts@.len(),
        decreases n,
    {
        if n > 0 {
            self.lemma_edges(n - 1);
            let e0 = self.edges_upto(n - 1);
            let e = self.edges_upto(n);
            let c = self.concepts@[n - 1];
            assert forall|k: int| 0 <= k < e.len() implies (#[trigger] e[k]).0.0
                < self.concepts@.len() && e[k].1.0 < self.concepts@.len() by {
                if k < e0.len() {
                    assert(e[k] == e0[k]);
                } else {
                    assert(e[k] == (c.prereq_concepts@[k - e0.len()], c.id));
                    assert(self.concepts@[n - 1].prereq_concepts@[k - e0.len()].0
                        < self.concepts@.len());
                }
            }
        }
    }

    /// The concepts that the orphans name are concepts of the store.
    pub proof fn lemma_orphans(&self, n: int)
        requires
            self.wf(),
            0 <= n <= self.concepts@.len(),
        ensures
            forall|k: int|
                0 <= k < self.orphans_upto(n).len() ==> (#[trigger] self.orphans_upto(n)[k]).0 < n,
        decreases n,
    {
        if n > 0 {
            self.lemma_orphans(n - 1);
            let e0 = self.orphans_upto(n - 1);
            let e = self.orphans_upto(n);
            assert forall|k: int| 0 <= k < e.len() implies (#[trigger] e[k]).0 < n by {
                if k < e0.len() {
                    assert(e[k] == e0[k]);
                }
            }
        }
    }
}

/// `after` is `before` with all that is shown of its concept: a concept that
/// was kept by its identifier alone has become the concept with its
/// relationships filled in, leading where it led; any other node is as it
/// was.
pub open spec fn made_expensive(data: &Data, before: ConceptNode, after: ConceptNode) -> bool {
    match before {
        ConceptNode::CheapConcept { concept, children } => {
            &&& after is Concept
            &&& after->Concept_children == children
            &&& data.shows_concept(concept, after->Concept_concept)
        },
        _ => after == before,
    }
}

/// The grid as it is once its concepts are shown in full.
pub open spec fn shown_grid(grid: Seq<Seq<NodeView>>) -> Seq<Seq<NodeView>> {
    Seq::new(grid.len(), |r: int| Seq::new(grid[r].len(), |k: int| grid[r][k].shown()))
}

impl ConceptNode {
    /// The node with all that is shown of its concept.
    pub fn make_expensive(self, data: &Data) -> (r: Self)
        requires
            data.linked(),
            self is CheapConcept ==> self->CheapConcept_concept.0 < data.concepts@.len(),
        ensures
            made_expensive(data, self, r),
            r@ == self@.shown(),
    {
        match self {
            ConceptNode::Concept { concept, children } => ConceptNode::Concept {
                concept,
                children,
            },
            ConceptNode::CheapConcept { concept, children } => ConceptNode::Concept {
                concept: data.concept_view(concept),
                children,
            },
            ConceptNode::Fake { fakeid, child } => ConceptNode::Fake { fakeid, child },
        }
    }
}

/// The concept nodes of the grid stand for the first `n` concepts.
pub open spec fn drawn_from(grid: Seq<Seq<NodeView>>, n: int) -> bool {
    forall|r: int, k: int|
        0 <= r < grid.len() && 0 <= k < grid[r].len() && !(#[trigger] grid[r][k]).fake
            ==> grid[r][k].id.0 < n
}

/// Every concept that a row keeps by its identifier alone is one of the
/// first `n` concepts.
pub open spec fn cheap_below(rows: Seq<Vec<ConceptNode>>, n: int) -> bool {
    forall|r: int, k: int|
        0 <= r < rows.len() && 0 <= k < rows[r]@.len() && (#[trigger] rows[r]@[k]) is CheapConcept
            ==> rows[r]@[k]->CheapConcept_concept.0 < n
}

/// The rows `after` are the rows `before`, node by node, with all that is
/// shown of their concepts.
pub open spec fn rows_made_expensive(
    data: &Data,
    before: Seq<Vec<ConceptNode>>,
    after: Seq<Vec<ConceptNode>>,
) -> bool {
    &&& after.len() == before.len()
    &&& forall|r: int| 0 <= r < before.len() ==> (#[trigger] after[r])@.len() == before[r]@.len()
    &&& forall|r: int, k: int|
        0 <= r < before.len() && 0 <= k < before[r]@.len() ==> made_expensive(
            data,
            before[r]@[k],
            #[trigger] after[r]@[k],
        )
}

impl ConceptMap {
    /// The map with all that is shown of its concepts: the same nodes in the
    /// same places; a concept that was kept by its identifier alone, which
    /// must name a concept of the store, comes with its relationships
    /// filled in, and every other node is as it was.
    pub fn make_expensive(self, data: &Data) -> (r: Self)
        requires
            data.linked(),
            cheap_below(self.rows@, data.concepts@.len() as int),
        ensures
            rows_made_expensive(data, self.rows@, r.rows@),
            r@ == shown_grid(self@),
    {
        let ghost before = self.rows@;
        let mut rows = self.rows;
        let mut out: Vec<Vec<ConceptNode>> = Vec::new();
        while rows.len() > 0
            invariant
                data.linked(),
                cheap_below(before, data.concepts@.len() as int),
                rows@.len() + out@.len() == before.len(),
                forall|j: int| 0 <= j < rows@.len() ==> #[trigger] rows@[j]
                    == before[out@.len() + j],
                forall|r: int| 0 <= r < out@.len() ==> (#[trigger] out@[r])@.len()
                    == before[r]@.len(),
                forall|r: int, k: int|
                    0 <= r < out@.len() && 0 <= k < before[r]@.len() ==> made_expensive(
                        data,
                        before[r]@[k],
                        #[trigger] out@[r]@[k],
                    ),
                forall|r: int, k: int|
                    0 <= r < out@.len() && 0 <= k < before[r]@.len() ==> (
                    #[trigger] out@[r]@[k])@ == before[r]@[k]@.shown(),
            decreases rows.len(),
        {
            let ghost at = out@.len() as int;
            let mut row = rows.remove(0);
            let ghost row0 = row@;
            assert(row0 == before[at]@);
            let mut shown: Vec<ConceptNode> = Vec::new();
            while row.len() > 0
                invariant
                    data.linked(),
                    0 <= at < before.len(),
                    row0 == before[at]@,
                    cheap_below(before, data.concepts@.len() as int),
                    row@.len() + shown@.len() == row0.len(),
                    forall|j: int| 0 <= j < row@.len() ==> #[trigger] row@[j]
                        == row0[shown@.len() + j],
                    forall|k: int|
                        0 <= k < shown@.len() ==>
                            made_expensive(data, row0[k], #[trigger] shown@[k]),
                    forall|k: int|
                        0 <= k < shown@.len() ==> (#[trigger] shown@[k])@ == row0[k]@.shown(),
                decreases row.len(),
            {
                let ghost here = shown@.len() as int;
                let node = row.remove(0);
                assert(node == before[at]@[here]);
                shown.push(node.make_expensive(data));
            }
            out.push(shown);
        }
        let r = ConceptMap { rows: out };
        assert(r@ =~~= shown_grid(self@));
        r
    }
}

impl Data {
    /// The rows that the concepts with edges are laid out in.
    pub open spec fn layers(&self, max_width: usize) -> Seq<Seq<usize>> {
        layering(edge_ids(self.all_edges()), max_width)
    }

    /// The grid that is drawn for the concepts with edges, before the search
    /// for a cheaper order.
    pub open spec fn first_grid(&self, max_width: usize) -> Seq<Seq<NodeView>> {
        materialized(
            self.layers(max_width),
            edge_ids(self.all_edges()),
            self.concepts@.len() as int,
        )
    }

    /// The node is a pass-through node, or a concept of the store with its
    /// relationships filled in.
    pub open spec fn shows_node(&self, node: ConceptNode) -> bool {
        match node {
            ConceptNode::Concept { concept, .. } => concept.id.0 < self.concepts@.len()
                && self.shows_concept(concept.id, concept),
            ConceptNode::CheapConcept { .. } => false,
            ConceptNode::Fake { .. } => true,
        }
    }

    /// The concept map: the concepts with edges in rows of at most
    /// `max_width`, prerequisites above dependents, with pass-through nodes
    /// where an edge crosses a row; the rows in the cheapest order that a
    /// search with up to `num_iters` random changes came by; below them the
    /// concepts without edges, in rows of `max_width`. An empty map where no
    /// concept has an edge, whatever the width. Nothing where the
    /// identifiers for the pass-through nodes run out.
    ///
    /// Where a concept has an edge: no row holds more than `max_width`
    /// concepts; every concept of the store has exactly one node in the map,
    /// whether the edges hold a cycle or not; unless they do, every edge of
    /// the map leads from its row to the next; where every edge leads from
    /// its layer to the next, the map holds no pass-through node; and every
    /// concept of the map comes with its relationships filled in.
    pub fn concept_map(&self, max_width: usize, num_iters: usize) -> (r: Option<ConceptMap>)
        requires
            self.linked(),
            max_width > 0 || self.all_edges().len() == 0,
        ensures
            match r {
                None => self.all_edges().len() > 0 && free_after(
                    self.layers(max_width),
                    edge_ids(self.all_edges()),
                    self.concepts@.len() as int,
                ) > usize::MAX && !steps(self.layers(max_width), edge_ids(self.all_edges())),
                Some(m) => if self.all_edges().len() == 0 {
                    m.rows@.len() == 0
                } else {
                    let n = self.layers(max_width).len() as int;
                    &&& max_width > 0
                    &&& n > 0
                    &&& forall|i: int, k: int|
                        0 <= i < m.rows@.len() && 0 <= k < m.rows@[i]@.len() ==> self.shows_node(
                            #[trigger] m.rows@[i]@[k],
                        )
                    &&& free_after(
                        self.layers(max_width),
                        edge_ids(self.all_edges()),
                        self.concepts@.len() as int,
                    ) <= usize::MAX
                    &&& exists|proposals: Seq<(usize, usize, usize)>|
                        proposals.len() <= num_iters && m@ == shown_grid(
                            #[trigger] SearchView::start(self.first_grid(max_width)).run(
                                proposals,
                            ).best + chunked(
                                orphan_nodes(self.orphans_upto(self.concepts@.len() as int)),
                                max_width as int,
                            ),
                        )
                    &&& m@.len() >= n
                    &&& forall|i: int| 0 <= i < n ==> real_count(#[trigger] m@[i]) <= max_width
                    &&& forall|i: int|
                        0 <= i < n ==> real_count(#[trigger] m@[i])
                            == self.layers(max_width)[i].len() && holds_layer(
                            m@[i],
                            self.layers(max_width)[i],
                        )
                    &&& forall|c: usize| c < self.concepts@.len() ==> once(m@, c)
                    &&& steps(self.layers(max_width), edge_ids(self.all_edges())) ==> forall|
                        i: int,
                        k: int,
                    |
                        0 <= i < m@.len() && 0 <= k < m@[i].len() ==> !(#[trigger] m@[i][k]).fake
                    &&& acyclic(edge_ids(self.all_edges())) ==> adjacent(m@.take(n))
                },
            },
    {
        let edges = self.edges();
        let layers = layer_concepts(self.edges(), max_width);
        if layers.len() == 0 {
            proof {
                // an edge would have its nodes in a row
                let e = edge_ids(self.all_edges());
                if e.len() > 0 {
                    assert(is_node(e, e[0].0));
                    assert(holds(row_ids(layers@), e[0].0));
                }
            }
            return Some(ConceptMap { rows: Vec::new() });
        }
        let ghost e = edge_ids(self.all_edges());
        let ghost lv = row_ids(layers@);
        let ghost first = self.concepts@.len() as int;
        proof {
            // a row holds a node, which has an edge
            assert(1 <= lv[0].len());
            assert(holds(lv, lv[0][0]));
            assert(is_node(e, lv[0][0]));
            assert(e.len() > 0);
        }
        proof {
            if steps(lv, e) {
                lemma_no_pass_through(lv, e, first);
            }
        }
        let grid = match ConceptMap::materialize(&layers, &edges, self.concepts.len()) {
            Some(g) => g,
            None => {
                return None;
            },
        };
        let mut best = grid.optimize(num_iters);
        let ghost found = best@;
        let orphans = self.orphans();
        best.append_orphans(&orphans, max_width);
        proof {
            let n = lv.len() as int;
            self.lemma_edges(self.concepts@.len() as int);
            self.lemma_orphans(self.concepts@.len() as int);
            // the concepts of the layers are concepts of the store
            assert forall|r: int, k: int| 0 <= r < lv.len() && 0 <= k < lv[r].len() implies (
            #[trigger] lv[r][k]) < first by {
                assert(holds(lv, lv[r][k]));
                assert(is_node(e, lv[r][k]));
                let i = choose|i: int|
                    0 <= i < e.len() && ((#[trigger] e[i]).0 == lv[r][k] || e[i].1 == lv[r][k]);
                assert(self.all_edges()[i].0.0 < first && self.all_edges()[i].1.0 < first);
            }
            // no row holds more than `max_width` concepts
            assert forall|i: int| 0 <= i < n implies real_count(#[trigger] best@[i])
                <= max_width by {
                assert(best@[i] == found[i]);
                assert(real_count(grid@[i]) == real_count(found[i]));
                assert(1 <= lv[i].len());
            }
            // every concept with an edge has its node in the row of its layer
            assert forall|i: int| 0 <= i < n implies real_count(#[trigger] best@[i])
                == lv[i].len() && holds_layer(best@[i], lv[i]) by {
                broadcast use vstd::seq_lib::group_to_multiset_ensures;

                assert(best@[i] == found[i]);
                assert(real_count(grid@[i]) == real_count(found[i]));
                assert(holds_layer(grid@[i], lv[i]));
                assert(grid@[i].to_multiset() == found[i].to_multiset());
                assert forall|k: int| 0 <= k < lv[i].len() implies stands_in(
                    found[i],
                    #[trigger] lv[i][k],
                ) by {
                    let row = grid@[i];
                    let j = choose|j: int|
                        0 <= j < row.len() && (#[trigger] row[j]).id == NodeID(lv[i][k])
                            && !row[j].fake;
                    let x = row[j];
                    assert(row.contains(x));
                    assert(row.to_multiset().count(x) > 0);
                    assert(found[i].contains(x));
                    let j2 = choose|j2: int| 0 <= j2 < found[i].len() && found[i][j2] == x;
                    assert(found[i][j2].id == NodeID(lv[i][k]) && !found[i][j2].fake);
                }
            }
            // the concept nodes stand for concepts of the store
            assert(drawn_from(best@, first)) by {
                broadcast use vstd::seq_lib::group_to_multiset_ensures;

                let tail = chunked(orphan_nodes(orphans@), max_width as int);
                lemma_chunked(orphan_nodes(orphans@), max_width as int);
                assert forall|r: int, k: int|
                    0 <= r < best@.len() && 0 <= k < best@[r].len() && !(
                    #[trigger] best@[r][k]).fake implies best@[r][k].id.0 < first by {
                    let x = best@[r][k];
                    if r < n {
                        assert(best@[r] == found[r]);
                        assert(grid@[r].to_multiset() == found[r].to_multiset());
                        assert(found[r].contains(x));
                        assert(found[r].to_multiset().count(x) > 0);
                        assert(grid@[r].contains(x));
                        let k0 = choose|k0: int| 0 <= k0 < grid@[r].len() && grid@[r][k0] == x;
                        assert(concepts_from(grid@[r], lv[r]));
                        assert(in_layer(lv[r], grid@[r][k0].id));
                    } else {
                        assert(best@[r] == tail[r - n]);
                        assert(tail[r - n].contains(x));
                        assert(orphan_nodes(orphans@).contains(x));
                        let j = choose|j: int|
                            0 <= j < orphan_nodes(orphans@).len() && orphan_nodes(orphans@)[j] == x;
                        assert(orphans@[j].0 < first);
                    }
                }
            }
            if acyclic(e) {
                assert(layered(lv, e, first));
                lemma_same_rows_adjacent(grid@, found);
                assert(best@.take(n) =~= found);
            }
            assert(grid@ == self.first_grid(max_width));
            let proposals = choose|proposals: Seq<(usize, usize, usize)>|
                proposals.len() <= num_iters && found == #[trigger] SearchView::start(grid@).run(
                    proposals,
                ).best;
            assert(best@ == SearchView::start(self.first_grid(max_width)).run(proposals).best
                + chunked(
                orphan_nodes(self.orphans_upto(self.concepts@.len() as int)),
                max_width as int,
            ));
            // no concept comes with its relationships yet
            assert forall|r: int, k: int|
                0 <= r < best@.len() && 0 <= k < best@[r].len() implies (
            #[trigger] best@[r][k]).fake || best@[r][k].cheap by {
                broadcast use vstd::seq_lib::group_to_multiset_ensures;

                let tail = chunked(orphan_nodes(orphans@), max_width as int);
                lemma_chunked(orphan_nodes(orphans@), max_width as int);
                let x = best@[r][k];
                if r < n {
                    assert(best@[r] == found[r]);
                    assert(grid@[r].to_multiset() == found[r].to_multiset());
                    assert(found[r].contains(x));
                    assert(found[r].to_multiset().count(x) > 0);
                    assert(grid@[r].contains(x));
                    let k0 = choose|k0: int| 0 <= k0 < grid@[r].len() && grid@[r][k0] == x;
                    assert(plain(grid.rows@[r]@));
                    assert(!(grid.rows@[r]@[k0] is Concept));
                    assert(grid.rows@[r]@[k0]@ == x);
                } else {
                    assert(best@[r] == tail[r - n]);
                    assert(tail[r - n].contains(x));
                    assert(orphan_nodes(orphans@).contains(x));
                }
            }
            assert(cheap_below(best.rows@, first)) by {
                assert forall|r: int, k: int|
                    0 <= r < best.rows@.len() && 0 <= k < best.rows@[r]@.len() && (
                    #[trigger] best.rows@[r]@[k]) is CheapConcept
                        implies best.rows@[r]@[k]->CheapConcept_concept.0
                    < first by {
                    assert(best@[r][k] == best.rows@[r]@[k]@);
                    assert(!best@[r][k].fake);
                }
            }
        }
        proof {
            // every concept stands once
            let n = lv.len() as int;
            assert forall|i: int| 0 <= i < n implies concepts_from(#[trigger] best@[i], lv[i]) by {
                broadcast use vstd::seq_lib::group_to_multiset_ensures;

                assert(best@[i] == found[i]);
                assert(grid@[i].to_multiset() == found[i].to_multiset());
                assert(concepts_from(grid@[i], lv[i]));
                assert forall|k: int| 0 <= k < found[i].len() && !(
                #[trigger] found[i][k]).fake implies in_layer(lv[i], found[i][k].id) by {
                    let x = found[i][k];
                    assert(found[i].contains(x));
                    assert(found[i].to_multiset().count(x) > 0);
                    assert(grid@[i].contains(x));
                    let k0 = choose|k0: int| 0 <= k0 < grid@[i].len() && grid@[i][k0] == x;
                    assert(in_layer(lv[i], grid@[i][k0].id));
                }
            }
            assert forall|c: usize| is_node(e, c) implies c < self.concepts@.len() by {
                let i = choose|i: int|
                    0 <= i < e.len() && ((#[trigger] e[i]).0 == c || e[i].1 == c);
                assert(self.all_edges()[i].0.0 < first && self.all_edges()[i].1.0 < first);
            }
            assert(best@.skip(n) =~= chunked(
                orphan_nodes(self.orphans_upto(self.concepts@.len() as int)),
                max_width as int,
            ));
            self.lemma_every_concept_once(best@, max_width);
            // no pass-through node where none is needed
            if steps(lv, e) {
                assert forall|r: int, k: int|
                    0 <= r < best@.len() && 0 <= k < best@[r].len() implies !(
                #[trigger] best@[r][k]).fake by {
                    broadcast use vstd::seq_lib::group_to_multiset_ensures;

                    let tail = chunked(orphan_nodes(orphans@), max_width as int);
                    lemma_chunked(orphan_nodes(orphans@), max_width as int);
                    let x = best@[r][k];
                    if r < n {
                        assert(best@[r] == found[r]);
                        assert(grid@[r].to_multiset() == found[r].to_multiset());
                        assert(found[r].contains(x));
                        assert(found[r].to_multiset().count(x) > 0);
                        assert(grid@[r].contains(x));
                        let k0 = choose|k0: int| 0 <= k0 < grid@[r].len() && grid@[r][k0] == x;
                        assert(!grid@[r][k0].fake);
                    } else {
                        assert(best@[r] == tail[r - n]);
                        assert(tail[r - n].contains(x));
                        assert(orphan_nodes(orphans@).contains(x));
                    }
                }
            }
        }
        let ghost before = best.rows@;
        let ghost bare = best@;
        let m = best.make_expensive(self);
        proof {
            let n = lv.len() as int;
            lemma_shown_grid(bare, self.layers(max_width), n);
            assert forall|c: usize| c < self.concepts@.len() implies once(m@, c) by {
                lemma_shown_once(bare, c);
            }
            if steps(lv, e) {
                assert forall|i: int, k: int| 0 <= i < m@.len() && 0 <= k < m@[i].len() implies !(
                #[trigger] m@[i][k]).fake by {
                    assert(m@[i][k] == bare[i][k].shown());
                }
            }
            assert forall|i: int, k: int|
                0 <= i < m.rows@.len() && 0 <= k < m.rows@[i]@.len() implies self.shows_node(
                #[trigger] m.rows@[i]@[k],
            ) by {
                assert(made_expensive(self, before[i]@[k], m.rows@[i]@[k]));
                assert(bare[i][k] == before[i]@[k]@);
                assert(bare[i][k].fake || bare[i][k].cheap);
            }
        }
        Some(m)
    }
}

/// A row holds as many concepts once they are shown in full.
pub proof fn lemma_shown_count(grid: Seq<Seq<NodeView>>, r: int, n: int)
    requires
        0 <= r < grid.len(),
        0 <= n <= grid[r].len(),
    ensures
        real_count(shown_grid(grid)[r].take(n)) == real_count(grid[r].take(n)),
    decreases n,
{
    if n > 0 {
        lemma_shown_count(grid, r, n - 1);
        assert(shown_grid(grid)[r].take(n).drop_last() =~= shown_grid(grid)[r].take(n - 1));
        assert(grid[r].take(n).drop_last() =~= grid[r].take(n - 1));
    }
}

/// Showing the concepts in full changes neither how many concepts a row
/// holds, nor which, nor where the edges lead.
pub proof fn lemma_shown_grid(grid: Seq<Seq<NodeView>>, layers: Seq<Seq<usize>>, n: int)
    requires
        0 <= n <= grid.len(),
        n <= layers.len(),
    ensures
        shown_grid(grid).len() == grid.len(),
        forall|i: int|
            0 <= i < grid.len() ==> real_count(#[trigger] shown_grid(grid)[i]) == real_count(
                grid[i],
            ),
        forall|i: int|
            0 <= i < n && holds_layer(grid[i], layers[i]) ==> holds_layer(
                #[trigger] shown_grid(grid)[i],
                layers[i],
            ),
        adjacent(grid.take(n)) ==> adjacent(shown_grid(grid).take(n)),
{
    let s = shown_grid(grid);
    assert forall|i: int| 0 <= i < grid.len() implies real_count(#[trigger] s[i]) == real_count(
        grid[i],
    ) by {
        lemma_shown_count(grid, i, grid[i].len() as int);
        assert(s[i].take(grid[i].len() as int) =~= s[i]);
        assert(grid[i].take(grid[i].len() as int) =~= grid[i]);
    }
    assert forall|i: int| 0 <= i < n && holds_layer(grid[i], layers[i]) implies holds_layer(
        #[trigger] s[i],
        layers[i],
    ) by {
        assert forall|k: int| 0 <= k < layers[i].len() implies stands_in(
            s[i],
            #[trigger] layers[i][k],
        ) by {
            assert(stands_in(grid[i], layers[i][k]));
            let j = choose|j: int|
                0 <= j < grid[i].len() && (#[trigger] grid[i][j]).id == NodeID(layers[i][k])
                    && !grid[i][j].fake;
            assert(s[i][j].id == NodeID(layers[i][k]) && !s[i][j].fake);
        }
    }
    if adjacent(grid.take(n)) {
        let g = grid.take(n);
        let t = s.take(n);
        assert forall|r: int, k: int, h: int|
            0 <= r < t.len() && 0 <= k < t[r].len() && 0 <= h < t[r][k].children.len()
                implies leads_down(
            t,
            r,
            #[trigger] t[r][k].children[h],
        ) by {
            assert(t[r][k].children[h] == g[r][k].children[h]);
            assert(leads_down(g, r, g[r][k].children[h]));
            let c = g[r][k].children[h];
            let j = choose|j: int| 0 <= j < g[r + 1].len() && (#[trigger] g[r + 1][j]).id == c;
            assert(t[r + 1][j].id == c);
        }
    }
}

/// What stands in a row of the chunks stands among the nodes.
pub proof fn lemma_chunked(nodes: Seq<NodeView>, width: int)
    requires
        width > 0,
    ensures
        forall|r: int, x: NodeView|
            0 <= r < chunked(nodes, width).len() && #[trigger] chunked(nodes, width)[r].contains(x)
                ==> nodes.contains(x),
    decreases nodes.len(),
{
    if nodes.len() > width {
        let rest = nodes.skip(width);
        lemma_chunked(rest, width);
        let all = chunked(nodes, width);
        assert forall|r: int, x: NodeView|
            0 <= r < all.len() && #[trigger] all[r].contains(x) implies nodes.contains(x) by {
            if r == 0 {
                let k = choose|k: int| 0 <= k < nodes.take(width).len() && nodes.take(width)[k]
                    == x;
                assert(nodes[k] == x);
            } else {
                assert(all[r] == chunked(rest, width)[r - 1]);
                assert(rest.contains(x));
                let k = choose|k: int| 0 <= k < rest.len() && rest[k] == x;
                assert(nodes[k + width] == x);
            }
        }
    }
}

/// A node that stands for the concept `c` is at place `k` of row `r`.
pub open spec fn stands_at(grid: Seq<Seq<NodeView>>, c: usize, r: int, k: int) -> bool {
    &&& 0 <= r < grid.len()
    &&& 0 <= k < grid[r].len()
    &&& grid[r][k].id == NodeID(c)
    &&& !grid[r][k].fake
}

/// Exactly one node of the grid stands for the concept `c`.
pub open spec fn once(grid: Seq<Seq<NodeView>>, c: usize) -> bool {
    exists|r: int, k: int| #[trigger]
        stands_at(grid, c, r, k) && forall|r2: int, k2: int| #[trigger]
            stands_at(grid, c, r2, k2) ==> r2 == r && k2 == k
}

/// No concept stands twice in the layer.
pub open spec fn no_twice(layer: Seq<usize>) -> bool {
    forall|a: int, b: int| 0 <= a < b < layer.len() ==> layer[a] != layer[b]
}

/// A row that holds every concept of a layer holds as many concept nodes as
/// the layer holds concepts, or more.
pub proof fn lemma_holds_count(row: Seq<NodeView>, layer: Seq<usize>)
    requires
        holds_layer(row, layer),
        no_twice(layer),
    ensures
        real_count(row) >= layer.len(),
    decreases layer.len(),
{
    if layer.len() > 0 {
        let last = layer.len() - 1;
        let c = layer[last];
        assert(stands_in(row, layer[last]));
        let j = choose|j: int|
            0 <= j < row.len() && (#[trigger] row[j]).id == NodeID(c) && !row[j].fake;
        let rest = row.remove(j);
        let front = layer.drop_last();
        assert forall|k: int| 0 <= k < front.len() implies stands_in(rest, #[trigger] front[k]) by {
            assert(stands_in(row, layer[k]));
            let d = layer[k];
            let h = choose|h: int|
                0 <= h < row.len() && (#[trigger] row[h]).id == NodeID(d) && !row[h].fake;
            assert(d != c);
            if h < j {
                assert(rest[h] == row[h]);
            } else {
                assert(rest[h - 1] == row[h]);
            }
        }
        lemma_holds_count(rest, front);
        assert(rest.insert(j, row[j]) =~= row);
        lemma_real_count_insert(rest, j, row[j]);
    }
}

/// In a row that holds every concept of a layer, and as many concept nodes as
/// the layer holds concepts, no two concept nodes stand for the same.
pub proof fn lemma_once_in_row(row: Seq<NodeView>, layer: Seq<usize>, a: int, b: int)
    requires
        holds_layer(row, layer),
        no_twice(layer),
        real_count(row) == layer.len(),
        0 <= a < row.len(),
        0 <= b < row.len(),
        !row[a].fake,
        !row[b].fake,
        row[a].id == row[b].id,
    ensures
        a == b,
{
    if a != b {
        let rest = row.remove(b);
        assert forall|k: int| 0 <= k < layer.len() implies stands_in(rest, #[trigger] layer[k]) by {
            assert(stands_in(row, layer[k]));
            let d = layer[k];
            let h0 = choose|h: int|
                0 <= h < row.len() && (#[trigger] row[h]).id == NodeID(d) && !row[h].fake;
            let h = if h0 == b {
                a
            } else {
                h0
            };
            if h < b {
                assert(rest[h] == row[h]);
            } else {
                assert(rest[h - 1] == row[h]);
            }
        }
        lemma_holds_count(rest, layer);
        assert(rest.insert(b, row[b]) =~= row);
        lemma_real_count_insert(rest, b, row[b]);
    }
}

/// Where the nodes stand in the chunks: place `k` of row `r` holds the node
/// at `r * width + k`.
pub proof fn lemma_chunk_place(nodes: Seq<NodeView>, width: int, r: int, k: int)
    requires
        width > 0,
        0 <= r < chunked(nodes, width).len(),
        0 <= k < chunked(nodes, width)[r].len(),
    ensures
        k < width,
        0 <= r * width + k < nodes.len(),
        chunked(nodes, width)[r][k] == nodes[r * width + k],
    decreases nodes.len(),
{
    if nodes.len() > width {
        let rest = nodes.skip(width);
        if r > 0 {
            assert(chunked(nodes, width)[r] == chunked(rest, width)[r - 1]);
            lemma_chunk_place(rest, width, r - 1, k);
            assert((r - 1) * width + width == r * width) by (nonlinear_arith);
            assert(rest[(r - 1) * width + k] == nodes[(r - 1) * width + k + width]);
        } else {
            assert(chunked(nodes, width)[0] == nodes.take(width));
        }
    } else {
        assert(chunked(nodes, width) =~= seq![nodes]);
    }
}

/// Every node stands in the chunks: the node at `j` at the place that
/// `lemma_chunk_place` speaks of.
pub proof fn lemma_chunk_of(nodes: Seq<NodeView>, width: int, j: int) -> (at: (int, int))
    requires
        width > 0,
        0 <= j < nodes.len(),
    ensures
        0 <= at.0 < chunked(nodes, width).len(),
        0 <= at.1 < chunked(nodes, width)[at.0].len(),
        at.0 * width + at.1 == j,
    decreases nodes.len(),
{
    if nodes.len() > width {
        if j < width {
            assert(chunked(nodes, width)[0] == nodes.take(width));
            (0, j)
        } else {
            let rest = nodes.skip(width);
            let at = lemma_chunk_of(rest, width, j - width);
            assert(chunked(nodes, width)[at.0 + 1] == chunked(rest, width)[at.0]);
            assert((at.0 + 1) * width == at.0 * width + width) by (nonlinear_arith);
            (at.0 + 1, at.1)
        }
    } else {
        assert(chunked(nodes, width) =~= seq![nodes]);
        (0, j)
    }
}

impl Data {
    /// The concepts without an edge, in rising order: each of the first `n`
    /// concepts that has no edge, and no other.
    pub proof fn lemma_orphans_exact(&self, n: int)
        requires
            self.wf(),
            0 <= n <= self.concepts@.len(),
        ensures
            forall|k: int|
                0 <= k < self.orphans_upto(n).len() ==> (#[trigger] self.orphans_upto(n)[k]).0 < n
                    && !is_node(edge_ids(self.all_edges()), self.orphans_upto(n)[k].0),
            forall|a: int, b: int|
                0 <= a < b < self.orphans_upto(n).len() ==> self.orphans_upto(n)[a].0
                    < self.orphans_upto(n)[b].0,
            forall|c: usize|
                c < n && !is_node(edge_ids(self.all_edges()), c) ==> exists|k: int|
                    0 <= k < self.orphans_upto(n).len() && (#[trigger] self.orphans_upto(n)[k]).0
                        == c,
        decreases n,
    {
        if n > 0 {
            self.lemma_orphans_exact(n - 1);
            let o0 = self.orphans_upto(n - 1);
            let o = self.orphans_upto(n);
            let e = edge_ids(self.all_edges());
            assert(self.concepts@[n - 1].id.0 == n - 1);
            assert forall|k: int| 0 <= k < o.len() implies (#[trigger] o[k]).0 < n && !is_node(
                e,
                o[k].0,
            ) by {
                if k < o0.len() {
                    assert(o[k] == o0[k]);
                }
            }
            assert forall|a: int, b: int| 0 <= a < b < o.len() implies o[a].0 < o[b].0 by {
                if b < o0.len() {
                    assert(o[a] == o0[a] && o[b] == o0[b]);
                } else {
                    assert(o[a] == o0[a]);
                }
            }
            assert forall|c: usize| c < n && !is_node(e, c) implies exists|k: int|
                0 <= k < o.len() && (#[trigger] o[k]).0 == c by {
                if c < n - 1 {
                    let k = choose|k: int| 0 <= k < o0.len() && (#[trigger] o0[k]).0 == c;
                    assert(o[k].0 == c);
                } else {
                    assert(o[o.len() - 1].0 == c);
                }
            }
        }
    }

    /// Every concept of the store has exactly one node in a grid of which
    /// the first rows hold the concepts of the layers, as many concept nodes
    /// as concepts, and the rows after them the concepts without an edge.
    pub proof fn lemma_every_concept_once(&self, grid: Seq<Seq<NodeView>>, max_width: usize)
        requires
            self.wf(),
            max_width > 0,
            distinct(self.layers(max_width)),
            forall|c: usize|
                holds(self.layers(max_width), c) <==> is_node(edge_ids(self.all_edges()), c),
            forall|c: usize| is_node(edge_ids(self.all_edges()), c) ==> c < self.concepts@.len(),
            grid.len() >= self.layers(max_width).len(),
            forall|i: int|
                0 <= i < self.layers(max_width).len() ==> real_count(#[trigger] grid[i])
                    == self.layers(max_width)[i].len() && holds_layer(
                    grid[i],
                    self.layers(max_width)[i],
                ) && concepts_from(grid[i], self.layers(max_width)[i]),
            grid.skip(self.layers(max_width).len() as int) == chunked(
                orphan_nodes(self.orphans_upto(self.concepts@.len() as int)),
                max_width as int,
            ),
        ensures
            forall|c: usize| c < self.concepts@.len() ==> once(grid, c),
    {
        let lv = self.layers(max_width);
        let e = edge_ids(self.all_edges());
        let n = lv.len() as int;
        let w = max_width as int;
        let o = self.orphans_upto(self.concepts@.len() as int);
        let nodes = orphan_nodes(o);
        let tail = chunked(nodes, w);
        self.lemma_orphans_exact(self.concepts@.len() as int);
        // what stands in the rows of the layers has an edge, what stands below has none
        assert forall|c: usize, r: int, k: int| #[trigger]
            stands_at(grid, c, r, k) && r < n implies is_node(e, c) && exists|h: int|
            0 <= h < lv[r].len() && lv[r][h] == c by {
            assert(concepts_from(grid[r], lv[r]));
            assert(in_layer(lv[r], grid[r][k].id));
            let h = choose|h: int| 0 <= h < lv[r].len() && NodeID(#[trigger] lv[r][h])
                == grid[r][k].id;
            assert(lv[r][h] == c);
            assert(holds(lv, c));
        }
        assert forall|c: usize, r: int, k: int| #[trigger]
            stands_at(grid, c, r, k) && r >= n implies !is_node(e, c) && 0 <= (r - n) * w + k
            < o.len() && o[(r - n) * w + k].0 == c && k < w by {
            assert(grid[r] == grid.skip(n)[r - n]);
            lemma_chunk_place(nodes, w, r - n, k);
        }
        assert forall|c: usize| c < self.concepts@.len() implies once(grid, c) by {
            if is_node(e, c) {
                assert(holds(lv, c));
                let (i, h) = choose|i: int, h: int|
                    0 <= i < lv.len() && 0 <= h < lv[i].len() && lv[i][h] == c;
                assert(stands_in(grid[i], lv[i][h]));
                let j = choose|j: int|
                    0 <= j < grid[i].len() && (#[trigger] grid[i][j]).id == NodeID(c)
                        && !grid[i][j].fake;
                assert(stands_at(grid, c, i, j));
                assert forall|r2: int, k2: int| #[trigger]
                    stands_at(grid, c, r2, k2) implies r2 == i && k2 == j by {
                    if r2 < n {
                        let h2 = choose|h2: int| 0 <= h2 < lv[r2].len() && lv[r2][h2] == c;
                        assert(lv[r2][h2] == lv[i][h]);
                        assert(r2 == i);
                        assert(no_twice(lv[i])) by {
                            assert forall|a: int, b: int| 0 <= a < b < lv[i].len() implies lv[i][a]
                                != lv[i][b] by {
                                if lv[i][a] == lv[i][b] {
                                    assert(a == b);
                                }
                            }
                        }
                        lemma_once_in_row(grid[i], lv[i], k2, j);
                    }
                }
            } else {
                let jj = choose|jj: int| 0 <= jj < o.len() && (#[trigger] o[jj]).0 == c;
                let at = lemma_chunk_of(nodes, w, jj);
                lemma_chunk_place(nodes, w, at.0, at.1);
                assert(grid[n + at.0] == grid.skip(n)[at.0]);
                assert(stands_at(grid, c, n + at.0, at.1));
                assert forall|r2: int, k2: int| #[trigger]
                    stands_at(grid, c, r2, k2) implies r2 == n + at.0 && k2 == at.1 by {
                    if r2 >= n {
                        let j2 = (r2 - n) * w + k2;
                        if j2 < jj {
                            assert(o[j2].0 < o[jj].0);
                        } else if jj < j2 {
                            assert(o[jj].0 < o[j2].0);
                        }
                        assert((r2 - n) * w + k2 == at.0 * w + at.1);
                        assert(r2 - n == at.0 && k2 == at.1) by (nonlinear_arith)
                            requires
                                (r2 - n) * w + k2 == at.0 * w + at.1,
                                0 <= k2 < w,
                                0 <= at.1 < w,
                                0 <= r2 - n,
                                0 <= at.0,
                        ;
                    }
                }
            }
        }
    }
}

/// A concept has exactly one node in the grid where it has once its concepts
/// are shown in full.
pub proof fn lemma_shown_once(grid: Seq<Seq<NodeView>>, c: usize)
    requires
        once(grid, c),
    ensures
        once(shown_grid(grid), c),
{
    let s = shown_grid(grid);
    let (r, k) = choose|r: int, k: int| #[trigger]
        stands_at(grid, c, r, k) && forall|r2: int, k2: int| #[trigger]
            stands_at(grid, c, r2, k2) ==> r2 == r && k2 == k;
    assert(stands_at(s, c, r, k));
    assert forall|r2: int, k2: int| #[trigger] stands_at(s, c, r2, k2) implies r2 == r && k2
        == k by {
        assert(stands_at(grid, c, r2, k2));
    }
}

} // verus!
