//! The nodes of the drawn graph.

use crate::concept::ConceptView;
use crate::ids::{ConceptID, NodeID};
use vstd::prelude::*;

verus! {

/// A node of the concept map.
#[allow(inconsistent_fields)]
#[derive(Debug, PartialEq, Eq)]
pub enum ConceptNode {
    /// A concept with all that is shown of it.
    Concept { concept: ConceptView, children: Vec<NodeID> },
    /// A concept of which only the identifier is kept.
    CheapConcept { concept: ConceptID, children: Vec<NodeID> },
    /// A pass-through node, which carries the edge to `child` across a row.
    Fake { fakeid: NodeID, child: NodeID },
}

/// What the layout sees of a node: its identity, the nodes that its edges
/// lead to, whether it is a pass-through node, and whether it is a concept of
/// which only the identifier is kept.
pub struct NodeView {
    pub id: NodeID,
    pub children: Seq<NodeID>,
    pub fake: bool,
    pub cheap: bool,
}

/// `children` with every `from` turned into `to`.
pub open spec fn rerouted(children: Seq<NodeID>, from: NodeID, to: NodeID) -> Seq<NodeID> {
    Seq::new(
        children.len(),
        |i: int|
            if children[i] == from {
                to
            } else {
                children[i]
            },
    )
}

impl NodeView {
    /// The node with every edge to `from` led to `to`.
    pub open spec fn replace_child(self, from: NodeID, to: NodeID) -> NodeView {
        NodeView { children: rerouted(self.children, from, to), ..self }
    }

    /// The node as it is once its concept is shown in full.
    pub open spec fn shown(self) -> NodeView {
        NodeView { cheap: false, ..self }
    }
}

impl View for ConceptNode {
    type V = NodeView;

    open spec fn view(&self) -> NodeView {
        match self {
            ConceptNode::Concept { concept, children } => NodeView {
                id: NodeID(concept.id.0),
                children: children@,
                fake: false,
                cheap: false,
            },
            ConceptNode::CheapConcept { concept, children } => NodeView {
                id: NodeID(concept.0),
                children: children@,
                fake: false,
                cheap: true,
            },
            ConceptNode::Fake { fakeid, child } => NodeView {
                id: *fakeid,
                children: seq![*child],
                fake: true,
                cheap: false,
            },
        }
    }
}

/// A copy of a list of node identifiers.
pub fn copy_ids(ids: &Vec<NodeID>) -> (out: Vec<NodeID>)
    ensures
        out@ == ids@,
{
    let mut out: Vec<NodeID> = Vec::new();
    let mut i: usize = 0;
    while i < ids.len()
        invariant
            i <= ids.len(),
            out@ == ids@.take(i as int),
        decreases ids.len() - i,
    {
        out.push(ids[i]);
        assert(ids@.take(i + 1) == ids@.take(i as int).push(ids@[i as int]));
        i += 1;
    }
    assert(ids@.take(i as int) == ids@);
    out
}

impl ConceptNode {
    /// The variant is the same.
    pub open spec fn same_kind(&self, other: &ConceptNode) -> bool {
        &&& self is Concept <==> other is Concept
        &&& self is CheapConcept <==> other is CheapConcept
        &&& self is Fake <==> other is Fake
    }

    /// Whether the node is a pass-through node.
    pub fn is_fake(&self) -> (b: bool)
        ensures
            b == self@.fake,
            b == (self is Fake),
    {
        match self {
            ConceptNode::Concept { .. } => false,
            ConceptNode::CheapConcept { .. } => false,
            ConceptNode::Fake { .. } => true,
        }
    }

    /// The identifier of the node.
    pub fn id(&self) -> (id: NodeID)
        ensures
            id == self@.id,
    {
        match self {
            ConceptNode::Concept { concept, .. } => NodeID(concept.id.0),
            ConceptNode::CheapConcept { concept, .. } => NodeID(concept.0),
            ConceptNode::Fake { fakeid, .. } => *fakeid,
        }
    }

    /// The nodes that the edges of this node lead to.
    pub fn children(&self) -> (out: Vec<NodeID>)
        ensures
            out@ == self@.children,
    {
        match self {
            ConceptNode::Concept { children, .. } => copy_ids(children),
            ConceptNode::CheapConcept { children, .. } => copy_ids(children),
            ConceptNode::Fake { child, .. } => {
                let mut out: Vec<NodeID> = Vec::new();
                out.push(*child);
                out
            },
        }
    }

    /// Whether an edge of this node leads to `id`.
    pub fn has_child(&self, id: NodeID) -> (b: bool)
        ensures
            b == self@.children.contains(id),
    {
        match self {
            ConceptNode::Concept { children, .. } => holds_id(children, id),
            ConceptNode::CheapConcept { children, .. } => holds_id(children, id),
            ConceptNode::Fake { child, .. } => {
                assert(seq![*child][0] == *child);
                *child == id
            },
        }
    }

    /// The node is of the same variant and stands for the same: the concept
    /// with all that is shown of it, the concept's identifier, or the
    /// identifier of the pass-through node.
    pub open spec fn same_concept(&self, other: &ConceptNode) -> bool {
        match (*self, *other) {
            (ConceptNode::Concept { concept: a, .. }, ConceptNode::Concept { concept: b, .. }) => a
                == b,
            (
                ConceptNode::CheapConcept { concept: a, .. },
                ConceptNode::CheapConcept { concept: b, .. },
            ) => a == b,
            (ConceptNode::Fake { fakeid: a, .. }, ConceptNode::Fake { fakeid: b, .. }) => a == b,
            _ => false,
        }
    }

    /// Leads every edge to `from` to `to` instead. The node stands for what
    /// it stood for.
    pub fn replace_child(&mut self, from: NodeID, to: NodeID)
        ensures
            final(self)@ == old(self)@.replace_child(from, to),
            final(self).same_kind(old(self)),
            final(self).same_concept(old(self)),
    {
        match self {
            ConceptNode::Concept { children, .. } => {
                reroute(children, from, to);
            },
            ConceptNode::CheapConcept { children, .. } => {
                reroute(children, from, to);
            },
            ConceptNode::Fake { child, .. } => {
                if *child == from {
                    *child = to;
                }
            },
        }
        assert(self@.children =~= rerouted(old(self)@.children, from, to));
    }
}

/// Whether `id` is among `ids`.
pub fn holds_id(ids: &Vec<NodeID>, id: NodeID) -> (b: bool)
    ensures
        b == ids@.contains(id),
{
    let mut i: usize = 0;
    while i < ids.len()
        invariant
            i <= ids.len(),
            forall|j: int| 0 <= j < i ==> ids@[j] != id,
        decreases ids.len() - i,
    {
        if ids[i] == id {
            return true;
        }
        i += 1;
    }
    false
}

/// Turns every `from` in `children` into `to`.
pub fn reroute(children: &mut Vec<NodeID>, from: NodeID, to: NodeID)
    ensures
        final(children)@ == rerouted(old(children)@, from, to),
{
    let mut i: usize = 0;
    while i < children.len()
        invariant
            i <= children.len(),
            children@.len() == old(children)@.len(),
            forall|j: int| 0 <= j < i ==> children@[j] == rerouted(old(children)@, from, to)[j],
            forall|j: int| i <= j < children@.len() ==> children@[j] == old(children)@[j],
        decreases children.len() - i,
    {
        if children[i] == from {
            children.set(i, to);
        }
        i += 1;
    }
    assert(children@ =~= rerouted(old(children)@, from, to));
}

impl Clone for ConceptNode {
    fn clone(&self) -> (r: Self)
        ensures
            r@ == self@,
            r.same_kind(self),
    {
        match self {
            ConceptNode::Concept { concept, children } => ConceptNode::Concept {
                concept: concept.clone(),
                children: copy_ids(children),
            },
            ConceptNode::CheapConcept { concept, children } => ConceptNode::CheapConcept {
                concept: *concept,
                children: copy_ids(children),
            },
            ConceptNode::Fake { fakeid, child } => ConceptNode::Fake {
                fakeid: *fakeid,
                child: *child,
            },
        }
    }
}

} // verus!
