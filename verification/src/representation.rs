//! Representations: the ways in which a concept can be shown.

use crate::concept::ConceptRepresentationView;
use crate::data::{ActivityGroup, Child};
use crate::ids::RepresentationID;
use crate::markdown::Markdown;
use vstd::prelude::*;

verus! {

/// What stands for a representation on a page.
#[derive(Debug, PartialEq, Eq, PartialOrd, Ord)]
pub enum Icon {
    /// The path of a figure.
    Fig(String),
    /// A piece of HTML.
    Html(String),
}

impl Clone for Icon {
    fn clone(&self) -> (r: Self)
        ensures
            r == *self,
    {
        match self {
            Icon::Fig(f) => Icon::Fig(f.clone()),
            Icon::Html(h) => Icon::Html(h.clone()),
        }
    }
}

/// What stands for a representation on a page, as plain values.
#[verifier::ext_equal]
pub enum IconModel {
    Fig(Seq<char>),
    Html(Seq<char>),
}

impl View for Icon {
    type V = IconModel;

    open spec fn view(&self) -> IconModel {
        match self {
            Icon::Fig(f) => IconModel::Fig(f@),
            Icon::Html(h) => IconModel::Html(h@),
        }
    }
}

/// A representation, as plain values.
#[verifier::ext_equal]
pub struct RepresentationModel {
    pub id: RepresentationID,
    pub name: Seq<char>,
    pub description: Seq<char>,
    pub icon: IconModel,
}

impl View for Representation {
    type V = RepresentationModel;

    open spec fn view(&self) -> RepresentationModel {
        RepresentationModel {
            id: self.id,
            name: self.name@,
            description: self.description@,
            icon: self.icon@,
        }
    }
}

/// A representation: a way to show concepts.
#[derive(Debug, PartialEq, Eq, PartialOrd, Ord)]
pub struct Representation {
    pub id: RepresentationID,
    pub name: String,
    pub description: Markdown,
    pub icon: Icon,
}

impl Clone for Representation {
    fn clone(&self) -> (r: Self)
        ensures
            r == *self,
    {
        Representation {
            id: self.id,
            name: self.name.clone(),
            description: self.description.clone(),
            icon: self.icon.clone(),
        }
    }
}

/// A representation with its relationships filled in.
#[derive(Debug, Clone)]
pub struct RepresentationView {
    pub id: RepresentationID,
    pub name: String,
    pub description: Markdown,
    pub icon: Icon,
    pub groups: Vec<ActivityGroup>,
    pub other_concepts: Vec<Child<ConceptRepresentationView>>,
}

} // verus!
