//! Curriculum data (concepts, activities, representations, courses) and the
//! layered drawing of the prerequisite graph among concepts.

pub mod activity;
pub mod address;
pub mod change;
pub mod concept;
pub mod concept_map;
pub mod cost;
pub mod data;
pub mod drawing;
pub mod graph;
pub mod ids;
pub mod import;
pub mod layering;
pub mod markdown;
pub mod materialize;
pub mod node;
pub mod order;
pub mod pages;
pub mod representation;
pub mod search;
pub mod text;
pub mod types;
pub mod views;
