use vstd::prelude::*;

pub mod audit;
pub mod box_model;
pub mod child;
pub mod dashboard_file;
pub mod dashboard_kdl;
pub mod derivation;
pub mod duration;
pub mod registry;
pub mod shell;
pub mod kdl_doc;
pub mod partial;
pub mod key_spelling;
pub mod layout;
pub mod template;
pub mod text;
pub mod trigger;
pub mod variable_graph;
pub mod variables;

verus! {
} // verus!
