//! Semantic diffs, entity graphs and review plans for host applications.
//!
//! The library works on plain values: a host parses files, diffs entities,
//! builds entity graphs and hashes contents, and the library makes of them
//! analyses, indexes, focus resolutions, impact contexts, review layers and
//! cache keys.

pub mod analysis;
pub mod analysis_laws;
pub mod atom_laws;
pub mod atoms;
pub mod collections;
pub mod dependencies;
pub mod dependency_laws;
pub mod diff_impact;
pub mod execution;
pub mod focus;
pub mod focus_laws;
pub mod graph;
pub mod groups;
pub mod hash;
pub mod impact_laws;
pub mod json;
pub mod json_laws;
pub mod key_laws;
pub mod keys;
pub mod layer_laws;
pub mod layers;
pub mod lines;
pub mod matching;
pub mod memory;
pub mod model;
pub mod options;
pub mod order;
pub mod parses;
pub mod path_laws;
pub mod placement_laws;
pub mod report_laws;
pub mod role_laws;
pub mod roles;
pub mod scan;
pub mod scan_laws;
pub mod search;
pub mod seqs;
pub mod text;
pub mod text_laws;
pub mod types;
