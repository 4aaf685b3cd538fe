//! A verified dependency-graph engine for named assets.
//!
//! The engine stores directed "asset depends on asset" edges and answers
//! structural queries over them: direct and reverse lookups, transitive
//! closure, bounded-depth tree construction with cycle flagging, whole-graph
//! cycle detection, orphan and most-referenced statistics, validation,
//! normalization, and text export.

pub mod cycles;
pub mod depth;
pub mod export;
pub mod model;
pub mod normalize;
pub mod order;
pub mod preview;
pub mod reach;
pub mod report;
pub mod setops;
pub mod stats;
pub mod store;
pub mod text;
pub mod traverse;
pub mod tree;
pub mod validate;
