//! Ranked-choice election analysis: ballot models, format-specific ballot
//! parsing, candidate bookkeeping, instant-runoff tabulation, and pairwise
//! (Condorcet) analysis.

pub mod btv;
pub mod candidate_map;
pub mod condorcet;
pub mod metadata;
pub mod model;
pub mod mpls;
pub mod nist;
pub mod normalize;
pub mod nyc;
pub mod pipeline;
pub mod report;
pub mod sums;
pub mod tabulator;
