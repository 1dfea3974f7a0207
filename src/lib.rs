//! Selection of sequencing reads by taxon, from a classifier's per-read output
//! and its hierarchical report.
pub mod text;
pub mod kraken;
pub mod taxonomy;
pub mod membership;
pub mod selection;
pub mod pipeline;
