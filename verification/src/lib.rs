//! Verified line- and block-level reconstruction logic of the LM2 Review Mode
//! pipeline.
pub mod abstracts;
pub mod blocks;
pub mod callouts;
pub mod captions;
pub mod context;
pub mod continuations;
pub mod heads;
pub mod lines;
pub mod markers;
pub mod models;
pub mod outline;
pub mod physical_heads;
pub mod pipeline;
pub mod priors;
pub mod reflow;
pub mod rows;
pub mod runtime;
pub mod sequence;
pub mod status;
pub mod subheadings;
pub mod tables;
pub mod text;
pub mod types;
pub mod zones;
