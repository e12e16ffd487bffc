//! Search for cycles in the repeated SHA-1 mapping on truncated states.

pub mod benchmark;
pub mod brent;
pub mod clock;
pub mod exhaustive;
pub mod gpu;
pub mod gpu_run;
pub mod graph;
pub mod index;
pub mod listener;
pub mod options;
pub mod orbit;
pub mod report;
pub mod sample;
pub mod space;
pub mod state;
pub mod text;
pub mod words;
