//! A hierarchical commitment tracker: a forest of focus nodes with cascading
//! deletion and failure, cycle-safe re-parenting, a deterministic display
//! order, and the controller that turns user intents into tree mutations.

pub mod text;
pub mod time;
pub mod node;
pub mod seqs;
pub mod forest;
pub mod descent;
pub mod mutations;
pub mod display;
pub mod tree;
pub mod data;
pub mod reload;
pub mod ui;
