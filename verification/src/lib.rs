//! The logic of a git history viewer: which commits are listed, how the commit
//! graph is laid out, colored and drawn, how references label commits, and how
//! a commit and its changes are written down and highlighted.
//!
//! Reading the repository and the window are not part of the library; they hand
//! it plain values and show what it returns.

pub mod colors;
pub mod commits;
pub mod dates;
pub mod diff;
pub mod drawing;
pub mod graph;
pub mod graph_laws;
pub mod listing;
pub mod oid;
pub mod refs;
pub mod seqs;
pub mod text;
