//! Verified core of a tool that filters Reddit dumps by subreddit and turns
//! submissions with their comment trees into linear conversation branches.
pub mod text;
pub mod cli;
pub mod filter;
pub mod models;
pub mod graph;
