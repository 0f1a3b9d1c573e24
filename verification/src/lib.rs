use vstd::prelude::*;

pub mod text;
pub mod strmap;
pub mod parser;
pub mod aggregator;
pub mod seqs;
pub mod web_storage;
pub mod server;
pub mod config;
pub mod agent;
pub mod laws;

verus! {
} // verus!
