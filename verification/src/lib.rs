use vstd::prelude::*;

pub mod std_text;
pub mod text;
pub mod model;
pub mod ids;
pub mod registry;
pub mod graph;
pub mod resolve;
pub mod literal;
pub mod cycle;
pub mod instances;
pub mod edges;
pub mod scalars;
pub mod parameters;
pub mod families;
pub mod compile;
pub mod flatten;
pub mod document;
pub mod loader;
pub mod fizzbuzz;
pub mod declare;
pub mod fizzbuzz_nodes;
pub mod utility;
pub mod packaging;
pub mod display;
pub mod session;
pub mod wiring;
pub mod cli;
pub mod ws;
pub mod assets;
pub mod http;
pub mod behaviour;

verus! {
} // verus!
