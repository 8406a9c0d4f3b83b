//! A small scripting language: its lexer, its parsers, the scoped environment
//! its interpreter runs in, the dependency analysis of its declarations and the
//! bookkeeping of the parallel task graph that executes them.

pub mod meta;
pub mod token;
pub mod expr;
pub mod parser;
pub mod stmt;
pub mod intmap;
pub mod scope;
pub mod codegraph;
pub mod graph;
pub mod task_graph;
pub mod scheduler_parallel;
pub mod scheduler;
pub mod parallel_execution;
