//! A small workflow engine: a `digraph`-style DSL is tokenized and parsed
//! into an execution graph, whose nodes are named jobs dispatched by the
//! numeric status code each returns, run on a message-queue-fed worker
//! pool.

pub mod document;
pub mod executor;
pub mod graph;
pub mod handle;
pub mod jobs;
pub mod laws;
pub mod pool;
pub mod pretty;
pub mod queue;
pub mod sync;
pub mod tokenizer;
