//! A concurrent batch word-frequency pipeline, verified at its core.
//!
//! The library holds the pure logic of the pipeline: the partition table
//! that routes words to output shards, the tokenizer and word-count table,
//! the mapper worker's buffering and draining rules, the writer
//! coordinator's serialization state machine, and the worker-pool
//! scheduler. All file and channel I/O lives outside the library; the
//! state machines here return explicit actions for a runtime to perform.

pub mod error;
pub mod mapper;
pub mod partition;
pub mod pool;
pub mod reducer;
pub mod table;
pub mod text;
pub mod writer;
