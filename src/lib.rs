//! Post-processing of per-CPU memory-access traces: a binary record codec, a
//! time-ordered merge of per-CPU streams, a detector of bulk copies, and a
//! set-associative LRU cache that filters the annotated trace down to the
//! accesses that reach memory.
pub mod cache;
pub mod detector;
pub mod kernel_log;
pub mod lookahead_iter;
pub mod memory_access;
pub mod merge;
pub mod record;
pub mod seq_facts;
pub mod text;
pub mod trace_filter;
