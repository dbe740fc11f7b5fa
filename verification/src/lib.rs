//! Incremental streaming hash join over two change streams, with the barrier
//! aligner, the keyed join state and the cell-based row encoding it rests on.
//!
//! The operator is a state machine: it is handed the messages of its two
//! inputs one by one and answers each with what goes downstream and what the
//! store has to take. Reading the inputs and writing to the store is left to
//! the caller.
//!
//! - [`types`], [`chunk`]: values, rows, and batches of changes.
//! - [`bytes`], [`codec`], [`codec_order`], [`cells`]: the encoding of values
//!   and rows, its order, and the layout of rows in the store.
//! - [`sorted_map`], [`storage`]: ordered maps, keyspaces, write batches and
//!   a store in memory.
//! - [`managed_state`], [`recovery`]: the rows of one join key, and rows
//!   read back from the store.
//! - [`barrier_align`], [`hash_join`]: the aligner and the join.
//! - [`join_laws`], [`persistence`]: what the join puts out is the join of
//!   its inputs, and what a flush stores is what the join held.
//! - [`mview`]: the writer of a materialized view.
//! - [`executor`], [`mutation`], [`proto`], [`wire`]: epochs, barriers and
//!   messages, and their records on the wire.
//! - [`pk_types`], [`plan`], [`handler`], [`nexmark`]: what surrounds the
//!   operators: plans, statements and the source of synthetic events.

pub mod barrier_align;
pub mod bytes;
pub mod cells;
pub mod chunk;
pub mod codec;
pub mod codec_order;
pub mod error;
pub mod executor;
pub mod handler;
pub mod hash_join;
pub mod join_laws;
pub mod managed_state;
pub mod mutation;
pub mod mview;
pub mod nexmark;
pub mod persistence;
pub mod pk_types;
pub mod plan;
pub mod proto;
pub mod recovery;
pub mod sorted_map;
pub mod storage;
pub mod types;
pub mod wire;
