//! Storage and query engine for digital-logic waveform traces.
//!
//! Signals are vectors of multi-valued logic units, packed into bytes. Their
//! value changes are kept in an append-only, block-chained change log, and an
//! implicit forest over each signal's changes answers range aggregates.

pub mod aggregate;
pub mod block;
pub mod bytes;
pub mod change;
pub mod error;
pub mod forest;
pub mod implicit_forest;
pub mod lazy;
pub mod logic;
pub mod logic2;
pub mod meta;
pub mod mmap_alloc;
pub mod mmap_vec;
pub mod progress;
pub mod scope;
pub mod svcb;
pub mod timesteps;
pub mod types;
pub mod unsized_types;
pub mod varint;
pub mod vcd;
pub mod waveform;
pub mod waves;
