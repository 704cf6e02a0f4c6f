//! Core of a process-wide telemetry system: concurrency-agnostic metric
//! storage primitives (counters and log-linear histograms), a registry that
//! maps a (name, metadata) identity to one primitive, and a pure exposition
//! formatter that renders a registry entry in one of the supported text
//! formats.
//!
//! Producers obtain a handle from the registry once, at startup, and update
//! the primitive it designates; an exposition pass later iterates the
//! registry and formats each entry. Exclusive access during an update is
//! enforced by Rust's borrowing; an embedding application that shares the
//! registry between threads wraps it in a lock of its choosing.

pub mod counter;
pub mod entry;
pub mod expose;
pub mod registry;
pub mod histogram;
pub mod text;

use vstd::prelude::*;

verus! {

/// Saturating 64-bit addition: the sum where it fits, `u64::MAX` otherwise.
pub open spec fn saturating_sum(a: u64, b: u64) -> u64 {
    if a + b <= u64::MAX {
        (a + b) as u64
    } else {
        u64::MAX
    }
}

} // verus!
