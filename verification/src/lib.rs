//! Core of a background host that keeps a per-tab full-text index of browser
//! tab content and scores spoken queries against it.
//!
//! The crate holds the verified logic: tokenization, the incremental TF-IDF
//! index, the per-tab worker state machine, the router that owns the worker
//! registry, the length-prefixed framing of the browser channel, and the
//! ranking of scored documents. Threads, channels, file watching and JSON
//! encoding live outside the library and drive it through these functions.

use vstd::prelude::*;

pub mod frame;
pub mod index;
pub mod rank;
pub mod router;
pub mod tokens;
pub mod worker;

verus! {

/// Discards a value; used where a send outcome is deliberately swallowed.
pub fn ignore<T>(_t: T) {
}

} // verus!
