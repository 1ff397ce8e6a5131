//! Coordination core for serialised and parallel test execution.
//!
//! Work units are grouped by string keys. For each key, units tagged
//! "serial" run one at a time and never alongside "parallel" units of the
//! same key, while parallel units of one key may overlap each other.
//! Distinct keys never interfere.
//!
//! The crate provides the per-key state machine, the key registry, the
//! deadlock-free multi-key acquisition order, the guard type whose release
//! is idempotent, and the model of the cross-process file-lock variant
//! together with its sidecar-counter encoding.

pub mod acquire;
pub mod file_lock;
pub mod order;
pub mod registry;
pub mod state;
