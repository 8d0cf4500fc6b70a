//! A minimal reactive-state core: signal cells that track their readers, a
//! subscription registry kept in both directions, a cooperative re-render
//! scheduler with batched turns, and ancestor-to-descendant context sharing.
//!
//! The core is single-threaded and cooperative: event handlers run to
//! completion, writes made during a handler only mark subscribers dirty, and
//! the host drains the dirty queue at the end of the turn, re-evaluating each
//! affected consumer exactly once. Rendering itself is owned by the host; the
//! host drives the drain loop and performs each evaluation, reading signals
//! through the runtime so that subscriptions are rebuilt from the reads that
//! actually happen.

pub mod context;
pub mod counter;
pub mod runtime;
