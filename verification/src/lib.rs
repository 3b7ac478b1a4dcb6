//! Window-manager focus helper: pure selection logic for cycling focus
//! between windows and displays and for toggling a space's layout.
//!
//! The library computes decisions only. Querying the window manager and
//! issuing the resulting commands is left to the surrounding binary, which
//! hands in plain snapshots of the current state and receives the identifier
//! (or layout) to act on.

pub mod laws;
pub mod order;
pub mod schema;
pub mod selector;
