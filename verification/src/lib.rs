//! A small application runtime: plugins with declared dependencies, a
//! lifecycle state machine, a publish/subscribe channel bus with bounded
//! history, and a shutdown coordinator.
//!
//! The library holds the decision logic of the runtime: which records a
//! registration creates, in which order lifecycle hooks must run, which
//! messages a subscriber may observe, and when teardown may begin. The
//! surrounding process (executor threads, signal handling, the plugin
//! instances themselves) drives these decisions from outside.

pub mod app;
pub mod bus;
pub mod plugin;
pub mod quit;
pub mod registry;
pub mod sweep;
