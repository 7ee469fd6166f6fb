//! An in-process lock manager: exclusive ownership of named resources,
//! first-come-first-served waiting, and refusal of requests that would close
//! a cycle of clients waiting on one another.
//!
//! [`LockManager`] is the front door. It keeps a [`LockTable`] of one
//! [`ResourceLock`] for each resource in use and a [`WaitForGraph`] of who is
//! blocked on whom, and holds the two in step. What each call does is stated
//! over the functions of [`model`]; what follows for every sequence of calls
//! is proved in [`laws`].
//!
//! The manager never blocks. A caller that has to wait gets a
//! [`WaitTicket`] and parks on its [`WakeChannel`], a `tokio::sync::Notify`,
//! until the release that makes it the holder wakes it.

pub mod error;
pub mod history;
pub mod ident;
pub mod laws;
pub mod lock_table;
pub mod manager;
pub mod model;
pub mod resource_lock;
pub mod wait_graph;
pub mod wake;

pub use error::LockError;
pub use ident::{ClientId, ResourceId};
pub use lock_table::LockTable;
pub use manager::{Acquired, LockHandle, LockManager, WaitTicket};
pub use resource_lock::ResourceLock;
pub use wait_graph::WaitForGraph;
pub use wake::WakeChannel;
