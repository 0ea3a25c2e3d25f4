//! Keeps a region of a shared remote pixel canvas in sync with a set of
//! prioritized local target images.
//!
//! The verified core is the fetch-and-diff stage (turning a raw canvas body
//! into a backlog of corrective pixel writes) and the dispatch stage
//! (draining that backlog under a concurrency cap while rotating through a
//! pool of write credentials). Network transport, file loading and progress
//! rendering live outside the library and exchange plain values with it.

pub mod admission;
pub mod backlog;
pub mod board;
pub mod color;
pub mod config;
pub mod diff;
pub mod dispatch;
pub mod fetch;
pub mod loader;
pub mod numrep;
pub mod response;
pub mod rotator;
