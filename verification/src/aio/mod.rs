//! The decisions of an experimental asynchronous I/O prototype.
//!
//! It is not part of the scheduler. System calls are made elsewhere; this module
//! makes the requests that are submitted and follows the tasks that wait for
//! them.

pub mod abi;
pub mod context;
