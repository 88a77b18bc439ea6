//! The system calls: each takes the kernel state and the caller's arguments
//! and returns what the calling thread will see as the call's result.

pub mod process;
pub mod sync;
