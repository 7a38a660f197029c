//! What the operations do, said of the calls themselves: how the arguments, the result and the
//! memory after a call relate to the memory before it, whichever way the operation goes about it.
//!
//! `mid` is the memory at the moment when an operation takes effect. It is the memory before the
//! call unless other tasks intervene.
pub mod arena;
pub mod barrier;
pub mod entry;
pub mod gate;
pub mod lock;
pub mod pager;
pub mod semaphore;
pub mod service;
pub mod wait_queue;
