//! Word-sized low-level synchronization primitives providing both asynchronous and synchronous
//! interfaces.
pub mod arena;
pub mod barrier;
pub mod behavior;
pub mod config;
pub mod entry;
pub mod gate;
pub mod laws;
pub mod lock;
pub mod memory;
pub mod opcode;
pub mod pager;
pub mod semaphore;
pub mod sync_primitive;
pub mod system;
pub mod wait_queue;

pub use barrier::Barrier;
pub use gate::Gate;
pub use lock::Lock;
pub use pager::Pager;
pub use semaphore::Semaphore;
