//! [`Config`] defines common configuration options for synchronization primitives.
use vstd::prelude::*;

verus! {

/// [`Config`] defines common configuration options for synchronization primitives.
pub trait Config: std::fmt::Debug + Default {
    /// Defines the number of times to spin before entering a wait queue.
    #[must_use]
    fn spin_count() -> (r: usize)
        default_ensures
            r == 16384,
    {
        16384
    }

    /// Defines the backoff function to use when spinning.
    fn backoff(_spin_count: usize) {
    }
}

/// Default configuration for synchronization primitives.
#[derive(Debug, Default)]
pub struct DefaultConfig;

impl Config for DefaultConfig {

}

} // verus!
