//! A deadlock-avoiding resource allocator based on the Banker's algorithm.
//!
//! The allocator tracks, for a fixed set of resource types and a fixed set of
//! processes, how many units each process holds, how many it may ever claim,
//! and how many units are still available.  A request is granted only when the
//! resulting state is *safe*: some ordering of the running processes lets each
//! of them acquire its full remaining claim and finish.

pub mod allocator;
pub mod model;
pub mod safety;

pub use allocator::AllocationOutcome;
pub use allocator::BankerAlgorithm;
