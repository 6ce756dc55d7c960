//! A cycle-based fair-share dispatcher: per-user FIFO queues, a fixed
//! per-cycle capacity, and an aging counter that puts the longest-waiting
//! users first when capacity is scarce.
pub mod task;
pub mod model;
pub mod slot_lemmas;
pub mod scheduler;
pub mod laws;

pub use scheduler::FairScheduler;
pub use task::Task;
