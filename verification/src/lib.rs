//! The scheduling core of a personal time-management tool: tasks are
//! placed on the timeline of a day as blocks that avoid the recurring
//! unplugged windows of a workspace, an urgent task preempts the block
//! that is being worked on, and completing, delaying, reordering and
//! deleting keep the stored state coherent. Every command is a function
//! on the stored tables with a contract that says what it leaves behind.

pub mod error;
pub mod clock;
pub mod daytime;
pub mod models;
pub mod placer;
pub mod repository;
pub mod shifter;
pub mod scheduler;
pub mod inbox;
pub mod transitioner;
pub mod reorderer;
pub mod split_deletion;
pub mod views;
pub mod workspace;
pub mod planner;
pub mod summary;
pub mod greeting;
pub mod retrospective;
pub mod invariants;
pub mod laws;
