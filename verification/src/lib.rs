//! Static worst-case response-time analysis of fixed-priority task sets
//! that share resources under the Stack Resource Policy.
//!
//! A task set is analysed in three steps. [`resources::pre_analysis`]
//! derives from the traces of the tasks which task locks which resource and
//! the priority ceiling of every resource. [`blocking::blocking_time`] bounds
//! the time a task waits for a task of lower priority, and
//! [`preemption::preemption`] the time it loses to tasks of higher priority,
//! by a closed-form estimate or exactly. [`analysis::srp_analysis`] adds both
//! to the execution time and gives the response time of every task.
//!
//! Every function is stated over the mathematical models of [`model`] and
//! proved to compute what it states, without overflow, for every task set
//! that is well formed.

pub mod analysis;
pub mod blocking;
pub mod error;
pub mod model;
pub mod preemption;
pub mod resources;
pub mod tasks;
