//! An irreversible-commitment kernel.
//!
//! A logical clock drives a small state machine that tracks intents
//! (promises that an action will occur strictly before a deadline),
//! observations of actions, and absences: the permanent record that a
//! promised action did not occur in time.
//!
//! - [`model`] defines the state machine mathematically.
//! - [`kernel`] is the executable kernel; its contracts say that it moves as
//!   the model does.
//! - [`laws`] proves what holds of every run of the model.
//! - [`id`], [`id_map`] and [`id_set`] hold the identifiers and the ordered
//!   containers that the kernel keeps them in.

pub mod id;
pub mod id_map;
pub mod id_set;
pub mod kernel;
pub mod laws;
pub mod model;

pub use crate::id::{ActionId, Id, IntentId, Time};
pub use crate::id_set::IdSet;
pub use crate::kernel::{Kernel, Violation};
pub use crate::model::Intent;
