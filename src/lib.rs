//! Offline scheduling of tasks on independent compute units.
//!
//! Each unit has tasks that require and satisfy named conditions and hold shared
//! resources while they run. `schedule::schedule` simulates the units in discrete time
//! and emits, for each unit, the order of its tasks with the idle gaps between them:
//! no two running tasks share a resource, a task waits for the conditions it requires,
//! and starved tasks gain weight until they are chosen.

use vstd::prelude::*;

pub mod bitmap;
pub mod codewriter;
pub mod conf;
pub mod cpu;
pub mod models;
pub mod parse;
pub mod schedule;
pub mod scheduler;

verus! {

} // verus!
