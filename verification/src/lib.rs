//! A small task-tracking core: a palette-based client color allocator with a
//! persisted mapping, and a task lifecycle manager (creation with date
//! defaulting, week-windowed listing with priority ordering, soft deletion,
//! and day rollover).

pub mod colors;
pub mod date;
pub mod persist;
pub mod tasks;

use vstd::prelude::*;

verus! {

} // verus!
