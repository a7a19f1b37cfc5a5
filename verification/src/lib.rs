//! Gridshift moves Temporal schedules with intervals to the cheapest electricity slots.
//!
//! This crate holds what Gridshift decides and computes; the calls to Temporal and to a price
//! provider are made around it.
//!
//! - [`workflow`]: a run, from one activity to the next.
//! - [`activities`], [`durations`], [`update`]: what the activities make of the servers' answers.
//! - [`planning`]: which schedule fires in which slot; [`ilp`] states it as a 0/1 program,
//!   [`placement`] says what the program means, [`solver`] has it solved.
//! - [`providers`]: price providers.
//! - [`planning_laws`], [`discovery_laws`], [`workflow_laws`]: what holds of every plan, discovery
//!   and run.

use vstd::prelude::*;

pub mod activities;
pub mod calendar;
pub mod discovery_laws;
pub mod durations;
pub mod ilp;
pub mod placement;
pub mod planning;
pub mod planning_laws;
pub mod providers;
pub mod seqs;
pub mod solver;
pub mod sorting;
pub mod text;
pub mod types;
pub mod update;
pub mod workflow;
pub mod workflow_laws;

pub use providers::PriceProvider;
pub use types::{
    ChosenWindow, DiscoverSchedulesInput, DiscoverSchedulesResult, FetchWindowsInput,
    MeasureDurationsInput, PlanWindowsInput, PlanWindowsResult, Price, PricedWindow, ProviderError,
    ScheduleAssignment, ScheduleDuration, ScheduleInfo, ScheduleRef, ScheduleUpdateSummary,
    SchedulerInput, SchedulerResult, SkippedSchedule, TryFetchWindowsResult, UpdateOutcome,
    UpdateWindowsInput,
};

verus! {

/// The seconds of a day.
pub const SECS_PER_DAY: u64 = 86_400;

} // verus!
