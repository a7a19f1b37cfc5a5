//! The data that passes between the workflow, the activities and the planner.

use vstd::prelude::*;
use vstd::string::StringExecFns;

use crate::calendar::{date_text, write_date, CivilDate};
use crate::seqs::views;

verus! {

/// Why a provider returned no prices.
#[derive(Debug)]
pub enum ProviderError {
    /// Prices are not yet available for the date.
    NotYetPublished { date: CivilDate },
    /// Anything else, with its text.
    Other { message: String },
}

pub enum ProviderErrorView {
    NotYetPublished { date: CivilDate },
    Other { message: Seq<char> },
}

impl View for ProviderError {
    type V = ProviderErrorView;

    open spec fn view(&self) -> ProviderErrorView {
        match self {
            ProviderError::NotYetPublished { date } => ProviderErrorView::NotYetPublished {
                date: *date,
            },
            ProviderError::Other { message } => ProviderErrorView::Other { message: message@ },
        }
    }
}

/// How a provider's error reads.
pub open spec fn provider_error_text(error: ProviderErrorView) -> Seq<char> {
    match error {
        ProviderErrorView::NotYetPublished { date } => "prices not yet published for "@ + date_text(
            date.days,
        ),
        ProviderErrorView::Other { message } => message,
    }
}

impl ProviderError {
    /// How the error reads.
    pub fn message(&self) -> (r: String)
        requires
            self matches ProviderError::NotYetPublished { date } ==> date.in_calendar(),
        ensures
            r@ == provider_error_text(self@),
    {
        match self {
            ProviderError::NotYetPublished { date } => {
                let mut r = "prices not yet published for ".to_owned();
                r.append(write_date(*date).as_str());
                r
            },
            ProviderError::Other { message } => message.clone(),
        }
    }
}

/// Workflow input, fixed when the Temporal schedule is created.
#[derive(Debug, Clone)]
pub struct SchedulerInput {
    /// Temporal visibility query that finds the managed schedules, e.g. `EnergyIntensive = true`.
    pub query: String,
    /// IANA timezone name, e.g. "Europe/London".
    pub timezone: String,
}

/// The parts of a penny that prices are counted in.
pub const UNITS_PER_PENNY: i32 = 1_000_000_000;

/// A price: whole pence, and billionths of a penny more.
#[derive(Debug, Clone, Copy, PartialEq, Eq, Structural)]
pub struct Price {
    pub pence: i32,
    pub billionths: i32,
}

impl Price {
    /// The price in billionths of a penny.
    pub open spec fn value(self) -> int {
        self.pence * UNITS_PER_PENNY + self.billionths
    }
}

/// A price slot: the local wall-clock time it starts at, and its price.
#[derive(Debug, Clone, Copy, PartialEq, Eq)]
pub struct PricedWindow {
    pub date: CivilDate,
    pub hour: u32,
    pub minute: u32,
    /// Price per kWh (inc. VAT). Negative means that the supplier pays the customer.
    pub price_p_per_kwh: Price,
}

/// A firing time, as local wall-clock time.
#[derive(Debug, Clone, Copy, PartialEq, Eq)]
pub struct ChosenWindow {
    pub date: CivilDate,
    pub hour: u32,
    pub minute: u32,
}

/// Identifies a schedule across namespaces. Schedule IDs are unique only within a namespace.
#[derive(Debug, Clone, PartialEq, Eq, Hash)]
pub struct ScheduleRef {
    pub namespace: String,
    pub schedule_id: String,
}

pub struct ScheduleRefView {
    pub namespace: Seq<char>,
    pub schedule_id: Seq<char>,
}

impl View for ScheduleRef {
    type V = ScheduleRefView;

    open spec fn view(&self) -> ScheduleRefView {
        ScheduleRefView { namespace: self.namespace@, schedule_id: self.schedule_id@ }
    }
}

/// A discovered interval schedule.
#[derive(Debug, Clone)]
pub struct ScheduleInfo {
    pub namespace: String,
    pub schedule_id: String,
    /// Interval in seconds. Only the phase within each cycle is ever changed.
    pub interval_secs: u64,
    /// The time, in epoch seconds, one interval after which the schedule may fire again: its most
    /// recent actual firing or, where it has never fired, one interval before its first scheduled
    /// firing. `None` means that neither is known, and any slot will do.
    pub last_fire_secs: Option<i64>,
}

pub struct ScheduleInfoView {
    pub namespace: Seq<char>,
    pub schedule_id: Seq<char>,
    pub interval_secs: u64,
    pub last_fire_secs: Option<i64>,
}

impl View for ScheduleInfo {
    type V = ScheduleInfoView;

    open spec fn view(&self) -> ScheduleInfoView {
        ScheduleInfoView {
            namespace: self.namespace@,
            schedule_id: self.schedule_id@,
            interval_secs: self.interval_secs,
            last_fire_secs: self.last_fire_secs,
        }
    }
}

/// What the workflow reports when it completes.
#[derive(Debug, Clone)]
pub struct SchedulerResult {
    pub schedules_updated: usize,
    pub updates: Vec<ScheduleUpdateSummary>,
    /// Schedules that were discovered but not updated, with a short reason.
    pub skipped: Vec<SkippedSchedule>,
}

pub struct SchedulerResultView {
    pub schedules_updated: nat,
    pub updates: Seq<ScheduleUpdateSummaryView>,
    pub skipped: Seq<SkippedScheduleView>,
}

impl View for SchedulerResult {
    type V = SchedulerResultView;

    open spec fn view(&self) -> SchedulerResultView {
        SchedulerResultView {
            schedules_updated: self.schedules_updated as nat,
            updates: views(self.updates@),
            skipped: views(self.skipped@),
        }
    }
}

/// A schedule, or a whole namespace where `schedule_id` is empty, that was left as it is.
#[derive(Debug, Clone)]
pub struct SkippedSchedule {
    pub namespace: String,
    pub schedule_id: String,
    pub reason: String,
}

pub struct SkippedScheduleView {
    pub namespace: Seq<char>,
    pub schedule_id: Seq<char>,
    pub reason: Seq<char>,
}

impl View for SkippedSchedule {
    type V = SkippedScheduleView;

    open spec fn view(&self) -> SkippedScheduleView {
        SkippedScheduleView {
            namespace: self.namespace@,
            schedule_id: self.schedule_id@,
            reason: self.reason@,
        }
    }
}

/// The firing times chosen for one schedule.
#[derive(Debug, Clone)]
pub struct ScheduleUpdateSummary {
    pub namespace: String,
    pub schedule_id: String,
    pub windows: Vec<ChosenWindow>,
}

pub struct ScheduleUpdateSummaryView {
    pub namespace: Seq<char>,
    pub schedule_id: Seq<char>,
    pub windows: Seq<ChosenWindow>,
}

impl View for ScheduleUpdateSummary {
    type V = ScheduleUpdateSummaryView;

    open spec fn view(&self) -> ScheduleUpdateSummaryView {
        ScheduleUpdateSummaryView {
            namespace: self.namespace@,
            schedule_id: self.schedule_id@,
            windows: self.windows@,
        }
    }
}

/// Activity input for fetching the prices of one day.
#[derive(Debug, Clone)]
pub struct FetchWindowsInput {
    pub date: CivilDate,
    /// IANA timezone name, passed on to the provider.
    pub timezone: String,
}

/// Prices that may not be published yet. `message` is for people to read.
#[derive(Debug, Clone)]
pub struct TryFetchWindowsResult {
    /// `None` where the prices are not published yet.
    pub windows: Option<Vec<PricedWindow>>,
    pub message: String,
}

/// Activity input for discovering the managed schedules of one namespace.
#[derive(Debug, Clone)]
pub struct DiscoverSchedulesInput {
    pub namespace: String,
    /// Temporal visibility query, e.g. `EnergyIntensive = true`.
    pub query: String,
}

/// The managed schedules of one namespace.
#[derive(Debug, Clone)]
pub struct DiscoverSchedulesResult {
    pub schedules: Vec<ScheduleInfo>,
    /// Schedules that the query found but that cannot be managed.
    pub skipped: Vec<SkippedSchedule>,
    /// The provider's slot duration in minutes.
    pub slot_duration_mins: u32,
}

pub struct DiscoverSchedulesResultView {
    pub schedules: Seq<ScheduleInfoView>,
    pub skipped: Seq<SkippedScheduleView>,
    pub slot_duration_mins: u32,
}

impl View for DiscoverSchedulesResult {
    type V = DiscoverSchedulesResultView;

    open spec fn view(&self) -> DiscoverSchedulesResultView {
        DiscoverSchedulesResultView {
            schedules: views(self.schedules@),
            skipped: views(self.skipped@),
            slot_duration_mins: self.slot_duration_mins,
        }
    }
}

impl Default for DiscoverSchedulesResult {
    fn default() -> (r: Self)
        ensures
            r.schedules@.len() == 0,
            r.skipped@.len() == 0,
            r.slot_duration_mins == 0,
    {
        DiscoverSchedulesResult {
            schedules: Vec::new(),
            skipped: Vec::new(),
            slot_duration_mins: 0,
        }
    }
}

/// Activity input for moving one schedule's phase.
#[derive(Debug, Clone)]
pub struct UpdateWindowsInput {
    pub namespace: String,
    pub schedule_id: String,
    /// The firing time that the interval phase is to match.
    pub window: ChosenWindow,
    /// IANA timezone name that `window` is local to.
    pub timezone: String,
    pub interval_secs: u64,
}

pub struct UpdateWindowsInputView {
    pub namespace: Seq<char>,
    pub schedule_id: Seq<char>,
    pub window: ChosenWindow,
    pub timezone: Seq<char>,
    pub interval_secs: u64,
}

impl View for UpdateWindowsInput {
    type V = UpdateWindowsInputView;

    open spec fn view(&self) -> UpdateWindowsInputView {
        UpdateWindowsInputView {
            namespace: self.namespace@,
            schedule_id: self.schedule_id@,
            window: self.window,
            timezone: self.timezone@,
            interval_secs: self.interval_secs,
        }
    }
}

/// What became of one schedule's update. A schedule that may be read but not updated comes back as
/// `Skipped`, so that the result does not count it as changed.
#[derive(Debug, Clone)]
pub enum UpdateOutcome {
    Updated,
    Skipped { reason: String },
}

pub enum UpdateOutcomeView {
    Updated,
    Skipped { reason: Seq<char> },
}

impl View for UpdateOutcome {
    type V = UpdateOutcomeView;

    open spec fn view(&self) -> UpdateOutcomeView {
        match self {
            UpdateOutcome::Updated => UpdateOutcomeView::Updated,
            UpdateOutcome::Skipped { reason } => UpdateOutcomeView::Skipped { reason: reason@ },
        }
    }
}

/// Activity input for measuring how long schedules' runs have taken.
#[derive(Debug, Clone)]
pub struct MeasureDurationsInput {
    pub schedules: Vec<ScheduleRef>,
}

/// Activity input for planning.
#[derive(Debug, Clone)]
pub struct PlanWindowsInput {
    pub schedules: Vec<ScheduleInfo>,
    /// Run times in minutes. Where a schedule occurs more than once, the last entry counts.
    pub schedule_durations: Vec<ScheduleDuration>,
    pub priced_windows: Vec<PricedWindow>,
    pub timezone: String,
    pub now_secs: i64,
    pub slot_duration_mins: u32,
}

/// How many minutes a schedule's runs take.
#[derive(Debug, Clone)]
pub struct ScheduleDuration {
    pub schedule_ref: ScheduleRef,
    pub minutes: u32,
}

pub struct ScheduleDurationView {
    pub schedule_ref: ScheduleRefView,
    pub minutes: u32,
}

impl View for ScheduleDuration {
    type V = ScheduleDurationView;

    open spec fn view(&self) -> ScheduleDurationView {
        ScheduleDurationView { schedule_ref: self.schedule_ref@, minutes: self.minutes }
    }
}

/// The slot that one schedule is to fire in.
#[derive(Debug, Clone)]
pub struct ScheduleAssignment {
    pub schedule_ref: ScheduleRef,
    pub window: ChosenWindow,
    pub interval_secs: u64,
}

pub struct ScheduleAssignmentView {
    pub schedule_ref: ScheduleRefView,
    pub window: ChosenWindow,
    pub interval_secs: u64,
}

impl View for ScheduleAssignment {
    type V = ScheduleAssignmentView;

    open spec fn view(&self) -> ScheduleAssignmentView {
        ScheduleAssignmentView {
            schedule_ref: self.schedule_ref@,
            window: self.window,
            interval_secs: self.interval_secs,
        }
    }
}

/// A plan: the slots of the schedules that have one, and why the others have none.
#[derive(Debug, Clone)]
pub struct PlanWindowsResult {
    pub assignments: Vec<ScheduleAssignment>,
    pub skipped: Vec<SkippedSchedule>,
}

pub struct PlanWindowsResultView {
    pub assignments: Seq<ScheduleAssignmentView>,
    pub skipped: Seq<SkippedScheduleView>,
}

impl View for PlanWindowsResult {
    type V = PlanWindowsResultView;

    open spec fn view(&self) -> PlanWindowsResultView {
        PlanWindowsResultView {
            assignments: views(self.assignments@),
            skipped: views(self.skipped@),
        }
    }
}

// ---- laws ----

/// A price is worth its pence and its billionths of a penny together.
pub proof fn law_price_is_pence_and_billionths(price: Price)
    ensures
        price.value() == price.pence * 1_000_000_000 + price.billionths,
{
}

/// The view of a schedule, of its identity and of a skipped one has each field as it is.
pub proof fn law_schedules_are_viewed_whole(
    s: ScheduleInfo,
    id: ScheduleRef,
    skipped: SkippedSchedule,
)
    ensures
        s@.namespace == s.namespace@,
        s@.schedule_id == s.schedule_id@,
        s@.interval_secs == s.interval_secs,
        s@.last_fire_secs == s.last_fire_secs,
        id@.namespace == id.namespace@,
        id@.schedule_id == id.schedule_id@,
        skipped@.namespace == skipped.namespace@,
        skipped@.schedule_id == skipped.schedule_id@,
        skipped@.reason == skipped.reason@,
{
}

/// The view of a duration, of an assignment and of an update that is asked for has each field as it
/// is.
pub proof fn law_assignments_are_viewed_whole(
    d: ScheduleDuration,
    a: ScheduleAssignment,
    u: UpdateWindowsInput,
)
    ensures
        d@.schedule_ref == d.schedule_ref@,
        d@.minutes == d.minutes,
        a@.schedule_ref == a.schedule_ref@,
        a@.window == a.window,
        a@.interval_secs == a.interval_secs,
        u@.namespace == u.namespace@,
        u@.schedule_id == u.schedule_id@,
        u@.window == u.window,
        u@.timezone == u.timezone@,
        u@.interval_secs == u.interval_secs,
{
}

/// The view of a plan, of a discovery, of a summary and of a result has each field as it is, and each
/// entry of a list in its place.
pub proof fn law_results_are_viewed_whole(
    plan: PlanWindowsResult,
    found: DiscoverSchedulesResult,
    summary: ScheduleUpdateSummary,
    result: SchedulerResult,
    i: int,
)
    ensures
        plan@.assignments.len() == plan.assignments@.len(),
        0 <= i < plan.assignments@.len() ==> plan@.assignments[i] == plan.assignments@[i]@,
        plan@.skipped.len() == plan.skipped@.len(),
        0 <= i < plan.skipped@.len() ==> plan@.skipped[i] == plan.skipped@[i]@,
        found@.schedules.len() == found.schedules@.len(),
        0 <= i < found.schedules@.len() ==> found@.schedules[i] == found.schedules@[i]@,
        found@.skipped.len() == found.skipped@.len(),
        0 <= i < found.skipped@.len() ==> found@.skipped[i] == found.skipped@[i]@,
        found@.slot_duration_mins == found.slot_duration_mins,
        summary@.namespace == summary.namespace@,
        summary@.schedule_id == summary.schedule_id@,
        summary@.windows == summary.windows@,
        result@.schedules_updated == result.schedules_updated,
        result@.updates.len() == result.updates@.len(),
        0 <= i < result.updates@.len() ==> result@.updates[i] == result.updates@[i]@,
        result@.skipped.len() == result.skipped@.len(),
        0 <= i < result.skipped@.len() ==> result@.skipped[i] == result.skipped@[i]@,
{
}

/// An outcome of an update is viewed as what it is, and so is a provider's error; a provider's own
/// message is its text.
pub proof fn law_outcomes_are_viewed_whole(outcome: UpdateOutcome, error: ProviderError)
    ensures
        outcome is Updated <==> outcome@ is Updated,
        outcome matches UpdateOutcome::Skipped { reason } ==> outcome@
            == (UpdateOutcomeView::Skipped { reason: reason@ }),
        error matches ProviderError::NotYetPublished { date } ==> error@
            == (ProviderErrorView::NotYetPublished { date }) && provider_error_text(error@)
            == "prices not yet published for "@ + date_text(date.days),
        error matches ProviderError::Other { message } ==> error@ == (ProviderErrorView::Other {
            message: message@,
        }) && provider_error_text(error@) == message@,
{
}

} // verus!
