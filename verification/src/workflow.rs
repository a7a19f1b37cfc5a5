//! What the workflow decides, from one activity to the next.

use vstd::prelude::*;
use vstd::string::StringExecFns;

use crate::calendar::{
    clock_at, has_local_dates, is_time_of_day, local_clock, next_date, zone_is_known, CivilDate,
    Moment, FIRST_DAY, LAST_DAY,
};
use crate::planning::{refs_of, slot_epochs, slot_starts};
use crate::seqs::views;
use crate::sorting::{stable_sort, stable_sorted};
use crate::text::{quoted, quoted_text, text_is_less, text_less};
use crate::types::{
    ChosenWindow, DiscoverSchedulesInput, DiscoverSchedulesResult, DiscoverSchedulesResultView,
    FetchWindowsInput, MeasureDurationsInput, PlanWindowsInput, PlanWindowsResult, PricedWindow,
    ScheduleAssignment, ScheduleAssignmentView, ScheduleDuration, ScheduleInfo, ScheduleInfoView,
    ScheduleRef, ScheduleUpdateSummary, ScheduleUpdateSummaryView, SchedulerInput,
    SchedulerResult, SchedulerResultView, SkippedSchedule, SkippedScheduleView, UpdateOutcome,
    UpdateOutcomeView, UpdateWindowsInput, UpdateWindowsInputView,
};
use crate::SECS_PER_DAY;

verus! {

/// Minimum lead time, in minutes, before a slot starts for it to be considered. The workflow still
/// has to commit the updated schedule before the slot begins, so a slot that starts sooner is left
/// out.
pub const SCHEDULE_LEAD_MINS: u32 = 2;

/// The slot duration where no namespace was discovered, in minutes.
pub const ASSUMED_SLOT_MINS: u32 = 30;

/// The minutes of a day.
pub const DAY_MINS: u64 = 1_440;

// ---- merging what was discovered ----

/// A namespace's discovery, or the text of its failure.
pub open spec fn outcome_view(o: Result<DiscoverSchedulesResult, String>) -> Result<
    DiscoverSchedulesResultView,
    Seq<char>,
> {
    match o {
        Ok(found) => Ok(found@),
        Err(error) => Err(error@),
    }
}

/// The discoveries of namespaces.
pub open spec fn outcome_views(s: Seq<Result<DiscoverSchedulesResult, String>>) -> Seq<
    Result<DiscoverSchedulesResultView, Seq<char>>,
> {
    Seq::new(s.len(), |i: int| outcome_view(s[i]))
}

/// The schedules that were discovered, namespace by namespace.
pub open spec fn merged_schedules(
    outcomes: Seq<Result<DiscoverSchedulesResultView, Seq<char>>>,
) -> Seq<ScheduleInfoView>
    decreases outcomes.len(),
{
    if outcomes.len() == 0 {
        Seq::empty()
    } else {
        let rest = merged_schedules(outcomes.drop_last());
        match outcomes.last() {
            Ok(found) => rest + found.schedules,
            Err(_) => rest,
        }
    }
}

/// A namespace whose discovery failed.
pub open spec fn failed_namespace(namespace: Seq<char>, error: Seq<char>) -> SkippedScheduleView {
    SkippedScheduleView {
        namespace,
        schedule_id: Seq::empty(),
        reason: "discover_schedules failed: "@ + error,
    }
}

/// What was skipped during discovery, namespace by namespace.
pub open spec fn merged_skips(
    namespaces: Seq<Seq<char>>,
    outcomes: Seq<Result<DiscoverSchedulesResultView, Seq<char>>>,
) -> Seq<SkippedScheduleView>
    decreases outcomes.len(),
{
    if outcomes.len() == 0 {
        Seq::empty()
    } else {
        let rest = merged_skips(namespaces, outcomes.drop_last());
        match outcomes.last() {
            Ok(found) => rest + found.skipped,
            Err(error) => rest.push(failed_namespace(namespaces[outcomes.len() - 1], error)),
        }
    }
}

/// The slot duration that discovery reported last.
pub open spec fn merged_slot_mins(
    outcomes: Seq<Result<DiscoverSchedulesResultView, Seq<char>>>,
) -> u32
    decreases outcomes.len(),
{
    if outcomes.len() == 0 {
        ASSUMED_SLOT_MINS
    } else {
        match outcomes.last() {
            Ok(found) => found.slot_duration_mins,
            Err(_) => merged_slot_mins(outcomes.drop_last()),
        }
    }
}

/// The order of schedules by namespace, and by ID within a namespace.
pub open spec fn ref_order() -> spec_fn(ScheduleInfoView, ScheduleInfoView) -> bool {
    |a: ScheduleInfoView, b: ScheduleInfoView|
        text_less(a.namespace, b.namespace) || (a.namespace == b.namespace && text_less(
            a.schedule_id,
            b.schedule_id,
        ))
}

/// Everything that was discovered.
#[derive(Debug)]
pub struct Discoveries {
    pub schedules: Vec<ScheduleInfo>,
    pub skipped: Vec<SkippedSchedule>,
    pub slot_duration_mins: u32,
}

/// Merges the discoveries of the namespaces. A namespace whose discovery failed is skipped, with the
/// reason.
pub fn merge_discoveries(
    namespaces: &Vec<String>,
    outcomes: Vec<Result<DiscoverSchedulesResult, String>>,
) -> (r: Discoveries)
    requires
        outcomes@.len() == namespaces@.len(),
    ensures
        views(r.schedules@) == stable_sorted(
            merged_schedules(outcome_views(outcomes@)),
            ref_order(),
        ),
        views(r.skipped@) == merged_skips(views(namespaces@), outcome_views(outcomes@)),
        r.slot_duration_mins == merged_slot_mins(outcome_views(outcomes@)),
{
    let ghost all = outcome_views(outcomes@);
    let ghost names = views(namespaces@);
    let mut left = outcomes;
    let mut schedules: Vec<ScheduleInfo> = Vec::new();
    let mut skipped: Vec<SkippedSchedule> = Vec::new();
    let mut slot_duration_mins: u32 = ASSUMED_SLOT_MINS;
    proof {
        assert(views(schedules@) =~= merged_schedules(all.take(0)));
        assert(views(skipped@) =~= merged_skips(names, all.take(0)));
        assert(all.skip(0) =~= all);
    }
    for i in 0..namespaces.len()
        invariant
            names == views(namespaces@),
            all.len() == namespaces@.len(),
            left@.len() == all.len() - i,
            outcome_views(left@) == all.skip(i as int),
            views(schedules@) == merged_schedules(all.take(i as int)),
            views(skipped@) == merged_skips(names, all.take(i as int)),
            slot_duration_mins == merged_slot_mins(all.take(i as int)),
    {
        let ghost prior_left = left@;
        let ghost prior_schedules = schedules@;
        let ghost prior_skipped = skipped@;
        let outcome = left.remove(0);
        proof {
            assert(outcome_views(prior_left)[0] == outcome_view(outcome));
            assert(all.take(i + 1).drop_last() =~= all.take(i as int));
            assert(all.take(i + 1).last() == outcome_view(outcome));
            assert forall|k: int| 0 <= k < left@.len() implies outcome_views(left@)[k] == all.skip(
                i + 1,
            )[k] by {
                assert(left@[k] == prior_left[k + 1]);
                assert(outcome_views(prior_left)[k + 1] == all.skip(i as int)[k + 1]);
            }
            assert(outcome_views(left@) =~= all.skip(i + 1));
        }
        match outcome {
            Ok(found) => {
                let mut found = found;
                let ghost found_schedules = found.schedules@;
                let ghost found_skipped = found.skipped@;
                slot_duration_mins = found.slot_duration_mins;
                skipped.append(&mut found.skipped);
                schedules.append(&mut found.schedules);
                proof {
                    assert(views(schedules@) =~= views(prior_schedules) + views(found_schedules));
                    assert(views(skipped@) =~= views(prior_skipped) + views(found_skipped));
                }
            },
            Err(error) => {
                let mut reason = "discover_schedules failed: ".to_owned();
                reason.append(error.as_str());
                skipped.push(
                    SkippedSchedule {
                        namespace: namespaces[i].clone(),
                        schedule_id: String::new(),
                        reason,
                    },
                );
                proof {
                    assert(skipped@.last()@ == failed_namespace(names[i as int], error@));
                    assert(views(skipped@) =~= views(prior_skipped).push(skipped@.last()@));
                }
            },
        }
    }
    proof {
        assert(all.take(all.len() as int) =~= all);
    }
    let less = |a: &ScheduleInfo, b: &ScheduleInfo| -> (r: bool)
        ensures
            r == (ref_order())(a@, b@),
        {
            text_is_less(a.namespace.as_str(), b.namespace.as_str()) || (a.namespace
                == b.namespace && text_is_less(a.schedule_id.as_str(), b.schedule_id.as_str()))
        };
    let schedules = stable_sort(schedules, less, Ghost(ref_order()));
    Discoveries { schedules, skipped, slot_duration_mins }
}

// ---- inputs of activities ----

/// The input of one namespace's discovery.
pub open spec fn is_discover_input(
    d: DiscoverSchedulesInput,
    namespace: Seq<char>,
    query: Seq<char>,
) -> bool {
    d.namespace@ == namespace && d.query@ == query
}

/// The inputs of the namespaces' discoveries.
pub fn discover_inputs(namespaces: &Vec<String>, query: &String) -> (r: Vec<
    DiscoverSchedulesInput,
>)
    ensures
        r@.len() == namespaces@.len(),
        forall|i: int|
            0 <= i < r@.len() ==> is_discover_input(
                #[trigger] r@[i],
                namespaces@[i]@,
                query@,
            ),
{
    let mut r: Vec<DiscoverSchedulesInput> = Vec::new();
    for i in 0..namespaces.len()
        invariant
            r@.len() == i,
            forall|k: int|
                0 <= k < i ==> is_discover_input(#[trigger] r@[k], namespaces@[k]@, query@),
    {
        r.push(
            DiscoverSchedulesInput { namespace: namespaces[i].clone(), query: query.clone() },
        );
    }
    r
}

/// The identities of schedules.
pub fn schedule_refs(schedules: &Vec<ScheduleInfo>) -> (r: Vec<ScheduleRef>)
    ensures
        views(r@) == refs_of(views(schedules@)),
{
    let mut r: Vec<ScheduleRef> = Vec::new();
    proof {
        assert(views(r@) =~= refs_of(views(schedules@)).take(0));
    }
    for i in 0..schedules.len()
        invariant
            views(r@) == refs_of(views(schedules@)).take(i as int),
    {
        let ghost prior = r@;
        r.push(
            ScheduleRef {
                namespace: schedules[i].namespace.clone(),
                schedule_id: schedules[i].schedule_id.clone(),
            },
        );
        proof {
            assert(views(r@) =~= views(prior).push(r@.last()@));
            assert(views(r@) =~= refs_of(views(schedules@)).take(i + 1));
        }
    }
    proof {
        assert(refs_of(views(schedules@)).take(schedules@.len() as int) =~= refs_of(
            views(schedules@),
        ));
    }
    r
}

// ---- the price pool ----

/// The seconds by the wall clock from the start of `today` to the start of the slot.
pub open spec fn secs_from_today(w: PricedWindow, today: CivilDate) -> int {
    (w.date.days - today.days) * SECS_PER_DAY + (w.hour * 60 + w.minute) * 60
}

/// The slot, which starts at second `start` of the epoch, starts late enough to be scheduled: at
/// least the lead time after now, in elapsed time and by the wall clock.
pub open spec fn is_ahead(w: PricedWindow, start: i64, clock: WorkflowClock) -> bool {
    &&& start >= clock.begun_secs + 60 * SCHEDULE_LEAD_MINS
    &&& secs_from_today(w, clock.today) >= clock.now_day_secs + 60 * SCHEDULE_LEAD_MINS
}

/// The slots that are ahead, in their order, given when each of them starts.
pub open spec fn slots_ahead(
    windows: Seq<PricedWindow>,
    starts: Seq<i64>,
    clock: WorkflowClock,
) -> Seq<PricedWindow>
    decreases windows.len(),
{
    if windows.len() == 0 {
        Seq::empty()
    } else {
        let rest = slots_ahead(windows.drop_last(), starts, clock);
        if is_ahead(windows.last(), starts[windows.len() - 1], clock) {
            rest.push(windows.last())
        } else {
            rest
        }
    }
}

/// The slots that there may be.
pub open spec fn slots_if_any(windows: Option<Vec<PricedWindow>>) -> Seq<PricedWindow> {
    match windows {
        Some(windows) => windows@,
        None => Seq::empty(),
    }
}

/// The pool: what is ahead of `windows` in `zone`.
pub open spec fn pool_of(
    windows: Seq<PricedWindow>,
    zone: Seq<char>,
    clock: WorkflowClock,
) -> Seq<PricedWindow> {
    slots_ahead(windows, slot_starts(windows, zone), clock)
}

/// Whether the slot, which starts at second `start` of the epoch, starts late enough to be
/// scheduled.
pub fn starts_ahead(w: PricedWindow, start: i64, clock: WorkflowClock) -> (r: bool)
    ensures
        r == is_ahead(w, start, clock),
{
    let days: i64 = w.date.days as i64 - clock.today.days as i64;
    let secs: i64 = days * 86_400 + (w.hour as i64 * 60 + w.minute as i64) * 60;
    start as i128 >= clock.begun_secs as i128 + 60 * SCHEDULE_LEAD_MINS as i128 && secs
        >= clock.now_day_secs as i64 + 60 * SCHEDULE_LEAD_MINS as i64
}

/// The slots that are ahead, given when each of them starts.
pub fn keep_ahead(windows: &Vec<PricedWindow>, starts: &Vec<i64>, clock: WorkflowClock) -> (r: Vec<
    PricedWindow,
>)
    requires
        starts@.len() == windows@.len(),
    ensures
        r@ == slots_ahead(windows@, starts@, clock),
{
    let mut r: Vec<PricedWindow> = Vec::new();
    proof {
        assert(r@ =~= slots_ahead(windows@.take(0), starts@, clock));
    }
    for i in 0..windows.len()
        invariant
            starts@.len() == windows@.len(),
            r@ == slots_ahead(windows@.take(i as int), starts@, clock),
    {
        proof {
            assert(windows@.take(i + 1).drop_last() =~= windows@.take(i as int));
        }
        if starts_ahead(windows[i], starts[i], clock) {
            r.push(windows[i]);
        }
    }
    proof {
        assert(windows@.take(windows@.len() as int) =~= windows@);
    }
    r
}

/// The pool: what is ahead of today's slots, then of tomorrow's.
pub fn price_pool(
    today_windows: &Vec<PricedWindow>,
    tomorrow_windows: Option<Vec<PricedWindow>>,
    timezone: &str,
    clock: WorkflowClock,
) -> (r: Vec<PricedWindow>)
    ensures
        r@ == pool_of(today_windows@ + slots_if_any(tomorrow_windows), timezone@, clock),
{
    let mut all: Vec<PricedWindow> = today_windows.clone();
    let ghost tomorrow = slots_if_any(tomorrow_windows);
    if let Some(windows) = tomorrow_windows {
        let mut windows = windows;
        all.append(&mut windows);
    }
    proof {
        assert(all@ =~= today_windows@ + tomorrow);
    }
    let starts = slot_epochs(&all, timezone);
    keep_ahead(&all, &starts, clock)
}

/// Schedules, all skipped for want of prices.
pub open spec fn without_prices(schedules: Seq<ScheduleInfoView>) -> Seq<SkippedScheduleView> {
    Seq::new(
        schedules.len(),
        |i: int|
            SkippedScheduleView {
                namespace: schedules[i].namespace,
                schedule_id: schedules[i].schedule_id,
                reason: "no price slots available"@,
            },
    )
}

/// Schedules, all skipped for want of prices.
pub fn skip_without_prices(schedules: &Vec<ScheduleInfo>) -> (r: Vec<SkippedSchedule>)
    ensures
        views(r@) == without_prices(views(schedules@)),
{
    let mut r: Vec<SkippedSchedule> = Vec::new();
    proof {
        assert(views(r@) =~= without_prices(views(schedules@)).take(0));
    }
    for i in 0..schedules.len()
        invariant
            views(r@) == without_prices(views(schedules@)).take(i as int),
    {
        let ghost prior = r@;
        r.push(
            SkippedSchedule {
                namespace: schedules[i].namespace.clone(),
                schedule_id: schedules[i].schedule_id.clone(),
                reason: "no price slots available".to_owned(),
            },
        );
        proof {
            assert(views(r@) =~= views(prior).push(r@.last()@));
            assert(views(r@) =~= without_prices(views(schedules@)).take(i + 1));
        }
    }
    proof {
        assert(without_prices(views(schedules@)).take(schedules@.len() as int) =~= without_prices(
            views(schedules@),
        ));
    }
    r
}

// ---- updates ----

/// The update that an assignment asks for.
pub open spec fn update_for(a: ScheduleAssignmentView, timezone: Seq<char>) -> UpdateWindowsInputView {
    UpdateWindowsInputView {
        namespace: a.schedule_ref.namespace,
        schedule_id: a.schedule_ref.schedule_id,
        window: a.window,
        timezone,
        interval_secs: a.interval_secs,
    }
}

/// The updates that assignments ask for.
pub open spec fn updates_for(
    assignments: Seq<ScheduleAssignmentView>,
    timezone: Seq<char>,
) -> Seq<UpdateWindowsInputView> {
    Seq::new(assignments.len(), |i: int| update_for(assignments[i], timezone))
}

/// The updates that assignments ask for.
pub fn update_inputs(assignments: &Vec<ScheduleAssignment>, timezone: &String) -> (r: Vec<
    UpdateWindowsInput,
>)
    ensures
        views(r@) == updates_for(views(assignments@), timezone@),
{
    let ghost all = updates_for(views(assignments@), timezone@);
    let mut r: Vec<UpdateWindowsInput> = Vec::new();
    proof {
        assert(views(r@) =~= all.take(0));
    }
    for i in 0..assignments.len()
        invariant
            all == updates_for(views(assignments@), timezone@),
            views(r@) == all.take(i as int),
    {
        let ghost prior = r@;
        let a = &assignments[i];
        r.push(
            UpdateWindowsInput {
                namespace: a.schedule_ref.namespace.clone(),
                schedule_id: a.schedule_ref.schedule_id.clone(),
                window: a.window,
                timezone: timezone.clone(),
                interval_secs: a.interval_secs,
            },
        );
        proof {
            assert(views(r@) =~= views(prior).push(r@.last()@));
            assert(views(r@) =~= all.take(i + 1));
        }
    }
    proof {
        assert(all.take(assignments@.len() as int) =~= all);
    }
    r
}

/// How often an interval fires in a day, at least once.
pub open spec fn fires_per_day(interval_secs: u64) -> nat {
    if interval_secs as int > SECS_PER_DAY {
        1
    } else {
        (SECS_PER_DAY as int / interval_secs as int) as nat
    }
}

/// The minutes from one firing to the next, of a day's firings.
pub open spec fn step_mins(interval_secs: u64) -> int {
    interval_secs as int / 60
}

/// The wall-clock time `minutes` after `window`, without regard to clock changes.
pub open spec fn window_after(window: ChosenWindow, minutes: int) -> ChosenWindow {
    let total = window.hour * 60 + window.minute + minutes;
    ChosenWindow {
        date: CivilDate { days: (window.date.days + total / DAY_MINS as int) as i32 },
        hour: (total % DAY_MINS as int / 60) as u32,
        minute: (total % DAY_MINS as int % 60) as u32,
    }
}

/// The firings of a day from `window` on.
pub open spec fn day_of_windows(window: ChosenWindow, interval_secs: u64) -> Seq<ChosenWindow> {
    Seq::new(
        fires_per_day(interval_secs),
        |i: int| window_after(window, i * step_mins(interval_secs)),
    )
}

/// A day's firings from `window` on are all in the calendar: they reach at most into the next day.
pub open spec fn can_be_summarised(window: ChosenWindow, interval_secs: u64) -> bool {
    &&& interval_secs > 0
    &&& is_time_of_day(window.hour, window.minute)
    &&& window.date.in_calendar()
    &&& window.date.days < LAST_DAY || window.hour * 60 + window.minute + (fires_per_day(
        interval_secs,
    ) - 1) * step_mins(interval_secs) < DAY_MINS
}

pub proof fn lemma_fires_within_a_day(interval_secs: u64, i: int)
    requires
        interval_secs > 0,
        0 <= i < fires_per_day(interval_secs),
    ensures
        1 <= fires_per_day(interval_secs) <= SECS_PER_DAY,
        0 <= i * step_mins(interval_secs) < DAY_MINS,
        i * step_mins(interval_secs) <= (fires_per_day(interval_secs) - 1) * step_mins(
            interval_secs,
        ),
{
    let d = interval_secs as int;
    let fires = fires_per_day(interval_secs) as int;
    let step = step_mins(interval_secs);
    if d > SECS_PER_DAY {
        assert(i == 0);
        assert(i * step == 0) by (nonlinear_arith)
            requires
                i == 0,
        ;
        assert((fires - 1) * step == 0) by (nonlinear_arith)
            requires
                fires == 1,
        ;
    } else {
        assert(86_400int / d >= 1 && 86_400int / d <= 86_400 && (86_400int / d) * d <= 86_400) by (nonlinear_arith)
            requires
                0 < d <= 86_400,
        ;
        assert(60 * step <= d);
        assert(step >= 0);
        assert(0 <= i * step <= (fires - 1) * step && 60 * (i * step) < 86_400) by (nonlinear_arith)
            requires
                0 <= i < fires,
                fires * d <= 86_400,
                60 * step <= d,
                step >= 0,
                d > 0,
        ;
    }
}

/// The firings of a day from `window` on.
pub fn windows_of_day(window: ChosenWindow, interval_secs: u64) -> (r: Vec<ChosenWindow>)
    requires
        can_be_summarised(window, interval_secs),
    ensures
        r@ == day_of_windows(window, interval_secs),
{
    let fires: u64 = if interval_secs > SECS_PER_DAY {
        1
    } else {
        SECS_PER_DAY / interval_secs
    };
    let step: u64 = interval_secs / 60;
    let mut r: Vec<ChosenWindow> = Vec::new();
    proof {
        assert(r@ =~= day_of_windows(window, interval_secs).take(0));
    }
    for i in 0..fires
        invariant
            can_be_summarised(window, interval_secs),
            fires == fires_per_day(interval_secs),
            step == step_mins(interval_secs),
            r@ == day_of_windows(window, interval_secs).take(i as int),
    {
        proof {
            lemma_fires_within_a_day(interval_secs, i as int);
        }
        let total: u64 = window.hour as u64 * 60 + window.minute as u64 + i * step;
        let within: u64 = total % DAY_MINS;
        r.push(
            ChosenWindow {
                date: CivilDate { days: window.date.days + (total / DAY_MINS) as i32 },
                hour: (within / 60) as u32,
                minute: (within % 60) as u32,
            },
        );
        proof {
            assert(r@ =~= day_of_windows(window, interval_secs).take(i + 1));
        }
    }
    proof {
        assert(day_of_windows(window, interval_secs).take(fires as int) =~= day_of_windows(
            window,
            interval_secs,
        ));
    }
    r
}

/// Whether a day's firings from `window` on are all in the calendar.
pub fn is_summarisable(window: ChosenWindow, interval_secs: u64) -> (r: bool)
    ensures
        r == can_be_summarised(window, interval_secs),
{
    if interval_secs == 0 || window.hour >= 24 || window.minute >= 60 || window.date.days
        < FIRST_DAY || window.date.days > LAST_DAY {
        return false;
    }
    let fires: u64 = if interval_secs > SECS_PER_DAY {
        1
    } else {
        SECS_PER_DAY / interval_secs
    };
    let step: u64 = interval_secs / 60;
    proof {
        assert(fires == fires_per_day(interval_secs));
        assert(fires >= 1) by {
            if interval_secs <= SECS_PER_DAY {
                let d = interval_secs as int;
                assert(86_400int / d >= 1) by (nonlinear_arith)
                    requires
                        0 < d <= 86_400,
                ;
            }
        }
        lemma_fires_within_a_day(interval_secs, fires - 1);
    }
    let last: u64 = window.hour as u64 * 60 + window.minute as u64 + (fires - 1) * step;
    window.date.days < LAST_DAY || last < DAY_MINS
}

/// The summaries of the first `k` assignments' updates.
pub open spec fn summaries_of(
    assignments: Seq<ScheduleAssignmentView>,
    outcomes: Seq<UpdateOutcomeView>,
    k: nat,
) -> Seq<ScheduleUpdateSummaryView>
    decreases k,
{
    if k == 0 {
        Seq::empty()
    } else {
        let rest = summaries_of(assignments, outcomes, (k - 1) as nat);
        let a = assignments[k - 1];
        match outcomes[k - 1] {
            UpdateOutcomeView::Updated => rest.push(
                ScheduleUpdateSummaryView {
                    namespace: a.schedule_ref.namespace,
                    schedule_id: a.schedule_ref.schedule_id,
                    windows: day_of_windows(a.window, a.interval_secs),
                },
            ),
            UpdateOutcomeView::Skipped { reason: _ } => rest,
        }
    }
}

/// Those of the first `k` assignments whose updates were skipped.
pub open spec fn refusals_of(
    assignments: Seq<ScheduleAssignmentView>,
    outcomes: Seq<UpdateOutcomeView>,
    k: nat,
) -> Seq<SkippedScheduleView>
    decreases k,
{
    if k == 0 {
        Seq::empty()
    } else {
        let rest = refusals_of(assignments, outcomes, (k - 1) as nat);
        let a = assignments[k - 1];
        match outcomes[k - 1] {
            UpdateOutcomeView::Updated => rest,
            UpdateOutcomeView::Skipped { reason } => rest.push(
                SkippedScheduleView {
                    namespace: a.schedule_ref.namespace,
                    schedule_id: a.schedule_ref.schedule_id,
                    reason,
                },
            ),
        }
    }
}

/// What the workflow reports once the updates are done.
pub open spec fn result_of(
    skipped: Seq<SkippedScheduleView>,
    assignments: Seq<ScheduleAssignmentView>,
    outcomes: Seq<UpdateOutcomeView>,
) -> SchedulerResultView {
    let updates = summaries_of(assignments, outcomes, assignments.len());
    SchedulerResultView {
        schedules_updated: updates.len(),
        updates,
        skipped: skipped + refusals_of(assignments, outcomes, assignments.len()),
    }
}

/// What the workflow reports once the updates are done.
pub fn summarise_updates(
    skipped: Vec<SkippedSchedule>,
    assignments: &Vec<ScheduleAssignment>,
    outcomes: &Vec<UpdateOutcome>,
) -> (r: SchedulerResult)
    requires
        outcomes@.len() == assignments@.len(),
        forall|i: int|
            0 <= i < assignments@.len() && outcomes@[i] is Updated ==> can_be_summarised(
                (#[trigger] assignments@[i]).window,
                assignments@[i].interval_secs,
            ),
    ensures
        r@ == result_of(views(skipped@), views(assignments@), views(outcomes@)),
{
    let ghost av = views(assignments@);
    let ghost ov = views(outcomes@);
    let ghost before = views(skipped@);
    let mut skipped = skipped;
    let mut updates: Vec<ScheduleUpdateSummary> = Vec::new();
    proof {
        assert(views(updates@) =~= summaries_of(av, ov, 0));
        assert(views(skipped@) =~= before + refusals_of(av, ov, 0));
    }
    for i in 0..assignments.len()
        invariant
            av == views(assignments@),
            ov == views(outcomes@),
            outcomes@.len() == assignments@.len(),
            forall|k: int|
                0 <= k < assignments@.len() && outcomes@[k] is Updated ==> can_be_summarised(
                    (#[trigger] assignments@[k]).window,
                    assignments@[k].interval_secs,
                ),
            views(updates@) == summaries_of(av, ov, i as nat),
            views(skipped@) == before + refusals_of(av, ov, i as nat),
    {
        let ghost prior_updates = updates@;
        let ghost prior_skipped = skipped@;
        let a = &assignments[i];
        proof {
            assert(ov[i as int] == outcomes@[i as int]@);
            assert(av[i as int] == a@);
        }
        match &outcomes[i] {
            UpdateOutcome::Updated => {
                updates.push(
                    ScheduleUpdateSummary {
                        namespace: a.schedule_ref.namespace.clone(),
                        schedule_id: a.schedule_ref.schedule_id.clone(),
                        windows: windows_of_day(a.window, a.interval_secs),
                    },
                );
                proof {
                    assert(views(updates@) =~= views(prior_updates).push(updates@.last()@));
                }
            },
            UpdateOutcome::Skipped { reason } => {
                skipped.push(
                    SkippedSchedule {
                        namespace: a.schedule_ref.namespace.clone(),
                        schedule_id: a.schedule_ref.schedule_id.clone(),
                        reason: reason.clone(),
                    },
                );
                proof {
                    assert(views(skipped@) =~= views(prior_skipped).push(skipped@.last()@));
                    assert(views(skipped@) =~= before + refusals_of(av, ov, (i + 1) as nat));
                }
            },
        }
    }
    SchedulerResult { schedules_updated: updates.len(), updates, skipped }
}

// ---- the workflow ----

/// When a workflow runs.
#[derive(Debug, Clone, Copy, PartialEq, Eq)]
pub struct WorkflowClock {
    /// The time in epoch seconds.
    pub now_secs: i64,
    /// The seconds after the epoch that have begun.
    pub begun_secs: i64,
    /// The seconds of the local day that have begun.
    pub now_day_secs: u32,
    /// The local date.
    pub today: CivilDate,
    pub tomorrow: CivilDate,
}

/// What a workflow waits for.
#[derive(Debug)]
pub enum Stage {
    Listing,
    Discovering { namespaces: Vec<String> },
    Measuring {
        schedules: Vec<ScheduleInfo>,
        skipped: Vec<SkippedSchedule>,
        slot_duration_mins: u32,
    },
    Fetching {
        schedules: Vec<ScheduleInfo>,
        skipped: Vec<SkippedSchedule>,
        slot_duration_mins: u32,
        durations: Vec<ScheduleDuration>,
    },
    Planning { skipped: Vec<SkippedSchedule> },
    Updating { skipped: Vec<SkippedSchedule>, assignments: Vec<ScheduleAssignment> },
    Finished,
}

/// What the activities of a stage came back with.
#[derive(Debug)]
pub enum Event {
    Listed { namespaces: Vec<String> },
    Discovered { outcomes: Vec<Result<DiscoverSchedulesResult, String>> },
    Measured { durations: Vec<ScheduleDuration> },
    Fetched { today: Vec<PricedWindow>, tomorrow: Option<Vec<PricedWindow>> },
    Planned { plan: PlanWindowsResult },
    Updated { outcomes: Vec<UpdateOutcome> },
}

/// What to do next: run activities and come back with what they gave, or finish.
#[derive(Debug)]
pub enum Action {
    List,
    Discover { inputs: Vec<DiscoverSchedulesInput> },
    Measure { input: MeasureDurationsInput },
    Fetch { today: FetchWindowsInput, tomorrow: FetchWindowsInput },
    Plan { input: PlanWindowsInput },
    Update { inputs: Vec<UpdateWindowsInput> },
    Finish { result: SchedulerResult },
}

/// A run of the workflow.
#[derive(Debug)]
pub struct SchedulerWorkflow {
    pub input: SchedulerInput,
    pub clock: WorkflowClock,
    pub stage: Stage,
}

/// The event is one that the stage waits for.
pub open spec fn is_awaited(stage: Stage, event: Event) -> bool {
    match (stage, event) {
        (Stage::Listing, Event::Listed { namespaces: _ }) => true,
        (Stage::Discovering { namespaces }, Event::Discovered { outcomes }) => outcomes@.len()
            == namespaces@.len(),
        (Stage::Measuring { .. }, Event::Measured { durations: _ }) => true,
        (Stage::Fetching { .. }, Event::Fetched { .. }) => true,
        (Stage::Planning { skipped: _ }, Event::Planned { plan: _ }) => true,
        (Stage::Updating { skipped: _, assignments }, Event::Updated { outcomes }) => {
            &&& outcomes@.len() == assignments@.len()
            &&& forall|i: int|
                0 <= i < assignments@.len() && outcomes@[i] is Updated ==> can_be_summarised(
                    (#[trigger] assignments@[i]).window,
                    assignments@[i].interval_secs,
                )
        },
        _ => false,
    }
}

/// A result without updates.
pub open spec fn nothing_updated(skipped: Seq<SkippedScheduleView>) -> SchedulerResultView {
    SchedulerResultView { schedules_updated: 0, updates: Seq::empty(), skipped }
}

/// The workflow finishes with `result`.
pub open spec fn finishes(stage: Stage, action: Action, result: SchedulerResultView) -> bool {
    &&& stage is Finished
    &&& action matches Action::Finish { result: r }
    &&& r@ == result
}

/// With the namespaces listed, each of them is searched for schedules.
pub open spec fn after_listing(
    stage: Stage,
    action: Action,
    namespaces: Seq<String>,
    query: Seq<char>,
) -> bool {
    &&& stage matches Stage::Discovering { namespaces: kept }
    &&& kept@ == namespaces
    &&& action matches Action::Discover { inputs }
    &&& inputs@.len() == namespaces.len()
    &&& forall|i: int|
        0 <= i < namespaces.len() ==> is_discover_input(
            #[trigger] inputs@[i],
            namespaces[i]@,
            query,
        )
}

/// With discovery done, the workflow finishes where it found no schedule; otherwise the schedules'
/// runs are measured.
pub open spec fn after_discovery(
    stage: Stage,
    action: Action,
    namespaces: Seq<Seq<char>>,
    outcomes: Seq<Result<DiscoverSchedulesResultView, Seq<char>>>,
) -> bool {
    let schedules = stable_sorted(merged_schedules(outcomes), ref_order());
    let skipped = merged_skips(namespaces, outcomes);
    if schedules.len() == 0 {
        finishes(stage, action, nothing_updated(skipped))
    } else {
        &&& stage matches Stage::Measuring {
            schedules: kept,
            skipped: kept_skipped,
            slot_duration_mins,
        }
        &&& views(kept@) == schedules
        &&& views(kept_skipped@) == skipped
        &&& slot_duration_mins == merged_slot_mins(outcomes)
        &&& action matches Action::Measure { input }
        &&& views(input.schedules@) == refs_of(schedules)
    }
}

/// The input of fetching one day's prices.
pub open spec fn is_fetch_input(f: FetchWindowsInput, date: CivilDate, timezone: Seq<char>) -> bool {
    f.date == date && f.timezone@ == timezone
}

/// With the runs measured, the prices of today and tomorrow are fetched.
pub open spec fn after_measuring(
    stage: Stage,
    action: Action,
    was: Stage,
    durations: Vec<ScheduleDuration>,
    clock: WorkflowClock,
    timezone: Seq<char>,
) -> bool {
    &&& was matches Stage::Measuring { schedules, skipped, slot_duration_mins }
    &&& stage == (Stage::Fetching { schedules, skipped, slot_duration_mins, durations })
    &&& action matches Action::Fetch { today, tomorrow }
    &&& is_fetch_input(today, clock.today, timezone)
    &&& is_fetch_input(tomorrow, clock.tomorrow, timezone)
}

/// With the prices fetched, the workflow finishes where no slot is ahead; otherwise the schedules
/// are planned.
pub open spec fn after_fetching(
    stage: Stage,
    action: Action,
    was: Stage,
    pool: Seq<PricedWindow>,
    clock: WorkflowClock,
    timezone: Seq<char>,
) -> bool {
    &&& was matches Stage::Fetching { schedules, skipped, slot_duration_mins, durations }
    &&& if pool.len() == 0 {
        finishes(
            stage,
            action,
            nothing_updated(without_prices(views(schedules@)) + views(skipped@)),
        )
    } else {
        &&& stage == (Stage::Planning { skipped })
        &&& action matches Action::Plan { input }
        &&& input.schedules == schedules
        &&& input.schedule_durations == durations
        &&& input.priced_windows@ == pool
        &&& input.timezone@ == timezone
        &&& input.now_secs == clock.now_secs
        &&& input.slot_duration_mins == slot_duration_mins
    }
}

/// With the plan made, the assigned schedules are updated.
pub open spec fn after_planning(
    stage: Stage,
    action: Action,
    was: Stage,
    plan: PlanWindowsResult,
    timezone: Seq<char>,
) -> bool {
    &&& was matches Stage::Planning { skipped: known }
    &&& stage matches Stage::Updating { skipped, assignments }
    &&& views(skipped@) == views(known@) + views(plan.skipped@)
    &&& assignments == plan.assignments
    &&& action matches Action::Update { inputs }
    &&& views(inputs@) == updates_for(views(plan.assignments@), timezone)
}

/// With the updates done, the workflow finishes.
pub open spec fn after_updating(
    stage: Stage,
    action: Action,
    was: Stage,
    outcomes: Seq<UpdateOutcomeView>,
) -> bool {
    &&& was matches Stage::Updating { skipped, assignments }
    &&& finishes(stage, action, result_of(views(skipped@), views(assignments@), outcomes))
}

/// A workflow in stage `was` goes on to `stage` and does `action` next, on what came back.
pub open spec fn goes_on(
    was: SchedulerWorkflow,
    event: Event,
    stage: Stage,
    action: Action,
) -> bool {
    match event {
        Event::Listed { namespaces } => after_listing(
            stage,
            action,
            namespaces@,
            was.input.query@,
        ),
        Event::Discovered { outcomes } => {
            &&& was.stage matches Stage::Discovering { namespaces }
            &&& after_discovery(stage, action, views(namespaces@), outcome_views(outcomes@))
        },
        Event::Measured { durations } => after_measuring(
            stage,
            action,
            was.stage,
            durations,
            was.clock,
            was.input.timezone@,
        ),
        Event::Fetched { today, tomorrow } => after_fetching(
            stage,
            action,
            was.stage,
            pool_of(today@ + slots_if_any(tomorrow), was.input.timezone@, was.clock),
            was.clock,
            was.input.timezone@,
        ),
        Event::Planned { plan } => after_planning(
            stage,
            action,
            was.stage,
            plan,
            was.input.timezone@,
        ),
        Event::Updated { outcomes } => after_updating(
            stage,
            action,
            was.stage,
            views(outcomes@),
        ),
    }
}

/// The time of a workflow, with times before the epoch as 0.
pub open spec fn seconds_since_epoch(now: Moment) -> i64 {
    if now.secs > 0 {
        now.secs
    } else {
        0
    }
}

/// The second of which a part has passed at `now`, if there is one.
pub open spec fn part_second(now: Moment) -> int {
    if now.nanos > 0 {
        1
    } else {
        0
    }
}

/// The seconds of the local day that have begun at `now`, where the local clock shows `clock`: a
/// second of which a part has passed counts as whole.
pub open spec fn begun_day_secs(now: Moment, clock: (i32, u32, u32, u32)) -> int {
    (clock.1 * 60 + clock.2) * 60 + clock.3 + part_second(now)
}

/// The workflow's clock at `now`, where the local clock shows `clock`; `None` on the last day of the
/// calendar.
pub open spec fn workflow_clock(now: Moment, clock: (i32, u32, u32, u32)) -> Option<
    WorkflowClock,
> {
    match next_date(CivilDate { days: clock.0 }) {
        Some(tomorrow) => Some(
            WorkflowClock {
                now_secs: seconds_since_epoch(now),
                begun_secs: (now.secs + part_second(now)) as i64,
                now_day_secs: begun_day_secs(now, clock) as u32,
                today: CivilDate { days: clock.0 },
                tomorrow,
            },
        ),
        None => None,
    }
}

/// The workflow's clock at `now`, where the local clock shows `clock`.
pub fn set_clock(now: Moment, clock: (i32, u32, u32, u32)) -> (r: Option<WorkflowClock>)
    requires
        now.secs < i64::MAX,
        is_time_of_day(clock.1, clock.2),
        clock.3 < 60,
    ensures
        r == workflow_clock(now, clock),
{
    let today = CivilDate { days: clock.0 };
    let now_secs: i64 = if now.secs > 0 {
        now.secs
    } else {
        0
    };
    let begun: u32 = if now.nanos > 0 {
        1
    } else {
        0
    };
    let begun_secs: i64 = now.secs + begun as i64;
    let now_day_secs: u32 = (clock.1 * 60 + clock.2) * 60 + clock.3 + begun;
    match today.next() {
        Some(tomorrow) => Some(
            WorkflowClock { now_secs, begun_secs, now_day_secs, today, tomorrow },
        ),
        None => None,
    }
}

impl SchedulerWorkflow {
    /// Starts a run at `now`: it lists the namespaces first. Without a time, in an unknown timezone
    /// and on the last day of the calendar there is no run.
    pub fn new(input: SchedulerInput, now: Option<Moment>) -> (r: Result<
        (SchedulerWorkflow, Action),
        String,
    >)
        requires
            now matches Some(now) ==> has_local_dates(now.secs),
        ensures
            match now {
                None => r matches Err(error) && error@ == "no workflow time"@,
                Some(now) => if !zone_is_known(input.timezone@) {
                    r matches Err(error) && error@ == "invalid timezone "@ + quoted_text(
                        input.timezone@,
                    )
                } else {
                    match workflow_clock(
                        now,
                        local_clock(input.timezone@, now.secs)->Some_0,
                    ) {
                        None => r matches Err(error) && error@ == "date overflow"@,
                        Some(clock) => {
                            &&& r matches Ok((run, action))
                            &&& run == (SchedulerWorkflow { input, clock, stage: Stage::Listing })
                            &&& action is List
                        },
                    }
                },
            },
    {
        let now = match now {
            Some(now) => now,
            None => {
                return Err("no workflow time".to_owned());
            },
        };
        let local = match clock_at(input.timezone.as_str(), now.secs) {
            Some(local) => local,
            None => {
                let mut error = "invalid timezone ".to_owned();
                error.append(quoted(input.timezone.as_str()).as_str());
                return Err(error);
            },
        };
        match set_clock(now, local) {
            Some(clock) => Ok(
                (SchedulerWorkflow { input, clock, stage: Stage::Listing }, Action::List),
            ),
            None => Err("date overflow".to_owned()),
        }
    }

    /// Whether the event is one that the run waits for, and can go on with.
    pub fn awaits(&self, event: &Event) -> (r: bool)
        ensures
            r == is_awaited(self.stage, *event),
    {
        match (&self.stage, event) {
            (Stage::Listing, Event::Listed { namespaces: _ }) => true,
            (Stage::Discovering { namespaces }, Event::Discovered { outcomes }) => outcomes.len()
                == namespaces.len(),
            (Stage::Measuring { .. }, Event::Measured { durations: _ }) => true,
            (Stage::Fetching { .. }, Event::Fetched { .. }) => true,
            (Stage::Planning { skipped: _ }, Event::Planned { plan: _ }) => true,
            (Stage::Updating { skipped: _, assignments }, Event::Updated { outcomes }) => {
                if outcomes.len() != assignments.len() {
                    return false;
                }
                for i in 0..assignments.len()
                    invariant
                        outcomes@.len() == assignments@.len(),
                        forall|k: int|
                            0 <= k < i && outcomes@[k] is Updated ==> can_be_summarised(
                                (#[trigger] assignments@[k]).window,
                                assignments@[k].interval_secs,
                            ),
                        self.stage matches Stage::Updating { skipped: _, assignments: a } && a
                            == *assignments,
                        *event matches Event::Updated { outcomes: o } && o == *outcomes,
                {
                    let updated = match &outcomes[i] {
                        UpdateOutcome::Updated => true,
                        UpdateOutcome::Skipped { reason: _ } => false,
                    };
                    let a = &assignments[i];
                    if updated && !is_summarisable(a.window, a.interval_secs) {
                        return false;
                    }
                }
                true
            },
            (_, _) => false,
        }
    }

    /// Takes what the activities came back with, and says what to do next.
    pub fn run(&mut self, event: Event) -> (action: Action)
        requires
            is_awaited(old(self).stage, event),
        ensures
            final(self).input == old(self).input,
            final(self).clock == old(self).clock,
            goes_on(*old(self), event, final(self).stage, action),
    {
        let mut stage = Stage::Finished;
        std::mem::swap(&mut self.stage, &mut stage);
        match (stage, event) {
            (Stage::Listing, Event::Listed { namespaces }) => {
                let inputs = discover_inputs(&namespaces, &self.input.query);
                self.stage = Stage::Discovering { namespaces };
                Action::Discover { inputs }
            },
            (Stage::Discovering { namespaces }, Event::Discovered { outcomes }) => {
                let found = merge_discoveries(&namespaces, outcomes);
                if found.schedules.len() == 0 {
                    let updates: Vec<ScheduleUpdateSummary> = Vec::new();
                    proof {
                        assert(views(updates@) =~= Seq::<ScheduleUpdateSummaryView>::empty());
                    }
                    Action::Finish {
                        result: SchedulerResult {
                            schedules_updated: 0,
                            updates,
                            skipped: found.skipped,
                        },
                    }
                } else {
                    let input = MeasureDurationsInput {
                        schedules: schedule_refs(&found.schedules),
                    };
                    self.stage = Stage::Measuring {
                        schedules: found.schedules,
                        skipped: found.skipped,
                        slot_duration_mins: found.slot_duration_mins,
                    };
                    Action::Measure { input }
                }
            },
            (
                Stage::Measuring { schedules, skipped, slot_duration_mins },
                Event::Measured { durations },
            ) => {
                self.stage = Stage::Fetching { schedules, skipped, slot_duration_mins, durations };
                Action::Fetch {
                    today: FetchWindowsInput {
                        date: self.clock.today,
                        timezone: self.input.timezone.clone(),
                    },
                    tomorrow: FetchWindowsInput {
                        date: self.clock.tomorrow,
                        timezone: self.input.timezone.clone(),
                    },
                }
            },
            (
                Stage::Fetching { schedules, skipped, slot_duration_mins, durations },
                Event::Fetched { today, tomorrow },
            ) => {
                let pool = price_pool(
                    &today,
                    tomorrow,
                    self.input.timezone.as_str(),
                    self.clock,
                );
                if pool.len() == 0 {
                    let mut all = skip_without_prices(&schedules);
                    let ghost without = all@;
                    let ghost known = skipped@;
                    let mut skipped = skipped;
                    all.append(&mut skipped);
                    let updates: Vec<ScheduleUpdateSummary> = Vec::new();
                    proof {
                        assert(views(all@) =~= views(without) + views(known));
                        assert(views(updates@) =~= Seq::<ScheduleUpdateSummaryView>::empty());
                    }
                    Action::Finish {
                        result: SchedulerResult { schedules_updated: 0, updates, skipped: all },
                    }
                } else {
                    let input = PlanWindowsInput {
                        schedules,
                        schedule_durations: durations,
                        priced_windows: pool,
                        timezone: self.input.timezone.clone(),
                        now_secs: self.clock.now_secs,
                        slot_duration_mins,
                    };
                    self.stage = Stage::Planning { skipped };
                    Action::Plan { input }
                }
            },
            (Stage::Planning { skipped }, Event::Planned { plan }) => {
                let ghost known = skipped@;
                let ghost new = plan.skipped@;
                let mut plan = plan;
                let mut skipped = skipped;
                skipped.append(&mut plan.skipped);
                proof {
                    assert(views(skipped@) =~= views(known) + views(new));
                }
                let inputs = update_inputs(&plan.assignments, &self.input.timezone);
                self.stage = Stage::Updating { skipped, assignments: plan.assignments };
                Action::Update { inputs }
            },
            (Stage::Updating { skipped, assignments }, Event::Updated { outcomes }) => {
                Action::Finish { result: summarise_updates(skipped, &assignments, &outcomes) }
            },
            // No other pair is awaited.
            (_, _) => Action::List,
        }
    }
}

} // verus!
