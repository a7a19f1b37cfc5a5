//! What holds of every run of the workflow.

use vstd::multiset::Multiset;
use vstd::prelude::*;

use crate::calendar::{is_time_of_day, local_instant, Moment, LAST_DAY, SECOND_NANOS};
use crate::planning::{plan_of, ref_of, refs_of, slot_start, slot_starts, Circumstances};
use crate::planning_laws::{
    assigned_refs, assigns, law_every_schedule_is_accounted_for, law_never_sooner_than_the_interval,
    may_run_from, skipped_refs,
};
use crate::seqs::views;
use crate::sorting::{
    is_ranking, is_sorted, law_sorting_ignores_given_order, law_sorting_is_stable,
    law_sorting_permutes, law_sorting_sorts, same_rank, stable_sorted,
};
use crate::text::{law_text_order, text_less};
use crate::types::{
    ChosenWindow, DiscoverSchedulesResult, DiscoverSchedulesResultView, PlanWindowsResult,
    PricedWindow, ScheduleAssignmentView, ScheduleDuration,
    ScheduleInfoView, ScheduleRefView, ScheduleUpdateSummaryView, SchedulerResultView,
    SkippedScheduleView, UpdateOutcome, UpdateOutcomeView,
};
use crate::workflow::{
    can_be_summarised, day_of_windows, failed_namespace, fires_per_day, goes_on, is_ahead,
    is_awaited, lemma_fires_within_a_day, merged_schedules, merged_skips, merged_slot_mins, nothing_updated, outcome_views, pool_of,
    ref_order, refusals_of, result_of, secs_from_today, slots_ahead, slots_if_any, step_mins, summaries_of,
    updates_for, without_prices, workflow_clock, Action, Event, SchedulerWorkflow, Stage, WorkflowClock,
    DAY_MINS, SCHEDULE_LEAD_MINS,
};

verus! {

// ---- the order of schedules ----

/// Schedules are ordered by namespace and ID: the order is by a key.
pub proof fn law_ref_order_is_a_ranking()
    ensures
        is_ranking(ref_order()),
{
    let order = ref_order();
    assert forall|a: ScheduleInfoView, b: ScheduleInfoView| #[trigger] order(a, b) implies !order(
        b,
        a,
    ) by {
        law_text_order(a.namespace, b.namespace, a.namespace);
        law_text_order(a.schedule_id, b.schedule_id, a.schedule_id);
        law_text_order(a.namespace, a.namespace, a.namespace);
    }
    assert forall|a: ScheduleInfoView, b: ScheduleInfoView, c: ScheduleInfoView|
        #![trigger order(a, b), order(c, b)]
        #![trigger order(a, b), order(a, c)]
        order(a, b) implies order(a, c) || order(c, b) by {
        law_text_order(a.namespace, b.namespace, c.namespace);
        law_text_order(a.namespace, c.namespace, a.namespace);
        law_text_order(c.namespace, b.namespace, a.namespace);
        law_text_order(a.schedule_id, b.schedule_id, c.schedule_id);
    }
}

/// Schedules are planned in the order of their namespaces and IDs.
pub proof fn law_schedules_are_planned_in_order(schedules: Seq<ScheduleInfoView>)
    ensures
        is_sorted(stable_sorted(schedules, ref_order()), ref_order()),
{
    law_ref_order_is_a_ranking();
    law_sorting_sorts(schedules, ref_order());
}

/// Planning does not depend on the order in which schedules were discovered, as long as no two of
/// them share both namespace and ID.
pub proof fn law_discovery_order_does_not_matter(
    a: Seq<ScheduleInfoView>,
    b: Seq<ScheduleInfoView>,
)
    requires
        a.to_multiset() == b.to_multiset(),
        forall|i: int, j: int|
            0 <= i < a.len() && 0 <= j < a.len() && ref_of(#[trigger] a[i]) == ref_of(
                #[trigger] a[j],
            ) ==> a[i] == a[j],
    ensures
        stable_sorted(a, ref_order()) == stable_sorted(b, ref_order()),
{
    let order = ref_order();
    law_ref_order_is_a_ranking();
    assert forall|i: int, j: int|
        0 <= i < a.len() && 0 <= j < a.len() && #[trigger] a[i] != #[trigger] a[j] implies order(
        a[i],
        a[j],
    ) || order(a[j], a[i]) by {
        assert(ref_of(a[i]) != ref_of(a[j]));
        law_text_order(a[i].namespace, a[j].namespace, a[i].namespace);
        law_text_order(a[i].schedule_id, a[j].schedule_id, a[i].schedule_id);
    }
    law_sorting_ignores_given_order(a, b, order);
}

// ---- failures ----

/// A namespace whose discovery fails blocks no other: every schedule that was found in one is
/// planned.
pub proof fn law_failed_namespace_blocks_no_other(
    outcomes: Seq<Result<DiscoverSchedulesResultView, Seq<char>>>,
    i: int,
    k: int,
)
    requires
        0 <= i < outcomes.len(),
        outcomes[i] is Ok,
        0 <= k < outcomes[i]->Ok_0.schedules.len(),
    ensures
        merged_schedules(outcomes).contains(outcomes[i]->Ok_0.schedules[k]),
        stable_sorted(merged_schedules(outcomes), ref_order()).contains(
            outcomes[i]->Ok_0.schedules[k],
        ),
{
    broadcast use vstd::seq_lib::group_to_multiset_ensures;

    let s = outcomes[i]->Ok_0.schedules[k];
    let all = merged_schedules(outcomes);
    lemma_found_is_merged(outcomes, i, k);
    law_sorting_permutes(all, ref_order());
    assert(all.to_multiset().count(s) > 0);
}

proof fn lemma_found_is_merged(
    outcomes: Seq<Result<DiscoverSchedulesResultView, Seq<char>>>,
    i: int,
    k: int,
)
    requires
        0 <= i < outcomes.len(),
        outcomes[i] is Ok,
        0 <= k < outcomes[i]->Ok_0.schedules.len(),
    ensures
        merged_schedules(outcomes).contains(outcomes[i]->Ok_0.schedules[k]),
    decreases outcomes.len(),
{
    let rest = merged_schedules(outcomes.drop_last());
    let all = merged_schedules(outcomes);
    let s = outcomes[i]->Ok_0.schedules[k];
    if i < outcomes.len() - 1 {
        lemma_found_is_merged(outcomes.drop_last(), i, k);
        let m = choose|m: int| 0 <= m < rest.len() && rest[m] == s;
        assert(all[m] == s);
    } else {
        assert(all[rest.len() + k] == s);
    }
}

/// Every failed discovery is reported, with its namespace and its reason.
pub proof fn law_failed_namespace_is_reported(
    namespaces: Seq<Seq<char>>,
    outcomes: Seq<Result<DiscoverSchedulesResultView, Seq<char>>>,
    i: int,
)
    requires
        0 <= i < outcomes.len(),
        outcomes[i] is Err,
    ensures
        merged_skips(namespaces, outcomes).contains(
            failed_namespace(namespaces[i], outcomes[i]->Err_0),
        ),
    decreases outcomes.len(),
{
    let rest = merged_skips(namespaces, outcomes.drop_last());
    let all = merged_skips(namespaces, outcomes);
    let skip = failed_namespace(namespaces[i], outcomes[i]->Err_0);
    if i < outcomes.len() - 1 {
        law_failed_namespace_is_reported(namespaces, outcomes.drop_last(), i);
        let m = choose|m: int| 0 <= m < rest.len() && rest[m] == skip;
        assert(all[m] == skip);
    } else {
        assert(all[all.len() - 1] == skip);
    }
}

// ---- the pool ----

/// The nanoseconds of the local day that have passed at `now`, where the local clock shows `clock`.
pub open spec fn day_nanos(now: Moment, clock: (i32, u32, u32, u32)) -> int {
    ((clock.1 * 60 + clock.2) * 60 + clock.3) * SECOND_NANOS + now.nanos
}

/// The run's clock is the one at `now`, where the local clock shows `reading`.
pub open spec fn is_clock_at(
    clock: WorkflowClock,
    now: Moment,
    reading: (i32, u32, u32, u32),
) -> bool {
    &&& now.is_normal()
    &&& now.secs < i64::MAX
    &&& is_time_of_day(reading.1, reading.2)
    &&& reading.3 < 60
    &&& workflow_clock(now, reading) == Some(clock)
}

/// Every slot that is considered at `now`, where the local clock shows `reading`, is one of those
/// that were fetched. It starts no sooner than the lead time after now, to the nanosecond, in
/// elapsed time and by the wall clock, whatever day it is on and whatever the clocks do meanwhile.
pub proof fn law_slots_keep_the_lead_time(
    windows: Seq<PricedWindow>,
    zone: Seq<char>,
    clock: WorkflowClock,
    now: Moment,
    reading: (i32, u32, u32, u32),
    i: int,
)
    requires
        is_clock_at(clock, now, reading),
        0 <= i < pool_of(windows, zone, clock).len(),
    ensures
        ({
            let w = pool_of(windows, zone, clock)[i];
            let lead = SCHEDULE_LEAD_MINS * 60 * SECOND_NANOS;
            &&& windows.contains(w)
            &&& slot_start(w, zone) * SECOND_NANOS >= now.total_nanos() + lead
            &&& secs_from_today(w, clock.today) * SECOND_NANOS >= day_nanos(now, reading) + lead
        }),
{
    let k = lemma_considered_is_ahead(windows, slot_starts(windows, zone), clock, i);
    assert(windows[k] == pool_of(windows, zone, clock)[i]);
}

proof fn lemma_considered_is_ahead(
    windows: Seq<PricedWindow>,
    starts: Seq<i64>,
    clock: WorkflowClock,
    i: int,
) -> (k: int)
    requires
        0 <= i < slots_ahead(windows, starts, clock).len(),
    ensures
        0 <= k < windows.len(),
        windows[k] == slots_ahead(windows, starts, clock)[i],
        is_ahead(windows[k], starts[k], clock),
    decreases windows.len(),
{
    let rest = slots_ahead(windows.drop_last(), starts, clock);
    if i < rest.len() {
        lemma_considered_is_ahead(windows.drop_last(), starts, clock, i)
    } else {
        windows.len() - 1
    }
}

/// No slot that keeps the lead time is left out.
pub proof fn law_no_slot_ahead_is_left_out(
    windows: Seq<PricedWindow>,
    zone: Seq<char>,
    clock: WorkflowClock,
    i: int,
)
    requires
        0 <= i < windows.len(),
        is_ahead(windows[i], slot_start(windows[i], zone), clock),
    ensures
        pool_of(windows, zone, clock).contains(windows[i]),
{
    lemma_ahead_is_considered(windows, slot_starts(windows, zone), clock, i);
}

proof fn lemma_ahead_is_considered(
    windows: Seq<PricedWindow>,
    starts: Seq<i64>,
    clock: WorkflowClock,
    i: int,
)
    requires
        0 <= i < windows.len(),
        is_ahead(windows[i], starts[i], clock),
    ensures
        slots_ahead(windows, starts, clock).contains(windows[i]),
    decreases windows.len(),
{
    let rest = slots_ahead(windows.drop_last(), starts, clock);
    let all = slots_ahead(windows, starts, clock);
    if i < windows.len() - 1 {
        lemma_ahead_is_considered(windows.drop_last(), starts, clock, i);
        let k = choose|k: int| 0 <= k < rest.len() && rest[k] == windows[i];
        assert(all[k] == windows[i]);
    } else {
        assert(all[all.len() - 1] == windows[i]);
    }
}

// ---- accounting ----

/// The identities of updated schedules.
pub open spec fn updated_refs(s: Seq<ScheduleUpdateSummaryView>) -> Seq<ScheduleRefView> {
    Seq::new(
        s.len(),
        |i: int| ScheduleRefView { namespace: s[i].namespace, schedule_id: s[i].schedule_id },
    )
}

/// The identities that a result accounts for, as often as it does.
pub open spec fn result_refs(r: SchedulerResultView) -> Multiset<ScheduleRefView> {
    updated_refs(r.updates).to_multiset().add(skipped_refs(r.skipped).to_multiset())
}

proof fn lemma_updates_accounted(
    assignments: Seq<ScheduleAssignmentView>,
    outcomes: Seq<UpdateOutcomeView>,
    k: nat,
)
    requires
        k <= assignments.len(),
    ensures
        updated_refs(summaries_of(assignments, outcomes, k)).to_multiset().add(
            skipped_refs(refusals_of(assignments, outcomes, k)).to_multiset(),
        ) == assigned_refs(assignments.take(k as int)).to_multiset(),
    decreases k,
{
    broadcast use {vstd::multiset::group_multiset_axioms, vstd::seq_lib::group_to_multiset_ensures};

    let updated = summaries_of(assignments, outcomes, k);
    let refused = refusals_of(assignments, outcomes, k);
    if k == 0 {
        assert(updated_refs(updated) =~= Seq::<ScheduleRefView>::empty());
        assert(skipped_refs(refused) =~= Seq::<ScheduleRefView>::empty());
        assert(assigned_refs(assignments.take(0)) =~= Seq::<ScheduleRefView>::empty());
    } else {
        let prior = (k - 1) as nat;
        let id = assignments[k - 1].schedule_ref;
        lemma_updates_accounted(assignments, outcomes, prior);
        assert(assigned_refs(assignments.take(k as int)) =~= assigned_refs(
            assignments.take(k - 1),
        ).push(id));
        match outcomes[k - 1] {
            UpdateOutcomeView::Updated => {
                assert(updated_refs(updated) =~= updated_refs(
                    summaries_of(assignments, outcomes, prior),
                ).push(id));
            },
            UpdateOutcomeView::Skipped { reason } => {
                assert(skipped_refs(refused) =~= skipped_refs(
                    refusals_of(assignments, outcomes, prior),
                ).push(id));
            },
        }
    }
    assert(updated_refs(updated).to_multiset().add(skipped_refs(refused).to_multiset())
        =~= assigned_refs(assignments.take(k as int)).to_multiset());
}

/// Every schedule that was discovered, and everything that was skipped on the way, is in the result
/// exactly once, as updated or as skipped with a reason, whatever the solver and the server answer.
pub proof fn law_result_accounts_for_every_schedule(
    schedules: Seq<ScheduleInfoView>,
    skipped: Seq<SkippedScheduleView>,
    priced: Seq<PricedWindow>,
    c: Circumstances,
    outcomes: Seq<UpdateOutcomeView>,
)
    ensures
        ({
            let plan = plan_of(schedules, priced, c);
            result_refs(result_of(skipped + plan.skipped, plan.assignments, outcomes))
                == refs_of(schedules).to_multiset().add(skipped_refs(skipped).to_multiset())
        }),
{
    broadcast use {vstd::multiset::group_multiset_axioms, vstd::seq_lib::group_to_multiset_ensures};

    let plan = plan_of(schedules, priced, c);
    let n = plan.assignments.len();
    let result = result_of(skipped + plan.skipped, plan.assignments, outcomes);
    let refused = refusals_of(plan.assignments, outcomes, n);
    law_every_schedule_is_accounted_for(schedules, priced, c);
    lemma_updates_accounted(plan.assignments, outcomes, n);
    assert(plan.assignments.take(n as int) =~= plan.assignments);
    assert(skipped_refs(result.skipped) =~= skipped_refs(skipped) + skipped_refs(plan.skipped)
        + skipped_refs(refused));
    vstd::seq_lib::lemma_multiset_commutative(
        skipped_refs(skipped) + skipped_refs(plan.skipped),
        skipped_refs(refused),
    );
    vstd::seq_lib::lemma_multiset_commutative(skipped_refs(skipped), skipped_refs(plan.skipped));
    assert(result_refs(result) =~= refs_of(schedules).to_multiset().add(
        skipped_refs(skipped).to_multiset(),
    ));
}

/// Without prices, every schedule that was discovered, and everything that was skipped on the way,
/// is skipped exactly once.
pub proof fn law_nothing_is_lost_without_prices(
    schedules: Seq<ScheduleInfoView>,
    skipped: Seq<SkippedScheduleView>,
)
    ensures
        result_refs(nothing_updated(without_prices(schedules) + skipped)) == refs_of(
            schedules,
        ).to_multiset().add(skipped_refs(skipped).to_multiset()),
{
    broadcast use {vstd::multiset::group_multiset_axioms, vstd::seq_lib::group_to_multiset_ensures};

    let result = nothing_updated(without_prices(schedules) + skipped);
    assert(skipped_refs(result.skipped) =~= refs_of(schedules) + skipped_refs(skipped));
    vstd::seq_lib::lemma_multiset_commutative(refs_of(schedules), skipped_refs(skipped));
    assert(updated_refs(result.updates) =~= Seq::<ScheduleRefView>::empty());
    assert(result_refs(result) =~= refs_of(schedules).to_multiset().add(
        skipped_refs(skipped).to_multiset(),
    ));
}

/// Whenever the workflow finishes, the number of updated schedules that it reports is the number of
/// its summaries: a schedule that may not be updated is not counted.
pub proof fn law_updates_are_counted(
    was: SchedulerWorkflow,
    event: Event,
    stage: Stage,
    action: Action,
)
    requires
        is_awaited(was.stage, event),
        goes_on(was, event, stage, action),
    ensures
        action matches Action::Finish { result } ==> result@.schedules_updated
            == result@.updates.len(),
{
}

/// A run goes through the stages in order, and a finished run waits for nothing.
pub proof fn law_stages_follow_each_other(
    was: SchedulerWorkflow,
    event: Event,
    stage: Stage,
    action: Action,
)
    requires
        is_awaited(was.stage, event),
        goes_on(was, event, stage, action),
    ensures
        was.stage is Listing ==> stage is Discovering,
        was.stage is Discovering ==> stage is Measuring || stage is Finished,
        was.stage is Measuring ==> stage is Fetching,
        was.stage is Fetching ==> stage is Planning || stage is Finished,
        was.stage is Planning ==> stage is Updating,
        was.stage is Updating ==> stage is Finished,
        !(was.stage is Finished),
        stage is Finished <==> action is Finish,
{
}

// ---- summaries ----

/// The minutes from the first minute of day 0 to a wall-clock time.
pub open spec fn wall_minutes(w: ChosenWindow) -> int {
    w.date.days * 1_440 + w.hour * 60 + w.minute
}

/// The firings of a day start with the chosen window, are a step apart, and show times of the day.
pub proof fn law_summary_starts_at_the_window(window: ChosenWindow, interval_secs: u64, i: int)
    requires
        can_be_summarised(window, interval_secs),
        0 <= i < fires_per_day(interval_secs),
    ensures
        day_of_windows(window, interval_secs).len() >= 1,
        day_of_windows(window, interval_secs)[0] == window,
        is_time_of_day(
            day_of_windows(window, interval_secs)[i].hour,
            day_of_windows(window, interval_secs)[i].minute,
        ),
        wall_minutes(day_of_windows(window, interval_secs)[i]) == wall_minutes(window) + i
            * step_mins(interval_secs),
        wall_minutes(day_of_windows(window, interval_secs)[i]) < wall_minutes(window) + DAY_MINS,
{
    lemma_fires_within_a_day(interval_secs, 0);
    lemma_fires_within_a_day(interval_secs, i);
    assert(0 * step_mins(interval_secs) == 0);
}

/// A plan for schedules with intervals, over a pool of slots that are times of days before the last
/// of the calendar, assigns only what can be summarised.
pub proof fn law_planned_windows_can_be_summarised(
    schedules: Seq<ScheduleInfoView>,
    priced: Seq<PricedWindow>,
    c: Circumstances,
    i: int,
)
    requires
        c.starts.len() == priced.len(),
        forall|k: int| 0 <= k < schedules.len() ==> (#[trigger] schedules[k]).interval_secs > 0,
        forall|t: int|
            0 <= t < priced.len() ==> is_time_of_day(
                (#[trigger] priced[t]).hour,
                priced[t].minute,
            ) && priced[t].date.in_calendar() && priced[t].date.days < LAST_DAY,
        0 <= i < plan_of(schedules, priced, c).assignments.len(),
    ensures
        ({
            let a = plan_of(schedules, priced, c).assignments[i];
            can_be_summarised(a.window, a.interval_secs)
        }),
{
    let a = plan_of(schedules, priced, c).assignments[i];
    law_never_sooner_than_the_interval(schedules, priced, c, i);
    let (k, t) = choose|k: int, t: int|
        0 <= k < schedules.len() && #[trigger] may_run_from(schedules[k], c, t) && assigns(
            a,
            schedules[k],
            priced,
            t,
        );
    assert(schedules[k].interval_secs > 0);
    assert(is_time_of_day(priced[t].hour, priced[t].minute));
}

// ---- which slots are considered ----

/// At `now`, where the local clock shows `reading`, the slot starts two minutes or more later, in
/// elapsed time and by the wall clock. A slot whose local time never comes does not.
pub open spec fn starts_two_minutes_on(
    w: PricedWindow,
    zone: Seq<char>,
    now: Moment,
    reading: (i32, u32, u32, u32),
) -> bool {
    &&& local_instant(zone, w.date.days, w.hour, w.minute) matches Some(secs)
    &&& secs * 1_000_000_000 >= now.secs * 1_000_000_000 + now.nanos + 120_000_000_000
    &&& ((w.date.days - reading.0) * 86_400 + w.hour * 3_600 + w.minute * 60) * 1_000_000_000 >= (
    reading.1 * 3_600 + reading.2 * 60 + reading.3) * 1_000_000_000 + now.nanos + 120_000_000_000
}

/// The clock of a run at `now`, where the local clock shows `reading`: it has today's and tomorrow's
/// date, the whole seconds since the epoch, and the seconds of the epoch and of the day that have
/// begun. There is none on the last day of the calendar alone.
pub proof fn law_clock_shows_now(now: Moment, reading: (i32, u32, u32, u32))
    requires
        now.nanos < 1_000_000_000,
        now.secs < i64::MAX,
        reading.1 < 24,
        reading.2 < 60,
        reading.3 < 60,
    ensures
        workflow_clock(now, reading) is Some <==> reading.0 < 95_745_399,
        workflow_clock(now, reading) matches Some(clock) ==> {
            let passed = now.secs * 1_000_000_000 + now.nanos;
            let passed_today = (reading.1 * 3_600 + reading.2 * 60 + reading.3) * 1_000_000_000
                + now.nanos;
            &&& clock.today.days == reading.0
            &&& clock.tomorrow.days == reading.0 + 1
            &&& now.secs >= 0 ==> clock.now_secs == now.secs
            &&& now.secs < 0 ==> clock.now_secs == 0
            &&& passed <= clock.begun_secs * 1_000_000_000 < passed + 1_000_000_000
            &&& passed_today <= clock.now_day_secs * 1_000_000_000 < passed_today + 1_000_000_000
        },
{
}

proof fn lemma_ahead_is_two_minutes_on(
    w: PricedWindow,
    zone: Seq<char>,
    clock: WorkflowClock,
    now: Moment,
    reading: (i32, u32, u32, u32),
)
    requires
        is_clock_at(clock, now, reading),
    ensures
        is_ahead(w, slot_start(w, zone), clock) <==> starts_two_minutes_on(w, zone, now, reading),
{
    law_clock_shows_now(now, reading);
}

/// The slots that are considered at `now`, where the local clock shows `reading`, are exactly those
/// of the fetched ones that start two minutes or more later, in elapsed time and by the wall clock:
/// all of them, however late they start, each as often as it was fetched, and in that order.
pub proof fn law_pool_is_what_starts_two_minutes_on(
    windows: Seq<PricedWindow>,
    zone: Seq<char>,
    clock: WorkflowClock,
    now: Moment,
    reading: (i32, u32, u32, u32),
)
    requires
        is_clock_at(clock, now, reading),
    ensures
        pool_of(windows, zone, clock) == windows.filter(
            |w: PricedWindow| starts_two_minutes_on(w, zone, now, reading),
        ),
{
    let kept = |w: PricedWindow| starts_two_minutes_on(w, zone, now, reading);
    lemma_pool_is_filtered(windows, slot_starts(windows, zone), zone, clock, now, reading, kept);
}

proof fn lemma_pool_is_filtered(
    windows: Seq<PricedWindow>,
    starts: Seq<i64>,
    zone: Seq<char>,
    clock: WorkflowClock,
    now: Moment,
    reading: (i32, u32, u32, u32),
    kept: spec_fn(PricedWindow) -> bool,
)
    requires
        is_clock_at(clock, now, reading),
        forall|i: int|
            0 <= i < windows.len() ==> #[trigger] starts[i] == slot_start(windows[i], zone),
        kept == (|w: PricedWindow| starts_two_minutes_on(w, zone, now, reading)),
    ensures
        slots_ahead(windows, starts, clock) == windows.filter(kept),
    decreases windows.len(),
{
    reveal(Seq::filter);
    if windows.len() > 0 {
        let rest = windows.drop_last();
        lemma_ahead_is_two_minutes_on(windows.last(), zone, clock, now, reading);
        assert forall|i: int| 0 <= i < rest.len() implies #[trigger] starts[i] == slot_start(
            rest[i],
            zone,
        ) by {
            assert(rest[i] == windows[i]);
        }
        lemma_pool_is_filtered(rest, starts, zone, clock, now, reading, kept);
        assert(starts[windows.len() - 1] == slot_start(windows.last(), zone));
    }
}

/// A slot is considered at `now`, where the local clock shows `reading`, if and only if it was
/// fetched and starts two minutes or more later, in elapsed time and by the wall clock.
pub proof fn law_slot_is_considered_where_it_keeps_the_lead_time(
    windows: Seq<PricedWindow>,
    zone: Seq<char>,
    clock: WorkflowClock,
    now: Moment,
    reading: (i32, u32, u32, u32),
    w: PricedWindow,
)
    requires
        is_clock_at(clock, now, reading),
    ensures
        pool_of(windows, zone, clock).contains(w) <==> windows.contains(w)
            && starts_two_minutes_on(w, zone, now, reading),
{
    let starts = slot_starts(windows, zone);
    let pool = pool_of(windows, zone, clock);
    if pool.contains(w) {
        let i = choose|i: int| 0 <= i < pool.len() && pool[i] == w;
        let k = lemma_considered_is_ahead(windows, starts, clock, i);
        lemma_ahead_is_two_minutes_on(windows[k], zone, clock, now, reading);
    }
    if windows.contains(w) && starts_two_minutes_on(w, zone, now, reading) {
        let k = choose|k: int| 0 <= k < windows.len() && windows[k] == w;
        lemma_ahead_is_two_minutes_on(windows[k], zone, clock, now, reading);
        lemma_ahead_is_considered(windows, starts, clock, k);
    }
}

/// A slot of tomorrow that was fetched is considered where it starts two minutes or more after now:
/// where two minutes or more of today are left, no more is asked of it.
pub proof fn law_slots_of_tomorrow_are_considered(
    windows: Seq<PricedWindow>,
    zone: Seq<char>,
    clock: WorkflowClock,
    now: Moment,
    reading: (i32, u32, u32, u32),
    i: int,
    secs: i64,
)
    requires
        is_clock_at(clock, now, reading),
        0 <= i < windows.len(),
        windows[i].date.days == reading.0 + 1,
        reading.1 < 23 || reading.2 < 57,
        local_instant(zone, windows[i].date.days, windows[i].hour, windows[i].minute) == Some(secs),
        secs > now.secs + 120,
    ensures
        pool_of(windows, zone, clock).contains(windows[i]),
{
    law_slot_is_considered_where_it_keeps_the_lead_time(
        windows,
        zone,
        clock,
        now,
        reading,
        windows[i],
    );
}

/// With the prices fetched, a run plans with the slots of today and then of tomorrow that start two
/// minutes or more later; it finishes where there are none. It plans the schedules that it
/// discovered, with the durations that it measured, in its timezone, as of now.
pub proof fn law_run_plans_with_every_slot_ahead(
    was: SchedulerWorkflow,
    today: Vec<PricedWindow>,
    tomorrow: Option<Vec<PricedWindow>>,
    stage: Stage,
    action: Action,
    now: Moment,
    reading: (i32, u32, u32, u32),
)
    requires
        is_awaited(was.stage, Event::Fetched { today, tomorrow }),
        goes_on(was, Event::Fetched { today, tomorrow }, stage, action),
        is_clock_at(was.clock, now, reading),
    ensures
        ({
            let fetched = match tomorrow {
                Some(tomorrow) => today@ + tomorrow@,
                None => today@,
            };
            let pool = fetched.filter(
                |w: PricedWindow|
                    starts_two_minutes_on(w, was.input.timezone@, now, reading),
            );
            &&& was.stage matches Stage::Fetching {
                schedules,
                skipped,
                slot_duration_mins,
                durations,
            }
            &&& pool.len() > 0 ==> {
                &&& stage == (Stage::Planning { skipped })
                &&& action matches Action::Plan { input }
                &&& input.schedules == schedules
                &&& input.schedule_durations == durations
                &&& input.priced_windows@ == pool
                &&& input.timezone@ == was.input.timezone@
                &&& input.now_secs == was.clock.now_secs
                &&& input.slot_duration_mins == slot_duration_mins
            }
            &&& pool.len() == 0 ==> {
                &&& stage is Finished
                &&& action matches Action::Finish { result }
                &&& result.schedules_updated == 0
                &&& result.updates@.len() == 0
                &&& result.skipped@.len() == schedules@.len() + skipped@.len()
                &&& forall|i: int|
                    0 <= i < schedules@.len() ==> {
                        &&& (#[trigger] result.skipped@[i]).namespace@ == schedules@[i].namespace@
                        &&& result.skipped@[i].schedule_id@ == schedules@[i].schedule_id@
                        &&& result.skipped@[i].reason@ == "no price slots available"@
                    }
                &&& forall|i: int|
                    0 <= i < skipped@.len() ==> {
                        let r = #[trigger] result.skipped@[schedules@.len() + i];
                        &&& r.namespace@ == skipped@[i].namespace@
                        &&& r.schedule_id@ == skipped@[i].schedule_id@
                        &&& r.reason@ == skipped@[i].reason@
                    }
            }
        }),
{
    let fetched = match tomorrow {
        Some(tomorrow) => today@ + tomorrow@,
        None => today@,
    };
    assert(today@ + slots_if_any(tomorrow) =~= fetched);
    law_pool_is_what_starts_two_minutes_on(
        fetched,
        was.input.timezone@,
        was.clock,
        now,
        reading,
    );
    if pool_of(fetched, was.input.timezone@, was.clock).len() == 0 {
        if let Stage::Fetching { schedules, skipped, .. } = was.stage {
            if let Action::Finish { result } = action {
                let all = without_prices(views(schedules@)) + views(skipped@);
                assert(views(result.skipped@) == all);
                assert(views(result.updates@).len() == 0);
                assert forall|i: int| 0 <= i < schedules@.len() implies {
                    &&& (#[trigger] result.skipped@[i]).namespace@ == schedules@[i].namespace@
                    &&& result.skipped@[i].schedule_id@ == schedules@[i].schedule_id@
                    &&& result.skipped@[i].reason@ == "no price slots available"@
                } by {
                    assert(views(result.skipped@)[i] == all[i]);
                    assert(views(schedules@)[i] == schedules@[i]@);
                }
                assert forall|i: int| 0 <= i < skipped@.len() implies {
                    let r = #[trigger] result.skipped@[schedules@.len() + i];
                    &&& r.namespace@ == skipped@[i].namespace@
                    &&& r.schedule_id@ == skipped@[i].schedule_id@
                    &&& r.reason@ == skipped@[i].reason@
                } by {
                    assert(views(result.skipped@)[schedules@.len() + i] == all[schedules@.len()
                        + i]);
                    assert(views(skipped@)[i] == skipped@[i]@);
                }
            }
        }
    }
}

// ---- what is merged ----

/// Nothing that a namespace's discovery found gets lost or moves past another namespace's: the
/// schedules of namespaces are those of the first ones, followed by those of the others. A discovery
/// that failed adds none.
pub proof fn law_schedules_of_every_namespace_are_merged(
    a: Seq<Result<DiscoverSchedulesResultView, Seq<char>>>,
    b: Seq<Result<DiscoverSchedulesResultView, Seq<char>>>,
    one: Result<DiscoverSchedulesResultView, Seq<char>>,
)
    ensures
        merged_schedules(a + b) == merged_schedules(a) + merged_schedules(b),
        one matches Ok(found) ==> merged_schedules(seq![one]) == found.schedules,
        one is Err ==> merged_schedules(seq![one]).len() == 0,
    decreases b.len(),
{
    let none = Seq::<Result<DiscoverSchedulesResultView, Seq<char>>>::empty();
    assert(merged_schedules(none).len() == 0);
    assert(seq![one].drop_last() =~= none);
    assert(seq![one].last() == one);
    if let Ok(found) = one {
        assert(merged_schedules(seq![one]) =~= found.schedules);
    }
    if b.len() == 0 {
        assert(a + b =~= a);
        assert(merged_schedules(a) + merged_schedules(b) =~= merged_schedules(a));
    } else {
        law_schedules_of_every_namespace_are_merged(a, b.drop_last(), one);
        assert((a + b).drop_last() =~= a + b.drop_last());
        assert((a + b).last() == b.last());
        assert(merged_schedules(a + b) =~= merged_schedules(a) + merged_schedules(b));
    }
}

/// What was skipped in namespaces is what was skipped in the first ones, followed by what was skipped
/// in the others. A discovery that failed adds its namespace, with the reason and without an ID.
pub proof fn law_skips_of_every_namespace_are_merged(
    names: Seq<Seq<char>>,
    a: Seq<Result<DiscoverSchedulesResultView, Seq<char>>>,
    b: Seq<Result<DiscoverSchedulesResultView, Seq<char>>>,
    one: Result<DiscoverSchedulesResultView, Seq<char>>,
)
    requires
        names.len() == a.len() + b.len(),
    ensures
        merged_skips(names, a + b) == merged_skips(names.take(a.len() as int), a) + merged_skips(
            names.skip(a.len() as int),
            b,
        ),
        one matches Ok(found) ==> merged_skips(names, seq![one]) == found.skipped,
        one matches Err(error) ==> {
            let skips = merged_skips(names, seq![one]);
            &&& skips.len() == 1
            &&& skips[0].namespace == names[0]
            &&& skips[0].schedule_id.len() == 0
            &&& skips[0].reason == "discover_schedules failed: "@ + error
        },
    decreases b.len(),
{
    let none = Seq::<Result<DiscoverSchedulesResultView, Seq<char>>>::empty();
    assert(merged_skips(names, none).len() == 0);
    assert(seq![one].drop_last() =~= none);
    assert(seq![one].last() == one);
    if let Ok(found) = one {
        assert(merged_skips(names, seq![one]) =~= found.skipped);
    }
    let first = names.take(a.len() as int);
    let others = names.skip(a.len() as int);
    if b.len() == 0 {
        assert(a + b =~= a);
        assert(first =~= names);
        assert(merged_skips(first, a) + merged_skips(others, b) =~= merged_skips(first, a));
    } else {
        let fewer = names.drop_last();
        law_skips_of_every_namespace_are_merged(fewer, a, b.drop_last(), one);
        assert((a + b).drop_last() =~= a + b.drop_last());
        assert((a + b).last() == b.last());
        assert(fewer.take(a.len() as int) =~= first);
        lemma_skips_read_their_names(fewer, names, a + b.drop_last());
        assert(fewer.skip(a.len() as int) =~= others.take(b.len() - 1));
        lemma_skips_read_their_names(fewer.skip(a.len() as int), others, b.drop_last());
        assert(merged_skips(names, a + b) =~= merged_skips(first, a) + merged_skips(others, b));
    }
}

proof fn lemma_skips_read_their_names(
    names: Seq<Seq<char>>,
    more: Seq<Seq<char>>,
    outcomes: Seq<Result<DiscoverSchedulesResultView, Seq<char>>>,
)
    requires
        outcomes.len() <= names.len(),
        names.len() <= more.len(),
        names == more.take(names.len() as int),
    ensures
        merged_skips(names, outcomes) == merged_skips(more, outcomes),
    decreases outcomes.len(),
{
    if outcomes.len() > 0 {
        lemma_skips_read_their_names(names, more, outcomes.drop_last());
        assert(names[outcomes.len() - 1] == more[outcomes.len() - 1]);
    }
}

/// The slots are as long as the last discovery that succeeded says; half an hour where none did.
pub proof fn law_last_discovery_gives_the_slot_length(
    outcomes: Seq<Result<DiscoverSchedulesResultView, Seq<char>>>,
    k: int,
)
    requires
        -1 <= k < outcomes.len(),
        k >= 0 ==> outcomes[k] is Ok,
        forall|i: int| k < i < outcomes.len() ==> #[trigger] outcomes[i] is Err,
    ensures
        k >= 0 ==> merged_slot_mins(outcomes) == outcomes[k]->Ok_0.slot_duration_mins,
        k == -1 ==> merged_slot_mins(outcomes) == 30,
    decreases outcomes.len(),
{
    if k < outcomes.len() - 1 {
        let rest = outcomes.drop_last();
        assert(outcomes[outcomes.len() - 1] is Err);
        assert forall|i: int| k < i < rest.len() implies #[trigger] rest[i] is Err by {
            assert(rest[i] == outcomes[i]);
        }
        law_last_discovery_gives_the_slot_length(rest, k);
    }
}

/// Of two merged schedules the one of the earlier namespace comes first; within a namespace, the one
/// of the earlier ID.
pub proof fn law_schedules_stand_by_namespace_and_id(
    schedules: Seq<ScheduleInfoView>,
    i: int,
    j: int,
)
    requires
        0 <= i < j < stable_sorted(schedules, ref_order()).len(),
    ensures
        ({
            let s = stable_sorted(schedules, ref_order());
            &&& !text_less(s[j].namespace, s[i].namespace)
            &&& s[j].namespace == s[i].namespace ==> !text_less(s[j].schedule_id, s[i].schedule_id)
        }),
        stable_sorted(schedules, ref_order()).to_multiset() == schedules.to_multiset(),
{
    let order = ref_order();
    law_schedules_are_planned_in_order(schedules);
    law_sorting_permutes(schedules, order);
    let s = stable_sorted(schedules, order);
    assert(!order(s[j], s[i]));
}

// ---- what is asked for, stage by stage ----

/// A run goes on with any list of namespaces, with as many discoveries as there are namespaces, with
/// any durations, prices and plan, and with as many outcomes as there are assignments, where the
/// firings of each updated schedule are in the calendar; and with nothing else.
pub proof fn law_run_awaits_what_it_asked_for(stage: Stage, event: Event)
    ensures
        is_awaited(stage, event) <==> match event {
            Event::Listed { .. } => stage is Listing,
            Event::Discovered { outcomes } => stage matches Stage::Discovering { namespaces }
                && outcomes@.len() == namespaces@.len(),
            Event::Measured { .. } => stage is Measuring,
            Event::Fetched { .. } => stage is Fetching,
            Event::Planned { .. } => stage is Planning,
            Event::Updated { outcomes } => stage matches Stage::Updating { assignments, .. }
                && outcomes@.len() == assignments@.len() && forall|i: int|
                0 <= i < assignments@.len() && outcomes@[i] is Updated ==> can_be_summarised(
                    (#[trigger] assignments@[i]).window,
                    assignments@[i].interval_secs,
                ),
        },
{
}

/// With the namespaces listed, a run asks for the schedules of each of them, in their order, with its
/// own query.
pub proof fn law_every_namespace_is_searched(
    was: SchedulerWorkflow,
    namespaces: Vec<String>,
    stage: Stage,
    action: Action,
)
    requires
        goes_on(was, Event::Listed { namespaces }, stage, action),
    ensures
        stage matches Stage::Discovering { namespaces: kept } && kept@ == namespaces@,
        action matches Action::Discover { inputs } && inputs@.len() == namespaces@.len()
            && forall|i: int|
            0 <= i < namespaces@.len() ==> (#[trigger] inputs@[i]).namespace@ == namespaces@[i]@
                && inputs@[i].query@ == was.input.query@,
{
    if let Action::Discover { inputs } = action {
        assert forall|i: int| 0 <= i < namespaces@.len() implies (
        #[trigger] inputs@[i]).namespace@ == namespaces@[i]@ && inputs@[i].query@
            == was.input.query@ by {
            assert(inputs@[i].namespace@ == namespaces@[i]@);
        }
    }
}

/// With the namespaces searched, a run measures every schedule that was found. Where none was, it
/// finishes with what was skipped and updates nothing.
pub proof fn law_every_schedule_found_is_measured(
    was: SchedulerWorkflow,
    outcomes: Vec<Result<DiscoverSchedulesResult, String>>,
    stage: Stage,
    action: Action,
)
    requires
        is_awaited(was.stage, Event::Discovered { outcomes }),
        goes_on(was, Event::Discovered { outcomes }, stage, action),
    ensures
        ({
            let found = merged_schedules(outcome_views(outcomes@));
            &&& was.stage matches Stage::Discovering { namespaces }
            &&& found.len() > 0 ==> {
                &&& stage matches Stage::Measuring { schedules, skipped, slot_duration_mins }
                &&& views(schedules@).to_multiset() == found.to_multiset()
                &&& schedules@.len() == found.len()
                &&& views(skipped@) == merged_skips(views(namespaces@), outcome_views(outcomes@))
                &&& slot_duration_mins == merged_slot_mins(outcome_views(outcomes@))
                &&& action matches Action::Measure { input }
                &&& input.schedules@.len() == schedules@.len()
                &&& forall|i: int|
                    0 <= i < schedules@.len() ==> {
                        &&& (#[trigger] input.schedules@[i]).namespace@
                            == schedules@[i].namespace@
                        &&& input.schedules@[i].schedule_id@ == schedules@[i].schedule_id@
                    }
            }
            &&& found.len() == 0 ==> {
                &&& stage is Finished
                &&& action matches Action::Finish { result }
                &&& result.schedules_updated == 0
                &&& result.updates@.len() == 0
                &&& views(result.skipped@) == merged_skips(
                    views(namespaces@),
                    outcome_views(outcomes@),
                )
            }
        }),
{
    broadcast use vstd::seq_lib::group_to_multiset_ensures;

    let found = merged_schedules(outcome_views(outcomes@));
    let sorted = stable_sorted(found, ref_order());
    law_sorting_permutes(found, ref_order());
    assert(sorted.len() == sorted.to_multiset().len());
    assert(found.len() == found.to_multiset().len());
    if let Action::Measure { input } = action {
        if let Stage::Measuring { schedules, .. } = stage {
            assert(refs_of(sorted).len() == sorted.len());
            assert(views(input.schedules@).len() == input.schedules@.len());
            assert(views(schedules@).len() == schedules@.len());
            assert forall|i: int| 0 <= i < schedules@.len() implies {
                &&& (#[trigger] input.schedules@[i]).namespace@ == schedules@[i].namespace@
                &&& input.schedules@[i].schedule_id@ == schedules@[i].schedule_id@
            } by {
                assert(views(input.schedules@)[i] == refs_of(sorted)[i]);
                assert(views(schedules@)[i] == sorted[i]);
            }
        }
    }
    if let Action::Finish { result } = action {
        assert(views(result.updates@).len() == result.updates@.len());
    }
}

/// A discovery is read as it came: the schedules and skips that it holds, field by field, or the text
/// of its failure.
pub proof fn law_discoveries_are_read_as_they_came(
    outcomes: Seq<Result<DiscoverSchedulesResult, String>>,
    i: int,
)
    requires
        0 <= i < outcomes.len(),
    ensures
        outcome_views(outcomes).len() == outcomes.len(),
        outcomes[i] matches Ok(found) ==> {
            &&& outcome_views(outcomes)[i] matches Ok(read)
            &&& read.slot_duration_mins == found.slot_duration_mins
            &&& read.schedules.len() == found.schedules@.len()
            &&& forall|k: int|
                0 <= k < read.schedules.len() ==> {
                    &&& (#[trigger] read.schedules[k]).namespace == found.schedules@[k].namespace@
                    &&& read.schedules[k].schedule_id == found.schedules@[k].schedule_id@
                    &&& read.schedules[k].interval_secs == found.schedules@[k].interval_secs
                    &&& read.schedules[k].last_fire_secs == found.schedules@[k].last_fire_secs
                }
            &&& read.skipped.len() == found.skipped@.len()
            &&& forall|k: int|
                0 <= k < read.skipped.len() ==> {
                    &&& (#[trigger] read.skipped[k]).namespace == found.skipped@[k].namespace@
                    &&& read.skipped[k].schedule_id == found.skipped@[k].schedule_id@
                    &&& read.skipped[k].reason == found.skipped@[k].reason@
                }
        },
        outcomes[i] matches Err(error) ==> outcome_views(outcomes)[i]
            == Err::<DiscoverSchedulesResultView, Seq<char>>(error@),
{
}

/// With the runs measured, a run asks for the prices of its own today and tomorrow, in its timezone,
/// and keeps what it has.
pub proof fn law_prices_of_both_days_are_fetched(
    was: SchedulerWorkflow,
    durations: Vec<ScheduleDuration>,
    stage: Stage,
    action: Action,
)
    requires
        goes_on(was, Event::Measured { durations }, stage, action),
    ensures
        was.stage matches Stage::Measuring { schedules, skipped, slot_duration_mins } && stage == (
        Stage::Fetching { schedules, skipped, slot_duration_mins, durations }),
        action matches Action::Fetch { today, tomorrow } && today.date == was.clock.today
            && tomorrow.date == was.clock.tomorrow && today.timezone@ == was.input.timezone@
            && tomorrow.timezone@ == was.input.timezone@,
{
}

/// With the plan made, a run asks for the update of every assigned schedule, in the order of the
/// plan: to the window and with the interval of its assignment, in the run's timezone. What the plan
/// skips follows what was skipped before.
pub proof fn law_every_assignment_is_updated(
    was: SchedulerWorkflow,
    plan: PlanWindowsResult,
    stage: Stage,
    action: Action,
)
    requires
        goes_on(was, Event::Planned { plan }, stage, action),
    ensures
        was.stage matches Stage::Planning { skipped: known } && stage matches Stage::Updating {
            skipped,
            assignments,
        } && assignments == plan.assignments && views(skipped@) == views(known@) + views(
            plan.skipped@,
        ),
        action matches Action::Update { inputs } && inputs@.len() == plan.assignments@.len()
            && forall|i: int|
            0 <= i < inputs@.len() ==> {
                let a = plan.assignments@[i];
                &&& (#[trigger] inputs@[i]).namespace@ == a.schedule_ref.namespace@
                &&& inputs@[i].schedule_id@ == a.schedule_ref.schedule_id@
                &&& inputs@[i].window == a.window
                &&& inputs@[i].interval_secs == a.interval_secs
                &&& inputs@[i].timezone@ == was.input.timezone@
            },
{
    if let Action::Update { inputs } = action {
        let asked = updates_for(views(plan.assignments@), was.input.timezone@);
        assert(views(inputs@).len() == inputs@.len());
        assert(asked.len() == plan.assignments@.len());
        assert forall|i: int| 0 <= i < inputs@.len() implies {
            let a = plan.assignments@[i];
            &&& (#[trigger] inputs@[i]).namespace@ == a.schedule_ref.namespace@
            &&& inputs@[i].schedule_id@ == a.schedule_ref.schedule_id@
            &&& inputs@[i].window == a.window
            &&& inputs@[i].interval_secs == a.interval_secs
            &&& inputs@[i].timezone@ == was.input.timezone@
        } by {
            assert(views(inputs@)[i] == asked[i]);
        }
    }
}

/// Every assignment is reported: one that was updated as such, last of the updated ones so far, with
/// its firings of a day; one that was not as skipped, last of those, with the reason. The number of
/// updated schedules is that of the reported ones.
pub proof fn law_every_outcome_is_reported(
    skipped: Seq<SkippedScheduleView>,
    assignments: Seq<ScheduleAssignmentView>,
    outcomes: Seq<UpdateOutcomeView>,
    a: ScheduleAssignmentView,
    outcome: UpdateOutcomeView,
)
    requires
        assignments.len() == outcomes.len(),
    ensures
        ({
            let before = result_of(skipped, assignments, outcomes);
            let after = result_of(skipped, assignments.push(a), outcomes.push(outcome));
            &&& after.schedules_updated == after.updates.len()
            &&& outcome is Updated ==> {
                &&& after.skipped == before.skipped
                &&& after.updates.len() == before.updates.len() + 1
                &&& after.updates.drop_last() == before.updates
                &&& after.updates.last().namespace == a.schedule_ref.namespace
                &&& after.updates.last().schedule_id == a.schedule_ref.schedule_id
                &&& after.updates.last().windows == day_of_windows(a.window, a.interval_secs)
            }
            &&& outcome matches UpdateOutcomeView::Skipped { reason } ==> {
                &&& after.updates == before.updates
                &&& after.skipped.len() == before.skipped.len() + 1
                &&& after.skipped.drop_last() == before.skipped
                &&& after.skipped.last().namespace == a.schedule_ref.namespace
                &&& after.skipped.last().schedule_id == a.schedule_ref.schedule_id
                &&& after.skipped.last().reason == reason
            }
        }),
        result_of(skipped, Seq::empty(), Seq::empty()).skipped == skipped,
        result_of(skipped, Seq::empty(), Seq::empty()).updates.len() == 0,
{
    let n = assignments.len();
    let more = assignments.push(a);
    let answers = outcomes.push(outcome);
    assert(assignments =~= more.take(n as int));
    assert(outcomes =~= answers.take(n as int));
    lemma_report_reads_a_prefix(assignments, outcomes, more, answers, n);
    let before = result_of(skipped, assignments, outcomes);
    let after = result_of(skipped, more, answers);
    assert(more[n as int] == a);
    assert(answers[n as int] == outcome);
    let none = Seq::<ScheduleAssignmentView>::empty();
    assert(refusals_of(none, Seq::empty(), 0).len() == 0);
    assert(result_of(skipped, none, Seq::empty()).skipped =~= skipped);
    match outcome {
        UpdateOutcomeView::Updated => {
            assert(after.updates.drop_last() =~= before.updates);
        },
        UpdateOutcomeView::Skipped { reason } => {
            assert(after.skipped.drop_last() =~= before.skipped);
        },
    }
}

proof fn lemma_report_reads_a_prefix(
    assignments: Seq<ScheduleAssignmentView>,
    outcomes: Seq<UpdateOutcomeView>,
    more: Seq<ScheduleAssignmentView>,
    answers: Seq<UpdateOutcomeView>,
    k: nat,
)
    requires
        k <= assignments.len() <= more.len(),
        k <= outcomes.len() <= answers.len(),
        assignments == more.take(assignments.len() as int),
        outcomes == answers.take(outcomes.len() as int),
    ensures
        summaries_of(assignments, outcomes, k) == summaries_of(more, answers, k),
        refusals_of(assignments, outcomes, k) == refusals_of(more, answers, k),
    decreases k,
{
    if k > 0 {
        lemma_report_reads_a_prefix(assignments, outcomes, more, answers, (k - 1) as nat);
        assert(assignments[k - 1] == more[k - 1]);
        assert(outcomes[k - 1] == answers[k - 1]);
    }
}

/// With the updates done, a run finishes with what was skipped before and what came of each of its
/// assignments.
pub proof fn law_run_finishes_with_its_outcomes(
    was: SchedulerWorkflow,
    outcomes: Vec<UpdateOutcome>,
    stage: Stage,
    action: Action,
)
    requires
        goes_on(was, Event::Updated { outcomes }, stage, action),
    ensures
        stage is Finished,
        was.stage matches Stage::Updating { skipped, assignments } && action matches Action::Finish {
            result,
        } && result@ == result_of(views(skipped@), views(assignments@), views(outcomes@)),
{
}

// ---- the firings of a day ----

/// The firings of a day are as many as fit whole intervals into it, and one where the interval is
/// longer than a day. The firing numbered `i` comes `i` intervals of whole minutes after the chosen
/// window by the wall clock.
pub proof fn law_day_has_as_many_firings_as_intervals(
    window: ChosenWindow,
    interval_secs: u64,
    i: int,
)
    requires
        can_be_summarised(window, interval_secs),
        0 <= i < day_of_windows(window, interval_secs).len(),
    ensures
        ({
            let day = day_of_windows(window, interval_secs);
            let n = day.len() as int;
            &&& interval_secs <= 86_400 ==> n * interval_secs <= 86_400 < (n + 1) * interval_secs
            &&& interval_secs > 86_400 ==> n == 1
            &&& day[i].hour < 24
            &&& day[i].minute < 60
            &&& day[i].date.days * 1_440 + day[i].hour * 60 + day[i].minute == window.date.days
                * 1_440 + window.hour * 60 + window.minute + i * (interval_secs as int / 60)
        }),
{
    let n = fires_per_day(interval_secs) as int;
    let d = interval_secs as int;
    law_summary_starts_at_the_window(window, interval_secs, i);
    if d <= 86_400 {
        vstd::arithmetic::div_mod::lemma_fundamental_div_mod(86_400, d);
        assert(n * d <= 86_400 < (n + 1) * d) by (nonlinear_arith)
            requires
                86_400 == d * n + 86_400int % d,
                0 <= 86_400int % d < d,
        ;
    }
}

/// A day's firings can be summarised where there is an interval, the window shows a time of a day of
/// the calendar, and the last firing of the day, and so every one, falls on a day of the calendar.
pub proof fn law_what_can_be_summarised(window: ChosenWindow, interval_secs: u64)
    ensures
        can_be_summarised(window, interval_secs) <==> {
            &&& interval_secs > 0
            &&& window.hour < 24
            &&& window.minute < 60
            &&& -95_746_129 <= window.date.days <= 95_745_399
            &&& forall|i: int|
                i == 0 || (i > 0 && (i + 1) * interval_secs <= 86_400) ==> (window.date.days * 1_440
                    + window.hour * 60 + window.minute + #[trigger] (i * (interval_secs as int
                    / 60))) < 95_745_400 * 1_440
        },
{
    let d = interval_secs as int;
    let step = d / 60;
    let at = window.date.days * 1_440 + window.hour * 60 + window.minute;
    if d > 0 && window.hour < 24 && window.minute < 60 && -95_746_129 <= window.date.days
        <= 95_745_399 {
        let n = fires_per_day(interval_secs) as int;
        if d <= 86_400 {
            vstd::arithmetic::div_mod::lemma_fundamental_div_mod(86_400, d);
            assert(1 <= n && n * d <= 86_400 < (n + 1) * d) by (nonlinear_arith)
                requires
                    86_400 == d * n + 86_400int % d,
                    0 <= 86_400int % d < d,
                    d <= 86_400,
            ;
        }
        lemma_fires_within_a_day(interval_secs, n - 1);
        if can_be_summarised(window, interval_secs) {
            assert forall|i: int| i == 0 || (i > 0 && (i + 1) * interval_secs <= 86_400) implies (at
                + #[trigger] (i * (interval_secs as int / 60))) < 95_745_400 * 1_440 by {
                assert(0 <= i < n) by (nonlinear_arith)
                    requires
                        i == 0 || (i > 0 && (i + 1) * d <= 86_400 && 86_400 < (n + 1) * d) || (i > 0
                            && (i + 1) * d <= 86_400 && d > 86_400),
                        n >= 1,
                        d > 0,
                ;
                lemma_fires_within_a_day(interval_secs, i);
            }
        } else {
            let last = n - 1;
            assert(last == 0 || (last > 0 && (last + 1) * interval_secs <= 86_400));
            assert(at + last * (interval_secs as int / 60) >= 95_745_400 * 1_440);
        }
    }
}

/// Schedules of the same namespace and ID stay in the order in which they were discovered.
pub proof fn law_namesakes_keep_their_order(schedules: Seq<ScheduleInfoView>, id: ScheduleRefView)
    ensures
        stable_sorted(schedules, ref_order()).filter(
            |s: ScheduleInfoView| s.namespace == id.namespace && s.schedule_id == id.schedule_id,
        ) == schedules.filter(
            |s: ScheduleInfoView| s.namespace == id.namespace && s.schedule_id == id.schedule_id,
        ),
{
    let order = ref_order();
    let x = ScheduleInfoView {
        namespace: id.namespace,
        schedule_id: id.schedule_id,
        interval_secs: 0,
        last_fire_secs: None,
    };
    let namesake = |s: ScheduleInfoView|
        s.namespace == id.namespace && s.schedule_id == id.schedule_id;
    let level = |s: ScheduleInfoView| same_rank(s, x, order);
    law_ref_order_is_a_ranking();
    law_sorting_is_stable(schedules, order, x);
    assert forall|s: ScheduleInfoView| #[trigger] namesake(s) == level(s) by {
        law_text_order(s.namespace, x.namespace, x.namespace);
        law_text_order(s.schedule_id, x.schedule_id, x.schedule_id);
        law_text_order(x.namespace, x.namespace, x.namespace);
        law_text_order(x.schedule_id, x.schedule_id, x.schedule_id);
    }
    assert(namesake =~= level);
}

} // verus!
