//! What holds of every plan, whatever the solver answers.

use vstd::multiset::Multiset;
use vstd::prelude::*;

use crate::calendar::{local_instant, SECOND_NANOS};
use crate::ilp::{jobs_fit, placement_model, x_id, JobView};
use crate::placement::{
    feasible, law_minimum_is_cheapest, minimises, placement_at, placement_cost, valid_placement,
};
use crate::planning::{
    assigned_job, assignments_of, can_start_at, circumstances, classify, failed_jobs,
    first_eligible, has_slot, is_eligible, jobs_of, lemma_first_eligible, lemma_jobs_fit,
    next_legal_firing, open_slots, plan_from_answer, plan_of, prices_of, ref_of, refs_of,
    remaining_secs, run_minutes, skips_of, slot_start, slots_of, slots_taken, unplaced_of,
    waiting_reason, Circumstances,
};
use crate::solver::{
    answered_point, first_start, law_solution_starts_every_job, reads_as_one, solver_answer,
};
use crate::text::duration_text;
use crate::types::{
    ChosenWindow, PlanWindowsResultView, PricedWindow, ScheduleAssignmentView,
    ScheduleDurationView, ScheduleInfoView, ScheduleRefView, SkippedScheduleView,
};
use crate::update::{
    fires_at, law_firings_are_whole_intervals_apart, phase_instant, phased, FiringInterval, Span,
};

verus! {

/// The identities of assigned schedules.
pub open spec fn assigned_refs(s: Seq<ScheduleAssignmentView>) -> Seq<ScheduleRefView> {
    Seq::new(s.len(), |i: int| s[i].schedule_ref)
}

/// The identities of skipped schedules.
pub open spec fn skipped_refs(s: Seq<SkippedScheduleView>) -> Seq<ScheduleRefView> {
    Seq::new(
        s.len(),
        |i: int| ScheduleRefView { namespace: s[i].namespace, schedule_id: s[i].schedule_id },
    )
}

/// The identities of jobs.
spec fn job_refs(s: Seq<JobView>) -> Seq<ScheduleRefView> {
    Seq::new(
        s.len(),
        |i: int| ScheduleRefView { namespace: s[i].namespace, schedule_id: s[i].schedule_id },
    )
}

/// The identities that a plan accounts for, as often as it does.
pub open spec fn accounted_for(plan: PlanWindowsResultView) -> Multiset<ScheduleRefView> {
    assigned_refs(plan.assignments).to_multiset().add(skipped_refs(plan.skipped).to_multiset())
}

proof fn lemma_classified_accounted(schedules: Seq<ScheduleInfoView>, c: Circumstances)
    ensures
        job_refs(jobs_of(schedules, c)).to_multiset().add(
            skipped_refs(skips_of(schedules, c)).to_multiset(),
        ) == refs_of(schedules).to_multiset(),
    decreases schedules.len(),
{
    broadcast use {vstd::multiset::group_multiset_axioms, vstd::seq_lib::group_to_multiset_ensures};

    let jobs = jobs_of(schedules, c);
    let skips = skips_of(schedules, c);
    if schedules.len() == 0 {
        assert(job_refs(jobs) =~= Seq::<ScheduleRefView>::empty());
        assert(skipped_refs(skips) =~= Seq::<ScheduleRefView>::empty());
        assert(refs_of(schedules) =~= Seq::<ScheduleRefView>::empty());
    } else {
        let rest = schedules.drop_last();
        let s = schedules.last();
        lemma_classified_accounted(rest, c);
        assert(refs_of(schedules) =~= refs_of(rest).push(ref_of(s)));
        match classify(s, c) {
            Ok(job) => {
                assert(job_refs(jobs) =~= job_refs(jobs_of(rest, c)).push(ref_of(s)));
            },
            Err(skip) => {
                assert(skipped_refs(skips) =~= skipped_refs(skips_of(rest, c)).push(ref_of(s)));
            },
        }
    }
    assert(job_refs(jobs).to_multiset().add(skipped_refs(skips).to_multiset()) =~= refs_of(
        schedules,
    ).to_multiset());
}

proof fn lemma_placed_accounted(
    jobs: Seq<JobView>,
    priced: Seq<PricedWindow>,
    values: Seq<u64>,
    k: nat,
)
    requires
        k <= jobs.len(),
    ensures
        assigned_refs(assignments_of(jobs, priced, values, k)).to_multiset().add(
            skipped_refs(unplaced_of(jobs, priced, values, k)).to_multiset(),
        ) == job_refs(jobs.take(k as int)).to_multiset(),
    decreases k,
{
    broadcast use {vstd::multiset::group_multiset_axioms, vstd::seq_lib::group_to_multiset_ensures};

    let placed = assignments_of(jobs, priced, values, k);
    let unplaced = unplaced_of(jobs, priced, values, k);
    if k == 0 {
        assert(assigned_refs(placed) =~= Seq::<ScheduleRefView>::empty());
        assert(skipped_refs(unplaced) =~= Seq::<ScheduleRefView>::empty());
        assert(job_refs(jobs.take(0)) =~= Seq::<ScheduleRefView>::empty());
    } else {
        let prior = (k - 1) as nat;
        let id = ScheduleRefView {
            namespace: jobs[k - 1].namespace,
            schedule_id: jobs[k - 1].schedule_id,
        };
        lemma_placed_accounted(jobs, priced, values, prior);
        assert(job_refs(jobs.take(k as int)) =~= job_refs(jobs.take(k - 1)).push(id));
        match first_start(jobs, priced.len(), values, k - 1, 0) {
            Some(t) => {
                assert(assigned_refs(placed) =~= assigned_refs(
                    assignments_of(jobs, priced, values, prior),
                ).push(id));
            },
            None => {
                assert(skipped_refs(unplaced) =~= skipped_refs(
                    unplaced_of(jobs, priced, values, prior),
                ).push(id));
            },
        }
    }
    assert(assigned_refs(placed).to_multiset().add(skipped_refs(unplaced).to_multiset())
        =~= job_refs(jobs.take(k as int)).to_multiset());
}

/// Every schedule is accounted for exactly once, as assigned or as skipped with a reason, whatever
/// the solver answers.
pub proof fn law_every_schedule_is_accounted_for(
    schedules: Seq<ScheduleInfoView>,
    priced: Seq<PricedWindow>,
    c: Circumstances,
)
    ensures
        accounted_for(plan_of(schedules, priced, c)) == refs_of(schedules).to_multiset(),
{
    broadcast use {vstd::multiset::group_multiset_axioms, vstd::seq_lib::group_to_multiset_ensures};

    let jobs = jobs_of(schedules, c);
    let skips = skips_of(schedules, c);
    let plan = plan_of(schedules, priced, c);
    lemma_classified_accounted(schedules, c);
    assert(jobs.take(jobs.len() as int) =~= jobs);
    if jobs.len() == 0 {
        assert(job_refs(jobs) =~= Seq::<ScheduleRefView>::empty());
        assert(assigned_refs(plan.assignments) =~= Seq::<ScheduleRefView>::empty());
    } else {
        match solver_answer(placement_model(jobs, prices_of(priced))) {
            Ok(values) => {
                let unplaced = unplaced_of(jobs, priced, values, jobs.len());
                lemma_placed_accounted(jobs, priced, values, jobs.len());
                assert(skipped_refs(plan.skipped) =~= skipped_refs(skips) + skipped_refs(
                    unplaced,
                ));
                vstd::seq_lib::lemma_multiset_commutative(
                    skipped_refs(skips),
                    skipped_refs(unplaced),
                );
            },
            Err(error) => {
                let failed = failed_jobs(jobs, error);
                assert(skipped_refs(failed) =~= job_refs(jobs));
                assert(skipped_refs(plan.skipped) =~= skipped_refs(skips) + skipped_refs(failed));
                vstd::seq_lib::lemma_multiset_commutative(
                    skipped_refs(skips),
                    skipped_refs(failed),
                );
                assert(assigned_refs(plan.assignments) =~= Seq::<ScheduleRefView>::empty());
            },
        }
    }
    assert(accounted_for(plan) =~= refs_of(schedules).to_multiset());
}

/// A schedule that is skipped is assigned to no slot, as long as no two schedules share both
/// namespace and ID: it is left as it is.
pub proof fn law_skipped_schedule_is_left_as_it_is(
    schedules: Seq<ScheduleInfoView>,
    priced: Seq<PricedWindow>,
    c: Circumstances,
    i: int,
    j: int,
)
    requires
        forall|a: int, b: int|
            0 <= a < b < schedules.len() ==> ref_of(#[trigger] schedules[a]) != ref_of(
                #[trigger] schedules[b],
            ),
        0 <= i < plan_of(schedules, priced, c).skipped.len(),
        0 <= j < plan_of(schedules, priced, c).assignments.len(),
    ensures
        skipped_refs(plan_of(schedules, priced, c).skipped)[i] != plan_of(
            schedules,
            priced,
            c,
        ).assignments[j].schedule_ref,
{
    broadcast use {vstd::multiset::group_multiset_axioms, vstd::seq_lib::group_to_multiset_ensures};

    let plan = plan_of(schedules, priced, c);
    let id = plan.assignments[j].schedule_ref;
    let assigned = assigned_refs(plan.assignments);
    let skipped = skipped_refs(plan.skipped);
    let all = refs_of(schedules);
    law_every_schedule_is_accounted_for(schedules, priced, c);
    if skipped[i] == id {
        assert(assigned[j] == id);
        assert(assigned.contains(id) && skipped.contains(id));
        assert(accounted_for(plan).count(id) >= 2);
        assert(all.no_duplicates()) by {
            assert forall|a: int, b: int|
                0 <= a < all.len() && 0 <= b < all.len() && a != b implies all[a] != all[b] by {
                if a < b {
                    assert(ref_of(schedules[a]) != ref_of(schedules[b]));
                } else {
                    assert(ref_of(schedules[b]) != ref_of(schedules[a]));
                }
            }
        }
        all.lemma_multiset_has_no_duplicates();
    }
}

/// The schedule `s` may run in the slots from `t` on: slot `t` comes, it may fire there, and the
/// run ends within the pool.
pub open spec fn may_run_from(s: ScheduleInfoView, c: Circumstances, t: int) -> bool {
    &&& 0 <= t < c.starts.len()
    &&& can_start_at(s, c.starts[t])
    &&& t + slots_of(s, c) <= c.starts.len()
}

/// `a` assigns the schedule `s` to slot `t` of the pool.
pub open spec fn assigns(
    a: ScheduleAssignmentView,
    s: ScheduleInfoView,
    priced: Seq<PricedWindow>,
    t: int,
) -> bool {
    &&& a.schedule_ref == ref_of(s)
    &&& a.interval_secs == s.interval_secs
    &&& a.window == (ChosenWindow {
        date: priced[t].date,
        hour: priced[t].hour,
        minute: priced[t].minute,
    })
}

proof fn lemma_job_has_schedule(schedules: Seq<ScheduleInfoView>, c: Circumstances, j: int) -> (i:
    int)
    requires
        0 <= j < jobs_of(schedules, c).len(),
    ensures
        0 <= i < schedules.len(),
        classify(schedules[i], c) == Ok::<JobView, SkippedScheduleView>(jobs_of(schedules, c)[j]),
    decreases schedules.len(),
{
    let rest = schedules.drop_last();
    let last = schedules.len() - 1;
    if j < jobs_of(rest, c).len() {
        let i = lemma_job_has_schedule(rest, c, j);
        assert(rest[i] == schedules[i]);
        i
    } else {
        last
    }
}

proof fn lemma_assignment_has_job(
    jobs: Seq<JobView>,
    priced: Seq<PricedWindow>,
    values: Seq<u64>,
    k: nat,
    i: int,
) -> (j: int)
    requires
        k <= jobs.len(),
        0 <= i < assignments_of(jobs, priced, values, k).len(),
    ensures
        0 <= j < k,
        first_start(jobs, priced.len(), values, j, 0) is Some,
        assignments_of(jobs, priced, values, k)[i] == assigned_job(
            jobs[j],
            priced[first_start(jobs, priced.len(), values, j, 0)->Some_0],
        ),
    decreases k,
{
    let rest = assignments_of(jobs, priced, values, (k - 1) as nat);
    if i < rest.len() {
        lemma_assignment_has_job(jobs, priced, values, (k - 1) as nat, i)
    } else {
        k - 1
    }
}

proof fn lemma_start_is_open(jobs: Seq<JobView>, n: nat, values: Seq<u64>, j: int, t: nat)
    ensures
        first_start(jobs, n, values, j, t) matches Some(at) ==> t <= at < n && jobs[j].open[at],
    decreases n - t,
{
    if t < n && !(jobs[j].open[t as int] && reads_as_one(values[x_id(jobs, j, t as int)])) {
        lemma_start_is_open(jobs, n, values, j, t + 1);
    }
}

/// No schedule is assigned to a slot less than one interval after its last run, nor to one from
/// which its run would go past the prices at hand, whatever the solver answers.
pub proof fn law_never_sooner_than_the_interval(
    schedules: Seq<ScheduleInfoView>,
    priced: Seq<PricedWindow>,
    c: Circumstances,
    i: int,
)
    requires
        c.starts.len() == priced.len(),
        0 <= i < plan_of(schedules, priced, c).assignments.len(),
    ensures
        exists|k: int, t: int|
            0 <= k < schedules.len() && #[trigger] may_run_from(schedules[k], c, t) && assigns(
                plan_of(schedules, priced, c).assignments[i],
                schedules[k],
                priced,
                t,
            ),
{
    let jobs = jobs_of(schedules, c);
    match solver_answer(placement_model(jobs, prices_of(priced))) {
        Ok(values) => {
            let j = lemma_assignment_has_job(jobs, priced, values, jobs.len(), i);
            let t = first_start(jobs, priced.len(), values, j, 0)->Some_0;
            lemma_start_is_open(jobs, priced.len(), values, j, 0);
            let k = lemma_job_has_schedule(schedules, c, j);
            assert(jobs[j].open == open_slots(schedules[k], c.starts, slots_of(schedules[k], c)));
            assert(may_run_from(schedules[k], c, t));
            assert(assigns(
                plan_of(schedules, priced, c).assignments[i],
                schedules[k],
                priced,
                t,
            ));
        },
        Err(_) => {},
    }
}

/// The instant that an update takes its phase from is the start of the slot that the plan found
/// eligible, wherever that slot starts at or after the epoch.
pub proof fn law_updates_fire_at_the_planned_start(
    schedules: Seq<ScheduleInfoView>,
    priced: Seq<PricedWindow>,
    zone: Seq<char>,
    durations: Seq<ScheduleDurationView>,
    now_secs: i64,
    slot_mins: u32,
    i: int,
)
    requires
        0 <= i < plan_of(
            schedules,
            priced,
            circumstances(priced, zone, durations, now_secs, slot_mins),
        ).assignments.len(),
    ensures
        ({
            let c = circumstances(priced, zone, durations, now_secs, slot_mins);
            let a = plan_of(schedules, priced, c).assignments[i];
            exists|k: int, t: int|
                0 <= k < schedules.len() && #[trigger] may_run_from(schedules[k], c, t) && assigns(
                    a,
                    schedules[k],
                    priced,
                    t,
                ) && (c.starts[t] >= 0 ==> phase_instant(
                    local_instant(zone, a.window.date.days, a.window.hour, a.window.minute),
                ) == c.starts[t])
        }),
{
    let c = circumstances(priced, zone, durations, now_secs, slot_mins);
    let a = plan_of(schedules, priced, c).assignments[i];
    law_never_sooner_than_the_interval(schedules, priced, c, i);
    let (k, t) = choose|k: int, t: int|
        0 <= k < schedules.len() && #[trigger] may_run_from(schedules[k], c, t) && assigns(
            a,
            schedules[k],
            priced,
            t,
        );
    assert(c.starts[t] == slot_start(priced[t], zone));
    assert(may_run_from(schedules[k], c, t));
}

/// A schedule of whole seconds with a known last run that is assigned to the slot `start` and
/// rephased to it fires, after `now`, no sooner than one interval after that run, exactly where one
/// interval has passed already or no firing that the phase implies before `start` falls between now
/// and then. It is so wherever `start` comes at most one interval after now. Times are in
/// nanoseconds after the epoch.
pub proof fn law_next_firing_keeps_the_interval(
    interval: FiringInterval,
    every: Span,
    last_fire: i64,
    start: u64,
    now: int,
)
    requires
        interval.every == Some(every),
        every.secs > 0,
        every.nanos == 0,
        start <= i64::MAX,
        is_eligible(start as i64, Some(last_fire), every.secs as u64),
    ensures
        ({
            let d = every.total_nanos();
            let floor = next_legal_firing(last_fire, every.secs as u64) * SECOND_NANOS;
            let at = start * SECOND_NANOS;
            &&& (forall|firing: int|
                firing > now && #[trigger] fires_at(phased(interval, start), firing) ==> firing
                    >= floor) <==> (floor <= now || (at - floor) % d <= now + d - floor)
            &&& at <= now + d ==> floor <= now || (at - floor) % d <= now + d - floor
        }),
{
    let d = every.total_nanos();
    let floor = next_legal_firing(last_fire, every.secs as u64) * SECOND_NANOS;
    let at = start * SECOND_NANOS;
    let r = (at - floor) % d;
    let q = (at - floor) / d;
    vstd::arithmetic::div_mod::lemma_fundamental_div_mod(at - floor, d);
    if floor <= now || r <= now + d - floor {
        assert forall|firing: int|
            firing > now && #[trigger] fires_at(phased(interval, start), firing) implies firing
            >= floor by {
            law_firings_are_whole_intervals_apart(interval, every, start, firing);
            if firing < floor {
                let k = (firing - at) / d;
                vstd::arithmetic::div_mod::lemma_fundamental_div_mod(firing - at, d);
                assert(firing == floor + r + (k + q) * d) by (nonlinear_arith)
                    requires
                        firing - at == d * k,
                        at - floor == d * q + r,
                ;
                assert((k + q) * d <= -d) by (nonlinear_arith)
                    requires
                        (k + q) * d < 0,
                        d > 0,
                ;
            }
        }
    } else {
        let firing = floor + r - d;
        assert((firing - at) == (-q - 1) * d) by (nonlinear_arith)
            requires
                firing == floor + r - d,
                at - floor == d * q + r,
        ;
        vstd::arithmetic::div_mod::lemma_mod_multiples_basic(-q - 1, d);
        law_firings_are_whole_intervals_apart(interval, every, start, firing);
        assert(fires_at(phased(interval, start), firing));
    }
    if at <= now + d && floor > now {
        vstd::arithmetic::div_mod::lemma_small_mod((at - floor) as nat, d as nat);
    }
}

/// Every schedule is planned with the minutes that were measured for it, as long as no schedule was
/// measured twice; one that was not measured is planned with the default.
pub proof fn law_planned_with_the_measured_minutes(
    durations: Seq<ScheduleDurationView>,
    schedule_ref: ScheduleRefView,
    default: u32,
    i: int,
)
    requires
        forall|a: int, b: int|
            0 <= a < b < durations.len() ==> (#[trigger] durations[a]).schedule_ref != (
            #[trigger] durations[b]).schedule_ref,
        0 <= i < durations.len(),
    ensures
        run_minutes(durations, durations[i].schedule_ref, default, durations.len())
            == durations[i].minutes,
        (forall|k: int| 0 <= k < durations.len() ==> (#[trigger] durations[k]).schedule_ref
            != schedule_ref) ==> run_minutes(durations, schedule_ref, default, durations.len())
            == default,
{
    lemma_minutes_found(durations, default, durations.len(), i);
    if forall|k: int|
        0 <= k < durations.len() ==> (#[trigger] durations[k]).schedule_ref != schedule_ref {
        lemma_minutes_not_found(durations, schedule_ref, default, durations.len());
    }
}

proof fn lemma_minutes_found(
    durations: Seq<ScheduleDurationView>,
    default: u32,
    k: nat,
    i: int,
)
    requires
        forall|a: int, b: int|
            0 <= a < b < durations.len() ==> (#[trigger] durations[a]).schedule_ref != (
            #[trigger] durations[b]).schedule_ref,
        0 <= i < k <= durations.len(),
    ensures
        run_minutes(durations, durations[i].schedule_ref, default, k) == durations[i].minutes,
    decreases k,
{
    if i < k - 1 {
        assert(durations[i].schedule_ref != durations[k - 1].schedule_ref);
        lemma_minutes_found(durations, default, (k - 1) as nat, i);
    }
}

proof fn lemma_minutes_not_found(
    durations: Seq<ScheduleDurationView>,
    schedule_ref: ScheduleRefView,
    default: u32,
    k: nat,
)
    requires
        forall|m: int|
            0 <= m < durations.len() ==> (#[trigger] durations[m]).schedule_ref != schedule_ref,
        k <= durations.len(),
    ensures
        run_minutes(durations, schedule_ref, default, k) == default,
    decreases k,
{
    if k > 0 {
        assert(durations[k - 1].schedule_ref != schedule_ref);
        lemma_minutes_not_found(durations, schedule_ref, default, (k - 1) as nat);
    }
}

/// Where the slots of a pool stand in the order in which they start, those in which a schedule may
/// fire are the slots from the first eligible one on.
pub proof fn law_eligible_slots_are_a_suffix(
    starts: Seq<i64>,
    last_fire_secs: Option<i64>,
    interval_secs: u64,
    t: int,
)
    requires
        forall|a: int, b: int| 0 <= a <= b < starts.len() ==> starts[a] <= starts[b],
        0 <= t < starts.len(),
    ensures
        is_eligible(starts[t], last_fire_secs, interval_secs) <==> t >= first_eligible(
            starts,
            last_fire_secs,
            interval_secs,
            0,
        ),
{
    lemma_first_eligible(starts, last_fire_secs, interval_secs, 0);
    let first = first_eligible(starts, last_fire_secs, interval_secs, 0);
    if t >= first {
        assert(starts[first as int] <= starts[t]);
    }
}

/// A schedule that has never fired, and of which no firing is known to come, may fire in any slot
/// that comes.
pub proof fn law_unknown_history_leaves_every_slot_open(s: ScheduleInfoView, start: i64)
    requires
        s.last_fire_secs is None,
    ensures
        can_start_at(s, start) <==> start > i64::MIN,
        is_eligible(start, None, s.interval_secs),
{
}

/// A schedule with a known last run is skipped for want of prices, with the time that is left to
/// its next run, exactly where every slot of the pool that comes starts less than one interval
/// after that run.
pub proof fn law_waits_exactly_where_no_slot_is_eligible(s: ScheduleInfoView, c: Circumstances)
    requires
        s.last_fire_secs is Some,
    ensures
        !has_slot(s, c.starts) <==> forall|t: int|
            0 <= t < c.starts.len() ==> #[trigger] c.starts[t] == i64::MIN || c.starts[t]
                < next_legal_firing(s.last_fire_secs->Some_0, s.interval_secs),
        !has_slot(s, c.starts) ==> classify(s, c) == Err::<JobView, SkippedScheduleView>(
            SkippedScheduleView {
                namespace: s.namespace,
                schedule_id: s.schedule_id,
                reason: waiting_reason(
                    duration_text(
                        remaining_secs(s.last_fire_secs->Some_0, s.interval_secs, c.now_secs),
                    ),
                ),
            },
        ),
{
    if !has_slot(s, c.starts) {
        assert forall|t: int| 0 <= t < c.starts.len() implies #[trigger] c.starts[t] == i64::MIN
            || c.starts[t] < next_legal_firing(s.last_fire_secs->Some_0, s.interval_secs) by {
            assert(!can_start_at(s, c.starts[t]));
        }
    } else {
        let t = choose|t: int|
            0 <= t < c.starts.len() && can_start_at(s, #[trigger] c.starts[t]);
        assert(c.starts[t] > i64::MIN);
    }
}

proof fn lemma_all_assigned(
    jobs: Seq<JobView>,
    priced: Seq<PricedWindow>,
    values: Seq<u64>,
    k: nat,
)
    requires
        jobs_fit(jobs, priced.len()),
        feasible(placement_model(jobs, prices_of(priced)), answered_point(values)),
        k <= jobs.len(),
    ensures
        assignments_of(jobs, priced, values, k) == Seq::new(
            k,
            |j: int|
                assigned_job(
                    jobs[j],
                    priced[placement_at(jobs, priced.len(), answered_point(values))[j]],
                ),
        ),
        unplaced_of(jobs, priced, values, k).len() == 0,
    decreases k,
{
    if k > 0 {
        lemma_all_assigned(jobs, priced, values, (k - 1) as nat);
        law_solution_starts_every_job(jobs, prices_of(priced), values, k - 1);
    }
    assert(assignments_of(jobs, priced, values, k) =~= Seq::new(
        k,
        |j: int|
            assigned_job(
                jobs[j],
                priced[placement_at(jobs, priced.len(), answered_point(values))[j]],
            ),
    ));
}

/// Where the solver finds values that meet the rows, every job is assigned, in the order of the
/// schedules, to the slot that the values place it in, and no job is skipped.
pub proof fn law_a_solution_assigns_every_job(
    schedules: Seq<ScheduleInfoView>,
    priced: Seq<PricedWindow>,
    c: Circumstances,
    values: Seq<u64>,
)
    requires
        c.slot_mins > 0,
        c.starts.len() == priced.len(),
        feasible(
            placement_model(jobs_of(schedules, c), prices_of(priced)),
            answered_point(values),
        ),
    ensures
        ({
            let jobs = jobs_of(schedules, c);
            let s = placement_at(jobs, priced.len(), answered_point(values));
            plan_from_answer(jobs, priced, Ok(values), skips_of(schedules, c))
                == (PlanWindowsResultView {
                assignments: Seq::new(jobs.len(), |j: int| assigned_job(jobs[j], priced[s[j]])),
                skipped: skips_of(schedules, c),
            })
        }),
{
    let jobs = jobs_of(schedules, c);
    lemma_jobs_fit(schedules, c);
    lemma_all_assigned(jobs, priced, values, jobs.len());
    assert(skips_of(schedules, c) + unplaced_of(jobs, priced, values, jobs.len()) =~= skips_of(
        schedules,
        c,
    ));
}

/// Where the solver's values minimise the program, the slots of the plan are a cheapest choice
/// among all in which every job runs in slots that are open to it. A window that jobs share is paid
/// for once, for as long as the longest of them runs.
pub proof fn law_an_optimal_plan_is_cheapest(
    schedules: Seq<ScheduleInfoView>,
    priced: Seq<PricedWindow>,
    c: Circumstances,
    values: Seq<u64>,
    other: Seq<int>,
)
    requires
        c.slot_mins > 0,
        c.starts.len() == priced.len(),
        minimises(
            placement_model(jobs_of(schedules, c), prices_of(priced)),
            answered_point(values),
        ),
        valid_placement(jobs_of(schedules, c), priced.len(), other),
    ensures
        ({
            let jobs = jobs_of(schedules, c);
            let s = placement_at(jobs, priced.len(), answered_point(values));
            &&& valid_placement(jobs, priced.len(), s)
            &&& placement_cost(jobs, prices_of(priced), s) <= placement_cost(
                jobs,
                prices_of(priced),
                other,
            )
        }),
{
    lemma_jobs_fit(schedules, c);
    law_minimum_is_cheapest(jobs_of(schedules, c), prices_of(priced), answered_point(values));
}

// ---- which slots are open to a schedule ----

/// A schedule may fire at `start` exactly where its last firing, if one is known, lies at least its
/// interval back.
pub proof fn law_eligible_from_one_interval_on(
    start: i64,
    last_fire: i64,
    interval_secs: u64,
)
    ensures
        is_eligible(start, Some(last_fire), interval_secs) <==> start - last_fire >= interval_secs,
        is_eligible(start, None, interval_secs),
        next_legal_firing(last_fire, interval_secs) - last_fire == interval_secs,
{
}

/// The first eligible slot is eligible, and none before it is; where no slot is, it is the number of
/// slots.
pub proof fn law_no_slot_before_the_first_eligible_one(
    starts: Seq<i64>,
    last_fire: i64,
    interval_secs: u64,
    k: int,
)
    requires
        0 <= k < starts.len(),
    ensures
        ({
            let first = first_eligible(starts, Some(last_fire), interval_secs, 0);
            &&& 0 <= first <= starts.len()
            &&& first < starts.len() ==> starts[first as int] - last_fire >= interval_secs
            &&& k < first ==> starts[k] - last_fire < interval_secs
            &&& starts[k] - last_fire >= interval_secs ==> first <= k
        }),
        first_eligible(starts, None, interval_secs, 0) == 0,
{
    lemma_first_eligible(starts, Some(last_fire), interval_secs, 0);
    lemma_first_eligible_bound(starts, Some(last_fire), interval_secs, 0);
}

proof fn lemma_first_eligible_bound(
    starts: Seq<i64>,
    last_fire_secs: Option<i64>,
    interval_secs: u64,
    t: nat,
)
    requires
        t <= starts.len(),
    ensures
        t <= first_eligible(starts, last_fire_secs, interval_secs, t) <= starts.len(),
    decreases starts.len() - t,
{
    if t < starts.len() {
        lemma_first_eligible_bound(starts, last_fire_secs, interval_secs, t + 1);
    }
}

/// A run of `minutes` minutes takes the fewest slots, at least one, that are long enough for it.
pub proof fn law_run_takes_the_fewest_slots(minutes: u32, slot_mins: u32, slots: int)
    requires
        slot_mins > 0,
        slots >= 1,
    ensures
        slots_taken(minutes, slot_mins) >= 1,
        slots * slot_mins >= minutes <==> slots >= slots_taken(minutes, slot_mins),
{
    let m = minutes as int;
    let d = slot_mins as int;
    if m > 0 {
        let q = (m + d - 1) / d;
        assert(q >= 1 && (q - 1) * d < m && m <= q * d) by (nonlinear_arith)
            requires
                q == (m + d - 1) / d,
                m >= 1,
                d >= 1,
        ;
        if slots >= q {
            assert(slots * d >= q * d) by (nonlinear_arith)
                requires
                    slots >= q,
                    d >= 1,
            ;
        } else {
            assert(slots * d <= (q - 1) * d) by (nonlinear_arith)
                requires
                    slots <= q - 1,
                    d >= 1,
            ;
        }
    } else {
        assert(slots * d >= 0) by (nonlinear_arith)
            requires
                slots >= 1,
                d >= 1,
        ;
    }
}

proof fn lemma_last_minutes(
    durations: Seq<ScheduleDurationView>,
    schedule_ref: ScheduleRefView,
    default: u32,
    i: int,
    k: nat,
)
    requires
        0 <= i < k <= durations.len(),
        durations[i].schedule_ref == schedule_ref,
        forall|m: int| i < m < k ==> (#[trigger] durations[m]).schedule_ref != schedule_ref,
    ensures
        run_minutes(durations, schedule_ref, default, k) == durations[i].minutes,
    decreases k,
{
    if i < k - 1 {
        assert(durations[k - 1].schedule_ref != schedule_ref);
        lemma_last_minutes(durations, schedule_ref, default, i, (k - 1) as nat);
    }
}

/// A schedule takes as many slots as the minutes ask for that were measured for it last; one that
/// was not measured takes one slot.
pub proof fn law_schedule_takes_its_measured_slots(
    s: ScheduleInfoView,
    c: Circumstances,
    i: int,
    slots: int,
)
    requires
        c.slot_mins > 0,
        slots >= 1,
    ensures
        0 <= i < c.durations.len() && c.durations[i].schedule_ref.namespace == s.namespace
            && c.durations[i].schedule_ref.schedule_id == s.schedule_id && (forall|m: int|
            i < m < c.durations.len() ==> (#[trigger] c.durations[m]).schedule_ref
                != c.durations[i].schedule_ref) ==> (slots * c.slot_mins >= c.durations[i].minutes
            <==> slots >= slots_of(s, c)),
        (forall|m: int|
            0 <= m < c.durations.len() ==> (#[trigger] c.durations[m]).schedule_ref.namespace
                != s.namespace || c.durations[m].schedule_ref.schedule_id != s.schedule_id)
            ==> slots_of(s, c) == 1,
        slots_of(s, c) >= 1,
{
    let minutes = run_minutes(c.durations, ref_of(s), c.slot_mins, c.durations.len());
    law_run_takes_the_fewest_slots(minutes, c.slot_mins, slots);
    if 0 <= i < c.durations.len() && c.durations[i].schedule_ref.namespace == s.namespace
        && c.durations[i].schedule_ref.schedule_id == s.schedule_id && (forall|m: int|
        i < m < c.durations.len() ==> (#[trigger] c.durations[m]).schedule_ref
            != c.durations[i].schedule_ref) {
        assert(c.durations[i].schedule_ref == ref_of(s));
        lemma_last_minutes(c.durations, ref_of(s), c.slot_mins, i, c.durations.len());
    }
    if forall|m: int|
        0 <= m < c.durations.len() ==> (#[trigger] c.durations[m]).schedule_ref.namespace
            != s.namespace || c.durations[m].schedule_ref.schedule_id != s.schedule_id {
        assert forall|m: int| 0 <= m < c.durations.len() implies (
        #[trigger] c.durations[m]).schedule_ref != ref_of(s) by {}
        lemma_minutes_not_found(c.durations, ref_of(s), c.slot_mins, c.durations.len());
        law_run_takes_the_fewest_slots(minutes, c.slot_mins, 1);
    }
}

/// Slot `t` of the pool comes, lies at least one interval after the schedule's last firing, if one
/// is known, and a run of `slots` slots from it ends within the pool.
pub open spec fn run_fits_from(s: ScheduleInfoView, starts: Seq<i64>, slots: nat, t: int) -> bool {
    &&& 0 <= t
    &&& t + slots <= starts.len()
    &&& starts[t] != i64::MIN
    &&& s.last_fire_secs matches Some(last) ==> starts[t] - last >= s.interval_secs
}

/// Every slot of the pool from which a schedule's run fits is open to it, wherever it stands in the
/// pool, and no other is. A schedule becomes a job, under its own name and with its own interval,
/// exactly where there is such a slot.
pub proof fn law_every_slot_that_fits_is_open(s: ScheduleInfoView, c: Circumstances, t: int)
    requires
        c.slot_mins > 0,
    ensures
        classify(s, c) is Ok <==> exists|k: int|
            #[trigger] run_fits_from(s, c.starts, slots_of(s, c), k),
        classify(s, c) matches Ok(job) ==> {
            &&& job.namespace == s.namespace
            &&& job.schedule_id == s.schedule_id
            &&& job.interval_secs == s.interval_secs
            &&& job.duration_slots == slots_of(s, c)
            &&& job.open.len() == c.starts.len()
            &&& 0 <= t < c.starts.len() ==> (job.open[t] <==> run_fits_from(
                s,
                c.starts,
                job.duration_slots,
                t,
            ))
        },
        classify(s, c) matches Err(skip) ==> skip.namespace == s.namespace && skip.schedule_id
            == s.schedule_id,
{
    let slots = slots_of(s, c);
    let open = open_slots(s, c.starts, slots);
    law_schedule_takes_its_measured_slots(s, c, 0, 1);
    assert forall|k: int| 0 <= k < c.starts.len() implies (#[trigger] open[k] <==> run_fits_from(
        s,
        c.starts,
        slots,
        k,
    )) by {}
    if exists|k: int| #[trigger] run_fits_from(s, c.starts, slots, k) {
        let k = choose|k: int| #[trigger] run_fits_from(s, c.starts, slots, k);
        assert(open[k]);
        assert(can_start_at(s, c.starts[k]));
    }
    if classify(s, c) is Ok {
        let k = choose|k: int| 0 <= k < open.len() && open[k] == true;
        assert(run_fits_from(s, c.starts, slots, k));
    }
}

// ---- every schedule is looked at, and every job is placed ----

proof fn lemma_jobs_concat(
    a: Seq<ScheduleInfoView>,
    b: Seq<ScheduleInfoView>,
    c: Circumstances,
)
    ensures
        jobs_of(a + b, c) == jobs_of(a, c) + jobs_of(b, c),
        skips_of(a + b, c) == skips_of(a, c) + skips_of(b, c),
    decreases b.len(),
{
    if b.len() == 0 {
        assert(a + b =~= a);
        assert(jobs_of(a, c) + jobs_of(b, c) =~= jobs_of(a, c));
        assert(skips_of(a, c) + skips_of(b, c) =~= skips_of(a, c));
    } else {
        assert((a + b).drop_last() =~= a + b.drop_last());
        assert((a + b).last() == b.last());
        lemma_jobs_concat(a, b.drop_last(), c);
        assert(jobs_of(a + b, c) =~= jobs_of(a, c) + jobs_of(b, c));
        assert(skips_of(a + b, c) =~= skips_of(a, c) + skips_of(b, c));
    }
}

/// The jobs of two lists of schedules, one after the other, are those of the first and those of the
/// second, and so are the schedules that become none; a single schedule is its job, or is skipped.
pub proof fn law_every_schedule_is_looked_at(
    a: Seq<ScheduleInfoView>,
    b: Seq<ScheduleInfoView>,
    s: ScheduleInfoView,
    c: Circumstances,
)
    ensures
        jobs_of(a + b, c) == jobs_of(a, c) + jobs_of(b, c),
        skips_of(a + b, c) == skips_of(a, c) + skips_of(b, c),
        classify(s, c) matches Ok(job) ==> jobs_of(seq![s], c) == seq![job] && skips_of(
            seq![s],
            c,
        ).len() == 0,
        classify(s, c) matches Err(skip) ==> jobs_of(seq![s], c).len() == 0 && skips_of(seq![s], c)
            == seq![skip],
{
    lemma_jobs_concat(a, b, c);
    let nothing = Seq::<ScheduleInfoView>::empty();
    assert(seq![s].drop_last() =~= nothing);
    assert(jobs_of(nothing, c).len() == 0);
    assert(skips_of(nothing, c).len() == 0);
    match classify(s, c) {
        Ok(job) => {
            assert(jobs_of(seq![s], c) =~= seq![job]);
        },
        Err(skip) => {
            assert(skips_of(seq![s], c) =~= seq![skip]);
        },
    }
}

/// Where the solver's values minimise the program, no other choice of slots is cheaper: whatever
/// slot `other` gives each job, as long as the run of the job's schedule fits from there. The job
/// numbered `j` is that of the schedule numbered `from[j]`.
pub proof fn law_no_choice_of_slots_is_cheaper(
    schedules: Seq<ScheduleInfoView>,
    priced: Seq<PricedWindow>,
    c: Circumstances,
    values: Seq<u64>,
    from: Seq<int>,
    other: Seq<int>,
)
    requires
        c.slot_mins > 0,
        c.starts.len() == priced.len(),
        minimises(
            placement_model(jobs_of(schedules, c), prices_of(priced)),
            answered_point(values),
        ),
        from.len() == jobs_of(schedules, c).len(),
        other.len() == from.len(),
        forall|j: int|
            0 <= j < from.len() ==> 0 <= #[trigger] from[j] < schedules.len() && classify(
                schedules[from[j]],
                c,
            ) == Ok::<JobView, SkippedScheduleView>(jobs_of(schedules, c)[j]),
        forall|j: int|
            0 <= j < other.len() ==> run_fits_from(
                schedules[from[j]],
                c.starts,
                slots_of(schedules[from[j]], c),
                #[trigger] other[j],
            ),
    ensures
        ({
            let jobs = jobs_of(schedules, c);
            let plan = plan_from_answer(jobs, priced, Ok(values), skips_of(schedules, c));
            let s = placement_at(jobs, priced.len(), answered_point(values));
            &&& plan.assignments.len() == jobs.len()
            &&& plan.skipped == skips_of(schedules, c)
            &&& forall|j: int|
                0 <= j < jobs.len() ==> 0 <= #[trigger] s[j] < priced.len() && jobs[j].open[s[j]]
                    && plan.assignments[j].schedule_ref.namespace == jobs[j].namespace
                    && plan.assignments[j].schedule_ref.schedule_id == jobs[j].schedule_id
                    && plan.assignments[j].interval_secs == jobs[j].interval_secs
                    && plan.assignments[j].window.date == priced[s[j]].date
                    && plan.assignments[j].window.hour == priced[s[j]].hour
                    && plan.assignments[j].window.minute == priced[s[j]].minute
            &&& placement_cost(jobs, prices_of(priced), s) <= placement_cost(
                jobs,
                prices_of(priced),
                other,
            )
        }),
{
    let jobs = jobs_of(schedules, c);
    lemma_jobs_fit(schedules, c);
    assert forall|j: int| 0 <= j < jobs.len() implies 0 <= #[trigger] other[j] < priced.len()
        && jobs[j].open[other[j]] by {
        assert(0 <= from[j] < schedules.len());
        law_every_slot_that_fits_is_open(schedules[from[j]], c, other[j]);
        law_schedule_takes_its_measured_slots(schedules[from[j]], c, 0, 1);
    }
    law_minimum_is_cheapest(jobs, prices_of(priced), answered_point(values));
    assert(valid_placement(jobs, priced.len(), other));
    law_a_solution_assigns_every_job(schedules, priced, c, values);
}

/// Where the solver fails, no schedule is assigned, and every job is skipped behind the schedules
/// that became none, in the order of the jobs.
pub proof fn law_failed_solver_assigns_nothing(
    jobs: Seq<JobView>,
    priced: Seq<PricedWindow>,
    error: Seq<char>,
    skipped: Seq<SkippedScheduleView>,
    j: int,
)
    requires
        0 <= j < jobs.len(),
    ensures
        ({
            let plan = plan_from_answer(jobs, priced, Err(error), skipped);
            &&& plan.assignments.len() == 0
            &&& plan.skipped.len() == skipped.len() + jobs.len()
            &&& plan.skipped.take(skipped.len() as int) == skipped
            &&& plan.skipped[skipped.len() + j].namespace == jobs[j].namespace
            &&& plan.skipped[skipped.len() + j].schedule_id == jobs[j].schedule_id
            &&& plan.skipped[skipped.len() + j].reason == "ILP solver failed: "@ + error
        }),
{
    let plan = plan_from_answer(jobs, priced, Err(error), skipped);
    assert(plan.skipped.take(skipped.len() as int) =~= skipped);
}

/// A plan is the one that the solver's answer makes of the jobs; without jobs, everything is
/// skipped and the solver is not asked.
pub proof fn law_plan_follows_the_solver(
    schedules: Seq<ScheduleInfoView>,
    priced: Seq<PricedWindow>,
    c: Circumstances,
)
    ensures
        jobs_of(schedules, c).len() == 0 ==> plan_of(schedules, priced, c).assignments.len() == 0
            && plan_of(schedules, priced, c).skipped == skips_of(schedules, c),
        jobs_of(schedules, c).len() > 0 ==> plan_of(schedules, priced, c) == plan_from_answer(
            jobs_of(schedules, c),
            priced,
            solver_answer(placement_model(jobs_of(schedules, c), prices_of(priced))),
            skips_of(schedules, c),
        ),
{
}

/// The planner is told when each slot of the pool starts and what it costs, from the first to the
/// last, and the rest as it was given.
pub proof fn law_planner_is_told_of_every_slot(
    priced: Seq<PricedWindow>,
    zone: Seq<char>,
    durations: Seq<ScheduleDurationView>,
    now_secs: i64,
    slot_mins: u32,
    i: int,
)
    requires
        0 <= i < priced.len(),
    ensures
        ({
            let c = circumstances(priced, zone, durations, now_secs, slot_mins);
            let w = priced[i];
            &&& c.starts.len() == priced.len()
            &&& local_instant(zone, w.date.days, w.hour, w.minute) matches Some(secs) ==> c.starts[i]
                == secs
            &&& local_instant(zone, w.date.days, w.hour, w.minute) is None ==> c.starts[i]
                == i64::MIN
            &&& c.durations == durations
            &&& c.now_secs == now_secs
            &&& c.slot_mins == slot_mins
            &&& prices_of(priced).len() == priced.len()
            &&& prices_of(priced)[i] == w.price_p_per_kwh
        }),
{
}

/// A schedule waits for as long as its last firing lies less than its interval back, to the second;
/// a wait that no number of the machine holds counts as the longest one.
pub proof fn law_wait_ends_one_interval_after_the_last_firing(
    last_fire: i64,
    interval_secs: u64,
    now_secs: i64,
)
    ensures
        ({
            let wait = remaining_secs(last_fire, interval_secs, now_secs);
            let left = last_fire + interval_secs - now_secs;
            &&& wait == 0 <==> now_secs - last_fire >= interval_secs
            &&& 0 < left <= 0xffff_ffff_ffff_ffff ==> wait == left
            &&& left > 0xffff_ffff_ffff_ffff ==> wait == 0xffff_ffff_ffff_ffff
        }),
{
}

/// A schedule is skipped for want of prices where no slot of the pool comes that lies at least its
/// interval after its last firing; where there is such a slot, but a run from none of them ends within
/// the pool, it is skipped for that.
pub proof fn law_reason_tells_what_is_missing(s: ScheduleInfoView, c: Circumstances)
    requires
        c.slot_mins > 0,
    ensures
        classify(s, c) matches Err(skip) ==> {
            let eligible = exists|t: int|
                0 <= t < c.starts.len() && #[trigger] c.starts[t] != i64::MIN && (
                s.last_fire_secs matches Some(last) ==> c.starts[t] - last >= s.interval_secs);
            &&& eligible ==> skip.reason == "job duration extends past the price horizon"@
            &&& !eligible && s.last_fire_secs is None ==> skip.reason
                == "no eligible price slot in the price horizon"@
            &&& !eligible ==> (s.last_fire_secs matches Some(last) ==> skip.reason
                == "next run in "@ + duration_text(
                remaining_secs(last, s.interval_secs, c.now_secs),
            ) + ", outside the price horizon"@)
        },
{
    if has_slot(s, c.starts) {
        let t = choose|t: int| 0 <= t < c.starts.len() && can_start_at(s, #[trigger] c.starts[t]);
        assert(c.starts[t] != i64::MIN);
    } else {
        assert forall|t: int| 0 <= t < c.starts.len() implies !(#[trigger] c.starts[t] != i64::MIN
            && (s.last_fire_secs matches Some(last) ==> c.starts[t] - last >= s.interval_secs)) by {
            assert(!can_start_at(s, c.starts[t]));
        }
    }
}

/// What the solver's values make of the jobs is what they make of each: a job is assigned, under its
/// own name and with its own interval, to the slot that the values start it in, behind the
/// assignments of the jobs before it; a job that they start nowhere is skipped, behind those.
pub proof fn law_each_job_is_assigned_where_it_starts(
    jobs: Seq<JobView>,
    priced: Seq<PricedWindow>,
    values: Seq<u64>,
    k: nat,
)
    requires
        k < jobs.len(),
    ensures
        assignments_of(jobs, priced, values, 0).len() == 0,
        unplaced_of(jobs, priced, values, 0).len() == 0,
        first_start(jobs, priced.len(), values, k as int, 0) matches Some(t) ==> {
            let after = assignments_of(jobs, priced, values, k + 1);
            &&& 0 <= t < priced.len()
            &&& unplaced_of(jobs, priced, values, k + 1) == unplaced_of(jobs, priced, values, k)
            &&& after.len() == assignments_of(jobs, priced, values, k).len() + 1
            &&& after.drop_last() == assignments_of(jobs, priced, values, k)
            &&& after.last().schedule_ref.namespace == jobs[k as int].namespace
            &&& after.last().schedule_ref.schedule_id == jobs[k as int].schedule_id
            &&& after.last().interval_secs == jobs[k as int].interval_secs
            &&& after.last().window.date == priced[t].date
            &&& after.last().window.hour == priced[t].hour
            &&& after.last().window.minute == priced[t].minute
        },
        first_start(jobs, priced.len(), values, k as int, 0) is None ==> {
            let after = unplaced_of(jobs, priced, values, k + 1);
            &&& assignments_of(jobs, priced, values, k + 1) == assignments_of(
                jobs,
                priced,
                values,
                k,
            )
            &&& after.len() == unplaced_of(jobs, priced, values, k).len() + 1
            &&& after.drop_last() == unplaced_of(jobs, priced, values, k)
            &&& after.last().namespace == jobs[k as int].namespace
            &&& after.last().schedule_id == jobs[k as int].schedule_id
            &&& after.last().reason == "ILP assigned no slot"@
        },
{
    lemma_start_is_open(jobs, priced.len(), values, k as int, 0);
    let assigned = assignments_of(jobs, priced, values, k + 1);
    let unplaced = unplaced_of(jobs, priced, values, k + 1);
    match first_start(jobs, priced.len(), values, k as int, 0) {
        Some(t) => {
            assert(assigned.drop_last() =~= assignments_of(jobs, priced, values, k));
        },
        None => {
            assert(unplaced.drop_last() =~= unplaced_of(jobs, priced, values, k));
        },
    }
}

/// Where the solver answers with values, the plan has what they make of every job, from the first to
/// the last: the assignments, and behind the schedules that became no job, the jobs that they start
/// nowhere.
pub proof fn law_values_are_read_for_every_job(
    jobs: Seq<JobView>,
    priced: Seq<PricedWindow>,
    values: Seq<u64>,
    skipped: Seq<SkippedScheduleView>,
)
    ensures
        ({
            let plan = plan_from_answer(jobs, priced, Ok(values), skipped);
            &&& plan.assignments == assignments_of(jobs, priced, values, jobs.len())
            &&& plan.skipped == skipped + unplaced_of(jobs, priced, values, jobs.len())
            &&& plan.assignments.len() + plan.skipped.len() == skipped.len() + jobs.len()
        }),
{
    lemma_every_job_is_read(jobs, priced, values, jobs.len());
}

proof fn lemma_every_job_is_read(
    jobs: Seq<JobView>,
    priced: Seq<PricedWindow>,
    values: Seq<u64>,
    k: nat,
)
    ensures
        assignments_of(jobs, priced, values, k).len() + unplaced_of(jobs, priced, values, k).len()
            == k,
    decreases k,
{
    if k > 0 {
        lemma_every_job_is_read(jobs, priced, values, (k - 1) as nat);
    }
}

} // verus!
