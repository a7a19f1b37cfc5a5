//! Assigning schedules to price slots.

use vstd::prelude::*;
use vstd::string::StringExecFns;

use crate::calendar::{
    instant_of_local, is_time_of_day, local_instant, reads_back, zone_is_known,
};
use crate::ilp::{job_fits, jobs_fit, placement_model, x_base, Job, JobView};
use crate::placement::feasible;
use crate::planning_laws::{
    assigns, law_a_solution_assigns_every_job, law_never_sooner_than_the_interval, may_run_from,
};
use crate::seqs::views;
use crate::solver::{
    answered_point, first_start, read_starts, solve_placement, solver_answer,
};
use crate::text::{duration, duration_text, join_three};
use crate::types::{
    ChosenWindow, PlanWindowsResult, PlanWindowsResultView, Price, PricedWindow, ScheduleAssignment,
    ScheduleAssignmentView, ScheduleDuration, ScheduleDurationView, ScheduleInfo, ScheduleInfoView,
    ScheduleRef, ScheduleRefView, SkippedSchedule, SkippedScheduleView,
};

verus! {

// ---- eligibility ----

/// When a slot starts, in epoch seconds. A slot whose local time never comes counts as infinitely
/// early.
pub open spec fn slot_start(w: PricedWindow, zone: Seq<char>) -> i64 {
    match local_instant(zone, w.date.days, w.hour, w.minute) {
        Some(secs) => secs,
        None => i64::MIN,
    }
}

/// When the slot starts, the wall clock in `zone` shows the time of the slot.
pub open spec fn slot_reads_back(w: PricedWindow, zone: Seq<char>) -> bool {
    reads_back(zone, w.date.days, w.hour, w.minute)
}

/// When each slot of a pool starts.
pub open spec fn slot_starts(priced: Seq<PricedWindow>, zone: Seq<char>) -> Seq<i64> {
    Seq::new(priced.len(), |i: int| slot_start(priced[i], zone))
}

/// The earliest time at which a schedule may fire again: one interval after it last fired.
pub open spec fn next_legal_firing(last_fire: i64, interval_secs: u64) -> int {
    last_fire + interval_secs
}

/// A schedule may fire at `start` without firing again less than one interval after its last run.
pub open spec fn is_eligible(start: i64, last_fire_secs: Option<i64>, interval_secs: u64) -> bool {
    match last_fire_secs {
        Some(last_fire) => start >= next_legal_firing(last_fire, interval_secs),
        None => true,
    }
}

/// The first slot from `t` on in which a schedule may fire, or the number of slots.
pub open spec fn first_eligible(
    starts: Seq<i64>,
    last_fire_secs: Option<i64>,
    interval_secs: u64,
    t: nat,
) -> nat
    decreases starts.len() - t,
{
    if t >= starts.len() {
        starts.len()
    } else if is_eligible(starts[t as int], last_fire_secs, interval_secs) {
        t
    } else {
        first_eligible(starts, last_fire_secs, interval_secs, t + 1)
    }
}

/// When a slot starts, in epoch seconds; `i64::MIN` where its local time never comes.
pub fn slot_epoch(w: &PricedWindow, timezone: &str) -> (r: i64)
    ensures
        r == slot_start(*w, timezone@),
        !zone_is_known(timezone@) ==> r == i64::MIN,
        !w.date.in_calendar() ==> r == i64::MIN,
        !is_time_of_day(w.hour, w.minute) ==> r == i64::MIN,
        slot_reads_back(*w, timezone@),
{
    match instant_of_local(timezone, w.date.days, w.hour, w.minute) {
        Some(secs) => secs,
        None => i64::MIN,
    }
}

/// When each slot of a pool starts.
pub fn slot_epochs(priced: &Vec<PricedWindow>, timezone: &str) -> (r: Vec<i64>)
    ensures
        r@ == slot_starts(priced@, timezone@),
        forall|i: int|
            0 <= i < priced@.len() ==> slot_reads_back(#[trigger] priced@[i], timezone@),
{
    let mut r: Vec<i64> = Vec::new();
    for i in 0..priced.len()
        invariant
            r@ == slot_starts(priced@, timezone@).take(i as int),
            forall|k: int| 0 <= k < i ==> slot_reads_back(#[trigger] priced@[k], timezone@),
    {
        r.push(slot_epoch(&priced[i], timezone));
        proof {
            assert(r@ =~= slot_starts(priced@, timezone@).take(i + 1));
        }
    }
    proof {
        assert(slot_starts(priced@, timezone@).take(priced@.len() as int) =~= slot_starts(
            priced@,
            timezone@,
        ));
    }
    r
}

/// Whether a schedule may fire at `start`.
pub fn may_fire_at(start: i64, last_fire_secs: Option<i64>, interval_secs: u64) -> (r: bool)
    ensures
        r == is_eligible(start, last_fire_secs, interval_secs),
{
    match last_fire_secs {
        Some(last_fire) => start as i128 >= last_fire as i128 + interval_secs as i128,
        None => true,
    }
}

/// The first slot in which a schedule may fire, given when each slot starts; the number of slots
/// where there is none.
pub fn first_eligible_slot(starts: &Vec<i64>, last_fire_secs: Option<i64>, interval_secs: u64) -> (r:
    usize)
    ensures
        r == first_eligible(starts@, last_fire_secs, interval_secs, 0),
        r <= starts@.len(),
        r < starts@.len() ==> is_eligible(starts@[r as int], last_fire_secs, interval_secs),
        forall|t: int|
            0 <= t < r ==> !is_eligible(#[trigger] starts@[t], last_fire_secs, interval_secs),
{
    let mut t: usize = 0;
    while t < starts.len() && !may_fire_at(starts[t], last_fire_secs, interval_secs)
        invariant
            t <= starts@.len(),
            first_eligible(starts@, last_fire_secs, interval_secs, 0) == first_eligible(
                starts@,
                last_fire_secs,
                interval_secs,
                t as nat,
            ),
            forall|k: int|
                0 <= k < t ==> !is_eligible(#[trigger] starts@[k], last_fire_secs, interval_secs),
        ensures
            t <= starts@.len(),
            first_eligible(starts@, last_fire_secs, interval_secs, 0) == first_eligible(
                starts@,
                last_fire_secs,
                interval_secs,
                t as nat,
            ),
            forall|k: int|
                0 <= k < t ==> !is_eligible(#[trigger] starts@[k], last_fire_secs, interval_secs),
            t < starts@.len() ==> is_eligible(starts@[t as int], last_fire_secs, interval_secs),
        decreases starts@.len() - t,
    {
        t = t + 1;
    }
    t
}

/// Index of the first slot in which a schedule may fire without firing again less than one
/// interval after its last run, or the number of slots where none qualifies.
pub fn earliest_eligible_index(
    priced: &Vec<PricedWindow>,
    last_fire_secs: Option<i64>,
    interval_secs: u64,
    timezone: &str,
) -> (r: usize)
    ensures
        r == first_eligible(slot_starts(priced@, timezone@), last_fire_secs, interval_secs, 0),
{
    let starts = slot_epochs(priced, timezone);
    first_eligible_slot(&starts, last_fire_secs, interval_secs)
}

// ---- reasons for skipping ----

/// The seconds from `now_secs` to the next legal firing, or 0 where it is past.
pub open spec fn remaining_secs(last_fire: i64, interval_secs: u64, now_secs: i64) -> u64 {
    let secs = next_legal_firing(last_fire, interval_secs) - now_secs;
    if secs < 0 {
        0
    } else if secs > u64::MAX {
        u64::MAX
    } else {
        secs as u64
    }
}

/// Why a schedule waits whose next run is `countdown` away.
pub open spec fn waiting_reason(countdown: Seq<char>) -> Seq<char> {
    "next run in "@ + countdown + ", outside the price horizon"@
}

/// Why a schedule without an eligible slot is skipped.
pub open spec fn horizon_reason(
    last_fire_secs: Option<i64>,
    interval_secs: u64,
    now_secs: i64,
) -> Seq<char> {
    match last_fire_secs {
        Some(last_fire) => waiting_reason(
            duration_text(remaining_secs(last_fire, interval_secs, now_secs)),
        ),
        None => "no eligible price slot in the price horizon"@,
    }
}

/// The seconds from `now_secs` to the next legal firing, or 0 where it is past.
pub fn seconds_to_next_run(last_fire: i64, interval_secs: u64, now_secs: i64) -> (r: u64)
    ensures
        r == remaining_secs(last_fire, interval_secs, now_secs),
{
    let secs: i128 = last_fire as i128 + interval_secs as i128 - now_secs as i128;
    if secs < 0 {
        0
    } else if secs > u64::MAX as i128 {
        u64::MAX
    } else {
        secs as u64
    }
}

/// Why a schedule waits whose next run is `countdown` away.
pub fn describe_wait(countdown: &str) -> (r: String)
    ensures
        r@ == waiting_reason(countdown@),
{
    join_three("next run in ", countdown, ", outside the price horizon")
}

/// Why a schedule without an eligible slot is skipped. With a known last run, no slot qualifies
/// only because the next legal firing lies beyond the prices at hand, the normal state of an
/// interval longer than a day or two: the reason counts down to it.
pub fn horizon_skip_reason(
    last_fire_secs: Option<i64>,
    interval_secs: u64,
    now_secs: i64,
) -> (r: String)
    ensures
        r@ == horizon_reason(last_fire_secs, interval_secs, now_secs),
{
    match last_fire_secs {
        Some(last_fire) => {
            let countdown = duration(seconds_to_next_run(last_fire, interval_secs, now_secs));
            describe_wait(countdown.as_str())
        },
        None => "no eligible price slot in the price horizon".to_owned(),
    }
}

// ---- which schedules become jobs ----

/// The minutes that a schedule's runs take: by the last entry for it among the first `k`, or
/// `default` where there is none.
pub open spec fn run_minutes(
    durations: Seq<ScheduleDurationView>,
    schedule_ref: ScheduleRefView,
    default: u32,
    k: nat,
) -> u32
    decreases k,
{
    if k == 0 {
        default
    } else if durations[k - 1].schedule_ref == schedule_ref {
        durations[k - 1].minutes
    } else {
        run_minutes(durations, schedule_ref, default, (k - 1) as nat)
    }
}

/// How many slots `minutes` take: as many as it starts, and at least one.
pub open spec fn slots_taken(minutes: u32, slot_mins: u32) -> nat {
    if minutes == 0 {
        1
    } else {
        ((minutes + slot_mins - 1) / slot_mins as int) as nat
    }
}

/// The identity of a schedule.
pub open spec fn ref_of(s: ScheduleInfoView) -> ScheduleRefView {
    ScheduleRefView { namespace: s.namespace, schedule_id: s.schedule_id }
}

/// The identities of schedules.
pub open spec fn refs_of(schedules: Seq<ScheduleInfoView>) -> Seq<ScheduleRefView> {
    Seq::new(schedules.len(), |i: int| ref_of(schedules[i]))
}

/// A slot that starts at `start` comes, and the schedule may fire then.
pub open spec fn can_start_at(s: ScheduleInfoView, start: i64) -> bool {
    start > i64::MIN && is_eligible(start, s.last_fire_secs, s.interval_secs)
}

/// The slots in which a schedule's run of `slots` slots may start: those that come, in which it may
/// fire, and from which the run ends within the pool.
pub open spec fn open_slots(s: ScheduleInfoView, starts: Seq<i64>, slots: nat) -> Seq<bool> {
    Seq::new(starts.len(), |t: int| can_start_at(s, starts[t]) && t + slots <= starts.len())
}

/// Some slot of the pool comes in which the schedule may fire.
pub open spec fn has_slot(s: ScheduleInfoView, starts: Seq<i64>) -> bool {
    exists|t: int| 0 <= t < starts.len() && can_start_at(s, #[trigger] starts[t])
}

/// What the planner knows of a pool, besides its prices.
pub struct Circumstances {
    /// When each slot starts.
    pub starts: Seq<i64>,
    pub durations: Seq<ScheduleDurationView>,
    pub now_secs: i64,
    pub slot_mins: u32,
}

/// How many slots a schedule's runs take.
pub open spec fn slots_of(s: ScheduleInfoView, c: Circumstances) -> nat {
    slots_taken(run_minutes(c.durations, ref_of(s), c.slot_mins, c.durations.len()), c.slot_mins)
}

/// The job that a schedule becomes, or why it is skipped.
pub open spec fn classify(s: ScheduleInfoView, c: Circumstances) -> Result<
    JobView,
    SkippedScheduleView,
> {
    let open = open_slots(s, c.starts, slots_of(s, c));
    if !has_slot(s, c.starts) {
        Err(
            SkippedScheduleView {
                namespace: s.namespace,
                schedule_id: s.schedule_id,
                reason: horizon_reason(s.last_fire_secs, s.interval_secs, c.now_secs),
            },
        )
    } else if !open.contains(true) {
        Err(
            SkippedScheduleView {
                namespace: s.namespace,
                schedule_id: s.schedule_id,
                reason: "job duration extends past the price horizon"@,
            },
        )
    } else {
        Ok(
            JobView {
                namespace: s.namespace,
                schedule_id: s.schedule_id,
                interval_secs: s.interval_secs,
                open,
                duration_slots: slots_of(s, c),
            },
        )
    }
}

/// The jobs that schedules become, in the schedules' order.
pub open spec fn jobs_of(schedules: Seq<ScheduleInfoView>, c: Circumstances) -> Seq<JobView>
    decreases schedules.len(),
{
    if schedules.len() == 0 {
        Seq::empty()
    } else {
        let rest = jobs_of(schedules.drop_last(), c);
        match classify(schedules.last(), c) {
            Ok(job) => rest.push(job),
            Err(_) => rest,
        }
    }
}

/// The schedules that become no job, in their order, with the reasons.
pub open spec fn skips_of(schedules: Seq<ScheduleInfoView>, c: Circumstances) -> Seq<
    SkippedScheduleView,
>
    decreases schedules.len(),
{
    if schedules.len() == 0 {
        Seq::empty()
    } else {
        let rest = skips_of(schedules.drop_last(), c);
        match classify(schedules.last(), c) {
            Ok(_) => rest,
            Err(skip) => rest.push(skip),
        }
    }
}

/// The minutes that a schedule's runs take, or `default` where that is not known.
pub fn look_up_minutes(
    durations: &Vec<ScheduleDuration>,
    namespace: &String,
    schedule_id: &String,
    default: u32,
) -> (r: u32)
    ensures
        r == run_minutes(
            views(durations@),
            (ScheduleRefView { namespace: namespace@, schedule_id: schedule_id@ }),
            default,
            durations@.len(),
        ),
{
    let ghost wanted = ScheduleRefView { namespace: namespace@, schedule_id: schedule_id@ };
    let mut k: usize = durations.len();
    while k > 0
        invariant
            k <= durations@.len(),
            wanted == (ScheduleRefView { namespace: namespace@, schedule_id: schedule_id@ }),
            run_minutes(views(durations@), wanted, default, durations@.len()) == run_minutes(
                views(durations@),
                wanted,
                default,
                k as nat,
            ),
        decreases k,
    {
        let entry = &durations[k - 1];
        if entry.schedule_ref.namespace == *namespace && entry.schedule_ref.schedule_id
            == *schedule_id {
            return entry.minutes;
        }
        k = k - 1;
    }
    default
}

/// How many slots `minutes` take, at least one.
pub fn slot_count(minutes: u32, slot_mins: u32) -> (r: usize)
    requires
        slot_mins > 0,
    ensures
        r == slots_taken(minutes, slot_mins),
        r >= 1,
{
    if minutes == 0 {
        1
    } else {
        let whole: u32 = (minutes - 1) / slot_mins;
        proof {
            let m = minutes as int;
            let d = slot_mins as int;
            assert((m + d - 1) / d == (m - 1) / d + 1) by (nonlinear_arith)
                requires
                    d > 0,
                    m >= 1,
            ;
            assert((m - 1) / d <= m - 1) by (nonlinear_arith)
                requires
                    d > 0,
                    m >= 1,
            ;
        }
        whole as usize + 1
    }
}

proof fn lemma_classified_job_fits(s: ScheduleInfoView, c: Circumstances)
    requires
        classify(s, c) is Ok,
        c.slot_mins > 0,
    ensures
        job_fits(classify(s, c)->Ok_0, c.starts.len()),
{
    let job = classify(s, c)->Ok_0;
    let t = choose|t: int| 0 <= t < job.open.len() && job.open[t] == true;
    assert(job.open[t]);
    let minutes = run_minutes(c.durations, ref_of(s), c.slot_mins, c.durations.len()) as int;
    let d = c.slot_mins as int;
    if minutes > 0 {
        assert((minutes + d - 1) / d >= 1) by (nonlinear_arith)
            requires
                d > 0,
                minutes >= 1,
        ;
    }
}

pub proof fn lemma_first_eligible(
    starts: Seq<i64>,
    last_fire_secs: Option<i64>,
    interval_secs: u64,
    t: nat,
)
    ensures
        first_eligible(starts, last_fire_secs, interval_secs, t) < starts.len() ==> is_eligible(
            starts[first_eligible(starts, last_fire_secs, interval_secs, t) as int],
            last_fire_secs,
            interval_secs,
        ),
        forall|k: int|
            t <= k < first_eligible(starts, last_fire_secs, interval_secs, t) ==> !is_eligible(
                #[trigger] starts[k],
                last_fire_secs,
                interval_secs,
            ),
    decreases starts.len() - t,
{
    if t < starts.len() && !is_eligible(starts[t as int], last_fire_secs, interval_secs) {
        lemma_first_eligible(starts, last_fire_secs, interval_secs, t + 1);
    }
}

/// Every schedule that becomes a job fits in the pool.
pub proof fn lemma_jobs_fit(schedules: Seq<ScheduleInfoView>, c: Circumstances)
    requires
        c.slot_mins > 0,
    ensures
        jobs_fit(jobs_of(schedules, c), c.starts.len()),
    decreases schedules.len(),
{
    if schedules.len() > 0 {
        let rest = jobs_of(schedules.drop_last(), c);
        lemma_jobs_fit(schedules.drop_last(), c);
        if classify(schedules.last(), c) is Ok {
            lemma_classified_job_fits(schedules.last(), c);
            assert forall|j: int| 0 <= j < rest.len() + 1 implies job_fits(
                #[trigger] jobs_of(schedules, c)[j],
                c.starts.len(),
            ) by {
                if j < rest.len() {
                    assert(jobs_of(schedules, c)[j] == rest[j]);
                }
            }
        }
    }
}

/// The job that a schedule becomes, or why it is skipped, given when each slot starts.
pub fn classify_schedule(
    s: &ScheduleInfo,
    starts: &Vec<i64>,
    durations: &Vec<ScheduleDuration>,
    now_secs: i64,
    slot_duration_mins: u32,
) -> (r: Result<Job, SkippedSchedule>)
    requires
        slot_duration_mins > 0,
    ensures
        classify(
            s@,
            (Circumstances {
                starts: starts@,
                durations: views(durations@),
                now_secs,
                slot_mins: slot_duration_mins,
            }),
        ) == (match r {
            Ok(job) => Ok::<JobView, SkippedScheduleView>(job@),
            Err(skip) => Err(skip@),
        }),
{
    let ghost c = Circumstances {
        starts: starts@,
        durations: views(durations@),
        now_secs,
        slot_mins: slot_duration_mins,
    };
    let n: usize = starts.len();
    let minutes: u32 = look_up_minutes(
        durations,
        &s.namespace,
        &s.schedule_id,
        slot_duration_mins,
    );
    let slots: usize = slot_count(minutes, slot_duration_mins);
    let mut open: Vec<bool> = Vec::new();
    let mut any_slot = false;
    let mut any_open = false;
    for t in 0..n
        invariant
            n == starts@.len(),
            open@ == open_slots(s@, starts@, slots as nat).take(t as int),
            any_slot == exists|k: int| 0 <= k < t && can_start_at(s@, #[trigger] starts@[k]),
            any_open == open@.contains(true),
    {
        let ghost prior = open@;
        let startable = starts[t] > i64::MIN && may_fire_at(
            starts[t],
            s.last_fire_secs,
            s.interval_secs,
        );
        let is_open = startable && slots <= n - t;
        open.push(is_open);
        proof {
            assert(open@ =~= open_slots(s@, starts@, slots as nat).take(t + 1));
            assert(open@[t as int] == is_open);
            if any_open {
                let k = choose|k: int| 0 <= k < prior.len() && prior[k] == true;
                assert(open@[k]);
            }
        }
        any_slot = any_slot || startable;
        any_open = any_open || is_open;
    }
    proof {
        assert(open@ =~= open_slots(s@, starts@, slots as nat));
        assert(slots_of(s@, c) == slots);
    }
    if !any_slot {
        return Err(
            SkippedSchedule {
                namespace: s.namespace.clone(),
                schedule_id: s.schedule_id.clone(),
                reason: horizon_skip_reason(s.last_fire_secs, s.interval_secs, now_secs),
            },
        );
    }
    if !any_open {
        return Err(
            SkippedSchedule {
                namespace: s.namespace.clone(),
                schedule_id: s.schedule_id.clone(),
                reason: "job duration extends past the price horizon".to_owned(),
            },
        );
    }
    Ok(
        Job {
            namespace: s.namespace.clone(),
            schedule_id: s.schedule_id.clone(),
            interval_secs: s.interval_secs,
            open,
            duration_slots: slots,
        },
    )
}

/// The jobs and the skipped schedules of a plan.
#[derive(Debug)]
pub struct Candidates {
    pub jobs: Vec<Job>,
    pub skipped: Vec<SkippedSchedule>,
}

/// Tells the schedules that can be placed from those that are skipped, given when each slot starts.
pub fn classify_schedules(
    schedules: &Vec<ScheduleInfo>,
    starts: &Vec<i64>,
    durations: &Vec<ScheduleDuration>,
    now_secs: i64,
    slot_duration_mins: u32,
) -> (r: Candidates)
    requires
        slot_duration_mins > 0,
    ensures
        ({
            let c = Circumstances {
                starts: starts@,
                durations: views(durations@),
                now_secs,
                slot_mins: slot_duration_mins,
            };
            &&& views(r.jobs@) == jobs_of(views(schedules@), c)
            &&& views(r.skipped@) == skips_of(views(schedules@), c)
        }),
{
    let ghost c = Circumstances {
        starts: starts@,
        durations: views(durations@),
        now_secs,
        slot_mins: slot_duration_mins,
    };
    let ghost all = views(schedules@);
    let mut jobs: Vec<Job> = Vec::new();
    let mut skipped: Vec<SkippedSchedule> = Vec::new();
    proof {
        assert(views(jobs@) =~= jobs_of(all.take(0), c));
        assert(views(skipped@) =~= skips_of(all.take(0), c));
    }
    for i in 0..schedules.len()
        invariant
            slot_duration_mins > 0,
            all == views(schedules@),
            c == (Circumstances {
                starts: starts@,
                durations: views(durations@),
                now_secs,
                slot_mins: slot_duration_mins,
            }),
            views(jobs@) == jobs_of(all.take(i as int), c),
            views(skipped@) == skips_of(all.take(i as int), c),
    {
        let ghost prior_jobs = jobs@;
        let ghost prior_skipped = skipped@;
        proof {
            assert(all.take(i + 1).drop_last() =~= all.take(i as int));
            assert(all.take(i + 1).last() == schedules@[i as int]@);
        }
        match classify_schedule(&schedules[i], starts, durations, now_secs, slot_duration_mins) {
            Ok(job) => {
                jobs.push(job);
                proof {
                    assert(views(jobs@) =~= views(prior_jobs).push(job@));
                }
            },
            Err(skip) => {
                skipped.push(skip);
                proof {
                    assert(views(skipped@) =~= views(prior_skipped).push(skip@));
                }
            },
        }
    }
    proof {
        assert(all.take(schedules@.len() as int) =~= all);
    }
    Candidates { jobs, skipped }
}

// ---- the plan ----

/// A job's schedule, skipped for a reason.
pub open spec fn skipped_job(job: JobView, reason: Seq<char>) -> SkippedScheduleView {
    SkippedScheduleView { namespace: job.namespace, schedule_id: job.schedule_id, reason }
}

/// A job's schedule, assigned to a slot.
pub open spec fn assigned_job(job: JobView, w: PricedWindow) -> ScheduleAssignmentView {
    ScheduleAssignmentView {
        schedule_ref: ScheduleRefView {
            namespace: job.namespace,
            schedule_id: job.schedule_id,
        },
        window: ChosenWindow { date: w.date, hour: w.hour, minute: w.minute },
        interval_secs: job.interval_secs,
    }
}

/// The assignments of the first `k` jobs, by the solver's values.
pub open spec fn assignments_of(
    jobs: Seq<JobView>,
    priced: Seq<PricedWindow>,
    values: Seq<u64>,
    k: nat,
) -> Seq<ScheduleAssignmentView>
    decreases k,
{
    if k == 0 {
        Seq::empty()
    } else {
        let rest = assignments_of(jobs, priced, values, (k - 1) as nat);
        match first_start(jobs, priced.len(), values, k - 1, 0) {
            Some(t) => rest.push(assigned_job(jobs[k - 1], priced[t])),
            None => rest,
        }
    }
}

/// Those of the first `k` jobs that the solver's values start nowhere.
pub open spec fn unplaced_of(
    jobs: Seq<JobView>,
    priced: Seq<PricedWindow>,
    values: Seq<u64>,
    k: nat,
) -> Seq<SkippedScheduleView>
    decreases k,
{
    if k == 0 {
        Seq::empty()
    } else {
        let rest = unplaced_of(jobs, priced, values, (k - 1) as nat);
        match first_start(jobs, priced.len(), values, k - 1, 0) {
            Some(_) => rest,
            None => rest.push(skipped_job(jobs[k - 1], "ILP assigned no slot"@)),
        }
    }
}

/// The jobs, all skipped because the solver failed.
pub open spec fn failed_jobs(jobs: Seq<JobView>, error: Seq<char>) -> Seq<SkippedScheduleView> {
    Seq::new(jobs.len(), |j: int| skipped_job(jobs[j], "ILP solver failed: "@ + error))
}

/// The plan that a solver's answer makes of `jobs`, besides the schedules that became no job.
pub open spec fn plan_from_answer(
    jobs: Seq<JobView>,
    priced: Seq<PricedWindow>,
    answer: Result<Seq<u64>, Seq<char>>,
    skipped: Seq<SkippedScheduleView>,
) -> PlanWindowsResultView {
    match answer {
        Ok(values) => PlanWindowsResultView {
            assignments: assignments_of(jobs, priced, values, jobs.len()),
            skipped: skipped + unplaced_of(jobs, priced, values, jobs.len()),
        },
        Err(error) => PlanWindowsResultView {
            assignments: Seq::empty(),
            skipped: skipped + failed_jobs(jobs, error),
        },
    }
}

/// The prices of a pool.
pub open spec fn prices_of(priced: Seq<PricedWindow>) -> Seq<Price> {
    Seq::new(priced.len(), |i: int| priced[i].price_p_per_kwh)
}

/// The plan for `schedules` over the pool `priced`.
pub open spec fn plan_of(
    schedules: Seq<ScheduleInfoView>,
    priced: Seq<PricedWindow>,
    c: Circumstances,
) -> PlanWindowsResultView {
    let jobs = jobs_of(schedules, c);
    let skipped = skips_of(schedules, c);
    if jobs.len() == 0 {
        PlanWindowsResultView { assignments: Seq::empty(), skipped }
    } else {
        plan_from_answer(
            jobs,
            priced,
            solver_answer(placement_model(jobs, prices_of(priced))),
            skipped,
        )
    }
}

/// Where the solver answers with values, they meet every row of the program, and the plan assigns
/// every schedule that became a job: it skips those that became none, and no other.
pub open spec fn places_every_job(
    plan: PlanWindowsResultView,
    schedules: Seq<ScheduleInfoView>,
    priced: Seq<PricedWindow>,
    c: Circumstances,
) -> bool {
    let jobs = jobs_of(schedules, c);
    let model = placement_model(jobs, prices_of(priced));
    jobs.len() == 0 || match solver_answer(model) {
        Ok(values) => {
            &&& feasible(model, answered_point(values))
            &&& plan.assignments.len() == jobs.len()
            &&& plan.skipped == skips_of(schedules, c)
        },
        Err(_) => true,
    }
}

/// When an assigned schedule is to fire, the wall clock in `zone` shows the time of its window.
pub open spec fn starts_read_back(plan: PlanWindowsResultView, zone: Seq<char>) -> bool {
    forall|i: int|
        0 <= i < plan.assignments.len() ==> window_reads_back(
            (#[trigger] plan.assignments[i]).window,
            zone,
        )
}

/// When the window starts, the wall clock in `zone` shows its time.
pub open spec fn window_reads_back(w: ChosenWindow, zone: Seq<char>) -> bool {
    reads_back(zone, w.date.days, w.hour, w.minute)
}

/// What a plan knows of the pool `priced` in `zone`.
pub open spec fn circumstances(
    priced: Seq<PricedWindow>,
    zone: Seq<char>,
    durations: Seq<ScheduleDurationView>,
    now_secs: i64,
    slot_mins: u32,
) -> Circumstances {
    Circumstances { starts: slot_starts(priced, zone), durations, now_secs, slot_mins }
}

/// The prices of a pool.
fn pool_prices(priced: &Vec<PricedWindow>) -> (r: Vec<Price>)
    ensures
        r@ == prices_of(priced@),
{
    let mut r: Vec<Price> = Vec::new();
    for i in 0..priced.len()
        invariant
            r@ == prices_of(priced@).take(i as int),
    {
        r.push(priced[i].price_p_per_kwh);
        proof {
            assert(r@ =~= prices_of(priced@).take(i + 1));
        }
    }
    proof {
        assert(prices_of(priced@).take(priced@.len() as int) =~= prices_of(priced@));
    }
    r
}

/// Makes a plan of a solver's answer. `skipped` holds the schedules that became no job.
pub fn assemble_plan(
    jobs: &Vec<Job>,
    priced: &Vec<PricedWindow>,
    answer: Result<Vec<u64>, String>,
    skipped: Vec<SkippedSchedule>,
) -> (r: PlanWindowsResult)
    requires
        jobs_fit(views(jobs@), priced@.len()),
        answer matches Ok(values) ==> x_base(views(jobs@), jobs@.len()) <= values@.len(),
    ensures
        r@ == plan_from_answer(
            views(jobs@),
            priced@,
            (match answer {
                Ok(values) => Ok(values@),
                Err(error) => Err(error@),
            }),
            views(skipped@),
        ),
{
    let ghost jv = views(jobs@);
    let ghost before = views(skipped@);
    let mut skipped = skipped;
    let mut assignments: Vec<ScheduleAssignment> = Vec::new();
    let values = match answer {
        Ok(values) => values,
        Err(error) => {
            let mut reason = "ILP solver failed: ".to_owned();
            reason.append(error.as_str());
            proof {
                assert(views(skipped@) =~= before + failed_jobs(jv, error@).take(0));
            }
            for j in 0..jobs.len()
                invariant
                    jv == views(jobs@),
                    reason@ == "ILP solver failed: "@ + error@,
                    views(skipped@) == before + failed_jobs(jv, error@).take(j as int),
            {
                let ghost prior = skipped@;
                skipped.push(
                    SkippedSchedule {
                        namespace: jobs[j].namespace.clone(),
                        schedule_id: jobs[j].schedule_id.clone(),
                        reason: reason.clone(),
                    },
                );
                proof {
                    assert(views(skipped@) =~= views(prior).push(skipped@.last()@));
                    assert(views(skipped@) =~= before + failed_jobs(jv, error@).take(j + 1));
                }
            }
            proof {
                assert(failed_jobs(jv, error@).take(jobs@.len() as int) =~= failed_jobs(
                    jv,
                    error@,
                ));
                assert(views(assignments@) =~= Seq::<ScheduleAssignmentView>::empty());
            }
            return PlanWindowsResult { assignments, skipped };
        },
    };
    let starts = read_starts(jobs, priced.len(), &values);
    proof {
        assert(views(assignments@) =~= assignments_of(jv, priced@, values@, 0));
        assert(views(skipped@) =~= before + unplaced_of(jv, priced@, values@, 0));
    }
    for j in 0..jobs.len()
        invariant
            jv == views(jobs@),
            starts@.len() == jobs@.len(),
            forall|k: int|
                0 <= k < jobs@.len() ==> match #[trigger] starts@[k] {
                    Some(t) => t < priced@.len() && first_start(jv, priced@.len(), values@, k, 0)
                        == Some(t as int),
                    None => first_start(jv, priced@.len(), values@, k, 0) is None,
                },
            views(assignments@) == assignments_of(jv, priced@, values@, j as nat),
            views(skipped@) == before + unplaced_of(jv, priced@, values@, j as nat),
    {
        let ghost prior_assignments = assignments@;
        let ghost prior_skipped = skipped@;
        match starts[j] {
            Some(t) => {
                assignments.push(
                    ScheduleAssignment {
                        schedule_ref: ScheduleRef {
                            namespace: jobs[j].namespace.clone(),
                            schedule_id: jobs[j].schedule_id.clone(),
                        },
                        window: ChosenWindow {
                            date: priced[t].date,
                            hour: priced[t].hour,
                            minute: priced[t].minute,
                        },
                        interval_secs: jobs[j].interval_secs,
                    },
                );
                proof {
                    assert(views(assignments@) =~= views(prior_assignments).push(
                        assignments@.last()@,
                    ));
                }
            },
            None => {
                skipped.push(
                    SkippedSchedule {
                        namespace: jobs[j].namespace.clone(),
                        schedule_id: jobs[j].schedule_id.clone(),
                        reason: "ILP assigned no slot".to_owned(),
                    },
                );
                proof {
                    assert(views(skipped@) =~= views(prior_skipped).push(skipped@.last()@));
                    assert(views(skipped@) =~= before + unplaced_of(
                        jv,
                        priced@,
                        values@,
                        (j + 1) as nat,
                    ));
                }
            },
        }
    }
    PlanWindowsResult { assignments, skipped }
}

/// Assigns each schedule to a price slot by a 0/1 program.
///
/// Decision variables:
///   `x[j][t]`: job `j` starts at slot `t`.
///   `w[t][d]`: the window at slot `t` extends at least `d` slots.
///
/// Objective: minimise the sum of `price[t + d - 1] * w[t][d]`.
///
/// Constraints:
///   the sum of `x[j][t]` over `t` is 1, so that each job fires exactly once;
///   `w[t][d] >= x[j][t]` for jobs of at least `d` slots, so that windows are wide enough;
///   `w[t][d]` is at most the sum of `x[j][t]` over jobs of at least `d` slots, so that no window
///   stands without a job where prices are negative.
pub fn plan_assignments(
    schedules: Vec<ScheduleInfo>,
    schedule_durations: &Vec<ScheduleDuration>,
    priced: Vec<PricedWindow>,
    timezone: &str,
    now_secs: i64,
    slot_duration_mins: u32,
) -> (r: PlanWindowsResult)
    requires
        slot_duration_mins > 0,
    ensures
        r@ == plan_of(
            views(schedules@),
            priced@,
            circumstances(
                priced@,
                timezone@,
                views(schedule_durations@),
                now_secs,
                slot_duration_mins,
            ),
        ),
        places_every_job(
            r@,
            views(schedules@),
            priced@,
            circumstances(
                priced@,
                timezone@,
                views(schedule_durations@),
                now_secs,
                slot_duration_mins,
            ),
        ),
        starts_read_back(r@, timezone@),
{
    let ghost c = circumstances(
        priced@,
        timezone@,
        views(schedule_durations@),
        now_secs,
        slot_duration_mins,
    );
    let starts = slot_epochs(&priced, timezone);
    let found = classify_schedules(
        &schedules,
        &starts,
        schedule_durations,
        now_secs,
        slot_duration_mins,
    );
    if found.jobs.len() == 0 {
        let assignments: Vec<ScheduleAssignment> = Vec::new();
        proof {
            assert(views(assignments@) =~= Seq::<ScheduleAssignmentView>::empty());
        }
        return PlanWindowsResult { assignments, skipped: found.skipped };
    }
    let prices = pool_prices(&priced);
    proof {
        lemma_jobs_fit(views(schedules@), c);
    }
    let answer = solve_placement(&found.jobs, &prices);
    proof {
        if answer is Ok {
            law_a_solution_assigns_every_job(views(schedules@), priced@, c, answer->Ok_0@);
        }
    }
    let plan = assemble_plan(&found.jobs, &priced, answer, found.skipped);
    proof {
        assert forall|i: int| 0 <= i < plan@.assignments.len() implies window_reads_back(
            (#[trigger] plan@.assignments[i]).window,
            timezone@,
        ) by {
            law_never_sooner_than_the_interval(views(schedules@), priced@, c, i);
            let (k, t) = choose|k: int, t: int|
                0 <= k < schedules@.len() && #[trigger] may_run_from(views(schedules@)[k], c, t)
                    && assigns(plan@.assignments[i], views(schedules@)[k], priced@, t);
            assert(slot_reads_back(priced@[t], timezone@));
        }
    }
    plan
}

} // verus!
