//! Measuring how long a schedule's runs take.

use vstd::prelude::*;

use crate::activities::GridshiftActivities;
use crate::calendar::{Moment, SECOND_NANOS};
use crate::seqs::views;
use crate::sorting::{
    is_ranking, law_sorting_permutes, law_sorting_sorts, lemma_rank, rank, stable_sort,
    stable_sorted,
};
use crate::text::join_three;
use crate::types::{ScheduleDuration, ScheduleRef};

verus! {

/// The share of runs, in percent, that a measured duration covers.
pub const COVERED_PERCENT: u64 = 95;

/// When a run started and ended, where that is known.
#[derive(Debug, Clone, Copy, PartialEq, Eq)]
pub struct ObservedRun {
    pub start: Option<Moment>,
    pub end: Option<Moment>,
}

impl ObservedRun {
    pub open spec fn is_normal(self) -> bool {
        &&& self.start matches Some(m) ==> m.is_normal()
        &&& self.end matches Some(m) ==> m.is_normal()
    }
}

/// The whole seconds that a run took; `None` where a time is not known or the end precedes the
/// start.
pub open spec fn run_secs(run: ObservedRun) -> Option<u64> {
    match (run.start, run.end) {
        (Some(start), Some(end)) => if end.total_nanos() >= start.total_nanos() {
            Some(((end.total_nanos() - start.total_nanos()) / SECOND_NANOS as int) as u64)
        } else {
            None
        },
        _ => None,
    }
}

/// The seconds of the runs that have a length, in their order.
pub open spec fn samples_of(runs: Seq<ObservedRun>) -> Seq<u64>
    decreases runs.len(),
{
    if runs.len() == 0 {
        Seq::empty()
    } else {
        let rest = samples_of(runs.drop_last());
        match run_secs(runs.last()) {
            Some(secs) => rest.push(secs),
            None => rest,
        }
    }
}

/// The order of numbers.
pub open spec fn number_order() -> spec_fn(u64, u64) -> bool {
    |a: u64, b: u64| a < b
}

/// `a / b`, rounded up.
pub open spec fn ceil_div(a: int, b: int) -> int {
    (a + b - 1) / b
}

/// The place of the nearest-rank 95th percentile among `n` sorted samples.
pub open spec fn p95_index(n: nat) -> int {
    ceil_div(COVERED_PERCENT * n, 100) - 1
}

/// The nearest-rank 95th percentile of the samples.
pub open spec fn p95(samples: Seq<u64>) -> u64 {
    stable_sorted(samples, number_order())[p95_index(samples.len())]
}

/// The minutes that are set aside for a run: the 95th percentile, rounded up to whole slots, and at
/// least one slot.
pub open spec fn minutes_for(samples: Seq<u64>, slot_mins: u32) -> int {
    if samples.len() == 0 {
        slot_mins as int
    } else {
        let minutes = ceil_div(p95(samples) as int, 60);
        let rounded = ceil_div(minutes, slot_mins as int) * slot_mins;
        if rounded > slot_mins {
            rounded
        } else {
            slot_mins as int
        }
    }
}

/// The visibility query for the completed runs of a schedule.
pub open spec fn completed_runs_text(schedule_id: Seq<char>) -> Seq<char> {
    "TemporalScheduledById = \""@ + schedule_id + "\" AND ExecutionStatus = \"Completed\""@
}

/// The namespaces of schedules, each once, in the order in which they first occur.
pub open spec fn distinct_namespaces(schedules: Seq<ScheduleRef>) -> Seq<Seq<char>>
    decreases schedules.len(),
{
    if schedules.len() == 0 {
        Seq::empty()
    } else {
        let rest = distinct_namespaces(schedules.drop_last());
        let ns = schedules.last().namespace@;
        if rest.contains(ns) {
            rest
        } else {
            rest.push(ns)
        }
    }
}

/// The visibility query for the completed runs of a schedule.
pub fn completed_runs_query(schedule_id: &str) -> (r: String)
    ensures
        r@ == completed_runs_text(schedule_id@),
{
    join_three(
        "TemporalScheduledById = \"",
        schedule_id,
        "\" AND ExecutionStatus = \"Completed\"",
    )
}

/// The namespaces of schedules, each once.
pub fn namespaces_of(schedules: &Vec<ScheduleRef>) -> (r: Vec<String>)
    ensures
        views(r@) == distinct_namespaces(schedules@),
{
    let mut r: Vec<String> = Vec::new();
    proof {
        assert(views(r@) =~= distinct_namespaces(schedules@.take(0)));
    }
    for i in 0..schedules.len()
        invariant
            views(r@) == distinct_namespaces(schedules@.take(i as int)),
    {
        proof {
            assert(schedules@.take(i + 1).drop_last() =~= schedules@.take(i as int));
        }
        let ns = &schedules[i].namespace;
        let mut known = false;
        for k in 0..r.len()
            invariant
                known == exists|m: int| 0 <= m < k && #[trigger] views(r@)[m] == ns@,
        {
            if r[k] == *ns {
                proof {
                    assert(views(r@)[k as int] == ns@);
                }
                known = true;
            }
        }
        proof {
            assert(known == views(r@).contains(ns@));
        }
        if !known {
            let ghost prior = r@;
            r.push(ns.clone());
            proof {
                assert(views(r@) =~= views(prior).push(ns@));
            }
        }
    }
    proof {
        assert(schedules@.take(schedules@.len() as int) =~= schedules@);
    }
    r
}

/// The whole seconds that a run took.
pub fn seconds_of_run(run: ObservedRun) -> (r: Option<u64>)
    requires
        run.is_normal(),
    ensures
        r == run_secs(run),
{
    match (run.start, run.end) {
        (Some(start), Some(end)) => {
            let from: i128 = start.secs as i128 * 1_000_000_000 + start.nanos as i128;
            let to: i128 = end.secs as i128 * 1_000_000_000 + end.nanos as i128;
            if to >= from {
                Some(((to - from) / 1_000_000_000) as u64)
            } else {
                None
            }
        },
        _ => None,
    }
}

/// The seconds of the runs that have a length.
pub fn collect_samples(runs: &Vec<ObservedRun>) -> (r: Vec<u64>)
    requires
        forall|i: int| 0 <= i < runs@.len() ==> (#[trigger] runs@[i]).is_normal(),
    ensures
        r@ == samples_of(runs@),
{
    let mut r: Vec<u64> = Vec::new();
    proof {
        assert(r@ =~= samples_of(runs@.take(0)));
    }
    for i in 0..runs.len()
        invariant
            forall|k: int| 0 <= k < runs@.len() ==> (#[trigger] runs@[k]).is_normal(),
            r@ == samples_of(runs@.take(i as int)),
    {
        proof {
            assert(runs@.take(i + 1).drop_last() =~= runs@.take(i as int));
        }
        if let Some(secs) = seconds_of_run(runs[i]) {
            r.push(secs);
        }
    }
    proof {
        assert(runs@.take(runs@.len() as int) =~= runs@);
    }
    r
}

proof fn lemma_sorted_len(samples: Seq<u64>)
    ensures
        stable_sorted(samples, number_order()).len() == samples.len(),
    decreases samples.len(),
{
    if samples.len() > 0 {
        lemma_sorted_len(samples.drop_first());
        lemma_rank(
            stable_sorted(samples.drop_first(), number_order()),
            samples[0],
            number_order(),
        );
    }
}

/// The minutes that are set aside for runs of these lengths; `None` where they exceed a `u32`.
pub fn minutes_of_samples(samples: Vec<u64>, slot_mins: u32) -> (r: Option<u32>)
    requires
        slot_mins > 0,
    ensures
        minutes_for(samples@, slot_mins) <= u32::MAX ==> r == Some(
            minutes_for(samples@, slot_mins) as u32,
        ),
        minutes_for(samples@, slot_mins) > u32::MAX ==> r is None,
{
    if samples.len() == 0 {
        return Some(slot_mins);
    }
    let ghost given = samples@;
    proof {
        assert(views(samples@) =~= samples@);
        lemma_sorted_len(given);
    }
    let n: usize = samples.len();
    let less = |a: &u64, b: &u64| -> (r: bool)
        ensures
            r == (*a < *b),
        { *a < *b };
    let sorted = stable_sort(samples, less, Ghost(number_order()));
    proof {
        assert(views(sorted@) =~= sorted@);
    }
    let index: u128 = (COVERED_PERCENT as u128 * n as u128 + 99) / 100 - 1;
    let secs: u64 = sorted[index as usize];
    let minutes: u128 = (secs as u128 + 59) / 60;
    let slots: u128 = (minutes + slot_mins as u128 - 1) / slot_mins as u128;
    proof {
        assert(slots <= minutes) by (nonlinear_arith)
            requires
                slots == (minutes + slot_mins - 1) / slot_mins as int,
                slot_mins > 0,
        ;
        assert(slots * slot_mins <= 0x1_0000_0000_0000_0000 * 0x1_0000_0000) by (nonlinear_arith)
            requires
                slots <= 0x1_0000_0000_0000_0000,
                slot_mins <= 0x1_0000_0000,
        ;
    }
    let rounded: u128 = slots * slot_mins as u128;
    if rounded > u32::MAX as u128 {
        None
    } else if rounded > slot_mins as u128 {
        Some(rounded as u32)
    } else {
        Some(slot_mins)
    }
}

/// A schedule and its recent completed runs; `None` where they could not be asked for.
#[derive(Debug)]
pub struct ScheduleRuns {
    pub schedule_ref: ScheduleRef,
    pub runs: Option<Vec<ObservedRun>>,
}

impl ScheduleRuns {
    pub open spec fn is_normal(self) -> bool {
        self.runs matches Some(runs) ==> forall|i: int|
            0 <= i < runs@.len() ==> (#[trigger] runs@[i]).is_normal()
    }
}

/// The minutes that are set aside for a schedule's runs, by its recent ones.
pub open spec fn minutes_of(s: ScheduleRuns, slot_mins: u32) -> int {
    minutes_for(
        match s.runs {
            Some(runs) => samples_of(runs@),
            None => Seq::empty(),
        },
        slot_mins,
    )
}

/// The minutes of a schedule's runs are measured as `d` says.
pub open spec fn is_measured(d: ScheduleDuration, s: ScheduleRuns, slot_mins: u32) -> bool {
    d.schedule_ref@ == s.schedule_ref@ && d.minutes == minutes_of(s, slot_mins)
}

impl GridshiftActivities {
    /// How many minutes to set aside for one schedule's runs. `None` where they exceed a `u32`.
    pub fn measure_schedule(&self, schedule: &ScheduleRuns) -> (r: Option<ScheduleDuration>)
        requires
            self.slot_duration_mins > 0,
            schedule.is_normal(),
        ensures
            match r {
                Some(d) => is_measured(d, *schedule, self.slot_duration_mins),
                None => minutes_of(*schedule, self.slot_duration_mins) > u32::MAX,
            },
    {
        let samples = match &schedule.runs {
            Some(runs) => collect_samples(runs),
            None => Vec::new(),
        };
        match minutes_of_samples(samples, self.slot_duration_mins) {
            Some(minutes) => Some(
                ScheduleDuration {
                    schedule_ref: ScheduleRef {
                        namespace: schedule.schedule_ref.namespace.clone(),
                        schedule_id: schedule.schedule_ref.schedule_id.clone(),
                    },
                    minutes,
                },
            ),
            None => None,
        }
    }

    /// How many minutes to set aside for each schedule's runs, by its recent completed ones: their
    /// 95th percentile rounded up to whole slots, and one slot where there are none or they could
    /// not be asked for. There is one value for each schedule, in the order of the schedules.
    /// `None` where the minutes of some schedule exceed a `u32`.
    pub fn measure_schedule_durations(&self, schedules: &Vec<ScheduleRuns>) -> (r: Option<
        Vec<ScheduleDuration>,
    >)
        requires
            self.slot_duration_mins > 0,
            forall|i: int| 0 <= i < schedules@.len() ==> (#[trigger] schedules@[i]).is_normal(),
        ensures
            match r {
                Some(durations) => {
                    &&& durations@.len() == schedules@.len()
                    &&& forall|i: int|
                        0 <= i < schedules@.len() ==> is_measured(
                            #[trigger] durations@[i],
                            schedules@[i],
                            self.slot_duration_mins,
                        )
                },
                None => exists|i: int|
                    0 <= i < schedules@.len() && minutes_of(
                        #[trigger] schedules@[i],
                        self.slot_duration_mins,
                    ) > u32::MAX,
            },
    {
        let mut durations: Vec<ScheduleDuration> = Vec::new();
        for i in 0..schedules.len()
            invariant
                self.slot_duration_mins > 0,
                forall|k: int| 0 <= k < schedules@.len() ==> (#[trigger] schedules@[k]).is_normal(),
                durations@.len() == i,
                forall|k: int|
                    0 <= k < i ==> is_measured(
                        #[trigger] durations@[k],
                        schedules@[k],
                        self.slot_duration_mins,
                    ),
        {
            match self.measure_schedule(&schedules[i]) {
                Some(duration) => {
                    durations.push(duration);
                },
                None => {
                    return None;
                },
            }
        }
        Some(durations)
    }
}

// ---- laws ----

/// How many samples are at most `v`.
pub open spec fn at_most(samples: Seq<u64>, v: u64) -> nat
    decreases samples.len(),
{
    if samples.len() == 0 {
        0
    } else {
        at_most(samples.drop_last(), v) + if samples.last() <= v {
            1nat
        } else {
            0nat
        }
    }
}

proof fn lemma_at_most_concat(a: Seq<u64>, b: Seq<u64>, v: u64)
    ensures
        at_most(a + b, v) == at_most(a, v) + at_most(b, v),
    decreases b.len(),
{
    if b.len() == 0 {
        assert(a + b =~= a);
    } else {
        assert((a + b).drop_last() =~= a + b.drop_last());
        lemma_at_most_concat(a, b.drop_last(), v);
    }
}

proof fn lemma_at_most_sorted(samples: Seq<u64>, v: u64)
    ensures
        at_most(stable_sorted(samples, number_order()), v) == at_most(samples, v),
    decreases samples.len(),
{
    if samples.len() > 0 {
        let x = samples[0];
        let rest = stable_sorted(samples.drop_first(), number_order());
        let k = rank(rest, x, number_order()) as int;
        let low = rest.subrange(0, k);
        let high = rest.subrange(k, rest.len() as int);
        lemma_rank(rest, x, number_order());
        lemma_at_most_sorted(samples.drop_first(), v);
        assert(rest =~= low + high);
        assert(samples =~= seq![x] + samples.drop_first());
        assert(low.push(x) =~= low + seq![x]);
        lemma_at_most_concat(low, high, v);
        lemma_at_most_concat(low, seq![x], v);
        lemma_at_most_concat(low + seq![x], high, v);
        lemma_at_most_concat(seq![x], samples.drop_first(), v);
    }
}

proof fn lemma_at_most_bounds(s: Seq<u64>, v: u64)
    ensures
        at_most(s, v) <= s.len(),
        (forall|i: int| 0 <= i < s.len() ==> #[trigger] s[i] <= v) ==> at_most(s, v) == s.len(),
        (forall|i: int| 0 <= i < s.len() ==> #[trigger] s[i] > v) ==> at_most(s, v) == 0,
    decreases s.len(),
{
    if s.len() > 0 {
        let rest = s.drop_last();
        lemma_at_most_bounds(rest, v);
        if forall|i: int| 0 <= i < s.len() ==> #[trigger] s[i] <= v {
            assert forall|i: int| 0 <= i < rest.len() implies #[trigger] rest[i] <= v by {
                assert(rest[i] == s[i]);
            }
        }
        if forall|i: int| 0 <= i < s.len() ==> #[trigger] s[i] > v {
            assert forall|i: int| 0 <= i < rest.len() implies #[trigger] rest[i] > v by {
                assert(rest[i] == s[i]);
            }
        }
    }
}

proof fn lemma_number_order_ranks()
    ensures
        is_ranking(number_order()),
{
}

/// The measured percentile is one of the samples, at least 95 of 100 samples are at most as long,
/// and no shorter length has that property.
pub proof fn law_p95_covers_the_runs(samples: Seq<u64>, shorter: u64)
    requires
        samples.len() > 0,
    ensures
        0 <= p95_index(samples.len()) < samples.len(),
        samples.contains(p95(samples)),
        100 * at_most(samples, p95(samples)) >= COVERED_PERCENT * samples.len(),
        shorter < p95(samples) ==> 100 * at_most(samples, shorter) < COVERED_PERCENT
            * samples.len(),
{
    broadcast use vstd::seq_lib::group_to_multiset_ensures;

    let sorted = stable_sorted(samples, number_order());
    let index = p95_index(samples.len());
    let v = p95(samples);
    lemma_number_order_ranks();
    lemma_sorted_len(samples);
    law_sorting_sorts(samples, number_order());
    law_sorting_permutes(samples, number_order());
    assert(sorted.contains(v));
    assert(samples.to_multiset().count(v) > 0);
    let low = sorted.subrange(0, index + 1);
    let high = sorted.subrange(index + 1, sorted.len() as int);
    assert(sorted =~= low + high);
    assert forall|i: int| 0 <= i < low.len() implies #[trigger] low[i] <= v by {
        if i < index {
            assert(!number_order()(sorted[index], sorted[i]));
        }
    }
    lemma_at_most_bounds(low, v);
    lemma_at_most_concat(low, high, v);
    lemma_at_most_sorted(samples, v);
    if shorter < v {
        let short = sorted.subrange(0, index);
        let long = sorted.subrange(index, sorted.len() as int);
        assert(sorted =~= short + long);
        assert forall|i: int| 0 <= i < long.len() implies #[trigger] long[i] > shorter by {
            if i > 0 {
                assert(!number_order()(sorted[index + i], sorted[index]));
            }
        }
        lemma_at_most_bounds(short, shorter);
        lemma_at_most_bounds(long, shorter);
        lemma_at_most_concat(short, long, shorter);
        lemma_at_most_sorted(samples, shorter);
    }
}

/// The minutes set aside are whole slots, at least one; they cover the percentile, with less than
/// a slot to spare beyond its last started minute.
pub proof fn law_minutes_are_whole_slots(samples: Seq<u64>, slot_mins: u32)
    requires
        slot_mins > 0,
    ensures
        minutes_for(samples, slot_mins) >= slot_mins,
        minutes_for(samples, slot_mins) % (slot_mins as int) == 0,
        samples.len() > 0 ==> 60 * minutes_for(samples, slot_mins) >= p95(samples),
        samples.len() > 0 && minutes_for(samples, slot_mins) > slot_mins ==> minutes_for(
            samples,
            slot_mins,
        ) - slot_mins < ceil_div(p95(samples) as int, 60),
{
    let d = slot_mins as int;
    vstd::arithmetic::div_mod::lemma_mod_self_0(d);
    if samples.len() > 0 {
        let minutes = ceil_div(p95(samples) as int, 60);
        let slots = ceil_div(minutes, d);
        let rounded = slots * d;
        vstd::arithmetic::div_mod::lemma_mod_multiples_basic(slots, d);
        vstd::arithmetic::div_mod::lemma_fundamental_div_mod(minutes + d - 1, d);
        assert(d * slots == slots * d) by (nonlinear_arith);
        assert(minutes <= rounded < minutes + d);
    }
}

/// A run has a length exactly where its start and its end are known and the end does not precede the
/// start; the length is then the whole seconds between them.
pub proof fn law_run_takes_the_seconds_between_its_ends(start: Moment, end: Moment)
    requires
        start.nanos < 1_000_000_000,
        end.nanos < 1_000_000_000,
    ensures
        ({
            let took = (end.secs - start.secs) * 1_000_000_000 + end.nanos - start.nanos;
            let run = ObservedRun { start: Some(start), end: Some(end) };
            &&& took < 0 ==> run_secs(run) is None
            &&& took >= 0 ==> (run_secs(run) matches Some(secs) && secs * 1_000_000_000 <= took < (
            secs + 1) * 1_000_000_000)
        }),
        run_secs(ObservedRun { start: None, end: Some(end) }) is None,
        run_secs(ObservedRun { start: Some(start), end: None }) is None,
        run_secs(ObservedRun { start: None, end: None }) is None,
{
    let took = (end.secs - start.secs) * 1_000_000_000 + end.nanos - start.nanos;
    assert(end.total_nanos() - start.total_nanos() == took);
    if took >= 0 {
        assert(took / 1_000_000_000 <= u64::MAX);
    }
}

/// The start and the end of the run are known, and the end does not precede the start.
pub open spec fn has_length(run: ObservedRun) -> bool {
    match (run.start, run.end) {
        (Some(start), Some(end)) => start.secs * 1_000_000_000 + start.nanos <= end.secs
            * 1_000_000_000 + end.nanos,
        _ => false,
    }
}

proof fn lemma_samples_concat(a: Seq<ObservedRun>, b: Seq<ObservedRun>)
    ensures
        samples_of(a + b) == samples_of(a) + samples_of(b),
    decreases b.len(),
{
    if b.len() == 0 {
        assert(a + b =~= a);
        assert(samples_of(a) + samples_of(b) =~= samples_of(a));
    } else {
        assert((a + b).drop_last() =~= a + b.drop_last());
        assert((a + b).last() == b.last());
        lemma_samples_concat(a, b.drop_last());
        assert(samples_of(a + b) =~= samples_of(a) + samples_of(b));
    }
}

proof fn lemma_samples_counted(runs: Seq<ObservedRun>)
    ensures
        samples_of(runs).len() == runs.filter(|run: ObservedRun| has_length(run)).len(),
    decreases runs.len(),
{
    reveal(Seq::filter);
    if runs.len() > 0 {
        lemma_samples_counted(runs.drop_last());
        assert(run_secs(runs.last()) is Some <==> has_length(runs.last()));
    }
}

/// Every run that has a length is sampled once, with its seconds, however many runs there are: the
/// samples of two lists of runs, one after the other, are those of the first and those of the
/// second; there are as many samples as runs with a length; and one more such run is one more
/// sample, after the others.
pub proof fn law_every_run_is_sampled(
    a: Seq<ObservedRun>,
    b: Seq<ObservedRun>,
    run: ObservedRun,
)
    ensures
        samples_of(a + b) == samples_of(a) + samples_of(b),
        samples_of(a).len() == a.filter(|run: ObservedRun| has_length(run)).len(),
        has_length(run) ==> run_secs(run) is Some && samples_of(a.push(run)) == samples_of(a).push(
            run_secs(run)->Some_0,
        ),
        !has_length(run) ==> samples_of(a.push(run)) == samples_of(a),
{
    lemma_samples_concat(a, b);
    lemma_samples_counted(a);
    assert(a.push(run).drop_last() =~= a);
    assert(run_secs(run) is Some <==> has_length(run));
}

/// The minutes set aside are the fewest whole slots, at least one, that cover the samples' 95th
/// percentile; without samples, they are one slot.
pub proof fn law_fewest_slots_that_cover_the_runs(samples: Seq<u64>, slot_mins: u32, slots: int)
    requires
        slot_mins > 0,
        slots >= 1,
    ensures
        samples.len() == 0 ==> minutes_for(samples, slot_mins) == slot_mins,
        minutes_for(samples, slot_mins) % (slot_mins as int) == 0,
        samples.len() > 0 ==> (slots * slot_mins * 60 >= p95(samples) <==> slots * slot_mins
            >= minutes_for(samples, slot_mins)),
{
    let d = slot_mins as int;
    let m = minutes_for(samples, slot_mins);
    law_minutes_are_whole_slots(samples, slot_mins);
    if samples.len() > 0 {
        let v = p95(samples) as int;
        let k = m / d;
        vstd::arithmetic::div_mod::lemma_fundamental_div_mod(m, d);
        assert(m == k * d) by (nonlinear_arith)
            requires
                m == d * k + 0,
        ;
        if slots * d < m {
            assert(slots <= k - 1) by (nonlinear_arith)
                requires
                    slots * d < k * d,
                    d > 0,
            ;
            assert(slots * d <= (k - 1) * d) by (nonlinear_arith)
                requires
                    slots <= k - 1,
                    d > 0,
            ;
            assert((k - 1) * d == m - d) by (nonlinear_arith)
                requires
                    m == k * d,
            ;
            assert(m > d) by (nonlinear_arith)
                requires
                    m > slots * d,
                    slots >= 1,
                    d > 0,
            ;
            assert(m - d < ceil_div(v, 60));
            assert(60 * (m - d) < v);
        }
    }
}

/// At least 95 of 100 samples are at most the measured percentile, no shorter length has that
/// property, and the percentile is one of the samples.
pub proof fn law_percentile_is_the_95th(samples: Seq<u64>, shorter: u64)
    requires
        samples.len() > 0,
    ensures
        samples.contains(p95(samples)),
        100 * samples.filter(|v: u64| v <= p95(samples)).len() >= 95 * samples.len(),
        shorter < p95(samples) ==> 100 * samples.filter(|v: u64| v <= shorter).len() < 95
            * samples.len(),
{
    law_p95_covers_the_runs(samples, shorter);
    lemma_at_most_is_filter(samples, p95(samples));
    lemma_at_most_is_filter(samples, shorter);
}

proof fn lemma_at_most_is_filter(samples: Seq<u64>, v: u64)
    ensures
        at_most(samples, v) == samples.filter(|x: u64| x <= v).len(),
    decreases samples.len(),
{
    reveal(Seq::filter);
    if samples.len() > 0 {
        lemma_at_most_is_filter(samples.drop_last(), v);
    }
}

/// Every namespace of the schedules is named, none is named twice, and no other is named: one more
/// schedule names its namespace behind the others, unless it is named already.
pub proof fn law_namespaces_are_named_once(schedules: Seq<ScheduleRef>, next: ScheduleRef, i: int)
    requires
        0 <= i < schedules.len(),
    ensures
        distinct_namespaces(schedules).contains(schedules[i].namespace@),
        distinct_namespaces(schedules).no_duplicates(),
        forall|k: int|
            0 <= k < distinct_namespaces(schedules).len() ==> exists|m: int|
                0 <= m < schedules.len() && (#[trigger] schedules[m]).namespace@
                    == #[trigger] distinct_namespaces(schedules)[k],
        distinct_namespaces(schedules.push(next)) == (if exists|m: int|
            0 <= m < schedules.len() && (#[trigger] schedules[m]).namespace@ == next.namespace@ {
            distinct_namespaces(schedules)
        } else {
            distinct_namespaces(schedules).push(next.namespace@)
        }),
{
    lemma_namespaces_named(schedules);
    assert(schedules.push(next).drop_last() =~= schedules);
    let names = distinct_namespaces(schedules);
    if names.contains(next.namespace@) {
        let k = choose|k: int| 0 <= k < names.len() && names[k] == next.namespace@;
        assert(names[k] == next.namespace@);
    }
}

proof fn lemma_namespaces_named(schedules: Seq<ScheduleRef>)
    ensures
        forall|i: int|
            0 <= i < schedules.len() ==> distinct_namespaces(schedules).contains(
                (#[trigger] schedules[i]).namespace@,
            ),
        distinct_namespaces(schedules).no_duplicates(),
        forall|k: int|
            0 <= k < distinct_namespaces(schedules).len() ==> exists|m: int|
                0 <= m < schedules.len() && (#[trigger] schedules[m]).namespace@
                    == #[trigger] distinct_namespaces(schedules)[k],
    decreases schedules.len(),
{
    if schedules.len() > 0 {
        let prior = schedules.drop_last();
        let rest = distinct_namespaces(prior);
        let all = distinct_namespaces(schedules);
        let last = schedules.len() - 1;
        lemma_namespaces_named(prior);
        assert forall|i: int| 0 <= i < schedules.len() implies all.contains(
            (#[trigger] schedules[i]).namespace@,
        ) by {
            if i < last {
                assert(prior[i] == schedules[i]);
                let k = choose|k: int| 0 <= k < rest.len() && rest[k] == schedules[i].namespace@;
                assert(all[k] == schedules[i].namespace@);
            } else if !rest.contains(schedules[last].namespace@) {
                assert(all[rest.len() as int] == schedules[last].namespace@);
            }
        }
        assert forall|k: int| 0 <= k < all.len() implies exists|m: int|
            0 <= m < schedules.len() && (#[trigger] schedules[m]).namespace@
                == #[trigger] all[k] by {
            if k < rest.len() {
                let m = choose|m: int|
                    0 <= m < prior.len() && (#[trigger] prior[m]).namespace@ == rest[k];
                assert(schedules[m].namespace@ == all[k]);
            } else {
                assert(schedules[last].namespace@ == all[k]);
            }
        }
    }
}

/// A schedule's minutes are those of all of its runs: at least 95 of 100 of the runs that have a
/// length took at most that long, and no fewer whole slots cover as many. Where there is no such
/// run, or the runs could not be asked for, the schedule has one slot.
pub proof fn law_minutes_cover_the_schedules_runs(s: ScheduleRuns, slot_mins: u32, slots: int)
    requires
        slot_mins > 0,
        slots >= 1,
    ensures
        s.runs is None ==> minutes_of(s, slot_mins) == slot_mins,
        minutes_of(s, slot_mins) >= slot_mins,
        minutes_of(s, slot_mins) % (slot_mins as int) == 0,
        s.runs matches Some(runs) ==> {
            let timed = runs@.filter(|run: ObservedRun| has_length(run));
            let minutes = slots * slot_mins;
            &&& timed.len() == 0 ==> minutes_of(s, slot_mins) == slot_mins
            &&& 100 * samples_of(runs@).filter(
                |v: u64| v <= 60 * minutes_of(s, slot_mins),
            ).len() >= 95 * timed.len()
            &&& minutes < minutes_of(s, slot_mins) ==> 100 * samples_of(runs@).filter(
                |v: u64| v <= 60 * minutes,
            ).len() < 95 * timed.len()
        },
{
    let m = minutes_of(s, slot_mins);
    let minutes = slots * slot_mins;
    assert(minutes >= slot_mins) by (nonlinear_arith)
        requires
            minutes == slots * slot_mins,
            slots >= 1,
            slot_mins > 0,
    ;
    match s.runs {
        Some(runs) => {
            let samples = samples_of(runs@);
            lemma_samples_counted(runs@);
            law_minutes_are_whole_slots(samples, slot_mins);
            if samples.len() > 0 {
                law_percentile_is_the_95th(samples, 0);
                lemma_filter_grows(samples, p95(samples), 60 * m);
                law_fewest_slots_that_cover_the_runs(samples, slot_mins, slots);
                if minutes < m {
                    let secs = (60 * minutes) as u64;
                    law_percentile_is_the_95th(samples, secs);
                    lemma_filter_shrinks(samples, 60 * minutes, secs);
                }
            }
        },
        None => {
            law_minutes_are_whole_slots(Seq::empty(), slot_mins);
        },
    }
}

proof fn lemma_filter_shrinks(samples: Seq<u64>, a: int, b: u64)
    requires
        a <= b,
    ensures
        samples.filter(|v: u64| v <= a).len() <= samples.filter(|v: u64| v <= b).len(),
    decreases samples.len(),
{
    reveal(Seq::filter);
    if samples.len() > 0 {
        lemma_filter_shrinks(samples.drop_last(), a, b);
    }
}

/// A measurement is that of its own schedule: it names the schedule, and has the minutes of the
/// schedule's runs.
pub proof fn law_measured_under_its_own_name(d: ScheduleDuration, s: ScheduleRuns, slot_mins: u32)
    ensures
        is_measured(d, s, slot_mins) <==> {
            &&& d.schedule_ref.namespace@ == s.schedule_ref.namespace@
            &&& d.schedule_ref.schedule_id@ == s.schedule_ref.schedule_id@
            &&& d.minutes == minutes_of(s, slot_mins)
        },
{
}

proof fn lemma_filter_grows(samples: Seq<u64>, a: u64, b: int)
    requires
        a <= b,
    ensures
        samples.filter(|v: u64| v <= a).len() <= samples.filter(|v: u64| v <= b).len(),
    decreases samples.len(),
{
    reveal(Seq::filter);
    if samples.len() > 0 {
        lemma_filter_grows(samples.drop_last(), a, b);
    }
}

/// The runs that are asked for are the completed ones of the schedule with this ID.
pub proof fn law_query_names_the_schedule(schedule_id: Seq<char>)
    ensures
        completed_runs_text(schedule_id) == "TemporalScheduledById = \""@ + schedule_id
            + "\" AND ExecutionStatus = \"Completed\""@,
{
}

} // verus!
