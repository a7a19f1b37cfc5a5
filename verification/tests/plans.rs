use chrono::{Datelike, NaiveDate};

use temporal_gridshift::calendar::CivilDate;
use temporal_gridshift::ilp::{build_model, longest_job, IlpModel, Job, Row, Term};
use temporal_gridshift::planning::{
    assemble_plan, classify_schedule, classify_schedules, describe_wait, first_eligible_slot,
    look_up_minutes, may_fire_at, plan_assignments, seconds_to_next_run, slot_count, slot_epoch,
};
use temporal_gridshift::solver::{read_starts, solve_placement};
use temporal_gridshift::update::{rephase_interval, window_timestamp, FiringInterval, Span};
use temporal_gridshift::{
    Price, PricedWindow, ScheduleDuration, ScheduleInfo, ScheduleRef, SkippedSchedule, UpdateWindowsInput,
};

fn date(year: i32, month: u32, day: u32) -> CivilDate {
    CivilDate {
        days: NaiveDate::from_ymd_opt(year, month, day)
            .unwrap()
            .num_days_from_ce(),
    }
}

fn pence(pence: i32) -> Price {
    Price {
        pence,
        billionths: 0,
    }
}

fn slot(hour: u32, minute: u32, price: i32) -> PricedWindow {
    PricedWindow {
        date: date(2024, 1, 1),
        hour,
        minute,
        price_p_per_kwh: pence(price),
    }
}

fn half_hours(prices: &[i32]) -> Vec<PricedWindow> {
    prices
        .iter()
        .enumerate()
        .map(|(i, p)| slot(i as u32 / 2, i as u32 % 2 * 30, *p))
        .collect()
}

fn job(id: &str, open: &[bool], duration_slots: usize) -> Job {
    Job {
        namespace: "ns".to_owned(),
        schedule_id: id.to_owned(),
        interval_secs: 3_600,
        open: open.to_vec(),
        duration_slots,
    }
}

fn sched(id: &str, interval_secs: u64, last_fire_secs: Option<i64>) -> ScheduleInfo {
    ScheduleInfo {
        namespace: "ns".to_owned(),
        schedule_id: id.to_owned(),
        interval_secs,
        last_fire_secs,
    }
}

fn minutes(id: &str, minutes: u32) -> ScheduleDuration {
    ScheduleDuration {
        schedule_ref: ScheduleRef {
            namespace: "ns".to_owned(),
            schedule_id: id.to_owned(),
        },
        minutes,
    }
}

const ONE: u64 = 0x3FF0_0000_0000_0000;

// ---- the program ----

fn terms(row: &Row) -> Vec<(usize, i32)> {
    row.terms.iter().map(|Term { var, coeff }| (*var, *coeff)).collect()
}

#[test]
fn program_has_start_cover_and_holder_rows() {
    // One job of two slots that may start at slots 0 and 1 of three.
    let jobs = vec![job("a", &[true, true, false], 2)];
    assert_eq!(longest_job(&jobs), 2);
    let IlpModel {
        objective,
        exactly,
        at_most,
    } = build_model(&jobs, &vec![pence(5), pence(6), pence(7)]);
    // Two start variables, then two windows at slot 0, two at slot 1 and one at slot 2.
    assert_eq!(objective, [0, 0, 5, 6, 6, 7, 7].map(pence));
    assert_eq!(exactly.len(), 1);
    assert_eq!((terms(&exactly[0]), exactly[0].rhs), (vec![(0, 1), (1, 1)], 1));
    let rows: Vec<Vec<(usize, i32)>> = at_most.iter().map(terms).collect();
    assert!(at_most.iter().all(|row| row.rhs == 0));
    assert_eq!(
        rows,
        vec![
            vec![(0, 1), (2, -1)],
            vec![(0, 1), (3, -1)],
            vec![(1, 1), (4, -1)],
            vec![(1, 1), (5, -1)],
            vec![(2, 1), (0, -1)],
            vec![(3, 1), (0, -1)],
            vec![(4, 1), (1, -1)],
            vec![(5, 1), (1, -1)],
            vec![(6, 1)],
        ]
    );
}

#[test]
fn solver_starts_each_job_once() {
    let jobs = vec![
        job("a", &[true, true, false], 2),
        job("b", &[false, true, true], 1),
    ];
    let values = solve_placement(&jobs, &vec![pence(5), pence(6), pence(7)]).unwrap();
    assert_eq!(values.len(), 9);
    assert!(values.iter().all(|v| f64::from_bits(*v) == 0.0 || *v == ONE));
    // Both at slot 1 cost 6 + 7, apart 5 + 6 and 6 or 7.
    assert_eq!(read_starts(&jobs, 3, &values), vec![Some(1), Some(1)]);
}

#[test]
fn answers_are_read_as_above_one_half() {
    let jobs = vec![job("a", &[true, false, true], 1), job("b", &[true; 3], 1)];
    let bits = |v: f64| v.to_bits();
    let read = |values: Vec<u64>| read_starts(&jobs, 3, &values);
    assert_eq!(
        read(vec![bits(0.5), bits(0.51), bits(-1.0), bits(f64::NAN), bits(1.0)]),
        vec![Some(2), Some(2)]
    );
    assert_eq!(
        read(vec![bits(-0.0), bits(0.0), bits(f64::INFINITY), bits(1.0), bits(1.0)]),
        vec![None, Some(0)]
    );
}

// ---- classification ----

#[test]
fn eligibility_is_exact_at_one_interval() {
    assert!(!may_fire_at(3_599, Some(0), 3_600));
    assert!(may_fire_at(3_600, Some(0), 3_600));
    assert!(may_fire_at(i64::MIN, None, 3_600));
    assert!(!may_fire_at(i64::MAX, Some(i64::MAX), u64::MAX));
    assert_eq!(first_eligible_slot(&vec![0, 10, 5, 20], Some(0), 6), 1);
    assert_eq!(first_eligible_slot(&vec![0, 10], Some(0), 11), 2);
}

#[test]
fn durations_are_counted_in_slots() {
    assert_eq!(slot_count(0, 30), 1);
    assert_eq!(slot_count(30, 30), 1);
    assert_eq!(slot_count(31, 30), 2);
    assert_eq!(slot_count(u32::MAX, 1), u32::MAX as usize);
    let known = vec![minutes("a", 5), minutes("b", 6), minutes("a", 7)];
    let look = |ns: &str, id: &str| look_up_minutes(&known, &ns.to_owned(), &id.to_owned(), 30);
    assert_eq!((look("ns", "a"), look("ns", "b")), (7, 6));
    assert_eq!((look("ns", "c"), look("other", "a")), (30, 30));
}

#[test]
fn countdown_stops_at_zero() {
    assert_eq!(seconds_to_next_run(100, 50, 120), 30);
    assert_eq!(seconds_to_next_run(100, 50, 200), 0);
    assert_eq!(seconds_to_next_run(i64::MAX, u64::MAX, i64::MIN), u64::MAX);
    assert_eq!(describe_wait("5days"), "next run in 5days, outside the price horizon");
}

#[test]
fn schedules_are_classified_by_their_slots() {
    let starts = vec![0, 1_800, 3_600, 5_400];
    let none = vec![];
    let placed = classify_schedule(&sched("a", 1_800, Some(0)), &starts, &none, 0, 30).unwrap();
    assert_eq!(placed.open, vec![false, true, true, true]);
    assert_eq!(placed.duration_slots, 1);
    let long = vec![minutes("a", 90)];
    let placed = classify_schedule(&sched("a", 1_800, Some(0)), &starts, &long, 0, 30).unwrap();
    assert_eq!(placed.open, vec![false, true, false, false]);
    let late = classify_schedule(&sched("a", 604_800, Some(0)), &starts, &none, 604_799, 30);
    assert_eq!(late.unwrap_err().reason, "next run in 1s, outside the price horizon");
    let longer = vec![minutes("a", 91)];
    let past = classify_schedule(&sched("a", 1_800, Some(0)), &starts, &longer, 0, 30);
    assert_eq!(past.unwrap_err().reason, "job duration extends past the price horizon");
    let found = classify_schedules(
        &vec![sched("a", 60, None), sched("b", 604_800, Some(0)), sched("c", 60, None)],
        &starts,
        &none,
        0,
        30,
    );
    let ids: Vec<&str> = found.jobs.iter().map(|j| j.schedule_id.as_str()).collect();
    assert_eq!(ids, vec!["a", "c"]);
    assert_eq!(found.skipped.len(), 1);
    assert_eq!(found.skipped[0].schedule_id, "b");
}

#[test]
fn slots_that_never_come_are_not_planned_with() {
    let starts = vec![i64::MIN, 1_800, i64::MIN, 5_400];
    let none = vec![];
    let placed = classify_schedule(&sched("a", 60, None), &starts, &none, 0, 30).unwrap();
    assert_eq!(placed.open, vec![false, true, false, true]);
    let never = vec![i64::MIN, i64::MIN];
    let skipped = classify_schedule(&sched("a", 60, None), &never, &none, 0, 30);
    assert_eq!(
        skipped.unwrap_err().reason,
        "no eligible price slot in the price horizon"
    );
    // Clocks in London skip from 01:00 to 02:00 on 31 March 2024: the cheap 01:30 never comes.
    let at = |hour, price| PricedWindow {
        date: date(2024, 3, 31),
        hour,
        minute: 30,
        price_p_per_kwh: pence(price),
    };
    let plan = plan_assignments(
        vec![sched("a", 86_400, None)],
        &none,
        vec![at(0, 5), at(1, 1), at(2, 3)],
        "Europe/London",
        0,
        30,
    );
    assert_eq!(plan.assignments[0].window.hour, 2);
}

#[test]
fn no_schedule_fires_in_a_pool_without_slots() {
    let plan = plan_assignments(vec![sched("a", 60, None)], &vec![], vec![], "UTC", 0, 30);
    assert!(plan.assignments.is_empty());
    assert_eq!(
        plan.skipped[0].reason,
        "no eligible price slot in the price horizon"
    );
    let nothing = plan_assignments(vec![], &vec![], half_hours(&[1]), "UTC", 0, 30);
    assert!(nothing.assignments.is_empty() && nothing.skipped.is_empty());
}

// ---- plans from answers ----

fn known_skip() -> Vec<SkippedSchedule> {
    vec![SkippedSchedule {
        namespace: "ns".to_owned(),
        schedule_id: "z".to_owned(),
        reason: "known".to_owned(),
    }]
}

#[test]
fn plan_follows_the_answer() {
    let jobs = vec![job("a", &[true, true], 1), job("b", &[true, true], 1)];
    let pool = half_hours(&[5, 6]);
    // Job "a" starts at slot 1, job "b" nowhere.
    let plan = assemble_plan(&jobs, &pool, Ok(vec![0, ONE, 0, 0, 0, ONE]), known_skip());
    assert_eq!(plan.assignments.len(), 1);
    assert_eq!(plan.assignments[0].schedule_ref.schedule_id, "a");
    assert_eq!(plan.assignments[0].window.minute, 30);
    let skipped: Vec<(&str, &str)> = plan
        .skipped
        .iter()
        .map(|s| (s.schedule_id.as_str(), s.reason.as_str()))
        .collect();
    assert_eq!(skipped, vec![("z", "known"), ("b", "ILP assigned no slot")]);
}

#[test]
fn failed_solver_skips_every_job() {
    let jobs = vec![job("a", &[true], 1), job("b", &[true], 1)];
    let plan = assemble_plan(&jobs, &half_hours(&[5]), Err("unbounded".to_owned()), known_skip());
    assert!(plan.assignments.is_empty());
    let skipped: Vec<(&str, &str)> = plan
        .skipped
        .iter()
        .map(|s| (s.schedule_id.as_str(), s.reason.as_str()))
        .collect();
    assert_eq!(
        skipped,
        vec![
            ("z", "known"),
            ("a", "ILP solver failed: unbounded"),
            ("b", "ILP solver failed: unbounded")
        ]
    );
}

#[test]
fn windows_stand_only_where_a_job_holds_them() {
    // One job of one slot, open everywhere; two slots pay the customer.
    let jobs = vec![job("a", &[true; 3], 1)];
    let values = solve_placement(&jobs, &vec![pence(4), pence(-9), pence(-8)]).unwrap();
    let set: Vec<usize> = (0..values.len()).filter(|i| values[*i] == ONE).collect();
    // The start at slot 1 and its window, nothing else.
    assert_eq!(set, vec![1, 4]);
}

// ---- whole plans ----

#[test]
fn every_schedule_is_assigned_or_skipped_once() {
    let schedules = vec![
        sched("a", 3_600, None),
        sched("late", 604_800, Some(1_704_067_200)),
        sched("long", 3_600, None),
        sched("b", 1_800, Some(1_704_067_200)),
    ];
    let pool = half_hours(&[3, 1, 2, 4]);
    let durations = vec![minutes("long", 150)];
    let plan = plan_assignments(schedules, &durations, pool, "UTC", 1_704_067_200, 30);
    let assigned: Vec<&str> = plan
        .assignments
        .iter()
        .map(|a| a.schedule_ref.schedule_id.as_str())
        .collect();
    let skipped: Vec<(&str, &str)> = plan
        .skipped
        .iter()
        .map(|s| (s.schedule_id.as_str(), s.reason.as_str()))
        .collect();
    assert_eq!(assigned, vec!["a", "b"]);
    assert_eq!(
        skipped,
        vec![
            ("late", "next run in 7days, outside the price horizon"),
            ("long", "job duration extends past the price horizon")
        ]
    );
}

#[test]
fn planned_firing_keeps_the_interval() {
    // A weekly job ran at 14:00 on 25 December 2023. On the run day the cheap small hours are out:
    // it can only be moved later than 14:00.
    let ran = slot_epoch(&slot(14, 0, 0), "Europe/London") - 604_800;
    let pool = vec![slot(2, 0, 1), slot(14, 0, 9), slot(17, 30, 20), slot(22, 0, 5)];
    let now = slot_epoch(&slot(1, 0, 0), "Europe/London");
    let plan = plan_assignments(
        vec![sched("a", 604_800, Some(ran))],
        &vec![],
        pool,
        "Europe/London",
        now,
        30,
    );
    let a = &plan.assignments[0];
    assert_eq!((a.window.hour, a.window.minute), (22, 0));
    let instant = window_timestamp(&UpdateWindowsInput {
        namespace: "ns".to_owned(),
        schedule_id: "a".to_owned(),
        window: a.window,
        timezone: "Europe/London".to_owned(),
        interval_secs: a.interval_secs,
    })
    .unwrap();
    let interval = FiringInterval {
        every: Some(Span {
            secs: 604_800,
            nanos: 0,
        }),
        phase: None,
    };
    let phase = rephase_interval(interval, instant).phase.unwrap().secs;
    let next = (now + 1..).find(|t| t % 604_800 == phase).unwrap();
    assert_eq!(next as u64, instant);
    assert!(next - ran >= 604_800);
}

#[test]
fn day_job_is_not_pulled_into_the_same_day() {
    // A daily job ran at 02:00; a cheaper slot at 15:00 the same day is only 13 hours later.
    let ran = slot_epoch(&slot(2, 0, 0), "Europe/London");
    let pool = vec![slot(15, 0, 1), slot(23, 30, 9)];
    let plan = plan_assignments(
        vec![sched("a", 86_400, Some(ran))],
        &vec![],
        pool,
        "Europe/London",
        ran + 3_600,
        30,
    );
    assert!(plan.assignments.is_empty());
    assert_eq!(
        plan.skipped[0].reason,
        "next run in 23h, outside the price horizon"
    );
}

#[test]
fn repeated_hour_is_not_fired_in_too_soon() {
    // On 27 October 2024 the hour from 01:00 comes twice in London. A job that may fire again from
    // 01:30 on is not placed in the cheap second 01:00: the schedule would fire in the first.
    let at = |hour, minute, price| PricedWindow {
        date: date(2024, 10, 27),
        hour,
        minute,
        price_p_per_kwh: pence(price),
    };
    let pool = vec![at(1, 0, 5), at(1, 30, 9), at(1, 0, 1), at(1, 30, 8), at(2, 0, 7)];
    let floor = slot_epoch(&at(1, 30, 0), "Europe/London");
    let plan = plan_assignments(
        vec![sched("a", 3_600, Some(floor - 3_600))],
        &vec![],
        pool,
        "Europe/London",
        0,
        30,
    );
    let w = &plan.assignments[0].window;
    assert_eq!((w.hour, w.minute), (2, 0));
}

#[test]
fn negative_prices_open_no_window_without_a_job() {
    let pool = half_hours(&[4, -9, -9, 3]);
    let plan = plan_assignments(
        vec![sched("a", 3_600, None)],
        &vec![minutes("a", 60)],
        pool,
        "UTC",
        0,
        30,
    );
    let w = &plan.assignments[0].window;
    assert_eq!((w.hour, w.minute), (0, 30));
}

#[test]
fn billionths_of_a_penny_and_dear_slots_count() {
    let cheapest = |prices: &[Price]| {
        let pool = prices
            .iter()
            .enumerate()
            .map(|(i, p)| PricedWindow {
                price_p_per_kwh: *p,
                ..slot(i as u32, 0, 0)
            })
            .collect();
        let plan = plan_assignments(vec![sched("a", 60, None)], &vec![], pool, "UTC", 0, 30);
        plan.assignments[0].window.hour
    };
    let price = |pence, billionths| Price { pence, billionths };
    assert_eq!(cheapest(&[price(24, 622_500_300), price(24, 622_500_000), price(25, 0)]), 1);
    assert_eq!(cheapest(&[price(3_001, 0), price(3_000, 1), price(3_000, 500)]), 1);
    assert_eq!(cheapest(&[price(-1, 500_000_000), price(-1, 0), price(0, 0)]), 1);
}

fn cost(prices: &[i32], lengths: &[usize], starts: &[usize]) -> i64 {
    (0..prices.len())
        .map(|t| {
            let len = lengths
                .iter()
                .zip(starts)
                .filter(|(_, s)| **s == t)
                .map(|(d, _)| *d)
                .max()
                .unwrap_or(0);
            prices[t..t + len].iter().map(|p| *p as i64).sum::<i64>()
        })
        .sum()
}

fn cheapest(prices: &[i32], lengths: &[usize], starts: &mut Vec<usize>) -> i64 {
    let j = starts.len();
    if j == lengths.len() {
        return cost(prices, lengths, starts);
    }
    let mut best = i64::MAX;
    for t in 0..=prices.len() - lengths[j] {
        starts.push(t);
        best = best.min(cheapest(prices, lengths, starts));
        starts.pop();
    }
    best
}

#[test]
fn plans_are_as_cheap_as_any_choice_of_slots() {
    let mut seed: u64 = 7;
    let mut next = |n: u64| {
        seed = seed.wrapping_mul(6_364_136_223_846_793_005).wrapping_add(1);
        (seed >> 33) % n
    };
    for _ in 0..25 {
        let prices: Vec<i32> = (0..6).map(|_| next(60) as i32 - 15).collect();
        let lengths: Vec<usize> = (0..3).map(|_| next(3) as usize + 1).collect();
        let schedules = (0..3).map(|j| sched(&j.to_string(), 3_600, None)).collect();
        let durations = (0..3)
            .map(|j| minutes(&j.to_string(), lengths[j] as u32 * 30))
            .collect();
        let pool = half_hours(&prices);
        let plan = plan_assignments(schedules, &durations, pool, "UTC", 0, 30);
        assert_eq!(plan.assignments.len(), 3);
        let starts: Vec<usize> = plan
            .assignments
            .iter()
            .map(|a| (a.window.hour * 2 + a.window.minute / 30) as usize)
            .collect();
        assert_eq!(
            cost(&prices, &lengths, &starts),
            cheapest(&prices, &lengths, &mut Vec::new())
        );
    }
}
