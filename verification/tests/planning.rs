use chrono::{Datelike, NaiveDate, TimeZone};

use temporal_gridshift::calendar::CivilDate;
use temporal_gridshift::planning::{
    earliest_eligible_index, horizon_skip_reason, plan_assignments, slot_epoch,
};
use temporal_gridshift::{Price, PricedWindow, ScheduleDuration, ScheduleInfo, ScheduleRef};

fn slot(hour: u32, minute: u32, price: f64) -> PricedWindow {
    PricedWindow {
        date: CivilDate {
            days: NaiveDate::from_ymd_opt(2024, 1, 1)
                .unwrap()
                .num_days_from_ce(),
        },
        hour,
        minute,
        price_p_per_kwh: Price {
            pence: price.floor() as i32,
            billionths: ((price - price.floor()) * 1_000_000_000.0).round() as i32,
        },
    }
}

fn sched(id: &str, interval_secs: u64, last_fire_secs: Option<i64>) -> ScheduleInfo {
    ScheduleInfo {
        namespace: "ns".to_string(),
        schedule_id: id.to_string(),
        interval_secs,
        last_fire_secs,
    }
}

fn minutes(id: &str, minutes: u32) -> ScheduleDuration {
    ScheduleDuration {
        schedule_ref: ScheduleRef {
            namespace: "ns".to_string(),
            schedule_id: id.to_string(),
        },
        minutes,
    }
}

#[test]
fn no_last_fire_makes_every_slot_eligible() {
    let tz = "UTC";
    let pool = vec![slot(0, 0, 5.0), slot(0, 30, 5.0)];
    assert_eq!(earliest_eligible_index(&pool, None, 86_400, tz), 0);
}

#[test]
fn interval_guard_excludes_slots_within_one_interval() {
    let tz = "UTC";
    let pool = vec![
        slot(0, 0, 5.0),
        slot(0, 30, 5.0),
        slot(1, 0, 5.0),
        slot(1, 30, 5.0),
    ];
    let last_fire = slot_epoch(&pool[0], tz);
    assert_eq!(
        earliest_eligible_index(&pool, Some(last_fire), 3_600, tz),
        2
    );
}

#[test]
fn interval_guard_returns_len_when_nothing_eligible() {
    let tz = "UTC";
    let pool = vec![slot(0, 0, 5.0), slot(0, 30, 5.0)];
    let last_fire = slot_epoch(&pool[1], tz);
    assert_eq!(
        earliest_eligible_index(&pool, Some(last_fire), 3_600, tz),
        pool.len()
    );
}

#[test]
fn horizon_skip_reason_counts_time_to_next_run() {
    assert_eq!(
        horizon_skip_reason(Some(0), 7 * 86_400, 0),
        "next run in 7days, outside the price horizon"
    );
}

#[test]
fn horizon_skip_reason_partial_day_remaining() {
    assert_eq!(
        horizon_skip_reason(Some(0), 86_400 + 3_600, 0),
        "next run in 1day 1h, outside the price horizon"
    );
}

#[test]
fn horizon_skip_reason_without_last_fire() {
    assert_eq!(
        horizon_skip_reason(None, 86_400, 0),
        "no eligible price slot in the price horizon"
    );
}

#[test]
fn pack_four_short_schedules_into_cheapest_slot() {
    // 2x10m + 1x5m + 1x2m = 27 minutes; all fit in one 30-minute slot.
    // The cheapest slot is at 02:00; all four schedules should land there.
    let tz = "UTC";
    let pool = vec![
        slot(0, 0, 30.0),
        slot(0, 30, 25.0),
        slot(2, 0, 5.0),
        slot(2, 30, 10.0),
        slot(3, 0, 20.0),
        slot(3, 30, 30.0),
    ];
    let schedules = vec![
        sched("a", 3600, None),
        sched("b", 3600, None),
        sched("c", 3600, None),
        sched("d", 3600, None),
    ];
    let mut durations = Vec::new();
    durations.push(minutes("a", 10));
    durations.push(minutes("b", 10));
    durations.push(minutes("c", 5));
    durations.push(minutes("d", 2));

    let result = plan_assignments(schedules, &durations, pool, tz, 0, 30);

    assert_eq!(result.assignments.len(), 4);
    assert!(result.skipped.is_empty());
    for a in &result.assignments {
        assert_eq!(
            (a.window.hour, a.window.minute),
            (2, 0),
            "schedule {} should be packed at 02:00",
            a.schedule_ref.schedule_id
        );
    }
}

#[test]
fn pack_respects_max_min_start_across_schedules() {
    // Schedule 'b' last fired at 00:00 with a 1-hour interval, so it cannot fire before
    // 01:00. Pack should use the cheapest slot at or after 01:00 for both.
    let tz = "UTC";
    let date = NaiveDate::from_ymd_opt(2024, 1, 1).unwrap();
    let epoch_00 = chrono_tz::UTC
        .from_utc_datetime(&date.and_hms_opt(0, 0, 0).unwrap())
        .timestamp();

    let pool = vec![
        slot(0, 0, 5.0),
        slot(0, 30, 15.0),
        slot(1, 0, 10.0),
        slot(1, 30, 20.0),
    ];
    let schedules = vec![sched("a", 3600, None), sched("b", 3600, Some(epoch_00))];
    let mut durations = Vec::new();
    durations.push(minutes("a", 10));
    durations.push(minutes("b", 10));

    let result = plan_assignments(schedules, &durations, pool, tz, 0, 30);

    assert_eq!(result.assignments.len(), 2);
    for a in &result.assignments {
        assert_eq!(
            (a.window.hour, a.window.minute),
            (1, 0),
            "schedule {} should be at 01:00 (cheapest slot where both are eligible)",
            a.schedule_ref.schedule_id
        );
    }
}

#[test]
fn concurrent_jobs_share_cheapest_window() {
    // Two 20-minute jobs run concurrently: the window only needs to cover 20 minutes, so
    // both fit in the cheapest single slot. They should co-locate there.
    let tz = "UTC";
    let pool = vec![slot(0, 0, 5.0), slot(0, 30, 10.0), slot(1, 0, 20.0)];
    let schedules = vec![sched("a", 3600, None), sched("b", 3600, None)];
    let mut durations = Vec::new();
    durations.push(minutes("a", 20));
    durations.push(minutes("b", 20));

    let result = plan_assignments(schedules, &durations, pool, tz, 0, 30);

    assert_eq!(result.assignments.len(), 2);
    for a in &result.assignments {
        assert_eq!(
            (a.window.hour, a.window.minute),
            (0, 0),
            "schedule {} should co-locate at the cheapest slot",
            a.schedule_ref.schedule_id
        );
    }
}

#[test]
fn short_jobs_co_locate_with_long_job_for_free() {
    // Pool: 4 slots at prices 5, 6, 7, 8 (monotone increasing).
    // long_c needs a 2-slot window starting at 00:00 (cost 5+6=11).
    // short_a and short_b each fit in 1 slot; placing them at 00:00 alongside long_c
    // adds nothing to the objective because long_c's window already covers that slot.
    // Splitting them to any other slot costs more (e.g. 11+7=18). The ILP co-locates
    // all three at 00:00 as the globally optimal solution.
    let tz = "UTC";
    let pool = vec![
        slot(0, 0, 5.0),
        slot(0, 30, 6.0),
        slot(1, 0, 7.0),
        slot(1, 30, 8.0),
    ];
    let schedules = vec![
        sched("short_a", 3600, None),
        sched("short_b", 3600, None),
        sched("long_c", 3600, None),
    ];
    let mut durations = Vec::new();
    durations.push(minutes("short_a", 10));
    durations.push(minutes("short_b", 10));
    durations.push(minutes("long_c", 40));

    let result = plan_assignments(schedules, &durations, pool, tz, 0, 30);

    assert_eq!(result.assignments.len(), 3);
    for a in &result.assignments {
        assert_eq!(
            (a.window.hour, a.window.minute),
            (0, 0),
            "schedule {} should co-locate at 00:00 (globally optimal)",
            a.schedule_ref.schedule_id
        );
    }
}

#[test]
fn four_hour_job_lands_in_cheap_five_hour_window() {
    // 18-slot pool: 4 expensive slots, then 10 cheap slots (5 hours), then 4 moderate.
    // A 4-hour job needs 8 consecutive slots; any start in slots 4-6 (02:00-03:00)
    // fits entirely in the cheap block. The solver may pick any of those tied starts.
    let tz = "UTC";
    let pool = vec![
        slot(0, 0, 30.0),
        slot(0, 30, 30.0),
        slot(1, 0, 30.0),
        slot(1, 30, 30.0),
        // cheap 5-hour block (10 slots)
        slot(2, 0, 3.0),
        slot(2, 30, 3.0),
        slot(3, 0, 3.0),
        slot(3, 30, 3.0),
        slot(4, 0, 3.0),
        slot(4, 30, 3.0),
        slot(5, 0, 3.0),
        slot(5, 30, 3.0),
        slot(6, 0, 3.0),
        slot(6, 30, 3.0),
        // moderate tail
        slot(7, 0, 15.0),
        slot(7, 30, 15.0),
        slot(8, 0, 15.0),
        slot(8, 30, 15.0),
    ];

    let schedules = vec![sched("heavy", 86_400, None)];
    let mut durations = Vec::new();
    durations.push(minutes("heavy", 240));

    let result = plan_assignments(schedules, &durations, pool, tz, 0, 30);

    assert_eq!(result.assignments.len(), 1);
    let (h, m) = (
        result.assignments[0].window.hour,
        result.assignments[0].window.minute,
    );
    // Valid starts: slots 4-6 (02:00, 02:30, 03:00) -- all 8 slots in the cheap block.
    // Starts of equal price are tied.
    assert!(
        matches!((h, m), (2, 0) | (2, 30) | (3, 0)),
        "4-hour job should start in the cheap 5-hour window, got ({h}, {m})",
    );
}

#[test]
fn short_job_co_locates_with_long_job_in_cheap_window() {
    // A 15-min job alongside a 4-hour job: both fire at the same phase offset, so the
    // window only needs to cover the longer one. Both should land somewhere in the cheap
    // block. This verifies the short job does not claim a single slot separately and push
    // the long job to a worse block.
    let tz = "UTC";
    let pool = vec![
        slot(0, 0, 30.0),
        slot(0, 30, 30.0),
        slot(1, 0, 30.0),
        slot(1, 30, 30.0),
        slot(2, 0, 3.0),
        slot(2, 30, 3.0),
        slot(3, 0, 3.0),
        slot(3, 30, 3.0),
        slot(4, 0, 3.0),
        slot(4, 30, 3.0),
        slot(5, 0, 3.0),
        slot(5, 30, 3.0),
        slot(6, 0, 3.0),
        slot(6, 30, 3.0),
        slot(7, 0, 15.0),
        slot(7, 30, 15.0),
        slot(8, 0, 15.0),
        slot(8, 30, 15.0),
    ];
    let schedules = vec![sched("heavy", 86_400, None), sched("light", 86_400, None)];
    let mut durations = Vec::new();
    durations.push(minutes("heavy", 240));
    durations.push(minutes("light", 15));

    let result = plan_assignments(schedules, &durations, pool, tz, 0, 30);

    assert_eq!(result.assignments.len(), 2);
    let heavy_hm = result
        .assignments
        .iter()
        .find(|a| a.schedule_ref.schedule_id == "heavy")
        .map(|a| (a.window.hour, a.window.minute))
        .unwrap();
    let light_hm = result
        .assignments
        .iter()
        .find(|a| a.schedule_ref.schedule_id == "light")
        .map(|a| (a.window.hour, a.window.minute))
        .unwrap();
    assert_eq!(heavy_hm, light_hm, "heavy and light should co-locate");
    let (h, m) = heavy_hm;
    // Valid starts: slots 4-6 (02:00, 02:30, 03:00) -- all 8 slots in the cheap block.
    assert!(
        matches!((h, m), (2, 0) | (2, 30) | (3, 0)),
        "jobs should start in the cheap window, got ({h}, {m})",
    );
}

#[test]
fn ineligible_schedule_is_skipped_not_assigned() {
    let tz = "UTC";
    let date = NaiveDate::from_ymd_opt(2024, 1, 1).unwrap();
    let epoch_02 = chrono_tz::UTC
        .from_utc_datetime(&date.and_hms_opt(2, 0, 0).unwrap())
        .timestamp();

    let pool = vec![slot(0, 0, 5.0), slot(0, 30, 5.0), slot(1, 0, 5.0)];
    // 7-day interval, last fired 2h into 2024-01-01: next run is ~Jan 8, outside the pool.
    let schedules = vec![sched("a", 7 * 86_400, Some(epoch_02))];
    let durations = Vec::new();

    let result = plan_assignments(schedules, &durations, pool, tz, 0, 30);

    assert!(result.assignments.is_empty());
    assert_eq!(result.skipped.len(), 1);
    assert_eq!(result.skipped[0].schedule_id, "a");
}

#[test]
fn job_placed_at_start_that_captures_negative_price_slot() {
    // Pool: 10p, -5p, 8p. A 2-slot job starting at 00:00 costs 10+(-5)=5p;
    // starting at 00:30 costs -5+8=3p. The ILP picks 00:30.
    // Negative prices make the window more attractive, not less.
    let tz = "UTC";
    let pool = vec![slot(0, 0, 10.0), slot(0, 30, -5.0), slot(1, 0, 8.0)];
    let schedules = vec![sched("a", 3600, None)];
    let mut durations = Vec::new();
    durations.push(minutes("a", 60));

    let result = plan_assignments(schedules, &durations, pool, tz, 0, 30);

    assert_eq!(result.assignments.len(), 1);
    assert_eq!(
        (
            result.assignments[0].window.hour,
            result.assignments[0].window.minute
        ),
        (0, 30),
        "2-slot job should start at 00:30 to capture the negative-price slot (cost 3 vs 5)"
    );
}

#[test]
fn job_skipped_when_duration_overruns_price_horizon() {
    // Schedule last fired at 00:00 with a 1-hour interval: eligible from 01:00 (slot 2).
    // A 2-hour (4-slot) duration needs slots 2-5, but the pool only has 4 slots (0-3).
    // min_start(2) + duration_slots(4) = 6 > 4, so the schedule is skipped.
    let tz = "UTC";
    let date = NaiveDate::from_ymd_opt(2024, 1, 1).unwrap();
    let epoch_00 = chrono_tz::UTC
        .from_utc_datetime(&date.and_hms_opt(0, 0, 0).unwrap())
        .timestamp();

    let pool = vec![
        slot(0, 0, 5.0),
        slot(0, 30, 5.0),
        slot(1, 0, 5.0),
        slot(1, 30, 5.0),
    ];
    let schedules = vec![sched("a", 3600, Some(epoch_00))];
    let mut durations = Vec::new();
    durations.push(minutes("a", 120));

    let result = plan_assignments(schedules, &durations, pool, tz, 0, 30);

    assert!(result.assignments.is_empty());
    assert_eq!(result.skipped.len(), 1);
    assert_eq!(result.skipped[0].schedule_id, "a");
    assert_eq!(
        result.skipped[0].reason,
        "job duration extends past the price horizon"
    );
}

#[test]
fn jobs_with_incompatible_eligibility_land_at_separate_slots() {
    // Job A needs 2 slots; the pool has 2 slots, so A must start at slot 0.
    // Job B last fired at 00:00 with a 30-min interval, giving min_start=1 (00:30).
    // With only 2 slots, B can only start at slot 1. The ILP must place them separately.
    let tz = "UTC";
    let date = NaiveDate::from_ymd_opt(2024, 1, 1).unwrap();
    let epoch_00 = chrono_tz::UTC
        .from_utc_datetime(&date.and_hms_opt(0, 0, 0).unwrap())
        .timestamp();

    let pool = vec![slot(0, 0, 5.0), slot(0, 30, 3.0)];
    let schedules = vec![sched("a", 3600, None), sched("b", 1800, Some(epoch_00))];
    let mut durations = Vec::new();
    durations.push(minutes("a", 60));
    durations.push(minutes("b", 30));

    let result = plan_assignments(schedules, &durations, pool, tz, 0, 30);

    assert_eq!(result.assignments.len(), 2);
    let a = result
        .assignments
        .iter()
        .find(|x| x.schedule_ref.schedule_id == "a")
        .unwrap();
    let b = result
        .assignments
        .iter()
        .find(|x| x.schedule_ref.schedule_id == "b")
        .unwrap();
    assert_eq!((a.window.hour, a.window.minute), (0, 0));
    assert_eq!((b.window.hour, b.window.minute), (0, 30));
}
