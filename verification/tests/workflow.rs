use chrono::{Datelike, NaiveDate};

use temporal_gridshift::calendar::{CivilDate, Moment, LAST_DAY};
use temporal_gridshift::workflow::{
    discover_inputs, is_summarisable, keep_ahead, merge_discoveries, price_pool, schedule_refs,
    set_clock, skip_without_prices, starts_ahead, summarise_updates, update_inputs,
    windows_of_day, Action, Event, SchedulerWorkflow, Stage, WorkflowClock, SCHEDULE_LEAD_MINS,
};
use temporal_gridshift::{
    ChosenWindow, DiscoverSchedulesResult, PlanWindowsResult, Price, PricedWindow, ScheduleAssignment,
    ScheduleDuration, ScheduleInfo, ScheduleRef, SchedulerInput, SkippedSchedule, UpdateOutcome,
};

fn date(year: i32, month: u32, day: u32) -> CivilDate {
    CivilDate {
        days: NaiveDate::from_ymd_opt(year, month, day)
            .unwrap()
            .num_days_from_ce(),
    }
}

fn slot(date: CivilDate, hour: u32, minute: u32) -> PricedWindow {
    PricedWindow {
        date,
        hour,
        minute,
        price_p_per_kwh: Price {
            pence: 1,
            billionths: 0,
        },
    }
}

fn chosen(date: CivilDate, hour: u32, minute: u32) -> ChosenWindow {
    ChosenWindow { date, hour, minute }
}

fn sched(namespace: &str, id: &str) -> ScheduleInfo {
    ScheduleInfo {
        namespace: namespace.to_owned(),
        schedule_id: id.to_owned(),
        interval_secs: 86_400,
        last_fire_secs: None,
    }
}

fn skip(namespace: &str, id: &str, reason: &str) -> SkippedSchedule {
    SkippedSchedule {
        namespace: namespace.to_owned(),
        schedule_id: id.to_owned(),
        reason: reason.to_owned(),
    }
}

fn assignment(id: &str, interval_secs: u64, window: ChosenWindow) -> ScheduleAssignment {
    ScheduleAssignment {
        schedule_ref: ScheduleRef {
            namespace: "ns".to_owned(),
            schedule_id: id.to_owned(),
        },
        window,
        interval_secs,
    }
}

fn reasons(skipped: &[SkippedSchedule]) -> Vec<(&str, &str, &str)> {
    skipped
        .iter()
        .map(|s| (s.namespace.as_str(), s.schedule_id.as_str(), s.reason.as_str()))
        .collect()
}

fn ids(schedules: &[ScheduleInfo]) -> Vec<(&str, &str)> {
    schedules
        .iter()
        .map(|s| (s.namespace.as_str(), s.schedule_id.as_str()))
        .collect()
}

fn found(schedules: Vec<ScheduleInfo>, skipped: Vec<SkippedSchedule>, mins: u32) -> Result<DiscoverSchedulesResult, String> {
    Ok(DiscoverSchedulesResult {
        schedules,
        skipped,
        slot_duration_mins: mins,
    })
}

// ---- discovery ----

#[test]
fn discoveries_are_merged_and_sorted_by_namespace_and_id() {
    let namespaces = vec!["z".to_owned(), "m".to_owned(), "a".to_owned()];
    let merged = merge_discoveries(
        &namespaces,
        vec![
            found(vec![sched("z", "2"), sched("z", "1")], vec![skip("z", "3", "r")], 15),
            Err("boom".to_owned()),
            found(vec![sched("a", "9")], vec![], 60),
        ],
    );
    assert_eq!(ids(&merged.schedules), vec![("a", "9"), ("z", "1"), ("z", "2")]);
    assert_eq!(
        reasons(&merged.skipped),
        vec![
            ("z", "3", "r"),
            ("m", "", "discover_schedules failed: boom")
        ]
    );
    assert_eq!(merged.slot_duration_mins, 60);
}

#[test]
fn slots_are_half_hours_where_no_namespace_says_otherwise() {
    let merged = merge_discoveries(&vec!["m".to_owned()], vec![Err("x".to_owned())]);
    assert_eq!(merged.slot_duration_mins, 30);
    assert!(merged.schedules.is_empty());
    assert_eq!(merge_discoveries(&vec![], vec![]).slot_duration_mins, 30);
}

#[test]
fn merging_ignores_the_order_of_namespaces() {
    let a = || found(vec![sched("a", "1"), sched("a", "2")], vec![], 30);
    let b = || found(vec![sched("b", "1")], vec![], 30);
    let one = merge_discoveries(&vec!["a".to_owned(), "b".to_owned()], vec![a(), b()]);
    let two = merge_discoveries(&vec!["b".to_owned(), "a".to_owned()], vec![b(), a()]);
    assert_eq!(ids(&one.schedules), ids(&two.schedules));
}

#[test]
fn inputs_name_namespaces_and_schedules() {
    let inputs = discover_inputs(&vec!["a".to_owned(), "b".to_owned()], &"q".to_owned());
    let pairs: Vec<(&str, &str)> = inputs
        .iter()
        .map(|i| (i.namespace.as_str(), i.query.as_str()))
        .collect();
    assert_eq!(pairs, vec![("a", "q"), ("b", "q")]);
    let refs = schedule_refs(&vec![sched("a", "1")]);
    assert_eq!(
        refs,
        vec![ScheduleRef {
            namespace: "a".to_owned(),
            schedule_id: "1".to_owned()
        }]
    );
}

// ---- the pool ----

/// The clock of a run in UTC at so many seconds of 1 January 2024.
fn clock(day_secs: u32) -> WorkflowClock {
    WorkflowClock {
        now_secs: 1_704_067_200 + day_secs as i64,
        begun_secs: 1_704_067_200 + day_secs as i64,
        now_day_secs: day_secs,
        today: date(2024, 1, 1),
        tomorrow: date(2024, 1, 2),
    }
}

#[test]
fn pool_keeps_the_lead_time_and_adds_tomorrow() {
    assert_eq!(SCHEDULE_LEAD_MINS, 2);
    let today = date(2024, 1, 1);
    let tomorrow = date(2024, 1, 2);
    let windows = vec![
        slot(today, 19, 30),
        slot(today, 20, 0),
        slot(today, 20, 30),
        slot(tomorrow, 0, 0),
    ];
    let at = (19 * 60 + 58) * 60;
    let pool = price_pool(&windows, Some(vec![slot(tomorrow, 1, 0)]), "UTC", clock(at));
    assert_eq!(
        pool,
        vec![
            slot(today, 20, 0),
            slot(today, 20, 30),
            slot(tomorrow, 0, 0),
            slot(tomorrow, 1, 0)
        ]
    );
    let pool = price_pool(&windows, None, "UTC", clock(at + 1));
    assert_eq!(pool, vec![slot(today, 20, 30), slot(tomorrow, 0, 0)]);
    // Across midnight.
    let next = Some(vec![slot(tomorrow, 0, 0), slot(tomorrow, 0, 30)]);
    let pool = price_pool(&vec![], next.clone(), "UTC", clock(86_400 - 120));
    assert_eq!(pool, next.clone().unwrap());
    let pool = price_pool(&vec![], next, "UTC", clock(86_400 - 119));
    assert_eq!(pool, vec![slot(tomorrow, 0, 30)]);
}

#[test]
fn slots_are_ahead_in_elapsed_time_and_by_the_wall_clock() {
    let w = slot(date(2024, 1, 1), 0, 10);
    let c = clock(480);
    let start = c.begun_secs + 120;
    assert!(starts_ahead(w, start, c));
    assert!(!starts_ahead(w, start - 1, c));
    assert!(!starts_ahead(w, i64::MIN, c));
    assert!(!starts_ahead(slot(date(2024, 1, 1), 0, 9), start, c));
    assert_eq!(keep_ahead(&vec![w, w, w], &vec![start, start - 1, start], c), vec![w, w]);
}

#[test]
fn schedules_without_prices_are_skipped() {
    assert_eq!(
        reasons(&skip_without_prices(&vec![sched("a", "1"), sched("b", "2")])),
        vec![
            ("a", "1", "no price slots available"),
            ("b", "2", "no price slots available")
        ]
    );
}

// ---- summaries ----

#[test]
fn daily_schedule_fires_once() {
    let w = chosen(date(2024, 1, 1), 2, 30);
    assert_eq!(windows_of_day(w, 86_400), vec![w]);
    assert_eq!(windows_of_day(w, 7 * 86_400), vec![w]);
    assert_eq!(windows_of_day(w, 86_399), vec![w]);
}

#[test]
fn shorter_intervals_fire_around_the_clock() {
    let d = date(2024, 2, 28);
    let next = date(2024, 2, 29);
    assert_eq!(
        windows_of_day(chosen(d, 20, 45), 6 * 3_600),
        vec![
            chosen(d, 20, 45),
            chosen(next, 2, 45),
            chosen(next, 8, 45),
            chosen(next, 14, 45)
        ]
    );
    assert_eq!(windows_of_day(chosen(d, 0, 0), 3_600).len(), 24);
    assert_eq!(windows_of_day(chosen(d, 0, 0), 1).len(), 86_400);
}

#[test]
fn summaries_need_an_interval_a_time_and_a_calendar() {
    let d = date(2024, 1, 1);
    assert!(is_summarisable(chosen(d, 23, 59), 1));
    assert!(!is_summarisable(chosen(d, 0, 0), 0));
    assert!(!is_summarisable(chosen(d, 24, 0), 60));
    assert!(!is_summarisable(chosen(d, 0, 60), 60));
    assert!(!is_summarisable(chosen(CivilDate { days: i32::MIN }, 0, 0), 60));
    let last = CivilDate { days: LAST_DAY };
    assert!(is_summarisable(chosen(last, 23, 0), 86_400));
    assert!(!is_summarisable(chosen(last, 23, 0), 3_600));
}

#[test]
fn updates_are_counted_and_refusals_skipped() {
    let w = chosen(date(2024, 1, 1), 1, 0);
    let assignments = vec![
        assignment("a", 86_400, w),
        assignment("b", 0, w),
        assignment("c", 43_200, w),
    ];
    let outcomes = vec![
        UpdateOutcome::Updated,
        UpdateOutcome::Skipped {
            reason: "denied".to_owned(),
        },
        UpdateOutcome::Updated,
    ];
    let result = summarise_updates(vec![skip("x", "", "r")], &assignments, &outcomes);
    assert_eq!(result.schedules_updated, 2);
    assert_eq!(result.updates[0].schedule_id, "a");
    assert_eq!(result.updates[0].windows, vec![w]);
    assert_eq!(result.updates[1].schedule_id, "c");
    assert_eq!(
        result.updates[1].windows,
        vec![w, chosen(date(2024, 1, 1), 13, 0)]
    );
    assert_eq!(
        reasons(&result.skipped),
        vec![("x", "", "r"), ("ns", "b", "denied")]
    );
}

#[test]
fn updates_carry_the_assignment_and_the_zone() {
    let w = chosen(date(2024, 1, 1), 1, 0);
    let inputs = update_inputs(&vec![assignment("a", 3_600, w)], &"UTC".to_owned());
    assert_eq!(inputs.len(), 1);
    assert_eq!(inputs[0].namespace, "ns");
    assert_eq!(inputs[0].schedule_id, "a");
    assert_eq!(inputs[0].window, w);
    assert_eq!(inputs[0].timezone, "UTC");
    assert_eq!(inputs[0].interval_secs, 3_600);
}

// ---- runs ----

// 2024-07-01T19:00:00Z.
const NOW: i64 = 1_719_860_400;

fn start(timezone: &str) -> (SchedulerWorkflow, Action) {
    SchedulerWorkflow::new(
        SchedulerInput {
            query: "EnergyIntensive = true".to_owned(),
            timezone: timezone.to_owned(),
        },
        Some(Moment {
            secs: NOW,
            nanos: 5,
        }),
    )
    .unwrap()
}

#[test]
fn run_starts_with_the_local_clock() {
    let (run, action) = start("Europe/London");
    assert!(matches!(action, Action::List));
    assert!(matches!(run.stage, Stage::Listing));
    assert_eq!(
        run.clock,
        WorkflowClock {
            now_secs: NOW,
            // A part of the first second has passed.
            begun_secs: NOW + 1,
            now_day_secs: 20 * 3_600 + 1,
            today: date(2024, 7, 1),
            tomorrow: date(2024, 7, 2),
        }
    );
    let (run, _) = start("Asia/Tokyo");
    assert_eq!(run.clock.now_day_secs, 4 * 3_600 + 1);
    assert_eq!(run.clock.today, date(2024, 7, 2));
}

#[test]
fn run_needs_a_time_and_a_zone() {
    let input = |zone: &str| SchedulerInput {
        query: String::new(),
        timezone: zone.to_owned(),
    };
    assert_eq!(
        SchedulerWorkflow::new(input("UTC"), None).unwrap_err(),
        "no workflow time"
    );
    let now = Some(Moment { secs: 0, nanos: 0 });
    assert_eq!(
        SchedulerWorkflow::new(input("Utopia"), now).unwrap_err(),
        "invalid timezone \"Utopia\""
    );
}

#[test]
fn clock_counts_from_the_epoch_and_ends_with_the_calendar() {
    let before = Moment {
        secs: -10,
        nanos: 0,
    };
    let clock = set_clock(before, (719_162, 23, 59, 58)).unwrap();
    assert_eq!(clock.now_secs, 0);
    assert_eq!(clock.begun_secs, -10);
    assert_eq!(clock.now_day_secs, 86_398);
    assert_eq!(clock.today, date(1969, 12, 31));
    assert_eq!(clock.tomorrow, date(1970, 1, 1));
    assert!(set_clock(before, (LAST_DAY, 0, 0, 0)).is_none());
}

#[test]
fn run_goes_through_all_stages() {
    let (mut run, _) = start("Europe/London");
    let namespaces = vec!["b".to_owned(), "a".to_owned()];
    let event = Event::Listed { namespaces };
    assert!(run.awaits(&event));
    match run.run(event) {
        Action::Discover { inputs } => assert_eq!(inputs.len(), 2),
        other => panic!("unexpected action {other:?}"),
    }
    let event = Event::Discovered {
        outcomes: vec![
            found(vec![sched("b", "1")], vec![], 30),
            found(vec![sched("a", "1")], vec![skip("a", "2", "no")], 30),
        ],
    };
    assert!(run.awaits(&event));
    match run.run(event) {
        Action::Measure { input } => assert_eq!(input.schedules[0].namespace, "a"),
        other => panic!("unexpected action {other:?}"),
    }
    let durations = vec![ScheduleDuration {
        schedule_ref: ScheduleRef {
            namespace: "a".to_owned(),
            schedule_id: "1".to_owned(),
        },
        minutes: 60,
    }];
    match run.run(Event::Measured { durations }) {
        Action::Fetch { today, tomorrow } => {
            assert_eq!(today.date, date(2024, 7, 1));
            assert_eq!(tomorrow.date, date(2024, 7, 2));
            assert_eq!(tomorrow.timezone, "Europe/London");
        }
        other => panic!("unexpected action {other:?}"),
    }
    let event = Event::Fetched {
        today: vec![slot(date(2024, 7, 1), 20, 0), slot(date(2024, 7, 1), 20, 30)],
        tomorrow: Some(vec![slot(date(2024, 7, 2), 0, 0)]),
    };
    match run.run(event) {
        Action::Plan { input } => {
            assert_eq!(ids(&input.schedules), vec![("a", "1"), ("b", "1")]);
            assert_eq!(input.schedule_durations[0].minutes, 60);
            assert_eq!(
                input.priced_windows,
                vec![slot(date(2024, 7, 1), 20, 30), slot(date(2024, 7, 2), 0, 0)]
            );
            assert_eq!(input.timezone, "Europe/London");
            assert_eq!(input.now_secs, NOW);
            assert_eq!(input.slot_duration_mins, 30);
        }
        other => panic!("unexpected action {other:?}"),
    }
    let w = chosen(date(2024, 7, 2), 0, 0);
    let plan = PlanWindowsResult {
        assignments: vec![assignment("1", 86_400, w)],
        skipped: vec![skip("a", "1", "later")],
    };
    match run.run(Event::Planned { plan }) {
        Action::Update { inputs } => assert_eq!(inputs[0].window, w),
        other => panic!("unexpected action {other:?}"),
    }
    let short = Event::Updated { outcomes: vec![] };
    assert!(!run.awaits(&short));
    let event = Event::Updated {
        outcomes: vec![UpdateOutcome::Updated],
    };
    assert!(run.awaits(&event));
    match run.run(event) {
        Action::Finish { result } => {
            assert_eq!(result.schedules_updated, 1);
            assert_eq!(
                reasons(&result.skipped),
                vec![("a", "2", "no"), ("a", "1", "later")]
            );
        }
        other => panic!("unexpected action {other:?}"),
    }
    assert!(matches!(run.stage, Stage::Finished));
    assert!(!run.awaits(&Event::Listed { namespaces: vec![] }));
}

/// The pool that a run at `now` plans with.
fn planned_pool(timezone: &str, now: Moment, today: Vec<PricedWindow>) -> Vec<PricedWindow> {
    let input = SchedulerInput {
        query: String::new(),
        timezone: timezone.to_owned(),
    };
    let (mut run, _) = SchedulerWorkflow::new(input, Some(now)).unwrap();
    run.run(Event::Listed {
        namespaces: vec!["a".to_owned()],
    });
    run.run(Event::Discovered {
        outcomes: vec![found(vec![sched("a", "1")], vec![], 30)],
    });
    run.run(Event::Measured { durations: vec![] });
    match run.run(Event::Fetched {
        today,
        tomorrow: None,
    }) {
        Action::Plan { input } => input.priced_windows,
        other => panic!("unexpected action {other:?}"),
    }
}

#[test]
fn slot_within_the_lead_time_is_left_out_to_the_nanosecond() {
    let day = date(2024, 7, 1);
    // 2024-07-01T10:28:00Z.
    let at = |secs: i64, nanos: u32| Moment {
        secs: 1_719_829_680 + secs,
        nanos,
    };
    let pool_at = |now| {
        let slots = vec![slot(day, 10, 0), slot(day, 10, 30), slot(day, 11, 0)];
        planned_pool("UTC", now, slots)
    };
    let both = vec![slot(day, 10, 30), slot(day, 11, 0)];
    let later = vec![slot(day, 11, 0)];
    assert_eq!(pool_at(at(-1, 999_999_999)), both);
    assert_eq!(pool_at(at(0, 0)), both);
    assert_eq!(pool_at(at(0, 1)), later);
    assert_eq!(pool_at(at(30, 0)), later);
    assert_eq!(pool_at(at(1_800, 0)), later);
}

#[test]
fn lead_time_is_kept_where_the_clocks_go_forward() {
    // Clocks in London go from 01:00 to 02:00 on 31 March 2024, at 01:00 UTC. Half a minute before,
    // the slot at 02:00 is half a minute away.
    let day = date(2024, 3, 31);
    let now = Moment {
        secs: 1_711_846_770,
        nanos: 0,
    };
    let slots = vec![slot(day, 0, 30), slot(day, 2, 0), slot(day, 2, 30)];
    assert_eq!(planned_pool("Europe/London", now, slots), vec![slot(day, 2, 30)]);
}

#[test]
fn past_slots_are_left_out_where_the_clocks_go_back() {
    // The hour from 01:00 comes twice in London on 27 October 2024. At 01:10 for the second time,
    // the first 01:30, in which a schedule would fire, is past.
    let day = date(2024, 10, 27);
    let now = Moment {
        secs: 1_729_991_400,
        nanos: 0,
    };
    let slots = vec![slot(day, 1, 0), slot(day, 1, 30), slot(day, 2, 0)];
    assert_eq!(planned_pool("Europe/London", now, slots), vec![slot(day, 2, 0)]);
}

#[test]
fn run_without_schedules_finishes_after_discovery() {
    let (mut run, _) = start("UTC");
    run.run(Event::Listed {
        namespaces: vec!["a".to_owned()],
    });
    match run.run(Event::Discovered {
        outcomes: vec![Err("boom".to_owned())],
    }) {
        Action::Finish { result } => {
            assert_eq!(result.schedules_updated, 0);
            assert!(result.updates.is_empty());
            assert_eq!(
                reasons(&result.skipped),
                vec![("a", "", "discover_schedules failed: boom")]
            );
        }
        other => panic!("unexpected action {other:?}"),
    }
}

#[test]
fn run_without_prices_skips_every_schedule() {
    let (mut run, _) = start("UTC");
    run.run(Event::Listed {
        namespaces: vec!["a".to_owned()],
    });
    run.run(Event::Discovered {
        outcomes: vec![found(vec![sched("a", "1")], vec![skip("a", "2", "no")], 30)],
    });
    run.run(Event::Measured { durations: vec![] });
    match run.run(Event::Fetched {
        today: vec![slot(date(2024, 7, 1), 19, 0)],
        tomorrow: None,
    }) {
        Action::Finish { result } => {
            assert_eq!(result.schedules_updated, 0);
            assert_eq!(
                reasons(&result.skipped),
                vec![("a", "1", "no price slots available"), ("a", "2", "no")]
            );
        }
        other => panic!("unexpected action {other:?}"),
    }
}

#[test]
fn run_awaits_only_what_it_can_summarise() {
    let (mut run, _) = start("UTC");
    run.stage = Stage::Updating {
        skipped: vec![],
        assignments: vec![assignment("a", 0, chosen(date(2024, 1, 1), 0, 0))],
    };
    assert!(!run.awaits(&Event::Updated {
        outcomes: vec![UpdateOutcome::Updated]
    }));
    assert!(run.awaits(&Event::Updated {
        outcomes: vec![UpdateOutcome::Skipped {
            reason: String::new()
        }]
    }));
    assert!(!run.awaits(&Event::Measured { durations: vec![] }));
}
