use chrono::{Datelike, NaiveDate};

use temporal_gridshift::activities::{
    is_permanent_failure, latest_action_secs, probe_schedule, CallFailure, GridshiftActivities,
    IntervalProbe, NamespaceListing, ScheduleDescription, ScheduleProbe, StatusCode,
    NAMESPACE_PAGE_SIZE,
};
use temporal_gridshift::calendar::CivilDate;
use temporal_gridshift::planning::may_fire_at;
use temporal_gridshift::{
    DiscoverSchedulesInput, DiscoverSchedulesResult, FetchWindowsInput, PlanWindowsInput,
    Price, PricedWindow, ProviderError, ScheduleInfo,
};

fn activities() -> GridshiftActivities {
    GridshiftActivities {
        slot_duration_mins: 30,
    }
}

fn new_year() -> CivilDate {
    CivilDate {
        days: NaiveDate::from_ymd_opt(2024, 1, 1)
            .unwrap()
            .num_days_from_ce(),
    }
}

fn description(
    recent: Vec<Option<i64>>,
    future: Vec<i64>,
    intervals: Vec<Option<i64>>,
) -> ScheduleDescription {
    ScheduleDescription {
        recent_action_secs: recent,
        future_action_secs: future,
        interval_secs: intervals,
    }
}

fn input() -> DiscoverSchedulesInput {
    DiscoverSchedulesInput {
        namespace: "jobs".to_owned(),
        query: "EnergyIntensive = true".to_owned(),
    }
}

fn found(id: &str, interval_secs: u64) -> ScheduleProbe {
    ScheduleProbe {
        schedule_id: id.to_owned(),
        outcome: Ok(IntervalProbe {
            interval_secs,
            last_fire_secs: Some(interval_secs as i64),
        }),
    }
}

fn missed(id: &str, reason: &str) -> ScheduleProbe {
    ScheduleProbe {
        schedule_id: id.to_owned(),
        outcome: Err(reason.to_owned()),
    }
}

// ---- namespaces ----

#[test]
fn listing_goes_on_until_a_page_names_no_next_one() {
    assert_eq!(NAMESPACE_PAGE_SIZE, 100);
    let listing = NamespaceListing::new();
    assert!(!listing.finished && listing.next_page_token.is_empty());
    let listing = activities().list_managed_namespaces(
        listing,
        vec![
            Some("b".to_owned()),
            None,
            Some("temporal-system".to_owned()),
        ],
        vec![1, 2],
    );
    assert!(!listing.finished);
    assert_eq!(listing.next_page_token, vec![1, 2]);
    assert_eq!(listing.namespaces, vec!["b"]);
    let listing = activities().list_managed_namespaces(
        listing,
        vec![Some(String::new()), Some("a".to_owned())],
        vec![],
    );
    assert!(listing.finished);
    assert_eq!(listing.namespaces, vec!["b", "a"]);
}

// ---- failed listings ----

#[test]
fn permanent_failures_are_told_from_the_others() {
    assert!(is_permanent_failure(Some(StatusCode::InvalidArgument)));
    assert!(is_permanent_failure(Some(StatusCode::NotFound)));
    assert!(is_permanent_failure(Some(StatusCode::PermissionDenied)));
    assert!(!is_permanent_failure(Some(StatusCode::Other)));
    assert!(!is_permanent_failure(None));
}

#[test]
fn namespace_that_cannot_be_queried_is_skipped_with_a_reason() {
    let failure = CallFailure {
        code: Some(StatusCode::PermissionDenied),
        message: "no access".to_owned(),
    };
    let result = activities().listing_failed(&input(), &failure).unwrap();
    assert!(result.schedules.is_empty());
    assert_eq!(result.slot_duration_mins, 30);
    assert_eq!(result.skipped.len(), 1);
    assert_eq!(result.skipped[0].namespace, "jobs");
    assert_eq!(result.skipped[0].schedule_id, "");
    assert_eq!(result.skipped[0].reason, "list_schedules: no access");
}

#[test]
fn passing_failure_of_a_listing_is_an_error() {
    let failure = CallFailure {
        code: Some(StatusCode::Other),
        message: "try later".to_owned(),
    };
    assert_eq!(
        activities().listing_failed(&input(), &failure).unwrap_err(),
        "list_schedules jobs: try later"
    );
}

// ---- probing ----

#[test]
fn latest_action_ignores_missing_and_early_times() {
    assert_eq!(latest_action_secs(&vec![]), None);
    assert_eq!(latest_action_secs(&vec![None, Some(-1)]), None);
    assert_eq!(latest_action_secs(&vec![Some(0)]), Some(0));
    assert_eq!(
        latest_action_secs(&vec![Some(5), None, Some(9), Some(-7), Some(3)]),
        Some(9)
    );
}

#[test]
fn fired_schedule_is_probed_for_interval_and_last_firing() {
    let probe = probe_schedule(Ok(description(
        vec![Some(100), Some(200)],
        vec![90_000],
        vec![Some(86_400), Some(60)],
    )))
    .unwrap();
    assert_eq!(
        probe,
        IntervalProbe {
            interval_secs: 86_400,
            last_fire_secs: Some(200),
        }
    );
}

#[test]
fn new_schedule_may_first_fire_when_its_first_firing_is_due() {
    let probe = probe_schedule(Ok(description(
        vec![],
        vec![1_000_000, 2_000_000],
        vec![Some(604_800)],
    )))
    .unwrap();
    assert_eq!(probe.last_fire_secs, Some(395_200));
    assert!(!may_fire_at(999_999, probe.last_fire_secs, probe.interval_secs));
    assert!(may_fire_at(1_000_000, probe.last_fire_secs, probe.interval_secs));
}

#[test]
fn schedule_without_any_firing_has_no_last_one() {
    let probe = probe_schedule(Ok(description(vec![], vec![], vec![Some(60)]))).unwrap();
    assert_eq!(probe.last_fire_secs, None);
    let probe = probe_schedule(Ok(description(vec![], vec![-5], vec![Some(60)]))).unwrap();
    assert_eq!(probe.last_fire_secs, None);
}

#[test]
fn schedules_that_cannot_be_managed_have_reasons() {
    let reason = |d| probe_schedule(d).unwrap_err();
    assert_eq!(
        reason(Ok(description(vec![], vec![], vec![]))),
        "not an interval schedule"
    );
    assert_eq!(
        reason(Ok(description(vec![], vec![], vec![None]))),
        "interval is zero"
    );
    assert_eq!(
        reason(Ok(description(vec![], vec![], vec![Some(0)]))),
        "interval is zero"
    );
    assert_eq!(
        reason(Ok(description(vec![], vec![], vec![Some(-60)]))),
        "interval is zero"
    );
    assert_eq!(reason(Err("gone".to_owned())), "describe failed: gone");
}

// ---- discovery ----

fn ids(result: &DiscoverSchedulesResult) -> Vec<(&str, u64)> {
    result
        .schedules
        .iter()
        .map(|s| (s.schedule_id.as_str(), s.interval_secs))
        .collect()
}

#[test]
fn discovered_schedules_are_sorted_whatever_order_probes_come_in() {
    let first = activities().discover_schedules(
        &input(),
        vec![found("b", 2), missed("x", "why"), found("a", 1), found("é", 3)],
    );
    let second = activities().discover_schedules(
        &input(),
        vec![found("é", 3), found("a", 1), found("b", 2), missed("x", "why")],
    );
    assert_eq!(ids(&first), vec![("a", 1), ("b", 2), ("é", 3)]);
    assert_eq!(ids(&first), ids(&second));
    assert_eq!(first.schedules[0].namespace, "jobs");
    assert_eq!(first.schedules[0].last_fire_secs, Some(1));
    assert_eq!(first.slot_duration_mins, 30);
    assert_eq!(first.skipped.len(), 1);
    assert_eq!(first.skipped[0].namespace, "jobs");
    assert_eq!(first.skipped[0].schedule_id, "x");
    assert_eq!(first.skipped[0].reason, "why");
}

#[test]
fn schedules_of_the_same_id_stay_in_their_order() {
    let result = activities().discover_schedules(
        &input(),
        vec![found("b", 9), found("a", 2), found("a", 1), found("ab", 4), found("", 5)],
    );
    assert_eq!(
        ids(&result),
        vec![("", 5), ("a", 2), ("a", 1), ("ab", 4), ("b", 9)]
    );
}

#[test]
fn discovery_of_nothing_is_empty() {
    let result = DiscoverSchedulesResult::default();
    assert!(result.schedules.is_empty() && result.skipped.is_empty());
    assert_eq!(result.slot_duration_mins, 0);
    assert!(activities()
        .discover_schedules(&input(), vec![])
        .schedules
        .is_empty());
}

// ---- prices ----

fn fetch_input() -> FetchWindowsInput {
    FetchWindowsInput {
        date: new_year(),
        timezone: "Europe/London".to_owned(),
    }
}

fn slot(hour: u32, minute: u32, pence: i32) -> PricedWindow {
    PricedWindow {
        date: new_year(),
        hour,
        minute,
        price_p_per_kwh: Price {
            pence,
            billionths: 0,
        },
    }
}

#[test]
fn fetched_prices_come_with_a_message() {
    let windows = vec![slot(0, 0, 1); 48];
    let result = activities()
        .try_fetch_priced_windows(&fetch_input(), Ok(windows))
        .unwrap();
    assert_eq!(result.message, "Fetched 48 slots for 2024-01-01");
    assert_eq!(result.windows.unwrap().len(), 48);
}

#[test]
fn unpublished_prices_are_no_error_when_tried() {
    let missing = || ProviderError::NotYetPublished { date: new_year() };
    let result = activities()
        .try_fetch_priced_windows(&fetch_input(), Err(missing()))
        .unwrap();
    assert_eq!(result.message, "Prices not yet published for 2024-01-01");
    assert!(result.windows.is_none());
    assert_eq!(
        activities().fetch_priced_windows(Err(missing())).unwrap_err(),
        "prices not yet published for 2024-01-01"
    );
}

#[test]
fn other_provider_errors_keep_their_text() {
    let failed = || ProviderError::Other {
        message: "no route".to_owned(),
    };
    assert_eq!(
        activities()
            .try_fetch_priced_windows(&fetch_input(), Err(failed()))
            .unwrap_err(),
        "no route"
    );
    assert_eq!(
        activities().fetch_priced_windows(Err(failed())).unwrap_err(),
        "no route"
    );
    assert_eq!(
        activities()
            .fetch_priced_windows(Ok(vec![slot(1, 0, 7)]))
            .unwrap(),
        vec![slot(1, 0, 7)]
    );
}

// ---- planning ----

fn plan_input(timezone: &str) -> PlanWindowsInput {
    PlanWindowsInput {
        schedules: vec![ScheduleInfo {
            namespace: "jobs".to_owned(),
            schedule_id: "a".to_owned(),
            interval_secs: 86_400,
            last_fire_secs: None,
        }],
        schedule_durations: vec![],
        priced_windows: vec![slot(0, 0, 9), slot(0, 30, 4), slot(1, 0, 5)],
        timezone: timezone.to_owned(),
        now_secs: 0,
        slot_duration_mins: 30,
    }
}

#[test]
fn plan_takes_the_cheapest_slot() {
    let plan = activities()
        .plan_window_assignments(plan_input("Europe/London"))
        .unwrap();
    assert!(plan.skipped.is_empty());
    assert_eq!(plan.assignments.len(), 1);
    let a = &plan.assignments[0];
    assert_eq!(a.schedule_ref.schedule_id, "a");
    assert_eq!(a.interval_secs, 86_400);
    assert_eq!((a.window.hour, a.window.minute), (0, 30));
    assert_eq!(a.window.date, new_year());
}

#[test]
fn plan_needs_a_known_timezone() {
    assert_eq!(
        activities()
            .plan_window_assignments(plan_input("Nowhere \"x\""))
            .unwrap_err(),
        "invalid timezone: \"Nowhere \\\"x\\\"\""
    );
}
