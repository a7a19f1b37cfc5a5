use temporal_gridshift::activities::GridshiftActivities;
use temporal_gridshift::calendar::Moment;
use temporal_gridshift::durations::{
    collect_samples, completed_runs_query, minutes_of_samples, namespaces_of, seconds_of_run,
    ObservedRun, ScheduleRuns,
};
use temporal_gridshift::ScheduleRef;

fn run(from: (i64, u32), to: (i64, u32)) -> ObservedRun {
    let moment = |(secs, nanos)| Some(Moment { secs, nanos });
    ObservedRun {
        start: moment(from),
        end: moment(to),
    }
}

fn sref(namespace: &str, schedule_id: &str) -> ScheduleRef {
    ScheduleRef {
        namespace: namespace.to_owned(),
        schedule_id: schedule_id.to_owned(),
    }
}

#[test]
fn query_asks_for_completed_runs() {
    assert_eq!(
        completed_runs_query("nightly"),
        "TemporalScheduledById = \"nightly\" AND ExecutionStatus = \"Completed\""
    );
}

#[test]
fn namespaces_are_listed_once() {
    let refs = vec![sref("b", "1"), sref("a", "1"), sref("b", "2"), sref("a", "3")];
    assert_eq!(namespaces_of(&refs), vec!["b", "a"]);
    assert!(namespaces_of(&vec![]).is_empty());
}

#[test]
fn run_seconds_are_whole_and_need_both_ends() {
    assert_eq!(seconds_of_run(run((10, 0), (75, 0))), Some(65));
    assert_eq!(seconds_of_run(run((10, 600_000_000), (12, 500_000_000))), Some(1));
    assert_eq!(seconds_of_run(run((10, 0), (10, 999_999_999))), Some(0));
    assert_eq!(seconds_of_run(run((10, 1), (10, 0))), None);
    assert_eq!(
        seconds_of_run(run((i64::MIN, 0), (i64::MAX, 999_999_999))),
        Some(u64::MAX)
    );
    let open = ObservedRun {
        start: Some(Moment { secs: 0, nanos: 0 }),
        end: None,
    };
    assert_eq!(seconds_of_run(open), None);
    assert_eq!(
        collect_samples(&vec![run((0, 0), (5, 0)), open, run((5, 0), (0, 0)), run((1, 0), (3, 0))]),
        vec![5, 2]
    );
}

#[test]
fn twenty_runs_are_measured_by_their_nineteenth() {
    // Minutes 1 to 20, out of order.
    let samples: Vec<u64> = (1..=20u64).map(|i| (i * 7 % 20 + 1) * 60).collect();
    assert_eq!(minutes_of_samples(samples, 1), Some(19));
}

#[test]
fn few_runs_are_measured_by_the_longest() {
    let samples: Vec<u64> = vec![60, 1_200, 600];
    assert_eq!(minutes_of_samples(samples, 1), Some(20));
    assert_eq!(minutes_of_samples(vec![61], 1), Some(2));
}

#[test]
fn minutes_are_rounded_up_to_slots() {
    assert_eq!(minutes_of_samples(vec![], 30), Some(30));
    assert_eq!(minutes_of_samples(vec![0], 30), Some(30));
    assert_eq!(minutes_of_samples(vec![1_800], 30), Some(30));
    assert_eq!(minutes_of_samples(vec![1_801], 30), Some(60));
    assert_eq!(minutes_of_samples(vec![14_400], 30), Some(240));
}

#[test]
fn minutes_beyond_bounds_are_none() {
    assert_eq!(
        minutes_of_samples(vec![u32::MAX as u64 * 60], 1),
        Some(u32::MAX)
    );
    assert_eq!(minutes_of_samples(vec![u32::MAX as u64 * 60 + 1], 1), None);
    assert_eq!(minutes_of_samples(vec![u64::MAX], 30), None);
}

#[test]
fn schedules_are_measured_or_take_one_slot() {
    let activities = GridshiftActivities {
        slot_duration_mins: 30,
    };
    let entry = |id: &str, runs| ScheduleRuns {
        schedule_ref: sref("jobs", id),
        runs,
    };
    let took = |secs| Some(vec![run((0, 0), (secs, 0))]);
    let measured = activities
        .measure_schedule_durations(&vec![
            entry("a", took(2_000)),
            entry("b", None),
            entry("c", Some(vec![])),
            entry("a", took(60)),
        ])
        .unwrap();
    let pairs: Vec<(&str, u32)> = measured
        .iter()
        .map(|d| (d.schedule_ref.schedule_id.as_str(), d.minutes))
        .collect();
    assert_eq!(pairs, vec![("a", 60), ("b", 30), ("c", 30), ("a", 30)]);
    assert!(measured.iter().all(|d| d.schedule_ref.namespace == "jobs"));
    assert!(activities.measure_schedule_durations(&vec![]).unwrap().is_empty());
    assert!(activities
        .measure_schedule_durations(&vec![entry("b", None), entry("c", took(i64::MAX))])
        .is_none());
}
