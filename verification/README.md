# Temporal Gridshift

Gridshift takes [Temporal](https://temporal.io) schedules that fire at intervals and moves their
phases to the cheapest electricity slots of a price provider. The supported provider is the Agile
tariff of Octopus Energy.

This is a [Verus](https://github.com/verus-lang/verus) project: what Gridshift decides and computes
is a library whose contracts are proved.

## How it works

1. A run lists every namespace of the cluster but `temporal-system`, and searches each for schedules
   with a visibility query. A namespace where that fails is skipped, with a reason.
2. It measures how long the schedules' completed runs took, and fetches the prices of today and
   tomorrow. Slots that start within two minutes are left out.
3. It assigns each schedule to a slot. Schedules in the same slot run together, and their window is
   paid for once, for as long as the longest of them runs. The price of all windows is the objective
   of a 0/1 program, which is handed to a solver. It is proved that values which meet the program's
   rows place every schedule that fits, and that a minimum is a cheapest plan. That the solver finds
   a minimum is not proved: it searches in floating point, and its authors do not promise it.
4. It moves the phase of each assigned schedule so that it fires in its slot. Nothing else of the
   schedule changes.

A slot less than one interval after a schedule's last run is never chosen. A schedule that has never
run may first fire when its first firing to come is due. A schedule without such a slot among the
known prices is left as it is, with a reason like `next run in 5days, outside the price horizon`.

## Layout

- `src/`: the verified library.
  - `workflow.rs`: a run as a state machine, from one activity to the next.
  - `activities.rs`, `durations.rs`, `update.rs`: what the activities make of the servers' answers.
  - `planning.rs`, `ilp.rs`, `placement.rs`, `solver.rs`: the plan, the program behind it, what the
    program means, and how it is solved.
  - `providers/`: price providers.
  - `planning_laws.rs`, `discovery_laws.rs`, `workflow_laws.rs`: what holds of every plan, discovery
    and run.
- `app/`: the programs around the library, with the calls to Temporal and to the provider.
- `tests/`: tests of the library.

Prices are whole pence and billionths of a penny in the library, which has no floating point. Dates
are day counts, and instants are epoch seconds.

What is trusted about other crates stands in the doc comments of the functions that call them:
timezones and calendar text in `calendar.rs`, quoted text and durations in `text.rs`, the solver in
`solver.rs`.

## Running

`temporal-gridshift worker` runs the workflow and its activities; `temporal-gridshift starter`
creates the schedule that triggers the workflow each day.

| Variable | Default | Description |
|---|---|---|
| `GRIDSHIFT_PROVIDER` | required | Price provider (`octopus`) |
| `OCTOPUS_API_KEY` | required | Octopus Energy API key |
| `GRIDSHIFT_QUERY` | required | Visibility query for managed schedules |
| `GRIDSHIFT_TIMEZONE` | system timezone | IANA timezone name |
| `GRIDSHIFT_TASK_QUEUE` | `gridshift` | Temporal task queue |
| `GRIDSHIFT_SCHEDULE_ID` | `gridshift` | ID of the daily schedule |
| `GRIDSHIFT_WORKFLOW_ID` | task queue | Prefix of the daily workflows' IDs |
| `GRIDSHIFT_SCHEDULE_HOUR` | `20` | Hour of the daily run, with half an hour of jitter |

The connection to Temporal is configured by its standard variables, such as `TEMPORAL_ADDRESS` and
`TEMPORAL_NAMESPACE`.
