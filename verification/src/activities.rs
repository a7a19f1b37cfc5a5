//! What the activities decide and compute. The calls to Temporal and to the price provider are
//! made around it.

use vstd::prelude::*;
use vstd::string::StringExecFns;

use crate::calendar::{date_text, knows_zone, write_date, zone_is_known};
use crate::planning::{
    circumstances, places_every_job, plan_assignments, plan_of, starts_read_back,
};
use crate::seqs::views;
use crate::sorting::{stable_sort, stable_sorted};
use crate::text::{
    decimal, decimal_text, is_same_text, join_three, quoted, quoted_text, text_is_less, text_less,
};
use crate::types::{
    provider_error_text, DiscoverSchedulesInput, DiscoverSchedulesResult,
    DiscoverSchedulesResultView, FetchWindowsInput, PlanWindowsInput, PlanWindowsResult,
    PricedWindow, ProviderError, ScheduleInfo, ScheduleInfoView, SkippedSchedule,
    SkippedScheduleView, TryFetchWindowsResult,
};

verus! {

/// The page size of namespace listings.
pub const NAMESPACE_PAGE_SIZE: i32 = 100;

/// How many recent runs of a schedule are measured.
pub const MEASURED_RUNS: usize = 20;

/// The activities, with what they read of the price provider.
#[derive(Debug, Clone, Copy)]
pub struct GridshiftActivities {
    /// The duration of each price slot in minutes.
    pub slot_duration_mins: u32,
}

/// The status of a failed call to Temporal, as far as the activities tell statuses apart.
#[derive(Debug, Clone, Copy, PartialEq, Eq, Structural)]
pub enum StatusCode {
    InvalidArgument,
    NotFound,
    PermissionDenied,
    Other,
}

/// A failed call: the status where the server answered with one, and the error's text.
#[derive(Debug, Clone)]
pub struct CallFailure {
    pub code: Option<StatusCode>,
    pub message: String,
}

// ---- namespaces ----

/// A listing of the managed namespaces, so far.
#[derive(Debug, Clone)]
pub struct NamespaceListing {
    pub namespaces: Vec<String>,
    /// The page to ask for next.
    pub next_page_token: Vec<u8>,
    /// No page is left.
    pub finished: bool,
}

/// The name of a namespace that has one.
pub open spec fn name_text(name: Option<String>) -> Option<Seq<char>> {
    match name {
        Some(name) => Some(name@),
        None => None,
    }
}

/// The names of the namespaces of a page.
pub open spec fn page_names(page: Seq<Option<String>>) -> Seq<Option<Seq<char>>> {
    Seq::new(page.len(), |i: int| name_text(page[i]))
}

/// A namespace whose schedules may be managed: one that has a name and is not Temporal's own.
pub open spec fn is_managed(name: Option<Seq<char>>) -> bool {
    match name {
        Some(name) => name.len() > 0 && name != "temporal-system"@,
        None => false,
    }
}

/// The managed namespaces of a page, in its order.
pub open spec fn managed_names(page: Seq<Option<Seq<char>>>) -> Seq<Seq<char>>
    decreases page.len(),
{
    if page.len() == 0 {
        Seq::empty()
    } else {
        let rest = managed_names(page.drop_last());
        match page.last() {
            Some(name) => if is_managed(page.last()) {
                rest.push(name)
            } else {
                rest
            },
            None => rest,
        }
    }
}

impl NamespaceListing {
    /// A listing that asks for the first page.
    pub fn new() -> (r: NamespaceListing)
        ensures
            r.namespaces@.len() == 0,
            r.next_page_token@.len() == 0,
            !r.finished,
    {
        NamespaceListing { namespaces: Vec::new(), next_page_token: Vec::new(), finished: false }
    }
}

impl GridshiftActivities {
    /// Takes the managed namespaces of one more page into a listing. The listing is finished with
    /// the page that names no next one.
    pub fn list_managed_namespaces(
        &self,
        listing: NamespaceListing,
        page: Vec<Option<String>>,
        next_page_token: Vec<u8>,
    ) -> (r: NamespaceListing)
        ensures
            views(r.namespaces@) == views(listing.namespaces@) + managed_names(page_names(page@)),
            r.next_page_token@ == next_page_token@,
            r.finished == (next_page_token@.len() == 0),
    {
        let ghost names = page_names(page@);
        let ghost before = views(listing.namespaces@);
        let mut namespaces = listing.namespaces;
        proof {
            assert(views(namespaces@) =~= before + managed_names(names.take(0)));
        }
        for i in 0..page.len()
            invariant
                names == page_names(page@),
                views(namespaces@) == before + managed_names(names.take(i as int)),
        {
            proof {
                assert(names.take(i + 1).drop_last() =~= names.take(i as int));
                assert(names.take(i + 1).last() == name_text(page@[i as int]));
            }
            match &page[i] {
                Some(name) => {
                    if !name.as_str().is_empty() && !is_same_text(name, "temporal-system") {
                        let ghost prior = namespaces@;
                        namespaces.push(name.clone());
                        proof {
                            assert(views(namespaces@) =~= views(prior).push(name@));
                            assert(views(namespaces@) =~= before + managed_names(
                                names.take(i + 1),
                            ));
                        }
                    }
                },
                None => {},
            }
        }
        proof {
            assert(names.take(page@.len() as int) =~= names);
        }
        let finished = next_page_token.len() == 0;
        NamespaceListing { namespaces, next_page_token, finished }
    }
}

// ---- discovery ----

/// What a description of a schedule says.
#[derive(Debug, Clone)]
pub struct ScheduleDescription {
    /// The times of the schedule's recent actions, in epoch seconds, where they are known.
    pub recent_action_secs: Vec<Option<i64>>,
    /// The times of the schedule's future actions, in epoch seconds.
    pub future_action_secs: Vec<i64>,
    /// The seconds of each of the schedule's intervals, where it has a duration.
    pub interval_secs: Vec<Option<i64>>,
}

/// What is known of a schedule that can be managed.
#[derive(Debug, Clone, Copy, PartialEq, Eq)]
pub struct IntervalProbe {
    pub interval_secs: u64,
    pub last_fire_secs: Option<i64>,
}

/// The outcome of probing one schedule: what is known of it, or why it is skipped.
#[derive(Debug)]
pub struct ScheduleProbe {
    pub schedule_id: String,
    pub outcome: Result<IntervalProbe, String>,
}

pub struct ScheduleProbeView {
    pub schedule_id: Seq<char>,
    pub outcome: Result<IntervalProbe, Seq<char>>,
}

impl View for ScheduleProbe {
    type V = ScheduleProbeView;

    open spec fn view(&self) -> ScheduleProbeView {
        ScheduleProbeView {
            schedule_id: self.schedule_id@,
            outcome: match self.outcome {
                Ok(probe) => Ok(probe),
                Err(reason) => Err(reason@),
            },
        }
    }
}

/// The namespace cannot be managed with this query, however often the listing is tried.
pub open spec fn is_permanent(code: Option<StatusCode>) -> bool {
    code matches Some(code) && code != StatusCode::Other
}

/// The latest of the first `k` recent actions that lie at or after the epoch.
pub open spec fn latest_action(recent: Seq<Option<i64>>, k: nat) -> Option<i64>
    decreases k,
{
    if k == 0 {
        None
    } else {
        let rest = latest_action(recent, (k - 1) as nat);
        match (recent[k - 1], rest) {
            (Some(secs), Some(best)) => if secs > best {
                Some(secs)
            } else {
                rest
            },
            (Some(secs), None) => if secs >= 0 {
                Some(secs)
            } else {
                None
            },
            (None, _) => rest,
        }
    }
}

/// The interval of a schedule that has one, with negative durations as 0.
pub open spec fn interval_of(intervals: Seq<Option<i64>>) -> u64 {
    match intervals[0] {
        Some(secs) => if secs > 0 {
            secs as u64
        } else {
            0
        },
        None => 0,
    }
}

/// The time one interval after which a schedule may fire again: its latest action or, where it has
/// none, one interval before the first action to come.
pub open spec fn last_fire_of(
    recent: Seq<Option<i64>>,
    future: Seq<i64>,
    interval_secs: u64,
) -> Option<i64> {
    match latest_action(recent, recent.len()) {
        Some(secs) => Some(secs),
        None => if future.len() > 0 && future[0] >= 0 {
            Some((future[0] - interval_secs) as i64)
        } else {
            None
        },
    }
}

/// What a description says of a schedule, or why the schedule cannot be managed.
pub open spec fn probe_of(
    recent: Seq<Option<i64>>,
    future: Seq<i64>,
    intervals: Seq<Option<i64>>,
) -> Result<IntervalProbe, Seq<char>> {
    if intervals.len() == 0 {
        Err("not an interval schedule"@)
    } else if interval_of(intervals) == 0 {
        Err("interval is zero"@)
    } else {
        Ok(
            IntervalProbe {
                interval_secs: interval_of(intervals),
                last_fire_secs: last_fire_of(recent, future, interval_of(intervals)),
            },
        )
    }
}

/// The schedules among the probed ones that can be managed, in their order.
pub open spec fn discovered(namespace: Seq<char>, probes: Seq<ScheduleProbeView>) -> Seq<
    ScheduleInfoView,
>
    decreases probes.len(),
{
    if probes.len() == 0 {
        Seq::empty()
    } else {
        let rest = discovered(namespace, probes.drop_last());
        match probes.last().outcome {
            Ok(probe) => rest.push(
                ScheduleInfoView {
                    namespace,
                    schedule_id: probes.last().schedule_id,
                    interval_secs: probe.interval_secs,
                    last_fire_secs: probe.last_fire_secs,
                },
            ),
            Err(_) => rest,
        }
    }
}

/// The probed schedules that cannot be managed, in their order, with the reasons.
pub open spec fn undiscovered(namespace: Seq<char>, probes: Seq<ScheduleProbeView>) -> Seq<
    SkippedScheduleView,
>
    decreases probes.len(),
{
    if probes.len() == 0 {
        Seq::empty()
    } else {
        let rest = undiscovered(namespace, probes.drop_last());
        match probes.last().outcome {
            Ok(_) => rest,
            Err(reason) => rest.push(
                SkippedScheduleView { namespace, schedule_id: probes.last().schedule_id, reason },
            ),
        }
    }
}

/// The order of schedules by their IDs.
pub open spec fn id_order() -> spec_fn(ScheduleInfoView, ScheduleInfoView) -> bool {
    |a: ScheduleInfoView, b: ScheduleInfoView| text_less(a.schedule_id, b.schedule_id)
}

/// Whether the namespace cannot be managed with this query, however often the listing is tried.
pub fn is_permanent_failure(code: Option<StatusCode>) -> (r: bool)
    ensures
        r == is_permanent(code),
{
    match code {
        Some(code) => code != StatusCode::Other,
        None => false,
    }
}

/// The latest of the recent actions that lie at or after the epoch.
pub fn latest_action_secs(recent: &Vec<Option<i64>>) -> (r: Option<i64>)
    ensures
        r == latest_action(recent@, recent@.len()),
        r matches Some(secs) ==> secs >= 0 && recent@.contains(Some(secs)),
        forall|i: int|
            0 <= i < recent@.len() ==> (#[trigger] recent@[i] matches Some(secs) ==> secs < 0 || (
            r matches Some(best) && secs <= best)),
{
    let mut best: Option<i64> = None;
    for i in 0..recent.len()
        invariant
            best == latest_action(recent@, i as nat),
            best matches Some(secs) ==> secs >= 0 && recent@.contains(Some(secs)),
            forall|k: int|
                0 <= k < i ==> (#[trigger] recent@[k] matches Some(secs) ==> secs < 0 || (
                best matches Some(found) && secs <= found)),
    {
        if let Some(secs) = recent[i] {
            match best {
                Some(found) => {
                    if secs > found {
                        best = Some(secs);
                    }
                },
                None => {
                    if secs >= 0 {
                        best = Some(secs);
                    }
                },
            }
        }
    }
    best
}

/// What a description says of a schedule, or why the schedule cannot be managed.
pub fn probe_schedule(description: Result<ScheduleDescription, String>) -> (r: Result<
    IntervalProbe,
    String,
>)
    ensures
        (match r {
            Ok(probe) => Ok::<IntervalProbe, Seq<char>>(probe),
            Err(reason) => Err(reason@),
        }) == (match description {
            Ok(d) => probe_of(
                d.recent_action_secs@,
                d.future_action_secs@,
                d.interval_secs@,
            ),
            Err(error) => Err("describe failed: "@ + error@),
        }),
{
    let d = match description {
        Ok(d) => d,
        Err(error) => {
            let mut reason = "describe failed: ".to_owned();
            reason.append(error.as_str());
            return Err(reason);
        },
    };
    if d.interval_secs.len() == 0 {
        return Err("not an interval schedule".to_owned());
    }
    let interval_secs: u64 = match d.interval_secs[0] {
        Some(secs) => if secs > 0 {
            secs as u64
        } else {
            0
        },
        None => 0,
    };
    if interval_secs == 0 {
        return Err("interval is zero".to_owned());
    }
    let last_fire_secs: Option<i64> = match latest_action_secs(&d.recent_action_secs) {
        Some(secs) => Some(secs),
        None => if d.future_action_secs.len() > 0 && d.future_action_secs[0] >= 0 {
            Some(d.future_action_secs[0] - interval_secs as i64)
        } else {
            None
        },
    };
    Ok(IntervalProbe { interval_secs, last_fire_secs })
}

impl GridshiftActivities {
    /// What discovery makes of a listing that failed: a namespace that cannot be managed is
    /// skipped, so that it does not block the others; any other failure is an error.
    pub fn listing_failed(
        &self,
        input: &DiscoverSchedulesInput,
        failure: &CallFailure,
    ) -> (r: Result<DiscoverSchedulesResult, String>)
        ensures
            is_permanent(failure.code) ==> (r matches Ok(found) && found@
                == (DiscoverSchedulesResultView {
                schedules: Seq::empty(),
                skipped: seq![
                    SkippedScheduleView {
                        namespace: input.namespace@,
                        schedule_id: Seq::empty(),
                        reason: "list_schedules: "@ + failure.message@,
                    },
                ],
                slot_duration_mins: self.slot_duration_mins,
            })),
            !is_permanent(failure.code) ==> (r matches Err(error) && error@ == "list_schedules "@
                + input.namespace@ + ": "@ + failure.message@),
    {
        if is_permanent_failure(failure.code) {
            let mut reason = "list_schedules: ".to_owned();
            reason.append(failure.message.as_str());
            let mut skipped: Vec<SkippedSchedule> = Vec::new();
            skipped.push(
                SkippedSchedule {
                    namespace: input.namespace.clone(),
                    schedule_id: String::new(),
                    reason,
                },
            );
            let schedules: Vec<ScheduleInfo> = Vec::new();
            proof {
                assert(views(schedules@) =~= Seq::<ScheduleInfoView>::empty());
                assert(views(skipped@) =~= seq![skipped@[0]@]);
            }
            Ok(
                DiscoverSchedulesResult {
                    schedules,
                    skipped,
                    slot_duration_mins: self.slot_duration_mins,
                },
            )
        } else {
            let mut error = join_three("list_schedules ", input.namespace.as_str(), ": ");
            error.append(failure.message.as_str());
            Err(error)
        }
    }

    /// Makes one result of the probed schedules of a namespace. The schedules are sorted by their
    /// IDs, so that planning does not depend on the order in which the probes came back.
    pub fn discover_schedules(
        &self,
        input: &DiscoverSchedulesInput,
        probes: Vec<ScheduleProbe>,
    ) -> (r: DiscoverSchedulesResult)
        ensures
            r@ == (DiscoverSchedulesResultView {
                schedules: stable_sorted(
                    discovered(input.namespace@, views(probes@)),
                    id_order(),
                ),
                skipped: undiscovered(input.namespace@, views(probes@)),
                slot_duration_mins: self.slot_duration_mins,
            }),
    {
        let ghost all = views(probes@);
        let ghost ns = input.namespace@;
        let mut schedules: Vec<ScheduleInfo> = Vec::new();
        let mut skipped: Vec<SkippedSchedule> = Vec::new();
        proof {
            assert(views(schedules@) =~= discovered(ns, all.take(0)));
            assert(views(skipped@) =~= undiscovered(ns, all.take(0)));
        }
        for i in 0..probes.len()
            invariant
                all == views(probes@),
                ns == input.namespace@,
                views(schedules@) == discovered(ns, all.take(i as int)),
                views(skipped@) == undiscovered(ns, all.take(i as int)),
        {
            let ghost prior_schedules = schedules@;
            let ghost prior_skipped = skipped@;
            proof {
                assert(all.take(i + 1).drop_last() =~= all.take(i as int));
                assert(all.take(i + 1).last() == probes@[i as int]@);
            }
            match &probes[i].outcome {
                Ok(probe) => {
                    schedules.push(
                        ScheduleInfo {
                            namespace: input.namespace.clone(),
                            schedule_id: probes[i].schedule_id.clone(),
                            interval_secs: probe.interval_secs,
                            last_fire_secs: probe.last_fire_secs,
                        },
                    );
                    proof {
                        assert(views(schedules@) =~= views(prior_schedules).push(
                            schedules@.last()@,
                        ));
                    }
                },
                Err(reason) => {
                    skipped.push(
                        SkippedSchedule {
                            namespace: input.namespace.clone(),
                            schedule_id: probes[i].schedule_id.clone(),
                            reason: reason.clone(),
                        },
                    );
                    proof {
                        assert(views(skipped@) =~= views(prior_skipped).push(skipped@.last()@));
                    }
                },
            }
        }
        proof {
            assert(all.take(probes@.len() as int) =~= all);
        }
        let less = |a: &ScheduleInfo, b: &ScheduleInfo| -> (r: bool)
            ensures
                r == text_less(a.schedule_id@, b.schedule_id@),
            { text_is_less(a.schedule_id.as_str(), b.schedule_id.as_str()) };
        let schedules = stable_sort(schedules, less, Ghost(id_order()));
        DiscoverSchedulesResult {
            schedules,
            skipped,
            slot_duration_mins: self.slot_duration_mins,
        }
    }
}

// ---- prices and planning ----

impl GridshiftActivities {
    /// The prices that a provider has fetched, or its error's text.
    pub fn fetch_priced_windows(
        &self,
        fetched: Result<Vec<PricedWindow>, ProviderError>,
    ) -> (r: Result<Vec<PricedWindow>, String>)
        requires
            fetched matches Err(ProviderError::NotYetPublished { date }) ==> date.in_calendar(),
        ensures
            match fetched {
                Ok(windows) => r == Ok::<Vec<PricedWindow>, String>(windows),
                Err(error) => r matches Err(text) && text@ == provider_error_text(error@),
            },
    {
        match fetched {
            Ok(windows) => Ok(windows),
            Err(error) => Err(error.message()),
        }
    }

    /// What a provider's answer makes of an attempt to fetch prices: that they are not published
    /// yet is an outcome with a message, any other failure an error.
    pub fn try_fetch_priced_windows(
        &self,
        input: &FetchWindowsInput,
        fetched: Result<Vec<PricedWindow>, ProviderError>,
    ) -> (r: Result<TryFetchWindowsResult, String>)
        requires
            input.date.in_calendar(),
        ensures
            match fetched {
                Ok(windows) => {
                    &&& r matches Ok(result)
                    &&& result.windows == Some(windows)
                    &&& result.message@ == "Fetched "@ + decimal_text(windows@.len())
                        + " slots for "@ + date_text(input.date.days)
                },
                Err(ProviderError::NotYetPublished { date: _ }) => {
                    &&& r matches Ok(result)
                    &&& result.windows is None
                    &&& result.message@ == "Prices not yet published for "@ + date_text(
                        input.date.days,
                    )
                },
                Err(ProviderError::Other { message }) => r matches Err(error) && error@ == message@,
            },
    {
        let date = write_date(input.date);
        match fetched {
            Ok(windows) => {
                let mut message = join_three(
                    "Fetched ",
                    decimal(windows.len() as u64).as_str(),
                    " slots for ",
                );
                message.append(date.as_str());
                Ok(TryFetchWindowsResult { windows: Some(windows), message })
            },
            Err(ProviderError::NotYetPublished { date: _ }) => {
                let mut message = "Prices not yet published for ".to_owned();
                message.append(date.as_str());
                Ok(TryFetchWindowsResult { windows: None, message })
            },
            Err(ProviderError::Other { message }) => Err(message),
        }
    }

    /// Assigns each schedule that can run within the prices at hand to a price slot. Schedules that
    /// share a slot fire together, so the window covers the longest of them. The others come back
    /// as skipped.
    pub fn plan_window_assignments(&self, input: PlanWindowsInput) -> (r: Result<
        PlanWindowsResult,
        String,
    >)
        requires
            input.slot_duration_mins > 0,
        ensures
            zone_is_known(input.timezone@) ==> ({
                let schedules = views(input.schedules@);
                let c = circumstances(
                    input.priced_windows@,
                    input.timezone@,
                    views(input.schedule_durations@),
                    input.now_secs,
                    input.slot_duration_mins,
                );
                &&& r matches Ok(plan)
                &&& plan@ == plan_of(schedules, input.priced_windows@, c)
                &&& places_every_job(plan@, schedules, input.priced_windows@, c)
                &&& starts_read_back(plan@, input.timezone@)
            }),
            !zone_is_known(input.timezone@) ==> (r matches Err(error) && error@
                == "invalid timezone: "@ + quoted_text(input.timezone@)),
    {
        if !knows_zone(input.timezone.as_str()) {
            let mut error = "invalid timezone: ".to_owned();
            error.append(quoted(input.timezone.as_str()).as_str());
            return Err(error);
        }
        Ok(
            plan_assignments(
                input.schedules,
                &input.schedule_durations,
                input.priced_windows,
                input.timezone.as_str(),
                input.now_secs,
                input.slot_duration_mins,
            ),
        )
    }
}

} // verus!
