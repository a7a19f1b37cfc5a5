//! What holds of every discovery.

use vstd::prelude::*;

use crate::activities::{
    discovered, id_order, interval_of, is_managed, is_permanent, latest_action, managed_names,
    page_names, probe_of, undiscovered, IntervalProbe, ScheduleProbe, ScheduleProbeView, StatusCode,
};
use crate::planning::{is_eligible, refs_of};
use crate::planning_laws::skipped_refs;
use crate::seqs::views;
use crate::sorting::{
    is_ranking, is_sorted, law_sorting_ignores_given_order, law_sorting_is_stable,
    law_sorting_permutes, law_sorting_sorts, same_rank, stable_sorted,
};
use crate::text::{law_text_order, text_less};
use crate::types::{ScheduleInfoView, ScheduleRefView};

verus! {

// ---- namespaces ----

/// Temporal's own namespace is never managed, nor one without a name.
pub proof fn law_own_namespace_is_never_managed(page: Seq<Option<Seq<char>>>, i: int)
    requires
        0 <= i < managed_names(page).len(),
    ensures
        managed_names(page)[i] != "temporal-system"@,
        managed_names(page)[i].len() > 0,
        page.contains(Some(managed_names(page)[i])),
    decreases page.len(),
{
    let rest = managed_names(page.drop_last());
    let name = managed_names(page)[i];
    if i < rest.len() {
        law_own_namespace_is_never_managed(page.drop_last(), i);
        let k = choose|k: int|
            0 <= k < page.drop_last().len() && page.drop_last()[k] == Some(name);
        assert(page[k] == Some(name));
    } else {
        assert(page[page.len() - 1] == Some(name));
    }
}

/// Every other namespace of a page is managed.
pub proof fn law_every_other_namespace_is_managed(page: Seq<Option<Seq<char>>>, i: int)
    requires
        0 <= i < page.len(),
        is_managed(page[i]),
    ensures
        managed_names(page).contains(page[i]->Some_0),
    decreases page.len(),
{
    let rest = managed_names(page.drop_last());
    let all = managed_names(page);
    let name = page[i]->Some_0;
    if i < page.len() - 1 {
        law_every_other_namespace_is_managed(page.drop_last(), i);
        let k = choose|k: int| 0 <= k < rest.len() && rest[k] == name;
        assert(all[k] == name);
    } else {
        assert(all[all.len() - 1] == name);
    }
}

// ---- probing ----

/// A schedule that has fired may fire again one interval after its latest firing, and no sooner.
pub proof fn law_fired_schedule_waits_an_interval(
    recent: Seq<Option<i64>>,
    future: Seq<i64>,
    intervals: Seq<Option<i64>>,
    start: i64,
)
    requires
        probe_of(recent, future, intervals) is Ok,
        latest_action(recent, recent.len()) is Some,
    ensures
        ({
            let probe = probe_of(recent, future, intervals)->Ok_0;
            is_eligible(start, probe.last_fire_secs, probe.interval_secs) <==> start
                >= latest_action(recent, recent.len())->Some_0 + interval_of(intervals)
        }),
{
}

/// A schedule that has never fired may first fire when its first firing to come is due, and no
/// sooner: a new schedule with a long interval is not pulled forward.
pub proof fn law_new_schedule_waits_for_its_first_firing(
    recent: Seq<Option<i64>>,
    future: Seq<i64>,
    intervals: Seq<Option<i64>>,
    start: i64,
)
    requires
        probe_of(recent, future, intervals) is Ok,
        latest_action(recent, recent.len()) is None,
        future.len() > 0,
        future[0] >= 0,
    ensures
        ({
            let probe = probe_of(recent, future, intervals)->Ok_0;
            is_eligible(start, probe.last_fire_secs, probe.interval_secs) <==> start >= future[0]
        }),
{
}

/// A schedule that can be managed has an interval.
pub proof fn law_managed_schedule_has_an_interval(
    recent: Seq<Option<i64>>,
    future: Seq<i64>,
    intervals: Seq<Option<i64>>,
)
    ensures
        probe_of(recent, future, intervals) matches Ok(probe) ==> 0 < probe.interval_secs
            <= i64::MAX,
{
}

// ---- the order of probes ----

/// Schedules are ordered by ID: the order is by a key.
pub proof fn law_id_order_is_a_ranking()
    ensures
        is_ranking(id_order()),
{
    let order = id_order();
    assert forall|a: ScheduleInfoView, b: ScheduleInfoView| #[trigger] order(a, b) implies !order(
        b,
        a,
    ) by {
        law_text_order(a.schedule_id, b.schedule_id, a.schedule_id);
    }
    assert forall|a: ScheduleInfoView, b: ScheduleInfoView, c: ScheduleInfoView|
        #![trigger order(a, b), order(c, b)]
        #![trigger order(a, b), order(a, c)]
        order(a, b) implies order(a, c) || order(c, b) by {
        law_text_order(a.schedule_id, b.schedule_id, c.schedule_id);
    }
}

/// The schedules of a namespace come sorted by their IDs.
pub proof fn law_discovered_schedules_are_sorted(
    namespace: Seq<char>,
    probes: Seq<ScheduleProbeView>,
)
    ensures
        is_sorted(stable_sorted(discovered(namespace, probes), id_order()), id_order()),
{
    law_id_order_is_a_ranking();
    law_sorting_sorts(discovered(namespace, probes), id_order());
}

proof fn lemma_discovered_concat(
    namespace: Seq<char>,
    a: Seq<ScheduleProbeView>,
    b: Seq<ScheduleProbeView>,
)
    ensures
        discovered(namespace, a + b) == discovered(namespace, a) + discovered(namespace, b),
    decreases b.len(),
{
    if b.len() == 0 {
        assert(a + b =~= a);
        assert(discovered(namespace, a) + discovered(namespace, b) =~= discovered(namespace, a));
    } else {
        assert((a + b).drop_last() =~= a + b.drop_last());
        lemma_discovered_concat(namespace, a, b.drop_last());
        assert(discovered(namespace, a + b) =~= discovered(namespace, a) + discovered(
            namespace,
            b,
        ));
    }
}

proof fn lemma_discovered_permutes(
    namespace: Seq<char>,
    a: Seq<ScheduleProbeView>,
    b: Seq<ScheduleProbeView>,
)
    requires
        a.to_multiset() == b.to_multiset(),
    ensures
        discovered(namespace, a).to_multiset() == discovered(namespace, b).to_multiset(),
    decreases a.len(),
{
    broadcast use {vstd::multiset::group_multiset_axioms, vstd::seq_lib::group_to_multiset_ensures};

    assert(a.len() == a.to_multiset().len());
    assert(b.len() == b.to_multiset().len());
    if a.len() == 0 {
        assert(a =~= b);
    } else {
        let x = a.last();
        assert(a.contains(x));
        assert(b.to_multiset().count(x) > 0);
        let k = choose|k: int| 0 <= k < b.len() && b[k] == x;
        let low = b.subrange(0, k);
        let high = b.subrange(k + 1, b.len() as int);
        let ra = a.drop_last();
        let rb = b.remove(k);
        assert(rb =~= low + high);
        assert(b =~= low + seq![x] + high);
        assert(a =~= ra.push(x));
        assert(a =~= ra + seq![x]);
        assert(rb.to_multiset() =~= b.to_multiset().remove(x));
        assert(ra.to_multiset() =~= a.to_multiset().remove(x));
        lemma_discovered_permutes(namespace, ra, rb);
        lemma_discovered_concat(namespace, low, high);
        lemma_discovered_concat(namespace, low + seq![x], high);
        lemma_discovered_concat(namespace, low, seq![x]);
        lemma_discovered_concat(namespace, ra, seq![x]);
        let dl = discovered(namespace, low);
        let dh = discovered(namespace, high);
        let dx = discovered(namespace, seq![x]);
        vstd::seq_lib::lemma_multiset_commutative(dl, dh);
        vstd::seq_lib::lemma_multiset_commutative(dl + dx, dh);
        vstd::seq_lib::lemma_multiset_commutative(dl, dx);
        vstd::seq_lib::lemma_multiset_commutative(discovered(namespace, ra), dx);
        assert(discovered(namespace, a).to_multiset() =~= discovered(namespace, b).to_multiset());
    }
}

proof fn lemma_discovered_has_probe(
    namespace: Seq<char>,
    probes: Seq<ScheduleProbeView>,
    i: int,
) -> (k: int)
    requires
        0 <= i < discovered(namespace, probes).len(),
    ensures
        0 <= k < probes.len(),
        probes[k].outcome is Ok,
        discovered(namespace, probes)[i] == (ScheduleInfoView {
            namespace,
            schedule_id: probes[k].schedule_id,
            interval_secs: probes[k].outcome->Ok_0.interval_secs,
            last_fire_secs: probes[k].outcome->Ok_0.last_fire_secs,
        }),
    decreases probes.len(),
{
    let rest = discovered(namespace, probes.drop_last());
    if i < rest.len() {
        let k = lemma_discovered_has_probe(namespace, probes.drop_last(), i);
        assert(probes.drop_last()[k] == probes[k]);
        k
    } else {
        probes.len() - 1
    }
}

/// Discovery does not depend on the order in which the probes came back, as long as each schedule
/// was probed once.
pub proof fn law_probe_order_does_not_matter(
    namespace: Seq<char>,
    a: Seq<ScheduleProbeView>,
    b: Seq<ScheduleProbeView>,
)
    requires
        a.to_multiset() == b.to_multiset(),
        forall|i: int, j: int|
            0 <= i < a.len() && 0 <= j < a.len() && (#[trigger] a[i]).schedule_id == (
            #[trigger] a[j]).schedule_id ==> a[i] == a[j],
    ensures
        stable_sorted(discovered(namespace, a), id_order()) == stable_sorted(
            discovered(namespace, b),
            id_order(),
        ),
{
    let order = id_order();
    let da = discovered(namespace, a);
    let db = discovered(namespace, b);
    law_id_order_is_a_ranking();
    lemma_discovered_permutes(namespace, a, b);
    assert forall|i: int, j: int|
        0 <= i < da.len() && 0 <= j < da.len() && #[trigger] da[i] != #[trigger] da[j] implies order(
        da[i],
        da[j],
    ) || order(da[j], da[i]) by {
        let p = lemma_discovered_has_probe(namespace, a, i);
        let q = lemma_discovered_has_probe(namespace, a, j);
        assert(a[p] != a[q]);
        law_text_order(da[i].schedule_id, da[j].schedule_id, da[i].schedule_id);
    }
    law_sorting_ignores_given_order(da, db, order);
}

// ---- accounting ----

/// The identities of probed schedules.
pub open spec fn probed_refs(namespace: Seq<char>, probes: Seq<ScheduleProbeView>) -> Seq<
    ScheduleRefView,
> {
    Seq::new(
        probes.len(),
        |i: int| ScheduleRefView { namespace, schedule_id: probes[i].schedule_id },
    )
}

/// Every probed schedule is discovered or skipped, exactly once.
pub proof fn law_every_probe_is_accounted_for(namespace: Seq<char>, probes: Seq<ScheduleProbeView>)
    ensures
        refs_of(discovered(namespace, probes)).to_multiset().add(
            skipped_refs(undiscovered(namespace, probes)).to_multiset(),
        ) == probed_refs(namespace, probes).to_multiset(),
    decreases probes.len(),
{
    broadcast use {vstd::multiset::group_multiset_axioms, vstd::seq_lib::group_to_multiset_ensures};

    let found = discovered(namespace, probes);
    let skipped = undiscovered(namespace, probes);
    if probes.len() == 0 {
        assert(refs_of(found) =~= Seq::<ScheduleRefView>::empty());
        assert(skipped_refs(skipped) =~= Seq::<ScheduleRefView>::empty());
        assert(probed_refs(namespace, probes) =~= Seq::<ScheduleRefView>::empty());
    } else {
        let rest = probes.drop_last();
        let id = ScheduleRefView { namespace, schedule_id: probes.last().schedule_id };
        law_every_probe_is_accounted_for(namespace, rest);
        assert(probed_refs(namespace, probes) =~= probed_refs(namespace, rest).push(id));
        match probes.last().outcome {
            Ok(_) => {
                assert(refs_of(found) =~= refs_of(discovered(namespace, rest)).push(
                    id,
                ));
            },
            Err(_) => {
                assert(skipped_refs(skipped) =~= skipped_refs(
                    undiscovered(namespace, rest),
                ).push(id));
            },
        }
    }
    assert(refs_of(found).to_multiset().add(skipped_refs(skipped).to_multiset())
        =~= probed_refs(namespace, probes).to_multiset());
}

// ---- what is read of a page, a description and a list of probes ----

/// The managed namespaces of two pages, one after the other, are those of the first and those of the
/// second; of a single namespace, they are its name, unless that is missing, empty or Temporal's
/// own.
pub proof fn law_pages_are_read_to_the_end(
    a: Seq<Option<Seq<char>>>,
    b: Seq<Option<Seq<char>>>,
    name: Seq<char>,
)
    ensures
        managed_names(a + b) == managed_names(a) + managed_names(b),
        managed_names(Seq::empty()) == Seq::<Seq<char>>::empty(),
        managed_names(seq![None]) == Seq::<Seq<char>>::empty(),
        managed_names(seq![Some(name)]) == (if name.len() > 0 && name != "temporal-system"@ {
            seq![name]
        } else {
            Seq::empty()
        }),
    decreases b.len(),
{
    let none: Seq<Option<Seq<char>>> = seq![None];
    let one = seq![Some(name)];
    let nothing = Seq::<Option<Seq<char>>>::empty();
    assert(managed_names(nothing) =~= Seq::<Seq<char>>::empty());
    assert(none.drop_last() =~= nothing);
    assert(one.drop_last() =~= nothing);
    assert(managed_names(none) =~= Seq::<Seq<char>>::empty());
    assert(managed_names(one) =~= (if name.len() > 0 && name != "temporal-system"@ {
        seq![name]
    } else {
        Seq::empty()
    }));
    if b.len() == 0 {
        assert(a + b =~= a);
        assert(managed_names(a) + managed_names(b) =~= managed_names(a));
    } else {
        assert((a + b).drop_last() =~= a + b.drop_last());
        assert((a + b).last() == b.last());
        law_pages_are_read_to_the_end(a, b.drop_last(), name);
        assert(managed_names(a + b) =~= managed_names(a) + managed_names(b));
    }
}

/// Every entry of a page is read, by its name.
pub proof fn law_every_entry_of_a_page_is_read(page: Seq<Option<String>>, i: int)
    requires
        0 <= i < page.len(),
    ensures
        page_names(page).len() == page.len(),
        page_names(page)[i] == (match page[i] {
            Some(name) => Some(name@),
            None => None,
        }),
{
}

/// A namespace cannot be managed where the query is invalid there, or the namespace is not found or
/// may not be read; every other failure may pass.
pub proof fn law_three_failures_are_permanent(code: StatusCode)
    ensures
        is_permanent(Some(code)) <==> code == StatusCode::InvalidArgument || code
            == StatusCode::NotFound || code == StatusCode::PermissionDenied,
        !is_permanent(None),
{
}

/// A schedule can be managed exactly where its first interval is of a positive number of seconds,
/// and its interval is then that number, whatever it is.
pub proof fn law_interval_is_that_of_the_schedule(
    recent: Seq<Option<i64>>,
    future: Seq<i64>,
    intervals: Seq<Option<i64>>,
)
    ensures
        probe_of(recent, future, intervals) is Ok <==> intervals.len() > 0 && (
        intervals[0] matches Some(secs) && secs > 0),
        probe_of(recent, future, intervals) matches Ok(probe) ==> intervals[0] == Some(
            probe.interval_secs as i64,
        ) && probe.interval_secs <= i64::MAX,
{
}

proof fn lemma_latest_action(recent: Seq<Option<i64>>, k: nat)
    requires
        k <= recent.len(),
    ensures
        latest_action(recent, k) matches Some(best) ==> best >= 0 && exists|i: int|
            0 <= i < k && #[trigger] recent[i] == Some(best),
        forall|i: int|
            0 <= i < k ==> (#[trigger] recent[i] matches Some(secs) ==> secs < 0 || (latest_action(
                recent,
                k,
            ) matches Some(best) && secs <= best)),
    decreases k,
{
    if k > 0 {
        lemma_latest_action(recent, (k - 1) as nat);
        let rest = latest_action(recent, (k - 1) as nat);
        let all = latest_action(recent, k);
        if all is Some {
            if all == rest {
                let i = choose|i: int| 0 <= i < k - 1 && #[trigger] recent[i] == Some(rest->Some_0);
                assert(recent[i] == Some(all->Some_0));
            } else {
                assert(recent[k - 1] == Some(all->Some_0));
            }
        }
    }
}

/// A schedule of `secs` seconds that has fired may fire at `start` exactly where that is at least
/// `secs` seconds after every one of its firings, whichever of them is listed first.
pub proof fn law_fires_an_interval_after_every_firing(
    recent: Seq<Option<i64>>,
    future: Seq<i64>,
    intervals: Seq<Option<i64>>,
    secs: i64,
    fired: int,
    start: i64,
)
    requires
        intervals.len() > 0,
        intervals[0] == Some(secs),
        secs > 0,
        0 <= fired < recent.len(),
        recent[fired] matches Some(at) && at >= 0,
    ensures
        probe_of(recent, future, intervals) matches Ok(probe) && (is_eligible(
            start,
            probe.last_fire_secs,
            probe.interval_secs,
        ) <==> forall|i: int|
            0 <= i < recent.len() ==> (#[trigger] recent[i] matches Some(at) ==> at < 0 || start
                - at >= secs)),
{
    lemma_latest_action(recent, recent.len());
    let best = latest_action(recent, recent.len())->Some_0;
    let probe = probe_of(recent, future, intervals)->Ok_0;
    assert(recent[fired] is Some);
    let k = choose|i: int| 0 <= i < recent.len() && #[trigger] recent[i] == Some(best);
    if is_eligible(start, probe.last_fire_secs, probe.interval_secs) {
        assert forall|i: int| 0 <= i < recent.len() implies (#[trigger] recent[i] matches Some(at)
            ==> at < 0 || start - at >= secs) by {}
    } else {
        assert(recent[k] == Some(best));
    }
}

/// A schedule of `secs` seconds that has not fired may fire at `start` exactly where that is not
/// before its first firing to come; and at any time where none is known at or after the epoch.
pub proof fn law_first_firing_is_not_pulled_forward(
    recent: Seq<Option<i64>>,
    future: Seq<i64>,
    intervals: Seq<Option<i64>>,
    secs: i64,
    start: i64,
)
    requires
        intervals.len() > 0,
        intervals[0] == Some(secs),
        secs > 0,
        forall|i: int| 0 <= i < recent.len() ==> (#[trigger] recent[i] matches Some(at) ==> at < 0),
    ensures
        probe_of(recent, future, intervals) matches Ok(probe) && (is_eligible(
            start,
            probe.last_fire_secs,
            probe.interval_secs,
        ) <==> future.len() == 0 || future[0] < 0 || start >= future[0]),
{
    lemma_latest_action(recent, recent.len());
    if latest_action(recent, recent.len()) is Some {
        let best = latest_action(recent, recent.len())->Some_0;
        let k = choose|i: int| 0 <= i < recent.len() && #[trigger] recent[i] == Some(best);
        assert(recent[k] is Some);
    }
}

proof fn lemma_undiscovered_concat(
    namespace: Seq<char>,
    a: Seq<ScheduleProbeView>,
    b: Seq<ScheduleProbeView>,
)
    ensures
        undiscovered(namespace, a + b) == undiscovered(namespace, a) + undiscovered(namespace, b),
    decreases b.len(),
{
    if b.len() == 0 {
        assert(a + b =~= a);
        assert(undiscovered(namespace, a) + undiscovered(namespace, b) =~= undiscovered(
            namespace,
            a,
        ));
    } else {
        assert((a + b).drop_last() =~= a + b.drop_last());
        assert((a + b).last() == b.last());
        lemma_undiscovered_concat(namespace, a, b.drop_last());
        assert(undiscovered(namespace, a + b) =~= undiscovered(namespace, a) + undiscovered(
            namespace,
            b,
        ));
    }
}

/// What is made of two lists of probes, one after the other, is what is made of the first and what
/// is made of the second. A single probe that found an interval is a schedule with what was found;
/// one that did not is skipped, with the reason.
pub proof fn law_every_probe_is_read(
    namespace: Seq<char>,
    a: Seq<ScheduleProbeView>,
    b: Seq<ScheduleProbeView>,
    probe: ScheduleProbeView,
)
    ensures
        discovered(namespace, a + b) == discovered(namespace, a) + discovered(namespace, b),
        undiscovered(namespace, a + b) == undiscovered(namespace, a) + undiscovered(namespace, b),
        probe.outcome matches Ok(found) ==> {
            &&& discovered(namespace, seq![probe]).len() == 1
            &&& discovered(namespace, seq![probe])[0].namespace == namespace
            &&& discovered(namespace, seq![probe])[0].schedule_id == probe.schedule_id
            &&& discovered(namespace, seq![probe])[0].interval_secs == found.interval_secs
            &&& discovered(namespace, seq![probe])[0].last_fire_secs == found.last_fire_secs
            &&& undiscovered(namespace, seq![probe]).len() == 0
        },
        probe.outcome matches Err(reason) ==> {
            &&& discovered(namespace, seq![probe]).len() == 0
            &&& undiscovered(namespace, seq![probe]).len() == 1
            &&& undiscovered(namespace, seq![probe])[0].namespace == namespace
            &&& undiscovered(namespace, seq![probe])[0].schedule_id == probe.schedule_id
            &&& undiscovered(namespace, seq![probe])[0].reason == reason
        },
{
    lemma_discovered_concat(namespace, a, b);
    lemma_undiscovered_concat(namespace, a, b);
    assert(seq![probe].drop_last() =~= Seq::<ScheduleProbeView>::empty());
    assert(discovered(namespace, Seq::empty()).len() == 0);
    assert(undiscovered(namespace, Seq::empty()).len() == 0);
}

/// Of the schedules that discovery hands on, all that were found are there as often as they were
/// found, no other is, and no schedule stands behind one whose ID follows its own.
pub proof fn law_discovery_hands_on_what_was_found(
    namespace: Seq<char>,
    probes: Seq<ScheduleProbeView>,
    i: int,
    j: int,
)
    requires
        0 <= i < j < stable_sorted(discovered(namespace, probes), id_order()).len(),
    ensures
        ({
            let all = stable_sorted(discovered(namespace, probes), id_order());
            &&& all.to_multiset() == discovered(namespace, probes).to_multiset()
            &&& !text_less(all[j].schedule_id, all[i].schedule_id)
        }),
{
    law_sorting_permutes(discovered(namespace, probes), id_order());
    law_discovered_schedules_are_sorted(namespace, probes);
    let all = stable_sorted(discovered(namespace, probes), id_order());
    assert(!(id_order())(all[j], all[i]));
}

/// A probe is read as it came: its schedule's ID, and what was found or the text of why nothing was.
pub proof fn law_probes_are_read_as_they_came(probes: Seq<ScheduleProbe>, i: int)
    requires
        0 <= i < probes.len(),
    ensures
        views(probes).len() == probes.len(),
        views(probes)[i].schedule_id == probes[i].schedule_id@,
        probes[i].outcome matches Ok(found) ==> views(probes)[i].outcome == Ok::<
            IntervalProbe,
            Seq<char>,
        >(found),
        probes[i].outcome matches Err(reason) ==> views(probes)[i].outcome == Err::<
            IntervalProbe,
            Seq<char>,
        >(reason@),
{
}

/// A schedule without intervals is none that can be managed, and one whose first interval has no
/// positive length is another: each is skipped with its own reason.
pub proof fn law_unmanaged_schedules_have_a_reason(
    recent: Seq<Option<i64>>,
    future: Seq<i64>,
    intervals: Seq<Option<i64>>,
)
    ensures
        intervals.len() == 0 ==> probe_of(recent, future, intervals) == Err::<
            IntervalProbe,
            Seq<char>,
        >("not an interval schedule"@),
        intervals.len() > 0 && !(intervals[0] matches Some(secs) && secs > 0) ==> probe_of(
            recent,
            future,
            intervals,
        ) == Err::<IntervalProbe, Seq<char>>("interval is zero"@),
{
}

/// Schedules of the same ID stay in the order in which they were probed.
pub proof fn law_probed_namesakes_keep_their_order(schedules: Seq<ScheduleInfoView>, id: Seq<char>)
    ensures
        stable_sorted(schedules, id_order()).filter(|s: ScheduleInfoView| s.schedule_id == id)
            == schedules.filter(|s: ScheduleInfoView| s.schedule_id == id),
{
    let order = id_order();
    let x = ScheduleInfoView {
        namespace: id,
        schedule_id: id,
        interval_secs: 0,
        last_fire_secs: None,
    };
    let namesake = |s: ScheduleInfoView| s.schedule_id == id;
    let level = |s: ScheduleInfoView| same_rank(s, x, order);
    law_id_order_is_a_ranking();
    law_sorting_is_stable(schedules, order, x);
    assert forall|s: ScheduleInfoView| #[trigger] namesake(s) == level(s) by {
        law_text_order(s.schedule_id, id, id);
        law_text_order(id, id, id);
    }
    assert(namesake =~= level);
}

} // verus!
