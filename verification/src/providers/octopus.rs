//! The Agile tariff of Octopus Energy.

use vstd::prelude::*;
use vstd::string::{StrSliceExecFns, StringExecFns};

use super::{PriceProvider, TimeOfDay};
use crate::calendar::{
    clock_at, date_text, has_local_dates, instant_of_local, knows_zone, local_clock, local_instant,
    moment_less, next_date, utc_format, utc_text, write_date, write_utc, zone_is_known, CivilDate,
    Moment, FIRST_SECOND, LAST_DAY, LAST_SECOND,
};
use crate::seqs::views;
use crate::sorting::{
    is_ranking, law_sorting_permutes, law_sorting_sorts, stable_sort, stable_sorted,
};
use crate::text::{contains_text, join_three, quoted, quoted_text, text_contains};
use crate::types::{Price, PricedWindow, ProviderError, ProviderErrorView};

verus! {

/// The status with which the API refuses a token.
pub const UNAUTHORIZED: u16 = 401;

/// A token for the API, and the tariff code of the account that it opens.
#[derive(Debug)]
pub struct Credentials {
    pub token: String,
    pub tariff_code: String,
}

pub struct CredentialsView {
    pub token: Seq<char>,
    pub tariff_code: Seq<char>,
}

impl View for Credentials {
    type V = CredentialsView;

    open spec fn view(&self) -> CredentialsView {
        CredentialsView { token: self.token@, tariff_code: self.tariff_code@ }
    }
}

/// The provider: the credentials that were found last, until the API refuses them.
#[derive(Debug)]
pub struct OctopusProvider {
    pub auth_cache: Option<Credentials>,
}

impl OctopusProvider {
    /// A provider without credentials.
    pub fn new() -> (r: OctopusProvider)
        ensures
            r.auth_cache is None,
    {
        OctopusProvider { auth_cache: None }
    }

    /// Octopus publishes next-day Agile prices at 16:00 local time.
    fn refresh_time() -> (r: TimeOfDay)
        ensures
            r == (TimeOfDay { hour: 16, minute: 0 }),
    {
        TimeOfDay { hour: 16, minute: 0 }
    }
}

impl Default for OctopusProvider {
    fn default() -> (r: OctopusProvider)
        ensures
            r.auth_cache is None,
    {
        OctopusProvider::new()
    }
}

impl PriceProvider for OctopusProvider {
    fn next_day_data_available_at(&self) -> (r: Option<TimeOfDay>)
        ensures
            r == Some(TimeOfDay { hour: 16, minute: 0 }),
    {
        Some(OctopusProvider::refresh_time())
    }
}

// ---- accounts and their tariffs ----

/// A tariff that an account has, or had, or will have.
#[derive(Debug)]
pub struct Agreement {
    pub tariff_code: String,
    pub valid_from: Option<Moment>,
    pub valid_to: Option<Moment>,
}

pub struct AgreementView {
    pub tariff_code: Seq<char>,
    pub valid_from: Option<Moment>,
    pub valid_to: Option<Moment>,
}

impl View for Agreement {
    type V = AgreementView;

    open spec fn view(&self) -> AgreementView {
        AgreementView {
            tariff_code: self.tariff_code@,
            valid_from: self.valid_from,
            valid_to: self.valid_to,
        }
    }
}

#[derive(Debug)]
pub struct ElectricityMeterPoint {
    pub agreements: Vec<Agreement>,
}

#[derive(Debug)]
pub struct Property {
    pub electricity_meter_points: Vec<ElectricityMeterPoint>,
}

/// An account, as far as its tariffs go.
#[derive(Debug)]
pub struct Account {
    pub properties: Vec<Property>,
}

/// The agreements of meter points, in their order.
pub open spec fn agreements_of_points(points: Seq<ElectricityMeterPoint>) -> Seq<AgreementView>
    decreases points.len(),
{
    if points.len() == 0 {
        Seq::empty()
    } else {
        agreements_of_points(points.drop_last()) + views(points.last().agreements@)
    }
}

/// The agreements of properties, in their order.
pub open spec fn agreements_of(properties: Seq<Property>) -> Seq<AgreementView>
    decreases properties.len(),
{
    if properties.len() == 0 {
        Seq::empty()
    } else {
        agreements_of(properties.drop_last()) + agreements_of_points(
            properties.last().electricity_meter_points@,
        )
    }
}

/// The agreement holds at `now`.
pub open spec fn is_current(a: AgreementView, now: Moment) -> bool {
    &&& a.valid_from matches Some(from) ==> !moment_less(now, from)
    &&& a.valid_to matches Some(to) ==> moment_less(now, to)
}

/// The agreement holds at `now`, and buys electricity at Agile prices.
pub open spec fn is_agile(a: AgreementView, now: Moment) -> bool {
    &&& is_current(a, now)
    &&& !contains_text(a.tariff_code, "OUTGOING"@)
    &&& contains_text(a.tariff_code, "AGILE"@)
}

/// The tariff code of the first agreement that buys electricity at Agile prices.
pub open spec fn first_agile(agreements: Seq<AgreementView>, now: Moment) -> Option<Seq<char>>
    decreases agreements.len(),
{
    if agreements.len() == 0 {
        None
    } else {
        match first_agile(agreements.drop_last(), now) {
            Some(code) => Some(code),
            None => if is_agile(agreements.last(), now) {
                Some(agreements.last().tariff_code)
            } else {
                None
            },
        }
    }
}

/// Whether the agreement buys electricity at Agile prices at `now`.
fn buys_agile(a: &Agreement, now: Moment) -> (r: bool)
    ensures
        r == is_agile(a@, now),
{
    let started = match a.valid_from {
        Some(from) => !now.is_before(from),
        None => true,
    };
    let lasts = match a.valid_to {
        Some(to) => now.is_before(to),
        None => true,
    };
    started && lasts && !text_contains(a.tariff_code.as_str(), "OUTGOING") && text_contains(
        a.tariff_code.as_str(),
        "AGILE",
    )
}

/// The tariff code of the account's first agreement that buys electricity at Agile prices at
/// `now`.
pub fn find_agile_tariff(account: &Account, now: Moment) -> (r: Option<String>)
    ensures
        (match r {
            Some(code) => Some(code@),
            None => None,
        }) == first_agile(agreements_of(account.properties@), now),
{
    let ghost props = account.properties@;
    let mut found: Option<String> = None;
    let ghost mut seen = Seq::<AgreementView>::empty();
    for i in 0..account.properties.len()
        invariant
            props == account.properties@,
            seen == agreements_of(props.take(i as int)),
            (match found {
                Some(code) => Some(code@),
                None => None,
            }) == first_agile(seen, now),
    {
        let property = &account.properties[i];
        let ghost points = property.electricity_meter_points@;
        let ghost before_property = seen;
        proof {
            assert(props.take(i + 1).drop_last() =~= props.take(i as int));
            assert(seen =~= before_property + agreements_of_points(points.take(0)));
        }
        for k in 0..property.electricity_meter_points.len()
            invariant
                points == property.electricity_meter_points@,
                seen == before_property + agreements_of_points(points.take(k as int)),
                (match found {
                    Some(code) => Some(code@),
                    None => None,
                }) == first_agile(seen, now),
        {
            let point = &property.electricity_meter_points[k];
            let ghost agreements = views(point.agreements@);
            let ghost before_point = seen;
            proof {
                assert(points.take(k + 1).drop_last() =~= points.take(k as int));
                assert(seen =~= before_point + agreements.take(0));
            }
            for m in 0..point.agreements.len()
                invariant
                    agreements == views(point.agreements@),
                    seen == before_point + agreements.take(m as int),
                    (match found {
                        Some(code) => Some(code@),
                        None => None,
                    }) == first_agile(seen, now),
            {
                let agreement = &point.agreements[m];
                proof {
                    let next = seen.push(agreement@);
                    assert(next.drop_last() =~= seen);
                    assert(next =~= before_point + agreements.take(m + 1));
                    seen = next;
                }
                if found.is_none() && buys_agile(agreement, now) {
                    found = Some(agreement.tariff_code.clone());
                }
            }
            proof {
                assert(agreements.take(agreements.len() as int) =~= agreements);
                assert(seen =~= before_property + agreements_of_points(points.take(k + 1)));
            }
        }
        proof {
            assert(points.take(points.len() as int) =~= points);
        }
    }
    proof {
        assert(props.take(props.len() as int) =~= props);
    }
    found
}

// ---- tariff codes ----

/// The number of segments that a tariff code has at least.
pub const MIN_SEGMENTS: usize = 4;

/// The number of dashes.
pub open spec fn dash_count(s: Seq<char>) -> nat
    decreases s.len(),
{
    if s.len() == 0 {
        0
    } else {
        dash_count(s.drop_last()) + if s.last() == '-' {
            1nat
        } else {
            0nat
        }
    }
}

/// The tariff code has the segments that a product code is found in.
pub open spec fn is_tariff_code(s: Seq<char>) -> bool {
    dash_count(s) + 1 >= MIN_SEGMENTS
}

/// The `n`th dash stands at `p`.
pub open spec fn is_nth_dash(s: Seq<char>, n: nat, p: int) -> bool {
    0 <= p < s.len() && s[p] == '-' && dash_count(s.take(p)) == n - 1
}

/// Where the `n`th dash stands.
pub open spec fn nth_dash(s: Seq<char>, n: nat) -> int {
    choose|p: int| is_nth_dash(s, n, p)
}

/// The product code of a tariff code: the tariff code without its first two dash-separated segments
/// and its last.
pub open spec fn product_text(s: Seq<char>) -> Seq<char> {
    s.subrange(nth_dash(s, 2) + 1, nth_dash(s, dash_count(s)))
}

proof fn lemma_dash_count_monotone(s: Seq<char>, p: int, q: int)
    requires
        0 <= p <= q <= s.len(),
    ensures
        dash_count(s.take(p)) <= dash_count(s.take(q)),
    decreases q - p,
{
    if p < q {
        lemma_dash_count_monotone(s, p, q - 1);
        assert(s.take(q).drop_last() =~= s.take(q - 1));
    }
}

proof fn lemma_nth_dash_unique(s: Seq<char>, n: nat, p: int)
    requires
        is_nth_dash(s, n, p),
    ensures
        nth_dash(s, n) == p,
{
    let q = nth_dash(s, n);
    assert(is_nth_dash(s, n, q));
    assert(s.take(p + 1).drop_last() =~= s.take(p));
    assert(s.take(q + 1).drop_last() =~= s.take(q));
    if p < q {
        lemma_dash_count_monotone(s, p + 1, q);
    } else if q < p {
        lemma_dash_count_monotone(s, q + 1, p);
    }
}

/// The number of dashes in a text.
pub fn count_dashes(text: &str) -> (r: usize)
    ensures
        r == dash_count(text@),
{
    let n: usize = text.unicode_len();
    let mut count: usize = 0;
    for i in 0..n
        invariant
            n == text@.len(),
            count == dash_count(text@.take(i as int)),
            count <= i,
    {
        proof {
            assert(text@.take(i + 1).drop_last() =~= text@.take(i as int));
        }
        if text.get_char(i) == '-' {
            count = count + 1;
        }
    }
    proof {
        assert(text@.take(n as int) =~= text@);
    }
    count
}

/// The product code of a tariff code.
pub fn product_code(tariff_code: &str) -> (r: String)
    requires
        is_tariff_code(tariff_code@),
    ensures
        r@ == product_text(tariff_code@),
{
    let ghost s = tariff_code@;
    let n: usize = tariff_code.unicode_len();
    let mut count: usize = 0;
    let mut second: usize = 0;
    let mut last: usize = 0;
    for i in 0..n
        invariant
            s == tariff_code@,
            n == s.len(),
            count <= i,
            count == dash_count(s.take(i as int)),
            count >= 2 ==> is_nth_dash(s, 2, second as int),
            count >= 1 ==> is_nth_dash(s, count as nat, last as int),
            count >= 3 ==> second < last,
            second <= last,
            last <= i,
    {
        proof {
            assert(s.take(i + 1).drop_last() =~= s.take(i as int));
        }
        if tariff_code.get_char(i) == '-' {
            if count == 1 {
                second = i;
            }
            last = i;
            count = count + 1;
        }
    }
    proof {
        assert(s.take(n as int) =~= s);
        lemma_nth_dash_unique(s, 2, second as int);
        lemma_nth_dash_unique(s, count as nat, last as int);
    }
    tariff_code.substring_char(second + 1, last).to_owned()
}

// ---- credentials ----

/// What to do next on the way to credentials.
#[derive(Debug)]
pub enum AuthAction {
    /// Fetch the account of this number, and go on with it.
    FetchAccount { number: String },
    /// There are no credentials, for this reason.
    Refused { message: String },
    /// These are the credentials.
    Ready { credentials: Credentials },
}

pub enum AuthActionView {
    FetchAccount { number: Seq<char> },
    Refused { message: Seq<char> },
    Ready { credentials: CredentialsView },
}

impl View for AuthAction {
    type V = AuthActionView;

    open spec fn view(&self) -> AuthActionView {
        match self {
            AuthAction::FetchAccount { number } => AuthActionView::FetchAccount { number: number@ },
            AuthAction::Refused { message } => AuthActionView::Refused { message: message@ },
            AuthAction::Ready { credentials } => AuthActionView::Ready {
                credentials: credentials@,
            },
        }
    }
}

/// A search of a user's accounts for an Agile tariff.
#[derive(Debug)]
pub struct AuthSession {
    pub token: String,
    pub account_numbers: Vec<String>,
    /// The account that is fetched now.
    pub current: usize,
}

/// What to do where the account numbered `k` comes next.
pub open spec fn account_action(numbers: Seq<Seq<char>>, k: int) -> AuthActionView {
    if k < numbers.len() {
        AuthActionView::FetchAccount { number: numbers[k] }
    } else if numbers.len() == 0 {
        AuthActionView::Refused { message: "No accounts found for the provided API key"@ }
    } else {
        AuthActionView::Refused { message: "No active Agile tariff found across all accounts"@ }
    }
}

/// What to do once a tariff code is found.
pub open spec fn tariff_action(token: Seq<char>, code: Seq<char>) -> AuthActionView {
    if is_tariff_code(code) {
        AuthActionView::Ready { credentials: CredentialsView { token, tariff_code: code } }
    } else {
        AuthActionView::Refused {
            message: "unexpected tariff code format "@ + quoted_text(code)
                + " (expected at least 4 dash-separated segments, e.g. E-1R-AGILE-FLEX-22-11-25-C)"@,
        }
    }
}

/// What a search does on an account that has this Agile tariff, or none.
pub open spec fn after_account(
    token: Seq<char>,
    numbers: Seq<Seq<char>>,
    current: int,
    tariff: Option<Seq<char>>,
) -> AuthActionView {
    match tariff {
        Some(code) => tariff_action(token, code),
        None => account_action(numbers, current + 1),
    }
}

impl AuthSession {
    /// Starts a search of the accounts that the token opens.
    pub fn start(token: String, account_numbers: Vec<String>) -> (r: (AuthSession, AuthAction))
        ensures
            r.0.token@ == token@,
            r.0.account_numbers@ == account_numbers@,
            r.0.current == 0,
            r.1@ == account_action(views(account_numbers@), 0),
    {
        let action = if account_numbers.len() == 0 {
            AuthAction::Refused {
                message: "No accounts found for the provided API key".to_owned(),
            }
        } else {
            AuthAction::FetchAccount { number: account_numbers[0].clone() }
        };
        (AuthSession { token, account_numbers, current: 0 }, action)
    }

    /// Goes on with the account that was fetched: the search ends with the first account that has
    /// an Agile tariff, or after the last one.
    pub fn account_fetched(&mut self, account: &Account, now: Moment) -> (action: AuthAction)
        requires
            old(self).current < old(self).account_numbers@.len(),
        ensures
            final(self).token == old(self).token,
            final(self).account_numbers == old(self).account_numbers,
            final(self).current == old(self).current + 1,
            action@ == after_account(
                old(self).token@,
                views(old(self).account_numbers@),
                old(self).current as int,
                first_agile(agreements_of(account.properties@), now),
            ),
    {
        let total: usize = self.account_numbers.len();
        self.current = self.current + 1;
        match find_agile_tariff(account, now) {
            Some(tariff_code) => {
                if count_dashes(tariff_code.as_str()) >= MIN_SEGMENTS - 1 {
                    let credentials = Credentials { token: self.token.clone(), tariff_code };
                    AuthAction::Ready { credentials }
                } else {
                    let message = join_three(
                        "unexpected tariff code format ",
                        quoted(tariff_code.as_str()).as_str(),
                        " (expected at least 4 dash-separated segments, e.g. E-1R-AGILE-FLEX-22-11-25-C)",
                    );
                    AuthAction::Refused { message }
                }
            },
            None => {
                if self.current < total {
                    AuthAction::FetchAccount { number: self.account_numbers[self.current].clone() }
                } else {
                    AuthAction::Refused {
                        message: "No active Agile tariff found across all accounts".to_owned(),
                    }
                }
            },
        }
    }
}

/// The view of credentials that there may be.
pub open spec fn cached_view(cache: Option<Credentials>) -> Option<CredentialsView> {
    match cache {
        Some(credentials) => Some(credentials@),
        None => None,
    }
}

impl OctopusProvider {
    /// The cached credentials have a tariff code that a product code is found in.
    pub open spec fn is_valid(self) -> bool {
        self.auth_cache matches Some(credentials) ==> is_tariff_code(credentials.tariff_code@)
    }

    /// The cached credentials, if any.
    pub fn cached(&self) -> (r: Option<Credentials>)
        ensures
            cached_view(r) == cached_view(self.auth_cache),
    {
        match &self.auth_cache {
            Some(credentials) => Some(
                Credentials {
                    token: credentials.token.clone(),
                    tariff_code: credentials.tariff_code.clone(),
                },
            ),
            None => None,
        }
    }

    /// Keeps credentials that were found, and hands them out.
    pub fn resolve_auth(&mut self, found: Credentials) -> (r: Credentials)
        requires
            is_tariff_code(found.tariff_code@),
        ensures
            final(self).is_valid(),
            cached_view(final(self).auth_cache) == Some(found@),
            r@ == found@,
    {
        let r = Credentials {
            token: found.token.clone(),
            tariff_code: found.tariff_code.clone(),
        };
        self.auth_cache = Some(found);
        r
    }

    /// Takes the status with which the API answered a request for prices. Where it refuses the
    /// token, the credentials are dropped, so that the next attempt authenticates anew; on any other
    /// status they are kept.
    pub fn rates_answered(&mut self, status: u16) -> (r: Option<ProviderError>)
        ensures
            status == UNAUTHORIZED ==> {
                &&& final(self).auth_cache is None
                &&& r matches Some(error)
                &&& error@ == (ProviderErrorView::Other {
                    message:
                        "Octopus API returned 401: token expired, will re-authenticate on retry"@,
                })
            },
            status != UNAUTHORIZED ==> final(self).auth_cache == old(self).auth_cache && r is None,
            old(self).is_valid() ==> final(self).is_valid(),
    {
        if status != UNAUTHORIZED {
            return None;
        }
        self.auth_cache = None;
        Some(
            ProviderError::Other {
                message: "Octopus API returned 401: token expired, will re-authenticate on retry".to_owned(),
            },
        )
    }
}

// ---- prices ----

/// A request for the prices of one day.
#[derive(Debug)]
pub struct PriceRequest {
    pub url: String,
    pub period_from: String,
    pub period_to: String,
}

/// A price per kWh from an instant on.
#[derive(Debug, Clone, Copy, PartialEq, Eq)]
pub struct OctopusRate {
    pub value_inc_vat: Price,
    pub valid_from: Moment,
}

impl View for OctopusRate {
    type V = OctopusRate;

    open spec fn view(&self) -> OctopusRate {
        *self
    }
}

/// The address of an account.
pub open spec fn account_address(number: Seq<char>) -> Seq<char> {
    "https://api.octopus.energy/v1/accounts/"@ + number + "/"@
}

/// The address of a tariff's prices.
pub open spec fn rates_address(tariff_code: Seq<char>) -> Seq<char> {
    "https://api.octopus.energy/v1/products/"@ + product_text(tariff_code)
        + "/electricity-tariffs/"@ + tariff_code + "/standard-unit-rates/"@
}

/// How the start of a day reads, given the instant at which it starts, or that the clocks skip it.
pub open spec fn day_start(instant: Option<i64>, date: CivilDate) -> Seq<char> {
    match instant {
        Some(secs) => utc_text(secs, utc_format()),
        None => date_text(date.days) + "T00:00:00Z"@,
    }
}

/// How local midnight of `date` in `zone` reads in UTC.
pub open spec fn midnight_text(zone: Seq<char>, date: CivilDate) -> Seq<char> {
    day_start(local_instant(zone, date.days, 0, 0), date)
}

/// The order of prices by when they hold from.
pub open spec fn rate_order() -> spec_fn(OctopusRate, OctopusRate) -> bool {
    |a: OctopusRate, b: OctopusRate| moment_less(a.valid_from, b.valid_from)
}

/// The slot of a price that holds from when the clock shows this day, hour and minute.
pub open spec fn window_at(clock: (i32, u32, u32, u32), rate: OctopusRate) -> PricedWindow {
    PricedWindow {
        date: CivilDate { days: clock.0 },
        hour: clock.1,
        minute: clock.2,
        price_p_per_kwh: rate.value_inc_vat,
    }
}

/// The slot of a price in a known zone.
pub open spec fn window_of(rate: OctopusRate, zone: Seq<char>) -> PricedWindow {
    window_at(local_clock(zone, rate.valid_from.secs)->Some_0, rate)
}

/// The slots of prices in a known zone, in chronological order.
pub open spec fn windows_of(rates: Seq<OctopusRate>, zone: Seq<char>) -> Seq<PricedWindow> {
    let sorted = stable_sorted(rates, rate_order());
    Seq::new(sorted.len(), |i: int| window_of(sorted[i], zone))
}

/// Each price holds from an instant that every zone has a local date for.
pub open spec fn rates_have_dates(rates: Seq<OctopusRate>) -> bool {
    forall|i: int| 0 <= i < rates.len() ==> has_local_dates((#[trigger] rates[i]).valid_from.secs)
}

/// The address of an account.
pub fn account_url(number: &str) -> (r: String)
    ensures
        r@ == account_address(number@),
{
    join_three("https://api.octopus.energy/v1/accounts/", number, "/")
}

/// Whether prices can be asked for in this timezone.
pub fn check_timezone(timezone: &str) -> (r: Result<(), ProviderError>)
    ensures
        zone_is_known(timezone@) ==> r is Ok,
        !zone_is_known(timezone@) ==> (r matches Err(error) && error@
            == (ProviderErrorView::Other {
            message: "invalid timezone "@ + quoted_text(timezone@),
        })),
{
    if knows_zone(timezone) {
        Ok(())
    } else {
        let mut message = "invalid timezone ".to_owned();
        message.append(quoted(timezone).as_str());
        Err(ProviderError::Other { message })
    }
}

/// How the start of a day reads.
pub fn describe_day_start(instant: Option<i64>, date: CivilDate) -> (r: String)
    requires
        date.in_calendar(),
        instant matches Some(secs) ==> FIRST_SECOND <= secs <= LAST_SECOND,
    ensures
        r@ == day_start(instant, date),
{
    match instant {
        Some(secs) => write_utc(secs, "%Y-%m-%dT%H:%M:%SZ"),
        None => {
            let mut r = write_date(date);
            r.append("T00:00:00Z");
            r
        },
    }
}

/// How local midnight reads in UTC.
fn midnight(timezone: &str, date: CivilDate) -> (r: String)
    requires
        date.in_calendar(),
    ensures
        r@ == midnight_text(timezone@, date),
{
    describe_day_start(instant_of_local(timezone, date.days, 0, 0), date)
}

/// The request for the prices of one day. The day is bounded by local midnights, so that all of its
/// slots are asked for: UTC midnights would cut it short at one end in other zones.
pub fn price_request(date: CivilDate, timezone: &str, tariff_code: &str) -> (r: PriceRequest)
    requires
        date.in_calendar(),
        date.days < LAST_DAY,
        is_tariff_code(tariff_code@),
    ensures
        r.url@ == rates_address(tariff_code@),
        r.period_from@ == midnight_text(timezone@, date),
        r.period_to@ == midnight_text(timezone@, next_date(date)->Some_0),
{
    let product = product_code(tariff_code);
    let mut url = join_three(
        "https://api.octopus.energy/v1/products/",
        product.as_str(),
        "/electricity-tariffs/",
    );
    url.append(tariff_code);
    url.append("/standard-unit-rates/");
    let next = CivilDate { days: date.days + 1 };
    PriceRequest {
        url,
        period_from: midnight(timezone, date),
        period_to: midnight(timezone, next),
    }
}

/// The slot of a price that holds from when the clock shows this day, hour and minute.
pub fn priced_window(clock: (i32, u32, u32, u32), rate: OctopusRate) -> (r: PricedWindow)
    ensures
        r == window_at(clock, rate),
{
    PricedWindow {
        date: CivilDate { days: clock.0 },
        hour: clock.1,
        minute: clock.2,
        price_p_per_kwh: rate.value_inc_vat,
    }
}

proof fn lemma_sorted_rates_have_dates(rates: Seq<OctopusRate>)
    requires
        rates_have_dates(rates),
    ensures
        rates_have_dates(stable_sorted(rates, rate_order())),
{
    broadcast use vstd::seq_lib::group_to_multiset_ensures;

    let sorted = stable_sorted(rates, rate_order());
    law_sorting_permutes(rates, rate_order());
    assert forall|i: int| 0 <= i < sorted.len() implies has_local_dates(
        (#[trigger] sorted[i]).valid_from.secs,
    ) by {
        assert(sorted.contains(sorted[i]));
        assert(rates.to_multiset().count(sorted[i]) > 0);
        let k = choose|k: int| 0 <= k < rates.len() && rates[k] == sorted[i];
        assert(has_local_dates(rates[k].valid_from.secs));
    }
}

impl OctopusProvider {
    /// The price slots of `date`, by the prices that the API returned for it. No prices mean that they
    /// are not published yet.
    pub fn fetch_priced_windows(
        &self,
        date: CivilDate,
        timezone: &str,
        rates: Vec<OctopusRate>,
    ) -> (r: Result<Vec<PricedWindow>, ProviderError>)
        requires
            rates_have_dates(rates@),
        ensures
            !zone_is_known(timezone@) ==> (r matches Err(error) && error@
                == (ProviderErrorView::Other {
                message: "invalid timezone "@ + quoted_text(timezone@),
            })),
            zone_is_known(timezone@) && rates@.len() == 0 ==> (r matches Err(error) && error@
                == (ProviderErrorView::NotYetPublished { date })),
            zone_is_known(timezone@) && rates@.len() > 0 ==> (r matches Ok(windows) && windows@
                == windows_of(rates@, timezone@)),
    {
        if let Err(error) = check_timezone(timezone) {
            return Err(error);
        }
        if rates.len() == 0 {
            return Err(ProviderError::NotYetPublished { date });
        }
        let ghost given = rates@;
        proof {
            assert(views(given) =~= given);
            lemma_sorted_rates_have_dates(given);
        }
        let less = |a: &OctopusRate, b: &OctopusRate| -> (r: bool)
            ensures
                r == moment_less(a.valid_from, b.valid_from),
            { a.valid_from.is_before(b.valid_from) };
        let sorted = stable_sort(rates, less, Ghost(rate_order()));
        proof {
            assert(views(sorted@) =~= sorted@);
        }
        let mut windows: Vec<PricedWindow> = Vec::new();
        for i in 0..sorted.len()
            invariant
                zone_is_known(timezone@),
                sorted@ == stable_sorted(given, rate_order()),
                rates_have_dates(sorted@),
                windows@ == windows_of(given, timezone@).take(i as int),
        {
            let rate = sorted[i];
            proof {
                assert(has_local_dates(sorted@[i as int].valid_from.secs));
            }
            let clock = clock_at(timezone, rate.valid_from.secs).unwrap();
            windows.push(priced_window(clock, rate));
            proof {
                assert(windows@ =~= windows_of(given, timezone@).take(i + 1));
            }
        }
        proof {
            assert(windows_of(given, timezone@).take(sorted@.len() as int) =~= windows_of(
                given,
                timezone@,
            ));
        }
        Ok(windows)
    }
}

// ---- laws ----

/// The slots of a day come in the order in which their prices hold.
pub proof fn law_windows_are_chronological(rates: Seq<OctopusRate>, i: int, j: int)
    requires
        0 <= i < j < stable_sorted(rates, rate_order()).len(),
    ensures
        ({
            let sorted = stable_sorted(rates, rate_order());
            !moment_less(sorted[j].valid_from, sorted[i].valid_from)
        }),
{
    let order = rate_order();
    assert(is_ranking(order));
    law_sorting_sorts(rates, order);
    let sorted = stable_sorted(rates, order);
    assert(!order(sorted[j], sorted[i]));
}

/// There is one slot for each price.
pub proof fn law_every_price_has_a_slot(rates: Seq<OctopusRate>, zone: Seq<char>)
    ensures
        windows_of(rates, zone).len() == rates.len(),
        stable_sorted(rates, rate_order()).to_multiset() == rates.to_multiset(),
{
    broadcast use vstd::seq_lib::group_to_multiset_ensures;

    law_sorting_permutes(rates, rate_order());
    assert(rates.len() == rates.to_multiset().len());
    assert(stable_sorted(rates, rate_order()).len() == stable_sorted(
        rates,
        rate_order(),
    ).to_multiset().len());
}

/// A tariff code is two segments, its product code and one more segment.
pub proof fn law_tariff_code_holds_its_product(s: Seq<char>)
    requires
        is_tariff_code(s),
    ensures
        ({
            let from = nth_dash(s, 2);
            let to = nth_dash(s, dash_count(s));
            &&& 0 <= from < to < s.len()
            &&& s == s.take(from) + seq!['-'] + product_text(s) + seq!['-'] + s.skip(to + 1)
            &&& dash_count(s.take(from)) == 1
            &&& dash_count(s.skip(to + 1)) == 0
        }),
{
    lemma_nth_dash_exists(s, 2);
    lemma_nth_dash_exists(s, dash_count(s));
    let from = nth_dash(s, 2);
    let to = nth_dash(s, dash_count(s));
    if to < from {
        lemma_dash_count_monotone(s, to, from);
    }
    assert(s =~= s.take(from) + seq!['-'] + product_text(s) + seq!['-'] + s.skip(to + 1));
    assert(s.take(to + 1).drop_last() =~= s.take(to));
    assert(s =~= s.take(to + 1) + s.skip(to + 1));
    lemma_dash_count_concat(s.take(to + 1), s.skip(to + 1));
}

proof fn lemma_dash_count_concat(a: Seq<char>, b: Seq<char>)
    ensures
        dash_count(a + b) == dash_count(a) + dash_count(b),
    decreases b.len(),
{
    if b.len() == 0 {
        assert(a + b =~= a);
    } else {
        assert((a + b).drop_last() =~= a + b.drop_last());
        lemma_dash_count_concat(a, b.drop_last());
    }
}

proof fn lemma_nth_dash_exists(s: Seq<char>, n: nat)
    requires
        1 <= n <= dash_count(s),
    ensures
        is_nth_dash(s, n, nth_dash(s, n)),
    decreases s.len(),
{
    let rest = s.drop_last();
    if n <= dash_count(rest) {
        lemma_nth_dash_exists(rest, n);
        let p = nth_dash(rest, n);
        assert(s.take(p) =~= rest.take(p));
        assert(is_nth_dash(s, n, p));
    } else {
        let p = s.len() - 1;
        assert(s.take(p) =~= rest);
        assert(is_nth_dash(s, n, p));
    }
}

// ---- which tariff is found ----

/// The agreement has begun and not ended at `now`, and its code says that it is an Agile tariff, and
/// not one for selling.
pub open spec fn buys_at_agile_prices(a: Agreement, now: Moment) -> bool {
    &&& a.valid_from matches Some(from) ==> from.secs < now.secs || (from.secs == now.secs
        && from.nanos <= now.nanos)
    &&& a.valid_to matches Some(to) ==> now.secs < to.secs || (now.secs == to.secs && now.nanos
        < to.nanos)
    &&& contains_text(a.tariff_code@, "AGILE"@)
    &&& !contains_text(a.tariff_code@, "OUTGOING"@)
}

/// The agreement numbered `k` of the meter point numbered `j` of the property numbered `i`.
pub open spec fn agreement_at(properties: Seq<Property>, i: int, j: int, k: int) -> Agreement {
    properties[i].electricity_meter_points@[j].agreements@[k]
}

/// There is an agreement with these numbers.
pub open spec fn has_agreement(properties: Seq<Property>, i: int, j: int, k: int) -> bool {
    &&& 0 <= i < properties.len()
    &&& 0 <= j < properties[i].electricity_meter_points@.len()
    &&& 0 <= k < properties[i].electricity_meter_points@[j].agreements@.len()
}

/// The place of an agreement among all agreements of the points before `j`, and of its own.
spec fn place_in_points(points: Seq<ElectricityMeterPoint>, j: int, k: int) -> int {
    agreements_of_points(points.take(j)).len() + k
}

proof fn lemma_point_agreement(points: Seq<ElectricityMeterPoint>, j: int, k: int)
    requires
        0 <= j < points.len(),
        0 <= k < points[j].agreements@.len(),
    ensures
        0 <= place_in_points(points, j, k) < agreements_of_points(points).len(),
        agreements_of_points(points)[place_in_points(points, j, k)] == points[j].agreements@[k]@,
    decreases points.len(),
{
    let rest = points.drop_last();
    if j < points.len() - 1 {
        lemma_point_agreement(rest, j, k);
        assert(rest.take(j) =~= points.take(j));
    } else {
        assert(rest =~= points.take(j));
    }
}

proof fn lemma_point_of(points: Seq<ElectricityMeterPoint>, n: int) -> (r: (int, int))
    requires
        0 <= n < agreements_of_points(points).len(),
    ensures
        0 <= r.0 < points.len(),
        0 <= r.1 < points[r.0].agreements@.len(),
        place_in_points(points, r.0, r.1) == n,
    decreases points.len(),
{
    let rest = points.drop_last();
    let before = agreements_of_points(rest);
    if n < before.len() {
        let r = lemma_point_of(rest, n);
        assert(rest.take(r.0) =~= points.take(r.0));
        r
    } else {
        assert(rest =~= points.take(points.len() - 1));
        (points.len() - 1, n - before.len())
    }
}

/// The place of an agreement among all agreements of the account.
spec fn place_of(properties: Seq<Property>, i: int, j: int, k: int) -> int {
    agreements_of(properties.take(i)).len() + place_in_points(
        properties[i].electricity_meter_points@,
        j,
        k,
    )
}

proof fn lemma_agreement_at(properties: Seq<Property>, i: int, j: int, k: int)
    requires
        has_agreement(properties, i, j, k),
    ensures
        0 <= place_of(properties, i, j, k) < agreements_of(properties).len(),
        agreements_of(properties)[place_of(properties, i, j, k)] == agreement_at(
            properties,
            i,
            j,
            k,
        )@,
    decreases properties.len(),
{
    let rest = properties.drop_last();
    lemma_point_agreement(properties[i].electricity_meter_points@, j, k);
    if i < properties.len() - 1 {
        lemma_agreement_at(rest, i, j, k);
        assert(rest.take(i) =~= properties.take(i));
    } else {
        assert(rest =~= properties.take(i));
    }
}

proof fn lemma_agreement_of(properties: Seq<Property>, n: int) -> (r: (int, int, int))
    requires
        0 <= n < agreements_of(properties).len(),
    ensures
        has_agreement(properties, r.0, r.1, r.2),
        place_of(properties, r.0, r.1, r.2) == n,
    decreases properties.len(),
{
    let rest = properties.drop_last();
    let before = agreements_of(rest);
    if n < before.len() {
        let r = lemma_agreement_of(rest, n);
        assert(rest.take(r.0) =~= properties.take(r.0));
        r
    } else {
        let last = properties.len() - 1;
        assert(rest =~= properties.take(last));
        let r = lemma_point_of(properties[last].electricity_meter_points@, n - before.len());
        (last, r.0, r.1)
    }
}

proof fn lemma_points_grow(points: Seq<ElectricityMeterPoint>, a: int, b: int)
    requires
        0 <= a < b <= points.len(),
    ensures
        agreements_of_points(points.take(a)).len() + points[a].agreements@.len()
            <= agreements_of_points(points.take(b)).len(),
    decreases b,
{
    assert(points.take(b).drop_last() =~= points.take(b - 1));
    if a < b - 1 {
        lemma_points_grow(points, a, b - 1);
    }
}

proof fn lemma_properties_grow(properties: Seq<Property>, a: int, b: int)
    requires
        0 <= a < b <= properties.len(),
    ensures
        agreements_of(properties.take(a)).len() + agreements_of_points(
            properties[a].electricity_meter_points@,
        ).len() <= agreements_of(properties.take(b)).len(),
    decreases b,
{
    assert(properties.take(b).drop_last() =~= properties.take(b - 1));
    if a < b - 1 {
        lemma_properties_grow(properties, a, b - 1);
    }
}

/// Of two agreements of an account, the one of the earlier property has the smaller place; within a
/// property, the one of the earlier meter point; and within a meter point, the earlier one.
proof fn lemma_places_in_order(
    properties: Seq<Property>,
    i: int,
    j: int,
    k: int,
    x: int,
    y: int,
    z: int,
)
    requires
        has_agreement(properties, i, j, k),
        has_agreement(properties, x, y, z),
        x < i || (x == i && (y < j || (y == j && z < k))),
    ensures
        place_of(properties, x, y, z) < place_of(properties, i, j, k),
{
    lemma_point_agreement(properties[x].electricity_meter_points@, y, z);
    if x < i {
        lemma_properties_grow(properties, x, i);
    } else if y < j {
        lemma_points_grow(properties[x].electricity_meter_points@, y, j);
    }
}

proof fn lemma_first_agile(agreements: Seq<AgreementView>, now: Moment, n: int)
    requires
        0 <= n < agreements.len(),
        is_agile(agreements[n], now),
        forall|m: int| 0 <= m < n ==> !is_agile(#[trigger] agreements[m], now),
    ensures
        first_agile(agreements, now) == Some(agreements[n].tariff_code),
    decreases agreements.len(),
{
    let rest = agreements.drop_last();
    if n < agreements.len() - 1 {
        assert(rest[n] == agreements[n]);
        assert forall|m: int| 0 <= m < n implies !is_agile(#[trigger] rest[m], now) by {
            assert(rest[m] == agreements[m]);
        }
        lemma_first_agile(rest, now, n);
    } else {
        lemma_no_agile(rest, now);
    }
}

proof fn lemma_no_agile(agreements: Seq<AgreementView>, now: Moment)
    requires
        forall|m: int| 0 <= m < agreements.len() ==> !is_agile(#[trigger] agreements[m], now),
    ensures
        first_agile(agreements, now) is None,
    decreases agreements.len(),
{
    if agreements.len() > 0 {
        let rest = agreements.drop_last();
        assert forall|m: int| 0 <= m < rest.len() implies !is_agile(#[trigger] rest[m], now) by {
            assert(rest[m] == agreements[m]);
        }
        lemma_no_agile(rest, now);
    }
}

/// An account's tariff is that of its first agreement that buys at Agile prices now, in the order of
/// properties, of their meter points and of their agreements: wherever the agreement `(i, j, k)` is
/// one, and none before it is, its code is found.
pub proof fn law_first_agile_agreement_is_found(
    properties: Seq<Property>,
    now: Moment,
    i: int,
    j: int,
    k: int,
)
    requires
        has_agreement(properties, i, j, k),
        buys_at_agile_prices(agreement_at(properties, i, j, k), now),
        forall|x: int, y: int, z: int|
            has_agreement(properties, x, y, z) && (x < i || (x == i && (y < j || (y == j && z
                < k)))) ==> !buys_at_agile_prices(
                #[trigger] agreement_at(properties, x, y, z),
                now,
            ),
    ensures
        first_agile(agreements_of(properties), now) == Some(
            agreement_at(properties, i, j, k).tariff_code@,
        ),
{
    let all = agreements_of(properties);
    let n = place_of(properties, i, j, k);
    lemma_agreement_at(properties, i, j, k);
    assert forall|m: int| 0 <= m < n implies !is_agile(#[trigger] all[m], now) by {
        let (x, y, z) = lemma_agreement_of(properties, m);
        lemma_agreement_at(properties, x, y, z);
        if !(x < i || (x == i && (y < j || (y == j && z < k)))) {
            if x == i && y == j && z == k {
            } else {
                lemma_places_in_order(properties, x, y, z, i, j, k);
            }
            assert(false);
        }
        assert(!buys_at_agile_prices(agreement_at(properties, x, y, z), now));
    }
    lemma_first_agile(all, now, n);
}

/// A tariff is found exactly where some agreement of some meter point of some property of the account
/// buys at Agile prices now.
pub proof fn law_tariff_is_found_where_there_is_one(properties: Seq<Property>, now: Moment)
    ensures
        first_agile(agreements_of(properties), now) is Some <==> exists|i: int, j: int, k: int|
            has_agreement(properties, i, j, k) && buys_at_agile_prices(
                #[trigger] agreement_at(properties, i, j, k),
                now,
            ),
{
    let all = agreements_of(properties);
    if exists|i: int, j: int, k: int|
        has_agreement(properties, i, j, k) && buys_at_agile_prices(
            #[trigger] agreement_at(properties, i, j, k),
            now,
        ) {
        let (i, j, k) = choose|i: int, j: int, k: int|
            has_agreement(properties, i, j, k) && buys_at_agile_prices(
                #[trigger] agreement_at(properties, i, j, k),
                now,
            );
        lemma_agreement_at(properties, i, j, k);
        lemma_some_agile(all, now, place_of(properties, i, j, k));
    } else {
        assert forall|m: int| 0 <= m < all.len() implies !is_agile(#[trigger] all[m], now) by {
            let (x, y, z) = lemma_agreement_of(properties, m);
            lemma_agreement_at(properties, x, y, z);
            assert(!buys_at_agile_prices(agreement_at(properties, x, y, z), now));
        }
        lemma_no_agile(all, now);
    }
}

proof fn lemma_some_agile(agreements: Seq<AgreementView>, now: Moment, n: int)
    requires
        0 <= n < agreements.len(),
        is_agile(agreements[n], now),
    ensures
        first_agile(agreements, now) is Some,
    decreases agreements.len(),
{
    if n < agreements.len() - 1 {
        assert(agreements.drop_last()[n] == agreements[n]);
        lemma_some_agile(agreements.drop_last(), now, n);
    }
}

// ---- tariff codes, accounts and prices ----

/// No dash stands in the text.
pub open spec fn has_no_dash(s: Seq<char>) -> bool {
    forall|i: int| 0 <= i < s.len() ==> #[trigger] s[i] != '-'
}

proof fn lemma_no_dash(s: Seq<char>)
    ensures
        dash_count(s) == 0 <==> has_no_dash(s),
    decreases s.len(),
{
    if s.len() > 0 {
        let rest = s.drop_last();
        lemma_no_dash(rest);
        if has_no_dash(s) {
            assert forall|i: int| 0 <= i < rest.len() implies #[trigger] rest[i] != '-' by {
                assert(rest[i] == s[i]);
            }
            assert(s[s.len() - 1] != '-');
        }
        if dash_count(s) == 0 {
            assert forall|i: int| 0 <= i < s.len() implies #[trigger] s[i] != '-' by {
                if i < rest.len() {
                    assert(rest[i] == s[i]);
                }
            }
        }
    }
}

/// A text of a segment, a second one, something between and a last segment, with dashes between them
/// and none in the three segments, is a tariff code, and what stands between is its product code,
/// however many dashes that has.
pub proof fn law_product_stands_between_the_segments(
    first: Seq<char>,
    second: Seq<char>,
    product: Seq<char>,
    region: Seq<char>,
)
    requires
        has_no_dash(first),
        has_no_dash(second),
        has_no_dash(region),
    ensures
        ({
            let code = first + seq!['-'] + second + seq!['-'] + product + seq!['-'] + region;
            is_tariff_code(code) && product_text(code) == product
        }),
{
    let dash = seq!['-'];
    let code = first + dash + second + dash + product + dash + region;
    let head = first + dash + second;
    let from = head.len() as int;
    let body = head + dash + product;
    let to = body.len() as int;
    lemma_no_dash(first);
    lemma_no_dash(second);
    lemma_no_dash(region);
    let nothing = Seq::<char>::empty();
    assert(dash_count(nothing) == 0);
    assert(dash.drop_last() =~= nothing);
    assert(dash_count(dash) == 1);
    lemma_dash_count_concat(first, dash);
    lemma_dash_count_concat(first + dash, second);
    lemma_dash_count_concat(head, dash);
    lemma_dash_count_concat(head + dash, product);
    lemma_dash_count_concat(body, dash);
    lemma_dash_count_concat(body + dash, region);
    assert(code =~= body + dash + region);
    assert(code.take(from) =~= head);
    assert(code.take(to) =~= body);
    assert(is_nth_dash(code, 2, from));
    assert(is_nth_dash(code, dash_count(code), to));
    lemma_nth_dash_unique(code, 2, from);
    lemma_nth_dash_unique(code, dash_count(code), to);
    assert(product_text(code) =~= product);
}

proof fn lemma_dashes_counted(s: Seq<char>, i: int, j: int, k: int)
    requires
        0 <= i < j < k < s.len(),
        s[i] == '-',
        s[j] == '-',
        s[k] == '-',
    ensures
        dash_count(s) >= 3,
{
    assert(s.take(i + 1).drop_last() =~= s.take(i));
    assert(s.take(j + 1).drop_last() =~= s.take(j));
    assert(s.take(k + 1).drop_last() =~= s.take(k));
    assert(s.take(s.len() as int) =~= s);
    lemma_dash_count_monotone(s, i + 1, j);
    lemma_dash_count_monotone(s, j + 1, k);
    lemma_dash_count_monotone(s, k + 1, s.len() as int);
}

proof fn lemma_dashes_found(s: Seq<char>) -> (r: (int, int, int))
    requires
        dash_count(s) >= 3,
    ensures
        0 <= r.0 < r.1 < r.2 < s.len(),
        s[r.0] == '-',
        s[r.1] == '-',
        s[r.2] == '-',
{
    lemma_nth_dash_exists(s, 1);
    lemma_nth_dash_exists(s, 2);
    lemma_nth_dash_exists(s, 3);
    let i = nth_dash(s, 1);
    let j = nth_dash(s, 2);
    let k = nth_dash(s, 3);
    if j <= i {
        lemma_dash_count_monotone(s, j, i);
    }
    if k <= j {
        lemma_dash_count_monotone(s, k, j);
    }
    (i, j, k)
}

/// Three dashes stand in the text.
pub open spec fn has_three_dashes(s: Seq<char>) -> bool {
    exists|i: int, j: int, k: int|
        0 <= i < j < k < s.len() && #[trigger] s[i] == '-' && #[trigger] s[j] == '-'
            && #[trigger] s[k] == '-'
}

/// A tariff code has three dashes, at least.
pub proof fn law_tariff_code_has_four_segments(s: Seq<char>)
    ensures
        is_tariff_code(s) <==> has_three_dashes(s),
{
    if dash_count(s) >= 3 {
        let (i, j, k) = lemma_dashes_found(s);
        assert(s[i] == '-' && s[j] == '-' && s[k] == '-');
        assert(has_three_dashes(s));
    }
    if has_three_dashes(s) {
        let (i, j, k) = choose|i: int, j: int, k: int|
            0 <= i < j < k < s.len() && #[trigger] s[i] == '-' && #[trigger] s[j] == '-'
                && #[trigger] s[k] == '-';
        lemma_dashes_counted(s, i, j, k);
    }
}

/// A search asks for the accounts one after the other, from the first to the last, until one has a
/// tariff; it then ends, with the token and the tariff's code where the code has its segments.
pub proof fn law_search_asks_for_every_account(
    token: Seq<char>,
    numbers: Seq<Seq<char>>,
    current: int,
    code: Seq<char>,
)
    requires
        0 <= current < numbers.len(),
    ensures
        account_action(numbers, current) == (AuthActionView::FetchAccount {
            number: numbers[current],
        }),
        current + 1 < numbers.len() ==> after_account(token, numbers, current, None) == (
        AuthActionView::FetchAccount { number: numbers[current + 1] }),
        current + 1 == numbers.len() ==> after_account(token, numbers, current, None) is Refused,
        account_action(Seq::empty(), 0) is Refused,
        has_three_dashes(code) ==> after_account(
            token,
            numbers,
            current,
            Some(code),
        ) == (AuthActionView::Ready {
            credentials: CredentialsView { token, tariff_code: code },
        }),
        !has_three_dashes(code) ==> after_account(
            token,
            numbers,
            current,
            Some(code),
        ) is Refused,
{
    law_tariff_code_has_four_segments(code);
}

/// The prices stand in the order in which they hold: none stands behind one that holds from later.
pub open spec fn are_in_time_order(rates: Seq<OctopusRate>) -> bool {
    forall|i: int, j: int|
        0 <= i < j < rates.len() ==> (#[trigger] rates[i]).valid_from.secs < (
        #[trigger] rates[j]).valid_from.secs || (rates[i].valid_from.secs
            == rates[j].valid_from.secs && rates[i].valid_from.nanos <= rates[j].valid_from.nanos)
}

/// Each price makes the slot in its place.
pub open spec fn make_slots(
    rates: Seq<OctopusRate>,
    zone: Seq<char>,
    windows: Seq<PricedWindow>,
) -> bool {
    &&& windows.len() == rates.len()
    &&& forall|i: int| 0 <= i < rates.len() ==> makes_slot(rates[i], zone, #[trigger] windows[i])
}

/// Every price that was fetched makes one slot, at the local time from which it holds and at that
/// price: the slots are those of the prices, brought into the order in which they hold.
pub proof fn law_every_price_is_a_slot_in_time_order(rates: Seq<OctopusRate>, zone: Seq<char>)
    ensures
        exists|sorted: Seq<OctopusRate>| #[trigger]
            make_slots(sorted, zone, windows_of(rates, zone)) && are_in_time_order(sorted)
                && sorted.to_multiset() == rates.to_multiset(),
{
    let sorted = stable_sorted(rates, rate_order());
    law_every_price_has_a_slot(rates, zone);
    assert forall|i: int, j: int| 0 <= i < j < sorted.len() implies (
    #[trigger] sorted[i]).valid_from.secs < (#[trigger] sorted[j]).valid_from.secs || (
    sorted[i].valid_from.secs == sorted[j].valid_from.secs && sorted[i].valid_from.nanos
        <= sorted[j].valid_from.nanos) by {
        law_windows_are_chronological(rates, i, j);
    }
    assert(make_slots(sorted, zone, windows_of(rates, zone)));
}

/// The slot starts when the clock shows the time from which the price holds, and has the price.
pub open spec fn makes_slot(rate: OctopusRate, zone: Seq<char>, w: PricedWindow) -> bool {
    local_clock(zone, rate.valid_from.secs) matches Some(clock) ==> w.date.days == clock.0 && w.hour
        == clock.1 && w.minute == clock.2 && w.price_p_per_kwh == rate.value_inc_vat
}

/// A day's prices are asked for from its local midnight on; where the clocks skip midnight, from
/// midnight in UTC on.
pub proof fn law_day_is_asked_for_from_local_midnight(zone: Seq<char>, date: CivilDate)
    ensures
        local_instant(zone, date.days, 0, 0) matches Some(secs) ==> midnight_text(zone, date)
            == utc_text(secs, "%Y-%m-%dT%H:%M:%SZ"@),
        local_instant(zone, date.days, 0, 0) is None ==> midnight_text(zone, date) == date_text(
            date.days,
        ) + "T00:00:00Z"@,
{
}

/// The view of credentials, of an agreement and of a step of the search has each field as it is.
pub proof fn law_search_is_viewed_whole(c: Credentials, a: Agreement, action: AuthAction)
    ensures
        c@.token == c.token@,
        c@.tariff_code == c.tariff_code@,
        a@.tariff_code == a.tariff_code@,
        a@.valid_from == a.valid_from,
        a@.valid_to == a.valid_to,
        action matches AuthAction::FetchAccount { number } ==> action@
            == (AuthActionView::FetchAccount { number: number@ }),
        action matches AuthAction::Refused { message } ==> action@ == (AuthActionView::Refused {
            message: message@,
        }),
        action matches AuthAction::Ready { credentials } ==> action@ == (AuthActionView::Ready {
            credentials: credentials@,
        }),
        cached_view(Some(c)) == Some(c@),
        cached_view(None) is None,
{
}

/// A search that has found nothing says whether there were accounts to search; one that has found a
/// code without its segments says which.
pub proof fn law_search_says_why_it_ends(
    token: Seq<char>,
    numbers: Seq<Seq<char>>,
    code: Seq<char>,
)
    ensures
        numbers.len() == 0 ==> account_action(numbers, 0) == (AuthActionView::Refused {
            message: "No accounts found for the provided API key"@,
        }),
        numbers.len() > 0 ==> after_account(token, numbers, numbers.len() - 1, None) == (
        AuthActionView::Refused {
            message: "No active Agile tariff found across all accounts"@,
        }),
        !is_tariff_code(code) ==> after_account(token, numbers, 0, Some(code)) == (
        AuthActionView::Refused {
            message: "unexpected tariff code format "@ + quoted_text(code)
                + " (expected at least 4 dash-separated segments, e.g. E-1R-AGILE-FLEX-22-11-25-C)"@,
        }),
{
}

/// A tariff's prices are asked for under its product's code and its own.
pub proof fn law_addresses_name_what_they_are_of(
    first: Seq<char>,
    second: Seq<char>,
    product: Seq<char>,
    region: Seq<char>,
    number: Seq<char>,
)
    requires
        has_no_dash(first),
        has_no_dash(second),
        has_no_dash(region),
    ensures
        ({
            let code = first + seq!['-'] + second + seq!['-'] + product + seq!['-'] + region;
            rates_address(code) == "https://api.octopus.energy/v1/products/"@ + product
                + "/electricity-tariffs/"@ + code + "/standard-unit-rates/"@
        }),
        account_address(number) == "https://api.octopus.energy/v1/accounts/"@ + number + "/"@,
{
    law_product_stands_between_the_segments(first, second, product, region);
}

} // verus!
