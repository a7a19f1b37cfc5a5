use chrono::{Datelike, NaiveDate};

use temporal_gridshift::calendar::{CivilDate, Moment};
use temporal_gridshift::providers::octopus::{
    account_url, check_timezone, count_dashes, describe_day_start, find_agile_tariff,
    price_request, priced_window, product_code, Account, Agreement, AuthAction, AuthSession,
    Credentials, ElectricityMeterPoint, OctopusProvider, OctopusRate, Property,
};
use temporal_gridshift::providers::TimeOfDay;
use temporal_gridshift::{Price, PriceProvider, PricedWindow, ProviderError};

const TARIFF: &str = "E-1R-AGILE-FLEX-22-11-25-C";

fn date(year: i32, month: u32, day: u32) -> CivilDate {
    CivilDate {
        days: NaiveDate::from_ymd_opt(year, month, day)
            .unwrap()
            .num_days_from_ce(),
    }
}

fn at(secs: i64) -> Moment {
    Moment { secs, nanos: 0 }
}

fn agreement(code: &str, from: Option<i64>, to: Option<i64>) -> Agreement {
    Agreement {
        tariff_code: code.to_owned(),
        valid_from: from.map(at),
        valid_to: to.map(at),
    }
}

fn account(points: Vec<Vec<Agreement>>) -> Account {
    Account {
        properties: points
            .into_iter()
            .map(|agreements| Property {
                electricity_meter_points: vec![ElectricityMeterPoint { agreements }],
            })
            .collect(),
    }
}

// ---- the provider ----

#[test]
fn provider_starts_without_credentials() {
    let provider = OctopusProvider::new();
    assert!(provider.cached().is_none());
    assert!(OctopusProvider::default().cached().is_none());
    assert_eq!(provider.slot_duration_mins(), 30);
    assert_eq!(
        provider.next_day_data_available_at(),
        Some(TimeOfDay {
            hour: 16,
            minute: 0
        })
    );
}

#[test]
fn providers_that_say_nothing_have_half_hours_and_no_wait() {
    struct Plain;
    impl PriceProvider for Plain {}
    assert_eq!(Plain.slot_duration_mins(), 30);
    assert_eq!(Plain.next_day_data_available_at(), None);
}

#[test]
fn credentials_are_kept_until_the_token_is_refused() {
    let mut provider = OctopusProvider::new();
    let handed_out = provider.resolve_auth(Credentials {
        token: "t".to_owned(),
        tariff_code: TARIFF.to_owned(),
    });
    assert_eq!(handed_out.token, "t");
    let cached = provider.cached().unwrap();
    assert_eq!((cached.token.as_str(), cached.tariff_code.as_str()), ("t", TARIFF));
    for status in [200, 400, 403, 404, 500] {
        assert!(provider.rates_answered(status).is_none());
        assert!(provider.cached().is_some());
    }
    assert_eq!(
        provider.rates_answered(401).unwrap().message(),
        "Octopus API returned 401: token expired, will re-authenticate on retry"
    );
    assert!(provider.cached().is_none());
}

// ---- tariffs ----

#[test]
fn agile_tariff_is_found_among_current_ones() {
    let a = account(vec![
        vec![
            agreement("E-1R-VAR-22-11-01-C", None, None),
            agreement("E-1R-AGILE-OLD-18-02-21-C", Some(0), Some(100)),
        ],
        vec![
            agreement("E-1R-AGILE-OUTGOING-19-05-13-C", None, None),
            agreement(TARIFF, Some(100), Some(200)),
            agreement("E-1R-AGILE-24-04-03-C", None, None),
        ],
    ]);
    assert_eq!(
        find_agile_tariff(&a, at(99)).as_deref(),
        Some("E-1R-AGILE-OLD-18-02-21-C")
    );
    assert_eq!(find_agile_tariff(&a, at(100)).as_deref(), Some(TARIFF));
    assert_eq!(find_agile_tariff(&a, at(199)).as_deref(), Some(TARIFF));
    assert_eq!(
        find_agile_tariff(&a, at(200)).as_deref(),
        Some("E-1R-AGILE-24-04-03-C")
    );
}

#[test]
fn account_may_have_no_agile_tariff() {
    assert!(find_agile_tariff(&account(vec![]), at(0)).is_none());
    let a = account(vec![vec![
        agreement("E-1R-VAR-22-11-01-C", None, None),
        agreement("E-1R-AGILE-OUTGOING-19-05-13-C", None, None),
        agreement("E-1R-AGILE-24-04-03-C", Some(1), None),
    ]]);
    assert!(find_agile_tariff(&a, at(0)).is_none());
}

#[test]
fn product_code_drops_two_segments_and_the_last() {
    assert_eq!(product_code(TARIFF), "AGILE-FLEX-22-11-25");
    assert_eq!(product_code("a-b-c-d"), "c");
    assert_eq!(product_code("---"), "");
    assert_eq!(product_code("é-ü-AGILE-ñ-x"), "AGILE-ñ");
    assert_eq!(count_dashes(TARIFF), 7);
    assert_eq!(count_dashes(""), 0);
}

// ---- the search for credentials ----

#[test]
fn search_ends_with_the_first_account_that_has_a_tariff() {
    let (mut session, action) =
        AuthSession::start("t".to_owned(), vec!["A-1".to_owned(), "A-2".to_owned(), "A-3".to_owned()]);
    assert!(matches!(action, AuthAction::FetchAccount { number } if number == "A-1"));
    let action = session.account_fetched(&account(vec![]), at(0));
    assert!(matches!(action, AuthAction::FetchAccount { number } if number == "A-2"));
    let action =
        session.account_fetched(&account(vec![vec![agreement(TARIFF, None, None)]]), at(0));
    match action {
        AuthAction::Ready { credentials } => {
            assert_eq!(credentials.token, "t");
            assert_eq!(credentials.tariff_code, TARIFF);
        }
        other => panic!("unexpected action {other:?}"),
    }
}

#[test]
fn search_without_accounts_is_refused() {
    let (_, action) = AuthSession::start("t".to_owned(), vec![]);
    assert!(matches!(action, AuthAction::Refused { message }
        if message == "No accounts found for the provided API key"));
}

#[test]
fn search_without_a_tariff_is_refused() {
    let (mut session, _) = AuthSession::start("t".to_owned(), vec!["A-1".to_owned()]);
    let action = session.account_fetched(&account(vec![]), at(0));
    assert!(matches!(action, AuthAction::Refused { message }
        if message == "No active Agile tariff found across all accounts"));
}

#[test]
fn search_refuses_odd_tariff_codes() {
    let (mut session, _) = AuthSession::start("t".to_owned(), vec!["A-1".to_owned()]);
    let odd = account(vec![vec![agreement("E-AGILE-\"C\"", None, None)]]);
    match session.account_fetched(&odd, at(0)) {
        AuthAction::Refused { message } => assert_eq!(
            message,
            "unexpected tariff code format \"E-AGILE-\\\"C\\\"\" (expected at least 4 \
             dash-separated segments, e.g. E-1R-AGILE-FLEX-22-11-25-C)"
        ),
        other => panic!("unexpected action {other:?}"),
    }
}

// ---- requests ----

#[test]
fn addresses_name_account_product_and_tariff() {
    assert_eq!(
        account_url("A-1"),
        "https://api.octopus.energy/v1/accounts/A-1/"
    );
    let request = price_request(date(2024, 7, 1), "Europe/London", TARIFF);
    assert_eq!(
        request.url,
        "https://api.octopus.energy/v1/products/AGILE-FLEX-22-11-25/electricity-tariffs/\
         E-1R-AGILE-FLEX-22-11-25-C/standard-unit-rates/"
    );
}

#[test]
fn day_is_bounded_by_local_midnights() {
    let summer = price_request(date(2024, 7, 1), "Europe/London", TARIFF);
    assert_eq!(summer.period_from, "2024-06-30T23:00:00Z");
    assert_eq!(summer.period_to, "2024-07-01T23:00:00Z");
    let change = price_request(date(2024, 3, 31), "Europe/London", TARIFF);
    assert_eq!(change.period_from, "2024-03-31T00:00:00Z");
    assert_eq!(change.period_to, "2024-03-31T23:00:00Z");
}

#[test]
fn skipped_midnight_is_taken_as_utc() {
    // Clocks in Havana skip midnight of 10 March 2024.
    let request = price_request(date(2024, 3, 10), "America/Havana", TARIFF);
    assert_eq!(request.period_from, "2024-03-10T00:00:00Z");
    assert_eq!(
        describe_day_start(None, date(2024, 3, 10)),
        "2024-03-10T00:00:00Z"
    );
    assert_eq!(
        describe_day_start(Some(0), date(2024, 3, 10)),
        "1970-01-01T00:00:00Z"
    );
}

#[test]
fn timezone_is_checked() {
    assert!(check_timezone("Europe/Paris").is_ok());
    assert_eq!(
        check_timezone("Europe/Atlantis").unwrap_err().message(),
        "invalid timezone \"Europe/Atlantis\""
    );
}

// ---- prices ----

fn pence(pence: i32) -> Price {
    Price {
        pence,
        billionths: 0,
    }
}

fn rate(value: i32, secs: i64) -> OctopusRate {
    OctopusRate {
        value_inc_vat: pence(value),
        valid_from: at(secs),
    }
}

fn window(date: CivilDate, hour: u32, minute: u32, price: i32) -> PricedWindow {
    PricedWindow {
        date,
        hour,
        minute,
        price_p_per_kwh: pence(price),
    }
}

#[test]
fn rates_become_local_slots_in_chronological_order() {
    // 2024-06-30T23:30Z, 2024-06-30T23:00Z and 2024-07-01T12:30Z.
    let rates = vec![
        rate(-3, 1_719_790_200),
        rate(7, 1_719_788_400),
        rate(5, 1_719_837_000),
    ];
    let windows = OctopusProvider::new()
        .fetch_priced_windows(date(2024, 7, 1), "Europe/London", rates)
        .unwrap();
    assert_eq!(
        windows,
        vec![
            window(date(2024, 7, 1), 0, 0, 7),
            window(date(2024, 7, 1), 0, 30, -3),
            window(date(2024, 7, 1), 13, 30, 5),
        ]
    );
}

#[test]
fn rates_of_the_same_instant_stay_in_their_order() {
    let rates = vec![rate(2, 1_800), rate(1, 1_800), rate(9, 0)];
    let prices: Vec<i32> = OctopusProvider::new()
        .fetch_priced_windows(date(1970, 1, 1), "UTC", rates)
        .unwrap()
        .iter()
        .map(|w| w.price_p_per_kwh.pence)
        .collect();
    assert_eq!(prices, vec![9, 2, 1]);
    assert_eq!(
        priced_window((5, 6, 7, 8), rate(8, 0)),
        window(CivilDate { days: 5 }, 6, 7, 8)
    );
}

#[test]
fn no_rates_mean_not_yet_published() {
    let provider = OctopusProvider::new();
    let error = provider
        .fetch_priced_windows(date(2024, 7, 1), "UTC", vec![])
        .unwrap_err();
    assert!(matches!(error, ProviderError::NotYetPublished { date: d } if d == date(2024, 7, 1)));
    assert_eq!(error.message(), "prices not yet published for 2024-07-01");
    assert_eq!(
        provider
            .fetch_priced_windows(date(2024, 7, 1), "", vec![rate(1, 0)])
            .unwrap_err()
            .message(),
        "invalid timezone \"\""
    );
}
