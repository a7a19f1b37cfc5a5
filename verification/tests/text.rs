use temporal_gridshift::planning::horizon_skip_reason;
use temporal_gridshift::text::{
    decimal, is_same_text, join_three, text_contains, text_is_less, two_digits,
};

#[test]
fn numbers_are_written_in_decimal() {
    for n in [0, 7, 9, 10, 48, 100, 1_234_567_890, u64::MAX] {
        assert_eq!(decimal(n), n.to_string());
    }
}

#[test]
fn small_numbers_are_padded_to_two_digits() {
    for n in [0, 5, 9, 10, 59, 123, u32::MAX] {
        assert_eq!(two_digits(n), format!("{n:02}"));
    }
}

#[test]
fn texts_are_joined_and_told_apart() {
    assert_eq!(join_three("a", "", "né"), "ané");
    assert!(is_same_text(&"né".to_owned(), "né"));
    assert!(!is_same_text(&"ne".to_owned(), "né"));
}

#[test]
fn texts_are_searched() {
    let texts = ["", "a", "ab", "aab", "né", "AGILE-OUTGOING", "aaaab"];
    let needles = ["", "a", "b", "ab", "aab", "é", "OUTGOING", "OUTGOINGS"];
    for text in texts {
        for needle in needles {
            assert_eq!(text_contains(text, needle), text.contains(needle));
        }
    }
}

#[test]
fn texts_are_ordered_by_code_points() {
    let texts = ["", "a", "ab", "b", "Z", "é", "\u{ffff}", "\u{10000}", "a\u{10000}"];
    for a in texts {
        for b in texts {
            assert_eq!(text_is_less(a, b), a < b);
        }
    }
}

#[test]
fn waits_read_in_years_down_to_seconds() {
    let reads = |secs: u64| horizon_skip_reason(Some(0), secs, 0);
    let all = 2 * 31_557_600 + 2_630_016 + 3 * 86_400 + 4 * 3_600 + 5 * 60 + 6;
    for (secs, text) in [
        (0, "0s"),
        (1, "1s"),
        (60, "1m"),
        (3_601, "1h 1s"),
        (86_400, "1day"),
        (5 * 86_400, "5days"),
        (2 * 2_630_016, "2months"),
        (31_557_600, "1year"),
        (all, "2years 1month 3days 4h 5m 6s"),
    ] {
        assert_eq!(reads(secs), format!("next run in {text}, outside the price horizon"));
    }
}
