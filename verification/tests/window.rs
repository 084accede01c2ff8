use fairlead::replay::window::{add_days, Window};

#[test]
fn the_window_counts_back_across_months_and_leap_days() {
    assert_eq!(
        Window::ending("2026-03-01T10:00:00Z", 1).unwrap().from,
        "2026-02-28"
    );
    assert_eq!(Window::ending("2024-03-01", 1).unwrap().from, "2024-02-29");
    assert_eq!(Window::ending("2026-09-26", 90).unwrap().from, "2026-06-28");
    let w = Window::ending("2026-09-26", 90).unwrap();
    assert!(w.contains("2026-06-28T00:00:00Z") && w.contains("2026-09-26T23:59:59Z"));
    assert!(!w.contains("2026-06-27T23:59:59Z"));
}

#[test]
fn a_date_that_does_not_parse_gives_no_window() {
    assert!(Window::ending("yesterday", 3).is_none());
    assert!(Window::ending("2026-09", 3).is_none());
    let w = Window::ending("2026-01-10", 0).unwrap();
    assert_eq!((w.from.as_str(), w.until.as_str()), ("2026-01-10", "2026-01-10"));
    assert!(!w.contains("short"));
}

#[test]
fn a_year_back_crosses_the_year() {
    assert_eq!(Window::ending("2025-01-01", 365).unwrap().from, "2024-01-02");
    assert_eq!(Window::ending("2000-03-01", 1).unwrap().from, "2000-02-29");
    assert_eq!(Window::ending("1900-03-01", 1).unwrap().from, "1900-02-28");
}

#[test]
fn counting_days_forward_and_back_returns_to_the_date() {
    for (date, n) in [("2024-02-29", 365), ("1999-12-31", 1), ("2000-03-01", -1), ("1970-01-01", 146_097), ("2026-09-26", -90)] {
        let there = add_days(date, n).unwrap();
        assert_eq!(add_days(&there, -n), Some(date.to_string()));
    }
    assert_eq!(add_days("2024-02-29", 365), Some("2025-02-28".to_string()));
    assert_eq!(add_days("1970-01-01", 146_097), Some("2370-01-01".to_string()));
}
