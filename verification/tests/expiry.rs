use chrono::{Datelike, NaiveDate};
use pairs_trading::expiry::{broker_day, trading_days_between, ExpiryTable};

fn day(y: i32, m: u32, d: u32) -> i32 {
    NaiveDate::from_ymd_opt(y, m, d).unwrap().num_days_from_ce()
}

#[test]
fn set_expiry_dates_counts_weekdays() {
    // current date is a Friday
    let current = day(2025, 9, 19); // 2025-09-19 (Fri)
    let inst_expiry: Vec<(String, i32)> = vec![
        // Same-day expiry -> 0
        ("ag2510".into(), day(2025, 9, 19)),
        // Following Monday -> counts Friday only -> 1
        ("ag2511".into(), day(2025, 9, 22)),
        // Next Friday -> Fri (19), Mon-Thu (22-25) => 5 trading days
        ("cu2510".into(), day(2025, 9, 26)),
        // Past expiry -> 0
        ("cu2509".into(), day(2025, 9, 18)),
    ];
    let table = ExpiryTable::from_expiry_days(current, &inst_expiry);
    assert_eq!(table.get("ag2510"), Some(0));
    assert_eq!(table.get("ag2511"), Some(1));
    assert_eq!(table.get("cu2510"), Some(5));
    assert_eq!(table.get("cu2509"), Some(0));
    assert_eq!(table.get("zn2510"), None);
}

#[test]
fn weekday_count_matches_the_calendar() {
    let start = NaiveDate::from_ymd_opt(2024, 2, 20).unwrap();
    for len in 0..40i64 {
        let end = start + chrono::Duration::days(len);
        let mut expected = 0u32;
        let mut d = start;
        while d < end {
            if d.weekday().num_days_from_monday() < 5 {
                expected += 1;
            }
            d = d + chrono::Duration::days(1);
        }
        assert_eq!(trading_days_between(start.num_days_from_ce(), end.num_days_from_ce()), expected);
    }
    // any week holds five weekdays
    assert_eq!(trading_days_between(day(2025, 1, 1), day(2025, 1, 8)), 5);
    assert_eq!(trading_days_between(day(2025, 1, 8), day(2025, 1, 1)), 0);
}

#[test]
fn last_bar_per_contract_is_its_maximum() {
    let contracts: Vec<String> = ["A1", "B1", "A1", "B1", "A2"].iter().map(|s| s.to_string()).collect();
    let bars = vec![3u32, 9, 7, 2, 0];
    let t = ExpiryTable::from_rows(&contracts, &bars);
    assert_eq!(t.get("A1"), Some(7));
    assert_eq!(t.get("B1"), Some(9));
    assert_eq!(t.get("A2"), Some(0));
    assert_eq!(t.get("C1"), None);
}

#[test]
fn expiry_window_checks() {
    let contracts: Vec<String> = ["A1", "B1"].iter().map(|s| s.to_string()).collect();
    let t = ExpiryTable::from_rows(&contracts, &vec![10u32, 50]);
    // Expiry on day 10 with a 7-day buffer: any bar >= 3 is near expiry
    assert!(!t.expires_within("A1", 2, 7));
    assert!(t.expires_within("A1", 3, 7));
    assert!(!t.expires_within("B1", 5, 7));
    assert!(!t.expires_within("C1", 5, 7));
    assert!(t.pair_expires_within("A1", "B1", 5, 7));
    assert!(!t.pair_expires_within("B1", "C1", 5, 7));
}

#[test]
fn later_entry_replaces_earlier() {
    let mut t = ExpiryTable::new();
    t.set("ag", 4);
    t.set("cu", 2);
    t.set("ag", 1);
    assert_eq!(t.get("ag"), Some(1));
    assert_eq!(t.get("cu"), Some(2));
}

#[test]
fn broker_dates_read_as_day_numbers() {
    assert_eq!(broker_day("20250919"), Some(day(2025, 9, 19)));
    assert_eq!(broker_day("19700101"), Some(719_163));
    assert_eq!(broker_day("20240229"), Some(day(2024, 2, 29)));
    // not a date
    assert_eq!(broker_day("20250230"), None);
    assert_eq!(broker_day("2025-09-19"), None);
    assert_eq!(broker_day(""), None);
}

#[test]
fn broker_dates_feed_the_expiry_table() {
    let current = broker_day("20250919").unwrap();
    let expiries: Vec<(String, i32)> = vec![("ag2511".into(), broker_day("20250922").unwrap())];
    let t = ExpiryTable::from_expiry_days(current, &expiries);
    assert_eq!(t.get("ag2511"), Some(1));
}

#[test]
fn expiring_pairs_are_those_with_a_leg_near_expiry() {
    let contracts: Vec<String> = ["A1", "B1", "C1"].iter().map(|s| s.to_string()).collect();
    let t = ExpiryTable::from_rows(&contracts, &vec![10u32, 50, 30]);
    let pairs: Vec<(String, String)> = vec![
        ("B1".into(), "A1".into()),
        ("B1".into(), "C1".into()),
        ("X1".into(), "Y1".into()),
        ("A1".into(), "C1".into()),
    ];
    // day 5 with a 7-day window: A1 (10) is near, C1 (30) and B1 (50) are not;
    // unknown contracts never are
    assert_eq!(
        t.expiring_pairs(&pairs, 5, 7),
        vec![("B1".to_string(), "A1".to_string()), ("A1".to_string(), "C1".to_string())]
    );
    assert_eq!(t.expiring_pairs(&pairs, 0, 0), Vec::<(String, String)>::new());
    assert_eq!(t.expiring_pairs(&pairs, 25, 5).len(), 3);
}
