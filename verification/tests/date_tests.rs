//! Tests pinning the day-number calendar against chrono's.

use chrono::{Datelike, NaiveDate, Weekday};
use tasktrack::date::Date;

fn from_chrono(d: NaiveDate) -> Date {
    Date {
        days: d.num_days_from_ce() as i64,
    }
}

#[test]
fn test_day_one_is_a_monday() {
    let first = NaiveDate::from_ymd_opt(1, 1, 1).unwrap();
    assert_eq!(first.num_days_from_ce(), 1);
    assert_eq!(first.weekday(), Weekday::Mon);
    assert_eq!(Date { days: 1 }.weekday_from_monday(), 0);
}

#[test]
fn test_weekday_matches_chrono() {
    let samples = [
        NaiveDate::from_ymd_opt(2026, 10, 12).unwrap(),
        NaiveDate::from_ymd_opt(2026, 10, 18).unwrap(),
        NaiveDate::from_ymd_opt(2024, 2, 29).unwrap(),
        NaiveDate::from_ymd_opt(1999, 12, 31).unwrap(),
        NaiveDate::from_ymd_opt(1970, 1, 1).unwrap(),
    ];
    for d in samples {
        let ours = from_chrono(d).weekday_from_monday();
        let chronos = d.weekday().num_days_from_monday() as i64;
        assert_eq!(ours, chronos, "weekday mismatch for {}", d);
    }
}

#[test]
fn test_week_window_matches_chrono() {
    let samples = [
        NaiveDate::from_ymd_opt(2026, 10, 12).unwrap(),
        NaiveDate::from_ymd_opt(2026, 10, 15).unwrap(),
        NaiveDate::from_ymd_opt(2026, 10, 18).unwrap(),
        NaiveDate::from_ymd_opt(2025, 1, 1).unwrap(),
        NaiveDate::from_ymd_opt(2000, 2, 29).unwrap(),
    ];
    for d in samples {
        let week = d.week(Weekday::Mon);
        assert_eq!(
            from_chrono(d).week_start().days,
            week.first_day().num_days_from_ce() as i64,
            "week start mismatch for {}",
            d
        );
        assert_eq!(
            from_chrono(d).week_end().days,
            week.last_day().num_days_from_ce() as i64,
            "week end mismatch for {}",
            d
        );
    }
}

#[test]
fn test_succ_matches_chrono() {
    let d = NaiveDate::from_ymd_opt(2026, 12, 31).unwrap();
    assert_eq!(
        from_chrono(d).succ().days,
        d.succ_opt().unwrap().num_days_from_ce() as i64
    );
}

#[test]
fn test_in_week_of() {
    let monday = from_chrono(NaiveDate::from_ymd_opt(2026, 10, 12).unwrap());
    let sunday = from_chrono(NaiveDate::from_ymd_opt(2026, 10, 18).unwrap());
    let thursday = from_chrono(NaiveDate::from_ymd_opt(2026, 10, 15).unwrap());
    let before = from_chrono(NaiveDate::from_ymd_opt(2026, 10, 11).unwrap());
    let after = from_chrono(NaiveDate::from_ymd_opt(2026, 10, 19).unwrap());
    assert!(monday.in_week_of(thursday));
    assert!(sunday.in_week_of(thursday));
    assert!(thursday.in_week_of(thursday));
    assert!(!before.in_week_of(thursday));
    assert!(!after.in_week_of(thursday));
}
