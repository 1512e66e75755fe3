use dlog::dates::{days_in_month, first_of_month, month_name, Date, Instant};
use dlog::paths::{expand_tilde, truncate_left, validate_repo, TypedPath};

fn day(y: i32, m: u32, d: u32) -> Date {
    Date::from_ymd(y, m, d).unwrap()
}

#[test]
fn dates_exist_or_not() {
    assert!(Date::from_ymd(2024, 2, 29).is_some());
    assert!(Date::from_ymd(2023, 2, 29).is_none());
    assert!(Date::from_ymd(1900, 2, 29).is_none());
    assert!(Date::from_ymd(2000, 2, 29).is_some());
    assert!(Date::from_ymd(2026, 13, 1).is_none());
    assert!(Date::from_ymd(2026, 4, 31).is_none());
    assert!(Date::from_ymd(262142, 12, 31).is_some());
    assert!(Date::from_ymd(262143, 1, 1).is_none());
    assert!(Date::from_ymd(-262143, 1, 1).is_some());
}

#[test]
fn days_are_counted() {
    assert_eq!(day(2026, 2, 28).add_days(1), Some(day(2026, 3, 1)));
    assert_eq!(day(2026, 1, 1).add_days(-1), Some(day(2025, 12, 31)));
    assert_eq!(day(262142, 12, 31).add_days(1), None);
    assert_eq!(day(-262143, 1, 1).add_days(-1), None);
    assert_eq!(day(2026, 1, 1).add_days(i64::MAX), None);
    assert_eq!(day(2026, 1, 1).add_days(i64::MIN), None);
    assert_eq!(day(2026, 4, 1).days_until(day(2026, 5, 1)), 30);
    assert_eq!(day(2026, 4, 22).weekday(), 2);
    assert!(day(2026, 4, 1).is_before(day(2026, 4, 2)));
    assert!(!day(2026, 4, 2).is_before(day(2026, 4, 2)));
}

#[test]
fn months_have_lengths_and_names() {
    assert_eq!(days_in_month(2024, 2), 29);
    assert_eq!(days_in_month(2023, 2), 28);
    assert_eq!(days_in_month(2026, 12), 31);
    assert_eq!(days_in_month(262142, 12), 31);
    assert_eq!(first_of_month(day(2026, 4, 22)), day(2026, 4, 1));
    assert_eq!(month_name(4), "April");
    assert_eq!(month_name(13), "?");
}

#[test]
fn dates_are_written() {
    assert_eq!(day(2026, 4, 2).iso(), "2026-04-02");
    assert_eq!(day(-5, 4, 2).iso(), "-0005-04-02");
    assert_eq!(day(12345, 4, 2).iso(), "+12345-04-02");
    assert_eq!(day(2026, 4, 22).with_weekday(), "2026-04-22 (Wed)");
    assert_eq!(day(2026, 4, 2).spoken(), "Thu Apr 2");
}

#[test]
fn moments_are_written() {
    let at = Instant::new(0, 0).unwrap();
    assert_eq!(at.for_jira(), "1970-01-01T00:00:00.000+0000");
    assert_eq!(at.to_minute(), "1970-01-01 00:00");
    let west = Instant::new(0, -5 * 3600 - 1800).unwrap();
    assert_eq!(west.for_jira(), "1969-12-31T18:30:00.000-0530");
    assert_eq!(west.clock(), "18:30");
    assert!(Instant::new(i64::MAX, 0).is_none());
    assert!(Instant::new(0, 86_400).is_none());
}

#[test]
fn long_texts_are_cut_on_the_left() {
    assert_eq!(truncate_left("abcdef", 10), "abcdef");
    assert_eq!(truncate_left("abcdef", 6), "abcdef");
    assert_eq!(truncate_left("abcdef", 5), "...ef");
    assert_eq!(truncate_left("abcdef", 3), "...");
    assert_eq!(truncate_left("abcdef", 1), "...");
    assert_eq!(truncate_left("abcdef", 0), "");
    assert_eq!(truncate_left("äöüß", 4), "äöüß");
}

#[test]
fn tildes_are_expanded() {
    match expand_tilde("~/dev", true) {
        TypedPath::UnderHome(rest) => assert_eq!(rest, "dev"),
        other => panic!("{other:?}"),
    }
    match expand_tilde("~/dev", false) {
        TypedPath::Plain(path) => assert_eq!(path, "~/dev"),
        other => panic!("{other:?}"),
    }
    match expand_tilde("/dev", true) {
        TypedPath::Plain(path) => assert_eq!(path, "/dev"),
        other => panic!("{other:?}"),
    }
}

#[test]
fn repositories_are_validated() {
    assert_eq!(validate_repo("/x", true, true, false), Ok(()));
    assert_eq!(validate_repo("/x", true, false, true), Ok(()));
    assert_eq!(
        validate_repo("/x", true, false, false),
        Err("not a git repo: /x".to_string())
    );
    assert_eq!(
        validate_repo("/x", false, true, true),
        Err("path does not exist: /x".to_string())
    );
}
