use dlog::hours::{
    format_hours, parse_duration, CommitGap, FirstToLast, Hours, HoursEstimator, SessionSpan,
};
use dlog::scanner::CommitRecord;

/// A number of hours as a duration.
fn hours(v: f64) -> i64 {
    (v * 3_600_000_000.0).round() as i64
}

fn in_hours(v: i64) -> f64 {
    v as f64 / 3_600_000_000.0
}

fn approx(a: f64, b: f64) -> bool {
    (a - b).abs() < 1e-3
}

fn c(ts: i64) -> CommitRecord {
    CommitRecord {
        oid: format!("{ts:07x}"),
        author_time: ts,
        subject: "x".to_string(),
        body: String::new(),
        branches: String::new(),
        repo: "r".to_string(),
    }
}

#[test]
fn format_hours_under_one_hour() {
    assert_eq!(format_hours(hours(0.0)), "0m");
    assert_eq!(format_hours(hours(0.1)), "6m");
    assert_eq!(format_hours(hours(0.5)), "30m");
    assert_eq!(format_hours(hours(0.983)), "59m");
}

#[test]
fn format_hours_at_or_above_one_hour() {
    assert_eq!(format_hours(hours(1.0)), "1h");
    assert_eq!(format_hours(hours(1.25)), "1h 15m");
    assert_eq!(format_hours(hours(2.333)), "2h 20m");
}

#[test]
fn parse_duration_minutes_hours_and_combo() {
    assert_eq!(parse_duration("30m"), Some(hours(0.5)));
    assert_eq!(parse_duration("2h"), Some(hours(2.0)));
    assert_eq!(parse_duration("2h 30m"), Some(hours(2.5)));
    assert_eq!(parse_duration("2h30m"), Some(hours(2.5)));
    assert_eq!(parse_duration("1.5h"), Some(hours(1.5)));
    assert_eq!(parse_duration("45M"), Some(hours(0.75)));
}

#[test]
fn parse_duration_bare_number_is_hours() {
    assert_eq!(parse_duration("2.5"), Some(hours(2.5)));
    assert_eq!(parse_duration("0"), Some(hours(0.0)));
}

#[test]
fn parse_duration_rejects_invalid() {
    assert!(parse_duration("").is_none());
    assert!(parse_duration("   ").is_none());
    assert!(parse_duration("foo").is_none());
    assert!(parse_duration("-1h").is_none());
    assert!(parse_duration("2h30").is_none(), "trailing digits without unit");
    assert!(parse_duration("2h m").is_none(), "empty minutes component");
}

#[test]
fn gap_single_commit_returns_lead_plus_trail() {
    let commits = vec![c(0)];
    let refs: Vec<&CommitRecord> = commits.iter().collect();
    let h = CommitGap::default().estimate(&refs);
    assert!(approx(in_hours(h.value), 0.5), "expected 0.5h, got {}", h.value);
    assert_eq!(h.detail, "single commit (30 min default)");
}

#[test]
fn gap_three_close_commits_sums_gaps_plus_buffers() {
    let commits = vec![c(0), c(600), c(1200)];
    let refs: Vec<&CommitRecord> = commits.iter().collect();
    let h = CommitGap::default().estimate(&refs);
    let expected = (20.0 + 30.0) / 60.0;
    assert!(approx(in_hours(h.value), expected), "expected {expected}h, got {}", h.value);
    assert_eq!(h.detail, "3 commits");
}

#[test]
fn gap_clamps_idle_periods() {
    let commits = vec![c(0), c(7200)];
    let refs: Vec<&CommitRecord> = commits.iter().collect();
    let h = CommitGap::default().estimate(&refs);
    assert!(approx(in_hours(h.value), 1.0), "expected 1.0h, got {}", h.value);
    assert!(h.detail.contains("clamped"), "detail should mention clamp: {}", h.detail);
    assert_eq!(h.detail, "2 commits, 1 gap clamped");
}

#[test]
fn span_single_commit_is_zero() {
    let commits = vec![c(0)];
    let refs: Vec<&CommitRecord> = commits.iter().collect();
    let h = FirstToLast.estimate(&refs);
    assert!(approx(in_hours(h.value), 0.0));
}

#[test]
fn span_measures_first_to_last() {
    let commits = vec![c(0), c(3600), c(9000)];
    let refs: Vec<&CommitRecord> = commits.iter().collect();
    let h = FirstToLast.estimate(&refs);
    assert!(approx(in_hours(h.value), 2.5), "expected 2.5h, got {}", h.value);
}

#[test]
fn estimates_of_no_commits() {
    let refs: Vec<&CommitRecord> = Vec::new();
    let gap = CommitGap::default().estimate(&refs);
    let span = FirstToLast.estimate(&refs);
    assert_eq!((gap.value, gap.detail.as_str()), (0, "no commits"));
    assert_eq!((span.value, span.detail.as_str()), (0, "no commits"));
    assert_eq!(CommitGap::default().name(), "gap");
    assert_eq!(FirstToLast.name(), "span");
    assert_eq!(Hours::zero("none").display(), "0m");
}

#[test]
fn estimates_do_not_depend_on_order() {
    let commits = vec![c(1200), c(0), c(20000), c(600)];
    let refs: Vec<&CommitRecord> = commits.iter().collect();
    let back: Vec<&CommitRecord> = commits.iter().rev().collect();
    let gap = CommitGap::default();
    let session = SessionSpan { session_break_min: 120, lead_min: 15, trail_min: 15 };
    assert_eq!(gap.estimate(&refs).value, gap.estimate(&back).value);
    assert_eq!(session.estimate(&refs).value, session.estimate(&back).value);
    assert_eq!(gap.estimate(&refs).detail, gap.estimate(&back).detail);
    assert_eq!(session.estimate(&refs).detail, session.estimate(&back).detail);
    assert_eq!(FirstToLast.estimate(&refs).value, hours(20000.0 / 3600.0));
    assert_eq!(FirstToLast.estimate(&back).detail, FirstToLast.estimate(&refs).detail);
}

#[test]
fn sessions_are_broken_by_long_gaps() {
    let session = SessionSpan { session_break_min: 120, lead_min: 15, trail_min: 15 };
    let one = vec![c(0), c(3600), c(9000)];
    let refs: Vec<&CommitRecord> = one.iter().collect();
    assert_eq!(session.estimate(&refs).value, hours(3.0));
    let two = vec![c(0), c(3600), c(3600 + 7201), c(3600 + 7201 + 600)];
    let refs: Vec<&CommitRecord> = two.iter().collect();
    assert_eq!(session.estimate(&refs).value, hours(1.0 + 1.0 / 6.0 + 1.0));
}

#[test]
fn written_durations_read_back() {
    for minutes in 0..1000i64 {
        let v = minutes * 60_000_000;
        assert_eq!(parse_duration(&format_hours(v)), Some(v), "{minutes}");
    }
}

#[test]
fn durations_are_read_like_decimal_numbers() {
    assert_eq!(parse_duration("1e1"), Some(hours(10.0)));
    assert_eq!(parse_duration("+.5"), Some(hours(0.5)));
    assert_eq!(parse_duration("5."), Some(hours(5.0)));
    assert_eq!(parse_duration("inf"), Some(i64::MAX));
    assert_eq!(parse_duration("NaN"), None);
    assert_eq!(parse_duration("-0"), Some(0));
    assert_eq!(parse_duration("-inf"), None);
    assert_eq!(parse_duration("1h inf m"), Some(i64::MAX));
    assert_eq!(parse_duration("30m 1h"), None);
    assert_eq!(parse_duration(" 1 H 15 M "), Some(hours(1.25)));
    assert_eq!(parse_duration("1e-400"), Some(0));
    assert_eq!(parse_duration("1e400"), Some(i64::MAX));
}

#[test]
fn rounding_is_to_the_nearest_minute() {
    assert_eq!(format_hours(29_999_999), "0m");
    assert_eq!(format_hours(30_000_000), "1m");
    assert_eq!(format_hours(-30_000_000), "-1m");
    assert_eq!(format_hours(59 * 60_000_000 + 30_000_000), "1h");
    assert_eq!(format_hours(i64::MAX), "2562047788h 1m");
}

#[test]
fn clamping_only_shortens() {
    let near = vec![c(0), c(1000), c(1800)];
    let far = vec![c(0), c(1000), c(100_000)];
    let gap = CommitGap::default();
    let refs: Vec<&CommitRecord> = near.iter().collect();
    assert_eq!(gap.estimate(&refs).value, (1800 + 1800) * 1_000_000);
    let refs: Vec<&CommitRecord> = far.iter().collect();
    assert_eq!(gap.estimate(&refs).value, (1000 + 1800 + 1800) * 1_000_000);
}
