use dlog::config::{
    default_budget_hours, default_lead_min, default_session_break_min, default_status_filter,
    default_trail_min, needs_migration, Config, EstimationConfig,
};
use dlog::fill::fill;
use dlog::report::{
    group_commits, group_with_hours, group_with_hours_cfg, subtitle, sum_time_markers, UNTAGGED,
};
use dlog::scanner::{
    message_parts, scan, scan_days, scan_in_flight, sort_records, walk_cutoff, BranchIndex,
    CommitMeta, CommitRecord, Window,
};
use dlog::dates::Date;
use dlog::pr::{build_pr_index, enrich_records_with_prs, PrInfo, PrState};
use dlog::tickets::{extract, extract_time_markers};

const HOUR: i64 = 3_600_000_000;

fn record(oid: &str, time: i64, subject: &str, body: &str, branches: &str) -> CommitRecord {
    CommitRecord {
        oid: oid.to_string(),
        author_time: time,
        subject: subject.to_string(),
        body: body.to_string(),
        branches: branches.to_string(),
        repo: "r".to_string(),
    }
}

fn approx_eq(a: &[i64], b: &[f64]) -> bool {
    a.len() == b.len()
        && a.iter().zip(b).all(|(x, y)| (*x as f64 / HOUR as f64 - y).abs() < 1e-3)
}

#[test]
fn time_markers_bracketed_durations() {
    assert!(approx_eq(&extract_time_markers("fix [30m]"), &[0.5]));
    assert!(approx_eq(&extract_time_markers("[1h] and [2h 30m]"), &[1.0, 2.5]));
    assert!(approx_eq(&extract_time_markers("[1.5h]"), &[1.5]));
}

#[test]
fn time_markers_ignores_non_duration_brackets() {
    assert!(extract_time_markers("[TODO] do thing").is_empty());
    assert!(extract_time_markers("no markers at all").is_empty());
    assert!(extract_time_markers("[WIP] [refactor]").is_empty());
}

#[test]
fn time_markers_mixed() {
    assert!(approx_eq(&extract_time_markers("[WIP] init login [1h 30m]"), &[1.5]));
}

#[test]
fn time_markers_without_time_are_ignored() {
    assert!(extract_time_markers("[0m] [0h]").is_empty());
    assert!(extract_time_markers("[]").is_empty());
}

#[test]
fn ticket_keys_are_sorted_and_unique() {
    assert_eq!(extract("TP-2 and TP-1 and TP-2"), vec!["TP-1", "TP-2"]);
    assert_eq!(extract("tp-1 A-1 AB1-22x"), vec!["AB1-22"]);
    assert!(extract("nothing here").is_empty());
    assert_eq!(extract("feature/ABC-12-login"), vec!["ABC-12"]);
}

#[test]
fn commits_are_grouped_by_ticket() {
    let records = vec![
        record("1", 300, "no ticket", "", ""),
        record("2", 200, "TP-2: b", "see TP-1", ""),
        record("3", 100, "a", "", "feature/TP-1"),
    ];
    let groups = group_commits(&records);
    let names: Vec<&str> = groups.iter().map(|g| g.0.as_str()).collect();
    assert_eq!(names, vec!["TP-1", "TP-2", UNTAGGED]);
    let oids: Vec<Vec<&str>> =
        groups.iter().map(|g| g.1.iter().map(|c| c.oid.as_str()).collect()).collect();
    assert_eq!(oids, vec![vec!["3", "2"], vec!["2"], vec!["1"]]);
}

#[test]
fn groups_keep_equally_old_commits_in_order() {
    let records = vec![
        record("1", 5, "AB-1", "", ""),
        record("2", 5, "AB-1", "", ""),
        record("3", 4, "AB-1", "", ""),
    ];
    let groups = group_commits(&records);
    let oids: Vec<&str> = groups[0].1.iter().map(|c| c.oid.as_str()).collect();
    assert_eq!(oids, vec!["3", "1", "2"]);
}

#[test]
fn markers_are_authoritative() {
    let records = vec![
        record("1", 0, "TP-1 [30m]", "[1h]", ""),
        record("2", 6000, "TP-1", "", ""),
        record("3", 0, "TP-2", "", ""),
    ];
    let groups = group_with_hours(&records);
    assert_eq!(groups[0].explicit, Some(HOUR + HOUR / 2));
    assert_eq!(groups[0].gap.value, HOUR + HOUR / 2);
    assert_eq!(groups[0].gap.detail, "from commit messages");
    assert_eq!(groups[0].span.value, 6_000_000_000);
    assert_eq!(groups[0].session_weight, 6_000_000_000 + HOUR / 2);
    assert_eq!(groups[1].explicit, None);
    assert_eq!(groups[1].gap.value, HOUR / 2);
    assert_eq!(sum_time_markers(&groups[1].commits), None);
}

#[test]
fn settings_change_the_estimate() {
    let records = vec![record("1", 0, "TP-1", "", ""), record("2", 3600, "TP-1", "", "")];
    let mut cfg = EstimationConfig::default();
    assert_eq!(group_with_hours_cfg(&records, &cfg)[0].gap.value, HOUR + HOUR / 2);
    cfg.session_break_min = 30;
    assert_eq!(group_with_hours_cfg(&records, &cfg)[0].gap.value, HOUR);
    cfg.lead_min = 0;
    cfg.trail_min = 1;
    assert_eq!(group_with_hours_cfg(&records, &cfg)[0].gap.value, HOUR / 30);
}

#[test]
fn settings_have_defaults() {
    assert_eq!(default_status_filter(), vec!["In Progress"]);
    assert_eq!(default_session_break_min(), 120);
    assert_eq!(default_lead_min(), 15);
    assert_eq!(default_trail_min(), 15);
    assert_eq!(default_budget_hours(), 8 * HOUR);
    let cfg = Config::default();
    assert!(cfg.repos.is_empty());
    assert!(cfg.jira.is_none());
    assert_eq!(cfg.estimation.session_break_min, 120);
    assert!(needs_migration(false, true));
    assert!(!needs_migration(true, true));
    assert!(!needs_migration(false, false));
}

#[test]
fn subtitles_count_commits() {
    assert_eq!(subtitle(1, HOUR), "1 commit");
    assert_eq!(subtitle(3, HOUR), "3 commits across 1h");
    assert_eq!(subtitle(2, 0), "2 commits");
}

#[test]
fn budget_is_split_by_weight() {
    let pins = vec![None, Some(2 * HOUR), None];
    let weights = vec![HOUR, HOUR, 2 * HOUR];
    assert_eq!(fill(&pins, &weights, 8 * HOUR), vec![2 * HOUR, 2 * HOUR, 4 * HOUR]);
    assert_eq!(fill(&pins, &weights, HOUR), vec![0, 2 * HOUR, 0]);
}

#[test]
fn budget_is_handed_out_to_the_last_bit() {
    let pins = vec![None, None, None];
    let weights = vec![1, 1, 1];
    let shares = fill(&pins, &weights, 100);
    assert_eq!(shares.iter().sum::<i64>(), 100);
    assert_eq!(shares, vec![33, 33, 34]);
}

#[test]
fn shares_are_close_to_their_weights() {
    let pins = vec![None, Some(10), None, None];
    let weights = vec![3, 5, 2, 2];
    let shares = fill(&pins, &weights, 110);
    assert_eq!(shares, vec![42, 10, 29, 29]);
    for i in [0, 2, 3] {
        assert!((shares[i] * 7 - 100 * weights[i]).abs() <= 4 * 7);
    }
}

#[test]
fn messages_are_split_at_the_first_line() {
    let parts = |m: &str| message_parts(m);
    assert_eq!(parts("a  \n\n b \n"), ("a".to_string(), "b".to_string()));
    assert_eq!(parts("  only  "), ("only".to_string(), String::new()));
    assert_eq!(parts(" a\nb\nc"), (" a".to_string(), "b\nc".to_string()));
    assert_eq!(parts(""), (String::new(), String::new()));
}

fn meta(time: i64, parents: usize, email: Option<&str>, pushed: bool) -> Option<CommitMeta> {
    Some(CommitMeta {
        parents,
        time,
        email: email.map(str::to_string),
        message: Some("subject\n\nbody".to_string()),
        pushed,
    })
}

#[test]
fn scans_keep_own_commits_in_the_window() {
    let mut index = BranchIndex::new();
    assert!(index.visit("main", "a", 150, 100));
    assert!(index.visit("main", "b", 120, 100));
    assert!(!index.visit("main", "old", 99, 100));
    assert!(index.visit("dev", "a", 150, 100));
    for oid in ["c", "d", "e", "f", "g"] {
        assert!(index.visit("dev", oid, 110, 100));
    }
    let oids: Vec<&str> = index.entries.iter().map(|e| e.oid.as_str()).collect();
    assert_eq!(oids, vec!["a", "b", "c", "d", "e", "f", "g"]);
    let metas = vec![
        meta(150, 1, Some("me"), true),
        meta(120, 0, Some("me"), false),
        meta(130, 2, Some("me"), false),
        meta(200, 1, Some("me"), false),
        meta(110, 1, Some("you"), false),
        meta(110, 1, None, false),
        None,
    ];
    let window = Window { start: 110, end: 200 };
    let found = scan(&index, &metas, window, "me", "repo");
    assert_eq!(found.len(), 2);
    assert_eq!(found[0].oid, "b");
    assert_eq!(found[0].branches, "main");
    assert_eq!(found[1].oid, "a");
    assert_eq!(found[1].branches, "main dev");
    assert_eq!(found[1].subject, "subject");
    assert_eq!(found[1].body, "body");
    assert_eq!(found[1].repo, "repo");
    let flying = scan_in_flight(&index, &metas, window, "me", "repo");
    assert_eq!(flying.len(), 1);
    assert_eq!(flying[0].oid, "b");
}

#[test]
fn scans_reach_a_day_further_back() {
    assert_eq!(walk_cutoff(Window { start: 86_400, end: 90_000 }), 0);
    let day = Date::from_ymd(2026, 4, 30).unwrap();
    let (start, end) = scan_days(day, day).unwrap();
    assert_eq!(start, day);
    assert_eq!(end, Date::from_ymd(2026, 5, 1).unwrap());
    let last = Date::from_ymd(262142, 12, 31).unwrap();
    assert!(scan_days(day, last).is_none());
}

#[test]
fn sorting_by_age_is_stable() {
    let records =
        vec![record("1", 5, "", "", ""), record("2", 3, "", "", ""), record("3", 5, "", "", "")];
    let oids: Vec<String> = sort_records(&records).into_iter().map(|r| r.oid).collect();
    assert_eq!(oids, vec!["2", "1", "3"]);
}

#[test]
fn groups_do_not_depend_on_the_order_of_commits() {
    let records = vec![
        record("1", 30, "AB-2", "", ""),
        record("2", 20, "AB-1 AB-2", "", ""),
        record("3", 10, "loose", "", ""),
    ];
    let mut back = records.clone();
    back.reverse();
    let listed = |v: &[CommitRecord]| -> Vec<(String, Vec<String>)> {
        group_commits(v)
            .into_iter()
            .map(|(k, c)| (k, c.iter().map(|r| r.oid.clone()).collect()))
            .collect()
    };
    assert_eq!(listed(&records), listed(&back));
    assert_eq!(listed(&records)[1], ("AB-2".to_string(), vec!["2".to_string(), "1".to_string()]));
}

#[test]
fn scans_of_one_history_agree() {
    let mut index = BranchIndex::new();
    for oid in ["a", "b", "c"] {
        index.visit("main", oid, 110, 100);
    }
    let metas = vec![
        meta(115, 1, Some("me"), false),
        meta(111, 1, Some("me"), false),
        meta(111, 1, Some("me"), false),
    ];
    let window = Window { start: 110, end: 120 };
    let oids = || -> Vec<String> {
        scan(&index, &metas, window, "me", "r").into_iter().map(|r| r.oid).collect()
    };
    assert_eq!(oids(), vec!["b", "c", "a"]);
    assert_eq!(oids(), oids());
}

#[test]
fn tickets_are_found_in_pull_requests() {
    let mut records = vec![record("1", 0, "fix", "", "main"), record("2", 0, "more", "", "")];
    let index = build_pr_index(vec![vec![PrInfo {
        number: 4,
        title: "Login (AB-7)".to_string(),
        body: String::new(),
        head_branch: "login".to_string(),
        url: String::new(),
        state: PrState::Merged,
        commit_oids: vec!["1".to_string()],
    }]]);
    enrich_records_with_prs(&mut records, &index);
    let groups = group_commits(&records);
    let names: Vec<&str> = groups.iter().map(|g| g.0.as_str()).collect();
    assert_eq!(names, vec!["AB-7", UNTAGGED]);
}
