use dlog::bullets::summarise_commits;
use dlog::config::Config;
use dlog::dates::Date;
use dlog::jira::IssueInfo;
use dlog::lines::{Line, Tone};
use dlog::panes::{
    center_rect, error_popup, error_width, hint_bar, left_add, left_browse, left_title,
    middle_pane, Area,
};
use dlog::pr::{build_pr_index, PrInfo, PrState};
use dlog::rightpane::{focused_border, pane_widths, Border};
use dlog::scanner::CommitRecord;
use dlog::standup;
use dlog::state::{App, Focus, Key};
use dlog::summary::settle_scroll;
use dlog::worklogs::Zone;

fn day(m: u32, d: u32) -> Date {
    Date::from_ymd(2026, m, d).unwrap()
}

fn app(repos: &[&str]) -> App {
    let mut config = Config::default();
    for r in repos {
        config.repos.push(r.to_string());
    }
    App::new(config, day(4, 22))
}

fn record(oid: &str, time: i64, subject: &str, body: &str, repo: &str) -> CommitRecord {
    CommitRecord {
        oid: oid.to_string(),
        author_time: time,
        subject: subject.to_string(),
        body: body.to_string(),
        branches: String::new(),
        repo: repo.to_string(),
    }
}

fn texts(lines: &[Line]) -> Vec<&str> {
    lines.iter().map(|l| l.text.as_str()).collect()
}

fn zone() -> Zone {
    Zone { entries: vec![(0, 0), (3600, 0), (7200, 3600)] }
}

#[test]
fn repository_lists() {
    let empty = left_browse(&Vec::new(), 28);
    assert_eq!(texts(&empty), vec!["  (press `a` to add)"]);
    assert_eq!(empty[0].tone, Tone::Dim);
    let names = vec!["short".to_string(), "a-very-long-name-of-a-repository".to_string()];
    assert_eq!(texts(&left_browse(&names, 14)), vec!["short", "...ository"]);
    assert_eq!(left_title(2), " repos (2) ");
}

#[test]
fn adding_a_repository() {
    let mut a = app(&[]);
    a.handle_key(Key::Char('a'));
    a.handle_key(Key::Char('x'));
    let p = left_add(&a, 20, 20);
    assert_eq!(p.input, "x_");
    assert_eq!(p.status.text, "  scanning... 0 so far");
    assert_eq!(texts(&p.matches), vec!["  (no matches)"]);
    assert_eq!(p.selected, None);
    a.paths_found(vec!["/r".to_string()], true);
    a.fuzzy_matches = vec!["/r".to_string()];
    let p = left_add(&a, 20, 20);
    assert_eq!(p.status.text, "  1 git repo");
    assert_eq!(p.selected, Some(0));
    a.repo_checked("/q".to_string(), false, false, false);
    let p = left_add(&a, 20, 20);
    assert_eq!(p.status.text, "  path does not exist: /q");
    assert_eq!(p.status.tone, Tone::Bad);
    assert_eq!(pane_widths(&a), (60, None));
}

#[test]
fn calendars() {
    let mut a = app(&["/a"]);
    assert_eq!(pane_widths(&a), (28, Some(30)));
    let p = middle_pane(&a);
    assert_eq!(p.title, " date ");
    assert_eq!(texts(&p.header), vec!["", "April 2026", "Mo Tu We Th Fr Sa Su"]);
    let weeks: Vec<String> = p
        .weeks
        .iter()
        .map(|w| w.iter().map(|s| s.text.as_str()).collect::<String>())
        .collect();
    assert_eq!(
        weeks,
        vec![
            "       1  2  3  4  5 ",
            " 6  7  8  9 10 11 12 ",
            "13 14 15 16 17 18 19 ",
            "20 21 22 23 24 25 26 ",
            "27 28 29 30          ",
        ]
    );
    assert_eq!(texts(&p.footer), vec!["", "  2026-04-21 (Tue)"]);
    assert_eq!(p.weeks[3][2].tone, Tone::Cursor);
    assert_eq!(p.weeks[3][4].tone, Tone::Today);
    a.range_anchor = Some(day(4, 18));
    a.results_are_cached = true;
    let p = middle_pane(&a);
    assert_eq!(p.title, " date — range: 4 days ");
    assert_eq!(
        texts(&p.footer),
        vec!["", "  2026-04-18 → 2026-04-21", "  cached — press S to rescan"]
    );
    assert_eq!(p.weeks[2][10].tone, Tone::Anchor);
    assert_eq!(p.weeks[2][12].tone, Tone::Inside);
}

#[test]
fn hints() {
    let mut a = app(&["/a"]);
    assert!(hint_bar(&a).contains("[f] fill"));
    a.focus = Focus::Left;
    assert!(hint_bar(&a).contains("[a] add"));
    a.scanning = true;
    assert_eq!(hint_bar(&a), "scanning...");
    a.error = Some("x".to_string());
    assert_eq!(hint_bar(&a), "press any key to dismiss");
}

#[test]
fn popups_are_centered() {
    let screen = Area { x: 0, y: 0, width: 100, height: 41 };
    assert_eq!(
        center_rect(screen, 30, 6),
        Area { x: 35, y: 17, width: 30, height: 6 }
    );
    assert_eq!(center_rect(screen, 200, 100), screen);
    assert_eq!(error_width(10, 100), 30);
    assert_eq!(error_width(50, 100), 56);
    assert_eq!(error_width(500, 100), 100);
    assert_eq!(error_width(500, 20), 30);
    assert_eq!(texts(&error_popup("bad")), vec!["", "  bad", "", "  press any key to dismiss"]);
}

#[test]
fn tickets_with_their_commits() {
    let mut a = app(&["/a"]);
    a.scan_records = vec![
        record("0123456789", 0, "TP-1: one", "first\r\n\n  \nsecond", "web"),
        record("abc", 3600, "TP-1: two", "", "server"),
        record("def", 9, "loose", "", "web"),
    ];
    a.pr_index = build_pr_index(vec![vec![PrInfo {
        number: 12,
        title: String::new(),
        body: String::new(),
        head_branch: String::new(),
        url: String::new(),
        state: PrState::Open,
        commit_oids: vec!["abc".to_string()],
    }]]);
    a.pushed_this_session = vec!["TP-1".to_string()];
    let pane = a.right_pane(&zone(), 20);
    assert_eq!(pane.title, " results ");
    assert_eq!(pane.border, Border::Focused);
    assert_eq!(
        texts(&pane.lines),
        vec![
            "> TP-1 ✓ — 1h 30m",
            "  2 commits across 1h",
            "  [web   ]  00:00  0123456  TP-1: one",
            "                            first",
            "                            second",
            "  [server]  01:00  abc  TP-1: two   [PR #12]",
            "",
            "  (untagged) — 30m",
            "  1 commit",
            "  [web   ]  --:--  def  loose",
            "",
            "Total: 2h",
        ]
    );
    assert_eq!(pane.lines[0].tone, Tone::Selected);
    a.handle_key(Key::Char('e'));
    a.handle_key(Key::Char('3'));
    let pane = a.right_pane(&zone(), 20);
    assert_eq!(pane.lines[0].text, "> TP-1 ✓ — edit: 3_");
    a.handle_key(Key::Enter);
    let pane = a.right_pane(&zone(), 20);
    assert_eq!(pane.lines[0].text, "> TP-1 ✓ — 3h (manual)");
    assert_eq!(pane.lines[11].text, "Total: 3h 30m");
    a.handle_key(Key::Char('f'));
    let pane = a.right_pane(&zone(), 20);
    assert_eq!(pane.lines[12].text, "Fill: 8h_");
    a.handle_key(Key::Esc);
    a.handle_key(Key::Down);
    let pane = a.right_pane(&zone(), 5);
    assert_eq!(pane.scroll, 7);
    assert_eq!(a.results_scroll, 7);
}

#[test]
fn views_follow_the_selection() {
    let offsets = vec![0, 7, 20];
    assert_eq!(settle_scroll(0, &offsets, 0, 30, 10), 0);
    assert_eq!(settle_scroll(0, &offsets, 1, 30, 10), 0);
    assert_eq!(settle_scroll(0, &offsets, 2, 30, 10), 20);
    assert_eq!(settle_scroll(25, &offsets, 1, 30, 10), 7);
    assert_eq!(settle_scroll(50, &offsets, 9, 30, 10), 20);
    assert_eq!(settle_scroll(5, &offsets, 0, 3, 10), 0);
    assert_eq!(settle_scroll(65535, &Vec::new(), 0, 1_000_000, 0), 65535);
}

#[test]
fn panes_without_results() {
    let mut a = app(&[]);
    let pane = a.right_pane(&zone(), 20);
    assert_eq!(
        texts(&pane.lines),
        vec!["", "  Add at least one repo on the left, then press `s`."]
    );
    let mut a = app(&["/a", "/b"]);
    let pane = a.right_pane(&zone(), 20);
    assert_eq!(texts(&pane.lines), vec!["", "  Press `s` to scan 2 repos for 2026-04-21."]);
    a.range_anchor = Some(day(4, 1));
    a.scanning = true;
    let pane = a.right_pane(&zone(), 20);
    assert_eq!(
        texts(&pane.lines),
        vec!["", "  scanning 2 repos for 2026-04-01 → 2026-04-21...", "", "    /a", "    /b"]
    );
    a.scanning = false;
    a.results_are_cached = true;
    let pane = a.right_pane(&zone(), 20);
    assert_eq!(texts(&pane.lines), vec!["  (no matching commits)"]);
    assert_eq!(focused_border(Focus::Left, Focus::Right), Border::Idle);
}

#[test]
fn subjects_are_summarised() {
    let records = vec![
        record("1", 0, "TP-1: scaffold", "", ""),
        record("2", 0, "TP-1:TP-1: field ", "", ""),
        record("3", 0, "TP-1:", "", ""),
        record("4", 0, "last", "", ""),
    ];
    let refs: Vec<&CommitRecord> = records.iter().collect();
    assert_eq!(summarise_commits(&refs, "TP-1"), "scaffold, field… (+2 more)");
    assert_eq!(summarise_commits(&refs[..2], "TP-1"), "scaffold, field");
    assert_eq!(summarise_commits(&refs[2..3], "TP-1"), "1 commit");
    assert_eq!(summarise_commits(&[], "TP-1"), "0 commits");
}

#[test]
fn standups_in_words() {
    let mut a = app(&["/a"]);
    let report = standup::build(
        day(4, 22),
        vec![Some(vec![record("1", 0, "TP-1: login [1h 35m]", "", "r")])],
        vec![Some(vec![record("2", 0, "TP-2 draft", "", "r")])],
    );
    let issues = vec![IssueInfo {
        key: "TP-3".to_string(),
        summary: "Pay".to_string(),
        status: "In Progress".to_string(),
    }];
    let pr = |number: u64, title: &str| PrInfo {
        number,
        title: title.to_string(),
        body: String::new(),
        head_branch: String::new(),
        url: String::new(),
        state: PrState::Open,
        commit_oids: Vec::new(),
    };
    a.open_standup(Ok((report, issues, vec![pr(5, "TP-3"), pr(6, "chore")])));
    let pane = a.right_pane(&zone(), 20);
    assert_eq!(pane.title, " standup ");
    assert_eq!(pane.border, Border::Standup);
    assert_eq!(
        texts(&pane.lines),
        vec![
            "",
            "  Yesterday (Tue Apr 21) — 1h 35m total",
            "",
            "  • TP-1 (1h 35m): login [1h 35m]",
            "",
            "  Today — in-flight (unpushed)",
            "",
            "  • TP-2 (1 unpushed): TP-2 draft",
            "",
            "  Today — plan",
            "",
            "  • TP-3 (In Progress): Pay   [PR #5]",
            "  • PR #6: chore",
        ]
    );
    let report = standup::build(day(4, 22), Vec::new(), Vec::new());
    a.open_standup(Ok((report, Vec::new(), Vec::new())));
    let pane = a.right_pane(&zone(), 20);
    assert_eq!(
        texts(&pane.lines),
        vec![
            "",
            "  Yesterday (Tue Apr 21) — nothing committed",
            "",
            "",
            "  Today — nothing in flight, all pushed",
            "",
            "",
            "  Today — nothing planned",
            "",
        ]
    );
}

#[test]
fn settings_on_screen() {
    let mut a = app(&["/a"]);
    a.handle_key(Key::Char('J'));
    for c in "http://x".chars() {
        a.handle_key(Key::Char(c));
    }
    let pane = a.right_pane(&zone(), 20);
    assert_eq!(pane.title, " Jira settings ");
    assert_eq!(pane.border, Border::Push);
    assert_eq!(
        texts(&pane.lines),
        vec![
            "",
            "  editing — step 1/4: base URL",
            "",
            "  > http://x_",
            "",
            "  e.g. https://mycompany.atlassian.net",
            "",
            "  url:   http://x",
        ]
    );
    a.handle_key(Key::Enter);
    a.handle_key(Key::Enter);
    let pane = a.right_pane(&zone(), 20);
    assert_eq!(pane.lines[5].text, "  not an email address");
    assert_eq!(pane.lines[5].tone, Tone::Bad);
    for c in "a@b".chars() {
        a.handle_key(Key::Char(c));
    }
    a.handle_key(Key::Enter);
    for c in "secret".chars() {
        a.handle_key(Key::Char(c));
    }
    let pane = a.right_pane(&zone(), 20);
    assert_eq!(pane.lines[3].text, "  > ******_");
    assert!(pane.lines.iter().all(|l| !l.text.contains("secret")));
}

#[test]
fn pushes_on_screen() {
    let mut a = app(&["/a"]);
    a.scan_records =
        vec![record("1", 0, "TP-1", "", "r"), record("2", 7200, "TP-2", "", "r")];
    a.pushed_this_session = vec!["TP-2".to_string()];
    a.open_preview(&zone());
    let pane = a.right_pane(&zone(), 20);
    assert_eq!(
        texts(&pane.lines),
        vec![
            "",
            "> [x]  TP-1  —  30m   (start 1970-01-01 00:00)",
            "  [ ]  TP-2  —  30m   (start 1970-01-01 03:00)",
            "",
            "  1 of 2 tickets — total 30m",
        ]
    );
    a.handle_key(Key::Enter);
    let pane = a.right_pane(&zone(), 20);
    assert_eq!(
        texts(&pane.lines),
        vec!["", "  posting worklogs: 0/1", "", "  … TP-1"]
    );
    a.worklog_posted("TP-1".to_string(), Err("oops".to_string()));
    let pane = a.right_pane(&zone(), 20);
    assert_eq!(pane.lines[3].text, "  ✗ TP-1  (oops)");
    a.push = Some(dlog::state::PushStage::Finished {
        done: vec!["TP-9".to_string()],
        failed: vec![("TP-1".to_string(), "oops".to_string())],
    });
    let pane = a.right_pane(&zone(), 20);
    assert_eq!(
        texts(&pane.lines),
        vec![
            "",
            "  done: 1 succeeded, 1 failed",
            "",
            "  ✓ TP-9",
            "",
            "  ✗ TP-1",
            "      oops",
            "",
            "  press Enter or Esc to return",
        ]
    );
}
