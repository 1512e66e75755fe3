use dlog::config::{Config, JiraConfig};
use dlog::dates::Date;
use dlog::jira::{IssueInfo, WorklogOutcome};
use dlog::keys::Task;
use dlog::pr::{PrInfo, PrState};
use dlog::repos::Candidate;
use dlog::scanner::CommitRecord;
use dlog::scans::RepoScan;
use dlog::standup;
use dlog::state::{Action, App, Focus, Key, LeftMode, PushStage, RepoPath, SetupStep};
use dlog::worklogs::Zone;

const HOUR: i64 = 3_600_000_000;

fn day(m: u32, d: u32) -> Date {
    Date::from_ymd(2026, m, d).unwrap()
}

fn app(repos: &[&str]) -> App {
    let mut config = Config::default();
    for r in repos {
        config.repos.push(r.to_string());
    }
    App::new(config, day(4, 22))
}

fn record(oid: &str, time: i64, subject: &str) -> CommitRecord {
    CommitRecord {
        oid: oid.to_string(),
        author_time: time,
        subject: subject.to_string(),
        body: String::new(),
        branches: String::new(),
        repo: "r".to_string(),
    }
}

fn with_records(records: Vec<CommitRecord>) -> App {
    let mut a = app(&["/a"]);
    a.scan_records = records;
    a
}

fn type_in(a: &mut App, s: &str) {
    for c in s.chars() {
        a.handle_key(Key::Char(c));
    }
}

fn is_idle(act: &Action) -> bool {
    matches!(act, Action::Idle)
}

#[test]
fn starts_with_yesterday() {
    let a = app(&[]);
    assert_eq!(a.selected_date, day(4, 21));
    assert_eq!(a.cal_month, day(4, 1));
    assert_eq!(a.focus, Focus::Left);
    assert_eq!(a.repos_selected, None);
    let a = app(&["/a"]);
    assert_eq!(a.focus, Focus::Right);
    assert_eq!(a.repos_selected, Some(0));
    assert_eq!(a.next_task(), Task::Wait);
}

#[test]
fn tab_goes_round() {
    let mut a = app(&[]);
    let mut seen = Vec::new();
    for _ in 0..3 {
        a.handle_key(Key::Tab);
        seen.push(a.focus);
    }
    assert_eq!(seen, vec![Focus::Middle, Focus::Right, Focus::Left]);
}

#[test]
fn any_key_dismisses_an_error() {
    let mut a = app(&[]);
    assert!(is_idle(&a.handle_key(Key::Char('s'))));
    assert_eq!(
        a.error.as_deref(),
        Some("No repos configured. Focus the left pane and press 'a'.")
    );
    assert!(is_idle(&a.handle_key(Key::Char('q'))));
    assert_eq!(a.error, None);
    assert!(matches!(a.handle_key(Key::Char('q')), Action::Quit));
}

#[test]
fn repositories_are_selected_round() {
    let mut a = app(&["/a", "/b", "/c"]);
    a.focus = Focus::Left;
    a.handle_key(Key::Up);
    assert_eq!(a.repos_selected, Some(2));
    a.handle_key(Key::Char('j'));
    assert_eq!(a.repos_selected, Some(0));
}

#[test]
fn repositories_are_removed() {
    let mut a = app(&["/a", "/b"]);
    a.focus = Focus::Left;
    a.handle_key(Key::Down);
    match a.handle_key(Key::Char('x')) {
        Action::SaveRemoval { index } => assert_eq!(index, 1),
        _ => panic!("not saved"),
    }
    assert_eq!(a.config.repos, vec!["/a"]);
    a.removal_saved(1, Ok(()));
    assert_eq!(a.repos_selected, Some(0));
    a.handle_key(Key::Char('x'));
    a.removal_saved(0, Ok(()));
    assert_eq!(a.repos_selected, None);
    assert!(is_idle(&a.handle_key(Key::Char('x'))));
    a.removal_saved(0, Err("disk full".to_string()));
    assert_eq!(a.error.as_deref(), Some("save failed: disk full"));
}

#[test]
fn repositories_are_added() {
    let mut a = app(&["/a"]);
    a.focus = Focus::Left;
    assert!(matches!(a.handle_key(Key::Char('a')), Action::StartSearch));
    assert!(a.is_adding());
    assert!(is_idle(&a.handle_key(Key::Enter)));
    assert!(matches!(&a.left_mode, LeftMode::AddRepo { error: Some(e) } if e == "path is empty"));
    let found = vec!["/a".to_string(), "/b".to_string()];
    assert!(matches!(a.paths_found(found, false), Action::RefreshMatches));
    assert!(is_idle(&a.paths_found(Vec::new(), true)));
    let found = a.candidates();
    assert_eq!(found, vec!["/a", "/b"]);
    let found: Vec<Candidate> = found
        .into_iter()
        .map(|p| Candidate { canonical: p.clone(), path: p })
        .collect();
    a.refresh_matches(found, &vec!["/a".to_string()]);
    assert_eq!(a.fuzzy_matches, vec!["/b"]);
    match a.handle_key(Key::Enter) {
        Action::CheckRepo { path: RepoPath::Found(p) } => assert_eq!(p, "/b"),
        _ => panic!("not checked"),
    }
    assert!(is_idle(&a.repo_checked("/b".to_string(), true, false, false)));
    assert!(
        matches!(&a.left_mode, LeftMode::AddRepo { error: Some(e) } if e == "not a git repo: /b")
    );
    assert!(matches!(
        a.repo_checked("/b".to_string(), true, true, false),
        Action::SaveAddition
    ));
    assert!(matches!(a.addition_saved(Ok(())), Action::RefreshMatches));
    assert_eq!(a.config.repos, vec!["/a", "/b"]);
    assert_eq!(a.repos_selected, Some(1));
    assert!(matches!(
        a.repo_checked("/b".to_string(), true, true, false),
        Action::RefreshMatches
    ));
    assert!(matches!(
        a.repo_checked("//b/".to_string(), true, true, false),
        Action::RefreshMatches
    ));
    assert_eq!(a.config.repos, vec!["/a", "/b"]);
    a.handle_key(Key::Esc);
    assert!(!a.is_adding());
    assert!(a.fuzzy_matches.is_empty());
}

#[test]
fn typed_paths_are_trimmed() {
    let mut a = app(&[]);
    a.handle_key(Key::Char('a'));
    type_in(&mut a, " ~/x y");
    a.handle_key(Key::Backspace);
    a.handle_key(Key::Char(' '));
    match a.handle_key(Key::Enter) {
        Action::CheckRepo { path: RepoPath::Typed(p) } => assert_eq!(p, "~/x"),
        _ => panic!("not checked"),
    }
}

#[test]
fn matches_are_few_and_selectable() {
    let mut a = app(&[]);
    a.handle_key(Key::Char('a'));
    let many: Vec<Candidate> = (0..12)
        .map(|i| Candidate { path: format!("/{i}"), canonical: format!("/{i}") })
        .collect();
    a.refresh_matches(many, &Vec::new());
    assert_eq!(a.fuzzy_matches.len(), 8);
    a.handle_key(Key::Up);
    assert_eq!(a.fuzzy_selected, 7);
    a.refresh_matches(
        vec![Candidate { path: "/z".to_string(), canonical: "/z".to_string() }],
        &Vec::new(),
    );
    assert_eq!(a.fuzzy_selected, 0);
    a.handle_key(Key::Down);
    assert_eq!(a.fuzzy_selected, 0);
}

#[test]
fn the_cursor_moves_by_days_and_weeks() {
    let mut a = app(&[]);
    a.focus = Focus::Middle;
    for key in [Key::Right, Key::Down, Key::Left, Key::Up] {
        a.handle_key(key);
    }
    assert_eq!(a.selected_date, day(4, 21));
    a.handle_key(Key::Down);
    a.handle_key(Key::Down);
    assert_eq!(a.selected_date, day(5, 5));
    assert_eq!(a.cal_month, day(5, 1));
    a.handle_key(Key::Char('t'));
    assert_eq!(a.selected_date, day(4, 22));
    a.handle_key(Key::Char('y'));
    assert_eq!(a.selected_date, day(4, 21));
}

#[test]
fn months_turn() {
    let mut a = app(&[]);
    a.focus = Focus::Middle;
    for _ in 0..4 {
        a.handle_key(Key::Char('['));
    }
    assert_eq!(a.cal_month, Date::from_ymd(2025, 12, 1).unwrap());
    for _ in 0..4 {
        a.handle_key(Key::Char(']'));
    }
    assert_eq!(a.cal_month, day(4, 1));
    assert_eq!(a.selected_date, day(4, 21));
    a.cal_month = Date::from_ymd(-1, 1, 1).unwrap();
    a.handle_key(Key::Char('['));
    assert_eq!(a.cal_month, Date::from_ymd(-2, 12, 1).unwrap());
    a.cal_month = Date::from_ymd(262142, 12, 1).unwrap();
    a.handle_key(Key::Char(']'));
    assert_eq!(a.cal_month, Date::from_ymd(262142, 12, 1).unwrap());
    a.shift_month(i32::MAX);
    assert_eq!(a.cal_month, Date::from_ymd(262142, 12, 1).unwrap());
    a.shift_month(-12 * 262142);
    assert_eq!(a.cal_month, Date::from_ymd(0, 12, 1).unwrap());
    let was = a.selected_date;
    a.move_cursor(i64::MIN);
    assert_eq!(a.selected_date, was);
}

#[test]
fn ranges_are_in_order() {
    let mut a = app(&[]);
    a.focus = Focus::Middle;
    assert_eq!(a.current_range(), (day(4, 21), day(4, 21)));
    a.handle_key(Key::Char(' '));
    a.handle_key(Key::Left);
    assert_eq!(a.current_range(), (day(4, 20), day(4, 21)));
    a.handle_key(Key::Down);
    assert_eq!(a.current_range(), (day(4, 21), day(4, 27)));
    a.handle_key(Key::Char('r'));
    assert_eq!(a.range_anchor, None);
}

#[test]
fn scans_are_kept() {
    let mut a = app(&["/b", "/a"]);
    match a.handle_key(Key::Char('s')) {
        Action::LoadScan { start, end } => assert_eq!((start, end), (day(4, 21), day(4, 21))),
        _ => panic!("not loaded"),
    }
    assert!(is_idle(&a.scan_loaded(None)));
    assert!(a.scanning);
    assert_eq!(a.next_task(), Task::Scan);
    assert!(is_idle(&a.handle_key(Key::Char('q'))));
    let scans = vec![
        RepoScan { path: "/b".to_string(), found: Ok(vec![record("2", 20, "x")]) },
        RepoScan { path: "/a".to_string(), found: Ok(vec![record("1", 10, "y")]) },
    ];
    let prs = vec![vec![PrInfo {
        number: 3,
        title: "AB-9".to_string(),
        body: String::new(),
        head_branch: String::new(),
        url: String::new(),
        state: PrState::Open,
        commit_oids: vec!["1".to_string()],
    }]];
    assert!(matches!(a.run_scan(scans, prs), Action::SaveScan { .. }));
    assert!(!a.scanning);
    assert_eq!(a.scan_records[0].oid, "1");
    assert_eq!(a.scan_records[0].branches, "AB-9  ");
    assert!(!a.results_are_cached);
    a.scan_records.clear();
    a.config.repos.reverse();
    assert!(matches!(a.handle_key(Key::Char('s')), Action::SyncPushed { .. }));
    assert_eq!(a.scan_records.len(), 2);
    assert!(a.results_are_cached);
    a.sync_pushed_from_store(Some(vec!["AB-9".to_string()]));
    a.sync_pushed_from_store(None);
    assert_eq!(a.pushed_this_session, vec!["AB-9"]);
    assert!(matches!(a.handle_key(Key::Char('S')), Action::ForgetScan { .. }));
    assert!(a.scanning);
}

#[test]
fn stored_scans_are_shown() {
    let mut a = app(&["/a"]);
    a.handle_key(Key::Char('s'));
    let act = a.scan_loaded(Some(vec![record("1", 10, "y")]));
    assert!(matches!(act, Action::SyncPushed { .. }));
    assert!(a.results_are_cached);
    assert!(matches!(a.handle_key(Key::Char('s')), Action::SyncPushed { .. }));
    a.config.repos = vec!["//a/.".to_string()];
    assert!(matches!(a.handle_key(Key::Char('s')), Action::SyncPushed { .. }));
    a.config.repos = vec!["/a/b".to_string()];
    assert!(matches!(a.handle_key(Key::Char('s')), Action::LoadScan { .. }));
}

#[test]
fn failed_scans_are_reported() {
    let mut a = app(&["/a", "/b"]);
    a.scan_loaded(None);
    let scans = vec![
        RepoScan { path: "/a".to_string(), found: Ok(vec![record("1", 10, "y")]) },
        RepoScan { path: "/b".to_string(), found: Err("no repo".to_string()) },
    ];
    assert!(is_idle(&a.run_scan(scans, Vec::new())));
    assert_eq!(a.error.as_deref(), Some("scan /b: no repo"));
    assert!(!a.scanning);
    assert!(a.scan_records.is_empty());
}

#[test]
fn pull_requests_are_refreshed() {
    let mut a = with_records(vec![record("1", 10, "y")]);
    assert!(matches!(a.handle_key(Key::Char('G')), Action::FetchPrs));
    a.refresh_github_prs(vec![vec![PrInfo {
        number: 3,
        title: "t".to_string(),
        body: "b".to_string(),
        head_branch: "h".to_string(),
        url: String::new(),
        state: PrState::Open,
        commit_oids: vec!["1".to_string()],
    }]]);
    assert_eq!(a.scan_records[0].branches, "t b h");
    assert_eq!(a.pr_index.prs.len(), 1);
}

#[test]
fn hours_are_edited() {
    let mut a = with_records(vec![record("1", 10, "AB-1"), record("2", 10, "AB-2")]);
    a.handle_key(Key::Down);
    assert_eq!(a.results_selected, 1);
    a.handle_key(Key::Char('e'));
    type_in(&mut a, "2xh q");
    assert_eq!(a.results_edit.as_deref(), Some("2h "));
    a.handle_key(Key::Char('3'));
    a.handle_key(Key::Enter);
    assert_eq!(a.results_edit.as_deref(), Some("2h 3"));
    a.handle_key(Key::Backspace);
    a.handle_key(Key::Enter);
    assert_eq!(a.results_edit, None);
    assert_eq!(a.hours_overrides.find("AB-2"), Some(2 * HOUR));
    assert_eq!(a.hours_overrides.find("AB-1"), None);
    a.handle_key(Key::Char('e'));
    a.handle_key(Key::Esc);
    assert_eq!(a.results_edit, None);
    a.handle_key(Key::Down);
    assert_eq!(a.results_selected, 0);
    a.handle_key(Key::PageDown);
    a.handle_key(Key::PageDown);
    a.handle_key(Key::PageUp);
    assert_eq!(a.results_scroll, 10);
}

#[test]
fn budgets_are_filled() {
    let mut a = with_records(vec![
        record("1", 0, "AB-1"),
        record("2", 0, "AB-2 [2h]"),
        record("3", 0, "AB-3"),
        record("4", 0, "nothing"),
    ]);
    a.handle_key(Key::Char('f'));
    assert_eq!(a.fill_edit.as_deref(), Some("8h"));
    a.handle_key(Key::Enter);
    assert_eq!(a.fill_edit, None);
    assert_eq!(a.hours_overrides.find("AB-1"), Some(3 * HOUR));
    assert_eq!(a.hours_overrides.find("AB-2"), Some(2 * HOUR));
    assert_eq!(a.hours_overrides.find("AB-3"), Some(3 * HOUR));
    assert_eq!(a.hours_overrides.find("(untagged)"), None);
    let mut empty = app(&["/a"]);
    empty.handle_key(Key::Char('f'));
    assert_eq!(empty.fill_edit, None);
}

#[test]
fn standups_are_opened() {
    let mut a = app(&["/a"]);
    assert!(matches!(a.handle_key(Key::Char('m')), Action::BuildStandup));
    let report = standup::build(
        day(4, 22),
        vec![Some(vec![record("2", 20, "b")]), None, Some(vec![record("1", 10, "a")])],
        Vec::new(),
    );
    assert_eq!(report.yesterday, day(4, 21));
    assert_eq!(report.yesterday_records[0].oid, "1");
    assert_eq!(standup::in_flight_since(day(4, 22)), day(4, 15));
    a.open_standup(Ok((report, Vec::new(), Vec::new())));
    assert!(a.standup.is_some());
    a.handle_key(Key::PageDown);
    assert_eq!(a.standup_scroll, 10);
    a.handle_key(Key::Char('q'));
    assert!(a.standup.is_none());
    a.open_standup(Err("broken".to_string()));
    assert_eq!(a.error.as_deref(), Some("standup: broken"));
}

#[test]
fn plans_attach_pull_requests() {
    let issue = |key: &str| IssueInfo {
        key: key.to_string(),
        summary: "s".to_string(),
        status: "In Progress".to_string(),
    };
    let pr = |number: u64, title: &str, state: PrState| PrInfo {
        number,
        title: title.to_string(),
        body: String::new(),
        head_branch: String::new(),
        url: String::new(),
        state,
        commit_oids: Vec::new(),
    };
    let plan = standup::plan(
        &vec![issue("AB-1"), issue("AB-2")],
        &vec![
            pr(1, "AB-2 and AB-1", PrState::Open),
            pr(2, "AB-12", PrState::Open),
            pr(3, "AB-1", PrState::Merged),
        ],
    );
    assert_eq!(plan.items, vec![vec![0], vec![0]]);
    assert_eq!(plan.standalone, vec![1]);
}

fn jira() -> Option<JiraConfig> {
    Some(JiraConfig {
        base_url: "https://x".to_string(),
        email: "me@x".to_string(),
        status_filter: vec!["Doing".to_string(), "Testing".to_string()],
    })
}

#[test]
fn nothing_is_pushed_without_a_scan() {
    let mut a = app(&["/a"]);
    a.handle_key(Key::Char('p'));
    assert_eq!(a.error.as_deref(), Some("Nothing to push — run a scan first."));
}

#[test]
fn a_first_push_asks_for_settings() {
    let mut a = with_records(vec![record("1", 0, "AB-1")]);
    a.handle_key(Key::Char('p'));
    type_in(&mut a, "x.net");
    a.handle_key(Key::Enter);
    match &a.push {
        Some(PushStage::Setup(s)) => {
            assert_eq!(s.error.as_deref(), Some("URL must start with http:// or https://"));
            assert_eq!(s.step, SetupStep::Url);
        }
        _ => panic!("no setup"),
    }
    for _ in 0..5 {
        a.handle_key(Key::Backspace);
    }
    type_in(&mut a, " https://x.net ");
    a.handle_key(Key::Enter);
    type_in(&mut a, "me");
    a.handle_key(Key::Enter);
    match &a.push {
        Some(PushStage::Setup(s)) => {
            assert_eq!(s.error.as_deref(), Some("not an email address"));
            assert_eq!(s.url, "https://x.net");
        }
        _ => panic!("no setup"),
    }
    type_in(&mut a, "@x.net");
    a.handle_key(Key::Enter);
    a.handle_key(Key::Enter);
    match &a.push {
        Some(PushStage::Setup(s)) => assert_eq!(s.error.as_deref(), Some("token is empty")),
        _ => panic!("no setup"),
    }
    type_in(&mut a, "tok");
    match a.handle_key(Key::Enter) {
        Action::SaveToken { email, token } => {
            assert_eq!((email.as_str(), token.as_str()), ("me@x.net", "tok"))
        }
        _ => panic!("token not saved"),
    }
    a.token_saved(Err("locked".to_string()));
    match &a.push {
        Some(PushStage::Setup(s)) => assert_eq!(s.error.as_deref(), Some("keyring: locked")),
        _ => panic!("no setup"),
    }
    a.token_saved(Ok(()));
    type_in(&mut a, ", , Testing");
    assert!(matches!(a.handle_key(Key::Enter), Action::SaveJira));
    let cfg = a.config.jira.as_ref().unwrap();
    assert_eq!(cfg.status_filter, vec!["In Progress", "Testing"]);
    match a.jira_saved(Ok(())) {
        Action::ReadToken { email } => assert_eq!(email, "me@x.net"),
        _ => panic!("token not read"),
    }
    assert!(matches!(a.token_read(Ok("tok".to_string())), Action::OpenPreview));
    assert!(a.jira_client.is_some());
    a.open_preview(&Zone { entries: vec![(0, 0)] });
    assert!(matches!(&a.push, Some(PushStage::Preview { .. })));
}

#[test]
fn settings_are_edited() {
    let mut a = app(&["/a"]);
    a.config.jira = jira();
    a.handle_key(Key::Char('J'));
    match &a.push {
        Some(PushStage::Setup(s)) => {
            assert_eq!(s.url, "https://x");
            assert_eq!(s.statuses, "Doing, Testing");
            assert!(s.editing);
        }
        _ => panic!("no setup"),
    }
    a.handle_key(Key::Enter);
    a.handle_key(Key::Enter);
    a.handle_key(Key::Enter);
    match &a.push {
        Some(PushStage::Setup(s)) => assert_eq!(s.step, SetupStep::Statuses),
        _ => panic!("no setup"),
    }
    assert!(matches!(a.handle_key(Key::Enter), Action::SaveJira));
    assert_eq!(a.config.jira.as_ref().unwrap().status_filter, vec!["Doing", "Testing"]);
    a.jira_saved(Ok(()));
    assert!(is_idle(&a.token_read(Ok("t".to_string()))));
    assert!(a.push.is_none());
    a.handle_key(Key::Char('J'));
    a.jira_saved(Err("disk".to_string()));
    assert_eq!(a.error.as_deref(), Some("save config: disk"));
    assert!(a.push.is_none());
}

#[test]
fn a_missing_token_is_reported() {
    let mut a = with_records(vec![record("1", 0, "AB-1")]);
    a.config.jira = jira();
    match a.handle_key(Key::Char('p')) {
        Action::ReadToken { email } => assert_eq!(email, "me@x"),
        _ => panic!("token not read"),
    }
    a.token_read(Err("none".to_string()));
    assert_eq!(a.error.as_deref(), Some("Jira: none"));
    a.handle_key(Key::Enter);
    a.config.jira.as_mut().unwrap().base_url = String::new();
    assert!(is_idle(&a.token_read(Ok("t".to_string()))));
    assert_eq!(a.error.as_deref(), Some("Jira: settings are incomplete"));
    assert!(a.jira_client.is_none());
}

#[test]
fn a_push_runs_to_its_end() {
    let mut a = with_records(vec![
        record("1", 7200, "AB-1"),
        record("2", 3600, "AB-1"),
        record("3", 0, "AB-2"),
        record("4", 0, "AB-3"),
        record("5", 0, "nothing"),
    ]);
    a.config.jira = jira();
    a.pushed_this_session = vec!["AB-2".to_string()];
    a.token_read(Ok("t".to_string()));
    assert!(matches!(a.handle_key(Key::Char('p')), Action::OpenPreview));
    a.open_preview(&Zone { entries: vec![(0, 0), (3600, 3600), (7200, 0)] });
    match &a.push {
        Some(PushStage::Preview { items, checks, cursor }) => {
            let tickets: Vec<&str> = items.iter().map(|i| i.ticket.as_str()).collect();
            assert_eq!(tickets, vec!["AB-1", "AB-2", "AB-3"]);
            assert_eq!(checks, &vec![true, false, true]);
            assert_eq!(*cursor, 0);
            assert_eq!(items[0].seconds, 5400);
            assert_eq!(items[0].started.seconds, 3600);
            assert_eq!(items[0].started.offset, 3600);
        }
        _ => panic!("no preview"),
    }
    a.handle_key(Key::Up);
    a.handle_key(Key::Up);
    a.handle_key(Key::Char(' '));
    a.handle_key(Key::Char(' '));
    a.handle_key(Key::Enter);
    assert_eq!(a.next_task(), Task::Send);
    match a.step_push() {
        Action::Post { ticket, request } => {
            assert_eq!(ticket, "AB-1");
            assert_eq!(request.url, "https://x/rest/api/3/issue/AB-1/worklog");
            assert_eq!(request.started, "1970-01-01T02:00:00.000+0100");
        }
        _ => panic!("not posted"),
    }
    let done = a.worklog_posted(
        "AB-1".to_string(),
        Ok(WorklogOutcome::Logged { worklog_id: "9".to_string() }),
    );
    match done {
        Action::RecordWorklog { ticket, worklog_id, start, end } => {
            assert_eq!((ticket.as_str(), worklog_id.as_str()), ("AB-1", "9"));
            assert_eq!((start, end), (day(4, 21), day(4, 21)));
        }
        _ => panic!("not recorded"),
    }
    assert!(matches!(a.step_push(), Action::Post { .. }));
    a.worklog_posted(
        "AB-3".to_string(),
        Ok(WorklogOutcome::Failed { status: 404, message: "gone".to_string() }),
    );
    assert!(is_idle(&a.step_push()));
    match &a.push {
        Some(PushStage::Finished { done, failed }) => {
            assert_eq!(done, &vec!["AB-1".to_string()]);
            assert_eq!(failed, &vec![("AB-3".to_string(), "HTTP 404: gone".to_string())]);
        }
        _ => panic!("not finished"),
    }
    a.handle_key(Key::Char('x'));
    assert!(a.push.is_some());
    a.handle_key(Key::Enter);
    assert!(a.push.is_none());
    assert_eq!(a.pushed_this_session, vec!["AB-2", "AB-1"]);
}

#[test]
fn a_push_without_a_client_stops() {
    let mut a = with_records(vec![record("1", 0, "AB-1")]);
    a.open_preview(&Zone { entries: vec![(0, 0)] });
    a.handle_key(Key::Enter);
    assert!(is_idle(&a.step_push()));
    assert_eq!(a.error.as_deref(), Some("Jira client missing."));
    assert!(a.push.is_none());
}

#[test]
fn a_push_of_nothing_is_refused() {
    let mut a = with_records(vec![record("1", 0, "no ticket")]);
    a.open_preview(&Zone { entries: vec![(0, 0)] });
    assert_eq!(
        a.error.as_deref(),
        Some("Nothing to push — all tickets round to 0 minutes or are untagged.")
    );
    let mut b = with_records(vec![record("1", 0, "AB-1")]);
    b.open_preview(&Zone { entries: Vec::new() });
    assert!(b.error.is_some());
}

#[test]
fn unchecked_items_are_not_sent() {
    let mut a = with_records(vec![record("1", 0, "AB-1")]);
    a.open_preview(&Zone { entries: vec![(0, 0)] });
    a.handle_key(Key::Char(' '));
    a.handle_key(Key::Enter);
    assert!(matches!(&a.push, Some(PushStage::Preview { .. })));
    a.handle_key(Key::Esc);
    assert!(a.push.is_none());
}
