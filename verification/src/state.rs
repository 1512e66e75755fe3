//! The state of the terminal interface.

use vstd::prelude::*;

use crate::cache::Overrides;
use crate::cache::ScanCache;
use crate::config::Config;
use crate::dates;
use crate::dates::Date;
use crate::dates::Instant;
use crate::fuzzy::FuzzyIndex;
use crate::jira::IssueInfo;
use crate::jira::JiraClient;
use crate::jira::WorklogRequest;
use crate::pr::PrIndex;
use crate::pr::PrInfo;
use crate::report;
use crate::scanner::CommitRecord;
use crate::standup;
use crate::standup::Plan;
use crate::standup::StandupReport;

verus! {

/// How many repositories are offered at a time.
pub const FUZZY_LIMIT: usize = 8;

/// The pane that the keys go to.
#[derive(Clone, Copy, PartialEq, Eq, Structural, Debug)]
pub enum Focus {
    Left,
    Middle,
    Right,
}

/// What the left pane shows.
#[derive(Debug)]
pub enum LeftMode {
    Browse,
    AddRepo { error: Option<String> },
}

/// A key that was pressed.
#[derive(Clone, Copy, PartialEq, Eq, Structural, Debug)]
pub enum Key {
    Char(char),
    Enter,
    Esc,
    Tab,
    Backspace,
    Up,
    Down,
    Left,
    Right,
    PageUp,
    PageDown,
    Other,
}

/// A worklog to be pushed.
#[derive(Debug)]
pub struct PushItem {
    pub ticket: String,
    pub seconds: u64,
    pub started: Instant,
}

impl PushItem {
    /// It has a ticket, takes some time and starts at a time.
    pub open spec fn wf(self) -> bool {
        &&& self.ticket@ != report::UNTAGGED@
        &&& self.seconds > 0
        &&& self.started.valid()
    }
}

impl Clone for PushItem {
    fn clone(&self) -> (r: Self)
        ensures
            r == *self,
    {
        PushItem { ticket: self.ticket.clone(), seconds: self.seconds, started: self.started }
    }
}

/// What the settings are asked for, one after the other.
#[derive(Clone, Copy, PartialEq, Eq, Structural, Debug)]
pub enum SetupStep {
    Url,
    Email,
    Token,
    Statuses,
}

/// The settings as far as they are typed in.
#[derive(Debug)]
pub struct SetupState {
    pub step: SetupStep,
    pub url: String,
    pub email: String,
    pub token: String,
    pub statuses: String,
    pub error: Option<String>,
    /// Whether settings are changed, and not made on the way to a push.
    pub editing: bool,
}

/// How far a push has come.
#[derive(Debug)]
pub enum PushStage {
    Setup(SetupState),
    Preview { items: Vec<PushItem>, checks: Vec<bool>, cursor: usize },
    Sending { queue: Vec<PushItem>, done: Vec<String>, failed: Vec<(String, String)> },
    Finished { done: Vec<String>, failed: Vec<(String, String)> },
}

pub open spec fn items_wf(items: Seq<PushItem>) -> bool {
    forall|i: int| 0 <= i < items.len() ==> (#[trigger] items[i]).wf()
}

impl PushStage {
    pub open spec fn wf(self) -> bool {
        match self {
            PushStage::Preview { items, checks, cursor } => {
                &&& items_wf(items@)
                &&& checks@.len() == items@.len()
                &&& cursor < items@.len()
            },
            PushStage::Sending { queue, .. } => items_wf(queue@),
            _ => true,
        }
    }
}

/// The standup that is on show.
pub struct StandupView {
    pub report: StandupReport,
    pub issues: Vec<IssueInfo>,
    pub prs: Vec<PrInfo>,
    pub plan: Plan,
}

impl StandupView {
    pub open spec fn wf(self) -> bool {
        &&& self.report.yesterday.valid()
        &&& standup::is_plan(self.issues@, self.prs@, self.plan)
    }
}

/// Where a repository is that the user wants to add.
#[derive(Debug)]
pub enum RepoPath {
    /// It was found.
    Found(String),
    /// It was typed in.
    Typed(String),
}

/// What is to be done outside before the interface can go on.
pub enum Action {
    /// Nothing.
    Idle,
    Quit,
    /// Search for repositories in the background.
    StartSearch,
    /// Look up which of the repositories match.
    RefreshMatches,
    /// See what is at a path.
    CheckRepo { path: RepoPath },
    /// Save the settings after a repository was added.
    SaveAddition,
    /// Save the settings after a repository was removed.
    SaveRemoval { index: usize },
    /// Look for a scan in the store.
    LoadScan { start: Date, end: Date },
    /// Remove a scan from the store.
    ForgetScan { start: Date, end: Date },
    /// Put the scan on show into the store, and look up what was pushed.
    SaveScan { start: Date, end: Date },
    /// Look up what was pushed.
    SyncPushed { start: Date, end: Date },
    /// Get the pull requests.
    FetchPrs,
    /// Get what the standup is made of.
    BuildStandup,
    /// Put a token into the keyring.
    SaveToken { email: String, token: String },
    /// Save the settings after those of Jira changed.
    SaveJira,
    /// Get the token from the keyring.
    ReadToken { email: String },
    /// Find out how the local clock stood at the commits, and open the preview.
    OpenPreview,
    /// Post a worklog.
    Post { ticket: String, request: WorklogRequest },
    /// Record in the store that a worklog was pushed.
    RecordWorklog { ticket: String, start: Date, end: Date, worklog_id: String },
}

/// The interface.
pub struct App {
    pub config: Config,
    pub selected_date: Date,
    pub range_anchor: Option<Date>,
    pub today: Date,
    /// The first day of the month on show.
    pub cal_month: Date,
    pub focus: Focus,
    pub left_mode: LeftMode,
    pub scanning: bool,
    pub error: Option<String>,
    pub repos_selected: Option<usize>,
    pub input: String,
    pub fuzzy_index: Option<FuzzyIndex>,
    pub fuzzy_matches: Vec<String>,
    pub fuzzy_selected: usize,
    pub scan_records: Vec<CommitRecord>,
    pub scan_cache: ScanCache,
    pub results_are_cached: bool,
    pub results_selected: usize,
    pub results_edit: Option<String>,
    /// The budget that is typed in.
    pub fill_edit: Option<String>,
    pub results_scroll: u16,
    pub hours_overrides: Overrides,
    pub push: Option<PushStage>,
    pub jira_client: Option<JiraClient>,
    pub pushed_this_session: Vec<String>,
    pub standup: Option<StandupView>,
    pub standup_scroll: u16,
    pub pr_index: PrIndex,
}

impl App {
    /// What holds of the interface at any time.
    pub open spec fn wf(self) -> bool {
        &&& self.selected_date.valid()
        &&& self.today.valid()
        &&& self.cal_month.valid() && self.cal_month.day == 1
        &&& self.range_anchor matches Some(a) ==> a.valid()
        &&& self.fuzzy_matches@.len() > 0 ==> self.fuzzy_selected < self.fuzzy_matches@.len()
        &&& self.push matches Some(stage) ==> stage.wf()
        &&& self.standup matches Some(view) ==> view.wf()
    }

    /// The first and the last day that are selected.
    pub open spec fn range(self) -> (Date, Date) {
        match self.range_anchor {
            Some(a) => if dates::earlier(self.selected_date, a) {
                (self.selected_date, a)
            } else {
                (a, self.selected_date)
            },
            None => (self.selected_date, self.selected_date),
        }
    }

    pub open spec fn adding(self) -> bool {
        self.left_mode is AddRepo
    }

    /// The interface at the start: yesterday is selected.
    pub fn new(config: Config, today: Date) -> (r: Self)
        requires
            today.valid(),
        ensures
            r.wf(),
            r.config == config,
            r.today == today,
            standup::is_days_ago(today, 1, r.selected_date),
            r.range_anchor is None,
            r.cal_month == r.selected_date.month_start(),
            r.focus == (if config.repos@.len() == 0 {
                Focus::Left
            } else {
                Focus::Right
            }),
            r.left_mode == LeftMode::Browse,
            !r.scanning,
            r.error is None,
            r.repos_selected == (if config.repos@.len() == 0 {
                None
            } else {
                Some(0usize)
            }),
            r.input@.len() == 0,
            r.fuzzy_index is None,
            r.fuzzy_matches@.len() == 0,
            r.fuzzy_selected == 0,
            r.scan_records@.len() == 0,
            r.scan_cache.entries@.len() == 0,
            !r.results_are_cached,
            r.results_selected == 0,
            r.results_edit is None,
            r.fill_edit is None,
            r.results_scroll == 0,
            r.hours_overrides.entries@.len() == 0,
            r.push is None,
            r.jira_client is None,
            r.pushed_this_session@.len() == 0,
            r.standup is None,
            r.standup_scroll == 0,
            r.pr_index.prs@.len() == 0,
    {
        let selected = standup::yesterday_of(today);
        let empty = config.repos.len() == 0;
        App {
            config,
            selected_date: selected,
            range_anchor: None,
            today,
            cal_month: dates::first_of_month(selected),
            focus: if empty {
                Focus::Left
            } else {
                Focus::Right
            },
            left_mode: LeftMode::Browse,
            scanning: false,
            error: None,
            repos_selected: if empty {
                None
            } else {
                Some(0)
            },
            input: String::new(),
            fuzzy_index: None,
            fuzzy_matches: Vec::new(),
            fuzzy_selected: 0,
            scan_records: Vec::new(),
            scan_cache: ScanCache { entries: Vec::new() },
            results_are_cached: false,
            results_selected: 0,
            results_edit: None,
            fill_edit: None,
            results_scroll: 0,
            hours_overrides: Overrides { entries: Vec::new() },
            push: None,
            jira_client: None,
            pushed_this_session: Vec::new(),
            standup: None,
            standup_scroll: 0,
            pr_index: PrIndex { prs: Vec::new() },
        }
    }

    /// Whether a repository is being added.
    pub fn is_adding(&self) -> (r: bool)
        ensures
            r == self.adding(),
    {
        match self.left_mode {
            LeftMode::AddRepo { .. } => true,
            LeftMode::Browse => false,
        }
    }

    /// The first and the last day that are selected.
    pub fn current_range(&self) -> (r: (Date, Date))
        ensures
            r == self.range(),
    {
        match self.range_anchor {
            Some(a) => {
                if self.selected_date.is_before(a) {
                    (self.selected_date, a)
                } else {
                    (a, self.selected_date)
                }
            },
            None => (self.selected_date, self.selected_date),
        }
    }
}

/// The selected days are in order, and reach from the cursor to the anchor.
pub proof fn law_range_is_in_order(a: App)
    requires
        a.wf(),
    ensures
        a.range().0.number() <= a.range().1.number(),
        a.range().0 == a.selected_date || a.range().1 == a.selected_date,
        a.range_anchor matches Some(d) ==> a.range().0 == d || a.range().1 == d,
        a.range_anchor is None ==> a.range().0 == a.range().1,
{
    if let Some(d) = a.range_anchor {
        dates::law_days_are_numbered_in_order(a.selected_date, d);
    }
}

/// A text is on show, or none is.
pub open spec fn says(error: Option<String>, s: Seq<char>) -> bool {
    error matches Some(e) && e@ == s
}

/// The position after `i` of `n`, with the first one after the last one.
pub open spec fn after(i: int, n: int) -> int {
    (i + 1) % n
}

/// The position before `i` of `n`, with the last one before the first one.
pub open spec fn before(i: int, n: int) -> int {
    (i + n - 1) % n
}

/// The position after `i`.
pub fn next_of(i: usize, n: usize) -> (r: usize)
    requires
        n > 0,
    ensures
        r == after(i as int, n as int),
        r < n,
{
    ((i as u128 + 1) % (n as u128)) as usize
}

/// The position before `i`.
pub fn previous_of(i: usize, n: usize) -> (r: usize)
    requires
        n > 0,
    ensures
        r == before(i as int, n as int),
        r < n,
{
    ((i as u128 + n as u128 - 1) % (n as u128)) as usize
}

/// Going on and going back undo each other, and never leave the list.
pub proof fn law_selection_goes_round(i: int, n: int)
    requires
        0 <= i < n,
    ensures
        0 <= after(i, n) < n,
        0 <= before(i, n) < n,
        before(after(i, n), n) == i,
        after(before(i, n), n) == i,
{
    if i + 1 == n {
        assert((i + 1) % n == 0) by (nonlinear_arith)
            requires
                i + 1 == n,
                n > 0,
        ;
        assert((0 + n - 1) % n == n - 1) by (nonlinear_arith)
            requires
                n > 0,
        ;
    } else {
        assert((i + 1) % n == i + 1) by (nonlinear_arith)
            requires
                0 <= i + 1 < n,
        ;
        assert((i + 1 + n - 1) % n == i) by (nonlinear_arith)
            requires
                0 <= i < n,
        ;
    }
    if i == 0 {
        assert((i + n - 1) % n == n - 1) by (nonlinear_arith)
            requires
                n > 0,
                i == 0,
        ;
        assert((n - 1 + 1) % n == 0) by (nonlinear_arith)
            requires
                n > 0,
        ;
    } else {
        assert((i + n - 1) % n == i - 1) by (nonlinear_arith)
            requires
                0 < i < n,
        ;
        assert((i - 1 + 1) % n == i) by (nonlinear_arith)
            requires
                0 < i < n,
        ;
    }
}

/// Going on leads to the next one, and from the last one to the first; going back leads to the
/// one before, and from the first one to the last.
pub proof fn law_selection_steps_by_one(i: int, n: int)
    requires
        0 <= i < n,
    ensures
        i + 1 < n ==> after(i, n) == i + 1,
        i + 1 == n ==> after(i, n) == 0,
        i > 0 ==> before(i, n) == i - 1,
        i == 0 ==> before(i, n) == n - 1,
{
    assert(n % n == 0) by (nonlinear_arith)
        requires
            n > 0,
    ;
    assert((n - 1) % n == n - 1) by (nonlinear_arith)
        requires
            n > 0,
    ;
    if i + 1 < n {
        assert((i + 1) % n == i + 1) by (nonlinear_arith)
            requires
                0 <= i + 1 < n,
        ;
    }
    if i > 0 {
        assert((i + n - 1) % n == i - 1) by (nonlinear_arith)
            requires
                0 < i < n,
        ;
    }
}

/// A day is selected if it is not before the earlier of cursor and anchor and not after the
/// later one; without an anchor only the day of the cursor is.
pub proof fn law_selected_days_lie_between(a: App, d: Date)
    requires
        a.wf(),
        d.valid(),
    ensures
        a.range_anchor matches Some(e) ==> (a.range().0.number() <= d.number()
            <= a.range().1.number() <==> {
            ||| a.selected_date.number() <= d.number() <= e.number()
            ||| e.number() <= d.number() <= a.selected_date.number()
        }),
        a.range_anchor is None ==> (a.range().0.number() <= d.number() <= a.range().1.number()
            <==> d == a.selected_date),
{
    law_range_is_in_order(a);
    dates::law_days_are_numbered_in_order(d, a.selected_date);
    if let Some(e) = a.range_anchor {
        dates::law_days_are_numbered_in_order(a.selected_date, e);
    }
}

} // verus!
