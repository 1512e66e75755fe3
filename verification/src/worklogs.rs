//! Pushing worklogs to Jira, and the settings that it takes.

use vstd::prelude::*;

use crate::cache::Overrides;
use crate::config;
use crate::config::{Config, JiraConfig};
use crate::dates;
use crate::dates::Instant;
use crate::hours;
use crate::http;
use crate::jira;
use crate::jira::{JiraClient, WorklogOutcome};
use crate::number;
use crate::report;
use crate::report::GroupSummary;
use crate::results;
use crate::state;
use crate::state::{Action, App, Key, PushItem, PushStage, SetupState, SetupStep};
use crate::text;

verus! {

/// How far the local clock was ahead of Greenwich at certain times.
pub struct Zone {
    pub entries: Vec<(i64, i32)>,
}

pub open spec fn last_offset(entries: Seq<(i64, i32)>, time: i64) -> Option<i32>
    decreases entries.len(),
{
    if entries.len() == 0 {
        None
    } else if entries.last().0 == time {
        Some(entries.last().1)
    } else {
        last_offset(entries.drop_last(), time)
    }
}

impl Zone {
    /// The moment of a time on the local clock, where it is known how that stood.
    pub open spec fn moment(self, time: i64) -> Option<Instant> {
        match last_offset(self.entries@, time) {
            Some(offset) => if (Instant { seconds: time, offset }).valid() {
                Some(Instant { seconds: time, offset })
            } else {
                None
            },
            None => None,
        }
    }

    /// The moment of a time on the local clock, where it is known how that stood.
    pub fn at(&self, time: i64) -> (r: Option<Instant>)
        ensures
            r == self.moment(time),
    {
        let mut i: usize = self.entries.len();
        assert(self.entries@.take(i as int) =~= self.entries@);
        while i > 0
            invariant
                i <= self.entries@.len(),
                last_offset(self.entries@, time) == last_offset(self.entries@.take(i as int), time),
            decreases i,
        {
            let ghost now = self.entries@.take(i as int);
            i -= 1;
            assert(now.drop_last() =~= self.entries@.take(i as int));
            assert(now.last() == self.entries@[i as int]);
            if self.entries[i].0 == time {
                return Instant::new(time, self.entries[i].1);
            }
        }
        None
    }
}

/// The hours of a ticket: those that the user set, or else its own.
pub open spec fn hours_of(g: GroupSummary<'_>, overrides: Overrides) -> i64 {
    match overrides.get(g.ticket@) {
        Some(v) => v,
        None => g.gap.value,
    }
}

/// The hours of a ticket.
pub fn effective_hours(g: &GroupSummary<'_>, overrides: &Overrides) -> (r: i64)
    ensures
        r == hours_of(*g, *overrides),
{
    match overrides.find(g.ticket.as_str()) {
        Some(v) => v,
        None => g.gap.value,
    }
}

/// The worklog of a group: none without a ticket or without a minute. It starts
/// with the first commit.
pub open spec fn item_of(g: GroupSummary<'_>, overrides: Overrides, zone: Zone) -> Option<
    PushItem,
> {
    let seconds = jira::jira_seconds(hours_of(g, overrides) as int);
    if g.ticket@ == report::UNTAGGED@ || seconds == 0 || g.commits@.len() == 0 {
        None
    } else {
        match zone.moment(g.commits@[0].author_time) {
            Some(started) => Some(PushItem { ticket: g.ticket, seconds: seconds as u64, started }),
            None => None,
        }
    }
}

/// The worklogs of groups.
pub open spec fn items_of(
    groups: Seq<GroupSummary<'_>>,
    overrides: Overrides,
    zone: Zone,
) -> Seq<PushItem>
    decreases groups.len(),
{
    if groups.len() == 0 {
        Seq::empty()
    } else {
        match item_of(groups.last(), overrides, zone) {
            Some(item) => items_of(groups.drop_last(), overrides, zone).push(item),
            None => items_of(groups.drop_last(), overrides, zone),
        }
    }
}

/// The worklogs of groups.
pub fn push_items(groups: &Vec<GroupSummary<'_>>, overrides: &Overrides, zone: &Zone) -> (r: Vec<
    PushItem,
>)
    ensures
        r@ == items_of(groups@, *overrides, *zone),
        state::items_wf(r@),
{
    let mut out: Vec<PushItem> = Vec::new();
    for i in 0..groups.len()
        invariant
            out@ == items_of(groups@.take(i as int), *overrides, *zone),
            state::items_wf(out@),
    {
        let g = &groups[i];
        proof {
            assert(groups@.take(i + 1).drop_last() =~= groups@.take(i as int));
            assert(groups@.take(i + 1).last() == *g);
        }
        let seconds = jira::hours_to_jira_seconds(effective_hours(g, overrides));
        if !text::same_text(g.ticket.as_str(), report::UNTAGGED) && seconds > 0 && g.commits.len()
            > 0 {
            if let Some(started) = zone.at(g.commits[0].author_time) {
                out.push(PushItem { ticket: g.ticket.clone(), seconds, started });
            }
        }
    }
    assert(groups@.take(groups@.len() as int) =~= groups@);
    out
}

/// What is checked at first: whatever was not pushed yet.
pub open spec fn first_checks(items: Seq<PushItem>, pushed: Seq<Seq<char>>) -> Seq<bool> {
    Seq::new(items.len(), |i: int| !pushed.contains(items[i].ticket@))
}

/// The preview of worklogs is on show, if there are any.
pub open spec fn preview_opened(a: App, items: Seq<PushItem>, b: App) -> bool {
    if items.len() == 0 {
        &&& b == App { error: b.error, ..a }
        &&& state::says(
            b.error,
            "Nothing to push — all tickets round to 0 minutes or are untagged."@,
        )
    } else {
        &&& b == App { push: b.push, ..a }
        &&& b.push matches Some(PushStage::Preview { items: shown, checks, cursor }) && shown@
            == items && checks@ == first_checks(items, text::texts(a.pushed_this_session@))
            && cursor == 0
    }
}

/// The statuses that are asked for where the settings name none.
pub open spec fn usual_statuses() -> Seq<char> {
    "In Progress"@
}

/// The statuses in a text, with commas between them.
pub open spec fn status_list(s: Seq<char>) -> Seq<Seq<char>>
    decreases s.len(),
    via status_list_shrinks
{
    let p = number::position(s, ',');
    let first = text::trim(s.take(p));
    let rest = if p < s.len() {
        status_list(s.skip(p + 1))
    } else {
        Seq::empty()
    };
    if first.len() > 0 {
        seq![first] + rest
    } else {
        rest
    }
}

#[via_fn]
proof fn status_list_shrinks(s: Seq<char>) {
    number::lemma_position_bound(s, ',');
}

fn parse_statuses(s: &str) -> (r: Vec<String>)
    ensures
        text::texts(r@) == status_list(s@),
{
    let chars = text::chars_of(s);
    let n = chars.len();
    let mut from: usize = 0;
    let mut out: Vec<String> = Vec::new();
    let mut more = true;
    let ghost goal = status_list(s@);
    assert(s@.skip(0) =~= s@);
    assert(text::texts(out@) + goal =~= goal);
    while more
        invariant
            from <= n,
            n == chars@.len(),
            chars@ == s@,
            more ==> goal == text::texts(out@) + status_list(s@.skip(from as int)),
            !more ==> goal == text::texts(out@),
        decreases (if more { 1int } else { 0 }), n - from,
    {
        let ghost before = text::texts(out@);
        let rest = number::piece(&chars, from, n);
        let ghost tail = s@.skip(from as int);
        assert(rest@ =~= tail);
        let p = number::position_of(&rest, ',');
        let word = number::piece(&rest, 0, p);
        assert(word@ =~= tail.take(p as int));
        let whole = text::string_of(&word);
        let first = text::trimmed(whole.as_str());
        let ghost after = if p < tail.len() {
            status_list(tail.skip(p + 1))
        } else {
            Seq::empty()
        };
        if first.unicode_len() > 0 {
            let kept = first.to_owned();
            out.push(kept);
            assert(text::texts(out@) =~= before + seq![first@]);
        }
        assert(goal =~= text::texts(out@) + after);
        if p < rest.len() {
            assert(tail.skip(p + 1) =~= s@.skip(from + p + 1));
            from = from + p + 1;
        } else {
            assert(text::texts(out@) + after =~= text::texts(out@));
            more = false;
        }
    }
    out
}

/// What is typed in at a step.
pub open spec fn field(s: SetupState) -> Seq<char> {
    match s.step {
        SetupStep::Url => s.url@,
        SetupStep::Email => s.email@,
        SetupStep::Token => s.token@,
        SetupStep::Statuses => s.statuses@,
    }
}

/// `t` is `s` with another text typed in.
pub open spec fn field_set(s: SetupState, value: Seq<char>, t: SetupState) -> bool {
    &&& field(t) == value
    &&& match s.step {
        SetupStep::Url => t == SetupState { url: t.url, ..s },
        SetupStep::Email => t == SetupState { email: t.email, ..s },
        SetupStep::Token => t == SetupState { token: t.token, ..s },
        SetupStep::Statuses => t == SetupState { statuses: t.statuses, ..s },
    }
}

/// `t` is `s` with a complaint.
pub open spec fn complains(s: SetupState, message: Seq<char>, t: SetupState) -> bool {
    t == SetupState { error: t.error, ..s } && state::says(t.error, message)
}

/// The address of a web site.
pub open spec fn is_web_address(s: Seq<char>) -> bool {
    text::occurs_at(s, "http://"@, 0) || text::occurs_at(s, "https://"@, 0)
}

/// The settings on show become `t`.
pub open spec fn setup_now(a: App, t: SetupState, b: App) -> bool {
    b == App { push: Some(PushStage::Setup(t)), ..a }
}

/// The settings for Jira are those that were typed in.
pub open spec fn jira_set(a: App, s: SetupState, b: App) -> bool {
    &&& b == App { config: b.config, ..a }
    &&& b.config == Config { jira: b.config.jira, ..a.config }
    &&& b.config.jira matches Some(cfg) && cfg.base_url@ == s.url@ && cfg.email@ == s.email@
        && text::texts(cfg.status_filter@) == status_list(s.statuses@)
}

/// The settings that are on show in an interface.
pub open spec fn setup_of(b: App) -> SetupState {
    (b.push->0)->Setup_0
}

/// What Enter does at a step of the settings.
pub open spec fn setup_enter(a: App, s: SetupState, b: App, act: Action) -> bool {
    let t = setup_of(b);
    match s.step {
        SetupStep::Url => {
            &&& setup_now(a, t, b)
            &&& act == Action::Idle
            &&& if is_web_address(text::trim(s.url@)) {
                &&& t == SetupState { url: t.url, step: SetupStep::Email, error: None, ..s }
                &&& t.url@ == text::trim(s.url@)
            } else {
                complains(s, "URL must start with http:// or https://"@, t)
            }
        },
        SetupStep::Email => {
            &&& setup_now(a, t, b)
            &&& act == Action::Idle
            &&& if text::trim(s.email@).contains('@') {
                &&& t == SetupState { email: t.email, step: SetupStep::Token, error: None, ..s }
                &&& t.email@ == text::trim(s.email@)
            } else {
                complains(s, "not an email address"@, t)
            }
        },
        SetupStep::Token => if s.token@.len() > 0 {
            &&& b == a
            &&& act == Action::SaveToken { email: s.email, token: s.token }
        } else {
            &&& setup_now(a, t, b)
            &&& act == Action::Idle
            &&& if s.editing {
                t == SetupState { step: SetupStep::Statuses, error: None, ..s }
            } else {
                complains(s, "token is empty"@, t)
            }
        },
        SetupStep::Statuses => jira_set(a, s, b) && act == Action::SaveJira,
    }
}

/// What a key does in the settings.
pub open spec fn setup_step(a: App, key: Key, b: App, act: Action) -> bool {
    match a.push {
        Some(PushStage::Setup(s)) => match key {
            Key::Esc => b == App { push: None, ..a } && act == Action::Idle,
            Key::Enter => setup_enter(a, s, b, act),
            Key::Backspace => {
                &&& setup_now(a, setup_of(b), b)
                &&& field_set(
                    s,
                    if field(s).len() > 0 {
                        field(s).drop_last()
                    } else {
                        field(s)
                    },
                    setup_of(b),
                )
                &&& act == Action::Idle
            },
            Key::Char(c) => {
                &&& setup_now(a, setup_of(b), b)
                &&& field_set(s, field(s).push(c), setup_of(b))
                &&& act == Action::Idle
            },
            _ => b == a && act == Action::Idle,
        },
        _ => b == a && act == Action::Idle,
    }
}

/// The items that are checked.
pub open spec fn checked(items: Seq<PushItem>, checks: Seq<bool>) -> Seq<PushItem>
    decreases items.len(),
{
    if items.len() == 0 {
        Seq::empty()
    } else if checks.last() {
        checked(items.drop_last(), checks.drop_last()).push(items.last())
    } else {
        checked(items.drop_last(), checks.drop_last())
    }
}

/// What a key does in the preview.
pub open spec fn preview_step(a: App, key: Key, b: App) -> bool {
    match a.push {
        Some(PushStage::Preview { items, checks, cursor }) => {
            let n = items@.len() as int;
            if key == Key::Esc {
                b == App { push: None, ..a }
            } else if key == Key::Up || key == Key::Char('k') {
                b == App {
                    push: Some(
                        PushStage::Preview {
                            items,
                            checks,
                            cursor: state::before(cursor as int, n) as usize,
                        },
                    ),
                    ..a
                }
            } else if key == Key::Down || key == Key::Char('j') {
                b == App {
                    push: Some(
                        PushStage::Preview {
                            items,
                            checks,
                            cursor: state::after(cursor as int, n) as usize,
                        },
                    ),
                    ..a
                }
            } else if key == Key::Char(' ') {
                &&& b == App { push: b.push, ..a }
                &&& b.push matches Some(PushStage::Preview { items: i2, checks: c2, cursor: k2 })
                    && i2 == items && k2 == cursor && c2@ == checks@.update(
                    cursor as int,
                    !checks@[cursor as int],
                )
            } else if key == Key::Enter {
                if checked(items@, checks@).len() == 0 {
                    b == a
                } else {
                    &&& b == App { push: b.push, ..a }
                    &&& b.push matches Some(PushStage::Sending { queue, done, failed }) && queue@
                        == checked(items@, checks@) && done@.len() == 0 && failed@.len() == 0
                }
            } else {
                b == a
            }
        },
        _ => b == a,
    }
}

/// What a key does during a push.
pub open spec fn push_step(a: App, key: Key, b: App, act: Action) -> bool {
    match a.push {
        Some(PushStage::Setup(_)) => setup_step(a, key, b, act),
        Some(PushStage::Preview { .. }) => preview_step(a, key, b) && act == Action::Idle,
        Some(PushStage::Finished { .. }) => {
            &&& act == Action::Idle
            &&& if key == Key::Esc || key == Key::Enter || key == Key::Char('q') {
                b == App { push: None, ..a }
            } else {
                b == a
            }
        },
        _ => b == a && act == Action::Idle,
    }
}

/// The next worklog of the queue is on its way.
pub open spec fn send_step(a: App, b: App, act: Action) -> bool {
    match a.push {
        Some(PushStage::Sending { queue, done, failed }) => if queue@.len() == 0 {
            &&& b == App { push: Some(PushStage::Finished { done, failed }), ..a }
            &&& act == Action::Idle
        } else {
            match a.jira_client {
                None => {
                    &&& b == App { push: None, error: b.error, ..a }
                    &&& state::says(b.error, "Jira client missing."@)
                    &&& act == Action::Idle
                },
                Some(client) => {
                    &&& b == App { push: b.push, ..a }
                    &&& b.push matches Some(
                        PushStage::Sending { queue: q2, done: d2, failed: f2 },
                    ) && q2@ == queue@.remove(0) && d2 == done && f2 == failed
                    &&& act matches Action::Post { ticket, request } && ticket == queue@[0].ticket
                        && is_request(client, queue@[0], request)
                },
            }
        },
        _ => b == a && act == Action::Idle,
    }
}

/// `q` asks Jira to log an item.
pub open spec fn is_request(client: JiraClient, item: PushItem, q: jira::WorklogRequest) -> bool {
    &&& q.url@ == client.base_url@ + "/rest/api/3/issue/"@ + item.ticket@ + "/worklog"@
    &&& q.authorization@ == "Basic "@ + http::credentials(client.email@, client.token@)
    &&& q.time_spent_seconds == item.seconds
    &&& dates::shown_for_jira(item.started, q.started@)
}

/// What is noted of a worklog that failed.
pub open spec fn failure_note(outcome: Result<WorklogOutcome, String>) -> Seq<char> {
    match outcome {
        Ok(WorklogOutcome::Failed { status, message }) => "HTTP "@ + text::decimal(status as nat)
            + ": "@ + message@,
        Ok(WorklogOutcome::Logged { .. }) => Seq::empty(),
        Err(e) => e@,
    }
}

/// What became of a worklog is noted.
pub open spec fn posted_step(
    a: App,
    ticket: String,
    outcome: Result<WorklogOutcome, String>,
    b: App,
    act: Action,
) -> bool {
    match outcome {
        Ok(WorklogOutcome::Logged { worklog_id }) => {
            &&& b == App { push: b.push, pushed_this_session: b.pushed_this_session, ..a }
            &&& b.pushed_this_session@ == a.pushed_this_session@.push(ticket)
            &&& match a.push {
                Some(PushStage::Sending { queue, done, failed }) => b.push matches Some(
                    PushStage::Sending { queue: q2, done: d2, failed: f2 },
                ) && q2 == queue && d2@ == done@.push(ticket) && f2 == failed,
                _ => b.push == a.push,
            }
            &&& act == Action::RecordWorklog {
                ticket,
                start: a.range().0,
                end: a.range().1,
                worklog_id,
            }
        },
        _ => {
            &&& b == App { push: b.push, ..a }
            &&& match a.push {
                Some(PushStage::Sending { queue, done, failed }) => b.push matches Some(
                    PushStage::Sending { queue: q2, done: d2, failed: f2 },
                ) && q2 == queue && d2 == done && f2@.len() == failed@.len() + 1
                    && f2@.drop_last() == failed@ && f2@.last().0 == ticket && f2@.last().1@
                    == failure_note(outcome),
                _ => b.push == a.push,
            }
            &&& act == Action::Idle
        },
    }
}

/// Whether a text is the address of a web site.
fn web_address(s: &str) -> (r: bool)
    ensures
        r == is_web_address(s@),
{
    text::starts_with_text(s, "http://") || text::starts_with_text(s, "https://")
}

fn complain(s: SetupState, message: &str) -> (r: SetupState)
    ensures
        complains(s, message@, r),
{
    let mut t = s;
    t.error = Some(message.to_owned());
    t
}

fn erase(s: SetupState) -> (r: SetupState)
    ensures
        field_set(
            s,
            (if field(s).len() > 0 {
                field(s).drop_last()
            } else {
                field(s)
            }),
            r,
        ),
{
    let mut t = s;
    match t.step {
        SetupStep::Url => {
            let _ = t.url.pop();
        },
        SetupStep::Email => {
            let _ = t.email.pop();
        },
        SetupStep::Token => {
            let _ = t.token.pop();
        },
        SetupStep::Statuses => {
            let _ = t.statuses.pop();
        },
    }
    t
}

fn type_char(s: SetupState, c: char) -> (r: SetupState)
    ensures
        field_set(s, field(s).push(c), r),
{
    let mut t = s;
    match t.step {
        SetupStep::Url => {
            t.url.push(c);
        },
        SetupStep::Email => {
            t.email.push(c);
        },
        SetupStep::Token => {
            t.token.push(c);
        },
        SetupStep::Statuses => {
            t.statuses.push(c);
        },
    }
    t
}

fn has_at(s: &str) -> (r: bool)
    ensures
        r == s@.contains('@'),
{
    text::find_char(&text::chars_of(s), '@').is_some()
}

fn pick_checked(items: &Vec<PushItem>, checks: &Vec<bool>) -> (r: Vec<PushItem>)
    requires
        items@.len() == checks@.len(),
        state::items_wf(items@),
    ensures
        r@ == checked(items@, checks@),
        state::items_wf(r@),
{
    let mut out: Vec<PushItem> = Vec::new();
    for i in 0..items.len()
        invariant
            items@.len() == checks@.len(),
            state::items_wf(items@),
            out@ == checked(items@.take(i as int), checks@.take(i as int)),
            state::items_wf(out@),
    {
        proof {
            assert(items@.take(i + 1).drop_last() =~= items@.take(i as int));
            assert(checks@.take(i + 1).drop_last() =~= checks@.take(i as int));
            assert(items@.take(i + 1).last() == items@[i as int]);
            assert(checks@.take(i + 1).last() == checks@[i as int]);
        }
        if checks[i] {
            out.push(items[i].clone());
        }
    }
    assert(items@.take(items@.len() as int) =~= items@);
    assert(checks@.take(items@.len() as int) =~= checks@);
    out
}

fn checks_for(items: &Vec<PushItem>, pushed: &Vec<String>) -> (r: Vec<bool>)
    ensures
        r@ == first_checks(items@, text::texts(pushed@)),
{
    let mut out: Vec<bool> = Vec::new();
    let ghost all = first_checks(items@, text::texts(pushed@));
    for i in 0..items.len()
        invariant
            all == first_checks(items@, text::texts(pushed@)),
            out@ == all.take(i as int),
    {
        out.push(!text::one_of(pushed, items[i].ticket.as_str()));
        assert(out@ =~= all.take(i + 1));
    }
    assert(all.take(items@.len() as int) =~= all);
    out
}

/// A push can begin, or what is missing for it.
pub open spec fn start_step(a: App, b: App, act: Action) -> bool {
    if a.scan_records@.len() == 0 {
        &&& b == App { error: b.error, ..a }
        &&& state::says(b.error, "Nothing to push — run a scan first."@)
        &&& act == Action::Idle
    } else {
        match a.config.jira {
            None => {
                let t = setup_of(b);
                &&& setup_now(a, t, b)
                &&& t.step == SetupStep::Url
                &&& t.url@.len() == 0 && t.email@.len() == 0 && t.token@.len() == 0
                &&& t.statuses@ == usual_statuses()
                &&& t.error is None
                &&& !t.editing
                &&& act == Action::Idle
            },
            Some(cfg) => {
                &&& b == a
                &&& if a.jira_client is None {
                    act matches Action::ReadToken { email } && email@ == cfg.email@
                } else {
                    act == Action::OpenPreview
                }
            },
        }
    }
}

/// The settings are open for change.
pub open spec fn settings_open(a: App, b: App) -> bool {
    let t = setup_of(b);
    &&& setup_now(a, t, b)
    &&& t.step == SetupStep::Url
    &&& t.token@.len() == 0
    &&& t.error is None
    &&& t.editing
    &&& match a.config.jira {
        Some(cfg) => t.url@ == cfg.base_url@ && t.email@ == cfg.email@ && t.statuses@
            == text::joined(text::texts(cfg.status_filter@), ", "@),
        None => t.url@.len() == 0 && t.email@.len() == 0 && t.statuses@ == usual_statuses(),
    }
}

/// Jira cannot be reached, and it is said why.
pub open spec fn jira_failed(a: App, why: Seq<char>, b: App, act: Action) -> bool {
    &&& b == App { error: b.error, push: None, ..a }
    &&& state::says(b.error, "Jira: "@ + why)
    &&& act == Action::Idle
}

/// The token of the settings was read, or not. Incomplete settings are of no more
/// use than those without a token.
pub open spec fn token_step(a: App, token: Result<String, String>, b: App, act: Action) -> bool {
    match (a.config.jira, token) {
        (Some(cfg), Ok(t)) => if !jira::is_complete(cfg) {
            jira_failed(a, "settings are incomplete"@, b, act)
        } else {
            &&& b == App { jira_client: b.jira_client, push: b.push, ..a }
            &&& b.jira_client matches Some(client) && client.base_url@ == jira::without_slashes(
                cfg.base_url@,
            ) && client.email@ == cfg.email@ && client.token == t
            &&& match a.push {
                Some(PushStage::Setup(s)) if s.editing => b.push is None && act == Action::Idle,
                _ => b.push == a.push && act == Action::OpenPreview,
            }
        },
        (Some(_), Err(e)) => jira_failed(a, e@, b, act),
        (None, _) => b == a && act == Action::Idle,
    }
}

impl App {
    /// Begins a push, if there is anything to push and Jira is set up.
    pub fn start_push(&mut self) -> (act: Action)
        requires
            old(self).wf(),
        ensures
            final(self).wf(),
            start_step(*old(self), *final(self), act),
    {
        if self.scan_records.len() == 0 {
            self.error = Some("Nothing to push — run a scan first.".to_owned());
            return Action::Idle;
        }
        match &self.config.jira {
            None => {
                self.push = Some(
                    PushStage::Setup(
                        SetupState {
                            step: SetupStep::Url,
                            url: String::new(),
                            email: String::new(),
                            token: String::new(),
                            statuses: "In Progress".to_owned(),
                            error: None,
                            editing: false,
                        },
                    ),
                );
                Action::Idle
            },
            Some(cfg) => {
                if self.jira_client.is_none() {
                    Action::ReadToken { email: cfg.email.clone() }
                } else {
                    Action::OpenPreview
                }
            },
        }
    }

    /// Opens the settings for Jira.
    pub fn open_jira_settings(&mut self)
        requires
            old(self).wf(),
        ensures
            final(self).wf(),
            settings_open(*old(self), *final(self)),
    {
        let (url, email, statuses) = match &self.config.jira {
            Some(cfg) => (
                cfg.base_url.clone(),
                cfg.email.clone(),
                text::join_texts(&cfg.status_filter, ", "),
            ),
            None => (String::new(), String::new(), "In Progress".to_owned()),
        };
        self.push = Some(
            PushStage::Setup(
                SetupState {
                    step: SetupStep::Url,
                    url,
                    email,
                    token: String::new(),
                    statuses,
                    error: None,
                    editing: true,
                },
            ),
        );
    }

    /// The worklogs of the tickets on show. `zone` says how the local clock stood
    /// at the commits.
    pub fn build_push_items(&self, zone: &Zone) -> (r: Vec<PushItem>)
        ensures
            are_push_items(*self, *zone, r@),
            state::items_wf(r@),
    {
        let groups = report::group_with_hours_cfg(
            self.scan_records.as_slice(),
            &self.config.estimation,
        );
        push_items(&groups, &self.hours_overrides, zone)
    }

    /// Shows the worklogs that a push would post.
    pub fn open_preview(&mut self, zone: &Zone)
        requires
            old(self).wf(),
        ensures
            final(self).wf(),
            exists|items: Seq<PushItem>| #[trigger]
                are_push_items(*old(self), *zone, items) && preview_opened(
                    *old(self),
                    items,
                    *final(self),
                ),
    {
        let items = self.build_push_items(zone);
        let ghost shown = items@;
        if items.len() == 0 {
            self.error = Some(
                "Nothing to push — all tickets round to 0 minutes or are untagged.".to_owned(),
            );
        } else {
            let checks = checks_for(&items, &self.pushed_this_session);
            self.push = Some(PushStage::Preview { items, checks, cursor: 0 });
        }
        assert(are_push_items(*old(self), *zone, shown));
        assert(preview_opened(*old(self), shown, *self));
    }

    /// A key in the settings.
    pub fn handle_push_setup(&mut self, key: Key) -> (act: Action)
        requires
            old(self).wf(),
        ensures
            final(self).wf(),
            setup_step(*old(self), key, *final(self), act),
    {
        let s = match self.push.take() {
            Some(PushStage::Setup(s)) => s,
            other => {
                self.push = other;
                return Action::Idle;
            },
        };
        match key {
            Key::Esc => Action::Idle,
            Key::Enter => self.enter_setup(s),
            Key::Backspace => {
                self.push = Some(PushStage::Setup(erase(s)));
                Action::Idle
            },
            Key::Char(c) => {
                self.push = Some(PushStage::Setup(type_char(s, c)));
                Action::Idle
            },
            _ => {
                self.push = Some(PushStage::Setup(s));
                Action::Idle
            },
        }
    }

    fn enter_setup(&mut self, s: SetupState) -> (act: Action)
        requires
            old(self).wf(),
        ensures
            final(self).wf(),
            setup_enter(
                (App { push: Some(PushStage::Setup(s)), ..*old(self) }),
                s,
                *final(self),
                act,
            ),
    {
        match s.step {
            SetupStep::Url => {
                let v = text::trimmed(s.url.as_str()).to_owned();
                let t = if web_address(v.as_str()) {
                    let mut t = s;
                    t.url = v;
                    t.step = SetupStep::Email;
                    t.error = None;
                    t
                } else {
                    complain(s, "URL must start with http:// or https://")
                };
                self.push = Some(PushStage::Setup(t));
                Action::Idle
            },
            SetupStep::Email => {
                let v = text::trimmed(s.email.as_str()).to_owned();
                let t = if has_at(v.as_str()) {
                    let mut t = s;
                    t.email = v;
                    t.step = SetupStep::Token;
                    t.error = None;
                    t
                } else {
                    complain(s, "not an email address")
                };
                self.push = Some(PushStage::Setup(t));
                Action::Idle
            },
            SetupStep::Token => {
                if s.token.as_str().unicode_len() > 0 {
                    let email = s.email.clone();
                    let token = s.token.clone();
                    self.push = Some(PushStage::Setup(s));
                    return Action::SaveToken { email, token };
                }
                let t = if s.editing {
                    let mut t = s;
                    t.step = SetupStep::Statuses;
                    t.error = None;
                    t
                } else {
                    complain(s, "token is empty")
                };
                self.push = Some(PushStage::Setup(t));
                Action::Idle
            },
            SetupStep::Statuses => {
                self.config.jira = Some(
                    JiraConfig {
                        base_url: s.url.clone(),
                        email: s.email.clone(),
                        status_filter: parse_statuses(s.statuses.as_str()),
                    },
                );
                self.push = Some(PushStage::Setup(s));
                Action::SaveJira
            },
        }
    }

    /// The token was put into the keyring, or not.
    pub fn token_saved(&mut self, saved: Result<(), String>)
        requires
            old(self).wf(),
        ensures
            final(self).wf(),
            match old(self).push {
                Some(PushStage::Setup(s)) => {
                    let t = setup_of(*final(self));
                    &&& setup_now(*old(self), t, *final(self))
                    &&& match saved {
                        Ok(()) => t == (SetupState {
                            step: SetupStep::Statuses,
                            error: None,
                            ..s
                        }),
                        Err(e) => complains(s, "keyring: "@ + e@, t),
                    }
                },
                _ => *final(self) == *old(self),
            },
    {
        match self.push.take() {
            Some(PushStage::Setup(s)) => {
                let t = match saved {
                    Ok(()) => {
                        let mut t = s;
                        t.step = SetupStep::Statuses;
                        t.error = None;
                        t
                    },
                    Err(e) => {
                        let mut message = "keyring: ".to_owned();
                        message.append(e.as_str());
                        complain(s, message.as_str())
                    },
                };
                self.push = Some(PushStage::Setup(t));
            },
            other => {
                self.push = other;
            },
        }
    }

    /// The settings for Jira were saved, or not.
    pub fn jira_saved(&mut self, saved: Result<(), String>) -> (act: Action)
        requires
            old(self).wf(),
        ensures
            final(self).wf(),
            match saved {
                Ok(()) => {
                    &&& *final(self) == *old(self)
                    &&& match old(self).config.jira {
                        Some(cfg) => act matches Action::ReadToken { email } && email@
                            == cfg.email@,
                        None => act == Action::Idle,
                    }
                },
                Err(e) => {
                    &&& *final(self) == (App {
                        error: final(self).error,
                        push: None,
                        ..*old(self)
                    })
                    &&& state::says(final(self).error, "save config: "@ + e@)
                    &&& act == Action::Idle
                },
            },
    {
        match saved {
            Ok(()) => match &self.config.jira {
                Some(cfg) => Action::ReadToken { email: cfg.email.clone() },
                None => Action::Idle,
            },
            Err(e) => {
                let mut message = "save config: ".to_owned();
                message.append(e.as_str());
                self.error = Some(message);
                self.push = None;
                Action::Idle
            },
        }
    }

    /// The token was read from the keyring, or not. With it and complete settings
    /// Jira can be reached: the settings are closed, or the push that they were made for goes on.
    pub fn token_read(&mut self, token: Result<String, String>) -> (act: Action)
        requires
            old(self).wf(),
        ensures
            final(self).wf(),
            token_step(*old(self), token, *final(self), act),
    {
        let client = match (&self.config.jira, token) {
            (None, _) => {
                return Action::Idle;
            },
            (Some(cfg), Ok(t)) => JiraClient::from_config(cfg, t),
            (Some(_), Err(e)) => Err(e),
        };
        match client {
            Ok(client) => {
                self.jira_client = Some(client);
            },
            Err(e) => {
                let mut message = "Jira: ".to_owned();
                message.append(e.as_str());
                self.error = Some(message);
                self.push = None;
                return Action::Idle;
            },
        }
        let close = match &self.push {
            Some(PushStage::Setup(s)) => s.editing,
            _ => false,
        };
        if close {
            self.push = None;
            return Action::Idle;
        }
        Action::OpenPreview
    }

    /// A key in the preview.
    pub fn handle_push_preview(&mut self, key: Key)
        requires
            old(self).wf(),
        ensures
            final(self).wf(),
            preview_step(*old(self), key, *final(self)),
    {
        match self.push.take() {
            Some(PushStage::Preview { items, checks, cursor }) => {
                let n = items.len();
                if key == Key::Esc {
                } else if key == Key::Up || key == Key::Char('k') {
                    self.push = Some(
                        PushStage::Preview {
                            items,
                            checks,
                            cursor: state::previous_of(cursor, n),
                        },
                    );
                } else if key == Key::Down || key == Key::Char('j') {
                    self.push = Some(
                        PushStage::Preview { items, checks, cursor: state::next_of(cursor, n) },
                    );
                } else if key == Key::Char(' ') {
                    let mut checks = checks;
                    let now = !checks[cursor];
                    checks.set(cursor, now);
                    self.push = Some(PushStage::Preview { items, checks, cursor });
                } else if key == Key::Enter {
                    let queue = pick_checked(&items, &checks);
                    if queue.len() == 0 {
                        self.push = Some(PushStage::Preview { items, checks, cursor });
                    } else {
                        self.push = Some(
                            PushStage::Sending { queue, done: Vec::new(), failed: Vec::new() },
                        );
                    }
                } else {
                    self.push = Some(PushStage::Preview { items, checks, cursor });
                }
            },
            other => {
                self.push = other;
            },
        }
    }

    /// A key during a push.
    pub fn handle_push(&mut self, key: Key) -> (act: Action)
        requires
            old(self).wf(),
        ensures
            final(self).wf(),
            push_step(*old(self), key, *final(self), act),
    {
        match &self.push {
            Some(PushStage::Setup(_)) => self.handle_push_setup(key),
            Some(PushStage::Preview { .. }) => {
                self.handle_push_preview(key);
                Action::Idle
            },
            Some(PushStage::Finished { .. }) => {
                if key == Key::Esc || key == Key::Enter || key == Key::Char('q') {
                    self.push = None;
                }
                Action::Idle
            },
            _ => Action::Idle,
        }
    }

    /// Sends the next worklog of the queue, or ends the push.
    pub fn step_push(&mut self) -> (act: Action)
        requires
            old(self).wf(),
        ensures
            final(self).wf(),
            send_step(*old(self), *final(self), act),
    {
        match self.push.take() {
            Some(PushStage::Sending { queue, done, failed }) => {
                if queue.len() == 0 {
                    self.push = Some(PushStage::Finished { done, failed });
                    return Action::Idle;
                }
                let mut queue = queue;
                let item = queue.remove(0);
                assert(item.wf()) by {
                    assert(old(self).push->0.wf());
                }
                let request = match &self.jira_client {
                    None => {
                        self.error = Some("Jira client missing.".to_owned());
                        return Action::Idle;
                    },
                    Some(client) => client.post_worklog(
                        item.ticket.as_str(),
                        item.started,
                        item.seconds,
                    ),
                };
                self.push = Some(PushStage::Sending { queue, done, failed });
                match request {
                    Ok(request) => Action::Post { ticket: item.ticket, request },
                    Err(_) => Action::Idle,
                }
            },
            other => {
                self.push = other;
                Action::Idle
            },
        }
    }

    /// Notes what became of a worklog.
    pub fn worklog_posted(
        &mut self,
        ticket: String,
        outcome: Result<WorklogOutcome, String>,
    ) -> (act: Action)
        requires
            old(self).wf(),
        ensures
            final(self).wf(),
            posted_step(*old(self), ticket, outcome, *final(self), act),
    {
        let note = match outcome {
            Ok(WorklogOutcome::Logged { worklog_id }) => {
                let (start, end) = self.current_range();
                self.pushed_this_session.push(ticket.clone());
                self.push = match self.push.take() {
                    Some(PushStage::Sending { queue, done, failed }) => {
                        let mut done = done;
                        done.push(ticket.clone());
                        Some(PushStage::Sending { queue, done, failed })
                    },
                    other => other,
                };
                return Action::RecordWorklog { ticket, start, end, worklog_id };
            },
            Ok(WorklogOutcome::Failed { status, message }) => {
                let mut note = "HTTP ".to_owned();
                note.append(text::decimal_text(status as u64).as_str());
                note.append(": ");
                note.append(message.as_str());
                note
            },
            Err(e) => e,
        };
        self.push = match self.push.take() {
            Some(PushStage::Sending { queue, done, failed }) => {
                let mut failed = failed;
                let ghost before = failed@;
                failed.push((ticket, note));
                assert(failed@.drop_last() =~= before);
                Some(PushStage::Sending { queue, done, failed })
            },
            other => other,
        };
        Action::Idle
    }
}

/// `items` are the worklogs of the tickets on show.
pub open spec fn are_push_items(a: App, zone: Zone, items: Seq<PushItem>) -> bool {
    exists|groups: Seq<GroupSummary<'_>>| #[trigger]
        report::are_summaries(groups, a.scan_records@, a.config.estimation) && items == items_of(
            groups,
            a.hours_overrides,
            zone,
        )
}

/// How many worklogs a push has in hand: those in the queue, those that are done
/// and those that failed.
pub open spec fn in_hand(push: Option<PushStage>) -> nat {
    match push {
        Some(PushStage::Sending { queue, done, failed }) => queue@.len() + done@.len()
            + failed@.len(),
        Some(PushStage::Finished { done, failed }) => done@.len() + failed@.len(),
        _ => 0,
    }
}

/// No worklog gets lost or is counted twice: when one was sent and its outcome
/// noted, the push has as many in hand as before, and one less in the queue.
pub proof fn law_worklogs_are_conserved(
    a: App,
    b: App,
    sent: Action,
    ticket: String,
    outcome: Result<WorklogOutcome, String>,
    c: App,
    act: Action,
)
    requires
        a.push matches Some(PushStage::Sending { queue, .. }) && queue@.len() > 0,
        a.jira_client is Some,
        send_step(a, b, sent),
        posted_step(b, ticket, outcome, c, act),
    ensures
        c.push is Some && c.push->0 is Sending,
        in_hand(c.push) == in_hand(a.push),
        ((c.push->0)->Sending_queue)@.len() == ((a.push->0)->Sending_queue)@.len() - 1,
{
    let q = ((a.push->0)->Sending_queue)@;
    assert(q.remove(0).len() == q.len() - 1);
}

/// A push ends when its queue is empty, with all its worklogs accounted for.
pub proof fn law_push_ends_with_all(a: App, b: App, act: Action)
    requires
        a.push matches Some(PushStage::Sending { queue, .. }) && queue@.len() == 0,
        send_step(a, b, act),
    ensures
        b.push is Some && b.push->0 is Finished,
        in_hand(b.push) == in_hand(a.push),
{
}

/// What a push sends was shown in the preview, and checked.
pub proof fn law_only_checked_items_are_sent(items: Seq<PushItem>, checks: Seq<bool>, k: int)
    requires
        items.len() == checks.len(),
        0 <= k < checked(items, checks).len(),
    ensures
        exists|i: int|
            0 <= i < items.len() && (#[trigger] items[i]) == checked(items, checks)[k]
                && checks[i],
    decreases items.len(),
{
    let rest = checked(items.drop_last(), checks.drop_last());
    if k < rest.len() {
        law_only_checked_items_are_sent(items.drop_last(), checks.drop_last(), k);
        let i = choose|i: int|
            0 <= i < items.len() - 1 && (#[trigger] items.drop_last()[i]) == rest[k]
                && checks.drop_last()[i];
        assert(items[i] == items.drop_last()[i]);
    } else {
        assert(items[items.len() - 1] == items.last());
    }
}

/// A ticket that was pushed already is shown in the preview, but not checked.
pub proof fn law_pushed_tickets_are_not_checked(
    a: App,
    items: Seq<PushItem>,
    b: App,
    i: int,
)
    requires
        items.len() > 0,
        preview_opened(a, items, b),
        0 <= i < items.len(),
    ensures
        b.push is Some && b.push->0 is Preview,
        ((b.push->0)->Preview_checks)@[i] <==> !text::texts(a.pushed_this_session@).contains(
            items[i].ticket@,
        ),
{
}

/// Every worklog belongs to a ticket, takes whole minutes and more than none, and
/// starts with the oldest commit of its ticket.
pub proof fn law_worklogs_are_sound(
    groups: Seq<GroupSummary<'_>>,
    records: Seq<crate::scanner::CommitRecord>,
    cfg: config::EstimationConfig,
    overrides: Overrides,
    zone: Zone,
    k: int,
)
    requires
        report::are_summaries(groups, records, cfg),
        0 <= k < items_of(groups, overrides, zone).len(),
    ensures
        ({
            let item = items_of(groups, overrides, zone)[k];
            &&& item.ticket@ != report::UNTAGGED@
            &&& item.seconds > 0
            &&& item.seconds % 60 == 0
            &&& exists|i: int|
                0 <= i < groups.len() && (#[trigger] groups[i]).ticket == item.ticket
                    && starts_group(groups[i], item.started.seconds)
        }),
{
    lemma_item(groups, overrides, zone, k);
    let i = choose|i: int|
        0 <= i < groups.len() && item_of(#[trigger] groups[i], overrides, zone) == Some(
            items_of(groups, overrides, zone)[k],
        );
    let g = groups[i];
    jira::law_worklogs_are_whole_minutes(hours_of(g, overrides) as int);
    jira::lemma_seconds_bound(hours_of(g, overrides));
    assert(report::summary_names(groups)[i] == g.ticket@);
    assert(report::summary_members(groups)[i] == g.commits@);
    assert(report::group_holds(records, g.ticket@, g.commits@));
    let at = choose|at: Seq<int>| report::are_members(records, g.ticket@, g.commits@, at);
    assert forall|j: int| 0 <= j < g.commits@.len() implies g.commits@[0].author_time
        <= (#[trigger] g.commits@[j]).author_time by {
        assert(*g.commits@[0] == records[at[0]]);
        assert(*g.commits@[j] == records[at[j]]);
        if j > 0 {
            assert(report::older(records, at[0], at[j]));
        }
    }
}

/// No commit of a group is older than `time`, and one is just as old.
pub open spec fn starts_group(g: GroupSummary<'_>, time: i64) -> bool {
    &&& g.commits@.len() > 0
    &&& g.commits@[0].author_time == time
    &&& forall|j: int|
        0 <= j < g.commits@.len() ==> time <= (#[trigger] g.commits@[j]).author_time
}

proof fn lemma_item(groups: Seq<GroupSummary<'_>>, overrides: Overrides, zone: Zone, k: int)
    requires
        0 <= k < items_of(groups, overrides, zone).len(),
    ensures
        exists|i: int|
            0 <= i < groups.len() && item_of(#[trigger] groups[i], overrides, zone) == Some(
                items_of(groups, overrides, zone)[k],
            ),
    decreases groups.len(),
{
    let rest = items_of(groups.drop_last(), overrides, zone);
    if k < rest.len() {
        lemma_item(groups.drop_last(), overrides, zone, k);
        let i = choose|i: int|
            0 <= i < groups.len() - 1 && item_of(
                #[trigger] groups.drop_last()[i],
                overrides,
                zone,
            ) == Some(rest[k]);
        assert(groups[i] == groups.drop_last()[i]);
    } else {
        assert(groups[groups.len() - 1] == groups.last());
    }
}

/// The hours that the user sets for a ticket are those that are shown and pushed;
/// the other tickets keep theirs.
pub proof fn law_set_hours_count(
    g: GroupSummary<'_>,
    a: Overrides,
    ticket: Seq<char>,
    v: i64,
    b: Overrides,
)
    requires
        results::hours_set(a, ticket, v, b),
    ensures
        g.ticket@ == ticket ==> hours_of(g, b) == v,
        g.ticket@ != ticket ==> hours_of(g, b) == hours_of(g, a),
{
    assert(b.get(g.ticket@) == (if g.ticket@ == ticket {
        Some(v)
    } else {
        a.get(g.ticket@)
    }));
}

/// A status as it can be typed in.
pub open spec fn is_plain_status(s: Seq<char>) -> bool {
    s.len() > 0 && text::trim(s) == s && !s.contains(',')
}

proof fn lemma_joined_one(parts: Seq<Seq<char>>, sep: Seq<char>)
    requires
        parts.len() == 1,
    ensures
        text::joined(parts, sep) == parts[0],
{
    reveal_with_fuel(text::joined, 2);
    assert(text::joined(parts, sep) =~= parts[0]);
}

proof fn lemma_joined_front(parts: Seq<Seq<char>>, sep: Seq<char>)
    requires
        parts.len() >= 2,
    ensures
        text::joined(parts, sep) == parts[0] + sep + text::joined(parts.drop_first(), sep),
    decreases parts.len(),
{
    let init = parts.drop_last();
    let rest = parts.drop_first();
    if parts.len() == 2 {
        lemma_joined_one(init, sep);
        lemma_joined_one(rest, sep);
        assert(text::joined(parts, sep) =~= parts[0] + sep + text::joined(rest, sep));
    } else {
        lemma_joined_front(init, sep);
        assert(init.drop_first() =~= rest.drop_last());
        assert(text::joined(parts, sep) =~= parts[0] + sep + text::joined(rest, sep));
    }
}

/// What follows the blanks in front of a list of statuses.
proof fn lemma_statuses(list: Seq<Seq<char>>, lead: Seq<char>)
    requires
        list.len() > 0,
        forall|i: int| 0 <= i < list.len() ==> is_plain_status(#[trigger] list[i]),
        lead == Seq::<char>::empty() || lead == seq![' '],
    ensures
        status_list(lead + text::joined(list, ", "@)) == list,
    decreases list.len(),
{
    reveal_strlit(", ");
    let first = list[0];
    let all = lead + text::joined(list, ", "@);
    let n = lead.len() + first.len();
    assert(is_plain_status(first));
    assert(text::trim(lead + first) == first) by {
        if lead.len() == 0 {
            assert(lead + first =~= first);
        } else {
            assert((lead + first).drop_first() =~= first);
            assert(text::trim_start(lead + first) == text::trim_start(first));
        }
    }
    let rest = list.drop_first();
    if list.len() == 1 {
        lemma_joined_one(list, ", "@);
    } else {
        lemma_joined_front(list, ", "@);
    }
    assert(all.take(n as int) =~= lead + first);
    assert(!all.take(n as int).contains(',')) by {
        if (lead + first).contains(',') {
            let i = choose|i: int| 0 <= i < n && (lead + first)[i] == ',';
            if i >= lead.len() {
                assert(first[i - lead.len()] == ',');
            }
        }
    }
    number::lemma_position(all, ',', n as int);
    if list.len() == 1 {
        assert(all =~= all.take(n as int));
        assert(status_list(all) =~= list);
    } else {
        assert forall|i: int| 0 <= i < rest.len() implies is_plain_status(#[trigger] rest[i]) by {
            assert(rest[i] == list[i + 1]);
        }
        lemma_statuses(rest, seq![' ']);
        assert(all.skip(n as int + 1) =~= seq![' '] + text::joined(rest, ", "@));
        assert(status_list(all) =~= list);
    }
}

/// Settings that are opened and saved without a change keep their statuses, if
/// each can be typed in: it is not empty, has no comma, and no blanks around it.
pub proof fn law_statuses_survive_editing(list: Seq<Seq<char>>)
    requires
        forall|i: int| 0 <= i < list.len() ==> is_plain_status(#[trigger] list[i]),
    ensures
        status_list(text::joined(list, ", "@)) == list,
{
    if list.len() > 0 {
        lemma_statuses(list, Seq::empty());
        assert(Seq::<char>::empty() + text::joined(list, ", "@) =~= text::joined(list, ", "@));
    } else {
        let none = Seq::<char>::empty();
        assert(text::joined(list, ", "@) =~= none);
        assert(none.take(0) =~= none);
        assert(status_list(none) =~= list);
    }
}

/// Two worklogs belong to two groups, in the same order.
proof fn lemma_items_in_order(
    groups: Seq<GroupSummary<'_>>,
    overrides: Overrides,
    zone: Zone,
    k: int,
    l: int,
) -> (at: (int, int))
    requires
        0 <= k < l < items_of(groups, overrides, zone).len(),
    ensures
        0 <= at.0 < at.1 < groups.len(),
        item_of(groups[at.0], overrides, zone) == Some(items_of(groups, overrides, zone)[k]),
        item_of(groups[at.1], overrides, zone) == Some(items_of(groups, overrides, zone)[l]),
    decreases groups.len(),
{
    let init = groups.drop_last();
    let rest = items_of(init, overrides, zone);
    if l < rest.len() {
        let at = lemma_items_in_order(init, overrides, zone, k, l);
        assert(init[at.0] == groups[at.0] && init[at.1] == groups[at.1]);
        at
    } else {
        lemma_item(init, overrides, zone, k);
        let i = choose|i: int|
            0 <= i < init.len() && item_of(#[trigger] init[i], overrides, zone) == Some(rest[k]);
        assert(groups[i] == init[i]);
        assert(groups[groups.len() - 1] == groups.last());
        (i, groups.len() - 1)
    }
}

/// The worklog of a group is among those of all.
proof fn lemma_item_found(
    groups: Seq<GroupSummary<'_>>,
    overrides: Overrides,
    zone: Zone,
    i: int,
) -> (k: int)
    requires
        0 <= i < groups.len(),
        item_of(groups[i], overrides, zone) is Some,
    ensures
        0 <= k < items_of(groups, overrides, zone).len(),
        item_of(groups[i], overrides, zone) == Some(items_of(groups, overrides, zone)[k]),
    decreases groups.len(),
{
    let init = groups.drop_last();
    let rest = items_of(init, overrides, zone);
    if i < init.len() {
        assert(init[i] == groups[i]);
        lemma_item_found(init, overrides, zone, i)
    } else {
        assert(groups.last() == groups[i]);
        rest.len() as int
    }
}

/// The worklogs of the same commits are the same, whatever listed them.
proof fn lemma_push_items(
    a: App,
    zone: Zone,
    items: Seq<PushItem>,
    groups: Seq<GroupSummary<'_>>,
) -> (made: Seq<GroupSummary<'static>>)
    requires
        are_push_items(a, zone, items),
        report::are_summaries(groups, a.scan_records@, a.config.estimation),
    ensures
        report::are_summaries(made, a.scan_records@, a.config.estimation),
        items == items_of(made, a.hours_overrides, zone),
        made.len() == groups.len(),
        forall|i: int|
            #![trigger made[i]]
            #![trigger groups[i]]
            0 <= i < made.len() ==> {
                &&& made[i].ticket@ == groups[i].ticket@
                &&& made[i].commits@ == groups[i].commits@
                &&& made[i].gap.value == groups[i].gap.value
            },
{
    let made = choose|made: Seq<GroupSummary<'_>>| #[trigger]
        report::are_summaries(made, a.scan_records@, a.config.estimation) && items == items_of(
            made,
            a.hours_overrides,
            zone,
        );
    report::law_groups_are_listed_in_one_way(
        a.scan_records@,
        report::summary_names(made),
        report::summary_names(groups),
    );
    assert(report::summary_names(made).len() == made.len());
    assert(report::summary_names(groups).len() == groups.len());
    assert forall|i: int|
        #![trigger made[i]]
        #![trigger groups[i]]
        0 <= i < made.len() implies {
        &&& made[i].ticket@ == groups[i].ticket@
        &&& made[i].commits@ == groups[i].commits@
        &&& made[i].gap.value == groups[i].gap.value
    } by {
        report::law_summaries_are_settled(made, groups, a.scan_records@, a.config.estimation, i);
    }
    made
}

/// Every worklog is that of a ticket on show. It takes the hours that the user set for the
/// ticket, or else those of its commits, rounded to the nearest minute, and starts when the
/// first of them was made.
pub proof fn law_worklogs_carry_the_hours_on_show(
    a: App,
    zone: Zone,
    items: Seq<PushItem>,
    groups: Seq<GroupSummary<'_>>,
    k: int,
) -> (i: int)
    requires
        are_push_items(a, zone, items),
        report::are_summaries(groups, a.scan_records@, a.config.estimation),
        0 <= k < items.len(),
    ensures
        0 <= i < groups.len(),
        items[k].ticket@ == groups[i].ticket@,
        items[k].ticket@ != "(untagged)"@,
        ({
            let v = match a.hours_overrides.get(groups[i].ticket@) {
                Some(set) => set,
                None => groups[i].gap.value,
            };
            &&& items[k].seconds == jira::jira_seconds(v as int)
            &&& items[k].seconds % 60 == 0
            &&& items[k].seconds > 0
            &&& -30_000_000 <= items[k].seconds * 1_000_000 - v <= 30_000_000
        }),
        groups[i].commits@.len() > 0,
        items[k].started.seconds == groups[i].commits@[0].author_time,
        zone.moment(groups[i].commits@[0].author_time) == Some(items[k].started),
{
    let made = lemma_push_items(a, zone, items, groups);
    lemma_item(made, a.hours_overrides, zone, k);
    let i = choose|i: int|
        0 <= i < made.len() && item_of(#[trigger] made[i], a.hours_overrides, zone) == Some(
            items[k],
        );
    assert(made[i].ticket@ == groups[i].ticket@);
    let v = hours_of(made[i], a.hours_overrides);
    jira::law_worklogs_are_whole_minutes(v as int);
    jira::lemma_seconds_bound(v);
    if v < 0 {
        hours::law_rounding_is_to_the_nearest_minute(v as int);
    }
    i
}

/// Every ticket on show with half a minute or more has one worklog, if it is known how the
/// clock stood at its first commit.
pub proof fn law_every_ticket_with_time_has_one_worklog(
    a: App,
    zone: Zone,
    items: Seq<PushItem>,
    groups: Seq<GroupSummary<'_>>,
    i: int,
) -> (k: int)
    requires
        are_push_items(a, zone, items),
        report::are_summaries(groups, a.scan_records@, a.config.estimation),
        0 <= i < groups.len(),
        groups[i].ticket@ != "(untagged)"@,
        match a.hours_overrides.get(groups[i].ticket@) {
            Some(set) => set >= 30_000_000,
            None => groups[i].gap.value >= 30_000_000,
        },
        zone.moment(groups[i].commits@[0].author_time) is Some,
    ensures
        0 <= k < items.len(),
        items[k].ticket@ == groups[i].ticket@,
        forall|l: int|
            0 <= l < items.len() && (#[trigger] items[l]).ticket@ == groups[i].ticket@ ==> l == k,
{
    let made = lemma_push_items(a, zone, items, groups);
    let names = report::summary_names(made);
    let o = a.hours_overrides;
    assert(made[i].ticket@ == groups[i].ticket@);
    assert(names[i] == made[i].ticket@);
    let v = hours_of(made[i], o);
    hours::law_rounding_is_to_the_nearest_minute(v as int);
    assert(made[i].commits@.len() > 0) by {
        assert(names.contains(names[i]));
        assert(report::summary_members(made)[i] == made[i].commits@);
        assert(report::group_holds(a.scan_records@, names[i], made[i].commits@));
        let at = choose|at: Seq<int>|
            report::are_members(a.scan_records@, names[i], made[i].commits@, at);
        let n = choose|n: int|
            0 <= n < a.scan_records@.len() && report::in_group(
                #[trigger] a.scan_records@[n],
                names[i],
            );
        assert(at.contains(n));
    }
    let k = lemma_item_found(made, o, zone, i);
    assert forall|l: int|
        0 <= l < items.len() && (#[trigger] items[l]).ticket@ == groups[i].ticket@ implies l
        == k by {
        if l != k {
            let at = if l < k {
                lemma_items_in_order(made, o, zone, l, k)
            } else {
                lemma_items_in_order(made, o, zone, k, l)
            };
            assert(names[at.0] == made[at.0].ticket@ && names[at.1] == made[at.1].ticket@);
            assert(report::listed_before(names[at.0], names[at.1]));
        }
    }
    k
}

/// The worklogs are in the order of their tickets, and no ticket has two.
pub proof fn law_worklogs_are_in_order(a: App, zone: Zone, items: Seq<PushItem>, k: int, l: int)
    requires
        are_push_items(a, zone, items),
        0 <= k < l < items.len(),
    ensures
        crate::order::text_lt(items[k].ticket@, items[l].ticket@),
{
    let made = choose|made: Seq<GroupSummary<'_>>| #[trigger]
        report::are_summaries(made, a.scan_records@, a.config.estimation) && items == items_of(
            made,
            a.hours_overrides,
            zone,
        );
    let names = report::summary_names(made);
    let at = lemma_items_in_order(made, a.hours_overrides, zone, k, l);
    assert(names[at.0] == items[k].ticket@ && names[at.1] == items[l].ticket@);
    assert(report::listed_before(names[at.0], names[at.1]));
}

/// How the clock stood is what was noted last for a time.
pub proof fn law_clock_is_what_was_noted(a: Zone, b: Zone, time: i64, other: i64, offset: i32)
    requires
        b.entries@ == a.entries@.push((time, offset)),
    ensures
        b.moment(time) matches Some(m) ==> m.seconds == time && m.offset == offset,
        (Instant { seconds: time, offset }).valid() ==> b.moment(time) is Some,
        other != time ==> b.moment(other) == a.moment(other),
        a.entries@.len() == 0 ==> a.moment(time) is None,
{
    assert(b.entries@.drop_last() =~= a.entries@);
}

/// Checked items are picked one by one, in order.
pub proof fn law_checked_items_are_picked_one_by_one(
    a: Seq<PushItem>,
    c: Seq<bool>,
    b: Seq<PushItem>,
    d: Seq<bool>,
    one: PushItem,
)
    requires
        a.len() == c.len(),
        b.len() == d.len(),
    ensures
        checked(a + b, c + d) == checked(a, c) + checked(b, d),
        checked(seq![one], seq![true]) == seq![one],
        checked(seq![one], seq![false]) == Seq::<PushItem>::empty(),
    decreases b.len(),
{
    let single = seq![one];
    assert(single.drop_last() =~= Seq::empty());
    reveal_with_fuel(checked, 2);
    assert(checked(single, seq![true]) =~= single);
    if b.len() == 0 {
        assert(a + b =~= a);
        assert(c + d =~= c);
        assert(checked(a + b, c + d) =~= checked(a, c) + checked(b, d));
    } else {
        law_checked_items_are_picked_one_by_one(a, c, b.drop_last(), d.drop_last(), one);
        assert((a + b).drop_last() =~= a + b.drop_last());
        assert((c + d).drop_last() =~= c + d.drop_last());
        assert((a + b).last() == b.last());
        assert((c + d).last() == d.last());
        assert(checked(a + b, c + d) =~= checked(a, c) + checked(b, d));
    }
}

/// Every item that is checked is sent when the preview is confirmed.
pub proof fn law_checked_items_are_sent(a: App, b: App, i: int)
    requires
        a.wf(),
        a.push is Some && a.push->0 is Preview,
        preview_step(a, Key::Enter, b),
        0 <= i < ((a.push->0)->Preview_items)@.len(),
        ((a.push->0)->Preview_checks)@[i],
    ensures
        b.push is Some && b.push->0 is Sending,
        ((b.push->0)->Sending_queue)@.contains(((a.push->0)->Preview_items)@[i]),
        ((b.push->0)->Sending_done)@.len() == 0,
        ((b.push->0)->Sending_failed)@.len() == 0,
{
    let items = ((a.push->0)->Preview_items)@;
    let checks = ((a.push->0)->Preview_checks)@;
    lemma_checked_found(items, checks, i);
}

proof fn lemma_checked_found(items: Seq<PushItem>, checks: Seq<bool>, i: int)
    requires
        items.len() == checks.len(),
        0 <= i < items.len(),
        checks[i],
    ensures
        checked(items, checks).contains(items[i]),
        checked(items, checks).len() > 0,
    decreases items.len(),
{
    let rest = checked(items.drop_last(), checks.drop_last());
    let all = checked(items, checks);
    if i < items.len() - 1 {
        lemma_checked_found(items.drop_last(), checks.drop_last(), i);
        let k = choose|k: int| 0 <= k < rest.len() && rest[k] == items[i];
        assert(all[k] == items[i]);
    } else {
        assert(all[rest.len() as int] == items[i]);
    }
}

/// The space bar checks the item of the cursor or takes the check away, and touches no other.
pub proof fn law_space_checks_one_item(a: App, b: App, i: int)
    requires
        a.wf(),
        a.push is Some && a.push->0 is Preview,
        preview_step(a, Key::Char(' '), b),
        0 <= i < ((a.push->0)->Preview_items)@.len(),
    ensures
        b.push is Some && b.push->0 is Preview,
        ((b.push->0)->Preview_items) == ((a.push->0)->Preview_items),
        ((b.push->0)->Preview_cursor) == ((a.push->0)->Preview_cursor),
        i == ((a.push->0)->Preview_cursor) ==> ((b.push->0)->Preview_checks)@[i] == !((
        a.push->0)->Preview_checks)@[i],
        i != ((a.push->0)->Preview_cursor) ==> ((b.push->0)->Preview_checks)@[i] == ((
        a.push->0)->Preview_checks)@[i],
{
}

/// The worklog that is sent is the first of the queue: its ticket, its seconds and its start,
/// to where Jira is. The others follow in their order.
pub proof fn law_worklogs_are_sent_from_the_front(a: App, b: App, act: Action)
    requires
        a.push is Some && a.push->0 is Sending,
        ((a.push->0)->Sending_queue)@.len() > 0,
        a.jira_client is Some,
        send_step(a, b, act),
    ensures
        ({
            let queue = ((a.push->0)->Sending_queue)@;
            let client = a.jira_client->0;
            &&& b.push is Some && b.push->0 is Sending
            &&& ((b.push->0)->Sending_queue)@ == queue.skip(1)
            &&& act is Post
            &&& act->Post_ticket@ == queue[0].ticket@
            &&& act->request.time_spent_seconds == queue[0].seconds
            &&& act->request.url@ == client.base_url@ + "/rest/api/3/issue/"@ + queue[0].ticket@
                + "/worklog"@
            &&& dates::shown_for_jira(queue[0].started, act->request.started@)
        }),
{
    let queue = ((a.push->0)->Sending_queue)@;
    assert(queue.remove(0) =~= queue.skip(1));
}

/// A worklog that was logged is noted as done and as pushed, and is to be recorded; any other is
/// noted as failed, and its ticket can be pushed again.
pub proof fn law_outcomes_are_noted(
    a: App,
    ticket: String,
    outcome: Result<WorklogOutcome, String>,
    b: App,
    act: Action,
)
    requires
        a.push is Some && a.push->0 is Sending,
        posted_step(a, ticket, outcome, b, act),
    ensures
        b.push is Some && b.push->0 is Sending,
        ((b.push->0)->Sending_queue) == ((a.push->0)->Sending_queue),
        ({
            let logged = outcome is Ok && outcome->Ok_0 is Logged;
            let done = ((a.push->0)->Sending_done)@;
            let failed = ((a.push->0)->Sending_failed)@;
            &&& logged ==> ((b.push->0)->Sending_done)@ == done.push(ticket) && ((
            b.push->0)->Sending_failed)@ == failed && b.pushed_this_session@
                == a.pushed_this_session@.push(ticket) && act is RecordWorklog
                && act->RecordWorklog_ticket == ticket
            &&& !logged ==> ((b.push->0)->Sending_done)@ == done && ((
            b.push->0)->Sending_failed)@.len() == failed.len() + 1 && ((
            b.push->0)->Sending_failed)@.last().0 == ticket && b.pushed_this_session
                == a.pushed_this_session && act == Action::Idle
        }),
{
}

/// Every status of a list is read as it stands between commas, without the blanks around it.
pub proof fn law_statuses_are_read_between_commas(first: Seq<char>, rest: Seq<char>)
    requires
        !first.contains(','),
    ensures
        status_list(first) == if text::trim(first).len() > 0 {
            seq![text::trim(first)]
        } else {
            Seq::<Seq<char>>::empty()
        },
        status_list(first + seq![','] + rest) == status_list(first) + status_list(rest),
{
    let n = first.len() as int;
    let all = first + seq![','] + rest;
    assert(first.take(n) =~= first);
    number::lemma_position(first, ',', n);
    assert(all.take(n) =~= first);
    number::lemma_position(all, ',', n);
    assert(all.skip(n + 1) =~= rest);
    assert(status_list(first) =~= if text::trim(first).len() > 0 {
        seq![text::trim(first)]
    } else {
        Seq::<Seq<char>>::empty()
    });
    assert(status_list(all) =~= status_list(first) + status_list(rest));
}

/// The settings ask for the address, the user, the token and the statuses, in this order, and go
/// on only from what can be right.
pub proof fn law_settings_are_asked_in_order(a: App, s: SetupState, b: App, act: Action)
    requires
        a.push == Some(PushStage::Setup(s)),
        setup_step(a, Key::Enter, b, act),
    ensures
        s.step == SetupStep::Url ==> b.push is Some && b.push->0 is Setup && (setup_of(b).step
            == SetupStep::Email <==> text::occurs_at(text::trim(s.url@), "http://"@, 0)
            || text::occurs_at(text::trim(s.url@), "https://"@, 0)),
        s.step == SetupStep::Email ==> b.push is Some && b.push->0 is Setup && (setup_of(b).step
            == SetupStep::Token <==> text::trim(s.email@).contains('@')),
        s.step == SetupStep::Token && s.token@.len() > 0 ==> act is SaveToken && act->token@
            == s.token@ && act->SaveToken_email@ == s.email@,
        s.step == SetupStep::Token && s.token@.len() == 0 && !s.editing ==> act == Action::Idle
            && setup_of(b).step == SetupStep::Token && setup_of(b).error is Some,
        s.step == SetupStep::Statuses ==> act == Action::SaveJira && b.config.jira is Some && (
        b.config.jira->0).base_url@ == s.url@ && (b.config.jira->0).email@ == s.email@
            && text::texts((b.config.jira->0).status_filter@) == status_list(s.statuses@),
{
}

/// What is typed into the settings is put behind what stands there, and erased from its end.
pub proof fn law_settings_are_typed_and_erased(
    a: App,
    s: SetupState,
    c: char,
    b: App,
    one: Action,
    d: App,
    two: Action,
)
    requires
        a.push == Some(PushStage::Setup(s)),
        setup_step(a, Key::Char(c), b, one),
        setup_step(b, Key::Backspace, d, two),
    ensures
        field(setup_of(b)) == field(s) + seq![c],
        field(setup_of(d)) == field(s),
        setup_of(b).step == s.step,
        s.step != SetupStep::Url ==> setup_of(b).url == s.url,
        s.step != SetupStep::Email ==> setup_of(b).email == s.email,
        s.step != SetupStep::Token ==> setup_of(b).token == s.token,
        s.step != SetupStep::Statuses ==> setup_of(b).statuses == s.statuses,
{
    assert(field(s).push(c) =~= field(s) + seq![c]);
    assert(field(s).push(c).drop_last() =~= field(s));
}

/// A push starts only with commits on show; it asks for the settings where there are none, for
/// the token where Jira cannot be reached yet, and shows the preview otherwise.
pub proof fn law_pushes_start_with_what_is_missing(a: App, b: App, act: Action)
    requires
        start_step(a, b, act),
    ensures
        a.scan_records@.len() == 0 ==> b.error is Some && b.push == a.push && act == Action::Idle,
        a.scan_records@.len() > 0 && a.config.jira is None ==> b.push is Some && b.push->0 is Setup
            && setup_of(b).step == SetupStep::Url && !setup_of(b).editing,
        a.scan_records@.len() > 0 && a.config.jira is Some && a.jira_client is None ==> act
            is ReadToken && act->ReadToken_email@ == (a.config.jira->0).email@,
        a.scan_records@.len() > 0 && a.config.jira is Some && a.jira_client is Some ==> act
            == Action::OpenPreview,
{
}

/// With a token and complete settings Jira can be reached, at the address of the settings without
/// the slashes at its end, as the user of the settings and with that token.
pub proof fn law_tokens_open_the_way(a: App, token: String, b: App, act: Action)
    requires
        token_step(a, Ok(token), b, act),
        a.config.jira is Some,
        (a.config.jira->0).base_url@.len() > 0,
        (a.config.jira->0).email@.len() > 0,
    ensures
        b.jira_client is Some,
        (b.jira_client->0).base_url@ == jira::without_slashes((a.config.jira->0).base_url@),
        (b.jira_client->0).email@ == (a.config.jira->0).email@,
        (b.jira_client->0).token@ == token@,
        b.config == a.config,
        b.scan_records == a.scan_records,
{
}

/// Settings are opened with what is set.
pub proof fn law_settings_open_with_what_is_set(a: App, b: App)
    requires
        settings_open(a, b),
        a.config.jira is Some,
        forall|i: int|
            0 <= i < (a.config.jira->0).status_filter@.len() ==> is_plain_status(
                (#[trigger] (a.config.jira->0).status_filter@[i])@,
            ),
    ensures
        b.push is Some && b.push->0 is Setup,
        setup_of(b).url@ == (a.config.jira->0).base_url@,
        setup_of(b).email@ == (a.config.jira->0).email@,
        setup_of(b).token@.len() == 0,
        setup_of(b).editing,
        status_list(setup_of(b).statuses@) == text::texts((a.config.jira->0).status_filter@),
{
    let list = text::texts((a.config.jira->0).status_filter@);
    assert forall|i: int| 0 <= i < list.len() implies is_plain_status(#[trigger] list[i]) by {
        assert(list[i] == (a.config.jira->0).status_filter@[i]@);
    }
    law_statuses_survive_editing(list);
}

/// What is noted of a worklog that failed is the status and the message of the response, or what
/// kept it from being sent.
pub proof fn law_failures_are_noted_with_their_reason(
    a: App,
    ticket: String,
    outcome: Result<WorklogOutcome, String>,
    b: App,
    act: Action,
)
    requires
        a.push is Some && a.push->0 is Sending,
        posted_step(a, ticket, outcome, b, act),
    ensures
        outcome matches Err(e) ==> ((b.push->0)->Sending_failed)@.last().1@ == e@,
        outcome matches Ok(WorklogOutcome::Failed { status, message }) ==> ((
        b.push->0)->Sending_failed)@.last().1@ == "HTTP "@ + text::decimal(status as nat) + ": "@
            + message@,
{
}

} // verus!
