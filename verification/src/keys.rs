//! Which keys do what.

use vstd::prelude::*;

use crate::calendar;
use crate::hours;
use crate::worklogs;
use crate::repos;
use crate::results;
use crate::scans;
use crate::state;
use crate::state::{Action, App, Focus, Key, PushStage};

verus! {

/// The pane after a pane.
pub open spec fn next_pane(f: Focus) -> Focus {
    match f {
        Focus::Left => Focus::Middle,
        Focus::Middle => Focus::Right,
        Focus::Right => Focus::Left,
    }
}

/// A fill begins, if there are any commits.
pub open spec fn fill_started(a: App, b: App) -> bool {
    if a.scan_records@.len() == 0 {
        b == a
    } else {
        &&& b == App { focus: Focus::Right, fill_edit: b.fill_edit, ..a }
        &&& state::says(
            b.fill_edit,
            hours::hours_text(a.config.estimation.budget_default_hours as int),
        )
    }
}

/// The hours of a ticket are to be typed in, if there are any commits.
pub open spec fn edit_started(a: App, b: App) -> bool {
    if a.scan_records@.len() == 0 {
        b == a
    } else {
        &&& b == App { focus: Focus::Right, results_edit: b.results_edit, ..a }
        &&& b.results_edit matches Some(buf) && buf@.len() == 0
    }
}

/// What a key does while nothing else is open.
pub open spec fn plain_step(a: App, key: Key, b: App, act: Action) -> bool {
    if key == Key::Char('q') || key == Key::Esc {
        b == a && act == Action::Quit
    } else if key == Key::Tab {
        b == App { focus: next_pane(a.focus), ..a } && act == Action::Idle
    } else if key == Key::Char('s') {
        scans::scan_step(a, false, b, act)
    } else if key == Key::Char('S') {
        scans::scan_step(a, true, b, act)
    } else if key == Key::Char('p') {
        worklogs::start_step(a, b, act)
    } else if key == Key::Char('e') {
        edit_started(a, b) && act == Action::Idle
    } else if key == Key::Char('f') {
        fill_started(a, b) && act == Action::Idle
    } else if key == Key::Char('J') {
        worklogs::settings_open(a, b) && act == Action::Idle
    } else if key == Key::Char('m') {
        b == a && act == Action::BuildStandup
    } else if key == Key::Char('G') {
        b == a && act == Action::FetchPrs
    } else {
        match a.focus {
            Focus::Left => repos::left_step(a, key, b, act),
            Focus::Middle => calendar::middle_step(a, key, b, act),
            Focus::Right => results::right_step(a, key, b) && act == Action::Idle,
        }
    }
}

/// What a key does.
pub open spec fn key_step(a: App, key: Key, b: App, act: Action) -> bool {
    if a.error is Some {
        b == App { error: None, ..a } && act == Action::Idle
    } else if a.scanning {
        b == a && act == Action::Idle
    } else if a.push is Some {
        worklogs::push_step(a, key, b, act)
    } else if a.standup is Some {
        results::standup_step(a, key, b) && act == Action::Idle
    } else if a.adding() {
        repos::add_step(a, key, b, act)
    } else if a.focus == Focus::Right && a.results_edit is Some {
        results::edit_step(a, key, b) && act == Action::Idle
    } else if a.focus == Focus::Right && a.fill_edit is Some {
        results::fill_step(a, key, b) && act == Action::Idle
    } else {
        plain_step(a, key, b, act)
    }
}

/// What the interface does between two keys.
#[derive(Clone, Copy, PartialEq, Eq, Structural, Debug)]
pub enum Task {
    /// Scan the repositories.
    Scan,
    /// Post the next worklog.
    Send,
    /// Wait for a key.
    Wait,
}

impl App {
    /// What is to be done once the screen is drawn.
    pub fn next_task(&self) -> (r: Task)
        ensures
            r == (if self.scanning {
                Task::Scan
            } else if self.push is Some && self.push->0 is Sending {
                Task::Send
            } else {
                Task::Wait
            }),
    {
        if self.scanning {
            return Task::Scan;
        }
        match &self.push {
            Some(PushStage::Sending { .. }) => Task::Send,
            _ => Task::Wait,
        }
    }

    /// A key was pressed. An error that is on show takes the key, whichever it is;
    /// during a scan no key does anything.
    pub fn handle_key(&mut self, key: Key) -> (act: Action)
        requires
            old(self).wf(),
        ensures
            final(self).wf(),
            key_step(*old(self), key, *final(self), act),
    {
        if self.error.is_some() {
            self.error = None;
            return Action::Idle;
        }
        if self.scanning {
            return Action::Idle;
        }
        if self.push.is_some() {
            return self.handle_push(key);
        }
        if self.standup.is_some() {
            self.handle_standup(key);
            return Action::Idle;
        }
        if self.is_adding() {
            return self.handle_add_repo(key);
        }
        if self.focus == Focus::Right && self.results_edit.is_some() {
            self.handle_edit_hours(key);
            return Action::Idle;
        }
        if self.focus == Focus::Right && self.fill_edit.is_some() {
            self.handle_fill(key);
            return Action::Idle;
        }
        self.plain_key(key)
    }

    fn plain_key(&mut self, key: Key) -> (act: Action)
        requires
            old(self).wf(),
        ensures
            final(self).wf(),
            plain_step(*old(self), key, *final(self), act),
    {
        if key == Key::Char('q') || key == Key::Esc {
            return Action::Quit;
        } else if key == Key::Tab {
            self.focus = match self.focus {
                Focus::Left => Focus::Middle,
                Focus::Middle => Focus::Right,
                Focus::Right => Focus::Left,
            };
            return Action::Idle;
        } else if key == Key::Char('s') {
            return self.do_scan(false);
        } else if key == Key::Char('S') {
            return self.do_scan(true);
        } else if key == Key::Char('p') {
            return self.start_push();
        } else if key == Key::Char('e') {
            if self.scan_records.len() > 0 {
                self.focus = Focus::Right;
                self.results_edit = Some(String::new());
            }
            return Action::Idle;
        } else if key == Key::Char('f') {
            self.start_fill();
            return Action::Idle;
        } else if key == Key::Char('J') {
            self.open_jira_settings();
            return Action::Idle;
        } else if key == Key::Char('m') {
            return Action::BuildStandup;
        } else if key == Key::Char('G') {
            return Action::FetchPrs;
        }
        match self.focus {
            Focus::Left => self.handle_left(key),
            Focus::Middle => self.handle_middle(key),
            Focus::Right => {
                self.handle_right(key);
                Action::Idle
            },
        }
    }
}

/// Any key dismisses an error, and does nothing else.
pub proof fn law_any_key_dismisses_an_error(a: App, key: Key, b: App, act: Action)
    requires
        a.error is Some,
        key_step(a, key, b, act),
    ensures
        b.error is None,
        act == Action::Idle,
        b == (App { error: None, ..a }),
{
}

/// While the repositories are scanned, keys are ignored.
pub proof fn law_keys_wait_for_a_scan(a: App, key: Key, b: App, act: Action)
    requires
        a.error is None,
        a.scanning,
        key_step(a, key, b, act),
    ensures
        b == a,
        act == Action::Idle,
{
}

/// The interface is left only with `q` or Esc, and only when nothing is open.
pub proof fn law_only_quitting_quits(a: App, key: Key, b: App, act: Action)
    requires
        key_step(a, key, b, act),
        act == Action::Quit,
    ensures
        key == Key::Char('q') || key == Key::Esc,
        a.error is None,
        !a.scanning,
        a.push is None,
        a.standup is None,
        !a.adding(),
        b == a,
{
}

/// Tab goes through all three panes and comes back to the first.
pub proof fn law_tab_goes_round(f: Focus)
    ensures
        next_pane(next_pane(next_pane(f))) == f,
        next_pane(f) != f,
        next_pane(next_pane(f)) != f,
{
}

/// Where nothing is open, each letter does its own thing, whichever pane the keys go to.
pub proof fn law_letters_do_what_they_stand_for(a: App, key: Key, b: App, act: Action)
    requires
        key_step(a, key, b, act),
        a.error is None,
        !a.scanning,
        a.push is None,
        a.standup is None,
        !a.adding(),
        a.results_edit is None,
        a.fill_edit is None,
    ensures
        key == Key::Char('q') || key == Key::Esc ==> act == Action::Quit && b == a,
        key == Key::Char('m') ==> act == Action::BuildStandup && b == a,
        key == Key::Char('G') ==> act == Action::FetchPrs && b == a,
        key == Key::Char('S') && a.config.repos@.len() > 0 ==> b.scanning && act
            is ForgetScan,
        key == Key::Char('s') && a.config.repos@.len() > 0 ==> act is LoadScan || act
            is SyncPushed,
        (key == Key::Char('s') || key == Key::Char('S')) && a.config.repos@.len() == 0
            ==> b.error is Some && act == Action::Idle,
        key == Key::Char('e') && a.scan_records@.len() > 0 ==> b.results_edit is Some && (
        b.results_edit->0)@.len() == 0 && b.focus == Focus::Right,
        key == Key::Char('f') && a.scan_records@.len() > 0 ==> b.fill_edit is Some && b.focus
            == Focus::Right,
        key == Key::Char('p') && a.scan_records@.len() > 0 && a.config.jira is Some && a.jira_client
            is Some ==> act == Action::OpenPreview && b == a,
        key == Key::Char('J') ==> b.push is Some && b.push->0 is Setup,
        key == Key::Tab ==> b == (App { focus: b.focus, ..a }) && b.focus != a.focus,
{
}

/// Keys go to what is open: to a push before the standup, to that before a repository that is
/// added, and to that before what is typed in.
pub proof fn law_keys_go_to_what_is_open(a: App, key: Key, b: App, act: Action)
    requires
        key_step(a, key, b, act),
        a.error is None,
        !a.scanning,
    ensures
        a.push is Some ==> worklogs::push_step(a, key, b, act),
        a.push is None && a.standup is Some ==> results::standup_step(a, key, b),
        a.push is None && a.standup is None && a.adding() ==> repos::add_step(a, key, b, act),
        a.push is None && a.standup is None && !a.adding() && a.focus == Focus::Right
            && a.results_edit is Some ==> results::edit_step(a, key, b),
        a.push is None && a.standup is None && !a.adding() && a.focus == Focus::Right
            && a.results_edit is None && a.fill_edit is Some ==> results::fill_step(a, key, b),
{
}

} // verus!
