//! The right pane: the tickets with their hours, and the standup.

use vstd::prelude::*;

use crate::cache::Overrides;
use crate::fill;
use crate::hours;
use crate::jira::IssueInfo;
use crate::pr::PrInfo;
use crate::report;
use crate::report::GroupSummary;
use crate::standup;
use crate::standup::StandupReport;
use crate::state;
use crate::state::{Action, App, Focus, Key, StandupView};

verus! {

/// The number of groups on show.
pub open spec fn group_count(a: App) -> int {
    report::names_of(a.scan_records@).len() as int
}

/// So many lines further down, as far as there are lines.
pub open spec fn page_down(scroll: u16) -> u16 {
    if scroll + 10 > u16::MAX {
        u16::MAX
    } else {
        (scroll + 10) as u16
    }
}

/// So many lines further up.
pub open spec fn page_up(scroll: u16) -> u16 {
    if scroll < 10 {
        0
    } else {
        (scroll - 10) as u16
    }
}

fn down(scroll: u16) -> (r: u16)
    ensures
        r == page_down(scroll),
{
    if scroll > u16::MAX - 10 {
        u16::MAX
    } else {
        scroll + 10
    }
}

fn up(scroll: u16) -> (r: u16)
    ensures
        r == page_up(scroll),
{
    if scroll < 10 {
        0
    } else {
        scroll - 10
    }
}

/// What a key does among the tickets.
pub open spec fn right_step(a: App, key: Key, b: App) -> bool {
    let n = group_count(a);
    if key == Key::Down || key == Key::Char('j') {
        b == App {
            results_selected: if n > 0 {
                state::after(a.results_selected as int, n) as usize
            } else {
                a.results_selected
            },
            ..a
        }
    } else if key == Key::Up || key == Key::Char('k') {
        b == App {
            results_selected: if n > 0 {
                state::before(a.results_selected as int, n) as usize
            } else {
                a.results_selected
            },
            ..a
        }
    } else if key == Key::PageDown {
        b == App { results_scroll: page_down(a.results_scroll), ..a }
    } else if key == Key::PageUp {
        b == App { results_scroll: page_up(a.results_scroll), ..a }
    } else {
        b == a
    }
}

/// A character that a duration may be typed with.
pub open spec fn is_duration_char(c: char) -> bool {
    ||| '0' <= c <= '9'
    ||| c == '.'
    ||| c == 'h'
    ||| c == 'H'
    ||| c == 'm'
    ||| c == 'M'
    ||| c == ' '
}

/// The hours of one ticket were set, and no others.
pub open spec fn hours_set(a: Overrides, ticket: Seq<char>, v: i64, b: Overrides) -> bool {
    forall|t: Seq<char>| #[trigger]
        b.get(t) == (if t == ticket {
            Some(v)
        } else {
            a.get(t)
        })
}

/// What becomes of the text of a duration that is typed in.
pub open spec fn typed(before: Seq<char>, key: Key) -> Seq<char> {
    match key {
        Key::Backspace => if before.len() > 0 {
            before.drop_last()
        } else {
            before
        },
        Key::Char(c) => if is_duration_char(c) {
            before.push(c)
        } else {
            before
        },
        _ => before,
    }
}

/// What a key does while the hours of a ticket are typed in.
pub open spec fn edit_step(a: App, key: Key, b: App) -> bool {
    match a.results_edit {
        None => b == a,
        Some(buf) => match key {
            Key::Esc => b == App { results_edit: None, ..a },
            Key::Enter => match hours::duration_of(buf@) {
                Some(v) => {
                    &&& b == App { results_edit: None, hours_overrides: b.hours_overrides, ..a }
                    &&& if a.results_selected < group_count(a) {
                        hours_set(
                            a.hours_overrides,
                            report::names_of(a.scan_records@)[a.results_selected as int],
                            v,
                            b.hours_overrides,
                        )
                    } else {
                        b.hours_overrides == a.hours_overrides
                    }
                },
                None => b == a,
            },
            _ => {
                &&& b == App { results_edit: b.results_edit, ..a }
                &&& state::says(b.results_edit, typed(buf@, key))
            },
        },
    }
}

/// The groups that have a ticket: all but the untagged one, which comes last.
pub open spec fn ticketed<'a>(groups: Seq<GroupSummary<'a>>) -> Seq<GroupSummary<'a>> {
    if groups.len() > 0 && groups.last().ticket@ == report::UNTAGGED@ {
        groups.drop_last()
    } else {
        groups
    }
}

/// The hours that commit messages fix.
pub open spec fn pins(groups: Seq<GroupSummary<'_>>) -> Seq<Option<i64>> {
    Seq::new(groups.len(), |i: int| groups[i].explicit)
}

/// The weights by which a budget is split.
pub open spec fn weights(groups: Seq<GroupSummary<'_>>) -> Seq<i64> {
    Seq::new(groups.len(), |i: int| groups[i].session_weight)
}

/// The budget is split over the tickets of `groups`.
pub open spec fn budget_split(
    a: Overrides,
    groups: Seq<GroupSummary<'_>>,
    budget: i64,
    b: Overrides,
) -> bool {
    let tickets = ticketed(groups);
    let values = fill::filled(pins(tickets), weights(tickets), budget as int);
    &&& forall|i: int|
        0 <= i < tickets.len() ==> b.get((#[trigger] tickets[i]).ticket@) == Some(values[i])
    &&& forall|t: Seq<char>|
        !report::summary_names(tickets).contains(t) ==> #[trigger] b.get(t) == a.get(t)
}

/// The budget is split over the tickets on show.
pub open spec fn is_filled(a: App, budget: i64, b: App) -> bool {
    &&& b == App { fill_edit: None, hours_overrides: b.hours_overrides, ..a }
    &&& exists|groups: Seq<GroupSummary<'_>>| #[trigger]
        report::are_summaries(groups, a.scan_records@, a.config.estimation) && budget_split(
            a.hours_overrides,
            groups,
            budget,
            b.hours_overrides,
        )
}

/// What a key does while the budget is typed in.
pub open spec fn fill_step(a: App, key: Key, b: App) -> bool {
    match a.fill_edit {
        None => b == a,
        Some(buf) => match key {
            Key::Esc => b == App { fill_edit: None, ..a },
            Key::Enter => match hours::duration_of(buf@) {
                Some(v) => is_filled(a, v, b),
                None => b == a,
            },
            _ => {
                &&& b == App { fill_edit: b.fill_edit, ..a }
                &&& state::says(b.fill_edit, typed(buf@, key))
            },
        },
    }
}

/// What a key does in the standup.
pub open spec fn standup_step(a: App, key: Key, b: App) -> bool {
    if key == Key::Esc || key == Key::Char('q') {
        b == App { standup: None, standup_scroll: 0, ..a }
    } else if key == Key::PageDown {
        b == App { standup_scroll: page_down(a.standup_scroll), ..a }
    } else if key == Key::PageUp {
        b == App { standup_scroll: page_up(a.standup_scroll), ..a }
    } else {
        b == a
    }
}

fn duration_char(c: char) -> (r: bool)
    ensures
        r == is_duration_char(c),
{
    ('0' <= c && c <= '9') || c == '.' || c == 'h' || c == 'H' || c == 'm' || c == 'M' || c == ' '
}

fn type_duration(buf: String, key: Key) -> (r: String)
    ensures
        r@ == typed(buf@, key),
{
    let mut out = buf;
    match key {
        Key::Backspace => {
            let _ = out.pop();
        },
        Key::Char(c) => {
            if duration_char(c) {
                out.push(c);
            }
        },
        _ => {},
    }
    out
}

proof fn lemma_names_distinct(groups: Seq<GroupSummary<'_>>, i: int, j: int)
    requires
        forall|i: int, j: int|
            0 <= i < j < groups.len() ==> report::listed_before(
                #[trigger] report::summary_names(groups)[i],
                #[trigger] report::summary_names(groups)[j],
            ),
        0 <= i < j < groups.len(),
    ensures
        groups[i].ticket@ != groups[j].ticket@,
        groups[i].ticket@ != report::UNTAGGED@,
{
    let names = report::summary_names(groups);
    assert(report::listed_before(names[i], names[j]));
}

/// Splits a budget over tickets.
fn split_budget(overrides: &mut Overrides, groups: &Vec<GroupSummary<'_>>, budget: i64)
    requires
        forall|i: int, j: int|
            0 <= i < j < groups@.len() ==> report::listed_before(
                #[trigger] report::summary_names(groups@)[i],
                #[trigger] report::summary_names(groups@)[j],
            ),
    ensures
        budget_split(*old(overrides), groups@, budget, *final(overrides)),
{
    let n = groups.len();
    let m: usize = if n > 0 && crate::text::same_text(
        groups[n - 1].ticket.as_str(),
        report::UNTAGGED,
    ) {
        n - 1
    } else {
        n
    };
    let ghost tickets = ticketed(groups@);
    let mut fixed: Vec<Option<i64>> = Vec::new();
    let mut heavy: Vec<i64> = Vec::new();
    for i in 0..m
        invariant
            m == tickets.len(),
            m <= groups@.len(),
            forall|k: int| 0 <= k < m ==> tickets[k] == #[trigger] groups@[k],
            fixed@ == pins(tickets).take(i as int),
            heavy@ == weights(tickets).take(i as int),
    {
        fixed.push(groups[i].explicit);
        heavy.push(groups[i].session_weight);
        assert(tickets[i as int] == groups@[i as int]);
        assert(fixed@ =~= pins(tickets).take(i + 1));
        assert(heavy@ =~= weights(tickets).take(i + 1));
    }
    assert(pins(tickets).take(m as int) =~= pins(tickets));
    assert(weights(tickets).take(m as int) =~= weights(tickets));
    let values = fill::fill(&fixed, &heavy, budget);
    let ghost start = *overrides;
    let ghost names = report::summary_names(tickets);
    for i in 0..m
        invariant
            m == tickets.len() == values@.len(),
            m <= groups@.len(),
            names == report::summary_names(tickets),
            forall|k: int| 0 <= k < m ==> tickets[k] == #[trigger] groups@[k],
            forall|i: int, j: int|
                0 <= i < j < groups@.len() ==> report::listed_before(
                    #[trigger] report::summary_names(groups@)[i],
                    #[trigger] report::summary_names(groups@)[j],
                ),
            forall|k: int|
                0 <= k < i ==> overrides.get((#[trigger] tickets[k]).ticket@) == Some(values@[k]),
            forall|t: Seq<char>|
                !names.contains(t) ==> #[trigger] overrides.get(t) == start.get(t),
    {
        let ghost before = *overrides;
        overrides.set(groups[i].ticket.clone(), values[i]);
        proof {
            assert(tickets[i as int] == groups@[i as int]);
            assert(names[i as int] == groups@[i as int].ticket@);
            assert forall|k: int| 0 <= k < i + 1 implies overrides.get(
                (#[trigger] tickets[k]).ticket@,
            ) == Some(values@[k]) by {
                if k < i {
                    assert(tickets[k] == groups@[k]);
                    lemma_names_distinct(groups@, k, i as int);
                    assert(before.get(tickets[k].ticket@) == Some(values@[k]));
                }
            }
            assert forall|t: Seq<char>| !names.contains(t) implies #[trigger] overrides.get(t)
                == start.get(t) by {
                assert(before.get(t) == start.get(t));
                if t == groups@[i as int].ticket@ {
                    assert(names.contains(t));
                }
            }
        }
    }
}

impl App {
    /// A key among the tickets.
    pub fn handle_right(&mut self, key: Key)
        requires
            old(self).wf(),
        ensures
            final(self).wf(),
            right_step(*old(self), key, *final(self)),
    {
        if key == Key::Down || key == Key::Char('j') {
            let n = self.count_groups();
            if n > 0 {
                self.results_selected = state::next_of(self.results_selected, n);
            }
        } else if key == Key::Up || key == Key::Char('k') {
            let n = self.count_groups();
            if n > 0 {
                self.results_selected = state::previous_of(self.results_selected, n);
            }
        } else if key == Key::PageDown {
            self.results_scroll = down(self.results_scroll);
        } else if key == Key::PageUp {
            self.results_scroll = up(self.results_scroll);
        }
    }

    fn count_groups(&self) -> (r: usize)
        ensures
            r == group_count(*self),
    {
        let groups = report::group_with_hours_cfg(
            self.scan_records.as_slice(),
            &self.config.estimation,
        );
        assert(report::summary_names(groups@).len() == groups@.len());
        groups.len()
    }

    /// A key while the hours of a ticket are typed in.
    pub fn handle_edit_hours(&mut self, key: Key)
        requires
            old(self).wf(),
        ensures
            final(self).wf(),
            edit_step(*old(self), key, *final(self)),
    {
        let buf = match self.results_edit.take() {
            Some(buf) => buf,
            None => {
                return;
            },
        };
        match key {
            Key::Esc => {},
            Key::Enter => {
                match hours::parse_duration(buf.as_str()) {
                    Some(v) => {
                        let groups = report::group_with_hours_cfg(
                            self.scan_records.as_slice(),
                            &self.config.estimation,
                        );
                        assert(report::summary_names(groups@).len() == groups@.len());
                        let i = self.results_selected;
                        if i < groups.len() {
                            assert(report::summary_names(groups@)[i as int]
                                == groups@[i as int].ticket@);
                            let ticket = groups[i].ticket.clone();
                            self.hours_overrides.set(ticket, v);
                        }
                    },
                    None => {
                        self.results_edit = Some(buf);
                    },
                }
            },
            _ => {
                self.results_edit = Some(type_duration(buf, key));
            },
        }
    }

    /// Begins to type in the budget of a fill, with the usual one to start from, if
    /// there are any commits.
    pub fn start_fill(&mut self)
        requires
            old(self).wf(),
        ensures
            final(self).wf(),
            if old(self).scan_records@.len() == 0 {
                *final(self) == *old(self)
            } else {
                &&& *final(self) == (App {
                    focus: Focus::Right,
                    fill_edit: final(self).fill_edit,
                    ..*old(self)
                })
                &&& state::says(
                    final(self).fill_edit,
                    hours::hours_text(old(self).config.estimation.budget_default_hours as int),
                )
            },
    {
        if self.scan_records.len() > 0 {
            self.focus = Focus::Right;
            self.fill_edit = Some(
                hours::format_hours(self.config.estimation.budget_default_hours),
            );
        }
    }

    /// A key while the budget of a fill is typed in.
    pub fn handle_fill(&mut self, key: Key)
        requires
            old(self).wf(),
        ensures
            final(self).wf(),
            fill_step(*old(self), key, *final(self)),
    {
        let buf = match self.fill_edit.take() {
            Some(buf) => buf,
            None => {
                return;
            },
        };
        match key {
            Key::Esc => {},
            Key::Enter => {
                match hours::parse_duration(buf.as_str()) {
                    Some(v) => {
                        let groups = report::group_with_hours_cfg(
                            self.scan_records.as_slice(),
                            &self.config.estimation,
                        );
                        split_budget(&mut self.hours_overrides, &groups, v);
                        assert(report::are_summaries(
                            groups@,
                            old(self).scan_records@,
                            old(self).config.estimation,
                        ));
                    },
                    None => {
                        self.fill_edit = Some(buf);
                    },
                }
            },
            _ => {
                self.fill_edit = Some(type_duration(buf, key));
            },
        }
    }

    /// What the standup is made of was found, or not.
    pub fn open_standup(
        &mut self,
        found: Result<(StandupReport, Vec<IssueInfo>, Vec<PrInfo>), String>,
    )
        requires
            old(self).wf(),
            found matches Ok((r, _, _)) ==> r.yesterday.valid(),
        ensures
            final(self).wf(),
            match found {
                Ok((r, issues, prs)) => {
                    &&& *final(self) == (App {
                        standup: final(self).standup,
                        standup_scroll: 0,
                        focus: Focus::Right,
                        ..*old(self)
                    })
                    &&& final(self).standup matches Some(view) && view.report == r && view.issues
                        == issues && view.prs == prs && standup::is_plan(
                        issues@,
                        prs@,
                        view.plan,
                    )
                },
                Err(e) => {
                    &&& *final(self) == (App { error: final(self).error, ..*old(self) })
                    &&& state::says(final(self).error, "standup: "@ + e@)
                },
            },
    {
        match found {
            Ok((report, issues, prs)) => {
                let plan = standup::plan(&issues, &prs);
                self.standup = Some(StandupView { report, issues, prs, plan });
                self.standup_scroll = 0;
                self.focus = Focus::Right;
            },
            Err(e) => {
                let mut message = "standup: ".to_owned();
                message.append(e.as_str());
                self.error = Some(message);
            },
        }
    }

    /// A key in the standup.
    pub fn handle_standup(&mut self, key: Key)
        requires
            old(self).wf(),
        ensures
            final(self).wf(),
            standup_step(*old(self), key, *final(self)),
    {
        if key == Key::Esc || key == Key::Char('q') {
            self.standup = None;
            self.standup_scroll = 0;
        } else if key == Key::PageDown {
            self.standup_scroll = down(self.standup_scroll);
        } else if key == Key::PageUp {
            self.standup_scroll = up(self.standup_scroll);
        }
    }
}

/// The summaries of the same commits have the same tickets, pins and weights.
proof fn lemma_same_tickets(a: App, x: Seq<GroupSummary<'_>>, y: Seq<GroupSummary<'_>>)
    requires
        report::are_summaries(x, a.scan_records@, a.config.estimation),
        report::are_summaries(y, a.scan_records@, a.config.estimation),
    ensures
        x.len() == y.len(),
        forall|i: int|
            #![trigger x[i]]
            #![trigger y[i]]
            0 <= i < x.len() ==> x[i].ticket@ == y[i].ticket@ && x[i].explicit == y[i].explicit
                && x[i].session_weight == y[i].session_weight,
        pins(ticketed(x)) == pins(ticketed(y)),
        weights(ticketed(x)) == weights(ticketed(y)),
        report::summary_names(ticketed(x)) == report::summary_names(ticketed(y)),
        ticketed(x).len() == ticketed(y).len(),
{
    report::law_groups_are_listed_in_one_way(
        a.scan_records@,
        report::summary_names(x),
        report::summary_names(y),
    );
    assert(report::summary_names(x).len() == x.len() && report::summary_names(y).len() == y.len());
    assert forall|i: int|
        #![trigger x[i]]
        #![trigger y[i]]
        0 <= i < x.len() implies x[i].ticket@ == y[i].ticket@ && x[i].explicit == y[i].explicit
        && x[i].session_weight == y[i].session_weight by {
        report::law_summaries_are_settled(x, y, a.scan_records@, a.config.estimation, i);
    }
    if x.len() > 0 {
        assert(x.last() == x[x.len() - 1] && y.last() == y[y.len() - 1]);
    }
    assert(pins(ticketed(x)) =~= pins(ticketed(y)));
    assert(weights(ticketed(x)) =~= weights(ticketed(y)));
    assert(report::summary_names(ticketed(x)) =~= report::summary_names(ticketed(y)));
}

/// The hours that are set for each of the groups.
pub open spec fn set_hours(groups: Seq<GroupSummary<'_>>, overrides: Overrides) -> Seq<i64> {
    Seq::new(groups.len(), |i: int| overrides.get(groups[i].ticket@)->0)
}

proof fn lemma_filled_values(
    a: App,
    groups: Seq<GroupSummary<'_>>,
    buf: String,
    budget: i64,
    b: App,
)
    requires
        a.fill_edit == Some(buf),
        hours::duration_of(buf@) == Some(budget),
        fill_step(a, Key::Enter, b),
        report::are_summaries(groups, a.scan_records@, a.config.estimation),
    ensures
        ({
            let tickets = ticketed(groups);
            let values = fill::filled(pins(tickets), weights(tickets), budget as int);
            &&& values.len() == tickets.len()
            &&& set_hours(tickets, b.hours_overrides) == values
            &&& forall|i: int|
                0 <= i < tickets.len() ==> b.hours_overrides.get((#[trigger] tickets[i]).ticket@)
                    == Some(values[i])
            &&& forall|t: Seq<char>|
                !report::summary_names(tickets).contains(t) ==> #[trigger] b.hours_overrides.get(t)
                    == a.hours_overrides.get(t)
        }),
{
    let other = choose|g: Seq<GroupSummary<'_>>| #[trigger]
        report::are_summaries(g, a.scan_records@, a.config.estimation) && budget_split(
            a.hours_overrides,
            g,
            budget,
            b.hours_overrides,
        );
    lemma_same_tickets(a, groups, other);
    let tickets = ticketed(groups);
    let values = fill::filled(pins(tickets), weights(tickets), budget as int);
    fill::lemma_filled_length(pins(tickets), weights(tickets), budget);
    assert forall|i: int| 0 <= i < tickets.len() implies b.hours_overrides.get(
        (#[trigger] tickets[i]).ticket@,
    ) == Some(values[i]) by {
        assert(tickets[i] == groups[i]);
        assert(ticketed(other)[i] == other[i]);
        assert(groups[i].ticket@ == other[i].ticket@);
    }
    assert(set_hours(tickets, b.hours_overrides) =~= values);
}

proof fn lemma_ticketed(groups: Seq<GroupSummary<'_>>, a: App, i: int)
    requires
        report::are_summaries(groups, a.scan_records@, a.config.estimation),
        0 <= i < groups.len(),
        groups[i].ticket@ != report::UNTAGGED@,
    ensures
        i < ticketed(groups).len(),
        ticketed(groups)[i] == groups[i],
        groups[i].session_weight >= 0,
{
    let names = report::summary_names(groups);
    assert(names[i] == groups[i].ticket@);
    if i == groups.len() - 1 {
        assert(groups.last() == groups[i]);
    }
    assert(report::is_summary(groups[i], a.config.estimation));
    let times = hours::times_of(groups[i].commits@);
    let e = report::session_span(a.config.estimation);
    if times.len() > 0 {
        hours::law_sessions_count(e, times);
        let b = (e.lead_min + e.trail_min) * 60;
        let n = e.sessions(times);
        assert(n * b >= 0) by (nonlinear_arith)
            requires
                n >= 0,
                b >= 0,
        ;
    } else {
        hours::law_one_commit_is_one_session(e, 0);
        assert(times =~= Seq::empty());
    }
}

/// A fill splits the budget by session weight: of two tickets that no commit message pins,
/// the hours are to each other as their weights, to within a microsecond for each group.
pub proof fn law_fill_goes_by_session_weight(
    a: App,
    groups: Seq<GroupSummary<'_>>,
    buf: String,
    budget: i64,
    b: App,
    i: int,
    j: int,
)
    requires
        a.fill_edit == Some(buf),
        hours::duration_of(buf@) == Some(budget),
        fill_step(a, Key::Enter, b),
        report::are_summaries(groups, a.scan_records@, a.config.estimation),
        0 <= i < groups.len(),
        0 <= j < groups.len(),
        groups[i].ticket@ != report::UNTAGGED@,
        groups[j].ticket@ != report::UNTAGGED@,
        groups[i].explicit is None,
        groups[j].explicit is None,
    ensures
        ({
            let x = b.hours_overrides.get(groups[i].ticket@);
            let y = b.hours_overrides.get(groups[j].ticket@);
            let v = groups[i].session_weight;
            let w = groups[j].session_weight;
            &&& x is Some && x->0 >= 0
            &&& y is Some && y->0 >= 0
            &&& -(groups.len() * (v + w)) <= x->0 * w - y->0 * v <= groups.len() * (v + w)
        }),
{
    lemma_filled_values(a, groups, buf, budget, b);
    lemma_ticketed(groups, a, i);
    lemma_ticketed(groups, a, j);
    let tickets = ticketed(groups);
    let p = pins(tickets);
    let q = weights(tickets);
    let x = b.hours_overrides.get(groups[i].ticket@)->0 as int;
    let y = b.hours_overrides.get(groups[j].ticket@)->0 as int;
    let v = groups[i].session_weight as int;
    let w = groups[j].session_weight as int;
    let whole = fill::free_weight(p, q);
    let left = fill::left_over(p, budget as int);
    let n = tickets.len() as int;
    let m = groups.len() as int;
    assert(p[i] is None && p[j] is None && q[i] == v && q[j] == w);
    assert(b.hours_overrides.get(tickets[i].ticket@) is Some);
    assert(b.hours_overrides.get(tickets[j].ticket@) is Some);
    fill::lemma_free_weight_holds(p, q, i);
    fill::lemma_free_weight_holds(p, q, j);
    fill::lemma_never_negative(p, q, budget, i);
    fill::lemma_never_negative(p, q, budget, j);
    if whole > 0 {
        fill::law_shares_follow_weights(p, q, budget, i);
        fill::law_shares_follow_weights(p, q, budget, j);
        lemma_cross(x, y, v, w, left, whole, n);
    } else {
        assert(v == 0 && w == 0);
    }
    assert(n * (v + w) <= m * (v + w)) by (nonlinear_arith)
        requires
            n <= m,
            v + w >= 0,
    ;
}

proof fn lemma_cross(x: int, y: int, v: int, w: int, left: int, whole: int, n: int)
    requires
        whole > 0,
        v >= 0,
        w >= 0,
        left * v - n * whole <= x * whole <= left * v + n * whole,
        left * w - n * whole <= y * whole <= left * w + n * whole,
    ensures
        -(n * (v + w)) <= x * w - y * v <= n * (v + w),
{
    let e = x * whole - left * v;
    let f = y * whole - left * w;
    let d = x * w - y * v;
    let c = n * whole;
    assert(d * whole == e * w - f * v) by (nonlinear_arith)
        requires
            e == x * whole - left * v,
            f == y * whole - left * w,
            d == x * w - y * v,
    ;
    assert(-(c * w) <= e * w <= c * w) by (nonlinear_arith)
        requires
            -c <= e <= c,
            w >= 0,
    ;
    assert(-(c * v) <= f * v <= c * v) by (nonlinear_arith)
        requires
            -c <= f <= c,
            v >= 0,
    ;
    let k = n * (v + w);
    assert(c * w + c * v == k * whole) by (nonlinear_arith)
        requires
            c == n * whole,
            k == n * (v + w),
    ;
    assert(d <= k) by (nonlinear_arith)
        requires
            d * whole <= k * whole,
            whole > 0,
    ;
    assert(-k <= d) by (nonlinear_arith)
        requires
            -(k * whole) <= d * whole,
            whole > 0,
    ;
}

/// A fill leaves a ticket with what its commit messages give, and leaves what is no ticket
/// on show, the untagged commits among it, as it was.
pub proof fn law_fill_keeps_what_is_pinned(
    a: App,
    groups: Seq<GroupSummary<'_>>,
    buf: String,
    budget: i64,
    b: App,
    i: int,
    t: Seq<char>,
)
    requires
        a.fill_edit == Some(buf),
        hours::duration_of(buf@) == Some(budget),
        fill_step(a, Key::Enter, b),
        report::are_summaries(groups, a.scan_records@, a.config.estimation),
        0 <= i < groups.len(),
        groups[i].ticket@ != report::UNTAGGED@,
        groups[i].explicit is Some,
    ensures
        b.hours_overrides.get(groups[i].ticket@) == groups[i].explicit,
        t == report::UNTAGGED@ || (forall|k: int|
            0 <= k < groups.len() ==> (#[trigger] groups[k]).ticket@ != t)
            ==> b.hours_overrides.get(t) == a.hours_overrides.get(t),
{
    lemma_filled_values(a, groups, buf, budget, b);
    lemma_ticketed(groups, a, i);
    let tickets = ticketed(groups);
    assert(pins(tickets)[i] == groups[i].explicit);
    fill::law_pins_hold(pins(tickets), weights(tickets), budget, i);
    assert(b.hours_overrides.get(tickets[i].ticket@) is Some);
    if t == report::UNTAGGED@ || (forall|k: int|
        0 <= k < groups.len() ==> (#[trigger] groups[k]).ticket@ != t) {
        let names = report::summary_names(tickets);
        if names.contains(t) {
            let k = choose|k: int| 0 <= k < names.len() && names[k] == t;
            assert(tickets[k] == groups[k]);
            if k < groups.len() - 1 {
                lemma_names_distinct_in(groups, a, k);
            }
        }
    }
}

proof fn lemma_names_distinct_in(groups: Seq<GroupSummary<'_>>, a: App, k: int)
    requires
        report::are_summaries(groups, a.scan_records@, a.config.estimation),
        0 <= k < groups.len() - 1,
    ensures
        groups[k].ticket@ != report::UNTAGGED@,
{
    let names = report::summary_names(groups);
    assert(report::listed_before(names[k], names[k + 1]));
    lemma_names_distinct(groups, k, k + 1);
}

/// After a fill the tickets add up to the budget, or to what is pinned where that is more,
/// if a ticket that is not pinned has some weight.
pub proof fn law_fill_uses_up_the_budget(
    a: App,
    groups: Seq<GroupSummary<'_>>,
    buf: String,
    budget: i64,
    b: App,
    k: int,
)
    requires
        a.fill_edit == Some(buf),
        hours::duration_of(buf@) == Some(budget),
        budget >= 0,
        fill_step(a, Key::Enter, b),
        report::are_summaries(groups, a.scan_records@, a.config.estimation),
        0 <= k < ticketed(groups).len(),
        ticketed(groups)[k].explicit is None,
        ticketed(groups)[k].session_weight > 0,
    ensures
        ({
            let tickets = ticketed(groups);
            let sum = report::total(set_hours(tickets, b.hours_overrides));
            let fixed = fill::pinned(pins(tickets));
            sum == if fixed > budget {
                fixed
            } else {
                budget as int
            }
        }),
{
    lemma_filled_values(a, groups, buf, budget, b);
    let tickets = ticketed(groups);
    let p = pins(tickets);
    let q = weights(tickets);
    fill::lemma_free_weight_holds(p, q, k);
    assert forall|i: int| 0 <= i < p.len() && (#[trigger] p[i]) is Some implies p[i]->0 >= 0 by {
        assert(tickets[i] == groups[i]);
        assert(report::is_summary(groups[i], a.config.estimation));
        report::law_messages_come_before_estimates(
            groups[i],
            a.config.estimation,
            report::session_span(a.config.estimation),
        );
        report::lemma_marker_total_positive(groups[i].commits@);
    }
    fill::law_tickets_add_up_to_the_budget(p, q, budget);
}

/// The hours that are typed in for the selected ticket are set for it, and for no other.
pub proof fn law_typed_hours_are_set(
    a: App,
    groups: Seq<GroupSummary<'_>>,
    buf: String,
    v: i64,
    b: App,
    t: Seq<char>,
)
    requires
        a.results_edit == Some(buf),
        hours::duration_of(buf@) == Some(v),
        edit_step(a, Key::Enter, b),
        report::are_summaries(groups, a.scan_records@, a.config.estimation),
        a.results_selected < groups.len(),
    ensures
        b.hours_overrides.get(groups[a.results_selected as int].ticket@) == Some(v),
        t != groups[a.results_selected as int].ticket@ ==> b.hours_overrides.get(t)
            == a.hours_overrides.get(t),
        b.results_edit is None,
        b == (App { results_edit: None, hours_overrides: b.hours_overrides, ..a }),
{
    let names = report::summary_names(groups);
    report::law_groups_are_listed_in_one_way(
        a.scan_records@,
        names,
        report::names_of(a.scan_records@),
    );
    assert(names.len() == groups.len());
    let ticket = groups[a.results_selected as int].ticket@;
    assert(names[a.results_selected as int] == ticket);
    assert(b.hours_overrides.get(ticket) == Some(v));
    if t != ticket {
        assert(b.hours_overrides.get(t) == a.hours_overrides.get(t));
    }
}

/// What is no duration is not taken: the text stays open, and no hours change.
pub proof fn law_no_duration_changes_nothing(a: App, b: App)
    ensures
        a.results_edit matches Some(buf) && hours::duration_of(buf@) is None && edit_step(
            a,
            Key::Enter,
            b,
        ) ==> b == a,
        a.fill_edit matches Some(buf) && hours::duration_of(buf@) is None && fill_step(
            a,
            Key::Enter,
            b,
        ) ==> b == a,
        a.results_edit is Some && edit_step(a, Key::Esc, b) ==> b.results_edit is None
            && b.hours_overrides == a.hours_overrides,
        a.fill_edit is Some && fill_step(a, Key::Esc, b) ==> b.fill_edit is None
            && b.hours_overrides == a.hours_overrides,
{
}

/// What is typed is put behind the text, if it can be part of a duration; what is erased is
/// taken off its end.
pub proof fn law_durations_are_typed_and_erased(s: Seq<char>, c: char)
    ensures
        '0' <= c <= '9' ==> typed(s, Key::Char(c)) == s + seq![c],
        c == '.' || c == ' ' || c == 'h' || c == 'm' || c == 'H' || c == 'M' ==> typed(
            s,
            Key::Char(c),
        ) == s + seq![c],
        c > 'm' || c < ' ' ==> typed(s, Key::Char(c)) == s,
        typed(s + seq![c], Key::Backspace) == s,
        typed(Seq::empty(), Key::Backspace) == Seq::<char>::empty(),
{
    assert(s.push(c) =~= s + seq![c]);
    assert((s + seq![c]).drop_last() =~= s);
}

/// A page is ten lines: one down and one up lead back, if there was room.
pub proof fn law_pages_are_ten_lines(scroll: u16)
    ensures
        scroll <= 65525 ==> page_down(scroll) == scroll + 10 && page_up(page_down(scroll))
            == scroll,
        scroll >= 10 ==> page_up(scroll) == scroll - 10,
        scroll < 10 ==> page_up(scroll) == 0,
        scroll > 65525 ==> page_down(scroll) == 65535,
{
}

/// Among the tickets the arrows go to the next one and the one before, and round the ends.
pub proof fn law_arrows_select_tickets(
    a: App,
    groups: Seq<GroupSummary<'_>>,
    key: Key,
    b: App,
)
    requires
        report::are_summaries(groups, a.scan_records@, a.config.estimation),
        right_step(a, key, b),
        a.results_selected < groups.len() <= usize::MAX,
    ensures
        key == Key::Down || key == Key::Char('j') ==> b.results_selected == if a.results_selected
            + 1 < groups.len() {
            a.results_selected + 1
        } else {
            0
        },
        key == Key::Up || key == Key::Char('k') ==> b.results_selected == if a.results_selected
            > 0 {
            a.results_selected - 1
        } else {
            groups.len() - 1
        },
        b.hours_overrides == a.hours_overrides,
{
    let names = report::summary_names(groups);
    report::law_groups_are_listed_in_one_way(
        a.scan_records@,
        names,
        report::names_of(a.scan_records@),
    );
    assert(names.len() == groups.len());
    state::law_selection_steps_by_one(a.results_selected as int, groups.len() as int);
}

} // verus!
