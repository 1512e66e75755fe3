//! What the right pane shows, and how the panes stand side by side.

use vstd::prelude::*;

use crate::bullets;
use crate::lines;
use crate::lines::{Line, Tone};
use crate::panes;
use crate::pushview;
use crate::report;
use crate::report::GroupSummary;
use crate::state::{App, Focus, PushStage};
use crate::summary;
use crate::text;
use crate::worklogs::Zone;

verus! {

/// The color of a border.
#[derive(Clone, Copy, PartialEq, Eq, Structural, Debug)]
pub enum Border {
    /// Dark gray.
    Idle,
    /// Yellow.
    Focused,
    /// Blue.
    Standup,
    /// Magenta.
    Push,
}

/// The border of a pane: it stands out where the keys go.
pub fn focused_border(focus: Focus, target: Focus) -> (r: Border)
    ensures
        r == (if focus == target {
            Border::Focused
        } else {
            Border::Idle
        }),
{
    if focus == target {
        Border::Focused
    } else {
        Border::Idle
    }
}

/// The widths of the left and the middle pane. While a repository is being added,
/// the left one takes the place of both.
pub fn pane_widths(a: &App) -> (r: (u16, Option<u16>))
    ensures
        r == (if a.adding() {
            (panes::LEFT_PANE_WIDTH_ADDING, None::<u16>)
        } else {
            (panes::LEFT_PANE_WIDTH, Some(panes::MIDDLE_PANE_WIDTH))
        }),
{
    if a.is_adding() {
        (panes::LEFT_PANE_WIDTH_ADDING, None)
    } else {
        (panes::LEFT_PANE_WIDTH, Some(panes::MIDDLE_PANE_WIDTH))
    }
}

/// What the right pane shows.
pub struct RightPane {
    pub title: &'static str,
    pub border: Border,
    pub lines: Vec<Line>,
    /// Whether long lines are broken.
    pub wrapped: bool,
    pub scroll: u16,
}

pub open spec fn right_title(a: App) -> Seq<char> {
    if a.standup is Some {
        " standup "@
    } else {
        match a.push {
            Some(PushStage::Setup(s)) => if s.editing {
                " Jira settings "@
            } else {
                " push to Jira — setup "@
            },
            Some(PushStage::Preview { .. }) => " push to Jira — preview "@,
            Some(PushStage::Sending { .. }) => " push to Jira — sending "@,
            Some(PushStage::Finished { .. }) => " push to Jira — done "@,
            None => " results "@,
        }
    }
}

pub open spec fn right_border(a: App) -> Border {
    if a.standup is Some {
        Border::Standup
    } else if a.push is Some {
        Border::Push
    } else if a.focus == Focus::Right {
        Border::Focused
    } else {
        Border::Idle
    }
}

/// The repositories and days of a scan.
pub open spec fn scan_text(a: App) -> Seq<char> {
    let n = a.config.repos@.len();
    text::decimal(n) + " repo"@ + text::plural(n as int) + " for "@ + panes::range_text(
        a.range().0,
        a.range().1,
    )
}

/// The repositories that are scanned.
pub open spec fn repo_lines(repos: Seq<Seq<char>>) -> Seq<lines::LineView> {
    Seq::new(repos.len(), |i: int| lines::shown("    "@ + repos[i], Tone::Faint))
}

/// A scan on its way.
pub open spec fn scanning_text(a: App) -> Seq<lines::LineView> {
    seq![
        lines::blank(),
        lines::shown("  scanning "@ + scan_text(a) + "..."@, Tone::Headline),
        lines::blank(),
    ] + repo_lines(text::texts(a.config.repos@))
}

/// What to do without a repository.
pub open spec fn no_repos_text() -> Seq<lines::LineView> {
    seq![
        lines::blank(),
        lines::shown("  Add at least one repo on the left, then press `s`."@, Tone::Dim),
    ]
}

/// What to do without a scan.
pub open spec fn no_scan_text(a: App) -> Seq<lines::LineView> {
    seq![
        lines::blank(),
        lines::shown("  Press `s` to scan "@ + scan_text(a) + "."@, Tone::Faint),
    ]
}

/// The standup is on show.
pub open spec fn shows_standup(a: App, p: RightPane) -> bool {
    let v = a.standup->0;
    exists|yesterday: Seq<GroupSummary<'_>>, in_flight: Seq<GroupSummary<'_>>| #[trigger]
        report::are_summaries(yesterday, v.report.yesterday_records@, a.config.estimation)
            && #[trigger] report::are_summaries(
            in_flight,
            v.report.in_flight_records@,
            a.config.estimation,
        ) && lines::line_views(p.lines@) == bullets::standup_text(v, yesterday, in_flight)
}

/// The tickets are on show, and the view was moved to the one that is selected.
pub open spec fn shows_summaries(a: App, zone: Zone, visible: u16, b: App, p: RightPane) -> bool {
    exists|groups: Seq<GroupSummary<'_>>, offsets: Seq<usize>| #[trigger]
        report::are_summaries(groups, a.scan_records@, a.config.estimation)
            && #[trigger] summary::are_first_lines(a, groups, zone, offsets) && lines::line_views(
            p.lines@,
        ) == summary::summary_lines(a, groups, zone) && b == (App {
            results_scroll: summary::settled_scroll(
                a.results_scroll,
                offsets,
                a.results_selected as int,
                p.lines@.len() as int,
                visible,
            ),
            ..a
        })
}

/// `p` is what the right pane shows.
pub open spec fn is_right_pane(a: App, zone: Zone, visible: u16, b: App, p: RightPane) -> bool {
    &&& p.title@ == right_title(a)
    &&& p.border == right_border(a)
    &&& if a.push is Some {
        &&& lines::line_views(p.lines@) == pushview::push_text(a.push->0)
        &&& p.wrapped && p.scroll == 0
        &&& b == a
    } else if a.standup is Some {
        &&& shows_standup(a, p)
        &&& p.wrapped && p.scroll == a.standup_scroll
        &&& b == a
    } else if a.scanning {
        &&& lines::line_views(p.lines@) == scanning_text(a)
        &&& !p.wrapped && p.scroll == 0
        &&& b == a
    } else if a.config.repos@.len() == 0 {
        &&& lines::line_views(p.lines@) == no_repos_text()
        &&& !p.wrapped && p.scroll == 0
        &&& b == a
    } else if a.scan_records@.len() == 0 && !a.results_are_cached {
        &&& lines::line_views(p.lines@) == no_scan_text(a)
        &&& !p.wrapped && p.scroll == 0
        &&& b == a
    } else {
        &&& shows_summaries(a, zone, visible, b, p)
        &&& p.wrapped && p.scroll == b.results_scroll
    }
}

fn title_of(a: &App) -> (r: &'static str)
    ensures
        r@ == right_title(*a),
{
    if a.standup.is_some() {
        return " standup ";
    }
    match &a.push {
        Some(PushStage::Setup(s)) => {
            if s.editing {
                " Jira settings "
            } else {
                " push to Jira — setup "
            }
        },
        Some(PushStage::Preview { .. }) => " push to Jira — preview ",
        Some(PushStage::Sending { .. }) => " push to Jira — sending ",
        Some(PushStage::Finished { .. }) => " push to Jira — done ",
        None => " results ",
    }
}

fn border_of(a: &App) -> (r: Border)
    ensures
        r == right_border(*a),
{
    if a.standup.is_some() {
        Border::Standup
    } else if a.push.is_some() {
        Border::Push
    } else {
        focused_border(a.focus, Focus::Right)
    }
}

fn push_lines(stage: &PushStage) -> (r: Vec<Line>)
    requires
        stage.wf(),
    ensures
        lines::line_views(r@) == pushview::push_text(*stage),
{
    match stage {
        PushStage::Setup(s) => pushview::setup_lines(s),
        PushStage::Preview { items, checks, cursor } => pushview::preview_lines(
            items,
            checks,
            *cursor,
        ),
        PushStage::Sending { queue, done, failed } => pushview::sending_lines(queue, done, failed),
        PushStage::Finished { done, failed } => pushview::result_lines(done, failed),
    }
}

fn describe_scan(a: &App) -> (r: String)
    requires
        a.wf(),
    ensures
        r@ == scan_text(*a),
{
    let n = a.config.repos.len();
    let (start, end) = a.current_range();
    let mut out = text::count_text(n);
    out.append(" repo");
    out.append(text::plural_text(n).as_str());
    out.append(" for ");
    out.append(panes::describe_range(start, end).as_str());
    out
}

/// A scan on its way.
pub fn scanning_skeleton(a: &App) -> (r: Vec<Line>)
    requires
        a.wf(),
    ensures
        lines::line_views(r@) == scanning_text(*a),
{
    let mut out = lines::no_lines();
    lines::add_blank(&mut out);
    let mut s = lines::prefixed("  scanning ", describe_scan(a).as_str());
    s.append("...");
    lines::add_line(&mut out, s, Tone::Headline);
    lines::add_blank(&mut out);
    let ghost top = lines::line_views(out@);
    let ghost all = repo_lines(text::texts(a.config.repos@));
    assert(top + all.take(0) =~= top);
    for i in 0..a.config.repos.len()
        invariant
            all == repo_lines(text::texts(a.config.repos@)),
            lines::line_views(out@) == top + all.take(i as int),
    {
        lines::add_line(
            &mut out,
            lines::prefixed("    ", a.config.repos[i].as_str()),
            Tone::Faint,
        );
        assert(text::texts(a.config.repos@)[i as int] == a.config.repos@[i as int]@);
        assert(lines::line_views(out@) =~= top + all.take(i + 1));
    }
    assert(all.take(all.len() as int) =~= all);
    assert(lines::line_views(out@) =~= scanning_text(*a));
    out
}

fn no_repos() -> (r: Vec<Line>)
    ensures
        lines::line_views(r@) == no_repos_text(),
{
    let mut out = lines::no_lines();
    lines::add_blank(&mut out);
    lines::add_text(
        &mut out,
        "  Add at least one repo on the left, then press `s`.",
        Tone::Dim,
    );
    assert(lines::line_views(out@) =~= no_repos_text());
    out
}

fn no_scan(a: &App) -> (r: Vec<Line>)
    requires
        a.wf(),
    ensures
        lines::line_views(r@) == no_scan_text(*a),
{
    let mut out = lines::no_lines();
    lines::add_blank(&mut out);
    let mut s = lines::prefixed("  Press `s` to scan ", describe_scan(a).as_str());
    s.append(".");
    lines::add_line(&mut out, s, Tone::Faint);
    assert(lines::line_views(out@) =~= no_scan_text(*a));
    out
}

impl App {
    /// What the right pane shows in so many lines. The tickets are moved so that the
    /// selected one is seen. `zone` says how the local clock stood at the commits.
    pub fn right_pane(&mut self, zone: &Zone, visible: u16) -> (r: RightPane)
        requires
            old(self).wf(),
        ensures
            final(self).wf(),
            is_right_pane(*old(self), *zone, visible, *final(self), r),
    {
        let title = title_of(self);
        let border = border_of(self);
        if let Some(stage) = &self.push {
            return RightPane {
                title,
                border,
                lines: push_lines(stage),
                wrapped: true,
                scroll: 0,
            };
        }
        if let Some(view) = &self.standup {
            let yesterday = report::group_with_hours_cfg(
                view.report.yesterday_records.as_slice(),
                &self.config.estimation,
            );
            let in_flight = report::group_with_hours_cfg(
                view.report.in_flight_records.as_slice(),
                &self.config.estimation,
            );
            return RightPane {
                title,
                border,
                lines: bullets::standup_lines(view, &yesterday, &in_flight),
                wrapped: true,
                scroll: self.standup_scroll,
            };
        }
        if self.scanning {
            let shown = scanning_skeleton(self);
            return RightPane { title, border, lines: shown, wrapped: false, scroll: 0 };
        }
        if self.config.repos.len() == 0 {
            return RightPane { title, border, lines: no_repos(), wrapped: false, scroll: 0 };
        }
        if self.scan_records.len() == 0 && !self.results_are_cached {
            let shown = no_scan(self);
            return RightPane { title, border, lines: shown, wrapped: false, scroll: 0 };
        }
        let groups = report::group_with_hours_cfg(
            self.scan_records.as_slice(),
            &self.config.estimation,
        );
        let (shown, offsets) = summary::lines_for_summaries(self, &groups, zone);
        let ghost listed = groups@;
        let scroll = summary::settle_scroll(
            self.results_scroll,
            &offsets,
            self.results_selected,
            shown.len(),
            visible,
        );
        self.results_scroll = scroll;
        proof {
            assert(report::are_summaries(
                listed,
                old(self).scan_records@,
                old(self).config.estimation,
            ));
            assert(summary::are_first_lines(*old(self), listed, *zone, offsets@));
        }
        RightPane { title, border, lines: shown, wrapped: true, scroll }
    }
}

/// The right pane shows a push while there is one, else the standup, else a scan on its way,
/// and the tickets where there are any.
pub proof fn law_what_is_open_is_shown(a: App, zone: Zone, visible: u16, b: App, p: RightPane)
    requires
        is_right_pane(a, zone, visible, b, p),
    ensures
        a.push is Some ==> lines::line_views(p.lines@) == pushview::push_text(a.push->0),
        a.push is None && a.standup is Some ==> shows_standup(a, p) && p.scroll == a.standup_scroll,
        a.push is None && a.standup is None && a.scanning ==> p.lines@.len() == 3
            + a.config.repos@.len(),
        a.push is None && a.standup is None && !a.scanning && a.config.repos@.len() > 0
            && a.scan_records@.len() > 0 ==> shows_summaries(a, zone, visible, b, p),
        b.scan_records == a.scan_records && b.hours_overrides == a.hours_overrides && b.push
            == a.push && b.config == a.config,
{
    assert(lines::line_views(p.lines@).len() == p.lines@.len());
    assert(text::texts(a.config.repos@).len() == a.config.repos@.len());
}

/// While the repositories are scanned, each of them has its line.
pub proof fn law_scanned_repos_are_named(a: App, i: int)
    requires
        0 <= i < a.config.repos@.len(),
    ensures
        scanning_text(a).len() == 3 + a.config.repos@.len(),
        scanning_text(a)[3 + i].text == "    "@ + a.config.repos@[i]@,
{
    let repos = text::texts(a.config.repos@);
    assert(repos.len() == a.config.repos@.len());
    assert(repos[i] == a.config.repos@[i]@);
    assert(scanning_text(a)[3 + i] == repo_lines(repos)[i]);
}

} // verus!
