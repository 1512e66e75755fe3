//! What the left and the middle pane show, and what stands around the panes.

use vstd::prelude::*;

use crate::dates;
use crate::dates::Date;
use crate::lines;
use crate::lines::{Line, Tone};
use crate::paths;
use crate::state::{App, Focus, LeftMode, PushStage};
use crate::text;

verus! {

/// The width of the left pane.
pub const LEFT_PANE_WIDTH: u16 = 28;

/// The width of the left pane while a repository is being added.
pub const LEFT_PANE_WIDTH_ADDING: u16 = 60;

/// The width of the middle pane.
pub const MIDDLE_PANE_WIDTH: u16 = 30;

/// The room for text in a pane with a border and a marker.
pub open spec fn room(width: u16) -> int {
    if width < 4 {
        0
    } else {
        width - 4
    }
}

fn room_in(width: u16) -> (r: usize)
    ensures
        r == room(width),
{
    if width < 4 {
        0
    } else {
        (width - 4) as usize
    }
}

/// The ends of texts, in one tone.
pub open spec fn cut_lines(v: Seq<Seq<char>>, width: int) -> Seq<lines::LineView> {
    Seq::new(v.len(), |i: int| lines::shown(paths::end_of_text(v[i], width), Tone::Plain))
}

fn cut_all(v: &Vec<String>, width: usize) -> (r: Vec<Line>)
    ensures
        lines::line_views(r@) == cut_lines(text::texts(v@), width as int),
{
    let mut out = lines::no_lines();
    let ghost all = cut_lines(text::texts(v@), width as int);
    for i in 0..v.len()
        invariant
            all == cut_lines(text::texts(v@), width as int),
            lines::line_views(out@) == all.take(i as int),
    {
        lines::add_line(&mut out, paths::truncate_left(v[i].as_str(), width), Tone::Plain);
        assert(text::texts(v@)[i as int] == v@[i as int]@);
        assert(lines::line_views(out@) =~= all.take(i + 1));
    }
    assert(all.take(v@.len() as int) =~= all);
    out
}

/// The list of repositories.
pub open spec fn repo_list(names: Seq<Seq<char>>, width: u16) -> Seq<lines::LineView> {
    if names.len() == 0 {
        seq![lines::shown("  (press `a` to add)"@, Tone::Dim)]
    } else {
        cut_lines(names, room(width))
    }
}

/// The list of repositories, by their names, in a pane of a width.
pub fn left_browse(names: &Vec<String>, width: u16) -> (r: Vec<Line>)
    ensures
        lines::line_views(r@) == repo_list(text::texts(names@), width),
{
    if names.len() == 0 {
        let mut out = lines::no_lines();
        lines::add_text(&mut out, "  (press `a` to add)", Tone::Dim);
        assert(lines::line_views(out@) =~= repo_list(text::texts(names@), width));
        return out;
    }
    assert(text::texts(names@).len() == names@.len());
    cut_all(names, room_in(width))
}

/// The title of the list of repositories.
pub fn left_title(count: usize) -> (r: String)
    ensures
        r@ == " repos ("@ + text::decimal(count as nat) + ") "@,
{
    let mut out = " repos (".to_owned();
    out.append(text::count_text(count).as_str());
    out.append(") ");
    out
}

/// The line between the input and the matches.
pub open spec fn search_status(a: App) -> lines::LineView {
    match (a.left_mode, a.fuzzy_index) {
        (LeftMode::AddRepo { error: Some(e) }, _) => lines::shown("  "@ + e@, Tone::Bad),
        (_, Some(index)) => {
            let n = index.paths@.len();
            lines::shown(
                if index.finished {
                    "  "@ + text::decimal(n) + " git repo"@ + text::plural(n as int)
                } else {
                    "  scanning... "@ + text::decimal(n) + " so far"@
                },
                Tone::Faint,
            )
        },
        (_, None) => lines::blank(),
    }
}

/// What the left pane shows while a repository is being added.
pub struct AddPane {
    pub input: String,
    pub status: Line,
    pub matches: Vec<Line>,
    /// The match that is selected.
    pub selected: Option<usize>,
}

/// The matches.
pub open spec fn match_list(matches: Seq<Seq<char>>, width: u16) -> Seq<lines::LineView> {
    if matches.len() == 0 {
        seq![lines::shown("  (no matches)"@, Tone::Dim)]
    } else {
        cut_lines(matches, room(width))
    }
}

pub open spec fn is_add_pane(a: App, input_width: u16, matches_width: u16, p: AddPane) -> bool {
    &&& p.input@ == paths::end_of_text(a.input@ + "_"@, room(input_width))
    &&& p.status@ == search_status(a)
    &&& lines::line_views(p.matches@) == match_list(text::texts(a.fuzzy_matches@), matches_width)
    &&& p.selected == (if a.fuzzy_matches@.len() == 0 {
        None
    } else {
        Some(a.fuzzy_selected)
    })
}

fn status_line(a: &App) -> (r: Line)
    ensures
        r@ == search_status(*a),
{
    if let LeftMode::AddRepo { error: Some(e) } = &a.left_mode {
        return Line { text: lines::prefixed("  ", e.as_str()), tone: Tone::Bad };
    }
    match &a.fuzzy_index {
        Some(index) => {
            let n = index.len();
            let mut out;
            if index.done() {
                out = lines::prefixed("  ", text::count_text(n).as_str());
                out.append(" git repo");
                out.append(text::plural_text(n).as_str());
            } else {
                out = lines::prefixed("  scanning... ", text::count_text(n).as_str());
                out.append(" so far");
            }
            Line { text: out, tone: Tone::Faint }
        },
        None => Line { text: String::new(), tone: Tone::Plain },
    }
}

/// What the left pane shows while a repository is being added.
pub fn left_add(a: &App, input_width: u16, matches_width: u16) -> (r: AddPane)
    ensures
        is_add_pane(*a, input_width, matches_width, r),
{
    let mut typed = a.input.clone();
    typed.append("_");
    let matches = if a.fuzzy_matches.len() == 0 {
        let mut out = lines::no_lines();
        lines::add_text(&mut out, "  (no matches)", Tone::Dim);
        out
    } else {
        cut_all(&a.fuzzy_matches, room_in(matches_width))
    };
    assert(text::texts(a.fuzzy_matches@).len() == a.fuzzy_matches@.len());
    assert(lines::line_views(matches@) =~= match_list(
        text::texts(a.fuzzy_matches@),
        matches_width,
    ));
    AddPane {
        input: paths::truncate_left(typed.as_str(), room_in(input_width)),
        status: status_line(a),
        matches,
        selected: if a.fuzzy_matches.len() == 0 {
            None
        } else {
            Some(a.fuzzy_selected)
        },
    }
}

/// A stretch of days.
pub open spec fn range_text(start: Date, end: Date) -> Seq<char> {
    if start == end {
        dates::iso_text(start)
    } else {
        dates::iso_text(start) + " → "@ + dates::iso_text(end)
    }
}

/// A stretch of days.
pub fn describe_range(start: Date, end: Date) -> (r: String)
    requires
        start.valid(),
        end.valid(),
    ensures
        r@ == range_text(start, end),
{
    let mut out = start.iso();
    if start != end {
        out.append(" → ");
        out.append(end.iso().as_str());
    }
    out
}

/// How a day looks in the calendar: the cursor before all else, then the anchor,
/// then the days between them, then today.
pub open spec fn day_tone(a: App, d: Date) -> Tone {
    if d == a.selected_date {
        Tone::Cursor
    } else if a.range_anchor == Some(d) {
        Tone::Anchor
    } else if a.range_anchor is Some && !dates::earlier(d, a.range().0) && !dates::earlier(
        a.range().1,
        d,
    ) {
        Tone::Inside
    } else if d == a.today {
        Tone::Today
    } else {
        Tone::Plain
    }
}

/// A number in two columns.
pub open spec fn two_columns(n: int) -> Seq<char> {
    if n < 10 {
        " "@ + text::decimal(n as nat)
    } else {
        text::decimal(n as nat)
    }
}

/// The days of the month on show.
pub open spec fn days_shown(a: App) -> int {
    dates::month_length(a.cal_month.year as int, a.cal_month.month as int)
}

/// One day of the calendar, or the gap where the month has no day.
pub open spec fn day_cell(a: App, day: int) -> Seq<lines::LineView> {
    if 1 <= day <= days_shown(a) {
        seq![
            lines::shown(
                two_columns(day),
                day_tone(
                    a,
                    Date { year: a.cal_month.year, month: a.cal_month.month, day: day as u32 },
                ),
            ),
            lines::shown(" "@, Tone::Plain),
        ]
    } else {
        seq![lines::shown("   "@, Tone::Plain)]
    }
}

/// So many days in a row.
pub open spec fn day_cells(a: App, first: int, n: int) -> Seq<lines::LineView>
    decreases n,
{
    if n <= 0 {
        Seq::empty()
    } else {
        day_cells(a, first, n - 1) + day_cell(a, first + n - 1)
    }
}

/// The day of the month that the first week on show starts on; it may lie before
/// the first.
pub open spec fn first_monday(a: App) -> int {
    1 - a.cal_month.days_since_monday()
}

/// How many weeks the month on show touches.
pub open spec fn weeks_shown(a: App) -> int {
    (a.cal_month.days_since_monday() + days_shown(a) + 6) / 7
}

/// The weeks of the month on show.
pub open spec fn is_week_grid(a: App, weeks: Seq<Vec<Line>>) -> bool {
    &&& weeks.len() == weeks_shown(a)
    &&& forall|w: int|
        0 <= w < weeks.len() ==> lines::line_views((#[trigger] weeks[w])@) == day_cells(
            a,
            first_monday(a) + 7 * w,
            7,
        )
}

/// What the middle pane shows.
pub struct MiddlePane {
    pub title: String,
    /// Centered above the weeks.
    pub header: Vec<Line>,
    /// Each week is one line, in pieces.
    pub weeks: Vec<Vec<Line>>,
    pub footer: Vec<Line>,
}

pub open spec fn middle_title(a: App) -> Seq<char> {
    let days = a.range().1.number() - a.range().0.number() + 1;
    if a.range_anchor is Some {
        " date — range: "@ + text::signed_decimal(days) + " day"@ + text::plural(days) + " "@
    } else {
        " date "@
    }
}

pub open spec fn middle_header(a: App) -> Seq<lines::LineView> {
    seq![
        lines::blank(),
        lines::shown(
            dates::month_title(a.cal_month.month as int) + " "@ + text::signed_decimal(
                a.cal_month.year as int,
            ),
            Tone::Strong,
        ),
        lines::shown("Mo Tu We Th Fr Sa Su"@, Tone::Faint),
    ]
}

pub open spec fn middle_footer(a: App) -> Seq<lines::LineView> {
    seq![
        lines::blank(),
        if a.range_anchor is Some {
            lines::shown(
                "  "@ + dates::iso_text(a.range().0) + " → "@ + dates::iso_text(a.range().1),
                Tone::Span,
            )
        } else {
            lines::shown("  "@ + dates::day_text(a.selected_date), Tone::Ticket)
        },
    ] + if a.results_are_cached {
        seq![lines::shown("  cached — press S to rescan"@, Tone::Faint)]
    } else {
        Seq::empty()
    }
}

pub open spec fn is_middle_pane(a: App, p: MiddlePane) -> bool {
    &&& p.title@ == middle_title(a)
    &&& lines::line_views(p.header@) == middle_header(a)
    &&& is_week_grid(a, p.weeks@)
    &&& lines::line_views(p.footer@) == middle_footer(a)
}

fn tone_of(a: &App, d: Date) -> (r: Tone)
    ensures
        r == day_tone(*a, d),
{
    let (start, end) = a.current_range();
    if d == a.selected_date {
        return Tone::Cursor;
    }
    if let Some(anchor) = a.range_anchor {
        if anchor == d {
            return Tone::Anchor;
        }
        if !d.is_before(start) && !end.is_before(d) {
            return Tone::Inside;
        }
    }
    if d == a.today {
        Tone::Today
    } else {
        Tone::Plain
    }
}

fn add_day(a: &App, row: &mut Vec<Line>, day: i64, length: i64)
    requires
        a.wf(),
        length == days_shown(*a),
    ensures
        lines::line_views(final(row)@) == lines::line_views(old(row)@) + day_cell(*a, day as int),
{
    let ghost before = lines::line_views(row@);
    if day < 1 || day > length {
        lines::add_text(row, "   ", Tone::Plain);
        assert(lines::line_views(row@) =~= before + day_cell(*a, day as int));
        return;
    }
    let d = Date { year: a.cal_month.year, month: a.cal_month.month, day: day as u32 };
    let mut digits = text::decimal_text(day as u64);
    if day < 10 {
        digits = lines::prefixed(" ", digits.as_str());
    }
    lines::add_line(row, digits, tone_of(a, d));
    lines::add_text(row, " ", Tone::Plain);
    assert(lines::line_views(row@) =~= before + day_cell(*a, day as int));
}

fn week_grid(a: &App) -> (r: Vec<Vec<Line>>)
    requires
        a.wf(),
    ensures
        is_week_grid(*a, r@),
{
    let offset: i64 = a.cal_month.weekday() as i64;
    let length: i64 = dates::days_in_month(a.cal_month.year, a.cal_month.month) as i64;
    let weeks: i64 = (offset + length + 6) / 7;
    let mut out: Vec<Vec<Line>> = Vec::new();
    let mut w: i64 = 0;
    while w < weeks
        invariant
            a.wf(),
            0 <= w <= weeks <= 6,
            0 <= offset < 7,
            offset == a.cal_month.days_since_monday(),
            length == days_shown(*a),
            weeks == weeks_shown(*a),
            out@.len() == w,
            forall|k: int|
                0 <= k < w ==> lines::line_views((#[trigger] out@[k])@) == day_cells(
                    *a,
                    first_monday(*a) + 7 * k,
                    7,
                ),
        decreases weeks - w,
    {
        let first: i64 = 1 - offset + 7 * w;
        let mut row = lines::no_lines();
        let mut i: i64 = 0;
        while i < 7
            invariant
                a.wf(),
                0 <= i <= 7,
                -10 <= first <= 100,
                length == days_shown(*a),
                lines::line_views(row@) == day_cells(*a, first as int, i as int),
            decreases 7 - i,
        {
            add_day(a, &mut row, first + i, length);
            i += 1;
        }
        out.push(row);
        w += 1;
    }
    out
}

/// Every day of the month on show has its place in the calendar, in the column of
/// its weekday.
pub proof fn law_every_day_has_its_place(a: App, day: u32)
    requires
        a.wf(),
        1 <= day <= days_shown(a),
    ensures
        ({
            let d = Date { year: a.cal_month.year, month: a.cal_month.month, day };
            let week = (day - first_monday(a)) / 7;
            &&& 0 <= week < weeks_shown(a)
            &&& day == first_monday(a) + 7 * week + d.days_since_monday()
        }),
{
    let d = Date { year: a.cal_month.year, month: a.cal_month.month, day };
    let start = a.cal_month.number() - 1;
    assert(d.number() == a.cal_month.number() + day - 1);
    assert((start + (day - 1)) % 7 == (start % 7 + (day - 1)) % 7) by (nonlinear_arith);
}

/// What the middle pane shows.
pub fn middle_pane(a: &App) -> (r: MiddlePane)
    requires
        a.wf(),
    ensures
        is_middle_pane(*a, r),
{
    let (start, end) = a.current_range();
    let ranging = a.range_anchor.is_some();
    let mut title;
    if ranging {
        let days: i64 = start.days_until(end);
        proof {
            dates::lemma_number_bounds(start);
            dates::lemma_number_bounds(end);
            dates::lemma_number_limits();
        }
        let days: i64 = days + 1;
        title = lines::prefixed(" date — range: ", text::signed_text(days).as_str());
        title.append(" day");
        if days != 1 {
            title.append("s");
        }
        proof {
            reveal_strlit("s");
            assert("s"@ =~= seq!['s']);
            let shorter = " date — range: "@ + text::signed_decimal(days as int) + " day"@;
            assert(shorter + Seq::<char>::empty() =~= shorter);
        }
        title.append(" ");
    } else {
        title = " date ".to_owned();
    }
    let mut header = lines::no_lines();
    lines::add_blank(&mut header);
    let mut month = dates::month_name(a.cal_month.month).to_owned();
    month.append(" ");
    month.append(text::signed_text(a.cal_month.year as i64).as_str());
    lines::add_line(&mut header, month, Tone::Strong);
    lines::add_text(&mut header, "Mo Tu We Th Fr Sa Su", Tone::Faint);
    assert(lines::line_views(header@) =~= middle_header(*a));
    let mut footer = lines::no_lines();
    lines::add_blank(&mut footer);
    if ranging {
        let mut s = lines::prefixed("  ", start.iso().as_str());
        s.append(" → ");
        s.append(end.iso().as_str());
        lines::add_line(&mut footer, s, Tone::Span);
    } else {
        lines::add_line(
            &mut footer,
            lines::prefixed("  ", a.selected_date.with_weekday().as_str()),
            Tone::Ticket,
        );
    }
    if a.results_are_cached {
        lines::add_text(&mut footer, "  cached — press S to rescan", Tone::Faint);
    }
    assert(lines::line_views(footer@) =~= middle_footer(*a));
    MiddlePane { title, header, weeks: week_grid(a), footer }
}

/// The keys that are worth mentioning.
pub open spec fn hint(a: App) -> Seq<char> {
    if a.error is Some {
        "press any key to dismiss"@
    } else if a.scanning {
        "scanning..."@
    } else if a.standup is Some {
        "[PgUp/PgDn] scroll   [Esc] close"@
    } else if a.push is Some {
        match a.push->0 {
            PushStage::Setup(_) => "type to enter   [Enter] next   [Esc] cancel"@,
            PushStage::Preview { .. } =>
                "[↑↓] select   [space] toggle   [Enter] push   [Esc] cancel"@,
            PushStage::Sending { .. } => "posting..."@,
            PushStage::Finished { .. } => "press [Enter] or [Esc] to return"@,
        }
    } else if a.adding() {
        "type to filter   [↑/↓] pick   [Enter] add (keeps adding)   [Esc] done"@
    } else if a.focus == Focus::Right && a.results_edit is Some {
        "type e.g. 30m, 2h, 2h 30m   [Enter] save   [Esc] cancel"@
    } else if a.focus == Focus::Right && a.fill_edit is Some {
        "type the budget, e.g. 8h   [Enter] fill   [Esc] cancel"@
    } else {
        match a.focus {
            Focus::Left =>
                "[Tab] switch   [a] add   [x] remove   [s] scan   [m] standup   [p] push   [q] quit"@,
            Focus::Middle =>
                "[Tab] switch   [←→↑↓] move   [[/]] month   [t] today   [y] yesterday   [space] range   [m] standup   [s] scan"@,
            Focus::Right =>
                "[Tab] switch   [↑↓] group   [e] time   [f] fill   [m] standup   [s] scan   [S] rescan   [p] push   [G] refresh PRs   [J] Jira"@,
        }
    }
}

/// The line below the panes.
pub fn hint_bar(a: &App) -> (r: &'static str)
    ensures
        r@ == hint(*a),
{
    if a.error.is_some() {
        return "press any key to dismiss";
    }
    if a.scanning {
        return "scanning...";
    }
    if a.standup.is_some() {
        return "[PgUp/PgDn] scroll   [Esc] close";
    }
    if let Some(stage) = &a.push {
        return match stage {
            PushStage::Setup(_) => "type to enter   [Enter] next   [Esc] cancel",
            PushStage::Preview { .. } =>
                "[↑↓] select   [space] toggle   [Enter] push   [Esc] cancel",
            PushStage::Sending { .. } => "posting...",
            PushStage::Finished { .. } => "press [Enter] or [Esc] to return",
        };
    }
    if a.is_adding() {
        return "type to filter   [↑/↓] pick   [Enter] add (keeps adding)   [Esc] done";
    }
    if a.focus == Focus::Right && a.results_edit.is_some() {
        return "type e.g. 30m, 2h, 2h 30m   [Enter] save   [Esc] cancel";
    }
    if a.focus == Focus::Right && a.fill_edit.is_some() {
        return "type the budget, e.g. 8h   [Enter] fill   [Esc] cancel";
    }
    match a.focus {
        Focus::Left =>
            "[Tab] switch   [a] add   [x] remove   [s] scan   [m] standup   [p] push   [q] quit",
        Focus::Middle =>
            "[Tab] switch   [←→↑↓] move   [[/]] month   [t] today   [y] yesterday   [space] range   [m] standup   [s] scan",
        Focus::Right =>
            "[Tab] switch   [↑↓] group   [e] time   [f] fill   [m] standup   [s] scan   [S] rescan   [p] push   [G] refresh PRs   [J] Jira",
    }
}

/// A part of the screen.
#[derive(Clone, Copy, PartialEq, Eq, Structural, Debug)]
pub struct Area {
    pub x: u16,
    pub y: u16,
    pub width: u16,
    pub height: u16,
}

impl Area {
    /// It lies on the screen.
    pub open spec fn wf(self) -> bool {
        self.x + self.width <= u16::MAX && self.y + self.height <= u16::MAX
    }
}

pub open spec fn smaller(a: u16, b: u16) -> u16 {
    if a < b {
        a
    } else {
        b
    }
}

/// The middle of an area, in the size given or as much of it as there is room for.
pub open spec fn centered(area: Area, w: u16, h: u16) -> Area {
    let width = smaller(w, area.width);
    let height = smaller(h, area.height);
    Area {
        x: (area.x + (area.width - width) / 2) as u16,
        y: (area.y + (area.height - height) / 2) as u16,
        width,
        height,
    }
}

/// The middle of an area.
pub fn center_rect(area: Area, w: u16, h: u16) -> (r: Area)
    requires
        area.wf(),
    ensures
        r == centered(area, w, h),
{
    let width = if w < area.width {
        w
    } else {
        area.width
    };
    let height = if h < area.height {
        h
    } else {
        area.height
    };
    Area {
        x: area.x + (area.width - width) / 2,
        y: area.y + (area.height - height) / 2,
        width,
        height,
    }
}

/// The centered part lies within the area.
pub proof fn law_center_stays_inside(area: Area, w: u16, h: u16)
    requires
        area.wf(),
    ensures
        centered(area, w, h).x >= area.x,
        centered(area, w, h).y >= area.y,
        centered(area, w, h).x + centered(area, w, h).width <= area.x + area.width,
        centered(area, w, h).y + centered(area, w, h).height <= area.y + area.height,
{
}

/// The width of the box around a message of a length: as wide as the screen at
/// most, but no narrower than thirty columns.
pub open spec fn popup_width(length: int, screen: u16) -> int {
    let wanted = if length + 6 < screen {
        length + 6
    } else {
        screen as int
    };
    if wanted < 30 {
        30
    } else {
        wanted
    }
}

/// The width of the box around a message.
pub fn error_width(length: usize, screen: u16) -> (r: u16)
    ensures
        r == popup_width(length as int, screen),
{
    let wanted: u16 = if (length as u128) + 6 < screen as u128 {
        (length + 6) as u16
    } else {
        screen
    };
    if wanted < 30 {
        30
    } else {
        wanted
    }
}

/// The box around a message.
pub open spec fn popup(message: Seq<char>) -> Seq<lines::LineView> {
    seq![
        lines::blank(),
        lines::shown("  "@ + message, Tone::Plain),
        lines::blank(),
        lines::shown("  press any key to dismiss"@, Tone::Dim),
    ]
}

/// What the box around a message holds.
pub fn error_popup(message: &str) -> (r: Vec<Line>)
    ensures
        lines::line_views(r@) == popup(message@),
{
    let mut out = lines::no_lines();
    lines::add_blank(&mut out);
    lines::add_line(&mut out, lines::prefixed("  ", message), Tone::Plain);
    lines::add_blank(&mut out);
    lines::add_text(&mut out, "  press any key to dismiss", Tone::Dim);
    assert(lines::line_views(out@) =~= popup(message@));
    out
}

/// In the calendar the day of the cursor stands out before all others, then the day of the
/// anchor, then the days between the two; today is marked where none of these holds.
pub proof fn law_days_look_as_they_are_selected(a: App, d: Date)
    requires
        a.wf(),
        d.valid(),
    ensures
        d == a.selected_date <==> day_tone(a, d) == Tone::Cursor,
        a.range_anchor is None && d != a.selected_date ==> day_tone(a, d) == if d == a.today {
            Tone::Today
        } else {
            Tone::Plain
        },
        a.range_anchor matches Some(e) ==> {
            &&& d == e && d != a.selected_date <==> day_tone(a, d) == Tone::Anchor
            &&& e.number() < d.number() < a.selected_date.number() || a.selected_date.number()
                < d.number() < e.number() <==> day_tone(a, d) == Tone::Inside
        },
{
    lemma_day_order(a, d);
}

proof fn lemma_day_order(a: App, d: Date)
    requires
        a.wf(),
        d.valid(),
    ensures
        d == a.selected_date <==> d.number() == a.selected_date.number(),
        dates::earlier(d, a.range().0) <==> d.number() < a.range().0.number(),
        dates::earlier(a.range().1, d) <==> a.range().1.number() < d.number(),
        a.range_anchor matches Some(e) ==> (d == e <==> d.number() == e.number()) && (
        dates::earlier(a.selected_date, e) <==> a.selected_date.number() < e.number()),
{
    dates::law_days_are_numbered_in_order(d, a.selected_date);
    dates::law_days_are_numbered_in_order(d, a.range().0);
    dates::law_days_are_numbered_in_order(a.range().1, d);
    if let Some(e) = a.range_anchor {
        dates::law_days_are_numbered_in_order(d, e);
        dates::law_days_are_numbered_in_order(a.selected_date, e);
    }
}

/// A day of the month on show stands in the calendar with its number, and the days follow each
/// other.
pub proof fn law_days_stand_with_their_numbers(a: App, first: int, n: int)
    requires
        a.wf(),
        n >= 0,
    ensures
        day_cells(a, first, n + 1) == day_cells(a, first, n) + day_cell(a, first + n),
        1 <= first <= days_shown(a) ==> day_cell(a, first).len() == 2 && day_cell(
            a,
            first,
        )[0].text == (if first < 10 {
            " "@
        } else {
            ""@
        }) + text::decimal(first as nat),
        !(1 <= first <= days_shown(a)) ==> day_cell(a, first).len() == 1 && day_cell(
            a,
            first,
        )[0].text == "   "@,
{
    reveal_strlit("");
    assert(""@ + text::decimal(first as nat) =~= text::decimal(first as nat));
}

/// The title counts the selected days, the first and the last one among them.
pub proof fn law_the_title_counts_the_days(a: App)
    requires
        a.wf(),
    ensures
        a.range_anchor matches Some(e) ==> ({
            let apart = a.selected_date.number() - e.number();
            let days = if apart < 0 {
                1 - apart
            } else {
                1 + apart
            };
            middle_title(a) == " date — range: "@ + text::signed_decimal(days) + " day"@
                + text::plural(days) + " "@
        }),
        a.range_anchor is None ==> middle_title(a) == " date "@,
{
    if let Some(e) = a.range_anchor {
        dates::law_days_are_numbered_in_order(a.selected_date, e);
    }
}

/// What is centered has the size that was asked for where there is room, and as much space on
/// one side as on the other, but for one line or column.
pub proof fn law_center_is_in_the_middle(area: Area, w: u16, h: u16)
    requires
        area.wf(),
    ensures
        ({
            let c = centered(area, w, h);
            let left = c.x - area.x;
            let right = area.x + area.width - c.x - c.width;
            let above = c.y - area.y;
            let below = area.y + area.height - c.y - c.height;
            &&& w <= area.width ==> c.width == w
            &&& w > area.width ==> c.width == area.width
            &&& h <= area.height ==> c.height == h
            &&& h > area.height ==> c.height == area.height
            &&& left <= right <= left + 1
            &&& above <= below <= above + 1
        }),
{
}

/// Every repository has its line, in order, cut to the width of the pane.
pub proof fn law_every_repo_has_its_line(names: Seq<Seq<char>>, width: u16, i: int)
    requires
        names.len() > 0,
    ensures
        repo_list(names, width).len() == names.len(),
        0 <= i < names.len() && width >= 4 && names[i].len() <= width - 4 ==> repo_list(
            names,
            width,
        )[i].text == names[i],
        0 <= i < names.len() && width >= 7 ==> repo_list(names, width)[i].text.len() <= width - 4,
{
    if 0 <= i < names.len() && width >= 4 {
        paths::law_text_is_cut_only_for_room(names[i], room(width));
        if width >= 7 {
            paths::law_cut_text_fits(names[i], room(width));
        }
    }
}

/// A box is wide enough for its message, if the screen is, and never narrower than thirty
/// columns.
pub proof fn law_boxes_have_room(length: int, screen: u16)
    requires
        length >= 0,
    ensures
        popup_width(length, screen) >= 30,
        length + 6 <= screen ==> popup_width(length, screen) >= length + 6,
        screen >= 30 ==> popup_width(length, screen) <= screen,
        24 <= length < screen - 6 ==> popup_width(length, screen) == length + 6,
{
}

/// What is said below the calendar: the first and the last selected day, or the one that is
/// selected; and that the tickets on show were scanned before, where they were.
pub proof fn law_the_footer_tells_the_selection(a: App, p: MiddlePane)
    requires
        is_middle_pane(a, p),
    ensures
        p.footer@.len() == if a.results_are_cached {
            3int
        } else {
            2
        },
        a.range_anchor is Some ==> p.footer@[1].text@ == "  "@ + dates::iso_text(a.range().0)
            + " → "@ + dates::iso_text(a.range().1),
        a.range_anchor is None ==> p.footer@[1].text@ == "  "@ + dates::day_text(a.selected_date),
        p.weeks@.len() == (a.cal_month.days_since_monday() + days_shown(a) + 6) / 7,
{
    let foot = lines::line_views(p.footer@);
    assert(foot.len() == p.footer@.len());
    assert(foot[1] == p.footer@[1]@);
}

/// While a repository is added, the text that is typed in and every match are shown, and the
/// selected match is marked.
pub proof fn law_every_match_is_shown(
    a: App,
    input_width: u16,
    matches_width: u16,
    p: AddPane,
    i: int,
)
    requires
        is_add_pane(a, input_width, matches_width, p),
        0 <= i < a.fuzzy_matches@.len(),
    ensures
        p.matches@.len() == a.fuzzy_matches@.len(),
        matches_width >= 4 && a.fuzzy_matches@[i]@.len() <= matches_width - 4
            ==> p.matches@[i].text@ == a.fuzzy_matches@[i]@,
        p.selected == Some(a.fuzzy_selected),
        input_width >= 5 && a.input@.len() < input_width - 4 ==> p.input@ == a.input@ + "_"@,
{
    reveal_strlit("_");
    let shown = lines::line_views(p.matches@);
    let names = text::texts(a.fuzzy_matches@);
    assert(shown.len() == p.matches@.len());
    assert(names.len() == a.fuzzy_matches@.len());
    assert(names[i] == a.fuzzy_matches@[i]@);
    assert(shown[i] == p.matches@[i]@);
    if matches_width >= 4 {
        paths::law_text_is_cut_only_for_room(names[i], room(matches_width));
    }
    if input_width >= 5 {
        paths::law_text_is_cut_only_for_room(a.input@ + "_"@, room(input_width));
    }
}

} // verus!
