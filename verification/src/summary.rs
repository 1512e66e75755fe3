//! The tickets as lines of text.

use vstd::prelude::*;

use crate::cache::Overrides;
use crate::dates;
use crate::hours;
use crate::lines;
use crate::lines::{Line, Tone};
use crate::pr;
use crate::pr::{PrIndex, PrInfo};
use crate::report;
use crate::report::GroupSummary;
use crate::scanner::CommitRecord;
use crate::state::{App, Focus};
use crate::text;
use crate::worklogs;
use crate::worklogs::Zone;

verus! {

/// The width of the widest name of a repository.
pub open spec fn widest(records: Seq<CommitRecord>) -> usize
    decreases records.len(),
{
    if records.len() == 0 {
        0
    } else {
        let before = widest(records.drop_last());
        let w = text::byte_length(records.last().repo@);
        if w > before {
            w
        } else {
            before
        }
    }
}

fn repo_width(records: &Vec<CommitRecord>) -> (r: usize)
    ensures
        r == widest(records@),
{
    let mut out: usize = 0;
    for i in 0..records.len()
        invariant
            out == widest(records@.take(i as int)),
    {
        proof {
            assert(records@.take(i + 1).drop_last() =~= records@.take(i as int));
            assert(records@.take(i + 1).last() == records@[i as int]);
        }
        let w = records[i].repo.as_str().len();
        if w > out {
            out = w;
        }
    }
    assert(records@.take(records@.len() as int) =~= records@);
    out
}

/// The group is the one that keys go to.
pub open spec fn is_selected(a: App, i: int) -> bool {
    i == a.results_selected && a.focus == Focus::Right
}

/// What stands in front of a group, its ticket, and whether it was pushed.
pub open spec fn header_start(a: App, i: int, ticket: Seq<char>) -> Seq<char> {
    (if is_selected(a, i) {
        "> "@
    } else {
        "  "@
    }) + ticket + (if text::texts(a.pushed_this_session@).contains(ticket) {
        " ✓"@
    } else {
        Seq::empty()
    })
}

/// The first line of a group: its hours, or those that are typed in.
pub open spec fn header_text(a: App, i: int, g: GroupSummary<'_>) -> Seq<char> {
    let start = header_start(a, i, g.ticket@);
    if is_selected(a, i) && a.results_edit is Some {
        start + " — edit: "@ + a.results_edit->0@ + "_"@
    } else {
        match a.hours_overrides.get(g.ticket@) {
            Some(v) => start + " — "@ + hours::hours_text(v as int) + " (manual)"@,
            None => start + " — "@ + hours::hours_text(g.gap.value as int),
        }
    }
}

pub open spec fn header_tone(a: App, i: int) -> Tone {
    if is_selected(a, i) && a.results_edit is Some {
        Tone::Editing
    } else if is_selected(a, i) {
        Tone::Selected
    } else {
        Tone::Ticket
    }
}

fn header(a: &App, i: usize, g: &GroupSummary<'_>) -> (r: Line)
    ensures
        r@ == lines::shown(header_text(*a, i as int, *g), header_tone(*a, i as int)),
{
    let selected = i == a.results_selected && a.focus == Focus::Right;
    let mut out = if selected {
        "> ".to_owned()
    } else {
        "  ".to_owned()
    };
    out.append(g.ticket.as_str());
    if text::one_of(&a.pushed_this_session, g.ticket.as_str()) {
        out.append(" ✓");
    }
    proof {
        let bare = (if selected {
            "> "@
        } else {
            "  "@
        }) + g.ticket@;
        assert(bare + Seq::<char>::empty() =~= bare);
    }
    assert(out@ == header_start(*a, i as int, g.ticket@));
    if selected {
        if let Some(buf) = &a.results_edit {
            out.append(" — edit: ");
            out.append(buf.as_str());
            out.append("_");
            return Line { text: out, tone: Tone::Editing };
        }
    }
    out.append(" — ");
    match a.hours_overrides.find(g.ticket.as_str()) {
        Some(v) => {
            out.append(hours::format_hours(v).as_str());
            out.append(" (manual)");
        },
        None => {
            out.append(g.gap.display().as_str());
        },
    }
    Line {
        text: out,
        tone: if selected {
            Tone::Selected
        } else {
            Tone::Ticket
        },
    }
}

/// The numbers of pull requests.
pub open spec fn pr_numbers(prs: Seq<&PrInfo>) -> Seq<Seq<char>> {
    Seq::new(prs.len(), |i: int| "#"@ + text::decimal(prs[i].number as nat))
}

/// The pull requests that hold a commit.
pub open spec fn pr_suffix(prs: Seq<&PrInfo>) -> Seq<char> {
    if prs.len() == 0 {
        Seq::empty()
    } else {
        "   [PR "@ + text::joined(pr_numbers(prs), ", "@) + "]"@
    }
}

fn suffix(index: &PrIndex, oid: &str) -> (r: String)
    ensures
        r@ == pr_suffix(pr::prs_holding(index.prs@, oid@)),
{
    let prs = index.lookup(oid);
    if prs.len() == 0 {
        return String::new();
    }
    let mut nums: Vec<String> = Vec::new();
    let ghost all = pr_numbers(prs@);
    assert(text::texts(nums@) =~= all.take(0));
    for i in 0..prs.len()
        invariant
            all == pr_numbers(prs@),
            text::texts(nums@) == all.take(i as int),
    {
        let n = lines::prefixed("#", text::decimal_text(prs[i].number).as_str());
        let ghost before = text::texts(nums@);
        let ghost last = n@;
        nums.push(n);
        assert(text::texts(nums@) =~= before.push(last));
        assert(all.take(i + 1) =~= before.push(all[i as int]));
    }
    assert(all.take(all.len() as int) =~= all);
    let mut out = "   [PR ".to_owned();
    out.append(text::join_texts(&nums, ", ").as_str());
    out.append("]");
    out
}

/// The characters at the start of a text that fit into so many bytes.
pub open spec fn fitting(s: Seq<char>, room: int) -> Seq<char>
    decreases s.len(),
{
    if s.len() == 0 || text::char_width(s[0]) > room {
        Seq::empty()
    } else {
        seq![s[0]] + fitting(s.drop_first(), room - text::char_width(s[0]))
    }
}

/// The start of an identifier: what fits into seven bytes.
pub open spec fn short_oid(oid: Seq<char>) -> Seq<char> {
    fitting(oid, 7)
}

fn shortened(oid: &str) -> (r: String)
    ensures
        r@ == short_oid(oid@),
{
    let chars = text::chars_of(oid);
    let n = chars.len();
    let mut out = String::new();
    let mut room: usize = 7;
    let mut i: usize = 0;
    assert(chars@.skip(0) =~= chars@);
    while i < n && text::width_of(chars[i]) <= room
        invariant
            i <= n,
            n == chars@.len(),
            out@ + fitting(chars@.skip(i as int), room as int) == short_oid(chars@),
        decreases n - i,
    {
        let ghost before = out@;
        let ghost rest = chars@.skip(i as int);
        assert(rest[0] == chars@[i as int]);
        assert(rest.drop_first() =~= chars@.skip(i + 1));
        let w = text::width_of(chars[i]);
        out.push(chars[i]);
        room = room - w;
        i += 1;
        assert(before + fitting(rest, room + w) =~= out@ + fitting(
            chars@.skip(i as int),
            room as int,
        ));
    }
    assert(out@ =~= short_oid(chars@));
    out
}

/// When a commit was made, on the local clock.
pub open spec fn commit_clock(zone: Zone, time: i64) -> Seq<char> {
    match zone.moment(time) {
        Some(at) => dates::clock_text(at.second_of_day()),
        None => "--:--"@,
    }
}

/// The line of a commit.
pub open spec fn commit_text(c: CommitRecord, zone: Zone, width: usize, prs: Seq<PrInfo>) -> Seq<
    char,
> {
    "  ["@ + lines::padded(c.repo@, width as int) + "]  "@ + commit_clock(zone, c.author_time)
        + "  "@ + short_oid(c.oid@) + "  "@ + c.subject@ + pr_suffix(pr::prs_holding(prs, c.oid@))
}

fn commit_line(c: &CommitRecord, zone: &Zone, width: usize, index: &PrIndex) -> (r: String)
    ensures
        r@ == commit_text(*c, *zone, width, index.prs@),
{
    let mut out = lines::prefixed("  [", lines::pad_right(c.repo.as_str(), width).as_str());
    out.append("]  ");
    match zone.at(c.author_time) {
        Some(at) => {
            out.append(at.clock().as_str());
        },
        None => {
            out.append("--:--");
        },
    }
    out.append("  ");
    let oid = c.oid.as_str();
    out.append(shortened(oid).as_str());
    out.append("  ");
    out.append(c.subject.as_str());
    out.append(suffix(index, oid).as_str());
    out
}

/// How far the text of a commit is indented.
pub open spec fn body_indent(width: usize) -> int {
    if width > usize::MAX - 22 {
        usize::MAX as int
    } else {
        width + 22
    }
}

/// The lines of a text that are not blank, each indented.
pub open spec fn body_lines(body: Seq<Seq<char>>, indent: int) -> Seq<lines::LineView>
    decreases body.len(),
{
    if body.len() == 0 {
        Seq::empty()
    } else if text::trim(body.last()).len() == 0 {
        body_lines(body.drop_last(), indent)
    } else {
        body_lines(body.drop_last(), indent).push(
            lines::shown(lines::repeated(' ', indent as nat) + body.last(), Tone::Faint),
        )
    }
}

fn add_body(out: &mut Vec<Line>, body: &str, indent: usize)
    ensures
        lines::line_views(final(out)@) == lines::line_views(old(out)@) + body_lines(
            lines::split_lines(body@),
            indent as int,
        ),
{
    let all = lines::lines_of(body);
    let ghost texts = text::texts(all@);
    let ghost start = lines::line_views(out@);
    assert(start + body_lines(texts.take(0), indent as int) =~= start);
    for i in 0..all.len()
        invariant
            texts == text::texts(all@),
            lines::line_views(out@) == start + body_lines(texts.take(i as int), indent as int),
    {
        proof {
            assert(texts.take(i + 1).drop_last() =~= texts.take(i as int));
            assert(texts.take(i + 1).last() == all@[i as int]@);
        }
        if text::trimmed(all[i].as_str()).unicode_len() > 0 {
            let s = lines::prefixed(lines::repeat_char(' ', indent).as_str(), all[i].as_str());
            lines::add_line(out, s, Tone::Faint);
        }
        assert(lines::line_views(out@) =~= start + body_lines(
            texts.take(i + 1),
            indent as int,
        ));
    }
    assert(texts.take(texts.len() as int) =~= texts);
}

/// The commits of a group, each with its text.
pub open spec fn commit_lines(
    commits: Seq<&CommitRecord>,
    zone: Zone,
    width: usize,
    prs: Seq<PrInfo>,
) -> Seq<lines::LineView>
    decreases commits.len(),
{
    if commits.len() == 0 {
        Seq::empty()
    } else {
        let c = *commits.last();
        commit_lines(commits.drop_last(), zone, width, prs).push(
            lines::shown(commit_text(c, zone, width, prs), Tone::Plain),
        ) + body_lines(lines::split_lines(c.body@), body_indent(width))
    }
}

/// A group: its hours, how many commits it has, and the commits.
pub open spec fn group_lines(
    a: App,
    i: int,
    g: GroupSummary<'_>,
    zone: Zone,
    width: usize,
) -> Seq<lines::LineView> {
    seq![
        lines::shown(header_text(a, i, g), header_tone(a, i)),
        lines::shown(
            "  "@ + report::subtitle_text(g.commits@.len() as int, g.span.value as int),
            Tone::Faint,
        ),
    ] + commit_lines(g.commits@, zone, width, a.pr_index.prs@)
}

/// The first `n` groups, with an empty line between two.
pub open spec fn groups_upto(
    a: App,
    groups: Seq<GroupSummary<'_>>,
    zone: Zone,
    width: usize,
    n: int,
) -> Seq<lines::LineView>
    decreases n,
{
    if n <= 0 {
        Seq::empty()
    } else {
        (if n == 1 {
            Seq::empty()
        } else {
            groups_upto(a, groups, zone, width, n - 1).push(lines::blank())
        }) + group_lines(a, n - 1, groups[n - 1], zone, width)
    }
}

/// The line that a group starts on.
pub open spec fn first_line(
    a: App,
    groups: Seq<GroupSummary<'_>>,
    zone: Zone,
    width: usize,
    i: int,
) -> int {
    if i == 0 {
        0
    } else {
        groups_upto(a, groups, zone, width, i).len() as int + 1
    }
}

/// The hours of groups.
pub open spec fn hours_list(groups: Seq<GroupSummary<'_>>, overrides: Overrides) -> Seq<i64> {
    Seq::new(groups.len(), |i: int| worklogs::hours_of(groups[i], overrides))
}

/// The hours of all groups.
pub open spec fn total_hours(groups: Seq<GroupSummary<'_>>, overrides: Overrides) -> int {
    report::total(hours_list(groups, overrides))
}

/// The nearest duration that there is.
pub open spec fn within_limits(v: int) -> i64 {
    if v > i64::MAX {
        i64::MAX
    } else if v < i64::MIN {
        i64::MIN
    } else {
        v as i64
    }
}

/// A sum of durations.
pub fn sum_durations(values: &Vec<i64>) -> (r: i64)
    ensures
        r == within_limits(report::total(values@)),
{
    let mut sum: i128 = 0;
    for i in 0..values.len()
        invariant
            sum == report::total(values@.take(i as int)),
            -(i * 0x8000_0000_0000_0000) <= sum <= i * 0x8000_0000_0000_0000,
    {
        proof {
            assert(values@.take(i + 1).drop_last() =~= values@.take(i as int));
            assert(values@.take(i + 1).last() == values@[i as int]);
        }
        sum = sum + values[i] as i128;
    }
    assert(values@.take(values@.len() as int) =~= values@);
    if sum > i64::MAX as i128 {
        i64::MAX
    } else if sum < i64::MIN as i128 {
        i64::MIN
    } else {
        sum as i64
    }
}

/// The hours of all groups together.
pub fn sum_hours(groups: &Vec<GroupSummary<'_>>, overrides: &Overrides) -> (r: i64)
    ensures
        r == within_limits(total_hours(groups@, *overrides)),
{
    let mut values: Vec<i64> = Vec::new();
    let ghost all = hours_list(groups@, *overrides);
    for i in 0..groups.len()
        invariant
            all == hours_list(groups@, *overrides),
            values@ == all.take(i as int),
    {
        values.push(worklogs::effective_hours(&groups[i], overrides));
        assert(values@ =~= all.take(i + 1));
    }
    assert(all.take(all.len() as int) =~= all);
    sum_durations(&values)
}

/// The line for the budget that is typed in.
pub open spec fn fill_line(a: App) -> Seq<lines::LineView> {
    match a.fill_edit {
        Some(buf) => seq![lines::shown("Fill: "@ + buf@ + "_"@, Tone::Editing)],
        None => Seq::empty(),
    }
}

/// The tickets on show.
pub open spec fn summary_lines(a: App, groups: Seq<GroupSummary<'_>>, zone: Zone) -> Seq<
    lines::LineView,
> {
    if a.scan_records@.len() == 0 {
        seq![lines::shown("  (no matching commits)"@, Tone::Faint)]
    } else {
        groups_upto(a, groups, zone, widest(a.scan_records@), groups.len() as int).push(
            lines::blank(),
        ).push(
            lines::shown(
                "Total: "@ + hours::hours_text(
                    within_limits(total_hours(groups, a.hours_overrides)) as int,
                ),
                Tone::Headline,
            ),
        ) + fill_line(a)
    }
}

/// The lines that the groups on show start on.
pub open spec fn are_first_lines(
    a: App,
    groups: Seq<GroupSummary<'_>>,
    zone: Zone,
    offsets: Seq<usize>,
) -> bool {
    if a.scan_records@.len() == 0 {
        offsets.len() == 0
    } else {
        &&& offsets.len() == groups.len()
        &&& forall|i: int|
            0 <= i < groups.len() ==> #[trigger] offsets[i] == first_line(
                a,
                groups,
                zone,
                widest(a.scan_records@),
                i,
            )
    }
}

fn add_commits(
    out: &mut Vec<Line>,
    commits: &Vec<&CommitRecord>,
    zone: &Zone,
    width: usize,
    index: &PrIndex,
)
    ensures
        lines::line_views(final(out)@) == lines::line_views(old(out)@) + commit_lines(
            commits@,
            *zone,
            width,
            index.prs@,
        ),
{
    let indent: usize = if width > usize::MAX - 22 {
        usize::MAX
    } else {
        width + 22
    };
    let ghost start = lines::line_views(out@);
    assert(start + commit_lines(commits@.take(0), *zone, width, index.prs@) =~= start);
    for i in 0..commits.len()
        invariant
            indent == body_indent(width),
            lines::line_views(out@) == start + commit_lines(
                commits@.take(i as int),
                *zone,
                width,
                index.prs@,
            ),
    {
        let c = commits[i];
        proof {
            assert(commits@.take(i + 1).drop_last() =~= commits@.take(i as int));
            assert(commits@.take(i + 1).last() == c);
        }
        lines::add_line(out, commit_line(c, zone, width, index), Tone::Plain);
        add_body(out, c.body.as_str(), indent);
        assert(lines::line_views(out@) =~= start + commit_lines(
            commits@.take(i + 1),
            *zone,
            width,
            index.prs@,
        ));
    }
    assert(commits@.take(commits@.len() as int) =~= commits@);
}

/// The tickets on show, and the lines that they start on.
pub fn lines_for_summaries(a: &App, groups: &Vec<GroupSummary<'_>>, zone: &Zone) -> (r: (
    Vec<Line>,
    Vec<usize>,
))
    ensures
        lines::line_views(r.0@) == summary_lines(*a, groups@, *zone),
        are_first_lines(*a, groups@, *zone, r.1@),
{
    let mut out = lines::no_lines();
    let mut offsets: Vec<usize> = Vec::new();
    if a.scan_records.len() == 0 {
        lines::add_text(&mut out, "  (no matching commits)", Tone::Faint);
        assert(lines::line_views(out@) =~= summary_lines(*a, groups@, *zone));
        return (out, offsets);
    }
    let width = repo_width(&a.scan_records);
    for i in 0..groups.len()
        invariant
            width == widest(a.scan_records@),
            lines::line_views(out@) == groups_upto(*a, groups@, *zone, width, i as int),
            offsets@.len() == i,
            forall|k: int|
                0 <= k < i ==> #[trigger] offsets@[k] == first_line(*a, groups@, *zone, width, k),
    {
        let g = &groups[i];
        let ghost done = groups_upto(*a, groups@, *zone, width, i as int);
        if i > 0 {
            lines::add_blank(&mut out);
        }
        let ghost above = lines::line_views(out@);
        assert(above.len() == out@.len());
        offsets.push(out.len());
        let top = header(a, i, g);
        lines::add_line(&mut out, top.text, top.tone);
        lines::add_line(
            &mut out,
            lines::prefixed("  ", report::subtitle(g.commits.len(), g.span.value).as_str()),
            Tone::Faint,
        );
        add_commits(&mut out, &g.commits, zone, width, &a.pr_index);
        assert(lines::line_views(out@) =~= above + group_lines(*a, i as int, *g, *zone, width));
        assert(lines::line_views(out@) =~= groups_upto(*a, groups@, *zone, width, i + 1));
    }
    lines::add_blank(&mut out);
    let total = sum_hours(groups, &a.hours_overrides);
    lines::add_line(
        &mut out,
        lines::prefixed("Total: ", hours::format_hours(total).as_str()),
        Tone::Headline,
    );
    if let Some(buf) = &a.fill_edit {
        let mut s = lines::prefixed("Fill: ", buf.as_str());
        s.append("_");
        lines::add_line(&mut out, s, Tone::Editing);
    }
    assert(lines::line_views(out@) =~= summary_lines(*a, groups@, *zone));
    (out, offsets)
}

/// Where the view has to be for the selected line to be seen: where it is, if the
/// line is seen there, else with that line on top; but not so far down that there
/// are fewer lines left than can be seen.
pub open spec fn settled_scroll(
    scroll: u16,
    offsets: Seq<usize>,
    selected: int,
    count: int,
    visible: u16,
) -> u16 {
    let wanted = if selected < offsets.len() {
        let line = offsets[selected] as int;
        if scroll <= line < scroll + visible {
            scroll as int
        } else {
            line
        }
    } else {
        scroll as int
    };
    let shown = if visible > 0 {
        visible as int
    } else {
        1
    };
    let last = if count - shown < 0 {
        0
    } else {
        count - shown
    };
    let settled = if wanted < last {
        wanted
    } else {
        last
    };
    if settled > u16::MAX {
        u16::MAX
    } else {
        settled as u16
    }
}

/// Where the view has to be for the selected group to be seen.
pub fn settle_scroll(
    scroll: u16,
    offsets: &Vec<usize>,
    selected: usize,
    count: usize,
    visible: u16,
) -> (r: u16)
    ensures
        r == settled_scroll(scroll, offsets@, selected as int, count as int, visible),
{
    let wanted: usize = if selected < offsets.len() {
        let line = offsets[selected];
        if scroll as usize <= line && line < scroll as usize + visible as usize {
            scroll as usize
        } else {
            line
        }
    } else {
        scroll as usize
    };
    let shown: usize = if visible > 0 {
        visible as usize
    } else {
        1
    };
    let last: usize = if count < shown {
        0
    } else {
        count - shown
    };
    let settled: usize = if wanted < last {
        wanted
    } else {
        last
    };
    if settled > 65535 {
        65535
    } else {
        settled as u16
    }
}

/// The line that the selected group starts on is seen, if there are no more lines
/// than the view can be moved over.
pub proof fn law_selected_group_is_seen(
    scroll: u16,
    offsets: Seq<usize>,
    selected: int,
    count: int,
    visible: u16,
)
    requires
        0 <= selected < offsets.len(),
        offsets[selected] < count,
        count <= u16::MAX,
        visible > 0,
    ensures
        ({
            let top = settled_scroll(scroll, offsets, selected, count, visible);
            top <= offsets[selected] < top + visible
        }),
{
}

/// A group that is not edited shows the hours that the user set, marked as such, or else its
/// own.
pub proof fn law_headers_show_the_hours(a: App, i: int, g: GroupSummary<'_>) -> (start: Seq<char>)
    requires
        a.results_edit is None || a.results_selected != i || a.focus != Focus::Right,
    ensures
        a.hours_overrides.get(g.ticket@) matches Some(v) ==> header_text(a, i, g) == start + " — "@
            + hours::hours_text(v as int) + " (manual)"@,
        a.hours_overrides.get(g.ticket@) is None ==> header_text(a, i, g) == start + " — "@
            + hours::hours_text(g.gap.value as int),
        start.take(2) == if a.results_selected == i && a.focus == Focus::Right {
            "> "@
        } else {
            "  "@
        },
        text::texts(a.pushed_this_session@).contains(g.ticket@) ==> start.skip(2) == g.ticket@
            + " ✓"@,
        !text::texts(a.pushed_this_session@).contains(g.ticket@) ==> start.skip(2) == g.ticket@,
{
    reveal_strlit("> ");
    reveal_strlit("  ");
    let start = header_start(a, i, g.ticket@);
    assert(start.take(2) =~= if a.results_selected == i && a.focus == Focus::Right {
        "> "@
    } else {
        "  "@
    });
    if text::texts(a.pushed_this_session@).contains(g.ticket@) {
        assert(start.skip(2) =~= g.ticket@ + " ✓"@);
    } else {
        assert(start.skip(2) =~= g.ticket@);
    }
    start
}

/// The total is the sum of the hours of all groups, each as the user set them or as its own.
pub proof fn law_total_is_the_sum(
    a: Seq<GroupSummary<'_>>,
    g: GroupSummary<'_>,
    overrides: Overrides,
)
    ensures
        total_hours(a.push(g), overrides) == total_hours(a, overrides) + match overrides.get(
            g.ticket@,
        ) {
            Some(v) => v as int,
            None => g.gap.value as int,
        },
        total_hours(Seq::empty(), overrides) == 0,
{
    let all = hours_list(a.push(g), overrides);
    assert(all.drop_last() =~= hours_list(a, overrides));
    assert(hours_list(Seq::empty(), overrides) =~= Seq::empty());
}

/// A sum is what the numbers add up to, unless there is no such duration.
pub proof fn law_sums_are_exact_within_limits(v: int)
    ensures
        i64::MIN <= v <= i64::MAX ==> within_limits(v) == v,
        v > i64::MAX ==> within_limits(v) == i64::MAX,
        v < i64::MIN ==> within_limits(v) == i64::MIN,
{
}

proof fn lemma_groups_prefix(
    a: App,
    groups: Seq<GroupSummary<'_>>,
    zone: Zone,
    width: usize,
    i: int,
    n: int,
)
    requires
        1 <= i <= n,
    ensures
        groups_upto(a, groups, zone, width, i).is_prefix_of(
            groups_upto(a, groups, zone, width, n),
        ),
    decreases n,
{
    if i < n {
        lemma_groups_prefix(a, groups, zone, width, i, n - 1);
        let x = groups_upto(a, groups, zone, width, i);
        let y = groups_upto(a, groups, zone, width, n - 1);
        let z = groups_upto(a, groups, zone, width, n);
        assert(z.take(y.len() as int) =~= y);
        assert forall|k: int| 0 <= k < x.len() implies x[k] == z[k] by {
            assert(z[k] == y[k]);
        }
        assert(x =~= z.take(x.len() as int));
    }
}

/// Every group starts on the line that is told, with its first line, and the number of its
/// commits stands below it.
pub proof fn law_groups_start_where_told(
    a: App,
    groups: Seq<GroupSummary<'_>>,
    zone: Zone,
    offsets: Seq<usize>,
    i: int,
)
    requires
        a.scan_records@.len() > 0,
        are_first_lines(a, groups, zone, offsets),
        0 <= i < groups.len(),
    ensures
        ({
            let all = summary_lines(a, groups, zone);
            &&& offsets.len() == groups.len()
            &&& offsets[i] + 1 < all.len()
            &&& all[offsets[i] as int].text == header_text(a, i, groups[i])
            &&& all[offsets[i] + 1].text == "  "@ + report::subtitle_text(
                groups[i].commits@.len() as int,
                groups[i].span.value as int,
            )
            &&& i == 0 ==> offsets[i] == 0
            &&& i > 0 ==> offsets[i - 1] < offsets[i]
        }),
{
    let w = widest(a.scan_records@);
    let n = groups.len() as int;
    let all = summary_lines(a, groups, zone);
    let body = groups_upto(a, groups, zone, w, n);
    let mine = groups_upto(a, groups, zone, w, i + 1);
    let g = group_lines(a, i, groups[i], zone, w);
    lemma_groups_prefix(a, groups, zone, w, i + 1, n);
    let k = offsets[i] as int;
    assert(k == first_line(a, groups, zone, w, i));
    assert(mine[k] == g[0] && mine[k + 1] == g[1]);
    assert(body[k] == mine[k] && body[k + 1] == mine[k + 1]);
    assert(all[k] == body[k] && all[k + 1] == body[k + 1]);
    if i > 0 {
        assert(offsets[i - 1] as int == first_line(a, groups, zone, w, i - 1));
        let before = groups_upto(a, groups, zone, w, i);
        assert(before.len() >= first_line(a, groups, zone, w, i - 1));
    }
}

/// The lines of a commit's text are shown one by one, indented; blank ones are left out.
pub proof fn law_body_lines_are_shown_one_by_one(
    a: Seq<Seq<char>>,
    b: Seq<Seq<char>>,
    one: Seq<char>,
    indent: int,
)
    ensures
        body_lines(a + b, indent) == body_lines(a, indent) + body_lines(b, indent),
        text::trim(one).len() > 0 ==> body_lines(seq![one], indent).len() == 1 && body_lines(
            seq![one],
            indent,
        )[0].text == lines::repeated(' ', indent as nat) + one,
        text::trim(one).len() == 0 ==> body_lines(seq![one], indent).len() == 0,
    decreases b.len(),
{
    let single = seq![one];
    assert(single.drop_last() =~= Seq::empty());
    reveal_with_fuel(body_lines, 2);
    if b.len() == 0 {
        assert(a + b =~= a);
        assert(body_lines(a + b, indent) =~= body_lines(a, indent) + body_lines(b, indent));
    } else {
        law_body_lines_are_shown_one_by_one(a, b.drop_last(), one, indent);
        assert((a + b).drop_last() =~= a + b.drop_last());
        assert((a + b).last() == b.last());
        assert(body_lines(a + b, indent) =~= body_lines(a, indent) + body_lines(b, indent));
    }
}

/// The commits of a group are shown one by one, each with its line and the lines of its text.
pub proof fn law_commits_are_shown_one_by_one(
    a: Seq<&CommitRecord>,
    b: Seq<&CommitRecord>,
    c: &CommitRecord,
    zone: Zone,
    width: usize,
    prs: Seq<PrInfo>,
)
    ensures
        commit_lines(a + b, zone, width, prs) == commit_lines(a, zone, width, prs) + commit_lines(
            b,
            zone,
            width,
            prs,
        ),
        commit_lines(seq![c], zone, width, prs).len() > 0,
        commit_lines(seq![c], zone, width, prs)[0].text == commit_text(*c, zone, width, prs),
        commit_lines(seq![c], zone, width, prs).skip(1) == body_lines(
            lines::split_lines(c.body@),
            body_indent(width),
        ),
    decreases b.len(),
{
    let single = seq![c];
    assert(single.drop_last() =~= Seq::empty());
    reveal_with_fuel(commit_lines, 2);
    assert(commit_lines(single, zone, width, prs).skip(1) =~= body_lines(
        lines::split_lines(c.body@),
        body_indent(width),
    ));
    if b.len() == 0 {
        assert(a + b =~= a);
        assert(commit_lines(a + b, zone, width, prs) =~= commit_lines(a, zone, width, prs)
            + commit_lines(b, zone, width, prs));
    } else {
        law_commits_are_shown_one_by_one(a, b.drop_last(), c, zone, width, prs);
        assert((a + b).drop_last() =~= a + b.drop_last());
        assert((a + b).last() == b.last());
        assert(commit_lines(a + b, zone, width, prs) =~= commit_lines(a, zone, width, prs)
            + commit_lines(b, zone, width, prs));
    }
}

/// The line of a commit names every pull request that holds it.
pub proof fn law_pull_requests_are_named(
    c: CommitRecord,
    zone: Zone,
    width: usize,
    prs: Seq<PrInfo>,
    k: int,
)
    requires
        0 <= k < pr::prs_holding(prs, c.oid@).len(),
    ensures
        text::has_text(
            commit_text(c, zone, width, prs),
            "#"@ + text::decimal(pr::prs_holding(prs, c.oid@)[k].number as nat),
        ),
        text::has_text(commit_text(c, zone, width, prs), c.subject@),
{
    let held = pr::prs_holding(prs, c.oid@);
    let nums = pr_numbers(held);
    let list = text::joined(nums, ", "@);
    let num = "#"@ + text::decimal(held[k].number as nat);
    assert(nums[k] == num);
    text::law_joined_parts_are_there(nums, ", "@, k);
    let i = choose|i: int| text::occurs_at(list, num, i);
    text::law_text_is_found_where_it_stands(num, num, num, list, i);
    let front = "  ["@ + lines::padded(c.repo@, width as int) + "]  "@ + commit_clock(
        zone,
        c.author_time,
    ) + "  "@ + short_oid(c.oid@) + "  "@;
    let all = commit_text(c, zone, width, prs);
    let x = front + c.subject@ + "   [PR "@ + list.take(i);
    let y = list.skip(i + num.len()) + "]"@;
    assert(all =~= x + num + y);
    text::law_text_is_found_where_it_stands(x, num, y, all, 0);
    let z = pr_suffix(held);
    assert(all =~= front + c.subject@ + z);
    text::law_text_is_found_where_it_stands(front, c.subject@, z, all, 0);
}

/// An identifier of ASCII characters is shortened to its first seven.
pub proof fn law_identifiers_are_cut_after_seven(oid: Seq<char>)
    requires
        forall|i: int| 0 <= i < oid.len() ==> (#[trigger] oid[i]) <= '\u{7f}',
    ensures
        oid.len() <= 7 ==> short_oid(oid) == oid,
        oid.len() > 7 ==> short_oid(oid) == oid.take(7),
{
    lemma_fitting(oid, 7);
}

proof fn lemma_fitting(s: Seq<char>, room: int)
    requires
        room >= 0,
        forall|i: int| 0 <= i < s.len() ==> (#[trigger] s[i]) <= '\u{7f}',
    ensures
        s.len() <= room ==> fitting(s, room) == s,
        s.len() > room ==> fitting(s, room) == s.take(room),
    decreases s.len(),
{
    if s.len() == 0 {
        assert(fitting(s, room) =~= s);
    } else {
        assert(s[0] <= '\u{7f}');
        text::lemma_plain_char(s[0]);
        let rest = s.drop_first();
        assert forall|i: int| 0 <= i < rest.len() implies (#[trigger] rest[i]) <= '\u{7f}' by {
            assert(rest[i] == s[i + 1]);
        }
        if room >= 1 {
            lemma_fitting(rest, room - 1);
            if s.len() <= room {
                assert(fitting(s, room) =~= s);
            } else {
                assert(fitting(s, room) =~= s.take(room));
            }
        } else {
            assert(fitting(s, room) =~= s.take(0));
        }
    }
}

/// The names of repositories get the room of the widest one.
pub proof fn law_the_widest_name_has_room(records: Seq<CommitRecord>, i: int)
    requires
        0 <= i < records.len(),
    ensures
        text::byte_length(records[i].repo@) <= widest(records),
        exists|k: int|
            0 <= k < records.len() && text::byte_length((#[trigger] records[k]).repo@) == widest(
                records,
            ),
    decreases records.len(),
{
    let rest = records.drop_last();
    let last = records.len() - 1;
    assert(records[last] == records.last());
    if i < last {
        law_the_widest_name_has_room(rest, i);
    } else if last > 0 {
        law_the_widest_name_has_room(rest, 0);
    }
    if last > 0 {
        let k = choose|k: int|
            0 <= k < rest.len() && text::byte_length((#[trigger] rest[k]).repo@) == widest(rest);
        assert(records[k] == rest[k]);
    } else {
        assert(widest(rest) == 0);
    }
}

/// What stands below all groups is their total.
pub proof fn law_the_total_stands_last(a: App, groups: Seq<GroupSummary<'_>>, zone: Zone)
    requires
        a.scan_records@.len() > 0,
    ensures
        ({
            let all = summary_lines(a, groups, zone);
            let last = if a.fill_edit is Some {
                all.len() - 2
            } else {
                all.len() - 1
            };
            &&& last >= 0
            &&& all[last].text == "Total: "@ + hours::hours_text(
                within_limits(total_hours(groups, a.hours_overrides)) as int,
            )
            &&& a.fill_edit matches Some(buf) ==> all.last().text == "Fill: "@ + buf@ + "_"@
        }),
{
}

/// The line of a commit tells its repository, its time on the local clock, the start of its
/// identifier and its subject, in this order.
pub proof fn law_commit_lines_tell_the_commit(
    c: CommitRecord,
    zone: Zone,
    width: usize,
    prs: Seq<PrInfo>,
)
    ensures
        ({
            let clock = match zone.moment(c.author_time) {
                Some(at) => dates::clock_text((at.seconds + at.offset) % 86400),
                None => "--:--"@,
            };
            let told = "  ["@ + lines::padded(c.repo@, width as int) + "]  "@ + clock + "  "@
                + short_oid(c.oid@) + "  "@ + c.subject@;
            &&& text::occurs_at(commit_text(c, zone, width, prs), told, 0)
            &&& pr::prs_holding(prs, c.oid@).len() == 0 ==> commit_text(c, zone, width, prs)
                == told
        }),
{
    let all = commit_text(c, zone, width, prs);
    let told = "  ["@ + lines::padded(c.repo@, width as int) + "]  "@ + commit_clock(
        zone,
        c.author_time,
    ) + "  "@ + short_oid(c.oid@) + "  "@ + c.subject@;
    assert(all.subrange(0, told.len() as int) =~= told);
    if pr::prs_holding(prs, c.oid@).len() == 0 {
        assert(all =~= told);
    }
}

} // verus!
