//! The standup as lines of text.

use vstd::prelude::*;

use crate::dates;
use crate::hours;
use crate::jira::IssueInfo;
use crate::lines;
use crate::lines::{Line, Tone};
use crate::pr::PrInfo;
use crate::report;
use crate::report::GroupSummary;
use crate::scanner::CommitRecord;
use crate::standup;
use crate::state::StandupView;
use crate::summary;
use crate::text;

verus! {

/// How many commits a bullet names.
pub const MOST_SUBJECTS: usize = 3;

/// `s` without the prefix at its start, however often it stands there.
pub open spec fn without_prefix(s: Seq<char>, prefix: Seq<char>) -> Seq<char>
    decreases s.len(),
{
    if prefix.len() > 0 && text::occurs_at(s, prefix, 0) {
        without_prefix(s.skip(prefix.len() as int), prefix)
    } else {
        s
    }
}

fn strip_prefix(s: &str, prefix: &str) -> (r: String)
    requires
        prefix@.len() > 0,
    ensures
        r@ == without_prefix(s@, prefix@),
{
    let mut out = s.to_owned();
    let k = prefix.unicode_len();
    while text::starts_with_text(out.as_str(), prefix)
        invariant
            k == prefix@.len(),
            k > 0,
            without_prefix(out@, prefix@) == without_prefix(s@, prefix@),
        decreases out@.len(),
    {
        let n = out.as_str().unicode_len();
        let rest = out.as_str().substring_char(k, n).to_owned();
        assert(rest@ =~= out@.skip(k as int));
        out = rest;
    }
    out
}

/// The subject of a commit, without the ticket that it is listed under.
pub open spec fn plain_subject(c: CommitRecord, ticket: Seq<char>) -> Seq<char> {
    text::trim(without_prefix(c.subject@, ticket + ":"@))
}

/// The subjects of commits that say anything.
pub open spec fn subjects(commits: Seq<&CommitRecord>, ticket: Seq<char>) -> Seq<Seq<char>>
    decreases commits.len(),
{
    if commits.len() == 0 {
        Seq::empty()
    } else {
        let s = plain_subject(*commits.last(), ticket);
        if s.len() == 0 {
            subjects(commits.drop_last(), ticket)
        } else {
            subjects(commits.drop_last(), ticket).push(s)
        }
    }
}

/// The commits that a bullet names.
pub open spec fn named(commits: Seq<&CommitRecord>) -> Seq<&CommitRecord> {
    if commits.len() <= MOST_SUBJECTS {
        commits
    } else {
        commits.take(MOST_SUBJECTS as int)
    }
}

/// What commits are about, in one sentence.
pub open spec fn sentence(commits: Seq<&CommitRecord>, ticket: Seq<char>) -> Seq<char> {
    let parts = subjects(named(commits), ticket);
    let n = commits.len();
    if parts.len() == 0 {
        text::decimal(n) + " commit"@ + text::plural(n as int)
    } else if n > parts.len() {
        text::joined(parts, ", "@) + "… (+"@ + text::decimal((n - parts.len()) as nat)
            + " more)"@
    } else {
        text::joined(parts, ", "@)
    }
}

proof fn lemma_subjects_len(commits: Seq<&CommitRecord>, ticket: Seq<char>)
    ensures
        subjects(commits, ticket).len() <= commits.len(),
    decreases commits.len(),
{
    if commits.len() > 0 {
        lemma_subjects_len(commits.drop_last(), ticket);
    }
}

/// What commits are about: the subjects of the first three, and how many more
/// there are. The ticket that they are listed under is left out.
pub fn summarise_commits(commits: &[&CommitRecord], ticket: &str) -> (r: String)
    ensures
        r@ == sentence(commits@, ticket@),
{
    let n = commits.len();
    let m: usize = if n <= MOST_SUBJECTS {
        n
    } else {
        MOST_SUBJECTS
    };
    let mut prefix = ticket.to_owned();
    prefix.append(":");
    proof {
        reveal_strlit(":");
    }
    let mut parts: Vec<String> = Vec::new();
    assert(text::texts(parts@) =~= Seq::empty());
    let ghost all = commits@.take(m as int);
    assert(all =~= named(commits@));
    for i in 0..m
        invariant
            m <= commits@.len(),
            all == commits@.take(m as int),
            prefix@ == ticket@ + ":"@,
            prefix@.len() > 0,
            text::texts(parts@) == subjects(all.take(i as int), ticket@),
    {
        proof {
            assert(all.take(i + 1).drop_last() =~= all.take(i as int));
            assert(all.take(i + 1).last() == commits@[i as int]);
        }
        let bare = strip_prefix(commits[i].subject.as_str(), prefix.as_str());
        let s = text::trimmed(bare.as_str());
        if s.unicode_len() > 0 {
            let ghost before = text::texts(parts@);
            parts.push(s.to_owned());
            assert(text::texts(parts@) =~= before.push(s@));
        }
    }
    proof {
        assert(all.take(m as int) =~= all);
        lemma_subjects_len(all, ticket@);
        assert(text::texts(parts@).len() == parts@.len());
    }
    if parts.len() == 0 {
        let mut out = text::count_text(n);
        out.append(" commit");
        out.append(text::plural_text(n).as_str());
        return out;
    }
    let mut out = text::join_texts(&parts, ", ");
    if n > parts.len() {
        out.append("… (+");
        out.append(text::count_text(n - parts.len()).as_str());
        out.append(" more)");
    }
    out
}

/// A ticket in one line: its hours, or how many commits it has that are not pushed
/// yet, and what they are about.
pub open spec fn bullet(g: GroupSummary<'_>, unpushed: bool) -> lines::LineView {
    lines::shown(
        if unpushed {
            "  • "@ + g.ticket@ + " ("@ + text::decimal(g.commits@.len()) + " unpushed): "@
                + sentence(g.commits@, g.ticket@)
        } else {
            "  • "@ + g.ticket@ + " ("@ + hours::hours_text(g.gap.value as int) + "): "@
                + sentence(g.commits@, g.ticket@)
        },
        Tone::Plain,
    )
}

pub open spec fn bullets(groups: Seq<GroupSummary<'_>>, unpushed: bool) -> Seq<lines::LineView> {
    Seq::new(groups.len(), |i: int| bullet(groups[i], unpushed))
}

/// Adds the line of a ticket.
pub fn append_ticket_bullet(out: &mut Vec<Line>, g: &GroupSummary<'_>, unpushed: bool)
    ensures
        lines::line_views(final(out)@) == lines::line_views(old(out)@).push(bullet(*g, unpushed)),
{
    let mut s = lines::prefixed("  • ", g.ticket.as_str());
    s.append(" (");
    if unpushed {
        s.append(text::count_text(g.commits.len()).as_str());
        s.append(" unpushed): ");
    } else {
        s.append(g.gap.display().as_str());
        s.append("): ");
    }
    s.append(summarise_commits(g.commits.as_slice(), g.ticket.as_str()).as_str());
    lines::add_line(out, s, Tone::Plain);
}

fn add_bullets(out: &mut Vec<Line>, groups: &Vec<GroupSummary<'_>>, unpushed: bool)
    ensures
        lines::line_views(final(out)@) == lines::line_views(old(out)@) + bullets(
            groups@,
            unpushed,
        ),
{
    let ghost start = lines::line_views(out@);
    let ghost all = bullets(groups@, unpushed);
    assert(start + all.take(0) =~= start);
    for i in 0..groups.len()
        invariant
            all == bullets(groups@, unpushed),
            lines::line_views(out@) == start + all.take(i as int),
    {
        append_ticket_bullet(out, &groups[i], unpushed);
        assert(lines::line_views(out@) =~= start + all.take(i + 1));
    }
    assert(all.take(all.len() as int) =~= all);
}

/// The hours of groups by themselves.
pub open spec fn own_hours(groups: Seq<GroupSummary<'_>>) -> Seq<i64> {
    Seq::new(groups.len(), |i: int| groups[i].gap.value)
}

fn sum_own_hours(groups: &Vec<GroupSummary<'_>>) -> (r: i64)
    ensures
        r == summary::within_limits(report::total(own_hours(groups@))),
{
    let mut values: Vec<i64> = Vec::new();
    let ghost all = own_hours(groups@);
    for i in 0..groups.len()
        invariant
            all == own_hours(groups@),
            values@ == all.take(i as int),
    {
        values.push(groups[i].gap.value);
        assert(values@ =~= all.take(i + 1));
    }
    assert(all.take(all.len() as int) =~= all);
    summary::sum_durations(&values)
}

/// What was done yesterday.
pub open spec fn yesterday_lines(v: StandupView, groups: Seq<GroupSummary<'_>>) -> Seq<
    lines::LineView,
> {
    let day = "  Yesterday ("@ + dates::spoken_text(v.report.yesterday);
    seq![
        lines::blank(),
        lines::shown(
            if v.report.yesterday_records@.len() == 0 {
                day + ") — nothing committed"@
            } else {
                day + ") — "@ + hours::hours_text(
                    summary::within_limits(report::total(own_hours(groups))) as int,
                ) + " total"@
            },
            Tone::Headline,
        ),
        lines::blank(),
    ] + if v.report.yesterday_records@.len() == 0 {
        Seq::empty()
    } else {
        bullets(groups, false)
    }
}

/// What is in flight.
pub open spec fn in_flight_lines(v: StandupView, groups: Seq<GroupSummary<'_>>) -> Seq<
    lines::LineView,
> {
    seq![
        lines::blank(),
        lines::shown(
            if v.report.in_flight_records@.len() == 0 {
                "  Today — nothing in flight, all pushed"@
            } else {
                "  Today — in-flight (unpushed)"@
            },
            Tone::Headline,
        ),
        lines::blank(),
    ] + if v.report.in_flight_records@.len() == 0 {
        Seq::empty()
    } else {
        bullets(groups, true)
    }
}

/// The numbers of the pull requests at some positions.
pub open spec fn numbers_at(prs: Seq<PrInfo>, at: Seq<usize>) -> Seq<Seq<char>> {
    Seq::new(at.len(), |i: int| "#"@ + text::decimal(prs[at[i] as int].number as nat))
}

/// An issue in one line, with its pull requests.
pub open spec fn issue_line(issue: IssueInfo, prs: Seq<PrInfo>, at: Seq<usize>) -> lines::LineView {
    let start = "  • "@ + issue.key@ + " ("@ + issue.status@ + "): "@ + issue.summary@;
    lines::shown(
        if at.len() == 0 {
            start
        } else {
            start + "   [PR "@ + text::joined(numbers_at(prs, at), ", "@) + "]"@
        },
        Tone::Plain,
    )
}

/// A pull request in one line.
pub open spec fn pr_line(pr: PrInfo) -> lines::LineView {
    lines::shown("  • PR #"@ + text::decimal(pr.number as nat) + ": "@ + pr.title@, Tone::Plain)
}

pub open spec fn issue_lines(v: StandupView) -> Seq<lines::LineView> {
    Seq::new(
        v.issues@.len(),
        |i: int| issue_line(v.issues@[i], v.prs@, v.plan.items@[i]@),
    )
}

pub open spec fn pr_lines(v: StandupView) -> Seq<lines::LineView> {
    Seq::new(
        v.plan.standalone@.len(),
        |i: int| pr_line(v.prs@[v.plan.standalone@[i] as int]),
    )
}

/// What is planned.
pub open spec fn plan_lines(v: StandupView) -> Seq<lines::LineView> {
    seq![
        lines::blank(),
        lines::shown(
            if issue_lines(v).len() + pr_lines(v).len() == 0 {
                "  Today — nothing planned"@
            } else {
                "  Today — plan"@
            },
            Tone::Headline,
        ),
        lines::blank(),
    ] + issue_lines(v) + pr_lines(v)
}

/// The whole standup.
pub open spec fn standup_text(
    v: StandupView,
    yesterday: Seq<GroupSummary<'_>>,
    in_flight: Seq<GroupSummary<'_>>,
) -> Seq<lines::LineView> {
    yesterday_lines(v, yesterday) + in_flight_lines(v, in_flight) + plan_lines(v)
}

fn add_yesterday(out: &mut Vec<Line>, v: &StandupView, groups: &Vec<GroupSummary<'_>>)
    requires
        v.wf(),
    ensures
        lines::line_views(final(out)@) == lines::line_views(old(out)@) + yesterday_lines(
            *v,
            groups@,
        ),
{
    let ghost start = lines::line_views(out@);
    lines::add_blank(out);
    let mut s = lines::prefixed("  Yesterday (", v.report.yesterday.spoken().as_str());
    let empty = v.report.yesterday_records.len() == 0;
    if empty {
        s.append(") — nothing committed");
    } else {
        s.append(") — ");
        s.append(hours::format_hours(sum_own_hours(groups)).as_str());
        s.append(" total");
    }
    lines::add_line(out, s, Tone::Headline);
    lines::add_blank(out);
    if !empty {
        add_bullets(out, groups, false);
    }
    assert(lines::line_views(out@) =~= start + yesterday_lines(*v, groups@));
}

fn add_in_flight(out: &mut Vec<Line>, v: &StandupView, groups: &Vec<GroupSummary<'_>>)
    ensures
        lines::line_views(final(out)@) == lines::line_views(old(out)@) + in_flight_lines(
            *v,
            groups@,
        ),
{
    let ghost start = lines::line_views(out@);
    lines::add_blank(out);
    let empty = v.report.in_flight_records.len() == 0;
    if empty {
        lines::add_text(out, "  Today — nothing in flight, all pushed", Tone::Headline);
    } else {
        lines::add_text(out, "  Today — in-flight (unpushed)", Tone::Headline);
    }
    lines::add_blank(out);
    if !empty {
        add_bullets(out, groups, true);
    }
    assert(lines::line_views(out@) =~= start + in_flight_lines(*v, groups@));
}

fn numbers(prs: &Vec<PrInfo>, at: &Vec<usize>) -> (r: Vec<String>)
    requires
        forall|i: int| 0 <= i < at@.len() ==> #[trigger] at@[i] < prs@.len(),
    ensures
        text::texts(r@) == numbers_at(prs@, at@),
{
    let mut out: Vec<String> = Vec::new();
    let ghost all = numbers_at(prs@, at@);
    assert(text::texts(out@) =~= all.take(0));
    for i in 0..at.len()
        invariant
            forall|i: int| 0 <= i < at@.len() ==> #[trigger] at@[i] < prs@.len(),
            all == numbers_at(prs@, at@),
            text::texts(out@) == all.take(i as int),
    {
        let n = lines::prefixed("#", text::decimal_text(prs[at[i]].number).as_str());
        let ghost before = text::texts(out@);
        let ghost last = n@;
        out.push(n);
        assert(text::texts(out@) =~= before.push(last));
        assert(all.take(i + 1) =~= before.push(all[i as int]));
    }
    assert(all.take(all.len() as int) =~= all);
    out
}

fn add_issue(out: &mut Vec<Line>, issue: &IssueInfo, prs: &Vec<PrInfo>, at: &Vec<usize>)
    requires
        forall|i: int| 0 <= i < at@.len() ==> #[trigger] at@[i] < prs@.len(),
    ensures
        lines::line_views(final(out)@) == lines::line_views(old(out)@).push(
            issue_line(*issue, prs@, at@),
        ),
{
    let mut s = lines::prefixed("  • ", issue.key.as_str());
    s.append(" (");
    s.append(issue.status.as_str());
    s.append("): ");
    s.append(issue.summary.as_str());
    if at.len() > 0 {
        s.append("   [PR ");
        s.append(text::join_texts(&numbers(prs, at), ", ").as_str());
        s.append("]");
    }
    lines::add_line(out, s, Tone::Plain);
}

fn add_plan(out: &mut Vec<Line>, v: &StandupView)
    requires
        v.wf(),
    ensures
        lines::line_views(final(out)@) == lines::line_views(old(out)@) + plan_lines(*v),
{
    let ghost start = lines::line_views(out@);
    let n = v.issues.len();
    let m = v.plan.standalone.len();
    lines::add_blank(out);
    if n == 0 && m == 0 {
        lines::add_text(out, "  Today — nothing planned", Tone::Headline);
    } else {
        lines::add_text(out, "  Today — plan", Tone::Headline);
    }
    lines::add_blank(out);
    let ghost top = lines::line_views(out@);
    let ghost all = issue_lines(*v);
    let total = v.prs.len();
    assert(top + all.take(0) =~= top);
    for i in 0..n
        invariant
            v.wf(),
            n == v.issues@.len(),
            total == v.prs@.len(),
            all == issue_lines(*v),
            lines::line_views(out@) == top + all.take(i as int),
    {
        proof {
            standup::lemma_plan_in_range(v.issues@, v.prs@, v.plan);
        }
        add_issue(out, &v.issues[i], &v.prs, &v.plan.items[i]);
        assert(lines::line_views(out@) =~= top + all.take(i + 1));
    }
    assert(all.take(n as int) =~= all);
    let ghost mid = lines::line_views(out@);
    let ghost rest = pr_lines(*v);
    assert(mid + rest.take(0) =~= mid);
    for i in 0..m
        invariant
            v.wf(),
            m == v.plan.standalone@.len(),
            total == v.prs@.len(),
            rest == pr_lines(*v),
            lines::line_views(out@) == mid + rest.take(i as int),
    {
        proof {
            standup::lemma_plan_in_range(v.issues@, v.prs@, v.plan);
        }
        let pr = &v.prs[v.plan.standalone[i]];
        let mut s = lines::prefixed("  • PR #", text::decimal_text(pr.number).as_str());
        s.append(": ");
        s.append(pr.title.as_str());
        lines::add_line(out, s, Tone::Plain);
        assert(lines::line_views(out@) =~= mid + rest.take(i + 1));
    }
    assert(rest.take(m as int) =~= rest);
    assert(lines::line_views(out@) =~= start + plan_lines(*v));
}

/// The standup, with the groups of yesterday's commits and of those in flight.
pub fn standup_lines(
    v: &StandupView,
    yesterday: &Vec<GroupSummary<'_>>,
    in_flight: &Vec<GroupSummary<'_>>,
) -> (r: Vec<Line>)
    requires
        v.wf(),
    ensures
        lines::line_views(r@) == standup_text(*v, yesterday@, in_flight@),
{
    let mut out = lines::no_lines();
    add_yesterday(&mut out, v, yesterday);
    add_in_flight(&mut out, v, in_flight);
    add_plan(&mut out, v);
    assert(lines::line_views(out@) =~= standup_text(*v, yesterday@, in_flight@));
    out
}

/// A prefix is taken off the start of a text, however often it stands there, and nothing else.
pub proof fn law_prefixes_are_taken_off(s: Seq<char>, prefix: Seq<char>)
    requires
        prefix.len() > 0,
    ensures
        without_prefix(prefix + s, prefix) == without_prefix(s, prefix),
        !text::occurs_at(s, prefix, 0) ==> without_prefix(s, prefix) == s,
{
    let all = prefix + s;
    assert(all.subrange(0, prefix.len() as int) =~= prefix);
    assert(all.skip(prefix.len() as int) =~= s);
}

/// The subjects of commits are taken one by one, in order, without the ticket in front of them;
/// one that says nothing else is left out.
pub proof fn law_subjects_are_taken_one_by_one(
    a: Seq<&CommitRecord>,
    b: Seq<&CommitRecord>,
    c: &CommitRecord,
    ticket: Seq<char>,
)
    ensures
        subjects(a + b, ticket) == subjects(a, ticket) + subjects(b, ticket),
        ({
            let bare = text::trim(without_prefix(c.subject@, ticket + ":"@));
            &&& bare.len() > 0 ==> subjects(seq![c], ticket) == seq![bare]
            &&& bare.len() == 0 ==> subjects(seq![c], ticket) == Seq::<Seq<char>>::empty()
        }),
    decreases b.len(),
{
    let single = seq![c];
    assert(single.drop_last() =~= Seq::empty());
    reveal_with_fuel(subjects, 2);
    if plain_subject(*c, ticket).len() > 0 {
        assert(subjects(single, ticket) =~= seq![plain_subject(*c, ticket)]);
    }
    if b.len() == 0 {
        assert(a + b =~= a);
        assert(subjects(a + b, ticket) =~= subjects(a, ticket) + subjects(b, ticket));
    } else {
        law_subjects_are_taken_one_by_one(a, b.drop_last(), c, ticket);
        assert((a + b).drop_last() =~= a + b.drop_last());
        assert((a + b).last() == b.last());
        assert(subjects(a + b, ticket) =~= subjects(a, ticket) + subjects(b, ticket));
    }
}

proof fn lemma_subject_taken(commits: Seq<&CommitRecord>, ticket: Seq<char>, k: int) -> (n: int)
    requires
        0 <= k < commits.len(),
        plain_subject(*commits[k], ticket).len() > 0,
    ensures
        0 <= n < subjects(commits, ticket).len(),
        subjects(commits, ticket)[n] == plain_subject(*commits[k], ticket),
    decreases commits.len(),
{
    let rest = commits.drop_last();
    if k < rest.len() {
        assert(rest[k] == commits[k]);
        lemma_subject_taken(rest, ticket, k)
    } else {
        subjects(rest, ticket).len() as int
    }
}

/// A sentence on commits names what each of the first three is about.
pub proof fn law_the_first_three_are_named(commits: Seq<&CommitRecord>, ticket: Seq<char>, k: int)
    requires
        0 <= k < commits.len(),
        k < 3,
        text::trim(without_prefix(commits[k].subject@, ticket + ":"@)).len() > 0,
    ensures
        text::has_text(
            sentence(commits, ticket),
            text::trim(without_prefix(commits[k].subject@, ticket + ":"@)),
        ),
{
    let some = named(commits);
    let parts = subjects(some, ticket);
    let list = text::joined(parts, ", "@);
    let s = plain_subject(*commits[k], ticket);
    assert(some[k] == commits[k]);
    let n = lemma_subject_taken(some, ticket, k);
    text::law_joined_parts_are_there(parts, ", "@, n);
    let i = choose|i: int| text::occurs_at(list, s, i);
    let all = sentence(commits, ticket);
    assert(all.subrange(i, i + s.len()) =~= list.subrange(i, i + s.len()));
    assert(text::occurs_at(all, s, i));
}

/// A sentence on commits says how many it does not name: those behind the third, and those
/// without a subject. Where it names none, it says how many there are.
pub proof fn law_the_others_are_counted(commits: Seq<&CommitRecord>, ticket: Seq<char>) -> (told:
    int)
    ensures
        0 <= told <= 3,
        told <= commits.len(),
        told == 0 ==> sentence(commits, ticket) == text::decimal(commits.len()) + " commit"@
            + text::plural(commits.len() as int),
        commits.len() > told > 0 ==> ({
            let all = sentence(commits, ticket);
            let end = "… (+"@ + text::decimal((commits.len() - told) as nat) + " more)"@;
            all.len() >= end.len() && all.skip(all.len() - end.len()) == end
        }),
        commits.len() <= 3 && (forall|k: int|
            0 <= k < commits.len() ==> text::trim(
                without_prefix((#[trigger] commits[k]).subject@, ticket + ":"@),
            ).len() > 0) ==> told == commits.len(),
        commits.len() > 3 && (forall|k: int|
            0 <= k < 3 ==> text::trim(
                without_prefix((#[trigger] commits[k]).subject@, ticket + ":"@),
            ).len() > 0) ==> told == 3,
{
    let some = named(commits);
    let parts = subjects(some, ticket);
    let told = parts.len() as int;
    lemma_subjects_len(some, ticket);
    if commits.len() > told && told > 0 {
        let all = sentence(commits, ticket);
        let end = "… (+"@ + text::decimal((commits.len() - told) as nat) + " more)"@;
        assert(all =~= text::joined(parts, ", "@) + end);
        assert(all.skip(all.len() - end.len()) =~= end);
    }
    if forall|k: int|
        0 <= k < some.len() ==> plain_subject(*(#[trigger] some[k]), ticket).len() > 0 {
        lemma_all_subjects(some, ticket);
    }
    if commits.len() <= 3 && (forall|k: int|
        0 <= k < commits.len() ==> text::trim(
            without_prefix((#[trigger] commits[k]).subject@, ticket + ":"@),
        ).len() > 0) {
        assert forall|k: int| 0 <= k < some.len() implies plain_subject(
            *(#[trigger] some[k]),
            ticket,
        ).len() > 0 by {
            assert(some[k] == commits[k]);
        }
    }
    if commits.len() > 3 && (forall|k: int|
        0 <= k < 3 ==> text::trim(
            without_prefix((#[trigger] commits[k]).subject@, ticket + ":"@),
        ).len() > 0) {
        assert forall|k: int| 0 <= k < some.len() implies plain_subject(
            *(#[trigger] some[k]),
            ticket,
        ).len() > 0 by {
            assert(some[k] == commits[k]);
        }
    }
    told
}

proof fn lemma_all_subjects(commits: Seq<&CommitRecord>, ticket: Seq<char>)
    requires
        forall|k: int|
            0 <= k < commits.len() ==> plain_subject(*(#[trigger] commits[k]), ticket).len() > 0,
    ensures
        subjects(commits, ticket).len() == commits.len(),
    decreases commits.len(),
{
    if commits.len() > 0 {
        let rest = commits.drop_last();
        assert(plain_subject(*commits[commits.len() - 1], ticket).len() > 0);
        assert forall|k: int| 0 <= k < rest.len() implies plain_subject(
            *(#[trigger] rest[k]),
            ticket,
        ).len() > 0 by {
            assert(rest[k] == commits[k]);
        }
        lemma_all_subjects(rest, ticket);
    }
}

/// Every ticket of yesterday has its line in the standup, with its hours, and every ticket in
/// flight has one, with how many of its commits are not pushed.
pub proof fn law_every_ticket_has_its_line(
    v: StandupView,
    yesterday: Seq<GroupSummary<'_>>,
    in_flight: Seq<GroupSummary<'_>>,
    i: int,
)
    ensures
        ({
            let all = standup_text(v, yesterday, in_flight);
            let n = if v.report.yesterday_records@.len() == 0 {
                0int
            } else {
                yesterday.len() as int
            };
            &&& 0 <= i < n ==> 3 + i < all.len() && all[3 + i].text == "  • "@
                + yesterday[i].ticket@ + " ("@ + hours::hours_text(yesterday[i].gap.value as int)
                + "): "@ + sentence(yesterday[i].commits@, yesterday[i].ticket@)
            &&& v.report.in_flight_records@.len() > 0 && 0 <= i < in_flight.len() ==> 6 + n + i
                < all.len() && all[6 + n + i].text == "  • "@ + in_flight[i].ticket@ + " ("@
                + text::decimal(in_flight[i].commits@.len()) + " unpushed): "@ + sentence(
                in_flight[i].commits@,
                in_flight[i].ticket@,
            )
        }),
{
    let all = standup_text(v, yesterday, in_flight);
    let first = yesterday_lines(v, yesterday);
    let second = in_flight_lines(v, in_flight);
    let n = if v.report.yesterday_records@.len() == 0 {
        0int
    } else {
        yesterday.len() as int
    };
    assert(first.len() == 3 + n);
    if 0 <= i < n {
        assert(first[3 + i] == bullets(yesterday, false)[i]);
        assert(all[3 + i] == first[3 + i]);
    }
    if v.report.in_flight_records@.len() > 0 && 0 <= i < in_flight.len() {
        assert(second[3 + i] == bullets(in_flight, true)[i]);
        assert(all[6 + n + i] == second[3 + i]);
    }
}

/// Every issue has its line in the plan, with its key, its status and what it is about, and with
/// the number of every pull request that is planned with it.
pub proof fn law_every_issue_has_its_line(v: StandupView, i: int, k: int)
    requires
        v.wf(),
        0 <= i < v.issues@.len(),
    ensures
        ({
            let all = plan_lines(v);
            let start = "  • "@ + v.issues@[i].key@ + " ("@ + v.issues@[i].status@ + "): "@
                + v.issues@[i].summary@;
            &&& 3 + i < all.len()
            &&& text::occurs_at(all[3 + i].text, start, 0)
            &&& v.plan.items@[i]@.len() == 0 ==> all[3 + i].text == start
            &&& 0 <= k < v.plan.items@[i]@.len() ==> text::has_text(
                all[3 + i].text,
                "#"@ + text::decimal(v.prs@[v.plan.items@[i]@[k] as int].number as nat),
            )
        }),
{
    let all = plan_lines(v);
    let at = v.plan.items@[i]@;
    let start = "  • "@ + v.issues@[i].key@ + " ("@ + v.issues@[i].status@ + "): "@
        + v.issues@[i].summary@;
    assert(all[3 + i] == issue_lines(v)[i]);
    let line = all[3 + i].text;
    assert(line == issue_line(v.issues@[i], v.prs@, at).text);
    assert(line.subrange(0, start.len() as int) =~= start);
    if 0 <= k < at.len() {
        let nums = numbers_at(v.prs@, at);
        let list = text::joined(nums, ", "@);
        let num = "#"@ + text::decimal(v.prs@[at[k] as int].number as nat);
        assert(nums[k] == num);
        text::law_joined_parts_are_there(nums, ", "@, k);
        let p = choose|p: int| text::occurs_at(list, num, p);
        text::law_text_is_found_where_it_stands(num, num, num, list, p);
        let x = start + "   [PR "@ + list.take(p);
        let y = list.skip(p + num.len()) + "]"@;
        assert(line =~= x + num + y);
        text::law_text_is_found_where_it_stands(x, num, y, line, 0);
    }
}

/// Every pull request that is planned by itself has its line behind those of the issues, with
/// its number and its title.
pub proof fn law_every_other_pull_request_has_its_line(v: StandupView, k: int)
    requires
        0 <= k < v.plan.standalone@.len(),
    ensures
        ({
            let all = plan_lines(v);
            let pr = v.prs@[v.plan.standalone@[k] as int];
            let n = 3 + v.issues@.len() + k;
            &&& n < all.len()
            &&& all[n].text == "  • PR #"@ + text::decimal(pr.number as nat) + ": "@ + pr.title@
        }),
{
    let all = plan_lines(v);
    assert(all[3 + v.issues@.len() + k] == pr_lines(v)[k]);
}

/// The headline of yesterday tells the sum of the hours of its tickets.
pub proof fn law_yesterday_tells_the_sum(
    v: StandupView,
    groups: Seq<GroupSummary<'_>>,
    g: GroupSummary<'_>,
)
    ensures
        report::total(own_hours(groups.push(g))) == report::total(own_hours(groups)) + g.gap.value,
        v.report.yesterday_records@.len() > 0 ==> yesterday_lines(v, groups)[1].text
            == "  Yesterday ("@ + dates::spoken_text(v.report.yesterday) + ") — "@
            + hours::hours_text(
            summary::within_limits(report::total(own_hours(groups))) as int,
        ) + " total"@,
        v.report.yesterday_records@.len() == 0 ==> yesterday_lines(v, groups).len() == 3,
{
    let all = own_hours(groups.push(g));
    assert(all.drop_last() =~= own_hours(groups));
}

} // verus!
