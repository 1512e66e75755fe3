//! A push, and the settings for it, as lines of text.

use vstd::prelude::*;

use crate::dates;
use crate::hours;
use crate::lines;
use crate::lines::{Line, Tone};
use crate::state;
use crate::state::{PushItem, PushStage, SetupState, SetupStep};
use crate::text;
use crate::worklogs;

verus! {

/// Which of the settings is asked for.
pub open spec fn step_label(step: SetupStep) -> Seq<char> {
    match step {
        SetupStep::Url => "step 1/4: base URL"@,
        SetupStep::Email => "step 2/4: email"@,
        SetupStep::Token => "step 3/4: API token"@,
        SetupStep::Statuses => "step 4/4: statuses"@,
    }
}

/// What is typed in, with the token hidden.
pub open spec fn visible_field(s: SetupState) -> Seq<char> {
    if s.step == SetupStep::Token {
        lines::repeated('*', s.token@.len())
    } else {
        worklogs::field(s)
    }
}

/// What is expected.
pub open spec fn step_hint(s: SetupState) -> Seq<char> {
    match s.step {
        SetupStep::Url => "  e.g. https://mycompany.atlassian.net"@,
        SetupStep::Email => "  e.g. you@example.com"@,
        SetupStep::Token => if s.editing {
            "  create at id.atlassian.com → Security → API tokens.  empty = keep current."@
        } else {
            "  create at id.atlassian.com → Security → API tokens.  saved to Keychain."@
        },
        SetupStep::Statuses => "  of the issues in today's plan, e.g. In Progress, Testing"@,
    }
}

pub open spec fn error_lines(error: Option<String>) -> Seq<lines::LineView> {
    match error {
        Some(e) => seq![lines::shown("  "@ + e@, Tone::Bad), lines::blank()],
        None => Seq::empty(),
    }
}

pub open spec fn known_lines(s: SetupState) -> Seq<lines::LineView> {
    (if s.url@.len() > 0 {
        seq![lines::blank(), lines::shown("  url:   "@ + s.url@, Tone::Faint)]
    } else {
        Seq::empty()
    }) + (if s.email@.len() > 0 && s.step != SetupStep::Email {
        seq![lines::shown("  email: "@ + s.email@, Tone::Faint)]
    } else {
        Seq::empty()
    })
}

/// The settings.
pub open spec fn setup_text(s: SetupState) -> Seq<lines::LineView> {
    seq![
        lines::blank(),
        lines::shown(
            "  "@ + (if s.editing {
                "editing"@
            } else {
                "setup"@
            }) + " — "@ + step_label(s.step),
            Tone::Strong,
        ),
        lines::blank(),
        lines::shown("  > "@ + visible_field(s) + "_"@, Tone::Plain),
        lines::blank(),
    ] + error_lines(s.error) + seq![lines::shown(step_hint(s), Tone::Faint)] + known_lines(s)
}

fn typed_field(s: &SetupState) -> (r: String)
    ensures
        r@ == visible_field(*s),
{
    match s.step {
        SetupStep::Url => s.url.clone(),
        SetupStep::Email => s.email.clone(),
        SetupStep::Token => lines::repeat_char('*', s.token.as_str().unicode_len()),
        SetupStep::Statuses => s.statuses.clone(),
    }
}

fn label(step: SetupStep) -> (r: &'static str)
    ensures
        r@ == step_label(step),
{
    match step {
        SetupStep::Url => "step 1/4: base URL",
        SetupStep::Email => "step 2/4: email",
        SetupStep::Token => "step 3/4: API token",
        SetupStep::Statuses => "step 4/4: statuses",
    }
}

fn expected(s: &SetupState) -> (r: &'static str)
    ensures
        r@ == step_hint(*s),
{
    match s.step {
        SetupStep::Url => "  e.g. https://mycompany.atlassian.net",
        SetupStep::Email => "  e.g. you@example.com",
        SetupStep::Token => {
            if s.editing {
                "  create at id.atlassian.com → Security → API tokens.  empty = keep current."
            } else {
                "  create at id.atlassian.com → Security → API tokens.  saved to Keychain."
            }
        },
        SetupStep::Statuses => "  of the issues in today's plan, e.g. In Progress, Testing",
    }
}

/// The settings.
pub fn setup_lines(s: &SetupState) -> (r: Vec<Line>)
    ensures
        lines::line_views(r@) == setup_text(*s),
{
    let mut out = lines::no_lines();
    lines::add_blank(&mut out);
    let mut head = "  ".to_owned();
    head.append(
        if s.editing {
            "editing"
        } else {
            "setup"
        },
    );
    head.append(" — ");
    head.append(label(s.step));
    lines::add_line(&mut out, head, Tone::Strong);
    lines::add_blank(&mut out);
    let mut field = lines::prefixed("  > ", typed_field(s).as_str());
    field.append("_");
    lines::add_line(&mut out, field, Tone::Plain);
    lines::add_blank(&mut out);
    if let Some(e) = &s.error {
        lines::add_line(&mut out, lines::prefixed("  ", e.as_str()), Tone::Bad);
        lines::add_blank(&mut out);
    }
    lines::add_text(&mut out, expected(s), Tone::Faint);
    if s.url.as_str().unicode_len() > 0 {
        lines::add_blank(&mut out);
        lines::add_line(&mut out, lines::prefixed("  url:   ", s.url.as_str()), Tone::Faint);
    }
    if s.email.as_str().unicode_len() > 0 && s.step != SetupStep::Email {
        lines::add_line(&mut out, lines::prefixed("  email: ", s.email.as_str()), Tone::Faint);
    }
    assert(lines::line_views(out@) =~= setup_text(*s));
    out
}

/// A token is never shown, only how long it is.
pub proof fn law_token_is_hidden(a: SetupState, b: SetupState)
    requires
        b == (SetupState { token: b.token, ..a }),
        a.token@.len() == b.token@.len(),
    ensures
        setup_text(a) == setup_text(b),
{
}

/// A worklog in the preview.
pub open spec fn item_line(
    item: PushItem,
    is_checked: bool,
    under_cursor: bool,
) -> lines::LineView {
    lines::shown(
        (if under_cursor {
            "> "@
        } else {
            "  "@
        }) + (if is_checked {
            "[x]"@
        } else {
            "[ ]"@
        }) + "  "@ + item.ticket@ + "  —  "@ + hours::hours_text(
            hours::of_seconds(item.seconds as int) as int,
        ) + "   (start "@ + dates::local_minute(item.started) + ")"@,
        if under_cursor {
            Tone::Selected
        } else if !is_checked {
            Tone::Faint
        } else {
            Tone::Plain
        },
    )
}

pub open spec fn item_lines(items: Seq<PushItem>, checks: Seq<bool>, cursor: int) -> Seq<
    lines::LineView,
> {
    Seq::new(items.len(), |i: int| item_line(items[i], checks[i], i == cursor))
}

/// The seconds of worklogs.
pub open spec fn total_seconds(items: Seq<PushItem>) -> int
    decreases items.len(),
{
    if items.len() == 0 {
        0
    } else {
        total_seconds(items.drop_last()) + items.last().seconds
    }
}

/// The preview.
pub open spec fn preview_text(items: Seq<PushItem>, checks: Seq<bool>, cursor: int) -> Seq<
    lines::LineView,
> {
    let chosen = worklogs::checked(items, checks);
    seq![lines::blank()] + item_lines(items, checks, cursor) + seq![
        lines::blank(),
        lines::shown(
            "  "@ + text::decimal(chosen.len()) + " of "@ + text::decimal(items.len())
                + " ticket"@ + text::plural(items.len() as int) + " — total "@ + hours::hours_text(
                hours::of_seconds(total_seconds(chosen)) as int,
            ),
            Tone::Headline,
        ),
    ]
}

fn add_item(out: &mut Vec<Line>, item: &PushItem, is_checked: bool, under_cursor: bool)
    requires
        item.wf(),
    ensures
        lines::line_views(final(out)@) == lines::line_views(old(out)@).push(
            item_line(*item, is_checked, under_cursor),
        ),
{
    let mut s = if under_cursor {
        "> ".to_owned()
    } else {
        "  ".to_owned()
    };
    s.append(
        if is_checked {
            "[x]"
        } else {
            "[ ]"
        },
    );
    s.append("  ");
    s.append(item.ticket.as_str());
    s.append("  —  ");
    s.append(
        hours::format_hours(hours::seconds_to_duration(item.seconds as u128)).as_str(),
    );
    s.append("   (start ");
    s.append(item.started.to_minute().as_str());
    s.append(")");
    lines::add_line(
        out,
        s,
        if under_cursor {
            Tone::Selected
        } else if !is_checked {
            Tone::Faint
        } else {
            Tone::Plain
        },
    );
}

/// The worklogs that a push would post.
pub fn preview_lines(items: &Vec<PushItem>, checks: &Vec<bool>, cursor: usize) -> (r: Vec<Line>)
    requires
        items@.len() == checks@.len(),
        state::items_wf(items@),
    ensures
        lines::line_views(r@) == preview_text(items@, checks@, cursor as int),
{
    let mut out = lines::no_lines();
    lines::add_blank(&mut out);
    let mut sum: u128 = 0;
    let mut count: usize = 0;
    let ghost top = seq![lines::blank()];
    let ghost all = item_lines(items@, checks@, cursor as int);
    assert(lines::line_views(out@) =~= top + all.take(0));
    for i in 0..items.len()
        invariant
            items@.len() == checks@.len(),
            state::items_wf(items@),
            all == item_lines(items@, checks@, cursor as int),
            lines::line_views(out@) == top + all.take(i as int),
            sum == total_seconds(worklogs::checked(items@.take(i as int), checks@.take(i as int))),
            count == worklogs::checked(items@.take(i as int), checks@.take(i as int)).len(),
            count <= i,
            sum <= i * 0x1_0000_0000_0000_0000,
    {
        let ghost before = worklogs::checked(items@.take(i as int), checks@.take(i as int));
        proof {
            assert(items@.take(i + 1).drop_last() =~= items@.take(i as int));
            assert(checks@.take(i + 1).drop_last() =~= checks@.take(i as int));
            assert(items@.take(i + 1).last() == items@[i as int]);
            assert(checks@.take(i + 1).last() == checks@[i as int]);
            assert(before.push(items@[i as int]).drop_last() =~= before);
        }
        add_item(&mut out, &items[i], checks[i], i == cursor);
        assert(lines::line_views(out@) =~= top + all.take(i + 1));
        if checks[i] {
            sum = sum + items[i].seconds as u128;
            count = count + 1;
        }
    }
    proof {
        assert(items@.take(items@.len() as int) =~= items@);
        assert(checks@.take(items@.len() as int) =~= checks@);
        assert(all.take(all.len() as int) =~= all);
    }
    lines::add_blank(&mut out);
    let mut s = lines::prefixed("  ", text::count_text(count).as_str());
    s.append(" of ");
    s.append(text::count_text(items.len()).as_str());
    s.append(" ticket");
    s.append(text::plural_text(items.len()).as_str());
    s.append(" — total ");
    s.append(hours::format_hours(hours::seconds_to_duration(sum)).as_str());
    lines::add_line(&mut out, s, Tone::Headline);
    assert(lines::line_views(out@) =~= preview_text(items@, checks@, cursor as int));
    out
}

/// The worklogs that are done.
pub open spec fn done_lines(done: Seq<Seq<char>>) -> Seq<lines::LineView> {
    Seq::new(done.len(), |i: int| lines::shown("  ✓ "@ + done[i], Tone::Good))
}

fn add_done(out: &mut Vec<Line>, done: &Vec<String>)
    ensures
        lines::line_views(final(out)@) == lines::line_views(old(out)@) + done_lines(
            text::texts(done@),
        ),
{
    let ghost start = lines::line_views(out@);
    let ghost all = done_lines(text::texts(done@));
    assert(start + all.take(0) =~= start);
    for i in 0..done.len()
        invariant
            all == done_lines(text::texts(done@)),
            lines::line_views(out@) == start + all.take(i as int),
    {
        lines::add_line(out, lines::prefixed("  ✓ ", done[i].as_str()), Tone::Good);
        assert(text::texts(done@)[i as int] == done@[i as int]@);
        assert(lines::line_views(out@) =~= start + all.take(i + 1));
    }
    assert(all.take(all.len() as int) =~= all);
}

/// The worklogs that failed, each in one line.
pub open spec fn failed_lines(failed: Seq<(String, String)>) -> Seq<lines::LineView> {
    Seq::new(
        failed.len(),
        |i: int| lines::shown("  ✗ "@ + failed[i].0@ + "  ("@ + failed[i].1@ + ")"@, Tone::Bad),
    )
}

/// The worklog that is on its way next.
pub open spec fn next_line(queue: Seq<PushItem>) -> Seq<lines::LineView> {
    if queue.len() == 0 {
        Seq::empty()
    } else {
        seq![lines::shown("  … "@ + queue[0].ticket@, Tone::Faint)]
    }
}

/// A push on its way.
pub open spec fn sending_text(
    queue: Seq<PushItem>,
    done: Seq<Seq<char>>,
    failed: Seq<(String, String)>,
) -> Seq<lines::LineView> {
    let completed = done.len() + failed.len();
    seq![
        lines::blank(),
        lines::shown(
            "  posting worklogs: "@ + text::decimal(completed) + "/"@ + text::decimal(
                completed + queue.len(),
            ),
            Tone::Headline,
        ),
        lines::blank(),
    ] + done_lines(done) + failed_lines(failed) + next_line(queue)
}

/// A push on its way.
pub fn sending_lines(
    queue: &Vec<PushItem>,
    done: &Vec<String>,
    failed: &Vec<(String, String)>,
) -> (r: Vec<Line>)
    ensures
        lines::line_views(r@) == sending_text(queue@, text::texts(done@), failed@),
{
    let mut out = lines::no_lines();
    let completed: u128 = done.len() as u128 + failed.len() as u128;
    let total: u128 = completed + queue.len() as u128;
    lines::add_blank(&mut out);
    let mut s = lines::prefixed("  posting worklogs: ", text::decimal_of(completed).as_str());
    s.append("/");
    s.append(text::decimal_of(total).as_str());
    lines::add_line(&mut out, s, Tone::Headline);
    lines::add_blank(&mut out);
    add_done(&mut out, done);
    let ghost top = lines::line_views(out@);
    let ghost all = failed_lines(failed@);
    assert(top + all.take(0) =~= top);
    for i in 0..failed.len()
        invariant
            all == failed_lines(failed@),
            lines::line_views(out@) == top + all.take(i as int),
    {
        let mut s = lines::prefixed("  ✗ ", failed[i].0.as_str());
        s.append("  (");
        s.append(failed[i].1.as_str());
        s.append(")");
        lines::add_line(&mut out, s, Tone::Bad);
        assert(lines::line_views(out@) =~= top + all.take(i + 1));
    }
    assert(all.take(all.len() as int) =~= all);
    if queue.len() > 0 {
        lines::add_line(&mut out, lines::prefixed("  … ", queue[0].ticket.as_str()), Tone::Faint);
    }
    assert(lines::line_views(out@) =~= sending_text(queue@, text::texts(done@), failed@));
    out
}

/// The worklogs that failed, each with the reason below it.
pub open spec fn failure_lines(failed: Seq<(String, String)>) -> Seq<lines::LineView>
    decreases failed.len(),
{
    if failed.len() == 0 {
        Seq::empty()
    } else {
        failure_lines(failed.drop_last()).push(
            lines::shown("  ✗ "@ + failed.last().0@, Tone::Bad),
        ).push(lines::shown("      "@ + failed.last().1@, Tone::Faint))
    }
}

/// A push that is over.
pub open spec fn result_text(done: Seq<Seq<char>>, failed: Seq<(String, String)>) -> Seq<
    lines::LineView,
> {
    seq![
        lines::blank(),
        lines::shown(
            "  done: "@ + text::decimal(done.len()) + " succeeded, "@ + text::decimal(failed.len())
                + " failed"@,
            Tone::Strong,
        ),
        lines::blank(),
    ] + done_lines(done) + (if failed.len() == 0 {
        Seq::empty()
    } else {
        seq![lines::blank()] + failure_lines(failed)
    }) + seq![lines::blank(), lines::shown("  press Enter or Esc to return"@, Tone::Faint)]
}

/// A push that is over.
pub fn result_lines(done: &Vec<String>, failed: &Vec<(String, String)>) -> (r: Vec<Line>)
    ensures
        lines::line_views(r@) == result_text(text::texts(done@), failed@),
{
    let mut out = lines::no_lines();
    lines::add_blank(&mut out);
    let mut s = lines::prefixed("  done: ", text::count_text(done.len()).as_str());
    s.append(" succeeded, ");
    s.append(text::count_text(failed.len()).as_str());
    s.append(" failed");
    lines::add_line(&mut out, s, Tone::Strong);
    lines::add_blank(&mut out);
    add_done(&mut out, done);
    let ghost top = lines::line_views(out@);
    if failed.len() > 0 {
        lines::add_blank(&mut out);
        let ghost mid = lines::line_views(out@);
        assert(mid + failure_lines(failed@.take(0)) =~= mid);
        for i in 0..failed.len()
            invariant
                lines::line_views(out@) == mid + failure_lines(failed@.take(i as int)),
        {
            proof {
                assert(failed@.take(i + 1).drop_last() =~= failed@.take(i as int));
                assert(failed@.take(i + 1).last() == failed@[i as int]);
            }
            lines::add_line(&mut out, lines::prefixed("  ✗ ", failed[i].0.as_str()), Tone::Bad);
            lines::add_line(
                &mut out,
                lines::prefixed("      ", failed[i].1.as_str()),
                Tone::Faint,
            );
            assert(lines::line_views(out@) =~= mid + failure_lines(failed@.take(i + 1)));
        }
        assert(failed@.take(failed@.len() as int) =~= failed@);
        assert(lines::line_views(out@) =~= top + (seq![lines::blank()] + failure_lines(failed@)));
    }
    lines::add_blank(&mut out);
    lines::add_text(&mut out, "  press Enter or Esc to return", Tone::Faint);
    assert(lines::line_views(out@) =~= result_text(text::texts(done@), failed@));
    out
}

/// What is shown of a push.
pub open spec fn push_text(stage: PushStage) -> Seq<lines::LineView> {
    match stage {
        PushStage::Setup(s) => setup_text(s),
        PushStage::Preview { items, checks, cursor } => preview_text(
            items@,
            checks@,
            cursor as int,
        ),
        PushStage::Sending { queue, done, failed } => sending_text(
            queue@,
            text::texts(done@),
            failed@,
        ),
        PushStage::Finished { done, failed } => result_text(text::texts(done@), failed@),
    }
}

/// Every worklog has its line in the preview: whether it is checked, its ticket and its time.
pub proof fn law_every_worklog_is_previewed(
    items: Seq<PushItem>,
    checks: Seq<bool>,
    cursor: int,
    i: int,
)
    requires
        items.len() == checks.len(),
        0 <= i < items.len(),
    ensures
        ({
            let all = preview_text(items, checks, cursor);
            let mark = (if i == cursor {
                "> "@
            } else {
                "  "@
            }) + if checks[i] {
                "[x]"@
            } else {
                "[ ]"@
            };
            let told = mark + "  "@ + items[i].ticket@ + "  —  "@ + hours::hours_text(
                hours::of_seconds(items[i].seconds as int) as int,
            );
            &&& all.len() == items.len() + 3
            &&& text::occurs_at(all[1 + i].text, told, 0)
        }),
{
    let all = preview_text(items, checks, cursor);
    assert(all[1 + i] == item_lines(items, checks, cursor)[i]);
    let line = all[1 + i].text;
    let mark = (if i == cursor {
        "> "@
    } else {
        "  "@
    }) + if checks[i] {
        "[x]"@
    } else {
        "[ ]"@
    };
    let told = mark + "  "@ + items[i].ticket@ + "  —  "@ + hours::hours_text(
        hours::of_seconds(items[i].seconds as int) as int,
    );
    assert(line =~= told + ("   (start "@ + dates::local_minute(items[i].started) + ")"@));
    assert(line.subrange(0, told.len() as int) =~= told);
}

/// The time of worklogs is added up one by one, and only those that are checked count.
pub proof fn law_checked_time_adds_up(
    items: Seq<PushItem>,
    checks: Seq<bool>,
    one: PushItem,
    check: bool,
)
    requires
        items.len() == checks.len(),
    ensures
        total_seconds(worklogs::checked(items.push(one), checks.push(check))) == total_seconds(
            worklogs::checked(items, checks),
        ) + if check {
            one.seconds as int
        } else {
            0
        },
        worklogs::checked(items.push(one), checks.push(check)).len() == worklogs::checked(
            items,
            checks,
        ).len() + if check {
            1int
        } else {
            0
        },
        total_seconds(Seq::empty()) == 0,
{
    assert(items.push(one).drop_last() =~= items);
    assert(checks.push(check).drop_last() =~= checks);
    let rest = worklogs::checked(items, checks);
    assert(rest.push(one).drop_last() =~= rest);
}

/// The preview tells how many worklogs are checked, of how many, and how long they are
/// together.
pub proof fn law_the_preview_tells_the_total(items: Seq<PushItem>, checks: Seq<bool>, cursor: int)
    ensures
        ({
            let chosen = worklogs::checked(items, checks);
            preview_text(items, checks, cursor).last().text == "  "@ + text::decimal(chosen.len())
                + " of "@ + text::decimal(items.len()) + " ticket"@ + text::plural(
                items.len() as int,
            ) + " — total "@ + hours::hours_text(
                hours::of_seconds(total_seconds(chosen)) as int,
            )
        }),
{
}

/// A push on its way tells how many worklogs have an outcome, of how many, and names each: what
/// is done, what failed and why, and what comes next.
pub proof fn law_a_push_tells_how_far_it_is(
    queue: Seq<PushItem>,
    done: Seq<Seq<char>>,
    failed: Seq<(String, String)>,
    i: int,
)
    ensures
        ({
            let all = sending_text(queue, done, failed);
            let d = done.len();
            let f = failed.len();
            &&& all[1].text == "  posting worklogs: "@ + text::decimal((d + f) as nat) + "/"@
                + text::decimal((d + f + queue.len()) as nat)
            &&& 0 <= i < d ==> all[3 + i].text == "  ✓ "@ + done[i]
            &&& 0 <= i < f ==> all[3 + d + i].text == "  ✗ "@ + failed[i].0@ + "  ("@
                + failed[i].1@ + ")"@
            &&& queue.len() > 0 ==> all.last().text == "  … "@ + queue[0].ticket@
            &&& queue.len() == 0 ==> all.len() == 3 + d + f
        }),
{
    let all = sending_text(queue, done, failed);
    let d = done.len();
    let f = failed.len();
    if 0 <= i < d {
        assert(all[3 + i] == done_lines(done)[i]);
    }
    if 0 <= i < f {
        assert(all[3 + d + i] == failed_lines(failed)[i]);
    }
}

proof fn lemma_failure_lines(failed: Seq<(String, String)>, i: int)
    ensures
        failure_lines(failed).len() == 2 * failed.len(),
        0 <= i < failed.len() ==> failure_lines(failed)[2 * i].text == "  ✗ "@ + failed[i].0@
            && failure_lines(failed)[2 * i + 1].text == "      "@ + failed[i].1@,
    decreases failed.len(),
{
    if failed.len() > 0 {
        lemma_failure_lines(failed.drop_last(), i);
    }
}

/// A push that is over tells how many worklogs are done and how many failed, and names each, with
/// the reason below what failed.
pub proof fn law_a_push_tells_what_became_of_it(
    done: Seq<Seq<char>>,
    failed: Seq<(String, String)>,
    i: int,
)
    ensures
        ({
            let all = result_text(done, failed);
            let d = done.len();
            &&& all[1].text == "  done: "@ + text::decimal(done.len()) + " succeeded, "@
                + text::decimal(failed.len()) + " failed"@
            &&& 0 <= i < d ==> all[3 + i].text == "  ✓ "@ + done[i]
            &&& 0 <= i < failed.len() ==> all[4 + d + 2 * i].text == "  ✗ "@ + failed[i].0@ && all[5
                + d + 2 * i].text == "      "@ + failed[i].1@
        }),
{
    let all = result_text(done, failed);
    let d = done.len();
    lemma_failure_lines(failed, i);
    if 0 <= i < d {
        assert(all[3 + i] == done_lines(done)[i]);
    }
    if 0 <= i < failed.len() {
        assert(all[4 + d + 2 * i] == failure_lines(failed)[2 * i]);
        assert(all[5 + d + 2 * i] == failure_lines(failed)[2 * i + 1]);
    }
}

} // verus!
