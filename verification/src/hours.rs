//! Durations: how they are written and read, and how long a group of commits
//! took.
//!
//! A duration is a whole number of microseconds.

use vstd::prelude::*;

use crate::number;
use crate::number::Amount;
use crate::scanner::CommitRecord;
use crate::text;

verus! {

pub const SECOND: i64 = 1_000_000;

pub const MINUTE: i64 = 60_000_000;

pub const HOUR: i64 = 3_600_000_000;

/// A duration, and how it came about.
#[derive(Debug)]
pub struct Hours {
    pub value: i64,
    pub detail: String,
}

impl Clone for Hours {
    fn clone(&self) -> (r: Self)
        ensures
            r == *self,
    {
        Hours { value: self.value, detail: self.detail.clone() }
    }
}

impl Hours {
    /// The duration in hours and minutes.
    pub fn display(&self) -> (r: String)
        ensures
            r@ == hours_text(self.value as int),
    {
        format_hours(self.value)
    }

    /// No time at all.
    pub fn zero(detail: &str) -> (r: Hours)
        ensures
            r.value == 0,
            r.detail@ == detail@,
    {
        Hours { value: 0, detail: detail.to_owned() }
    }
}

/// `v` in minutes, rounded to the nearest one; halfway, away from zero.
pub open spec fn rounded_minutes(v: int) -> int {
    if v >= 0 {
        (v + MINUTE / 2) / (MINUTE as int)
    } else {
        -((-v + MINUTE / 2) / (MINUTE as int))
    }
}

/// `minutes` as `7m`, `1h` or `1h 15m`.
pub open spec fn minutes_text(minutes: int) -> Seq<char> {
    if minutes < 60 {
        text::signed_decimal(minutes) + seq!['m']
    } else if minutes % 60 == 0 {
        text::decimal((minutes / 60) as nat) + seq!['h']
    } else {
        text::decimal((minutes / 60) as nat) + seq!['h', ' '] + text::decimal(
            (minutes % 60) as nat,
        ) + seq!['m']
    }
}

/// How a duration is written.
pub open spec fn hours_text(v: int) -> Seq<char> {
    minutes_text(rounded_minutes(v))
}

/// `v` in minutes, rounded to the nearest one.
pub fn nearest_minutes(v: i64) -> (r: i64)
    ensures
        r == rounded_minutes(v as int),
{
    if v >= 0 {
        ((v as i128 + 30_000_000) / 60_000_000) as i64
    } else {
        let up: i128 = -(v as i128) + 30_000_000;
        let m: i64 = (up / 60_000_000) as i64;
        -m
    }
}

/// A duration as `7m`, `30m`, `1h`, `1h 15m`, rounded to the nearest minute.
pub fn format_hours(hours: i64) -> (r: String)
    ensures
        r@ == hours_text(hours as int),
{
    let minutes = nearest_minutes(hours);
    if minutes < 60 {
        let mut out = text::signed_text(minutes);
        out.push('m');
        assert(out@ =~= minutes_text(minutes as int));
        out
    } else {
        let h: i64 = minutes / 60;
        let m: i64 = minutes % 60;
        let mut out = text::decimal_text(h as u64);
        out.push('h');
        if m != 0 {
            out.push(' ');
            out.append(text::decimal_text(m as u64).as_str());
            out.push('m');
        }
        assert(out@ =~= minutes_text(minutes as int));
        out
    }
}

/// `s` in lower case and without white space.
pub open spec fn compact(s: Seq<char>) -> Seq<char> {
    number::lower(s).filter(|c: char| !text::is_space(c))
}

/// The amount in front of the first `mark`, in units, and what stands behind
/// the mark; without a mark, no amount and all of `s`; nothing where what stands
/// in front is no number, or a negative one.
pub open spec fn marked_amount(s: Seq<char>, mark: char, unit: nat) -> Option<
    (Option<u64>, Seq<char>),
> {
    let p = number::position(s, mark);
    if p == s.len() {
        Some((None, s))
    } else {
        match number::read_amount(s.take(p), unit) {
            Some(Amount::Units(v)) => Some((Some(v), s.skip(p + 1))),
            _ => None,
        }
    }
}

pub open spec fn or_zero(v: Option<u64>) -> int {
    match v {
        Some(n) => n as int,
        None => 0,
    }
}

pub open spec fn at_most_largest(v: int) -> i64 {
    if v > i64::MAX {
        i64::MAX
    } else {
        v as i64
    }
}

/// Hours in front of an `h`, then minutes in front of an `m`; either may be
/// missing, but not both, and nothing else may stand there.
pub open spec fn marked_duration(s: Seq<char>) -> Option<i64> {
    match marked_amount(s, 'h', HOUR as nat) {
        None => None,
        Some((hours, behind)) => match marked_amount(behind, 'm', MINUTE as nat) {
            None => None,
            Some((minutes, rest)) => if rest.len() > 0 || hours is None && minutes is None {
                None
            } else {
                Some(at_most_largest(or_zero(hours) + or_zero(minutes)))
            },
        },
    }
}

/// The duration that `s` writes: a bare number is a number of hours.
pub open spec fn duration_of(s: Seq<char>) -> Option<i64> {
    let t = text::trim(s);
    if t.len() == 0 {
        None
    } else {
        match number::read_amount(t, HOUR as nat) {
            Some(Amount::Units(v)) => Some(v as i64),
            Some(_) => None,
            None => marked_duration(compact(t)),
        }
    }
}

fn compacted(s: &Vec<char>) -> (r: Vec<char>)
    ensures
        r@ == compact(s@),
{
    let low = number::lowered(s);
    let mut out: Vec<char> = Vec::new();
    let ghost keep = |c: char| !text::is_space(c);
    for i in 0..low.len()
        invariant
            keep == (|c: char| !text::is_space(c)),
            out@ == low@.take(i as int).filter(keep),
    {
        proof {
            let was = low@.take(i as int);
            assert(low@.take(i + 1) =~= was.push(low@[i as int]));
            was.lemma_filter_push(low@[i as int], keep);
        }
        if !text::space(low[i]) {
            out.push(low[i]);
        }
    }
    assert(low@.take(low@.len() as int) =~= low@);
    out
}

fn take_marked(s: &Vec<char>, mark: char, unit: u64) -> (r: Option<(Option<u64>, Vec<char>)>)
    requires
        0 < unit < 10_000_000_000,
    ensures
        match r {
            Some((v, rest)) => marked_amount(s@, mark, unit as nat) == Some((v, rest@)),
            None => marked_amount(s@, mark, unit as nat) is None,
        },
{
    let p = number::position_of(s, mark);
    if p == s.len() {
        assert(s@.subrange(0, s@.len() as int) =~= s@);
        return Some((None, number::piece(s, 0, s.len())));
    }
    assert(s@.subrange(0, p as int) =~= s@.take(p as int));
    assert(s@.subrange(p + 1, s@.len() as int) =~= s@.skip(p + 1));
    match number::amount(&number::piece(s, 0, p), unit) {
        Some(Amount::Units(v)) => Some((Some(v), number::piece(s, p + 1, s.len()))),
        _ => None,
    }
}

/// No amount is larger than the largest one.
proof fn lemma_amount_bound(s: Seq<char>, unit: nat)
    ensures
        number::read_amount(s, unit) matches Some(Amount::Units(v)) ==> v <= number::LARGEST,
{
}

/// Reads a duration. Accepts `30m`, `2h`, `2h 30m`, `2h30m`, `1.5h` and `2.5`,
/// where a bare number is a number of hours; an empty, negative or unreadable
/// input is no duration. What is finer than a microsecond is cut off, and what is
/// too long is the longest duration.
pub fn parse_duration(input: &str) -> (r: Option<i64>)
    ensures
        r == duration_of(input@),
        r matches Some(v) ==> v >= 0,
{
    let trimmed = text::chars_of(text::trimmed(input));
    if trimmed.len() == 0 {
        return None;
    }
    proof {
        lemma_amount_bound(trimmed@, HOUR as nat);
    }
    match number::amount(&trimmed, 3_600_000_000) {
        Some(Amount::Units(v)) => {
            return Some(v as i64);
        },
        Some(_) => {
            return None;
        },
        None => {},
    }
    let short = compacted(&trimmed);
    let (hours, behind) = match take_marked(&short, 'h', 3_600_000_000) {
        Some(found) => found,
        None => {
            return None;
        },
    };
    let (minutes, rest) = match take_marked(&behind, 'm', 60_000_000) {
        Some(found) => found,
        None => {
            return None;
        },
    };
    if rest.len() > 0 || (hours.is_none() && minutes.is_none()) {
        return None;
    }
    proof {
        lemma_amount_bound(short@.take(number::position(short@, 'h')), HOUR as nat);
        lemma_amount_bound(behind@.take(number::position(behind@, 'm')), MINUTE as nat);
    }
    let h: u64 = match hours {
        Some(v) => v,
        None => 0,
    };
    let m: u64 = match minutes {
        Some(v) => v,
        None => 0,
    };
    let total: u64 = h + m;
    if total > 0x7fff_ffff_ffff_ffff {
        Some(0x7fff_ffff_ffff_ffff)
    } else {
        Some(total as i64)
    }
}

proof fn lemma_decimal_digits(n: nat)
    ensures
        number::all_digits(text::decimal(n)),
        number::digits_value(text::decimal(n)) == n,
        text::decimal(n).len() > 0,
    decreases n,
{
    let s = text::decimal(n);
    if n < 10 {
        assert(s.drop_last() =~= Seq::empty());
        assert(number::digits_value(s.drop_last()) == 0);
    } else {
        lemma_decimal_digits(n / 10);
        let before = text::decimal(n / 10);
        assert(s.drop_last() =~= before);
        assert forall|i: int| 0 <= i < s.len() implies number::is_digit(#[trigger] s[i]) by {
            if i < before.len() {
                assert(s[i] == before[i]);
            }
        }
    }
}

/// Lower-case text of digits and unit marks stays as it is in lower case.
proof fn lemma_lower_same(s: Seq<char>)
    requires
        forall|i: int| 0 <= i < s.len() ==> !('A' <= #[trigger] s[i] <= 'Z'),
    ensures
        number::lower(s) == s,
{
    assert(number::lower(s) =~= s);
}

proof fn lemma_starts_with_digit(s: Seq<char>)
    requires
        s.len() > 0,
        number::is_digit(s[0]),
        forall|i: int| 0 <= i < s.len() ==> !('A' <= #[trigger] s[i] <= 'Z'),
    ensures
        number::lower(number::unsigned(s)) == s,
        s != "inf"@,
        s != "infinity"@,
        s != "nan"@,
        !number::is_negated(s),
{
    reveal_strlit("inf");
    reveal_strlit("infinity");
    reveal_strlit("nan");
    lemma_lower_same(s);
}

proof fn lemma_digits_amount(s: Seq<char>, unit: nat)
    requires
        s.len() > 0,
        number::all_digits(s),
    ensures
        number::read_amount(s, unit) == Some(
            Amount::Units(number::capped(number::digits_value(s) * unit)),
        ),
{
    assert(number::is_digit(s[0]));
    assert forall|i: int| 0 <= i < s.len() implies !('A' <= #[trigger] s[i] <= 'Z') by {
        assert(number::is_digit(s[i]));
    }
    lemma_starts_with_digit(s);
    assert(s.take(s.len() as int) =~= s);
    assert forall|c: char| !number::is_digit(c) implies !s.contains(c) by {
        if s.contains(c) {
            let i = choose|i: int| 0 <= i < s.len() && s[i] == c;
            assert(number::is_digit(s[i]));
        }
    }
    number::lemma_position(s, 'e', s.len() as int);
    number::lemma_position(s, '.', s.len() as int);
    assert(s + Seq::<char>::empty() =~= s);
    let m = number::digits_value(s);
    assert(m * unit * 1 == m * unit);
}

proof fn lemma_no_amount(s: Seq<char>, at: int, unit: nat)
    requires
        number::is_digit(s[0]),
        forall|i: int|
            0 <= i < s.len() ==> number::is_digit(#[trigger] s[i]) || s[i] == 'h' || s[i] == 'm'
                || s[i] == ' ',
        0 <= at < s.len(),
        !number::is_digit(s[at]),
    ensures
        number::read_amount(s, unit) is None,
{
    lemma_starts_with_digit(s);
    assert(s.take(s.len() as int) =~= s);
    assert(!s.contains('e') && !s.contains('.'));
    number::lemma_position(s, 'e', s.len() as int);
    number::lemma_position(s, '.', s.len() as int);
}

proof fn lemma_filter_all(s: Seq<char>, keep: spec_fn(char) -> bool)
    requires
        forall|i: int| 0 <= i < s.len() ==> keep(#[trigger] s[i]),
    ensures
        s.filter(keep) == s,
    decreases s.len(),
{
    reveal(Seq::filter);
    if s.len() > 0 {
        let t = s.drop_last();
        assert forall|i: int| 0 <= i < t.len() implies keep(#[trigger] t[i]) by {
            assert(t[i] == s[i]);
        }
        lemma_filter_all(t, keep);
        assert(keep(s[s.len() - 1]));
        assert(s =~= t.push(s.last()));
    }
}

/// The digits in front of a mark.
proof fn lemma_marked_digits(d: Seq<char>, mark: char, rest: Seq<char>, unit: nat)
    requires
        d.len() > 0,
        number::all_digits(d),
        !number::is_digit(mark),
    ensures
        marked_amount(d.push(mark) + rest, mark, unit) == Some(
            (Some(number::capped(number::digits_value(d) * unit)), rest),
        ),
{
    let s = d.push(mark) + rest;
    assert(s.take(d.len() as int) =~= d);
    if d.contains(mark) {
        let i = choose|i: int| 0 <= i < d.len() && d[i] == mark;
        assert(number::is_digit(d[i]));
    }
    number::lemma_position(s, mark, d.len() as int);
    lemma_digits_amount(d, unit);
    assert(s.skip(d.len() as int + 1) =~= rest);
}

proof fn lemma_unmarked(s: Seq<char>, mark: char, unit: nat)
    requires
        !s.contains(mark),
    ensures
        marked_amount(s, mark, unit) == Some((None::<u64>, s)),
{
    assert(s.take(s.len() as int) =~= s);
    number::lemma_position(s, mark, s.len() as int);
}

/// A digit text with a unit mark behind it.
proof fn lemma_one_mark_shape(d: Seq<char>, mark: char)
    requires
        d.len() > 0,
        number::all_digits(d),
        mark == 'h' || mark == 'm',
    ensures
        text::trim(d.push(mark)) == d.push(mark),
        compact(d.push(mark)) == d.push(mark),
        number::read_amount(d.push(mark), HOUR as nat) is None,
{
    let s = d.push(mark);
    let keep = |c: char| !text::is_space(c);
    assert forall|i: int| 0 <= i < s.len() implies number::is_digit(#[trigger] s[i]) || s[i] == 'h'
        || s[i] == 'm' || s[i] == ' ' by {
        if i < d.len() {
            assert(number::is_digit(d[i]));
        }
    }
    assert(number::is_digit(d[0]));
    lemma_no_amount(s, d.len() as int, HOUR as nat);
    lemma_lower_same(s);
    assert forall|i: int| 0 <= i < s.len() implies keep(#[trigger] s[i]) by {
        if i < d.len() {
            assert(number::is_digit(d[i]));
        }
    }
    lemma_filter_all(s, keep);
}

/// Hours, a blank and minutes.
proof fn lemma_two_marks_shape(d: Seq<char>, e: Seq<char>)
    requires
        d.len() > 0,
        number::all_digits(d),
        e.len() > 0,
        number::all_digits(e),
    ensures
        ({
            let s = d.push('h').push(' ') + e.push('m');
            &&& text::trim(s) == s
            &&& compact(s) == d.push('h') + e.push('m')
            &&& number::read_amount(s, HOUR as nat) is None
        }),
{
    let front = d.push('h');
    let tail = e.push('m');
    let s = front.push(' ') + tail;
    let keep = |c: char| !text::is_space(c);
    assert forall|i: int| 0 <= i < front.len() implies number::is_digit(#[trigger] front[i])
        || front[i] == 'h' by {
        if i < d.len() {
            assert(number::is_digit(d[i]));
        }
    }
    assert forall|i: int| 0 <= i < tail.len() implies number::is_digit(#[trigger] tail[i])
        || tail[i] == 'm' by {
        if i < e.len() {
            assert(number::is_digit(e[i]));
        }
    }
    assert forall|i: int| 0 <= i < s.len() implies number::is_digit(#[trigger] s[i]) || s[i] == 'h'
        || s[i] == 'm' || s[i] == ' ' by {
        if i < front.len() {
            assert(s[i] == front[i]);
        } else if i > front.len() {
            assert(s[i] == tail[i - front.len() - 1]);
        }
    }
    assert(s[0] == d[0] && number::is_digit(d[0]));
    assert(s[d.len() as int] == 'h');
    lemma_no_amount(s, d.len() as int, HOUR as nat);
    lemma_lower_same(s);
    assert(s.last() == 'm');
    front.lemma_filter_push(' ', keep);
    Seq::filter_distributes_over_add(front.push(' '), tail, keep);
    assert forall|i: int| 0 <= i < front.len() implies keep(#[trigger] front[i]) by {
        assert(number::is_digit(front[i]) || front[i] == 'h');
    }
    assert forall|i: int| 0 <= i < tail.len() implies keep(#[trigger] tail[i]) by {
        assert(number::is_digit(tail[i]) || tail[i] == 'm');
    }
    lemma_filter_all(front, keep);
    lemma_filter_all(tail, keep);
}

/// A whole number of minutes is read back as it is written.
pub proof fn law_written_duration_reads_back(minutes: int)
    requires
        0 <= minutes,
        minutes * MINUTE <= i64::MAX,
    ensures
        duration_of(hours_text(minutes * MINUTE)) == Some((minutes * MINUTE) as i64),
{
    let s = hours_text(minutes * MINUTE);
    assert(rounded_minutes(minutes * MINUTE) == minutes);
    let empty = Seq::<char>::empty();
    let h = (minutes / 60) as nat;
    let m = (minutes % 60) as nat;
    lemma_decimal_digits(h);
    lemma_decimal_digits(m);
    lemma_decimal_digits(minutes as nat);
    if minutes < 60 {
        let d = text::decimal(minutes as nat);
        assert(s =~= d.push('m'));
        assert(s =~= d.push('m') + empty);
        lemma_one_mark_shape(d, 'm');
        assert(!s.contains('h')) by {
            assert forall|i: int| 0 <= i < s.len() implies #[trigger] s[i] != 'h' by {
                if i < d.len() {
                    assert(number::is_digit(d[i]));
                }
            }
        }
        lemma_unmarked(s, 'h', HOUR as nat);
        lemma_marked_digits(d, 'm', empty, MINUTE as nat);
    } else if minutes % 60 == 0 {
        let d = text::decimal(h);
        assert(s =~= d.push('h'));
        assert(s =~= d.push('h') + empty);
        lemma_one_mark_shape(d, 'h');
        lemma_marked_digits(d, 'h', empty, HOUR as nat);
        lemma_unmarked(empty, 'm', MINUTE as nat);
    } else {
        let d = text::decimal(h);
        let e = text::decimal(m);
        let tail = e.push('m');
        assert(s =~= d.push('h').push(' ') + tail);
        lemma_two_marks_shape(d, e);
        lemma_marked_digits(d, 'h', tail, HOUR as nat);
        assert(tail =~= e.push('m') + empty);
        lemma_marked_digits(e, 'm', empty, MINUTE as nat);
        assert(h * HOUR + m * MINUTE == minutes * MINUTE);
    }
}

/// The rounding of a written duration is off by half a minute at most. Halfway it is
/// away from zero, and the sign makes no difference to it.
pub proof fn law_rounding_is_to_the_nearest_minute(v: int)
    ensures
        -(MINUTE / 2) <= rounded_minutes(v) * MINUTE - v <= MINUTE / 2,
        -30_000_000 <= rounded_minutes(v) * 60_000_000 - v <= 30_000_000,
        v >= 0 ==> rounded_minutes(v) * 60_000_000 - v > -30_000_000,
        rounded_minutes(-v) == -rounded_minutes(v),
{
}

/// A duration is written in hours and minutes, without what is nothing of: `7m`, `2h`
/// or `1h 15m`.
pub proof fn law_hours_and_minutes_are_written(h: int, m: int)
    requires
        0 <= h,
        0 <= m < 60,
    ensures
        h == 0 ==> hours_text(m * 60_000_000) == text::decimal(m as nat) + "m"@,
        h > 0 && m == 0 ==> hours_text(h * 3_600_000_000) == text::decimal(h as nat) + "h"@,
        h > 0 && m > 0 ==> hours_text(h * 3_600_000_000 + m * 60_000_000) == text::decimal(
            h as nat,
        ) + "h "@ + text::decimal(m as nat) + "m"@,
{
    reveal_strlit("m");
    reveal_strlit("h");
    reveal_strlit("h ");
    assert("m"@ =~= seq!['m']);
    assert("h"@ =~= seq!['h']);
    assert("h "@ =~= seq!['h', ' ']);
    assert(rounded_minutes(h * 3_600_000_000 + m * 60_000_000) == 60 * h + m);
    assert((60 * h + m) / 60 == h && (60 * h + m) % 60 == m);
}

/// The times of a group of commits.
pub open spec fn times_of(commits: Seq<&CommitRecord>) -> Seq<i64> {
    Seq::new(commits.len(), |i: int| commits[i].author_time)
}

/// The same times, in order.
pub open spec fn in_order(times: Seq<i64>) -> Seq<i64> {
    times.sort_by(|a: i64, b: i64| a <= b)
}

/// The time between the last two of a list of times.
pub open spec fn last_gap(times: Seq<i64>) -> int {
    times[times.len() - 1] - times[times.len() - 2]
}

/// The sum of the gaps between neighbours, none counted for more than `idle`.
pub open spec fn clamped_gaps(times: Seq<i64>, idle: int) -> int
    decreases times.len(),
{
    if times.len() < 2 {
        0
    } else {
        clamped_gaps(times.drop_last(), idle) + if last_gap(times) <= idle {
            last_gap(times)
        } else {
            idle
        }
    }
}

/// How many gaps between neighbours are longer than `idle`.
pub open spec fn long_gaps(times: Seq<i64>, idle: int) -> int
    decreases times.len(),
{
    if times.len() < 2 {
        0
    } else {
        long_gaps(times.drop_last(), idle) + if last_gap(times) > idle {
            1int
        } else {
            0
        }
    }
}

/// The sum of the gaps between neighbours that are not longer than `idle`.
pub open spec fn short_gaps(times: Seq<i64>, idle: int) -> int
    decreases times.len(),
{
    if times.len() < 2 {
        0
    } else {
        short_gaps(times.drop_last(), idle) + if last_gap(times) <= idle {
            last_gap(times)
        } else {
            0
        }
    }
}

/// A number of seconds as a duration.
pub open spec fn of_seconds(seconds: int) -> i64 {
    at_most_largest(seconds * SECOND)
}

/// A way to tell from a group of commits how long the work on them took.
pub trait HoursEstimator {
    spec fn title(&self) -> Seq<char>;

    /// The seconds that the work took, by the times of the commits.
    spec fn seconds(&self, times: Seq<i64>) -> int;

    /// How the estimate came about.
    spec fn reason(&self, times: Seq<i64>) -> Seq<char>;

    fn name(&self) -> (r: &'static str)
        ensures
            r@ == self.title(),
    ;

    fn estimate(&self, commits: &[&CommitRecord]) -> (r: Hours)
        ensures
            r.value == of_seconds(self.seconds(times_of(commits@))),
            r.detail@ == self.reason(times_of(commits@)),
    ;
}

/// The times of `commits`, in order.
fn ordered_times(commits: &[&CommitRecord]) -> (r: Vec<i64>)
    ensures
        r@ == in_order(times_of(commits@)),
        r@.len() == commits@.len(),
        forall|i: int, j: int| 0 <= i < j < r@.len() ==> r@[i] <= r@[j],
{
    let mut times: Vec<i64> = Vec::new();
    for i in 0..commits.len()
        invariant
            times@ == times_of(commits@).take(i as int),
    {
        times.push(commits[i].author_time);
        assert(times_of(commits@).take(i + 1) =~= times_of(commits@).take(i as int).push(
            times_of(commits@)[i as int],
        ));
    }
    assert(times_of(commits@).take(commits@.len() as int) =~= times_of(commits@));
    let mut out: Vec<i64> = Vec::new();
    let ghost leq = |a: i64, b: i64| a <= b;
    assert(times@.take(0) =~= out@);
    for n in 0..times.len()
        invariant
            forall|i: int, j: int| 0 <= i < j < out@.len() ==> out@[i] <= out@[j],
            out@.to_multiset() == times@.take(n as int).to_multiset(),
            out@.len() == n,
    {
        let mut at: usize = n;
        while at > 0 && out[at - 1] > times[n]
            invariant
                at <= n < times@.len(),
                out@.len() == n,
                forall|i: int| at <= i < n ==> out@[i] > times@[n as int],
            decreases at,
        {
            at -= 1;
        }
        let ghost before = out@;
        out.insert(at, times[n]);
        proof {
            vstd::seq_lib::to_multiset_insert(before, at as int, times@[n as int]);
            let was = times@.take(n as int);
            assert(times@.take(n + 1) =~= was.push(times@[n as int]));
            vstd::seq_lib::to_multiset_build(was, times@[n as int]);
        }
    }
    proof {
        assert(times@.take(times@.len() as int) =~= times@);
        times@.lemma_sort_by_ensures(leq);
        vstd::seq_lib::lemma_sorted_unique(out@, times@.sort_by(leq), leq);
    }
    out
}

/// A number of seconds as a duration.
pub fn seconds_to_duration(seconds: u128) -> (r: i64)
    ensures
        r == of_seconds(seconds as int),
{
    if seconds > 9_223_372_036_854 {
        0x7fff_ffff_ffff_ffff
    } else {
        (seconds as i64) * 1_000_000
    }
}

/// Counts the time between commits, but never more than `idle_gap_min` minutes
/// at a stretch, and some time before the first commit and after the last one.
pub struct CommitGap {
    pub idle_gap_min: u32,
    pub lead_min: u32,
    pub trail_min: u32,
}

impl Default for CommitGap {
    fn default() -> (r: Self)
        ensures
            r.idle_gap_min == 30,
            r.lead_min == 15,
            r.trail_min == 15,
    {
        CommitGap { idle_gap_min: 30, lead_min: 15, trail_min: 15 }
    }
}

/// `3 commits`.
pub open spec fn commits_text(n: int) -> Seq<char> {
    text::decimal(n as nat) + " commits"@
}

impl HoursEstimator for CommitGap {
    open spec fn title(&self) -> Seq<char> {
        "gap"@
    }

    open spec fn seconds(&self, times: Seq<i64>) -> int {
        if times.len() == 0 {
            0
        } else {
            clamped_gaps(in_order(times), self.idle_gap_min * 60) + (self.lead_min + self.trail_min)
                * 60
        }
    }

    open spec fn reason(&self, times: Seq<i64>) -> Seq<char> {
        let clamps = long_gaps(in_order(times), self.idle_gap_min * 60);
        if times.len() == 0 {
            "no commits"@
        } else if times.len() == 1 {
            "single commit ("@ + text::decimal((self.lead_min + self.trail_min) as nat)
                + " min default)"@
        } else if clamps == 0 {
            commits_text(times.len() as int)
        } else {
            commits_text(times.len() as int) + ", "@ + text::decimal(clamps as nat) + " gap"@
                + text::plural(clamps) + " clamped"@
        }
    }

    fn name(&self) -> (r: &'static str) {
        "gap"
    }

    fn estimate(&self, commits: &[&CommitRecord]) -> (r: Hours) {
        if commits.len() == 0 {
            return Hours::zero("no commits");
        }
        let times = ordered_times(commits);
        let ghost all = times@;
        let idle: i128 = (self.idle_gap_min as i128) * 60;
        let mut total: i128 = 0;
        let mut clamps: usize = 0;
        let mut i: usize = 1;
        while i < times.len()
            invariant
                1 <= i <= times@.len(),
                all == times@,
                0 <= idle <= 0x100_0000_0000,
                0 <= total <= i * idle,
                clamps < i,
                forall|a: int, b: int| 0 <= a < b < all.len() ==> all[a] <= all[b],
                total == clamped_gaps(all.take(i as int), idle as int),
                clamps == long_gaps(all.take(i as int), idle as int),
            decreases times@.len() - i,
        {
            let gap: i128 = times[i] as i128 - times[i - 1] as i128;
            proof {
                assert(all.take(i + 1).drop_last() =~= all.take(i as int));
                assert(last_gap(all.take(i + 1)) == gap);
                assert((i + 1) * idle == i * idle + idle) by (nonlinear_arith);
                assert(i * idle <= 0x1_0000_0000_0000_0000 * 0x100_0000_0000) by (nonlinear_arith)
                    requires
                        0 <= i <= 0x1_0000_0000_0000_0000,
                        0 <= idle <= 0x100_0000_0000,
                ;
            }
            if gap <= idle {
                total += gap;
            } else {
                total += idle;
                clamps += 1;
            }
            i += 1;
        }
        assert(all.take(times@.len() as int) =~= all);
        assert(i * idle <= 0x1_0000_0000_0000_0000 * 0x100_0000_0000) by (nonlinear_arith)
            requires
                0 <= i <= 0x1_0000_0000_0000_0000,
                0 <= idle <= 0x100_0000_0000,
        ;
        let buffer: u64 = self.lead_min as u64 + self.trail_min as u64;
        let value = seconds_to_duration((total + (buffer as i128) * 60) as u128);
        let n = commits.len();
        if n == 1 {
            let mut detail = "single commit (".to_owned();
            detail.append(text::decimal_text(buffer).as_str());
            detail.append(" min default)");
            return Hours { value, detail };
        }
        let mut detail = text::count_text(n);
        detail.append(" commits");
        if clamps > 0 {
            detail.append(", ");
            detail.append(text::count_text(clamps).as_str());
            detail.append(" gap");
            detail.append(text::plural_text(clamps).as_str());
            detail.append(" clamped");
        }
        Hours { value, detail }
    }
}

/// Splits the commits into sessions: a gap longer than `session_break_min`
/// minutes ends one. A session lasts from its first commit to its last one, and
/// some time before and after them.
pub struct SessionSpan {
    pub session_break_min: u32,
    pub lead_min: u32,
    pub trail_min: u32,
}

impl SessionSpan {
    /// The number of sessions of commits at these times.
    pub open spec fn sessions(&self, times: Seq<i64>) -> int {
        if times.len() == 0 {
            0
        } else {
            long_gaps(in_order(times), self.session_break_min * 60) + 1
        }
    }
}

impl HoursEstimator for SessionSpan {
    open spec fn title(&self) -> Seq<char> {
        "session"@
    }

    open spec fn seconds(&self, times: Seq<i64>) -> int {
        short_gaps(in_order(times), self.session_break_min * 60) + self.sessions(times) * ((
        self.lead_min + self.trail_min) * 60)
    }

    open spec fn reason(&self, times: Seq<i64>) -> Seq<char> {
        if times.len() == 0 {
            "no commits"@
        } else {
            text::decimal(times.len()) + " commit"@ + text::plural(times.len() as int) + ", "@
                + text::decimal(self.sessions(times) as nat) + " session"@ + text::plural(
                self.sessions(times),
            )
        }
    }

    fn name(&self) -> (r: &'static str) {
        "session"
    }

    fn estimate(&self, commits: &[&CommitRecord]) -> (r: Hours) {
        let times = ordered_times(commits);
        let ghost all = times@;
        let buffer: i128 = (self.lead_min as i128 + self.trail_min as i128) * 60;
        if commits.len() == 0 {
            assert(0 * buffer == 0);
            return Hours::zero("no commits");
        }
        let idle: i128 = (self.session_break_min as i128) * 60;
        let mut total: i128 = 0;
        let mut breaks: usize = 0;
        let mut i: usize = 1;
        while i < times.len()
            invariant
                1 <= i <= times@.len(),
                all == times@,
                0 <= idle <= 0x100_0000_0000,
                0 <= total <= i * idle,
                breaks < i,
                forall|a: int, b: int| 0 <= a < b < all.len() ==> all[a] <= all[b],
                total == short_gaps(all.take(i as int), idle as int),
                breaks == long_gaps(all.take(i as int), idle as int),
            decreases times@.len() - i,
        {
            let gap: i128 = times[i] as i128 - times[i - 1] as i128;
            proof {
                assert(all.take(i + 1).drop_last() =~= all.take(i as int));
                assert(last_gap(all.take(i + 1)) == gap);
                assert((i + 1) * idle == i * idle + idle) by (nonlinear_arith);
                assert(i * idle <= 0x1_0000_0000_0000_0000 * 0x100_0000_0000) by (nonlinear_arith)
                    requires
                        0 <= i <= 0x1_0000_0000_0000_0000,
                        0 <= idle <= 0x100_0000_0000,
                ;
            }
            if gap <= idle {
                total += gap;
            } else {
                breaks += 1;
            }
            i += 1;
        }
        assert(all.take(times@.len() as int) =~= all);
        let sessions: usize = breaks + 1;
        assert(i * idle <= 0x1_0000_0000_0000_0000 * 0x100_0000_0000) by (nonlinear_arith)
            requires
                0 <= i <= 0x1_0000_0000_0000_0000,
                0 <= idle <= 0x100_0000_0000,
        ;
        assert(sessions * buffer <= 0x1_0000_0000_0000_0000 * 0x100_0000_0000) by (nonlinear_arith)
            requires
                0 <= sessions <= 0x1_0000_0000_0000_0000,
                0 <= buffer <= 0x100_0000_0000,
        ;
        assert(sessions * buffer >= 0) by (nonlinear_arith)
            requires
                0 <= sessions,
                0 <= buffer,
        ;
        let value = seconds_to_duration((total + (sessions as i128) * buffer) as u128);
        let n = commits.len();
        let mut detail = text::count_text(n);
        detail.append(" commit");
        detail.append(text::plural_text(n).as_str());
        detail.append(", ");
        detail.append(text::count_text(sessions).as_str());
        detail.append(" session");
        detail.append(text::plural_text(sessions).as_str());
        Hours { value, detail }
    }
}

/// The time from the first commit to the last one.
pub struct FirstToLast;

impl HoursEstimator for FirstToLast {
    open spec fn title(&self) -> Seq<char> {
        "span"@
    }

    open spec fn seconds(&self, times: Seq<i64>) -> int {
        if times.len() < 2 {
            0
        } else {
            in_order(times).last() - in_order(times)[0]
        }
    }

    open spec fn reason(&self, times: Seq<i64>) -> Seq<char> {
        if times.len() == 0 {
            "no commits"@
        } else if times.len() == 1 {
            "single commit"@
        } else {
            "first to last commit"@
        }
    }

    fn name(&self) -> (r: &'static str) {
        "span"
    }

    fn estimate(&self, commits: &[&CommitRecord]) -> (r: Hours) {
        if commits.len() == 0 {
            return Hours::zero("no commits");
        }
        if commits.len() == 1 {
            return Hours::zero("single commit");
        }
        let times = ordered_times(commits);
        let first = times[0];
        let last = times[times.len() - 1];
        Hours {
            value: seconds_to_duration((last as i128 - first as i128) as u128),
            detail: "first to last commit".to_owned(),
        }
    }
}

proof fn lemma_gap_sums(times: Seq<i64>, idle: int)
    requires
        times.len() > 0,
        idle >= 0,
        forall|i: int, j: int| 0 <= i < j < times.len() ==> times[i] <= times[j],
    ensures
        0 <= long_gaps(times, idle) < times.len(),
        0 <= short_gaps(times, idle) <= clamped_gaps(times, idle) <= times.last() - times[0],
        long_gaps(times, idle) == 0 ==> short_gaps(times, idle) == times.last() - times[0],
    decreases times.len(),
{
    if times.len() >= 2 {
        let t = times.drop_last();
        lemma_gap_sums(t, idle);
        assert(t.last() == times[times.len() - 2]);
    }
}

proof fn lemma_in_order(times: Seq<i64>)
    ensures
        in_order(times).len() == times.len(),
        in_order(times).to_multiset() == times.to_multiset(),
        forall|i: int, j: int|
            0 <= i < j < times.len() ==> in_order(times)[i] <= in_order(times)[j],
{
    let leq = |a: i64, b: i64| a <= b;
    times.lemma_sort_by_ensures(leq);
    let s = in_order(times);
    vstd::seq_lib::to_multiset_len(s);
    vstd::seq_lib::to_multiset_len(times);
    assert forall|i: int, j: int| 0 <= i < j < times.len() implies s[i] <= s[j] by {
        assert(leq(s[i], s[j]));
    }
}

/// The order in which commits are listed makes no difference to any estimate, nor
/// to how it came about.
pub proof fn law_commit_order_is_irrelevant(a: Seq<i64>, b: Seq<i64>)
    requires
        a.to_multiset() == b.to_multiset(),
    ensures
        forall|e: CommitGap| #[trigger] e.seconds(a) == e.seconds(b),
        forall|e: SessionSpan| #[trigger] e.seconds(a) == e.seconds(b),
        forall|e: FirstToLast| #[trigger] e.seconds(a) == e.seconds(b),
        forall|e: CommitGap| #[trigger] e.reason(a) == e.reason(b),
        forall|e: SessionSpan| #[trigger] e.reason(a) == e.reason(b),
        forall|e: FirstToLast| #[trigger] e.reason(a) == e.reason(b),
{
    let leq = |x: i64, y: i64| x <= y;
    a.lemma_sort_by_ensures(leq);
    b.lemma_sort_by_ensures(leq);
    vstd::seq_lib::lemma_sorted_unique(in_order(a), in_order(b), leq);
    vstd::seq_lib::to_multiset_len(a);
    vstd::seq_lib::to_multiset_len(b);
}

/// Commits of one session took the time from the first to the last of them, and
/// the time before and after.
pub proof fn law_one_session_is_one_stretch(e: SessionSpan, times: Seq<i64>)
    requires
        e.sessions(times) == 1,
    ensures
        e.seconds(times) == FirstToLast.seconds(times) + (e.lead_min + e.trail_min) * 60,
{
    lemma_in_order(times);
    lemma_gap_sums(in_order(times), e.session_break_min * 60);
}

/// Every session counts for at least the time before and after it, and there is
/// at least one where there is a commit.
pub proof fn law_sessions_count(e: SessionSpan, times: Seq<i64>)
    requires
        times.len() > 0,
    ensures
        1 <= e.sessions(times) <= times.len(),
        e.sessions(times) * ((e.lead_min + e.trail_min) * 60) <= e.seconds(times),
        e.seconds(times) <= FirstToLast.seconds(times) + e.sessions(times) * ((e.lead_min
            + e.trail_min) * 60),
{
    lemma_in_order(times);
    lemma_gap_sums(in_order(times), e.session_break_min * 60);
}

/// The gaps that count never add up to more than the time from the first commit
/// to the last one.
pub proof fn law_clamping_only_shortens(e: CommitGap, times: Seq<i64>)
    requires
        times.len() > 0,
    ensures
        (e.lead_min + e.trail_min) * 60 <= e.seconds(times),
        e.seconds(times) <= FirstToLast.seconds(times) + (e.lead_min + e.trail_min) * 60,
{
    lemma_in_order(times);
    lemma_gap_sums(in_order(times), e.idle_gap_min * 60);
}

/// In order, what is no later than the rest comes first.
proof fn lemma_in_order_concat(a: Seq<i64>, b: Seq<i64>)
    requires
        forall|i: int, j: int|
            0 <= i < a.len() && 0 <= j < b.len() ==> #[trigger] a[i] <= #[trigger] b[j],
    ensures
        in_order(a + b) == in_order(a) + in_order(b),
{
    let leq = |x: i64, y: i64| x <= y;
    let x = in_order(a);
    let y = in_order(b);
    lemma_in_order(a);
    lemma_in_order(b);
    lemma_in_order(a + b);
    vstd::seq_lib::lemma_multiset_commutative(a, b);
    vstd::seq_lib::lemma_multiset_commutative(x, y);
    assert forall|i: int, j: int| 0 <= i < j < (x + y).len() implies (x + y)[i] <= (x + y)[j] by {
        if i < x.len() && j >= x.len() {
            let u = x[i];
            let v = y[j - x.len()];
            vstd::seq_lib::to_multiset_contains(x, u);
            vstd::seq_lib::to_multiset_contains(a, u);
            vstd::seq_lib::to_multiset_contains(y, v);
            vstd::seq_lib::to_multiset_contains(b, v);
            assert(x.contains(u) && y.contains(v));
            let k = choose|k: int| 0 <= k < a.len() && a[k] == u;
            let m = choose|m: int| 0 <= m < b.len() && b[m] == v;
            assert(a[k] <= b[m]);
        }
    }
    (a + b).lemma_sort_by_ensures(leq);
    assert(vstd::relations::sorted_by(x + y, leq));
    vstd::seq_lib::lemma_sorted_unique(x + y, in_order(a + b), leq);
}

proof fn lemma_in_order_one(t: i64)
    ensures
        in_order(seq![t]) == seq![t],
{
    lemma_in_order(seq![t]);
    let s = in_order(seq![t]);
    vstd::seq_lib::to_multiset_contains(s, s[0]);
    vstd::seq_lib::to_multiset_contains(seq![t], s[0]);
    assert(s.contains(s[0]));
    assert(s =~= seq![t]);
}

/// The gaps of two lists of times are those of each, and the one between them.
proof fn lemma_gaps_concat(x: Seq<i64>, y: Seq<i64>, idle: int)
    requires
        x.len() > 0,
        y.len() > 0,
    ensures
        ({
            let gap = y[0] - x.last();
            &&& long_gaps(x + y, idle) == long_gaps(x, idle) + long_gaps(y, idle) + if gap > idle {
                1int
            } else {
                0
            }
            &&& short_gaps(x + y, idle) == short_gaps(x, idle) + short_gaps(y, idle) + if gap
                <= idle {
                gap
            } else {
                0
            }
            &&& clamped_gaps(x + y, idle) == clamped_gaps(x, idle) + clamped_gaps(y, idle) + if gap
                <= idle {
                gap
            } else {
                idle
            }
        }),
    decreases y.len(),
{
    let t = y.drop_last();
    assert((x + y).drop_last() =~= x + t);
    assert((x + y).last() == y.last());
    if y.len() == 1 {
        assert(x + t =~= x);
        assert(last_gap(x + y) == y[0] - x.last());
    } else {
        assert((x + y)[(x + y).len() - 2] == y[y.len() - 2]);
        assert(last_gap(x + y) == last_gap(y));
        lemma_gaps_concat(x, t, idle);
        assert(t[0] == y[0]);
    }
}

/// The newest of some times.
pub open spec fn is_newest(times: Seq<i64>, t: i64) -> bool {
    &&& times.contains(t)
    &&& forall|i: int| 0 <= i < times.len() ==> #[trigger] times[i] <= t
}

proof fn lemma_newest_is_last(times: Seq<i64>, t: i64)
    requires
        is_newest(times, t),
    ensures
        times.len() > 0,
        in_order(times).len() == times.len(),
        in_order(times).last() == t,
{
    lemma_in_order(times);
    let s = in_order(times);
    let last = s.last();
    vstd::seq_lib::to_multiset_contains(s, t);
    vstd::seq_lib::to_multiset_contains(times, t);
    vstd::seq_lib::to_multiset_contains(s, last);
    vstd::seq_lib::to_multiset_contains(times, last);
    assert(s.contains(last));
    let i = choose|i: int| 0 <= i < s.len() && s[i] == t;
    let j = choose|j: int| 0 <= j < times.len() && times[j] == last;
    assert(times[j] <= t);
    assert(i < s.len() - 1 ==> s[i] <= s[s.len() - 1]);
}

proof fn lemma_one_more(times: Seq<i64>, newest: i64, t: i64, idle: int)
    requires
        is_newest(times, newest),
        newest <= t,
    ensures
        ({
            let now = in_order(times.push(t));
            let was = in_order(times);
            let gap = t - newest;
            &&& now == was.push(t)
            &&& was.len() > 0
            &&& was.last() == newest
            &&& now[0] == was[0]
            &&& long_gaps(now, idle) == long_gaps(was, idle) + if gap > idle {
                1int
            } else {
                0
            }
            &&& short_gaps(now, idle) == short_gaps(was, idle) + if gap <= idle {
                gap
            } else {
                0
            }
            &&& clamped_gaps(now, idle) == clamped_gaps(was, idle) + if gap <= idle {
                gap
            } else {
                idle
            }
        }),
{
    let one = seq![t];
    lemma_newest_is_last(times, newest);
    assert(times.push(t) =~= times + one);
    lemma_in_order_concat(times, one);
    lemma_in_order_one(t);
    assert(in_order(times) + one =~= in_order(times).push(t));
    lemma_gaps_concat(in_order(times), one, idle);
}

/// No commits take no time, and have no session. One commit is one session, and takes
/// the time before and after it.
pub proof fn law_one_commit_is_one_session(e: SessionSpan, t: i64)
    ensures
        e.seconds(Seq::empty()) == 0,
        e.sessions(Seq::empty()) == 0,
        e.seconds(seq![t]) == (e.lead_min + e.trail_min) * 60,
        e.sessions(seq![t]) == 1,
{
    lemma_in_order(Seq::empty());
    lemma_in_order_one(t);
    let b = (e.lead_min + e.trail_min) * 60;
    assert(0 * b == 0 && 1 * b == b);
}

/// A commit after all others belongs to the last session where it follows within a
/// break, and only adds the time since then. Otherwise it begins a session of its own,
/// with the time before and after it.
pub proof fn law_sessions_count_one_by_one(
    e: SessionSpan,
    times: Seq<i64>,
    newest: i64,
    t: i64,
)
    requires
        is_newest(times, newest),
        newest <= t,
    ensures
        t - newest <= e.session_break_min * 60 ==> {
            &&& e.sessions(times.push(t)) == e.sessions(times)
            &&& e.seconds(times.push(t)) == e.seconds(times) + (t - newest)
        },
        t - newest > e.session_break_min * 60 ==> {
            &&& e.sessions(times.push(t)) == e.sessions(times) + 1
            &&& e.seconds(times.push(t)) == e.seconds(times) + (e.lead_min + e.trail_min) * 60
        },
{
    lemma_one_more(times, newest, t, e.session_break_min * 60);
    let n = e.sessions(times);
    let b = (e.lead_min + e.trail_min) * 60;
    assert((n + 1) * b == n * b + b) by (nonlinear_arith);
}

/// What comes before and after a long break adds up: the sessions of all are those of
/// both, and so is their time.
pub proof fn law_sessions_add_up(e: SessionSpan, a: Seq<i64>, b: Seq<i64>)
    requires
        forall|i: int, j: int|
            0 <= i < a.len() && 0 <= j < b.len() ==> #[trigger] b[j] - #[trigger] a[i]
                > e.session_break_min * 60,
    ensures
        e.sessions(a + b) == e.sessions(a) + e.sessions(b),
        e.seconds(a + b) == e.seconds(a) + e.seconds(b),
{
    let idle = e.session_break_min * 60;
    lemma_in_order(a);
    lemma_in_order(b);
    if a.len() == 0 {
        assert(a + b =~= b);
        law_one_commit_is_one_session(e, 0);
        assert(a =~= Seq::empty());
    } else if b.len() == 0 {
        assert(a + b =~= a);
        law_one_commit_is_one_session(e, 0);
        assert(b =~= Seq::empty());
    } else {
        let x = in_order(a);
        let y = in_order(b);
        lemma_in_order_concat(a, b);
        lemma_gaps_concat(x, y, idle);
        vstd::seq_lib::to_multiset_contains(x, x.last());
        vstd::seq_lib::to_multiset_contains(a, x.last());
        vstd::seq_lib::to_multiset_contains(y, y[0]);
        vstd::seq_lib::to_multiset_contains(b, y[0]);
        assert(x.contains(x.last()) && y.contains(y[0]));
        let i = choose|i: int| 0 <= i < a.len() && a[i] == x.last();
        let j = choose|j: int| 0 <= j < b.len() && b[j] == y[0];
        assert(b[j] - a[i] > idle);
        let m = e.sessions(a);
        let n = e.sessions(b);
        let buffer = (e.lead_min + e.trail_min) * 60;
        assert((m + n) * buffer == m * buffer + n * buffer) by (nonlinear_arith);
    }
}

/// The estimate by gaps: nothing for no commits, the time before and after for one, and
/// for each further commit the time since the newest one, but never more than the idle
/// time.
pub proof fn law_gaps_count_one_by_one(e: CommitGap, times: Seq<i64>, newest: i64, t: i64)
    ensures
        e.seconds(Seq::empty()) == 0,
        e.seconds(seq![t]) == (e.lead_min + e.trail_min) * 60,
        is_newest(times, newest) && newest <= t && t - newest <= e.idle_gap_min * 60 ==> e.seconds(
            times.push(t),
        ) == e.seconds(times) + (t - newest),
        is_newest(times, newest) && t - newest > e.idle_gap_min * 60 ==> e.seconds(times.push(t))
            == e.seconds(times) + e.idle_gap_min * 60,
{
    lemma_in_order_one(t);
    if is_newest(times, newest) && newest <= t {
        lemma_one_more(times, newest, t, e.idle_gap_min * 60);
    }
}

/// The time from the first commit to the last one is the longest between any two of
/// them, and there are two that are that long apart.
pub proof fn law_span_is_from_first_to_last(times: Seq<i64>)
    requires
        times.len() > 0,
    ensures
        forall|i: int, j: int|
            0 <= i < times.len() && 0 <= j < times.len() ==> #[trigger] times[j]
                - #[trigger] times[i] <= FirstToLast.seconds(times),
        exists|i: int, j: int|
            0 <= i < times.len() && 0 <= j < times.len() && #[trigger] times[j]
                - #[trigger] times[i] == FirstToLast.seconds(times),
{
    lemma_in_order(times);
    let s = in_order(times);
    assert forall|i: int| 0 <= i < times.len() implies s[0] <= #[trigger] times[i] <= s.last() by {
        vstd::seq_lib::to_multiset_contains(s, times[i]);
        vstd::seq_lib::to_multiset_contains(times, times[i]);
        assert(times.contains(times[i]));
        let k = choose|k: int| 0 <= k < s.len() && s[k] == times[i];
        assert(k > 0 ==> s[0] <= s[k]);
        assert(k < s.len() - 1 ==> s[k] <= s[s.len() - 1]);
    }
    vstd::seq_lib::to_multiset_contains(s, s[0]);
    vstd::seq_lib::to_multiset_contains(times, s[0]);
    vstd::seq_lib::to_multiset_contains(s, s.last());
    vstd::seq_lib::to_multiset_contains(times, s.last());
    assert(s.contains(s[0]) && s.contains(s.last()));
    let i = choose|i: int| 0 <= i < times.len() && times[i] == s[0];
    let j = choose|j: int| 0 <= j < times.len() && times[j] == s.last();
    assert(times[j] - times[i] == FirstToLast.seconds(times));
}

/// The times of commits are when they were made, one for each.
pub proof fn law_times_are_those_of_the_commits(commits: Seq<&CommitRecord>, i: int)
    requires
        0 <= i < commits.len(),
    ensures
        times_of(commits).len() == commits.len(),
        times_of(commits)[i] == commits[i].author_time,
{
}

/// A duration is a whole number of microseconds, as many as fit.
pub proof fn law_durations_are_microseconds(seconds: int)
    requires
        seconds >= 0,
    ensures
        seconds * 1_000_000 <= i64::MAX ==> of_seconds(seconds) == seconds * 1_000_000,
        seconds * 1_000_000 > i64::MAX ==> of_seconds(seconds) == i64::MAX,
{
}

/// A text of digits, points and unit marks with a mark in it is no bare number.
proof fn lemma_marked_is_no_number(s: Seq<char>, at: int, unit: nat)
    requires
        s.len() > 0,
        number::is_digit(s[0]) || s[0] == '.',
        forall|i: int|
            0 <= i < s.len() ==> number::is_digit(#[trigger] s[i]) || s[i] == '.' || s[i] == 'h'
                || s[i] == 'm' || s[i] == ' ',
        0 <= at < s.len(),
        s[at] == 'h' || s[at] == 'm',
    ensures
        number::read_amount(s, unit) is None,
{
    number::lemma_no_special(s);
    assert(s.take(s.len() as int) =~= s);
    assert(!s.contains('e'));
    number::lemma_position(s, 'e', s.len() as int);
    let p = number::position(s, '.');
    number::lemma_position_bound(s, '.');
    let whole = s.take(p);
    if at < p {
        assert(whole[at] == s[at]);
        assert(!number::is_digit(whole[at]));
    } else {
        if p >= s.len() || at == p {
            lemma_position_is(s, '.');
        }
        let part = s.skip(p + 1);
        assert(part[at - p - 1] == s[at]);
        assert(!number::is_digit(part[at - p - 1]));
    }
}

proof fn lemma_position_is(s: Seq<char>, c: char)
    ensures
        number::position(s, c) < s.len() ==> s[number::position(s, c)] == c,
    decreases s.len(),
{
    if s.len() > 0 && s[0] != c {
        lemma_position_is(s.drop_first(), c);
        number::lemma_position_bound(s.drop_first(), c);
    }
}

proof fn lemma_trim_plain(s: Seq<char>)
    requires
        s.len() > 0,
        !text::is_space(s[0]),
        !text::is_space(s.last()),
    ensures
        text::trim(s) == s,
{
}

/// A number in front of a mark.
proof fn lemma_marked_number(w: Seq<char>, p: Seq<char>, mark: char, rest: Seq<char>, unit: nat)
    requires
        number::all_digits(w),
        number::all_digits(p),
        w.len() + p.len() > 0,
        mark == 'h' || mark == 'm',
        unit > 0,
    ensures
        marked_amount(number::plain(w, p).push(mark) + rest, mark, unit) == Some(
            (Some(number::capped(number::worth(w, p, unit as int) as nat)), rest),
        ),
{
    let x = number::plain(w, p);
    let s = x.push(mark) + rest;
    number::lemma_plain_chars(w, p);
    assert(s.take(x.len() as int) =~= x);
    assert(!x.contains(mark));
    number::lemma_position(s, mark, x.len() as int);
    number::law_decimals_are_worth_their_digits(w, p, unit);
    assert(s.skip(x.len() as int + 1) =~= rest);
}

/// As many as fit.
pub open spec fn at_most(v: int, most: int) -> int {
    if v > most {
        most
    } else {
        v
    }
}

/// A bare number and one in front of an `h` are hours, and one in front of an `m` is
/// minutes, down to the microsecond.
pub proof fn law_units_are_read(w: Seq<char>, p: Seq<char>)
    requires
        number::all_digits(w),
        number::all_digits(p),
        w.len() + p.len() > 0,
    ensures
        duration_of(number::plain(w, p)) == Some(
            at_most(number::worth(w, p, 3_600_000_000), i64::MAX as int) as i64,
        ),
        duration_of(number::plain(w, p).push('h')) == duration_of(number::plain(w, p)),
        duration_of(number::plain(w, p).push('m')) == Some(
            at_most(number::worth(w, p, 60_000_000), i64::MAX as int) as i64,
        ),
{
    let x = number::plain(w, p);
    let none = Seq::<char>::empty();
    number::lemma_plain_chars(w, p);
    assert(number::is_digit(x[x.len() - 1]) || x[x.len() - 1] == '.');
    lemma_trim_plain(x);
    number::law_decimals_are_worth_their_digits(w, p, HOUR as nat);
    number::law_decimals_are_worth_their_digits(w, p, MINUTE as nat);
    let h = number::worth(w, p, 3_600_000_000);
    let m = number::worth(w, p, 60_000_000);
    let dw = number::digits_value(w) as int;
    assert(dw * 3_600_000_000 >= 0 && dw * 60_000_000 >= 0);
    lemma_mark_alone(x, 'h');
    lemma_mark_alone(x, 'm');
    assert(x.push('h') + none =~= x.push('h'));
    assert(x.push('m') + none =~= x.push('m'));
    lemma_marked_number(w, p, 'h', none, HOUR as nat);
    lemma_marked_number(w, p, 'm', none, MINUTE as nat);
    lemma_unmarked(none, 'm', MINUTE as nat);
    assert(!x.push('m').contains('h'));
    lemma_unmarked(x.push('m'), 'h', HOUR as nat);
}

/// A number with a mark behind it is short as it stands, and no bare number.
proof fn lemma_mark_alone(x: Seq<char>, mark: char)
    requires
        x.len() > 0,
        forall|i: int| 0 <= i < x.len() ==> number::is_digit(#[trigger] x[i]) || x[i] == '.',
        mark == 'h' || mark == 'm',
    ensures
        text::trim(x.push(mark)) == x.push(mark),
        compact(x.push(mark)) == x.push(mark),
        number::read_amount(x.push(mark), HOUR as nat) is None,
{
    let s = x.push(mark);
    let keep = |c: char| !text::is_space(c);
    assert forall|i: int| 0 <= i < s.len() implies number::is_digit(#[trigger] s[i]) || s[i] == '.'
        || s[i] == 'h' || s[i] == 'm' || s[i] == ' ' by {
        if i < x.len() {
            assert(s[i] == x[i]);
        }
    }
    assert(s[0] == x[0]);
    lemma_marked_is_no_number(s, x.len() as int, HOUR as nat);
    lemma_trim_plain(s);
    lemma_lower_same(s);
    assert forall|i: int| 0 <= i < s.len() implies keep(#[trigger] s[i]) by {
        if i < x.len() {
            assert(s[i] == x[i]);
        }
    }
    lemma_filter_all(s, keep);
}

/// Digits and points.
pub open spec fn is_number_text(x: Seq<char>) -> bool {
    &&& x.len() > 0
    &&& forall|i: int| 0 <= i < x.len() ==> number::is_digit(#[trigger] x[i]) || x[i] == '.'
}

/// A number with a mark behind it, a gap of blanks, and another one.
proof fn lemma_two_numbers_shape(x: Seq<char>, gap: Seq<char>, y: Seq<char>)
    requires
        is_number_text(x),
        is_number_text(y),
        gap == Seq::<char>::empty() || gap == seq![' '],
    ensures
        ({
            let s = x.push('h') + gap + y.push('m');
            &&& text::trim(s) == s
            &&& compact(s) == x.push('h') + y.push('m')
            &&& number::read_amount(s, HOUR as nat) is None
        }),
{
    let front = x.push('h');
    let tail = y.push('m');
    let s = front + gap + tail;
    let keep = |c: char| !text::is_space(c);
    assert forall|i: int| 0 <= i < front.len() implies number::is_digit(#[trigger] front[i])
        || front[i] == '.' || front[i] == 'h' by {
        if i < x.len() {
            assert(front[i] == x[i]);
        }
    }
    assert forall|i: int| 0 <= i < tail.len() implies number::is_digit(#[trigger] tail[i])
        || tail[i] == '.' || tail[i] == 'm' by {
        if i < y.len() {
            assert(tail[i] == y[i]);
        }
    }
    assert forall|i: int| 0 <= i < s.len() implies number::is_digit(#[trigger] s[i]) || s[i] == '.'
        || s[i] == 'h' || s[i] == 'm' || s[i] == ' ' by {
        if i < front.len() {
            assert(s[i] == front[i]);
        } else if i < front.len() + gap.len() {
            assert(s[i] == gap[i - front.len()]);
        } else {
            assert(s[i] == tail[i - front.len() - gap.len()]);
        }
    }
    assert(s[0] == x[0]);
    assert(s[x.len() as int] == 'h');
    assert(s.last() == 'm');
    lemma_marked_is_no_number(s, x.len() as int, HOUR as nat);
    lemma_trim_plain(s);
    lemma_lower_same(s);
    assert forall|i: int| 0 <= i < front.len() implies keep(#[trigger] front[i]) by {
        assert(number::is_digit(front[i]) || front[i] == '.' || front[i] == 'h');
    }
    assert forall|i: int| 0 <= i < tail.len() implies keep(#[trigger] tail[i]) by {
        assert(number::is_digit(tail[i]) || tail[i] == '.' || tail[i] == 'm');
    }
    lemma_filter_all(front, keep);
    lemma_filter_all(tail, keep);
    if gap.len() > 0 {
        front.lemma_filter_push(' ', keep);
        assert(front + gap =~= front.push(' '));
    } else {
        assert(front + gap =~= front);
    }
    Seq::filter_distributes_over_add(front + gap, tail, keep);
}

/// Hours and minutes add up, with a blank between them or without.
pub proof fn law_hours_and_minutes_add_up(
    w: Seq<char>,
    p: Seq<char>,
    v: Seq<char>,
    q: Seq<char>,
)
    requires
        number::all_digits(w),
        number::all_digits(p),
        w.len() + p.len() > 0,
        number::all_digits(v),
        number::all_digits(q),
        v.len() + q.len() > 0,
    ensures
        ({
            let x = number::plain(w, p).push('h');
            let y = number::plain(v, q).push('m');
            let sum = duration_of(x)->0 + duration_of(y)->0;
            &&& duration_of(x + y) == Some(at_most(sum, i64::MAX as int) as i64)
            &&& duration_of(x + seq![' '] + y) == Some(at_most(sum, i64::MAX as int) as i64)
        }),
{
    let x = number::plain(w, p);
    let y = number::plain(v, q);
    let front = x.push('h');
    let tail = y.push('m');
    let none = Seq::<char>::empty();
    let h = number::worth(w, p, 3_600_000_000);
    let m = number::worth(v, q, 60_000_000);
    number::lemma_plain_chars(w, p);
    number::lemma_plain_chars(v, q);
    law_units_are_read(w, p);
    law_units_are_read(v, q);
    assert(h >= 0) by {
        number::law_decimals_are_worth_their_digits(w, p, HOUR as nat);
        assert(number::digits_value(w) * 3_600_000_000 >= 0);
    }
    assert(m >= 0) by {
        number::law_decimals_are_worth_their_digits(v, q, MINUTE as nat);
        assert(number::digits_value(v) * 60_000_000 >= 0);
    }
    lemma_marked_number(w, p, 'h', tail, HOUR as nat);
    assert(tail + none =~= tail);
    lemma_marked_number(v, q, 'm', none, MINUTE as nat);
    lemma_two_numbers_shape(x, none, y);
    lemma_two_numbers_shape(x, seq![' '], y);
    assert(front + none =~= front);
    assert(marked_duration(front + tail) == Some(
        at_most_largest(number::capped(h as nat) + number::capped(m as nat)),
    ));
}

/// A negative number is no duration, whatever unit it has.
pub proof fn law_no_duration_is_negative(w: Seq<char>, p: Seq<char>)
    requires
        number::all_digits(w),
        number::all_digits(p),
        w.len() + p.len() > 0,
        number::digits_value(w + p) > 0,
    ensures
        duration_of(seq!['-'] + number::plain(w, p)) is None,
        duration_of(seq!['-'] + number::plain(w, p).push('h')) is None,
        duration_of(seq!['-'] + number::plain(w, p).push('m')) is None,
{
    let x = number::plain(w, p);
    let y = seq!['-'] + x;
    number::lemma_plain_chars(w, p);
    number::law_signs_count(w, p, HOUR as nat);
    number::law_signs_count(w, p, MINUTE as nat);
    assert(number::is_digit(x[x.len() - 1]) || x[x.len() - 1] == '.');
    lemma_trim_plain(y);
    lemma_negative_mark(x, 'h');
    lemma_negative_mark(x, 'm');
    let none = Seq::<char>::empty();
    let h = y.push('h');
    let m = y.push('m');
    assert(seq!['-'] + x.push('h') =~= h);
    assert(seq!['-'] + x.push('m') =~= m);
    assert forall|i: int| 0 <= i < y.len() implies #[trigger] y[i] != 'h' && y[i] != 'm' by {
        if i > 0 {
            assert(y[i] == x[i - 1]);
        }
    }
    assert(h.take(y.len() as int) =~= y);
    assert(m.take(y.len() as int) =~= y);
    number::lemma_position(h, 'h', y.len() as int);
    number::lemma_position(m, 'm', y.len() as int);
    assert(!m.contains('h'));
    lemma_unmarked(m, 'h', HOUR as nat);
}

proof fn lemma_negative_mark(x: Seq<char>, mark: char)
    requires
        x.len() > 0,
        forall|i: int| 0 <= i < x.len() ==> number::is_digit(#[trigger] x[i]) || x[i] == '.',
        mark == 'h' || mark == 'm',
    ensures
        ({
            let s = (seq!['-'] + x).push(mark);
            &&& text::trim(s) == s
            &&& compact(s) == s
            &&& number::read_amount(s, HOUR as nat) is None
        }),
{
    let s = (seq!['-'] + x).push(mark);
    let t = x.push(mark);
    let keep = |c: char| !text::is_space(c);
    lemma_mark_alone(x, mark);
    assert(s.drop_first() =~= t);
    assert(t[0] == x[0]);
    assert forall|i: int| 0 <= i < s.len() implies !('A' <= #[trigger] s[i] <= 'Z') && keep(
        s[i],
    ) by {
        if 0 < i < s.len() - 1 {
            assert(s[i] == x[i - 1]);
        }
    }
    assert forall|i: int| 0 <= i < t.len() implies !('A' <= #[trigger] t[i] <= 'Z') by {
        assert(t[i] == s[i + 1]);
    }
    number::lemma_no_special(t);
    lemma_lower_same(s);
    lemma_lower_same(t);
    lemma_trim_plain(s);
    lemma_filter_all(s, keep);
}

/// Blanks around a duration, and the case of its letters, make no difference.
pub proof fn law_blanks_and_case_do_not_matter(s: Seq<char>)
    ensures
        duration_of(seq![' '] + s) == duration_of(s),
        duration_of(s.push(' ')) == duration_of(s),
        duration_of(number::lower(s)) == duration_of(s),
{
    assert((seq![' '] + s).drop_first() =~= s);
    lemma_trim_push(s);
    lemma_trim_lower(s);
    let t = text::trim(s);
    number::law_case_does_not_matter(t, HOUR as nat);
    assert(number::lower(number::lower(t)) =~= number::lower(t));
}

proof fn lemma_trim_push(s: Seq<char>)
    ensures
        text::trim(s.push(' ')) == text::trim(s),
    decreases s.len(),
{
    if s.len() > 0 && text::is_space(s[0]) {
        assert(s.push(' ').drop_first() =~= s.drop_first().push(' '));
        lemma_trim_push(s.drop_first());
    } else if s.len() == 0 {
        assert(s.push(' ').drop_first() =~= s);
        assert(text::trim_start(s.push(' ')) == text::trim_start(s));
    } else {
        assert(s.push(' ').drop_last() =~= s);
    }
}

proof fn lemma_trim_lower(s: Seq<char>)
    ensures
        text::trim(number::lower(s)) == number::lower(text::trim(s)),
    decreases s.len(),
{
    let t = number::lower(s);
    if s.len() > 0 && text::is_space(s[0]) {
        assert(t[0] == s[0]);
        assert(t.drop_first() =~= number::lower(s.drop_first()));
        lemma_trim_lower(s.drop_first());
    } else {
        if s.len() > 0 {
            assert(t[0] == number::lower_char(s[0]));
            assert(!text::is_space(t[0]));
        }
        lemma_trim_end_lower(s);
    }
}

proof fn lemma_trim_end_lower(s: Seq<char>)
    ensures
        text::trim_end(number::lower(s)) == number::lower(text::trim_end(s)),
    decreases s.len(),
{
    let t = number::lower(s);
    if s.len() > 0 {
        assert(t.last() == number::lower_char(s.last()));
        assert(t.drop_last() =~= number::lower(s.drop_last()));
        lemma_trim_end_lower(s.drop_last());
    }
}

/// A character that a duration can be written with: those of numbers, the unit marks,
/// white space, and the letters of `inf`, `infinity` and `nan`, in upper or lower case.
pub open spec fn is_duration_text(c: char) -> bool {
    let d = number::lower_char(c);
    ||| number::is_digit(d)
    ||| d == '.' || d == '+' || d == '-' || d == 'e'
    ||| d == 'h' || d == 'm'
    ||| text::is_space(c)
    ||| d == 'i' || d == 'n' || d == 'f' || d == 't' || d == 'y' || d == 'a'
}

proof fn lemma_decimal_chars(s: Seq<char>, i: int)
    requires
        number::read_decimal(s) is Some,
        0 <= i < s.len(),
    ensures
        number::is_digit(s[i]) || s[i] == '.' || s[i] == 'e' || s[i] == '+' || s[i] == '-',
{
    let e = number::position(s, 'e');
    number::lemma_position_bound(s, 'e');
    lemma_position_is(s, 'e');
    let mantissa = s.take(e);
    if i < e {
        let p = number::position(mantissa, '.');
        number::lemma_position_bound(mantissa, '.');
        lemma_position_is(mantissa, '.');
        assert(mantissa[i] == s[i]);
        if i < p {
            assert(mantissa.take(p)[i] == s[i]);
        } else if i > p {
            assert(mantissa.skip(p + 1)[i - p - 1] == s[i]);
        }
    } else if i > e {
        let x = s.skip(e + 1);
        let k = i - e - 1;
        let d = number::unsigned(x);
        assert(x[k] == s[i]);
        if number::has_sign(x) {
            if k > 0 {
                assert(d[k - 1] == x[k]);
            }
        } else {
            assert(d[k] == x[k]);
        }
    }
}

proof fn lemma_amount_chars(s: Seq<char>, unit: nat, i: int)
    requires
        number::read_amount(s, unit) is Some,
        0 <= i < s.len(),
    ensures
        is_duration_text(s[i]),
{
    let u = number::unsigned(s);
    let body = number::lower(u);
    if number::has_sign(s) && i == 0 {
    } else {
        let k = if number::has_sign(s) {
            i - 1
        } else {
            i
        };
        assert(u[k] == s[i]);
        assert(body[k] == number::lower_char(s[i]));
        reveal_strlit("inf");
        reveal_strlit("infinity");
        reveal_strlit("nan");
        if body != "inf"@ && body != "infinity"@ && body != "nan"@ {
            lemma_decimal_chars(body, k);
        }
    }
}

proof fn lemma_marked_chars(s: Seq<char>, mark: char, unit: nat)
    requires
        marked_amount(s, mark, unit) is Some,
        mark == 'h' || mark == 'm',
    ensures
        ({
            let rest = (marked_amount(s, mark, unit)->0).1;
            &&& rest.len() <= s.len()
            &&& forall|i: int|
                0 <= i < s.len() - rest.len() ==> is_duration_text(#[trigger] s[i])
            &&& rest =~= s.skip(s.len() - rest.len())
        }),
{
    let p = number::position(s, mark);
    number::lemma_position_bound(s, mark);
    lemma_position_is(s, mark);
    if p < s.len() {
        assert forall|i: int| 0 <= i < p implies is_duration_text(#[trigger] s[i]) by {
            assert(s.take(p)[i] == s[i]);
            lemma_amount_chars(s.take(p), unit, i);
        }
    }
}

proof fn lemma_compact_keeps(t: Seq<char>, i: int)
    requires
        0 <= i < t.len(),
        !text::is_space(t[i]),
    ensures
        compact(t).contains(number::lower_char(t[i])),
    decreases t.len(),
{
    let keep = |c: char| !text::is_space(c);
    let low = number::lower(t);
    let front = number::lower(t.drop_last());
    assert(low =~= front.push(number::lower_char(t.last())));
    front.lemma_filter_push(number::lower_char(t.last()), keep);
    if i < t.len() - 1 {
        lemma_compact_keeps(t.drop_last(), i);
        assert(t.drop_last()[i] == t[i]);
        let c = number::lower_char(t[i]);
        let before = front.filter(keep);
        let k = choose|k: int| 0 <= k < before.len() && before[k] == c;
        assert(compact(t)[k] == c);
    } else {
        assert(keep(number::lower_char(t.last())));
        assert(compact(t).last() == number::lower_char(t[i]));
    }
}

/// Nothing but numbers, unit marks and white space is read as a duration: not `2x`, and
/// not `WIP`.
pub proof fn law_other_text_is_no_duration(s: Seq<char>, i: int)
    requires
        0 <= i < s.len(),
        !is_duration_text(s[i]),
    ensures
        duration_of(s) is None,
{
    let t = text::trim(s);
    lemma_trim_keeps(s, i);
    let k = choose|k: int| 0 <= k < t.len() && t[k] == s[i];
    if duration_of(s) is Some {
        if number::read_amount(t, HOUR as nat) is Some {
            lemma_amount_chars(t, HOUR as nat, k);
        } else {
            let c = compact(t);
            let behind = (marked_amount(c, 'h', HOUR as nat)->0).1;
            lemma_marked_chars(c, 'h', HOUR as nat);
            lemma_marked_chars(behind, 'm', MINUTE as nat);
            lemma_compact_keeps(t, k);
            let d = number::lower_char(t[k]);
            let j = choose|j: int| 0 <= j < c.len() && c[j] == d;
            if j >= c.len() - behind.len() {
                assert(behind[j - (c.len() - behind.len())] == c[j]);
            }
            assert(is_duration_text(c[j]));
            assert(number::lower_char(d) == d);
        }
    }
}

proof fn lemma_trim_keeps(s: Seq<char>, i: int)
    requires
        0 <= i < s.len(),
        !text::is_space(s[i]),
    ensures
        text::trim(s).contains(s[i]),
    decreases s.len(),
{
    if text::is_space(s[0]) {
        lemma_trim_keeps(s.drop_first(), i - 1);
        assert(s.drop_first()[i - 1] == s[i]);
    } else {
        lemma_trim_end_keeps(s, i);
    }
}

proof fn lemma_trim_end_keeps(s: Seq<char>, i: int)
    requires
        0 <= i < s.len(),
        !text::is_space(s[i]),
    ensures
        text::trim_end(s).contains(s[i]),
    decreases s.len(),
{
    if text::is_space(s.last()) {
        lemma_trim_end_keeps(s.drop_last(), i);
        assert(s.drop_last()[i] == s[i]);
    } else {
        assert(s[i] == s[i]);
    }
}

/// An estimate tells what it rests on: how many commits there are and how many sessions they make.
pub proof fn law_estimates_tell_what_they_rest_on(e: SessionSpan, times: Seq<i64>)
    ensures
        times.len() == 0 ==> e.reason(times) == "no commits"@,
        times.len() > 0 ==> e.reason(times) == text::decimal(times.len()) + (if times.len() == 1 {
            " commit, "@
        } else {
            " commits, "@
        }) + text::decimal(e.sessions(times) as nat) + (if e.sessions(times) == 1 {
            " session"@
        } else {
            " sessions"@
        }),
{
    reveal_strlit(" commit, ");
    reveal_strlit(" commits, ");
    reveal_strlit(" commit");
    reveal_strlit(", ");
    reveal_strlit(" session");
    reveal_strlit(" sessions");
    if times.len() > 0 {
        assert(e.reason(times) =~= text::decimal(times.len()) + (if times.len() == 1 {
            " commit, "@
        } else {
            " commits, "@
        }) + text::decimal(e.sessions(times) as nat) + (if e.sessions(times) == 1 {
            " session"@
        } else {
            " sessions"@
        }));
    }
}

} // verus!
