//! The middle pane: the calendar.

use vstd::prelude::*;

use crate::cache::Overrides;
use crate::dates;
use crate::dates::Date;
use crate::scans;
use crate::state::{Action, App, Key};

verus! {

/// The cursor moved by so many days, and the calendar with it. It stays where there
/// is no such day.
pub open spec fn cursor_moved(a: App, days: int, b: App) -> bool {
    let to = a.selected_date.number() + days;
    if dates::first_day().number() <= to <= dates::last_day().number() {
        &&& b == App { selected_date: b.selected_date, cal_month: b.cal_month, ..a }
        &&& b.selected_date.valid()
        &&& b.selected_date.number() == to
        &&& b.cal_month == b.selected_date.month_start()
    } else {
        b == a
    }
}

/// Months since the start of year 0.
pub open spec fn month_number(d: Date) -> int {
    d.year * 12 + d.month - 1
}

/// The calendar shows the month so many months later. It stays where there is no
/// such month.
pub open spec fn month_shifted(a: App, months: int, b: App) -> bool {
    let to = month_number(a.cal_month) + months;
    if dates::MIN_YEAR <= to / 12 <= dates::MAX_YEAR {
        &&& b == App { cal_month: b.cal_month, ..a }
        &&& b.cal_month.valid()
        &&& b.cal_month.day == 1
        &&& month_number(b.cal_month) == to
    } else {
        b == a
    }
}

/// What a key does in the calendar.
pub open spec fn middle_step(a: App, key: Key, b: App, act: Action) -> bool {
    if key == Key::Left || key == Key::Char('h') {
        cursor_moved(a, -1, b) && act == Action::Idle
    } else if key == Key::Right || key == Key::Char('l') {
        cursor_moved(a, 1, b) && act == Action::Idle
    } else if key == Key::Up || key == Key::Char('k') {
        cursor_moved(a, -7, b) && act == Action::Idle
    } else if key == Key::Down || key == Key::Char('j') {
        cursor_moved(a, 7, b) && act == Action::Idle
    } else if key == Key::Char('[') {
        month_shifted(a, -1, b) && act == Action::Idle
    } else if key == Key::Char(']') {
        month_shifted(a, 1, b) && act == Action::Idle
    } else if key == Key::Char('t') {
        &&& b == App { selected_date: a.today, cal_month: a.today.month_start(), ..a }
        &&& act == Action::Idle
    } else if key == Key::Char('y') {
        &&& act == Action::Idle
        &&& if a.today.number() > dates::first_day().number() {
            &&& b == App { selected_date: b.selected_date, cal_month: b.cal_month, ..a }
            &&& b.selected_date.valid()
            &&& b.selected_date.number() == a.today.number() - 1
            &&& b.cal_month == b.selected_date.month_start()
        } else {
            b == a
        }
    } else if key == Key::Char(' ') || key == Key::Char('r') {
        &&& b == App {
            range_anchor: if a.range_anchor is Some {
                None
            } else {
                Some(a.selected_date)
            },
            hours_overrides: b.hours_overrides,
            ..a
        }
        &&& b.hours_overrides.entries@.len() == 0
        &&& act == Action::Idle
    } else if key == Key::Enter {
        scans::scan_step(a, false, b, act)
    } else {
        b == a && act == Action::Idle
    }
}

impl App {
    /// Moves the cursor by so many days.
    pub fn move_cursor(&mut self, days: i64)
        requires
            old(self).wf(),
        ensures
            final(self).wf(),
            cursor_moved(*old(self), days as int, *final(self)),
    {
        proof {
            dates::lemma_number_bounds(self.selected_date);
        }
        if let Some(d) = self.selected_date.add_days(days) {
            proof {
                dates::lemma_number_bounds(d);
            }
            self.selected_date = d;
            self.cal_month = dates::first_of_month(d);
        }
    }

    /// Turns the calendar by so many months.
    pub fn shift_month(&mut self, delta: i32)
        requires
            old(self).wf(),
        ensures
            final(self).wf(),
            month_shifted(*old(self), delta as int, *final(self)),
    {
        let month: i64 = self.cal_month.month as i64;
        let total: i64 = self.cal_month.year as i64 * 12 + (month - 1) + delta as i64;
        let mut year: i64 = total / 12;
        let mut rest: i64 = total % 12;
        if rest < 0 {
            year = year - 1;
            rest = rest + 12;
        }
        proof {
            lemma_euclid(total as int, year as int, rest as int);
        }
        if let Some(d) = Date::from_ymd(year as i32, (rest + 1) as u32, 1) {
            self.cal_month = d;
        }
    }

    /// A key in the calendar.
    pub fn handle_middle(&mut self, key: Key) -> (act: Action)
        requires
            old(self).wf(),
        ensures
            final(self).wf(),
            middle_step(*old(self), key, *final(self), act),
    {
        if key == Key::Left || key == Key::Char('h') {
            self.move_cursor(-1);
        } else if key == Key::Right || key == Key::Char('l') {
            self.move_cursor(1);
        } else if key == Key::Up || key == Key::Char('k') {
            self.move_cursor(-7);
        } else if key == Key::Down || key == Key::Char('j') {
            self.move_cursor(7);
        } else if key == Key::Char('[') {
            self.shift_month(-1);
        } else if key == Key::Char(']') {
            self.shift_month(1);
        } else if key == Key::Char('t') {
            self.selected_date = self.today;
            self.cal_month = dates::first_of_month(self.today);
        } else if key == Key::Char('y') {
            proof {
                dates::lemma_number_bounds(self.today);
            }
            if let Some(d) = self.today.add_days(-1) {
                proof {
                    dates::lemma_number_bounds(d);
                }
                self.selected_date = d;
                self.cal_month = dates::first_of_month(d);
            }
        } else if key == Key::Char(' ') || key == Key::Char('r') {
            self.range_anchor = if self.range_anchor.is_some() {
                None
            } else {
                Some(self.selected_date)
            };
            self.hours_overrides = Overrides { entries: Vec::new() };
        } else if key == Key::Enter {
            return self.do_scan(false);
        }
        Action::Idle
    }
}

proof fn lemma_euclid(total: int, year: int, rest: int)
    requires
        total == year * 12 + rest,
        0 <= rest < 12,
    ensures
        total / 12 == year,
{
}

/// A step of the cursor and the step back lead to the same day, if there was a day
/// to step to.
pub proof fn law_cursor_steps_back(a: App, days: int, b: App, c: App)
    requires
        a.wf(),
        cursor_moved(a, days, b),
        cursor_moved(b, -days, c),
        dates::first_day().number() <= a.selected_date.number() + days
            <= dates::last_day().number(),
    ensures
        c.selected_date == a.selected_date,
{
    dates::lemma_number_bounds(a.selected_date);
    dates::law_days_are_numbered_in_order(a.selected_date, c.selected_date);
}

/// A month forward and a month back is the same month, if there was a month to turn
/// to.
pub proof fn law_months_turn_back(a: App, months: int, b: App, c: App)
    requires
        a.wf(),
        month_shifted(a, months, b),
        month_shifted(b, -months, c),
        dates::MIN_YEAR <= (month_number(a.cal_month) + months) / 12 <= dates::MAX_YEAR,
    ensures
        c.cal_month == a.cal_month,
{
    let m = month_number(a.cal_month);
    lemma_euclid(m, a.cal_month.year as int, a.cal_month.month - 1);
    assert(month_number(c.cal_month) == m);
    lemma_euclid(m, c.cal_month.year as int, c.cal_month.month - 1);
}

/// Wherever the cursor goes, the calendar shows its month.
pub proof fn law_calendar_follows_cursor(a: App, days: int, b: App)
    requires
        a.wf(),
        a.cal_month == a.selected_date.month_start(),
        cursor_moved(a, days, b),
    ensures
        b.cal_month == b.selected_date.month_start(),
{
}

/// In the calendar the arrows and their letters move the cursor by a day to the sides and by a
/// week up and down, wherever there is such a day.
pub proof fn law_arrows_move_by_days_and_weeks(a: App, key: Key, b: App, act: Action, days: int)
    requires
        a.wf(),
        middle_step(a, key, b, act),
        ({
            ||| (key == Key::Left || key == Key::Char('h')) && days == -1
            ||| (key == Key::Right || key == Key::Char('l')) && days == 1
            ||| (key == Key::Up || key == Key::Char('k')) && days == -7
            ||| (key == Key::Down || key == Key::Char('j')) && days == 7
        }),
    ensures
        dates::first_day().number() <= a.selected_date.number() + days
            <= dates::last_day().number() ==> b.selected_date.number() == a.selected_date.number()
            + days && b.cal_month.year == b.selected_date.year && b.cal_month.month
            == b.selected_date.month && b.cal_month.day == 1,
        !(dates::first_day().number() <= a.selected_date.number() + days
            <= dates::last_day().number()) ==> b == a,
        b == (App { selected_date: b.selected_date, cal_month: b.cal_month, ..a }),
        act == Action::Idle,
{
}

/// In the calendar the brackets turn a month back and forth, and leave the cursor where it is.
pub proof fn law_brackets_turn_months(a: App, key: Key, b: App, act: Action, months: int)
    requires
        a.wf(),
        middle_step(a, key, b, act),
        key == Key::Char('[') && months == -1 || key == Key::Char(']') && months == 1,
    ensures
        b.selected_date == a.selected_date,
        b.cal_month.day == 1,
        1 < a.cal_month.month < 12 ==> b.cal_month.year == a.cal_month.year && b.cal_month.month
            == a.cal_month.month + months,
        a.cal_month.month == 12 && months == 1 && a.cal_month.year < dates::MAX_YEAR
            ==> b.cal_month.month == 1 && b.cal_month.year == a.cal_month.year + 1,
        a.cal_month.month == 1 && months == -1 && a.cal_month.year > dates::MIN_YEAR
            ==> b.cal_month.month == 12 && b.cal_month.year == a.cal_month.year - 1,
        act == Action::Idle,
{
}

/// In the calendar `t` goes to today and `y` to the day before it.
pub proof fn law_letters_go_to_today_and_yesterday(a: App, key: Key, b: App, act: Action)
    requires
        a.wf(),
        middle_step(a, key, b, act),
    ensures
        key == Key::Char('t') ==> b.selected_date == a.today,
        key == Key::Char('y') && a.today.number() > dates::first_day().number()
            ==> b.selected_date.number() == a.today.number() - 1,
        key == Key::Char('t') || key == Key::Char('y') ==> b == (App {
            selected_date: b.selected_date,
            cal_month: b.cal_month,
            ..a
        }) && act == Action::Idle,
{
}

/// In the calendar the space bar sets the anchor of a range on the day of the cursor, and takes
/// it away again. Hours that were set belong to other days then, and are forgotten.
pub proof fn law_space_sets_the_anchor_and_takes_it_away(
    a: App,
    key: Key,
    b: App,
    act: Action,
    ticket: Seq<char>,
)
    requires
        middle_step(a, key, b, act),
        key == Key::Char(' ') || key == Key::Char('r'),
    ensures
        a.range_anchor is None ==> b.range_anchor == Some(a.selected_date),
        a.range_anchor is Some ==> b.range_anchor is None,
        b.selected_date == a.selected_date,
        b.hours_overrides.get(ticket) is None,
        act == Action::Idle,
{
}

} // verus!
