# dlog

A daily logger of git work. It scans local git repositories for the commits of
their user, groups them by ticket key, estimates how long the work took, posts
worklogs to Jira Cloud and shows a summary for the morning standup.

## Layout

- `src/` is the library, verified with Verus. It holds the rules: how durations
  are read and written, how commits are grouped and their hours estimated, how a
  budget is split, what every key of the interface does, and what every pane
  shows. It performs no input or output.
- `app/` is the program: it reads repositories and settings, talks to Jira,
  GitHub and Bitbucket, keeps scans and worklogs in a database, and draws on the
  terminal.
- `tests/` runs the library on concrete values.

The interface is a state machine. A key, or a message from outside, goes into one
of the methods of `state::App`; out of it comes a `state::Action` that the program
performs, whose result goes into the next method.

Durations are whole numbers of microseconds. Dates are those of the proleptic
Gregorian calendar.

## Keys

- **Repos** (left): `a` add, `x` remove, arrows select.
- **Date** (middle): arrows move, `[` and `]` change the month, `t` today, `y`
  yesterday, space or `r` toggle the anchor of a range.
- **Results** (right): arrows select a ticket, `e` edit its time, `f` fill a
  budget, page keys scroll.
- Everywhere: Tab next pane, `s` scan, `S` scan anew, `m` standup, `p` push, `J`
  Jira settings, `G` refresh pull requests, `q` or Esc quit.

Put a bracketed duration such as `[30m]` or `[1h 15m]` into a commit message to
fix the time of that commit.
