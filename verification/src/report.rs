//! Commits grouped by ticket, with the hours of each group.

use vstd::prelude::*;

use crate::config;
use crate::config::EstimationConfig;
use crate::hours;
use crate::hours::{FirstToLast, Hours, HoursEstimator, SessionSpan};
use crate::order;
use crate::scanner::CommitRecord;
use crate::text;
use crate::tickets;

verus! {

/// The group of the commits without a ticket key.
pub const UNTAGGED: &'static str = "(untagged)";

/// A ticket and its commits.
pub type Group<'a> = (String, Vec<&'a CommitRecord>);

/// The ticket keys that a commit names in its branches, subject and body.
pub open spec fn record_keys(r: CommitRecord) -> Seq<Seq<char>> {
    tickets::keys_in(r.branches@) + tickets::keys_in(r.subject@) + tickets::keys_in(r.body@)
}

/// A commit belongs to the group of each ticket that it names, and to the
/// untagged one where it names none.
pub open spec fn in_group(r: CommitRecord, name: Seq<char>) -> bool {
    if record_keys(r).len() == 0 {
        name == UNTAGGED@
    } else {
        record_keys(r).contains(name)
    }
}

/// The older commit comes first; of two that are equally old, the one that comes
/// first in `records`.
pub open spec fn older(records: Seq<CommitRecord>, a: int, b: int) -> bool {
    records[a].author_time < records[b].author_time || records[a].author_time
        == records[b].author_time && a < b
}

/// `commits` are those of `records` at the positions `at`, which are all the
/// positions of commits of the group, each once, from the oldest to the newest.
pub open spec fn are_members(
    records: Seq<CommitRecord>,
    name: Seq<char>,
    commits: Seq<&CommitRecord>,
    at: Seq<int>,
) -> bool {
    &&& at.len() == commits.len()
    &&& forall|i: int|
        0 <= i < at.len() ==> {
            &&& 0 <= #[trigger] at[i] < records.len()
            &&& in_group(records[at[i]], name)
            &&& *commits[i] == records[at[i]]
        }
    &&& forall|n: int|
        0 <= n < records.len() && in_group(#[trigger] records[n], name) ==> at.contains(n)
    &&& forall|i: int, j: int|
        0 <= i < j < at.len() ==> older(records, #[trigger] at[i], #[trigger] at[j])
}

/// `commits` are the commits of the group, from the oldest to the newest.
pub open spec fn group_holds(
    records: Seq<CommitRecord>,
    name: Seq<char>,
    commits: Seq<&CommitRecord>,
) -> bool {
    exists|at: Seq<int>| are_members(records, name, commits, at)
}

/// Some commit belongs to the group.
pub open spec fn group_exists(records: Seq<CommitRecord>, name: Seq<char>) -> bool {
    exists|n: int| 0 <= n < records.len() && in_group(#[trigger] records[n], name)
}

/// Group `a` is listed before group `b`: tickets in order, untagged at the end.
pub open spec fn listed_before(a: Seq<char>, b: Seq<char>) -> bool {
    a != UNTAGGED@ && (b == UNTAGGED@ || order::text_lt(a, b))
}

/// `names` are those of the groups of `records`, in the order they are listed in.
pub open spec fn are_group_names(records: Seq<CommitRecord>, names: Seq<Seq<char>>) -> bool {
    &&& forall|k: Seq<char>| #[trigger] names.contains(k) <==> group_exists(records, k)
    &&& forall|i: int, j: int|
        0 <= i < j < names.len() ==> listed_before(#[trigger] names[i], #[trigger] names[j])
}

/// The names of the groups of `records`.
pub open spec fn names_of(records: Seq<CommitRecord>) -> Seq<Seq<char>> {
    choose|names: Seq<Seq<char>>| are_group_names(records, names)
}

/// `names` and `commits` are the groups of `records`.
pub open spec fn are_groups(
    records: Seq<CommitRecord>,
    names: Seq<Seq<char>>,
    commits: Seq<Seq<&CommitRecord>>,
) -> bool {
    &&& names.len() == commits.len()
    &&& are_group_names(records, names)
    &&& forall|i: int|
        0 <= i < names.len() ==> group_holds(records, #[trigger] names[i], commits[i])
}

pub open spec fn group_names(groups: Seq<Group<'_>>) -> Seq<Seq<char>> {
    Seq::new(groups.len(), |i: int| groups[i].0@)
}

pub open spec fn group_members<'a>(groups: Seq<Group<'a>>) -> Seq<Seq<&'a CommitRecord>> {
    Seq::new(groups.len(), |i: int| groups[i].1@)
}

/// The names of the groups that a commit belongs to.
fn labels(r: &CommitRecord) -> (out: Vec<String>)
    ensures
        forall|k: Seq<char>| #[trigger] text::texts(out@).contains(k) <==> in_group(*r, k),
        record_keys(*r).len() > 0 ==> !text::texts(out@).contains(UNTAGGED@),
{
    let mut keys = tickets::extract(r.branches.as_str());
    let mut more = tickets::extract(r.subject.as_str());
    let mut rest = tickets::extract(r.body.as_str());
    let ghost a = text::texts(keys@);
    let ghost b = text::texts(more@);
    let ghost c = text::texts(rest@);
    keys.append(&mut more);
    keys.append(&mut rest);
    let ghost all = text::texts(keys@);
    proof {
        assert(all =~= a + b + c);
        let ka = tickets::keys_in(r.branches@);
        let kb = tickets::keys_in(r.subject@);
        let kc = tickets::keys_in(r.body@);
        assert forall|k: Seq<char>| #[trigger] all.contains(k) <==> record_keys(*r).contains(k) by {
            order::lemma_add_contains(a, b, k);
            order::lemma_add_contains(a + b, c, k);
            order::lemma_add_contains(ka, kb, k);
            order::lemma_add_contains(ka + kb, kc, k);
            assert(a.contains(k) <==> ka.contains(k));
            assert(b.contains(k) <==> kb.contains(k));
            assert(c.contains(k) <==> kc.contains(k));
        }
        if record_keys(*r).len() > 0 {
            assert(record_keys(*r).contains(record_keys(*r)[0]));
            assert(all.contains(record_keys(*r)[0]));
        }
        if all.len() > 0 {
            assert(all.contains(all[0]));
        }
        if all.contains(UNTAGGED@) {
            order::lemma_add_contains(a, b, UNTAGGED@);
            order::lemma_add_contains(a + b, c, UNTAGGED@);
            reveal_strlit("(untagged)");
            assert(tickets::starts_like_key(UNTAGGED@));
        }
    }
    if keys.len() == 0 {
        keys.push(UNTAGGED.to_owned());
        proof {
            let one = text::texts(keys@);
            assert(one =~= seq![UNTAGGED@]);
            assert forall|k: Seq<char>| #[trigger] one.contains(k) <==> in_group(*r, k) by {
                if k == UNTAGGED@ {
                    assert(one[0] == k);
                }
            }
        }
        return keys;
    }
    let out = order::text_set(&keys);
    proof {
        assert forall|k: Seq<char>| #[trigger] text::texts(out@).contains(k) <==> in_group(
            *r,
            k,
        ) by {
            assert(all.contains(k) <==> record_keys(*r).contains(k));
        }
    }
    out
}

/// Groups commits by ticket. A commit that names several tickets is in the group
/// of each; one that names none is in the untagged group, which holds no other
/// and comes last. Within a group the oldest commit comes first.
pub fn group_commits<'a>(records: &'a [CommitRecord]) -> (r: Vec<Group<'a>>)
    ensures
        are_groups(records@, group_names(r@), group_members(r@)),
        forall|i: int, j: int|
            0 <= i < r@.len() && r@[i].0@ == UNTAGGED@ && 0 <= j < r@[i].1@.len()
                ==> record_keys(*(#[trigger] r@[i].1@[j])).len() == 0,
{
    let mut times: Vec<i64> = Vec::new();
    let mut marks: Vec<Vec<String>> = Vec::new();
    let mut all: Vec<String> = Vec::new();
    for n in 0..records.len()
        invariant
            times@.len() == n,
            marks@.len() == n,
            forall|m: int| 0 <= m < n ==> times@[m] == records@[m].author_time,
            forall|m: int, k: Seq<char>|
                0 <= m < n ==> (#[trigger] text::texts(marks@[m]@).contains(k) <==> in_group(
                    records@[m],
                    k,
                )),
            forall|m: int|
                0 <= m < n && record_keys(#[trigger] records@[m]).len() > 0
                    ==> !text::texts(marks@[m]@).contains(UNTAGGED@),
            order::ascending(text::texts(all@)),
            forall|k: Seq<char>| #[trigger]
                text::texts(all@).contains(k) <==> exists|m: int|
                    0 <= m < n && in_group(#[trigger] records@[m], k),
    {
        times.push(records[n].author_time);
        let own = labels(&records[n]);
        let ghost before = text::texts(all@);
        let ghost mine = text::texts(own@);
        assert(mine.take(0) =~= Seq::empty());
        for i in 0..own.len()
            invariant
                order::ascending(text::texts(all@)),
                mine == text::texts(own@),
                forall|k: Seq<char>| #[trigger]
                    text::texts(all@).contains(k) <==> before.contains(k) || mine.take(
                        i as int,
                    ).contains(k),
        {
            let ghost was = text::texts(all@);
            order::insert_text(&mut all, own[i].clone());
            proof {
                let now = text::texts(all@);
                assert(mine.take(i + 1) =~= mine.take(i as int).push(mine[i as int]));
                assert forall|k: Seq<char>| #[trigger]
                    now.contains(k) <==> before.contains(k) || mine.take(i + 1).contains(k) by {
                    order::lemma_push_contains(was, mine[i as int], k);
                    order::lemma_push_contains(mine.take(i as int), mine[i as int], k);
                    assert(now.contains(k) <==> was.push(mine[i as int]).contains(k));
                    assert(was.contains(k) <==> before.contains(k) || mine.take(i as int).contains(
                        k,
                    ));
                }
            }
        }
        proof {
            assert(mine.take(own@.len() as int) =~= mine);
            let now = text::texts(all@);
            assert forall|k: Seq<char>| #[trigger] now.contains(k) <==> exists|m: int|
                0 <= m < n + 1 && in_group(#[trigger] records@[m], k) by {
                assert(mine.contains(k) <==> in_group(records@[n as int], k));
                if now.contains(k) {
                    if before.contains(k) {
                        let m = choose|m: int| 0 <= m < n && in_group(#[trigger] records@[m], k);
                        assert(in_group(records@[m], k));
                    } else {
                        assert(in_group(records@[n as int], k));
                    }
                }
                if exists|m: int| 0 <= m < n + 1 && in_group(#[trigger] records@[m], k) {
                    let m = choose|m: int| 0 <= m < n + 1 && in_group(#[trigger] records@[m], k);
                    if m < n {
                        assert(before.contains(k));
                    }
                }
            }
        }
        marks.push(own);
    }
    let by_age = order::stable_order(&times);
    let ghost names = text::texts(all@);
    let mut out: Vec<Group<'a>> = Vec::new();
    let mut untagged: Option<usize> = None;
    for g in 0..all.len()
        invariant
            names == text::texts(all@),
            order::ascending(names),
            times@.len() == records@.len(),
            marks@.len() == records@.len(),
            forall|m: int| 0 <= m < records@.len() ==> times@[m] == records@[m].author_time,
            forall|m: int, k: Seq<char>|
                0 <= m < records@.len() ==> (#[trigger] text::texts(marks@[m]@).contains(k)
                    <==> in_group(records@[m], k)),
            order::is_stable_order(times@, by_age@),
            forall|i: int|
                0 <= i < out@.len() ==> group_holds(
                    records@,
                    #[trigger] group_names(out@)[i],
                    group_members(out@)[i],
                ),
            forall|i: int|
                0 <= i < out@.len() ==> #[trigger] group_names(out@)[i] != UNTAGGED@ && names.take(
                    g as int,
                ).contains(group_names(out@)[i]),
            forall|i: int, j: int|
                0 <= i < j < out@.len() ==> order::text_lt(
                    #[trigger] group_names(out@)[i],
                    #[trigger] group_names(out@)[j],
                ),
            forall|k: Seq<char>|
                #![trigger names.take(g as int).contains(k)]
                #![trigger group_names(out@).contains(k)]
                names.take(g as int).contains(k) && k != UNTAGGED@ ==> group_names(out@).contains(
                    k,
                ),
            match untagged {
                Some(u) => u < g && names[u as int] == UNTAGGED@,
                None => !names.take(g as int).contains(UNTAGGED@),
            },
    {
        let ghost was = group_names(out@);
        let ghost seen = names.take(g as int);
        let ghost now = names.take(g + 1);
        assert(now =~= seen.push(names[g as int]));
        if text::same_text(all[g].as_str(), UNTAGGED) {
            untagged = Some(g);
            proof {
                assert forall|k: Seq<char>| now.contains(k) && k != UNTAGGED@ implies group_names(
                    out@,
                ).contains(k) by {
                    order::lemma_push_contains(seen, names[g as int], k);
                }
                assert forall|i: int| 0 <= i < out@.len() implies now.contains(
                    #[trigger] group_names(out@)[i],
                ) by {
                    order::lemma_push_contains(seen, names[g as int], group_names(out@)[i]);
                }
            }
        } else {
            let commits = members(records, &marks, &times, &by_age, all[g].as_str());
            let ghost before = out@;
            out.push((all[g].clone(), commits));
            proof {
                let names_now = group_names(out@);
                assert(names_now =~= was.push(names[g as int]));
                assert(group_members(out@) =~= group_members(before).push(commits@));
                assert forall|i: int| 0 <= i < out@.len() implies group_holds(
                    records@,
                    #[trigger] names_now[i],
                    group_members(out@)[i],
                ) by {
                    if i < before.len() {
                        assert(names_now[i] == was[i]);
                    }
                }
                assert forall|i: int| 0 <= i < out@.len() implies #[trigger] names_now[i]
                    != UNTAGGED@ && now.contains(names_now[i]) by {
                    if i < before.len() {
                        assert(names_now[i] == was[i]);
                        order::lemma_push_contains(seen, names[g as int], was[i]);
                    } else {
                        assert(now[g as int] == names_now[i]);
                    }
                }
                assert forall|i: int, j: int| 0 <= i < j < out@.len() implies order::text_lt(
                    #[trigger] names_now[i],
                    #[trigger] names_now[j],
                ) by {
                    if j < before.len() {
                        assert(order::text_lt(was[i], was[j]));
                    } else {
                        assert(seen.contains(was[i]));
                        let m = choose|m: int| 0 <= m < seen.len() && seen[m] == was[i];
                        assert(names[m] == was[i]);
                        assert(order::text_lt(names[m], names[g as int]));
                    }
                }
                assert forall|k: Seq<char>| now.contains(k) && k != UNTAGGED@ implies names_now.contains(
                    k,
                ) by {
                    order::lemma_push_contains(seen, names[g as int], k);
                    order::lemma_push_contains(was, names[g as int], k);
                }
                order::lemma_push_contains(seen, names[g as int], UNTAGGED@);
            }
        }
    }
    assert(names.take(all@.len() as int) =~= names);
    let ghost tagged = group_names(out@);
    if let Some(u) = untagged {
        let commits = members(records, &marks, &times, &by_age, UNTAGGED);
        let ghost before = out@;
        out.push((UNTAGGED.to_owned(), commits));
        proof {
            let names_now = group_names(out@);
            assert(names_now =~= tagged.push(UNTAGGED@));
            assert(group_members(out@) =~= group_members(before).push(commits@));
            assert forall|i: int| 0 <= i < out@.len() implies group_holds(
                records@,
                #[trigger] names_now[i],
                group_members(out@)[i],
            ) by {
                if i < before.len() {
                    assert(names_now[i] == tagged[i]);
                }
            }
        }
    }
    proof {
        let now = group_names(out@);
        assert forall|k: Seq<char>| #[trigger] now.contains(k) <==> group_exists(records@, k) by {
            assert(names.contains(k) <==> group_exists(records@, k));
            if untagged is Some {
                order::lemma_push_contains(tagged, UNTAGGED@, k);
                assert(names.contains(UNTAGGED@));
            }
            if tagged.contains(k) {
                let i = choose|i: int| 0 <= i < tagged.len() && tagged[i] == k;
                assert(names.contains(tagged[i]));
            }
        }
        assert forall|i: int, j: int| 0 <= i < j < now.len() implies listed_before(
            #[trigger] now[i],
            #[trigger] now[j],
        ) by {
            assert(now[i] == tagged[i]);
            if j < tagged.len() {
                assert(now[j] == tagged[j]);
            }
        }
        assert forall|i: int, j: int|
            0 <= i < out@.len() && out@[i].0@ == UNTAGGED@ && 0 <= j < out@[i].1@.len() implies record_keys(
            *(#[trigger] out@[i].1@[j]),
        ).len() == 0 by {
            assert(now[i] == UNTAGGED@);
            assert(group_holds(records@, now[i], group_members(out@)[i]));
            let at = choose|at: Seq<int>| are_members(records@, now[i], group_members(out@)[i], at);
            assert(in_group(records@[at[j]], UNTAGGED@));
            assert(text::texts(marks@[at[j]]@).contains(UNTAGGED@));
        }
    }
    out
}

/// The commits of a group, from the oldest to the newest.
fn members<'a>(
    records: &'a [CommitRecord],
    marks: &Vec<Vec<String>>,
    times: &Vec<i64>,
    by_age: &Vec<usize>,
    name: &str,
) -> (r: Vec<&'a CommitRecord>)
    requires
        times@.len() == records@.len(),
        marks@.len() == records@.len(),
        forall|m: int| 0 <= m < records@.len() ==> times@[m] == records@[m].author_time,
        forall|m: int, k: Seq<char>|
            0 <= m < records@.len() ==> (#[trigger] text::texts(marks@[m]@).contains(k)
                <==> in_group(records@[m], k)),
        order::is_stable_order(times@, by_age@),
    ensures
        group_holds(records@, name@, r@),
{
    let mut out: Vec<&'a CommitRecord> = Vec::new();
    let ghost mut at: Seq<int> = Seq::empty();
    let ghost mut from: Seq<int> = Seq::empty();
    for i in 0..by_age.len()
        invariant
            times@.len() == records@.len(),
            marks@.len() == records@.len(),
            forall|m: int| 0 <= m < records@.len() ==> times@[m] == records@[m].author_time,
            forall|m: int, k: Seq<char>|
                0 <= m < records@.len() ==> (#[trigger] text::texts(marks@[m]@).contains(k)
                    <==> in_group(records@[m], k)),
            order::is_stable_order(times@, by_age@),
            at.len() == out@.len(),
            from.len() == out@.len(),
            forall|j: int|
                0 <= j < at.len() ==> {
                    &&& 0 <= #[trigger] from[j] < i
                    &&& at[j] == by_age@[from[j]]
                },
            forall|j: int|
                0 <= j < at.len() ==> {
                    &&& 0 <= #[trigger] at[j] < records@.len()
                    &&& in_group(records@[at[j]], name@)
                    &&& *out@[j] == records@[at[j]]
                },
            forall|j: int, k: int| 0 <= j < k < at.len() ==> #[trigger] from[j] < #[trigger] from[k],
            forall|m: int|
                0 <= m < i && in_group(records@[#[trigger] by_age@[m] as int], name@)
                    ==> at.contains(by_age@[m] as int),
    {
        let n = by_age[i];
        let ghost at_was = at;
        if text::one_of(&marks[n], name) {
            out.push(&records[n]);
            proof {
                at = at.push(n as int);
                from = from.push(i as int);
                assert(at[at.len() - 1] == n);
            }
        }
        proof {
            assert forall|m: int|
                0 <= m < i + 1 && in_group(
                    records@[#[trigger] by_age@[m] as int],
                    name@,
                ) implies at.contains(by_age@[m] as int) by {
                if m < i {
                    assert(at_was.contains(by_age@[m] as int));
                    let q = choose|q: int| 0 <= q < at_was.len() && at_was[q] == by_age@[m] as int;
                    assert(at[q] == by_age@[m] as int);
                }
            }
        }
    }
    proof {
        assert forall|n: int|
            0 <= n < records@.len() && in_group(
                #[trigger] records@[n],
                name@,
            ) implies at.contains(n) by {
            assert(by_age@.contains(n as usize));
            let m = choose|m: int| 0 <= m < by_age@.len() && by_age@[m] == n as usize;
            assert(by_age@[m] as int == n);
        }
        assert forall|i: int, j: int| 0 <= i < j < at.len() implies older(
            records@,
            #[trigger] at[i],
            #[trigger] at[j],
        ) by {
            assert(from[i] < from[j]);
            assert(order::ranks_before(
                times@,
                by_age@[from[i]] as int,
                by_age@[from[j]] as int,
            ));
        }
        assert(are_members(records@, name@, out@, at));
    }
    out
}

/// A ticket, its commits, and how long they took.
pub struct GroupSummary<'a> {
    pub ticket: String,
    pub commits: Vec<&'a CommitRecord>,
    /// The hours to show: the explicit ones where there are any, else the
    /// estimate by sessions.
    pub gap: Hours,
    /// From the first commit to the last one.
    pub span: Hours,
    /// The sum of the durations that the commit messages give.
    pub explicit: Option<i64>,
    /// The estimate by sessions, whatever the commit messages give.
    pub session_weight: i64,
}

/// The explicit durations of a commit.
pub open spec fn record_markers(r: CommitRecord) -> Seq<i64> {
    tickets::markers_in(r.subject@) + tickets::markers_in(r.body@)
}

/// The explicit durations of a group of commits.
pub open spec fn group_markers(commits: Seq<&CommitRecord>) -> Seq<i64>
    decreases commits.len(),
{
    if commits.len() == 0 {
        Seq::empty()
    } else {
        group_markers(commits.drop_last()) + record_markers(*commits.last())
    }
}

pub open spec fn total(s: Seq<i64>) -> int
    decreases s.len(),
{
    if s.len() == 0 {
        0
    } else {
        total(s.drop_last()) + s.last()
    }
}

/// The sum of the explicit durations of a group, where there are any.
pub open spec fn marker_total(commits: Seq<&CommitRecord>) -> Option<i64> {
    if group_markers(commits).len() == 0 {
        None
    } else {
        Some(hours::at_most_largest(total(group_markers(commits))))
    }
}

pub proof fn lemma_total_add(a: Seq<i64>, b: Seq<i64>)
    ensures
        total(a + b) == total(a) + total(b),
    decreases b.len(),
{
    if b.len() == 0 {
        assert(a + b =~= a);
    } else {
        assert((a + b).drop_last() =~= a + b.drop_last());
        lemma_total_add(a, b.drop_last());
    }
}

/// The sum of durations, or the longest one.
fn capped_total(all: &Vec<i64>) -> (r: i64)
    requires
        forall|i: int| 0 <= i < all@.len() ==> #[trigger] all@[i] > 0,
    ensures
        r == hours::at_most_largest(total(all@)),
{
    let mut out: i64 = 0;
    for i in 0..all.len()
        invariant
            forall|j: int| 0 <= j < all@.len() ==> #[trigger] all@[j] > 0,
            total(all@.take(i as int)) >= 0,
            out == hours::at_most_largest(total(all@.take(i as int))),
    {
        proof {
            let s = all@.take(i + 1);
            assert(s.drop_last() =~= all@.take(i as int));
            assert(s.last() == all@[i as int]);
        }
        let wide: i128 = out as i128 + all[i] as i128;
        if wide > 0x7fff_ffff_ffff_ffff {
            out = 0x7fff_ffff_ffff_ffff;
        } else {
            out = wide as i64;
        }
    }
    assert(all@.take(all@.len() as int) =~= all@);
    out
}

/// The explicit durations of a group of commits.
fn all_markers(commits: &[&CommitRecord]) -> (r: Vec<i64>)
    ensures
        r@ == group_markers(commits@),
        forall|i: int| 0 <= i < r@.len() ==> #[trigger] r@[i] > 0,
{
    let mut out: Vec<i64> = Vec::new();
    assert(commits@.take(0) =~= Seq::empty());
    for i in 0..commits.len()
        invariant
            out@ == group_markers(commits@.take(i as int)),
            forall|j: int| 0 <= j < out@.len() ==> #[trigger] out@[j] > 0,
    {
        let mut a = tickets::extract_time_markers(commits[i].subject.as_str());
        let mut b = tickets::extract_time_markers(commits[i].body.as_str());
        let ghost before = out@;
        let ghost own = a@ + b@;
        proof {
            let s = commits@.take(i + 1);
            assert(s.drop_last() =~= commits@.take(i as int));
            assert(s.last() == commits@[i as int]);
            assert(group_markers(s) == before + own);
        }
        out.append(&mut a);
        out.append(&mut b);
        assert(out@ =~= before + own);
    }
    assert(commits@.take(commits@.len() as int) =~= commits@);
    out
}

/// The sum of the explicit durations of a group of commits; nothing where no
/// commit has one.
pub fn sum_time_markers(commits: &[&CommitRecord]) -> (r: Option<i64>)
    ensures
        r == marker_total(commits@),
{
    let all = all_markers(commits);
    if all.len() > 0 {
        Some(capped_total(&all))
    } else {
        None
    }
}

/// The estimate by sessions that the settings ask for.
pub open spec fn session_span(cfg: EstimationConfig) -> SessionSpan {
    SessionSpan {
        session_break_min: cfg.session_break_min,
        lead_min: cfg.lead_min,
        trail_min: cfg.trail_min,
    }
}

impl SessionSpan {
    /// The estimate by sessions that the settings ask for.
    pub fn from_config(cfg: &EstimationConfig) -> (r: Self)
        ensures
            r == session_span(*cfg),
    {
        SessionSpan {
            session_break_min: cfg.session_break_min,
            lead_min: cfg.lead_min,
            trail_min: cfg.trail_min,
        }
    }
}

/// The hours of a summary are those of its commits.
pub open spec fn is_summary(s: GroupSummary<'_>, cfg: EstimationConfig) -> bool {
    let times = hours::times_of(s.commits@);
    let session = session_span(cfg);
    &&& s.session_weight == hours::of_seconds(session.seconds(times))
    &&& s.span.value == hours::of_seconds(FirstToLast.seconds(times))
    &&& s.span.detail@ == FirstToLast.reason(times)
    &&& s.explicit == marker_total(s.commits@)
    &&& match s.explicit {
        Some(h) => s.gap.value == h && s.gap.detail@ == "from commit messages"@,
        None => s.gap.value == s.session_weight && s.gap.detail@ == session.reason(times),
    }
}

pub open spec fn summary_names(s: Seq<GroupSummary<'_>>) -> Seq<Seq<char>> {
    Seq::new(s.len(), |i: int| s[i].ticket@)
}

pub open spec fn summary_members<'a>(s: Seq<GroupSummary<'a>>) -> Seq<Seq<&'a CommitRecord>> {
    Seq::new(s.len(), |i: int| s[i].commits@)
}

/// `s` are the groups of `records`, with their hours.
pub open spec fn are_summaries(
    s: Seq<GroupSummary<'_>>,
    records: Seq<CommitRecord>,
    cfg: EstimationConfig,
) -> bool {
    &&& are_groups(records, summary_names(s), summary_members(s))
    &&& forall|i: int| 0 <= i < s.len() ==> is_summary(#[trigger] s[i], cfg)
}

/// Commits grouped by ticket, with their hours by the usual settings.
pub fn group_with_hours<'a>(records: &'a [CommitRecord]) -> (r: Vec<GroupSummary<'a>>)
    ensures
        are_summaries(r@, records@, config::default_estimation()),
{
    group_with_hours_cfg(records, &EstimationConfig::default())
}

/// Commits grouped by ticket, with their hours. Explicit durations in commit
/// messages are authoritative; without one, the hours are estimated by sessions.
pub fn group_with_hours_cfg<'a>(records: &'a [CommitRecord], cfg: &EstimationConfig) -> (r: Vec<
    GroupSummary<'a>,
>)
    ensures
        are_summaries(r@, records@, *cfg),
        summary_names(r@) == names_of(records@),
{
    let primary = SessionSpan::from_config(cfg);
    let span = FirstToLast;
    let groups = group_commits(records);
    let ghost names = group_names(groups@);
    let ghost lists = group_members(groups@);
    let mut out: Vec<GroupSummary<'a>> = Vec::new();
    let mut i: usize = 0;
    while i < groups.len()
        invariant
            i <= groups@.len(),
            names == group_names(groups@),
            lists == group_members(groups@),
            primary == session_span(*cfg),
            out@.len() == i,
            forall|j: int| 0 <= j < i ==> is_summary(#[trigger] out@[j], *cfg),
            forall|j: int|
                0 <= j < i ==> (#[trigger] out@[j]).ticket@ == names[j] && out@[j].commits@
                    == lists[j],
        decreases groups@.len() - i,
    {
        let commits: Vec<&'a CommitRecord> = copy_refs(&groups[i].1);
        let session_h = primary.estimate(commits.as_slice());
        let span_h = span.estimate(commits.as_slice());
        let explicit = sum_time_markers(commits.as_slice());
        let session_weight = session_h.value;
        let gap_h = match explicit {
            Some(h) => Hours { value: h, detail: "from commit messages".to_owned() },
            None => session_h,
        };
        let summary = GroupSummary {
            ticket: groups[i].0.clone(),
            commits,
            gap: gap_h,
            span: span_h,
            explicit,
            session_weight,
        };
        out.push(summary);
        i += 1;
    }
    assert(summary_names(out@) =~= names);
    assert(summary_members(out@) =~= lists);
    proof {
        law_groups_are_listed_in_one_way(records@, names, names_of(records@));
    }
    out
}

/// The same references.
fn copy_refs<'a>(v: &Vec<&'a CommitRecord>) -> (r: Vec<&'a CommitRecord>)
    ensures
        r@ == v@,
{
    let mut out: Vec<&'a CommitRecord> = Vec::new();
    for i in 0..v.len()
        invariant
            out@ == v@.take(i as int),
    {
        out.push(v[i]);
        assert(v@.take(i + 1) =~= v@.take(i as int).push(v@[i as int]));
    }
    assert(v@.take(v@.len() as int) =~= v@);
    out
}

/// How many commits there are, and how long they took together.
pub open spec fn subtitle_text(n: int, elapsed: int) -> Seq<char> {
    if n == 1 {
        "1 commit"@
    } else if elapsed > 0 {
        text::decimal(n as nat) + " commits across "@ + hours::hours_text(elapsed)
    } else {
        text::decimal(n as nat) + " commits"@
    }
}

/// How many commits there are, and how long they took together.
pub fn subtitle(n: usize, elapsed_hours: i64) -> (r: String)
    ensures
        r@ == subtitle_text(n as int, elapsed_hours as int),
{
    if n == 1 {
        return "1 commit".to_owned();
    }
    let mut out = text::count_text(n);
    if elapsed_hours > 0 {
        out.append(" commits across ");
        out.append(hours::format_hours(elapsed_hours).as_str());
    } else {
        out.append(" commits");
    }
    out
}

proof fn lemma_listed_once(a: Seq<char>, b: Seq<char>)
    ensures
        !(listed_before(a, b) && listed_before(b, a)),
{
    if order::text_lt(a, b) && order::text_lt(b, a) {
        order::lemma_text_le_antisymmetric(a, b);
    }
}

/// The groups of commits are listed in one way only.
pub proof fn law_groups_are_listed_in_one_way(
    records: Seq<CommitRecord>,
    a: Seq<Seq<char>>,
    b: Seq<Seq<char>>,
)
    requires
        are_group_names(records, a),
        are_group_names(records, b),
    ensures
        a == b,
{
    let less = |x: Seq<char>, y: Seq<char>| listed_before(x, y);
    assert forall|x: Seq<char>, y: Seq<char>| #[trigger] less(x, y) implies !less(y, x) by {
        lemma_listed_once(x, y);
    }
    assert forall|k: Seq<char>| #[trigger] a.contains(k) <==> b.contains(k) by {
        assert(group_exists(records, k) <==> a.contains(k));
    }
    order::lemma_ordered_list_unique(a, b, less);
}

/// The commits of a group are listed in one way only.
pub proof fn law_members_are_listed_in_one_way(
    records: Seq<CommitRecord>,
    name: Seq<char>,
    a: Seq<&CommitRecord>,
    b: Seq<&CommitRecord>,
)
    requires
        group_holds(records, name, a),
        group_holds(records, name, b),
    ensures
        a == b,
{
    let p = choose|at: Seq<int>| are_members(records, name, a, at);
    let q = choose|at: Seq<int>| are_members(records, name, b, at);
    let less = |x: int, y: int| older(records, x, y);
    assert forall|n: int| #[trigger] p.contains(n) <==> q.contains(n) by {
        if p.contains(n) {
            let i = choose|i: int| 0 <= i < p.len() && p[i] == n;
            assert(in_group(records[p[i]], name));
            assert(q.contains(n));
        }
        if q.contains(n) {
            let i = choose|i: int| 0 <= i < q.len() && q[i] == n;
            assert(in_group(records[q[i]], name));
            assert(p.contains(n));
        }
    }
    order::lemma_ordered_list_unique(p, q, less);
    assert forall|i: int| 0 <= i < a.len() implies a[i] == b[i] by {
        assert(*a[i] == records[p[i]]);
        assert(*b[i] == records[q[i]]);
    }
    assert(a =~= b);
}

/// Commits and settings leave one summary only: the same tickets with the same
/// commits and the same hours.
pub proof fn law_summaries_are_settled(
    a: Seq<GroupSummary<'_>>,
    b: Seq<GroupSummary<'_>>,
    records: Seq<CommitRecord>,
    cfg: EstimationConfig,
    i: int,
)
    requires
        are_summaries(a, records, cfg),
        are_summaries(b, records, cfg),
        0 <= i < a.len(),
    ensures
        a.len() == b.len(),
        a[i].ticket@ == b[i].ticket@,
        a[i].commits@ == b[i].commits@,
        a[i].gap.value == b[i].gap.value,
        a[i].gap.detail@ == b[i].gap.detail@,
        a[i].span.value == b[i].span.value,
        a[i].explicit == b[i].explicit,
        a[i].session_weight == b[i].session_weight,
{
    let names = summary_names(a);
    law_groups_are_listed_in_one_way(records, names, summary_names(b));
    assert(names.len() == a.len() && summary_names(b).len() == b.len());
    assert(names[i] == a[i].ticket@ && summary_names(b)[i] == b[i].ticket@);
    assert(summary_members(a)[i] == a[i].commits@ && summary_members(b)[i] == b[i].commits@);
    law_members_are_listed_in_one_way(records, names[i], a[i].commits@, b[i].commits@);
    assert(is_summary(a[i], cfg) && is_summary(b[i], cfg));
}

/// Every commit is in some group.
pub proof fn law_no_commit_is_lost(
    records: Seq<CommitRecord>,
    names: Seq<Seq<char>>,
    commits: Seq<Seq<&CommitRecord>>,
    n: int,
)
    requires
        are_groups(records, names, commits),
        0 <= n < records.len(),
    ensures
        exists|i: int, j: int|
            0 <= i < names.len() && 0 <= j < commits[i].len() && *(#[trigger] commits[i][j])
                == records[n],
{
    let k = if record_keys(records[n]).len() == 0 {
        UNTAGGED@
    } else {
        record_keys(records[n])[0]
    };
    assert(in_group(records[n], k));
    assert(group_exists(records, k));
    assert(names.contains(k));
    let i = choose|i: int| 0 <= i < names.len() && names[i] == k;
    assert(group_holds(records, names[i], commits[i]));
    let at = choose|at: Seq<int>| are_members(records, names[i], commits[i], at);
    assert(at.contains(n));
    let j = choose|j: int| 0 <= j < at.len() && at[j] == n;
    assert(*commits[i][j] == records[n]);
}

/// A group holds only commits that name its ticket, or name none.
pub proof fn law_groups_hold_their_own(
    records: Seq<CommitRecord>,
    names: Seq<Seq<char>>,
    commits: Seq<Seq<&CommitRecord>>,
    i: int,
    j: int,
)
    requires
        are_groups(records, names, commits),
        0 <= i < names.len(),
        0 <= j < commits[i].len(),
    ensures
        in_group(*commits[i][j], names[i]),
{
    assert(group_holds(records, names[i], commits[i]));
    let at = choose|at: Seq<int>| are_members(records, names[i], commits[i], at);
    assert(in_group(records[at[j]], names[i]));
}

/// No group is empty, and none is listed twice.
pub proof fn law_groups_are_distinct(
    records: Seq<CommitRecord>,
    names: Seq<Seq<char>>,
    commits: Seq<Seq<&CommitRecord>>,
)
    requires
        are_groups(records, names, commits),
    ensures
        names.no_duplicates(),
        forall|i: int| 0 <= i < names.len() ==> (#[trigger] commits[i]).len() > 0,
{
    assert forall|i: int, j: int|
        0 <= i < names.len() && 0 <= j < names.len() && i != j implies names[i] != names[j] by {
        if i < j {
            assert(listed_before(names[i], names[j]));
        } else {
            assert(listed_before(names[j], names[i]));
        }
    }
    assert forall|i: int| 0 <= i < names.len() implies (#[trigger] commits[i]).len() > 0 by {
        assert(names.contains(names[i]));
        assert(group_exists(records, names[i]));
        let n = choose|n: int| 0 <= n < records.len() && in_group(#[trigger] records[n], names[i]);
        assert(group_holds(records, names[i], commits[i]));
        let at = choose|at: Seq<int>| are_members(records, names[i], commits[i], at);
        assert(at.contains(n));
    }
}

/// A commit is in the group of every ticket that its branches, its subject or its body
/// name, whatever the other two name.
pub proof fn law_every_named_ticket_has_the_commit(
    records: Seq<CommitRecord>,
    names: Seq<Seq<char>>,
    commits: Seq<Seq<&CommitRecord>>,
    n: int,
    k: Seq<char>,
)
    requires
        are_groups(records, names, commits),
        0 <= n < records.len(),
    ensures
        tickets::keys_in(records[n].branches@).contains(k) ==> is_in(names, commits, k, records[n]),
        tickets::keys_in(records[n].subject@).contains(k) ==> is_in(names, commits, k, records[n]),
        tickets::keys_in(records[n].body@).contains(k) ==> is_in(names, commits, k, records[n]),
{
    let r = records[n];
    let a = tickets::keys_in(r.branches@);
    let b = tickets::keys_in(r.subject@);
    let c = tickets::keys_in(r.body@);
    order::lemma_add_contains(a, b, k);
    order::lemma_add_contains(a + b, c, k);
    if a.contains(k) || b.contains(k) || c.contains(k) {
        assert(record_keys(r).contains(k));
        assert(record_keys(r).len() > 0);
        lemma_in_its_group(records, names, commits, n, k);
    }
}

/// A commit is listed under a name.
pub open spec fn is_in(
    names: Seq<Seq<char>>,
    commits: Seq<Seq<&CommitRecord>>,
    name: Seq<char>,
    r: CommitRecord,
) -> bool {
    exists|i: int, j: int|
        0 <= i < names.len() && 0 <= j < commits[i].len() && names[i] == name && *(
        #[trigger] commits[i][j]) == r
}

proof fn lemma_in_its_group(
    records: Seq<CommitRecord>,
    names: Seq<Seq<char>>,
    commits: Seq<Seq<&CommitRecord>>,
    n: int,
    k: Seq<char>,
)
    requires
        are_groups(records, names, commits),
        0 <= n < records.len(),
        in_group(records[n], k),
    ensures
        is_in(names, commits, k, records[n]),
{
    assert(group_exists(records, k));
    assert(names.contains(k));
    let i = choose|i: int| 0 <= i < names.len() && names[i] == k;
    assert(group_holds(records, names[i], commits[i]));
    let at = choose|at: Seq<int>| are_members(records, names[i], commits[i], at);
    assert(at.contains(n));
    let j = choose|j: int| 0 <= j < at.len() && at[j] == n;
    assert(*commits[i][j] == records[n]);
}

/// A commit names no ticket.
pub open spec fn names_nothing(r: CommitRecord) -> bool {
    &&& tickets::keys_in(r.branches@).len() == 0
    &&& tickets::keys_in(r.subject@).len() == 0
    &&& tickets::keys_in(r.body@).len() == 0
}

/// A commit that names no ticket is listed as untagged. What is listed under a name are
/// commits of the scan: they name that ticket, or the name is `(untagged)` and they name
/// none.
pub proof fn law_groups_hold_what_is_theirs(
    records: Seq<CommitRecord>,
    names: Seq<Seq<char>>,
    commits: Seq<Seq<&CommitRecord>>,
    n: int,
    i: int,
    j: int,
)
    requires
        are_groups(records, names, commits),
        0 <= n < records.len(),
    ensures
        names_nothing(records[n]) ==> is_in(names, commits, "(untagged)"@, records[n]),
        0 <= i < names.len() && 0 <= j < commits[i].len() ==> {
            let r = *commits[i][j];
            &&& records.contains(r)
            &&& names_nothing(r) ==> names[i] == "(untagged)"@
            &&& !names_nothing(r) ==> tickets::keys_in(r.branches@).contains(names[i])
                || tickets::keys_in(r.subject@).contains(names[i]) || tickets::keys_in(
                r.body@,
            ).contains(names[i])
        },
{
    if names_nothing(records[n]) {
        assert(record_keys(records[n]).len() == 0);
        lemma_in_its_group(records, names, commits, n, UNTAGGED@);
    }
    if 0 <= i < names.len() && 0 <= j < commits[i].len() {
        let r = *commits[i][j];
        law_groups_hold_their_own(records, names, commits, i, j);
        assert(group_holds(records, names[i], commits[i]));
        let at = choose|at: Seq<int>| are_members(records, names[i], commits[i], at);
        assert(in_group(records[at[j]], names[i]));
        assert(records[at[j]] == r);
        let a = tickets::keys_in(r.branches@);
        let b = tickets::keys_in(r.subject@);
        let c = tickets::keys_in(r.body@);
        order::lemma_add_contains(a, b, names[i]);
        order::lemma_add_contains(a + b, c, names[i]);
    }
}

/// `a` is a ticket, and `b` is a later one in the order of their characters, or none.
pub open spec fn is_sorted_pair(a: Seq<char>, b: Seq<char>) -> bool {
    a != "(untagged)"@ && (b == "(untagged)"@ || order::text_le(a, b) && a != b)
}

/// The groups come in the order of their tickets, with the untagged one behind them, and
/// the commits of a group from the oldest to the newest.
pub proof fn law_groups_are_in_order(
    records: Seq<CommitRecord>,
    names: Seq<Seq<char>>,
    commits: Seq<Seq<&CommitRecord>>,
)
    requires
        are_groups(records, names, commits),
    ensures
        forall|i: int, j: int|
            0 <= i < j < names.len() ==> is_sorted_pair(#[trigger] names[i], #[trigger] names[j]),
        forall|i: int, a: int, b: int|
            0 <= i < names.len() && 0 <= a < b < commits[i].len() ==> (
            #[trigger] commits[i][a]).author_time <= (#[trigger] commits[i][b]).author_time,
{
    assert forall|i: int, j: int| 0 <= i < j < names.len() implies is_sorted_pair(
        #[trigger] names[i],
        #[trigger] names[j],
    ) by {
        assert(listed_before(names[i], names[j]));
    }
    assert forall|i: int, a: int, b: int|
        0 <= i < names.len() && 0 <= a < b < commits[i].len() implies (
    #[trigger] commits[i][a]).author_time <= (#[trigger] commits[i][b]).author_time by {
        assert(group_holds(records, names[i], commits[i]));
        let at = choose|at: Seq<int>| are_members(records, names[i], commits[i], at);
        assert(*commits[i][a] == records[at[a]]);
        assert(*commits[i][b] == records[at[b]]);
        assert(older(records, at[a], at[b]));
    }
}

/// A commit names a ticket somewhere, or the name is `(untagged)` and it names none.
pub open spec fn belongs(r: CommitRecord, name: Seq<char>) -> bool {
    ||| names_nothing(r) && name == "(untagged)"@
    ||| tickets::keys_in(r.branches@).contains(name)
    ||| tickets::keys_in(r.subject@).contains(name)
    ||| tickets::keys_in(r.body@).contains(name)
}

/// `list` are the commits of `records` at the positions `at`: all that belong to a name,
/// each once.
pub open spec fn lists_each_once(
    records: Seq<CommitRecord>,
    name: Seq<char>,
    list: Seq<&CommitRecord>,
    at: Seq<int>,
) -> bool {
    &&& at.no_duplicates()
    &&& at.len() == list.len()
    &&& forall|j: int|
        0 <= j < at.len() ==> 0 <= #[trigger] at[j] < records.len() && *list[j] == records[at[j]]
    &&& forall|n: int|
        0 <= n < records.len() && belongs(#[trigger] records[n], name) ==> at.contains(n)
}

/// A group has as many commits as there are in the scan that belong to it: each counts
/// once, even where two say the same.
pub proof fn law_each_commit_counts_once(
    records: Seq<CommitRecord>,
    names: Seq<Seq<char>>,
    commits: Seq<Seq<&CommitRecord>>,
    i: int,
)
    requires
        are_groups(records, names, commits),
        0 <= i < names.len(),
    ensures
        exists|at: Seq<int>| lists_each_once(records, names[i], commits[i], at),
{
    assert(group_holds(records, names[i], commits[i]));
    let at = choose|at: Seq<int>| are_members(records, names[i], commits[i], at);
    assert forall|a: int, b: int| 0 <= a < b < at.len() implies at[a] != at[b] by {
        assert(older(records, at[a], at[b]));
    }
    assert forall|n: int|
        0 <= n < records.len() && belongs(#[trigger] records[n], names[i]) implies at.contains(
        n,
    ) by {
        let r = records[n];
        let x = tickets::keys_in(r.branches@);
        let y = tickets::keys_in(r.subject@);
        let z = tickets::keys_in(r.body@);
        order::lemma_add_contains(x, y, names[i]);
        order::lemma_add_contains(x + y, z, names[i]);
        assert(in_group(records[n], names[i]));
    }
    assert(lists_each_once(records, names[i], commits[i], at));
}

/// The hours of a group are what its commit messages give, if they give any, and the
/// estimate by sessions otherwise, with the settings for sessions. The weight of a group is
/// that estimate in any case, and its span is from its first commit to its last one.
pub proof fn law_messages_come_before_estimates(
    s: GroupSummary<'_>,
    cfg: EstimationConfig,
    session: SessionSpan,
)
    requires
        is_summary(s, cfg),
        session.session_break_min == cfg.session_break_min,
        session.lead_min == cfg.lead_min,
        session.trail_min == cfg.trail_min,
    ensures
        ({
            let times = hours::times_of(s.commits@);
            let estimate = hours::of_seconds(session.seconds(times));
            &&& s.session_weight == estimate
            &&& s.span.value == hours::of_seconds(FirstToLast.seconds(times))
            &&& group_markers(s.commits@).len() == 0 ==> s.gap.value == estimate && s.explicit
                is None
            &&& group_markers(s.commits@).len() > 0 ==> s.explicit == Some(s.gap.value)
                && s.gap.value == hours::at_most(total(group_markers(s.commits@)), i64::MAX as int)
        }),
{
    assert(session == session_span(cfg));
    lemma_markers_positive(s.commits@);
    lemma_total_positive(group_markers(s.commits@));
}

proof fn lemma_markers_positive(commits: Seq<&CommitRecord>)
    ensures
        forall|i: int|
            0 <= i < group_markers(commits).len() ==> #[trigger] group_markers(commits)[i] > 0,
    decreases commits.len(),
{
    if commits.len() > 0 {
        let before = group_markers(commits.drop_last());
        let r = *commits.last();
        let a = tickets::markers_in(r.subject@);
        let b = tickets::markers_in(r.body@);
        lemma_markers_positive(commits.drop_last());
        tickets::law_markers_are_longer_than_nothing(r.subject@);
        tickets::law_markers_are_longer_than_nothing(r.body@);
        assert forall|i: int| 0 <= i < group_markers(commits).len() implies #[trigger] group_markers(
            commits,
        )[i] > 0 by {
            if i < before.len() {
                assert(group_markers(commits)[i] == before[i]);
            } else if i < before.len() + a.len() {
                assert(group_markers(commits)[i] == a[i - before.len()]);
            } else {
                assert(group_markers(commits)[i] == b[i - before.len() - a.len()]);
            }
        }
    }
}

/// What commit messages give is longer than nothing.
pub proof fn lemma_marker_total_positive(commits: Seq<&CommitRecord>)
    ensures
        marker_total(commits) matches Some(h) ==> h >= 0,
{
    lemma_markers_positive(commits);
    lemma_total_positive(group_markers(commits));
}

proof fn lemma_total_positive(s: Seq<i64>)
    requires
        forall|i: int| 0 <= i < s.len() ==> #[trigger] s[i] > 0,
    ensures
        total(s) >= 0,
    decreases s.len(),
{
    if s.len() > 0 {
        let t = s.drop_last();
        assert forall|i: int| 0 <= i < t.len() implies #[trigger] t[i] > 0 by {
            assert(t[i] == s[i]);
        }
        lemma_total_positive(t);
        assert(s[s.len() - 1] > 0);
    }
}

/// The markers of commits are those of each, and those of one commit stand in its subject
/// and in its body. Sums of markers add up.
pub proof fn law_markers_add_up(
    a: Seq<&CommitRecord>,
    b: Seq<&CommitRecord>,
    r: &CommitRecord,
    x: Seq<i64>,
    y: Seq<i64>,
    v: i64,
)
    ensures
        group_markers(a + b) == group_markers(a) + group_markers(b),
        group_markers(seq![r]) == tickets::markers_in(r.subject@) + tickets::markers_in(r.body@),
        total(x + y) == total(x) + total(y),
        total(seq![v]) == v,
        total(Seq::empty()) == 0,
    decreases b.len(),
{
    lemma_total_add(x, y);
    let one = seq![v];
    assert(one.drop_last() =~= Seq::empty());
    reveal_with_fuel(total, 2);
    let single = seq![r];
    assert(single.drop_last() =~= Seq::empty());
    reveal_with_fuel(group_markers, 2);
    assert(group_markers(single) =~= tickets::markers_in(r.subject@) + tickets::markers_in(
        r.body@,
    ));
    if b.len() == 0 {
        assert(a + b =~= a);
        assert(group_markers(a) + group_markers(b) =~= group_markers(a));
    } else {
        law_markers_add_up(a, b.drop_last(), r, x, y, v);
        assert((a + b).drop_last() =~= a + b.drop_last());
        assert((a + b).last() == b.last());
        assert(group_markers(a + b) =~= group_markers(a) + group_markers(b));
    }
}

/// The commits of a group go from the oldest to the newest, and those that are equally old stay
/// in the order they were listed in.
pub proof fn law_equally_old_commits_stay_in_order(
    records: Seq<CommitRecord>,
    names: Seq<Seq<char>>,
    commits: Seq<Seq<&CommitRecord>>,
    i: int,
) -> (at: Seq<int>)
    requires
        are_groups(records, names, commits),
        0 <= i < names.len(),
    ensures
        at.len() == commits[i].len(),
        forall|k: int|
            0 <= k < at.len() ==> 0 <= (#[trigger] at[k]) < records.len() && *commits[i][k]
                == records[at[k]],
        forall|k: int, l: int|
            0 <= k < l < at.len() ==> {
                let x = records[#[trigger] at[k]].author_time;
                let y = records[#[trigger] at[l]].author_time;
                x < y || x == y && at[k] < at[l]
            },
{
    assert(group_holds(records, names[i], commits[i]));
    let at = choose|at: Seq<int>| are_members(records, names[i], commits[i], at);
    assert forall|k: int, l: int| 0 <= k < l < at.len() implies {
        let x = records[#[trigger] at[k]].author_time;
        let y = records[#[trigger] at[l]].author_time;
        x < y || x == y && at[k] < at[l]
    } by {
        assert(older(records, at[k], at[l]));
    }
    at
}

/// What stands below a ticket counts its commits, and tells how long they took together if there
/// are several.
pub proof fn law_subtitles_count_commits(n: nat, elapsed: int)
    ensures
        n == 1 ==> subtitle_text(n as int, elapsed) == "1 commit"@,
        n != 1 ==> text::occurs_at(
            subtitle_text(n as int, elapsed),
            text::decimal(n) + " commits"@,
            0,
        ),
        n != 1 && elapsed <= 0 ==> subtitle_text(n as int, elapsed) == text::decimal(n)
            + " commits"@,
        n != 1 && elapsed > 0 ==> subtitle_text(n as int, elapsed) == text::decimal(n)
            + " commits across "@ + hours::hours_text(elapsed),
{
    reveal_strlit(" commits");
    reveal_strlit(" commits across ");
    let s = subtitle_text(n as int, elapsed);
    let t = text::decimal(n) + " commits"@;
    if n != 1 {
        assert(s.subrange(0, t.len() as int) =~= t);
    }
}

} // verus!
