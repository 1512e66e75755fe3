//! The morning standup: what was done yesterday, what is in flight, and what is
//! planned.

use vstd::prelude::*;

use crate::dates;
use crate::dates::Date;
use crate::jira::IssueInfo;
use crate::pr::PrInfo;
use crate::pr::PrState;
use crate::scanner;
use crate::scanner::CommitRecord;
use crate::text;
use crate::tickets;

verus! {

/// How long ago a commit may be to count as in flight.
pub const IN_FLIGHT_CUTOFF_DAYS: i64 = 7;

pub struct StandupReport {
    pub yesterday: Date,
    pub yesterday_records: Vec<CommitRecord>,
    pub in_flight_records: Vec<CommitRecord>,
}

/// `d` is so many days before `today`, or `today` itself where the calendar does
/// not go that far back.
pub open spec fn is_days_ago(today: Date, days: int, d: Date) -> bool {
    if today.number() - days >= dates::first_day().number() {
        d.valid() && d.number() == today.number() - days
    } else {
        d == today
    }
}

fn days_ago(today: Date, days: i64) -> (r: Date)
    requires
        today.valid(),
        0 <= days <= 1000,
    ensures
        is_days_ago(today, days as int, r),
        r.valid(),
{
    match today.add_days(-days) {
        Some(d) => {
            proof {
                dates::lemma_number_bounds(d);
            }
            d
        },
        None => {
            proof {
                dates::lemma_number_bounds(today);
            }
            today
        },
    }
}

/// The day before `today`, whose commits are reported.
pub fn yesterday_of(today: Date) -> (r: Date)
    requires
        today.valid(),
    ensures
        is_days_ago(today, 1, r),
        r.valid(),
{
    days_ago(today, 1)
}

/// The first day whose commits may be in flight.
pub fn in_flight_since(today: Date) -> (r: Date)
    requires
        today.valid(),
    ensures
        is_days_ago(today, IN_FLIGHT_CUTOFF_DAYS as int, r),
        is_days_ago(today, 7, r),
        r.valid(),
{
    days_ago(today, IN_FLIGHT_CUTOFF_DAYS)
}

/// The commits of all scans that succeeded.
pub open spec fn all_found(scans: Seq<Option<Vec<CommitRecord>>>) -> Seq<CommitRecord>
    decreases scans.len(),
{
    if scans.len() == 0 {
        Seq::empty()
    } else {
        match scans.last() {
            Some(found) => all_found(scans.drop_last()) + found@,
            None => all_found(scans.drop_last()),
        }
    }
}

fn gather(scans: Vec<Option<Vec<CommitRecord>>>) -> (r: Vec<CommitRecord>)
    ensures
        scanner::sorted_by_age(all_found(scans@), r@),
{
    let mut rest = scans;
    let ghost all = scans@;
    let n = rest.len();
    let mut out: Vec<CommitRecord> = Vec::new();
    assert(all.skip(0) =~= all);
    for i in 0..n
        invariant
            n == all.len(),
            rest@ == all.skip(i as int),
            out@ == all_found(all.take(i as int)),
    {
        let scan = rest.remove(0);
        proof {
            assert(scan == all[i as int]);
            assert(all.take(i + 1).drop_last() =~= all.take(i as int));
            assert(all.take(i + 1).last() == scan);
        }
        if let Some(found) = scan {
            let mut found = found;
            out.append(&mut found);
        }
        assert(rest@ =~= all.skip(i + 1));
    }
    assert(all.take(n as int) =~= all);
    scanner::sort_records(&out)
}

/// The report, out of one scan of yesterday and one for commits in flight in each
/// repository. A scan that failed is missing, and spoils none of the others.
pub fn build(
    today: Date,
    yesterday_scans: Vec<Option<Vec<CommitRecord>>>,
    in_flight_scans: Vec<Option<Vec<CommitRecord>>>,
) -> (r: StandupReport)
    requires
        today.valid(),
    ensures
        is_days_ago(today, 1, r.yesterday),
        r.yesterday.valid(),
        scanner::sorted_by_age(all_found(yesterday_scans@), r.yesterday_records@),
        scanner::sorted_by_age(all_found(in_flight_scans@), r.in_flight_records@),
{
    StandupReport {
        yesterday: yesterday_of(today),
        yesterday_records: gather(yesterday_scans),
        in_flight_records: gather(in_flight_scans),
    }
}

/// A pull request mentions a ticket in its title, its body or the name of its
/// branch.
pub open spec fn mentions(pr: PrInfo, key: Seq<char>) -> bool {
    ||| tickets::keys_in(pr.title@).contains(key)
    ||| tickets::keys_in(pr.body@).contains(key)
    ||| tickets::keys_in(pr.head_branch@).contains(key)
}

/// Whether a pull request mentions a ticket.
pub fn pr_mentions(pr: &PrInfo, key: &str) -> (r: bool)
    ensures
        r == mentions(*pr, key@),
{
    text::one_of(&tickets::extract(pr.title.as_str()), key) || text::one_of(
        &tickets::extract(pr.body.as_str()),
        key,
    ) || text::one_of(&tickets::extract(pr.head_branch.as_str()), key)
}

/// What the plan for today is made of: an issue with the open pull requests that
/// mention it, or an open pull request that mentions none of the issues. The
/// numbers are positions in the lists of issues and of pull requests.
pub struct Plan {
    pub items: Vec<Vec<usize>>,
    pub standalone: Vec<usize>,
}

/// The positions below `n` of the open pull requests that mention `key`.
pub open spec fn attached(prs: Seq<PrInfo>, key: Seq<char>, n: int) -> Seq<usize>
    decreases n,
{
    if n <= 0 {
        Seq::empty()
    } else if prs[n - 1].state == PrState::Open && mentions(prs[n - 1], key) {
        attached(prs, key, n - 1).push((n - 1) as usize)
    } else {
        attached(prs, key, n - 1)
    }
}

/// A pull request mentions one of the issues.
pub open spec fn mentions_any(pr: PrInfo, issues: Seq<IssueInfo>) -> bool {
    exists|i: int| 0 <= i < issues.len() && mentions(pr, (#[trigger] issues[i]).key@)
}

/// The positions below `n` of the open pull requests that mention no issue.
pub open spec fn unattached(prs: Seq<PrInfo>, issues: Seq<IssueInfo>, n: int) -> Seq<usize>
    decreases n,
{
    if n <= 0 {
        Seq::empty()
    } else if prs[n - 1].state == PrState::Open && !mentions_any(prs[n - 1], issues) {
        unattached(prs, issues, n - 1).push((n - 1) as usize)
    } else {
        unattached(prs, issues, n - 1)
    }
}

/// `plan` is the plan for the issues and pull requests.
pub open spec fn is_plan(issues: Seq<IssueInfo>, prs: Seq<PrInfo>, plan: Plan) -> bool {
    &&& plan.items@.len() == issues.len()
    &&& forall|i: int|
        0 <= i < issues.len() ==> (#[trigger] plan.items@[i])@ == attached(
            prs,
            issues[i].key@,
            prs.len() as int,
        )
    &&& plan.standalone@ == unattached(prs, issues, prs.len() as int)
}

fn attach(prs: &Vec<PrInfo>, key: &str) -> (r: Vec<usize>)
    ensures
        r@ == attached(prs@, key@, prs@.len() as int),
{
    let mut out: Vec<usize> = Vec::new();
    for i in 0..prs.len()
        invariant
            out@ == attached(prs@, key@, i as int),
    {
        if prs[i].state == PrState::Open && pr_mentions(&prs[i], key) {
            out.push(i);
        }
    }
    out
}

fn any_mentioned(pr: &PrInfo, issues: &Vec<IssueInfo>) -> (r: bool)
    ensures
        r == mentions_any(*pr, issues@),
{
    for i in 0..issues.len()
        invariant
            forall|j: int| 0 <= j < i ==> !mentions(*pr, (#[trigger] issues@[j]).key@),
    {
        if pr_mentions(pr, issues[i].key.as_str()) {
            return true;
        }
    }
    false
}

/// The plan for today: the user's issues, each with the open pull requests that
/// mention it, and the open pull requests that mention none of them.
pub fn plan(issues: &Vec<IssueInfo>, prs: &Vec<PrInfo>) -> (r: Plan)
    ensures
        is_plan(issues@, prs@, r),
{
    let mut items: Vec<Vec<usize>> = Vec::new();
    for i in 0..issues.len()
        invariant
            items@.len() == i,
            forall|j: int|
                0 <= j < i ==> (#[trigger] items@[j])@ == attached(
                    prs@,
                    issues@[j].key@,
                    prs@.len() as int,
                ),
    {
        items.push(attach(prs, issues[i].key.as_str()));
    }
    let mut standalone: Vec<usize> = Vec::new();
    for i in 0..prs.len()
        invariant
            standalone@ == unattached(prs@, issues@, i as int),
    {
        if prs[i].state == PrState::Open && !any_mentioned(&prs[i], issues) {
            standalone.push(i);
        }
    }
    Plan { items, standalone }
}

proof fn lemma_attached(prs: Seq<PrInfo>, key: Seq<char>, n: int, k: int)
    requires
        0 <= n <= prs.len() <= usize::MAX,
        0 <= k,
    ensures
        attached(prs, key, n).contains(k as usize) && k <= usize::MAX <==> k < n && prs[k].state
            == PrState::Open && mentions(prs[k], key),
    decreases n,
{
    if n > 0 {
        lemma_attached(prs, key, n - 1, k);
        let rest = attached(prs, key, n - 1);
        if k <= usize::MAX {
            crate::order::lemma_push_contains(rest, (n - 1) as usize, k as usize);
        }
    }
}

proof fn lemma_unattached(prs: Seq<PrInfo>, issues: Seq<IssueInfo>, n: int, k: int)
    requires
        0 <= n <= prs.len() <= usize::MAX,
        0 <= k,
    ensures
        unattached(prs, issues, n).contains(k as usize) && k <= usize::MAX <==> k < n
            && prs[k].state == PrState::Open && !mentions_any(prs[k], issues),
    decreases n,
{
    if n > 0 {
        lemma_unattached(prs, issues, n - 1, k);
        let rest = unattached(prs, issues, n - 1);
        if k <= usize::MAX {
            crate::order::lemma_push_contains(rest, (n - 1) as usize, k as usize);
        }
    }
}

/// The positions in a plan are those of pull requests.
pub proof fn lemma_plan_in_range(issues: Seq<IssueInfo>, prs: Seq<PrInfo>, plan: Plan)
    requires
        is_plan(issues, prs, plan),
        prs.len() <= usize::MAX,
    ensures
        forall|i: int|
            0 <= i < plan.standalone@.len() ==> #[trigger] plan.standalone@[i] < prs.len(),
        forall|i: int, k: int|
            0 <= i < issues.len() && 0 <= k < plan.items@[i]@.len()
                ==> #[trigger] plan.items@[i]@[k] < prs.len(),
{
    assert forall|i: int| 0 <= i < plan.standalone@.len() implies #[trigger] plan.standalone@[i]
        < prs.len() by {
        let k = plan.standalone@[i];
        assert(plan.standalone@.contains(k));
        lemma_unattached(prs, issues, prs.len() as int, k as int);
    }
    assert forall|i: int, k: int|
        0 <= i < issues.len() && 0 <= k < plan.items@[i]@.len() implies #[trigger] plan.items@[i]@[k]
        < prs.len() by {
        let p = plan.items@[i]@[k];
        assert(plan.items@[i]@.contains(p));
        lemma_attached(prs, issues[i].key@, prs.len() as int, p as int);
    }
}

/// Every open pull request is in the plan: with each issue that it mentions, or by
/// itself where it mentions none. No other pull request is.
pub proof fn law_open_prs_are_planned(
    issues: Seq<IssueInfo>,
    prs: Seq<PrInfo>,
    plan: Plan,
    k: usize,
)
    requires
        is_plan(issues, prs, plan),
        prs.len() <= usize::MAX,
    ensures
        plan.standalone@.contains(k) <==> k < prs.len() && prs[k as int].state == PrState::Open
            && !mentions_any(prs[k as int], issues),
        forall|i: int|
            0 <= i < issues.len() ==> ((#[trigger] plan.items@[i])@.contains(k) <==> k < prs.len()
                && prs[k as int].state == PrState::Open && mentions(
                prs[k as int],
                issues[i].key@,
            )),
{
    lemma_unattached(prs, issues, prs.len() as int, k as int);
    assert forall|i: int| 0 <= i < issues.len() implies ((#[trigger] plan.items@[i])@.contains(k)
        <==> k < prs.len() && prs[k as int].state == PrState::Open && mentions(
        prs[k as int],
        issues[i].key@,
    )) by {
        lemma_attached(prs, issues[i].key@, prs.len() as int, k as int);
    }
}

/// The commits of scans are put together scan by scan; a scan that failed adds none.
pub proof fn law_scans_are_put_together(
    a: Seq<Option<Vec<CommitRecord>>>,
    b: Seq<Option<Vec<CommitRecord>>>,
    one: Vec<CommitRecord>,
)
    ensures
        all_found(a + b) == all_found(a) + all_found(b),
        all_found(seq![Some(one)]) == one@,
        all_found(seq![None]) == Seq::<CommitRecord>::empty(),
    decreases b.len(),
{
    let single = seq![Some(one)];
    let none: Seq<Option<Vec<CommitRecord>>> = seq![None];
    assert(single.drop_last() =~= Seq::empty());
    assert(none.drop_last() =~= Seq::empty());
    reveal_with_fuel(all_found, 2);
    assert(all_found(single) =~= one@);
    if b.len() == 0 {
        assert(a + b =~= a);
        assert(all_found(a + b) =~= all_found(a) + all_found(b));
    } else {
        law_scans_are_put_together(a, b.drop_last(), one);
        assert((a + b).drop_last() =~= a + b.drop_last());
        assert((a + b).last() == b.last());
        assert(all_found(a + b) =~= all_found(a) + all_found(b));
    }
}

/// The standup has the commits of every scan that succeeded, and no others, from the oldest
/// to the newest.
pub proof fn law_standup_has_all_commits(
    scans: Seq<Option<Vec<CommitRecord>>>,
    r: Seq<CommitRecord>,
    i: int,
    j: int,
    k: int,
)
    requires
        scanner::sorted_by_age(all_found(scans), r),
        all_found(scans).len() <= usize::MAX,
    ensures
        0 <= i < scans.len() && scans[i] is Some && 0 <= j < (scans[i]->0)@.len() ==> r.contains(
            (scans[i]->0)@[j],
        ),
        0 <= k < r.len() ==> exists|n: int|
            0 <= n < scans.len() && (#[trigger] scans[n]) is Some && (scans[n]->0)@.contains(r[k]),
        0 <= j < k < r.len() ==> r[j].author_time <= r[k].author_time,
{
    if 0 <= i < scans.len() && scans[i] is Some && 0 <= j < (scans[i]->0)@.len() {
        let c = (scans[i]->0)@[j];
        lemma_found_in(scans, c);
        assert((scans[i]->0)@.contains(c));
        scanner::law_sorting_keeps_the_commits(all_found(scans), r, c);
    }
    if 0 <= k < r.len() {
        lemma_found_in(scans, r[k]);
        scanner::law_sorting_keeps_the_commits(all_found(scans), r, r[k]);
        assert(r.contains(r[k]));
    }
}

proof fn lemma_found_in(scans: Seq<Option<Vec<CommitRecord>>>, c: CommitRecord)
    ensures
        all_found(scans).contains(c) <==> exists|n: int|
            0 <= n < scans.len() && (#[trigger] scans[n]) is Some && (scans[n]->0)@.contains(c),
    decreases scans.len(),
{
    if scans.len() > 0 {
        let rest = scans.drop_last();
        lemma_found_in(rest, c);
        let last = scans.len() - 1;
        assert(scans[last] == scans.last());
        if let Some(found) = scans.last() {
            crate::order::lemma_add_contains(all_found(rest), found@, c);
        }
        if all_found(scans).contains(c) {
            if all_found(rest).contains(c) {
                let n = choose|n: int|
                    0 <= n < rest.len() && (#[trigger] rest[n]) is Some && (rest[n]->0)@.contains(
                        c,
                    );
                assert(scans[n] == rest[n]);
            } else {
                assert(scans[last] is Some && (scans[last]->0)@.contains(c));
            }
        }
        if exists|n: int|
            0 <= n < scans.len() && (#[trigger] scans[n]) is Some && (scans[n]->0)@.contains(c) {
            let n = choose|n: int|
                0 <= n < scans.len() && (#[trigger] scans[n]) is Some && (scans[n]->0)@.contains(c);
            if n < last {
                assert(rest[n] == scans[n]);
            }
        }
    }
}

/// An open pull request is planned with an issue if its title names the issue, or its body,
/// or its branch, whatever the other two name.
pub proof fn law_each_mention_counts(
    issues: Seq<IssueInfo>,
    prs: Seq<PrInfo>,
    plan: Plan,
    i: int,
    k: usize,
)
    requires
        is_plan(issues, prs, plan),
        0 <= i < issues.len(),
        k < prs.len() <= usize::MAX,
        prs[k as int].state == PrState::Open,
    ensures
        tickets::keys_in(prs[k as int].title@).contains(issues[i].key@) ==> plan.items@[i]@.contains(
            k,
        ),
        tickets::keys_in(prs[k as int].body@).contains(issues[i].key@) ==> plan.items@[i]@.contains(
            k,
        ),
        tickets::keys_in(prs[k as int].head_branch@).contains(issues[i].key@)
            ==> plan.items@[i]@.contains(k),
        plan.items@[i]@.contains(k) ==> {
            ||| tickets::keys_in(prs[k as int].title@).contains(issues[i].key@)
            ||| tickets::keys_in(prs[k as int].body@).contains(issues[i].key@)
            ||| tickets::keys_in(prs[k as int].head_branch@).contains(issues[i].key@)
        },
        plan.items@[i]@.contains(k) ==> !plan.standalone@.contains(k),
        plan.standalone@.contains(k) || exists|n: int|
            0 <= n < issues.len() && (#[trigger] plan.items@[n])@.contains(k),
{
    law_open_prs_are_planned(issues, prs, plan, k);
    assert(plan.items@[i]@.contains(k) <==> mentions(prs[k as int], issues[i].key@));
    if mentions_any(prs[k as int], issues) {
        let n = choose|n: int|
            0 <= n < issues.len() && mentions(prs[k as int], (#[trigger] issues[n]).key@);
        assert(plan.items@[n]@.contains(k));
    }
}

/// A pull request that is not open is not planned.
pub proof fn law_only_open_prs_are_planned(
    issues: Seq<IssueInfo>,
    prs: Seq<PrInfo>,
    plan: Plan,
    i: int,
    k: usize,
)
    requires
        is_plan(issues, prs, plan),
        prs.len() <= usize::MAX,
        0 <= i < issues.len(),
        k >= prs.len() || prs[k as int].state == PrState::Merged || prs[k as int].state
            == PrState::Closed,
    ensures
        !plan.items@[i]@.contains(k),
        !plan.standalone@.contains(k),
{
    law_open_prs_are_planned(issues, prs, plan, k);
    assert(!plan.items@[i]@.contains(k));
}

proof fn lemma_attached_ascends(prs: Seq<PrInfo>, key: Seq<char>, n: int)
    requires
        n <= usize::MAX,
    ensures
        forall|a: int, b: int|
            0 <= a < b < attached(prs, key, n).len() ==> #[trigger] attached(prs, key, n)[a]
                < #[trigger] attached(prs, key, n)[b],
        forall|a: int|
            0 <= a < attached(prs, key, n).len() ==> (#[trigger] attached(prs, key, n)[a]) < n,
    decreases n,
{
    if n > 0 {
        lemma_attached_ascends(prs, key, n - 1);
        let rest = attached(prs, key, n - 1);
        let all = attached(prs, key, n);
        assert forall|a: int| 0 <= a < all.len() implies (#[trigger] all[a]) < n by {
            if a < rest.len() {
                assert(rest[a] < n - 1);
            }
        }
        assert forall|a: int, b: int| 0 <= a < b < all.len() implies #[trigger] all[a]
            < #[trigger] all[b] by {
            assert(rest[a] < n - 1);
            if b < rest.len() {
                assert(rest[a] < rest[b]);
            }
        }
    }
}

proof fn lemma_unattached_ascends(prs: Seq<PrInfo>, issues: Seq<IssueInfo>, n: int)
    requires
        n <= usize::MAX,
    ensures
        forall|a: int, b: int|
            0 <= a < b < unattached(prs, issues, n).len() ==> #[trigger] unattached(prs, issues, n)[a]
                < #[trigger] unattached(prs, issues, n)[b],
        forall|a: int|
            0 <= a < unattached(prs, issues, n).len() ==> (#[trigger] unattached(prs, issues, n)[a])
                < n,
    decreases n,
{
    if n > 0 {
        lemma_unattached_ascends(prs, issues, n - 1);
        let rest = unattached(prs, issues, n - 1);
        let all = unattached(prs, issues, n);
        assert forall|a: int| 0 <= a < all.len() implies (#[trigger] all[a]) < n by {
            if a < rest.len() {
                assert(rest[a] < n - 1);
            }
        }
        assert forall|a: int, b: int| 0 <= a < b < all.len() implies #[trigger] all[a]
            < #[trigger] all[b] by {
            assert(rest[a] < n - 1);
            if b < rest.len() {
                assert(rest[a] < rest[b]);
            }
        }
    }
}

/// A plan lists pull requests in the order they came in, and none twice in one place.
pub proof fn law_plans_keep_the_order(
    issues: Seq<IssueInfo>,
    prs: Seq<PrInfo>,
    plan: Plan,
    i: int,
    a: int,
    b: int,
)
    requires
        is_plan(issues, prs, plan),
        prs.len() <= usize::MAX,
        0 <= i < issues.len(),
        0 <= a < b,
    ensures
        plan.items@.len() == issues.len(),
        b < plan.items@[i]@.len() ==> plan.items@[i]@[a] < plan.items@[i]@[b],
        b < plan.standalone@.len() ==> plan.standalone@[a] < plan.standalone@[b],
{
    lemma_attached_ascends(prs, issues[i].key@, prs.len() as int);
    lemma_unattached_ascends(prs, issues, prs.len() as int);
}

/// So many days ago is a day of the calendar that many days earlier; yesterday is the day right
/// before today.
pub proof fn law_days_ago_are_counted(today: Date, days: int, d: Date)
    requires
        today.valid(),
        is_days_ago(today, days, d),
        days >= 0,
    ensures
        today.number() - days >= dates::first_day().number() ==> d.valid() && today.number()
            - d.number() == days,
        today.number() - days < dates::first_day().number() ==> d == today,
{
}

} // verus!
