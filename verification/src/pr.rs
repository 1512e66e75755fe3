//! Pull requests, whichever host they come from.

use vstd::prelude::*;

use crate::scanner::CommitRecord;
use crate::text;

verus! {

#[derive(Clone, Copy, PartialEq, Eq, Structural, Debug)]
pub enum PrState {
    Open,
    Merged,
    Closed,
}

#[derive(Debug)]
pub struct PrInfo {
    pub number: u64,
    pub title: String,
    pub body: String,
    pub head_branch: String,
    pub url: String,
    pub state: PrState,
    pub commit_oids: Vec<String>,
}

impl PrInfo {
    /// The two say the same.
    pub open spec fn same(&self, other: &PrInfo) -> bool {
        &&& self.number == other.number
        &&& self.title@ == other.title@
        &&& self.body@ == other.body@
        &&& self.head_branch@ == other.head_branch@
        &&& self.url@ == other.url@
        &&& self.state == other.state
        &&& text::texts(self.commit_oids@) == text::texts(other.commit_oids@)
    }
}

impl Clone for PrInfo {
    fn clone(&self) -> (r: Self)
        ensures
            r.same(self),
    {
        PrInfo {
            number: self.number,
            title: self.title.clone(),
            body: self.body.clone(),
            head_branch: self.head_branch.clone(),
            url: self.url.clone(),
            state: self.state,
            commit_oids: text::clone_texts(&self.commit_oids),
        }
    }
}

/// The lists one after the other.
pub open spec fn all_prs(lists: Seq<Vec<PrInfo>>) -> Seq<PrInfo>
    decreases lists.len(),
{
    if lists.len() == 0 {
        Seq::empty()
    } else {
        all_prs(lists.drop_last()) + lists.last()@
    }
}

/// The pull requests that hold a commit, once for each time that they list it.
pub open spec fn prs_holding<'a>(prs: Seq<PrInfo>, oid: Seq<char>) -> Seq<&'a PrInfo>
    decreases prs.len(),
{
    if prs.len() == 0 {
        Seq::empty()
    } else {
        prs_holding(prs.drop_last(), oid) + repeated(
            &prs.last(),
            times_listed(text::texts(prs.last().commit_oids@), oid),
        )
    }
}

/// How often `oid` stands in the list.
pub open spec fn times_listed(oids: Seq<Seq<char>>, oid: Seq<char>) -> nat
    decreases oids.len(),
{
    if oids.len() == 0 {
        0
    } else {
        times_listed(oids.drop_last(), oid) + (if oids.last() == oid {
            1nat
        } else {
            0nat
        })
    }
}

/// `pr`, `n` times.
pub open spec fn repeated(pr: &PrInfo, n: nat) -> Seq<&PrInfo> {
    Seq::new(n, |i: int| pr)
}

/// Finds the pull requests of a commit.
pub struct PrIndex {
    pub prs: Vec<PrInfo>,
}

/// The index of all pull requests of all repositories.
pub fn build_pr_index(lists: Vec<Vec<PrInfo>>) -> (r: PrIndex)
    ensures
        r.prs@ == all_prs(lists@),
{
    let mut out: Vec<PrInfo> = Vec::new();
    let mut rest = lists;
    let ghost all = lists@;
    let n = rest.len();
    assert(all.skip(0) =~= all);
    for i in 0..n
        invariant
            rest@ == all.skip(i as int),
            n == all.len(),
            out@ == all_prs(all.take(i as int)),
    {
        let mut list = rest.remove(0);
        proof {
            assert(all.skip(i as int)[0] == all[i as int]);
            assert(all.take(i + 1).drop_last() =~= all.take(i as int));
            assert(all.take(i + 1).last() == list);
        }
        out.append(&mut list);
        assert(rest@ =~= all.skip(i + 1));
    }
    assert(all.take(n as int) =~= all);
    PrIndex { prs: out }
}

impl PrIndex {
    /// The pull requests that hold a commit.
    pub fn lookup(&self, oid: &str) -> (r: Vec<&PrInfo>)
        ensures
            r@ == prs_holding(self.prs@, oid@),
    {
        let mut out: Vec<&PrInfo> = Vec::new();
        let ghost all = self.prs@;
        for i in 0..self.prs.len()
            invariant
                all == self.prs@,
                out@ == prs_holding(all.take(i as int), oid@),
        {
            let pr = &self.prs[i];
            let ghost before = out@;
            let ghost oids = text::texts(pr.commit_oids@);
            assert(before + repeated(pr, 0) =~= before);
            for k in 0..pr.commit_oids.len()
                invariant
                    oids == text::texts(pr.commit_oids@),
                    out@ == before + repeated(pr, times_listed(oids.take(k as int), oid@)),
            {
                proof {
                    assert(oids.take(k + 1).drop_last() =~= oids.take(k as int));
                    assert(oids.take(k + 1).last() == pr.commit_oids@[k as int]@);
                }
                if text::same_text(pr.commit_oids[k].as_str(), oid) {
                    out.push(pr);
                }
                assert(out@ =~= before + repeated(pr, times_listed(oids.take(k + 1), oid@)));
            }
            proof {
                assert(oids.take(oids.len() as int) =~= oids);
                assert(all.take(i + 1).drop_last() =~= all.take(i as int));
                assert(all.take(i + 1).last() == *pr);
            }
        }
        assert(all.take(all.len() as int) =~= all);
        out
    }
}

/// The texts of pull requests that may mention a ticket.
pub open spec fn pr_texts(prs: Seq<&PrInfo>) -> Seq<Seq<char>>
    decreases prs.len(),
{
    if prs.len() == 0 {
        Seq::empty()
    } else {
        pr_texts(prs.drop_last()) + seq![
            prs.last().title@,
            prs.last().body@,
            prs.last().head_branch@,
        ]
    }
}

/// The branches of a commit, with the texts of its pull requests behind them.
pub open spec fn enriched_branches(branches: Seq<char>, prs: Seq<&PrInfo>) -> Seq<char> {
    let extra = text::joined(pr_texts(prs), " "@);
    if prs.len() == 0 || extra.len() == 0 {
        branches
    } else if branches.len() == 0 {
        extra
    } else {
        branches + " "@ + extra
    }
}

/// `now` is `before` with the texts of its pull requests.
pub open spec fn is_enriched(before: CommitRecord, now: CommitRecord, prs: Seq<PrInfo>) -> bool {
    &&& now.branches@ == enriched_branches(before.branches@, prs_holding(prs, before.oid@))
    &&& now == CommitRecord { branches: now.branches, ..before }
}

fn texts_of_prs(prs: &Vec<&PrInfo>) -> (r: Vec<String>)
    ensures
        text::texts(r@) == pr_texts(prs@),
{
    let mut out: Vec<String> = Vec::new();
    assert(text::texts(out@) =~= Seq::empty());
    for i in 0..prs.len()
        invariant
            text::texts(out@) == pr_texts(prs@.take(i as int)),
    {
        let ghost before = text::texts(out@);
        proof {
            assert(prs@.take(i + 1).drop_last() =~= prs@.take(i as int));
            assert(prs@.take(i + 1).last() == prs@[i as int]);
        }
        out.push(prs[i].title.clone());
        out.push(prs[i].body.clone());
        out.push(prs[i].head_branch.clone());
        assert(text::texts(out@) =~= before + seq![
            prs@[i as int].title@,
            prs@[i as int].body@,
            prs@[i as int].head_branch@,
        ]);
    }
    assert(prs@.take(prs@.len() as int) =~= prs@);
    out
}

/// One commit with the texts of its pull requests, which may mention tickets
/// that the commit itself does not.
pub fn enrich_record(record: &CommitRecord, index: &PrIndex) -> (r: CommitRecord)
    ensures
        is_enriched(*record, r, index.prs@),
{
    let mut out = record.clone();
    let prs = index.lookup(record.oid.as_str());
    if prs.len() == 0 {
        return out;
    }
    let parts = texts_of_prs(&prs);
    let extra = text::join_texts(&parts, " ");
    if extra.as_str().unicode_len() == 0 {
        return out;
    }
    let mut branches = out.branches;
    if branches.as_str().unicode_len() > 0 {
        branches.append(" ");
    }
    branches.append(extra.as_str());
    out.branches = branches;
    assert(out.branches@ =~= enriched_branches(
        record.branches@,
        prs_holding(index.prs@, record.oid@),
    ));
    out
}

/// Adds to each commit the texts of its pull requests.
pub fn enrich_records_with_prs(records: &mut Vec<CommitRecord>, index: &PrIndex)
    ensures
        final(records)@.len() == old(records)@.len(),
        forall|i: int|
            0 <= i < old(records)@.len() ==> is_enriched(
                old(records)@[i],
                #[trigger] final(records)@[i],
                index.prs@,
            ),
{
    let n = records.len();
    let ghost before = records@;
    for i in 0..n
        invariant
            n == before.len(),
            records@.len() == n,
            before == old(records)@,
            forall|j: int| i <= j < n ==> records@[j] == before[j],
            forall|j: int|
                0 <= j < i ==> is_enriched(before[j], #[trigger] records@[j], index.prs@),
    {
        let now = enrich_record(&records[i], index);
        records.set(i, now);
    }
}

/// A commit that no pull request holds stays as it is.
pub proof fn law_enrichment_needs_a_pull_request(
    before: CommitRecord,
    now: CommitRecord,
    prs: Seq<PrInfo>,
)
    requires
        is_enriched(before, now, prs),
        forall|i: int|
            0 <= i < prs.len() ==> !text::texts((#[trigger] prs[i]).commit_oids@).contains(
                before.oid@,
            ),
    ensures
        now.branches@ == before.branches@,
{
    lemma_holding_none(prs, before.oid@);
}

proof fn lemma_listed_none(oids: Seq<Seq<char>>, oid: Seq<char>)
    requires
        !oids.contains(oid),
    ensures
        times_listed(oids, oid) == 0,
    decreases oids.len(),
{
    if oids.len() > 0 {
        assert(oids[oids.len() - 1] != oid);
        assert forall|i: int| 0 <= i < oids.len() - 1 implies oids.drop_last()[i] != oid by {
            assert(oids[i] != oid);
        }
        lemma_listed_none(oids.drop_last(), oid);
    }
}

proof fn lemma_holding_none(prs: Seq<PrInfo>, oid: Seq<char>)
    requires
        forall|i: int|
            0 <= i < prs.len() ==> !text::texts((#[trigger] prs[i]).commit_oids@).contains(oid),
    ensures
        prs_holding(prs, oid).len() == 0,
    decreases prs.len(),
{
    if prs.len() > 0 {
        assert(prs.last() == prs[prs.len() - 1]);
        lemma_listed_none(text::texts(prs.last().commit_oids@), oid);
        assert forall|i: int| 0 <= i < prs.len() - 1 implies !text::texts(
            (#[trigger] prs.drop_last()[i]).commit_oids@,
        ).contains(oid) by {
            assert(prs.drop_last()[i] == prs[i]);
        }
        lemma_holding_none(prs.drop_last(), oid);
    }
}

/// How often a commit is listed is counted one by one.
pub proof fn law_listings_count_one_by_one(
    a: Seq<Seq<char>>,
    b: Seq<Seq<char>>,
    one: Seq<char>,
    oid: Seq<char>,
)
    ensures
        times_listed(a + b, oid) == times_listed(a, oid) + times_listed(b, oid),
        one == oid ==> times_listed(seq![one], oid) == 1,
        one != oid ==> times_listed(seq![one], oid) == 0,
    decreases b.len(),
{
    let single = seq![one];
    assert(single.drop_last() =~= Seq::empty());
    reveal_with_fuel(times_listed, 2);
    if b.len() == 0 {
        assert(a + b =~= a);
    } else {
        law_listings_count_one_by_one(a, b.drop_last(), one, oid);
        assert((a + b).drop_last() =~= a + b.drop_last());
        assert((a + b).last() == b.last());
    }
}

/// The pull requests of a commit are found one after the other, each as often as it lists the
/// commit.
pub proof fn law_pull_requests_are_found_one_by_one(
    a: Seq<PrInfo>,
    b: Seq<PrInfo>,
    one: PrInfo,
    oid: Seq<char>,
)
    ensures
        prs_holding(a + b, oid) == prs_holding(a, oid) + prs_holding(b, oid),
        prs_holding(seq![one], oid).len() == times_listed(text::texts(one.commit_oids@), oid),
        forall|k: int|
            0 <= k < prs_holding(seq![one], oid).len() ==> *(#[trigger] prs_holding(
                seq![one],
                oid,
            )[k]) == one,
    decreases b.len(),
{
    let single = seq![one];
    assert(single.drop_last() =~= Seq::empty());
    reveal_with_fuel(prs_holding, 2);
    assert(prs_holding(single, oid) =~= repeated(
        &one,
        times_listed(text::texts(one.commit_oids@), oid),
    ));
    if b.len() == 0 {
        assert(a + b =~= a);
        assert(prs_holding(a + b, oid) =~= prs_holding(a, oid) + prs_holding(b, oid));
    } else {
        law_pull_requests_are_found_one_by_one(a, b.drop_last(), one, oid);
        assert((a + b).drop_last() =~= a + b.drop_last());
        assert((a + b).last() == b.last());
        assert(prs_holding(a + b, oid) =~= prs_holding(a, oid) + prs_holding(b, oid));
    }
}

proof fn lemma_listed_some(oids: Seq<Seq<char>>, oid: Seq<char>)
    requires
        oids.contains(oid),
    ensures
        times_listed(oids, oid) > 0,
    decreases oids.len(),
{
    let i = choose|i: int| 0 <= i < oids.len() && oids[i] == oid;
    if i < oids.len() - 1 {
        assert(oids.drop_last()[i] == oid);
        lemma_listed_some(oids.drop_last(), oid);
    }
}

/// A pull request is found for a commit if it lists it, and only then.
pub proof fn law_pull_requests_hold_what_they_list(prs: Seq<PrInfo>, oid: Seq<char>, pr: &PrInfo)
    ensures
        prs_holding(prs, oid).contains(pr) <==> prs.contains(*pr) && text::texts(
            pr.commit_oids@,
        ).contains(oid),
    decreases prs.len(),
{
    if prs.len() > 0 {
        let rest = prs.drop_last();
        let last = prs.last();
        let n = times_listed(text::texts(last.commit_oids@), oid);
        law_pull_requests_hold_what_they_list(rest, oid, pr);
        assert(prs =~= rest.push(last));
        crate::order::lemma_push_contains(rest, last, *pr);
        crate::order::lemma_add_contains(prs_holding(rest, oid), repeated(&last, n), pr);
        if text::texts(last.commit_oids@).contains(oid) {
            lemma_listed_some(text::texts(last.commit_oids@), oid);
            assert(repeated(&last, n)[0] == &last);
        } else {
            lemma_listed_none(text::texts(last.commit_oids@), oid);
        }
    }
}

/// The texts of a pull request are appended to the branches: its title, its body and its
/// branch, with blanks between them.
pub proof fn law_texts_are_appended(branches: Seq<char>, prs: Seq<&PrInfo>, pr: &PrInfo)
    ensures
        ({
            let told = pr.title@ + " "@ + pr.body@ + " "@ + pr.head_branch@;
            let before = enriched_branches(branches, prs);
            enriched_branches(branches, prs.push(pr)) == if before.len() == 0 {
                told
            } else {
                before + " "@ + told
            }
        }),
        enriched_branches(branches, Seq::empty()) == branches,
{
    reveal_strlit(" ");
    let three = seq![pr.title@, pr.body@, pr.head_branch@];
    let told = pr.title@ + " "@ + pr.body@ + " "@ + pr.head_branch@;
    let all = prs.push(pr);
    let old_texts = pr_texts(prs);
    assert(all.drop_last() =~= prs);
    assert(pr_texts(all) =~= old_texts + three);
    let two = seq![pr.title@, pr.body@];
    text::law_joining_puts_separators_between(two, seq![pr.head_branch@], " "@, pr.head_branch@);
    text::law_joining_puts_separators_between(seq![pr.title@], seq![pr.body@], " "@, pr.title@);
    text::law_joining_puts_separators_between(two, two, " "@, pr.body@);
    assert(seq![pr.title@] + seq![pr.body@] =~= two);
    assert(two + seq![pr.head_branch@] =~= three);
    assert(text::joined(three, " "@) =~= told);
    text::law_joining_puts_separators_between(old_texts, three, " "@, pr.title@);
    lemma_texts_length(prs);
    if prs.len() == 0 {
        assert(old_texts + three =~= three);
        assert(enriched_branches(branches, all) =~= if branches.len() == 0 {
            told
        } else {
            branches + " "@ + told
        });
    } else {
        let extra = text::joined(old_texts, " "@);
        assert(text::joined(pr_texts(all), " "@) == extra + " "@ + told);
        if branches.len() > 0 {
            assert(branches + " "@ + (extra + " "@ + told) =~= branches + " "@ + extra + " "@
                + told);
        }
    }
}

proof fn lemma_texts_length(prs: Seq<&PrInfo>)
    ensures
        pr_texts(prs).len() == 3 * prs.len(),
        prs.len() > 0 ==> text::joined(pr_texts(prs), " "@).len() >= 2,
    decreases prs.len(),
{
    if prs.len() > 0 {
        reveal_strlit(" ");
        let rest = prs.drop_last();
        lemma_texts_length(rest);
        let three = seq![prs.last().title@, prs.last().body@, prs.last().head_branch@];
        let all = pr_texts(rest) + three;
        let one = all.drop_last();
        assert(one.drop_last().len() >= 1);
        reveal_with_fuel(text::joined, 3);
    }
}

/// The texts of every pull request of a commit stand in its branches afterwards, and so do
/// the branches that stood there. Nothing else of the commit changes.
pub proof fn law_enrichment_adds_every_text(
    before: CommitRecord,
    now: CommitRecord,
    prs: Seq<PrInfo>,
    pr: PrInfo,
)
    requires
        is_enriched(before, now, prs),
    ensures
        prs.contains(pr) && text::texts(pr.commit_oids@).contains(before.oid@) ==> {
            &&& text::has_text(now.branches@, pr.title@)
            &&& text::has_text(now.branches@, pr.body@)
            &&& text::has_text(now.branches@, pr.head_branch@)
        },
        text::occurs_at(now.branches@, before.branches@, 0),
        now.oid == before.oid,
        now.author_time == before.author_time,
        now.subject == before.subject,
        now.body == before.body,
        now.repo == before.repo,
{
    reveal_strlit(" ");
    let held = prs_holding(prs, before.oid@);
    lemma_enriched(before.branches@, held);
    if prs.contains(pr) && text::texts(pr.commit_oids@).contains(before.oid@) {
        law_pull_requests_hold_what_they_list(prs, before.oid@, &pr);
        let k = choose|k: int| 0 <= k < held.len() && held[k] == &pr;
        lemma_enriched_has(before.branches@, held, k);
    }
}

proof fn lemma_enriched(branches: Seq<char>, prs: Seq<&PrInfo>)
    ensures
        text::occurs_at(enriched_branches(branches, prs), branches, 0),
{
    let all = enriched_branches(branches, prs);
    if branches.len() == 0 {
        assert(all.subrange(0, 0) =~= branches);
    } else {
        assert(all.subrange(0, branches.len() as int) =~= branches);
    }
}

proof fn lemma_enriched_has(branches: Seq<char>, prs: Seq<&PrInfo>, k: int)
    requires
        0 <= k < prs.len(),
    ensures
        text::has_text(enriched_branches(branches, prs), prs[k].title@),
        text::has_text(enriched_branches(branches, prs), prs[k].body@),
        text::has_text(enriched_branches(branches, prs), prs[k].head_branch@),
{
    let parts = pr_texts(prs);
    let extra = text::joined(parts, " "@);
    let all = enriched_branches(branches, prs);
    lemma_texts_length(prs);
    lemma_texts_at(prs, k);
    assert(all.skip(all.len() - extra.len()) =~= extra);
    text::law_joined_parts_are_there(parts, " "@, 3 * k);
    text::law_joined_parts_are_there(parts, " "@, 3 * k + 1);
    text::law_joined_parts_are_there(parts, " "@, 3 * k + 2);
    lemma_has_behind(all, extra, prs[k].title@);
    lemma_has_behind(all, extra, prs[k].body@);
    lemma_has_behind(all, extra, prs[k].head_branch@);
}

proof fn lemma_texts_at(prs: Seq<&PrInfo>, k: int)
    requires
        0 <= k < prs.len(),
    ensures
        pr_texts(prs).len() == 3 * prs.len(),
        pr_texts(prs)[3 * k] == prs[k].title@,
        pr_texts(prs)[3 * k + 1] == prs[k].body@,
        pr_texts(prs)[3 * k + 2] == prs[k].head_branch@,
    decreases prs.len(),
{
    lemma_texts_length(prs.drop_last());
    if k < prs.len() - 1 {
        lemma_texts_at(prs.drop_last(), k);
    }
}

proof fn lemma_has_behind(all: Seq<char>, tail: Seq<char>, pat: Seq<char>)
    requires
        tail.len() <= all.len(),
        all.skip(all.len() - tail.len()) == tail,
        text::has_text(tail, pat),
    ensures
        text::has_text(all, pat),
{
    let i = choose|i: int| text::occurs_at(tail, pat, i);
    let n = all.len() - tail.len();
    assert(all.subrange(n + i, n + i + pat.len()) =~= tail.subrange(i, i + pat.len()));
    assert(text::occurs_at(all, pat, n + i));
}

/// An index has the pull requests of all lists, one list after the other.
pub proof fn law_index_has_all_lists(a: Seq<Vec<PrInfo>>, b: Seq<Vec<PrInfo>>, one: Vec<PrInfo>)
    ensures
        all_prs(a + b) == all_prs(a) + all_prs(b),
        all_prs(seq![one]) == one@,
    decreases b.len(),
{
    let single = seq![one];
    assert(single.drop_last() =~= Seq::empty());
    reveal_with_fuel(all_prs, 2);
    assert(all_prs(single) =~= one@);
    if b.len() == 0 {
        assert(a + b =~= a);
        assert(all_prs(a + b) =~= all_prs(a) + all_prs(b));
    } else {
        law_index_has_all_lists(a, b.drop_last(), one);
        assert((a + b).drop_last() =~= a + b.drop_last());
        assert((a + b).last() == b.last());
        assert(all_prs(a + b) =~= all_prs(a) + all_prs(b));
    }
}

} // verus!
