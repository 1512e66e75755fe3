//! From the history of a repository to the commits of its user.

use vstd::prelude::*;

use crate::dates;
use crate::dates::Date;
use crate::order;
use crate::text;

verus! {

/// One commit of the user.
#[derive(Debug)]
pub struct CommitRecord {
    pub oid: String,
    pub author_time: i64,
    pub subject: String,
    pub body: String,
    /// The local branches that contain the commit, with a space between two.
    pub branches: String,
    pub repo: String,
}

impl Clone for CommitRecord {
    fn clone(&self) -> (r: Self)
        ensures
            r == *self,
    {
        CommitRecord {
            oid: self.oid.clone(),
            author_time: self.author_time,
            subject: self.subject.clone(),
            body: self.body.clone(),
            branches: self.branches.clone(),
            repo: self.repo.clone(),
        }
    }
}

/// What a commit record says.
pub struct RecordView {
    pub oid: Seq<char>,
    pub author_time: i64,
    pub subject: Seq<char>,
    pub body: Seq<char>,
    pub branches: Seq<char>,
    pub repo: Seq<char>,
}

impl View for CommitRecord {
    type V = RecordView;

    open spec fn view(&self) -> RecordView {
        RecordView {
            oid: self.oid@,
            author_time: self.author_time,
            subject: self.subject@,
            body: self.body@,
            branches: self.branches@,
            repo: self.repo@,
        }
    }
}

pub open spec fn record_views(v: Seq<CommitRecord>) -> Seq<RecordView> {
    Seq::new(v.len(), |i: int| v[i]@)
}

/// A copy of a list of commits.
pub fn clone_records(v: &Vec<CommitRecord>) -> (r: Vec<CommitRecord>)
    ensures
        r@ == v@,
{
    let mut out: Vec<CommitRecord> = Vec::new();
    for i in 0..v.len()
        invariant
            out@ == v@.take(i as int),
    {
        out.push(v[i].clone());
        assert(v@.take(i + 1) =~= v@.take(i as int).push(v@[i as int]));
    }
    assert(v@.take(v@.len() as int) =~= v@);
    out
}

pub open spec fn record_times(v: Seq<CommitRecord>) -> Seq<i64> {
    Seq::new(v.len(), |i: int| v[i].author_time)
}

/// `sorted` is `v` from the oldest to the newest; commits that are equally old
/// stay as they were.
pub open spec fn sorted_by_age(v: Seq<CommitRecord>, sorted: Seq<CommitRecord>) -> bool {
    exists|at: Seq<usize>| is_age_order(v, sorted, at)
}

/// `at` are the positions in `v` that the commits of `sorted` come from.
pub open spec fn is_age_order(
    v: Seq<CommitRecord>,
    sorted: Seq<CommitRecord>,
    at: Seq<usize>,
) -> bool {
    &&& order::is_stable_order(record_times(v), at)
    &&& sorted.len() == v.len()
    &&& forall|i: int| 0 <= i < v.len() ==> #[trigger] sorted[i] == v[at[i] as int]
}

/// The commits from the oldest to the newest.
pub fn sort_records(v: &Vec<CommitRecord>) -> (r: Vec<CommitRecord>)
    ensures
        sorted_by_age(v@, r@),
        r@.len() == v@.len(),
{
    let mut times: Vec<i64> = Vec::new();
    for i in 0..v.len()
        invariant
            times@ == record_times(v@).take(i as int),
    {
        times.push(v[i].author_time);
        assert(record_times(v@).take(i + 1) =~= record_times(v@).take(i as int).push(
            v@[i as int].author_time,
        ));
    }
    assert(record_times(v@).take(v@.len() as int) =~= record_times(v@));
    let at = order::stable_order(&times);
    let mut out: Vec<CommitRecord> = Vec::new();
    for i in 0..at.len()
        invariant
            order::is_stable_order(record_times(v@), at@),
            out@.len() == i,
            forall|j: int| 0 <= j < i ==> #[trigger] out@[j] == v@[at@[j] as int],
    {
        out.push(v[at[i]].clone());
    }
    assert(is_age_order(v@, out@, at@));
    out
}

/// The first and the last second of a scan.
#[derive(Clone, Copy, PartialEq, Eq, Structural, Debug)]
pub struct Window {
    pub start: i64,
    /// The first second after it.
    pub end: i64,
}

/// The day that a scan starts on, and the day that it is over on.
pub fn scan_days(start_date: Date, end_date_inclusive: Date) -> (r: Option<(Date, Date)>)
    requires
        start_date.valid(),
        end_date_inclusive.valid(),
    ensures
        match r {
            Some((a, b)) => a == start_date && b.valid() && b.number()
                == end_date_inclusive.number() + 1,
            None => end_date_inclusive.number() + 1 > dates::last_day().number(),
        },
{
    match end_date_inclusive.add_days(1) {
        Some(next) => Some((start_date, next)),
        None => {
            proof {
                dates::lemma_number_bounds(end_date_inclusive);
            }
            None
        },
    }
}

/// A commit, and the local branches that contain it.
pub struct BranchEntry {
    pub oid: String,
    pub branches: Vec<String>,
}

/// Which local branches contain which commits.
pub struct BranchIndex {
    pub entries: Vec<BranchEntry>,
}

/// No commit has two entries.
pub open spec fn distinct_oids(entries: Seq<BranchEntry>) -> bool {
    forall|i: int, j: int|
        0 <= i < j < entries.len() ==> (#[trigger] entries[i]).oid@ != (#[trigger] entries[j]).oid@
}

/// The branches of a commit.
pub open spec fn branches_of(entries: Seq<BranchEntry>, oid: Seq<char>) -> Seq<Seq<char>>
    decreases entries.len(),
{
    if entries.len() == 0 {
        Seq::empty()
    } else if entries.last().oid@ == oid {
        text::texts(entries.last().branches@)
    } else {
        branches_of(entries.drop_last(), oid)
    }
}

/// Some branch contains the commit.
pub open spec fn is_listed(entries: Seq<BranchEntry>, oid: Seq<char>) -> bool {
    exists|i: int| 0 <= i < entries.len() && (#[trigger] entries[i]).oid@ == oid
}

proof fn lemma_branches_at(entries: Seq<BranchEntry>, i: int)
    requires
        distinct_oids(entries),
        0 <= i < entries.len(),
    ensures
        branches_of(entries, entries[i].oid@) == text::texts(entries[i].branches@),
    decreases entries.len(),
{
    if i < entries.len() - 1 {
        assert(entries[i].oid@ != entries[entries.len() - 1].oid@);
        let t = entries.drop_last();
        assert(t[i] == entries[i]);
        lemma_branches_at(t, i);
    }
}

proof fn lemma_branches_absent(entries: Seq<BranchEntry>, oid: Seq<char>)
    requires
        !is_listed(entries, oid),
    ensures
        branches_of(entries, oid) == Seq::<Seq<char>>::empty(),
    decreases entries.len(),
{
    if entries.len() > 0 {
        assert(entries[entries.len() - 1].oid@ != oid);
        let t = entries.drop_last();
        assert(!is_listed(t, oid)) by {
            if is_listed(t, oid) {
                let i = choose|i: int| 0 <= i < t.len() && (#[trigger] t[i]).oid@ == oid;
                assert(entries[i].oid@ == oid);
            }
        }
        lemma_branches_absent(t, oid);
    }
}

impl BranchIndex {
    pub open spec fn wf(self) -> bool {
        distinct_oids(self.entries@)
    }

    pub fn new() -> (r: Self)
        ensures
            r.wf(),
            r.entries@.len() == 0,
    {
        BranchIndex { entries: Vec::new() }
    }

    /// Takes note of a commit on the way back through the history of a branch.
    /// A commit from before `cutoff` ends the way: the older ones cannot matter.
    pub fn visit(&mut self, branch: &str, oid: &str, time: i64, cutoff: i64) -> (go_on: bool)
        requires
            old(self).wf(),
        ensures
            final(self).wf(),
            go_on == (time >= cutoff),
            !go_on ==> *final(self) == *old(self),
            go_on ==> {
                &&& branches_of(final(self).entries@, oid@) == branches_of(
                    old(self).entries@,
                    oid@,
                ).push(branch@)
                &&& is_listed(final(self).entries@, oid@)
                &&& forall|o: Seq<char>|
                    o != oid@ ==> #[trigger] branches_of(final(self).entries@, o) == branches_of(
                        old(self).entries@,
                        o,
                    ) && is_listed(final(self).entries@, o) == is_listed(old(self).entries@, o)
            },
    {
        if time < cutoff {
            return false;
        }
        let ghost before = self.entries@;
        let n = self.entries.len();
        let mut i: usize = 0;
        while i < n && !text::same_text(self.entries[i].oid.as_str(), oid)
            invariant
                i <= n,
                n == self.entries@.len(),
                self.entries@ == before,
                forall|j: int| 0 <= j < i ==> (#[trigger] before[j]).oid@ != oid@,
            decreases n - i,
        {
            i += 1;
        }
        if i < n {
            let entry = self.entries.remove(i);
            let mut branches = entry.branches;
            branches.push(branch.to_owned());
            self.entries.insert(i, BranchEntry { oid: entry.oid, branches });
            proof {
                let now = self.entries@;
                assert(now.len() == before.len());
                assert forall|j: int| 0 <= j < now.len() implies (#[trigger] now[j]).oid@
                    == before[j].oid@ by {}
                assert(distinct_oids(now)) by {
                    assert forall|a: int, b: int| 0 <= a < b < now.len() implies (
                    #[trigger] now[a]).oid@ != (#[trigger] now[b]).oid@ by {
                        assert(before[a].oid@ != before[b].oid@);
                    }
                }
                lemma_branches_at(now, i as int);
                lemma_branches_at(before, i as int);
                assert(text::texts(branches@) =~= text::texts(entry.branches@).push(branch@));
                assert(now[i as int].oid@ == oid@);
                assert forall|o: Seq<char>| o != oid@ implies #[trigger] branches_of(now, o)
                    == branches_of(before, o) && is_listed(now, o) == is_listed(before, o) by {
                    if is_listed(before, o) {
                        let j = choose|j: int|
                            0 <= j < before.len() && (#[trigger] before[j]).oid@ == o;
                        assert(now[j].oid@ == o);
                        lemma_branches_at(now, j);
                        lemma_branches_at(before, j);
                    } else {
                        if is_listed(now, o) {
                            let j = choose|j: int|
                                0 <= j < now.len() && (#[trigger] now[j]).oid@ == o;
                            assert(before[j].oid@ == o);
                        }
                        lemma_branches_absent(now, o);
                        lemma_branches_absent(before, o);
                    }
                }
            }
        } else {
            let mut branches: Vec<String> = Vec::new();
            branches.push(branch.to_owned());
            self.entries.push(BranchEntry { oid: oid.to_owned(), branches });
            proof {
                let now = self.entries@;
                assert(!is_listed(before, oid@));
                lemma_branches_absent(before, oid@);
                assert(text::texts(branches@) =~= Seq::<Seq<char>>::empty().push(branch@));
                assert(now.drop_last() =~= before);
                assert(now[n as int].oid@ == oid@);
                assert forall|o: Seq<char>| o != oid@ implies #[trigger] branches_of(now, o)
                    == branches_of(before, o) && is_listed(now, o) == is_listed(before, o) by {
                    if is_listed(before, o) {
                        let j = choose|j: int|
                            0 <= j < before.len() && (#[trigger] before[j]).oid@ == o;
                        assert(now[j].oid@ == o);
                    }
                    if is_listed(now, o) {
                        let j = choose|j: int| 0 <= j < now.len() && (#[trigger] now[j]).oid@ == o;
                        assert(before[j].oid@ == o);
                    }
                }
            }
        }
        true
    }
}

/// What the repository knows of a commit.
pub struct CommitMeta {
    pub parents: usize,
    pub time: i64,
    pub email: Option<String>,
    pub message: Option<String>,
    /// A remote branch contains it.
    pub pushed: bool,
}

/// The subject and the body of a commit message.
pub open spec fn split_message(message: Seq<char>) -> (Seq<char>, Seq<char>) {
    let p = crate::number::position(message, '\n');
    if p < message.len() {
        (text::trim_end(message.take(p)), text::trim(message.skip(p + 1)))
    } else {
        (text::trim(message), Seq::empty())
    }
}

/// The subject and the body of a commit message: its first line, and the rest.
pub fn message_parts(message: &str) -> (r: (String, String))
    ensures
        (r.0@, r.1@) == split_message(message@),
{
    let chars = text::chars_of(message);
    let p = crate::number::position_of(&chars, '\n');
    if p < chars.len() {
        let subject = message.substring_char(0, p);
        let body = message.substring_char(p + 1, chars.len());
        assert(subject@ =~= message@.take(p as int));
        assert(body@ =~= message@.skip(p + 1));
        (text::trimmed_end(subject).to_owned(), text::trimmed(body).to_owned())
    } else {
        (text::trimmed(message).to_owned(), String::new())
    }
}

pub open spec fn text_or_empty(s: Option<String>) -> Seq<char> {
    match s {
        Some(t) => t@,
        None => Seq::empty(),
    }
}

/// The commit is no merge, lies in the window, and is by the user.
pub open spec fn is_wanted(meta: CommitMeta, window: Window, me: Seq<char>) -> bool {
    &&& meta.parents <= 1
    &&& window.start <= meta.time < window.end
    &&& meta.email matches Some(e) && e@ == me
}

/// What is recorded of a commit.
pub open spec fn record_of(entry: BranchEntry, meta: CommitMeta, repo: Seq<char>) -> RecordView {
    let parts = split_message(text_or_empty(meta.message));
    RecordView {
        oid: entry.oid@,
        author_time: meta.time,
        subject: parts.0,
        body: parts.1,
        branches: text::joined(text::texts(entry.branches@), " "@),
        repo,
    }
}

/// The wanted commits among those that could be read.
pub open spec fn wanted_records(
    entries: Seq<BranchEntry>,
    metas: Seq<Option<CommitMeta>>,
    window: Window,
    me: Seq<char>,
    repo: Seq<char>,
    unpushed_only: bool,
) -> Seq<RecordView>
    decreases entries.len(),
{
    if entries.len() == 0 {
        Seq::empty()
    } else {
        let before = wanted_records(
            entries.drop_last(),
            metas.drop_last(),
            window,
            me,
            repo,
            unpushed_only,
        );
        match metas.last() {
            Some(meta) if is_wanted(meta, window, me) && !(unpushed_only && meta.pushed)
                => before.push(record_of(entries.last(), meta, repo)),
            _ => before,
        }
    }
}

fn has_email(email: &Option<String>, me: &str) -> (r: bool)
    ensures
        r == (*email matches Some(e) && e@ == me@),
{
    match email {
        Some(e) => text::same_text(e.as_str(), me),
        None => false,
    }
}

fn select(
    index: &BranchIndex,
    metas: &Vec<Option<CommitMeta>>,
    window: Window,
    me: &str,
    repo: &str,
    unpushed_only: bool,
) -> (r: Vec<CommitRecord>)
    requires
        metas@.len() == index.entries@.len(),
    ensures
        record_views(r@) == wanted_records(
            index.entries@,
            metas@,
            window,
            me@,
            repo@,
            unpushed_only,
        ),
{
    let mut out: Vec<CommitRecord> = Vec::new();
    let ghost es = index.entries@;
    assert(record_views(out@) =~= Seq::empty());
    for i in 0..metas.len()
        invariant
            es == index.entries@,
            metas@.len() == es.len(),
            record_views(out@) == wanted_records(
                es.take(i as int),
                metas@.take(i as int),
                window,
                me@,
                repo@,
                unpushed_only,
            ),
    {
        let ghost before = record_views(out@);
        proof {
            assert(es.take(i + 1).drop_last() =~= es.take(i as int));
            assert(metas@.take(i + 1).drop_last() =~= metas@.take(i as int));
            assert(es.take(i + 1).last() == es[i as int]);
            assert(metas@.take(i + 1).last() == metas@[i as int]);
        }
        if let Some(meta) = &metas[i] {
            let wanted = meta.parents <= 1 && window.start <= meta.time && meta.time < window.end
                && has_email(&meta.email, me);
            if wanted && !(unpushed_only && meta.pushed) {
                let (subject, body) = match &meta.message {
                    Some(m) => message_parts(m.as_str()),
                    None => message_parts(""),
                };
                proof {
                    reveal_strlit("");
                    assert(""@ =~= Seq::<char>::empty());
                }
                out.push(
                    CommitRecord {
                        oid: index.entries[i].oid.clone(),
                        author_time: meta.time,
                        subject,
                        body,
                        branches: text::join_texts(&index.entries[i].branches, " "),
                        repo: repo.to_owned(),
                    },
                );
                assert(record_views(out@) =~= before.push(
                    record_of(es[i as int], *meta, repo@),
                ));
            }
        }
    }
    assert(es.take(es.len() as int) =~= es);
    assert(metas@.take(es.len() as int) =~= metas@);
    out
}

/// `r` are the wanted commits from the oldest to the newest.
pub open spec fn is_scan(
    entries: Seq<BranchEntry>,
    metas: Seq<Option<CommitMeta>>,
    window: Window,
    me: Seq<char>,
    repo: Seq<char>,
    unpushed_only: bool,
    r: Seq<CommitRecord>,
) -> bool {
    exists|found: Seq<CommitRecord>|
        record_views(found) == wanted_records(entries, metas, window, me, repo, unpushed_only)
            && #[trigger] sorted_by_age(found, r)
}

/// The commits of the user `me` in a window of time, without merges, from the
/// oldest to the newest. `metas` says of each commit of `index` what the
/// repository knows of it; one that cannot be read is passed over.
pub fn scan(
    index: &BranchIndex,
    metas: &Vec<Option<CommitMeta>>,
    window: Window,
    me: &str,
    repo: &str,
) -> (r: Vec<CommitRecord>)
    requires
        metas@.len() == index.entries@.len(),
    ensures
        is_scan(index.entries@, metas@, window, me@, repo@, false, r@),
{
    let found = select(index, metas, window, me, repo, false);
    sort_records(&found)
}

/// Like `scan`, but only the commits that no remote branch contains yet.
pub fn scan_in_flight(
    index: &BranchIndex,
    metas: &Vec<Option<CommitMeta>>,
    window: Window,
    me: &str,
    repo: &str,
) -> (r: Vec<CommitRecord>)
    requires
        metas@.len() == index.entries@.len(),
    ensures
        is_scan(index.entries@, metas@, window, me@, repo@, true, r@),
{
    let found = select(index, metas, window, me, repo, true);
    sort_records(&found)
}

/// How far back the histories are walked: a day before the window, as merges can
/// be out of order.
pub fn walk_cutoff(window: Window) -> (r: i64)
    requires
        window.start >= i64::MIN + 86400,
    ensures
        r == window.start - 86400,
{
    window.start - 86400
}

proof fn lemma_wanted(
    entries: Seq<BranchEntry>,
    metas: Seq<Option<CommitMeta>>,
    window: Window,
    me: Seq<char>,
    repo: Seq<char>,
    unpushed_only: bool,
    i: int,
)
    requires
        entries.len() == metas.len(),
        0 <= i < wanted_records(entries, metas, window, me, repo, unpushed_only).len(),
    ensures
        exists|j: int|
            0 <= j < metas.len() && (#[trigger] metas[j]) is Some && is_wanted(
                metas[j]->0,
                window,
                me,
            ) && !(unpushed_only && (metas[j]->0).pushed) && wanted_records(
                entries,
                metas,
                window,
                me,
                repo,
                unpushed_only,
            )[i] == record_of(entries[j], metas[j]->0, repo),
    decreases entries.len(),
{
    let n = entries.len() - 1;
    let before = wanted_records(
        entries.drop_last(),
        metas.drop_last(),
        window,
        me,
        repo,
        unpushed_only,
    );
    if i < before.len() {
        lemma_wanted(entries.drop_last(), metas.drop_last(), window, me, repo, unpushed_only, i);
        let j = choose|j: int|
            0 <= j < n && (#[trigger] metas.drop_last()[j]) is Some && is_wanted(
                metas.drop_last()[j]->0,
                window,
                me,
            ) && !(unpushed_only && (metas.drop_last()[j]->0).pushed) && before[i] == record_of(
                entries.drop_last()[j],
                metas.drop_last()[j]->0,
                repo,
            );
        assert(metas[j] == metas.drop_last()[j]);
        assert(entries[j] == entries.drop_last()[j]);
    } else {
        assert(metas[n] == metas.last());
    }
}

/// Every commit of a scan lies in the window, is by the user and no merge, and
/// stands with all branches that contain it.
pub proof fn law_scan_keeps_to_its_rules(
    entries: Seq<BranchEntry>,
    metas: Seq<Option<CommitMeta>>,
    window: Window,
    me: Seq<char>,
    repo: Seq<char>,
    unpushed_only: bool,
    r: Seq<CommitRecord>,
    i: int,
)
    requires
        entries.len() == metas.len(),
        is_scan(entries, metas, window, me, repo, unpushed_only, r),
        0 <= i < r.len(),
    ensures
        window.start <= r[i].author_time < window.end,
        exists|j: int|
            0 <= j < metas.len() && (#[trigger] metas[j]) is Some && is_wanted(
                metas[j]->0,
                window,
                me,
            ) && !(unpushed_only && (metas[j]->0).pushed) && r[i]@ == record_of(
                entries[j],
                metas[j]->0,
                repo,
            ),
{
    let found = choose|found: Seq<CommitRecord>|
        record_views(found) == wanted_records(entries, metas, window, me, repo, unpushed_only)
            && #[trigger] sorted_by_age(found, r);
    let at = choose|at: Seq<usize>| is_age_order(found, r, at);
    let k = at[i] as int;
    assert(r[i] == found[k]);
    assert(record_views(found)[k] == found[k]@);
    lemma_wanted(entries, metas, window, me, repo, unpushed_only, k);
}

/// A scan lists its commits from the oldest to the newest.
pub proof fn law_scan_is_in_order(v: Seq<CommitRecord>, r: Seq<CommitRecord>, i: int, j: int)
    requires
        sorted_by_age(v, r),
        0 <= i < j < r.len(),
    ensures
        r[i].author_time <= r[j].author_time,
{
    let at = choose|at: Seq<usize>| is_age_order(v, r, at);
    assert(order::ranks_before(record_times(v), at[i] as int, at[j] as int));
    assert(r[i] == v[at[i] as int]);
    assert(r[j] == v[at[j] as int]);
}

proof fn lemma_found(
    entries: Seq<BranchEntry>,
    metas: Seq<Option<CommitMeta>>,
    window: Window,
    me: Seq<char>,
    repo: Seq<char>,
    unpushed_only: bool,
    j: int,
)
    requires
        entries.len() == metas.len(),
        0 <= j < metas.len(),
        metas[j] is Some,
        is_wanted(metas[j]->0, window, me),
        !(unpushed_only && (metas[j]->0).pushed),
    ensures
        wanted_records(entries, metas, window, me, repo, unpushed_only).contains(
            record_of(entries[j], metas[j]->0, repo),
        ),
    decreases entries.len(),
{
    let rest = wanted_records(
        entries.drop_last(),
        metas.drop_last(),
        window,
        me,
        repo,
        unpushed_only,
    );
    let r = record_of(entries[j], metas[j]->0, repo);
    if j < entries.len() - 1 {
        assert(metas.drop_last()[j] == metas[j]);
        assert(entries.drop_last()[j] == entries[j]);
        lemma_found(
            entries.drop_last(),
            metas.drop_last(),
            window,
            me,
            repo,
            unpushed_only,
            j,
        );
        let k = choose|k: int| 0 <= k < rest.len() && rest[k] == r;
        assert(wanted_records(entries, metas, window, me, repo, unpushed_only)[k] == r);
    } else {
        assert(wanted_records(entries, metas, window, me, repo, unpushed_only)[rest.len() as int]
            == r);
    }
}

/// A scan misses no commit that is by the user, no merge, and in the window.
pub proof fn law_scan_misses_nothing(
    entries: Seq<BranchEntry>,
    metas: Seq<Option<CommitMeta>>,
    window: Window,
    me: Seq<char>,
    repo: Seq<char>,
    unpushed_only: bool,
    r: Seq<CommitRecord>,
    j: int,
)
    requires
        entries.len() == metas.len(),
        entries.len() <= usize::MAX,
        is_scan(entries, metas, window, me, repo, unpushed_only, r),
        0 <= j < metas.len(),
        metas[j] is Some,
        is_wanted(metas[j]->0, window, me),
        !(unpushed_only && (metas[j]->0).pushed),
    ensures
        record_views(r).contains(record_of(entries[j], metas[j]->0, repo)),
{
    let wanted = wanted_records(entries, metas, window, me, repo, unpushed_only);
    let found = choose|found: Seq<CommitRecord>|
        record_views(found) == wanted && #[trigger] sorted_by_age(found, r);
    let at = choose|at: Seq<usize>| is_age_order(found, r, at);
    let view = record_of(entries[j], metas[j]->0, repo);
    lemma_found(entries, metas, window, me, repo, unpushed_only, j);
    lemma_wanted_len(entries, metas, window, me, repo, unpushed_only);
    let k = choose|k: int| 0 <= k < wanted.len() && wanted[k] == view;
    assert(record_views(found)[k] == found[k]@);
    assert(at.contains(k as usize));
    let i = choose|i: int| 0 <= i < at.len() && at[i] == k as usize;
    assert(r[i] == found[k]);
    assert(record_views(r)[i] == view);
}

proof fn lemma_wanted_len(
    entries: Seq<BranchEntry>,
    metas: Seq<Option<CommitMeta>>,
    window: Window,
    me: Seq<char>,
    repo: Seq<char>,
    unpushed_only: bool,
)
    ensures
        wanted_records(entries, metas, window, me, repo, unpushed_only).len() <= entries.len(),
    decreases entries.len(),
{
    if entries.len() > 0 {
        lemma_wanted_len(
            entries.drop_last(),
            metas.drop_last(),
            window,
            me,
            repo,
            unpushed_only,
        );
    }
}

/// What a scan returns is settled by what the repository knows: two scans of the
/// same history say the same.
pub proof fn law_scan_has_one_result(
    entries: Seq<BranchEntry>,
    metas: Seq<Option<CommitMeta>>,
    window: Window,
    me: Seq<char>,
    repo: Seq<char>,
    unpushed_only: bool,
    r: Seq<CommitRecord>,
    s: Seq<CommitRecord>,
)
    requires
        entries.len() <= usize::MAX,
        is_scan(entries, metas, window, me, repo, unpushed_only, r),
        is_scan(entries, metas, window, me, repo, unpushed_only, s),
    ensures
        record_views(r) == record_views(s),
{
    let wanted = wanted_records(entries, metas, window, me, repo, unpushed_only);
    let f = choose|found: Seq<CommitRecord>|
        record_views(found) == wanted && #[trigger] sorted_by_age(found, r);
    let g = choose|found: Seq<CommitRecord>|
        record_views(found) == wanted && #[trigger] sorted_by_age(found, s);
    let a = choose|at: Seq<usize>| is_age_order(f, r, at);
    let b = choose|at: Seq<usize>| is_age_order(g, s, at);
    lemma_wanted_len(entries, metas, window, me, repo, unpushed_only);
    assert(f.len() == wanted.len() && g.len() == wanted.len()) by {
        assert(record_views(f).len() == f.len());
        assert(record_views(g).len() == g.len());
    }
    assert forall|i: int| 0 <= i < wanted.len() implies (#[trigger] f[i])@ == g[i]@ by {
        assert(record_views(f)[i] == f[i]@);
        assert(record_views(g)[i] == g[i]@);
    }
    assert(record_times(f) =~= record_times(g)) by {
        assert forall|i: int| 0 <= i < wanted.len() implies f[i].author_time
            == g[i].author_time by {
            assert(f[i]@.author_time == g[i]@.author_time);
        }
    }
    order::lemma_stable_order_unique(record_times(f), a, b);
    assert forall|i: int| 0 <= i < wanted.len() implies (#[trigger] r[i])@ == s[i]@ by {
        assert(r[i] == f[a[i] as int]);
        assert(s[i] == g[b[i] as int]);
    }
    assert(record_views(r) =~= record_views(s));
}

/// Two commits that a scan selects come from two entries, in the same order.
proof fn lemma_wanted_in_order(
    entries: Seq<BranchEntry>,
    metas: Seq<Option<CommitMeta>>,
    window: Window,
    me: Seq<char>,
    repo: Seq<char>,
    unpushed_only: bool,
    i: int,
    k: int,
) -> (at: (int, int))
    requires
        entries.len() == metas.len(),
        0 <= i < k < wanted_records(entries, metas, window, me, repo, unpushed_only).len(),
    ensures
        0 <= at.0 < at.1 < entries.len(),
        wanted_records(entries, metas, window, me, repo, unpushed_only)[i].oid
            == entries[at.0].oid@,
        wanted_records(entries, metas, window, me, repo, unpushed_only)[k].oid
            == entries[at.1].oid@,
    decreases entries.len(),
{
    let n = entries.len() - 1;
    let es = entries.drop_last();
    let ms = metas.drop_last();
    let before = wanted_records(es, ms, window, me, repo, unpushed_only);
    if k < before.len() {
        let at = lemma_wanted_in_order(es, ms, window, me, repo, unpushed_only, i, k);
        assert(es[at.0] == entries[at.0] && es[at.1] == entries[at.1]);
        at
    } else {
        lemma_wanted(es, ms, window, me, repo, unpushed_only, i);
        let j = choose|j: int|
            0 <= j < ms.len() && (#[trigger] ms[j]) is Some && is_wanted(ms[j]->0, window, me) && !(
            unpushed_only && (ms[j]->0).pushed) && before[i] == record_of(es[j], ms[j]->0, repo);
        assert(es[j] == entries[j]);
        assert(entries[n] == entries.last());
        (j, n)
    }
}

/// Every commit of a scan is one that the repository knows: it has at most one parent, lies
/// in the window, is by the user, and is not pushed where only those are asked for. Its record
/// says what the repository knows, with all its branches.
pub proof fn law_records_say_what_the_repository_knows(
    entries: Seq<BranchEntry>,
    metas: Seq<Option<CommitMeta>>,
    window: Window,
    me: Seq<char>,
    repo: Seq<char>,
    unpushed_only: bool,
    r: Seq<CommitRecord>,
    i: int,
) -> (j: int)
    requires
        entries.len() == metas.len(),
        is_scan(entries, metas, window, me, repo, unpushed_only, r),
        0 <= i < r.len(),
    ensures
        0 <= j < entries.len(),
        metas[j] is Some,
        (metas[j]->0).parents <= 1,
        window.start <= (metas[j]->0).time < window.end,
        (metas[j]->0).email is Some && ((metas[j]->0).email->0)@ == me,
        unpushed_only ==> !(metas[j]->0).pushed,
        r[i].oid@ == entries[j].oid@,
        r[i].author_time == (metas[j]->0).time,
        r[i].repo@ == repo,
        r[i].branches@ == text::joined(text::texts(entries[j].branches@), " "@),
        (metas[j]->0).message is None ==> r[i].subject@.len() == 0 && r[i].body@.len() == 0,
        (metas[j]->0).message matches Some(m) ==> (r[i].subject@, r[i].body@) == split_message(m@),
{
    law_scan_keeps_to_its_rules(entries, metas, window, me, repo, unpushed_only, r, i);
    let j = choose|j: int|
        0 <= j < metas.len() && (#[trigger] metas[j]) is Some && is_wanted(metas[j]->0, window, me)
            && !(unpushed_only && (metas[j]->0).pushed) && r[i]@ == record_of(
            entries[j],
            metas[j]->0,
            repo,
        );
    assert(r[i]@.oid == r[i].oid@);
    let none = Seq::<char>::empty();
    crate::number::lemma_position(none, '\n', 0);
    text::law_trimming_takes_the_ends_off(none, none, none);
    assert(none + none + none =~= none);
    j
}

/// A scan has every commit that is no merge, lies in the window, is by the user, and is not
/// pushed where only those are asked for, and has it once.
pub proof fn law_scan_has_each_commit_once(
    entries: Seq<BranchEntry>,
    metas: Seq<Option<CommitMeta>>,
    window: Window,
    me: Seq<char>,
    repo: Seq<char>,
    unpushed_only: bool,
    r: Seq<CommitRecord>,
    j: int,
) -> (i: int)
    requires
        entries.len() == metas.len(),
        entries.len() <= usize::MAX,
        distinct_oids(entries),
        is_scan(entries, metas, window, me, repo, unpushed_only, r),
        0 <= j < entries.len(),
        metas[j] is Some,
        (metas[j]->0).parents <= 1,
        window.start <= (metas[j]->0).time < window.end,
        (metas[j]->0).email is Some && ((metas[j]->0).email->0)@ == me,
        unpushed_only ==> !(metas[j]->0).pushed,
    ensures
        0 <= i < r.len(),
        r[i].oid@ == entries[j].oid@,
        forall|k: int|
            0 <= k < r.len() && (#[trigger] r[k]).oid@ == entries[j].oid@ ==> k == i,
{
    let wanted = wanted_records(entries, metas, window, me, repo, unpushed_only);
    let found = choose|found: Seq<CommitRecord>|
        record_views(found) == wanted && #[trigger] sorted_by_age(found, r);
    let at = choose|at: Seq<usize>| is_age_order(found, r, at);
    law_scan_misses_nothing(entries, metas, window, me, repo, unpushed_only, r, j);
    let views = record_views(r);
    let v = record_of(entries[j], metas[j]->0, repo);
    let i = choose|i: int| 0 <= i < views.len() && views[i] == v;
    assert(views[i] == r[i]@);
    assert(r[i]@.oid == r[i].oid@);
    assert forall|k: int|
        0 <= k < r.len() && (#[trigger] r[k]).oid@ == entries[j].oid@ implies k == i by {
        if k != i {
            let a = at[i] as int;
            let b = at[k] as int;
            assert(r[i] == found[a] && r[k] == found[b]);
            assert(record_views(found)[a] == found[a]@ && record_views(found)[b] == found[b]@);
            assert(wanted[a].oid == found[a].oid@ && wanted[b].oid == found[b].oid@);
            if i < k {
                order::law_stable_order_sorts(record_times(found), at, i, k);
            } else {
                order::law_stable_order_sorts(record_times(found), at, k, i);
            }
            let p = if a < b {
                lemma_wanted_in_order(entries, metas, window, me, repo, unpushed_only, a, b)
            } else {
                lemma_wanted_in_order(entries, metas, window, me, repo, unpushed_only, b, a)
            };
            assert(entries[p.0].oid@ != entries[p.1].oid@);
        }
    }
    i
}

/// A scan goes from the oldest commit to the newest.
pub proof fn law_scans_go_forward(
    entries: Seq<BranchEntry>,
    metas: Seq<Option<CommitMeta>>,
    window: Window,
    me: Seq<char>,
    repo: Seq<char>,
    unpushed_only: bool,
    r: Seq<CommitRecord>,
    i: int,
    k: int,
)
    requires
        is_scan(entries, metas, window, me, repo, unpushed_only, r),
        0 <= i < k < r.len(),
    ensures
        r[i].author_time <= r[k].author_time,
{
    let found = choose|found: Seq<CommitRecord>|
        record_views(found) == wanted_records(entries, metas, window, me, repo, unpushed_only)
            && #[trigger] sorted_by_age(found, r);
    law_scan_is_in_order(found, r, i, k);
}

/// The subject of a commit message is its first line, and the body all that follows, both
/// without the white space around them.
pub proof fn law_subject_is_the_first_line(line: Seq<char>, rest: Seq<char>)
    requires
        !line.contains('\n'),
    ensures
        split_message(line + seq!['\n'] + rest).0 == text::trim_end(line),
        split_message(line + seq!['\n'] + rest).1 == text::trim(rest),
        split_message(line).0 == text::trim(line),
        split_message(line).1.len() == 0,
{
    let n = line.len() as int;
    let all = line + seq!['\n'] + rest;
    assert(all.take(n) =~= line);
    assert(all.skip(n + 1) =~= rest);
    crate::number::lemma_position(all, '\n', n);
    assert(line.take(n) =~= line);
    crate::number::lemma_position(line, '\n', n);
}

/// The branches of a commit are those that its entry lists; a commit without an entry is on
/// none.
pub proof fn law_branches_are_those_of_the_entry(entries: Seq<BranchEntry>, i: int, oid: Seq<char>)
    requires
        distinct_oids(entries),
    ensures
        0 <= i < entries.len() ==> branches_of(entries, entries[i].oid@) == text::texts(
            entries[i].branches@,
        ),
        (forall|k: int| 0 <= k < entries.len() ==> (#[trigger] entries[k]).oid@ != oid)
            ==> branches_of(entries, oid).len() == 0 && !is_listed(entries, oid),
{
    if 0 <= i < entries.len() {
        lemma_branches_at(entries, i);
    }
    if forall|k: int| 0 <= k < entries.len() ==> (#[trigger] entries[k]).oid@ != oid {
        lemma_branches_absent(entries, oid);
    }
}

/// Sorting by age loses no commit and adds none.
pub proof fn law_sorting_keeps_the_commits(v: Seq<CommitRecord>, r: Seq<CommitRecord>, c: CommitRecord)
    requires
        sorted_by_age(v, r),
        v.len() <= usize::MAX,
    ensures
        r.len() == v.len(),
        r.contains(c) <==> v.contains(c),
        forall|i: int, k: int|
            0 <= i < k < r.len() ==> (#[trigger] r[i]).author_time <= (#[trigger] r[k]).author_time,
{
    let at = choose|at: Seq<usize>| is_age_order(v, r, at);
    if r.contains(c) {
        let i = choose|i: int| 0 <= i < r.len() && r[i] == c;
        assert(r[i] == v[at[i] as int]);
    }
    if v.contains(c) {
        let k = choose|k: int| 0 <= k < v.len() && v[k] == c;
        assert(record_times(v).len() == v.len());
        assert(at.contains(k as usize));
        let i = choose|i: int| 0 <= i < at.len() && at[i] == k as usize;
        assert(r[i] == v[at[i] as int]);
    }
    assert forall|i: int, k: int| 0 <= i < k < r.len() implies (#[trigger] r[i]).author_time <= (
    #[trigger] r[k]).author_time by {
        law_scan_is_in_order(v, r, i, k);
    }
}

} // verus!
