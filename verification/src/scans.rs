//! Scanning the repositories, with what was scanned before.

use vstd::prelude::*;

use crate::cache;
use crate::cache::Overrides;
use crate::pr;
use crate::pr::{PrIndex, PrInfo};
use crate::scanner;
use crate::scanner::CommitRecord;
use crate::state;
use crate::state::{Action, App, Focus};
use crate::text;

verus! {

/// What the scans of the selected days are found by.
pub open spec fn scan_key(a: App) -> cache::KeyView {
    cache::key_of(a.range().0, a.range().1, text::texts(a.config.repos@))
}

/// A scan from the cache is on show.
pub open spec fn shows_cached(a: App, records: Seq<CommitRecord>, b: App, act: Action) -> bool {
    &&& b == App {
        scan_records: b.scan_records,
        scan_cache: b.scan_cache,
        results_are_cached: true,
        results_selected: 0,
        results_edit: None,
        fill_edit: None,
        results_scroll: 0,
        focus: Focus::Right,
        ..a
    }
    &&& b.scan_records@ == records
    &&& act == Action::SyncPushed { start: a.range().0, end: a.range().1 }
}

/// No entry of the cache changed but that under `key`.
pub open spec fn cache_set(
    a: App,
    key: cache::KeyView,
    records: Option<Seq<CommitRecord>>,
    b: App,
) -> bool {
    forall|k: cache::KeyView| #[trigger]
        b.scan_cache.get(k) == (if k == key {
            records
        } else {
            a.scan_cache.get(k)
        })
}

/// What asking for a scan does.
pub open spec fn scan_step(a: App, force: bool, b: App, act: Action) -> bool {
    if a.config.repos@.len() == 0 {
        &&& b == App { error: b.error, ..a }
        &&& state::says(b.error, "No repos configured. Focus the left pane and press 'a'."@)
        &&& act == Action::Idle
    } else if force {
        &&& b == App {
            scan_cache: b.scan_cache,
            hours_overrides: b.hours_overrides,
            scanning: true,
            focus: Focus::Right,
            ..a
        }
        &&& cache_set(a, scan_key(a), None, b)
        &&& b.hours_overrides.entries@.len() == 0
        &&& act == Action::ForgetScan { start: a.range().0, end: a.range().1 }
    } else {
        match a.scan_cache.get(scan_key(a)) {
            Some(records) => shows_cached(a, records, b, act) && b.scan_cache == a.scan_cache,
            None => b == a && act == Action::LoadScan { start: a.range().0, end: a.range().1 },
        }
    }
}

/// What a scan found in one repository.
pub struct RepoScan {
    pub path: String,
    pub found: Result<Vec<CommitRecord>, String>,
}

/// The first scan that failed.
pub open spec fn first_failure(scans: Seq<RepoScan>) -> Option<(Seq<char>, Seq<char>)>
    decreases scans.len(),
{
    if scans.len() == 0 {
        None
    } else {
        match scans[0].found {
            Err(e) => Some((scans[0].path@, e@)),
            Ok(_) => first_failure(scans.drop_first()),
        }
    }
}

/// The commits of all scans.
pub open spec fn all_scanned(scans: Seq<RepoScan>) -> Seq<CommitRecord>
    decreases scans.len(),
{
    if scans.len() == 0 {
        Seq::empty()
    } else {
        match scans.last().found {
            Ok(records) => all_scanned(scans.drop_last()) + records@,
            Err(_) => all_scanned(scans.drop_last()),
        }
    }
}

/// `now` are the commits of `before`, each with its pull requests.
pub open spec fn all_enriched(
    before: Seq<CommitRecord>,
    now: Seq<CommitRecord>,
    prs: Seq<PrInfo>,
) -> bool {
    &&& now.len() == before.len()
    &&& forall|i: int| 0 <= i < now.len() ==> pr::is_enriched(before[i], #[trigger] now[i], prs)
}

/// `now` are the commits of the scans, from the oldest to the newest, each with
/// its pull requests.
pub open spec fn is_scan_result(
    scans: Seq<RepoScan>,
    prs: Seq<PrInfo>,
    now: Seq<CommitRecord>,
) -> bool {
    exists|sorted: Seq<CommitRecord>| #[trigger]
        scanner::sorted_by_age(all_scanned(scans), sorted) && all_enriched(sorted, now, prs)
}

/// What the end of a scan does.
pub open spec fn finish_step(
    a: App,
    scans: Seq<RepoScan>,
    prs: Seq<PrInfo>,
    b: App,
    act: Action,
) -> bool {
    match first_failure(scans) {
        Some((path, e)) => {
            &&& b == App { error: b.error, scanning: false, ..a }
            &&& state::says(b.error, "scan "@ + path + ": "@ + e)
            &&& act == Action::Idle
        },
        None => {
            &&& b == App {
                scan_records: b.scan_records,
                scan_cache: b.scan_cache,
                pr_index: b.pr_index,
                results_are_cached: false,
                results_selected: 0,
                results_edit: None,
                fill_edit: None,
                results_scroll: 0,
                scanning: false,
                ..a
            }
            &&& is_scan_result(scans, prs, b.scan_records@)
            &&& cache_set(a, scan_key(a), Some(b.scan_records@), b)
            &&& b.pr_index.prs@ == prs
            &&& act == Action::SaveScan { start: a.range().0, end: a.range().1 }
        },
    }
}

/// The first scan that failed, with its repository.
fn find_failure(scans: &Vec<RepoScan>) -> (r: Option<String>)
    ensures
        match first_failure(scans@) {
            Some((path, e)) => state::says(r, "scan "@ + path + ": "@ + e),
            None => r is None,
        },
        r is None ==> forall|i: int| 0 <= i < scans@.len() ==> (#[trigger] scans@[i]).found is Ok,
{
    assert(scans@.skip(0) =~= scans@);
    for i in 0..scans.len()
        invariant
            first_failure(scans@) == first_failure(scans@.skip(i as int)),
            forall|j: int| 0 <= j < i ==> (#[trigger] scans@[j]).found is Ok,
    {
        assert(scans@.skip(i as int)[0] == scans@[i as int]);
        assert(scans@.skip(i as int).drop_first() =~= scans@.skip(i + 1));
        if let Err(e) = &scans[i].found {
            let mut message = "scan ".to_owned();
            message.append(scans[i].path.as_str());
            message.append(": ");
            message.append(e.as_str());
            return Some(message);
        }
    }
    None
}

fn gather(scans: Vec<RepoScan>) -> (r: Vec<CommitRecord>)
    ensures
        r@ == all_scanned(scans@),
{
    let mut rest = scans;
    let ghost all = scans@;
    let n = rest.len();
    let mut out: Vec<CommitRecord> = Vec::new();
    assert(all.skip(0) =~= all);
    for i in 0..n
        invariant
            n == all.len(),
            rest@ == all.skip(i as int),
            out@ == all_scanned(all.take(i as int)),
    {
        let scan = rest.remove(0);
        proof {
            assert(scan == all[i as int]);
            assert(all.take(i + 1).drop_last() =~= all.take(i as int));
            assert(all.take(i + 1).last() == scan);
        }
        if let Ok(found) = scan.found {
            let mut found = found;
            out.append(&mut found);
        }
        assert(rest@ =~= all.skip(i + 1));
    }
    assert(all.take(n as int) =~= all);
    out
}

impl App {
    fn show_cached(&mut self, records: Vec<CommitRecord>) -> (act: Action)
        requires
            old(self).wf(),
        ensures
            final(self).wf(),
            shows_cached(*old(self), records@, *final(self), act),
            final(self).scan_cache == old(self).scan_cache,
    {
        let (start, end) = self.current_range();
        self.scan_records = records;
        self.results_are_cached = true;
        self.results_selected = 0;
        self.results_edit = None;
        self.fill_edit = None;
        self.results_scroll = 0;
        self.focus = Focus::Right;
        Action::SyncPushed { start, end }
    }

    /// Asks for a scan of the selected days. What was scanned in this run before is
    /// shown at once, unless a new scan is forced; otherwise the store is asked
    /// first.
    pub fn do_scan(&mut self, force: bool) -> (act: Action)
        requires
            old(self).wf(),
        ensures
            final(self).wf(),
            scan_step(*old(self), force, *final(self), act),
    {
        if self.config.repos.len() == 0 {
            self.error = Some("No repos configured. Focus the left pane and press 'a'.".to_owned());
            return Action::Idle;
        }
        let (start, end) = self.current_range();
        let key = cache::cache_key(start, end, &self.config.repos);
        if force {
            self.scan_cache.remove(&key);
            self.hours_overrides = Overrides { entries: Vec::new() };
            self.scanning = true;
            self.focus = Focus::Right;
            return Action::ForgetScan { start, end };
        }
        match self.scan_cache.find(&key) {
            Some(records) => self.show_cached(records),
            None => Action::LoadScan { start, end },
        }
    }

    /// The store has the scan that was asked for, or not. Where it has, the scan is
    /// kept for the next time; where it has not, the repositories are scanned.
    pub fn scan_loaded(&mut self, stored: Option<Vec<CommitRecord>>) -> (act: Action)
        requires
            old(self).wf(),
        ensures
            final(self).wf(),
            match stored {
                Some(records) => {
                    &&& shows_cached(*old(self), records@, *final(self), act)
                    &&& cache_set(
                        *old(self),
                        scan_key(*old(self)),
                        Some(records@),
                        *final(self),
                    )
                },
                None => {
                    &&& *final(self) == (App { scanning: true, focus: Focus::Right, ..*old(self) })
                    &&& act == Action::Idle
                },
            },
    {
        match stored {
            Some(records) => {
                let (start, end) = self.current_range();
                let key = cache::cache_key(start, end, &self.config.repos);
                self.scan_cache.insert(key, scanner::clone_records(&records));
                self.show_cached(records)
            },
            None => {
                self.scanning = true;
                self.focus = Focus::Right;
                Action::Idle
            },
        }
    }

    /// The repositories were scanned, and the pull requests fetched. One scan that
    /// failed is an error; otherwise the commits are shown and kept.
    pub fn run_scan(&mut self, scans: Vec<RepoScan>, prs: Vec<Vec<PrInfo>>) -> (act: Action)
        requires
            old(self).wf(),
        ensures
            final(self).wf(),
            finish_step(*old(self), scans@, pr::all_prs(prs@), *final(self), act),
    {
        if let Some(message) = find_failure(&scans) {
            self.error = Some(message);
            self.scanning = false;
            return Action::Idle;
        }
        let all = gather(scans);
        let mut records = scanner::sort_records(&all);
        let ghost sorted = records@;
        let index = pr::build_pr_index(prs);
        pr::enrich_records_with_prs(&mut records, &index);
        proof {
            assert(scanner::sorted_by_age(all_scanned(scans@), sorted));
            assert(all_enriched(sorted, records@, index.prs@));
        }
        let (start, end) = self.current_range();
        let key = cache::cache_key(start, end, &self.config.repos);
        self.scan_cache.insert(key, scanner::clone_records(&records));
        self.scan_records = records;
        self.pr_index = index;
        self.results_are_cached = false;
        self.results_selected = 0;
        self.results_edit = None;
        self.fill_edit = None;
        self.results_scroll = 0;
        self.scanning = false;
        Action::SaveScan { start, end }
    }

    /// The store says which tickets were pushed for the selected days, or cannot
    /// say.
    pub fn sync_pushed_from_store(&mut self, tickets: Option<Vec<String>>)
        requires
            old(self).wf(),
        ensures
            final(self).wf(),
            *final(self) == (App {
                pushed_this_session: match tickets {
                    Some(t) => t,
                    None => old(self).pushed_this_session,
                },
                ..*old(self)
            }),
    {
        if let Some(t) = tickets {
            self.pushed_this_session = t;
        }
    }

    /// The pull requests were fetched anew: the commits on show get theirs.
    pub fn refresh_github_prs(&mut self, prs: Vec<Vec<PrInfo>>)
        requires
            old(self).wf(),
        ensures
            final(self).wf(),
            *final(self) == (App {
                scan_records: final(self).scan_records,
                pr_index: final(self).pr_index,
                ..*old(self)
            }),
            final(self).pr_index.prs@ == pr::all_prs(prs@),
            all_enriched(
                old(self).scan_records@,
                final(self).scan_records@,
                pr::all_prs(prs@),
            ),
    {
        let index = pr::build_pr_index(prs);
        pr::enrich_records_with_prs(&mut self.scan_records, &index);
        self.pr_index = index;
    }
}

/// What was scanned is shown the next time the same days and repositories are
/// asked for, without another scan.
pub proof fn law_scans_are_kept(
    a: App,
    scans: Seq<RepoScan>,
    prs: Seq<PrInfo>,
    b: App,
    act: Action,
    c: App,
    next: Action,
)
    requires
        a.config.repos@.len() > 0,
        first_failure(scans) is None,
        finish_step(a, scans, prs, b, act),
        scan_step(b, false, c, next),
    ensures
        c.scan_records@ == b.scan_records@,
        c.results_are_cached,
        !c.scanning,
{
    assert(b.scan_cache.get(scan_key(a)) == Some(b.scan_records@));
    assert(scan_key(b) == scan_key(a));
}

/// A forced scan makes sure that the repositories are scanned again: nothing is
/// left of what was kept.
pub proof fn law_forced_scan_forgets(a: App, b: App, act: Action, c: App, next: Action)
    requires
        a.config.repos@.len() > 0,
        scan_step(a, true, b, act),
        scan_step(b, false, c, next),
    ensures
        b.scanning,
        next is LoadScan,
{
    assert(b.scan_cache.get(scan_key(a)) is None);
    assert(scan_key(b) == scan_key(a));
}

/// The failure that is told is the first one; where no scan failed, none is.
pub proof fn law_the_first_failure_is_told(scans: Seq<RepoScan>, i: int)
    ensures
        0 <= i < scans.len() && scans[i].found is Err && (forall|k: int|
            0 <= k < i ==> (#[trigger] scans[k]).found is Ok) ==> first_failure(scans) == Some(
            (scans[i].path@, (scans[i].found->Err_0)@),
        ),
        (forall|k: int| 0 <= k < scans.len() ==> (#[trigger] scans[k]).found is Ok)
            ==> first_failure(scans) is None,
    decreases scans.len(),
{
    if scans.len() > 0 && scans[0].found is Ok {
        let rest = scans.drop_first();
        law_the_first_failure_is_told(rest, i - 1);
        if forall|k: int| 0 <= k < scans.len() ==> (#[trigger] scans[k]).found is Ok {
            assert forall|k: int| 0 <= k < rest.len() implies (#[trigger] rest[k]).found is Ok by {
                assert(rest[k] == scans[k + 1]);
            }
        }
        if 0 < i < scans.len() && scans[i].found is Err && (forall|k: int|
            0 <= k < i ==> (#[trigger] scans[k]).found is Ok) {
            assert(rest[i - 1] == scans[i]);
            assert forall|k: int| 0 <= k < i - 1 implies (#[trigger] rest[k]).found is Ok by {
                assert(rest[k] == scans[k + 1]);
            }
        }
    } else if scans.len() > 0 {
        assert(!(scans[0].found is Ok));
    }
}

/// The commits of scans are put together scan by scan.
pub proof fn law_scans_are_put_together(a: Seq<RepoScan>, b: Seq<RepoScan>, one: RepoScan)
    ensures
        all_scanned(a + b) == all_scanned(a) + all_scanned(b),
        one.found matches Ok(records) ==> all_scanned(seq![one]) == records@,
        one.found is Err ==> all_scanned(seq![one]) == Seq::<CommitRecord>::empty(),
    decreases b.len(),
{
    let single = seq![one];
    assert(single.drop_last() =~= Seq::empty());
    reveal_with_fuel(all_scanned, 2);
    if let Ok(records) = one.found {
        assert(all_scanned(single) =~= records@);
    }
    if b.len() == 0 {
        assert(a + b =~= a);
        assert(all_scanned(a + b) =~= all_scanned(a) + all_scanned(b));
    } else {
        law_scans_are_put_together(a, b.drop_last(), one);
        assert((a + b).drop_last() =~= a + b.drop_last());
        assert((a + b).last() == b.last());
        assert(all_scanned(a + b) =~= all_scanned(a) + all_scanned(b));
    }
}

proof fn lemma_scanned(scans: Seq<RepoScan>, i: int, j: int)
    requires
        0 <= i < scans.len(),
        scans[i].found is Ok,
        0 <= j < (scans[i].found->Ok_0)@.len(),
    ensures
        all_scanned(scans).contains((scans[i].found->Ok_0)@[j]),
    decreases scans.len(),
{
    let rest = scans.drop_last();
    let c = (scans[i].found->Ok_0)@[j];
    if i < rest.len() {
        assert(rest[i] == scans[i]);
        lemma_scanned(rest, i, j);
        if let Ok(records) = scans.last().found {
            crate::order::lemma_add_contains(all_scanned(rest), records@, c);
        }
    } else {
        assert(scans.last() == scans[i]);
        crate::order::lemma_add_contains(all_scanned(rest), (scans[i].found->Ok_0)@, c);
    }
}

/// What is shown after a scan has every commit that was found, as it was found but for the
/// texts of its pull requests, and goes from the oldest to the newest.
pub proof fn law_results_have_every_commit(
    a: App,
    scans: Seq<RepoScan>,
    prs: Seq<PrInfo>,
    b: App,
    act: Action,
    i: int,
    j: int,
) -> (k: int)
    requires
        finish_step(a, scans, prs, b, act),
        first_failure(scans) is None,
        all_scanned(scans).len() <= usize::MAX,
        0 <= i < scans.len(),
        scans[i].found is Ok,
        0 <= j < (scans[i].found->Ok_0)@.len(),
    ensures
        0 <= k < b.scan_records@.len(),
        pr::is_enriched((scans[i].found->Ok_0)@[j], b.scan_records@[k], prs),
        b.scan_records@.len() == all_scanned(scans).len(),
        forall|m: int, n: int|
            0 <= m < n < b.scan_records@.len() ==> (#[trigger] b.scan_records@[m]).author_time <= (
            #[trigger] b.scan_records@[n]).author_time,
        !b.scanning,
        b.pr_index.prs@ == prs,
{
    let now = b.scan_records@;
    let sorted = choose|sorted: Seq<CommitRecord>| #[trigger]
        scanner::sorted_by_age(all_scanned(scans), sorted) && all_enriched(sorted, now, prs);
    let c = (scans[i].found->Ok_0)@[j];
    lemma_scanned(scans, i, j);
    scanner::law_sorting_keeps_the_commits(all_scanned(scans), sorted, c);
    let k = choose|k: int| 0 <= k < sorted.len() && sorted[k] == c;
    assert(pr::is_enriched(sorted[k], now[k], prs));
    assert forall|m: int, n: int| 0 <= m < n < now.len() implies (#[trigger] now[m]).author_time
        <= (#[trigger] now[n]).author_time by {
        assert(pr::is_enriched(sorted[m], now[m], prs));
        assert(pr::is_enriched(sorted[n], now[n], prs));
        assert(sorted[m].author_time <= sorted[n].author_time);
    }
    k
}

/// What was scanned for some days and repositories is not shown for others: the cache tells them
/// apart by both days of the range and by the repositories.
pub proof fn law_other_scans_are_not_shown(a: App, b: App)
    ensures
        scan_key(a) == scan_key(b) <==> a.range() == b.range() && crate::paths::path_forms(
            text::texts(a.config.repos@),
        ).to_multiset() == crate::paths::path_forms(text::texts(b.config.repos@)).to_multiset(),
{
    cache::law_scans_are_told_apart(
        a.range().0,
        a.range().1,
        text::texts(a.config.repos@),
        b.range().0,
        b.range().1,
        text::texts(b.config.repos@),
    );
}

/// A scan that is not forced shows what the cache has, and asks the store for what it has not; it
/// never changes the cache.
pub proof fn law_the_cache_is_asked_first(a: App, b: App, act: Action)
    requires
        a.config.repos@.len() > 0,
        scan_step(a, false, b, act),
    ensures
        a.scan_cache.get(scan_key(a)) matches Some(records) ==> b.scan_records@ == records
            && b.results_are_cached && b.results_selected == 0 && act == (Action::SyncPushed {
            start: a.range().0,
            end: a.range().1,
        }),
        a.scan_cache.get(scan_key(a)) is None ==> b == a && act == (Action::LoadScan {
            start: a.range().0,
            end: a.range().1,
        }),
        b.scan_cache == a.scan_cache,
        b.hours_overrides == a.hours_overrides,
{
}

/// A scan that failed changes nothing of what is on show, and it is told where it failed.
pub proof fn law_failed_scans_change_nothing(
    a: App,
    scans: Seq<RepoScan>,
    prs: Seq<PrInfo>,
    b: App,
    act: Action,
    i: int,
)
    requires
        finish_step(a, scans, prs, b, act),
        0 <= i < scans.len(),
        scans[i].found is Err,
        forall|k: int| 0 <= k < i ==> (#[trigger] scans[k]).found is Ok,
    ensures
        b.scan_records == a.scan_records,
        b.scan_cache == a.scan_cache,
        !b.scanning,
        b.error is Some,
        (b.error->0)@ == "scan "@ + scans[i].path@ + ": "@ + (scans[i].found->Err_0)@,
        act == Action::Idle,
{
    law_the_first_failure_is_told(scans, i);
}

} // verus!
