//! What is kept in memory: the scans of this run, and the hours that the user set.

use vstd::prelude::*;

use crate::dates::Date;
use crate::order;
use crate::paths;
use crate::scanner;
use crate::scanner::CommitRecord;
use crate::text;

verus! {

/// What a scan is found by: its days, and its repositories in order, each written in
/// the one way that its path has.
pub struct CacheKey {
    pub start: Date,
    pub end: Date,
    pub repos: Vec<String>,
}

/// What a cache key says.
pub struct KeyView {
    pub start: Date,
    pub end: Date,
    pub repos: Seq<Seq<char>>,
}

impl View for CacheKey {
    type V = KeyView;

    open spec fn view(&self) -> KeyView {
        KeyView { start: self.start, end: self.end, repos: text::texts(self.repos@) }
    }
}

/// `key` finds the scans of `repos` from `start` to `end`, whatever order the
/// repositories are listed in, and however their paths are written.
pub open spec fn is_key(start: Date, end: Date, repos: Seq<Seq<char>>, key: KeyView) -> bool {
    &&& key.start == start
    &&& key.end == end
    &&& order::sorted_texts(key.repos)
    &&& key.repos.to_multiset() == paths::path_forms(repos).to_multiset()
}

/// What the scans of `repos` from `start` to `end` are found by.
pub open spec fn key_of(start: Date, end: Date, repos: Seq<Seq<char>>) -> KeyView {
    choose|key: KeyView| is_key(start, end, repos, key)
}

/// A scan is found by one key only.
pub proof fn lemma_key_unique(
    start: Date,
    end: Date,
    repos: Seq<Seq<char>>,
    a: KeyView,
    b: KeyView,
)
    requires
        is_key(start, end, repos, a),
        is_key(start, end, repos, b),
    ensures
        a == b,
{
    order::lemma_sorted_texts_unique(a.repos, b.repos);
}

/// The order in which the repositories are listed does not matter to what a scan is
/// found by.
pub proof fn law_cache_key_ignores_order(
    start: Date,
    end: Date,
    a: Seq<Seq<char>>,
    b: Seq<Seq<char>>,
    key: KeyView,
    other: KeyView,
)
    requires
        a.to_multiset() == b.to_multiset(),
        is_key(start, end, a, key),
        is_key(start, end, b, other),
    ensures
        key == other,
{
    paths::lemma_forms_multiset(a, b);
    lemma_key_unique(start, end, a, key, other);
}

/// A scan is found by the parts of the paths of its repositories: lists of paths with
/// the same parts find it, and no others.
pub proof fn law_cache_key_goes_by_parts(
    start: Date,
    end: Date,
    a: Seq<Seq<char>>,
    b: Seq<Seq<char>>,
    key: KeyView,
    other: KeyView,
)
    requires
        is_key(start, end, a, key),
        is_key(start, end, b, other),
    ensures
        key == other <==> paths::path_forms(a).to_multiset() == paths::path_forms(b).to_multiset(),
{
    if paths::path_forms(a).to_multiset() == paths::path_forms(b).to_multiset() {
        lemma_key_unique(start, end, a, key, other);
    }
}

/// What the scans of `repos` from `start` to `end` are found by.
pub fn cache_key(start: Date, end: Date, repos: &Vec<String>) -> (r: CacheKey)
    ensures
        is_key(start, end, text::texts(repos@), r@),
        r@ == key_of(start, end, text::texts(repos@)),
{
    let key = CacheKey { start, end, repos: order::sort_texts(&paths::forms_of(repos)) };
    proof {
        lemma_key_unique(
            start,
            end,
            text::texts(repos@),
            key@,
            key_of(start, end, text::texts(repos@)),
        );
    }
    key
}

fn same_texts(a: &Vec<String>, b: &Vec<String>) -> (r: bool)
    ensures
        r == (text::texts(a@) == text::texts(b@)),
{
    if a.len() != b.len() {
        assert(text::texts(a@).len() != text::texts(b@).len());
        return false;
    }
    for i in 0..a.len()
        invariant
            a@.len() == b@.len(),
            forall|j: int| 0 <= j < i ==> (#[trigger] a@[j])@ == b@[j]@,
    {
        if !text::same_text(a[i].as_str(), b[i].as_str()) {
            assert(text::texts(a@)[i as int] != text::texts(b@)[i as int]);
            return false;
        }
    }
    assert(text::texts(a@) =~= text::texts(b@));
    true
}

impl CacheKey {
    pub fn same(&self, other: &CacheKey) -> (r: bool)
        ensures
            r == (self@ == other@),
    {
        self.start == other.start && self.end == other.end && same_texts(&self.repos, &other.repos)
    }
}

/// A scan that is kept.
pub struct CacheEntry {
    pub key: CacheKey,
    pub records: Vec<CommitRecord>,
}

/// The scans of this run.
pub struct ScanCache {
    pub entries: Vec<CacheEntry>,
}

/// The scan that was kept last under a key.
pub open spec fn kept(entries: Seq<CacheEntry>, key: KeyView) -> Option<Seq<CommitRecord>>
    decreases entries.len(),
{
    if entries.len() == 0 {
        None
    } else if entries.last().key@ == key {
        Some(entries.last().records@)
    } else {
        kept(entries.drop_last(), key)
    }
}

/// The entries under other keys.
pub open spec fn without_key(entries: Seq<CacheEntry>, key: KeyView) -> Seq<CacheEntry>
    decreases entries.len(),
{
    if entries.len() == 0 {
        Seq::empty()
    } else if entries.last().key@ == key {
        without_key(entries.drop_last(), key)
    } else {
        without_key(entries.drop_last(), key).push(entries.last())
    }
}

proof fn lemma_without(entries: Seq<CacheEntry>, key: KeyView, other: KeyView)
    ensures
        kept(without_key(entries, key), other) == (if other == key {
            None
        } else {
            kept(entries, other)
        }),
    decreases entries.len(),
{
    if entries.len() > 0 {
        lemma_without(entries.drop_last(), key, other);
        let rest = without_key(entries.drop_last(), key);
        assert(rest.push(entries.last()).drop_last() =~= rest);
    }
}

impl ScanCache {
    /// The scan under a key.
    pub open spec fn get(self, key: KeyView) -> Option<Seq<CommitRecord>> {
        kept(self.entries@, key)
    }

    pub fn new() -> (r: Self)
        ensures
            forall|k: KeyView| #[trigger] r.get(k) is None,
    {
        ScanCache { entries: Vec::new() }
    }

    /// A copy of the scan under a key.
    pub fn find(&self, key: &CacheKey) -> (r: Option<Vec<CommitRecord>>)
        ensures
            match r {
                Some(records) => self.get(key@) == Some(records@),
                None => self.get(key@) is None,
            },
    {
        let mut i: usize = self.entries.len();
        assert(self.entries@.take(i as int) =~= self.entries@);
        while i > 0
            invariant
                i <= self.entries@.len(),
                kept(self.entries@, key@) == kept(self.entries@.take(i as int), key@),
            decreases i,
        {
            let ghost now = self.entries@.take(i as int);
            i -= 1;
            assert(now.drop_last() =~= self.entries@.take(i as int));
            assert(now.last() == self.entries@[i as int]);
            if self.entries[i].key.same(key) {
                return Some(scanner::clone_records(&self.entries[i].records));
            }
        }
        None
    }

    /// Forgets the scan under a key.
    pub fn remove(&mut self, key: &CacheKey)
        ensures
            forall|k: KeyView| #[trigger]
                final(self).get(k) == (if k == key@ {
                    None
                } else {
                    old(self).get(k)
                }),
    {
        let ghost all = self.entries@;
        let mut rest = Vec::new();
        std::mem::swap(&mut rest, &mut self.entries);
        let n = rest.len();
        let mut out: Vec<CacheEntry> = Vec::new();
        assert(all.skip(0) =~= all);
        for i in 0..n
            invariant
                n == all.len(),
                rest@ == all.skip(i as int),
                out@ == without_key(all.take(i as int), key@),
        {
            let entry = rest.remove(0);
            proof {
                assert(entry == all[i as int]);
                assert(all.take(i + 1).drop_last() =~= all.take(i as int));
                assert(all.take(i + 1).last() == entry);
            }
            if !entry.key.same(key) {
                out.push(entry);
            }
            assert(rest@ =~= all.skip(i + 1));
        }
        assert(all.take(n as int) =~= all);
        self.entries = out;
        assert forall|k: KeyView| #[trigger]
            self.get(k) == (if k == key@ {
                None
            } else {
                kept(all, k)
            }) by {
            lemma_without(all, key@, k);
        }
    }

    /// Keeps a scan under a key, in place of the one before.
    pub fn insert(&mut self, key: CacheKey, records: Vec<CommitRecord>)
        ensures
            forall|k: KeyView| #[trigger]
                final(self).get(k) == (if k == key@ {
                    Some(records@)
                } else {
                    old(self).get(k)
                }),
    {
        let ghost before = *self;
        self.remove(&key);
        let ghost rest = *self;
        self.entries.push(CacheEntry { key, records });
        assert forall|k: KeyView| #[trigger]
            self.get(k) == (if k == key@ {
                Some(records@)
            } else {
                before.get(k)
            }) by {
            assert(self.entries@.drop_last() =~= rest.entries@);
            assert(rest.get(k) == (if k == key@ {
                None
            } else {
                before.get(k)
            }));
        }
    }
}

/// The hours that the user set, by ticket.
pub struct Overrides {
    pub entries: Vec<(String, i64)>,
}

/// The hours that were set last for a ticket.
pub open spec fn last_set(entries: Seq<(String, i64)>, ticket: Seq<char>) -> Option<i64>
    decreases entries.len(),
{
    if entries.len() == 0 {
        None
    } else if entries.last().0@ == ticket {
        Some(entries.last().1)
    } else {
        last_set(entries.drop_last(), ticket)
    }
}

impl Overrides {
    /// The hours of a ticket, where the user set them.
    pub open spec fn get(self, ticket: Seq<char>) -> Option<i64> {
        last_set(self.entries@, ticket)
    }

    pub fn new() -> (r: Self)
        ensures
            forall|t: Seq<char>| #[trigger] r.get(t) is None,
    {
        Overrides { entries: Vec::new() }
    }

    /// The hours of a ticket, where the user set them.
    pub fn find(&self, ticket: &str) -> (r: Option<i64>)
        ensures
            r == self.get(ticket@),
    {
        let mut i: usize = self.entries.len();
        assert(self.entries@.take(i as int) =~= self.entries@);
        while i > 0
            invariant
                i <= self.entries@.len(),
                last_set(self.entries@, ticket@) == last_set(self.entries@.take(i as int), ticket@),
            decreases i,
        {
            let ghost now = self.entries@.take(i as int);
            i -= 1;
            assert(now.drop_last() =~= self.entries@.take(i as int));
            assert(now.last() == self.entries@[i as int]);
            if text::same_text(self.entries[i].0.as_str(), ticket) {
                return Some(self.entries[i].1);
            }
        }
        None
    }

    /// Sets the hours of a ticket.
    pub fn set(&mut self, ticket: String, hours: i64)
        ensures
            forall|t: Seq<char>| #[trigger]
                final(self).get(t) == (if t == ticket@ {
                    Some(hours)
                } else {
                    old(self).get(t)
                }),
    {
        let ghost before = self.entries@;
        self.entries.push((ticket, hours));
        assert(self.entries@.drop_last() =~= before);
    }
}

/// There is something that the scans of repositories and days are found by.
pub proof fn lemma_key_exists(start: Date, end: Date, repos: Seq<Seq<char>>)
    ensures
        is_key(start, end, repos, key_of(start, end, repos)),
{
    let forms = paths::path_forms(repos);
    let leq = |a: Seq<char>, b: Seq<char>| order::text_le(a, b);
    order::lemma_text_order();
    assert(vstd::relations::total_ordering(leq)) by {
        assert forall|x: Seq<char>| #[trigger] leq(x, x) by {
            order::lemma_text_le_reflexive(x);
        }
        assert forall|x: Seq<char>, y: Seq<char>| #[trigger]
            leq(x, y) && #[trigger] leq(y, x) implies x == y by {
            order::lemma_text_le_antisymmetric(x, y);
        }
        assert forall|x: Seq<char>, y: Seq<char>, z: Seq<char>| #[trigger]
            leq(x, y) && #[trigger] leq(y, z) implies leq(x, z) by {
            order::lemma_text_le_transitive(x, y, z);
        }
        assert forall|x: Seq<char>, y: Seq<char>| #[trigger] leq(x, y) || #[trigger] leq(y, x) by {
            order::lemma_text_le_total(x, y);
        }
    }
    forms.lemma_sort_by_ensures(leq);
    let sorted = forms.sort_by(leq);
    assert(order::sorted_texts(sorted)) by {
        assert forall|i: int, j: int| 0 <= i < j < sorted.len() implies order::text_le(
            #[trigger] sorted[i],
            #[trigger] sorted[j],
        ) by {
            assert(leq(sorted[i], sorted[j]));
        }
    }
    assert(is_key(start, end, repos, KeyView { start, end, repos: sorted }));
}

/// Scans are told apart by their first day, by their last day, and by the parts of the paths of
/// their repositories.
pub proof fn law_scans_are_told_apart(
    start: Date,
    end: Date,
    repos: Seq<Seq<char>>,
    first: Date,
    last: Date,
    others: Seq<Seq<char>>,
)
    ensures
        key_of(start, end, repos) == key_of(first, last, others) <==> start == first && end == last
            && paths::path_forms(repos).to_multiset() == paths::path_forms(others).to_multiset(),
{
    lemma_key_exists(start, end, repos);
    lemma_key_exists(first, last, others);
    let a = key_of(start, end, repos);
    let b = key_of(first, last, others);
    if start == first && end == last {
        law_cache_key_goes_by_parts(start, end, repos, others, a, b);
    }
}

} // verus!
