//! What scans and worklogs are kept under.

use vstd::prelude::*;

use crate::dates;
use crate::dates::Date;
use crate::order;
use crate::text;

verus! {

/// `key` lists the repositories in order, one on a line.
pub open spec fn is_repos_key(repos: Seq<Seq<char>>, key: Seq<char>) -> bool {
    exists|sorted: Seq<Seq<char>>|
        #[trigger] order::sorted_texts(sorted) && sorted.to_multiset() == repos.to_multiset()
            && key == text::joined(sorted, "\n"@)
}

/// The key of a set of repositories, whatever order they are listed in.
pub fn repos_key(repos: &Vec<String>) -> (r: String)
    ensures
        is_repos_key(text::texts(repos@), r@),
{
    let sorted = order::sort_texts(repos);
    text::join_texts(&sorted, "\n")
}

/// What a scan is kept under.
pub struct ScanKey {
    pub start: String,
    pub end: String,
    pub repos: String,
}

/// `key` is what a scan of `repos` from `start` to `end` is kept under.
pub open spec fn is_scan_key(start: Date, end: Date, repos: Seq<Seq<char>>, key: ScanKey) -> bool {
    &&& key.start@ == dates::iso_text(start)
    &&& key.end@ == dates::iso_text(end)
    &&& is_repos_key(repos, key.repos@)
}

/// What a scan is kept under.
pub fn scan_key(start: Date, end: Date, repos: &Vec<String>) -> (r: ScanKey)
    requires
        start.valid(),
        end.valid(),
    ensures
        is_scan_key(start, end, text::texts(repos@), r),
{
    ScanKey { start: start.iso(), end: end.iso(), repos: repos_key(repos) }
}

/// The order in which the repositories are listed does not matter to what a scan
/// is kept under.
pub proof fn law_repos_key_ignores_order(
    a: Seq<Seq<char>>,
    b: Seq<Seq<char>>,
    key_a: Seq<char>,
    key_b: Seq<char>,
)
    requires
        a.to_multiset() == b.to_multiset(),
        is_repos_key(a, key_a),
        is_repos_key(b, key_b),
    ensures
        key_a == key_b,
{
    let x = choose|s: Seq<Seq<char>>|
        #[trigger] order::sorted_texts(s) && s.to_multiset() == a.to_multiset() && key_a
            == text::joined(s, "\n"@);
    let y = choose|s: Seq<Seq<char>>|
        #[trigger] order::sorted_texts(s) && s.to_multiset() == b.to_multiset() && key_b
            == text::joined(s, "\n"@);
    order::lemma_sorted_texts_unique(x, y);
}

proof fn lemma_first_line(parts: Seq<Seq<char>>)
    requires
        parts.len() > 0,
        forall|i: int| 0 <= i < parts.len() ==> !(#[trigger] parts[i]).contains('\n'),
    ensures
        ({
            let all = text::joined(parts, "\n"@);
            let p = crate::number::position(all, '\n');
            &&& parts[0] == all.take(p)
            &&& parts.len() == 1 <==> p >= all.len()
            &&& parts.len() > 1 ==> all.skip(p + 1) == text::joined(parts.drop_first(), "\n"@)
        }),
{
    reveal_strlit("\n");
    let all = text::joined(parts, "\n"@);
    let first = seq![parts[0]];
    let rest = parts.drop_first();
    let n = parts[0].len() as int;
    assert(parts =~= first + rest);
    text::law_joining_puts_separators_between(first, rest, "\n"@, parts[0]);
    if parts.len() == 1 {
        assert(parts =~= first);
    }
    assert(all.take(n) =~= parts[0]);
    crate::number::lemma_position(all, '\n', n);
    if parts.len() > 1 {
        assert(all.skip(n + 1) =~= text::joined(rest, "\n"@));
    }
}

proof fn lemma_lines_told_apart(a: Seq<Seq<char>>, b: Seq<Seq<char>>)
    requires
        a.len() > 0,
        b.len() > 0,
        forall|i: int| 0 <= i < a.len() ==> !(#[trigger] a[i]).contains('\n'),
        forall|i: int| 0 <= i < b.len() ==> !(#[trigger] b[i]).contains('\n'),
        text::joined(a, "\n"@) == text::joined(b, "\n"@),
    ensures
        a == b,
    decreases a.len(),
{
    lemma_first_line(a);
    lemma_first_line(b);
    if a.len() > 1 {
        let c = a.drop_first();
        let d = b.drop_first();
        assert forall|i: int| 0 <= i < c.len() implies !(#[trigger] c[i]).contains('\n') by {
            assert(c[i] == a[i + 1]);
        }
        assert forall|i: int| 0 <= i < d.len() implies !(#[trigger] d[i]).contains('\n') by {
            assert(d[i] == b[i + 1]);
        }
        lemma_lines_told_apart(c, d);
        assert(a =~= seq![a[0]] + c);
        assert(b =~= seq![b[0]] + d);
    }
    assert(a =~= b);
}

/// Different repositories are kept under different keys: what is kept under one key belongs
/// to one set of repositories, if no path has a line end in it.
pub proof fn law_repos_are_told_apart(a: Seq<Seq<char>>, b: Seq<Seq<char>>, key: Seq<char>)
    requires
        a.len() > 0,
        b.len() > 0,
        forall|i: int| 0 <= i < a.len() ==> !(#[trigger] a[i]).contains('\n'),
        forall|i: int| 0 <= i < b.len() ==> !(#[trigger] b[i]).contains('\n'),
        is_repos_key(a, key),
        is_repos_key(b, key),
    ensures
        a.to_multiset() == b.to_multiset(),
{
    let x = choose|s: Seq<Seq<char>>|
        #[trigger] order::sorted_texts(s) && s.to_multiset() == a.to_multiset() && key
            == text::joined(s, "\n"@);
    let y = choose|s: Seq<Seq<char>>|
        #[trigger] order::sorted_texts(s) && s.to_multiset() == b.to_multiset() && key
            == text::joined(s, "\n"@);
    lemma_same_parts(x, a);
    lemma_same_parts(y, b);
    lemma_lines_told_apart(x, y);
}

proof fn lemma_same_parts(x: Seq<Seq<char>>, a: Seq<Seq<char>>)
    requires
        x.to_multiset() == a.to_multiset(),
        a.len() > 0,
        forall|i: int| 0 <= i < a.len() ==> !(#[trigger] a[i]).contains('\n'),
    ensures
        x.len() > 0,
        forall|i: int| 0 <= i < x.len() ==> !(#[trigger] x[i]).contains('\n'),
{
    vstd::seq_lib::to_multiset_len(x);
    vstd::seq_lib::to_multiset_len(a);
    assert forall|i: int| 0 <= i < x.len() implies !(#[trigger] x[i]).contains('\n') by {
        vstd::seq_lib::to_multiset_contains(x, x[i]);
        vstd::seq_lib::to_multiset_contains(a, x[i]);
        let j = choose|j: int| 0 <= j < a.len() && a[j] == x[i];
        assert(!a[j].contains('\n'));
    }
}

/// What is kept for some days is not found for others: the days of a key can be read from it.
pub proof fn law_kept_scans_are_told_apart_by_days(
    start: Date,
    end: Date,
    repos: Seq<Seq<char>>,
    first: Date,
    last: Date,
    others: Seq<Seq<char>>,
    key: ScanKey,
)
    requires
        start.valid() && 0 <= start.year < 10_000,
        end.valid() && 0 <= end.year < 10_000,
        first.valid() && 0 <= first.year < 10_000,
        last.valid() && 0 <= last.year < 10_000,
        is_scan_key(start, end, repos, key),
        is_scan_key(first, last, others, key),
    ensures
        start == first,
        end == last,
{
    dates::law_days_are_written_by_parts(start);
    dates::law_days_are_written_by_parts(end);
    dates::law_days_are_written_by_parts(first);
    dates::law_days_are_written_by_parts(last);
}

} // verus!
