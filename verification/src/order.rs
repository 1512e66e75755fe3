//! Orders: the order of texts, stable sorting by a key, and sets of texts kept
//! as strictly ascending lists.

use vstd::prelude::*;

use crate::text;

verus! {

/// Texts in the order of their characters; a prefix comes before what it is a
/// prefix of.
pub open spec fn text_le(a: Seq<char>, b: Seq<char>) -> bool
    decreases a.len(),
{
    if a.len() == 0 {
        true
    } else if b.len() == 0 {
        false
    } else if a[0] == b[0] {
        text_le(a.drop_first(), b.drop_first())
    } else {
        a[0] < b[0]
    }
}

pub open spec fn text_lt(a: Seq<char>, b: Seq<char>) -> bool {
    text_le(a, b) && a != b
}

/// Every text of `s` comes before the texts behind it, and none occurs twice.
pub open spec fn ascending(s: Seq<Seq<char>>) -> bool {
    forall|i: int, j: int| 0 <= i < j < s.len() ==> text_lt(#[trigger] s[i], #[trigger] s[j])
}

/// No text of `s` comes after a text behind it.
pub open spec fn sorted_texts(s: Seq<Seq<char>>) -> bool {
    forall|i: int, j: int| 0 <= i < j < s.len() ==> text_le(#[trigger] s[i], #[trigger] s[j])
}

/// `s` has the texts that `of` has, each once, in order.
pub open spec fn is_text_set(s: Seq<Seq<char>>, of: Seq<Seq<char>>) -> bool {
    &&& ascending(s)
    &&& forall|t: Seq<char>| #[trigger] s.contains(t) <==> of.contains(t)
}

pub proof fn lemma_text_le_reflexive(a: Seq<char>)
    ensures
        text_le(a, a),
    decreases a.len(),
{
    if a.len() > 0 {
        lemma_text_le_reflexive(a.drop_first());
    }
}

pub proof fn lemma_text_le_antisymmetric(a: Seq<char>, b: Seq<char>)
    requires
        text_le(a, b),
        text_le(b, a),
    ensures
        a == b,
    decreases a.len(),
{
    if a.len() == 0 || b.len() == 0 {
        assert(a =~= b);
    } else {
        lemma_text_le_antisymmetric(a.drop_first(), b.drop_first());
        assert(a =~= seq![a[0]] + a.drop_first());
        assert(b =~= seq![b[0]] + b.drop_first());
    }
}

pub proof fn lemma_text_le_transitive(a: Seq<char>, b: Seq<char>, c: Seq<char>)
    requires
        text_le(a, b),
        text_le(b, c),
    ensures
        text_le(a, c),
    decreases a.len(),
{
    if a.len() > 0 && b.len() > 0 && c.len() > 0 && a[0] == b[0] && b[0] == c[0] {
        lemma_text_le_transitive(a.drop_first(), b.drop_first(), c.drop_first());
    }
}

pub proof fn lemma_text_le_total(a: Seq<char>, b: Seq<char>)
    ensures
        text_le(a, b) || text_le(b, a),
    decreases a.len(),
{
    if a.len() > 0 && b.len() > 0 && a[0] == b[0] {
        lemma_text_le_total(a.drop_first(), b.drop_first());
    }
}

pub proof fn lemma_text_lt_transitive(a: Seq<char>, b: Seq<char>, c: Seq<char>)
    requires
        text_lt(a, b),
        text_le(b, c),
    ensures
        text_lt(a, c),
{
    lemma_text_le_transitive(a, b, c);
    if a == c {
        lemma_text_le_antisymmetric(a, b);
    }
}

pub proof fn lemma_text_order()
    ensures
        vstd::relations::total_ordering(|a: Seq<char>, b: Seq<char>| text_le(a, b)),
{
    let leq = |a: Seq<char>, b: Seq<char>| text_le(a, b);
    assert forall|a: Seq<char>| #[trigger] leq(a, a) by {
        lemma_text_le_reflexive(a);
    }
    assert forall|a: Seq<char>, b: Seq<char>| #[trigger] leq(a, b) && #[trigger] leq(b, a) implies a
        == b by {
        lemma_text_le_antisymmetric(a, b);
    }
    assert forall|a: Seq<char>, b: Seq<char>, c: Seq<char>| #[trigger]
        leq(a, b) && #[trigger] leq(b, c) implies leq(a, c) by {
        lemma_text_le_transitive(a, b, c);
    }
    assert forall|a: Seq<char>, b: Seq<char>| #[trigger] leq(a, b) || #[trigger] leq(b, a) by {
        lemma_text_le_total(a, b);
    }
}

/// Two sorted lists of the same texts are the same list.
pub proof fn lemma_sorted_texts_unique(a: Seq<Seq<char>>, b: Seq<Seq<char>>)
    requires
        sorted_texts(a),
        sorted_texts(b),
        a.to_multiset() == b.to_multiset(),
    ensures
        a == b,
{
    let leq = |x: Seq<char>, y: Seq<char>| text_le(x, y);
    lemma_text_order();
    vstd::seq_lib::lemma_sorted_unique(a, b, leq);
}

/// Two lists of the same things in the same strict order are the same list.
pub proof fn lemma_ordered_list_unique<A>(a: Seq<A>, b: Seq<A>, less: spec_fn(A, A) -> bool)
    requires
        forall|t: A| #[trigger] a.contains(t) <==> b.contains(t),
        forall|i: int, j: int| 0 <= i < j < a.len() ==> less(#[trigger] a[i], #[trigger] a[j]),
        forall|i: int, j: int| 0 <= i < j < b.len() ==> less(#[trigger] b[i], #[trigger] b[j]),
        forall|x: A, y: A| #[trigger] less(x, y) ==> !less(y, x),
    ensures
        a == b,
    decreases a.len(),
{
    if a.len() == 0 {
        if b.len() > 0 {
            assert(b.contains(b[0]));
            assert(a.contains(b[0]));
        }
        assert(a =~= b);
    } else {
        let x = a.last();
        assert(a.contains(x));
        assert(b.len() > 0);
        let y = b.last();
        assert(b.contains(y));
        assert(a.contains(y));
        let i = choose|i: int| 0 <= i < b.len() && b[i] == x;
        let j = choose|j: int| 0 <= j < a.len() && a[j] == y;
        assert(x == y) by {
            if i < b.len() - 1 && j < a.len() - 1 {
                assert(less(b[i], b[b.len() - 1]));
                assert(less(a[j], a[a.len() - 1]));
            }
        }
        let p = a.drop_last();
        let q = b.drop_last();
        assert forall|t: A| #[trigger] p.contains(t) <==> q.contains(t) by {
            if p.contains(t) {
                let k = choose|k: int| 0 <= k < p.len() && p[k] == t;
                assert(a[k] == t);
                assert(less(a[k], a[a.len() - 1]));
                assert(a.contains(t));
                let l = choose|l: int| 0 <= l < b.len() && b[l] == t;
                assert(l != b.len() - 1);
                assert(q[l] == t);
            }
            if q.contains(t) {
                let k = choose|k: int| 0 <= k < q.len() && q[k] == t;
                assert(b[k] == t);
                assert(less(b[k], b[b.len() - 1]));
                assert(b.contains(t));
                assert(a.contains(t));
                let l = choose|l: int| 0 <= l < a.len() && a[l] == t;
                assert(l != a.len() - 1);
                assert(p[l] == t);
            }
        }
        lemma_ordered_list_unique(p, q, less);
        assert(a =~= p.push(x));
        assert(b =~= q.push(y));
    }
}

/// A set of texts has one ascending list.
pub proof fn lemma_text_set_unique(a: Seq<Seq<char>>, b: Seq<Seq<char>>, of: Seq<Seq<char>>)
    requires
        is_text_set(a, of),
        is_text_set(b, of),
    ensures
        a == b,
{
    let less = |x: Seq<char>, y: Seq<char>| text_lt(x, y);
    assert forall|x: Seq<char>, y: Seq<char>| #[trigger] less(x, y) implies !less(y, x) by {
        if text_lt(y, x) {
            lemma_text_le_antisymmetric(x, y);
        }
    }
    assert forall|t: Seq<char>| #[trigger] a.contains(t) <==> b.contains(t) by {
        assert(a.contains(t) <==> of.contains(t));
        assert(b.contains(t) <==> of.contains(t));
    }
    lemma_ordered_list_unique(a, b, less);
}

/// Whether `a` comes before `b`, or is `b`.
pub fn text_up_to(a: &str, b: &str) -> (r: bool)
    ensures
        r == text_le(a@, b@),
{
    let x = text::chars_of(a);
    let y = text::chars_of(b);
    let mut i: usize = 0;
    assert(a@.skip(0) =~= a@ && b@.skip(0) =~= b@);
    loop
        invariant
            x@ == a@,
            y@ == b@,
            i <= x@.len(),
            i <= y@.len(),
            text_le(a@, b@) == text_le(a@.skip(i as int), b@.skip(i as int)),
        decreases x@.len() - i,
    {
        if i >= x.len() {
            return true;
        }
        if i >= y.len() {
            return false;
        }
        if x[i] != y[i] {
            return x[i] < y[i];
        }
        assert(a@.skip(i as int).drop_first() =~= a@.skip(i + 1));
        assert(b@.skip(i as int).drop_first() =~= b@.skip(i + 1));
        i += 1;
    }
}

/// Adds `t` to an ascending list, where it is not in it yet.
pub fn insert_text(v: &mut Vec<String>, t: String)
    requires
        ascending(text::texts(old(v)@)),
    ensures
        is_text_set(text::texts(final(v)@), text::texts(old(v)@).push(t@)),
{
    let ghost before = text::texts(v@);
    let mut i: usize = 0;
    while i < v.len() && !text_up_to(t.as_str(), v[i].as_str())
        invariant
            i <= v@.len(),
            before == text::texts(v@),
            forall|j: int| 0 <= j < i ==> !text_le(t@, #[trigger] before[j]),
        decreases v@.len() - i,
    {
        i += 1;
    }
    if i < v.len() && text::same_text(v[i].as_str(), t.as_str()) {
        proof {
            assert(before[i as int] == t@);
            let of = before.push(t@);
            assert forall|x: Seq<char>| #[trigger] before.contains(x) <==> of.contains(x) by {
                if before.contains(x) {
                    let k = choose|k: int| 0 <= k < before.len() && before[k] == x;
                    assert(of[k] == x);
                }
                if of.contains(x) {
                    let k = choose|k: int| 0 <= k < of.len() && of[k] == x;
                    if k < before.len() {
                        assert(before[k] == x);
                    }
                }
            }
        }
        return ;
    }
    let ghost word = t@;
    v.insert(i, t);
    proof {
        let after = text::texts(v@);
        let of = before.push(word);
        assert(after =~= before.insert(i as int, word));
        assert forall|a: int, b: int| 0 <= a < b < after.len() implies text_lt(
            #[trigger] after[a],
            #[trigger] after[b],
        ) by {
            if b < i {
                assert(text_lt(before[a], before[b]));
            } else if b == i {
                assert(!text_le(word, before[a]));
                lemma_text_le_total(word, before[a]);
                lemma_text_le_reflexive(word);
            } else if a == i {
                assert(text_le(word, before[i as int]));
                if b - 1 > i {
                    assert(text_lt(before[i as int], before[b - 1]));
                    lemma_text_lt_transitive(word, before[i as int], before[b - 1]);
                }
            } else if a < i {
                assert(text_lt(before[a], before[b - 1]));
            } else {
                assert(text_lt(before[a - 1], before[b - 1]));
            }
        }
        assert forall|x: Seq<char>| #[trigger] after.contains(x) <==> of.contains(x) by {
            if after.contains(x) {
                let k = choose|k: int| 0 <= k < after.len() && after[k] == x;
                if k < i {
                    assert(of[k] == x);
                } else if k == i {
                    assert(of[before.len() as int] == x);
                } else {
                    assert(of[k - 1] == x);
                }
            }
            if of.contains(x) {
                let k = choose|k: int| 0 <= k < of.len() && of[k] == x;
                if k == before.len() {
                    assert(after[i as int] == x);
                } else if k < i {
                    assert(after[k] == x);
                } else {
                    assert(after[k + 1] == x);
                }
            }
        }
    }
}

/// The texts of `v`, each once, in order.
pub fn text_set(v: &Vec<String>) -> (r: Vec<String>)
    ensures
        is_text_set(text::texts(r@), text::texts(v@)),
{
    let mut out: Vec<String> = Vec::new();
    let ghost all = text::texts(v@);
    assert(all.take(0) =~= Seq::empty());
    for i in 0..v.len()
        invariant
            all == text::texts(v@),
            is_text_set(text::texts(out@), all.take(i as int)),
    {
        let ghost before = text::texts(out@);
        insert_text(&mut out, v[i].clone());
        proof {
            let now = all.take(i + 1);
            let was = all.take(i as int);
            assert(now =~= was.push(all[i as int]));
            let after = text::texts(out@);
            assert forall|t: Seq<char>| #[trigger] after.contains(t) <==> now.contains(t) by {
                lemma_push_contains(before, all[i as int], t);
                lemma_push_contains(was, all[i as int], t);
            }
        }
    }
    assert(all.take(v@.len() as int) =~= all);
    out
}

pub proof fn lemma_push_contains<A>(s: Seq<A>, x: A, t: A)
    ensures
        s.push(x).contains(t) <==> s.contains(t) || t == x,
{
    if s.contains(t) {
        let k = choose|k: int| 0 <= k < s.len() && s[k] == t;
        assert(s.push(x)[k] == t);
    }
    if t == x {
        assert(s.push(x)[s.len() as int] == t);
    }
    if s.push(x).contains(t) && t != x {
        let k = choose|k: int| 0 <= k < s.push(x).len() && s.push(x)[k] == t;
        assert(s[k] == t);
    }
}

pub proof fn lemma_add_contains<A>(a: Seq<A>, b: Seq<A>, t: A)
    ensures
        (a + b).contains(t) <==> a.contains(t) || b.contains(t),
{
    if a.contains(t) {
        let k = choose|k: int| 0 <= k < a.len() && a[k] == t;
        assert((a + b)[k] == t);
    }
    if b.contains(t) {
        let k = choose|k: int| 0 <= k < b.len() && b[k] == t;
        assert((a + b)[a.len() + k] == t);
    }
    if (a + b).contains(t) {
        let k = choose|k: int| 0 <= k < (a + b).len() && (a + b)[k] == t;
        if k < a.len() {
            assert(a[k] == t);
        } else {
            assert(b[k - a.len()] == t);
        }
    }
}

/// The strings of `v` in order.
pub fn sort_texts(v: &Vec<String>) -> (r: Vec<String>)
    ensures
        sorted_texts(text::texts(r@)),
        text::texts(r@).to_multiset() == text::texts(v@).to_multiset(),
{
    let mut out: Vec<String> = Vec::new();
    let ghost all = text::texts(v@);
    assert(all.take(0) =~= text::texts(out@));
    for i in 0..v.len()
        invariant
            all == text::texts(v@),
            sorted_texts(text::texts(out@)),
            text::texts(out@).to_multiset() == all.take(i as int).to_multiset(),
    {
        let ghost before = text::texts(out@);
        let ghost word = v@[i as int]@;
        let mut k: usize = 0;
        while k < out.len() && text_up_to(out[k].as_str(), v[i].as_str())
            invariant
                k <= out@.len(),
                i < v@.len(),
                word == v@[i as int]@,
                before == text::texts(out@),
                forall|j: int| 0 <= j < k ==> text_le(#[trigger] before[j], word),
            decreases out@.len() - k,
        {
            k += 1;
        }
        out.insert(k, v[i].clone());
        proof {
            let after = text::texts(out@);
            assert(after =~= before.insert(k as int, word));
            assert forall|a: int, b: int| 0 <= a < b < after.len() implies text_le(
                #[trigger] after[a],
                #[trigger] after[b],
            ) by {
                if b < k {
                    assert(text_le(before[a], before[b]));
                } else if b == k {
                    assert(text_le(before[a], word));
                } else if a == k {
                    lemma_text_le_total(before[k as int], word);
                    if b - 1 > k {
                        assert(text_le(before[k as int], before[b - 1]));
                        lemma_text_le_transitive(word, before[k as int], before[b - 1]);
                    }
                } else if a < k {
                    assert(text_le(before[a], before[b - 1]));
                } else {
                    assert(text_le(before[a - 1], before[b - 1]));
                }
            }
            before.insert_ensures(k as int, word);
            vstd::seq_lib::to_multiset_insert(before, k as int, word);
            let was = all.take(i as int);
            assert(all.take(i + 1) =~= was.push(word));
            vstd::seq_lib::to_multiset_build(was, word);
        }
    }
    assert(all.take(v@.len() as int) =~= all);
    out
}

/// Position `a` comes before position `b` when its key is smaller, or equal and
/// the position itself is smaller.
pub open spec fn ranks_before(keys: Seq<i64>, a: int, b: int) -> bool {
    keys[a] < keys[b] || keys[a] == keys[b] && a < b
}

/// `order` lists the positions of `keys`, each once, by their keys; positions
/// with equal keys stay as they were.
pub open spec fn is_stable_order(keys: Seq<i64>, order: Seq<usize>) -> bool {
    &&& order.len() == keys.len()
    &&& forall|i: int| 0 <= i < order.len() ==> 0 <= #[trigger] order[i] < keys.len()
    &&& forall|k: int| 0 <= k < keys.len() ==> #[trigger] order.contains(k as usize)
    &&& forall|i: int, j: int|
        0 <= i < j < order.len() ==> ranks_before(
            keys,
            #[trigger] order[i] as int,
            #[trigger] order[j] as int,
        )
}

/// The positions of `keys` in the order of the keys.
pub fn stable_order(keys: &Vec<i64>) -> (r: Vec<usize>)
    ensures
        is_stable_order(keys@, r@),
{
    let mut out: Vec<usize> = Vec::new();
    for n in 0..keys.len()
        invariant
            out@.len() == n,
            forall|i: int| 0 <= i < out@.len() ==> 0 <= #[trigger] out@[i] < n,
            forall|k: int| 0 <= k < n ==> #[trigger] out@.contains(k as usize),
            forall|i: int, j: int|
                0 <= i < j < out@.len() ==> ranks_before(
                    keys@,
                    #[trigger] out@[i] as int,
                    #[trigger] out@[j] as int,
                ),
    {
        let mut at: usize = n;
        while at > 0 && keys[out[at - 1]] > keys[n]
            invariant
                at <= n < keys@.len(),
                out@.len() == n,
                forall|i: int| 0 <= i < out@.len() ==> 0 <= #[trigger] out@[i] < n,
                forall|i: int| at <= i < n ==> keys@[#[trigger] out@[i] as int] > keys@[n as int],
            decreases at,
        {
            at -= 1;
        }
        let ghost before = out@;
        out.insert(at, n);
        proof {
            assert forall|k: int| 0 <= k < n + 1 implies #[trigger] out@.contains(k as usize) by {
                if k == n {
                    assert(out@[at as int] == n);
                } else {
                    assert(before.contains(k as usize));
                    let p = choose|p: int| 0 <= p < before.len() && before[p] == k as usize;
                    if p < at {
                        assert(out@[p] == k as usize);
                    } else {
                        assert(out@[p + 1] == k as usize);
                    }
                }
            }
            assert forall|i: int, j: int| 0 <= i < j < out@.len() implies ranks_before(
                keys@,
                #[trigger] out@[i] as int,
                #[trigger] out@[j] as int,
            ) by {
                if j < at {
                    assert(ranks_before(keys@, before[i] as int, before[j] as int));
                } else if j == at {
                    assert(out@[i] == before[i]);
                    if i < at - 1 {
                        assert(ranks_before(keys@, before[i] as int, before[at - 1] as int));
                    }
                } else if i == at {
                    assert(out@[j] == before[j - 1]);
                } else if i < at {
                    assert(ranks_before(keys@, before[i] as int, before[j - 1] as int));
                } else {
                    assert(ranks_before(keys@, before[i - 1] as int, before[j - 1] as int));
                }
            }
        }
    }
    out
}

/// There is one stable order.
pub proof fn lemma_stable_order_unique(keys: Seq<i64>, a: Seq<usize>, b: Seq<usize>)
    requires
        is_stable_order(keys, a),
        is_stable_order(keys, b),
        keys.len() <= usize::MAX,
    ensures
        a == b,
{
    let leq = |x: usize, y: usize|
        x >= keys.len() && y >= keys.len() && x <= y || x < keys.len() && y >= keys.len() || x
            < keys.len() && y < keys.len() && (x == y || ranks_before(keys, x as int, y as int));
    lemma_order_multiset(keys, a);
    lemma_order_multiset(keys, b);
    assert(a.to_multiset() =~= b.to_multiset()) by {
        assert forall|x: usize| a.to_multiset().count(x) == b.to_multiset().count(x) by {
            lemma_order_counts(keys, a, x);
            lemma_order_counts(keys, b, x);
        }
    }
    vstd::seq_lib::lemma_sorted_unique(a, b, leq);
}

proof fn lemma_order_multiset(keys: Seq<i64>, a: Seq<usize>)
    requires
        is_stable_order(keys, a),
    ensures
        a.no_duplicates(),
{
    assert forall|i: int, j: int| 0 <= i < a.len() && 0 <= j < a.len() && i != j implies a[i]
        != a[j] by {
        if i < j {
            assert(ranks_before(keys, a[i] as int, a[j] as int));
        } else {
            assert(ranks_before(keys, a[j] as int, a[i] as int));
        }
    }
}

proof fn lemma_order_counts(keys: Seq<i64>, a: Seq<usize>, x: usize)
    requires
        is_stable_order(keys, a),
        a.no_duplicates(),
    ensures
        a.to_multiset().count(x) == (if x < keys.len() {
            1nat
        } else {
            0nat
        }),
{
    a.lemma_multiset_has_no_duplicates();
    vstd::seq_lib::to_multiset_contains(a, x);
    if x < keys.len() {
        assert(a.contains((x as int) as usize));
    } else if a.contains(x) {
        let i = choose|i: int| 0 <= i < a.len() && a[i] == x;
        assert(a[i] < keys.len());
    }
}

/// Two texts are in the order of the characters where they first differ; where one ends
/// there, it comes first.
pub proof fn law_texts_go_by_their_first_difference(
    p: Seq<char>,
    x: char,
    s: Seq<char>,
    y: char,
    t: Seq<char>,
)
    ensures
        x < y ==> text_lt(p.push(x) + s, p.push(y) + t),
        x > y ==> !text_le(p.push(x) + s, p.push(y) + t),
        text_le(p, p),
        text_lt(p, p.push(x) + s),
        !text_le(p.push(x) + s, p),
    decreases p.len(),
{
    let a = p.push(x) + s;
    let b = p.push(y) + t;
    if p.len() == 0 {
        assert(a[0] == x && b[0] == y);
    } else {
        let q = p.drop_first();
        law_texts_go_by_their_first_difference(q, x, s, y, t);
        assert(a.drop_first() =~= q.push(x) + s);
        assert(b.drop_first() =~= q.push(y) + t);
        assert(a[0] == p[0] && b[0] == p[0]);
    }
    if x < y {
        assert(a[p.len() as int] == x && b[p.len() as int] == y);
    }
}

/// A stable order lists every position once, the smaller keys before the larger ones, and
/// the positions of equal keys from the front to the back.
pub proof fn law_stable_order_sorts(keys: Seq<i64>, at: Seq<usize>, i: int, j: int)
    requires
        is_stable_order(keys, at),
        0 <= i < j < at.len(),
    ensures
        keys[at[i] as int] <= keys[at[j] as int],
        keys[at[i] as int] == keys[at[j] as int] ==> at[i] < at[j],
        at.no_duplicates(),
        at.len() == keys.len(),
        forall|k: usize| (k as int) < keys.len() ==> #[trigger] at.contains(k),
{
    assert(ranks_before(keys, at[i] as int, at[j] as int));
    lemma_order_multiset(keys, at);
    assert forall|k: usize| (k as int) < keys.len() implies #[trigger] at.contains(k) by {
        assert(at.contains((k as int) as usize));
    }
}

/// A set of texts has each text once, in order, and no other.
pub proof fn law_text_set_has_each_once(s: Seq<Seq<char>>, of: Seq<Seq<char>>, t: Seq<char>)
    requires
        is_text_set(s, of),
    ensures
        s.contains(t) <==> of.contains(t),
        s.no_duplicates(),
        forall|i: int, j: int| 0 <= i < j < s.len() ==> text_le(#[trigger] s[i], #[trigger] s[j]),
{
    assert(s.contains(t) <==> of.contains(t));
    assert forall|i: int, j: int| 0 <= i < s.len() && 0 <= j < s.len() && i != j implies s[i]
        != s[j] by {
        if i < j {
            assert(text_lt(s[i], s[j]));
        } else {
            assert(text_lt(s[j], s[i]));
        }
    }
    assert forall|i: int, j: int| 0 <= i < j < s.len() implies text_le(
        #[trigger] s[i],
        #[trigger] s[j],
    ) by {
        assert(text_lt(s[i], s[j]));
    }
}

} // verus!
