//! What a commit message says: ticket keys and explicit durations.

use vstd::prelude::*;

use crate::hours;
use crate::order;
use crate::text;

verus! {

/// The shape of a ticket key.
pub const TICKET_PATTERN: &'static str = "[A-Z][A-Z0-9]+-\\d+";

/// Something in square brackets.
pub const BRACKET_PATTERN: &'static str = "\\[([^\\]]+)\\]";

/// The texts that the regular expression `pattern` matches in `text`, in order,
/// or nothing where `pattern` is no regular expression.
pub uninterp spec fn regex_matches(pattern: Seq<char>, text: Seq<char>) -> Option<Seq<Seq<char>>>;

/// For each match of `pattern` in `text`, in order, what the capture group with
/// the number `group` holds, if it took part in the match; nothing where
/// `pattern` is no regular expression.
pub uninterp spec fn regex_groups(pattern: Seq<char>, group: int, text: Seq<char>) -> Option<
    Seq<Option<Seq<char>>>,
>;

/// A ticket key starts with a capital letter.
pub open spec fn starts_like_key(s: Seq<char>) -> bool {
    s.len() > 0 && 'A' <= s[0] <= 'Z'
}

/// `regex::Regex::new` and `regex::Regex::find_iter`: the successive matches of
/// a pattern, named by `regex_matches`. A match is a piece of the text. Of the
/// ticket pattern it says besides that a match starts with a capital letter.
#[verifier::external_body]
fn find_all(pattern: &str, text: &str) -> (r: Option<Vec<String>>)
    ensures
        match r {
            Some(v) => regex_matches(pattern@, text@) == Some(text::texts(v@)),
            None => regex_matches(pattern@, text@) is None,
        },
        r matches Some(v) ==> forall|i: int|
            0 <= i < v@.len() ==> text::has_text(text@, #[trigger] text::texts(v@)[i]),
        r matches Some(v) ==> pattern@ == TICKET_PATTERN@ ==> forall|i: int|
            0 <= i < v@.len() ==> starts_like_key(#[trigger] text::texts(v@)[i]),
{
    let re = regex::Regex::new(pattern).ok()?;
    Some(re.find_iter(text).map(|m| m.as_str().to_owned()).collect())
}

/// The texts of optional strings.
pub open spec fn opt_texts(v: Seq<Option<String>>) -> Seq<Option<Seq<char>>> {
    Seq::new(
        v.len(),
        |i: int|
            match v[i] {
                Some(s) => Some(s@),
                None => None,
            },
    )
}

/// `regex::Regex::new`, `regex::Regex::captures_iter` and
/// `regex::Captures::get`: what one capture group holds in each successive
/// match, named by `regex_groups`.
#[verifier::external_body]
fn find_groups(pattern: &str, group: usize, text: &str) -> (r: Option<Vec<Option<String>>>)
    ensures
        match r {
            Some(v) => regex_groups(pattern@, group as int, text@) == Some(opt_texts(v@)),
            None => regex_groups(pattern@, group as int, text@) is None,
        },
{
    let re = regex::Regex::new(pattern).ok()?;
    let found = re.captures_iter(text).map(|c| c.get(group).map(|m| m.as_str().to_owned()));
    Some(found.collect())
}

/// The matches of the ticket pattern in a text.
pub open spec fn keys_in(s: Seq<char>) -> Seq<Seq<char>> {
    match regex_matches(TICKET_PATTERN@, s) {
        Some(found) => found,
        None => Seq::empty(),
    }
}

/// The ticket keys in `text`, each once, in order.
pub fn extract(text: &str) -> (r: Vec<String>)
    ensures
        order::is_text_set(text::texts(r@), keys_in(text@)),
        forall|k: Seq<char>| #[trigger]
            text::texts(r@).contains(k) ==> text::has_text(text@, k) && starts_like_key(k),
{
    match find_all(TICKET_PATTERN, text) {
        None => {
            let out: Vec<String> = Vec::new();
            assert(text::texts(out@) =~= Seq::empty());
            out
        },
        Some(found) => {
            let out = order::text_set(&found);
            proof {
                let all = text::texts(found@);
                assert forall|k: Seq<char>| #[trigger]
                    text::texts(out@).contains(k) implies text::has_text(text@, k)
                    && starts_like_key(k) by {
                    assert(all.contains(k));
                    let i = choose|i: int| 0 <= i < all.len() && all[i] == k;
                    assert(text::has_text(text@, all[i]));
                    assert(starts_like_key(all[i]));
                }
            }
            out
        },
    }
}

/// The durations among bracketed texts: those that are readable and longer than
/// nothing.
pub open spec fn durations_in(inner: Seq<Option<Seq<char>>>) -> Seq<i64>
    decreases inner.len(),
{
    if inner.len() == 0 {
        Seq::empty()
    } else {
        let before = durations_in(inner.drop_last());
        match inner.last() {
            None => before,
            Some(t) => match hours::duration_of(t) {
                Some(h) if h > 0 => before.push(h),
                _ => before,
            },
        }
    }
}

/// The durations that stand in square brackets in a text.
pub open spec fn markers_in(s: Seq<char>) -> Seq<i64> {
    match regex_groups(BRACKET_PATTERN@, 1, s) {
        Some(inner) => durations_in(inner),
        None => Seq::empty(),
    }
}

/// The durations among bracketed texts.
pub fn marked_durations(inner: &Vec<Option<String>>) -> (r: Vec<i64>)
    ensures
        r@ == durations_in(opt_texts(inner@)),
{
    let mut out: Vec<i64> = Vec::new();
    let ghost all = opt_texts(inner@);
    for i in 0..inner.len()
        invariant
            all == opt_texts(inner@),
            out@ == durations_in(all.take(i as int)),
    {
        proof {
            assert(all.take(i + 1).drop_last() =~= all.take(i as int));
            assert(all.take(i + 1).last() == all[i as int]);
        }
        if let Some(t) = &inner[i] {
            if let Some(h) = hours::parse_duration(t.as_str()) {
                if h > 0 {
                    out.push(h);
                }
            }
        }
    }
    assert(all.take(inner@.len() as int) =~= all);
    out
}

/// The explicit durations of a commit message, such as `[2h]`, `[30m]` or
/// `[1h 15m]`. Anything else in brackets, such as `[TODO]`, is passed over.
pub fn extract_time_markers(text: &str) -> (r: Vec<i64>)
    ensures
        r@ == markers_in(text@),
        forall|i: int| 0 <= i < r@.len() ==> #[trigger] r@[i] > 0,
{
    match find_groups(BRACKET_PATTERN, 1, text) {
        None => Vec::new(),
        Some(inner) => {
            let out = marked_durations(&inner);
            proof {
                lemma_durations_positive(opt_texts(inner@));
            }
            out
        },
    }
}

proof fn lemma_durations_positive(inner: Seq<Option<Seq<char>>>)
    ensures
        forall|i: int| 0 <= i < durations_in(inner).len() ==> #[trigger] durations_in(inner)[i] > 0,
    decreases inner.len(),
{
    if inner.len() > 0 {
        lemma_durations_positive(inner.drop_last());
        let before = durations_in(inner.drop_last());
        let now = durations_in(inner);
        assert forall|i: int| 0 <= i < now.len() implies #[trigger] now[i] > 0 by {
            if i < before.len() {
                assert(now[i] == before[i]);
            }
        }
    }
}

/// Every marker is longer than nothing.
pub proof fn law_markers_are_longer_than_nothing(s: Seq<char>)
    ensures
        forall|i: int| 0 <= i < markers_in(s).len() ==> #[trigger] markers_in(s)[i] > 0,
{
    if let Some(inner) = regex_groups(BRACKET_PATTERN@, 1, s) {
        lemma_durations_positive(inner);
    }
}

/// A ticket key is a capital letter, at least one more capital or digit, a hyphen and
/// digits: the keys in a text are what this pattern matches there.
pub proof fn law_keys_have_one_shape(s: Seq<char>)
    ensures
        match regex_matches("[A-Z][A-Z0-9]+-\\d+"@, s) {
            Some(found) => keys_in(s) == found,
            None => keys_in(s).len() == 0,
        },
{
}

/// The markers of a text are the durations among what stands in square brackets there:
/// every readable one that is longer than nothing, in order, and nothing else.
pub proof fn law_markers_stand_in_brackets(s: Seq<char>)
    ensures
        match regex_groups("\\[([^\\]]+)\\]"@, 1, s) {
            Some(inner) => markers_in(s) == durations_in(inner),
            None => markers_in(s).len() == 0,
        },
{
}

/// The durations of one list of bracketed texts and then another are those of both, and
/// one text by itself is worth what it says, if that is more than nothing.
pub proof fn law_markers_count_one_by_one(
    a: Seq<Option<Seq<char>>>,
    b: Seq<Option<Seq<char>>>,
    t: Seq<char>,
)
    ensures
        durations_in(a + b) == durations_in(a) + durations_in(b),
        durations_in(Seq::empty()) == Seq::<i64>::empty(),
        durations_in(seq![None]) == Seq::<i64>::empty(),
        hours::duration_of(t) matches Some(h) && h > 0 ==> durations_in(seq![Some(t)]) == seq![
            hours::duration_of(t)->0,
        ],
        !(hours::duration_of(t) matches Some(h) && h > 0) ==> durations_in(seq![Some(t)]).len()
            == 0,
    decreases b.len(),
{
    let none: Seq<Option<Seq<char>>> = seq![None];
    let one = seq![Some(t)];
    assert(none.drop_last() =~= Seq::empty());
    assert(one.drop_last() =~= Seq::empty());
    reveal_with_fuel(durations_in, 2);
    assert(durations_in(one.drop_last()) =~= Seq::empty());
    if b.len() == 0 {
        assert(a + b =~= a);
        assert(durations_in(a) + durations_in(b) =~= durations_in(a));
    } else {
        law_markers_count_one_by_one(a, b.drop_last(), t);
        assert((a + b).drop_last() =~= a + b.drop_last());
        assert((a + b).last() == b.last());
        assert(durations_in(a + b) =~= durations_in(a) + durations_in(b));
    }
}

} // verus!
