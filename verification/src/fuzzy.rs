//! Finding repositories: which directories to look into, and which of the
//! repositories found match what the user types.

use vstd::prelude::*;

use crate::order;
use crate::text;

verus! {

/// How deep below a root the search goes.
pub const MAX_DEPTH: usize = 5;

/// Directories that hold no repositories of the user.
pub open spec fn skip_dirs() -> Seq<Seq<char>> {
    seq![
        ".git"@,
        ".svn"@,
        ".hg"@,
        "node_modules"@,
        "bower_components"@,
        "target"@,
        "dist"@,
        "build"@,
        "out"@,
        ".venv"@,
        "venv"@,
        "__pycache__"@,
        ".mypy_cache"@,
        ".pytest_cache"@,
        ".next"@,
        ".nuxt"@,
        ".cache"@,
        ".gradle"@,
        ".idea"@,
        ".vscode"@,
        ".cargo"@,
        ".rustup"@,
        ".npm"@,
        ".nvm"@,
        ".pyenv"@,
        ".rbenv"@,
        ".gem"@,
        "Library"@,
        "Applications"@,
        ".Trash"@,
    ]
}

fn skip_list() -> (r: Vec<String>)
    ensures
        text::texts(r@) == skip_dirs(),
{
    let mut out: Vec<String> = Vec::new();
    out.push(".git".to_owned());
    out.push(".svn".to_owned());
    out.push(".hg".to_owned());
    out.push("node_modules".to_owned());
    out.push("bower_components".to_owned());
    out.push("target".to_owned());
    out.push("dist".to_owned());
    out.push("build".to_owned());
    out.push("out".to_owned());
    out.push(".venv".to_owned());
    out.push("venv".to_owned());
    out.push("__pycache__".to_owned());
    out.push(".mypy_cache".to_owned());
    out.push(".pytest_cache".to_owned());
    out.push(".next".to_owned());
    out.push(".nuxt".to_owned());
    out.push(".cache".to_owned());
    out.push(".gradle".to_owned());
    out.push(".idea".to_owned());
    out.push(".vscode".to_owned());
    out.push(".cargo".to_owned());
    out.push(".rustup".to_owned());
    out.push(".npm".to_owned());
    out.push(".nvm".to_owned());
    out.push(".pyenv".to_owned());
    out.push(".rbenv".to_owned());
    out.push(".gem".to_owned());
    out.push("Library".to_owned());
    out.push("Applications".to_owned());
    out.push(".Trash".to_owned());
    assert(text::texts(out@) =~= skip_dirs());
    out
}

/// The search looks at an entry: a root in any case, and below it the directories
/// that are neither hidden nor on the list.
pub open spec fn is_entered(depth: int, is_dir: bool, name: Seq<char>) -> bool {
    depth == 0 || is_dir && !skip_dirs().contains(name) && !(name.len() > 0 && name[0] == '.')
}

/// Whether the search looks at an entry.
pub fn enters(depth: usize, is_dir: bool, name: &str) -> (r: bool)
    ensures
        r == is_entered(depth as int, is_dir, name@),
{
    if depth == 0 {
        return true;
    }
    if !is_dir || text::one_of(&skip_list(), name) {
        return false;
    }
    !(name.unicode_len() > 0 && name.get_char(0) == '.')
}

/// Whether an entry is a repository: a directory below a root that holds a
/// `.git`. The search goes no deeper there.
pub fn is_repository(depth: usize, is_dir: bool, has_git: bool) -> (r: bool)
    ensures
        r == (depth > 0 && is_dir && has_git),
{
    depth > 0 && is_dir && has_git
}

/// Directories below the home directory where repositories tend to be.
pub open spec fn usual_places() -> Seq<Seq<char>> {
    seq!["dev"@, "work"@, "projects"@, "code"@, "src"@, "Documents"@]
}

/// Directories below the home directory where repositories tend to be.
pub fn root_names() -> (r: Vec<String>)
    ensures
        text::texts(r@) == usual_places(),
{
    let mut out: Vec<String> = Vec::new();
    out.push("dev".to_owned());
    out.push("work".to_owned());
    out.push("projects".to_owned());
    out.push("code".to_owned());
    out.push("src".to_owned());
    out.push("Documents".to_owned());
    assert(text::texts(out@) =~= usual_places());
    out
}

/// Where to search: the usual places that were found, else the whole home
/// directory; nowhere without one.
pub fn default_roots(home: Option<String>, found: Vec<String>) -> (r: Vec<String>)
    ensures
        match home {
            None => r@.len() == 0,
            Some(h) => if found@.len() > 0 {
                r@ == found@
            } else {
                r@ == seq![h]
            },
        },
{
    match home {
        None => Vec::new(),
        Some(h) => {
            if found.len() > 0 {
                found
            } else {
                let mut out: Vec<String> = Vec::new();
                out.push(h);
                assert(out@ =~= seq![h]);
                out
            }
        },
    }
}

/// The longest word that can be scored: with 34 points for its first character and
/// 25 for each other one at most, its score fits in sixteen bits.
pub const LONGEST_WORD: usize = 2621;

/// The longest query: with 50 points at most for a character, as one may count
/// twice, and 9 more for a word, the sum of the scores fits in thirty-two bits.
pub const LONGEST_QUERY: usize = 85_899_344;

/// A blank ends a word, unless a backslash stands before it.
pub open spec fn ends_word(query: Seq<char>, i: int) -> bool {
    query[i] == ' ' && !(i > 0 && query[i - 1] == '\\')
}

/// The words of a query, empty ones too.
pub open spec fn words(query: Seq<char>) -> Seq<Seq<char>>
    decreases query.len(),
{
    if query.len() == 0 {
        seq![Seq::empty()]
    } else {
        let before = words(query.drop_last());
        if ends_word(query, query.len() - 1) {
            before.push(Seq::empty())
        } else {
            before.drop_last().push(before.last().push(query.last()))
        }
    }
}

/// How many characters a word can have for the matcher. A backslash may be read as
/// two where the word is not plain ASCII.
pub open spec fn room(word: Seq<char>, plain: bool) -> int
    decreases word.len(),
{
    if word.len() == 0 {
        0
    } else {
        room(word.drop_last(), plain) + if word.last() == '\\' && !plain {
            2int
        } else {
            1
        }
    }
}

pub open spec fn is_long(word: Seq<char>) -> bool {
    room(word, vstd::utf8::is_ascii_chars(word)) > LONGEST_WORD
}

/// A character that may stand for a plain letter with a mark, such as an `a` with
/// two dots: it lies where the matcher has a table of such letters.
pub open spec fn is_marked(c: char) -> bool {
    ||| '\u{c0}' <= c <= '\u{36f}'
    ||| '\u{1d00}' <= c <= '\u{1ef1}'
    ||| '\u{2071}' <= c <= '\u{2184}'
}

pub open spec fn has_marked(s: Seq<char>) -> bool {
    exists|i: int| 0 <= i < s.len() && is_marked(#[trigger] s[i])
}

/// `c` is another small form of `letter`, which stands for it where case does not
/// matter: the long s for s, or the sigma at the end of a word for the other one.
pub open spec fn is_variant(c: char, letter: char) -> bool {
    ||| c == '\u{b5}' && letter == '\u{3bc}'
    ||| c == '\u{17f}' && letter == 's'
    ||| c == '\u{345}' && letter == '\u{3b9}'
    ||| c == '\u{3c2}' && letter == '\u{3c3}'
    ||| c == '\u{3d0}' && letter == '\u{3b2}'
    ||| c == '\u{3d1}' && letter == '\u{3b8}'
    ||| c == '\u{3d5}' && letter == '\u{3c6}'
    ||| c == '\u{3d6}' && letter == '\u{3c0}'
    ||| c == '\u{3f0}' && letter == '\u{3ba}'
    ||| c == '\u{3f1}' && letter == '\u{3c1}'
    ||| c == '\u{3f5}' && letter == '\u{3b5}'
    ||| '\u{13f8}' <= c <= '\u{13fd}' && letter as int == c as int - 0x8
    ||| c == '\u{1c80}' && letter == '\u{432}'
    ||| c == '\u{1c81}' && letter == '\u{434}'
    ||| c == '\u{1c82}' && letter == '\u{43e}'
    ||| c == '\u{1c83}' && letter == '\u{441}'
    ||| c == '\u{1c84}' && letter == '\u{442}'
    ||| c == '\u{1c85}' && letter == '\u{442}'
    ||| c == '\u{1c86}' && letter == '\u{44a}'
    ||| c == '\u{1c87}' && letter == '\u{463}'
    ||| c == '\u{1c88}' && letter == '\u{a64b}'
    ||| c == '\u{1e9b}' && letter == '\u{1e61}'
    ||| c == '\u{1fbe}' && letter == '\u{3b9}'
    ||| '\u{ab70}' <= c <= '\u{abbf}' && letter as int == c as int - 0x97d0
}

/// `c` is `letter` or a capital of it, for a letter that has variants.
pub open spec fn is_form(c: char, letter: char) -> bool {
    ||| c == letter
    ||| c as int + 32 == letter as int
    ||| c as int + 1 == letter as int && (letter == '\u{463}' || letter == '\u{1e61}' || letter
        == '\u{a64b}')
    ||| c == '\u{3f4}' && letter == '\u{3b8}'
}

/// A letter stands in a path by itself: nothing can have joined it to what is in
/// front of it.
pub open spec fn stands_at(path: Seq<char>, i: int, letter: char) -> bool {
    path[i] == letter && (i == 0 || path[i - 1] <= '\u{7f}')
}

/// The first place of a letter in a path may be taken by a variant: one comes before
/// the letter itself, and a form of the letter after it.
pub open spec fn is_masked(path: Seq<char>, letter: char) -> bool {
    exists|i: int| #[trigger]
        masks(path, i, letter) && forall|j: int|
            0 <= j < i ==> !(#[trigger] stands_at(path, j, letter))
}

pub open spec fn masks(path: Seq<char>, i: int, letter: char) -> bool {
    &&& 0 <= i < path.len()
    &&& is_variant(path[i], letter)
    &&& exists|k: int| i < k < path.len() && is_form(#[trigger] path[k], letter)
}

/// The matcher can take a word and a path: the score of the word fits, or the path is
/// too short for it, and nothing masks its first letter if it has a marked one.
pub open spec fn can_take(word: Seq<char>, path: Seq<char>) -> bool {
    &&& is_long(word) ==> text::byte_length(path) <= LONGEST_WORD
    &&& word.len() > 1 && has_marked(word) ==> !is_masked(path, word[0])
}

/// The matcher can take a query and a path: no score and no size gets too large for
/// it, and it is nowhere at odds with itself on where a word starts.
pub open spec fn can_score(query: Seq<char>, path: Seq<char>) -> bool {
    &&& query.len() <= LONGEST_QUERY
    &&& text::byte_length(path) <= u32::MAX
    &&& text::byte_length(path) * LONGEST_WORD <= usize::MAX
    &&& forall|i: int| 0 <= i < words(query).len() ==> can_take(#[trigger] words(query)[i], path)
}

/// How well a path matches a query, on a system whose paths are separated by
/// slashes; nothing where it does not match.
pub uninterp spec fn fuzzy_score(query: Seq<char>, path: Seq<char>) -> Option<u32>;

/// `nucleo_matcher::pattern::Pattern::parse` and `Pattern::score`, with smart case
/// and normalization, by a `nucleo_matcher::Matcher` for paths: the score of a
/// path, named by `fuzzy_score`. What is left out may make it panic. It counts in
/// sixteen bits for a word and in thirty-two for a query, takes no path of more
/// than 2^32 - 1 characters, and multiplies the sizes of a word and a path. A word
/// that is longer than the path it does not look at. For a word with marked letters
/// it looks for the first letter with all letters of the path folded, but then folds
/// no small ones, and stops where that place is taken by a variant and the word is
/// found all the same.
#[verifier::external_body]
fn score(query: &str, path: &str) -> (r: Option<u32>)
    requires
        can_score(query@, path@),
    ensures
        r == fuzzy_score(query@, path@),
{
    let smart = nucleo_matcher::pattern::CaseMatching::Smart;
    let norm = nucleo_matcher::pattern::Normalization::Smart;
    let pattern = nucleo_matcher::pattern::Pattern::parse(query, smart, norm);
    let mut matcher = nucleo_matcher::Matcher::new(nucleo_matcher::Config::DEFAULT.match_paths());
    let mut buf = Vec::new();
    pattern.score(nucleo_matcher::Utf32Str::new(path, &mut buf), &mut matcher)
}

/// How well a path matches a query. One that the matcher cannot take does not
/// match.
pub open spec fn path_score(query: Seq<char>, path: Seq<char>) -> Option<u32> {
    if can_score(query, path) {
        fuzzy_score(query, path)
    } else {
        None
    }
}

fn split_words(query: &Vec<char>) -> (r: Vec<String>)
    ensures
        text::texts(r@) == words(query@),
{
    let mut done: Vec<String> = Vec::new();
    let mut word = String::new();
    assert(query@.take(0) =~= Seq::empty());
    assert(text::texts(done@).push(word@) =~= seq![Seq::empty()]);
    for i in 0..query.len()
        invariant
            text::texts(done@).push(word@) == words(query@.take(i as int)),
    {
        let ghost before = text::texts(done@);
        let ghost last = word@;
        proof {
            let s = query@.take(i + 1);
            assert(s.drop_last() =~= query@.take(i as int));
            assert(ends_word(s, i as int) == ends_word(query@, i as int));
            assert(before.push(last).drop_last() =~= before);
        }
        if query[i] == ' ' && !(i > 0 && query[i - 1] == '\\') {
            done.push(word);
            word = String::new();
            assert(text::texts(done@) =~= before.push(last));
            assert(word@ =~= Seq::empty());
        } else {
            word.push(query[i]);
        }
    }
    assert(query@.take(query@.len() as int) =~= query@);
    let ghost before = text::texts(done@);
    let ghost last = word@;
    done.push(word);
    assert(text::texts(done@) =~= before.push(last));
    done
}

fn long(word: &str) -> (r: bool)
    ensures
        r == is_long(word@),
{
    let plain = word.is_ascii();
    let chars = text::chars_of(word);
    let mut n: usize = 0;
    for i in 0..chars.len()
        invariant
            chars@ == word@,
            n <= LONGEST_WORD,
            n == room(chars@.take(i as int), plain),
            plain == vstd::utf8::is_ascii_chars(word@),
    {
        assert(chars@.take(i + 1).drop_last() =~= chars@.take(i as int));
        if chars[i] == '\\' && !plain {
            n += 2;
        } else {
            n += 1;
        }
        if n > LONGEST_WORD {
            proof {
                lemma_room_grows(word@, plain, i + 1);
            }
            return true;
        }
    }
    assert(chars@.take(chars@.len() as int) =~= chars@);
    false
}

proof fn lemma_room_grows(word: Seq<char>, plain: bool, n: int)
    requires
        0 <= n <= word.len(),
    ensures
        room(word.take(n), plain) <= room(word, plain),
    decreases word.len(),
{
    if n < word.len() {
        lemma_room_grows(word.drop_last(), plain, n);
        assert(word.drop_last().take(n) =~= word.take(n));
    } else {
        assert(word.take(n) =~= word);
    }
}

fn marked(s: &str) -> (r: bool)
    ensures
        r == has_marked(s@),
{
    let chars = text::chars_of(s);
    for i in 0..chars.len()
        invariant
            chars@ == s@,
            forall|j: int| 0 <= j < i ==> !is_marked(#[trigger] s@[j]),
    {
        let c = chars[i];
        if '\u{c0}' <= c && c <= '\u{36f}' || '\u{1d00}' <= c && c <= '\u{1ef1}' || '\u{2071}' <= c
            && c <= '\u{2184}' {
            assert(is_marked(s@[i as int]));
            return true;
        }
    }
    false
}

fn variant(c: char, letter: char) -> (r: bool)
    ensures
        r == is_variant(c, letter),
{
    let n: u32 = c as u32;
    let m: u32 = letter as u32;
    n == 0xb5 && m == 0x3bc || n == 0x17f && m == 0x73 || n == 0x345 && m == 0x3b9 || n == 0x3c2 && m
        == 0x3c3 || n == 0x3d0 && m == 0x3b2 || n == 0x3d1 && m == 0x3b8 || n == 0x3d5 && m == 0x3c6
        || n == 0x3d6 && m == 0x3c0 || n == 0x3f0 && m == 0x3ba || n == 0x3f1 && m == 0x3c1 || n
        == 0x3f5 && m == 0x3b5 || 0x13f8 <= n && n <= 0x13fd && m == n - 0x8 || n == 0x1c80 && m
        == 0x432 || n == 0x1c81 && m == 0x434 || n == 0x1c82 && m == 0x43e || n == 0x1c83 && m == 0x441
        || n == 0x1c84 && m == 0x442 || n == 0x1c85 && m == 0x442 || n == 0x1c86 && m == 0x44a || n
        == 0x1c87 && m == 0x463 || n == 0x1c88 && m == 0xa64b || n == 0x1e9b && m == 0x1e61 || n
        == 0x1fbe && m == 0x3b9 || 0xab70 <= n && n <= 0xabbf && m == n - 0x97d0
}

fn form(c: char, letter: char) -> (r: bool)
    ensures
        r == is_form(c, letter),
{
    let n: u32 = c as u32;
    let m: u32 = letter as u32;
    n == m || m >= 32 && n == m - 32 || m >= 1 && n == m - 1 && (m == 0x463 || m == 0x1e61 || m
        == 0xa64b) || n == 0x3f4 && m == 0x3b8
}

fn masked(path: &Vec<char>, letter: char) -> (r: bool)
    ensures
        r == is_masked(path@, letter),
{
    let n = path.len();
    let mut i: usize = 0;
    while i < n && !variant(path[i], letter)
        invariant
            i <= n,
            n == path@.len(),
            forall|j: int| 0 <= j < i ==> !is_variant(#[trigger] path@[j], letter),
            forall|j: int| 0 <= j < i ==> !(#[trigger] stands_at(path@, j, letter)),
        decreases n - i,
    {
        if path[i] == letter && (i == 0 || path[i - 1] <= '\u{7f}') {
            assert(stands_at(path@, i as int, letter));
            return false;
        }
        i += 1;
    }
    if i == n {
        return false;
    }
    let mut k: usize = i + 1;
    while k < n
        invariant
            i < k <= n,
            n == path@.len(),
            is_variant(path@[i as int], letter),
            forall|j: int| 0 <= j < i ==> !is_variant(#[trigger] path@[j], letter),
            forall|j: int| 0 <= j < i ==> !(#[trigger] stands_at(path@, j, letter)),
            forall|j: int| i < j < k ==> !is_form(#[trigger] path@[j], letter),
        decreases n - k,
    {
        if form(path[k], letter) {
            assert(is_form(path@[k as int], letter));
            assert(masks(path@, i as int, letter));
            return true;
        }
        k += 1;
    }
    false
}

/// Whether the matcher can take all words for a path.
fn takes(words: &Vec<String>, path: &str) -> (r: bool)
    ensures
        r == forall|i: int| 0 <= i < words@.len() ==> can_take(#[trigger] text::texts(words@)[i], path@),
{
    let size = path.len();
    let chars = text::chars_of(path);
    for i in 0..words.len()
        invariant
            chars@ == path@,
            size == text::byte_length(path@),
            forall|j: int| 0 <= j < i ==> can_take(#[trigger] text::texts(words@)[j], path@),
    {
        let word = words[i].as_str();
        assert(text::texts(words@)[i as int] == word@);
        if size > LONGEST_WORD && long(word) {
            assert(!can_take(word@, path@));
            return false;
        }
        if word.unicode_len() > 1 && marked(word) && masked(&chars, word.get_char(0)) {
            assert(!can_take(word@, path@));
            return false;
        }
    }
    true
}

/// The scores of paths.
fn score_all(query: &str, paths: &Vec<String>) -> (r: Vec<Option<u32>>)
    ensures
        r@ == path_scores(query@, text::texts(paths@)),
{
    let short = query.unicode_len() <= LONGEST_QUERY;
    let asked = split_words(&text::chars_of(query));
    let ghost all = path_scores(query@, text::texts(paths@));
    let mut out: Vec<Option<u32>> = Vec::new();
    for i in 0..paths.len()
        invariant
            short == (query@.len() <= LONGEST_QUERY),
            text::texts(asked@) == words(query@),
            all == path_scores(query@, text::texts(paths@)),
            out@ == all.take(i as int),
    {
        let path = paths[i].as_str();
        assert(text::texts(paths@)[i as int] == path@);
        let size: usize = path.len();
        let fits = size <= usize::MAX / LONGEST_WORD;
        proof {
            assert(fits == (size * LONGEST_WORD <= usize::MAX));
            assert(asked@.len() == words(query@).len());
        }
        let s = if short && (size as u64) <= (u32::MAX as u64) && fits && takes(&asked, path) {
            score(query, path)
        } else {
            None
        };
        out.push(s);
        assert(out@ =~= all.take(i + 1));
    }
    assert(all.take(paths@.len() as int) =~= all);
    out
}

pub open spec fn path_scores(query: Seq<char>, paths: Seq<Seq<char>>) -> Seq<Option<u32>> {
    Seq::new(paths.len(), |i: int| path_score(query, paths[i]))
}

/// The positions of the scores that there are.
pub open spec fn scored(scores: Seq<Option<u32>>) -> Seq<usize>
    decreases scores.len(),
{
    if scores.len() == 0 {
        Seq::empty()
    } else if scores.last() is Some {
        scored(scores.drop_last()).push((scores.len() - 1) as usize)
    } else {
        scored(scores.drop_last())
    }
}

/// `a` scores better than `b`, or equally well and was found earlier.
pub open spec fn outranks(scores: Seq<Option<u32>>, a: int, b: int) -> bool {
    scores[a]->0 > scores[b]->0 || scores[a] == scores[b] && a < b
}

/// `r` are the positions of the best `limit` scores, the best one first.
pub open spec fn is_ranking(scores: Seq<Option<u32>>, limit: int, r: Seq<usize>) -> bool {
    &&& forall|i: int|
        0 <= i < r.len() ==> 0 <= #[trigger] r[i] < scores.len() && scores[r[i] as int] is Some
    &&& forall|i: int, j: int|
        0 <= i < j < r.len() ==> outranks(scores, #[trigger] r[i] as int, #[trigger] r[j] as int)
    &&& r.len() <= limit
    &&& r.len() < limit ==> forall|k: int|
        0 <= k < scores.len() && (#[trigger] scores[k]) is Some ==> r.contains(k as usize)
    &&& forall|k: int, i: int|
        0 <= k < scores.len() && 0 <= i < r.len() && (#[trigger] scores[k]) is Some && !r.contains(
            k as usize,
        ) ==> outranks(scores, #[trigger] r[i] as int, k)
}

proof fn lemma_scored(scores: Seq<Option<u32>>)
    requires
        scores.len() <= usize::MAX,
    ensures
        forall|i: int|
            0 <= i < scored(scores).len() ==> #[trigger] scored(scores)[i] < scores.len()
                && scores[scored(scores)[i] as int] is Some,
        forall|i: int, j: int|
            0 <= i < j < scored(scores).len() ==> #[trigger] scored(scores)[i]
                < #[trigger] scored(scores)[j],
        forall|k: int|
            0 <= k < scores.len() && (#[trigger] scores[k]) is Some ==> scored(scores).contains(
                k as usize,
            ),
    decreases scores.len(),
{
    if scores.len() > 0 {
        let rest = scores.drop_last();
        lemma_scored(rest);
        assert forall|k: int| 0 <= k < scores.len() && (#[trigger] scores[k]) is Some implies scored(
            scores,
        ).contains(k as usize) by {
            if k < rest.len() {
                assert(rest[k] is Some);
                let i = choose|i: int| 0 <= i < scored(rest).len() && scored(rest)[i] == k as usize;
                assert(scored(scores)[i] == k as usize);
            } else {
                assert(scored(scores)[scored(rest).len() as int] == k as usize);
            }
        }
        assert forall|i: int| 0 <= i < scored(scores).len() implies #[trigger] scored(scores)[i]
            < scores.len() && scores[scored(scores)[i] as int] is Some by {
            if i < scored(rest).len() {
                assert(scored(rest)[i] < rest.len());
                assert(rest[scored(rest)[i] as int] is Some);
            }
        }
    }
}

fn scored_positions(scores: &Vec<Option<u32>>) -> (r: Vec<usize>)
    ensures
        r@ == scored(scores@),
{
    let mut out: Vec<usize> = Vec::new();
    for i in 0..scores.len()
        invariant
            out@ == scored(scores@.take(i as int)),
    {
        proof {
            assert(scores@.take(i + 1).drop_last() =~= scores@.take(i as int));
            assert(scores@.take(i + 1).last() == scores@[i as int]);
        }
        if scores[i].is_some() {
            out.push(i);
        }
    }
    assert(scores@.take(scores@.len() as int) =~= scores@);
    out
}

/// The positions of the best `limit` scores, the best one first; of equal scores
/// the one that was found first.
pub fn rank(scores: &Vec<Option<u32>>, limit: usize) -> (r: Vec<usize>)
    ensures
        is_ranking(scores@, limit as int, r@),
{
    let at = scored_positions(scores);
    let whole = scores.len();
    proof {
        assert(whole == scores@.len());
        lemma_scored(scores@);
    }
    let mut keys: Vec<i64> = Vec::new();
    for i in 0..at.len()
        invariant
            at@ == scored(scores@),
            forall|i: int|
                0 <= i < at@.len() ==> #[trigger] at@[i] < scores@.len()
                    && scores@[at@[i] as int] is Some,
            keys@.len() == i,
            forall|j: int| 0 <= j < i ==> #[trigger] keys@[j] == -(scores@[at@[j] as int]->0),
    {
        let s: u32 = match scores[at[i]] {
            Some(s) => s,
            None => 0,
        };
        keys.push(-(s as i64));
    }
    let order = order::stable_order(&keys);
    let n: usize = if order.len() < limit {
        order.len()
    } else {
        limit
    };
    let mut out: Vec<usize> = Vec::new();
    for i in 0..n
        invariant
            n <= order@.len(),
            order::is_stable_order(keys@, order@),
            keys@.len() == at@.len(),
            out@.len() == i,
            forall|j: int| 0 <= j < i ==> #[trigger] out@[j] == at@[order@[j] as int],
    {
        out.push(at[order[i]]);
    }
    proof {
        let ks = keys@;
        assert forall|i: int, j: int| 0 <= i < j < order@.len() implies outranks(
            scores@,
            at@[#[trigger] order@[i] as int] as int,
            at@[#[trigger] order@[j] as int] as int,
        ) by {
            let a = order@[i] as int;
            let b = order@[j] as int;
            assert(order::ranks_before(ks, a, b));
            assert(ks[a] == -(scores@[at@[a] as int]->0));
            assert(ks[b] == -(scores@[at@[b] as int]->0));
            if a < b {
                assert(at@[a] < at@[b]);
            }
        }
        assert forall|k: int| 0 <= k < scores@.len() && (#[trigger] scores@[k]) is Some implies exists|
            m: int,
        | 0 <= m < order@.len() && at@[#[trigger] order@[m] as int] == k as usize by {
            assert(at@.contains(k as usize));
            let p = choose|p: int| 0 <= p < at@.len() && at@[p] == k as usize;
            assert(order@.contains(p as usize));
            let m = choose|m: int| 0 <= m < order@.len() && order@[m] == p as usize;
            assert(at@[order@[m] as int] == k as usize);
        }
        assert forall|k: int| 0 <= k < scores@.len() && (#[trigger] scores@[k]) is Some && n
            == order@.len() implies out@.contains(k as usize) by {
            let m = choose|m: int|
                0 <= m < order@.len() && at@[#[trigger] order@[m] as int] == k as usize;
            assert(out@[m] == k as usize);
        }
        assert forall|k: int, i: int|
            0 <= k < scores@.len() && 0 <= i < out@.len() && (#[trigger] scores@[k]) is Some
                && !out@.contains(k as usize) implies outranks(
            scores@,
            #[trigger] out@[i] as int,
            k,
        ) by {
            let m = choose|m: int|
                0 <= m < order@.len() && at@[#[trigger] order@[m] as int] == k as usize;
            if m < n {
                assert(out@[m] == k as usize);
            }
            let a = order@[i] as int;
            let b = order@[m] as int;
            assert(outranks(scores@, at@[a] as int, at@[b] as int));
        }
    }
    out
}

/// The repositories that were found so far.
pub struct FuzzyIndex {
    pub paths: Vec<String>,
    /// Whether the search is over.
    pub finished: bool,
}

/// `r` are the best `limit` matches among the paths, the best one first; without a
/// query the paths that were found first.
pub open spec fn is_search(
    paths: Seq<String>,
    query: Seq<char>,
    limit: int,
    r: Seq<String>,
) -> bool {
    if query.len() == 0 {
        r == paths.take(if paths.len() < limit {
            paths.len() as int
        } else {
            limit
        })
    } else {
        exists|at: Seq<usize>|
            #[trigger] is_ranking(path_scores(query, text::texts(paths)), limit, at) && picks(
                paths,
                at,
                r,
            )
    }
}

/// `r` are the paths at the positions `at`.
pub open spec fn picks(paths: Seq<String>, at: Seq<usize>, r: Seq<String>) -> bool {
    &&& r.len() == at.len()
    &&& forall|i: int| 0 <= i < at.len() ==> #[trigger] r[i] == paths[at[i] as int]
}

impl FuzzyIndex {
    /// An index for a search that has just begun.
    pub fn new() -> (r: Self)
        ensures
            r.paths@.len() == 0,
            !r.finished,
    {
        FuzzyIndex { paths: Vec::new(), finished: false }
    }

    /// Takes in what was found since the last time, and whether that was all.
    pub fn drain(&mut self, found: Vec<String>, over: bool)
        ensures
            final(self).paths@ == old(self).paths@ + found@,
            final(self).finished == (old(self).finished || over),
    {
        let mut found = found;
        self.paths.append(&mut found);
        if over {
            self.finished = true;
        }
    }

    /// Whether the search is over.
    pub fn done(&self) -> (r: bool)
        ensures
            r == self.finished,
    {
        self.finished
    }

    /// How many repositories were found.
    pub fn len(&self) -> (r: usize)
        ensures
            r == self.paths@.len(),
    {
        self.paths.len()
    }

    /// The repositories that match best.
    pub fn search(&self, query: &str, limit: usize) -> (r: Vec<String>)
        ensures
            is_search(self.paths@, query@, limit as int, r@),
    {
        let n = self.paths.len();
        let asked = query.unicode_len();
        let mut out: Vec<String> = Vec::new();
        if asked == 0 {
            let m: usize = if n < limit {
                n
            } else {
                limit
            };
            for i in 0..m
                invariant
                    m <= self.paths@.len(),
                    out@ == self.paths@.take(i as int),
            {
                out.push(self.paths[i].clone());
                assert(self.paths@.take(i + 1) =~= self.paths@.take(i as int).push(
                    self.paths@[i as int],
                ));
            }
            return out;
        }
        let scores = score_all(query, &self.paths);
        let at = rank(&scores, limit);
        for i in 0..at.len()
            invariant
                scores@.len() == self.paths@.len(),
                is_ranking(scores@, limit as int, at@),
                out@.len() == i,
                forall|j: int| 0 <= j < i ==> #[trigger] out@[j] == self.paths@[at@[j] as int],
        {
            out.push(self.paths[at[i]].clone());
        }
        assert(picks(self.paths@, at@, out@));
        out
    }
}

/// There is one ranking: of two positions the better one comes first, and what is
/// left out is worse than all that is in.
pub proof fn law_ranking_is_unique(
    scores: Seq<Option<u32>>,
    limit: int,
    a: Seq<usize>,
    b: Seq<usize>,
)
    requires
        is_ranking(scores, limit, a),
        is_ranking(scores, limit, b),
        scores.len() <= usize::MAX,
    ensures
        a == b,
{
    if a.len() <= b.len() {
        lemma_ranking_prefix(scores, limit, a, b, a.len() as int);
        assert(a.take(a.len() as int) =~= a);
        lemma_ranking_same_length(scores, limit, a, b);
        assert(b.take(b.len() as int) =~= b);
    } else {
        lemma_ranking_prefix(scores, limit, b, a, b.len() as int);
        assert(b.take(b.len() as int) =~= b);
        lemma_ranking_same_length(scores, limit, b, a);
    }
}

proof fn lemma_ranking_prefix(
    scores: Seq<Option<u32>>,
    limit: int,
    a: Seq<usize>,
    b: Seq<usize>,
    n: int,
)
    requires
        is_ranking(scores, limit, a),
        is_ranking(scores, limit, b),
        scores.len() <= usize::MAX,
        0 <= n <= a.len() <= b.len(),
    ensures
        a.take(n) == b.take(n),
    decreases n,
{
    if n > 0 {
        lemma_ranking_prefix(scores, limit, a, b, n - 1);
        let x = a[n - 1];
        let y = b[n - 1];
        assert(scores[x as int] is Some && scores[y as int] is Some);
        if x != y {
            lemma_first_difference(scores, limit, a, b, n - 1);
            lemma_first_difference(scores, limit, b, a, n - 1);
        }
        assert(a.take(n) =~= a.take(n - 1).push(x));
        assert(b.take(n) =~= b.take(n - 1).push(y));
    }
}

proof fn lemma_first_difference(
    scores: Seq<Option<u32>>,
    limit: int,
    a: Seq<usize>,
    b: Seq<usize>,
    i: int,
)
    requires
        is_ranking(scores, limit, a),
        is_ranking(scores, limit, b),
        0 <= i < a.len(),
        i < b.len(),
        a.take(i) == b.take(i),
        a[i] != b[i],
    ensures
        outranks(scores, a[i] as int, b[i] as int),
{
    let y = b[i] as int;
    assert(scores[y] is Some);
    if a.contains(y as usize) {
        let j = choose|j: int| 0 <= j < a.len() && a[j] == y as usize;
        if j < i {
            assert(a.take(i)[j] == a[j]);
            assert(b.take(i)[j] == b[j]);
            assert(outranks(scores, b[j] as int, b[i] as int));
        }
        assert(outranks(scores, a[i] as int, a[j] as int));
    } else {
        assert(outranks(scores, a[i] as int, y));
    }
}

proof fn lemma_ranking_same_length(
    scores: Seq<Option<u32>>,
    limit: int,
    a: Seq<usize>,
    b: Seq<usize>,
)
    requires
        is_ranking(scores, limit, a),
        is_ranking(scores, limit, b),
        scores.len() <= usize::MAX,
        a.len() <= b.len(),
        a == b.take(a.len() as int),
    ensures
        a.len() == b.len(),
{
    if a.len() < b.len() {
        let y = b[a.len() as int];
        assert(scores[y as int] is Some);
        assert(a.contains((y as int) as usize));
        let j = choose|j: int| 0 <= j < a.len() && a[j] == y;
        assert(b.take(a.len() as int)[j] == b[j]);
        assert(outranks(scores, b[j] as int, b[a.len() as int] as int));
    }
}

/// A search without a query offers what was found first.
pub proof fn law_without_a_query_all_are_offered(
    paths: Seq<String>,
    query: Seq<char>,
    limit: int,
    r: Seq<String>,
    i: int,
)
    requires
        is_search(paths, query, limit, r),
        query.len() == 0,
        limit >= 0,
    ensures
        paths.len() <= limit ==> r == paths,
        paths.len() > limit ==> r.len() == limit,
        0 <= i < r.len() ==> r[i] == paths[i],
{
    assert(paths.take(paths.len() as int) =~= paths);
}

/// A search offers paths that match, each once, the better ones first, and of those that match
/// equally well the one that was found first. Where there is room every match is offered, and no
/// match that is left out is better than one that is offered.
pub proof fn law_searches_offer_the_best(
    paths: Seq<String>,
    query: Seq<char>,
    limit: int,
    r: Seq<String>,
) -> (at: Seq<usize>)
    requires
        is_search(paths, query, limit, r),
        query.len() > 0,
        paths.len() <= usize::MAX,
    ensures
        r.len() == at.len(),
        r.len() <= limit,
        at.no_duplicates(),
        forall|i: int|
            0 <= i < r.len() ==> (#[trigger] at[i]) < paths.len() && r[i] == paths[at[i] as int]
                && path_score(query, paths[at[i] as int]@) is Some,
        forall|i: int, j: int|
            0 <= i < j < r.len() ==> {
                let x = path_score(query, paths[#[trigger] at[i] as int]@)->0;
                let y = path_score(query, paths[#[trigger] at[j] as int]@)->0;
                x > y || x == y && at[i] < at[j]
            },
        forall|k: int|
            0 <= k < paths.len() && path_score(query, (#[trigger] paths[k])@) is Some
                && !at.contains(k as usize) ==> r.len() == limit && forall|i: int|
                0 <= i < r.len() ==> path_score(query, paths[#[trigger] at[i] as int]@)->0
                    >= path_score(query, paths[k]@)->0,
{
    let texts = text::texts(paths);
    let scores = path_scores(query, texts);
    let at = choose|at: Seq<usize>|
        #[trigger] is_ranking(scores, limit, at) && picks(paths, at, r);
    assert forall|k: int| 0 <= k < paths.len() implies #[trigger] scores[k] == path_score(
        query,
        paths[k]@,
    ) by {
        assert(texts[k] == paths[k]@);
    }
    assert forall|i: int| 0 <= i < r.len() implies (#[trigger] at[i]) < paths.len() && r[i]
        == paths[at[i] as int] && path_score(query, paths[at[i] as int]@) is Some by {
        assert(scores[at[i] as int] is Some);
    }
    assert forall|i: int, j: int| 0 <= i < j < r.len() implies {
        let x = path_score(query, paths[#[trigger] at[i] as int]@)->0;
        let y = path_score(query, paths[#[trigger] at[j] as int]@)->0;
        x > y || x == y && at[i] < at[j]
    } by {
        assert(outranks(scores, at[i] as int, at[j] as int));
    }
    assert forall|i: int, j: int| 0 <= i < at.len() && 0 <= j < at.len() && i != j implies at[i]
        != at[j] by {
        if i < j {
            assert(outranks(scores, at[i] as int, at[j] as int));
        } else {
            assert(outranks(scores, at[j] as int, at[i] as int));
        }
    }
    assert forall|k: int|
        0 <= k < paths.len() && path_score(query, (#[trigger] paths[k])@) is Some && !at.contains(
            k as usize,
        ) implies r.len() == limit && forall|i: int|
        0 <= i < r.len() ==> path_score(query, paths[#[trigger] at[i] as int]@)->0 >= path_score(
            query,
            paths[k]@,
        )->0 by {
        assert(scores[k] is Some);
        assert forall|i: int| 0 <= i < r.len() implies path_score(
            query,
            paths[#[trigger] at[i] as int]@,
        )->0 >= path_score(query, paths[k]@)->0 by {
            assert(outranks(scores, at[i] as int, k));
        }
    }
    at
}

/// The words of a query stand between blanks.
pub proof fn law_words_stand_between_blanks(a: Seq<char>, b: Seq<char>)
    requires
        a.len() > 0 ==> a.last() != '\\',
    ensures
        words(a + seq![' '] + b) == words(a) + words(b),
        !a.contains(' ') ==> words(a) == seq![a],
    decreases b.len(),
{
    lemma_words_some(a);
    lemma_words_some(b);
    let start = a + seq![' '];
    let all = start + b;
    if b.len() == 0 {
        assert(all =~= start);
        assert(start.drop_last() =~= a);
        assert(words(all) =~= words(a) + words(b));
    } else {
        let init = b.drop_last();
        law_words_stand_between_blanks(a, init);
        lemma_words_some(init);
        assert(all.drop_last() =~= start + init);
        assert(all.last() == b.last());
        assert(ends_word(all, all.len() - 1) == ends_word(b, b.len() - 1)) by {
            if b.len() >= 2 {
                assert(all[all.len() - 2] == b[b.len() - 2]);
            } else {
                assert(all[all.len() - 2] == ' ');
            }
        }
        let before = words(a) + words(init);
        assert(before.drop_last() =~= words(a) + words(init).drop_last());
        assert(words(all) =~= words(a) + words(b));
    }
    if !a.contains(' ') {
        lemma_one_word(a);
    }
}

proof fn lemma_words_some(query: Seq<char>)
    ensures
        words(query).len() > 0,
    decreases query.len(),
{
    if query.len() > 0 {
        lemma_words_some(query.drop_last());
    }
}

proof fn lemma_one_word(a: Seq<char>)
    requires
        !a.contains(' '),
    ensures
        words(a) == seq![a],
    decreases a.len(),
{
    if a.len() == 0 {
        assert(a =~= Seq::empty());
        assert(words(a) =~= seq![a]);
    } else {
        let init = a.drop_last();
        assert(!init.contains(' ')) by {
            if init.contains(' ') {
                let i = choose|i: int| 0 <= i < init.len() && init[i] == ' ';
                assert(a[i] == ' ');
            }
        }
        assert(a[a.len() - 1] != ' ');
        lemma_one_word(init);
        assert(init.push(a.last()) =~= a);
        assert(words(a) =~= seq![a]);
    }
}

proof fn lemma_words_plain(query: Seq<char>)
    requires
        forall|i: int| 0 <= i < query.len() ==> (#[trigger] query[i]) <= '\u{7f}',
    ensures
        forall|k: int|
            #![trigger words(query)[k]]
            0 <= k < words(query).len() ==> words(query)[k].len() <= query.len() && forall|i: int|
                0 <= i < words(query)[k].len() ==> (#[trigger] words(query)[k][i]) <= '\u{7f}',
    decreases query.len(),
{
    if query.len() > 0 {
        let init = query.drop_last();
        assert forall|i: int| 0 <= i < init.len() implies (#[trigger] init[i]) <= '\u{7f}' by {
            assert(init[i] == query[i]);
        }
        lemma_words_plain(init);
        lemma_words_some(init);
        let before = words(init);
        let all = words(query);
        assert(query[query.len() - 1] <= '\u{7f}');
        assert forall|k: int|
            #![trigger all[k]]
            0 <= k < all.len() implies all[k].len() <= query.len() && forall|i: int|
            0 <= i < all[k].len() ==> (#[trigger] all[k][i]) <= '\u{7f}' by {
            if k < before.len() {
                let was = before[k];
                assert forall|i: int| 0 <= i < all[k].len() implies (#[trigger] all[k][i])
                    <= '\u{7f}' by {
                    if i < was.len() {
                        assert(before[k][i] <= '\u{7f}');
                        assert(all[k][i] == was[i]);
                    }
                }
            }
        }
    }
}

proof fn lemma_room_plain(word: Seq<char>)
    ensures
        room(word, true) == word.len(),
    decreases word.len(),
{
    if word.len() > 0 {
        lemma_room_plain(word.drop_last());
    }
}

/// An ordinary query, of ASCII characters and not over long, is held against an ordinary path
/// by the matcher.
pub proof fn law_ordinary_queries_are_scored(query: Seq<char>, path: Seq<char>)
    requires
        forall|i: int| 0 <= i < query.len() ==> (#[trigger] query[i]) <= '\u{7f}',
        query.len() <= 2621,
        text::byte_length(path) <= 65536,
    ensures
        path_score(query, path) == fuzzy_score(query, path),
{
    lemma_words_plain(query);
    assert(text::byte_length(path) * LONGEST_WORD <= usize::MAX) by (nonlinear_arith)
        requires
            text::byte_length(path) <= 65536,
            LONGEST_WORD == 2621,
            usize::MAX >= 0xffff_ffff,
    ;
    assert forall|k: int| 0 <= k < words(query).len() implies can_take(
        #[trigger] words(query)[k],
        path,
    ) by {
        let word = words(query)[k];
        assert(vstd::utf8::is_ascii_chars(word)) by {
            assert forall|i| 0 <= i < word.len() implies '\0' <= #[trigger] word[i] <= '\u{7f}' by {
                assert(words(query)[k][i] <= '\u{7f}');
                text::lemma_plain_char(word[i]);
            }
        }
        lemma_room_plain(word);
        assert(!has_marked(word)) by {
            if has_marked(word) {
                let i = choose|i: int| 0 <= i < word.len() && is_marked(#[trigger] word[i]);
                assert(words(query)[k][i] <= '\u{7f}');
            }
        }
    }
}

/// The search enters a root whatever it is; below it, only directories, and none that is hidden
/// or on the list.
pub proof fn law_hidden_directories_are_not_entered(
    depth: int,
    is_dir: bool,
    name: Seq<char>,
)
    ensures
        is_entered(0, is_dir, name),
        depth > 0 && !is_dir ==> !is_entered(depth, is_dir, name),
        depth > 0 && name.len() > 0 && name[0] == '.' ==> !is_entered(depth, is_dir, name),
        depth > 0 && name == "node_modules"@ ==> !is_entered(depth, is_dir, name),
        depth > 0 && name == "target"@ ==> !is_entered(depth, is_dir, name),
        depth > 0 && is_dir && name.len() > 0 && name[0] != '.' && (forall|i: int|
            0 <= i < skip_dirs().len() ==> (#[trigger] skip_dirs()[i]) != name) ==> is_entered(
            depth,
            is_dir,
            name,
        ),
{
    let dirs = skip_dirs();
    assert(dirs[3] == "node_modules"@);
    assert(dirs[5] == "target"@);
}

} // verus!
