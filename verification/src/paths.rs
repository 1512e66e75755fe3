//! Paths as the user types and sees them.

use vstd::prelude::*;

use crate::text;

verus! {

/// A path that was typed in.
#[derive(Debug)]
pub enum TypedPath {
    /// Relative to the home directory.
    UnderHome(String),
    Plain(String),
}

/// What a typed path stands for: one that starts with `~/` is below the home
/// directory, if there is one.
pub fn expand_tilde(raw: &str, has_home: bool) -> (r: TypedPath)
    ensures
        match r {
            TypedPath::UnderHome(rest) => has_home && text::occurs_at(raw@, "~/"@, 0) && rest@
                == raw@.skip(2),
            TypedPath::Plain(path) => !(has_home && text::occurs_at(raw@, "~/"@, 0)) && path@
                == raw@,
        },
{
    if has_home && text::starts_with_text(raw, "~/") {
        proof {
            reveal_strlit("~/");
        }
        let n = raw.unicode_len();
        let rest = raw.substring_char(2, n);
        assert(rest@ =~= raw@.skip(2));
        return TypedPath::UnderHome(rest.to_owned());
    }
    TypedPath::Plain(raw.to_owned())
}

/// The one way in which all paths with the same parts can be written, on a system
/// whose paths are separated by slashes.
pub uninterp spec fn path_form(path: Seq<char>) -> Seq<char>;

/// `std::path::Path::components`, joined to a path again: the parts of a path,
/// without repeated separators, those at the end, and dots in the middle, named by
/// `path_form`. Paths are equal in `std` where their parts are.
#[verifier::external_body]
pub(crate) fn form_of(path: &str) -> (r: String)
    ensures
        r@ == path_form(path@),
{
    let parts: std::path::PathBuf = std::path::Path::new(path).components().collect();
    parts.to_string_lossy().into_owned()
}

/// Two paths have the same parts.
pub open spec fn same_path(a: Seq<char>, b: Seq<char>) -> bool {
    path_form(a) == path_form(b)
}

/// The forms of paths.
pub open spec fn path_forms(paths: Seq<Seq<char>>) -> Seq<Seq<char>> {
    Seq::new(paths.len(), |i: int| path_form(paths[i]))
}

/// One of the paths has the same parts as `path`.
pub open spec fn holds_path(paths: Seq<Seq<char>>, path: Seq<char>) -> bool {
    path_forms(paths).contains(path_form(path))
}

/// The forms of paths.
pub fn forms_of(paths: &Vec<String>) -> (r: Vec<String>)
    ensures
        text::texts(r@) == path_forms(text::texts(paths@)),
{
    let mut out: Vec<String> = Vec::new();
    let ghost all = path_forms(text::texts(paths@));
    for i in 0..paths.len()
        invariant
            all == path_forms(text::texts(paths@)),
            text::texts(out@) == all.take(i as int),
    {
        let ghost before = text::texts(out@);
        let form = form_of(paths[i].as_str());
        let ghost last = form@;
        out.push(form);
        assert(text::texts(paths@)[i as int] == paths@[i as int]@);
        assert(text::texts(out@) =~= before.push(last));
        assert(all.take(i + 1) =~= before.push(last));
    }
    assert(all.take(paths@.len() as int) =~= all);
    out
}

/// Lists of the same paths have the same forms, whatever their order.
pub proof fn lemma_forms_multiset(a: Seq<Seq<char>>, b: Seq<Seq<char>>)
    requires
        a.to_multiset() == b.to_multiset(),
    ensures
        path_forms(a).to_multiset() == path_forms(b).to_multiset(),
    decreases a.len(),
{
    vstd::seq_lib::to_multiset_len(a);
    vstd::seq_lib::to_multiset_len(b);
    if a.len() == 0 {
        assert(path_forms(a) =~= path_forms(b));
    } else {
        let n = a.len() - 1;
        let x = a[n];
        vstd::seq_lib::to_multiset_contains(a, x);
        vstd::seq_lib::to_multiset_contains(b, x);
        let j = choose|j: int| 0 <= j < b.len() && b[j] == x;
        vstd::seq_lib::to_multiset_remove(a, n);
        vstd::seq_lib::to_multiset_remove(b, j);
        lemma_forms_multiset(a.remove(n), b.remove(j));
        assert(path_forms(a.remove(n)) =~= path_forms(a).remove(n));
        assert(path_forms(b.remove(j)) =~= path_forms(b).remove(j));
        vstd::seq_lib::to_multiset_insert(path_forms(a).remove(n), n, path_form(x));
        vstd::seq_lib::to_multiset_insert(path_forms(b).remove(j), j, path_form(x));
        assert(path_forms(a).remove(n).insert(n, path_form(x)) =~= path_forms(a));
        assert(path_forms(b).remove(j).insert(j, path_form(x)) =~= path_forms(b));
    }
}

/// Whether a path is that of a repository: it exists, and holds a `.git` or, where
/// the repository has no working tree, a `HEAD`.
pub fn validate_repo(path: &str, present: bool, has_git: bool, has_head: bool) -> (r: Result<
    (),
    String,
>)
    ensures
        match r {
            Ok(()) => present && (has_git || has_head),
            Err(e) => if present {
                !has_git && !has_head && e@ == "not a git repo: "@ + path@
            } else {
                e@ == "path does not exist: "@ + path@
            },
        },
{
    if !present {
        let mut e = "path does not exist: ".to_owned();
        e.append(path);
        return Err(e);
    }
    if !has_git && !has_head {
        let mut e = "not a git repo: ".to_owned();
        e.append(path);
        return Err(e);
    }
    Ok(())
}

/// The end of a text, in so many characters; dots stand for what is left out.
pub open spec fn end_of_text(s: Seq<char>, max: int) -> Seq<char> {
    if max == 0 {
        Seq::empty()
    } else if s.len() <= max {
        s
    } else if max <= 3 {
        "..."@
    } else {
        "..."@ + s.skip(s.len() - (max - 3))
    }
}

/// The end of a text that is too long, with dots for what is left out.
pub fn truncate_left(s: &str, max: usize) -> (r: String)
    ensures
        r@ == end_of_text(s@, max as int),
{
    if max == 0 {
        return String::new();
    }
    let n = s.unicode_len();
    if n <= max {
        return s.to_owned();
    }
    let kept: usize = if max > 3 {
        max - 3
    } else {
        0
    };
    let tail = s.substring_char(n - kept, n);
    assert(tail@ =~= s@.skip(n - kept));
    let mut out = "...".to_owned();
    out.append(tail);
    assert(out@ =~= end_of_text(s@, max as int));
    out
}

/// A text that is cut keeps to the width it is given, if that has room for the
/// dots, and ends as the whole does.
pub proof fn law_cut_text_fits(s: Seq<char>, max: int)
    requires
        max >= 3,
    ensures
        end_of_text(s, max).len() <= max,
        s.len() > max ==> end_of_text(s, max).len() == max && end_of_text(s, max).skip(3) == s.skip(
            s.len() - (max - 3),
        ),
{
    reveal_strlit("...");
    if s.len() > max {
        assert(end_of_text(s, max).skip(3) =~= s.skip(s.len() - (max - 3)));
    }
}

/// A text that has room is not cut. One that is cut starts with three dots.
pub proof fn law_text_is_cut_only_for_room(s: Seq<char>, max: int)
    requires
        max >= 0,
    ensures
        s.len() <= max ==> end_of_text(s, max) == s,
        s.len() > max && max >= 3 ==> end_of_text(s, max).take(3) == "..."@,
        max == 0 ==> end_of_text(s, max).len() == 0,
{
    reveal_strlit("...");
    if s.len() > max && max >= 3 {
        assert(end_of_text(s, max).take(3) =~= "..."@);
    }
    if max == 0 && s.len() == 0 {
        assert(end_of_text(s, max) =~= s);
    }
}

/// A list holds a path if one of its own has the same parts, and only then.
pub proof fn law_lists_hold_paths_by_their_parts(paths: Seq<Seq<char>>, path: Seq<char>, i: int)
    ensures
        0 <= i < paths.len() && path_form(paths[i]) == path_form(path) ==> holds_path(paths, path),
        (forall|k: int| 0 <= k < paths.len() ==> path_form(#[trigger] paths[k]) != path_form(path))
            ==> !holds_path(paths, path),
{
    let forms = path_forms(paths);
    if 0 <= i < paths.len() && path_form(paths[i]) == path_form(path) {
        assert(forms[i] == path_form(path));
    }
    if holds_path(paths, path) {
        let k = choose|k: int| 0 <= k < forms.len() && forms[k] == path_form(path);
        assert(path_form(paths[k]) == path_form(path));
    }
}

} // verus!
