//! The left pane: the repositories, and adding one.

use vstd::prelude::*;

use crate::config::Config;
use crate::fuzzy;
use crate::fuzzy::FuzzyIndex;
use crate::paths;
use crate::state;
use crate::state::{Action, App, Focus, Key, LeftMode, RepoPath, FUZZY_LIMIT};
use crate::text;

verus! {

/// The selection after a step forward in a list of `n`.
pub open spec fn selected_next(selected: Option<usize>, n: int) -> Option<usize> {
    if n == 0 {
        selected
    } else {
        Some(state::after(selected.unwrap_or(0) as int, n) as usize)
    }
}

/// The selection after a step back in a list of `n`.
pub open spec fn selected_previous(selected: Option<usize>, n: int) -> Option<usize> {
    if n == 0 {
        selected
    } else {
        Some(state::before(selected.unwrap_or(0) as int, n) as usize)
    }
}

/// What a key does in the list of repositories.
pub open spec fn left_step(a: App, key: Key, b: App, act: Action) -> bool {
    let n = a.config.repos@.len() as int;
    if key == Key::Down || key == Key::Char('j') {
        &&& b == App { repos_selected: selected_next(a.repos_selected, n), ..a }
        &&& act == Action::Idle
    } else if key == Key::Up || key == Key::Char('k') {
        &&& b == App { repos_selected: selected_previous(a.repos_selected, n), ..a }
        &&& act == Action::Idle
    } else if key == Key::Char('a') {
        &&& b == App {
            input: b.input,
            fuzzy_index: b.fuzzy_index,
            fuzzy_matches: b.fuzzy_matches,
            fuzzy_selected: 0,
            left_mode: LeftMode::AddRepo { error: None },
            focus: Focus::Left,
            ..a
        }
        &&& b.input@.len() == 0
        &&& match a.fuzzy_index {
            Some(_) => {
                &&& b.fuzzy_index == a.fuzzy_index
                &&& b.fuzzy_matches == a.fuzzy_matches
                &&& act == Action::RefreshMatches
            },
            None => {
                &&& b.fuzzy_index matches Some(index) && index.paths@.len() == 0 && !index.finished
                &&& b.fuzzy_matches@.len() == 0
                &&& act == Action::StartSearch
            },
        }
    } else if key == Key::Char('x') {
        match a.repos_selected {
            Some(i) if i < n => {
                &&& b == App { config: b.config, ..a }
                &&& b.config == Config { repos: b.config.repos, ..a.config }
                &&& b.config.repos@ == a.config.repos@.remove(i as int)
                &&& act == Action::SaveRemoval { index: i }
            },
            _ => b == a && act == Action::Idle,
        }
    } else {
        b == a && act == Action::Idle
    }
}

/// A repository that was found, and its canonical path.
pub struct Candidate {
    pub path: String,
    pub canonical: String,
}

/// The repositories found that are not configured yet.
pub open spec fn unconfigured(found: Seq<Candidate>, configured: Seq<Seq<char>>) -> Seq<String>
    decreases found.len(),
{
    if found.len() == 0 {
        Seq::empty()
    } else if paths::holds_path(configured, found.last().canonical@) {
        unconfigured(found.drop_last(), configured)
    } else {
        unconfigured(found.drop_last(), configured).push(found.last().path)
    }
}

/// The first few of a list.
pub open spec fn first_few(v: Seq<String>) -> Seq<String> {
    if v.len() <= FUZZY_LIMIT {
        v
    } else {
        v.take(FUZZY_LIMIT as int)
    }
}

/// The matches are those found that are not configured yet, and the selection is
/// one of them.
pub open spec fn matches_set(
    a: App,
    found: Seq<Candidate>,
    configured: Seq<Seq<char>>,
    b: App,
) -> bool {
    if a.fuzzy_index is None {
        b == a
    } else {
        &&& b == App { fuzzy_matches: b.fuzzy_matches, fuzzy_selected: b.fuzzy_selected, ..a }
        &&& b.fuzzy_matches@ == first_few(unconfigured(found, configured))
        &&& b.fuzzy_selected == (if a.fuzzy_selected < b.fuzzy_matches@.len() {
            a.fuzzy_selected as int
        } else if b.fuzzy_matches@.len() > 0 {
            b.fuzzy_matches@.len() - 1
        } else {
            0
        })
    }
}

/// What a key does while a repository is being added.
pub open spec fn add_step(a: App, key: Key, b: App, act: Action) -> bool {
    let n = a.fuzzy_matches@.len() as int;
    match key {
        Key::Esc => {
            &&& b == App {
                input: b.input,
                fuzzy_matches: b.fuzzy_matches,
                left_mode: LeftMode::Browse,
                ..a
            }
            &&& b.input@.len() == 0
            &&& b.fuzzy_matches@.len() == 0
            &&& act == Action::Idle
        },
        Key::Enter => if n > 0 {
            &&& b == a
            &&& act == Action::CheckRepo {
                path: RepoPath::Found(a.fuzzy_matches@[a.fuzzy_selected as int]),
            }
        } else if text::trim(a.input@).len() == 0 {
            &&& b == App { left_mode: b.left_mode, ..a }
            &&& b.left_mode matches LeftMode::AddRepo { error } && state::says(
                error,
                "path is empty"@,
            )
            &&& act == Action::Idle
        } else {
            &&& b == a
            &&& act matches Action::CheckRepo { path: RepoPath::Typed(path) } && path@
                == text::trim(a.input@)
        },
        Key::Down => {
            &&& b == App {
                fuzzy_selected: if n > 0 {
                    state::after(a.fuzzy_selected as int, n) as usize
                } else {
                    a.fuzzy_selected
                },
                ..a
            }
            &&& act == Action::Idle
        },
        Key::Up => {
            &&& b == App {
                fuzzy_selected: if n > 0 {
                    state::before(a.fuzzy_selected as int, n) as usize
                } else {
                    a.fuzzy_selected
                },
                ..a
            }
            &&& act == Action::Idle
        },
        Key::Backspace => {
            &&& b == App { input: b.input, fuzzy_selected: 0, ..a }
            &&& b.input@ == (if a.input@.len() > 0 {
                a.input@.drop_last()
            } else {
                a.input@
            })
            &&& act == Action::RefreshMatches
        },
        Key::Char(c) => {
            &&& b == App { input: b.input, fuzzy_selected: 0, ..a }
            &&& b.input@ == a.input@.push(c)
            &&& act == Action::RefreshMatches
        },
        _ => b == a && act == Action::Idle,
    }
}

/// A repository was added: it is the last one and selected, and the next one may
/// be added.
pub open spec fn addition_done(a: App, b: App, act: Action) -> bool {
    &&& b == App {
        repos_selected: Some(
            if a.config.repos@.len() > 0 {
                (a.config.repos@.len() - 1) as usize
            } else {
                0
            },
        ),
        input: b.input,
        fuzzy_selected: 0,
        left_mode: LeftMode::AddRepo { error: None },
        ..a
    }
    &&& b.input@.len() == 0
    &&& act == Action::RefreshMatches
}

/// What becomes of a repository to be added. One that is configured already is not
/// listed again.
pub open spec fn check_step(
    a: App,
    path: String,
    present: bool,
    valid: bool,
    b: App,
    act: Action,
) -> bool {
    if !present {
        &&& b == App { left_mode: b.left_mode, ..a }
        &&& b.left_mode matches LeftMode::AddRepo { error } && state::says(
            error,
            "path does not exist: "@ + path@,
        )
        &&& act == Action::Idle
    } else if !valid {
        &&& b == App { left_mode: b.left_mode, ..a }
        &&& b.left_mode matches LeftMode::AddRepo { error } && state::says(
            error,
            "not a git repo: "@ + path@,
        )
        &&& act == Action::Idle
    } else if paths::holds_path(text::texts(a.config.repos@), path@) {
        addition_done(a, b, act)
    } else {
        &&& b == App { config: b.config, ..a }
        &&& b.config == Config { repos: b.config.repos, ..a.config }
        &&& b.config.repos@ == a.config.repos@.push(path)
        &&& act == Action::SaveAddition
    }
}

impl App {
    /// A key in the list of repositories.
    pub fn handle_left(&mut self, key: Key) -> (act: Action)
        requires
            old(self).wf(),
        ensures
            final(self).wf(),
            left_step(*old(self), key, *final(self), act),
    {
        let n = self.config.repos.len();
        if key == Key::Down || key == Key::Char('j') {
            if n > 0 {
                let i = self.repos_selected.unwrap_or(0);
                self.repos_selected = Some(state::next_of(i, n));
            }
        } else if key == Key::Up || key == Key::Char('k') {
            if n > 0 {
                let i = self.repos_selected.unwrap_or(0);
                self.repos_selected = Some(state::previous_of(i, n));
            }
        } else if key == Key::Char('a') {
            self.input = String::new();
            self.fuzzy_selected = 0;
            self.left_mode = LeftMode::AddRepo { error: None };
            self.focus = Focus::Left;
            if self.fuzzy_index.is_none() {
                self.fuzzy_index = Some(FuzzyIndex::new());
                self.fuzzy_matches = Vec::new();
                return Action::StartSearch;
            }
            return Action::RefreshMatches;
        } else if key == Key::Char('x') {
            if let Some(i) = self.repos_selected {
                if i < n {
                    let _ = self.config.repos.remove(i);
                    return Action::SaveRemoval { index: i };
                }
            }
        }
        Action::Idle
    }

    /// The settings were saved, or not, after the repository at `index` was
    /// removed.
    pub fn removal_saved(&mut self, index: usize, saved: Result<(), String>)
        requires
            old(self).wf(),
        ensures
            final(self).wf(),
            match saved {
                Ok(()) => *final(self) == (App {
                    repos_selected: if old(self).config.repos@.len() == 0 {
                        None
                    } else if index >= old(self).config.repos@.len() {
                        Some((old(self).config.repos@.len() - 1) as usize)
                    } else {
                        old(self).repos_selected
                    },
                    ..*old(self)
                }),
                Err(e) => {
                    &&& *final(self) == (App { error: final(self).error, ..*old(self) })
                    &&& state::says(final(self).error, "save failed: "@ + e@)
                },
            },
    {
        match saved {
            Ok(()) => {
                let n = self.config.repos.len();
                if n == 0 {
                    self.repos_selected = None;
                } else if index >= n {
                    self.repos_selected = Some(n - 1);
                }
            },
            Err(e) => {
                self.save_failed(e);
            },
        }
    }

    fn save_failed(&mut self, e: String)
        requires
            old(self).wf(),
        ensures
            final(self).wf(),
            *final(self) == (App { error: final(self).error, ..*old(self) }),
            state::says(final(self).error, "save failed: "@ + e@),
    {
        let mut message = "save failed: ".to_owned();
        message.append(e.as_str());
        self.error = Some(message);
    }

    /// The repositories that match what is typed in best.
    pub fn candidates(&self) -> (r: Vec<String>)
        ensures
            match self.fuzzy_index {
                Some(index) => fuzzy::is_search(index.paths@, self.input@, 32, r@),
                None => r@.len() == 0,
            },
    {
        match &self.fuzzy_index {
            Some(index) => index.search(self.input.as_str(), FUZZY_LIMIT * 4),
            None => Vec::new(),
        }
    }

    /// Offers the repositories found, without those that are configured already.
    /// `configured` are the canonical paths of those.
    pub fn refresh_matches(&mut self, found: Vec<Candidate>, configured: &Vec<String>)
        requires
            old(self).wf(),
        ensures
            final(self).wf(),
            matches_set(*old(self), found@, text::texts(configured@), *final(self)),
    {
        if self.fuzzy_index.is_none() {
            return;
        }
        let mut rest = found;
        let ghost all = found@;
        let ghost known = text::texts(configured@);
        let forms = paths::forms_of(configured);
        let n = rest.len();
        let mut out: Vec<String> = Vec::new();
        assert(all.skip(0) =~= all);
        for i in 0..n
            invariant
                n == all.len(),
                text::texts(forms@) == paths::path_forms(known),
                rest@ == all.skip(i as int),
                out@ == unconfigured(all.take(i as int), known),
        {
            let next = rest.remove(0);
            proof {
                assert(next == all[i as int]);
                assert(all.take(i + 1).drop_last() =~= all.take(i as int));
                assert(all.take(i + 1).last() == next);
            }
            if !text::one_of(&forms, paths::form_of(next.canonical.as_str()).as_str()) {
                out.push(next.path);
            }
            assert(rest@ =~= all.skip(i + 1));
        }
        assert(all.take(n as int) =~= all);
        if out.len() > FUZZY_LIMIT {
            out.truncate(FUZZY_LIMIT);
        }
        self.fuzzy_matches = out;
        let m = self.fuzzy_matches.len();
        if self.fuzzy_selected >= m {
            self.fuzzy_selected = if m > 0 {
                m - 1
            } else {
                0
            };
        }
    }

    /// Takes in what the search found since the last time.
    pub fn paths_found(&mut self, found: Vec<String>, over: bool) -> (act: Action)
        requires
            old(self).wf(),
        ensures
            final(self).wf(),
            match old(self).fuzzy_index {
                Some(index) => {
                    &&& *final(self) == (App { fuzzy_index: final(self).fuzzy_index, ..*old(self) })
                    &&& final(self).fuzzy_index matches Some(now) && now.paths@ == index.paths@
                        + found@ && now.finished == (index.finished || over)
                    &&& act == (if found@.len() > 0 && old(self).adding() {
                        Action::RefreshMatches
                    } else {
                        Action::Idle
                    })
                },
                None => *final(self) == *old(self) && act == Action::Idle,
            },
    {
        let grew = found.len() > 0;
        match self.fuzzy_index.take() {
            Some(index) => {
                let mut index = index;
                index.drain(found, over);
                self.fuzzy_index = Some(index);
                if grew && self.is_adding() {
                    return Action::RefreshMatches;
                }
                Action::Idle
            },
            None => Action::Idle,
        }
    }

    /// A key while a repository is being added.
    pub fn handle_add_repo(&mut self, key: Key) -> (act: Action)
        requires
            old(self).wf(),
        ensures
            final(self).wf(),
            add_step(*old(self), key, *final(self), act),
    {
        let n = self.fuzzy_matches.len();
        match key {
            Key::Esc => {
                self.input = String::new();
                self.fuzzy_matches = Vec::new();
                self.left_mode = LeftMode::Browse;
            },
            Key::Enter => {
                if n > 0 {
                    let path = self.fuzzy_matches[self.fuzzy_selected].clone();
                    return Action::CheckRepo { path: RepoPath::Found(path) };
                }
                let raw = text::trimmed(self.input.as_str()).to_owned();
                if raw.as_str().unicode_len() > 0 {
                    return Action::CheckRepo { path: RepoPath::Typed(raw) };
                }
                self.left_mode = LeftMode::AddRepo { error: Some("path is empty".to_owned()) };
            },
            Key::Down => {
                if n > 0 {
                    self.fuzzy_selected = state::next_of(self.fuzzy_selected, n);
                }
            },
            Key::Up => {
                if n > 0 {
                    self.fuzzy_selected = state::previous_of(self.fuzzy_selected, n);
                }
            },
            Key::Backspace => {
                let _ = self.input.pop();
                self.fuzzy_selected = 0;
                return Action::RefreshMatches;
            },
            Key::Char(c) => {
                self.input.push(c);
                self.fuzzy_selected = 0;
                return Action::RefreshMatches;
            },
            _ => {},
        }
        Action::Idle
    }

    fn finish_addition(&mut self) -> (act: Action)
        requires
            old(self).wf(),
        ensures
            final(self).wf(),
            addition_done(*old(self), *final(self), act),
    {
        let n = self.config.repos.len();
        self.repos_selected = Some(
            if n > 0 {
                n - 1
            } else {
                0
            },
        );
        self.input = String::new();
        self.fuzzy_selected = 0;
        self.left_mode = LeftMode::AddRepo { error: None };
        Action::RefreshMatches
    }

    /// It is known what is at the path of the repository to be added.
    pub fn repo_checked(
        &mut self,
        path: String,
        present: bool,
        has_git: bool,
        has_head: bool,
    ) -> (act: Action)
        requires
            old(self).wf(),
        ensures
            final(self).wf(),
            check_step(*old(self), path, present, has_git || has_head, *final(self), act),
    {
        match paths::validate_repo(path.as_str(), present, has_git, has_head) {
            Ok(()) => {
                if text::one_of(
                    &paths::forms_of(&self.config.repos),
                    paths::form_of(path.as_str()).as_str(),
                ) {
                    return self.finish_addition();
                }
                self.config.repos.push(path);
                Action::SaveAddition
            },
            Err(e) => {
                self.left_mode = LeftMode::AddRepo { error: Some(e) };
                Action::Idle
            },
        }
    }

    /// The settings were saved, or not, after a repository was added.
    pub fn addition_saved(&mut self, saved: Result<(), String>) -> (act: Action)
        requires
            old(self).wf(),
        ensures
            final(self).wf(),
            match saved {
                Ok(()) => addition_done(*old(self), *final(self), act),
                Err(e) => {
                    &&& *final(self) == (App { error: final(self).error, ..*old(self) })
                    &&& state::says(final(self).error, "save failed: "@ + e@)
                    &&& act == Action::Idle
                },
            },
    {
        match saved {
            Ok(()) => self.finish_addition(),
            Err(e) => {
                self.save_failed(e);
                Action::Idle
            },
        }
    }
}

/// No repository is listed twice.
pub open spec fn are_distinct(repos: Seq<String>) -> bool {
    forall|i: int, j: int|
        0 <= i < j < repos.len() ==> !paths::same_path(
            (#[trigger] repos[i])@,
            (#[trigger] repos[j])@,
        )
}

/// Adding a repository lists none twice and takes none away. One that is valid is in
/// the list afterwards, and one that was in it changes nothing.
pub proof fn law_repos_stay_distinct(
    a: App,
    path: String,
    present: bool,
    valid: bool,
    b: App,
    act: Action,
)
    requires
        check_step(a, path, present, valid, b, act),
        are_distinct(a.config.repos@),
    ensures
        are_distinct(b.config.repos@),
        a.config.repos@.is_prefix_of(b.config.repos@),
        present && valid ==> paths::holds_path(text::texts(b.config.repos@), path@),
        paths::holds_path(text::texts(a.config.repos@), path@) ==> b.config == a.config,
{
    let was = a.config.repos@;
    let now = b.config.repos@;
    let forms = paths::path_forms(text::texts(was));
    if present && valid && !paths::holds_path(text::texts(was), path@) {
        assert(now == was.push(path));
        assert(now[was.len() as int] == path);
        assert(paths::path_forms(text::texts(now))[was.len() as int] == paths::path_form(path@));
        assert forall|i: int, j: int| 0 <= i < j < now.len() implies !paths::same_path(
            (#[trigger] now[i])@,
            (#[trigger] now[j])@,
        ) by {
            assert(now[i] == was[i]);
            assert(forms[i] == paths::path_form(was[i]@));
            if j < was.len() {
                assert(now[j] == was[j]);
            }
        }
    }
}

/// A repository that is configured is not offered again.
pub proof fn law_configured_repos_are_not_offered(
    a: App,
    found: Seq<Candidate>,
    configured: Seq<Seq<char>>,
    b: App,
    i: int,
)
    requires
        a.fuzzy_index is Some,
        matches_set(a, found, configured, b),
        0 <= i < b.fuzzy_matches@.len(),
    ensures
        b.fuzzy_matches@.len() <= FUZZY_LIMIT,
        exists|j: int|
            0 <= j < found.len() && (#[trigger] found[j]).path == b.fuzzy_matches@[i]
                && !paths::holds_path(configured, found[j].canonical@),
{
    lemma_unconfigured(found, configured, i);
}

proof fn lemma_unconfigured(found: Seq<Candidate>, configured: Seq<Seq<char>>, i: int)
    requires
        0 <= i < unconfigured(found, configured).len(),
    ensures
        exists|j: int|
            0 <= j < found.len() && (#[trigger] found[j]).path == unconfigured(
                found,
                configured,
            )[i] && !paths::holds_path(configured, found[j].canonical@),
    decreases found.len(),
{
    let rest = found.drop_last();
    if i < unconfigured(rest, configured).len() {
        lemma_unconfigured(rest, configured, i);
        let j = choose|j: int|
            0 <= j < rest.len() && (#[trigger] rest[j]).path == unconfigured(rest, configured)[i]
                && !paths::holds_path(configured, rest[j].canonical@);
        assert(found[j] == rest[j]);
    } else {
        assert(found[found.len() - 1] == found.last());
    }
}

/// The repositories to offer are picked one by one, in the order they were found; one whose
/// canonical path has the same parts as a configured one is left out.
pub proof fn law_offers_are_picked_one_by_one(
    a: Seq<Candidate>,
    b: Seq<Candidate>,
    one: Candidate,
    configured: Seq<Seq<char>>,
    i: int,
)
    ensures
        unconfigured(a + b, configured) == unconfigured(a, configured) + unconfigured(
            b,
            configured,
        ),
        0 <= i < configured.len() && paths::path_form(configured[i]) == paths::path_form(
            one.canonical@,
        ) ==> unconfigured(seq![one], configured) == Seq::<String>::empty(),
        (forall|k: int|
            0 <= k < configured.len() ==> paths::path_form(#[trigger] configured[k])
                != paths::path_form(one.canonical@)) ==> unconfigured(seq![one], configured)
            == seq![one.path],
    decreases b.len(),
{
    let single = seq![one];
    assert(single.drop_last() =~= Seq::empty());
    reveal_with_fuel(unconfigured, 2);
    paths::law_lists_hold_paths_by_their_parts(configured, one.canonical@, i);
    if !paths::holds_path(configured, one.canonical@) {
        assert(unconfigured(single, configured) =~= seq![one.path]);
    }
    if b.len() == 0 {
        assert(a + b =~= a);
        assert(unconfigured(a + b, configured) =~= unconfigured(a, configured) + unconfigured(
            b,
            configured,
        ));
    } else {
        law_offers_are_picked_one_by_one(a, b.drop_last(), one, configured, i);
        assert((a + b).drop_last() =~= a + b.drop_last());
        assert((a + b).last() == b.last());
        assert(unconfigured(a + b, configured) =~= unconfigured(a, configured) + unconfigured(
            b,
            configured,
        ));
    }
}

/// The first eight repositories are offered, or all where there are no more.
pub proof fn law_eight_are_offered(
    a: App,
    found: Seq<Candidate>,
    configured: Seq<Seq<char>>,
    b: App,
)
    requires
        a.fuzzy_index is Some,
        matches_set(a, found, configured, b),
    ensures
        b.fuzzy_matches@.is_prefix_of(unconfigured(found, configured)),
        unconfigured(found, configured).len() <= 8 ==> b.fuzzy_matches@.len() == unconfigured(
            found,
            configured,
        ).len(),
        unconfigured(found, configured).len() > 8 ==> b.fuzzy_matches@.len() == 8,
        b.fuzzy_matches@.len() > 0 ==> b.fuzzy_selected < b.fuzzy_matches@.len(),
        a.fuzzy_selected < b.fuzzy_matches@.len() ==> b.fuzzy_selected == a.fuzzy_selected,
{
}

/// Removing takes the selected repository off the list, and no other.
pub proof fn law_only_the_selected_repo_is_removed(a: App, b: App, act: Action, i: usize, k: int)
    requires
        left_step(a, Key::Char('x'), b, act),
        a.repos_selected == Some(i),
        i < a.config.repos@.len(),
    ensures
        b.config.repos@.len() == a.config.repos@.len() - 1,
        0 <= k < i ==> b.config.repos@[k] == a.config.repos@[k],
        i <= k < b.config.repos@.len() ==> b.config.repos@[k] == a.config.repos@[k + 1],
        b.config.jira == a.config.jira,
        b.config.estimation == a.config.estimation,
        act == (Action::SaveRemoval { index: i }),
{
}

/// While a repository is added, Enter takes the match that is selected; without a match it takes
/// what is typed in, without the blanks around it.
pub proof fn law_enter_takes_the_selected_match(a: App, b: App, act: Action)
    requires
        add_step(a, Key::Enter, b, act),
    ensures
        a.fuzzy_matches@.len() > 0 ==> b == a && act == (Action::CheckRepo {
            path: RepoPath::Found(a.fuzzy_matches@[a.fuzzy_selected as int]),
        }),
        a.fuzzy_matches@.len() == 0 && text::trim(a.input@).len() > 0 ==> b == a && act is CheckRepo
            && act->CheckRepo_path is Typed && (act->CheckRepo_path->Typed_0)@ == text::trim(
            a.input@,
        ),
        a.fuzzy_matches@.len() == 0 && text::trim(a.input@).len() == 0 ==> act == Action::Idle
            && b.config == a.config,
{
}

/// What is typed while a repository is added is put behind the text, and what is erased is taken
/// off its end; either way the matches are looked up anew.
pub proof fn law_names_are_typed_and_erased(
    a: App,
    c: char,
    b: App,
    one: Action,
    d: App,
    two: Action,
)
    requires
        add_step(a, Key::Char(c), b, one),
        add_step(b, Key::Backspace, d, two),
    ensures
        b.input@ == a.input@ + seq![c],
        d.input@ == a.input@,
        one == Action::RefreshMatches,
        two == Action::RefreshMatches,
        b.fuzzy_selected == 0,
{
    assert(a.input@.push(c) =~= a.input@ + seq![c]);
    assert(a.input@.push(c).drop_last() =~= a.input@);
}

/// A repository is added only if it is there, is one, and is not listed yet.
pub proof fn law_only_new_repos_are_added(
    a: App,
    path: String,
    present: bool,
    valid: bool,
    b: App,
    act: Action,
)
    requires
        check_step(a, path, present, valid, b, act),
    ensures
        act == Action::SaveAddition <==> present && valid && !paths::holds_path(
            text::texts(a.config.repos@),
            path@,
        ),
        act == Action::SaveAddition ==> b.config.repos@ == a.config.repos@.push(path),
        act != Action::SaveAddition ==> b.config == a.config,
{
}

/// In the list of repositories the arrows go to the next one and the one before, and round the
/// ends.
pub proof fn law_arrows_select_repos(a: App, key: Key, b: App, act: Action, i: usize)
    requires
        left_step(a, key, b, act),
        a.repos_selected == Some(i),
        i < a.config.repos@.len() <= usize::MAX,
    ensures
        key == Key::Down || key == Key::Char('j') ==> b.repos_selected == Some(
            (if i + 1 < a.config.repos@.len() {
                i + 1
            } else {
                0
            }) as usize,
        ),
        key == Key::Up || key == Key::Char('k') ==> b.repos_selected == Some(
            (if i > 0 {
                i - 1
            } else {
                a.config.repos@.len() - 1
            }) as usize,
        ),
{
    state::law_selection_steps_by_one(i as int, a.config.repos@.len() as int);
}

} // verus!
