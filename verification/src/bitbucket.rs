//! Pull requests on Bitbucket Cloud.

use vstd::prelude::*;

use crate::http;
use crate::number;
use crate::order;
use crate::pr::PrInfo;
use crate::pr::PrState;
use crate::text;

verus! {

/// Where the app password is kept in the keyring.
pub const KEYRING_SERVICE: &'static str = "dlog-bitbucket";

pub const API_ROOT: &'static str = "https://api.bitbucket.org/2.0";

const HOST: &'static str = "bitbucket.org";

/// Whether the address of a repository's `origin` looks like Bitbucket Cloud's.
pub fn is_bitbucket_repo(origin: Option<&str>) -> (r: bool)
    ensures
        r == (origin matches Some(url) && text::has_text(url@, "bitbucket.org"@)),
{
    match origin {
        Some(url) => text::contains_text(url, "bitbucket.org"),
        None => false,
    }
}

/// Why an address names no repository of Bitbucket Cloud.
#[derive(Debug)]
pub enum RemoteError {
    /// It is on another host.
    OtherHost,
    /// Nothing follows the workspace.
    NoSlug,
    /// The workspace or the slug is empty.
    Empty { url: String },
}

/// What follows the host's name in an address, up to where it might stand again.
pub open spec fn after_host(url: Seq<char>) -> Seq<char> {
    let host = "bitbucket.org"@;
    let rest = url.skip(text::first_index(url, host) + host.len());
    if text::has_text(rest, host) {
        rest.take(text::first_index(rest, host))
    } else {
        rest
    }
}

/// Without the colons and slashes at its start.
pub open spec fn without_separators(s: Seq<char>) -> Seq<char>
    decreases s.len(),
{
    if s.len() > 0 && (s[0] == ':' || s[0] == '/') {
        without_separators(s.drop_first())
    } else {
        s
    }
}

/// Without the `.git` at its end, however often it stands there.
pub open spec fn without_git(s: Seq<char>) -> Seq<char>
    decreases s.len(),
{
    if s.len() >= 4 && s.skip(s.len() - 4) == seq!['.', 'g', 'i', 't'] {
        without_git(s.take(s.len() - 4))
    } else {
        s
    }
}

/// The path of a repository on the host.
pub open spec fn remote_path(url: Seq<char>) -> Seq<char> {
    without_git(without_separators(after_host(url)))
}

fn strip_separators(s: &Vec<char>) -> (r: Vec<char>)
    ensures
        r@ == without_separators(s@),
{
    let mut n: usize = 0;
    assert(s@.skip(0) =~= s@);
    while n < s.len() && (s[n] == ':' || s[n] == '/')
        invariant
            n <= s@.len(),
            without_separators(s@) == without_separators(s@.skip(n as int)),
        decreases s@.len() - n,
    {
        assert(s@.skip(n as int).drop_first() =~= s@.skip(n + 1));
        n += 1;
    }
    let out = number::piece(s, n, s.len());
    assert(out@ =~= s@.skip(n as int));
    out
}

fn strip_git(s: &Vec<char>) -> (r: Vec<char>)
    ensures
        r@ == without_git(s@),
{
    let mut n: usize = s.len();
    assert(s@.take(n as int) =~= s@);
    while n >= 4 && s[n - 4] == '.' && s[n - 3] == 'g' && s[n - 2] == 'i' && s[n - 1] == 't'
        invariant
            n <= s@.len(),
            without_git(s@) == without_git(s@.take(n as int)),
        decreases n,
    {
        proof {
            let now = s@.take(n as int);
            assert(now.skip(now.len() - 4) =~= seq!['.', 'g', 'i', 't']);
            assert(now.take(now.len() - 4) =~= s@.take(n - 4));
        }
        n -= 4;
    }
    proof {
        let now = s@.take(n as int);
        if now.len() >= 4 {
            let tail = now.skip(now.len() - 4);
            assert(tail[0] == s@[n - 4] && tail[1] == s@[n - 3] && tail[2] == s@[n - 2] && tail[3]
                == s@[n - 1]);
        }
    }
    let out = number::piece(s, 0, n);
    assert(out@ =~= s@.take(n as int));
    out
}

/// The workspace and the slug of a repository, out of the address of its origin:
///
/// * `git@bitbucket.org:workspace/repo.git`
/// * `https://bitbucket.org/workspace/repo.git`
/// * `ssh://git@bitbucket.org/workspace/repo`
pub fn parse_remote(url: &str) -> (r: Result<(String, String), RemoteError>)
    ensures
        ({
            let path = remote_path(url@);
            let p = number::position(path, '/');
            match r {
                Ok((workspace, slug)) => {
                    &&& text::has_text(url@, "bitbucket.org"@)
                    &&& 0 < p < path.len() - 1
                    &&& workspace@ == path.take(p)
                    &&& slug@ == path.skip(p + 1)
                },
                Err(RemoteError::OtherHost) => !text::has_text(url@, "bitbucket.org"@),
                Err(RemoteError::NoSlug) => text::has_text(url@, "bitbucket.org"@) && p
                    >= path.len(),
                Err(RemoteError::Empty { url: u }) => {
                    &&& text::has_text(url@, "bitbucket.org"@)
                    &&& p < path.len()
                    &&& p == 0 || p == path.len() - 1
                    &&& u@ == url@
                },
            }
        }),
{
    let at = match text::find_text(url, HOST) {
        Some(i) => i,
        None => {
            return Err(RemoteError::OtherHost);
        },
    };
    proof {
        reveal_strlit("bitbucket.org");
    }
    let n = url.unicode_len();
    let rest = url.substring_char(at + 13, n);
    assert(rest@ =~= url@.skip(at + 13));
    let tail = match text::find_text(rest, HOST) {
        Some(j) => {
            let t = rest.substring_char(0, j);
            assert(t@ =~= rest@.take(j as int));
            t
        },
        None => rest,
    };
    assert(tail@ == after_host(url@));
    let path = strip_git(&strip_separators(&text::chars_of(tail)));
    let p = number::position_of(&path, '/');
    if p >= path.len() {
        return Err(RemoteError::NoSlug);
    }
    if p == 0 || p + 1 == path.len() {
        return Err(RemoteError::Empty { url: url.to_owned() });
    }
    let workspace = text::string_of(&number::piece(&path, 0, p));
    let slug = text::string_of(&number::piece(&path, p + 1, path.len()));
    assert(workspace@ =~= path@.take(p as int));
    assert(slug@ =~= path@.skip(p + 1));
    Ok((workspace, slug))
}

impl RemoteError {
    pub open spec fn said(self) -> Seq<char> {
        match self {
            RemoteError::OtherHost => "not a bitbucket.org remote"@,
            RemoteError::NoSlug => "missing repo slug"@,
            RemoteError::Empty { url } => "parsed empty workspace/slug from "@ + url@,
        }
    }

    pub fn message(&self) -> (r: String)
        ensures
            r@ == self.said(),
    {
        match self {
            RemoteError::OtherHost => "not a bitbucket.org remote".to_owned(),
            RemoteError::NoSlug => "missing repo slug".to_owned(),
            RemoteError::Empty { url } => {
                let mut out = "parsed empty workspace/slug from ".to_owned();
                out.append(url.as_str());
                out
            },
        }
    }
}

/// Where the service says who the user is.
pub fn user_url() -> (r: String)
    ensures
        r@ == API_ROOT@ + "/user"@,
{
    let mut out = API_ROOT.to_owned();
    out.append("/user");
    out
}

/// Where the pull requests of a repository are.
pub open spec fn pull_requests(workspace: Seq<char>, slug: Seq<char>) -> Seq<char> {
    API_ROOT@ + "/repositories/"@ + workspace + "/"@ + slug + "/pullrequests"@
}

fn pull_requests_url(workspace: &str, slug: &str) -> (r: String)
    ensures
        r@ == pull_requests(workspace@, slug@),
{
    let mut out = API_ROOT.to_owned();
    out.append("/repositories/");
    out.append(workspace);
    out.append("/");
    out.append(slug);
    out.append("/pullrequests");
    out
}

/// Where the last fifty pull requests of a repository are, whatever their state.
pub fn list_url(workspace: &str, slug: &str) -> (r: String)
    ensures
        r@ == pull_requests(workspace@, slug@)
            + "?state=OPEN&state=MERGED&state=DECLINED&pagelen=50"@,
{
    let mut out = pull_requests_url(workspace, slug);
    out.append("?state=OPEN&state=MERGED&state=DECLINED&pagelen=50");
    out
}

/// Where the commits of a pull request are.
pub fn commits_url(workspace: &str, slug: &str, id: u64) -> (r: String)
    ensures
        r@ == pull_requests(workspace@, slug@) + "/"@ + text::decimal(id as nat)
            + "/commits?pagelen=50"@,
{
    let mut out = pull_requests_url(workspace, slug);
    out.append("/");
    out.append(text::decimal_text(id).as_str());
    out.append("/commits?pagelen=50");
    out
}

/// What is wrong with a response, if anything is.
pub fn http_failure(status: u16, body: Option<String>) -> (r: Option<String>)
    ensures
        match r {
            None => http::is_success(status),
            Some(e) => !http::is_success(status) && e@ == "Bitbucket HTTP "@ + text::decimal(
                status as nat,
            ) + ": "@ + text::trim(http::body_text(body)),
        },
{
    if http::succeeded(status) {
        return None;
    }
    let mut out = "Bitbucket HTTP ".to_owned();
    out.append(text::decimal_text(status as u64).as_str());
    out.append(": ");
    let text = http::body_or_none(body);
    out.append(text::trimmed(text.as_str()));
    Some(out)
}

/// A pull request as the service reports it.
pub struct PrRaw {
    pub id: u64,
    pub title: String,
    pub description: Option<String>,
    pub state: String,
    /// The name of its branch.
    pub branch: Option<String>,
    /// The account of its author.
    pub author: String,
    /// Its page.
    pub html: Option<String>,
}

/// Anything but open or merged is closed.
pub open spec fn state_of(state: Seq<char>) -> PrState {
    if state == "OPEN"@ {
        PrState::Open
    } else if state == "MERGED"@ {
        PrState::Merged
    } else {
        PrState::Closed
    }
}

pub fn pr_state(state: &str) -> (r: PrState)
    ensures
        r == state_of(state@),
{
    if text::same_text(state, "OPEN") {
        PrState::Open
    } else if text::same_text(state, "MERGED") {
        PrState::Merged
    } else {
        PrState::Closed
    }
}

/// The pull requests of one author.
pub open spec fn by_author(prs: Seq<PrRaw>, me: Seq<char>) -> Seq<PrRaw>
    decreases prs.len(),
{
    if prs.len() == 0 {
        Seq::empty()
    } else if prs.last().author@ == me {
        by_author(prs.drop_last(), me).push(prs.last())
    } else {
        by_author(prs.drop_last(), me)
    }
}

/// The pull requests of the account `me`, whose commits are worth asking for.
pub fn own_prs(prs: Vec<PrRaw>, me: &str) -> (r: Vec<PrRaw>)
    ensures
        r@ == by_author(prs@, me@),
{
    let mut rest = prs;
    let ghost all = prs@;
    let n = rest.len();
    let mut out: Vec<PrRaw> = Vec::new();
    assert(all.skip(0) =~= all);
    for i in 0..n
        invariant
            n == all.len(),
            rest@ == all.skip(i as int),
            out@ == by_author(all.take(i as int), me@),
    {
        let pr = rest.remove(0);
        proof {
            assert(pr == all[i as int]);
            assert(all.take(i + 1).drop_last() =~= all.take(i as int));
            assert(all.take(i + 1).last() == pr);
        }
        if text::same_text(pr.author.as_str(), me) {
            out.push(pr);
        }
        assert(rest@ =~= all.skip(i + 1));
    }
    assert(all.take(n as int) =~= all);
    out
}

pub open spec fn or_empty(s: Option<String>) -> Seq<char> {
    match s {
        Some(t) => t@,
        None => Seq::empty(),
    }
}

fn text_or_empty(s: Option<String>) -> (r: String)
    ensures
        r@ == or_empty(s),
{
    match s {
        Some(t) => t,
        None => String::new(),
    }
}

/// One of the user's own pull requests, with its commits if they could be had.
pub struct OwnPr {
    pub raw: PrRaw,
    pub commits: Option<Vec<String>>,
}

/// What a pull request says.
pub open spec fn is_info_of(own: OwnPr, info: PrInfo) -> bool {
    &&& info.number == own.raw.id
    &&& info.title == own.raw.title
    &&& info.body@ == or_empty(own.raw.description)
    &&& info.head_branch@ == or_empty(own.raw.branch)
    &&& info.url@ == or_empty(own.raw.html)
    &&& info.state == state_of(own.raw.state@)
    &&& match own.commits {
        Some(oids) => info.commit_oids == oids,
        None => info.commit_oids@.len() == 0,
    }
}

fn info_of(own: OwnPr) -> (r: PrInfo)
    ensures
        is_info_of(own, r),
{
    let raw = own.raw;
    let state = pr_state(raw.state.as_str());
    let commit_oids = match own.commits {
        Some(oids) => oids,
        None => Vec::new(),
    };
    PrInfo {
        number: raw.id,
        title: raw.title,
        body: text_or_empty(raw.description),
        head_branch: text_or_empty(raw.branch),
        url: text_or_empty(raw.html),
        state,
        commit_oids,
    }
}

/// `infos` are the pull requests of `own`, one for one.
pub open spec fn are_infos_of(own: Seq<OwnPr>, infos: Seq<PrInfo>) -> bool {
    &&& infos.len() == own.len()
    &&& forall|i: int| 0 <= i < own.len() ==> is_info_of(own[i], #[trigger] infos[i])
}

/// The user's pull requests, or what went wrong.
pub fn try_fetch(reply: Result<Vec<OwnPr>, String>) -> (r: Result<Vec<PrInfo>, String>)
    ensures
        match reply {
            Ok(own) => r matches Ok(infos) && are_infos_of(own@, infos@),
            Err(e) => r == Err::<Vec<PrInfo>, String>(e),
        },
{
    let mut rest = match reply {
        Ok(own) => own,
        Err(e) => {
            return Err(e);
        },
    };
    let ghost all = rest@;
    let n = rest.len();
    let mut out: Vec<PrInfo> = Vec::new();
    assert(all.skip(0) =~= all);
    for i in 0..n
        invariant
            n == all.len(),
            rest@ == all.skip(i as int),
            out@.len() == i,
            forall|j: int| 0 <= j < i ==> is_info_of(all[j], #[trigger] out@[j]),
    {
        let own = rest.remove(0);
        assert(own == all[i as int]);
        out.push(info_of(own));
        assert(rest@ =~= all.skip(i + 1));
    }
    Ok(out)
}

/// The user's pull requests; none where anything went wrong, so that a missing
/// password or network spoils nothing else.
pub fn fetch_prs(reply: Result<Vec<OwnPr>, String>) -> (r: Vec<PrInfo>)
    ensures
        match reply {
            Ok(own) => are_infos_of(own@, r@),
            Err(_) => r@.len() == 0,
        },
{
    match try_fetch(reply) {
        Ok(infos) => infos,
        Err(_) => Vec::new(),
    }
}

/// Whoever else opened pull requests in the repository, the user's own are those
/// that they authored, and no other.
pub proof fn law_own_prs_are_the_users(prs: Seq<PrRaw>, me: Seq<char>, pr: PrRaw)
    ensures
        by_author(prs, me).contains(pr) <==> prs.contains(pr) && pr.author@ == me,
    decreases prs.len(),
{
    if prs.len() > 0 {
        let rest = prs.drop_last();
        law_own_prs_are_the_users(rest, me, pr);
        assert(prs =~= rest.push(prs.last()));
        order::lemma_push_contains(rest, prs.last(), pr);
        order::lemma_push_contains(by_author(rest, me), prs.last(), pr);
    }
}

/// The pull requests of an author are picked one by one, in the order they came in.
pub proof fn law_own_prs_are_picked_one_by_one(
    a: Seq<PrRaw>,
    b: Seq<PrRaw>,
    one: PrRaw,
    me: Seq<char>,
)
    ensures
        by_author(a + b, me) == by_author(a, me) + by_author(b, me),
        one.author@ == me ==> by_author(seq![one], me) == seq![one],
        one.author@ != me ==> by_author(seq![one], me) == Seq::<PrRaw>::empty(),
    decreases b.len(),
{
    let single = seq![one];
    assert(single.drop_last() =~= Seq::empty());
    reveal_with_fuel(by_author, 2);
    if b.len() == 0 {
        assert(a + b =~= a);
        assert(by_author(a + b, me) =~= by_author(a, me) + by_author(b, me));
    } else {
        law_own_prs_are_picked_one_by_one(a, b.drop_last(), one, me);
        assert((a + b).drop_last() =~= a + b.drop_last());
        assert((a + b).last() == b.last());
        assert(by_author(a + b, me) =~= by_author(a, me) + by_author(b, me));
    }
    if one.author@ == me {
        assert(by_author(single, me) =~= single);
    }
}

/// What is told of a pull request is what the service reports: it is open or merged only where
/// the service says so, and closed otherwise, and what is missing is empty.
pub proof fn law_pull_requests_are_told_as_reported(own: Seq<OwnPr>, infos: Seq<PrInfo>, i: int)
    requires
        are_infos_of(own, infos),
        0 <= i < own.len(),
    ensures
        infos.len() == own.len(),
        infos[i].number == own[i].raw.id,
        infos[i].title@ == own[i].raw.title@,
        own[i].raw.description matches Some(t) ==> infos[i].body@ == t@,
        own[i].raw.description is None ==> infos[i].body@.len() == 0,
        own[i].raw.branch matches Some(t) ==> infos[i].head_branch@ == t@,
        own[i].raw.branch is None ==> infos[i].head_branch@.len() == 0,
        own[i].raw.html matches Some(t) ==> infos[i].url@ == t@,
        own[i].raw.html is None ==> infos[i].url@.len() == 0,
        infos[i].state == PrState::Open <==> own[i].raw.state@ == "OPEN"@,
        infos[i].state == PrState::Merged <==> own[i].raw.state@ == "MERGED"@,
        own[i].commits matches Some(oids) ==> text::texts(infos[i].commit_oids@) == text::texts(
            oids@,
        ),
        own[i].commits is None ==> infos[i].commit_oids@.len() == 0,
{
    reveal_strlit("OPEN");
    reveal_strlit("MERGED");
    assert("OPEN"@.len() != "MERGED"@.len());
    assert(is_info_of(own[i], infos[i]));
}

proof fn lemma_separators(seps: Seq<char>, rest: Seq<char>)
    requires
        forall|i: int| 0 <= i < seps.len() ==> (#[trigger] seps[i]) == ':' || seps[i] == '/',
        rest.len() > 0 && rest[0] != ':' && rest[0] != '/',
    ensures
        without_separators(seps + rest) == rest,
    decreases seps.len(),
{
    let s = seps + rest;
    if seps.len() == 0 {
        assert(s =~= rest);
    } else {
        assert(s[0] == seps[0]);
        assert(s.drop_first() =~= seps.drop_first() + rest);
        lemma_separators(seps.drop_first(), rest);
    }
}

proof fn lemma_host_found(pre: Seq<char>, rest: Seq<char>)
    requires
        !pre.contains('b'),
    ensures
        text::has_text(pre + "bitbucket.org"@ + rest, "bitbucket.org"@),
        text::first_index(pre + "bitbucket.org"@ + rest, "bitbucket.org"@) == pre.len(),
{
    reveal_strlit("bitbucket.org");
    let host = "bitbucket.org"@;
    let url = pre + host + rest;
    let n = pre.len() as int;
    text::law_text_is_found_where_it_stands(pre, host, rest, url, n);
    assert forall|j: int| 0 <= j < n implies !text::occurs_at(url, host, j) by {
        if text::occurs_at(url, host, j) {
            assert(url.subrange(j, j + host.len())[0] == url[j]);
            assert(url[j] == pre[j]);
            assert(host[0] == 'b');
        }
    }
    assert(text::first_at(url, host, n));
    let k = text::first_index(url, host);
    assert(text::first_at(url, host, k));
    if k < n {
        assert(!text::occurs_at(url, host, k));
    } else if k > n {
        assert(!text::occurs_at(url, host, n));
    }
}

/// The address of a repository is the host, colons or slashes, the workspace, a slash and the
/// slug, with or without `.git` at its end, whatever scheme and user stand in front of it.
pub proof fn law_remotes_are_read(
    pre: Seq<char>,
    seps: Seq<char>,
    workspace: Seq<char>,
    slug: Seq<char>,
    git: bool,
)
    requires
        !pre.contains('b'),
        forall|i: int| 0 <= i < seps.len() ==> (#[trigger] seps[i]) == ':' || seps[i] == '/',
        workspace.len() > 0 && workspace[0] != ':',
        !workspace.contains('/'),
        slug.len() > 0,
        slug.len() >= 4 ==> slug.skip(slug.len() - 4) != ".git"@,
        !text::has_text(
            seps + workspace + "/"@ + slug + if git {
                ".git"@
            } else {
                ""@
            },
            "bitbucket.org"@,
        ),
    ensures
        ({
            let url = pre + "bitbucket.org"@ + (seps + workspace + "/"@ + slug + if git {
                ".git"@
            } else {
                ""@
            });
            let path = remote_path(url);
            let p = number::position(path, '/');
            &&& text::has_text(url, "bitbucket.org"@)
            &&& path == workspace + "/"@ + slug
            &&& 0 < p < path.len() - 1
            &&& path.take(p) == workspace
            &&& path.skip(p + 1) == slug
        }),
{
    reveal_strlit("bitbucket.org");
    reveal_strlit("/");
    reveal_strlit(".git");
    reveal_strlit("");
    let host = "bitbucket.org"@;
    let end = if git {
        ".git"@
    } else {
        ""@
    };
    let rest = seps + workspace + "/"@ + slug + end;
    let url = pre + host + rest;
    let path = workspace + "/"@ + slug;
    let dot = seq!['.', 'g', 'i', 't'];
    assert(".git"@ =~= dot);
    lemma_host_found(pre, rest);
    assert(url.skip(pre.len() as int + host.len()) =~= rest);
    assert(after_host(url) == rest);
    assert(rest =~= seps + (path + end));
    assert(workspace[0] != '/') by {
        assert(workspace.contains(workspace[0]));
    }
    assert((path + end)[0] == workspace[0]);
    lemma_separators(seps, path + end);
    assert(path.len() >= 4 ==> path.skip(path.len() - 4) != dot) by {
        if path.len() >= 4 {
            let tail = path.skip(path.len() - 4);
            if slug.len() >= 4 {
                assert(tail =~= slug.skip(slug.len() - 4));
            } else {
                let k = 3 - slug.len();
                assert(tail[k] == '/');
            }
        }
    }
    assert(without_git(path) == path);
    if git {
        let whole = path + end;
        assert(whole.skip(whole.len() - 4) =~= dot);
        assert(whole.take(whole.len() - 4) =~= path);
    } else {
        assert(path + end =~= path);
    }
    let n = workspace.len() as int;
    assert(path.take(n) =~= workspace);
    assert(path[n] == '/');
    number::lemma_position(path, '/', n);
    assert(path.skip(n + 1) =~= slug);
}

/// The pull requests of a repository are asked for below its workspace and its slug.
pub proof fn law_pull_requests_are_asked_for_by_repo(workspace: Seq<char>, slug: Seq<char>)
    ensures
        pull_requests(workspace, slug) == "https://api.bitbucket.org/2.0/repositories/"@ + workspace
            + "/"@ + slug + "/pullrequests"@,
{
    reveal_strlit("https://api.bitbucket.org/2.0/repositories/");
    reveal_strlit("https://api.bitbucket.org/2.0");
    reveal_strlit("/repositories/");
    assert(pull_requests(workspace, slug) =~= "https://api.bitbucket.org/2.0/repositories/"@
        + workspace + "/"@ + slug + "/pullrequests"@);
}

} // verus!
