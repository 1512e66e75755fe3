//! Pull requests on GitHub, as its command line client lists them.

use vstd::prelude::*;

use crate::pr::PrInfo;
use crate::pr::PrState;
use crate::text;

verus! {

/// Whether the address of a repository's `origin` looks like GitHub's. One without
/// an origin, or with an origin that has no address, is not on GitHub.
pub fn is_github_repo(origin: Option<&str>) -> (r: bool)
    ensures
        r == (origin matches Some(url) && text::has_text(url@, "github.com"@)),
{
    match origin {
        Some(url) => text::contains_text(url, "github.com"),
        None => false,
    }
}

/// A pull request as the client reports it.
pub struct RawPr {
    pub number: u64,
    pub title: String,
    pub body: String,
    pub head_ref_name: String,
    pub url: String,
    pub merged_at: Option<String>,
    pub closed_at: Option<String>,
    /// The identifiers of its commits.
    pub commits: Vec<String>,
}

/// A merged pull request is closed too, so that it was merged counts first.
pub open spec fn state_of(raw: RawPr) -> PrState {
    if raw.merged_at is Some {
        PrState::Merged
    } else if raw.closed_at is Some {
        PrState::Closed
    } else {
        PrState::Open
    }
}

pub open spec fn is_info_of(raw: RawPr, info: PrInfo) -> bool {
    info == PrInfo {
        number: raw.number,
        title: raw.title,
        body: raw.body,
        head_branch: raw.head_ref_name,
        url: raw.url,
        state: state_of(raw),
        commit_oids: raw.commits,
    }
}

/// `infos` are the pull requests of `raws`, one for one.
pub open spec fn are_infos_of(raws: Seq<RawPr>, infos: Seq<PrInfo>) -> bool {
    &&& infos.len() == raws.len()
    &&& forall|i: int| 0 <= i < raws.len() ==> is_info_of(raws[i], #[trigger] infos[i])
}

fn info_of(raw: RawPr) -> (r: PrInfo)
    ensures
        is_info_of(raw, r),
{
    let state = if raw.merged_at.is_some() {
        PrState::Merged
    } else if raw.closed_at.is_some() {
        PrState::Closed
    } else {
        PrState::Open
    };
    PrInfo {
        number: raw.number,
        title: raw.title,
        body: raw.body,
        head_branch: raw.head_ref_name,
        url: raw.url,
        state,
        commit_oids: raw.commits,
    }
}

/// The pull requests that the client reports, or what went wrong.
pub fn try_fetch(reply: Result<Vec<RawPr>, String>) -> (r: Result<Vec<PrInfo>, String>)
    ensures
        match reply {
            Ok(raws) => r matches Ok(infos) && are_infos_of(raws@, infos@),
            Err(e) => r == Err::<Vec<PrInfo>, String>(e),
        },
{
    let mut rest = match reply {
        Ok(raws) => raws,
        Err(e) => {
            return Err(e);
        },
    };
    let ghost raws = rest@;
    let n = rest.len();
    let mut out: Vec<PrInfo> = Vec::new();
    assert(raws.skip(0) =~= raws);
    for i in 0..n
        invariant
            n == raws.len(),
            rest@ == raws.skip(i as int),
            out@.len() == i,
            forall|j: int| 0 <= j < i ==> is_info_of(raws[j], #[trigger] out@[j]),
    {
        let raw = rest.remove(0);
        assert(raw == raws[i as int]);
        out.push(info_of(raw));
        assert(rest@ =~= raws.skip(i + 1));
    }
    Ok(out)
}

/// The pull requests that the client reports; none where anything went wrong, so
/// that the absence of the client spoils nothing else.
pub fn fetch_prs(reply: Result<Vec<RawPr>, String>) -> (r: Vec<PrInfo>)
    ensures
        match reply {
            Ok(raws) => are_infos_of(raws@, r@),
            Err(_) => r@.len() == 0,
        },
{
    match try_fetch(reply) {
        Ok(infos) => infos,
        Err(_) => Vec::new(),
    }
}

/// What the client is asked for: the user's last fifty pull requests.
pub open spec fn query() -> Seq<Seq<char>> {
    seq![
        "pr"@,
        "list"@,
        "--author"@,
        "@me"@,
        "--state"@,
        "all"@,
        "--limit"@,
        "50"@,
        "--json"@,
        "number,title,body,headRefName,url,mergedAt,closedAt,commits"@,
    ]
}

/// The arguments of the client.
pub fn query_args() -> (r: Vec<String>)
    ensures
        text::texts(r@) == query(),
{
    let mut out: Vec<String> = Vec::new();
    out.push("pr".to_owned());
    out.push("list".to_owned());
    out.push("--author".to_owned());
    out.push("@me".to_owned());
    out.push("--state".to_owned());
    out.push("all".to_owned());
    out.push("--limit".to_owned());
    out.push("50".to_owned());
    out.push("--json".to_owned());
    out.push("number,title,body,headRefName,url,mergedAt,closedAt,commits".to_owned());
    assert(text::texts(out@) =~= query());
    out
}

/// What is said of a client that failed.
pub fn failure(args: &Vec<String>, stderr: &str) -> (r: String)
    ensures
        r@ == "gh "@ + text::joined(text::texts(args@), " "@) + " failed: "@ + text::trim(stderr@),
{
    let mut out = "gh ".to_owned();
    out.append(text::join_texts(args, " ").as_str());
    out.append(" failed: ");
    out.append(text::trimmed(stderr));
    out
}

/// What is told of a pull request is what the client reports: merged where it was merged,
/// closed where it was closed without that, and open otherwise.
pub proof fn law_pull_requests_are_told_as_reported(raws: Seq<RawPr>, infos: Seq<PrInfo>, i: int)
    requires
        are_infos_of(raws, infos),
        0 <= i < raws.len(),
    ensures
        infos.len() == raws.len(),
        infos[i].number == raws[i].number,
        infos[i].title@ == raws[i].title@,
        infos[i].body@ == raws[i].body@,
        infos[i].head_branch@ == raws[i].head_ref_name@,
        infos[i].url@ == raws[i].url@,
        text::texts(infos[i].commit_oids@) == text::texts(raws[i].commits@),
        infos[i].state == PrState::Merged <==> raws[i].merged_at is Some,
        infos[i].state == PrState::Closed <==> raws[i].merged_at is None && raws[i].closed_at is Some,
        infos[i].state == PrState::Open <==> raws[i].merged_at is None && raws[i].closed_at is None,
{
    assert(is_info_of(raws[i], infos[i]));
}

} // verus!
