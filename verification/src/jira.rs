//! Talking to Jira Cloud: what to send, and what an answer means.

use vstd::prelude::*;

use crate::config::JiraConfig;
use crate::dates;
use crate::dates::Instant;
use crate::hours;
use crate::http;
use crate::text;

verus! {

/// Where the API token is kept in the keyring.
pub const KEYRING_SERVICE: &'static str = "dlog";

pub struct JiraClient {
    /// Without a slash at its end.
    pub base_url: String,
    pub email: String,
    pub token: String,
}

#[derive(Debug)]
pub struct IssueInfo {
    pub key: String,
    pub summary: String,
    pub status: String,
}

impl Clone for IssueInfo {
    fn clone(&self) -> (r: Self)
        ensures
            r == *self,
    {
        IssueInfo {
            key: self.key.clone(),
            summary: self.summary.clone(),
            status: self.status.clone(),
        }
    }
}

#[derive(Debug)]
pub enum WorklogOutcome {
    Logged { worklog_id: String },
    /// The status is zero where there was no response.
    Failed { status: u16, message: String },
}

/// `s` without the slashes at its end.
pub open spec fn without_slashes(s: Seq<char>) -> Seq<char>
    decreases s.len(),
{
    if s.len() > 0 && s.last() == '/' {
        without_slashes(s.drop_last())
    } else {
        s
    }
}

fn strip_slashes(s: &str) -> (r: String)
    ensures
        r@ == without_slashes(s@),
{
    let mut out = s.to_owned();
    loop
        invariant
            without_slashes(out@) == without_slashes(s@),
        ensures
            out@ == without_slashes(s@),
        decreases out@.len(),
    {
        let n = out.as_str().unicode_len();
        if n == 0 || out.as_str().get_char(n - 1) != '/' {
            break;
        }
        let _ = out.pop();
    }
    out
}

/// A worklog to post.
pub struct WorklogRequest {
    pub url: String,
    pub authorization: String,
    pub time_spent_seconds: u64,
    pub started: String,
}

/// A search to post.
pub struct SearchRequest {
    pub url: String,
    pub authorization: String,
    pub jql: String,
    pub fields: Vec<String>,
    pub max_results: u64,
}

/// What came of a request.
pub enum Reply {
    /// It could not be sent, or nothing came back.
    Unanswered { error: String },
    Answered { status: u16, body: Option<String> },
}

/// `s` in double quotes.
pub open spec fn quoted(s: Seq<char>) -> Seq<char> {
    "\""@ + s + "\""@
}

pub open spec fn all_quoted(s: Seq<Seq<char>>) -> Seq<Seq<char>> {
    Seq::new(s.len(), |i: int| quoted(s[i]))
}

/// The issues of the user in one of the statuses, the last updated first.
pub open spec fn jql(statuses: Seq<Seq<char>>) -> Seq<char> {
    "assignee = currentUser() AND status in ("@ + text::joined(all_quoted(statuses), ","@)
        + ") ORDER BY updated DESC"@
}

fn quote_all(v: &Vec<String>) -> (r: Vec<String>)
    ensures
        text::texts(r@) == all_quoted(text::texts(v@)),
{
    let mut out: Vec<String> = Vec::new();
    let ghost all = all_quoted(text::texts(v@));
    for i in 0..v.len()
        invariant
            all == all_quoted(text::texts(v@)),
            text::texts(out@) == all.take(i as int),
    {
        let mut q = "\"".to_owned();
        q.append(v[i].as_str());
        q.append("\"");
        let ghost before = text::texts(out@);
        let ghost last = q@;
        out.push(q);
        assert(text::texts(v@)[i as int] == v@[i as int]@);
        assert(all[i as int] == last);
        assert(text::texts(out@) =~= before.push(last));
        assert(all.take(i + 1) =~= before.push(last));
    }
    assert(all.take(v@.len() as int) =~= all);
    out
}

/// The settings say where Jira is and who the user is.
pub open spec fn is_complete(cfg: JiraConfig) -> bool {
    cfg.base_url@.len() > 0 && cfg.email@.len() > 0
}

impl JiraClient {
    /// The client for the settings and the token that belongs to them. There is none
    /// for incomplete settings.
    pub fn from_config(cfg: &JiraConfig, token: String) -> (r: Result<Self, String>)
        ensures
            match r {
                Ok(c) => {
                    &&& is_complete(*cfg)
                    &&& c.base_url@ == without_slashes(cfg.base_url@)
                    &&& c.email@ == cfg.email@
                    &&& c.token == token
                },
                Err(e) => !is_complete(*cfg) && e@ == "settings are incomplete"@,
            },
    {
        if cfg.base_url.as_str().unicode_len() == 0 || cfg.email.as_str().unicode_len() == 0 {
            return Err("settings are incomplete".to_owned());
        }
        Ok(
            JiraClient {
                base_url: strip_slashes(cfg.base_url.as_str()),
                email: cfg.email.clone(),
                token,
            },
        )
    }

    fn authorization(&self) -> (r: String)
        ensures
            r@ == "Basic "@ + http::credentials(self.email@, self.token@),
    {
        http::authorization(http::basic_auth(self.email.as_str(), self.token.as_str()).as_str())
    }

    /// The worklog to post on an issue. No time is no worklog.
    pub fn post_worklog(&self, issue_key: &str, started: Instant, seconds: u64) -> (r: Result<
        WorklogRequest,
        String,
    >)
        requires
            started.valid(),
        ensures
            match r {
                Ok(q) => {
                    &&& seconds > 0
                    &&& q.url@ == self.base_url@ + "/rest/api/3/issue/"@ + issue_key@ + "/worklog"@
                    &&& q.authorization@ == "Basic "@ + http::credentials(self.email@, self.token@)
                    &&& q.time_spent_seconds == seconds
                    &&& dates::shown_for_jira(started, q.started@)
                },
                Err(e) => seconds == 0 && e@ == "refusing to post a zero-second worklog for "@
                    + issue_key@,
            },
    {
        if seconds == 0 {
            let mut e = "refusing to post a zero-second worklog for ".to_owned();
            e.append(issue_key);
            return Err(e);
        }
        let mut url = self.base_url.clone();
        url.append("/rest/api/3/issue/");
        url.append(issue_key);
        url.append("/worklog");
        Ok(
            WorklogRequest {
                url,
                authorization: self.authorization(),
                time_spent_seconds: seconds,
                started: started.for_jira(),
            },
        )
    }

    /// The search for the user's issues in the given statuses, fifty at most.
    /// Without a status there is nothing to search for.
    pub fn search_issues(&self, statuses: &Vec<String>) -> (r: Option<SearchRequest>)
        ensures
            match r {
                Some(q) => {
                    &&& statuses@.len() > 0
                    &&& q.url@ == self.base_url@ + "/rest/api/3/search/jql"@
                    &&& q.authorization@ == "Basic "@ + http::credentials(self.email@, self.token@)
                    &&& q.jql@ == jql(text::texts(statuses@))
                    &&& text::texts(q.fields@) == seq!["summary"@, "status"@]
                    &&& q.max_results == 50
                },
                None => statuses@.len() == 0,
            },
    {
        if statuses.len() == 0 {
            return None;
        }
        let mut q = "assignee = currentUser() AND status in (".to_owned();
        q.append(text::join_texts(&quote_all(statuses), ",").as_str());
        q.append(") ORDER BY updated DESC");
        let mut url = self.base_url.clone();
        url.append("/rest/api/3/search/jql");
        let mut fields: Vec<String> = Vec::new();
        fields.push("summary".to_owned());
        fields.push("status".to_owned());
        assert(text::texts(fields@) =~= seq!["summary"@, "status"@]);
        Some(
            SearchRequest {
                url,
                authorization: self.authorization(),
                jql: q,
                fields,
                max_results: 50,
            },
        )
    }
}

/// A member of a JSON object, as far as it matters here.
pub enum Field {
    Text(String),
    /// The elements; one that is no string is missing.
    List(Vec<Option<String>>),
    /// The members; one that is no string has no value.
    Members(Vec<(String, Option<String>)>),
    Other,
}

/// What a member of a JSON object says.
pub enum FieldView {
    Text(Seq<char>),
    List(Seq<Option<Seq<char>>>),
    Members(Seq<(Seq<char>, Option<Seq<char>>)>),
    Other,
}

pub open spec fn opt_view(s: Option<String>) -> Option<Seq<char>> {
    match s {
        Some(t) => Some(t@),
        None => None,
    }
}

impl View for Field {
    type V = FieldView;

    open spec fn view(&self) -> FieldView {
        match self {
            Field::Text(s) => FieldView::Text(s@),
            Field::List(v) => FieldView::List(Seq::new(v@.len(), |i: int| opt_view(v@[i]))),
            Field::Members(v) => FieldView::Members(
                Seq::new(v@.len(), |i: int| (v@[i].0@, opt_view(v@[i].1))),
            ),
            Field::Other => FieldView::Other,
        }
    }
}

pub open spec fn fields_view(v: Seq<(String, Field)>) -> Seq<(Seq<char>, FieldView)> {
    Seq::new(v.len(), |i: int| (v[i].0@, v[i].1@))
}

/// The members of the JSON object that a text holds, none where it holds another
/// JSON value; or nothing where it is no JSON.
pub uninterp spec fn json_fields(s: Seq<char>) -> Option<Seq<(Seq<char>, FieldView)>>;

/// `serde_json::from_str`: the value of a JSON text, named by `json_fields`.
#[verifier::external_body]
fn read_json(s: &str) -> (r: Option<Vec<(String, Field)>>)
    ensures
        match r {
            Some(v) => json_fields(s@) == Some(fields_view(v@)),
            None => json_fields(s@) is None,
        },
{
    let to_text = |v: serde_json::Value| v.as_str().map(str::to_owned);
    let to_field = |v: serde_json::Value| match v {
        serde_json::Value::String(t) => Field::Text(t),
        serde_json::Value::Array(a) => Field::List(a.into_iter().map(to_text).collect()),
        serde_json::Value::Object(o) => Field::Members(o.into_iter().map(|(k, v)| (k, to_text(v))).collect()),
        _ => Field::Other,
    };
    match serde_json::from_str(s).ok()? {
        serde_json::Value::Object(o) => Some(o.into_iter().map(|(k, v)| (k, to_field(v))).collect()),
        _ => Some(Vec::new()),
    }
}

/// The first member with a name.
pub open spec fn member(fields: Seq<(Seq<char>, FieldView)>, name: Seq<char>) -> FieldView
    decreases fields.len(),
{
    if fields.len() == 0 {
        FieldView::Other
    } else if fields[0].0 == name {
        fields[0].1
    } else {
        member(fields.drop_first(), name)
    }
}

fn find_member<'a>(fields: &'a Vec<(String, Field)>, name: &str) -> (r: Option<&'a Field>)
    ensures
        match r {
            Some(f) => member(fields_view(fields@), name@) == f@,
            None => member(fields_view(fields@), name@) == FieldView::Other,
        },
{
    let ghost all = fields_view(fields@);
    assert(all.skip(0) =~= all);
    for i in 0..fields.len()
        invariant
            all == fields_view(fields@),
            member(all, name@) == member(all.skip(i as int), name@),
    {
        assert(all.skip(i as int)[0] == (fields@[i as int].0@, fields@[i as int].1@));
        if text::same_text(fields[i].0.as_str(), name) {
            return Some(&fields[i].1);
        }
        assert(all.skip(i as int).drop_first() =~= all.skip(i + 1));
    }
    None
}

/// The strings of a list.
pub open spec fn strings_in(v: Seq<Option<Seq<char>>>) -> Seq<Seq<char>>
    decreases v.len(),
{
    if v.len() == 0 {
        Seq::empty()
    } else {
        match v.last() {
            Some(s) => strings_in(v.drop_last()).push(s),
            None => strings_in(v.drop_last()),
        }
    }
}

/// The members whose value is a string, each as `name: value`.
pub open spec fn pairs_in(v: Seq<(Seq<char>, Option<Seq<char>>)>) -> Seq<Seq<char>>
    decreases v.len(),
{
    if v.len() == 0 {
        Seq::empty()
    } else {
        match v.last().1 {
            Some(s) => pairs_in(v.drop_last()).push(v.last().0 + ": "@ + s),
            None => pairs_in(v.drop_last()),
        }
    }
}

/// The messages of the member `errorMessages`.
pub open spec fn general_messages(fields: Seq<(Seq<char>, FieldView)>) -> Seq<Seq<char>> {
    match member(fields, "errorMessages"@) {
        FieldView::List(v) => strings_in(v),
        _ => Seq::empty(),
    }
}

/// The messages of the member `errors`.
pub open spec fn field_messages(fields: Seq<(Seq<char>, FieldView)>) -> Seq<Seq<char>> {
    match member(fields, "errors"@) {
        FieldView::Members(v) => pairs_in(v),
        _ => Seq::empty(),
    }
}

/// What an error response says.
pub open spec fn message_of(fields: Seq<(Seq<char>, FieldView)>) -> Option<Seq<char>> {
    if general_messages(fields).len() > 0 {
        Some(text::joined(general_messages(fields), "; "@))
    } else if field_messages(fields).len() > 0 {
        Some(text::joined(field_messages(fields), "; "@))
    } else {
        None
    }
}

fn list_strings(v: &Vec<Option<String>>) -> (r: Vec<String>)
    ensures
        text::texts(r@) == strings_in(Seq::new(v@.len(), |i: int| opt_view(v@[i]))),
{
    let ghost all = Seq::new(v@.len(), |i: int| opt_view(v@[i]));
    let mut out: Vec<String> = Vec::new();
    assert(text::texts(out@) =~= Seq::empty());
    for i in 0..v.len()
        invariant
            all == Seq::new(v@.len(), |i: int| opt_view(v@[i])),
            text::texts(out@) == strings_in(all.take(i as int)),
    {
        let ghost before = text::texts(out@);
        proof {
            assert(all.take(i + 1).drop_last() =~= all.take(i as int));
            assert(all.take(i + 1).last() == opt_view(v@[i as int]));
        }
        if let Some(s) = &v[i] {
            out.push(s.clone());
            assert(text::texts(out@) =~= before.push(s@));
        }
    }
    assert(all.take(all.len() as int) =~= all);
    out
}

fn member_strings(v: &Vec<(String, Option<String>)>) -> (r: Vec<String>)
    ensures
        text::texts(r@) == pairs_in(Seq::new(v@.len(), |i: int| (v@[i].0@, opt_view(v@[i].1)))),
{
    let ghost all = Seq::new(v@.len(), |i: int| (v@[i].0@, opt_view(v@[i].1)));
    let mut out: Vec<String> = Vec::new();
    assert(text::texts(out@) =~= Seq::empty());
    for i in 0..v.len()
        invariant
            all == Seq::new(v@.len(), |i: int| (v@[i].0@, opt_view(v@[i].1))),
            text::texts(out@) == pairs_in(all.take(i as int)),
    {
        let ghost before = text::texts(out@);
        proof {
            assert(all.take(i + 1).drop_last() =~= all.take(i as int));
            assert(all.take(i + 1).last() == (v@[i as int].0@, opt_view(v@[i as int].1)));
        }
        if let Some(s) = &v[i].1 {
            let mut m = v[i].0.clone();
            m.append(": ");
            m.append(s.as_str());
            let ghost said = m@;
            out.push(m);
            assert(text::texts(out@) =~= before.push(said));
        }
    }
    assert(all.take(all.len() as int) =~= all);
    out
}

/// What an error response says, out of its members: the general messages, or else
/// those that belong to a field.
pub fn message_in(fields: &Vec<(String, Field)>) -> (r: Option<String>)
    ensures
        opt_view(r) == message_of(fields_view(fields@)),
{
    if let Some(Field::List(v)) = find_member(fields, "errorMessages") {
        let msgs = list_strings(v);
        if msgs.len() > 0 {
            return Some(text::join_texts(&msgs, "; "));
        }
    }
    if let Some(Field::Members(v)) = find_member(fields, "errors") {
        let msgs = member_strings(v);
        if msgs.len() > 0 {
            return Some(text::join_texts(&msgs, "; "));
        }
    }
    None
}

/// What the body of an error response says.
pub open spec fn error_message(body: Seq<char>) -> Option<Seq<char>> {
    match json_fields(body) {
        Some(fields) => message_of(fields),
        None => None,
    }
}

/// What the body of an error response says, for a human reader, if it can be
/// found.
pub fn extract_error_message(body: &str) -> (r: Option<String>)
    ensures
        opt_view(r) == error_message(body@),
{
    match read_json(body) {
        Some(fields) => message_in(&fields),
        None => None,
    }
}

/// The message of an error response; its whole body where no message is found.
pub open spec fn failure_text(body: Option<String>) -> Seq<char> {
    match error_message(http::body_text(body)) {
        Some(m) => m,
        None => http::body_text(body),
    }
}

fn failure_message(body: Option<String>) -> (r: String)
    ensures
        r@ == failure_text(body),
{
    let whole = http::body_or_none(body);
    match extract_error_message(whole.as_str()) {
        Some(m) => m,
        None => whole,
    }
}

/// The identifier of a worklog in the response to its request.
pub open spec fn worklog_id(fields: Seq<(Seq<char>, FieldView)>) -> Seq<char> {
    match member(fields, "id"@) {
        FieldView::Text(id) => id,
        _ => "?"@,
    }
}

/// The identifier of a worklog, out of the members of the response.
pub fn id_in(fields: &Vec<(String, Field)>) -> (r: String)
    ensures
        r@ == worklog_id(fields_view(fields@)),
{
    if let Some(Field::Text(id)) = find_member(fields, "id") {
        return id.clone();
    }
    "?".to_owned()
}

/// What a response to a worklog means.
pub open spec fn is_outcome(reply: Reply, r: Result<WorklogOutcome, String>) -> bool {
    match reply {
        Reply::Unanswered { error } => r matches Ok(
            WorklogOutcome::Failed { status, message },
        ) && status == 0 && message@ == error@,
        Reply::Answered { status, body } => if http::is_success(status) {
            match (body, r) {
                (Some(b), Ok(WorklogOutcome::Logged { worklog_id: id })) => json_fields(b@) matches Some(
                    fields,
                ) && id@ == worklog_id(fields),
                (Some(b), Err(e)) => json_fields(b@) is None && e@ == "parsing Jira response JSON"@,
                (None, Err(e)) => e@ == "parsing Jira response JSON"@,
                _ => false,
            }
        } else {
            r matches Ok(WorklogOutcome::Failed { status: s, message }) && s == status && message@
                == failure_text(body)
        },
    }
}

/// What came of posting a worklog.
pub fn worklog_outcome(reply: Reply) -> (r: Result<WorklogOutcome, String>)
    ensures
        is_outcome(reply, r),
{
    let (status, body) = match reply {
        Reply::Unanswered { error } => {
            return Ok(WorklogOutcome::Failed { status: 0, message: error });
        },
        Reply::Answered { status, body } => (status, body),
    };
    if !http::succeeded(status) {
        return Ok(WorklogOutcome::Failed { status, message: failure_message(body) });
    }
    let fields = match &body {
        Some(b) => read_json(b.as_str()),
        None => None,
    };
    match fields {
        Some(f) => Ok(WorklogOutcome::Logged { worklog_id: id_in(&f) }),
        None => Err("parsing Jira response JSON".to_owned()),
    }
}

/// What is wrong with a response to a search, if anything is.
pub fn search_failure(status: u16, body: Option<String>) -> (r: Option<String>)
    ensures
        match r {
            None => http::is_success(status),
            Some(e) => !http::is_success(status) && e@ == "Jira search HTTP "@ + text::decimal(
                status as nat,
            ) + ": "@ + failure_text(body),
        },
{
    if http::succeeded(status) {
        return None;
    }
    let mut out = "Jira search HTTP ".to_owned();
    out.append(text::decimal_text(status as u64).as_str());
    out.append(": ");
    out.append(failure_message(body).as_str());
    Some(out)
}

/// A duration as Jira takes it: seconds, in whole minutes, and never less than
/// none.
pub open spec fn jira_seconds(v: int) -> int {
    let minutes = hours::rounded_minutes(v);
    if minutes < 0 {
        0
    } else {
        60 * minutes
    }
}

/// A duration, rounded to the nearest minute, in seconds.
pub fn hours_to_jira_seconds(hours: i64) -> (r: u64)
    ensures
        r == jira_seconds(hours as int),
{
    let minutes = hours::nearest_minutes(hours);
    if minutes < 0 {
        0
    } else {
        assert(minutes <= 153722867281);
        (minutes as u64) * 60
    }
}

pub proof fn lemma_seconds_bound(v: i64)
    ensures
        0 <= jira_seconds(v as int) <= u64::MAX,
{
}

/// Jira logs whole minutes, and a worklog is off the estimate by half a minute
/// at most.
pub proof fn law_worklogs_are_whole_minutes(v: int)
    ensures
        jira_seconds(v) % 60 == 0,
        jira_seconds(v) >= 0,
        v >= 0 ==> -30_000_000 <= jira_seconds(v) * 1_000_000 - v <= 30_000_000,
{
    hours::law_rounding_is_to_the_nearest_minute(v);
}

/// The slashes at the end of an address are taken off, all of them and nothing else.
pub proof fn law_slashes_are_taken_off(s: Seq<char>, slashes: Seq<char>)
    requires
        s.len() > 0 ==> s.last() != '/',
        forall|i: int| 0 <= i < slashes.len() ==> (#[trigger] slashes[i]) == '/',
    ensures
        without_slashes(s + slashes) == s,
    decreases slashes.len(),
{
    let all = s + slashes;
    if slashes.len() == 0 {
        assert(all =~= s);
    } else {
        assert(all.last() == slashes[slashes.len() - 1]);
        assert(all.drop_last() =~= s + slashes.drop_last());
        law_slashes_are_taken_off(s, slashes.drop_last());
    }
}

/// A member of an object is the first one with its name; without one there is nothing to read.
pub proof fn law_members_go_by_name(fields: Seq<(Seq<char>, FieldView)>, name: Seq<char>, i: int)
    ensures
        0 <= i < fields.len() && fields[i].0 == name && (forall|k: int|
            0 <= k < i ==> (#[trigger] fields[k]).0 != name) ==> member(fields, name)
            == fields[i].1,
        (forall|k: int| 0 <= k < fields.len() ==> (#[trigger] fields[k]).0 != name) ==> member(
            fields,
            name,
        ) == FieldView::Other,
    decreases fields.len(),
{
    if fields.len() > 0 && fields[0].0 != name {
        let rest = fields.drop_first();
        law_members_go_by_name(rest, name, i - 1);
        if forall|k: int| 0 <= k < fields.len() ==> (#[trigger] fields[k]).0 != name {
            assert forall|k: int| 0 <= k < rest.len() implies (#[trigger] rest[k]).0 != name by {
                assert(rest[k] == fields[k + 1]);
            }
        }
        if 0 < i < fields.len() && fields[i].0 == name && (forall|k: int|
            0 <= k < i ==> (#[trigger] fields[k]).0 != name) {
            assert(rest[i - 1] == fields[i]);
            assert forall|k: int| 0 <= k < i - 1 implies (#[trigger] rest[k]).0 != name by {
                assert(rest[k] == fields[k + 1]);
            }
        }
    } else if fields.len() > 0 {
        if i > 0 {
            assert(fields[0].0 == name);
        }
    }
}

/// The strings of a list are taken one by one, in order; what is no string is left out.
pub proof fn law_strings_are_taken_one_by_one(
    a: Seq<Option<Seq<char>>>,
    b: Seq<Option<Seq<char>>>,
    s: Seq<char>,
)
    ensures
        strings_in(a + b) == strings_in(a) + strings_in(b),
        strings_in(seq![Some(s)]) == seq![s],
        strings_in(seq![None]) == Seq::<Seq<char>>::empty(),
    decreases b.len(),
{
    let one = seq![Some(s)];
    let none: Seq<Option<Seq<char>>> = seq![None];
    assert(one.drop_last() =~= Seq::empty());
    assert(none.drop_last() =~= Seq::empty());
    reveal_with_fuel(strings_in, 2);
    assert(strings_in(one) =~= seq![s]);
    if b.len() == 0 {
        assert(a + b =~= a);
        assert(strings_in(a + b) =~= strings_in(a) + strings_in(b));
    } else {
        law_strings_are_taken_one_by_one(a, b.drop_last(), s);
        assert((a + b).drop_last() =~= a + b.drop_last());
        assert((a + b).last() == b.last());
        assert(strings_in(a + b) =~= strings_in(a) + strings_in(b));
    }
}

/// The members of an object are told one by one, in order, each as its name, a colon, a blank
/// and its string; what is no string is left out.
pub proof fn law_pairs_are_told_one_by_one(
    a: Seq<(Seq<char>, Option<Seq<char>>)>,
    b: Seq<(Seq<char>, Option<Seq<char>>)>,
    name: Seq<char>,
    s: Seq<char>,
)
    ensures
        pairs_in(a + b) == pairs_in(a) + pairs_in(b),
        pairs_in(seq![(name, Some(s))]) == seq![name + ": "@ + s],
        pairs_in(seq![(name, None)]) == Seq::<Seq<char>>::empty(),
    decreases b.len(),
{
    let one = seq![(name, Some(s))];
    let none: Seq<(Seq<char>, Option<Seq<char>>)> = seq![(name, None)];
    assert(one.drop_last() =~= Seq::empty());
    assert(none.drop_last() =~= Seq::empty());
    reveal_with_fuel(pairs_in, 2);
    assert(pairs_in(one) =~= seq![name + ": "@ + s]);
    if b.len() == 0 {
        assert(a + b =~= a);
        assert(pairs_in(a + b) =~= pairs_in(a) + pairs_in(b));
    } else {
        law_pairs_are_told_one_by_one(a, b.drop_last(), name, s);
        assert((a + b).drop_last() =~= a + b.drop_last());
        assert((a + b).last() == b.last());
        assert(pairs_in(a + b) =~= pairs_in(a) + pairs_in(b));
    }
}

proof fn lemma_string_taken(v: Seq<Option<Seq<char>>>, k: int) -> (n: int)
    requires
        0 <= k < v.len(),
        v[k] is Some,
    ensures
        0 <= n < strings_in(v).len(),
        strings_in(v)[n] == v[k]->0,
    decreases v.len(),
{
    if k < v.len() - 1 {
        assert(v.drop_last()[k] == v[k]);
        lemma_string_taken(v.drop_last(), k)
    } else {
        strings_in(v.drop_last()).len() as int
    }
}

proof fn lemma_pair_told(v: Seq<(Seq<char>, Option<Seq<char>>)>, k: int) -> (n: int)
    requires
        0 <= k < v.len(),
        v[k].1 is Some,
    ensures
        0 <= n < pairs_in(v).len(),
        pairs_in(v)[n] == v[k].0 + ": "@ + v[k].1->0,
    decreases v.len(),
{
    if k < v.len() - 1 {
        assert(v.drop_last()[k] == v[k]);
        lemma_pair_told(v.drop_last(), k)
    } else {
        pairs_in(v.drop_last()).len() as int
    }
}

/// There is a message, and it says something.
pub open spec fn tells(message: Option<Seq<char>>, s: Seq<char>) -> bool {
    message matches Some(m) && text::has_text(m, s)
}

/// Every general message of an error response is told; without one, every message that
/// belongs to a field is. Where there is neither, nothing is told.
pub proof fn law_messages_are_all_told(
    fields: Seq<(Seq<char>, FieldView)>,
    general: Seq<Option<Seq<char>>>,
    special: Seq<(Seq<char>, Option<Seq<char>>)>,
    k: int,
)
    requires
        member(fields, "errorMessages"@) == FieldView::List(general),
        member(fields, "errors"@) == FieldView::Members(special),
    ensures
        0 <= k < general.len() && general[k] is Some ==> tells(
            message_of(fields),
            general[k]->0,
        ),
        (forall|i: int| 0 <= i < general.len() ==> (#[trigger] general[i]) is None) && 0 <= k
            < special.len() && special[k].1 is Some ==> tells(
            message_of(fields),
            special[k].0 + ": "@ + special[k].1->0,
        ),
        (forall|i: int| 0 <= i < general.len() ==> (#[trigger] general[i]) is None) && (forall|
            i: int,
        |
            0 <= i < special.len() ==> (#[trigger] special[i]).1 is None) ==> message_of(
            fields,
        ) is None,
{
    if 0 <= k < general.len() && general[k] is Some {
        let n = lemma_string_taken(general, k);
        text::law_joined_parts_are_there(strings_in(general), "; "@, n);
    }
    if forall|i: int| 0 <= i < general.len() ==> (#[trigger] general[i]) is None {
        lemma_no_strings(general);
        if 0 <= k < special.len() && special[k].1 is Some {
            let n = lemma_pair_told(special, k);
            text::law_joined_parts_are_there(pairs_in(special), "; "@, n);
        }
        if forall|i: int| 0 <= i < special.len() ==> (#[trigger] special[i]).1 is None {
            lemma_no_pairs(special);
        }
    }
}

proof fn lemma_no_strings(v: Seq<Option<Seq<char>>>)
    requires
        forall|i: int| 0 <= i < v.len() ==> (#[trigger] v[i]) is None,
    ensures
        strings_in(v).len() == 0,
    decreases v.len(),
{
    if v.len() > 0 {
        assert(v[v.len() - 1] is None);
        let rest = v.drop_last();
        assert forall|i: int| 0 <= i < rest.len() implies (#[trigger] rest[i]) is None by {
            assert(v[i] is None);
        }
        lemma_no_strings(rest);
    }
}

proof fn lemma_no_pairs(v: Seq<(Seq<char>, Option<Seq<char>>)>)
    requires
        forall|i: int| 0 <= i < v.len() ==> (#[trigger] v[i]).1 is None,
    ensures
        pairs_in(v).len() == 0,
    decreases v.len(),
{
    if v.len() > 0 {
        assert(v[v.len() - 1].1 is None);
        let rest = v.drop_last();
        assert forall|i: int| 0 <= i < rest.len() implies (#[trigger] rest[i]).1 is None by {
            assert(v[i].1 is None);
        }
        lemma_no_pairs(rest);
    }
}

/// Posting a worklog failed with a status.
pub open spec fn failed_with(r: Result<WorklogOutcome, String>, status: u16) -> bool {
    r matches Ok(WorklogOutcome::Failed { status: s, message }) && s == status
}

/// A worklog is logged if the status is in the two hundreds and the response is JSON; any
/// other status fails and is told, and so does a request without a response.
pub proof fn law_outcomes_go_by_the_status(reply: Reply, r: Result<WorklogOutcome, String>)
    requires
        is_outcome(reply, r),
    ensures
        reply matches Reply::Unanswered { error } ==> r matches Ok(
            WorklogOutcome::Failed { status, message },
        ) && status == 0 && message@ == error@,
        reply matches Reply::Answered { status, body } ==> {
            &&& !(200 <= status < 300) ==> failed_with(r, status)
            &&& 200 <= status < 300 && body is Some && json_fields((body->0)@) is Some ==> r is Ok
                && r->Ok_0 is Logged
            &&& 200 <= status < 300 && (body is None || json_fields((body->0)@) is None) ==> r is Err
        },
{
}

/// The identifier of a worklog is the text under `id`, and a question mark without one.
pub proof fn law_identifiers_are_read(fields: Seq<(Seq<char>, FieldView)>, id: Seq<char>, i: int)
    ensures
        0 <= i < fields.len() && fields[i].0 == "id"@ && fields[i].1 == FieldView::Text(id) && (
        forall|k: int| 0 <= k < i ==> (#[trigger] fields[k]).0 != "id"@) ==> worklog_id(fields)
            == id,
        (forall|k: int| 0 <= k < fields.len() ==> (#[trigger] fields[k]).0 != "id"@) ==> worklog_id(
            fields,
        ) == "?"@,
{
    law_members_go_by_name(fields, "id"@, i);
}

/// The search names every status in double quotes, with commas between them.
pub proof fn law_searches_name_every_status(statuses: Seq<Seq<char>>, s: Seq<char>) -> (m: Seq<
    char,
>)
    requires
        statuses.len() > 0,
    ensures
        jql(seq![s]) == "assignee = currentUser() AND status in (\""@ + s
            + "\") ORDER BY updated DESC"@,
        jql(statuses) == "assignee = currentUser() AND status in ("@ + m
            + ") ORDER BY updated DESC"@,
        jql(statuses.push(s)) == "assignee = currentUser() AND status in ("@ + m + ",\""@ + s
            + "\") ORDER BY updated DESC"@,
{
    reveal_strlit("assignee = currentUser() AND status in (\"");
    reveal_strlit("assignee = currentUser() AND status in (");
    reveal_strlit("\") ORDER BY updated DESC");
    reveal_strlit(") ORDER BY updated DESC");
    reveal_strlit("\"");
    reveal_strlit(",\"");
    reveal_strlit(",");
    let m = text::joined(all_quoted(statuses), ","@);
    let one = seq![quoted(s)];
    assert(all_quoted(seq![s]) =~= one);
    assert(all_quoted(statuses.push(s)) =~= all_quoted(statuses) + one);
    text::law_joining_puts_separators_between(all_quoted(statuses), one, ","@, quoted(s));
    assert(jql(seq![s]) =~= "assignee = currentUser() AND status in (\""@ + s
        + "\") ORDER BY updated DESC"@);
    assert(jql(statuses.push(s)) =~= "assignee = currentUser() AND status in ("@ + m + ",\""@ + s
        + "\") ORDER BY updated DESC"@);
    m
}

/// What is told of a failure is the message in the response, or the whole response where there is
/// none.
pub proof fn law_failures_tell_the_message_or_the_body(body: String)
    ensures
        json_fields(body@) is None ==> failure_text(Some(body)) == body@,
        json_fields(body@) matches Some(fields) ==> match message_of(fields) {
            Some(m) => failure_text(Some(body)) == m,
            None => failure_text(Some(body)) == body@,
        },
{
}

/// Settings are complete with an address and a user, and not without either.
pub proof fn law_settings_need_address_and_user(cfg: JiraConfig)
    ensures
        is_complete(cfg) <==> cfg.base_url@.len() != 0 && cfg.email@.len() != 0,
{
}

} // verus!
