//! Settings.

use vstd::prelude::*;

use crate::hours;
use crate::text;

verus! {

/// Everything that is kept from one run to the next.
#[derive(Debug)]
pub struct Config {
    /// The repositories to scan.
    pub repos: Vec<String>,
    pub jira: Option<JiraConfig>,
    pub bitbucket: Option<BitbucketConfig>,
    pub estimation: EstimationConfig,
}

impl Default for Config {
    fn default() -> (r: Self)
        ensures
            r.repos@.len() == 0,
            r.jira is None,
            r.bitbucket is None,
            r.estimation == default_estimation(),
            r.estimation.session_break_min == 120,
            r.estimation.lead_min == 15,
            r.estimation.trail_min == 15,
            r.estimation.budget_default_hours == 28_800_000_000,
    {
        Config {
            repos: Vec::new(),
            jira: None,
            bitbucket: None,
            estimation: EstimationConfig::default(),
        }
    }
}

/// How to reach Jira.
#[derive(Debug)]
pub struct JiraConfig {
    pub base_url: String,
    pub email: String,
    /// The statuses of the issues that today's plan is made of.
    pub status_filter: Vec<String>,
}

impl JiraConfig {
    /// Whether `other` holds the same settings.
    pub open spec fn same(&self, other: &JiraConfig) -> bool {
        &&& self.base_url@ == other.base_url@
        &&& self.email@ == other.email@
        &&& text::texts(self.status_filter@) == text::texts(other.status_filter@)
    }
}

impl Clone for JiraConfig {
    fn clone(&self) -> (r: Self)
        ensures
            r.same(self),
    {
        JiraConfig {
            base_url: self.base_url.clone(),
            email: self.email.clone(),
            status_filter: text::clone_texts(&self.status_filter),
        }
    }
}

/// How to reach Bitbucket Cloud.
#[derive(Debug)]
pub struct BitbucketConfig {
    pub email: String,
}

/// The statuses that are asked for where none are set.
pub fn default_status_filter() -> (r: Vec<String>)
    ensures
        text::texts(r@) == seq!["In Progress"@],
{
    let mut out: Vec<String> = Vec::new();
    out.push("In Progress".to_owned());
    assert(text::texts(out@) =~= seq!["In Progress"@]);
    out
}

/// How hours are estimated.
#[derive(Clone, Copy, Debug)]
pub struct EstimationConfig {
    /// Idle minutes after which a session is over.
    pub session_break_min: u32,
    /// Minutes before the first commit of a session.
    pub lead_min: u32,
    /// Minutes after the last commit of a session.
    pub trail_min: u32,
    /// The budget that a day is filled up to.
    pub budget_default_hours: i64,
}

/// Two hours without a commit end a session, a quarter of an hour counts before
/// and after it, and a day has eight hours.
pub open spec fn default_estimation() -> EstimationConfig {
    EstimationConfig {
        session_break_min: 120,
        lead_min: 15,
        trail_min: 15,
        budget_default_hours: (8 * hours::HOUR) as i64,
    }
}

impl Default for EstimationConfig {
    fn default() -> (r: Self)
        ensures
            r == default_estimation(),
            r.session_break_min == 120,
            r.lead_min == 15,
            r.trail_min == 15,
            r.budget_default_hours == 28_800_000_000,
    {
        EstimationConfig {
            session_break_min: default_session_break_min(),
            lead_min: default_lead_min(),
            trail_min: default_trail_min(),
            budget_default_hours: default_budget_hours(),
        }
    }
}

pub fn default_session_break_min() -> (r: u32)
    ensures
        r == 120,
{
    120
}

pub fn default_lead_min() -> (r: u32)
    ensures
        r == 15,
{
    15
}

pub fn default_trail_min() -> (r: u32)
    ensures
        r == 15,
{
    15
}

pub fn default_budget_hours() -> (r: i64)
    ensures
        r == 8 * hours::HOUR,
{
    28_800_000_000
}

/// Whether the settings are to be moved here from where they used to be kept: only
/// once, and never over settings that are here already.
pub fn needs_migration(present: bool, legacy_present: bool) -> (r: bool)
    ensures
        r == (!present && legacy_present),
{
    !present && legacy_present
}

} // verus!
