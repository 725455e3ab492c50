//! The data model: the fact row for one CI pipeline run, the daily aggregate
//! cell, and the plain result shapes the query layer returns.

use vstd::prelude::*;
use crate::calendar::rfc3339_utc_string;
use crate::calendar::spec_date_of_timestamp;
use crate::calendar::spec_rfc3339_of_timestamp;
use crate::calendar::MAX_TIMESTAMP;

verus! {

/// Canonical record of one CI run: a row of the fact table.
pub struct Pipeline {
    pub id: i64,
    pub project_id: i64,
    pub project_name: String,
    pub project_full_path: String,
    pub ref_name: String,
    pub sha: String,
    pub user_name: String,
    pub status: String,
    pub created_at: i64,
    pub finished_at: Option<i64>,
    pub duration: Option<i64>,
    pub web_url: Option<String>,
}

/// The status values that mark a finished run.
pub open spec fn spec_status_terminal(st: Seq<char>) -> bool {
    ||| st == "success"@
    ||| st == "failed"@
    ||| st == "canceled"@
    ||| st == "skipped"@
}

/// A well-formed fact row: the calendar day of `created_at` is renderable as
/// `YYYY-MM-DD`, a recorded duration is positive, and a finish time is only
/// carried by a terminal status.
pub open spec fn fact_ok(p: Pipeline) -> bool {
    &&& 0 <= p.created_at <= MAX_TIMESTAMP
    &&& (p.duration is Some ==> p.duration->Some_0 > 0)
    &&& (p.finished_at is Some ==> spec_status_terminal(p.status@))
}

/// The `YYYY-MM-DD` bucket a fact row falls in.
pub open spec fn spec_fact_date(p: Pipeline) -> Seq<char> {
    spec_date_of_timestamp(p.created_at as int)
}

impl Pipeline {
    /// An exact copy of the row.
    pub fn duplicate(&self) -> (r: Pipeline)
        ensures
            r == *self,
    {
        Pipeline {
            id: self.id,
            project_id: self.project_id,
            project_name: self.project_name.clone(),
            project_full_path: self.project_full_path.clone(),
            ref_name: self.ref_name.clone(),
            sha: self.sha.clone(),
            user_name: self.user_name.clone(),
            status: self.status.clone(),
            created_at: self.created_at,
            finished_at: self.finished_at,
            duration: self.duration,
            web_url: match &self.web_url {
                Some(u) => Some(u.clone()),
                None => None,
            },
        }
    }
}

/// One row of the pre-aggregated daily statistics table, keyed by
/// (`date`, `project_id`, `status`).
pub struct AggregateCell {
    pub date: String,
    pub project_id: i64,
    pub project_name: String,
    pub status: String,
    pub count: i64,
    pub total_duration: i64,
    pub count_with_duration: i64,
}

impl AggregateCell {
    /// An exact copy of the cell.
    pub fn duplicate(&self) -> (r: AggregateCell)
        ensures
            r == *self,
    {
        AggregateCell {
            date: self.date.clone(),
            project_id: self.project_id,
            project_name: self.project_name.clone(),
            status: self.status.clone(),
            count: self.count,
            total_duration: self.total_duration,
            count_with_duration: self.count_with_duration,
        }
    }
}

/// Whether fact row `p` is grouped into the aggregate cell keyed by
/// (`date`, `project_id`, `status`).
pub open spec fn spec_in_cell(p: Pipeline, date: Seq<char>, project_id: int, status: Seq<char>) -> bool {
    &&& spec_fact_date(p) == date
    &&& p.project_id == project_id
    &&& p.status@ == status
}

/// One row of a per-day, per-status trend answer.
pub struct DailyStat {
    pub date: String,
    pub status: String,
    pub count: i64,
}

/// Summary statistics as exact integer totals; consumers derive the average
/// duration and the success rate from these by division.
pub struct SummaryTotals {
    pub total_count: u128,
    pub total_duration: u128,
    pub count_with_duration: u128,
    pub success_count: u128,
}

/// Per-project statistics as exact integer totals.
pub struct ProjectTotals {
    pub project_full_path: String,
    pub count: u128,
    pub total_duration: u128,
    pub count_with_duration: u128,
    pub last_status: String,
}

/// Count of pipelines per status value.
pub struct StatusCount {
    pub status: String,
    pub count: i64,
}

/// Count of failed pipelines per project.
pub struct FailProject {
    pub project_name: String,
    pub count: i64,
}

/// Count of pipelines per arbitrary bucket label.
pub struct BucketCount {
    pub bucket: String,
    pub count: i64,
}

/// A log line attributed to a failed pipeline.
pub struct FailedJobLog {
    pub time: String,
    pub level: String,
    pub project: String,
    pub message: String,
    pub pipeline_id: i64,
}

/// A pipeline as rendered to API consumers: timestamps as text.
pub struct PipelineResponse {
    pub id: i64,
    pub project_id: i64,
    pub project_name: String,
    pub project_full_path: String,
    pub ref_name: String,
    pub sha: String,
    pub user_name: String,
    pub status: String,
    pub created_at: String,
    pub finished_at: Option<String>,
    pub duration: Option<i64>,
    pub web_url: Option<String>,
}

impl Pipeline {
    /// Render the row for API consumers, its timestamps as RFC 3339 text in
    /// UTC.
    pub fn to_response(&self) -> (r: PipelineResponse)
        requires
            0 <= self.created_at <= MAX_TIMESTAMP,
            self.finished_at is Some ==> 0 <= self.finished_at->Some_0 <= MAX_TIMESTAMP,
        ensures
            r.id == self.id,
            r.project_id == self.project_id,
            r.project_name == self.project_name,
            r.project_full_path == self.project_full_path,
            r.ref_name == self.ref_name,
            r.sha == self.sha,
            r.user_name == self.user_name,
            r.status == self.status,
            r.created_at@ == spec_rfc3339_of_timestamp(self.created_at as int),
            (match self.finished_at {
                Some(f) => r.finished_at is Some && r.finished_at->Some_0@
                    == spec_rfc3339_of_timestamp(f as int),
                None => r.finished_at is None,
            }),
            r.duration == self.duration,
            r.web_url == self.web_url,
    {
        PipelineResponse {
            id: self.id,
            project_id: self.project_id,
            project_name: self.project_name.clone(),
            project_full_path: self.project_full_path.clone(),
            ref_name: self.ref_name.clone(),
            sha: self.sha.clone(),
            user_name: self.user_name.clone(),
            status: self.status.clone(),
            created_at: rfc3339_utc_string(self.created_at),
            finished_at: match self.finished_at {
                Some(f) => Some(rfc3339_utc_string(f)),
                None => None,
            },
            duration: self.duration,
            web_url: match &self.web_url {
                Some(u) => Some(u.clone()),
                None => None,
            },
        }
    }
}

} // verus!
