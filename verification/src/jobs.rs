//! Running jobs, each under an identifier with a token that can stop it.

use vstd::prelude::*;

use crate::table::Table;

verus! {

/// The message of a job that was stopped.
pub const CANCELLED: &'static str = "ANALYSIS_CANCELLED";

/// The state of a job.
#[derive(Clone, Copy, Debug, PartialEq, Eq, Structural)]
pub enum JobState {
    Missing,
    Cancelled,
    Active,
}

/// The token of a job, where there is one.
pub open spec fn token<T>(jobs: Table<T>, job_id: Seq<char>) -> Option<T> {
    if jobs.content().dom().contains(job_id) {
        Some(jobs.content()[job_id])
    } else {
        None
    }
}

/// Begins an analysis. An earlier job of the identifier is no longer known.
pub fn begin_analysis<T>(jobs: &mut Table<T>, job_id: &str, token: T)
    requires
        old(jobs).wf(),
    ensures
        final(jobs).wf(),
        final(jobs).content() == old(jobs).content().insert(job_id@, token),
{
    jobs.insert(job_id, token);
}

/// The token with which an analysis is stopped, where it is known. The job
/// stays known.
pub fn cancel_analysis<'a, T>(jobs: &'a Table<T>, job_id: &str) -> (r: Option<&'a T>)
    requires
        jobs.wf(),
    ensures
        match r {
            Some(found) => token(*jobs, job_id@) == Some(*found),
            None => token(*jobs, job_id@) is None,
        },
{
    jobs.get(job_id)
}

/// Ends an analysis.
pub fn finish_analysis<T>(jobs: &mut Table<T>, job_id: &str)
    requires
        old(jobs).wf(),
    ensures
        final(jobs).wf(),
        final(jobs).content() == old(jobs).content().remove(job_id@),
{
    jobs.remove(job_id);
}

/// Begins an export. An earlier job of the identifier is no longer known.
pub fn begin_export<T>(jobs: &mut Table<T>, job_id: &str, token: T)
    requires
        old(jobs).wf(),
    ensures
        final(jobs).wf(),
        final(jobs).content() == old(jobs).content().insert(job_id@, token),
{
    jobs.insert(job_id, token);
}

/// The token with which an export is stopped, where it is known. The job stays
/// known.
pub fn cancel_export<'a, T>(jobs: &'a Table<T>, job_id: &str) -> (r: Option<&'a T>)
    requires
        jobs.wf(),
    ensures
        match r {
            Some(found) => token(*jobs, job_id@) == Some(*found),
            None => token(*jobs, job_id@) is None,
        },
{
    jobs.get(job_id)
}

/// Ends an export.
pub fn finish_export<T>(jobs: &mut Table<T>, job_id: &str)
    requires
        old(jobs).wf(),
    ensures
        final(jobs).wf(),
        final(jobs).content() == old(jobs).content().remove(job_id@),
{
    jobs.remove(job_id);
}

} // verus!
