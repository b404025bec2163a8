//! Jobs that run in the background.

use vstd::prelude::*;

use crate::clock::now_secs;
use crate::error::{ApiError, ErrorView, copy_optional, optional, outcome, plain_error};
use crate::ids::{is_identifier, new_id};
use crate::numbers::{decimal, decimal_spec};
use crate::table::{Record, Table, keys_of, lemma_keys_exist, lemma_values_of, values_of};
use crate::text::same;

verus! {

/// How far a job has come.
pub struct JobProgress {
    pub current: Option<u64>,
    pub total: Option<u64>,
    pub message: Option<String>,
}

/// The view of a [`JobProgress`].
pub struct ProgressView {
    pub current: Option<u64>,
    pub total: Option<u64>,
    pub message: Option<Seq<char>>,
}

impl View for JobProgress {
    type V = ProgressView;

    open spec fn view(&self) -> ProgressView {
        ProgressView {
            current: self.current,
            total: self.total,
            message: optional(self.message),
        }
    }
}

/// A job.
pub struct Job {
    pub id: String,
    pub project_id: Option<String>,
    pub job_type: String,
    pub status: String,
    pub progress: JobProgress,
    pub created_at: u64,
    pub updated_at: u64,
    pub error: Option<String>,
}

/// The view of a [`Job`].
pub struct JobView {
    pub id: Seq<char>,
    pub project_id: Option<Seq<char>>,
    pub job_type: Seq<char>,
    pub status: Seq<char>,
    pub progress: ProgressView,
    pub created_at: u64,
    pub updated_at: u64,
    pub error: Option<Seq<char>>,
}

impl View for Job {
    type V = JobView;

    open spec fn view(&self) -> JobView {
        JobView {
            id: self.id@,
            project_id: optional(self.project_id),
            job_type: self.job_type@,
            status: self.status@,
            progress: self.progress@,
            created_at: self.created_at,
            updated_at: self.updated_at,
            error: optional(self.error),
        }
    }
}

impl Record for Job {
    fn copied(&self) -> (r: Job) {
        Job {
            id: self.id.clone(),
            project_id: copy_optional(&self.project_id),
            job_type: self.job_type.clone(),
            status: self.status.clone(),
            progress: JobProgress {
                current: self.progress.current,
                total: self.progress.total,
                message: copy_optional(&self.progress.message),
            },
            created_at: self.created_at,
            updated_at: self.updated_at,
            error: copy_optional(&self.error),
        }
    }
}

/// A job that waits to be run.
pub open spec fn queued_job(
    id: Seq<char>,
    project_id: Option<Seq<char>>,
    job_type: Seq<char>,
    now: u64,
) -> JobView {
    JobView {
        id,
        project_id,
        job_type,
        status: "queued"@,
        progress: ProgressView { current: Some(0), total: None, message: Some("Queued"@) },
        created_at: now,
        updated_at: now,
        error: None,
    }
}

/// A job that waits to be run, made at the time `now`.
pub fn job_with(id: String, project_id: Option<String>, job_type: String, now: u64) -> (r: Job)
    ensures
        r@ == queued_job(id@, optional(project_id), job_type@, now),
{
    Job {
        id,
        project_id,
        job_type,
        status: "queued".to_owned(),
        progress: JobProgress {
            current: Some(0),
            total: None,
            message: Some("Queued".to_owned()),
        },
        created_at: now,
        updated_at: now,
        error: None,
    }
}

/// A job that waits to be run, under a fresh identifier, made at the time that the clock
/// shows.
pub fn new_job(project_id: Option<String>, job_type: String) -> (r: Job)
    ensures
        is_identifier("job_"@, r@.id),
        r@ == queued_job(r@.id, optional(project_id), job_type@, r@.created_at),
{
    let now: u64 = now_secs();
    job_with(new_id("job_"), project_id, job_type, now)
}

/// The answer when there is no such job.
pub open spec fn job_not_found_spec() -> ErrorView {
    plain_error(404, "JOB_NOT_FOUND"@, "job not found"@)
}

/// The answer when there is no such job.
pub fn job_not_found() -> (e: ApiError)
    ensures
        e@ == job_not_found_spec(),
{
    ApiError::new(404, "JOB_NOT_FOUND", "job not found")
}

/// The job under an identifier.
pub open spec fn job_spec(jobs: Map<Seq<char>, JobView>, id: Seq<char>) -> Result<
    JobView,
    ErrorView,
> {
    if jobs.contains_key(id) {
        Ok(jobs[id])
    } else {
        Err(job_not_found_spec())
    }
}

/// The job under an identifier.
pub fn job_by_id(jobs: &Table<Job>, id: &str) -> (r: Result<Job, ApiError>)
    ensures
        outcome(r) == job_spec(jobs@, id@),
{
    match jobs.get(id) {
        Some(job) => Ok(job.copied()),
        None => Err(job_not_found()),
    }
}

/// The jobs and one more.
pub fn record_job(jobs: &Table<Job>, job: &Job) -> (r: Table<Job>)
    ensures
        r@ == jobs@.insert(job.id@, job@),
{
    let mut candidate = jobs.copied();
    candidate.insert(job.id.clone(), job.copied());
    candidate
}

/// What changes in a job: its status, how far it has come, and what went wrong.
pub struct JobUpdate {
    pub status: String,
    pub current: Option<u64>,
    pub total: Option<u64>,
    pub message: String,
    pub error: Option<String>,
}

/// The view of a [`JobUpdate`].
pub struct UpdateView {
    pub status: Seq<char>,
    pub current: Option<u64>,
    pub total: Option<u64>,
    pub message: Seq<char>,
    pub error: Option<Seq<char>>,
}

impl View for JobUpdate {
    type V = UpdateView;

    open spec fn view(&self) -> UpdateView {
        UpdateView {
            status: self.status@,
            current: self.current,
            total: self.total,
            message: self.message@,
            error: optional(self.error),
        }
    }
}

/// A job after a change at the time `now`.
pub open spec fn updated_job(job: JobView, update: UpdateView, now: u64) -> JobView {
    JobView {
        status: update.status,
        progress: ProgressView {
            current: update.current,
            total: update.total,
            message: Some(update.message),
        },
        error: update.error,
        updated_at: now,
        ..job
    }
}

/// The jobs after one changed, and that job.
pub open spec fn update_spec(
    jobs: Map<Seq<char>, JobView>,
    id: Seq<char>,
    update: UpdateView,
    now: u64,
) -> Result<(Map<Seq<char>, JobView>, JobView), ErrorView> {
    if jobs.contains_key(id) {
        let job = updated_job(jobs[id], update, now);
        Ok((jobs.insert(id, job), job))
    } else {
        Err(job_not_found_spec())
    }
}

/// The view of jobs and one of them.
pub open spec fn jobs_outcome(r: Result<(Table<Job>, Job), ApiError>) -> Result<
    (Map<Seq<char>, JobView>, JobView),
    ErrorView,
> {
    match r {
        Ok(change) => Ok((change.0@, change.1@)),
        Err(error) => Err(error@),
    }
}

/// The jobs after one changed at the time `now`, and that job.
pub fn update_job_at(jobs: &Table<Job>, id: &str, update: JobUpdate, now: u64) -> (r: Result<
    (Table<Job>, Job),
    ApiError,
>)
    ensures
        jobs_outcome(r) == update_spec(jobs@, id@, update@, now),
{
    match jobs.get(id) {
        Some(found) => {
            let mut job = found.copied();
            job.status = update.status;
            job.progress = JobProgress {
                current: update.current,
                total: update.total,
                message: Some(update.message),
            };
            job.error = update.error;
            job.updated_at = now;
            let mut candidate = jobs.copied();
            candidate.insert(id.to_owned(), job.copied());
            Ok((candidate, job))
        },
        None => Err(job_not_found()),
    }
}

/// The jobs after one changed at the time that the clock shows, and that job.
pub fn update_job(jobs: &Table<Job>, id: &str, update: JobUpdate) -> (r: Result<
    (Table<Job>, Job),
    ApiError,
>)
    ensures
        exists|now: u64| jobs_outcome(r) == #[trigger] update_spec(jobs@, id@, update@, now),
{
    let now: u64 = now_secs();
    update_job_at(jobs, id, update, now)
}

/// The change that a request to cancel makes.
pub fn cancellation() -> (r: JobUpdate)
    ensures
        r@ == (UpdateView {
            status: "cancelled"@,
            current: None,
            total: None,
            message: "Cancellation requested"@,
            error: None,
        }),
{
    JobUpdate {
        status: "cancelled".to_owned(),
        current: None,
        total: None,
        message: "Cancellation requested".to_owned(),
        error: None,
    }
}

/// The change that the start of an index rebuild makes.
pub fn rebuild_started() -> (r: JobUpdate)
    ensures
        r@ == (UpdateView {
            status: "running"@,
            current: Some(0),
            total: None,
            message: "Scanning Markdown files"@,
            error: None,
        }),
{
    JobUpdate {
        status: "running".to_owned(),
        current: Some(0),
        total: None,
        message: "Scanning Markdown files".to_owned(),
        error: None,
    }
}

/// Whether a job was cancelled.
pub open spec fn cancelled(jobs: Map<Seq<char>, JobView>, id: Seq<char>) -> bool {
    jobs.contains_key(id) && jobs[id].status == "cancelled"@
}

/// Whether a job was cancelled.
pub fn is_cancelled(jobs: &Table<Job>, id: &str) -> (r: bool)
    ensures
        r == cancelled(jobs@, id@),
{
    match jobs.get(id) {
        Some(job) => same(job.status.as_str(), "cancelled"),
        None => false,
    }
}

/// The change that the end of an index rebuild makes: how many pages and kinds were listed,
/// or what went wrong.
pub open spec fn rebuild_update(result: Result<(nat, nat), Seq<char>>) -> UpdateView {
    match result {
        Ok((pages, groups)) => UpdateView {
            status: "completed"@,
            current: Some(pages as u64),
            total: Some(pages as u64),
            message: "Rebuilt wiki/index.md with "@ + decimal_spec(pages) + " pages in "@
                + decimal_spec(groups) + " groups"@,
            error: None,
        },
        Err(message) => UpdateView {
            status: "failed"@,
            current: None,
            total: None,
            message,
            error: Some(message),
        },
    }
}

/// The view of the end of an index rebuild.
pub open spec fn rebuild_result(result: Result<(usize, usize), ApiError>) -> Result<
    (nat, nat),
    Seq<char>,
> {
    match result {
        Ok((pages, groups)) => Ok((pages as nat, groups as nat)),
        Err(error) => Err(error.message@),
    }
}

/// The change that the end of an index rebuild makes.
pub fn rebuild_finished(result: Result<(usize, usize), ApiError>) -> (r: JobUpdate)
    ensures
        r@ == rebuild_update(rebuild_result(result)),
{
    match result {
        Ok((pages, groups)) => {
            let message = "Rebuilt wiki/index.md with ".to_owned().concat(
                decimal(pages as u64).as_str(),
            ).concat(" pages in ").concat(decimal(groups as u64).as_str()).concat(" groups");
            JobUpdate {
                status: "completed".to_owned(),
                current: Some(pages as u64),
                total: Some(pages as u64),
                message,
                error: None,
            }
        },
        Err(error) => {
            let message = error.message;
            let reason = message.clone();
            JobUpdate {
                status: "failed".to_owned(),
                current: None,
                total: None,
                message,
                error: Some(reason),
            }
        },
    }
}

/// The project that a request for a job is about; the only jobs are index rebuilds.
pub open spec fn requested_project(kind: Seq<char>, project_id: Option<Seq<char>>) -> Result<
    Seq<char>,
    ErrorView,
> {
    if kind != "index-rebuild"@ {
        Err(plain_error(400, "JOB_TYPE_UNSUPPORTED"@, "unsupported job type"@))
    } else {
        match project_id {
            Some(id) => Ok(id),
            None => Err(
                plain_error(400, "PROJECT_ID_REQUIRED"@, "index-rebuild requires projectId"@),
            ),
        }
    }
}

/// The project that a request for a job is about.
pub fn create_job(kind: &str, project_id: Option<String>) -> (r: Result<String, ApiError>)
    ensures
        outcome(r) == requested_project(kind@, optional(project_id)),
{
    if !same(kind, "index-rebuild") {
        return Err(ApiError::new(400, "JOB_TYPE_UNSUPPORTED", "unsupported job type"));
    }
    match project_id {
        Some(id) => Ok(id),
        None => Err(
            ApiError::new(400, "PROJECT_ID_REQUIRED", "index-rebuild requires projectId"),
        ),
    }
}

/// The project that a job to be run again is about.
pub open spec fn retried_project(jobs: Map<Seq<char>, JobView>, id: Seq<char>) -> Result<
    Seq<char>,
    ErrorView,
> {
    if !jobs.contains_key(id) {
        Err(job_not_found_spec())
    } else if jobs[id].job_type != "index-rebuild"@ {
        Err(plain_error(400, "JOB_TYPE_UNSUPPORTED"@, "this job type cannot be retried"@))
    } else {
        match jobs[id].project_id {
            Some(project) => Ok(project),
            None => Err(
                plain_error(400, "PROJECT_ID_REQUIRED"@, "index-rebuild requires projectId"@),
            ),
        }
    }
}

/// The project that a job to be run again is about.
pub fn retry_job(jobs: &Table<Job>, id: &str) -> (r: Result<String, ApiError>)
    ensures
        outcome(r) == retried_project(jobs@, id@),
{
    let old = match job_by_id(jobs, id) {
        Ok(old) => old,
        Err(error) => {
            return Err(error);
        },
    };
    if !same(old.job_type.as_str(), "index-rebuild") {
        return Err(
            ApiError::new(400, "JOB_TYPE_UNSUPPORTED", "this job type cannot be retried"),
        );
    }
    match old.project_id {
        Some(project) => Ok(project),
        None => Err(
            ApiError::new(400, "PROJECT_ID_REQUIRED", "index-rebuild requires projectId"),
        ),
    }
}

/// The project whose jobs a client wants to follow.
pub fn followed_project(project_id: Option<String>) -> (r: Result<String, ApiError>)
    ensures
        outcome(r) == match optional(project_id) {
            Some(id) => Ok::<Seq<char>, ErrorView>(id),
            None => Err(plain_error(400, "PROJECT_ID_REQUIRED"@, "projectId is required"@)),
        },
{
    match project_id {
        Some(id) => Ok(id),
        None => Err(ApiError::new(400, "PROJECT_ID_REQUIRED", "projectId is required")),
    }
}

/// The test that a job is of a project, if one is asked for, and has a status, if one is
/// asked for.
pub open spec fn job_filter(project_id: Option<Seq<char>>, status: Option<Seq<char>>) -> spec_fn(
    JobView,
) -> bool {
    |job: JobView|
        (project_id is Some ==> job.project_id == project_id) && (status matches Some(text)
            ==> job.status == text)
}

/// Whether a job is of a project, if one is asked for, and has a status, if one is asked for.
pub fn job_matches(job: &Job, project_id: &Option<String>, status: &Option<String>) -> (r: bool)
    ensures
        r == job_filter(optional(*project_id), optional(*status))(job@),
{
    let of_project = match project_id {
        Some(wanted) => match &job.project_id {
            Some(id) => same(id.as_str(), wanted.as_str()),
            None => false,
        },
        None => true,
    };
    let has_status = match status {
        Some(wanted) => same(job.status.as_str(), wanted.as_str()),
        None => true,
    };
    of_project && has_status
}

/// The views of jobs.
pub open spec fn job_views(jobs: Seq<Job>) -> Seq<JobView> {
    Seq::new(jobs.len(), |i: int| jobs[i]@)
}

/// The jobs of a project and with a status, in the order of their identifiers.
pub fn list_jobs(jobs: &Table<Job>, project_id: &Option<String>, status: &Option<String>) -> (r:
    Vec<Job>)
    ensures
        job_views(r@) == values_of(jobs@).filter(
            job_filter(optional(*project_id), optional(*status)),
        ),
{
    let ghost test = job_filter(optional(*project_id), optional(*status));
    let ghost all = values_of(jobs@);
    let n: usize = jobs.len();
    let mut r: Vec<Job> = Vec::new();
    let mut i: usize = 0;
    proof {
        reveal(Seq::filter);
        assert(all.take(0).filter(test) =~= Seq::<JobView>::empty());
        assert(job_views(r@) =~= Seq::<JobView>::empty());
    }
    while i < n
        invariant
            i <= n,
            n == jobs.keys().len(),
            jobs.keys() == keys_of(jobs@),
            all == values_of(jobs@),
            test == job_filter(optional(*project_id), optional(*status)),
            job_views(r@) == all.take(i as int).filter(test),
        decreases n - i,
    {
        let job = jobs.value_at(i);
        let ghost before = job_views(r@);
        proof {
            reveal(Seq::filter);
            assert(all.take(i + 1).drop_last() =~= all.take(i as int));
            assert(all.take(i + 1).last() == job@);
        }
        if job_matches(job, project_id, status) {
            r.push(job.copied());
            assert(job_views(r@) =~= before.push(job@));
        }
        i += 1;
    }
    assert(all.take(i as int) =~= all);
    r
}

/// A job after the server was started again: one that was running is not any more.
pub open spec fn restarted_job(job: JobView, now: u64) -> JobView {
    if job.status == "running"@ {
        JobView {
            status: "interrupted"@,
            error: Some("Server restarted before this job completed"@),
            progress: ProgressView {
                message: Some("Interrupted after server restart"@),
                ..job.progress
            },
            updated_at: now,
            ..job
        }
    } else {
        job
    }
}

/// The jobs after the server was started again; of two with one identifier the later counts.
pub open spec fn restarted_jobs(jobs: Seq<JobView>, now: u64) -> Map<Seq<char>, JobView>
    decreases jobs.len(),
{
    if jobs.len() == 0 {
        Map::empty()
    } else {
        restarted_jobs(jobs.drop_last(), now).insert(
            jobs.last().id,
            restarted_job(jobs.last(), now),
        )
    }
}

/// Whether any of the jobs was running.
pub open spec fn any_running(jobs: Seq<JobView>) -> bool {
    exists|i: int| 0 <= i < jobs.len() && (#[trigger] jobs[i]).status == "running"@
}

/// The jobs at the start, at the time `now`, and whether any of them was running.
pub fn load_jobs_at(jobs: &Vec<Job>, now: u64) -> (r: (Table<Job>, bool))
    ensures
        r.0@ == restarted_jobs(job_views(jobs@), now),
        r.1 == any_running(job_views(jobs@)),
{
    let ghost all = job_views(jobs@);
    let mut table: Table<Job> = Table::new();
    let mut interrupted = false;
    let mut i: usize = 0;
    assert(all.take(0) =~= Seq::<JobView>::empty());
    while i < jobs.len()
        invariant
            i <= jobs@.len(),
            all == job_views(jobs@),
            table@ == restarted_jobs(all.take(i as int), now),
            interrupted == exists|j: int| 0 <= j < i && (#[trigger] all[j]).status == "running"@,
        decreases jobs@.len() - i,
    {
        proof {
            assert(all.take(i + 1).drop_last() =~= all.take(i as int));
            assert(all.take(i + 1).last() == jobs@[i as int]@);
            assert(all[i as int] == jobs@[i as int]@);
        }
        let mut job = jobs[i].copied();
        if same(job.status.as_str(), "running") {
            job.status = "interrupted".to_owned();
            job.error = Some("Server restarted before this job completed".to_owned());
            job.progress = JobProgress {
                current: job.progress.current,
                total: job.progress.total,
                message: Some("Interrupted after server restart".to_owned()),
            };
            job.updated_at = now;
            interrupted = true;
        }
        assert(job@ == restarted_job(all[i as int], now));
        let key = job.id.clone();
        table.insert(key, job);
        i += 1;
    }
    assert(all.take(i as int) =~= all);
    (table, interrupted)
}

/// The jobs at the start, at the time that the clock shows, and whether any of them was
/// running.
pub fn load_jobs(jobs: &Vec<Job>) -> (r: (Table<Job>, bool))
    ensures
        exists|now: u64| r.0@ == #[trigger] restarted_jobs(job_views(jobs@), now),
        r.1 == any_running(job_views(jobs@)),
{
    let now: u64 = now_secs();
    load_jobs_at(jobs, now)
}

/// After the server was started again no job is running, and each comes from one that was
/// kept, under its identifier, with the same project and kind.
pub proof fn law_no_job_survives_a_restart(jobs: Seq<JobView>, now: u64)
    ensures
        forall|id: Seq<char>| #[trigger]
            restarted_jobs(jobs, now).contains_key(id) ==> {
                let job = restarted_jobs(jobs, now)[id];
                &&& job.status != "running"@
                &&& job.id == id
                &&& exists|i: int|
                    0 <= i < jobs.len() && job == restarted_job(#[trigger] jobs[i], now)
                        && job.project_id == jobs[i].project_id && job.job_type == jobs[i].job_type
            },
    decreases jobs.len(),
{
    reveal_strlit("running");
    reveal_strlit("interrupted");
    assert("running"@.len() != "interrupted"@.len());
    if jobs.len() > 0 {
        let rest = jobs.drop_last();
        law_no_job_survives_a_restart(rest, now);
        let before = restarted_jobs(rest, now);
        let after = restarted_jobs(jobs, now);
        assert forall|id: Seq<char>| #[trigger] after.contains_key(id) implies {
            let job = after[id];
            &&& job.status != "running"@
            &&& job.id == id
            &&& exists|i: int|
                0 <= i < jobs.len() && job == restarted_job(#[trigger] jobs[i], now)
                    && job.project_id == jobs[i].project_id && job.job_type == jobs[i].job_type
        } by {
            if id == jobs.last().id {
                assert(after[id] == restarted_job(jobs[jobs.len() - 1], now));
            } else {
                assert(before.contains_key(id));
                let job = before[id];
                let i = choose|i: int|
                    0 <= i < rest.len() && job == restarted_job(#[trigger] rest[i], now)
                        && job.project_id == rest[i].project_id && job.job_type
                        == rest[i].job_type;
                assert(jobs[i] == rest[i]);
            }
        }
    }
}

/// The jobs under the first `n` keys.
spec fn kept_jobs(jobs: Map<Seq<char>, JobView>, keys: Seq<Seq<char>>, n: int) -> Seq<JobView> {
    Seq::new(n as nat, |i: int| jobs[keys[i]])
}

/// Jobs that are read in some order give exactly those jobs, restarted.
proof fn lemma_kept_jobs(jobs: Map<Seq<char>, JobView>, keys: Seq<Seq<char>>, n: int, now: u64)
    requires
        0 <= n <= keys.len(),
        forall|id: Seq<char>| #[trigger] jobs.contains_key(id) ==> jobs[id].id == id,
        forall|i: int| 0 <= i < keys.len() ==> jobs.contains_key(#[trigger] keys[i]),
    ensures
        ({
            let part = restarted_jobs(kept_jobs(jobs, keys, n), now);
            &&& forall|id: Seq<char>| #[trigger]
                part.contains_key(id) <==> keys.take(n).contains(id)
            &&& forall|id: Seq<char>| #[trigger]
                part.contains_key(id) ==> part[id] == restarted_job(jobs[id], now)
        }),
    decreases n,
{
    let kept = kept_jobs(jobs, keys, n);
    let part = restarted_jobs(kept, now);
    if n > 0 {
        lemma_kept_jobs(jobs, keys, n - 1, now);
        let fewer = kept_jobs(jobs, keys, n - 1);
        let before = restarted_jobs(fewer, now);
        assert(kept.drop_last() =~= fewer);
        let last = keys[n - 1];
        assert(jobs.contains_key(last));
        assert(kept.last().id == last);
        assert forall|id: Seq<char>| #[trigger] part.contains_key(id) <==> keys.take(n).contains(
            id,
        ) by {
            let short = keys.take(n - 1);
            let long = keys.take(n);
            assert(before.contains_key(id) <==> short.contains(id));
            if short.contains(id) {
                let i = choose|i: int| 0 <= i < short.len() && short[i] == id;
                assert(long[i] == id);
            }
            if id == last {
                assert(long[n - 1] == id);
            }
            if long.contains(id) {
                let i = choose|i: int| 0 <= i < long.len() && long[i] == id;
                if i < n - 1 {
                    assert(short[i] == id);
                }
            }
        }
        assert forall|id: Seq<char>| #[trigger] part.contains_key(id) implies part[id]
            == restarted_job(jobs[id], now) by {
            if id != last {
                assert(before.contains_key(id));
            }
        }
    } else {
        assert(kept =~= Seq::<JobView>::empty());
    }
}

/// Jobs that are written in the order of their identifiers and read again are all there, and
/// those that were not running are as they were.
pub proof fn law_jobs_survive_a_restart(jobs: Map<Seq<char>, JobView>, now: u64)
    requires
        jobs.dom().finite(),
        forall|id: Seq<char>| #[trigger] jobs.contains_key(id) ==> jobs[id].id == id,
    ensures
        ({
            let read = restarted_jobs(values_of(jobs), now);
            &&& forall|id: Seq<char>| #[trigger] read.contains_key(id) <==> jobs.contains_key(id)
            &&& forall|id: Seq<char>| #[trigger]
                jobs.contains_key(id) ==> read[id] == restarted_job(jobs[id], now)
        }),
{
    lemma_keys_exist(jobs);
    let keys = keys_of(jobs);
    assert forall|i: int| 0 <= i < keys.len() implies jobs.contains_key(#[trigger] keys[i]) by {
        assert(keys.contains(keys[i]));
    }
    lemma_kept_jobs(jobs, keys, keys.len() as int, now);
    assert(keys.take(keys.len() as int) =~= keys);
    assert(values_of(jobs) =~= kept_jobs(jobs, keys, keys.len() as int));
    let read = restarted_jobs(values_of(jobs), now);
    assert forall|id: Seq<char>| #[trigger] read.contains_key(id) <==> jobs.contains_key(id) by {
        assert(jobs.contains_key(id) <==> keys.contains(id));
    }
    assert forall|id: Seq<char>| #[trigger] jobs.contains_key(id) implies read[id]
        == restarted_job(jobs[id], now) by {
        assert(read.contains_key(id));
    }
}

/// A change touches one job, and keeps its identifier, its project, its kind and when it was
/// made.
pub proof fn law_update_touches_one_job(
    jobs: Map<Seq<char>, JobView>,
    id: Seq<char>,
    update: UpdateView,
    now: u64,
)
    ensures
        update_spec(jobs, id, update, now) matches Ok((after, job)) ==> {
            &&& after[id] == job
            &&& job.id == jobs[id].id && job.project_id == jobs[id].project_id && job.job_type
                == jobs[id].job_type && job.created_at == jobs[id].created_at
            &&& forall|other: Seq<char>| #[trigger]
                jobs.contains_key(other) && other != id ==> after.contains_key(other)
                    && after[other] == jobs[other]
        },
{
}

/// A job that was cancelled is told to be so.
pub proof fn law_cancelled_job_is_cancelled(
    jobs: Map<Seq<char>, JobView>,
    id: Seq<char>,
    update: UpdateView,
    now: u64,
)
    requires
        update.status == "cancelled"@,
    ensures
        update_spec(jobs, id, update, now) matches Ok((after, _)) ==> cancelled(after, id),
{
}

/// A listing of jobs shows those, and only those, that are asked for.
pub proof fn law_jobs_asked_for_are_listed(
    jobs: Map<Seq<char>, JobView>,
    project_id: Option<Seq<char>>,
    status: Option<Seq<char>>,
    id: Seq<char>,
)
    requires
        jobs.dom().finite(),
        jobs.contains_key(id),
        forall|key: Seq<char>| #[trigger] jobs.contains_key(key) ==> jobs[key].id == key,
    ensures
        values_of(jobs).filter(job_filter(project_id, status)).contains(jobs[id]) <==> job_filter(
            project_id,
            status,
        )(jobs[id]),
        forall|i: int|
            0 <= i < values_of(jobs).filter(job_filter(project_id, status)).len() ==> {
                let job = #[trigger] values_of(jobs).filter(job_filter(project_id, status))[i];
                jobs.contains_key(job.id) && jobs[job.id] == job
            },
{
    let all = values_of(jobs);
    let test = job_filter(project_id, status);
    let listed = all.filter(test);
    lemma_values_of(jobs);
    let at = choose|at: int| 0 <= at < all.len() && all[at] == jobs[id];
    if test(jobs[id]) {
        all.lemma_filter_contains(test, at);
    }
    if listed.contains(jobs[id]) {
        let i = choose|i: int| 0 <= i < listed.len() && listed[i] == jobs[id];
        all.lemma_filter_pred(test, i);
    }
    assert forall|i: int| 0 <= i < listed.len() implies {
        let job = #[trigger] listed[i];
        jobs.contains_key(job.id) && jobs[job.id] == job
    } by {
        assert(listed.contains(listed[i]));
        all.lemma_filter_contains_rev(test, listed[i]);
        let j = choose|j: int| 0 <= j < all.len() && all[j] == listed[i];
        assert(jobs.contains_key(keys_of(jobs)[j]));
    }
}

/// A job that rebuilds the index of a project can be retried, whatever became of it; one of
/// another kind, one without a project, and one that is not there cannot.
pub proof fn law_any_rebuild_can_be_retried(jobs: Map<Seq<char>, JobView>, id: Seq<char>)
    ensures
        match retried_project(jobs, id) {
            Ok(project) => jobs.contains_key(id) && jobs[id].job_type == "index-rebuild"@
                && jobs[id].project_id == Some(project),
            Err(error) => {
                ||| !jobs.contains_key(id) && error.status == 404 && error.code == "JOB_NOT_FOUND"@
                ||| jobs.contains_key(id) && jobs[id].job_type != "index-rebuild"@ && error.status
                    == 400 && error.code == "JOB_TYPE_UNSUPPORTED"@
                ||| jobs.contains_key(id) && jobs[id].job_type == "index-rebuild"@
                    && jobs[id].project_id is None && error.status == 400 && error.code
                    == "PROJECT_ID_REQUIRED"@
            },
        },
{
}

/// A change of a job does not decide whether it can be retried.
pub proof fn law_retry_does_not_depend_on_updates(
    jobs: Map<Seq<char>, JobView>,
    id: Seq<char>,
    update: UpdateView,
    now: u64,
    other: Seq<char>,
)
    ensures
        update_spec(jobs, id, update, now) matches Ok((after, _)) ==> retried_project(after, other)
            == retried_project(jobs, other),
{
}

/// A job can be asked for exactly if it rebuilds the index of a project that is named.
pub proof fn law_rebuilds_can_be_asked_for(kind: Seq<char>, project_id: Option<Seq<char>>)
    ensures
        match requested_project(kind, project_id) {
            Ok(project) => kind == "index-rebuild"@ && project_id == Some(project),
            Err(error) => error.status == 400 && if kind == "index-rebuild"@ {
                project_id is None && error.code == "PROJECT_ID_REQUIRED"@
            } else {
                error.code == "JOB_TYPE_UNSUPPORTED"@
            },
        },
{
}

/// A job that is found is the one under the identifier.
pub proof fn law_job_is_found(jobs: Map<Seq<char>, JobView>, id: Seq<char>)
    ensures
        match job_spec(jobs, id) {
            Ok(job) => jobs.contains_key(id) && jobs[id] == job,
            Err(error) => !jobs.contains_key(id) && error.status == 404 && error.code
                == "JOB_NOT_FOUND"@,
        },
{
}

/// A change is taken over whole, with the time at which it was made.
pub proof fn law_update_is_taken_over(
    jobs: Map<Seq<char>, JobView>,
    id: Seq<char>,
    update: UpdateView,
    now: u64,
)
    ensures
        match update_spec(jobs, id, update, now) {
            Ok((after, job)) => {
                &&& jobs.contains_key(id)
                &&& job.status == update.status && job.error == update.error && job.updated_at
                    == now
                &&& job.progress.current == update.current && job.progress.total == update.total
                    && job.progress.message == Some(update.message)
                &&& after.dom() == jobs.dom()
            },
            Err(error) => !jobs.contains_key(id) && error.status == 404 && error.code
                == "JOB_NOT_FOUND"@,
        },
{
    if let Ok((after, job)) = update_spec(jobs, id, update, now) {
        assert(after.dom() =~= jobs.dom());
    }
}

/// The end of a rebuild says that it went well, and how many pages and groups there are, exactly
/// if it did; else it says what went wrong.
pub proof fn law_end_of_rebuild_is_told(result: Result<(nat, nat), Seq<char>>)
    ensures
        match result {
            Ok((pages, groups)) => {
                let update = rebuild_update(result);
                &&& update.status == "completed"@ && update.error is None
                &&& pages <= u64::MAX ==> update.current == Some(pages as u64) && update.total
                    == Some(pages as u64)
                &&& update.message == "Rebuilt wiki/index.md with "@ + decimal_spec(pages)
                    + " pages in "@ + decimal_spec(groups) + " groups"@
            },
            Err(reason) => {
                let update = rebuild_update(result);
                update.status == "failed"@ && update.error == Some(reason) && update.message
                    == reason
            },
        },
{
}

/// A job that was not running is the same after a restart. One that was is interrupted, says so,
/// and keeps how far it had come.
pub proof fn law_restart_interrupts_running_jobs(job: JobView, now: u64)
    ensures
        job.status != "running"@ ==> restarted_job(job, now) == job,
        job.status == "running"@ ==> {
            let after = restarted_job(job, now);
            &&& after.status == "interrupted"@ && after.error is Some && after.updated_at == now
            &&& after.id == job.id && after.project_id == job.project_id && after.job_type
                == job.job_type && after.created_at == job.created_at
            &&& after.progress.current == job.progress.current && after.progress.total
                == job.progress.total
        },
{
}

/// A listing of jobs shows a job exactly if it is of the project that is asked for, if one is, and
/// has the status that is asked for, if one is.
pub proof fn law_listing_follows_the_request(
    jobs: Map<Seq<char>, JobView>,
    project_id: Option<Seq<char>>,
    status: Option<Seq<char>>,
    id: Seq<char>,
)
    requires
        jobs.dom().finite(),
        jobs.contains_key(id),
        forall|key: Seq<char>| #[trigger] jobs.contains_key(key) ==> jobs[key].id == key,
    ensures
        values_of(jobs).filter(job_filter(project_id, status)).contains(jobs[id]) <==> (project_id
            is None || jobs[id].project_id == project_id) && (status is None || status == Some(
            jobs[id].status,
        )),
{
    law_jobs_asked_for_are_listed(jobs, project_id, status, id);
}

/// A new job waits, without an error, under its identifier, for its project.
pub proof fn law_new_job_waits(
    id: Seq<char>,
    project_id: Option<Seq<char>>,
    job_type: Seq<char>,
    now: u64,
)
    ensures
        ({
            let job = queued_job(id, project_id, job_type, now);
            &&& job.id == id && job.project_id == project_id && job.job_type == job_type
            &&& job.status == "queued"@ && job.error is None
            &&& job.created_at == now && job.updated_at == now
        }),
{
}

/// Contracts speak of whole values: every part of a value is in its view, in its place, and nothing
/// else is.
pub proof fn law_views_of_jobs_are_whole(
    progress: JobProgress,
    job: Job,
    update: JobUpdate,
    jobs: Seq<Job>,
    changed: Result<(Table<Job>, Job), ApiError>,
    rebuilt: Result<(usize, usize), ApiError>,
)
    ensures
        progress@.current == progress.current,
        progress@.total == progress.total,
        progress@.message == optional(progress.message),
        job@.id == job.id@,
        job@.project_id == optional(job.project_id),
        job@.job_type == job.job_type@,
        job@.status == job.status@,
        job@.progress == job.progress@,
        job@.created_at == job.created_at,
        job@.updated_at == job.updated_at,
        job@.error == optional(job.error),
        update@.status == update.status@,
        update@.current == update.current,
        update@.total == update.total,
        update@.message == update.message@,
        update@.error == optional(update.error),
        job_views(jobs).len() == jobs.len(),
        forall|i: int|
            0 <= i < jobs.len() ==> #[trigger] job_views(jobs)[i] == jobs[i]@,
        match changed {
            Ok((table, one)) => jobs_outcome(changed) matches Ok((shown, told)) && shown == table@
                && told == one@,
            Err(error) => jobs_outcome(changed) matches Err(shown) && shown == error@,
        },
        match rebuilt {
            Ok((pages, groups)) => rebuild_result(rebuilt) matches Ok((n, m)) && n == pages && m
                == groups,
            Err(error) => rebuild_result(rebuilt) matches Err(shown) && shown == error.message@,
        },
{
}

/// Jobs were running exactly if one of them was.
pub proof fn law_one_running_job_is_enough(jobs: Seq<JobView>, job: JobView)
    ensures
        any_running(jobs.push(job)) <==> any_running(jobs) || job.status == "running"@,
        !any_running(seq![]),
{
    let more = jobs.push(job);
    if any_running(jobs) {
        let i = choose|i: int| 0 <= i < jobs.len() && (#[trigger] jobs[i]).status == "running"@;
        assert(more[i].status == "running"@);
    }
    if job.status == "running"@ {
        assert(more[jobs.len() as int].status == "running"@);
    }
    if any_running(more) {
        let i = choose|i: int| 0 <= i < more.len() && (#[trigger] more[i]).status == "running"@;
        if i < jobs.len() {
            assert(jobs[i].status == "running"@);
        }
    }
}

} // verus!
