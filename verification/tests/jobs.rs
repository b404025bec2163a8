use llm_wiki_server::error::ApiError;
use llm_wiki_server::jobs::{
    cancellation, create_job, followed_project, is_cancelled, job_by_id, job_matches, job_with,
    list_jobs, load_jobs, load_jobs_at, new_job, rebuild_finished, rebuild_started, record_job,
    retry_job, update_job, update_job_at, Job, JobUpdate,
};
use llm_wiki_server::store::settle;
use llm_wiki_server::table::Table;

fn code<T>(r: Result<T, ApiError>) -> (u16, &'static str) {
    let error = r.err().unwrap();
    (error.status, error.code)
}

fn some(text: &str) -> Option<String> {
    Some(text.to_string())
}

fn job(id: &str, project: Option<String>, kind: &str) -> Job {
    job_with(id.to_string(), project, kind.to_string(), 10)
}

fn working() -> JobUpdate {
    JobUpdate {
        status: "running".to_string(),
        current: Some(1),
        total: Some(2),
        message: "Working".to_string(),
        error: None,
    }
}

#[test]
fn job_persistence_failure_does_not_mutate_memory() {
    let mut jobs: Table<Job> = Table::new();
    let job = new_job(some("p1"), "index-rebuild".to_string());
    let candidate = record_job(&jobs, &job);
    assert!(candidate.get(&job.id).is_some());
    let failed = Err(ApiError::new(500, "IO_ERROR", "disk full"));
    assert!(settle(&mut jobs, candidate, failed).is_err());
    assert!(jobs.get(&job.id).is_none());
}

#[test]
fn jobs_persist_client_shape_and_running_jobs_become_interrupted() {
    let mut jobs: Table<Job> = Table::new();
    let job = new_job(some("p1"), "index-rebuild".to_string());
    let id = job.id.clone();
    let candidate = record_job(&jobs, &job);
    assert!(settle(&mut jobs, candidate, Ok(())).is_ok());
    assert_eq!(job.job_type, "index-rebuild");
    let (candidate, updated) = update_job(&jobs, &id, working()).ok().unwrap();
    assert_eq!(updated.status, "running");
    assert!(settle(&mut jobs, candidate, Ok(())).is_ok());
    let kept = list_jobs(&jobs, &None, &None);
    let (restored, interrupted) = load_jobs(&kept);
    assert!(interrupted);
    let restored_job = restored.get(&id).unwrap();
    assert_eq!(restored_job.status, "interrupted");
    assert!(restored_job.error.is_some());
}

#[test]
fn new_jobs_wait() {
    let job = new_job(None, "index-rebuild".to_string());
    assert!(job.id.starts_with("job_"));
    assert_eq!(job.status, "queued");
    assert_eq!(job.progress.current, Some(0));
    assert_eq!(job.progress.message, some("Queued"));
    assert_eq!(job.created_at, job.updated_at);
    assert_eq!(job.error, None);
}

#[test]
fn restart_changes_running_jobs_only() {
    let mut running = job("a", some("p"), "index-rebuild");
    running.status = "running".to_string();
    running.progress.current = Some(3);
    let done = job("b", None, "index-rebuild");
    let (jobs, interrupted) = load_jobs_at(&vec![running, done], 77);
    assert!(interrupted);
    let a = jobs.get("a").unwrap();
    assert_eq!(a.updated_at, 77);
    assert_eq!(a.error, some("Server restarted before this job completed"));
    assert_eq!(a.progress.message, some("Interrupted after server restart"));
    assert_eq!(a.progress.current, Some(3));
    let b = jobs.get("b").unwrap();
    assert_eq!((b.status.as_str(), b.updated_at), ("queued", 10));
    let (_, calm) = load_jobs_at(&vec![job("c", None, "x")], 1);
    assert!(!calm);
}

#[test]
fn updates_touch_one_job() {
    let jobs = record_job(&record_job(&Table::new(), &job("a", some("p"), "x")), &job("b", None, "y"));
    let (after, changed) = update_job_at(&jobs, "a", cancellation(), 50).ok().unwrap();
    assert_eq!(changed.status, "cancelled");
    assert_eq!(changed.progress.message, some("Cancellation requested"));
    assert_eq!((changed.created_at, changed.updated_at), (10, 50));
    assert!(is_cancelled(&after, "a"));
    assert!(!is_cancelled(&after, "b"));
    assert!(!is_cancelled(&after, "c"));
    assert_eq!(after.get("b").unwrap().updated_at, 10);
    assert_eq!(code(update_job_at(&jobs, "c", cancellation(), 50)), (404, "JOB_NOT_FOUND"));
    assert_eq!(code(job_by_id(&jobs, "c")), (404, "JOB_NOT_FOUND"));
    assert_eq!(job_by_id(&jobs, "b").ok().unwrap().job_type, "y");
}

#[test]
fn rebuilds_report_how_they_went() {
    let started = rebuild_started();
    assert_eq!((started.status.as_str(), started.current), ("running", Some(0)));
    assert_eq!(started.message, "Scanning Markdown files");
    let done = rebuild_finished(Ok((12, 3)));
    assert_eq!(done.status, "completed");
    assert_eq!((done.current, done.total), (Some(12), Some(12)));
    assert_eq!(done.message, "Rebuilt wiki/index.md with 12 pages in 3 groups");
    let failed = rebuild_finished(Err(ApiError::new(500, "IO_ERROR", "no disk")));
    assert_eq!((failed.status.as_str(), failed.error), ("failed", some("no disk")));
    assert_eq!(failed.message, "no disk");
}

#[test]
fn only_index_rebuilds_are_run() {
    assert_eq!(create_job("index-rebuild", some("p")).ok().unwrap(), "p");
    assert_eq!(code(create_job("index-rebuild", None)), (400, "PROJECT_ID_REQUIRED"));
    assert_eq!(code(create_job("other", some("p"))), (400, "JOB_TYPE_UNSUPPORTED"));
    let mut jobs = Table::new();
    for entry in [
        job("a", some("p"), "index-rebuild"),
        job("b", None, "index-rebuild"),
        job("c", some("p"), "other"),
    ] {
        jobs = record_job(&jobs, &entry);
    }
    assert_eq!(retry_job(&jobs, "a").ok().unwrap(), "p");
    assert_eq!(code(retry_job(&jobs, "b")), (400, "PROJECT_ID_REQUIRED"));
    assert_eq!(code(retry_job(&jobs, "c")), (400, "JOB_TYPE_UNSUPPORTED"));
    assert_eq!(code(retry_job(&jobs, "d")), (404, "JOB_NOT_FOUND"));
    assert_eq!(followed_project(some("p")).ok().unwrap(), "p");
    assert_eq!(code(followed_project(None)), (400, "PROJECT_ID_REQUIRED"));
}

#[test]
fn jobs_are_listed_by_project_and_status() {
    let mut jobs = Table::new();
    for entry in [job("b", some("p"), "x"), job("a", some("p"), "x"), job("c", None, "x")] {
        jobs = record_job(&jobs, &entry);
    }
    let ids = |project: Option<String>, status: Option<String>| -> Vec<String> {
        list_jobs(&jobs, &project, &status).into_iter().map(|job| job.id).collect()
    };
    assert_eq!(ids(None, None), vec!["a", "b", "c"]);
    assert_eq!(ids(some("p"), None), vec!["a", "b"]);
    assert_eq!(ids(some("p"), some("queued")), vec!["a", "b"]);
    assert_eq!(ids(None, some("running")), Vec::<String>::new());
    assert!(job_matches(&job("x", some("p"), "y"), &some("p"), &None));
    assert!(!job_matches(&job("x", None, "y"), &some("p"), &None));
}
