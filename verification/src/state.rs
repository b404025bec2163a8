//! What the server keeps in memory.

use vstd::prelude::*;

use crate::auth::{Session, SessionView};
use crate::chat::{ChatSession, ChatView, MessageView, answered, ask_spec, sessions_of};
use crate::config::{ConfigView, ServerConfig};
use crate::error::{ApiError, ErrorView, plain_error, verdict};
use crate::jobs::{Job, JobView, UpdateView, restarted_jobs, update_spec};
use crate::json::{Json, JsonObject, JsonView, lemma_view};
use crate::projects::{
    FoundView, ImportView, Project, ProjectView, discoveries_spec, imports_spec, registry_spec,
    removed_spec, renamed_spec,
};
use crate::settings::patched;
use crate::table::Table;

verus! {

/// What the server keeps in memory.
pub struct AppState {
    pub config: ServerConfig,
    pub projects: Table<Project>,
    pub sessions: Table<Session>,
    pub jobs: Table<Job>,
    pub settings: Json,
    pub chat_sessions: Table<ChatSession>,
    pub chat_turns: Table<String>,
}

/// The directories that the server works with, as the file system resolved them.
pub struct Roots {
    pub workspace_root: String,
    pub data_dir: String,
    pub web_root: String,
}

/// The view of an [`AppState`]; of the turns, the sessions in which they are taken.
pub struct StateView {
    pub config: ConfigView,
    pub projects: Map<Seq<char>, ProjectView>,
    pub sessions: Map<Seq<char>, SessionView>,
    pub jobs: Map<Seq<char>, JobView>,
    pub settings: JsonView,
    pub chat_sessions: Map<Seq<char>, ChatView>,
    pub chat_turns: Set<Seq<char>>,
}

impl View for AppState {
    type V = StateView;

    open spec fn view(&self) -> StateView {
        StateView {
            config: self.config@,
            projects: self.projects@,
            sessions: self.sessions@,
            jobs: self.jobs@,
            settings: self.settings@,
            chat_sessions: self.chat_sessions@,
            chat_turns: self.chat_turns@.dom(),
        }
    }
}

/// The configuration with the directories as the file system resolved them.
pub open spec fn resolved_config(config: ConfigView, roots: Roots) -> ConfigView {
    ConfigView {
        workspace_root: roots.workspace_root@,
        data_dir: roots.data_dir@,
        web_root: roots.web_root@,
        ..config
    }
}

impl AppState {
    /// What the server keeps in memory at the start: what was loaded, nobody logged in and no
    /// turn being taken.
    pub fn new(
        config: ServerConfig,
        roots: Roots,
        projects: Table<Project>,
        settings: Json,
        jobs: Table<Job>,
        chat_sessions: Table<ChatSession>,
    ) -> (state: AppState)
        ensures
            state@ == (StateView {
                config: resolved_config(config@, roots),
                projects: projects@,
                sessions: Map::empty(),
                jobs: jobs@,
                settings: settings@,
                chat_sessions: chat_sessions@,
                chat_turns: Set::empty(),
            }),
    {
        let config = ServerConfig {
            host: config.host,
            port: config.port,
            workspace_root: roots.workspace_root,
            data_dir: roots.data_dir,
            web_root: roots.web_root,
            bootstrap_token: config.bootstrap_token,
            allow_insecure_remote: config.allow_insecure_remote,
            secure_cookie: config.secure_cookie,
            app_state: config.app_state,
        };
        let state = AppState {
            config,
            projects,
            sessions: Table::new(),
            jobs,
            settings,
            chat_sessions,
            chat_turns: Table::new(),
        };
        assert(state@.chat_turns =~= Set::<Seq<char>>::empty());
        state
    }
}

/// The settings at the start: none if there is no file, and what the file holds if that is
/// an object.
pub open spec fn settings_at_start(file: Option<JsonView>) -> Result<JsonView, Seq<char>> {
    match file {
        None => Ok(JsonView::Object(Map::empty())),
        Some(value) => if value is Object {
            Ok(value)
        } else {
            Err("invalid settings.json: top level must be an object"@)
        },
    }
}

/// The view of settings that may be missing.
pub open spec fn file_view(file: Option<Json>) -> Option<JsonView> {
    match file {
        Some(value) => Some(value@),
        None => None,
    }
}

/// The settings at the start. `file` is what the file of settings holds, if there is one.
pub fn load_settings(file: Option<Json>) -> (r: Result<Json, String>)
    ensures
        match r {
            Ok(settings) => settings_at_start(file_view(file)) == Ok::<JsonView, Seq<char>>(
                settings@,
            ),
            Err(message) => settings_at_start(file_view(file)) == Err::<JsonView, Seq<char>>(
                message@,
            ),
        },
{
    match file {
        None => {
            let r = Json::Object(JsonObject::new());
            proof {
                lemma_view(r);
            }
            Ok(r)
        },
        Some(value) => if value.is_object() {
            Ok(value)
        } else {
            Err("invalid settings.json: top level must be an object".to_owned())
        },
    }
}

/// Whether the server is ready: its directories are there.
pub fn readiness(workspace_there: bool, data_there: bool) -> (r: Result<(), ApiError>)
    ensures
        verdict(r) == if workspace_there && data_there {
            Ok::<(), ErrorView>(())
        } else {
            Err(plain_error(503, "NOT_READY"@, "workspace or data directory is unavailable"@))
        },
{
    if workspace_there && data_there {
        Ok(())
    } else {
        Err(ApiError::new(503, "NOT_READY", "workspace or data directory is unavailable"))
    }
}

/// Whether every project is under its identifier.
pub open spec fn keyed_projects(projects: Map<Seq<char>, ProjectView>) -> bool {
    forall|id: Seq<char>| #[trigger] projects.contains_key(id) ==> projects[id].id == id
}

/// Whether every job is under its identifier.
pub open spec fn keyed_jobs(jobs: Map<Seq<char>, JobView>) -> bool {
    forall|id: Seq<char>| #[trigger] jobs.contains_key(id) ==> jobs[id].id == id
}

/// Whether every chat session is under its identifier.
pub open spec fn keyed_sessions(sessions: Map<Seq<char>, ChatView>) -> bool {
    forall|id: Seq<char>| #[trigger] sessions.contains_key(id) ==> sessions[id].id == id
}

/// Records put every project under its identifier.
proof fn lemma_imports_keyed(
    projects: Map<Seq<char>, ProjectView>,
    root: Seq<char>,
    items: Seq<ImportView>,
    now: u64,
)
    requires
        keyed_projects(projects),
    ensures
        keyed_projects(imports_spec(projects, root, items, now)),
    decreases items.len(),
{
    if items.len() > 0 {
        lemma_imports_keyed(projects, root, items.drop_last(), now);
    }
}

/// Directories put every project under its identifier.
proof fn lemma_discoveries_keyed(
    projects: Map<Seq<char>, ProjectView>,
    found: Seq<FoundView>,
    now: u64,
)
    requires
        keyed_projects(projects),
    ensures
        keyed_projects(discoveries_spec(projects, found, now)),
    decreases found.len(),
{
    if found.len() > 0 {
        lemma_discoveries_keyed(projects, found.drop_last(), now);
    }
}

/// At the start every project is under its identifier.
pub proof fn law_projects_start_keyed(
    root: Seq<char>,
    registry: Option<Seq<ImportView>>,
    other: Seq<ImportView>,
    found: Seq<FoundView>,
    now: u64,
)
    ensures
        keyed_projects(registry_spec(root, registry, other, found, now)),
{
    let none = Map::<Seq<char>, ProjectView>::empty();
    if let Some(items) = registry {
        lemma_imports_keyed(none, root, items, now);
    } else {
        lemma_imports_keyed(none, root, other, now);
        lemma_discoveries_keyed(imports_spec(none, root, other, now), found, now);
    }
}

/// Every change of the registry keeps every project under its identifier.
pub proof fn law_projects_stay_keyed(
    projects: Map<Seq<char>, ProjectView>,
    id: Seq<char>,
    name: Seq<char>,
    project: ProjectView,
)
    requires
        keyed_projects(projects),
    ensures
        renamed_spec(projects, id, name) matches Ok((after, _)) ==> keyed_projects(after),
        removed_spec(projects, id) matches Ok(after) ==> keyed_projects(after),
        keyed_projects(projects.insert(project.id, project)),
{
}

/// At the start every job is under its identifier.
pub proof fn law_jobs_start_keyed(jobs: Seq<JobView>, now: u64)
    ensures
        keyed_jobs(restarted_jobs(jobs, now)),
    decreases jobs.len(),
{
    if jobs.len() > 0 {
        law_jobs_start_keyed(jobs.drop_last(), now);
    }
}

/// Every change of the jobs keeps every job under its identifier.
pub proof fn law_jobs_stay_keyed(
    jobs: Map<Seq<char>, JobView>,
    id: Seq<char>,
    update: UpdateView,
    job: JobView,
    now: u64,
)
    requires
        keyed_jobs(jobs),
    ensures
        update_spec(jobs, id, update, now) matches Ok((after, _)) ==> keyed_jobs(after),
        keyed_jobs(jobs.insert(job.id, job)),
{
}

/// At the start every chat session is under its identifier.
pub proof fn law_sessions_start_keyed(sessions: Seq<ChatView>)
    ensures
        keyed_sessions(sessions_of(sessions)),
    decreases sessions.len(),
{
    if sessions.len() > 0 {
        law_sessions_start_keyed(sessions.drop_last());
    }
}

/// Every change of the chat sessions keeps every session under its identifier.
pub proof fn law_sessions_stay_keyed(
    sessions: Map<Seq<char>, ChatView>,
    id: Seq<char>,
    message: MessageView,
    session: ChatView,
    now: u64,
)
    requires
        keyed_sessions(sessions),
    ensures
        ask_spec(sessions, id, message, now) matches Ok((after, _)) ==> keyed_sessions(after),
        sessions.contains_key(id) ==> keyed_sessions(
            sessions.insert(id, answered(sessions[id], message, now)),
        ),
        keyed_sessions(sessions.insert(session.id, session)),
{
}

/// The settings are an object at the start, and every patch keeps them one.
pub proof fn law_settings_stay_an_object(
    file: Option<JsonView>,
    settings: JsonView,
    patch: JsonView,
)
    requires
        settings is Object,
    ensures
        settings_at_start(file) matches Ok(value) ==> value is Object,
        patched(settings, patch) matches Ok(after) ==> after is Object,
{
}

/// The settings at the start are those of the file, or none; a file that holds no object is
/// refused.
pub proof fn law_settings_are_those_of_the_file(value: JsonView)
    ensures
        settings_at_start(None) == Ok::<JsonView, Seq<char>>(JsonView::Object(Map::empty())),
        value is Object ==> settings_at_start(Some(value)) == Ok::<JsonView, Seq<char>>(value),
        !(value is Object) ==> settings_at_start(Some(value)) is Err,
{
}

/// The three directories of the configuration are those that the file system resolved, and
/// nothing else of it changes.
pub proof fn law_directories_are_resolved(config: ConfigView, roots: Roots)
    ensures
        resolved_config(config, roots).workspace_root == roots.workspace_root@,
        resolved_config(config, roots).data_dir == roots.data_dir@,
        resolved_config(config, roots).web_root == roots.web_root@,
        resolved_config(config, roots).host == config.host,
        resolved_config(config, roots).port == config.port,
        resolved_config(config, roots).bootstrap_token == config.bootstrap_token,
        resolved_config(config, roots).allow_insecure_remote == config.allow_insecure_remote,
        resolved_config(config, roots).secure_cookie == config.secure_cookie,
        resolved_config(config, roots).app_state == config.app_state,
{
}

/// Contracts speak of whole values: every part of a value is in its view, in its place, and nothing
/// else is.
pub proof fn law_views_of_state_are_whole(
    state: AppState,
    file: Option<Json>,
)
    ensures
        state@.config == state.config@,
        state@.projects == state.projects@,
        state@.sessions == state.sessions@,
        state@.jobs == state.jobs@,
        state@.settings == state.settings@,
        state@.chat_sessions == state.chat_sessions@,
        state@.chat_turns == state.chat_turns@.dom(),
        match file {
            Some(value) => file_view(file) == Some(value@),
            None => file_view(file) is None,
        },
{
}

} // verus!
