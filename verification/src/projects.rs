//! The registry of projects.

use vstd::prelude::*;

use crate::clock::now_secs;
use crate::error::{ApiError, ErrorView, optional, outcome, plain_error, verdict};
use crate::ids::{is_identifier, new_id};
use crate::json::{
    Json, JsonObject, JsonView, Number, copy_json, copy_object, get_text, lemma_list_view,
    lemma_view, list_view, member, text_member, text_value,
};
use crate::names::{
    directory_name, directory_name_error, slug_spec, slugify, validate_project_directory,
};
use crate::order::precedes;
use crate::paths::{
    FailureView, IoFailure, IoKind, below, file_name, file_name_spec, io_error, io_error_spec,
    law_components_stand_between_slashes, path_starts_with, same_path, same_place,
};
use crate::revision::{project_id_spec, stable_project_id};
use crate::table::{Record, Table, keys_of, lemma_keys_exist, values_of};
use crate::text::{
    chars_of, is_blank, law_blank_text_is_white_space, trim_text, trimmed, white_space,
};

verus! {

/// A project: a directory of the workspace under a name.
pub struct Project {
    pub id: String,
    pub name: String,
    pub path: String,
    pub created_at: u64,
}

/// The view of a [`Project`].
pub struct ProjectView {
    pub id: Seq<char>,
    pub name: Seq<char>,
    pub path: Seq<char>,
    pub created_at: u64,
}

impl View for Project {
    type V = ProjectView;

    open spec fn view(&self) -> ProjectView {
        ProjectView {
            id: self.id@,
            name: self.name@,
            path: self.path@,
            created_at: self.created_at,
        }
    }
}

impl Record for Project {
    fn copied(&self) -> (r: Project) {
        Project {
            id: self.id.clone(),
            name: self.name.clone(),
            path: self.path.clone(),
            created_at: self.created_at,
        }
    }
}

/// The answer when there is no such project.
pub open spec fn project_not_found_spec() -> ErrorView {
    plain_error(404, "PROJECT_NOT_FOUND"@, "project not found"@)
}

/// The answer when there is no such project.
pub fn project_not_found() -> (e: ApiError)
    ensures
        e@ == project_not_found_spec(),
{
    ApiError::new(404, "PROJECT_NOT_FOUND", "project not found")
}

/// The project under an identifier.
pub open spec fn project_spec(projects: Map<Seq<char>, ProjectView>, id: Seq<char>) -> Result<
    ProjectView,
    ErrorView,
> {
    if projects.contains_key(id) {
        Ok(projects[id])
    } else {
        Err(project_not_found_spec())
    }
}

/// The project under an identifier.
pub fn get_project(projects: &Table<Project>, id: &str) -> (r: Result<Project, ApiError>)
    ensures
        outcome(r) == project_spec(projects@, id@),
{
    match projects.get(id) {
        Some(project) => Ok(project.copied()),
        None => Err(project_not_found()),
    }
}

/// The answer to a name that is blank.
pub open spec fn invalid_name() -> ErrorView {
    plain_error(400, "INVALID_NAME"@, "name is required"@)
}

/// The projects after one got another name, and that project.
pub open spec fn renamed_spec(
    projects: Map<Seq<char>, ProjectView>,
    id: Seq<char>,
    name: Seq<char>,
) -> Result<(Map<Seq<char>, ProjectView>, ProjectView), ErrorView> {
    if trimmed(name).len() == 0 {
        Err(invalid_name())
    } else if !projects.contains_key(id) {
        Err(project_not_found_spec())
    } else {
        let project = ProjectView { name: trimmed(name), ..projects[id] };
        Ok((projects.insert(id, project), project))
    }
}

/// The view of projects and one of them.
pub open spec fn change_outcome(r: Result<(Table<Project>, Project), ApiError>) -> Result<
    (Map<Seq<char>, ProjectView>, ProjectView),
    ErrorView,
> {
    match r {
        Ok(change) => Ok((change.0@, change.1@)),
        Err(error) => Err(error@),
    }
}

/// The projects after one got another name, and that project.
pub fn update_project(projects: &Table<Project>, id: &str, name: &str) -> (r: Result<
    (Table<Project>, Project),
    ApiError,
>)
    ensures
        change_outcome(r) == renamed_spec(projects@, id@, name@),
{
    if is_blank(name) {
        return Err(ApiError::new(400, "INVALID_NAME", "name is required"));
    }
    match projects.get(id) {
        Some(project) => {
            let mut updated = project.copied();
            updated.name = trim_text(name);
            let mut candidate = projects.copied();
            candidate.insert(id.to_owned(), updated.copied());
            Ok((candidate, updated))
        },
        None => Err(project_not_found()),
    }
}

/// The projects after one was taken out.
pub open spec fn removed_spec(projects: Map<Seq<char>, ProjectView>, id: Seq<char>) -> Result<
    Map<Seq<char>, ProjectView>,
    ErrorView,
> {
    if projects.contains_key(id) {
        Ok(projects.remove(id))
    } else {
        Err(project_not_found_spec())
    }
}

/// The projects after one was taken out of the registry; its files stay.
pub fn delete_project(projects: &Table<Project>, id: &str) -> (r: Result<Table<Project>, ApiError>)
    ensures
        outcome(r) == removed_spec(projects@, id@),
{
    let mut candidate = projects.copied();
    if candidate.remove(id) {
        Ok(candidate)
    } else {
        Err(project_not_found())
    }
}

/// The directory of a new project: as the request says, or made from the name.
pub open spec fn new_directory_spec(name: Seq<char>, directory: Option<Seq<char>>) -> Result<
    Seq<char>,
    ErrorView,
> {
    let chosen = match directory {
        Some(directory) => directory,
        None => slug_spec(name),
    };
    if !directory_name(chosen) {
        Err(directory_name_error())
    } else if trimmed(name).len() == 0 {
        Err(invalid_name())
    } else {
        Ok(chosen)
    }
}

/// The directory of a new project.
pub fn new_project_directory(name: &str, directory: Option<String>) -> (r: Result<
    String,
    ApiError,
>)
    ensures
        outcome(r) == new_directory_spec(name@, optional(directory)),
{
    let chosen = match directory {
        Some(directory) => directory,
        None => slugify(name),
    };
    match validate_project_directory(chosen.as_str()) {
        Ok(()) => {},
        Err(error) => {
            return Err(error);
        },
    }
    if is_blank(name) {
        return Err(ApiError::new(400, "INVALID_NAME", "name is required"));
    }
    Ok(chosen)
}

/// The answer to the making of the directory of a new project.
pub open spec fn made_directory_spec(made: Result<(), FailureView>) -> Result<(), ErrorView> {
    match made {
        Ok(()) => Ok(()),
        Err(failure) => if failure.kind is AlreadyExists {
            Err(plain_error(409, "PROJECT_EXISTS"@, "project directory already exists"@))
        } else {
            Err(io_error_spec(failure))
        },
    }
}

/// The view of an answer of the file system.
pub open spec fn done(r: Result<(), IoFailure>) -> Result<(), FailureView> {
    match r {
        Ok(()) => Ok(()),
        Err(failure) => Err(failure@),
    }
}

/// The answer to the making of the directory of a new project. `made` is what the file system
/// said.
pub fn made_directory(made: Result<(), IoFailure>) -> (r: Result<(), ApiError>)
    ensures
        verdict(r) == made_directory_spec(done(made)),
{
    match made {
        Ok(()) => Ok(()),
        Err(failure) => match failure.kind {
            IoKind::AlreadyExists => Err(
                ApiError::new(409, "PROJECT_EXISTS", "project directory already exists"),
            ),
            _ => Err(io_error(&failure)),
        },
    }
}

/// The answer to a project that could not be made: the reason, and whether its directory
/// could not be taken away again.
pub open spec fn rollback_spec(error: ErrorView, removed: Result<(), FailureView>) -> ErrorView {
    match removed {
        Ok(()) => error,
        Err(failure) => plain_error(
            500,
            "PROJECT_CREATE_ROLLBACK_FAILED"@,
            error.message + "; rollback failed: "@ + failure.message,
        ),
    }
}

/// The answer to a project that could not be made. `removed` is what the file system said
/// when the directory was taken away again.
pub fn rollback_new_project_directory(error: ApiError, removed: Result<(), IoFailure>) -> (r:
    ApiError)
    ensures
        r@ == rollback_spec(error@, done(removed)),
{
    match removed {
        Ok(()) => error,
        Err(failure) => ApiError::new(
            500,
            "PROJECT_CREATE_ROLLBACK_FAILED",
            error.message.concat("; rollback failed: ").concat(failure.message.as_str()).as_str(),
        ),
    }
}

/// A project made at the time `now`.
pub fn project_with(id: String, name: String, path: String, now: u64) -> (r: Project)
    ensures
        r@ == (ProjectView { id: id@, name: name@, path: path@, created_at: now }),
{
    Project { id, name, path, created_at: now }
}

/// Whether a project is one under a fresh identifier.
pub open spec fn fresh_project(project: ProjectView, name: Seq<char>, path: Seq<char>) -> bool {
    is_identifier(""@, project.id) && project.name == name && project.path == path
}

/// A project under a fresh identifier, made at the time that the clock shows.
pub fn new_project(name: String, path: String) -> (r: Project)
    ensures
        fresh_project(r@, name@, path@),
{
    project_with(new_id(""), name, path, now_secs())
}

/// The project that a request for a new one makes: its name has no white space at its ends.
pub fn create_project(name: &str, path: String) -> (r: Project)
    ensures
        fresh_project(r@, trimmed(name@), path@),
{
    new_project(trim_text(name), path)
}

/// The projects and one more.
pub fn add_project(projects: &Table<Project>, project: &Project) -> (r: Table<Project>)
    ensures
        r@ == projects@.insert(project.id@, project@),
{
    let mut candidate = projects.copied();
    candidate.insert(project.id.clone(), project.copied());
    candidate
}

/// Whether a project lies at a path.
pub open spec fn has_path(projects: Map<Seq<char>, ProjectView>, path: Seq<char>) -> bool {
    exists|id: Seq<char>| #[trigger]
        projects.contains_key(id) && same_place(projects[id].path, path)
}

/// Whether a project lies at a path.
pub fn any_project_at(projects: &Table<Project>, path: &str) -> (r: bool)
    ensures
        r == has_path(projects@, path@),
{
    let n: usize = projects.len();
    let mut i: usize = 0;
    while i < n
        invariant
            i <= n,
            n == projects.keys().len(),
            forall|j: int|
                0 <= j < i ==> projects@.contains_key(#[trigger] projects.keys()[j])
                    && !same_place(projects@[projects.keys()[j]].path, path@),
        decreases n - i,
    {
        let project = projects.value_at(i);
        if same_path(project.path.as_str(), path) {
            return true;
        }
        i += 1;
    }
    proof {
        assert forall|id: Seq<char>| #[trigger] projects@.contains_key(id) implies !same_place(
            projects@[id].path,
            path@,
        ) by {
            assert(projects.keys().contains(id));
            let j = choose|j: int| 0 <= j < n && projects.keys()[j] == id;
            assert(projects@.contains_key(projects.keys()[j]));
        }
    }
    false
}

/// Whether the directory at a path may be registered. `canonical` is how the file system
/// resolved it.
pub open spec fn registration_check(
    projects: Map<Seq<char>, ProjectView>,
    is_dir: bool,
    canonical: Result<Seq<char>, FailureView>,
) -> Result<Seq<char>, ErrorView> {
    if !is_dir {
        Err(plain_error(404, "PROJECT_NOT_FOUND"@, "project directory does not exist"@))
    } else {
        match canonical {
            Err(failure) => Err(io_error_spec(failure)),
            Ok(path) => if has_path(projects, path) {
                Err(plain_error(409, "PROJECT_EXISTS"@, "project is already registered"@))
            } else {
                Ok(path)
            },
        }
    }
}

/// The path of a directory that may be registered.
pub fn check_registration(
    projects: &Table<Project>,
    is_dir: bool,
    canonical: Result<String, IoFailure>,
) -> (r: Result<String, ApiError>)
    ensures
        outcome(r) == registration_check(projects@, is_dir, crate::paths::resolved(canonical)),
{
    if !is_dir {
        return Err(ApiError::new(404, "PROJECT_NOT_FOUND", "project directory does not exist"));
    }
    match canonical {
        Err(failure) => Err(io_error(&failure)),
        Ok(path) => if any_project_at(projects, path.as_str()) {
            Err(ApiError::new(409, "PROJECT_EXISTS", "project is already registered"))
        } else {
            Ok(path)
        },
    }
}

/// The name of a registered project: as the request says unless that is blank, or the name
/// of its directory.
pub open spec fn registered_name(name: Option<Seq<char>>, path: Seq<char>) -> Seq<char> {
    if name matches Some(text) && trimmed(text).len() > 0 {
        name->0
    } else {
        match file_name_spec(path) {
            Some(name) => name,
            None => "Project"@,
        }
    }
}

/// The project that a request to register a directory makes.
pub fn register_project(name: Option<String>, path: String) -> (r: Project)
    ensures
        fresh_project(r@, registered_name(optional(name), path@), path@),
{
    let chosen = match name {
        Some(text) => if is_blank(text.as_str()) {
            None
        } else {
            Some(text)
        },
        None => None,
    };
    let name = match chosen {
        Some(text) => text,
        None => match file_name(path.as_str()) {
            Some(text) => text,
            None => "Project".to_owned(),
        },
    };
    new_project(name, path)
}

/// A directory that the file system resolved.
pub struct ResolvedDir {
    pub path: String,
    pub is_dir: bool,
}

/// A record of a project, and what the file system said of the path in it.
pub struct ImportItem {
    pub value: Json,
    pub resolved: Option<ResolvedDir>,
}

/// The view of an [`ImportItem`].
pub struct ImportView {
    pub value: JsonView,
    pub resolved: Option<(Seq<char>, bool)>,
}

impl View for ImportItem {
    type V = ImportView;

    open spec fn view(&self) -> ImportView {
        ImportView {
            value: self.value@,
            resolved: match self.resolved {
                Some(dir) => Some((dir.path@, dir.is_dir)),
                None => None,
            },
        }
    }
}

/// The views of records.
pub open spec fn import_views(items: Seq<ImportItem>) -> Seq<ImportView> {
    Seq::new(items.len(), |i: int| items[i]@)
}

/// The path in a record.
pub fn record_path(value: &Json) -> (r: Option<String>)
    ensures
        optional(r) == text_member(value@, "path"@),
{
    get_text(value, "path")
}

/// A text of a record, unless it is empty.
pub open spec fn filled_member(value: JsonView, key: Seq<char>) -> Option<Seq<char>> {
    match text_member(value, key) {
        Some(text) => if text.len() > 0 {
            Some(text)
        } else {
            None
        },
        None => None,
    }
}

/// A text of a record, unless it is empty.
fn get_filled(value: &Json, key: &str) -> (r: Option<String>)
    ensures
        optional(r) == filled_member(value@, key@),
{
    match get_text(value, key) {
        Some(text) => if chars_of(text.as_str()).len() > 0 {
            Some(text)
        } else {
            None
        },
        None => None,
    }
}

/// When a record says that the project was made.
pub open spec fn record_time(value: JsonView, now: u64) -> u64 {
    match member(value, "createdAt"@) {
        Some(JsonView::Number(Number::Unsigned(seconds))) => seconds,
        _ => now,
    }
}

/// When a record says that the project was made.
fn get_time(value: &Json, now: u64) -> (r: u64)
    ensures
        r == record_time(value@, now),
{
    match value.get("createdAt") {
        Some(found) => {
            proof {
                lemma_view(*found);
            }
            match found {
                Json::Number(Number::Unsigned(seconds)) => *seconds,
                _ => now,
            }
        },
        None => now,
    }
}

/// The project that a record makes: none unless its path is that of a directory in the
/// workspace.
pub open spec fn imported_project(root: Seq<char>, item: ImportView, now: u64) -> Option<
    ProjectView,
> {
    if text_member(item.value, "path"@) is None {
        None
    } else {
        match item.resolved {
            Some((path, is_dir)) => if below(path, root) && is_dir {
                Some(
                    ProjectView {
                        id: match filled_member(item.value, "id"@) {
                            Some(id) => id,
                            None => project_id_spec(path),
                        },
                        name: match filled_member(item.value, "name"@) {
                            Some(name) => name,
                            None => match file_name_spec(path) {
                                Some(name) => name,
                                None => seq![],
                            },
                        },
                        path,
                        created_at: record_time(item.value, now),
                    },
                )
            } else {
                None
            },
            None => None,
        }
    }
}

/// The projects after a record was read.
pub open spec fn import_spec(
    projects: Map<Seq<char>, ProjectView>,
    root: Seq<char>,
    item: ImportView,
    now: u64,
) -> Map<Seq<char>, ProjectView> {
    match imported_project(root, item, now) {
        Some(project) => projects.insert(project.id, project),
        None => projects,
    }
}

/// Reads a record of a project.
pub fn import_project_value(
    projects: &mut Table<Project>,
    root: &str,
    item: &ImportItem,
    now: u64,
)
    ensures
        final(projects)@ == import_spec(old(projects)@, root@, item@, now),
{
    if record_path(&item.value).is_none() {
        return ;
    }
    let dir = match &item.resolved {
        Some(dir) => dir,
        None => {
            return ;
        },
    };
    let path = dir.path.as_str();
    if !path_starts_with(path, root) || !dir.is_dir {
        return ;
    }
    let id = match get_filled(&item.value, "id") {
        Some(id) => id,
        None => stable_project_id(path),
    };
    proof {
        reveal_strlit("");
        assert(""@ =~= Seq::<char>::empty());
    }
    let name = match get_filled(&item.value, "name") {
        Some(name) => name,
        None => match file_name(path) {
            Some(name) => name,
            None => "".to_owned(),
        },
    };
    let created_at: u64 = get_time(&item.value, now);
    let key = id.clone();
    projects.insert(key, Project { id, name, path: dir.path.clone(), created_at });
}

/// The projects after records were read.
pub open spec fn imports_spec(
    projects: Map<Seq<char>, ProjectView>,
    root: Seq<char>,
    items: Seq<ImportView>,
    now: u64,
) -> Map<Seq<char>, ProjectView>
    decreases items.len(),
{
    if items.len() == 0 {
        projects
    } else {
        import_spec(imports_spec(projects, root, items.drop_last(), now), root, items.last(), now)
    }
}

/// Reads records of projects.
fn import_all(projects: &mut Table<Project>, root: &str, items: &Vec<ImportItem>, now: u64)
    ensures
        final(projects)@ == imports_spec(old(projects)@, root@, import_views(items@), now),
{
    let ghost all = import_views(items@);
    let ghost start = projects@;
    let mut i: usize = 0;
    assert(all.take(0) =~= Seq::<ImportView>::empty());
    while i < items.len()
        invariant
            i <= items@.len(),
            all == import_views(items@),
            projects@ == imports_spec(start, root@, all.take(i as int), now),
        decreases items@.len() - i,
    {
        proof {
            assert(all.take(i + 1).drop_last() =~= all.take(i as int));
            assert(all.take(i + 1).last() == items@[i as int]@);
        }
        import_project_value(projects, root, &items[i], now);
        i += 1;
    }
    assert(all.take(i as int) =~= all);
}

/// The records that a registry holds: its items, if it is a list.
pub fn registry_items(registry: Json) -> (r: Vec<Json>)
    ensures
        list_view(r@) == match registry@ {
            JsonView::List(items) => items,
            _ => Seq::empty(),
        },
{
    proof {
        lemma_view(registry);
    }
    match registry {
        Json::List(items) => items,
        _ => {
            let none: Vec<Json> = Vec::new();
            proof {
                lemma_list_view(none@);
                assert(list_view(none@) =~= Seq::<JsonView>::empty());
            }
            none
        },
    }
}

/// The views of records under their identifiers.
pub open spec fn record_views(records: Seq<(String, Json)>) -> Seq<(Seq<char>, JsonView)> {
    Seq::new(records.len(), |i: int| (records[i].0@, records[i].1@))
}

/// The records of projects in the state of a desktop application, under their identifiers and
/// in the order of those.
pub open spec fn desktop_spec(state: JsonView) -> Seq<(Seq<char>, JsonView)> {
    match member(state, "projectRegistry"@) {
        Some(JsonView::Object(members)) => Seq::new(
            keys_of(members).len(),
            |i: int| (keys_of(members)[i], members[keys_of(members)[i]]),
        ),
        _ => seq![],
    }
}

/// The members of an object in the order of their keys.
fn ordered_members(object: &JsonObject) -> (r: Table<Json>)
    ensures
        r@ == object@,
{
    let mut r: Table<Json> = Table::new();
    let n: usize = object.len();
    let ghost keys = object.keys();
    let mut i: usize = 0;
    while i < n
        invariant
            i <= n,
            n == keys.len(),
            keys == object.keys(),
            forall|key: Seq<char>| #[trigger]
                r@.contains_key(key) <==> keys.take(i as int).contains(key),
            forall|key: Seq<char>| #[trigger] r@.contains_key(key) ==> r@[key] == object@[key],
        decreases n - i,
    {
        let key = object.key_at(i);
        r.insert(key.clone(), copy_json(object.value_at(i)));
        proof {
            assert forall|k: Seq<char>| #[trigger] r@.contains_key(k) <==> keys.take(
                i + 1,
            ).contains(k) by {
                let short = keys.take(i as int);
                let long = keys.take(i + 1);
                if short.contains(k) {
                    let j = choose|j: int| 0 <= j < short.len() && short[j] == k;
                    assert(long[j] == k);
                }
                assert(long[i as int] == key@);
                if long.contains(k) && k != key@ {
                    let j = choose|j: int| 0 <= j < long.len() && long[j] == k;
                    assert(short[j] == k);
                }
            }
        }
        i += 1;
    }
    assert(keys.take(i as int) =~= keys);
    assert(r@ =~= object@);
    r
}

/// The records of projects in the state of a desktop application.
pub fn desktop_records(state: &Json) -> (r: Vec<(String, Json)>)
    ensures
        record_views(r@) == desktop_spec(state@),
{
    let mut r: Vec<(String, Json)> = Vec::new();
    assert(record_views(r@) =~= Seq::<(Seq<char>, JsonView)>::empty());
    let found = match state.get("projectRegistry") {
        Some(found) => found,
        None => {
            return r;
        },
    };
    proof {
        lemma_view(*found);
    }
    let object = match found {
        Json::Object(object) => object,
        _ => {
            return r;
        },
    };
    let members = ordered_members(object);
    let n: usize = members.len();
    let mut i: usize = 0;
    while i < n
        invariant
            i <= n,
            n == members.keys().len(),
            members.keys() == keys_of(members@),
            members@ == object@,
            desktop_spec(state@).len() == n,
            forall|j: int|
                0 <= j < n ==> #[trigger] desktop_spec(state@)[j] == (
                    members.keys()[j],
                    members@[members.keys()[j]],
                ),
            record_views(r@) == desktop_spec(state@).take(i as int),
        decreases n - i,
    {
        let ghost before = record_views(r@);
        let pair = (members.key_at(i).clone(), copy_json(members.value_at(i)));
        r.push(pair);
        assert(record_views(r@) =~= before.push((pair.0@, pair.1@)));
        assert(record_views(r@) =~= desktop_spec(state@).take(i + 1));
        i += 1;
    }
    assert(record_views(r@) =~= desktop_spec(state@));
    r
}

/// A record of another registry, with its identifier put in. A record that is neither an
/// object nor null has no place for one.
pub fn with_id(value: &Json, id: &str) -> (r: Json)
    requires
        value@ is Object || value@ is Null,
    ensures
        r@ == JsonView::Object(
            (match value@ {
                JsonView::Object(members) => members,
                _ => Map::empty(),
            }).insert("id"@, JsonView::Text(id@)),
        ),
{
    proof {
        lemma_view(*value);
    }
    let mut object = match value {
        Json::Object(object) => copy_object(object),
        _ => JsonObject::new(),
    };
    let text = Json::Text(id.to_owned());
    proof {
        lemma_view(text);
    }
    object.set("id".to_owned(), text);
    let r = Json::Object(object);
    proof {
        lemma_view(r);
    }
    r
}

/// A directory found in the workspace: its name, whether it is a directory, and its canonical
/// path.
pub struct FoundDirectory {
    pub name: String,
    pub is_dir: bool,
    pub path: Option<String>,
}

/// The view of a [`FoundDirectory`].
pub struct FoundView {
    pub name: Seq<char>,
    pub is_dir: bool,
    pub path: Option<Seq<char>>,
}

impl View for FoundDirectory {
    type V = FoundView;

    open spec fn view(&self) -> FoundView {
        FoundView { name: self.name@, is_dir: self.is_dir, path: optional(self.path) }
    }
}

/// The views of directories.
pub open spec fn found_views(found: Seq<FoundDirectory>) -> Seq<FoundView> {
    Seq::new(found.len(), |i: int| found[i]@)
}

/// The projects after a directory was looked at: one more if it is not hidden and no project
/// lies there yet.
pub open spec fn discover_spec(
    projects: Map<Seq<char>, ProjectView>,
    found: FoundView,
    now: u64,
) -> Map<Seq<char>, ProjectView> {
    if !found.is_dir || (found.name.len() > 0 && found.name[0] == '.') {
        projects
    } else {
        match found.path {
            Some(path) => if has_path(projects, path) {
                projects
            } else {
                projects.insert(
                    project_id_spec(path),
                    ProjectView {
                        id: project_id_spec(path),
                        name: found.name,
                        path,
                        created_at: now,
                    },
                )
            },
            None => projects,
        }
    }
}

/// Looks at a directory of the workspace.
pub fn discover_project(projects: &mut Table<Project>, found: &FoundDirectory, now: u64)
    ensures
        final(projects)@ == discover_spec(old(projects)@, found@, now),
{
    let chars = chars_of(found.name.as_str());
    if !found.is_dir || (chars.len() > 0 && chars[0] == '.') {
        return ;
    }
    let path = match &found.path {
        Some(path) => path,
        None => {
            return ;
        },
    };
    if any_project_at(projects, path.as_str()) {
        return ;
    }
    let id = stable_project_id(path.as_str());
    let key = id.clone();
    projects.insert(
        key,
        Project { id, name: found.name.clone(), path: path.clone(), created_at: now },
    );
}

/// The projects after directories were looked at.
pub open spec fn discoveries_spec(
    projects: Map<Seq<char>, ProjectView>,
    found: Seq<FoundView>,
    now: u64,
) -> Map<Seq<char>, ProjectView>
    decreases found.len(),
{
    if found.len() == 0 {
        projects
    } else {
        discover_spec(discoveries_spec(projects, found.drop_last(), now), found.last(), now)
    }
}

/// Looks at directories of the workspace.
fn discover_all(projects: &mut Table<Project>, found: &Vec<FoundDirectory>, now: u64)
    ensures
        final(projects)@ == discoveries_spec(old(projects)@, found_views(found@), now),
{
    let ghost all = found_views(found@);
    let ghost start = projects@;
    let mut i: usize = 0;
    assert(all.take(0) =~= Seq::<FoundView>::empty());
    while i < found.len()
        invariant
            i <= found@.len(),
            all == found_views(found@),
            projects@ == discoveries_spec(start, all.take(i as int), now),
        decreases found@.len() - i,
    {
        proof {
            assert(all.take(i + 1).drop_last() =~= all.take(i as int));
            assert(all.take(i + 1).last() == found@[i as int]@);
        }
        discover_project(projects, &found[i], now);
        i += 1;
    }
    assert(all.take(i as int) =~= all);
}

/// The projects at the start: those of the registry, if there is one; else those of another
/// registry and the directories of the workspace.
pub open spec fn registry_spec(
    root: Seq<char>,
    registry: Option<Seq<ImportView>>,
    other: Seq<ImportView>,
    found: Seq<FoundView>,
    now: u64,
) -> Map<Seq<char>, ProjectView> {
    match registry {
        Some(items) => imports_spec(Map::empty(), root, items, now),
        None => discoveries_spec(imports_spec(Map::empty(), root, other, now), found, now),
    }
}

/// The view of a registry that may be missing.
pub open spec fn registry_view(registry: Option<Vec<ImportItem>>) -> Option<Seq<ImportView>> {
    match registry {
        Some(items) => Some(import_views(items@)),
        None => None,
    }
}

/// The projects at the start, at the time `now`. `registry` holds the records of the registry
/// if there is one, `other` those of another registry, and `found` what stands in the
/// workspace.
pub fn load_registry_at(
    root: &str,
    registry: &Option<Vec<ImportItem>>,
    other: &Vec<ImportItem>,
    found: &Vec<FoundDirectory>,
    now: u64,
) -> (r: Table<Project>)
    ensures
        r@ == registry_spec(
            root@,
            registry_view(*registry),
            import_views(other@),
            found_views(found@),
            now,
        ),
{
    let mut projects: Table<Project> = Table::new();
    match registry {
        Some(items) => import_all(&mut projects, root, items, now),
        None => {
            import_all(&mut projects, root, other, now);
            discover_all(&mut projects, found, now);
        },
    }
    projects
}

/// The projects at the start, at the time that the clock shows.
pub fn load_registry(
    root: &str,
    registry: &Option<Vec<ImportItem>>,
    other: &Vec<ImportItem>,
    found: &Vec<FoundDirectory>,
) -> (r: Table<Project>)
    ensures
        exists|now: u64|
            r@ == #[trigger] registry_spec(
                root@,
                registry_view(*registry),
                import_views(other@),
                found_views(found@),
                now,
            ),
{
    let now: u64 = now_secs();
    load_registry_at(root, registry, other, found, now)
}

/// The record of a project.
pub open spec fn record_spec(project: ProjectView) -> JsonView {
    JsonView::Object(
        Map::<Seq<char>, JsonView>::empty().insert("id"@, JsonView::Text(project.id)).insert(
            "name"@,
            JsonView::Text(project.name),
        ).insert("path"@, JsonView::Text(project.path)).insert(
            "createdAt"@,
            JsonView::Number(Number::Unsigned(project.created_at)),
        ),
    )
}

/// The record of a project.
fn record_of(project: &Project) -> (r: Json)
    ensures
        r@ == record_spec(project@),
{
    let created_at = Json::Number(Number::Unsigned(project.created_at));
    proof {
        lemma_view(created_at);
    }
    let mut object = JsonObject::new();
    object.set("id".to_owned(), text_value(project.id.as_str()));
    object.set("name".to_owned(), text_value(project.name.as_str()));
    object.set("path".to_owned(), text_value(project.path.as_str()));
    object.set("createdAt".to_owned(), created_at);
    let r = Json::Object(object);
    proof {
        lemma_view(r);
    }
    r
}

/// What clients see of a project: all but where it lies.
pub open spec fn shown_spec(project: ProjectView) -> JsonView {
    JsonView::Object(
        Map::<Seq<char>, JsonView>::empty().insert("id"@, JsonView::Text(project.id)).insert(
            "name"@,
            JsonView::Text(project.name),
        ).insert("createdAt"@, JsonView::Number(Number::Unsigned(project.created_at))),
    )
}

/// What clients see of a project.
pub fn shown_project(project: &Project) -> (r: Json)
    ensures
        r@ == shown_spec(project@),
{
    let created_at = Json::Number(Number::Unsigned(project.created_at));
    proof {
        lemma_view(created_at);
    }
    let mut object = JsonObject::new();
    object.set("id".to_owned(), text_value(project.id.as_str()));
    object.set("name".to_owned(), text_value(project.name.as_str()));
    object.set("createdAt".to_owned(), created_at);
    let r = Json::Object(object);
    proof {
        lemma_view(r);
    }
    r
}

/// Clients do not see where a project lies.
pub proof fn law_clients_see_no_path(project: ProjectView, path: Seq<char>)
    ensures
        shown_spec(project) == shown_spec(ProjectView { path, ..project }),
        member(shown_spec(project), "path"@) is None,
{
    reveal_strlit("id");
    reveal_strlit("name");
    reveal_strlit("path");
    reveal_strlit("createdAt");
    assert("name"@[0] == 'n' && "path"@[0] == 'p');
}

/// The records of the projects, in the order of their identifiers.
pub fn registry_records(projects: &Table<Project>) -> (r: Vec<Json>)
    ensures
        r@.len() == values_of(projects@).len(),
        forall|i: int|
            0 <= i < r@.len() ==> (#[trigger] r@[i])@ == record_spec(values_of(projects@)[i]),
{
    let ghost all = values_of(projects@);
    let n: usize = projects.len();
    let mut r: Vec<Json> = Vec::new();
    let mut i: usize = 0;
    while i < n
        invariant
            i <= n,
            n == projects.keys().len(),
            projects.keys() == keys_of(projects@),
            all == values_of(projects@),
            r@.len() == i,
            forall|j: int| 0 <= j < i ==> (#[trigger] r@[j])@ == record_spec(all[j]),
        decreases n - i,
    {
        let project = projects.value_at(i);
        assert(all[i as int] == project@);
        r.push(record_of(project));
        i += 1;
    }
    r
}

/// The record of a project whose directory is still there.
pub open spec fn kept_record(project: ProjectView) -> ImportView {
    ImportView { value: record_spec(project), resolved: Some((project.path, true)) }
}

/// A record gives the project back.
proof fn lemma_record_gives_project(root: Seq<char>, project: ProjectView, now: u64)
    requires
        below(project.path, root),
        project.id.len() > 0,
        project.name.len() > 0,
    ensures
        imported_project(root, kept_record(project), now) == Some(project),
{
    reveal_strlit("id");
    reveal_strlit("name");
    reveal_strlit("path");
    reveal_strlit("createdAt");
    assert("id"@.len() == 2 && "name"@.len() == 4 && "path"@.len() == 4 && "createdAt"@.len() == 9);
    assert("name"@[0] != "path"@[0]);
}

/// The records of the projects under the first `n` keys.
spec fn kept_records(
    projects: Map<Seq<char>, ProjectView>,
    keys: Seq<Seq<char>>,
    n: int,
) -> Seq<ImportView> {
    Seq::new(n as nat, |i: int| kept_record(projects[keys[i]]))
}

/// Records of projects, read in some order, give exactly those projects.
proof fn lemma_kept_records(
    projects: Map<Seq<char>, ProjectView>,
    root: Seq<char>,
    keys: Seq<Seq<char>>,
    n: int,
    now: u64,
)
    requires
        0 <= n <= keys.len(),
        all_inside(projects, root),
        forall|id: Seq<char>| #[trigger]
            projects.contains_key(id) ==> projects[id].id == id && id.len() > 0
                && projects[id].name.len() > 0,
        forall|i: int| 0 <= i < keys.len() ==> projects.contains_key(#[trigger] keys[i]),
    ensures
        ({
            let part = imports_spec(Map::empty(), root, kept_records(projects, keys, n), now);
            &&& forall|id: Seq<char>| #[trigger]
                part.contains_key(id) <==> keys.take(n).contains(id)
            &&& forall|id: Seq<char>| #[trigger] part.contains_key(id) ==> part[id] == projects[id]
        }),
    decreases n,
{
    let none = Map::<Seq<char>, ProjectView>::empty();
    let records = kept_records(projects, keys, n);
    let part = imports_spec(none, root, records, now);
    if n > 0 {
        lemma_kept_records(projects, root, keys, n - 1, now);
        let fewer = kept_records(projects, keys, n - 1);
        let before = imports_spec(none, root, fewer, now);
        assert(records.drop_last() =~= fewer);
        let last = keys[n - 1];
        assert(projects.contains_key(last));
        lemma_record_gives_project(root, projects[last], now);
        assert(part == before.insert(last, projects[last]));
        assert forall|id: Seq<char>| #[trigger] part.contains_key(id) <==> keys.take(n).contains(
            id,
        ) by {
            let short = keys.take(n - 1);
            let long = keys.take(n);
            assert(before.contains_key(id) <==> short.contains(id));
            if short.contains(id) {
                let i = choose|i: int| 0 <= i < short.len() && short[i] == id;
                assert(long[i] == id);
            }
            if id == last {
                assert(long[n - 1] == id);
            }
            if long.contains(id) {
                let i = choose|i: int| 0 <= i < long.len() && long[i] == id;
                if i < n - 1 {
                    assert(short[i] == id);
                }
            }
        }
        assert forall|id: Seq<char>| #[trigger] part.contains_key(id) implies part[id]
            == projects[id] by {
            if id != last {
                assert(before.contains_key(id));
            }
        }
    } else {
        assert(records =~= Seq::<ImportView>::empty());
    }
}

/// Projects whose records are written, and whose directories are still there when they are
/// read again, are the same: names, paths and times survive. A project without a name would
/// be named after its directory.
pub proof fn law_projects_survive_a_restart(
    projects: Map<Seq<char>, ProjectView>,
    root: Seq<char>,
    other: Seq<ImportView>,
    found: Seq<FoundView>,
    now: u64,
)
    requires
        projects.dom().finite(),
        all_inside(projects, root),
        forall|id: Seq<char>| #[trigger]
            projects.contains_key(id) ==> projects[id].id == id && id.len() > 0
                && projects[id].name.len() > 0,
    ensures
        registry_spec(
            root,
            Some(
                Seq::new(
                    values_of(projects).len(),
                    |i: int| kept_record(values_of(projects)[i]),
                ),
            ),
            other,
            found,
            now,
        ) == projects,
{
    lemma_keys_exist(projects);
    let keys = keys_of(projects);
    assert forall|i: int| 0 <= i < keys.len() implies projects.contains_key(
        #[trigger] keys[i],
    ) by {
        assert(keys.contains(keys[i]));
    }
    lemma_kept_records(projects, root, keys, keys.len() as int, now);
    assert(keys.take(keys.len() as int) =~= keys);
    let records = Seq::new(
        values_of(projects).len(),
        |i: int| kept_record(values_of(projects)[i]),
    );
    assert(records =~= kept_records(projects, keys, keys.len() as int));
    let read = imports_spec(Map::empty(), root, records, now);
    assert forall|id: Seq<char>| #[trigger] read.contains_key(id) <==> projects.contains_key(id) by {
        assert(projects.contains_key(id) <==> keys.contains(id));
    }
    assert(read =~= projects);
}

/// A new name touches one project, and there only the name.
pub proof fn law_rename_touches_one_project(
    projects: Map<Seq<char>, ProjectView>,
    id: Seq<char>,
    name: Seq<char>,
)
    ensures
        renamed_spec(projects, id, name) matches Ok((after, project)) ==> {
            &&& after.dom() == projects.dom()
            &&& after[id] == project
            &&& project.name == trimmed(name)
            &&& project.id == projects[id].id && project.path == projects[id].path
                && project.created_at == projects[id].created_at
            &&& forall|other: Seq<char>| #[trigger]
                projects.contains_key(other) && other != id ==> after[other] == projects[other]
        },
{
    if let Ok((after, _)) = renamed_spec(projects, id, name) {
        assert(after.dom() =~= projects.dom());
    }
}

/// Taking a project out of the registry keeps every other project, and the project is gone.
pub proof fn law_delete_removes_one_project(
    projects: Map<Seq<char>, ProjectView>,
    id: Seq<char>,
)
    ensures
        removed_spec(projects, id) matches Ok(after) ==> {
            &&& project_spec(after, id) == Err::<ProjectView, ErrorView>(project_not_found_spec())
            &&& forall|other: Seq<char>| #[trigger]
                projects.contains_key(other) && other != id ==> after.contains_key(other)
                    && after[other] == projects[other]
        },
{
}

/// Whether every project lies in the workspace.
pub open spec fn all_inside(projects: Map<Seq<char>, ProjectView>, root: Seq<char>) -> bool {
    forall|id: Seq<char>| #[trigger]
        projects.contains_key(id) ==> below(projects[id].path, root)
}

/// Records make only projects that lie in the workspace.
pub proof fn law_imported_projects_are_inside(
    projects: Map<Seq<char>, ProjectView>,
    root: Seq<char>,
    items: Seq<ImportView>,
    now: u64,
)
    requires
        all_inside(projects, root),
    ensures
        all_inside(imports_spec(projects, root, items, now), root),
    decreases items.len(),
{
    if items.len() > 0 {
        law_imported_projects_are_inside(projects, root, items.drop_last(), now);
    }
}

/// A directory that a project lies at is not registered again.
pub proof fn law_no_directory_is_registered_twice(
    projects: Map<Seq<char>, ProjectView>,
    is_dir: bool,
    canonical: Result<Seq<char>, FailureView>,
)
    ensures
        registration_check(projects, is_dir, canonical) matches Ok(path) ==> !has_path(
            projects,
            path,
        ),
{
}

/// A project is found under its identifier, and nothing under any other.
pub proof fn law_project_is_found(projects: Map<Seq<char>, ProjectView>, id: Seq<char>)
    ensures
        match project_spec(projects, id) {
            Ok(project) => projects.contains_key(id) && project == projects[id],
            Err(error) => !projects.contains_key(id) && error.status == 404 && error.code
                == "PROJECT_NOT_FOUND"@,
        },
{
}

/// A project gets another name whenever it is there and the name is not blank, and is taken out
/// whenever it is there.
pub proof fn law_projects_can_be_changed(
    projects: Map<Seq<char>, ProjectView>,
    id: Seq<char>,
    name: Seq<char>,
)
    ensures
        match renamed_spec(projects, id, name) {
            Ok(_) => projects.contains_key(id) && exists|i: int|
                0 <= i < name.len() && !white_space(#[trigger] name[i]),
            Err(error) => {
                ||| error.status == 404 && !projects.contains_key(id)
                ||| error.status == 400 && error.code == "INVALID_NAME"@ && forall|i: int|
                    0 <= i < name.len() ==> white_space(#[trigger] name[i])
            },
        },
        match removed_spec(projects, id) {
            Ok(after) => projects.contains_key(id) && !after.contains_key(id) && after.dom()
                == projects.dom().remove(id),
            Err(error) => !projects.contains_key(id) && error.status == 404,
        },
{
    law_blank_text_is_white_space(name);
    if let Ok(after) = removed_spec(projects, id) {
        assert(after.dom() =~= projects.dom().remove(id));
    }
}

/// A new project gets the directory that the request names, or one made from its name; names that
/// a directory may not have, and blank names of projects, are refused.
pub proof fn law_directory_of_a_new_project(name: Seq<char>, directory: Option<Seq<char>>)
    ensures
        match new_directory_spec(name, directory) {
            Ok(chosen) => {
                &&& directory is Some ==> chosen == directory->0
                &&& directory is None ==> chosen == slug_spec(name)
                &&& directory_name(chosen)
                &&& exists|i: int| 0 <= i < name.len() && !white_space(#[trigger] name[i])
            },
            Err(error) => {
                &&& error.status == 400
                &&& {
                    ||| error.code == "INVALID_DIRECTORY_NAME"@ && (directory is Some
                        && !directory_name(directory->0) || directory is None && !directory_name(
                        slug_spec(name),
                    ))
                    ||| error.code == "INVALID_NAME"@ && forall|i: int|
                        0 <= i < name.len() ==> white_space(#[trigger] name[i])
                }
            },
        },
{
    law_blank_text_is_white_space(name);
}

/// A directory that is there already belongs to another project; every other failure is told as
/// it is.
pub proof fn law_taken_directory_is_refused(
    failure: FailureView,
    error: ErrorView,
    other: FailureView,
)
    ensures
        made_directory_spec(Ok(())) is Ok,
        made_directory_spec(Err(failure)) matches Err(answer) && if failure.kind is AlreadyExists {
            answer.status == 409 && answer.code == "PROJECT_EXISTS"@
        } else {
            answer.status == 500 && answer.code == "IO_ERROR"@ && answer.message == failure.message
        },
        rollback_spec(error, Ok(())) == error,
        rollback_spec(error, Err(other)).status == 500,
        rollback_spec(error, Err(other)).code == "PROJECT_CREATE_ROLLBACK_FAILED"@,
        rollback_spec(error, Err(other)).message == error.message + "; rollback failed: "@
            + other.message,
{
}

/// A directory is registered whenever it is one, can be resolved, and no project has the same
/// place.
pub proof fn law_directory_is_registered(
    projects: Map<Seq<char>, ProjectView>,
    path: Seq<char>,
    failure: FailureView,
)
    ensures
        match registration_check(projects, true, Ok(path)) {
            Ok(registered) => registered == path && forall|id: Seq<char>| #[trigger]
                projects.contains_key(id) ==> !same_place(projects[id].path, path),
            Err(error) => error.status == 409 && error.code == "PROJECT_EXISTS"@ && exists|
                id: Seq<char>,
            | #[trigger]
                projects.contains_key(id) && same_place(projects[id].path, path),
        },
        registration_check(projects, false, Ok(path)) matches Err(error) && error.status == 404,
        registration_check(projects, true, Err(failure)) matches Err(error) && error.status == 500,
{
}

/// A registered project is called as the request says, unless that is blank; then as its
/// directory.
pub proof fn law_registered_project_is_called(
    text: Seq<char>,
    directory: Seq<char>,
    name: Seq<char>,
)
    requires
        directory.len() > 0,
        name.len() > 0 && !name.contains('/'),
        name != "."@ && name != ".."@,
    ensures
        (exists|i: int| 0 <= i < text.len() && !white_space(#[trigger] text[i]))
            ==> registered_name(Some(text), directory + "/"@ + name) == text,
        registered_name(None, directory + "/"@ + name) == name,
        registered_name(Some(seq![]), directory + "/"@ + name) == name,
        registered_name(None, "/"@) == "Project"@,
{
    law_blank_text_is_white_space(text);
    law_blank_text_is_white_space(seq![]);
    law_components_stand_between_slashes(directory, name);
}

/// A record makes a project exactly if it has a path and that leads to a directory in the
/// workspace. What it says counts; an identifier that it lacks is made from the path, a name is
/// that of the directory, and a time is the present one.
pub proof fn law_record_makes_a_project(root: Seq<char>, item: ImportView, now: u64)
    ensures
        imported_project(root, item, now) is Some <==> text_member(item.value, "path"@) is Some && (
        item.resolved matches Some((path, is_dir)) && is_dir && below(path, root)),
        imported_project(root, item, now) matches Some(project) ==> {
            &&& item.resolved matches Some((path, _))
            &&& project.path == path
            &&& text_member(item.value, "id"@) matches Some(id) ==> id.len() > 0 ==> project.id
                == id
            &&& text_member(item.value, "id"@) is None ==> project.id == project_id_spec(path)
            &&& text_member(item.value, "id"@) == Some(Seq::<char>::empty()) ==> project.id
                == project_id_spec(path)
            &&& text_member(item.value, "name"@) matches Some(name) ==> name.len() > 0
                ==> project.name == name
            &&& text_member(item.value, "name"@) is None ==> (file_name_spec(path) matches Some(
                name,
            ) ==> project.name == name)
            &&& member(item.value, "createdAt"@) is None ==> project.created_at == now
            &&& member(item.value, "createdAt"@) matches Some(
                JsonView::Number(Number::Unsigned(seconds)),
            ) ==> project.created_at == seconds
        },
{
}

/// Records are read one after the other, and a later one replaces an earlier one of the same
/// identifier.
pub proof fn law_records_are_read_in_order(
    projects: Map<Seq<char>, ProjectView>,
    root: Seq<char>,
    items: Seq<ImportView>,
    item: ImportView,
    now: u64,
)
    ensures
        imports_spec(projects, root, seq![], now) == projects,
        imported_project(root, item, now) is None ==> imports_spec(
            projects,
            root,
            items.push(item),
            now,
        ) == imports_spec(projects, root, items, now),
        imported_project(root, item, now) matches Some(project) ==> imports_spec(
            projects,
            root,
            items.push(item),
            now,
        ) == imports_spec(projects, root, items, now).insert(project.id, project),
{
    assert(items.push(item).drop_last() =~= items);
}

/// A directory of the workspace becomes a project exactly if it is one, is not hidden, and no
/// project has its place: under its name, and an identifier made from its path.
pub proof fn law_directory_is_discovered(
    projects: Map<Seq<char>, ProjectView>,
    found: Seq<FoundView>,
    one: FoundView,
    now: u64,
)
    requires
        one.name.len() > 0,
    ensures
        discoveries_spec(projects, seq![], now) == projects,
        ({
            let before = discoveries_spec(projects, found, now);
            let after = discoveries_spec(projects, found.push(one), now);
            if one.is_dir && one.name[0] != '.' && one.path is Some && forall|id: Seq<char>| #[trigger]
                before.contains_key(id) ==> !same_place(before[id].path, one.path->0) {
                let id = project_id_spec(one.path->0);
                &&& after.dom() == before.dom().insert(id)
                &&& after[id].id == id && after[id].name == one.name && after[id].path
                    == one.path->0 && after[id].created_at == now
                &&& forall|other: Seq<char>| #[trigger]
                    before.contains_key(other) && other != id ==> after[other] == before[other]
            } else {
                after == before
            }
        }),
{
    assert(found.push(one).drop_last() =~= found);
    let before = discoveries_spec(projects, found, now);
    let after = discoveries_spec(projects, found.push(one), now);
    if one.path is Some {
        let id = project_id_spec(one.path->0);
        if after != before {
            assert(after.dom() =~= before.dom().insert(id));
        }
        if one.is_dir && one.name[0] != '.' && forall|id: Seq<char>| #[trigger]
            before.contains_key(id) ==> !same_place(before[id].path, one.path->0) {
            assert(!has_path(before, one.path->0));
            assert(after.dom() =~= before.dom().insert(id));
        }
    }
}

/// A registry that is there is all that counts; without one, another registry is read and the
/// workspace looked through.
pub proof fn law_registry_counts_alone(
    root: Seq<char>,
    items: Seq<ImportView>,
    other: Seq<ImportView>,
    found: Seq<FoundView>,
    now: u64,
)
    ensures
        registry_spec(root, Some(items), other, found, now) == imports_spec(
            Map::empty(),
            root,
            items,
            now,
        ),
        registry_spec(root, None, other, seq![], now) == imports_spec(
            Map::empty(),
            root,
            other,
            now,
        ),
        registry_spec(root, None, seq![], found, now) == discoveries_spec(Map::empty(), found, now),
        registry_spec(root, None, other, found, now) == discoveries_spec(
            imports_spec(Map::empty(), root, other, now),
            found,
            now,
        ),
{
}

/// A record holds the identifier, the name, the path and the time of a project, and a client sees
/// all of these but the path.
pub proof fn law_record_of_a_project(project: ProjectView)
    ensures
        text_member(record_spec(project), "id"@) == Some(project.id),
        text_member(record_spec(project), "name"@) == Some(project.name),
        text_member(record_spec(project), "path"@) == Some(project.path),
        member(record_spec(project), "createdAt"@) == Some(
            JsonView::Number(Number::Unsigned(project.created_at)),
        ),
        text_member(shown_spec(project), "id"@) == Some(project.id),
        text_member(shown_spec(project), "name"@) == Some(project.name),
        member(shown_spec(project), "createdAt"@) == Some(
            JsonView::Number(Number::Unsigned(project.created_at)),
        ),
        shown_spec(project) matches JsonView::Object(members) && members.dom() == set![
            "id"@,
            "name"@,
            "createdAt"@,
        ],
{
    reveal_strlit("id");
    reveal_strlit("name");
    reveal_strlit("path");
    reveal_strlit("createdAt");
    assert("id"@.len() == 2 && "name"@.len() == 4 && "path"@.len() == 4 && "createdAt"@.len() == 9);
    assert("name"@[0] != "path"@[0]);
    assert(shown_spec(project)->Object_0.dom() =~= set!["id"@, "name"@, "createdAt"@]);
}

/// The records of a desktop application are the members of its registry, each under its key and
/// in the order of the keys.
pub proof fn law_desktop_records_are_members(
    state: Map<Seq<char>, JsonView>,
    registry: Map<Seq<char>, JsonView>,
    key: Seq<char>,
)
    requires
        registry.dom().finite(),
        state.contains_key("projectRegistry"@),
        state["projectRegistry"@] == JsonView::Object(registry),
    ensures
        ({
            let records = desktop_spec(JsonView::Object(state));
            &&& registry.contains_key(key) <==> exists|i: int|
                0 <= i < records.len() && (#[trigger] records[i]).0 == key
            &&& forall|i: int|
                0 <= i < records.len() ==> (#[trigger] records[i]).1 == registry[records[i].0]
            &&& forall|i: int, j: int|
                0 <= i < j < records.len() ==> precedes(
                    (#[trigger] records[i]).0,
                    (#[trigger] records[j]).0,
                )
        }),
        desktop_spec(JsonView::Object(state.remove("projectRegistry"@))).len() == 0,
{
    lemma_keys_exist(registry);
    let keys = keys_of(registry);
    let records = desktop_spec(JsonView::Object(state));
    assert(registry.contains_key(key) <==> keys.contains(key));
    if keys.contains(key) {
        let i = choose|i: int| 0 <= i < keys.len() && keys[i] == key;
        assert(records[i].0 == key);
    }
    if exists|i: int| 0 <= i < records.len() && (#[trigger] records[i]).0 == key {
        let i = choose|i: int| 0 <= i < records.len() && (#[trigger] records[i]).0 == key;
        assert(keys[i] == key);
    }
}

/// Contracts speak of whole values: every part of a value is in its view, in its place, and nothing
/// else is.
pub proof fn law_views_of_projects_are_whole(
    project: Project,
    directory: FoundDirectory,
    items: Seq<ImportItem>,
    records: Seq<(String, Json)>,
    found: Seq<FoundDirectory>,
    item: ImportItem,
    changed: Result<(Table<Project>, Project), ApiError>,
    made: Result<(), IoFailure>,
    registry: Option<Vec<ImportItem>>,
)
    ensures
        project@.id == project.id@,
        project@.name == project.name@,
        project@.path == project.path@,
        project@.created_at == project.created_at,
        directory@.name == directory.name@,
        directory@.is_dir == directory.is_dir,
        directory@.path == optional(directory.path),
        import_views(items).len() == items.len(),
        forall|i: int|
            0 <= i < items.len() ==> #[trigger] import_views(items)[i] == items[i]@,
        record_views(records).len() == records.len(),
        forall|i: int|
            0 <= i < records.len() ==> #[trigger] record_views(records)[i] == (
                records[i].0@,
                records[i].1@,
            ),
        found_views(found).len() == found.len(),
        forall|i: int|
            0 <= i < found.len() ==> #[trigger] found_views(found)[i] == found[i]@,
        item@.value == item.value@,
        match item.resolved {
            Some(found) => item@.resolved == Some((found.path@, found.is_dir)),
            None => item@.resolved is None,
        },
        match changed {
            Ok((table, one)) => change_outcome(changed) matches Ok((shown, told)) && shown == table@
                && told == one@,
            Err(error) => change_outcome(changed) matches Err(shown) && shown == error@,
        },
        match made {
            Ok(()) => done(made) is Ok,
            Err(failure) => done(made) matches Err(shown) && shown == failure@,
        },
        match registry {
            Some(all) => registry_view(registry) == Some(import_views(all@)),
            None => registry_view(registry) is None,
        },
{
}

/// A fresh project has the name and the path that it was made with, and an identifier.
pub proof fn law_project_is_what_it_was_made_with(
    project: ProjectView,
    name: Seq<char>,
    path: Seq<char>,
)
    requires
        fresh_project(project, name, path),
    ensures
        project.name == name,
        project.path == path,
        is_identifier(""@, project.id),
{
}

} // verus!
