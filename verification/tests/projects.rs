use llm_wiki_server::error::ApiError;
use llm_wiki_server::json::{Json, JsonObject, Number};
use llm_wiki_server::layout::{layout_directories, layout_files};
use llm_wiki_server::paths::{IoFailure, IoKind};
use llm_wiki_server::projects::{
    add_project, any_project_at, check_registration, create_project, delete_project,
    desktop_records, discover_project, get_project, import_project_value, load_registry,
    load_registry_at, made_directory, new_project_directory, record_path, register_project,
    registry_items, registry_records, rollback_new_project_directory, shown_project,
    update_project, with_id, FoundDirectory, ImportItem, Project, ResolvedDir,
};
use llm_wiki_server::revision::stable_project_id;
use llm_wiki_server::store::settle;
use llm_wiki_server::table::Table;

fn project(id: &str, name: &str, path: &str) -> Project {
    Project {
        id: id.to_string(),
        name: name.to_string(),
        path: path.to_string(),
        created_at: 7,
    }
}

fn one() -> Table<Project> {
    let mut projects = Table::new();
    projects.insert("p1".to_string(), project("p1", "p1", "/w/p1"));
    projects
}

fn failure(kind: IoKind) -> IoFailure {
    IoFailure { kind, message: "reason".to_string() }
}

fn code<T>(r: Result<T, ApiError>) -> (u16, &'static str) {
    let error = r.err().unwrap();
    (error.status, error.code)
}

fn disk_full() -> Result<(), ApiError> {
    Err(ApiError::new(500, "IO_ERROR", "disk full"))
}

fn object(items: Vec<(&str, Json)>) -> Json {
    let mut object = JsonObject::new();
    for (key, value) in items {
        object.set(key.to_string(), value);
    }
    Json::Object(object)
}

fn text(value: &str) -> Json {
    Json::Text(value.to_string())
}

fn there(path: &str) -> Option<ResolvedDir> {
    Some(ResolvedDir { path: path.to_string(), is_dir: true })
}

#[test]
fn project_rename_and_unregister_persist_without_deleting_files() {
    let mut projects = one();
    let (candidate, updated) = update_project(&projects, "p1", "Renamed project").ok().unwrap();
    assert_eq!(updated.name, "Renamed project");
    assert!(settle(&mut projects, candidate, Ok(())).is_ok());
    assert_eq!(projects.get("p1").unwrap().name, "Renamed project");
    assert_eq!(projects.get("p1").unwrap().path, "/w/p1");

    let records: Vec<ImportItem> = registry_records(&projects)
        .into_iter()
        .map(|value| ImportItem { value, resolved: there("/w/p1") })
        .collect();
    let restored = load_registry("/w", &Some(records), &Vec::new(), &Vec::new());
    assert_eq!(restored.get("p1").unwrap().name, "Renamed project");
    assert_eq!(restored.get("p1").unwrap().created_at, 7);

    let candidate = delete_project(&projects, "p1").ok().unwrap();
    assert!(settle(&mut projects, candidate, Ok(())).is_ok());
    assert!(projects.get("p1").is_none());
    let restored = load_registry("/w", &Some(Vec::new()), &Vec::new(), &Vec::new());
    assert!(restored.get("p1").is_none());
}

#[test]
fn project_rename_and_unregister_do_not_mutate_memory_when_persistence_fails() {
    let mut projects = one();
    let (candidate, _) = update_project(&projects, "p1", "Should not persist").ok().unwrap();
    assert_eq!(code(settle(&mut projects, candidate, disk_full())), (500, "IO_ERROR"));
    assert_eq!(projects.get("p1").unwrap().name, "p1");
    let candidate = delete_project(&projects, "p1").ok().unwrap();
    assert_eq!(code(settle(&mut projects, candidate, disk_full())), (500, "IO_ERROR"));
    assert!(projects.get("p1").is_some());
}

#[test]
fn registry_persistence_failure_does_not_mutate_memory_or_leave_created_project() {
    let mut projects: Table<Project> = Table::new();
    let directory = new_project_directory("Created", Some("created".to_string())).ok().unwrap();
    assert_eq!(directory, "created");
    let created = create_project("Created", "/w/created".to_string());
    let candidate = add_project(&projects, &created);
    let error = settle(&mut projects, candidate, disk_full()).err().unwrap();
    assert_eq!(rollback_new_project_directory(error, Ok(())).status, 500);
    assert_eq!(projects.len(), 0);

    let path = check_registration(&projects, true, Ok("/w/registered".to_string())).ok().unwrap();
    let registered = register_project(None, path);
    assert_eq!(registered.name, "registered");
    let candidate = add_project(&projects, &registered);
    assert!(settle(&mut projects, candidate, disk_full()).is_err());
    assert_eq!(projects.len(), 0);
}

#[test]
fn names_are_trimmed_and_required() {
    let projects = one();
    let (_, updated) = update_project(&projects, "p1", "  New  ").ok().unwrap();
    assert_eq!(updated.name, "New");
    assert_eq!(code(update_project(&projects, "p1", "  ")), (400, "INVALID_NAME"));
    assert_eq!(code(update_project(&projects, "p2", "x")), (404, "PROJECT_NOT_FOUND"));
    assert_eq!(code(delete_project(&projects, "p2")), (404, "PROJECT_NOT_FOUND"));
    assert_eq!(code(get_project(&projects, "p2")), (404, "PROJECT_NOT_FOUND"));
    assert_eq!(get_project(&projects, "p1").ok().unwrap().path, "/w/p1");
    assert_eq!(create_project(" A ", "/w/a".to_string()).name, "A");
}

#[test]
fn directories_of_new_projects_are_checked() {
    assert_eq!(new_project_directory("My Wiki", None).ok().unwrap(), "my-wiki");
    assert_eq!(code(new_project_directory("!!!", None)), (400, "INVALID_DIRECTORY_NAME"));
    assert_eq!(
        code(new_project_directory("x", Some("../x".to_string()))),
        (400, "INVALID_DIRECTORY_NAME")
    );
    assert_eq!(code(new_project_directory(" ", Some("x".to_string()))), (400, "INVALID_NAME"));
    assert!(made_directory(Ok(())).is_ok());
    assert_eq!(code(made_directory(Err(failure(IoKind::AlreadyExists)))), (409, "PROJECT_EXISTS"));
    assert_eq!(code(made_directory(Err(failure(IoKind::Other)))), (500, "IO_ERROR"));
}

#[test]
fn failed_rollback_is_reported() {
    let error = ApiError::new(500, "IO_ERROR", "disk full");
    let error = rollback_new_project_directory(error, Err(failure(IoKind::Other)));
    assert_eq!(error.code, "PROJECT_CREATE_ROLLBACK_FAILED");
    assert_eq!(error.message, "disk full; rollback failed: reason");
}

#[test]
fn directories_are_registered_once() {
    let projects = one();
    assert_eq!(
        code(check_registration(&projects, true, Ok("/w/p1/".to_string()))),
        (409, "PROJECT_EXISTS")
    );
    assert_eq!(
        code(check_registration(&projects, false, Ok("/w/p2".to_string()))),
        (404, "PROJECT_NOT_FOUND")
    );
    assert_eq!(
        code(check_registration(&projects, true, Err(failure(IoKind::Other)))),
        (500, "IO_ERROR")
    );
    assert_eq!(check_registration(&projects, true, Ok("/w/p2".to_string())).ok().unwrap(), "/w/p2");
    assert!(any_project_at(&projects, "/w/p1"));
    assert!(!any_project_at(&projects, "/w"));
    assert_eq!(register_project(Some(" Named ".to_string()), "/w/x".to_string()).name, " Named ");
    assert_eq!(register_project(Some("  ".to_string()), "/w/x".to_string()).name, "x");
    assert_eq!(register_project(None, "/".to_string()).name, "Project");
}

#[test]
fn records_outside_the_workspace_are_left_out() {
    let mut projects: Table<Project> = Table::new();
    let good = ImportItem {
        value: object(vec![
            ("path", text("p")),
            ("id", text("a")),
            ("name", text("Alpha")),
            ("createdAt", Json::Number(Number::Unsigned(5))),
        ]),
        resolved: there("/w/p"),
    };
    import_project_value(&mut projects, "/w", &good, 99);
    let alpha = projects.get("a").unwrap();
    assert_eq!((alpha.name.as_str(), alpha.path.as_str(), alpha.created_at), ("Alpha", "/w/p", 5));

    let bare = ImportItem {
        value: object(vec![
            ("path", text("q")),
            ("id", text("")),
            ("createdAt", Json::Number(Number::Negative(-5))),
        ]),
        resolved: there("/w/q"),
    };
    import_project_value(&mut projects, "/w", &bare, 99);
    let made = projects.get(&stable_project_id("/w/q")).unwrap();
    assert_eq!((made.name.as_str(), made.created_at), ("q", 99));

    let outside = ImportItem { value: object(vec![("path", text("x"))]), resolved: there("/x") };
    let gone = ImportItem { value: object(vec![("path", text("x"))]), resolved: None };
    let pathless = ImportItem { value: object(vec![]), resolved: there("/w/z") };
    let file = ImportItem {
        value: object(vec![("path", text("x"))]),
        resolved: Some(ResolvedDir { path: "/w/f".to_string(), is_dir: false }),
    };
    for item in [outside, gone, pathless, file] {
        import_project_value(&mut projects, "/w", &item, 99);
    }
    assert_eq!(projects.len(), 2);
    assert_eq!(record_path(&object(vec![("path", text("x"))])), Some("x".to_string()));
}

#[test]
fn workspace_is_searched_when_there_is_no_registry() {
    let found = vec![
        FoundDirectory { name: "a".to_string(), is_dir: true, path: Some("/w/a".to_string()) },
        FoundDirectory { name: ".git".to_string(), is_dir: true, path: Some("/w/.git".to_string()) },
        FoundDirectory { name: "f".to_string(), is_dir: false, path: Some("/w/f".to_string()) },
        FoundDirectory { name: "g".to_string(), is_dir: true, path: None },
        FoundDirectory { name: "known".to_string(), is_dir: true, path: Some("/w/k".to_string()) },
    ];
    let other = vec![ImportItem {
        value: with_id(&object(vec![("path", text("/w/k"))]), "k"),
        resolved: there("/w/k"),
    }];
    let projects = load_registry_at("/w", &None, &other, &found, 42);
    assert_eq!(projects.len(), 2);
    assert_eq!(projects.get("k").unwrap().name, "k");
    let a = projects.get(&stable_project_id("/w/a")).unwrap();
    assert_eq!((a.name.as_str(), a.created_at), ("a", 42));
    let kept = load_registry_at("/w", &Some(Vec::new()), &other, &found, 42);
    assert_eq!(kept.len(), 0);
    let mut more = one();
    discover_project(&mut more, &found[0], 1);
    assert_eq!(more.len(), 2);
}

#[test]
fn identifiers_are_put_into_records() {
    let named = with_id(&object(vec![("id", text("old")), ("name", text("n"))]), "new");
    assert_eq!(named.get("id").unwrap().as_text().unwrap(), "new");
    assert_eq!(named.get("name").unwrap().as_text().unwrap(), "n");
    assert_eq!(with_id(&Json::Null, "x").get("id").unwrap().as_text().unwrap(), "x");
}

#[test]
fn new_projects_have_a_layout() {
    let directories = layout_directories();
    assert_eq!(directories.len(), 9);
    assert_eq!(directories[0], "raw/sources");
    assert_eq!(directories[8], ".llm-wiki");
    let files = layout_files();
    let paths: Vec<&str> = files.iter().map(|file| file.path.as_str()).collect();
    assert_eq!(
        paths,
        vec!["purpose.md", "schema.md", "wiki/index.md", "wiki/log.md", "wiki/overview.md", "README.md"]
    );
    assert_eq!(files[5].content, "# LLM Wiki\n");
}

#[test]
fn desktop_state_lists_projects_by_identifier() {
    let record = |name: &str| object(vec![("name", text(name))]);
    let state = object(vec![
        ("other", text("x")),
        ("projectRegistry", object(vec![("b", record("B")), ("a", record("A")), ("c", Json::Null)])),
    ]);
    let records = desktop_records(&state);
    let ids: Vec<&str> = records.iter().map(|(id, _)| id.as_str()).collect();
    assert_eq!(ids, vec!["a", "b", "c"]);
    assert_eq!(records[0].1.get("name").unwrap().as_text().unwrap(), "A");
    assert_eq!(records[1].1.get("name").unwrap().as_text().unwrap(), "B");
    assert!(matches!(records[2].1, Json::Null));
    assert_eq!(desktop_records(&object(vec![])).len(), 0);
    assert_eq!(desktop_records(&Json::Null).len(), 0);
    assert_eq!(desktop_records(&object(vec![("projectRegistry", Json::List(vec![]))])).len(), 0);
}

#[test]
fn clients_see_no_path() {
    let shown = shown_project(&project("p1", "One", "/w/secret/place"));
    match &shown {
        Json::Object(members) => assert_eq!(members.len(), 3),
        _ => panic!("a project is an object"),
    }
    assert_eq!(shown.get("id").unwrap().as_text().unwrap(), "p1");
    assert_eq!(shown.get("name").unwrap().as_text().unwrap(), "One");
    assert!(matches!(shown.get("createdAt"), Some(Json::Number(Number::Unsigned(7)))));
    assert!(shown.get("path").is_none());
}

#[test]
fn registry_is_a_list_of_records() {
    let items = registry_items(Json::List(vec![text("a"), Json::Null]));
    assert_eq!(items.len(), 2);
    assert_eq!(items[0].as_text().unwrap(), "a");
    assert_eq!(registry_items(object(vec![("a", text("b"))])).len(), 0);
}
