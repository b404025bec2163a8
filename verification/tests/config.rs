use llm_wiki_server::config::{
    env_truthy, startup, usage, Assignments, CommandLine, IpAddress, ServerConfig, Startup,
};

fn args(items: &[&str]) -> Vec<String> {
    items.iter().map(|item| item.to_string()).collect()
}

fn no_env() -> Assignments {
    Assignments::empty()
}

fn env(items: &[(&str, &str)]) -> Assignments {
    let mut env = Assignments::empty();
    for (name, value) in items {
        env.assign(name.to_string(), value.to_string());
    }
    env
}

fn parse_host(text: &str) -> Result<IpAddress, String> {
    let octets: Vec<u8> = text.split('.').filter_map(|part| part.parse().ok()).collect();
    match octets.as_slice() {
        [a, b, c, d] => Ok(IpAddress::V4([*a, *b, *c, *d])),
        _ => Err("invalid IP address syntax".to_string()),
    }
}

fn configure(items: &[&str], env: &Assignments) -> Result<ServerConfig, String> {
    ServerConfig::from_args(&args(items), env, parse_host)
}

#[test]
fn non_loopback_plaintext_requires_explicit_opt_in() {
    let args = [
        "llm-wiki-server",
        "--host",
        "0.0.0.0",
        "--workspace-root",
        "workspace",
        "--data-dir",
        "data",
        "--token",
        "0123456789abcdef0123456789abcdef",
    ];
    assert!(configure(&args, &no_env()).is_err());
}

#[test]
fn server_config_requires_a_32_character_bootstrap_token() {
    let short = configure(
        &[
            "llm-wiki-server",
            "--workspace-root",
            "workspace",
            "--data-dir",
            "data",
            "--token",
            "too-short",
        ],
        &no_env(),
    );
    assert!(short
        .err()
        .unwrap()
        .contains("must be at least 32 characters"));

    let valid = configure(
        &[
            "llm-wiki-server",
            "--workspace-root",
            "workspace",
            "--data-dir",
            "data",
            "--token",
            "0123456789abcdef0123456789abcdef",
        ],
        &no_env(),
    );
    assert!(valid.is_ok());
}

#[test]
fn defaults_fill_what_nobody_says() {
    let config = configure(
        &[
            "llm-wiki-server",
            "--workspace-root",
            "workspace",
            "--data-dir",
            "data",
            "--token",
            "0123456789abcdef0123456789abcdef",
        ],
        &no_env(),
    )
    .ok()
    .unwrap();
    assert!(matches!(config.host, IpAddress::V4([127, 0, 0, 1])));
    assert_eq!(config.port, 19828);
    assert_eq!(config.workspace_root, "workspace");
    assert_eq!(config.data_dir, "data");
    assert_eq!(config.web_root, "dist");
    assert!(!config.secure_cookie);
    assert!(!config.allow_insecure_remote);
    assert_eq!(config.app_state, None);
}

#[test]
fn command_line_counts_before_the_environment() {
    let env = env(&[
        ("LLM_WIKI_PORT", "1"),
        ("LLM_WIKI_WORKSPACE_ROOT", "from-env"),
        ("LLM_WIKI_DATA_DIR", "data-from-env"),
        ("LLM_WIKI_BOOTSTRAP_TOKEN", "env-token-env-token-env-token-env-token"),
    ]);
    let config = configure(
        &["llm-wiki-server", "--workspace-root", "from-line", "--port", "8080"],
        &env,
    )
    .ok()
    .unwrap();
    assert_eq!(config.workspace_root, "from-line");
    assert_eq!(config.data_dir, "data-from-env");
    assert_eq!(config.port, 8080);
}

#[test]
fn remote_bind_is_accepted_when_it_is_asked_for() {
    let config = configure(
        &[
            "llm-wiki-server",
            "--host",
            "0.0.0.0",
            "--workspace-root",
            "workspace",
            "--data-dir",
            "data",
            "--token",
            "0123456789abcdef0123456789abcdef",
            "--allow-insecure-remote",
        ],
        &no_env(),
    );
    assert!(config.is_ok());
}

#[test]
fn wrong_options_are_refused() {
    assert!(configure(&["llm-wiki-server", "--unknown"], &no_env()).is_err());
    assert!(configure(&["llm-wiki-server", "--port"], &no_env()).is_err());
    let bad_port = configure(
        &[
            "llm-wiki-server",
            "--port",
            "70000",
            "--workspace-root",
            "workspace",
            "--data-dir",
            "data",
            "--token",
            "0123456789abcdef0123456789abcdef",
        ],
        &no_env(),
    );
    assert!(bad_port.is_err());
}

#[test]
fn truthy_values_are_told_apart() {
    let env = env(&[("A", "1"), ("B", "TRUE"), ("C", "Yes"), ("D", "on"), ("E", "")]);
    assert!(env_truthy(&env, "A"));
    assert!(env_truthy(&env, "B"));
    assert!(env_truthy(&env, "C"));
    assert!(!env_truthy(&env, "D"));
    assert!(!env_truthy(&env, "E"));
    assert!(!env_truthy(&env, "F"));
}

#[test]
fn loopback_addresses_are_known() {
    assert!(IpAddress::V4([127, 0, 0, 1]).is_loopback());
    assert!(IpAddress::V4([127, 9, 8, 7]).is_loopback());
    assert!(!IpAddress::V4([10, 0, 0, 1]).is_loopback());
    assert!(IpAddress::V6([0, 0, 0, 0, 0, 0, 0, 1]).is_loopback());
    assert!(!IpAddress::V6([0, 0, 0, 0, 0, 0, 0, 2]).is_loopback());
}

#[test]
fn help_and_version_come_before_the_configuration() {
    assert!(matches!(startup(&args(&["x", "--help", "--version"])), Startup::Help));
    assert!(matches!(startup(&args(&["x", "-h"])), Startup::Help));
    assert!(matches!(startup(&args(&["x", "-V"])), Startup::Version));
    assert!(matches!(startup(&args(&["x"])), Startup::Serve));
    assert!(usage().starts_with("llm-wiki-server\n\nUSAGE:\n"));
    assert!(usage().ends_with("Equivalent environment variables use the LLM_WIKI_* prefix."));
}

#[test]
fn last_value_of_an_option_counts() {
    let line = |items: &[&str]| CommandLine::parse(&args(items)).ok().unwrap();
    let before = line(&["llm-wiki-server", "--host", "a", "--secure-cookie", "--port", "1"]);
    let after = line(&[
        "llm-wiki-server",
        "--host",
        "a",
        "--secure-cookie",
        "--port",
        "1",
        "--port",
        "--host",
    ]);
    assert_eq!(before.options.get("--port"), Some("1".to_string()));
    assert_eq!(after.options.get("--port"), Some("--host".to_string()));
    assert_eq!(after.options.get("--host"), Some("a".to_string()));
    assert!(after.secure_cookie && !after.allow_insecure_remote);
}
