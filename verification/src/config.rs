//! The configuration of the server: command line and environment.

use vstd::prelude::*;

use crate::error::optional;
use crate::numbers::{NumberError, parse_decimal, parse_spec};
use crate::text::{
    chars_of, is_blank, lower_ascii, lower_ascii_spec, same, same_chars, same_ignoring_case,
    starts_with, texts, trimmed,
};

verus! {

/// An internet address.
#[derive(Clone, Copy)]
pub enum IpAddress {
    V4([u8; 4]),
    V6([u16; 8]),
}

impl IpAddress {
    /// Whether the address names this very machine: 127.0.0.0/8, or ::1.
    pub open spec fn loopback(self) -> bool {
        match self {
            IpAddress::V4(octets) => octets@[0] == 127,
            IpAddress::V6(segments) => segments@ == seq![0u16, 0, 0, 0, 0, 0, 0, 1],
        }
    }

    /// Decides [`IpAddress::loopback`].
    pub fn is_loopback(&self) -> (r: bool)
        ensures
            r == self.loopback(),
    {
        match self {
            IpAddress::V4(octets) => octets[0] == 127,
            IpAddress::V6(s) => {
                let r = s[0] == 0 && s[1] == 0 && s[2] == 0 && s[3] == 0 && s[4] == 0 && s[5] == 0
                    && s[6] == 0 && s[7] == 1;
                proof {
                    let one = seq![0u16, 0, 0, 0, 0, 0, 0, 1];
                    if r {
                        assert(s@ =~= one);
                    } else if s@ == one {
                        assert(one[0] == 0 && one[1] == 0 && one[2] == 0 && one[3] == 0 && one[4]
                            == 0 && one[5] == 0 && one[6] == 0 && one[7] == 1);
                    }
                }
                r
            },
        }
    }
}

/// A name with a value.
pub struct Assignment {
    pub name: String,
    pub value: String,
}

/// Names with values; of several values of one name the latest counts.
pub struct Assignments {
    pub entries: Vec<Assignment>,
}

/// The names and values behind a sequence of assignments.
pub open spec fn pairs(entries: Seq<Assignment>) -> Seq<(Seq<char>, Seq<char>)> {
    Seq::new(entries.len(), |i: int| (entries[i].name@, entries[i].value@))
}

impl View for Assignments {
    type V = Seq<(Seq<char>, Seq<char>)>;

    open spec fn view(&self) -> Seq<(Seq<char>, Seq<char>)> {
        pairs(self.entries@)
    }
}

/// The latest value of `name`.
pub open spec fn latest(entries: Seq<(Seq<char>, Seq<char>)>, name: Seq<char>) -> Option<Seq<char>>
    decreases entries.len(),
{
    if entries.len() == 0 {
        None
    } else if entries.last().0 == name {
        Some(entries.last().1)
    } else {
        latest(entries.drop_last(), name)
    }
}

impl Assignments {
    /// No assignment.
    pub fn empty() -> (r: Assignments)
        ensures
            r@ == Seq::<(Seq<char>, Seq<char>)>::empty(),
    {
        let r = Assignments { entries: Vec::new() };
        assert(r@ =~= Seq::<(Seq<char>, Seq<char>)>::empty());
        r
    }

    /// Adds a value of a name.
    pub fn assign(&mut self, name: String, value: String)
        ensures
            final(self)@ == old(self)@.push((name@, value@)),
    {
        let ghost before = self@;
        self.entries.push(Assignment { name, value });
        assert(self@ =~= before.push((name@, value@)));
    }

    /// The latest value of `name`.
    pub fn get(&self, name: &str) -> (r: Option<String>)
        ensures
            optional(r) == latest(self@, name@),
    {
        let mut i: usize = self.entries.len();
        assert(self@.take(i as int) =~= self@);
        while i > 0
            invariant
                i <= self.entries@.len(),
                latest(self@, name@) == latest(self@.take(i as int), name@),
            decreases i,
        {
            i -= 1;
            assert(self@.take(i + 1).drop_last() =~= self@.take(i as int));
            if same(self.entries[i].name.as_str(), name) {
                return Some(self.entries[i].value.clone());
            }
        }
        None
    }
}

/// The options that take a value.
pub open spec fn takes_value(arg: Seq<char>) -> bool {
    ||| arg == "--host"@
    ||| arg == "--port"@
    ||| arg == "--workspace-root"@
    ||| arg == "--data-dir"@
    ||| arg == "--web-root"@
    ||| arg == "--token"@
    ||| arg == "--app-state"@
}

/// What the command line says: the options with their values, and two switches.
pub struct CommandLine {
    pub options: Assignments,
    pub allow_insecure_remote: bool,
    pub secure_cookie: bool,
}

/// The view of a [`CommandLine`].
pub struct CommandLineView {
    pub options: Seq<(Seq<char>, Seq<char>)>,
    pub allow_insecure_remote: bool,
    pub secure_cookie: bool,
}

impl View for CommandLine {
    type V = CommandLineView;

    open spec fn view(&self) -> CommandLineView {
        CommandLineView {
            options: self.options@,
            allow_insecure_remote: self.allow_insecure_remote,
            secure_cookie: self.secure_cookie,
        }
    }
}

/// A command line that says nothing.
pub open spec fn no_options() -> CommandLineView {
    CommandLineView { options: seq![], allow_insecure_remote: false, secure_cookie: false }
}

/// What `args` add to what is known already, or the first complaint about them.
pub open spec fn read_args(args: Seq<Seq<char>>, known: CommandLineView) -> Result<
    CommandLineView,
    Seq<char>,
>
    decreases args.len(),
{
    if args.len() == 0 {
        Ok(known)
    } else {
        let arg = args[0];
        let rest = args.drop_first();
        if !"--"@.is_prefix_of(arg) {
            Err("unexpected argument: "@ + arg)
        } else if arg == "--allow-insecure-remote"@ {
            read_args(rest, CommandLineView { allow_insecure_remote: true, ..known })
        } else if arg == "--secure-cookie"@ {
            read_args(rest, CommandLineView { secure_cookie: true, ..known })
        } else if !takes_value(arg) {
            Err("unknown option: "@ + arg)
        } else if rest.len() == 0 {
            Err("missing value for "@ + arg)
        } else {
            read_args(
                rest.drop_first(),
                CommandLineView { options: known.options.push((arg, rest[0])), ..known },
            )
        }
    }
}

/// What a command line says. Its first word names the program and is passed over.
pub open spec fn command_line_spec(args: Seq<Seq<char>>) -> Result<CommandLineView, Seq<char>> {
    read_args(
        if args.len() == 0 {
            args
        } else {
            args.drop_first()
        },
        no_options(),
    )
}

/// Whether the option takes a value.
fn option_takes_value(arg: &str) -> (r: bool)
    ensures
        r == takes_value(arg@),
{
    same(arg, "--host") || same(arg, "--port") || same(arg, "--workspace-root") || same(
        arg,
        "--data-dir",
    ) || same(arg, "--web-root") || same(arg, "--token") || same(arg, "--app-state")
}

impl CommandLine {
    /// Reads a command line.
    pub fn parse(args: &Vec<String>) -> (r: Result<CommandLine, String>)
        ensures
            match r {
                Ok(line) => command_line_spec(texts(args@)) == Ok::<_, Seq<char>>(line@),
                Err(message) => command_line_spec(texts(args@)) == Err::<CommandLineView, _>(
                    message@,
                ),
            },
    {
        let ghost all = texts(args@);
        let mut line = CommandLine {
            options: Assignments::empty(),
            allow_insecure_remote: false,
            secure_cookie: false,
        };
        let n: usize = args.len();
        let mut i: usize = if n == 0 {
            0
        } else {
            1
        };
        proof {
            assert(line@ == no_options());
            if n > 0 {
                assert(all.skip(1) =~= all.drop_first());
            } else {
                assert(all.skip(0) =~= all);
            }
        }
        while i < n
            invariant
                i <= n == args@.len(),
                all == texts(args@),
                command_line_spec(all) == read_args(all.skip(i as int), line@),
            decreases n - i,
        {
            let arg = args[i].as_str();
            let chars = chars_of(arg);
            let dashes = chars_of("--");
            let ghost known = line@;
            let ghost rest = all.skip(i as int).drop_first();
            assert(all.skip(i as int)[0] == arg@);
            assert(rest =~= all.skip(i + 1));
            if !starts_with(chars.as_slice(), dashes.as_slice()) {
                return Err("unexpected argument: ".to_owned().concat(arg));
            }
            if same(arg, "--allow-insecure-remote") {
                line.allow_insecure_remote = true;
                i += 1;
            } else if same(arg, "--secure-cookie") {
                line.secure_cookie = true;
                i += 1;
            } else {
                if !option_takes_value(arg) {
                    return Err("unknown option: ".to_owned().concat(arg));
                }
                if i + 1 >= n {
                    return Err("missing value for ".to_owned().concat(arg));
                }
                line.options.assign(args[i].clone(), args[i + 1].clone());
                assert(rest.drop_first() =~= all.skip(i + 2));
                assert(rest[0] == args@[i + 1]@);
                i += 2;
            }
        }
        assert(all.skip(i as int) =~= Seq::<Seq<char>>::empty());
        Ok(line)
    }
}

/// The value of an option: from the command line, else from the environment.
pub open spec fn setting(
    line: CommandLineView,
    env: Seq<(Seq<char>, Seq<char>)>,
    arg: Seq<char>,
    var: Seq<char>,
) -> Option<Seq<char>> {
    match latest(line.options, arg) {
        Some(value) => Some(value),
        None => latest(env, var),
    }
}

fn env_or(line: &CommandLine, env: &Assignments, arg: &str, var: &str) -> (r: Option<String>)
    ensures
        optional(r) == setting(line@, env@, arg@, var@),
{
    match line.options.get(arg) {
        Some(value) => Some(value),
        None => env.get(var),
    }
}

/// Whether an environment variable is set to `1`, `true` or `yes`, in any case.
pub open spec fn truthy(env: Seq<(Seq<char>, Seq<char>)>, var: Seq<char>) -> bool {
    latest(env, var) matches Some(value) && {
        let low = lower_ascii_spec(value);
        low == "1"@ || low == "true"@ || low == "yes"@
    }
}

/// Decides [`truthy`].
pub fn env_truthy(env: &Assignments, name: &str) -> (r: bool)
    ensures
        r == truthy(env@, name@),
{
    match env.get(name) {
        Some(value) => {
            let low = lower_ascii(chars_of(value.as_str()).as_slice());
            same_chars(low.as_slice(), chars_of("1").as_slice()) || same_chars(
                low.as_slice(),
                chars_of("true").as_slice(),
            ) || same_chars(low.as_slice(), chars_of("yes").as_slice())
        },
        None => false,
    }
}

/// The configuration of the server.
pub struct ServerConfig {
    pub host: IpAddress,
    pub port: u16,
    pub workspace_root: String,
    pub data_dir: String,
    pub web_root: String,
    pub bootstrap_token: String,
    pub allow_insecure_remote: bool,
    pub secure_cookie: bool,
    pub app_state: Option<String>,
}

/// The view of a [`ServerConfig`].
pub struct ConfigView {
    pub host: IpAddress,
    pub port: int,
    pub workspace_root: Seq<char>,
    pub data_dir: Seq<char>,
    pub web_root: Seq<char>,
    pub bootstrap_token: Seq<char>,
    pub allow_insecure_remote: bool,
    pub secure_cookie: bool,
    pub app_state: Option<Seq<char>>,
}

impl View for ServerConfig {
    type V = ConfigView;

    open spec fn view(&self) -> ConfigView {
        ConfigView {
            host: self.host,
            port: self.port as int,
            workspace_root: self.workspace_root@,
            data_dir: self.data_dir@,
            web_root: self.web_root@,
            bootstrap_token: self.bootstrap_token@,
            allow_insecure_remote: self.allow_insecure_remote,
            secure_cookie: self.secure_cookie,
            app_state: optional(self.app_state),
        }
    }
}

/// The fewest characters of a bootstrap token.
pub const MIN_TOKEN_CHARS: usize = 32;

/// The text of the address to bind: from the command line, else from the environment,
/// else 127.0.0.1.
pub open spec fn host_text_spec(line: CommandLineView, env: Seq<(Seq<char>, Seq<char>)>) -> Seq<
    char,
> {
    match setting(line, env, "--host"@, "LLM_WIKI_HOST"@) {
        Some(value) => value,
        None => "127.0.0.1"@,
    }
}

/// The text of the port to bind: from the command line, else from the environment, else
/// 19828.
pub open spec fn port_text_spec(line: CommandLineView, env: Seq<(Seq<char>, Seq<char>)>) -> Seq<
    char,
> {
    match setting(line, env, "--port"@, "LLM_WIKI_PORT"@) {
        Some(value) => value,
        None => "19828"@,
    }
}

/// The configuration that a command line and an environment ask for, given how the text
/// of the address was read; or the first complaint about them.
pub open spec fn resolve_spec(
    line: CommandLineView,
    env: Seq<(Seq<char>, Seq<char>)>,
    host: Result<IpAddress, Seq<char>>,
) -> Result<ConfigView, Seq<char>> {
    let port = parse_spec(port_text_spec(line, env), u16::MAX as nat);
    let workspace_root = setting(line, env, "--workspace-root"@, "LLM_WIKI_WORKSPACE_ROOT"@);
    let data_dir = setting(line, env, "--data-dir"@, "LLM_WIKI_DATA_DIR"@);
    let web_root = setting(line, env, "--web-root"@, "LLM_WIKI_WEB_ROOT"@);
    let token = setting(line, env, "--token"@, "LLM_WIKI_BOOTSTRAP_TOKEN"@);
    let allow_insecure_remote = line.allow_insecure_remote || truthy(
        env,
        "LLM_WIKI_ALLOW_INSECURE_REMOTE"@,
    );
    if host is Err {
        Err("invalid host: "@ + host->Err_0)
    } else if port is Err {
        Err("invalid port: "@ + port->Err_0.text())
    } else if workspace_root is None {
        Err("--workspace-root or LLM_WIKI_WORKSPACE_ROOT is required"@)
    } else if data_dir is None {
        Err("--data-dir or LLM_WIKI_DATA_DIR is required"@)
    } else if token is None || trimmed(token->0).len() == 0 {
        Err("--token or LLM_WIKI_BOOTSTRAP_TOKEN is required"@)
    } else if token->0.len() < MIN_TOKEN_CHARS {
        Err("--token or LLM_WIKI_BOOTSTRAP_TOKEN must be at least 32 characters"@)
    } else if !host->Ok_0.loopback() && !allow_insecure_remote {
        Err(
            "refusing non-loopback plaintext bind; use a TLS reverse proxy on loopback or explicitly pass --allow-insecure-remote"@,
        )
    } else {
        Ok(
            ConfigView {
                host: host->Ok_0,
                port: port->Ok_0 as int,
                workspace_root: workspace_root->0,
                data_dir: data_dir->0,
                web_root: if web_root is Some {
                    web_root->0
                } else {
                    "dist"@
                },
                bootstrap_token: token->0,
                allow_insecure_remote,
                secure_cookie: line.secure_cookie || truthy(env, "LLM_WIKI_SECURE_COOKIE"@),
                app_state: setting(line, env, "--app-state"@, "LLM_WIKI_APP_STATE"@),
            },
        )
    }
}

/// The view of how the text of an address was read.
pub open spec fn host_outcome(r: Result<IpAddress, String>) -> Result<IpAddress, Seq<char>> {
    match r {
        Ok(host) => Ok(host),
        Err(message) => Err(message@),
    }
}

/// The view of the outcome of reading a configuration.
pub open spec fn config_outcome(r: Result<ServerConfig, String>) -> Result<ConfigView, Seq<char>> {
    match r {
        Ok(config) => Ok(config@),
        Err(message) => Err(message@),
    }
}

/// The text of the address to bind.
pub fn host_text(line: &CommandLine, env: &Assignments) -> (r: String)
    ensures
        r@ == host_text_spec(line@, env@),
{
    match env_or(line, env, "--host", "LLM_WIKI_HOST") {
        Some(value) => value,
        None => "127.0.0.1".to_owned(),
    }
}

impl ServerConfig {
    /// The configuration that a command line and an environment ask for. `host` is how the
    /// text that [`host_text`] gives was read as an address.
    pub fn resolve(line: &CommandLine, env: &Assignments, host: Result<IpAddress, String>) -> (r:
        Result<ServerConfig, String>)
        ensures
            config_outcome(r) == resolve_spec(line@, env@, host_outcome(host)),
    {
        let host = match host {
            Ok(host) => host,
            Err(message) => {
                return Err("invalid host: ".to_owned().concat(message.as_str()));
            },
        };
        let port_text = match env_or(line, env, "--port", "LLM_WIKI_PORT") {
            Some(value) => value,
            None => "19828".to_owned(),
        };
        let port_chars = chars_of(port_text.as_str());
        let port: u16 = match parse_decimal(port_chars.as_slice(), u16::MAX as u64) {
            Ok(port) => port as u16,
            Err(error) => {
                return Err("invalid port: ".to_owned().concat(error.message()));
            },
        };
        let workspace_root = match env_or(
            line,
            env,
            "--workspace-root",
            "LLM_WIKI_WORKSPACE_ROOT",
        ) {
            Some(value) => value,
            None => {
                return Err(
                    "--workspace-root or LLM_WIKI_WORKSPACE_ROOT is required".to_owned(),
                );
            },
        };
        let data_dir = match env_or(line, env, "--data-dir", "LLM_WIKI_DATA_DIR") {
            Some(value) => value,
            None => {
                return Err("--data-dir or LLM_WIKI_DATA_DIR is required".to_owned());
            },
        };
        let web_root = match env_or(line, env, "--web-root", "LLM_WIKI_WEB_ROOT") {
            Some(value) => value,
            None => "dist".to_owned(),
        };
        let bootstrap_token = match env_or(line, env, "--token", "LLM_WIKI_BOOTSTRAP_TOKEN") {
            Some(value) => value,
            None => {
                return Err("--token or LLM_WIKI_BOOTSTRAP_TOKEN is required".to_owned());
            },
        };
        if is_blank(bootstrap_token.as_str()) {
            return Err("--token or LLM_WIKI_BOOTSTRAP_TOKEN is required".to_owned());
        }
        if chars_of(bootstrap_token.as_str()).len() < MIN_TOKEN_CHARS {
            return Err(
                "--token or LLM_WIKI_BOOTSTRAP_TOKEN must be at least 32 characters".to_owned(),
            );
        }
        let allow_insecure_remote = line.allow_insecure_remote || env_truthy(
            env,
            "LLM_WIKI_ALLOW_INSECURE_REMOTE",
        );
        let secure_cookie = line.secure_cookie || env_truthy(env, "LLM_WIKI_SECURE_COOKIE");
        if !host.is_loopback() && !allow_insecure_remote {
            return Err(
                "refusing non-loopback plaintext bind; use a TLS reverse proxy on loopback or explicitly pass --allow-insecure-remote".to_owned(),
            );
        }
        let app_state = env_or(line, env, "--app-state", "LLM_WIKI_APP_STATE");
        Ok(
            ServerConfig {
                host,
                port,
                workspace_root,
                data_dir,
                web_root,
                bootstrap_token,
                allow_insecure_remote,
                secure_cookie,
                app_state,
            },
        )
    }

    /// The configuration that the words of a command line and an environment ask for.
    /// `parse_host` reads an address; its complaint becomes part of the answer.
    pub fn from_args<F: Fn(&str) -> Result<IpAddress, String>>(
        args: &Vec<String>,
        env: &Assignments,
        parse_host: F,
    ) -> (r: Result<ServerConfig, String>)
        requires
            forall|text: &str| parse_host.requires((text,)),
        ensures
            match command_line_spec(texts(args@)) {
                Err(message) => config_outcome(r) == Err::<ConfigView, _>(message),
                Ok(line) => exists|text: &str, host: Result<IpAddress, String>|
                    {
                        &&& text@ == host_text_spec(line, env@)
                        &&& #[trigger] parse_host.ensures((text,), host)
                        &&& config_outcome(r) == resolve_spec(line, env@, host_outcome(host))
                    },
            },
    {
        match CommandLine::parse(args) {
            Err(message) => Err(message),
            Ok(line) => {
                let text = host_text(&line, env);
                let host = parse_host(text.as_str());
                ServerConfig::resolve(&line, env, host)
            },
        }
    }
}

/// Arguments that can be read are read before those that follow them.
proof fn lemma_read_args_concat(args: Seq<Seq<char>>, more: Seq<Seq<char>>, known: CommandLineView)
    requires
        read_args(args, known) is Ok,
    ensures
        read_args(args + more, known) == read_args(more, read_args(args, known)->Ok_0),
    decreases args.len(),
{
    if args.len() == 0 {
        assert(args + more =~= more);
    } else {
        let whole = args + more;
        let arg = args[0];
        let rest = args.drop_first();
        assert(whole[0] == arg);
        assert(whole.drop_first() =~= rest + more);
        if arg == "--allow-insecure-remote"@ {
            lemma_read_args_concat(
                rest,
                more,
                CommandLineView { allow_insecure_remote: true, ..known },
            );
        } else if arg == "--secure-cookie"@ {
            lemma_read_args_concat(rest, more, CommandLineView { secure_cookie: true, ..known });
        } else {
            assert((rest + more)[0] == rest[0]);
            assert((rest + more).drop_first() =~= rest.drop_first() + more);
            lemma_read_args_concat(
                rest.drop_first(),
                more,
                CommandLineView { options: known.options.push((arg, rest[0])), ..known },
            );
        }
    }
}

/// An option that takes a value is no switch.
proof fn lemma_option_is_no_switch(option: Seq<char>)
    requires
        takes_value(option),
    ensures
        "--"@.is_prefix_of(option),
        option != "--allow-insecure-remote"@,
        option != "--secure-cookie"@,
{
    reveal_strlit("--");
    reveal_strlit("--host");
    reveal_strlit("--port");
    reveal_strlit("--workspace-root");
    reveal_strlit("--data-dir");
    reveal_strlit("--web-root");
    reveal_strlit("--token");
    reveal_strlit("--app-state");
    reveal_strlit("--allow-insecure-remote");
    reveal_strlit("--secure-cookie");
}

/// Of an option that is given more than once the last value counts: an option at the end of a
/// command line is accepted, has its value, and leaves the others as they are.
pub proof fn law_last_option_counts(args: Seq<Seq<char>>, option: Seq<char>, value: Seq<char>)
    requires
        args.len() > 0,
        command_line_spec(args) is Ok,
        takes_value(option),
    ensures
        command_line_spec(args + seq![option, value]) matches Ok(line) && {
            let before = command_line_spec(args)->Ok_0;
            &&& latest(line.options, option) == Some(value)
            &&& forall|other: Seq<char>|
                other != option ==> #[trigger] latest(line.options, other) == latest(
                    before.options,
                    other,
                )
            &&& line.allow_insecure_remote == before.allow_insecure_remote
            &&& line.secure_cookie == before.secure_cookie
        },
{
    let more = seq![option, value];
    let before = command_line_spec(args)->Ok_0;
    assert((args + more).drop_first() =~= args.drop_first() + more);
    lemma_read_args_concat(args.drop_first(), more, no_options());
    lemma_option_is_no_switch(option);
    let rest = more.drop_first();
    assert(more[0] == option && rest[0] == value);
    assert(rest.drop_first() =~= seq![]);
    let line = CommandLineView { options: before.options.push((option, value)), ..before };
    assert(read_args(rest.drop_first(), line) == Ok::<CommandLineView, Seq<char>>(line));
    assert(read_args(more, before) == Ok::<CommandLineView, Seq<char>>(line));
    assert(line.options.drop_last() =~= before.options);
}

/// A configuration binds a non-loopback address only where that was explicitly allowed, and
/// its token has no fewer characters than the least.
pub proof fn law_config_is_safe(
    line: CommandLineView,
    env: Seq<(Seq<char>, Seq<char>)>,
    host: Result<IpAddress, Seq<char>>,
)
    ensures
        resolve_spec(line, env, host) matches Ok(config) ==> {
            &&& config.host.loopback() || config.allow_insecure_remote
            &&& config.bootstrap_token.len() >= MIN_TOKEN_CHARS
            &&& trimmed(config.bootstrap_token).len() > 0
        },
{
}

/// A value on the command line takes precedence over the environment.
pub proof fn law_command_line_precedes_environment(
    line: CommandLineView,
    env: Seq<(Seq<char>, Seq<char>)>,
    other: Seq<(Seq<char>, Seq<char>)>,
    arg: Seq<char>,
    var: Seq<char>,
)
    requires
        latest(line.options, arg) is Some,
    ensures
        setting(line, env, arg, var) == setting(line, other, arg, var),
{
}

/// What a start of the program asks for.
#[derive(Clone, Copy, PartialEq, Eq, Structural)]
pub enum Startup {
    /// Print how to use the program.
    Help,
    /// Print the version.
    Version,
    /// Serve.
    Serve,
}

/// Whether some word of the command line is `a` or `b`.
pub open spec fn mentions(args: Seq<Seq<char>>, a: Seq<char>, b: Seq<char>) -> bool {
    args.contains(a) || args.contains(b)
}

/// What a start of the program asks for: help before the version, anything else serves.
pub open spec fn startup_spec(args: Seq<Seq<char>>) -> Startup {
    if mentions(args, "--help"@, "-h"@) {
        Startup::Help
    } else if mentions(args, "--version"@, "-V"@) {
        Startup::Version
    } else {
        Startup::Serve
    }
}

fn mention(args: &Vec<String>, a: &str, b: &str) -> (r: bool)
    ensures
        r == mentions(texts(args@), a@, b@),
{
    let ghost all = texts(args@);
    let mut i: usize = 0;
    while i < args.len()
        invariant
            i <= args@.len(),
            all == texts(args@),
            forall|j: int| 0 <= j < i ==> #[trigger] all[j] != a@ && all[j] != b@,
        decreases args@.len() - i,
    {
        assert(all[i as int] == args@[i as int]@);
        if same(args[i].as_str(), a) || same(args[i].as_str(), b) {
            return true;
        }
        i += 1;
    }
    false
}

/// What a start of the program asks for.
pub fn startup(args: &Vec<String>) -> (r: Startup)
    ensures
        r == startup_spec(texts(args@)),
{
    if mention(args, "--help", "-h") {
        Startup::Help
    } else if mention(args, "--version", "-V") {
        Startup::Version
    } else {
        Startup::Serve
    }
}

/// How to use the program.
pub fn usage() -> (r: &'static str)
    ensures
        r@ == "llm-wiki-server\n\nUSAGE:\n  llm-wiki-server --workspace-root PATH --data-dir PATH --token TOKEN [OPTIONS]\n\nOPTIONS:\n  --host IP                    Bind IP (default: 127.0.0.1)\n  --port PORT                  Bind port (default: 19828)\n  --workspace-root PATH        Primary project workspace\n  --data-dir PATH              Server control-plane data\n  --web-root PATH              Built SPA directory (default: dist)\n  --token TOKEN                Bootstrap login and Bearer token\n  --app-state PATH             Optional desktop app-state.json import\n  --secure-cookie              Add Secure to the session cookie\n  --allow-insecure-remote      Explicitly allow plaintext non-loopback bind\n  -h, --help                   Print help\n  -V, --version                Print version\n\nEquivalent environment variables use the LLM_WIKI_* prefix."@,
{
    "llm-wiki-server\n\nUSAGE:\n  llm-wiki-server --workspace-root PATH --data-dir PATH --token TOKEN [OPTIONS]\n\nOPTIONS:\n  --host IP                    Bind IP (default: 127.0.0.1)\n  --port PORT                  Bind port (default: 19828)\n  --workspace-root PATH        Primary project workspace\n  --data-dir PATH              Server control-plane data\n  --web-root PATH              Built SPA directory (default: dist)\n  --token TOKEN                Bootstrap login and Bearer token\n  --app-state PATH             Optional desktop app-state.json import\n  --secure-cookie              Add Secure to the session cookie\n  --allow-insecure-remote      Explicitly allow plaintext non-loopback bind\n  -h, --help                   Print help\n  -V, --version                Print version\n\nEquivalent environment variables use the LLM_WIKI_* prefix."
}

/// Of values of one name the latest counts, and a name without one has none.
pub proof fn law_latest_value_counts(
    entries: Seq<(Seq<char>, Seq<char>)>,
    name: Seq<char>,
    value: Seq<char>,
    other: Seq<char>,
)
    ensures
        latest(entries.push((name, value)), name) == Some(value),
        other != name ==> latest(entries.push((name, value)), other) == latest(entries, other),
        latest(seq![], name) is None,
{
    assert(entries.push((name, value)).drop_last() =~= entries);
}

/// Whether a value is what the command line says under an option, or what the environment says
/// if it says nothing.
pub open spec fn given(
    line: CommandLineView,
    env: Seq<(Seq<char>, Seq<char>)>,
    arg: Seq<char>,
    var: Seq<char>,
    value: Option<Seq<char>>,
) -> bool {
    &&& latest(line.options, arg) is Some ==> value == latest(line.options, arg)
    &&& latest(line.options, arg) is None ==> value == latest(env, var)
}

/// The configuration is what the command line and the environment say, with defaults for the
/// port and for where the web client is.
pub proof fn law_config_is_what_was_said(
    line: CommandLineView,
    env: Seq<(Seq<char>, Seq<char>)>,
    host: IpAddress,
    port: nat,
    port_text: Option<Seq<char>>,
    workspace_root: Seq<char>,
    data_dir: Seq<char>,
    web_root: Option<Seq<char>>,
    token: Seq<char>,
    app_state: Option<Seq<char>>,
)
    requires
        given(line, env, "--port"@, "LLM_WIKI_PORT"@, port_text),
        given(
            line,
            env,
            "--workspace-root"@,
            "LLM_WIKI_WORKSPACE_ROOT"@,
            Some(workspace_root),
        ),
        given(line, env, "--data-dir"@, "LLM_WIKI_DATA_DIR"@, Some(data_dir)),
        given(line, env, "--web-root"@, "LLM_WIKI_WEB_ROOT"@, web_root),
        given(line, env, "--token"@, "LLM_WIKI_BOOTSTRAP_TOKEN"@, Some(token)),
        given(line, env, "--app-state"@, "LLM_WIKI_APP_STATE"@, app_state),
        parse_spec(
            if port_text is Some {
                port_text->0
            } else {
                "19828"@
            },
            65535,
        ) == Ok::<nat, NumberError>(port),
        token.len() >= 32,
        trimmed(token).len() > 0,
        host.loopback() || line.allow_insecure_remote,
    ensures
        resolve_spec(line, env, Ok(host)) matches Ok(config) && {
            &&& config.host == host && config.port == port
            &&& config.workspace_root == workspace_root && config.data_dir == data_dir
            &&& web_root is Some ==> config.web_root == web_root->0
            &&& web_root is None ==> config.web_root == "dist"@
            &&& config.bootstrap_token == token && config.app_state == app_state
            &&& line.secure_cookie ==> config.secure_cookie
            &&& config.secure_cookie ==> line.secure_cookie || latest(
                env,
                "LLM_WIKI_SECURE_COOKIE"@,
            ) is Some
        },
{
}

/// Without a workspace, a place for data or a token there is no configuration, nor with an address
/// or a port that cannot be read, a token that is blank or too short, or an address that other
/// machines reach, unless that is allowed.
pub proof fn law_bad_config_is_refused(
    line: CommandLineView,
    env: Seq<(Seq<char>, Seq<char>)>,
    host: Result<IpAddress, Seq<char>>,
    value: Option<Seq<char>>,
)
    ensures
        host is Err ==> resolve_spec(line, env, host) is Err,
        given(line, env, "--workspace-root"@, "LLM_WIKI_WORKSPACE_ROOT"@, None) ==> resolve_spec(
            line,
            env,
            host,
        ) is Err,
        given(line, env, "--data-dir"@, "LLM_WIKI_DATA_DIR"@, None) ==> resolve_spec(
            line,
            env,
            host,
        ) is Err,
        given(line, env, "--token"@, "LLM_WIKI_BOOTSTRAP_TOKEN"@, value) && (value is None
            || value->0.len() < 32 || trimmed(value->0).len() == 0) ==> resolve_spec(
            line,
            env,
            host,
        ) is Err,
        given(line, env, "--port"@, "LLM_WIKI_PORT"@, value) && value is Some && parse_spec(
            value->0,
            65535,
        ) is Err ==> resolve_spec(line, env, host) is Err,
        host matches Ok(address) && !(match address {
            IpAddress::V4(octets) => octets@[0] == 127,
            IpAddress::V6(segments) => segments@[7] == 1 && forall|i: int|
                0 <= i < 7 ==> #[trigger] segments@[i] == 0,
        }) && !line.allow_insecure_remote && latest(env, "LLM_WIKI_ALLOW_INSECURE_REMOTE"@) is None
            ==> resolve_spec(line, env, host) is Err,
{
    if let Ok(address) = host {
        if let IpAddress::V6(segments) = address {
            let loops = seq![0u16, 0, 0, 0, 0, 0, 0, 1];
            if segments@ == loops {
                assert(segments@[7] == 1);
                assert forall|i: int| 0 <= i < 7 implies #[trigger] segments@[i] == 0 by {
                    assert(segments@[i] == loops[i]);
                }
            }
        }
    }
}

/// A variable says yes with a one, "true" or "yes", in any case, and with nothing else.
pub proof fn law_yes_is_said_in_three_ways(
    env: Seq<(Seq<char>, Seq<char>)>,
    var: Seq<char>,
    value: Seq<char>,
)
    requires
        latest(env, var) == Some(value),
    ensures
        truthy(env, var) <==> same_ignoring_case(value, "1"@) || same_ignoring_case(value, "true"@)
            || same_ignoring_case(value, "yes"@),
{
    reveal_strlit("1");
    reveal_strlit("true");
    reveal_strlit("yes");
    assert(lower_ascii_spec("1"@) =~= "1"@);
    assert(lower_ascii_spec("true"@) =~= "true"@);
    assert(lower_ascii_spec("yes"@) =~= "yes"@);
}

/// A switch at the end of a command line is set, and changes nothing else.
pub proof fn law_switches_are_set(args: Seq<Seq<char>>)
    requires
        args.len() > 0,
        command_line_spec(args) is Ok,
    ensures
        ({
            let before = command_line_spec(args)->Ok_0;
            &&& command_line_spec(args.push("--secure-cookie"@)) matches Ok(line)
                && line.secure_cookie && line.options == before.options
                && line.allow_insecure_remote == before.allow_insecure_remote
            &&& command_line_spec(args.push("--allow-insecure-remote"@)) matches Ok(line)
                && line.allow_insecure_remote && line.options == before.options
                && line.secure_cookie == before.secure_cookie
        }),
        command_line_spec(args.take(1)) matches Ok(line) && line.options.len() == 0
            && !line.secure_cookie && !line.allow_insecure_remote,
{
    reveal_strlit("--");
    reveal_strlit("--secure-cookie");
    reveal_strlit("--allow-insecure-remote");
    let before = command_line_spec(args)->Ok_0;
    let first = args.drop_first();
    let secure = seq!["--secure-cookie"@];
    let remote = seq!["--allow-insecure-remote"@];
    assert(args.push("--secure-cookie"@).drop_first() =~= first + secure);
    assert(args.push("--allow-insecure-remote"@).drop_first() =~= first + remote);
    lemma_read_args_concat(first, secure, no_options());
    lemma_read_args_concat(first, remote, no_options());
    assert("--"@.is_prefix_of("--secure-cookie"@));
    assert("--"@.is_prefix_of("--allow-insecure-remote"@));
    assert("--secure-cookie"@.len() != "--allow-insecure-remote"@.len());
    assert(secure.drop_first() =~= seq![]);
    assert(remote.drop_first() =~= seq![]);
    assert(read_args(secure.drop_first(), CommandLineView { secure_cookie: true, ..before }) is Ok);
    assert(read_args(
        remote.drop_first(),
        CommandLineView { allow_insecure_remote: true, ..before },
    ) is Ok);
    assert(args.take(1).drop_first() =~= seq![]);
}

/// An argument that is no option, an option that is not known, and one that lacks its value are
/// refused.
pub proof fn law_wrong_arguments_are_refused(args: Seq<Seq<char>>, arg: Seq<char>)
    requires
        args.len() > 0,
        command_line_spec(args) is Ok,
        arg != "--secure-cookie"@,
        arg != "--allow-insecure-remote"@,
    ensures
        command_line_spec(args.push(arg)) matches Err(message) && {
            ||| !"--"@.is_prefix_of(arg) && message == "unexpected argument: "@ + arg
            ||| "--"@.is_prefix_of(arg) && (arg == "--host"@ || arg == "--port"@ || arg
                == "--workspace-root"@ || arg == "--data-dir"@ || arg == "--web-root"@ || arg
                == "--token"@ || arg == "--app-state"@) && message == "missing value for "@ + arg
            ||| "--"@.is_prefix_of(arg) && message == "unknown option: "@ + arg
        },
        takes_value(arg) <==> arg == "--host"@ || arg == "--port"@ || arg == "--workspace-root"@
            || arg == "--data-dir"@ || arg == "--web-root"@ || arg == "--token"@ || arg
            == "--app-state"@,
{
    let more = seq![arg];
    assert(args.push(arg).drop_first() =~= args.drop_first() + more);
    lemma_read_args_concat(args.drop_first(), more, no_options());
}

/// Help is given where it is asked for, else the version where that is, else the server starts.
pub proof fn law_help_comes_before_the_version(args: Seq<Seq<char>>)
    ensures
        startup_spec(args) is Help <==> args.contains("--help"@) || args.contains("-h"@),
        startup_spec(args) is Version <==> !args.contains("--help"@) && !args.contains("-h"@) && (
        args.contains("--version"@) || args.contains("-V"@)),
{
}

/// The address to listen on is what the command line or the environment says, or this machine
/// alone.
pub proof fn law_host_is_what_was_said(
    line: CommandLineView,
    env: Seq<(Seq<char>, Seq<char>)>,
    value: Option<Seq<char>>,
)
    requires
        given(line, env, "--host"@, "LLM_WIKI_HOST"@, value),
    ensures
        value is Some ==> host_text_spec(line, env) == value->0,
        value is None ==> host_text_spec(line, env) == "127.0.0.1"@,
{
}

/// Contracts speak of whole values: every part of a value is in its view, in its place, and nothing
/// else is.
pub proof fn law_views_of_config_are_whole(
    line: CommandLine,
    config: ServerConfig,
    entries: Seq<Assignment>,
    read: Result<ServerConfig, String>,
    host: Result<IpAddress, String>,
    assignments: Assignments,
)
    ensures
        line@.options == line.options@,
        line@.allow_insecure_remote == line.allow_insecure_remote,
        line@.secure_cookie == line.secure_cookie,
        config@.host == config.host,
        config@.port == config.port as int,
        config@.workspace_root == config.workspace_root@,
        config@.data_dir == config.data_dir@,
        config@.web_root == config.web_root@,
        config@.bootstrap_token == config.bootstrap_token@,
        config@.allow_insecure_remote == config.allow_insecure_remote,
        config@.secure_cookie == config.secure_cookie,
        config@.app_state == optional(config.app_state),
        pairs(entries).len() == entries.len(),
        forall|i: int|
            0 <= i < entries.len() ==> #[trigger] pairs(entries)[i] == (
                entries[i].name@,
                entries[i].value@,
            ),
        match read {
            Ok(found) => config_outcome(read) matches Ok(shown) && shown == found@,
            Err(message) => config_outcome(read) matches Err(shown) && shown == message@,
        },
        match host {
            Ok(address) => host_outcome(host) matches Ok(shown) && shown == address,
            Err(message) => host_outcome(host) matches Err(shown) && shown == message@,
        },
        assignments@ == pairs(assignments.entries@),
{
}

} // verus!
