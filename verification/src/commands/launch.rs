//! What the commands that run a program in a daemon have in common.
use vstd::prelude::*;
use crate::appconfig;
use crate::appconfig::{app_daemon, app_runtime_dir, AppConfig};
use crate::commands::run;
use crate::path;
use crate::path::join_path;
use crate::runtime;
use crate::runtime::daemon_dir_for;
use crate::text;
use crate::text::{chars_of, str_eq, string_of, trim};
use crate::utf8;
use crate::utf8::text_of;

verus! {

/// The directory in which the programs of a project run: that of the
/// application, or the current one.
pub fn project_root(app: &Option<AppConfig>, cwd: &str) -> (r: String)
    ensures
        r@ == (match run::app_view(*app) {
            Some(c) => c.root,
            None => cwd@,
        }),
{
    match app {
        Some(a) => a.root.clone(),
        None => cwd.to_string(),
    }
}

/// The directory of the daemon that serves a project.
pub open spec fn serving_dir(
    app: Option<appconfig::Config>,
    ruby: Seq<char>,
    runtime_dir: Seq<char>,
) -> Seq<char> {
    match app {
        Some(c) if c.preload is Some => appconfig::app_dir(
            c,
            ""@,
            runtime::version_of(ruby),
            runtime_dir,
        ),
        _ => runtime::generic_dir(ruby, runtime_dir),
    }
}

/// The directory of the daemon that serves a project.
pub fn project_daemon_dir(app: &Option<AppConfig>, ruby: &str, runtime_dir: &str) -> (r: String)
    ensures
        r@ == serving_dir(run::app_view(*app), ruby@, runtime_dir@),
{
    match app_daemon(app) {
        Some(a) => app_runtime_dir(a, ruby, runtime_dir),
        None => daemon_dir_for(ruby, runtime_dir),
    }
}

/// A helper program that a command runs in the daemon.
#[derive(Clone, Copy, PartialEq, Eq, Structural)]
pub enum Helper {
    Exec,
    Task,
    Repl,
    Serve,
}

impl Helper {
    /// The name of its file.
    pub open spec fn file(self) -> Seq<char> {
        match self {
            Helper::Exec => "exec.rb"@,
            Helper::Task => "task.rb"@,
            Helper::Repl => "repl.rb"@,
            Helper::Serve => "serve.rb"@,
        }
    }
}

/// Where the file of a helper stands.
pub fn helper_path(helper: Helper, dir: &str) -> (r: String)
    ensures
        r@ == path::joined_path(dir@, helper.file()),
{
    match helper {
        Helper::Exec => join_path(dir, "exec.rb"),
        Helper::Task => join_path(dir, "task.rb"),
        Helper::Repl => join_path(dir, "repl.rb"),
        Helper::Serve => join_path(dir, "serve.rb"),
    }
}

/// Why a command line cannot be executed: it holds nothing.
pub fn exec_refusal(argv: &Vec<String>) -> (r: Option<String>)
    ensures
        if argv@.len() == 0 {
            r matches Some(m) && m@
                == "calisto: exec needs a command: calisto exec <bin> [args...]"@
        } else {
            r is None
        },
{
    if argv.len() == 0 {
        Some("calisto: exec needs a command: calisto exec <bin> [args...]".to_string())
    } else {
        None
    }
}

/// What a Ruby says of itself, read from what it wrote: nothing where it wrote
/// only whitespace.
pub fn ruby_description(stdout: &[u8]) -> (r: Option<String>)
    ensures
        ({
            let said = text::trimmed(utf8::lossy_text(stdout@));
            match r {
                Some(s) => said.len() > 0 && s@ == said,
                None => said.len() == 0,
            }
        }),
{
    let whole = text_of(stdout);
    let c = chars_of(whole.as_str());
    let said = trim(c.as_slice());
    if said.len() > 0 {
        Some(string_of(said))
    } else {
        None
    }
}

/// A command of the program.
#[derive(PartialEq, Eq, Structural)]
pub enum Command {
    Run,
    Test,
    Task,
    Serve,
    Exec,
    Repl,
    Build,
    Init,
    Upgrade,
    Completions,
    Add,
    Remove,
    Lock,
    Daemon,
    Status,
    Stop,
    Doctor,
    Version,
    Help,
    /// No command is given.
    Nothing,
    /// There is no such command.
    Unknown,
}

/// The command that a command line names.
pub open spec fn command_named(argv: Seq<Seq<char>>) -> Command {
    if argv.len() == 0 {
        Command::Nothing
    } else {
        let c = argv[0];
        if c == "run"@ {
            Command::Run
        } else if c == "test"@ {
            Command::Test
        } else if c == "task"@ {
            Command::Task
        } else if c == "serve"@ {
            Command::Serve
        } else if c == "exec"@ {
            Command::Exec
        } else if c == "repl"@ {
            Command::Repl
        } else if c == "build"@ {
            Command::Build
        } else if c == "init"@ {
            Command::Init
        } else if c == "upgrade"@ {
            Command::Upgrade
        } else if c == "completions"@ {
            Command::Completions
        } else if c == "add"@ {
            Command::Add
        } else if c == "remove"@ {
            Command::Remove
        } else if c == "lock"@ {
            Command::Lock
        } else if c == "daemon"@ {
            Command::Daemon
        } else if c == "status"@ {
            Command::Status
        } else if c == "stop"@ {
            Command::Stop
        } else if c == "doctor"@ {
            Command::Doctor
        } else if c == "--version"@ || c == "-v"@ {
            Command::Version
        } else if c == "help"@ || c == "-h"@ || c == "--help"@ {
            Command::Help
        } else {
            Command::Unknown
        }
    }
}

/// Reads the command that a command line names.
pub fn parse_command(argv: &Vec<String>) -> (r: Command)
    ensures
        r == command_named(text::views(argv@)),
{
    if argv.len() == 0 {
        return Command::Nothing;
    }
    let c = argv[0].as_str();
    assert(text::views(argv@)[0] == c@);
    if str_eq(c, "run") {
        Command::Run
    } else if str_eq(c, "test") {
        Command::Test
    } else if str_eq(c, "task") {
        Command::Task
    } else if str_eq(c, "serve") {
        Command::Serve
    } else if str_eq(c, "exec") {
        Command::Exec
    } else if str_eq(c, "repl") {
        Command::Repl
    } else if str_eq(c, "build") {
        Command::Build
    } else if str_eq(c, "init") {
        Command::Init
    } else if str_eq(c, "upgrade") {
        Command::Upgrade
    } else if str_eq(c, "completions") {
        Command::Completions
    } else if str_eq(c, "add") {
        Command::Add
    } else if str_eq(c, "remove") {
        Command::Remove
    } else if str_eq(c, "lock") {
        Command::Lock
    } else if str_eq(c, "daemon") {
        Command::Daemon
    } else if str_eq(c, "status") {
        Command::Status
    } else if str_eq(c, "stop") {
        Command::Stop
    } else if str_eq(c, "doctor") {
        Command::Doctor
    } else if str_eq(c, "--version") || str_eq(c, "-v") {
        Command::Version
    } else if str_eq(c, "help") || str_eq(c, "-h") || str_eq(c, "--help") {
        Command::Help
    } else {
        Command::Unknown
    }
}

/// An application with an entry point is served by a daemon of its own, in the
/// directory that follows from it; everything else by the general one.
pub proof fn law_serving_dir(app: appconfig::Config, ruby: Seq<char>, runtime_dir: Seq<char>)
    ensures
        app.preload is Some ==> serving_dir(Some(app), ruby, runtime_dir) == appconfig::app_dir(
            app,
            Seq::empty(),
            runtime::version_of(ruby),
            runtime_dir,
        ),
        app.preload is None ==> serving_dir(Some(app), ruby, runtime_dir) == runtime::generic_dir(
            ruby,
            runtime_dir,
        ),
        serving_dir(None, ruby, runtime_dir) == runtime::generic_dir(ruby, runtime_dir),
{
    reveal_strlit("");
    assert(""@ =~= Seq::<char>::empty());
}

/// No two helpers share a file.
pub proof fn law_helpers_apart(a: Helper, b: Helper)
    ensures
        a.file() == b.file() <==> a == b,
{
    reveal_strlit("exec.rb");
    reveal_strlit("task.rb");
    reveal_strlit("repl.rb");
    reveal_strlit("serve.rb");
    assert("exec.rb"@[0] == 'e' && "task.rb"@[0] == 't' && "repl.rb"@[0] == 'r' && "serve.rb"@[0]
        == 's');
}

} // verus!
