//! `calisto run`: a script, code from the command line, or a command of the
//! application's configuration.
use vstd::prelude::*;
use vstd::slice::slice_subrange;
use crate::appconfig;
use crate::appconfig::{normalize_preload, run_preload, AppConfig};
use crate::commands::flags;
use crate::commands::flags::{push_flag_args, read_short, take_value, RunFlags, ShortRead};
use crate::text;
use crate::text::{chars_of, join, str_eq, strip_prefix};

verus! {

/// What the arguments of the command say.
pub struct RunArgs {
    /// Whether a fresh interpreter is used.
    pub cold: bool,
    /// Whether the time is shown.
    pub show_time: bool,
    /// What the daemon loads in advance.
    pub preload: Option<String>,
    /// The flags of `ruby` for the program.
    pub flags: RunFlags,
    /// The pieces of code behind `-e`.
    pub eval_parts: Vec<String>,
    /// What follows the flags.
    pub rest: Vec<String>,
}

/// What the arguments say, as contracts see it.
#[verifier::ext_equal]
pub struct Args {
    pub cold: bool,
    pub show_time: bool,
    pub preload: Option<Seq<char>>,
    pub flags: flags::Flags,
    pub eval_parts: Seq<Seq<char>>,
    pub rest: Seq<Seq<char>>,
}

impl View for RunArgs {
    type V = Args;

    open spec fn view(&self) -> Args {
        Args {
            cold: self.cold,
            show_time: self.show_time,
            preload: appconfig::opt_view(self.preload),
            flags: self.flags@,
            eval_parts: text::views(self.eval_parts@),
            rest: text::views(self.rest@),
        }
    }
}

/// Whether an argument is read as flags: it begins with two dashes, it is `-e`,
/// or it begins with a dash and a flag of `ruby`.
pub open spec fn is_flag(a: Seq<char>) -> bool {
    ||| text::has_prefix(a, "--"@)
    ||| a == "-e"@
    ||| a.len() >= 2 && a[0] == '-' && flags::begins_flags(a[1])
}

/// What is said of an argument that holds no known flag.
pub open spec fn unknown_flag(f: Seq<char>) -> Seq<char> {
    "calisto: unknown flag '"@ + f + "'"@
}

/// What the arguments say, where `a` has been said before them. The flags end
/// with the first argument that is none.
pub open spec fn read_args(args: Seq<Seq<char>>, a: Args) -> Result<Args, Seq<char>>
    decreases args.len(),
{
    if args.len() == 0 || !is_flag(args[0]) {
        Ok(Args { rest: args, ..a })
    } else {
        let f = args[0];
        if f == "--cold"@ {
            read_args(args.skip(1), Args { cold: true, ..a })
        } else if f == "--time"@ {
            read_args(args.skip(1), Args { show_time: true, ..a })
        } else if f == "-e"@ || f == "--eval"@ {
            if args.len() < 2 {
                Err("calisto: -e needs code"@)
            } else {
                read_args(args.skip(2), Args { eval_parts: a.eval_parts.push(args[1]), ..a })
            }
        } else if f == "--preload"@ {
            if args.len() < 2 {
                Err("calisto: --preload needs a value"@)
            } else {
                read_args(args.skip(2), Args { preload: Some(args[1]), ..a })
            }
        } else if text::has_prefix(f, "--"@) {
            Err(unknown_flag(f))
        } else {
            match flags::short_flags(f.skip(1), a.flags) {
                flags::Short::Done(x) => read_args(args.skip(1), Args { flags: x, ..a }),
                flags::Short::Value { flags: x, kind, attached } => if attached.len() > 0 {
                    read_args(
                        args.skip(1),
                        Args { flags: flags::with_value(x, kind, attached), ..a },
                    )
                } else if args.len() < 2 {
                    Err("calisto: -"@ + seq![kind] + " needs a value"@)
                } else {
                    read_args(
                        args.skip(2),
                        Args { flags: flags::with_value(x, kind, args[1]), ..a },
                    )
                },
                flags::Short::Unknown => Err(unknown_flag(f)),
            }
        }
    }
}

/// What is said before the first argument.
pub open spec fn no_args() -> Args {
    Args {
        cold: false,
        show_time: false,
        preload: None,
        flags: flags::no_flags(),
        eval_parts: Seq::empty(),
        rest: Seq::empty(),
    }
}

/// Reads the arguments of the command.
pub fn parse_run_args(args: &Vec<String>) -> (r: Result<RunArgs, String>)
    ensures
        match read_args(text::views(args@), no_args()) {
            Ok(a) => r matches Ok(x) && x@ == a,
            Err(m) => r matches Err(e) && e@ == m,
        },
{
    let ghost all = text::views(args@);
    let mut a = RunArgs {
        cold: false,
        show_time: false,
        preload: None,
        flags: RunFlags::default(),
        eval_parts: Vec::new(),
        rest: Vec::new(),
    };
    let mut i: usize = 0;
    assert(all.skip(0) =~= all);
    assert(a@ =~= no_args());
    while i < args.len() && flag(args[i].as_str())
        invariant
            i <= args@.len(),
            all == text::views(args@),
            text::views(a.rest@).len() == 0,
            read_args(all.skip(i as int), a@) == read_args(all, no_args()),
        decreases args@.len() - i,
    {
        let ghost left = all.skip(i as int);
        let ghost before = a@;
        assert(left[0] == args@[i as int]@);
        assert(left.skip(1) =~= all.skip(i + 1));
        assert(left.len() >= 2 ==> left.skip(2) =~= all.skip(i + 2));
        let f = args[i].as_str();
        if str_eq(f, "--cold") {
            a.cold = true;
        } else if str_eq(f, "--time") {
            a.show_time = true;
        } else if str_eq(f, "-e") || str_eq(f, "--eval") {
            if args.len() - i < 2 {
                return Err("calisto: -e needs code".to_string());
            }
            i += 1;
            assert(left[1] == args@[i as int]@);
            a.eval_parts.push(args[i].clone());
            assert(text::views(a.eval_parts@) =~= before.eval_parts.push(args@[i as int]@));
        } else if str_eq(f, "--preload") {
            if args.len() - i < 2 {
                return Err("calisto: --preload needs a value".to_string());
            }
            i += 1;
            assert(left[1] == args@[i as int]@);
            a.preload = Some(args[i].clone());
        } else if has_two_dashes(f) {
            return Err(unknown_flag_text(f));
        } else {
            let chars = chars_of(f);
            let short = slice_subrange(chars.as_slice(), 1, chars.len());
            assert(short@ =~= left[0].skip(1));
            match read_short(&mut a.flags, short) {
                ShortRead::Done => {},
                ShortRead::Value(kind, attached) => {
                    if attached.as_str().unicode_len() > 0 {
                        take_value(&mut a.flags, kind, attached.as_str());
                    } else if args.len() - i < 2 {
                        return Err(needs_value(kind));
                    } else {
                        i += 1;
                        assert(left[1] == args@[i as int]@);
                        take_value(&mut a.flags, kind, args[i].as_str());
                    }
                },
                ShortRead::Unknown => {
                    return Err(unknown_flag_text(f));
                },
            }
            assert(a@ =~= Args { flags: a.flags@, ..before });
        }
        i += 1;
    }
    let rest = tail(args, i);
    a.rest = rest;
    assert(a@.rest == all.skip(i as int));
    Ok(a)
}

fn flag(a: &str) -> (r: bool)
    ensures
        r == is_flag(a@),
{
    let c = chars_of(a);
    has_two_dashes(a) || str_eq(a, "-e") || (c.len() >= 2 && c[0] == '-' && (c[1] == 'I' || c[1]
        == 'r' || c[1] == 'w' || c[1] == 'W' || c[1] == 'c' || c[1] == 'E'))
}

fn has_two_dashes(a: &str) -> (r: bool)
    ensures
        r == text::has_prefix(a@, "--"@),
{
    let c = chars_of(a);
    strip_prefix(c.as_slice(), "--").is_some()
}

fn unknown_flag_text(f: &str) -> (r: String)
    ensures
        r@ == unknown_flag(f@),
{
    let mut m = "calisto: unknown flag '".to_string();
    m.append(f);
    m.append("'");
    m
}

fn needs_value(kind: char) -> (r: String)
    ensures
        r@ == "calisto: -"@ + seq![kind] + " needs a value"@,
{
    let mut m = "calisto: -".to_string();
    m.push(kind);
    assert(m@ =~= "calisto: -"@ + seq![kind]);
    m.append(" needs a value");
    m
}

/// The strings of a list from index `from` on.
pub fn tail(list: &Vec<String>, from: usize) -> (r: Vec<String>)
    requires
        from <= list@.len(),
    ensures
        text::views(r@) == text::views(list@).skip(from as int),
{
    let ghost all = text::views(list@);
    let mut r: Vec<String> = Vec::new();
    let mut i: usize = from;
    assert(text::views(r@) =~= all.subrange(from as int, from as int));
    while i < list.len()
        invariant
            from <= i <= list@.len(),
            all == text::views(list@),
            text::views(r@) == all.subrange(from as int, i as int),
        decreases list@.len() - i,
    {
        let ghost before = text::views(r@);
        r.push(list[i].clone());
        assert(text::views(r@) =~= before.push(all[i as int]));
        i += 1;
        assert(text::views(r@) =~= all.subrange(from as int, i as int));
    }
    assert(all.subrange(from as int, i as int) =~= all.skip(from as int));
    r
}

/// Puts the strings of a list behind those of another.
pub fn extend(list: &mut Vec<String>, more: &Vec<String>)
    ensures
        text::views(final(list)@) == text::views(old(list)@) + text::views(more@),
{
    let ghost start = text::views(list@);
    let ghost all = text::views(more@);
    let mut i: usize = 0;
    assert(start + all.take(0) =~= start);
    while i < more.len()
        invariant
            i <= more@.len(),
            all == text::views(more@),
            text::views(list@) == start + all.take(i as int),
        decreases more@.len() - i,
    {
        let ghost before = text::views(list@);
        list.push(more[i].clone());
        assert(text::views(list@) =~= before.push(all[i as int]));
        i += 1;
        assert(text::views(list@) =~= start + all.take(i as int));
    }
    assert(all.take(i as int) =~= all);
}

/// What is run.
pub enum Target {
    /// Code from the command line.
    Eval { code: String, args: Vec<String> },
    /// A file.
    Script { script: String, args: Vec<String> },
    /// A command of the configuration, with the arguments behind it.
    Command { argv: Vec<String> },
}

/// What is run, as contracts see it.
pub enum Goal {
    Eval { code: Seq<char>, args: Seq<Seq<char>> },
    Script { script: Seq<char>, args: Seq<Seq<char>> },
    Command { argv: Seq<Seq<char>> },
}

impl View for Target {
    type V = Goal;

    open spec fn view(&self) -> Goal {
        match self {
            Target::Eval { code, args } => Goal::Eval { code: code@, args: text::views(args@) },
            Target::Script { script, args } => Goal::Script {
                script: script@,
                args: text::views(args@),
            },
            Target::Command { argv } => Goal::Command { argv: text::views(argv@) },
        }
    }
}

/// What is said where a name is neither a file nor a command.
pub open spec fn no_such_script(s: Seq<char>) -> Seq<char> {
    "calisto: cannot open "@ + s + ": no such file (e sem [scripts."@ + s + "] no calisto.toml)"@
}

/// The command of the configuration with a name, and arguments behind it.
pub open spec fn command_goal(
    app: Option<appconfig::Config>,
    name: Seq<char>,
    args: Seq<Seq<char>>,
    missing: Seq<char>,
) -> Result<Goal, Seq<char>> {
    match app {
        None => Err(missing),
        Some(c) => match appconfig::script_of(c.scripts, name) {
            None => Err(missing),
            Some(cmd) => match appconfig::command_words(cmd) {
                Err(q) => Err("calisto: "@ + appconfig::unclosed(q, cmd)),
                Ok(words) => if words.len() == 0 {
                    Err("calisto: "@ + appconfig::empty_script(name))
                } else {
                    Ok(Goal::Command { argv: words + args })
                },
            },
        },
    }
}

/// What the arguments ask to run: code, where there is any; otherwise the file
/// that is named, which wins over a command of the same name; and without a
/// name the command `start`.
pub open spec fn goal_of(a: Args, app: Option<appconfig::Config>, is_file: bool) -> Result<
    Goal,
    Seq<char>,
> {
    if a.eval_parts.len() > 0 {
        Ok(Goal::Eval { code: text::joined(a.eval_parts, "\n"@), args: a.rest })
    } else if a.rest.len() == 0 {
        command_goal(
            app,
            "start"@,
            Seq::empty(),
            "calisto: run needs a script or -e: calisto run [flags] [-e 'code' | script.rb] [args...]"@,
        )
    } else if is_file {
        Ok(Goal::Script { script: a.rest[0], args: a.rest.skip(1) })
    } else {
        command_goal(app, a.rest[0], a.rest.skip(1), no_such_script(a.rest[0]))
    }
}

/// The configuration of an application that may be missing.
pub open spec fn app_view(app: Option<AppConfig>) -> Option<appconfig::Config> {
    match app {
        Some(a) => Some(a@),
        None => None,
    }
}

fn command_target(
    app: &Option<AppConfig>,
    name: &str,
    args: &Vec<String>,
    missing: &str,
) -> (r: Result<Target, String>)
    ensures
        match command_goal(app_view(*app), name@, text::views(args@), missing@) {
            Ok(g) => r matches Ok(t) && t@ == g,
            Err(m) => r matches Err(e) && e@ == m,
        },
{
    match app {
        None => Err(missing.to_string()),
        Some(a) => match a.script_command(name) {
            Ok(None) => Err(missing.to_string()),
            Ok(Some(words)) => {
                let mut argv = words;
                extend(&mut argv, args);
                Ok(Target::Command { argv })
            },
            Err(e) => {
                let mut m = "calisto: ".to_string();
                m.append(e.as_str());
                Err(m)
            },
        },
    }
}

/// Decides what is run; `is_file` says whether the first argument behind the
/// flags is a file.
pub fn resolve_target(a: &RunArgs, app: &Option<AppConfig>, is_file: bool) -> (r: Result<
    Target,
    String,
>)
    ensures
        match goal_of(a@, app_view(*app), is_file) {
            Ok(g) => r matches Ok(t) && t@ == g,
            Err(m) => r matches Err(e) && e@ == m,
        },
{
    if a.eval_parts.len() > 0 {
        let args = tail(&a.rest, 0);
        assert(text::views(a.rest@).skip(0) =~= text::views(a.rest@));
        return Ok(Target::Eval { code: join(&a.eval_parts, "\n"), args });
    }
    if a.rest.len() == 0 {
        let none: Vec<String> = Vec::new();
        assert(text::views(none@) =~= Seq::<Seq<char>>::empty());
        return command_target(
            app,
            "start",
            &none,
            "calisto: run needs a script or -e: calisto run [flags] [-e 'code' | script.rb] [args...]",
        );
    }
    let args = tail(&a.rest, 1);
    let first = a.rest[0].clone();
    assert(first@ == a@.rest[0]);
    if is_file {
        return Ok(Target::Script { script: first, args });
    }
    let mut m = "calisto: cannot open ".to_string();
    m.append(first.as_str());
    m.append(": no such file (e sem [scripts.");
    m.append(first.as_str());
    m.append("] no calisto.toml)");
    command_target(app, first.as_str(), &args, m.as_str())
}

/// A file wins over a command of the same name.
pub proof fn law_file_wins(a: Args, app: Option<appconfig::Config>)
    requires
        a.eval_parts.len() == 0,
        a.rest.len() > 0,
    ensures
        goal_of(a, app, true) == Ok::<Goal, Seq<char>>(
            Goal::Script { script: a.rest[0], args: a.rest.skip(1) },
        ),
{
}

/// How something is run.
#[derive(PartialEq, Eq, Structural)]
pub enum RunMode {
    /// In a fresh interpreter.
    Cold,
    /// In the daemon of the application.
    App,
    /// In the daemon that serves no application.
    Generic,
    /// As a command, which `exec` runs.
    Exec,
}

/// Decides how something is run: a command is left to `exec`; a fresh
/// interpreter is used where it is asked for, and otherwise the daemon of the
/// application where it has one.
pub fn run_mode(target: &Target, cold: bool, app_daemon: bool) -> (r: RunMode)
    ensures
        r == (if target@ is Command {
            RunMode::Exec
        } else if cold {
            RunMode::Cold
        } else if app_daemon {
            RunMode::App
        } else {
            RunMode::Generic
        }),
{
    match target {
        Target::Command { .. } => RunMode::Exec,
        _ => if cold {
            RunMode::Cold
        } else if app_daemon {
            RunMode::App
        } else {
            RunMode::Generic
        },
    }
}

/// What a daemon is asked to run: the command of the request, what it is about,
/// and its arguments. Code and files are requests of their own kind, and a
/// command is the helper that executes it, with the command behind it.
pub fn warm_request<'a>(target: &'a Target, exec_helper: &'a str) -> (r: (
    &'static str,
    &'a str,
    &'a Vec<String>,
))
    ensures
        (r.0@, r.1@, text::views(r.2@)) == (match target@ {
            Goal::Eval { code, args } => ("EVAL"@, code, args),
            Goal::Script { script, args } => ("RUN"@, script, args),
            Goal::Command { argv } => ("RUN"@, exec_helper@, argv),
        }),
{
    match target {
        Target::Eval { code, args } => ("EVAL", code.as_str(), args),
        Target::Script { script, args } => ("RUN", script.as_str(), args),
        Target::Command { argv } => ("RUN", exec_helper, argv),
    }
}

/// The arguments with which a fresh interpreter is started, with the flags in
/// front of the program.
pub open spec fn cold_argv(shims: Seq<char>, f: flags::Flags, g: Goal) -> Seq<Seq<char>> {
    seq!["-I"@, shims, "-rbundler/setup"@] + flags::flag_args(f) + match g {
        Goal::Eval { code, args } => seq!["-e"@, code] + args,
        Goal::Script { script, args } => seq![script] + args,
        Goal::Command { argv } => argv,
    }
}

/// Builds the arguments with which a fresh interpreter is started.
pub fn cold_args(shims: &str, flags: &RunFlags, target: &Target) -> (r: Vec<String>)
    ensures
        text::views(r@) == cold_argv(shims@, flags@, target@),
{
    let mut r: Vec<String> = Vec::new();
    r.push("-I".to_string());
    r.push(shims.to_string());
    r.push("-rbundler/setup".to_string());
    assert(text::views(r@) =~= seq!["-I"@, shims@, "-rbundler/setup"@]);
    push_flag_args(&mut r, flags);
    let ghost head = text::views(r@);
    match target {
        Target::Eval { code, args } => {
            r.push("-e".to_string());
            r.push(code.clone());
            assert(text::views(r@) =~= head + seq!["-e"@, code@]);
            extend(&mut r, args);
            assert(text::views(r@) =~= head + (seq!["-e"@, code@] + text::views(args@)));
        },
        Target::Script { script, args } => {
            r.push(script.clone());
            assert(text::views(r@) =~= head + seq![script@]);
            extend(&mut r, args);
            assert(text::views(r@) =~= head + (seq![script@] + text::views(args@)));
        },
        Target::Command { argv } => {
            extend(&mut r, argv);
        },
    }
    r
}

/// Whether flags can be said on a command line.
pub open spec fn is_sayable(f: flags::Flags) -> bool {
    &&& f.verbose matches Some(n) ==> -1 <= n <= 2
    &&& forall|i: int|
        0 <= i < f.load_paths.len() ==> {
            let d = #[trigger] f.load_paths[i];
            d.len() > 0 && !d.contains(':')
        }
}

proof fn lemma_short_sayable(s: Seq<char>, f: flags::Flags)
    requires
        is_sayable(f),
    ensures
        match flags::short_flags(s, f) {
            flags::Short::Done(g) => is_sayable(g),
            flags::Short::Value { flags, kind, attached } => is_sayable(flags),
            flags::Short::Unknown => true,
        },
    decreases s.len(),
{
    if s.len() > 0 {
        if s[0] == 'w' {
            lemma_short_sayable(s.skip(1), flags::Flags { verbose: Some(-1i8), ..f });
        } else if s[0] == 'c' {
            lemma_short_sayable(s.skip(1), flags::Flags { syntax_check: true, ..f });
        } else if s[0] == 'W' {
            if s.len() > 1 && '0' <= s[1] <= '7' {
                lemma_short_sayable(
                    s.skip(2),
                    flags::Flags { verbose: Some(flags::level(s[1])), ..f },
                );
            } else {
                lemma_short_sayable(s.skip(1), flags::Flags { verbose: Some(2i8), ..f });
            }
        }
    }
}

proof fn lemma_dirs_sayable(parts: Seq<Seq<char>>)
    requires
        forall|i: int| 0 <= i < parts.len() ==> !(#[trigger] parts[i]).contains(':'),
    ensures
        forall|i: int|
            0 <= i < flags::dirs_of(parts).len() ==> {
                let d = #[trigger] flags::dirs_of(parts)[i];
                d.len() > 0 && !d.contains(':')
            },
    decreases parts.len(),
{
    if parts.len() > 0 {
        let head = parts.drop_last();
        assert forall|i: int| 0 <= i < head.len() implies !(#[trigger] head[i]).contains(':') by {
            assert(head[i] == parts[i]);
        }
        lemma_dirs_sayable(head);
        assert forall|i: int| 0 <= i < flags::dirs_of(parts).len() implies {
            let d = #[trigger] flags::dirs_of(parts)[i];
            d.len() > 0 && !d.contains(':')
        } by {
            if i < flags::dirs_of(head).len() {
                assert(flags::dirs_of(parts)[i] == flags::dirs_of(head)[i]);
            } else {
                assert(flags::dirs_of(parts)[i] == parts[parts.len() - 1]);
            }
        }
    }
}

proof fn lemma_value_sayable(f: flags::Flags, kind: char, value: Seq<char>)
    requires
        is_sayable(f),
    ensures
        is_sayable(flags::with_value(f, kind, value)),
{
    let parts = text::split_parts(value, ':');
    text::lemma_parts_hold_none(value, ':');
    lemma_dirs_sayable(parts);
    let g = flags::with_value(f, kind, value);
    assert forall|i: int| 0 <= i < g.load_paths.len() implies {
        let d = #[trigger] g.load_paths[i];
        d.len() > 0 && !d.contains(':')
    } by {
        if i < f.load_paths.len() {
            assert(g.load_paths[i] == f.load_paths[i]);
        } else {
            assert(g.load_paths[i] == flags::dirs_of(parts)[i - f.load_paths.len()]);
        }
    }
}

proof fn lemma_read_sayable(args: Seq<Seq<char>>, a: Args)
    requires
        is_sayable(a.flags),
    ensures
        read_args(args, a) matches Ok(x) ==> is_sayable(x.flags),
    decreases args.len(),
{
    if args.len() > 0 && is_flag(args[0]) {
        let f = args[0];
        if f == "--cold"@ {
            lemma_read_sayable(args.skip(1), Args { cold: true, ..a });
        } else if f == "--time"@ {
            lemma_read_sayable(args.skip(1), Args { show_time: true, ..a });
        } else if f == "-e"@ || f == "--eval"@ {
            if args.len() >= 2 {
                lemma_read_sayable(
                    args.skip(2),
                    Args { eval_parts: a.eval_parts.push(args[1]), ..a },
                );
            }
        } else if f == "--preload"@ {
            if args.len() >= 2 {
                lemma_read_sayable(args.skip(2), Args { preload: Some(args[1]), ..a });
            }
        } else if !text::has_prefix(f, "--"@) {
            lemma_short_sayable(f.skip(1), a.flags);
            match flags::short_flags(f.skip(1), a.flags) {
                flags::Short::Done(x) => {
                    lemma_read_sayable(args.skip(1), Args { flags: x, ..a });
                },
                flags::Short::Value { flags: x, kind, attached } => {
                    if attached.len() > 0 {
                        lemma_value_sayable(x, kind, attached);
                        lemma_read_sayable(
                            args.skip(1),
                            Args { flags: flags::with_value(x, kind, attached), ..a },
                        );
                    } else if args.len() >= 2 {
                        lemma_value_sayable(x, kind, args[1]);
                        lemma_read_sayable(
                            args.skip(2),
                            Args { flags: flags::with_value(x, kind, args[1]), ..a },
                        );
                    }
                },
                flags::Short::Unknown => {},
            }
        }
    }
}

/// The flags that a command line gives can be said on one.
pub proof fn law_flags_sayable(args: Seq<Seq<char>>)
    ensures
        read_args(args, no_args()) matches Ok(a) ==> is_sayable(a.flags),
{
    lemma_read_sayable(args, no_args());
}

proof fn lemma_short_word(w: Seq<char>, args: Seq<Seq<char>>, a: Args)
    requires
        args.len() > 0,
        args[0] == w,
        w.len() >= 2,
        w[0] == '-',
        flags::begins_flags(w[1]),
    ensures
        read_args(args, a) == (match flags::short_flags(w.skip(1), a.flags) {
            flags::Short::Done(x) => read_args(args.skip(1), Args { flags: x, ..a }),
            flags::Short::Value { flags: x, kind, attached } => if attached.len() > 0 {
                read_args(args.skip(1), Args { flags: flags::with_value(x, kind, attached), ..a })
            } else if args.len() < 2 {
                Err("calisto: -"@ + seq![kind] + " needs a value"@)
            } else {
                read_args(args.skip(2), Args { flags: flags::with_value(x, kind, args[1]), ..a })
            },
            flags::Short::Unknown => Err(unknown_flag(w)),
        }),
{
    reveal_strlit("--cold");
    reveal_strlit("--time");
    reveal_strlit("-e");
    reveal_strlit("--eval");
    reveal_strlit("--preload");
    reveal_strlit("--");
    assert(w[1] != '-' && w[1] != 'e');
    assert("--cold"@[1] == '-' && "--time"@[1] == '-' && "--eval"@[1] == '-' && "--preload"@[1]
        == '-' && "-e"@[1] == 'e');
    if text::has_prefix(w, "--"@) {
        assert(w.take(2)[1] == "--"@[1]);
    }
}

proof fn lemma_dirs_said(dirs: Seq<Seq<char>>, rest: Seq<Seq<char>>, a: Args)
    requires
        forall|i: int|
            0 <= i < dirs.len() ==> {
                let d = #[trigger] dirs[i];
                d.len() > 0 && !d.contains(':')
            },
    ensures
        read_args(flags::each("-I"@, dirs) + rest, a) == read_args(
            rest,
            Args { flags: flags::Flags { load_paths: a.flags.load_paths + dirs, ..a.flags }, ..a },
        ),
    decreases dirs.len(),
{
    let said = Args {
        flags: flags::Flags { load_paths: a.flags.load_paths + dirs, ..a.flags },
        ..a
    };
    if dirs.len() == 0 {
        assert(flags::each("-I"@, dirs) + rest =~= rest);
        assert(said =~= a);
    } else {
        let head = dirs.drop_last();
        let d = dirs[dirs.len() - 1];
        let more = seq!["-I"@, d] + rest;
        assert forall|i: int| 0 <= i < head.len() implies {
            let x = #[trigger] head[i];
            x.len() > 0 && !x.contains(':')
        } by {
            assert(head[i] == dirs[i]);
        }
        lemma_dirs_said(head, more, a);
        assert(flags::each("-I"@, dirs) + rest =~= flags::each("-I"@, head) + more);
        let b = Args {
            flags: flags::Flags { load_paths: a.flags.load_paths + head, ..a.flags },
            ..a
        };
        reveal_strlit("-I");
        lemma_short_word("-I"@, more, b);
        let s = "-I"@.skip(1);
        assert(s[0] == 'I' && s.skip(1).len() == 0);
        assert(more.skip(2) =~= rest);
        text::lemma_split_none(d, ':');
        reveal_with_fuel(flags::dirs_of, 2);
        assert(seq![d].drop_last() =~= Seq::<Seq<char>>::empty());
        assert(flags::dirs_of(seq![d]) =~= seq![d]);
        let c = Args { flags: flags::with_value(b.flags, 'I', d), ..b };
        assert(c.flags.load_paths =~= said.flags.load_paths);
        assert(c =~= said);
    }
}

proof fn lemma_libs_said(libs: Seq<Seq<char>>, rest: Seq<Seq<char>>, a: Args)
    ensures
        read_args(flags::each("-r"@, libs) + rest, a) == read_args(
            rest,
            Args { flags: flags::Flags { libs: a.flags.libs + libs, ..a.flags }, ..a },
        ),
    decreases libs.len(),
{
    let said = Args { flags: flags::Flags { libs: a.flags.libs + libs, ..a.flags }, ..a };
    if libs.len() == 0 {
        assert(flags::each("-r"@, libs) + rest =~= rest);
        assert(said =~= a);
    } else {
        let head = libs.drop_last();
        let l = libs[libs.len() - 1];
        let more = seq!["-r"@, l] + rest;
        lemma_libs_said(head, more, a);
        assert(flags::each("-r"@, libs) + rest =~= flags::each("-r"@, head) + more);
        let b = Args { flags: flags::Flags { libs: a.flags.libs + head, ..a.flags }, ..a };
        reveal_strlit("-r");
        lemma_short_word("-r"@, more, b);
        let s = "-r"@.skip(1);
        assert(s[0] == 'r' && s.skip(1).len() == 0);
        assert(more.skip(2) =~= rest);
        let c = Args { flags: flags::with_value(b.flags, 'r', l), ..b };
        assert(c.flags.libs =~= said.flags.libs);
        assert(c =~= said);
    }
}

proof fn lemma_level_said(verbose: Option<i8>, rest: Seq<Seq<char>>, a: Args)
    requires
        verbose matches Some(n) ==> -1 <= n <= 2,
        a.flags.verbose is None,
    ensures
        read_args(flags::level_args(verbose) + rest, a) == read_args(
            rest,
            Args { flags: flags::Flags { verbose, ..a.flags }, ..a },
        ),
{
    let args = flags::level_args(verbose) + rest;
    match verbose {
        Some(n) => {
            reveal_strlit("-w");
            reveal_strlit("-W0");
            reveal_strlit("-W1");
            reveal_strlit("-W2");
            let w = args[0];
            lemma_short_word(w, args, a);
            assert(args.skip(1) =~= rest);
            let s = w.skip(1);
            reveal_with_fuel(flags::short_flags, 2);
            if n == -1 {
                assert(s[0] == 'w' && s.skip(1).len() == 0);
            } else {
                assert(s[0] == 'W' && s.len() == 2 && s.skip(2).len() == 0);
                assert('0' <= s[1] <= '7' && flags::level(s[1]) == n);
            }
        },
        None => {
            assert(args =~= rest);
        },
    }
}

proof fn lemma_encoding_said(encoding: Option<Seq<char>>, rest: Seq<Seq<char>>, a: Args)
    requires
        a.flags.encoding is None,
    ensures
        read_args(flags::encoding_args(encoding) + rest, a) == read_args(
            rest,
            Args { flags: flags::Flags { encoding, ..a.flags }, ..a },
        ),
{
    let args = flags::encoding_args(encoding) + rest;
    match encoding {
        Some(e) => {
            reveal_strlit("-E");
            lemma_short_word("-E"@, args, a);
            let s = "-E"@.skip(1);
            assert(s[0] == 'E' && s.skip(1).len() == 0);
            assert(args.skip(2) =~= rest);
            assert(args[1] == e);
        },
        None => {
            assert(args =~= rest);
        },
    }
}

proof fn lemma_check_said(check: bool, rest: Seq<Seq<char>>, a: Args)
    requires
        !a.flags.syntax_check,
    ensures
        read_args(flags::check_args(check) + rest, a) == read_args(
            rest,
            Args { flags: flags::Flags { syntax_check: check, ..a.flags }, ..a },
        ),
{
    let args = flags::check_args(check) + rest;
    if check {
        reveal_strlit("-c");
        lemma_short_word("-c"@, args, a);
        let s = "-c"@.skip(1);
        reveal_with_fuel(flags::short_flags, 2);
        assert(s[0] == 'c' && s.skip(1).len() == 0);
        assert(args.skip(1) =~= rest);
    } else {
        assert(args =~= rest);
    }
}

proof fn lemma_regrouped<T>(a: Seq<T>, b: Seq<T>, c: Seq<T>, d: Seq<T>, e: Seq<T>, r: Seq<T>)
    ensures
        a + b + c + d + e + r == a + (b + (c + (d + (e + r)))),
{
    assert(a + b + c + d + e + r =~= a + (b + (c + (d + (e + r)))));
}

proof fn lemma_lists_said(f: flags::Flags, rest: Seq<Seq<char>>, a: Args)
    requires
        is_sayable(f),
        rest.len() > 0 ==> !is_flag(rest[0]),
        a.flags == (flags::Flags { load_paths: Seq::empty(), libs: Seq::empty(), ..f }),
    ensures
        read_args(flags::each("-I"@, f.load_paths) + (flags::each("-r"@, f.libs) + rest), a) == Ok::<
            Args,
            Seq<char>,
        >(Args { flags: f, rest, ..a }),
{
    lemma_dirs_said(f.load_paths, flags::each("-r"@, f.libs) + rest, a);
    let b = Args {
        flags: flags::Flags { load_paths: a.flags.load_paths + f.load_paths, ..a.flags },
        ..a
    };
    lemma_libs_said(f.libs, rest, b);
    let c = Args { flags: flags::Flags { libs: b.flags.libs + f.libs, ..b.flags }, ..b };
    assert(c.flags.load_paths =~= f.load_paths);
    assert(c.flags.libs =~= f.libs);
    assert(c.flags =~= f);
}

/// A fresh interpreter is told the flags that were given: the arguments that
/// say them are read as these flags, whatever program stands behind them.
pub proof fn law_flag_args_mean_flags(f: flags::Flags, rest: Seq<Seq<char>>)
    requires
        is_sayable(f),
        rest.len() > 0 ==> !is_flag(rest[0]),
    ensures
        read_args(flags::flag_args(f) + rest, no_args()) == Ok::<Args, Seq<char>>(
            Args { flags: f, rest, ..no_args() },
        ),
{
    let a = flags::level_args(f.verbose);
    let b = flags::encoding_args(f.encoding);
    let c = flags::check_args(f.syntax_check);
    let dirs = flags::each("-I"@, f.load_paths);
    let libs = flags::each("-r"@, f.libs);
    let after_c = dirs + (libs + rest);
    let after_b = c + after_c;
    let after_a = b + after_b;
    let a0 = no_args();
    let a1 = Args { flags: flags::Flags { verbose: f.verbose, ..a0.flags }, ..a0 };
    let a2 = Args { flags: flags::Flags { encoding: f.encoding, ..a1.flags }, ..a1 };
    let a3 = Args { flags: flags::Flags { syntax_check: f.syntax_check, ..a2.flags }, ..a2 };
    lemma_regrouped(a, b, c, dirs, libs, rest);
    lemma_level_said(f.verbose, after_a, a0);
    lemma_encoding_said(f.encoding, after_b, a1);
    lemma_check_said(f.syntax_check, after_c, a2);
    lemma_lists_said(f, rest, a3);
}

/// Each flag of the command says its own thing and leaves the rest to what
/// follows: `--cold` asks for a fresh interpreter, `--time` for the time, and
/// what stands behind `-e`, `--eval` and `--preload` is code and the libraries.
pub proof fn law_own_flags(value: Seq<char>, rest: Seq<Seq<char>>, a: Args)
    ensures
        read_args(seq!["--cold"@] + rest, a) == read_args(rest, Args { cold: true, ..a }),
        read_args(seq!["--time"@] + rest, a) == read_args(rest, Args { show_time: true, ..a }),
        read_args(seq!["-e"@, value] + rest, a) == read_args(
            rest,
            Args { eval_parts: a.eval_parts.push(value), ..a },
        ),
        read_args(seq!["--eval"@, value] + rest, a) == read_args(
            rest,
            Args { eval_parts: a.eval_parts.push(value), ..a },
        ),
        read_args(seq!["--preload"@, value] + rest, a) == read_args(
            rest,
            Args { preload: Some(value), ..a },
        ),
        read_args(seq!["-e"@], a) is Err,
        read_args(seq!["--eval"@], a) is Err,
        read_args(seq!["--preload"@], a) is Err,
{
    reveal_strlit("--cold");
    reveal_strlit("--time");
    reveal_strlit("-e");
    reveal_strlit("--eval");
    reveal_strlit("--preload");
    reveal_strlit("--");
    assert("--cold"@.take(2) =~= "--"@);
    assert("--time"@.take(2) =~= "--"@);
    assert("--eval"@.take(2) =~= "--"@);
    assert("--preload"@.take(2) =~= "--"@);
    assert("--cold"@[2] == 'c' && "--time"@[2] == 't' && "--eval"@[2] == 'e' && "--preload"@[2]
        == 'p');
    assert("-e"@.len() == 2);
    assert((seq!["--cold"@] + rest).skip(1) =~= rest);
    assert((seq!["--time"@] + rest).skip(1) =~= rest);
    assert((seq!["-e"@, value] + rest).skip(2) =~= rest);
    assert((seq!["--eval"@, value] + rest).skip(2) =~= rest);
    assert((seq!["--preload"@, value] + rest).skip(2) =~= rest);
    assert((seq!["-e"@, value] + rest)[1] == value);
    assert((seq!["--eval"@, value] + rest)[1] == value);
    assert((seq!["--preload"@, value] + rest)[1] == value);
}

/// An argument that begins with two dashes and is no flag of the command is
/// refused, and so is one that holds a character that is no flag of `ruby`.
pub proof fn law_unknown_flags(f: Seq<char>, c: char, rest: Seq<Seq<char>>, a: Args)
    requires
        text::has_prefix(f, "--"@),
        f != "--cold"@ && f != "--time"@ && f != "--eval"@ && f != "--preload"@,
        c != 'w' && c != 'c' && c != 'W' && c != 'I' && c != 'r' && c != 'E',
        !('0' <= c <= '7'),
    ensures
        read_args(seq![f] + rest, a) == Err::<Args, Seq<char>>(unknown_flag(f)),
        read_args(seq![seq!['-', 'w', c]] + rest, a) == Err::<Args, Seq<char>>(
            unknown_flag(seq!['-', 'w', c]),
        ),
{
    reveal_strlit("-e");
    reveal_strlit("--");
    assert(f != "-e"@) by {
        if f == "-e"@ {
            assert(f.take(2) =~= "-e"@);
            assert("-e"@[1] == 'e' && "--"@[1] == '-');
        }
    }
    let w = seq!['-', 'w', c];
    let args = seq![w] + rest;
    lemma_short_word(w, args, a);
    assert(w.skip(1) =~= seq!['w', c]);
    assert(w.skip(1).skip(1) =~= seq![c]);
    reveal_with_fuel(flags::short_flags, 3);
}

/// The flags of `ruby` without a value: `-w` asks for all warnings, `-W` with a
/// digit for that level, two where there is no digit or a higher one, and `-c`
/// for a check.
pub proof fn law_ruby_flags(d: char, rest: Seq<Seq<char>>, a: Args)
    requires
        '0' <= d <= '7',
    ensures
        read_args(seq![seq!['-', 'w']] + rest, a) == read_args(
            rest,
            Args { flags: flags::Flags { verbose: Some(-1i8), ..a.flags }, ..a },
        ),
        read_args(seq![seq!['-', 'W']] + rest, a) == read_args(
            rest,
            Args { flags: flags::Flags { verbose: Some(2i8), ..a.flags }, ..a },
        ),
        read_args(seq![seq!['-', 'W', d]] + rest, a) == read_args(
            rest,
            Args {
                flags: flags::Flags {
                    verbose: Some(
                        if d == '0' {
                            0i8
                        } else if d == '1' {
                            1i8
                        } else {
                            2i8
                        },
                    ),
                    ..a.flags
                },
                ..a
            },
        ),
        read_args(seq![seq!['-', 'c']] + rest, a) == read_args(
            rest,
            Args { flags: flags::Flags { syntax_check: true, ..a.flags }, ..a },
        ),
{
    let w = seq!['-', 'w'];
    let v = seq!['-', 'W'];
    let n = seq!['-', 'W', d];
    let c = seq!['-', 'c'];
    lemma_short_word(w, seq![w] + rest, a);
    lemma_short_word(v, seq![v] + rest, a);
    lemma_short_word(n, seq![n] + rest, a);
    lemma_short_word(c, seq![c] + rest, a);
    assert((seq![w] + rest).skip(1) =~= rest);
    assert((seq![v] + rest).skip(1) =~= rest);
    assert((seq![n] + rest).skip(1) =~= rest);
    assert((seq![c] + rest).skip(1) =~= rest);
    assert(w.skip(1).skip(1).len() == 0);
    assert(v.skip(1).skip(1).len() == 0);
    assert(n.skip(1).skip(2).len() == 0);
    assert(c.skip(1).skip(1).len() == 0);
    assert(n.skip(1)[1] == d);
    reveal_with_fuel(flags::short_flags, 3);
}

/// The flags of `ruby` with a value, which stands behind the letter or is the
/// next argument: `-r` names one library more, `-I` one directory more, and two
/// directories with a colon between them, and `-E` the encoding.
pub proof fn law_ruby_values(
    value: Seq<char>,
    other: Seq<char>,
    rest: Seq<Seq<char>>,
    a: Args,
)
    requires
        value.len() > 0,
        other.len() > 0,
    ensures
        ({
            let lib = Args { flags: flags::Flags { libs: a.flags.libs.push(value), ..a.flags }, ..a };
            &&& read_args(seq![seq!['-', 'r'] + value] + rest, a) == read_args(rest, lib)
            &&& read_args(seq![seq!['-', 'r'], value] + rest, a) == read_args(rest, lib)
            &&& read_args(seq![seq!['-', 'r']], a) is Err
        }),
        ({
            let enc = Args {
                flags: flags::Flags { encoding: Some(value), ..a.flags },
                ..a
            };
            &&& read_args(seq![seq!['-', 'E'] + value] + rest, a) == read_args(rest, enc)
            &&& read_args(seq![seq!['-', 'E'], value] + rest, a) == read_args(rest, enc)
            &&& read_args(seq![seq!['-', 'E']], a) is Err
        }),
        !value.contains(':') ==> ({
            let dir = Args {
                flags: flags::Flags { load_paths: a.flags.load_paths.push(value), ..a.flags },
                ..a
            };
            &&& read_args(seq![seq!['-', 'I'] + value] + rest, a) == read_args(rest, dir)
            &&& read_args(seq![seq!['-', 'I'], value] + rest, a) == read_args(rest, dir)
            &&& read_args(seq![seq!['-', 'I']], a) is Err
        }),
        !value.contains(':') && !other.contains(':') ==> read_args(
            seq![seq!['-', 'I'], value + seq![':'] + other] + rest,
            a,
        ) == read_args(
            rest,
            Args {
                flags: flags::Flags {
                    load_paths: a.flags.load_paths.push(value).push(other),
                    ..a.flags
                },
                ..a
            },
        ),
{
    lemma_value_word('r', value, rest, a);
    lemma_value_word('E', value, rest, a);
    lemma_value_word('I', value, rest, a);
    if !value.contains(':') {
        text::law_split_parts(value, ':', other);
        lemma_dirs_two(value, other);
        assert(a.flags.load_paths + seq![value] =~= a.flags.load_paths.push(value));
        if !other.contains(':') {
            let both = value + seq![':'] + other;
            lemma_value_word('I', both, rest, a);
            text::law_split_parts(other, ':', value);
            assert(seq![value] + seq![other] =~= seq![value, other]);
            assert(a.flags.load_paths + seq![value, other] =~= a.flags.load_paths.push(value).push(
                other,
            ));
        }
    }
}

proof fn lemma_dirs_two(a: Seq<char>, b: Seq<char>)
    requires
        a.len() > 0,
        b.len() > 0,
    ensures
        flags::dirs_of(seq![a]) == seq![a],
        flags::dirs_of(seq![a, b]) == seq![a, b],
{
    let nothing = Seq::<Seq<char>>::empty();
    assert(seq![a].drop_last() =~= nothing);
    assert(flags::dirs_of(nothing) =~= nothing);
    assert(flags::dirs_of(seq![a]) =~= seq![a]);
    assert(seq![a, b].drop_last() =~= seq![a]);
    assert(flags::dirs_of(seq![a, b]) =~= seq![a, b]);
}

proof fn lemma_value_word(kind: char, value: Seq<char>, rest: Seq<Seq<char>>, a: Args)
    requires
        kind == 'r' || kind == 'E' || kind == 'I',
        value.len() > 0,
    ensures
        ({
            let done = Args { flags: flags::with_value(a.flags, kind, value), ..a };
            &&& read_args(seq![seq!['-', kind] + value] + rest, a) == read_args(rest, done)
            &&& read_args(seq![seq!['-', kind], value] + rest, a) == read_args(rest, done)
            &&& read_args(seq![seq!['-', kind]], a) is Err
        }),
{
    let w = seq!['-', kind] + value;
    let args = seq![w] + rest;
    lemma_short_word(w, args, a);
    assert(args.skip(1) =~= rest);
    assert(w.skip(1)[0] == kind);
    assert(w.skip(1).skip(1) =~= value);
    let v = seq!['-', kind];
    let two = seq![v, value] + rest;
    lemma_short_word(v, two, a);
    assert(two.skip(2) =~= rest);
    assert(two[1] == value);
    assert(v.skip(1)[0] == kind);
    assert(v.skip(1).skip(1).len() == 0);
    lemma_short_word(v, seq![v], a);
}

/// The flags end with the first argument that is none: it and all that follows
/// are for the program, as they stand.
pub proof fn law_program_args(program: Seq<char>, rest: Seq<Seq<char>>, a: Args)
    requires
        program.len() == 0 || program[0] != '-',
    ensures
        read_args(seq![program] + rest, a) == Ok::<Args, Seq<char>>(
            Args { rest: seq![program] + rest, ..a },
        ),
        read_args(Seq::empty(), a) == Ok::<Args, Seq<char>>(Args { rest: Seq::empty(), ..a }),
{
    reveal_strlit("--");
    reveal_strlit("-e");
    let args = seq![program] + rest;
    assert(args[0] == program);
    if text::has_prefix(program, "--"@) {
        assert(program.take(2)[0] == '-');
    }
    assert(program != "-e"@) by {
        if program == "-e"@ {
            assert(program[0] == '-');
        }
    }
}

/// Before the first argument nothing has been said.
pub proof fn law_nothing_said()
    ensures
        ({
            let a = no_args();
            &&& !a.cold && !a.show_time && a.preload is None
            &&& a.eval_parts.len() == 0 && a.rest.len() == 0
            &&& a.flags.verbose is None && a.flags.encoding is None && !a.flags.syntax_check
            &&& a.flags.load_paths.len() == 0 && a.flags.libs.len() == 0
        }),
{
}

/// Code wins over everything else: its pieces are the lines of one program, in
/// their order, and all that follows the flags are its arguments.
pub proof fn law_code_wins(
    a: Args,
    app: Option<appconfig::Config>,
    is_file: bool,
    first: Seq<char>,
    second: Seq<char>,
)
    ensures
        a.eval_parts == seq![first] ==> goal_of(a, app, is_file) == Ok::<Goal, Seq<char>>(
            Goal::Eval { code: first, args: a.rest },
        ),
        a.eval_parts == seq![first, second] ==> goal_of(a, app, is_file) == Ok::<Goal, Seq<char>>(
            Goal::Eval { code: first + seq!['\n'] + second, args: a.rest },
        ),
        a.eval_parts.len() > 0 ==> goal_of(a, app, is_file) == Ok::<Goal, Seq<char>>(
            Goal::Eval { code: text::joined(a.eval_parts, seq!['\n']), args: a.rest },
        ),
{
    reveal_strlit("\n");
    assert("\n"@ =~= seq!['\n']);
    text::law_joined(first, seq![second], seq!['\n']);
    text::law_joined(second, Seq::empty(), seq!['\n']);
    text::law_joined(first, Seq::empty(), seq!['\n']);
    assert(seq![first] + seq![second] =~= seq![first, second]);
    assert(seq![second] + Seq::<Seq<char>>::empty() =~= seq![second]);
    assert(seq![first] + Seq::<Seq<char>>::empty() =~= seq![first]);
}

/// A name that is no file is a command of the configuration, and without a name
/// the command is `start`: its words are run with the arguments behind them.
/// There is nothing to run where there is no such command.
pub proof fn law_commands_run(a: Args, app: Option<appconfig::Config>)
    requires
        a.eval_parts.len() == 0,
    ensures
        ({
            let name = if a.rest.len() > 0 {
                a.rest[0]
            } else {
                "start"@
            };
            let args = if a.rest.len() > 0 {
                a.rest.skip(1)
            } else {
                Seq::empty()
            };
            let r = goal_of(a, app, false);
            &&& app is None ==> r is Err
            &&& app matches Some(c) ==> match appconfig::script_of(c.scripts, name) {
                None => r is Err,
                Some(cmd) => match appconfig::command_words(cmd) {
                    Ok(words) => if words.len() > 0 {
                        r == Ok::<Goal, Seq<char>>(Goal::Command { argv: words + args })
                    } else {
                        r is Err
                    },
                    Err(_) => r is Err,
                },
            }
        }),
{
}

/// A fresh interpreter finds the native modules and Bundler first, then gets the
/// flags, and then the program with its arguments behind it, all as they were
/// given.
pub proof fn law_cold_args(
    shims: Seq<char>,
    f: flags::Flags,
    subject: Seq<char>,
    args: Seq<Seq<char>>,
)
    ensures
        ({
            let front = seq!["-I"@, shims, "-rbundler/setup"@];
            let eval = cold_argv(shims, f, Goal::Eval { code: subject, args });
            let file = cold_argv(shims, f, Goal::Script { script: subject, args });
            let n = flags::flag_args(f).len() as int;
            &&& eval.take(3) == front && file.take(3) == front
            &&& eval.subrange(3, 3 + n) == flags::flag_args(f)
            &&& file.subrange(3, 3 + n) == flags::flag_args(f)
            &&& eval.skip(3 + n) == seq!["-e"@, subject] + args
            &&& file.skip(3 + n) == seq![subject] + args
            &&& f == flags::no_flags() ==> n == 0
        }),
{
    let front = seq!["-I"@, shims, "-rbundler/setup"@];
    let eval = cold_argv(shims, f, Goal::Eval { code: subject, args });
    let file = cold_argv(shims, f, Goal::Script { script: subject, args });
    let n = flags::flag_args(f).len() as int;
    assert(eval.take(3) =~= front);
    assert(file.take(3) =~= front);
    assert(eval.subrange(3, 3 + n) =~= flags::flag_args(f));
    assert(file.subrange(3, 3 + n) =~= flags::flag_args(f));
    assert(eval.skip(3 + n) =~= seq!["-e"@, subject] + args);
    assert(file.skip(3 + n) =~= seq![subject] + args);
    if f == flags::no_flags() {
        assert(flags::each("-I"@, f.load_paths).len() == 0);
        assert(flags::each("-r"@, f.libs).len() == 0);
    }
}

/// What the daemon loads in advance: what the flag says, or what follows from
/// the application and the environment.
pub fn preload_for(
    a: &RunArgs,
    app: &Option<AppConfig>,
    gemfile: bool,
    over: Option<&str>,
) -> (r: String)
    ensures
        r@ == (match a@.preload {
            Some(v) => appconfig::normalized(v),
            None => if (app matches Some(x) && x.preload is Some) || gemfile {
                Seq::empty()
            } else {
                match over {
                    Some(v) => appconfig::normalized(v@),
                    None => appconfig::DEFAULT_PRELOAD@,
                }
            },
        }),
{
    match &a.preload {
        Some(v) => normalize_preload(v.as_str()),
        None => run_preload(app, gemfile, over),
    }
}

/// A message names the flag that is unknown, and the name that is neither a file
/// nor a command.
pub proof fn law_messages(f: Seq<char>)
    ensures
        text::has_suffix(unknown_flag(f), "'"@ + f + "'"@),
        text::has_prefix(no_such_script(f), "calisto: cannot open "@ + f + ": no such file"@),
        text::has_suffix(no_such_script(f), "[scripts."@ + f + "] no calisto.toml)"@),
{
    reveal_strlit("calisto: unknown flag '");
    reveal_strlit("'");
    reveal_strlit(": no such file (e sem [scripts.");
    reveal_strlit(": no such file");
    reveal_strlit("[scripts.");
    let a = unknown_flag(f);
    let e = "'"@ + f + "'"@;
    assert(a.skip(a.len() - e.len()) =~= e);
    let b = no_such_script(f);
    let p = "calisto: cannot open "@ + f + ": no such file"@;
    assert(b.take(p.len() as int) =~= p);
    let g = "[scripts."@ + f + "] no calisto.toml)"@;
    assert(b.skip(b.len() - g.len()) =~= g);
}

} // verus!
