//! The daemon: how it boots, and what it does with its connections.
//!
//! The program around this module waits, receives, forks and writes; the
//! functions here keep the table of connections and decide what comes next.
use vstd::prelude::*;
use vstd::utf8::*;
use crate::appconfig;
use crate::path;
use crate::path::parent;
use crate::protocol;
use crate::protocol::request;
use crate::protocol::request::status_reply;
use crate::protocol::{wait_status_code, Client, CommandErr, DaemonClient, EAGAIN, EINTR};
use crate::text;
use crate::text::{chars_of, split, str_eq, string_of, strip_prefix, trim};
use crate::utf8;
use crate::utf8::debug_quoted;

verus! {

pub const SIGINT: i32 = 2;

pub const SIGHUP: i32 = 1;

pub const SIGTERM: i32 = 15;

pub const SIGKILL: i32 = 9;

pub const WNOHANG: i32 = 1;

pub const MSG_PEEK: i32 = 2;

pub const MSG_DONTWAIT: i32 = 0x40;

pub const POLLIN: i16 = 1;

pub const POLLHUP: i16 = 0x10;

pub const POLLERR: i16 = 0x8;

/// What the daemon's own command line says.
pub struct DaemonFlags {
    /// The libraries to load first.
    pub libs: Vec<String>,
    /// Whether to boot with the JIT compiler.
    pub yjit: bool,
}

/// What a command line says, as contracts see it.
#[verifier::ext_equal]
pub struct Flags {
    pub libs: Seq<Seq<char>>,
    pub yjit: bool,
}

/// What the flags of a command line say: `-r` with a library behind it, and
/// `--yjit`. The error is the first flag that is neither.
pub open spec fn flags_of(args: Seq<Seq<char>>) -> Result<Flags, Seq<char>>
    decreases args.len(),
{
    if args.len() == 0 {
        Ok(Flags { libs: Seq::empty(), yjit: false })
    } else {
        match flags_of(args.drop_last()) {
            Err(e) => Err(e),
            Ok(f) => {
                let a = args.last();
                if text::has_prefix(a, "-r"@) {
                    Ok(Flags { libs: f.libs.push(a.skip("-r"@.len() as int)), ..f })
                } else if a == "--yjit"@ {
                    Ok(Flags { yjit: true, ..f })
                } else {
                    Err(a)
                }
            },
        }
    }
}

proof fn lemma_first_bad_flag(args: Seq<Seq<char>>, n: int)
    requires
        0 <= n <= args.len(),
        flags_of(args.take(n)) is Err,
    ensures
        flags_of(args) == flags_of(args.take(n)),
    decreases args.len() - n,
{
    if n < args.len() {
        assert(args.take(n + 1).drop_last() =~= args.take(n));
        lemma_first_bad_flag(args, n + 1);
    } else {
        assert(args.take(n) =~= args);
    }
}

/// Reads the daemon's own command line, which begins with `--internal`.
pub fn parse_daemon_args(args: &Vec<String>, has_ruby: bool) -> (r: Result<DaemonFlags, String>)
    ensures
        ({
            let all = text::views(args@);
            if all.len() == 0 || all[0] != "--internal"@ {
                r matches Err(e) && e@
                    == "calisto daemon: uso interno: calisto daemon --internal [-r<gem>...]"@
            } else if !has_ruby {
                r matches Err(e) && e@
                    == "calisto daemon: CALISTO_EMBED_RUBY nao definido (uso interno)"@
            } else {
                match flags_of(all.skip(1)) {
                    Ok(f) => r matches Ok(d) && text::views(d.libs@) == f.libs && d.yjit
                        == f.yjit,
                    Err(a) => r matches Err(e) && e@
                        == "calisto daemon: flag interna desconhecida: "@ + a,
                }
            }
        }),
{
    let ghost all = text::views(args@);
    if args.len() == 0 || !str_eq(args[0].as_str(), "--internal") {
        return Err(
            "calisto daemon: uso interno: calisto daemon --internal [-r<gem>...]".to_string(),
        );
    }
    assert(all[0] == "--internal"@);
    if !has_ruby {
        return Err("calisto daemon: CALISTO_EMBED_RUBY nao definido (uso interno)".to_string());
    }
    let ghost flags = all.skip(1);
    let mut libs: Vec<String> = Vec::new();
    let mut yjit = false;
    let mut i: usize = 1;
    assert(flags.take(0) =~= Seq::<Seq<char>>::empty());
    assert(text::views(libs@) =~= Seq::<Seq<char>>::empty());
    while i < args.len()
        invariant
            1 <= i <= args@.len(),
            all == text::views(args@),
            flags == all.skip(1),
            all.len() > 0 && all[0] == "--internal"@,
            has_ruby,
            flags_of(flags.take(i - 1)) == Ok::<Flags, Seq<char>>(
                (Flags { libs: text::views(libs@), yjit }),
            ),
        decreases args@.len() - i,
    {
        let ghost before = text::views(libs@);
        assert(flags.take(i as int).drop_last() =~= flags.take(i - 1));
        assert(flags.take(i as int).last() == args@[i as int]@);
        let a = chars_of(args[i].as_str());
        match strip_prefix(a.as_slice(), "-r") {
            Some(name) => {
                libs.push(string_of(name));
                assert(text::views(libs@) =~= before.push(name@));
            },
            None => {
                if str_eq(args[i].as_str(), "--yjit") {
                    yjit = true;
                } else {
                    proof {
                        lemma_first_bad_flag(flags, i as int);
                    }
                    let mut m = "calisto daemon: flag interna desconhecida: ".to_string();
                    m.append(args[i].as_str());
                    return Err(m);
                }
            },
        }
        i += 1;
    }
    assert(flags.take(i - 1) =~= flags);
    Ok(DaemonFlags { libs, yjit })
}

/// The names in the parts of a list: without the white space around them, and
/// without the empty ones.
pub open spec fn names_of(parts: Seq<Seq<char>>) -> Seq<Seq<char>>
    decreases parts.len(),
{
    if parts.len() == 0 {
        Seq::empty()
    } else {
        let name = text::trimmed(parts.last());
        if name.len() == 0 {
            names_of(parts.drop_last())
        } else {
            names_of(parts.drop_last()).push(name)
        }
    }
}

/// The libraries of a list with commas.
pub fn preload_names(list: &str) -> (r: Vec<String>)
    ensures
        text::views(r@) == names_of(text::split_parts(list@, ',')),
{
    let chars = chars_of(list);
    let parts = split(chars.as_slice(), ',');
    let ghost all = text::slice_views(parts@);
    let mut r: Vec<String> = Vec::new();
    let mut i: usize = 0;
    assert(text::views(r@) =~= names_of(all.take(0)));
    while i < parts.len()
        invariant
            i <= parts@.len(),
            all == text::slice_views(parts@),
            text::views(r@) == names_of(all.take(i as int)),
        decreases parts@.len() - i,
    {
        let ghost before = text::views(r@);
        assert(all.take(i + 1).drop_last() =~= all.take(i as int));
        assert(all.take(i + 1).last() == parts@[i as int]@);
        let name = trim(parts[i]);
        if name.len() > 0 {
            r.push(string_of(name));
            assert(text::views(r@) =~= before.push(name@));
        }
        i += 1;
    }
    assert(all.take(i as int) =~= all);
    r
}

/// What the environment tells a daemon that boots.
pub struct DaemonEnv {
    pub socket: Option<String>,
    pub pidfile: Option<String>,
    pub preload: Option<String>,
    pub app_preload: Option<String>,
    pub app_warmup: Option<String>,
    pub compact: Option<String>,
    pub no_detach: bool,
}

/// What a daemon needs to know while it boots.
pub struct BootPlan {
    /// The directory of the files that make the native modules loadable.
    pub native_dir: String,
    /// The libraries that are loaded in advance. One that fails is passed
    /// over.
    pub preload: Vec<String>,
    /// The entry point of the application.
    pub app_preload: Option<String>,
    /// The script that warms the application up.
    pub app_warmup: Option<String>,
    /// Whether the heap is compacted.
    pub compact: bool,
    /// The socket.
    pub socket: String,
    /// The file for the process number.
    pub pidfile: Option<String>,
    /// Whether the standard streams are given up.
    pub detach: bool,
}

/// Plans how a daemon boots; without a socket it does not.
pub fn boot_plan(env: &DaemonEnv) -> (r: Result<BootPlan, String>)
    ensures
        match env.socket {
            None => r matches Err(e) && e@ == "CALISTO_SOCKET nao definido"@,
            Some(sock) => {
                &&& r matches Ok(plan)
                &&& plan.native_dir@ == (match path::parent_of(sock@) {
                    Some(d) => d,
                    None => "."@,
                })
                &&& text::views(plan.preload@) == (match env.preload {
                    Some(p) => names_of(text::split_parts(p@, ',')),
                    None => Seq::empty(),
                })
                &&& appconfig::opt_view(plan.app_preload) == appconfig::opt_view(env.app_preload)
                &&& appconfig::opt_view(plan.app_warmup) == appconfig::opt_view(env.app_warmup)
                &&& plan.compact == (appconfig::opt_view(env.compact) == Some("1"@))
                &&& plan.socket@ == sock@
                &&& appconfig::opt_view(plan.pidfile) == appconfig::opt_view(env.pidfile)
                &&& plan.detach == !env.no_detach
            },
        },
{
    let sock = match &env.socket {
        Some(s) => s.clone(),
        None => {
            return Err("CALISTO_SOCKET nao definido".to_string());
        },
    };
    let native_dir = match parent(sock.as_str()) {
        Some(d) => d,
        None => ".".to_string(),
    };
    let preload = match &env.preload {
        Some(p) => preload_names(p.as_str()),
        None => Vec::new(),
    };
    assert(env.preload is None ==> text::views(preload@) =~= Seq::<Seq<char>>::empty());
    let compact = match &env.compact {
        Some(c) => str_eq(c.as_str(), "1"),
        None => false,
    };
    Ok(
        BootPlan {
            native_dir,
            preload,
            app_preload: copy_opt(&env.app_preload),
            app_warmup: copy_opt(&env.app_warmup),
            compact,
            socket: sock,
            pidfile: copy_opt(&env.pidfile),
            detach: !env.no_detach,
        },
    )
}

fn copy_opt(s: &Option<String>) -> (r: Option<String>)
    ensures
        appconfig::opt_view(r) == appconfig::opt_view(*s),
{
    match s {
        Some(t) => Some(t.clone()),
        None => None,
    }
}

/// A native module of the interpreter.
#[derive(Clone, Copy, PartialEq, Eq, Structural)]
pub enum NativeModule {
    /// The hashes.
    Hash,
    /// The codecs of strings.
    Codecs,
    Sqlite,
    Pg,
}

/// One thing that a daemon does while it boots.
pub enum BootStep {
    /// Load a library that the command line names.
    Load(String),
    /// Write the files that make the native modules loadable, and put their
    /// directory in front of the load path.
    TakeNativeDir(String),
    /// Define a native module.
    Register(NativeModule),
    /// Load a library in advance.
    Preload(String),
    /// Load the entry point of the application.
    LoadApp(String),
    /// Run the script that warms the application up.
    WarmUp(String),
    /// Leave the session of the debugger, whose threads no child inherits.
    LeaveDebugger,
    /// Compact the heap.
    Compact,
}

/// A step, as contracts see it.
pub enum Boot {
    Load(Seq<char>),
    TakeNativeDir(Seq<char>),
    Register(NativeModule),
    Preload(Seq<char>),
    LoadApp(Seq<char>),
    WarmUp(Seq<char>),
    LeaveDebugger,
    Compact,
}

impl View for BootStep {
    type V = Boot;

    open spec fn view(&self) -> Boot {
        match self {
            BootStep::Load(l) => Boot::Load(l@),
            BootStep::TakeNativeDir(d) => Boot::TakeNativeDir(d@),
            BootStep::Register(m) => Boot::Register(*m),
            BootStep::Preload(l) => Boot::Preload(l@),
            BootStep::LoadApp(p) => Boot::LoadApp(p@),
            BootStep::WarmUp(p) => Boot::WarmUp(p@),
            BootStep::LeaveDebugger => Boot::LeaveDebugger,
            BootStep::Compact => Boot::Compact,
        }
    }
}

/// The steps of a list.
pub open spec fn boot_views(list: Seq<BootStep>) -> Seq<Boot> {
    list.map_values(|s: BootStep| s@)
}

/// The steps that make the native modules usable.
pub open spec fn native_steps(dir: Seq<char>) -> Seq<Boot> {
    seq![
        Boot::TakeNativeDir(dir),
        Boot::Register(NativeModule::Hash),
        Boot::Register(NativeModule::Codecs),
        Boot::Register(NativeModule::Sqlite),
        Boot::Register(NativeModule::Pg),
    ]
}

/// The steps for the application, and those behind them.
pub open spec fn app_steps(
    app_preload: Option<Seq<char>>,
    app_warmup: Option<Seq<char>>,
    compact: bool,
) -> Seq<Boot> {
    (match app_preload {
        Some(p) => seq![Boot::LoadApp(p)],
        None => Seq::empty(),
    }) + (match app_warmup {
        Some(p) => seq![Boot::WarmUp(p)],
        None => Seq::empty(),
    }) + seq![Boot::LeaveDebugger] + (if compact {
        seq![Boot::Compact]
    } else {
        Seq::empty()
    })
}

/// What a daemon does while it boots, in order: the libraries of the command
/// line, the native modules, the libraries that are loaded in advance, the
/// entry point, the script that warms it up, and the compaction.
pub open spec fn boot_acts(
    libs: Seq<Seq<char>>,
    native_dir: Seq<char>,
    preload: Seq<Seq<char>>,
    app_preload: Option<Seq<char>>,
    app_warmup: Option<Seq<char>>,
    compact: bool,
) -> Seq<Boot> {
    libs.map_values(|l: Seq<char>| Boot::Load(l)) + native_steps(native_dir) + preload.map_values(
        |l: Seq<char>| Boot::Preload(l),
    ) + app_steps(app_preload, app_warmup, compact)
}

fn push_boot(list: &mut Vec<BootStep>, s: BootStep)
    ensures
        boot_views(final(list)@) == boot_views(old(list)@).push(s@),
{
    let ghost before = boot_views(list@);
    let ghost act = s@;
    list.push(s);
    assert(boot_views(list@) =~= before.push(act));
}

fn push_loads(r: &mut Vec<BootStep>, libs: &Vec<String>)
    ensures
        boot_views(final(r)@) == boot_views(old(r)@) + text::views(libs@).map_values(
            |l: Seq<char>| Boot::Load(l),
        ),
{
    let ghost start = boot_views(r@);
    let ghost acts = text::views(libs@).map_values(|l: Seq<char>| Boot::Load(l));
    let mut i: usize = 0;
    assert(start + acts.take(0) =~= start);
    while i < libs.len()
        invariant
            i <= libs@.len(),
            acts == text::views(libs@).map_values(|l: Seq<char>| Boot::Load(l)),
            boot_views(r@) == start + acts.take(i as int),
        decreases libs@.len() - i,
    {
        push_boot(r, BootStep::Load(libs[i].clone()));
        assert(acts[i as int] == Boot::Load(libs@[i as int]@));
        i += 1;
        assert(boot_views(r@) =~= start + acts.take(i as int));
    }
    assert(acts.take(i as int) =~= acts);
}

fn push_preloads(r: &mut Vec<BootStep>, preload: &Vec<String>)
    ensures
        boot_views(final(r)@) == boot_views(old(r)@) + text::views(preload@).map_values(
            |l: Seq<char>| Boot::Preload(l),
        ),
{
    let ghost start = boot_views(r@);
    let ghost acts = text::views(preload@).map_values(|l: Seq<char>| Boot::Preload(l));
    let mut i: usize = 0;
    assert(start + acts.take(0) =~= start);
    while i < preload.len()
        invariant
            i <= preload@.len(),
            acts == text::views(preload@).map_values(|l: Seq<char>| Boot::Preload(l)),
            boot_views(r@) == start + acts.take(i as int),
        decreases preload@.len() - i,
    {
        push_boot(r, BootStep::Preload(preload[i].clone()));
        assert(acts[i as int] == Boot::Preload(preload@[i as int]@));
        i += 1;
        assert(boot_views(r@) =~= start + acts.take(i as int));
    }
    assert(acts.take(i as int) =~= acts);
}

/// The steps of a boot.
pub fn boot_steps(libs: &Vec<String>, plan: &BootPlan) -> (r: Vec<BootStep>)
    ensures
        boot_views(r@) == boot_acts(
            text::views(libs@),
            plan.native_dir@,
            text::views(plan.preload@),
            appconfig::opt_view(plan.app_preload),
            appconfig::opt_view(plan.app_warmup),
            plan.compact,
        ),
{
    let mut r: Vec<BootStep> = Vec::new();
    let ghost loads = text::views(libs@).map_values(|l: Seq<char>| Boot::Load(l));
    push_loads(&mut r, libs);
    assert(boot_views(r@) =~= loads);
    push_boot(&mut r, BootStep::TakeNativeDir(plan.native_dir.clone()));
    push_boot(&mut r, BootStep::Register(NativeModule::Hash));
    push_boot(&mut r, BootStep::Register(NativeModule::Codecs));
    push_boot(&mut r, BootStep::Register(NativeModule::Sqlite));
    push_boot(&mut r, BootStep::Register(NativeModule::Pg));
    assert(boot_views(r@) =~= loads + native_steps(plan.native_dir@));
    push_preloads(&mut r, &plan.preload);
    let ghost before = boot_views(r@);
    match &plan.app_preload {
        Some(p) => {
            push_boot(&mut r, BootStep::LoadApp(p.clone()));
        },
        None => {},
    }
    match &plan.app_warmup {
        Some(p) => {
            push_boot(&mut r, BootStep::WarmUp(p.clone()));
        },
        None => {},
    }
    push_boot(&mut r, BootStep::LeaveDebugger);
    if plan.compact {
        push_boot(&mut r, BootStep::Compact);
    }
    assert(boot_views(r@) =~= before + app_steps(
        appconfig::opt_view(plan.app_preload),
        appconfig::opt_view(plan.app_warmup),
        plan.compact,
    ));
    r
}

/// The place of a step in a boot.
pub open spec fn boot_rank(b: Boot) -> int {
    match b {
        Boot::Load(_) => 0,
        Boot::TakeNativeDir(_) => 1,
        Boot::Register(_) => 2,
        Boot::Preload(_) => 3,
        Boot::LoadApp(_) => 4,
        Boot::WarmUp(_) => 5,
        Boot::LeaveDebugger => 6,
        Boot::Compact => 7,
    }
}

/// A boot keeps its order: the entry point is loaded after everything that it
/// may need, it is warmed up after it was loaded, and the heap is compacted
/// last.
pub proof fn law_boot_order(
    libs: Seq<Seq<char>>,
    native_dir: Seq<char>,
    preload: Seq<Seq<char>>,
    app_preload: Option<Seq<char>>,
    app_warmup: Option<Seq<char>>,
    compact: bool,
    i: int,
    j: int,
)
    requires
        0 <= i <= j < boot_acts(
            libs,
            native_dir,
            preload,
            app_preload,
            app_warmup,
            compact,
        ).len(),
    ensures
        ({
            let acts = boot_acts(libs, native_dir, preload, app_preload, app_warmup, compact);
            boot_rank(acts[i]) <= boot_rank(acts[j])
        }),
{
    let a = libs.map_values(|l: Seq<char>| Boot::Load(l));
    let b = native_steps(native_dir);
    let c = preload.map_values(|l: Seq<char>| Boot::Preload(l));
    let d = app_steps(app_preload, app_warmup, compact);
    let acts = boot_acts(libs, native_dir, preload, app_preload, app_warmup, compact);
    assert forall|k: int| 0 <= k < acts.len() implies #[trigger] acts[k] == (if k < a.len() {
        a[k]
    } else if k < a.len() + b.len() {
        b[k - a.len()]
    } else if k < a.len() + b.len() + c.len() {
        c[k - a.len() - b.len()]
    } else {
        d[k - a.len() - b.len() - c.len()]
    }) by {}
    assert(acts[i] == acts[i] && acts[j] == acts[j]);
    assert forall|k: int| 0 <= k < d.len() implies 4 <= boot_rank(#[trigger] d[k]) by {}
    assert forall|k: int, l: int| 0 <= k <= l < d.len() implies boot_rank(#[trigger] d[k])
        <= boot_rank(#[trigger] d[l]) by {}
}

/// Why a step of a boot failed.
pub struct BootFailure {
    /// The status with which it ended the program, where it did.
    pub exit: Option<i32>,
    /// The class and the message of the error.
    pub summary: String,
}

/// What a daemon does after a step of its boot has failed.
pub enum AfterFailure {
    /// It warns and goes on.
    GoOn(String),
    /// It ends with an error.
    End(String),
    /// It ends with the status.
    Exit(i32),
}

/// What a daemon does then, as contracts see it.
pub enum Consequence {
    GoOn(Seq<char>),
    End(Seq<char>),
    Exit(i32),
}

impl View for AfterFailure {
    type V = Consequence;

    open spec fn view(&self) -> Consequence {
        match self {
            AfterFailure::GoOn(m) => Consequence::GoOn(m@),
            AfterFailure::End(m) => Consequence::End(m@),
            AfterFailure::Exit(n) => Consequence::Exit(*n),
        }
    }
}

/// What a daemon does after a step has failed: without a library of the
/// command line, the native modules that are its own, or the entry point it
/// does not serve; without anything else it does, with a warning. An
/// application that ends the program ends the boot.
pub open spec fn consequence(step: Boot, exit: Option<i32>, e: Seq<char>) -> Consequence {
    match step {
        Boot::Load(l) => Consequence::End("require -r"@ + l + " falhou: "@ + e),
        Boot::TakeNativeDir(_) => Consequence::End("native loadpath: "@ + e),
        Boot::Register(NativeModule::Hash) => Consequence::End(
            "registro calisto/hash falhou: "@ + e,
        ),
        Boot::Register(NativeModule::Codecs) => Consequence::End(
            "registro calisto/base64,url,html falhou: "@ + e,
        ),
        Boot::Register(NativeModule::Sqlite) => Consequence::GoOn(
            "calisto: warning: calisto/sqlite indisponivel: "@ + e,
        ),
        Boot::Register(NativeModule::Pg) => Consequence::GoOn(
            "calisto: warning: pg indisponivel: "@ + e,
        ),
        Boot::Preload(l) => Consequence::GoOn("calisto: preload '"@ + l + "' failed: "@ + e),
        Boot::LoadApp(_) => match exit {
            Some(n) => Consequence::Exit(n),
            None => Consequence::End("app preload: "@ + e),
        },
        Boot::WarmUp(_) => match exit {
            Some(n) => Consequence::Exit(n),
            None => Consequence::GoOn("calisto: warmup: "@ + e),
        },
        Boot::LeaveDebugger => Consequence::GoOn("calisto: debug session: "@ + e),
        Boot::Compact => Consequence::GoOn("calisto: compact falhou: "@ + e),
    }
}

fn told(a: &str, e: &str) -> (r: String)
    ensures
        r@ == a@ + e@,
{
    let mut r = a.to_string();
    r.append(e);
    r
}

/// Decides what a daemon does after a step of its boot has failed.
pub fn after_failure(step: &BootStep, failure: &BootFailure) -> (r: AfterFailure)
    ensures
        r@ == consequence(step@, failure.exit, failure.summary@),
{
    let e = failure.summary.as_str();
    match step {
        BootStep::Load(l) => {
            let mut m = "require -r".to_string();
            m.append(l.as_str());
            m.append(" falhou: ");
            m.append(e);
            AfterFailure::End(m)
        },
        BootStep::TakeNativeDir(_) => AfterFailure::End(told("native loadpath: ", e)),
        BootStep::Register(NativeModule::Hash) => AfterFailure::End(
            told("registro calisto/hash falhou: ", e),
        ),
        BootStep::Register(NativeModule::Codecs) => AfterFailure::End(
            told("registro calisto/base64,url,html falhou: ", e),
        ),
        BootStep::Register(NativeModule::Sqlite) => AfterFailure::GoOn(
            told("calisto: warning: calisto/sqlite indisponivel: ", e),
        ),
        BootStep::Register(NativeModule::Pg) => AfterFailure::GoOn(
            told("calisto: warning: pg indisponivel: ", e),
        ),
        BootStep::Preload(l) => {
            let mut m = "calisto: preload '".to_string();
            m.append(l.as_str());
            m.append("' failed: ");
            m.append(e);
            AfterFailure::GoOn(m)
        },
        BootStep::LoadApp(_) => match failure.exit {
            Some(n) => AfterFailure::Exit(n),
            None => AfterFailure::End(told("app preload: ", e)),
        },
        BootStep::WarmUp(_) => match failure.exit {
            Some(n) => AfterFailure::Exit(n),
            None => AfterFailure::GoOn(told("calisto: warmup: ", e)),
        },
        BootStep::LeaveDebugger => AfterFailure::GoOn(told("calisto: debug session: ", e)),
        BootStep::Compact => AfterFailure::GoOn(told("calisto: compact falhou: ", e)),
    }
}

/// What came of binding the socket.
#[derive(PartialEq, Eq, Structural)]
pub enum Bound {
    Yes,
    InUse,
    Failed,
}

/// What a daemon does then.
#[derive(PartialEq, Eq, Structural)]
pub enum BindStep {
    /// It serves.
    Serve,
    /// Another daemon serves already: it ends without an error.
    Leave,
    /// The socket is a left-over: it removes it and binds once more.
    Replace,
    /// It ends with an error.
    Fail,
}

/// Decides what a daemon does after it has tried to bind its socket; `live`
/// says whether another daemon answers there, and `again` whether it has
/// removed a left-over before. That is done once.
pub fn bind_step(bound: Bound, live: bool, again: bool) -> (r: BindStep)
    ensures
        r == (match bound {
            Bound::Yes => BindStep::Serve,
            Bound::InUse => if again {
                BindStep::Fail
            } else if live {
                BindStep::Leave
            } else {
                BindStep::Replace
            },
            Bound::Failed => BindStep::Fail,
        }),
{
    match bound {
        Bound::Yes => BindStep::Serve,
        Bound::InUse => if again {
            BindStep::Fail
        } else if live {
            BindStep::Leave
        } else {
            BindStep::Replace
        },
        Bound::Failed => BindStep::Fail,
    }
}

/// What a daemon does after it has waited for its connections.
#[derive(PartialEq, Eq, Structural)]
pub enum PollStep {
    /// It looks at them.
    Look,
    /// It waits again.
    Again,
    /// It ends with an error.
    Fail,
}

/// Decides what a daemon does after it has waited with the result `n`.
pub fn poll_step(n: i32, errno: i32) -> (r: PollStep)
    ensures
        r == (if n >= 0 {
            PollStep::Look
        } else if errno == EINTR {
            PollStep::Again
        } else {
            PollStep::Fail
        }),
{
    if n >= 0 {
        PollStep::Look
    } else if errno == EINTR {
        PollStep::Again
    } else {
        PollStep::Fail
    }
}

/// Whether something has happened on a connection: bytes have come, or it has
/// ended or failed.
pub open spec fn happened(revents: i16) -> bool {
    revents & (POLLIN | POLLHUP | POLLERR) != 0
}

/// Whether something has happened on a connection.
pub fn is_ready(revents: i16) -> (r: bool)
    ensures
        r == happened(revents),
{
    revents & (POLLIN | POLLHUP | POLLERR) != 0
}

/// Something has happened on a connection exactly where bytes have come, or it
/// has ended, or it has failed; anything else does not count.
pub proof fn law_readiness(revents: i16)
    ensures
        happened(revents) <==> revents & POLLIN != 0 || revents & POLLHUP != 0 || revents & POLLERR
            != 0,
{
    assert(revents & (1i16 | 0x10i16 | 0x8i16) != 0 <==> revents & 1i16 != 0 || revents & 0x10i16
        != 0 || revents & 0x8i16 != 0) by (bit_vector);
}

/// The connections of a table.
pub open spec fn client_views(list: Seq<DaemonClient>) -> Seq<Client> {
    list.map_values(|c: DaemonClient| c@)
}

/// Takes a new connection into the table, at its end.
pub fn accepted(clients: &mut Vec<DaemonClient>, fd: i32)
    ensures
        client_views(final(clients)@) == client_views(old(clients)@).push(
            (Client { fd, buf: Seq::empty(), fds: Seq::empty(), first: true, pid: None }),
        ),
{
    let ghost before = client_views(clients@);
    clients.push(
        DaemonClient { fd, buf: Vec::new(), fds: Vec::new(), first: true, pid: None },
    );
    assert(client_views(clients@) =~= before.push(
        (Client { fd, buf: Seq::empty(), fds: Seq::empty(), first: true, pid: None }),
    ));
}

/// Which connection is next in a round, and what to ask of it.
#[derive(PartialEq, Eq, Structural)]
pub enum Turn {
    /// Its program runs: look whether the client is still there.
    Peer(usize),
    /// Read its command.
    Command(usize),
    /// The round is over.
    Over,
}

/// The next connection of a round, from index `from` on. Of each connection
/// that was waited for, `ready` says whether something has happened; the table
/// may have become shorter since.
pub fn next_turn(clients: &Vec<DaemonClient>, ready: &Vec<bool>, from: usize) -> (r: Turn)
    ensures
        ({
            let n = if ready@.len() < clients@.len() {
                ready@.len() as int
            } else {
                clients@.len() as int
            };
            let first = |i: int|
                {
                    &&& from <= i < n
                    &&& ready@[i]
                    &&& forall|j: int| from <= j < i ==> !ready@[j]
                };
            match r {
                Turn::Peer(i) => first(i as int) && clients@[i as int]@.pid is Some,
                Turn::Command(i) => first(i as int) && clients@[i as int]@.pid is None,
                Turn::Over => forall|j: int| from <= j < n ==> !ready@[j],
            }
        }),
{
    let mut i: usize = from;
    while i < ready.len() && i < clients.len()
        invariant
            from <= i,
            forall|j: int| from <= j < i ==> !ready@[j],
        decreases ready@.len() - i,
    {
        if ready[i] {
            return if clients[i].pid.is_some() {
                Turn::Peer(i)
            } else {
                Turn::Command(i)
            };
        }
        i += 1;
    }
    Turn::Over
}

/// What to do with a connection, and the index at which the round goes on.
pub enum Reaction {
    /// Nothing.
    Wait,
    /// Write the text.
    Reply { fd: i32, text: String },
    /// Write the text, and then shut the daemon down.
    Stop { fd: i32, text: String },
    /// Start the program of the request.
    Run { fd: i32, eval: bool, fields: Vec<Vec<u8>> },
    /// Write the text and close the connection, which has left the table.
    Hangup { fd: i32, text: String },
    /// End the process and close the connection, which has left the table.
    Abandon { fd: i32, pid: i32 },
    /// A program runs now: close these descriptors.
    Started { close: Vec<i32> },
}

/// A reaction, as contracts see it.
pub enum Do {
    Wait,
    Reply { fd: i32, text: Seq<char> },
    Stop { fd: i32, text: Seq<char> },
    Run { fd: i32, eval: bool, fields: Seq<Seq<u8>> },
    Hangup { fd: i32, text: Seq<char> },
    Abandon { fd: i32, pid: i32 },
    Started { close: Seq<i32> },
}

impl View for Reaction {
    type V = Do;

    open spec fn view(&self) -> Do {
        match self {
            Reaction::Wait => Do::Wait,
            Reaction::Reply { fd, text } => Do::Reply { fd: *fd, text: text@ },
            Reaction::Stop { fd, text } => Do::Stop { fd: *fd, text: text@ },
            Reaction::Run { fd, eval, fields } => Do::Run {
                fd: *fd,
                eval: *eval,
                fields: protocol::byte_views(fields@),
            },
            Reaction::Hangup { fd, text } => Do::Hangup { fd: *fd, text: text@ },
            Reaction::Abandon { fd, pid } => Do::Abandon { fd: *fd, pid: *pid },
            Reaction::Started { close } => Do::Started { close: close@ },
        }
    }
}

/// Whether a reaction takes its connection out of the table.
pub open spec fn leaves(d: Do) -> bool {
    d is Hangup || d is Abandon
}

/// The table after a reaction to connection `i`.
pub open spec fn table_after(clients: Seq<Client>, i: int, d: Do) -> Seq<Client> {
    if leaves(d) {
        clients.remove(i)
    } else {
        clients
    }
}

/// The index at which a round goes on after a reaction to connection `i`: a
/// connection that has left is followed by the one that takes its place.
pub open spec fn next_index(i: int, d: Do) -> int {
    if leaves(d) {
        i
    } else {
        i + 1
    }
}

fn remove_client(clients: &mut Vec<DaemonClient>, i: usize) -> (r: DaemonClient)
    requires
        i < old(clients)@.len(),
    ensures
        r@ == client_views(old(clients)@)[i as int],
        client_views(final(clients)@) == client_views(old(clients)@).remove(i as int),
{
    let ghost before = client_views(clients@);
    let c = clients.remove(i);
    assert(client_views(clients@) =~= before.remove(i as int));
    c
}

/// What to do where the program of a connection runs and the client was looked
/// at with the result `n`: a client that has gone takes its program with it.
pub open spec fn peer_reaction(c: Client, n: int, errno: int) -> Do {
    if n == 0 || (n < 0 && errno != EAGAIN) {
        Do::Abandon { fd: c.fd, pid: c.pid->0 }
    } else {
        Do::Wait
    }
}

/// Reacts to a look at the client of connection `i`, whose program runs.
pub fn peer_checked(clients: &mut Vec<DaemonClient>, i: usize, n: isize, errno: i32) -> (r: (
    Reaction,
    usize,
))
    requires
        i < old(clients)@.len(),
        old(clients)@[i as int]@.pid is Some,
    ensures
        ({
            let d = peer_reaction(client_views(old(clients)@)[i as int], n as int, errno as int);
            &&& r.0@ == d
            &&& r.1 == next_index(i as int, d)
            &&& client_views(final(clients)@) == table_after(
                client_views(old(clients)@),
                i as int,
                d,
            )
        }),
{
    if n == 0 || (n < 0 && errno != EAGAIN) {
        let c = remove_client(clients, i);
        let pid: i32 = match c.pid {
            Some(p) => p,
            None => 0,
        };
        (Reaction::Abandon { fd: c.fd, pid }, i)
    } else {
        assert(i < clients.len());
        (Reaction::Wait, i + 1)
    }
}

/// What to do with what was read from a connection.
pub open spec fn command_reaction(
    c: Client,
    read: Result<(Seq<char>, Seq<Seq<u8>>), protocol::ReadFailure>,
) -> Do {
    match read {
        Ok((op, fields)) => if op == "PING"@ {
            Do::Reply { fd: c.fd, text: "OK\r\n"@ }
        } else if op == "STOP"@ {
            Do::Stop { fd: c.fd, text: "BYE\r\n"@ }
        } else if op == "RUN"@ || op == "EVAL"@ {
            Do::Run { fd: c.fd, eval: op == "EVAL"@, fields }
        } else {
            Do::Hangup {
                fd: c.fd,
                text: "ERR unknown command: "@ + utf8::debug_text(op) + "\r\n"@,
            }
        },
        Err(protocol::ReadFailure::Partial) => Do::Wait,
        Err(protocol::ReadFailure::Eof) => Do::Hangup {
            fd: c.fd,
            text: "ERR RuntimeError: eof\r\n"@,
        },
        Err(protocol::ReadFailure::Bad(msg)) => Do::Hangup {
            fd: c.fd,
            text: "ERR RuntimeError: "@ + msg + "\r\n"@,
        },
    }
}

fn error_line(a: &str, b: &str) -> (r: String)
    ensures
        r@ == a@ + b@ + "\r\n"@,
{
    let mut r = a.to_string();
    r.append(b);
    r.append("\r\n");
    r
}

/// Reacts to what was read from connection `i`.
pub fn command_read(
    clients: &mut Vec<DaemonClient>,
    i: usize,
    read: Result<(String, Vec<Vec<u8>>), CommandErr>,
) -> (r: (Reaction, usize))
    requires
        i < old(clients)@.len(),
    ensures
        ({
            let d = command_reaction(
                client_views(old(clients)@)[i as int],
                protocol::read_view(read),
            );
            &&& r.0@ == d
            &&& r.1 == next_index(i as int, d)
            &&& client_views(final(clients)@) == table_after(
                client_views(old(clients)@),
                i as int,
                d,
            )
        }),
{
    let fd: i32 = clients[i].fd;
    assert(i < clients.len());
    match read {
        Ok((op, fields)) => {
            if str_eq(op.as_str(), "PING") {
                (Reaction::Reply { fd, text: "OK\r\n".to_string() }, i + 1)
            } else if str_eq(op.as_str(), "STOP") {
                (Reaction::Stop { fd, text: "BYE\r\n".to_string() }, i + 1)
            } else if str_eq(op.as_str(), "RUN") || str_eq(op.as_str(), "EVAL") {
                (Reaction::Run { fd, eval: str_eq(op.as_str(), "EVAL"), fields }, i + 1)
            } else {
                let text = error_line(
                    "ERR unknown command: ",
                    debug_quoted(op.as_str()).as_str(),
                );
                let _gone = remove_client(clients, i);
                (Reaction::Hangup { fd, text }, i)
            }
        },
        Err(CommandErr::Partial) => (Reaction::Wait, i + 1),
        Err(CommandErr::Eof) => {
            let _gone = remove_client(clients, i);
            (Reaction::Hangup { fd, text: "ERR RuntimeError: eof\r\n".to_string() }, i)
        },
        Err(CommandErr::Bad(msg)) => {
            let text = error_line("ERR RuntimeError: ", msg.as_str());
            let _gone = remove_client(clients, i);
            (Reaction::Hangup { fd, text }, i)
        },
    }
}

/// Reacts to an attempt to start a program for connection `i`: on success the
/// process belongs to the connection, whose descriptors are closed here.
pub fn forked(clients: &mut Vec<DaemonClient>, i: usize, pid: i32, error: &str) -> (r: (
    Reaction,
    usize,
))
    requires
        i < old(clients)@.len(),
    ensures
        ({
            let all = client_views(old(clients)@);
            let c = all[i as int];
            if pid < 0 {
                &&& r.0@ == (Do::Hangup {
                    fd: c.fd,
                    text: "ERR RuntimeError: fork: "@ + error@ + "\r\n"@,
                })
                &&& r.1 == i
                &&& client_views(final(clients)@) == all.remove(i as int)
            } else {
                &&& r.0@ == (Do::Started { close: c.fds })
                &&& r.1 == i + 1
                &&& client_views(final(clients)@) == all.update(
                    i as int,
                    (Client { fds: Seq::empty(), pid: Some(pid), ..c }),
                )
            }
        }),
{
    let ghost all = client_views(clients@);
    assert(i < clients.len());
    if pid < 0 {
        let fd: i32 = clients[i].fd;
        let text = error_line("ERR RuntimeError: fork: ", error);
        let _gone = remove_client(clients, i);
        return (Reaction::Hangup { fd, text }, i);
    }
    let c = clients.remove(i);
    let ghost rest = clients@;
    let now = DaemonClient {
        fd: c.fd,
        buf: c.buf,
        fds: Vec::new(),
        first: c.first,
        pid: Some(pid),
    };
    let ghost new_view = now@;
    clients.insert(i, now);
    assert(client_views(clients@) =~= all.update(i as int, new_view));
    (Reaction::Started { close: c.fds }, i + 1)
}

/// The next connection whose program runs, from index `from` on, and its
/// process.
pub fn next_child(clients: &Vec<DaemonClient>, from: usize) -> (r: Option<(usize, i32)>)
    ensures
        match r {
            Some((i, pid)) => {
                &&& from <= i < clients@.len()
                &&& clients@[i as int]@.pid == Some(pid)
                &&& forall|j: int| from <= j < i ==> (#[trigger] clients@[j])@.pid is None
            },
            None => forall|j: int|
                from <= j < clients@.len() ==> (#[trigger] clients@[j])@.pid is None,
        },
{
    let mut i: usize = from;
    while i < clients.len()
        invariant
            from <= i,
            forall|j: int| from <= j < i ==> (#[trigger] clients@[j])@.pid is None,
        decreases clients@.len() - i,
    {
        match clients[i].pid {
            Some(pid) => {
                return Some((i, pid));
            },
            None => {},
        }
        i += 1;
    }
    None
}

/// What to do after the process of a connection was asked whether it has
/// ended: `n` is the process where it has, and negative where it does not
/// exist.
pub open spec fn reap_reaction(c: Client, n: int, status: i32) -> Do {
    if c.pid == Some(n as i32) && i32::MIN <= n <= i32::MAX {
        Do::Hangup { fd: c.fd, text: request::status_line(protocol::status_code(status)) }
    } else if c.pid is Some && n < 0 {
        Do::Hangup { fd: c.fd, text: request::status_line(0) }
    } else {
        Do::Wait
    }
}

/// Reacts to the question whether the program of connection `i` has ended.
pub fn reaped(clients: &mut Vec<DaemonClient>, i: usize, n: i32, status: i32) -> (r: (
    Reaction,
    usize,
))
    requires
        i < old(clients)@.len(),
    ensures
        ({
            let d = reap_reaction(client_views(old(clients)@)[i as int], n as int, status);
            &&& r.0@ == d
            &&& r.1 == next_index(i as int, d)
            &&& client_views(final(clients)@) == table_after(
                client_views(old(clients)@),
                i as int,
                d,
            )
        }),
{
    assert(i < clients.len());
    match clients[i].pid {
        Some(pid) => {
            if n == pid {
                let text = status_reply(wait_status_code(status));
                let c = remove_client(clients, i);
                return (Reaction::Hangup { fd: c.fd, text }, i);
            }
            if n < 0 {
                let text = status_reply(0);
                let c = remove_client(clients, i);
                return (Reaction::Hangup { fd: c.fd, text }, i);
            }
        },
        None => {},
    }
    (Reaction::Wait, i + 1)
}

/// The connections and processes of the programs that run, in the order of
/// the table.
pub open spec fn running(clients: Seq<Client>) -> Seq<(i32, i32)>
    decreases clients.len(),
{
    if clients.len() == 0 {
        Seq::empty()
    } else {
        match clients.last().pid {
            Some(pid) => running(clients.drop_last()).push((clients.last().fd, pid)),
            None => running(clients.drop_last()),
        }
    }
}

/// The programs that have to be ended when the daemon shuts down: the
/// connection that is told, and the process.
pub fn shutdown_children(clients: &Vec<DaemonClient>) -> (r: Vec<(i32, i32)>)
    ensures
        r@ == running(client_views(clients@)),
{
    let ghost all = client_views(clients@);
    let mut r: Vec<(i32, i32)> = Vec::new();
    let mut i: usize = 0;
    while i < clients.len()
        invariant
            i <= clients@.len(),
            all == client_views(clients@),
            r@ == running(all.take(i as int)),
        decreases clients@.len() - i,
    {
        assert(all.take(i + 1).drop_last() =~= all.take(i as int));
        assert(all.take(i + 1).last() == clients@[i as int]@);
        match clients[i].pid {
            Some(pid) => {
                r.push((clients[i].fd, pid));
            },
            None => {},
        }
        i += 1;
    }
    assert(all.take(i as int) =~= all);
    r
}

/// What a client is told of the end of its program while the daemon shuts
/// down: nothing where the process could not be waited for.
pub fn shutdown_reply(status: Option<i32>) -> (r: Option<String>)
    ensures
        match status {
            Some(s) => r matches Some(t) && t@ == request::status_line(protocol::status_code(s)),
            None => r is None,
        },
{
    match status {
        Some(s) => Some(status_reply(wait_status_code(s))),
        None => None,
    }
}

/// The files that a daemon removes when it ends: its socket, and the file with
/// its process number where it has one.
pub fn shutdown_files(plan: &BootPlan) -> (r: Vec<String>)
    ensures
        text::views(r@) == seq![plan.socket@] + (match plan.pidfile {
            Some(p) => seq![p@],
            None => seq![],
        }),
{
    let mut r: Vec<String> = Vec::new();
    r.push(plan.socket.clone());
    assert(text::views(r@) =~= seq![plan.socket@]);
    match &plan.pidfile {
        Some(p) => {
            r.push(p.clone());
            assert(text::views(r@) =~= seq![plan.socket@] + seq![p@]);
        },
        None => {
            assert(text::views(r@) =~= seq![plan.socket@] + seq![]);
        },
    }
    r
}

/// A reaction changes no other connection: those before stay where they are,
/// and those behind keep their order.
pub proof fn law_others_unchanged(clients: Seq<Client>, i: int, d: Do)
    requires
        0 <= i < clients.len(),
    ensures
        forall|j: int|
            0 <= j < i ==> #[trigger] table_after(clients, i, d)[j] == clients[j],
        forall|j: int|
            i < j < clients.len() && leaves(d) ==> #[trigger] clients[j] == table_after(
                clients,
                i,
                d,
            )[j - 1],
        !leaves(d) ==> table_after(clients, i, d) == clients,
        leaves(d) ==> table_after(clients, i, d).len() == clients.len() - 1,
{
}

/// A round ends: every reaction brings the index nearer to the end of the
/// table.
pub proof fn law_round_ends(clients: Seq<Client>, i: int, d: Do)
    requires
        0 <= i < clients.len(),
    ensures
        table_after(clients, i, d).len() - next_index(i, d) == clients.len() - i - 1,
{
}

/// A program that has ended is reported once: its connection leaves the table
/// with the report, and the report says its code.
pub proof fn law_end_reported_once(clients: Seq<Client>, i: int, status: i32)
    requires
        0 <= i < clients.len(),
        clients[i].pid is Some,
    ensures
        ({
            let c = clients[i];
            let d = reap_reaction(c, c.pid->0 as int, status);
            &&& d == (Do::Hangup {
                fd: c.fd,
                text: request::status_line(protocol::status_code(status)),
            })
            &&& table_after(clients, i, d) == clients.remove(i)
        }),
{
}

/// What the daemon does with a command that has arrived whole.
pub open spec fn answer(c: Client, sent: Seq<u8>) -> Option<Do> {
    match protocol::command_in(sent) {
        protocol::Command::Whole { op, fields, rest } => Some(
            command_reaction(c, Ok((op, fields))),
        ),
        _ => None,
    }
}

proof fn lemma_operations()
    ensures
        !utf8::has_crlf("PING"@) && !"PING"@.contains(' '),
        !utf8::has_crlf("STOP"@) && !"STOP"@.contains(' '),
        !utf8::has_crlf("RUN"@) && !"RUN"@.contains(' '),
        !utf8::has_crlf("EVAL"@) && !"EVAL"@.contains(' '),
        "STOP"@ != "PING"@,
        "RUN"@ != "PING"@ && "RUN"@ != "STOP"@ && "RUN"@ != "EVAL"@,
        "EVAL"@ != "PING"@ && "EVAL"@ != "STOP"@,
{
    reveal_strlit("PING");
    reveal_strlit("STOP");
    reveal_strlit("RUN");
    reveal_strlit("EVAL");
    assert("STOP"@[0] != "PING"@[0]);
    assert("EVAL"@[0] != "PING"@[0] && "EVAL"@[0] != "STOP"@[0]);
}

/// A question for a sign of life is answered with `OK`, and a request to stop
/// with `BYE`.
pub proof fn law_short_commands_answered(c: Client)
    ensures
        answer(c, protocol::command_bytes("PING"@, Seq::empty())) == Some(
            Do::Reply { fd: c.fd, text: "OK\r\n"@ },
        ),
        answer(c, protocol::command_bytes("STOP"@, Seq::empty())) == Some(
            Do::Stop { fd: c.fd, text: "BYE\r\n"@ },
        ),
{
    lemma_operations();
    let none = Seq::<u8>::empty();
    let ping = protocol::command_bytes("PING"@, Seq::empty());
    let stop = protocol::command_bytes("STOP"@, Seq::empty());
    protocol::law_command_round_trip("PING"@, Seq::empty(), none);
    protocol::law_command_round_trip("STOP"@, Seq::empty(), none);
    assert(ping + none =~= ping);
    assert(stop + none =~= stop);
}

/// The daemon runs what the client asked for: the program of a request is
/// started as code or as a file, with the directory, the environment, the
/// program and the arguments that the client sent.
pub proof fn law_request_is_run(
    c: Client,
    eval: bool,
    cwd: Seq<char>,
    blob: Seq<char>,
    subject: Seq<char>,
    args: Seq<Seq<char>>,
)
    requires
        args.len() + 3 <= usize::MAX,
        forall|i: int|
            0 <= i < request::request_fields(cwd, blob, subject, args).len() ==> encode_utf8(
                #[trigger] request::request_fields(cwd, blob, subject, args)[i],
            ).len() <= usize::MAX,
    ensures
        ({
            let op = if eval {
                "EVAL"@
            } else {
                "RUN"@
            };
            let sent = protocol::command_bytes(
                op,
                request::request_fields(cwd, blob, subject, args),
            );
            &&& answer(c, sent) matches Some(Do::Run { fd, eval: e, fields })
            &&& fd == c.fd
            &&& e == eval
            &&& request::all_complete(fields)
            &&& request::field_texts(fields) == seq![cwd, blob, subject] + args
        }),
{
    lemma_operations();
    let op = if eval {
        "EVAL"@
    } else {
        "RUN"@
    };
    request::law_request_round_trip(op, cwd, blob, subject, args);
}

/// The flags of a daemon are read one after the other: `-r` names one library
/// more, `--yjit` switches the compiler on, and anything else is refused, the
/// first such flag by its name.
pub proof fn law_daemon_flags(args: Seq<Seq<char>>, lib: Seq<char>, a: Seq<char>, f: Flags)
    requires
        flags_of(args) == Ok::<Flags, Seq<char>>(f),
    ensures
        flags_of(args.push(seq!['-', 'r'] + lib)) == Ok::<Flags, Seq<char>>(
            Flags { libs: f.libs.push(lib), yjit: f.yjit },
        ),
        flags_of(args.push("--yjit"@)) == Ok::<Flags, Seq<char>>(Flags { libs: f.libs, yjit: true }),
        !text::has_prefix(a, "-r"@) && a != "--yjit"@ ==> flags_of(args.push(a)) == Err::<
            Flags,
            Seq<char>,
        >(a),
        flags_of(Seq::empty()) == Ok::<Flags, Seq<char>>(Flags { libs: Seq::empty(), yjit: false }),
{
    reveal_strlit("-r");
    reveal_strlit("--yjit");
    let w = seq!['-', 'r'] + lib;
    assert(w.take(2) =~= "-r"@);
    assert(w.skip(2) =~= lib);
    assert(args.push(w).drop_last() =~= args);
    assert(args.push("--yjit"@).drop_last() =~= args);
    assert(args.push(a).drop_last() =~= args);
    assert(!text::has_prefix("--yjit"@, "-r"@)) by {
        assert("--yjit"@.take(2)[1] == '-');
        assert("-r"@[1] == 'r');
    }
}

proof fn lemma_names_front(part: Seq<char>, parts: Seq<Seq<char>>)
    ensures
        names_of(seq![part] + parts) == (if text::trimmed(part).len() == 0 {
            names_of(parts)
        } else {
            seq![text::trimmed(part)] + names_of(parts)
        }),
    decreases parts.len(),
{
    let all = seq![part] + parts;
    if parts.len() == 0 {
        assert(all.drop_last() =~= Seq::<Seq<char>>::empty());
        assert(names_of(all.drop_last()) =~= Seq::<Seq<char>>::empty());
        assert(names_of(all) =~= (if text::trimmed(part).len() == 0 {
            names_of(parts)
        } else {
            seq![text::trimmed(part)] + names_of(parts)
        }));
    } else {
        lemma_names_front(part, parts.drop_last());
        assert(all.drop_last() =~= seq![part] + parts.drop_last());
        assert(all.last() == parts.last());
        let front = seq![text::trimmed(part)];
        let name = text::trimmed(parts.last());
        assert((front + names_of(parts.drop_last())).push(name) =~= front + names_of(
            parts.drop_last(),
        ).push(name));
    }
}

/// The libraries of a list are the names between its commas, in their order and
/// without the white space around them; an empty name is none.
pub proof fn law_preload_list(
    pre: Seq<char>,
    name: Seq<char>,
    post: Seq<char>,
    rest: Seq<char>,
)
    requires
        appconfig::is_blank(pre) && appconfig::is_blank(post) && appconfig::is_tight(name),
        !name.contains(','),
    ensures
        names_of(text::split_parts(pre + name + post, ',')) == (if name.len() == 0 {
            Seq::empty()
        } else {
            seq![name]
        }),
        names_of(text::split_parts(pre + name + post + seq![','] + rest, ',')) == (if name.len()
            == 0 {
            names_of(text::split_parts(rest, ','))
        } else {
            seq![name] + names_of(text::split_parts(rest, ','))
        }),
{
    let part = pre + name + post;
    assert(!part.contains(',')) by {
        if part.contains(',') {
            let i = choose|i: int| 0 <= i < part.len() && part[i] == ',';
            if i < pre.len() {
                assert(text::is_space(pre[i]));
            } else if i < pre.len() + name.len() {
                assert(name[i - pre.len()] == ',');
            } else {
                assert(text::is_space(post[i - pre.len() - name.len()]));
            }
        }
    }
    text::law_trimmed(pre, name, post);
    text::law_split_parts(part, ',', rest);
    let none = Seq::<Seq<char>>::empty();
    lemma_names_front(part, text::split_parts(rest, ','));
    lemma_names_front(part, none);
    assert(seq![part] + none =~= seq![part]);
    assert(seq![name] + none =~= seq![name]);
    assert(names_of(none) =~= none);
}

/// A boot does what it was told and nothing else: every library of the command
/// line and of the list is loaded, in the order of each, all four native
/// modules are defined, and the application is loaded, warmed up and compacted
/// exactly where that is asked for.
pub proof fn law_boot_complete(
    libs: Seq<Seq<char>>,
    native_dir: Seq<char>,
    preload: Seq<Seq<char>>,
    app_preload: Option<Seq<char>>,
    app_warmup: Option<Seq<char>>,
    compact: bool,
    p: Seq<char>,
)
    ensures
        ({
            let acts = boot_acts(libs, native_dir, preload, app_preload, app_warmup, compact);
            &&& forall|i: int| 0 <= i < libs.len() ==> #[trigger] acts[i] == Boot::Load(libs[i])
            &&& acts[libs.len() as int] == Boot::TakeNativeDir(native_dir)
            &&& forall|m: NativeModule| #[trigger] acts.contains(Boot::Register(m))
            &&& forall|i: int|
                0 <= i < preload.len() ==> acts[libs.len() + 5 + i] == Boot::Preload(
                    #[trigger] preload[i],
                )
            &&& acts.contains(Boot::LoadApp(p)) <==> app_preload == Some(p)
            &&& acts.contains(Boot::WarmUp(p)) <==> app_warmup == Some(p)
            &&& acts.contains(Boot::Compact) <==> compact
            &&& acts.contains(Boot::LeaveDebugger)
            &&& acts.len() == libs.len() + 5 + preload.len() + (if app_preload is Some {
                1int
            } else {
                0
            }) + (if app_warmup is Some {
                1int
            } else {
                0
            }) + 1 + (if compact {
                1int
            } else {
                0
            })
        }),
{
    let a = libs.map_values(|l: Seq<char>| Boot::Load(l));
    let b = native_steps(native_dir);
    let c = preload.map_values(|l: Seq<char>| Boot::Preload(l));
    let d = app_steps(app_preload, app_warmup, compact);
    let acts = boot_acts(libs, native_dir, preload, app_preload, app_warmup, compact);
    let n = libs.len() as int;
    let m = n + 5 + preload.len();
    assert forall|k: int| 0 <= k < acts.len() implies #[trigger] acts[k] == (if k < n {
        a[k]
    } else if k < n + 5 {
        b[k - n]
    } else if k < m {
        c[k - n - 5]
    } else {
        d[k - m]
    }) by {}
    assert(acts[n + 1] == b[1] && acts[n + 2] == b[2] && acts[n + 3] == b[3] && acts[n + 4] == b[4]);
    assert forall|x: NativeModule| #[trigger] acts.contains(Boot::Register(x)) by {
        match x {
            NativeModule::Hash => {
                assert(acts[n + 1] == Boot::Register(x));
            },
            NativeModule::Codecs => {
                assert(acts[n + 2] == Boot::Register(x));
            },
            NativeModule::Sqlite => {
                assert(acts[n + 3] == Boot::Register(x));
            },
            NativeModule::Pg => {
                assert(acts[n + 4] == Boot::Register(x));
            },
        }
    }
    assert forall|i: int| 0 <= i < preload.len() implies acts[n + 5 + i] == Boot::Preload(
        #[trigger] preload[i],
    ) by {
        assert(c[i] == Boot::Preload(preload[i]));
    }
    let x = if app_preload is Some {
        1int
    } else {
        0
    };
    let y = if app_warmup is Some {
        1int
    } else {
        0
    };
    if app_preload == Some(p) {
        assert(d[0] == Boot::LoadApp(p));
        assert(acts[m] == d[0]);
    }
    if app_warmup == Some(p) {
        assert(d[x] == Boot::WarmUp(p));
        assert(acts[m + x] == d[x]);
    }
    assert(d[x + y] == Boot::LeaveDebugger);
    assert(acts[m + x + y] == d[x + y]);
    if compact {
        assert(d[x + y + 1] == Boot::Compact);
        assert(acts[m + x + y + 1] == d[x + y + 1]);
    }
    assert forall|k: int| 0 <= k < acts.len() implies ({
        let s = #[trigger] acts[k];
        &&& s == Boot::LoadApp(p) ==> app_preload == Some(p)
        &&& s == Boot::WarmUp(p) ==> app_warmup == Some(p)
        &&& s == Boot::Compact ==> compact
    }) by {
        if k >= m {
            assert(acts[k] == d[k - m]);
        }
    }
}

/// Whether a daemon serves without a step: only the libraries of the command
/// line, the load path, its own modules and the entry point are needed. The
/// status with which an application ends the program is the daemon's own, and
/// every message tells the error.
pub proof fn law_boot_failures(step: Boot, exit: Option<i32>, e: Seq<char>)
    ensures
        consequence(step, exit, e) is GoOn <==> match step {
            Boot::Register(NativeModule::Sqlite) => true,
            Boot::Register(NativeModule::Pg) => true,
            Boot::Preload(_) => true,
            Boot::WarmUp(_) => exit is None,
            Boot::LeaveDebugger => true,
            Boot::Compact => true,
            _ => false,
        },
        consequence(step, exit, e) is Exit <==> exit is Some && (step is LoadApp || step is WarmUp),
        consequence(step, exit, e) matches Consequence::Exit(n) ==> exit == Some(n),
        consequence(step, exit, e) matches Consequence::GoOn(m) ==> text::has_suffix(m, e)
            && text::has_prefix(m, "calisto: "@),
        consequence(step, exit, e) matches Consequence::End(m) ==> text::has_suffix(m, e),
{
    reveal_strlit("calisto: ");
    reveal_strlit("calisto: warning: calisto/sqlite indisponivel: ");
    reveal_strlit("calisto: warning: pg indisponivel: ");
    reveal_strlit("calisto: preload '");
    reveal_strlit("calisto: warmup: ");
    reveal_strlit("calisto: debug session: ");
    reveal_strlit("calisto: compact falhou: ");
    match consequence(step, exit, e) {
        Consequence::GoOn(m) => {
            assert(m.take(9) =~= "calisto: "@);
            assert(m.skip(m.len() - e.len()) =~= e);
        },
        Consequence::End(m) => {
            assert(m.skip(m.len() - e.len()) =~= e);
        },
        _ => {},
    }
}

/// A client that has gone takes its program with it, and its program alone; one
/// that is still there, whether it has written something or not, keeps it.
pub proof fn law_client_gone(c: Client, n: int, errno: int)
    requires
        c.pid is Some,
    ensures
        n == 0 ==> peer_reaction(c, n, errno) == (Do::Abandon { fd: c.fd, pid: c.pid->0 }),
        n < 0 && errno != 11 ==> peer_reaction(c, n, errno) == (Do::Abandon {
            fd: c.fd,
            pid: c.pid->0,
        }),
        n > 0 || (n < 0 && errno == 11) ==> peer_reaction(c, n, errno) is Wait,
{
}

/// A program that has not ended is waited for, and the end of another process
/// is not taken for its own; one that cannot be asked any more has ended.
pub proof fn law_running_program_waits(c: Client, n: int, status: i32)
    requires
        c.pid matches Some(p) && p > 0,
        i32::MIN <= n <= i32::MAX,
    ensures
        n >= 0 && c.pid != Some(n as i32) ==> reap_reaction(c, n, status) is Wait,
        n < 0 ==> reap_reaction(c, n, status) == (Do::Hangup {
            fd: c.fd,
            text: request::status_line(0),
        }),
{
}

/// What the client learns of the end of its program: the code with which the
/// program has exited, or 128 and the signal that ended it.
pub proof fn law_client_learns_code(c: Client, code: i32, signal: i32)
    requires
        c.pid is Some,
        0 <= code <= 255,
        1 <= signal <= 127,
    ensures
        reap_reaction(c, c.pid->0 as int, code << 8) matches Do::Hangup { fd, text } && fd == c.fd
            && text.len() >= 2 && request::reply_in(text.take(text.len() - 2))
            == request::Reply::Status(code as int),
        reap_reaction(c, c.pid->0 as int, signal) matches Do::Hangup { fd, text } && fd == c.fd
            && text.len() >= 2 && request::reply_in(text.take(text.len() - 2))
            == request::Reply::Status(128 + signal),
{
    protocol::law_wait_status(code, signal);
    request::law_status_arrives(code as int);
    request::law_status_arrives(128 + signal);
}

/// What the client reads of a line of the daemon.
pub open spec fn client_reads(text: Seq<char>) -> request::Reply {
    request::reply_in(text.take(text.len() - 2))
}

proof fn lemma_error_read(m: Seq<char>, line: Seq<char>)
    requires
        line == "ERR "@ + m + "\r\n"@,
    ensures
        client_reads(line) == request::Reply::Failed(m),
{
    reveal_strlit("\r\n");
    request::law_replies(0, m);
    assert(line.take(line.len() - 2) =~= "ERR "@ + m);
}

/// A connection that ends in the middle of a command, and one on which no
/// command comes, is told so and ends; an incomplete command is waited for.
pub proof fn law_bad_reads_told(c: Client, msg: Seq<char>)
    ensures
        command_reaction(c, Err(protocol::ReadFailure::Partial)) is Wait,
        command_reaction(c, Err(protocol::ReadFailure::Eof)) matches Do::Hangup { fd, text } && fd
            == c.fd && client_reads(text) == request::Reply::Failed("RuntimeError: eof"@),
        command_reaction(c, Err(protocol::ReadFailure::Bad(msg))) matches Do::Hangup { fd, text }
            && fd == c.fd && client_reads(text) == request::Reply::Failed("RuntimeError: "@ + msg),
{
    reveal_strlit("ERR ");
    reveal_strlit("\r\n");
    reveal_strlit("RuntimeError: eof");
    reveal_strlit("ERR RuntimeError: eof\r\n");
    reveal_strlit("RuntimeError: ");
    reveal_strlit("ERR RuntimeError: ");
    assert("ERR RuntimeError: "@ =~= "ERR "@ + "RuntimeError: "@);
    assert("ERR RuntimeError: eof\r\n"@ =~= "ERR "@ + "RuntimeError: eof"@ + "\r\n"@);
    let b = "RuntimeError: "@ + msg;
    let tb = "ERR RuntimeError: "@ + msg + "\r\n"@;
    assert(tb =~= "ERR "@ + b + "\r\n"@);
    lemma_error_read("RuntimeError: eof"@, "ERR RuntimeError: eof\r\n"@);
    lemma_error_read(b, tb);
}

/// A command that is none of the four is answered with an error that the client
/// reads as one, and its connection ends.
pub proof fn law_unknown_commands_told(c: Client, op: Seq<char>, fields: Seq<Seq<u8>>)
    requires
        op != "PING"@ && op != "STOP"@ && op != "RUN"@ && op != "EVAL"@,
    ensures
        command_reaction(c, Ok((op, fields))) matches Do::Hangup { fd, text } && fd == c.fd
            && client_reads(text) == request::Reply::Failed(
            "unknown command: "@ + utf8::debug_text(op),
        ),
{
    reveal_strlit("ERR ");
    reveal_strlit("unknown command: ");
    reveal_strlit("ERR unknown command: ");
    assert("ERR unknown command: "@ =~= "ERR "@ + "unknown command: "@);
    let d = "unknown command: "@ + utf8::debug_text(op);
    let td = "ERR unknown command: "@ + utf8::debug_text(op) + "\r\n"@;
    assert(td =~= "ERR "@ + d + "\r\n"@);
    lemma_error_read(d, td);
}

/// A daemon that shuts down ends every program that runs, tells its own client,
/// and touches no other connection.
pub proof fn law_all_children_ended(clients: Seq<Client>, fd: i32, pid: i32)
    ensures
        running(clients).contains((fd, pid)) <==> exists|i: int|
            0 <= i < clients.len() && (#[trigger] clients[i]).fd == fd && clients[i].pid == Some(pid),
        running(clients).len() <= clients.len(),
    decreases clients.len(),
{
    if clients.len() > 0 {
        let head = clients.drop_last();
        let last = clients.last();
        law_all_children_ended(head, fd, pid);
        let before = running(head);
        let now = running(clients);
        if now.contains((fd, pid)) {
            let k = choose|k: int| 0 <= k < now.len() && now[k] == (fd, pid);
            if k < before.len() {
                assert(before[k] == (fd, pid));
                let i = choose|i: int|
                    0 <= i < head.len() && (#[trigger] head[i]).fd == fd && head[i].pid == Some(pid);
                assert(clients[i] == head[i]);
            } else {
                assert(clients[clients.len() - 1].fd == fd);
            }
        }
        if exists|i: int|
            0 <= i < clients.len() && (#[trigger] clients[i]).fd == fd && clients[i].pid == Some(
                pid,
            ) {
            let i = choose|i: int|
                0 <= i < clients.len() && (#[trigger] clients[i]).fd == fd && clients[i].pid == Some(
                    pid,
                );
            if i < head.len() {
                assert(head[i] == clients[i]);
                let k = choose|k: int| 0 <= k < before.len() && before[k] == (fd, pid);
                assert(now[k] == (fd, pid));
            } else {
                assert(now[now.len() - 1] == (fd, pid));
            }
        }
    }
}

/// What failed to load is named: a library of the command line and one that is
/// loaded in advance.
pub proof fn law_libraries_named(l: Seq<char>, exit: Option<i32>, e: Seq<char>)
    ensures
        consequence(Boot::Load(l), exit, e) matches Consequence::End(m) && text::has_prefix(
            m,
            "require -r"@ + l + " "@,
        ),
        consequence(Boot::Preload(l), exit, e) matches Consequence::GoOn(m) && text::has_prefix(
            m,
            "calisto: preload '"@ + l + "'"@,
        ),
{
    reveal_strlit(" falhou: ");
    reveal_strlit(" ");
    reveal_strlit("' failed: ");
    reveal_strlit("'");
    let m = "require -r"@ + l + " falhou: "@ + e;
    let p = "require -r"@ + l + " "@;
    assert(m.take(p.len() as int) =~= p);
    let n = "calisto: preload '"@ + l + "' failed: "@ + e;
    let q = "calisto: preload '"@ + l + "'"@;
    assert(n.take(q.len() as int) =~= q);
}

} // verus!
