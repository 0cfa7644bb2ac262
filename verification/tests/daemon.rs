use calisto::daemon::{
    accepted, after_failure, bind_step, boot_plan, boot_steps, command_read, forked, is_ready,
    next_child, next_turn, parse_daemon_args, peer_checked, poll_step, preload_names, reaped,
    shutdown_children, shutdown_files, shutdown_reply, AfterFailure, BindStep, BootFailure, BootStep,
    Bound, DaemonEnv, NativeModule, PollStep, Reaction, Turn, POLLERR, POLLHUP, POLLIN,
};
use calisto::protocol::request::{child_request, decode_fields, run_request};
use calisto::protocol::{
    build_cmd, client_read_command, CommandErr, DaemonClient, EAGAIN, EINTR,
};

fn names(list: &[&str]) -> Vec<String> {
    list.iter().map(|w| w.to_string()).collect()
}

fn table(pids: &[Option<i32>]) -> Vec<DaemonClient> {
    let mut list: Vec<DaemonClient> = Vec::new();
    for pid in pids {
        let fd = 10 + list.len() as i32;
        accepted(&mut list, fd);
        if let Some(last) = list.last_mut() {
            last.pid = *pid;
        }
    }
    list
}

fn fds(list: &[DaemonClient]) -> Vec<i32> {
    list.iter().map(|c| c.fd).collect()
}

#[test]
fn flags_of_a_daemon() {
    let f = parse_daemon_args(&names(&["--internal", "-rbundler/setup", "--yjit", "-rjson"]), true);
    let f = match f {
        Ok(f) => f,
        Err(e) => panic!("{e}"),
    };
    assert_eq!(f.libs, names(&["bundler/setup", "json"]));
    assert!(f.yjit);
    let error = |args: &[&str], ruby: bool| match parse_daemon_args(&names(args), ruby) {
        Ok(_) => "accepted".to_string(),
        Err(e) => e,
    };
    let usage = "calisto daemon: uso interno: calisto daemon --internal [-r<gem>...]";
    assert_eq!(error(&[], true), usage);
    assert_eq!(error(&["-rjson"], true), usage);
    assert_eq!(
        error(&["--internal"], false),
        "calisto daemon: CALISTO_EMBED_RUBY nao definido (uso interno)"
    );
    assert_eq!(
        error(&["--internal", "-x", "-y"], true),
        "calisto daemon: flag interna desconhecida: -x"
    );
}

#[test]
fn lists_of_libraries() {
    assert_eq!(preload_names(" json, set,,\ttime "), names(&["json", "set", "time"]));
    assert_eq!(preload_names(""), names(&[]));
}

#[test]
fn booting() {
    let mut env = DaemonEnv {
        socket: None,
        pidfile: None,
        preload: None,
        app_preload: None,
        app_warmup: None,
        compact: Some("1".to_string()),
        no_detach: false,
    };
    assert!(matches!(boot_plan(&env), Err(e) if e == "CALISTO_SOCKET nao definido"));
    env.socket = Some("/run/calisto.sock".to_string());
    env.preload = Some("json,set".to_string());
    env.app_preload = Some("/app/a.rb".to_string());
    let plan = match boot_plan(&env) {
        Ok(p) => p,
        Err(e) => panic!("{e}"),
    };
    assert_eq!(plan.native_dir, "/run");
    assert_eq!(plan.preload, names(&["json", "set"]));
    assert_eq!(plan.app_preload.unwrap(), "/app/a.rb");
    assert!(plan.app_warmup.is_none());
    assert!(plan.compact);
    assert!(plan.detach);
    env.compact = Some("true".to_string());
    env.no_detach = true;
    let mut plan = boot_plan(&env).ok().unwrap();
    assert!(!plan.compact);
    assert!(!plan.detach);
    assert_eq!(shutdown_files(&plan), names(&["/run/calisto.sock"]));
    plan.pidfile = Some("/run/calisto.pid".to_string());
    assert_eq!(shutdown_files(&plan), names(&["/run/calisto.sock", "/run/calisto.pid"]));
}

fn shown(steps: &[BootStep]) -> Vec<String> {
    let mut out: Vec<String> = Vec::new();
    for s in steps {
        out.push(match s {
            BootStep::Load(l) => format!("load {l}"),
            BootStep::TakeNativeDir(d) => format!("dir {d}"),
            BootStep::Register(NativeModule::Hash) => "hash".to_string(),
            BootStep::Register(NativeModule::Codecs) => "codecs".to_string(),
            BootStep::Register(NativeModule::Sqlite) => "sqlite".to_string(),
            BootStep::Register(NativeModule::Pg) => "pg".to_string(),
            BootStep::Preload(l) => format!("preload {l}"),
            BootStep::LoadApp(p) => format!("app {p}"),
            BootStep::WarmUp(p) => format!("warm {p}"),
            BootStep::LeaveDebugger => "debugger".to_string(),
            BootStep::Compact => "compact".to_string(),
        });
    }
    out
}

#[test]
fn steps_of_a_boot() {
    let mut env = DaemonEnv {
        socket: Some("/run/calisto.sock".to_string()),
        pidfile: None,
        preload: Some("json,set".to_string()),
        app_preload: Some("/app/a.rb".to_string()),
        app_warmup: Some("/app/w.rb".to_string()),
        compact: Some("1".to_string()),
        no_detach: false,
    };
    let plan = boot_plan(&env).ok().unwrap();
    assert_eq!(
        shown(&boot_steps(&names(&["bundler/setup"]), &plan)),
        names(&[
            "load bundler/setup", "dir /run", "hash", "codecs", "sqlite", "pg", "preload json",
            "preload set", "app /app/a.rb", "warm /app/w.rb", "debugger", "compact",
        ])
    );
    env.preload = None;
    env.app_preload = None;
    env.app_warmup = None;
    env.compact = None;
    let plan = boot_plan(&env).ok().unwrap();
    assert_eq!(
        shown(&boot_steps(&names(&[]), &plan)),
        names(&["dir /run", "hash", "codecs", "sqlite", "pg", "debugger"])
    );
}

#[test]
fn failures_of_a_boot() {
    let after = |step: BootStep, exit: Option<i32>| {
        match after_failure(&step, &BootFailure { exit, summary: "E: m".to_string() }) {
            AfterFailure::GoOn(m) => format!("warn {m}"),
            AfterFailure::End(m) => format!("end {m}"),
            AfterFailure::Exit(n) => format!("exit {n}"),
        }
    };
    let x = || "x".to_string();
    assert_eq!(after(BootStep::Load(x()), None), "end require -rx falhou: E: m");
    assert_eq!(after(BootStep::Load(x()), Some(3)), "end require -rx falhou: E: m");
    assert_eq!(after(BootStep::TakeNativeDir(x()), None), "end native loadpath: E: m");
    let module = |m: NativeModule| after(BootStep::Register(m), None);
    assert_eq!(module(NativeModule::Hash), "end registro calisto/hash falhou: E: m");
    assert_eq!(
        module(NativeModule::Codecs),
        "end registro calisto/base64,url,html falhou: E: m"
    );
    assert_eq!(
        module(NativeModule::Sqlite),
        "warn calisto: warning: calisto/sqlite indisponivel: E: m"
    );
    assert_eq!(module(NativeModule::Pg), "warn calisto: warning: pg indisponivel: E: m");
    assert_eq!(after(BootStep::Preload(x()), None), "warn calisto: preload 'x' failed: E: m");
    assert_eq!(after(BootStep::LoadApp(x()), None), "end app preload: E: m");
    assert_eq!(after(BootStep::LoadApp(x()), Some(3)), "exit 3");
    assert_eq!(after(BootStep::WarmUp(x()), None), "warn calisto: warmup: E: m");
    assert_eq!(after(BootStep::WarmUp(x()), Some(0)), "exit 0");
    assert_eq!(after(BootStep::LeaveDebugger, None), "warn calisto: debug session: E: m");
    assert_eq!(after(BootStep::Compact, None), "warn calisto: compact falhou: E: m");
}

#[test]
fn binding_and_waiting() {
    assert!(bind_step(Bound::Yes, false, false) == BindStep::Serve);
    assert!(bind_step(Bound::Yes, false, true) == BindStep::Serve);
    assert!(bind_step(Bound::InUse, true, false) == BindStep::Leave);
    assert!(bind_step(Bound::InUse, false, false) == BindStep::Replace);
    assert!(bind_step(Bound::InUse, false, true) == BindStep::Fail);
    assert!(bind_step(Bound::Failed, true, false) == BindStep::Fail);
    assert!(poll_step(0, 0) == PollStep::Look);
    assert!(poll_step(-1, EINTR) == PollStep::Again);
    assert!(poll_step(-1, 9) == PollStep::Fail);
    assert!(is_ready(POLLIN));
    assert!(is_ready(POLLHUP));
    assert!(is_ready(POLLERR | 4));
    assert!(!is_ready(0));
    assert!(!is_ready(4));
}

#[test]
fn turns_of_a_round() {
    let list = table(&[None, Some(5), None]);
    let ready = vec![false, true, true];
    assert!(next_turn(&list, &ready, 0) == Turn::Peer(1));
    assert!(next_turn(&list, &ready, 2) == Turn::Command(2));
    assert!(next_turn(&list, &ready, 3) == Turn::Over);
    assert!(next_turn(&list, &vec![true], 1) == Turn::Over);
}

#[test]
fn dead_clients_are_abandoned() {
    let mut list = table(&[Some(5), Some(6)]);
    let (r, next) = peer_checked(&mut list, 0, -1, EAGAIN);
    assert!(matches!(r, Reaction::Wait));
    assert_eq!(next, 1);
    let (r, _) = peer_checked(&mut list, 0, 1, 0);
    assert!(matches!(r, Reaction::Wait));
    let (r, next) = peer_checked(&mut list, 0, 0, 0);
    assert!(matches!(r, Reaction::Abandon { fd: 10, pid: 5 }));
    assert_eq!(next, 0);
    assert_eq!(fds(&list), vec![11]);
    let (r, _) = peer_checked(&mut list, 0, -1, 104);
    assert!(matches!(r, Reaction::Abandon { fd: 11, pid: 6 }));
    assert!(list.is_empty());
}

#[test]
fn commands_are_answered() {
    let mut list = table(&[None, None]);
    let none: Vec<Vec<u8>> = Vec::new();
    let (r, next) = command_read(&mut list, 0, Ok(("PING".to_string(), none.clone())));
    assert!(matches!(r, Reaction::Reply { fd: 10, text } if text == "OK\r\n"));
    assert_eq!(next, 1);
    let (r, _) = command_read(&mut list, 1, Ok(("STOP".to_string(), none.clone())));
    assert!(matches!(r, Reaction::Stop { fd: 11, text } if text == "BYE\r\n"));
    let (r, _) = command_read(&mut list, 0, Ok(("EVAL".to_string(), vec![b"x".to_vec()])));
    match r {
        Reaction::Run { fd, eval, fields } => {
            assert_eq!(fd, 10);
            assert!(eval);
            assert_eq!(fields, vec![b"x".to_vec()]);
        }
        _ => panic!("not run"),
    }
    let (r, _) = command_read(&mut list, 0, Ok(("RUN".to_string(), none.clone())));
    assert!(matches!(r, Reaction::Run { eval: false, .. }));
    let (r, _) = command_read(&mut list, 0, Err(CommandErr::Partial));
    assert!(matches!(r, Reaction::Wait));
    assert_eq!(list.len(), 2);
    let (r, next) = command_read(&mut list, 0, Ok(("HE\"Y".to_string(), none)));
    assert!(matches!(r, Reaction::Hangup { fd: 10, text } if text == "ERR unknown command: \"HE\\\"Y\"\r\n"));
    assert_eq!(next, 0);
    let (r, _) = command_read(&mut list, 0, Err(CommandErr::Eof));
    assert!(matches!(r, Reaction::Hangup { fd: 11, text } if text == "ERR RuntimeError: eof\r\n"));
    assert!(list.is_empty());
    let mut one = table(&[None]);
    let (r, _) = command_read(&mut one, 0, Err(CommandErr::Bad("m".to_string())));
    assert!(matches!(r, Reaction::Hangup { fd: 10, text } if text == "ERR RuntimeError: m\r\n"));
}

#[test]
fn programs_are_started() {
    let mut list = table(&[None, None]);
    list[0].fds = vec![3, 4, 5];
    let (r, next) = forked(&mut list, 0, 77, "");
    match r {
        Reaction::Started { close } => assert_eq!(close, vec![3, 4, 5]),
        _ => panic!("not started"),
    }
    assert_eq!(next, 1);
    assert_eq!(list[0].pid, Some(77));
    assert!(list[0].fds.is_empty());
    let (r, next) = forked(&mut list, 1, -1, "no");
    assert!(matches!(r, Reaction::Hangup { fd: 11, text } if text == "ERR RuntimeError: fork: no\r\n"));
    assert_eq!(next, 1);
    assert_eq!(fds(&list), vec![10]);
}

#[test]
fn ends_are_reported() {
    let mut list = table(&[None, Some(5), Some(6)]);
    assert_eq!(next_child(&list, 0), Some((1, 5)));
    assert_eq!(next_child(&list, 2), Some((2, 6)));
    assert_eq!(next_child(&list, 3), None);
    assert_eq!(shutdown_children(&list), vec![(11, 5), (12, 6)]);
    let (r, next) = reaped(&mut list, 1, 0, 0);
    assert!(matches!(r, Reaction::Wait));
    assert_eq!(next, 2);
    let (r, next) = reaped(&mut list, 1, 5, 42 << 8);
    assert!(matches!(r, Reaction::Hangup { fd: 11, text } if text == "STATUS 42\r\n"));
    assert_eq!(next, 1);
    let (r, _) = reaped(&mut list, 1, -1, 0);
    assert!(matches!(r, Reaction::Hangup { fd: 12, text } if text == "STATUS 0\r\n"));
    assert_eq!(fds(&list), vec![10]);
    assert_eq!(shutdown_reply(Some(9)).unwrap(), "STATUS 137\r\n");
    assert!(shutdown_reply(None).is_none());
}

#[test]
fn what_clients_send_is_answered() {
    let answer = |bytes: Vec<u8>| {
        let mut list = table(&[None]);
        list[0].buf = bytes;
        let read = client_read_command(&mut list[0]);
        command_read(&mut list, 0, read).0
    };
    assert!(matches!(
        answer(build_cmd("PING", &names(&[]))),
        Reaction::Reply { fd: 10, text } if text == "OK\r\n"
    ));
    assert!(matches!(
        answer(build_cmd("STOP", &names(&[]))),
        Reaction::Stop { fd: 10, text } if text == "BYE\r\n"
    ));
    let vars = vec![("A".to_string(), "1".to_string())];
    let args = names(&["x", "y z"]);
    match answer(run_request("EVAL", "/dir", &vars, &Vec::new(), "puts 1", &args)) {
        Reaction::Run { fd, eval, fields } => {
            assert_eq!(fd, 10);
            assert!(eval);
            let r = child_request(&decode_fields(&fields).unwrap()).unwrap();
            assert_eq!(r.cwd, "/dir");
            assert_eq!(r.env_blob, "A=1");
            assert_eq!(r.subject, "puts 1");
            assert_eq!(r.args, args);
        }
        _ => panic!("not run"),
    }
    assert!(matches!(
        answer(run_request("RUN", "/dir", &vars, &Vec::new(), "a.rb", &args)),
        Reaction::Run { fd: 10, eval: false, .. }
    ));
}
