use calisto::appconfig::{app_runtime_dir, parse_calisto_toml, AppConfig, DEFAULT_PRELOAD};
use calisto::commands::bundle::{
    build_entry, build_root, bundle_result, bundled_text, bundler_args, parse_build_args,
    BundleStats,
};
use calisto::commands::deps::{bundle_plan, bundle_root};
use calisto::commands::doctor::{
    fmt_mib, is_alive, mem_line, preload_text, probe_step, read_pid, read_smaps_rollup,
    status_text, stop_text, Health, MemStats, Probe, PROBE_POLLS,
};
use calisto::commands::flags::{
    child_flags, flag_env, flags_in, flags_text, program_env, RunFlags, RUN_FLAGS,
};
use calisto::commands::launch::{
    exec_refusal, helper_path, parse_command, project_daemon_dir, project_root, ruby_description,
    Command, Helper,
};
use calisto::commands::run::{
    cold_args, parse_run_args, preload_for, resolve_target, run_mode, warm_request, RunArgs, RunMode,
    Target,
};
use calisto::commands::serve::{no_rack_app, parse_serve_args, serve_env};
use calisto::commands::test::{
    detect_framework, no_tests, parse_test_args, report, select_files, snapshot_changed,
    test_daemon_dir, test_daemon_env, test_env, wanted_file, worker_count, TestFramework, TestResult,
};
use calisto::commands::tooling::{
    build_env, completions_text, download_base, download_plan, init_done, init_files, init_path,
    init_step, init_target, next_stage, parse_completions_args, parse_init_args, parse_upgrade_args,
    upgrade_step, Outcome, Shell, Stage, UpgradeStep, INIT_CALISTO_TOML, INIT_GITIGNORE,
    INIT_HELLO_RB,
};
use calisto::shims::{helper_text, native_shims};

fn list(items: &[&str]) -> Vec<String> {
    items.iter().map(|w| w.to_string()).collect()
}

fn app(content: &str) -> Option<AppConfig> {
    Some(parse_calisto_toml(content, "/app", |_p: &str| true).unwrap())
}

fn err<T>(r: Result<T, String>) -> String {
    match r {
        Ok(_) => "accepted".to_string(),
        Err(e) => e,
    }
}

#[test]
fn arguments_of_run() {
    let a = parse_run_args(&list(&["--cold", "--time", "--preload", "json", "x.rb", "--cold"]));
    let a = a.ok().unwrap();
    assert!(a.cold);
    assert!(a.show_time);
    assert_eq!(a.preload.unwrap(), "json");
    assert_eq!(a.rest, list(&["x.rb", "--cold"]));
    let e = parse_run_args(&list(&["-e", "a", "--eval", "b", "c"])).ok().unwrap();
    assert_eq!(e.eval_parts, list(&["a", "b"]));
    assert_eq!(e.rest, list(&["c"]));
    assert_eq!(err(parse_run_args(&list(&["-e"]))), "calisto: -e needs code");
    assert_eq!(err(parse_run_args(&list(&["--preload"]))), "calisto: --preload needs a value");
    assert_eq!(err(parse_run_args(&list(&["--x"]))), "calisto: unknown flag '--x'");
}

fn same_flags(a: &RunFlags, b: &RunFlags) -> bool {
    a.verbose == b.verbose
        && a.encoding == b.encoding
        && a.syntax_check == b.syntax_check
        && a.load_paths == b.load_paths
        && a.libs == b.libs
}

#[test]
fn flags_of_ruby() {
    let check = run_args(&["-c", "x.rb"]);
    assert!(check.flags.syntax_check);
    assert_eq!(check.rest, list(&["x.rb"]));
    match resolve_target(&check, &None, true) {
        Ok(Target::Script { script, args }) => {
            assert_eq!(script, "x.rb");
            assert_eq!(args, list(&[]));
        }
        _ => panic!("not a file"),
    }
    let a = run_args(&[
        "-I", "lib:ext::", "-Ispec", "-r", "json", "-rset", "-w", "-EUTF-8:BINARY", "--time", "a.rb",
        "-c",
    ]);
    assert_eq!(a.flags.load_paths, list(&["lib", "ext", "spec"]));
    assert_eq!(a.flags.libs, list(&["json", "set"]));
    assert_eq!(a.flags.verbose, Some(-1));
    assert_eq!(a.flags.encoding.as_deref(), Some("UTF-8:BINARY"));
    assert!(!a.flags.syntax_check);
    assert!(a.show_time);
    assert_eq!(a.rest, list(&["a.rb", "-c"]));
    assert_eq!(run_args(&["-E", "UTF-8", "a.rb"]).flags.encoding.as_deref(), Some("UTF-8"));
    let level = |flag: &str| run_args(&[flag, "a.rb"]).flags.verbose;
    assert_eq!(level("-W"), Some(2));
    assert_eq!(level("-W0"), Some(0));
    assert_eq!(level("-W1"), Some(1));
    assert_eq!(level("-W2"), Some(2));
    assert_eq!(level("-W7"), Some(2));
    let both = run_args(&["-wc", "a.rb"]).flags;
    assert!(both.syntax_check);
    assert_eq!(both.verbose, Some(-1));
    assert_eq!(run_args(&["-cIlib", "a.rb"]).flags.load_paths, list(&["lib"]));
    assert_eq!(err(parse_run_args(&list(&["-I"]))), "calisto: -I needs a value");
    assert_eq!(err(parse_run_args(&list(&["-r"]))), "calisto: -r needs a value");
    assert_eq!(err(parse_run_args(&list(&["-E"]))), "calisto: -E needs a value");
    assert_eq!(err(parse_run_args(&list(&["-wx"]))), "calisto: unknown flag '-wx'");
    assert_eq!(run_args(&["-x"]).rest, list(&["-x"]));
}

#[test]
fn flags_reach_the_program() {
    let a = run_args(&[
        "-W1", "-c", "-I", "a b", "-I/x", "-r", "é%+", "-E", "UTF-8", "x.rb",
    ]);
    let file = Target::Script { script: "x.rb".to_string(), args: list(&["y"]) };
    assert_eq!(
        cold_args("/s", &a.flags, &file),
        list(&[
            "-I", "/s", "-rbundler/setup", "-W1", "-E", "UTF-8", "-c", "-I", "a b", "-I", "/x", "-r",
            "é%+", "x.rb", "y",
        ])
    );
    let text = flags_text(&a.flags);
    assert_eq!(text, "W1 EUTF-8 c Ia+b I%2Fx r%C3%A9%25%2B");
    assert!(same_flags(&flags_in(&text), &a.flags));
    let env = flag_env(&a.flags);
    assert_eq!(env, vec![(RUN_FLAGS.to_string(), text)]);
    assert!(same_flags(&child_flags(&env), &a.flags));
    let other = |k: &str| (k.to_string(), "1".to_string());
    let vars = vec![other("A"), env[0].clone(), other("B"), env[0].clone(), other("A")];
    assert_eq!(program_env(&vars), vec![other("A"), other("B"), other("A")]);
    assert_eq!(RUN_FLAGS, "CALISTO_RUN_FLAGS");
}

#[test]
fn runs_without_flags() {
    let none = RunFlags::default();
    assert_eq!(flags_text(&none), "");
    assert!(same_flags(&flags_in(""), &none));
    assert!(flag_env(&none).is_empty());
    assert!(same_flags(&child_flags(&Vec::new()), &none));
    assert!(same_flags(&flags_in("x Wz W999  "), &none));
    let mut odd = RunFlags::default();
    odd.verbose = Some(-128);
    odd.load_paths = list(&["", "a:b\u{1e}"]);
    assert!(same_flags(&flags_in(&flags_text(&odd)), &odd));
    assert!(!flags_text(&odd).contains('\u{1e}'));
}

fn run_args(items: &[&str]) -> RunArgs {
    parse_run_args(&list(items)).ok().unwrap()
}

#[test]
fn targets_of_run() {
    let scripts = app("[scripts]\nstart = \"./hello.rb\"\ndev = \"bin/rails server\"\nbad = \"'\"\n");
    match resolve_target(&run_args(&["-e", "a", "-e", "b", "c"]), &None, false) {
        Ok(Target::Eval { code, args }) => {
            assert_eq!(code, "a\nb");
            assert_eq!(args, list(&["c"]));
        }
        _ => panic!("not code"),
    }
    match resolve_target(&run_args(&["dev", "x"]), &scripts, true) {
        Ok(Target::Script { script, args }) => {
            assert_eq!(script, "dev");
            assert_eq!(args, list(&["x"]));
        }
        _ => panic!("not a file"),
    }
    match resolve_target(&run_args(&["dev", "x"]), &scripts, false) {
        Ok(Target::Command { argv }) => assert_eq!(argv, list(&["bin/rails", "server", "x"])),
        _ => panic!("not a command"),
    }
    match resolve_target(&run_args(&[]), &scripts, false) {
        Ok(Target::Command { argv }) => assert_eq!(argv, list(&["./hello.rb"])),
        _ => panic!("not started"),
    }
    assert_eq!(
        err(resolve_target(&run_args(&["x.rb"]), &scripts, false)),
        "calisto: cannot open x.rb: no such file (e sem [scripts.x.rb] no calisto.toml)"
    );
    assert_eq!(
        err(resolve_target(&run_args(&[]), &None, false)),
        "calisto: run needs a script or -e: calisto run [flags] [-e 'code' | script.rb] [args...]"
    );
    assert_eq!(
        err(resolve_target(&run_args(&["bad"]), &scripts, false)),
        "calisto: calisto.toml: aspas ''' nao fechadas em \"'\""
    );
}

#[test]
fn ways_to_run() {
    let code = Target::Eval { code: "1".to_string(), args: list(&["a"]) };
    let file = Target::Script { script: "x.rb".to_string(), args: list(&["a"]) };
    let command = Target::Command { argv: list(&["rake"]) };
    assert!(run_mode(&code, true, true) == RunMode::Cold);
    assert!(run_mode(&code, false, true) == RunMode::App);
    assert!(run_mode(&file, false, false) == RunMode::Generic);
    assert!(run_mode(&command, true, false) == RunMode::Exec);
    assert_eq!(cold_args("/s", &RunFlags::default(), &code), list(&["-I", "/s", "-rbundler/setup", "-e", "1", "a"]));
    assert_eq!(cold_args("/s", &RunFlags::default(), &file), list(&["-I", "/s", "-rbundler/setup", "x.rb", "a"]));
    assert_eq!(preload_for(&run_args(&["--preload", "0"]), &None, false, None), "");
    assert_eq!(preload_for(&run_args(&[]), &None, false, None), DEFAULT_PRELOAD);
    assert_eq!(preload_for(&run_args(&[]), &None, true, Some("json")), "");
}

#[test]
fn arguments_of_serve() {
    let a = parse_serve_args(&list(&["-p", "4567", "--host", "0.0.0.0"])).ok().unwrap();
    assert_eq!(a.port, "4567");
    assert_eq!(a.host, "0.0.0.0");
    let d = parse_serve_args(&list(&[])).ok().unwrap();
    assert_eq!(
        serve_env(&d),
        vec![
            ("CALISTO_SERVE_PORT".to_string(), "3000".to_string()),
            ("CALISTO_SERVE_HOST".to_string(), "127.0.0.1".to_string()),
        ]
    );
    assert_eq!(err(parse_serve_args(&list(&["-p"]))), "calisto: -p precisa de um valor");
    assert_eq!(err(parse_serve_args(&list(&["-o"]))), "calisto: -o precisa de um valor");
    assert_eq!(err(parse_serve_args(&list(&["x"]))), "calisto: argumento inesperado 'x'");
    assert_eq!(
        no_rack_app("/app"),
        "calisto serve: /app nao tem config.ru (Rack app esperado)"
    );
}

#[test]
fn arguments_of_build() {
    let a = parse_build_args(&list(&["a.rb", "-o", "o.rb", "--root", "r", "--compile"])).ok().unwrap();
    assert_eq!(a.entry.unwrap(), "a.rb");
    assert_eq!(a.out, "o.rb");
    assert_eq!(a.root.unwrap(), "r");
    assert!(a.compile);
    let d = parse_build_args(&list(&["a.rb"])).ok().unwrap();
    assert_eq!(d.out, "bundle.rb");
    assert!(!d.compile);
    assert_eq!(err(parse_build_args(&list(&["--out"]))), "calisto: -o precisa de um valor");
    assert_eq!(err(parse_build_args(&list(&["--root"]))), "calisto: --root precisa de um valor");
    assert_eq!(err(parse_build_args(&list(&["-x"]))), "calisto: flag desconhecida '-x'");
    assert_eq!(err(parse_build_args(&list(&["a", "b"]))), "calisto: argumento inesperado 'b'");
    let entry = Some("a.rb".to_string());
    assert_eq!(build_entry(&entry, true).unwrap(), "a.rb");
    assert_eq!(err(build_entry(&entry, false)), "calisto: cannot open a.rb: no such file");
    assert_eq!(
        err(build_entry(&None, false)),
        "calisto: build precisa de um entrypoint: calisto build app.rb [-o out.rb]"
    );
    assert_eq!(build_root(&Some("r".to_string()), "/x/a.rb"), "r");
    assert_eq!(build_root(&None, "/x/a.rb"), "/x");
    assert_eq!(build_root(&None, "a.rb"), "");
}

#[test]
fn results_of_the_bundler() {
    let ok = bundle_result(true, Some(0), "warn\nBUNDLED 7 \nBUNDLED 8\n").ok().unwrap();
    assert_eq!(ok.files, 7);
    assert_eq!(
        err(bundle_result(false, Some(3), "BUNDLED 7\n")),
        "bundler falhou (exit Some(3))"
    );
    assert_eq!(err(bundle_result(false, None, "")), "bundler falhou (exit None)");
    assert_eq!(
        err(bundle_result(true, Some(0), "hello\n")),
        "saida inesperada do bundler: hello\n"
    );
    assert_eq!(
        bundled_text(&BundleStats { files: 7 }, "o.rb"),
        "calisto: bundled 7 arquivo(s) -> o.rb"
    );
}

#[test]
fn frameworks() {
    assert!(detect_framework(true, &list(&[])) == TestFramework::Rspec);
    assert!(detect_framework(false, &list(&["spec/a_spec.rb"])) == TestFramework::Rspec);
    assert!(detect_framework(false, &list(&[])) == TestFramework::Minitest);
    assert_eq!(TestFramework::Minitest.dir(), "test");
    assert_eq!(TestFramework::Rspec.dir(), "spec");
    assert_eq!(TestFramework::Minitest.suffix(), "_test.rb");
    assert_eq!(TestFramework::Rspec.suffix(), "_spec.rb");
    assert_eq!(TestFramework::Minitest.name(), "minitest");
    assert_eq!(TestFramework::Rspec.name(), "rspec");
    assert!(wanted_file("/a/test/x_test.rb", "_test.rb"));
    assert!(!wanted_file("/a/test/x.rb", "_test.rb"));
    assert!(!wanted_file("/a/x_test.rb/y", "_test.rb"));
}

#[test]
fn arguments_of_test() {
    let a = parse_test_args(&list(&["test/models", "-w"])).ok().unwrap();
    assert!(a.watch);
    assert_eq!(a.filters, list(&["test/models"]));
    assert_eq!(err(parse_test_args(&list(&["--x"]))), "calisto: flag desconhecida '--x'");
}

#[test]
fn files_of_a_suite() {
    let found = list(&["/r/test/b_test.rb", "/r/test/m/c_test.rb", "/r/test/a_test.rb"]);
    assert_eq!(
        select_files(&found, &list(&[]), &vec![], "/r"),
        list(&["/r/test/a_test.rb", "/r/test/b_test.rb", "/r/test/m/c_test.rb"])
    );
    assert_eq!(
        select_files(&found, &list(&["/r/test/m"]), &vec![false], "/r"),
        list(&["/r/test/m/c_test.rb"])
    );
    assert_eq!(
        select_files(&found, &list(&["test/a_test.rb", "x.rb"]), &vec![true, true], "/r"),
        list(&["/r/test/a_test.rb", "/r/x.rb"])
    );
    assert_eq!(
        select_files(&found, &list(&["test/m"]), &vec![false], "/r"),
        list(&["/r/test/m/c_test.rb"])
    );
    assert_eq!(
        select_files(&found, &list(&["test/m", "test/a_test.rb"]), &vec![false, true], "/r"),
        list(&["/r/test/a_test.rb", "/r/test/m/c_test.rb"])
    );
    assert_eq!(select_files(&found, &list(&["tes"]), &vec![false], "/r"), list(&[]));
    let models = list(&["/p/test/models/a_test.rb", "/p/test/b_test.rb"]);
    assert_eq!(
        select_files(&models, &list(&["test/models"]), &vec![false], "/p"),
        list(&["/p/test/models/a_test.rb"])
    );
    assert_eq!(
        no_tests(TestFramework::Minitest, "/r"),
        "calisto: nenhum teste _test.rb encontrado em /r/test (rode na raiz do projeto)"
    );
    assert_eq!(test_env(TestFramework::Rspec)[2].1, "spec");
    assert_eq!(worker_count(Some(8), 3), 3);
    assert_eq!(worker_count(Some(2), 3), 2);
    assert_eq!(worker_count(None, 9), 4);
    assert_eq!(worker_count(Some(8), 0), 1);
}

fn result(path: &str, code: i32, ms: u64, error: &str) -> TestResult {
    TestResult {
        path: path.to_string(),
        code,
        ms,
        error: error.to_string(),
    }
}

#[test]
fn reports_of_a_suite() {
    let r = report(
        vec![result("b", 2, 5, "no"), result("a", 0, 7, "")],
        TestFramework::Minitest,
    );
    assert_eq!(
        r.lines,
        list(&[
            "ok a (7ms)",
            "FAIL b (5ms, exit 2)no",
            "calisto: 2 arquivo(s) de teste, 1 falhou(ram) em 12ms (framework: minitest)",
        ])
    );
    assert_eq!(r.code, 1);
    let r = report(vec![result("a", 0, u64::MAX, ""), result("b", 0, 1, "")], TestFramework::Rspec);
    assert_eq!(r.code, 0);
    assert!(r.lines[2].contains(" em 18446744073709551616ms "));
}

#[test]
fn watching() {
    assert!(!snapshot_changed(&vec![(1, 2)], &vec![(1, 2)]));
    assert!(snapshot_changed(&vec![(1, 2)], &vec![(1, 3)]));
    assert!(snapshot_changed(&vec![(1, 2)], &vec![]));
}

#[test]
fn memory_is_read() {
    let content = "55d0-7ffe ---p 00000000 00:00 0 [rollup]\nRss:  2048 kB\nPss: 1024 kB\nShared_Clean: 512 kB\nPrivate_Dirty: 256 kB\nRss: x kB\nOther: 9 kB\n";
    let m = read_smaps_rollup(content).unwrap();
    assert!(
        m == MemStats {
            rss_kb: 2048,
            pss_kb: 1024,
            shared_clean_kb: 512,
            private_dirty_kb: 256
        }
    );
    assert!(read_smaps_rollup("Pss: 4 kB\n").is_none());
    assert!(read_smaps_rollup("").is_none());
    assert_eq!(
        mem_line("daemon memory", &m),
        "  daemon memory: RSS 2.0 MiB | Pss 1.0 MiB | Shared_Clean 0.5 MiB | Private_Dirty 0.2 MiB"
    );
}

#[test]
fn sizes_are_rounded_as_floats_are() {
    let mut cases: Vec<u64> = Vec::new();
    for i in 0..5000 {
        cases.push(i);
    }
    for k in 0..64 {
        for d in 0..20 {
            cases.push((1u64 << k).wrapping_add(d));
            cases.push((1u64 << k).wrapping_sub(d));
            cases.push((1u64 << k).wrapping_mul(3).wrapping_add(d * 51));
        }
    }
    cases.push(u64::MAX);
    for kb in cases {
        assert_eq!(fmt_mib(kb), format!("{:.1} MiB", kb as f64 / 1024.0), "kb={kb}");
    }
}

#[test]
fn states_of_daemons() {
    assert_eq!(
        status_text("daemon", &Health::Running("42\n".to_string())),
        "daemon: running (pid 42)"
    );
    assert_eq!(
        status_text("test daemon", &Health::Stale),
        "test daemon: socket present but unresponsive (stale)"
    );
    assert_eq!(status_text("daemon", &Health::Stopped), "daemon: not running");
    assert!(is_alive(Some("OK")));
    assert!(!is_alive(Some("BYE")));
    assert!(!is_alive(None));
    assert_eq!(stop_text(true), "daemon: stopped");
    assert_eq!(stop_text(false), "daemon: not running");
    assert_eq!(preload_text(Some("/app/a.rb"), Some("x")), "  app preload: /app/a.rb");
    assert_eq!(preload_text(None, Some("x")), "  preload: x");
    assert_eq!(preload_text(None, None), format!("  preload: {DEFAULT_PRELOAD}"));
    assert_eq!(read_pid(" 42\n"), Some(42));
    assert_eq!(read_pid("x"), None);
    assert!(probe_step(0, false) == Probe::Wait);
    assert!(probe_step(0, true) == Probe::Read);
    assert!(probe_step(PROBE_POLLS, true) == Probe::GiveUp);
}

#[test]
fn arguments_of_init() {
    let a = parse_init_args(&list(&["x", "-f"])).ok().unwrap();
    assert_eq!(a.name.unwrap(), "x");
    assert!(a.force);
    assert_eq!(
        err(parse_init_args(&list(&["-y"]))),
        "calisto: flag desconhecida '-y' (calisto init [name] [--force])"
    );
    assert_eq!(err(parse_init_args(&list(&["a", "b"]))), "calisto: argumento inesperado 'b'");
    let x = Some("x".to_string());
    assert_eq!(init_target(&x, false).unwrap(), "x");
    assert_eq!(init_target(&None, false).unwrap(), ".");
    assert_eq!(
        init_target(&x, true).unwrap_err(),
        "calisto: init: 'x' e um arquivo, nao um diretorio"
    );
    let done = init_done(&x);
    assert_eq!(done.0, "Initialized calisto app in ./x");
    assert_eq!(done.1, "next: cd ./x && calisto run");
    assert_eq!(init_done(&None).1, "next: cd . && calisto run");
}

#[test]
fn files_of_a_new_application() {
    let files = init_files();
    let made: Vec<(&str, bool)> = files.iter().map(|f| (f.name.as_str(), f.executable)).collect();
    assert_eq!(made, vec![("calisto.toml", false), ("hello.rb", true), (".gitignore", false)]);
    assert_eq!(files[0].content, INIT_CALISTO_TOML);
    assert_eq!(files[1].content, INIT_HELLO_RB);
    assert_eq!(files[2].content, INIT_GITIGNORE);
    assert!(files[0].content.ends_with("[scripts]\nstart = \"./hello.rb\"\n"));
    assert!(files[1].content.starts_with("#!/usr/bin/env ruby\n"));
    assert_eq!(init_path("x", &files[1]), "x/hello.rb");
    assert_eq!(init_step("x", &files[1], false, false).unwrap(), "x/hello.rb");
    assert_eq!(init_step("x", &files[1], true, true).unwrap(), "x/hello.rb");
    assert_eq!(
        err(init_step("x", &files[1], true, false)),
        "calisto: init: x/hello.rb ja existe (use --force para sobrescrever)"
    );
}

#[test]
fn applications_are_made_without_loss() {
    let make = |disk: &mut Vec<(String, String)>, force: bool| {
        for f in init_files() {
            let p = init_path(".", &f);
            let at = disk.iter().position(|(k, _)| *k == p);
            match init_step(".", &f, at.is_some(), force) {
                Ok(p) => match at {
                    Some(i) => disk[i].1 = f.content.clone(),
                    None => disk.push((p, f.content.clone())),
                },
                Err(_) => return 1,
            }
        }
        0
    };
    let mut disk = vec![("./hello.rb".to_string(), "mine".to_string())];
    assert_eq!(make(&mut disk, false), 1);
    assert_eq!(disk[0].1, "mine");
    assert_eq!(disk.len(), 2);
    assert_eq!(disk[1].0, "./calisto.toml");
    assert_eq!(make(&mut disk, true), 0);
    assert_eq!(disk[0].1, INIT_HELLO_RB);
    assert_eq!(disk.len(), 3);
}

#[test]
fn arguments_of_upgrade() {
    let a = parse_upgrade_args(&list(&["3.4.4", "--source"])).ok().unwrap();
    assert_eq!(a.version.unwrap(), "3.4.4");
    assert!(a.source_only);
    assert_eq!(
        err(parse_upgrade_args(&list(&["9.9"]))),
        "calisto: upgrade: versao 9.9 sem sha256 conhecido (3.4.10/3.4.4); rode RUBY_SHA256=<sha> scripts/build-ruby.sh manualmente"
    );
    assert_eq!(
        err(parse_upgrade_args(&list(&["--x"]))),
        "calisto: upgrade: flag desconhecida '--x'"
    );
    assert_eq!(
        err(parse_upgrade_args(&list(&["3.4.4", "3.4.10"]))),
        "calisto: upgrade precisa de no maximo um argumento: calisto upgrade [version] [--source]"
    );
}

#[test]
fn steps_of_upgrade() {
    let vendor = Some("/v".to_string());
    let own = Some("x.sh".to_string());
    let here = |_p: &str| true;
    let gone = |_p: &str| false;
    assert!(matches!(upgrade_step(false, &None, &vendor, here), UpgradeStep::Build(s) if s == "/v/../scripts/build-ruby.sh"));
    assert!(matches!(upgrade_step(true, &own, &vendor, here), UpgradeStep::Build(s) if s == "x.sh"));
    assert!(matches!(upgrade_step(false, &None, &vendor, gone), UpgradeStep::Download));
    assert!(matches!(upgrade_step(false, &None, &None, here), UpgradeStep::Download));
    match upgrade_step(true, &None, &None, here) {
        UpgradeStep::Refuse(m) => assert_eq!(
            m,
            "calisto: upgrade: --source pediu o build, mas <sem vendor> nao existe (instalacao portatil; use upgrade sem --source para baixar)"
        ),
        _ => panic!("not refused"),
    }
    match upgrade_step(false, &own, &vendor, gone) {
        UpgradeStep::Refuse(m) => assert_eq!(
            m,
            "calisto: upgrade: x.sh nao encontrado (rode scripts/build-ruby.sh manualmente)"
        ),
        _ => panic!("not refused"),
    }
    let version = Some("3.4.4".to_string());
    assert_eq!(build_env(&version), vec![("RUBY_VERSION".to_string(), "3.4.4".to_string())]);
    assert!(build_env(&None).is_empty());
}

#[test]
fn downloads() {
    assert_eq!(download_base(&Some("file:///d".to_string()), "1.0"), "file:///d");
    assert_eq!(
        download_base(&None, "1.0"),
        "https://github.com/felipebrgs1/ruby-rust/releases/download/v1.0"
    );
    let p = download_plan(Some("3.4.4"), "https://h/v1");
    assert_eq!(p.version, "3.4.4");
    assert_eq!(p.url, "https://h/v1/calisto-ruby-3.4.4-linux-x86_64.tar.gz");
    assert_eq!(p.sha_url, "https://h/v1/calisto-ruby-3.4.4-linux-x86_64.tar.gz.sha256");
    assert_eq!(p.name, "calisto-ruby-3.4.4-linux-x86_64.tar.gz");
    assert_eq!(p.sha_name, "calisto-ruby-3.4.4-linux-x86_64.tar.gz.sha256");
    assert_eq!(download_plan(None, "b").version, "3.4.10");
    assert!(matches!(next_stage(&Stage::Fetch, &Outcome::Done, &p, "/v"), Stage::FetchSum));
    assert!(matches!(next_stage(&Stage::FetchSum, &Outcome::Done, &p, "/v"), Stage::Check));
    assert!(matches!(next_stage(&Stage::Check, &Outcome::Done, &p, "/v"), Stage::Unpack));
    let said = |stage: Stage, outcome: Outcome| match next_stage(&stage, &outcome, &p, "/v") {
        Stage::Finished(code, m) => format!("{code} {m}"),
        _ => "goes on".to_string(),
    };
    assert_eq!(
        said(Stage::Unpack, Outcome::Done),
        "0 calisto: upgrade: ruby 3.4.4 instalado em /v/ruby-3.4.4"
    );
    assert_eq!(
        said(Stage::Unpack, Outcome::Failed),
        "1 calisto: upgrade: extracao do tarball falhou"
    );
    assert_eq!(
        said(Stage::Unpack, Outcome::NotRun("x".to_string())),
        "1 calisto: upgrade: cannot run tar: x"
    );
    assert_eq!(
        said(Stage::Check, Outcome::NotRun("x".to_string())),
        "1 calisto: upgrade: sha256 do download nao confere (abortando)"
    );
    assert_eq!(
        said(Stage::Fetch, Outcome::Failed),
        "1 calisto: upgrade: download falhou (https://h/v1/calisto-ruby-3.4.4-linux-x86_64.tar.gz; verifique a rede)"
    );
}

#[test]
fn arguments_of_completions() {
    assert!(matches!(parse_completions_args(&list(&["bash"])), Ok(Shell::Bash)));
    assert!(matches!(parse_completions_args(&list(&["zsh"])), Ok(Shell::Zsh)));
    assert!(completions_text(Shell::Bash).starts_with("# bash completion for calisto\n"));
    assert!(completions_text(Shell::Zsh).starts_with("#compdef calisto\n"));
    assert_eq!(
        err(parse_completions_args(&list(&["fish"]))),
        "calisto: completions: shell desconhecido 'fish' (bash|zsh)"
    );
    assert_eq!(
        err(parse_completions_args(&list(&[]))),
        "calisto: uso: calisto completions <bash|zsh>"
    );
}

#[test]
fn requests_to_daemons() {
    let args = list(&["a", "b"]);
    let eval = Target::Eval { code: "p 1".to_string(), args: args.clone() };
    assert_eq!(warm_request(&eval, "/d/exec.rb"), ("EVAL", "p 1", &args));
    let script = Target::Script { script: "x.rb".to_string(), args: args.clone() };
    assert_eq!(warm_request(&script, "/d/exec.rb"), ("RUN", "x.rb", &args));
    let command = Target::Command { argv: args.clone() };
    assert_eq!(warm_request(&command, "/d/exec.rb"), ("RUN", "/d/exec.rb", &args));
}

#[test]
fn daemons_of_tests() {
    let env = test_daemon_env();
    let pair = |k: &str, v: &str| (k.to_string(), v.to_string());
    assert_eq!(env, vec![pair("RAILS_ENV", "test"), pair("RACK_ENV", "test")]);
    let ruby = "/v/vendor/ruby-3.4.4/bin/ruby";
    let own = app("[run]\npreload = \"a.rb\"\n");
    let dir = test_daemon_dir(&own, ruby, "/run");
    assert!(dir.starts_with("/run/"));
    assert_ne!(dir, project_daemon_dir(&own, ruby, "/run"));
    assert_eq!(test_daemon_dir(&None, ruby, "/run"), "/run/ruby-3.4.4");
    let scripts_only = app("[scripts]\ndev = \"x\"\n");
    assert_eq!(test_daemon_dir(&scripts_only, ruby, "/run"), "/run/ruby-3.4.4");
}

#[test]
fn files_of_the_runtime_directory() {
    let shims = native_shims();
    let names: Vec<&str> = shims.iter().map(|(n, _)| n.as_str()).collect();
    assert_eq!(
        names,
        vec![
            "calisto/sqlite.rb",
            "calisto/hash.rb",
            "calisto/base64.rb",
            "calisto/url.rb",
            "calisto/html.rb",
        ]
    );
    for (_, content) in &shims {
        assert!(content.starts_with("# frozen_string_literal: true\n"));
    }
    assert!(shims[1].1.contains("defined?(Calisto::Hash)"));
    assert!(helper_text(Helper::Exec).contains("ARGV.shift"));
    assert!(helper_text(Helper::Task).contains("Gem.bin_path(\"rake\", \"rake\")"));
    assert!(helper_text(Helper::Repl).ends_with("IRB.start\n"));
    assert!(helper_text(Helper::Serve).contains("Rack::Builder.parse_file"));
}

#[test]
fn arguments_of_the_bundler() {
    assert_eq!(
        bundler_args("/c/build.rb", "a.rb", "o.rb", ".", true),
        list(&["/c/build.rb", "a.rb", "o.rb", ".", "--compile"])
    );
    assert_eq!(bundler_args("/c/build.rb", "a.rb", "o.rb", ".", false).len(), 4);
}

#[test]
fn bundler_is_started() {
    assert_eq!(bundle_root("add", Some("/r/Gemfile")).unwrap(), "/r");
    assert_eq!(
        bundle_root("add", None).unwrap_err(),
        "calisto: add: nenhum Gemfile encontrado (subindo do cwd); crie um Gemfile ou rode `bundle init`"
    );
    assert_eq!(
        bundle_root("add", Some("/")).unwrap_err(),
        "calisto: add: BUNDLE_GEMFILE invalido: /"
    );
    let p = bundle_plan("add", "/r/Gemfile", "/r", "/v/bin/ruby", "/bin", None, &list(&["rack"]));
    assert_eq!(p.program, "/v/bin/ruby");
    assert_eq!(p.args, list(&["-S", "bundle", "add", "rack"]));
    assert_eq!(p.cwd, "/r");
    assert_eq!(p.env[0].1, "/r/Gemfile");
    assert_eq!(p.env[1].1, "/v/bin/ruby");
    assert_eq!(p.env[2].1, "/v/bin:/bin");
    let own = bundle_plan("lock", "/r/Gemfile", "/r", "ruby", "/bin", Some("b"), &list(&[]));
    assert_eq!(own.program, "b");
    assert_eq!(own.args, list(&["lock"]));
    assert_eq!(own.env[2].1, ":/bin");
}

#[test]
fn projects() {
    let ruby = "/v/vendor/ruby-3.4.4/bin/ruby";
    let with = app("preload = \"a.rb\"");
    let without = app("");
    assert_eq!(project_root(&with, "/cwd"), "/app");
    assert_eq!(project_root(&None, "/cwd"), "/cwd");
    let own = app_runtime_dir(with.as_ref().unwrap(), ruby, "/run");
    assert_eq!(project_daemon_dir(&with, ruby, "/run"), own);
    assert_eq!(project_daemon_dir(&without, ruby, "/run"), "/run/ruby-3.4.4");
    assert_eq!(helper_path(Helper::Exec, "/run"), "/run/exec.rb");
    assert_eq!(helper_path(Helper::Task, "/run"), "/run/task.rb");
    assert_eq!(helper_path(Helper::Repl, "/run"), "/run/repl.rb");
    assert_eq!(helper_path(Helper::Serve, "/run"), "/run/serve.rb");
    assert_eq!(
        exec_refusal(&list(&[])).unwrap(),
        "calisto: exec needs a command: calisto exec <bin> [args...]"
    );
    assert!(exec_refusal(&list(&["rake"])).is_none());
    assert_eq!(ruby_description(b" ruby 3.4.10 \n").unwrap(), "ruby 3.4.10");
    assert!(ruby_description(b" \n").is_none());
}

#[test]
fn commands_are_named() {
    assert!(parse_command(&list(&[])) == Command::Nothing);
    assert!(parse_command(&list(&["run", "x"])) == Command::Run);
    assert!(parse_command(&list(&["test"])) == Command::Test);
    assert!(parse_command(&list(&["task"])) == Command::Task);
    assert!(parse_command(&list(&["serve"])) == Command::Serve);
    assert!(parse_command(&list(&["exec"])) == Command::Exec);
    assert!(parse_command(&list(&["repl"])) == Command::Repl);
    assert!(parse_command(&list(&["build"])) == Command::Build);
    assert!(parse_command(&list(&["init"])) == Command::Init);
    assert!(parse_command(&list(&["upgrade"])) == Command::Upgrade);
    assert!(parse_command(&list(&["completions"])) == Command::Completions);
    assert!(parse_command(&list(&["add"])) == Command::Add);
    assert!(parse_command(&list(&["remove"])) == Command::Remove);
    assert!(parse_command(&list(&["lock"])) == Command::Lock);
    assert!(parse_command(&list(&["daemon"])) == Command::Daemon);
    assert!(parse_command(&list(&["status"])) == Command::Status);
    assert!(parse_command(&list(&["stop"])) == Command::Stop);
    assert!(parse_command(&list(&["doctor"])) == Command::Doctor);
    assert!(parse_command(&list(&["--version"])) == Command::Version);
    assert!(parse_command(&list(&["-v"])) == Command::Version);
    assert!(parse_command(&list(&["help"])) == Command::Help);
    assert!(parse_command(&list(&["-h"])) == Command::Help);
    assert!(parse_command(&list(&["--help"])) == Command::Help);
    assert!(parse_command(&list(&["RUN"])) == Command::Unknown);
}
