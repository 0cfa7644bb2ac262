use calisto::appconfig::{app_runtime_dir, parse_calisto_toml, AppConfig};
use calisto::runtime::{
    app_spawn_plan, current_runtime_dir, daemon_dir_for, gemfile_version, generic_spawn_plan,
    no_library_text, resolve_ruby, ruby_version_from_file, ruby_version_from_gemfile,
    ruby_version_of, runtime_dir, stop_step, uid, vendor_root, vendor_ruby, wait_step, GemfileRuby,
    RubyAsked, Spawned, StopStep, WaitStep, PINNED_RUBY, STOP_ATTEMPTS,
};

fn app(content: &str) -> AppConfig {
    parse_calisto_toml(content, "/app", |_p: &str| true).unwrap()
}

fn asked(over: Option<&str>, by_file: Option<&str>, by_gemfile: Option<&str>) -> RubyAsked {
    RubyAsked {
        override_ruby: over.map(|p| p.to_string()),
        version_file: by_file.map(|v| ("/a/.ruby-version".to_string(), Some(v.to_string()))),
        gemfile_version: by_gemfile.map(|v| v.to_string()),
    }
}

#[test]
fn user_number() {
    assert_eq!(uid("Name:\tx\nUid:\t1000\t1000\nGid:\t5\n"), 1000);
    assert_eq!(uid("Uid:\n"), 0);
    assert_eq!(uid("Uid: x\nUid: 3\n"), 0);
    assert_eq!(uid(""), 0);
}

#[test]
fn runtime_directories() {
    assert_eq!(runtime_dir(Some("/own"), Some("/xdg"), true, 7), "/own");
    assert_eq!(runtime_dir(None, Some("/xdg"), true, 7), "/xdg/calisto");
    assert_eq!(runtime_dir(None, Some("/xdg"), false, 7), "/tmp/calisto-7");
    assert_eq!(runtime_dir(None, None, true, 7), "/tmp/calisto-7");
}

#[test]
fn packages_are_found() {
    assert_eq!(vendor_root(Some("/home"), None, |_p: &str| false).unwrap(), "/home/vendor");
    let up = vendor_root(Some(""), Some("/r/target/debug/calisto"), |p: &str| p == "/r/vendor");
    assert_eq!(up.unwrap(), "/r/vendor");
    let here = vendor_root(None, Some("/r/calisto"), |p: &str| p == "vendor");
    assert_eq!(here.unwrap(), "vendor");
    assert!(vendor_root(None, Some("/r/calisto"), |_p: &str| false).is_none());
    let v = Some("/v/vendor".to_string());
    let found = vendor_ruby(&v, "3.4.4", |p: &str| p == "/v/vendor/ruby-3.4.4/bin/ruby");
    assert_eq!(found.unwrap(), "/v/vendor/ruby-3.4.4/bin/ruby");
    assert!(vendor_ruby(&v, "3.4.4", |_p: &str| false).is_none());
    assert!(vendor_ruby(&None, "3.4.4", |_p: &str| true).is_none());
}

#[test]
fn versions_in_files() {
    assert_eq!(ruby_version_from_file("3.4.4\n").unwrap(), "3.4.4");
    assert_eq!(ruby_version_from_file(" ruby-3.4.4 \nx").unwrap(), "3.4.4");
    assert_eq!(ruby_version_from_file("\n\n3.4.4\n").unwrap(), "3.4.4");
    assert!(ruby_version_from_file("").is_none());
    assert!(ruby_version_from_file("ruby-\n").is_none());
}

#[test]
fn versions_in_gemfiles() {
    let stated = |content: &str| match ruby_version_from_gemfile(content) {
        GemfileRuby::Version(v) => v,
        GemfileRuby::File(f) => format!("file {f}"),
        GemfileRuby::Unstated => "none".to_string(),
    };
    assert_eq!(stated("source \"x\"\nruby \"3.4.4\"\n"), "3.4.4");
    assert_eq!(stated("  ruby '3.4.4' # c\n"), "3.4.4");
    assert_eq!(stated("ruby file: \".ruby-version\"\n"), "file .ruby-version");
    assert_eq!(stated("gem \"x\"\n"), "none");
    assert_eq!(stated("ruby \"~> 3\"\nruby \"3.1\"\n"), "3.1");
    assert_eq!(stated("ruby version\n"), "none");
}

#[test]
fn versions_behind_gemfiles() {
    let read = |p: &str| match p {
        "/a/.ruby-version" => Some("ruby-3.4.4\n".to_string()),
        "/a/empty" => Some(String::new()),
        _ => None,
    };
    let version = |content: &str| gemfile_version("/a/Gemfile", content, read);
    assert_eq!(version("ruby \"3.2.1\"\n").unwrap(), "3.2.1");
    assert_eq!(version("ruby file: \".ruby-version\"\n").unwrap(), "3.4.4");
    assert!(version("ruby file: \"empty\"\n").is_none());
    assert!(version("ruby file: \"missing\"\n").is_none());
    assert!(version("gem \"x\"\n").is_none());
}

#[test]
fn rubies_are_chosen() {
    let vendor = Some("/v/vendor".to_string());
    let none = |_p: &str| false;
    let all = |_p: &str| true;
    let c = resolve_ruby(&vendor, &asked(None, None, None), none);
    assert_eq!(c.ruby.unwrap(), "ruby");
    assert!(c.fell_back);
    let c = resolve_ruby(&None, &asked(None, None, None), all);
    assert_eq!(c.ruby.unwrap(), "ruby");
    assert!(c.fell_back);
    let current = |p: &str| p == "/v/vendor/current/bin/ruby";
    let c = resolve_ruby(&vendor, &asked(None, None, None), current);
    assert_eq!(c.ruby.unwrap(), "/v/vendor/current/bin/ruby");
    assert!(!c.fell_back);
    let c = resolve_ruby(&vendor, &asked(None, None, None), all);
    assert_eq!(c.ruby.unwrap(), "/v/vendor/ruby-3.4.10/bin/ruby");
    let c = resolve_ruby(&vendor, &asked(None, None, Some("3.1")), all);
    assert_eq!(c.ruby.unwrap(), "/v/vendor/ruby-3.1/bin/ruby");
    let c = resolve_ruby(&vendor, &asked(None, Some("3.2"), Some("3.1")), all);
    assert_eq!(c.ruby.unwrap(), "/v/vendor/ruby-3.2/bin/ruby");
    let c = resolve_ruby(&vendor, &asked(Some("/own"), Some("3.2"), Some("3.1")), all);
    assert_eq!(c.ruby.unwrap(), "/own");
    assert!(!c.ignored_override);
    assert!(!c.fell_back);
}

#[test]
fn versions_that_are_missing() {
    let vendor = Some("/v/vendor".to_string());
    let others = |p: &str| p != "/own" && !p.starts_with("/v/vendor/ruby-3.2/");
    let c = resolve_ruby(&vendor, &asked(Some("/own"), Some("3.2"), Some("3.1")), others);
    assert_eq!(
        c.ruby.unwrap_err(),
        "calisto: ruby 3.2 pedido por /a/.ruby-version nao esta instalado (vendor/ruby-3.2 ausente); rode RUBY_VERSION=3.2 scripts/build-ruby.sh"
    );
    assert!(c.ignored_override);
    let c = resolve_ruby(&vendor, &asked(None, None, Some("3.2")), others);
    assert_eq!(
        c.ruby.unwrap_err(),
        "calisto: ruby 3.2 pedido pelo Gemfile nao esta instalado (vendor/ruby-3.2 ausente); rode RUBY_VERSION=3.2 scripts/build-ruby.sh"
    );
    let c = resolve_ruby(&None, &asked(None, Some("3.1"), None), |_p: &str| true);
    assert!(c.ruby.is_err());
    let mut a = asked(None, None, Some("3.1"));
    a.version_file = Some(("/a/.ruby-version".to_string(), None));
    let c = resolve_ruby(&vendor, &a, others);
    assert_eq!(c.ruby.unwrap(), "/v/vendor/ruby-3.1/bin/ruby");
}

#[test]
fn versions_of_rubies() {
    assert_eq!(ruby_version_of("/v/vendor/ruby-3.4.4/bin/ruby").unwrap(), "3.4.4");
    assert!(ruby_version_of("/v/vendor/ruby-3.4.10/bin/ruby").is_none());
    assert!(ruby_version_of("/v/vendor/current/bin/ruby").is_none());
    assert!(ruby_version_of("ruby").is_none());
    assert_eq!(ruby_version_of("vendor/ruby-3.4.4/bin/ruby").unwrap(), "3.4.4");
    assert!(ruby_version_of("/opt/ruby-3.3.0/bin/ruby").is_none());
    assert!(ruby_version_of("ruby-3.3.0/bin/ruby").is_none());
    assert_eq!(daemon_dir_for("/opt/ruby-3.3.0/bin/ruby", "/run"), "/run");
    assert_eq!(PINNED_RUBY, "3.4.10");
    assert_eq!(daemon_dir_for("/v/vendor/ruby-3.4.4/bin/ruby", "/run"), "/run/ruby-3.4.4");
    assert_eq!(daemon_dir_for("/v/vendor/ruby-3.4.5/bin/ruby", "/run"), "/run/ruby-3.4.5");
    assert_eq!(daemon_dir_for("/v/vendor/current/bin/ruby", "/run"), "/run");
}

#[test]
fn directories_of_current_daemons() {
    let ruby = "/v/vendor/ruby-3.4.4/bin/ruby";
    let a = app("preload = \"a.rb\"");
    let own = app_runtime_dir(&a, ruby, "/run");
    assert_eq!(current_runtime_dir(Some(ruby), Some(&Some(a)), "/run"), own);
    assert_eq!(current_runtime_dir(Some(ruby), Some(&None), "/run"), "/run/ruby-3.4.4");
    assert_eq!(current_runtime_dir(Some(ruby), None, "/run"), "/run/ruby-3.4.4");
    assert_eq!(current_runtime_dir(None, None, "/run"), "/run");
}

fn value(env: &[(String, String)], name: &str) -> Option<String> {
    env.iter().find(|(k, _)| k == name).map(|(_, v)| v.clone())
}

#[test]
fn daemons_are_started() {
    let p = generic_spawn_plan("/r", "/run", "json");
    assert_eq!(p.args, vec!["daemon".to_string(), "--internal".to_string()]);
    assert_eq!(value(&p.env, "CALISTO_EMBED_RUBY").unwrap(), "/r");
    assert_eq!(value(&p.env, "CALISTO_SOCKET").unwrap(), "/run/calisto.sock");
    assert_eq!(value(&p.env, "CALISTO_PIDFILE").unwrap(), "/run/calisto.pid");
    assert_eq!(value(&p.env, "CALISTO_PRELOAD").unwrap(), "json");
    assert_eq!(value(&p.env, "MALLOC_ARENA_MAX").unwrap(), "2");
    assert_eq!(value(&p.env, "CALISTO_COMPACT").unwrap(), "0");
    assert!(p.cwd.is_none());
    let a = app("preload = \"a.rb\"\nyjit = true\nwarmup = \"w.rb\"");
    let envs = vec![("RAILS_ENV".to_string(), "test".to_string())];
    let p = app_spawn_plan("/r", &a, "/run/apps/x", &envs, None, None, None).unwrap();
    assert_eq!(p.args.len(), 4);
    assert_eq!(p.args[2], "-rbundler/setup");
    assert_eq!(p.args[3], "--yjit");
    assert_eq!(value(&p.env, "CALISTO_PRELOAD").unwrap(), "");
    assert_eq!(value(&p.env, "CALISTO_COMPACT").unwrap(), "1");
    assert_eq!(value(&p.env, "CALISTO_APP_PRELOAD").unwrap(), "/app/a.rb");
    assert_eq!(value(&p.env, "CALISTO_APP_WARMUP").unwrap(), "/app/w.rb");
    assert_eq!(value(&p.env, "RAILS_ENV").unwrap(), "test");
    assert_eq!(p.cwd.unwrap(), "/app");
    let none: Vec<(String, String)> = Vec::new();
    let off = app_spawn_plan("/r", &a, "/d", &none, Some("0"), Some("0"), Some("none")).unwrap();
    assert_eq!(off.args.len(), 3);
    assert_eq!(value(&off.env, "CALISTO_COMPACT").unwrap(), "0");
    assert!(value(&off.env, "CALISTO_APP_WARMUP").is_none());
    assert!(app_spawn_plan("/r", &a, "/d", &none, Some("x"), None, None).is_err());
    assert!(app_spawn_plan("/r", &a, "/d", &none, None, Some("x"), None).is_err());
}

#[test]
fn rubies_without_a_library() {
    assert_eq!(
        no_library_text("/v/vendor/ruby-3.4.4/bin/ruby"),
        "/v/vendor/ruby-3.4.4/bin/ruby nao tem libruby.so (build pre --enable-shared); rode CALISTO_REBUILD=1 RUBY_VERSION=3.4.4 scripts/build-ruby.sh"
    );
    assert!(no_library_text("/v/vendor/current/bin/ruby").contains("RUBY_VERSION=3.4.10 "));
}

#[test]
fn waiting_for_a_daemon() {
    let gone = Spawned::Exited("exit status: 1".to_string());
    assert!(matches!(wait_step(true, &gone, true), WaitStep::Connected));
    match wait_step(false, &gone, false) {
        WaitStep::Failed(m) => assert_eq!(m, "daemon exited early (exit status: 1); see output above"),
        _ => panic!("not failed"),
    }
    match wait_step(false, &Spawned::Unknown("x".to_string()), false) {
        WaitStep::Failed(m) => assert_eq!(m, "waiting on daemon: x"),
        _ => panic!("not failed"),
    }
    assert!(matches!(wait_step(false, &Spawned::Running, false), WaitStep::Again));
    match wait_step(false, &Spawned::Running, true) {
        WaitStep::TimedOut(m) => assert_eq!(m, "timed out waiting for daemon socket"),
        _ => panic!("not late"),
    }
}

#[test]
fn stopping_a_daemon() {
    assert!(stop_step(1, false) == StopStep::Stopped);
    assert!(stop_step(1, true) == StopStep::Again);
    assert!(stop_step(STOP_ATTEMPTS, true) == StopStep::CleanUp);
    assert!(stop_step(STOP_ATTEMPTS, false) == StopStep::Stopped);
}
