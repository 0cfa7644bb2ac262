use calisto::appconfig::{
    app_compact, app_daemon, app_runtime_dir, app_runtime_dir_for, app_test_runtime_dir,
    app_warmup, app_yjit, find_in_parents_from, fnv1a, has_gemfile_from, normalize_preload,
    parse_calisto_toml, parse_dotenv, run_preload, split_command, AppConfig, DEFAULT_PRELOAD,
};
use calisto::commands::tooling::INIT_CALISTO_TOML;

fn config(content: &str) -> Result<AppConfig, String> {
    parse_calisto_toml(content, "/app", |_p: &str| true)
}

fn words(list: &[&str]) -> Vec<String> {
    list.iter().map(|w| w.to_string()).collect()
}

#[test]
fn preload_can_be_switched_off() {
    assert_eq!(normalize_preload("0"), "");
    assert_eq!(normalize_preload("none"), "");
    assert_eq!(normalize_preload("json"), "json");
    assert_eq!(normalize_preload(""), "");
    assert_eq!(normalize_preload(&normalize_preload("json,set")), "json,set");
}

#[test]
fn files_are_found_in_parents() {
    let found = find_in_parents_from("/a/b/c", "Gemfile", |p: &str| p == "/a/Gemfile");
    assert_eq!(found.unwrap(), "/a/Gemfile");
    let nearest = find_in_parents_from("/a/b", "Gemfile", |p: &str| {
        p == "/a/Gemfile" || p == "/a/b/Gemfile"
    });
    assert_eq!(nearest.unwrap(), "/a/b/Gemfile");
    assert!(find_in_parents_from("/a/b", "Gemfile", |_p: &str| false).is_none());
    let top = find_in_parents_from("/a", "Gemfile", |p: &str| p == "/Gemfile");
    assert_eq!(top.unwrap(), "/Gemfile");
}

#[test]
fn gemfiles_are_seen() {
    assert!(has_gemfile_from("/a", true, |_p: &str| false));
    assert!(has_gemfile_from("/a/b", false, |p: &str| p == "/a/Gemfile"));
    assert!(has_gemfile_from("/a/b", false, |p: &str| p == "/gems.rb"));
    assert!(!has_gemfile_from("/a/b", false, |_p: &str| false));
}

#[test]
fn whole_configuration() {
    let c = config(
        "# comment\npreload = \"config/environment.rb\" # entry\n\n[run]\ncompact = true\nyjit = \"false\"\nwarmup=\"warm.rb\"\r\n[scripts]\nstart = \"./hello.rb\"\ndev = \"bin/rails server\"\n",
    )
    .unwrap();
    assert_eq!(c.root, "/app");
    assert_eq!(c.preload.unwrap(), "/app/config/environment.rb");
    assert_eq!(c.compact, Some(true));
    assert_eq!(c.yjit, Some(false));
    assert_eq!(c.warmup.unwrap(), "/app/warm.rb");
    assert_eq!(
        c.scripts,
        vec![
            ("start".to_string(), "./hello.rb".to_string()),
            ("dev".to_string(), "bin/rails server".to_string()),
        ]
    );
}

#[test]
fn empty_configuration() {
    let c = config("").unwrap();
    assert!(c.preload.is_none());
    assert!(c.compact.is_none());
    assert!(c.yjit.is_none());
    assert!(c.warmup.is_none());
    assert!(c.scripts.is_empty());
}

#[test]
fn later_settings_win() {
    let c = config("preload = \"a.rb\"\npreload = \"/b.rb\"\n").unwrap();
    assert_eq!(c.preload.unwrap(), "/b.rb");
}

#[test]
fn wrong_configurations() {
    let cases: &[(&str, &str)] = &[
        ("[other]\n", "calisto.toml:1: secao desconhecida 'other'"),
        ("\njunk here # x\n", "calisto.toml:2: linha invalida: junk here # x"),
        ("preload = a.rb\n", "calisto.toml:1: preload precisa ser \"valor\""),
        ("preload = \"\"\n", "calisto.toml:1: preload vazio"),
        ("warmup = \"\"\n", "calisto.toml:1: warmup vazio"),
        (
            "[scripts]\ncompact = true\n",
            "calisto.toml:2: compact precisa ser \"valor\"",
        ),
        (
            "compact = 1\n",
            "calisto.toml:1: compact precisa ser true/false (achei '1')",
        ),
        (
            "yjit = \"on\"\n",
            "calisto.toml:1: yjit precisa ser true/false (achei 'on')",
        ),
        (
            "dev = \"x\"\n",
            "calisto.toml:1: chave desconhecida 'dev' (scripts vao na secao [scripts])",
        ),
    ];
    for &(content, expected) in cases {
        assert_eq!(config(content).unwrap_err(), expected);
    }
}

#[test]
fn missing_files_of_a_configuration() {
    let none = parse_calisto_toml("preload = \"a.rb\"\n", "/app", |_p: &str| false);
    assert_eq!(none.unwrap_err(), "calisto.toml: preload '/app/a.rb' nao existe");
    let warm = parse_calisto_toml("warmup = \"w.rb\"\n", "/app", |_p: &str| false);
    assert_eq!(warm.unwrap_err(), "calisto.toml: warmup '/app/w.rb' nao existe");
}

#[test]
fn new_applications_have_a_start_script() {
    let c = config(INIT_CALISTO_TOML).unwrap();
    assert!(c.preload.is_none());
    assert_eq!(c.script_command("start").unwrap().unwrap(), words(&["./hello.rb"]));
}

#[test]
fn commands_are_split() {
    assert_eq!(split_command("a b  c").unwrap(), words(&["a", "b", "c"]));
    assert_eq!(split_command(" 'a b' \"c 'd'\" e'f'").unwrap(), words(&["a b", "c 'd'", "ef"]));
    assert_eq!(split_command("").unwrap(), words(&[]));
    assert_eq!(split_command("''").unwrap(), words(&[]));
    assert_eq!(
        split_command("a 'b").unwrap_err(),
        "calisto.toml: aspas ''' nao fechadas em \"a 'b\""
    );
}

#[test]
fn scripts_are_looked_up() {
    let c = config("[scripts]\na = \"x y\"\na = \"z\"\nb = \" \"\nc = \"'\"\n").unwrap();
    assert_eq!(c.script_command("a").unwrap().unwrap(), words(&["x", "y"]));
    assert!(c.script_command("none").unwrap().is_none());
    assert_eq!(
        c.script_command("b").unwrap_err(),
        "calisto.toml: script 'b' sem comando"
    );
    assert!(c.script_command("c").is_err());
}

#[test]
fn settings_are_overridden() {
    let plain = config("").unwrap();
    let full = config("preload = \"a.rb\"\nyjit = true\nwarmup = \"w.rb\"\n").unwrap();
    assert_eq!(app_compact(&plain, None), Ok(false));
    assert_eq!(app_compact(&full, None), Ok(true));
    assert_eq!(app_compact(&full, Some("0")), Ok(false));
    assert_eq!(app_compact(&plain, Some("true")), Ok(true));
    assert_eq!(
        app_compact(&plain, Some("x")).unwrap_err(),
        "CALISTO_COMPACT deve ser 0/1/true/false (achei 'x')"
    );
    assert_eq!(app_yjit(&plain, None), Ok(false));
    assert_eq!(app_yjit(&full, None), Ok(true));
    assert_eq!(app_yjit(&full, Some("false")), Ok(false));
    assert_eq!(
        app_yjit(&plain, Some("")).unwrap_err(),
        "CALISTO_YJIT deve ser 0/1/true/false (achei '')"
    );
    assert_eq!(app_warmup(&plain, None), Ok(None));
    assert_eq!(app_warmup(&full, None), Ok(Some("/app/w.rb".to_string())));
    assert_eq!(app_warmup(&full, Some("none")), Ok(None));
    assert_eq!(app_warmup(&full, Some("x.rb")), Ok(Some("x.rb".to_string())));
}

#[test]
fn applications_with_a_daemon() {
    assert!(app_daemon(&None).is_none());
    assert!(app_daemon(&Some(config("").unwrap())).is_none());
    assert!(app_daemon(&Some(config("preload = \"a.rb\"").unwrap())).is_some());
}

#[test]
fn preload_of_a_run() {
    let app = Some(config("preload = \"a.rb\"").unwrap());
    assert_eq!(run_preload(&app, false, Some("json")), "");
    assert_eq!(run_preload(&None, true, Some("json")), "");
    assert_eq!(run_preload(&None, false, Some("json")), "json");
    assert_eq!(run_preload(&None, false, Some("none")), "");
    assert_eq!(run_preload(&None, false, None), DEFAULT_PRELOAD);
}

#[test]
fn fnv_vectors() {
    assert_eq!(fnv1a(""), 0xcbf29ce484222325);
    assert_eq!(fnv1a("a"), 0xaf63dc4c8601ec8c);
    assert_eq!(fnv1a("foobar"), 0x85944171f73967e8);
}

#[test]
fn daemons_of_applications_are_apart() {
    let a = config("preload = \"a.rb\"").unwrap();
    let b = config("preload = \"b.rb\"").unwrap();
    let pinned = "/v/vendor/ruby-3.4.10/bin/ruby";
    let other = "/v/vendor/ruby-3.4.4/bin/ruby";
    let key = fnv1a("/app\0/app/a.rb\0");
    assert_eq!(app_runtime_dir(&a, pinned, "/run"), format!("/run/apps/{:016x}", key));
    let versioned = fnv1a("/app\0/app/a.rb\0\x003.4.4");
    assert_eq!(app_runtime_dir(&a, other, "/run"), format!("/run/apps/{:016x}", versioned));
    let test = fnv1a("/app\0/app/a.rb\0test");
    assert_eq!(app_test_runtime_dir(&a, pinned, "/run"), format!("/run/apps/{:016x}", test));
    assert_ne!(app_runtime_dir(&a, pinned, "/run"), app_runtime_dir(&b, pinned, "/run"));
    assert_ne!(app_runtime_dir(&a, pinned, "/run"), app_runtime_dir_for(&a, "x", pinned, "/run"));
}

#[test]
fn switches_keep_the_daemon() {
    let plain = config("preload = \"a.rb\"").unwrap();
    let switched =
        config("preload = \"a.rb\"\nyjit = true\ncompact = false\n[scripts]\nx = \"y\"").unwrap();
    let ruby = "/v/vendor/ruby-3.4.4/bin/ruby";
    assert_eq!(app_runtime_dir(&plain, ruby, "/run"), app_runtime_dir(&switched, ruby, "/run"));
}

#[test]
fn dotenv_is_read() {
    let content = "# c\nA=1\nexport B = \"two words\"\nC='x'\nD=\n=no\njunk\nE=\"\nA=2\nHOME=/x\n";
    let defined = words(&["HOME"]);
    let pairs = parse_dotenv(content, &defined);
    let expected: Vec<(String, String)> = vec![
        ("A".to_string(), "1".to_string()),
        ("B".to_string(), "two words".to_string()),
        ("C".to_string(), "x".to_string()),
        ("D".to_string(), "".to_string()),
        ("E".to_string(), "\"".to_string()),
    ];
    assert_eq!(pairs, expected);
}
