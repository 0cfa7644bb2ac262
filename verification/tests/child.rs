use calisto::child::{
    apply_run_encoding, apply_run_verbose, child_plan, ruby_str_literal, ChildStep, Verbose,
};
use calisto::commands::flags::RunFlags;

fn flags() -> RunFlags {
    RunFlags::default()
}

#[test]
fn literals() {
    assert_eq!(ruby_str_literal("a\"b\\c\nd\re\tf"), "\"a\\\"b\\\\c\\nd\\re\\tf\"");
    assert_eq!(ruby_str_literal(""), "\"\"");
    assert_eq!(ruby_str_literal("olá"), "\"olá\"");
}

#[test]
fn levels_of_warnings() {
    assert!(apply_run_verbose(Some(-1)) == Some(Verbose::True));
    assert!(apply_run_verbose(Some(2)) == Some(Verbose::True));
    assert!(apply_run_verbose(Some(1)) == Some(Verbose::False));
    assert!(apply_run_verbose(Some(0)) == Some(Verbose::Nil));
    assert!(apply_run_verbose(Some(3)) == None);
    assert!(apply_run_verbose(None) == None);
}

#[test]
fn encodings() {
    assert_eq!(
        apply_run_encoding("UTF-8"),
        "Encoding.default_external = Encoding.find(\"UTF-8\")"
    );
    assert_eq!(
        apply_run_encoding("UTF-8:BINARY"),
        "Encoding.default_external = Encoding.find(\"UTF-8\")\nEncoding.default_internal = Encoding.find(\"BINARY\")"
    );
}

fn shown(steps: &[ChildStep]) -> Vec<String> {
    let mut out: Vec<String> = Vec::new();
    for s in steps {
        out.push(match s {
            ChildStep::SetVerbose(_) => "verbose".to_string(),
            ChildStep::SetEncoding(_) => "encoding".to_string(),
            ChildStep::CheckSyntax => "check".to_string(),
            ChildStep::Load(l) => format!("load {l}"),
            ChildStep::TakeLoadPath => "path".to_string(),
            ChildStep::PutInFront(d) => format!("front {d}"),
            ChildStep::NameProgram(n) => format!("name {n}"),
            ChildStep::SyncStreams => "sync".to_string(),
            ChildStep::OpenData => "data".to_string(),
            ChildStep::EvalCode => "eval".to_string(),
            ChildStep::LoadFile => "file".to_string(),
        });
    }
    out
}

#[test]
fn plans_of_children() {
    let plain = child_plan(false, "a.rb", true, &flags());
    assert_eq!(
        shown(&plain),
        vec!["load bundler/setup", "path", "name a.rb", "sync", "data", "file"]
    );
    let missing = child_plan(false, "a.rb", false, &flags());
    assert_eq!(
        shown(&missing),
        vec!["load bundler/setup", "path", "name a.rb", "sync", "file"]
    );
    let eval = child_plan(true, "puts 1", true, &flags());
    assert_eq!(shown(&eval), vec!["load bundler/setup", "path", "name -e", "sync", "eval"]);
    let mut f = flags();
    f.verbose = Some(2);
    f.encoding = Some("UTF-8".to_string());
    f.load_paths = vec!["a".to_string(), "b".to_string()];
    f.libs = vec!["json".to_string()];
    assert_eq!(
        shown(&child_plan(true, "x", false, &f)),
        vec![
            "verbose",
            "encoding",
            "load bundler/setup",
            "path",
            "front b",
            "front a",
            "load json",
            "name -e",
            "sync",
            "eval"
        ]
    );
    f.syntax_check = true;
    assert_eq!(shown(&child_plan(true, "x", false, &f)), vec!["verbose", "encoding", "check"]);
}
