//! `calisto add`, `remove` and `lock`: Bundler with the right Ruby.
use vstd::prelude::*;
use crate::commands::run::extend;
use crate::path;
use crate::path::parent;
use crate::protocol::request;
use crate::text;

verus! {

/// How Bundler is started.
pub struct BundlePlan {
    pub program: String,
    pub args: Vec<String>,
    pub cwd: String,
    /// The variables that are set.
    pub env: Vec<(String, String)>,
}

/// The search path with the directory of the Ruby in front.
pub open spec fn search_path(ruby: Seq<char>, path_var: Seq<char>) -> Seq<char> {
    (match path::parent_of(ruby) {
        Some(d) => d,
        None => "."@,
    }) + ":"@ + path_var
}

/// The directory in which Bundler runs: that of the Gemfile.
pub fn bundle_root(sub: &str, gemfile: Option<&str>) -> (r: Result<String, String>)
    ensures
        match gemfile {
            None => r matches Err(e) && e@ == "calisto: "@ + sub@
                + ": nenhum Gemfile encontrado (subindo do cwd); crie um Gemfile ou rode `bundle init`"@,
            Some(g) => match path::parent_of(g@) {
                None => r matches Err(e) && e@ == "calisto: "@ + sub@
                    + ": BUNDLE_GEMFILE invalido: "@ + g@,
                Some(root) => r matches Ok(d) && d@ == root,
            },
        },
{
    match gemfile {
        Some(g) => match parent(g) {
            Some(d) => Ok(d),
            None => {
                let mut m = "calisto: ".to_string();
                m.append(sub);
                m.append(": BUNDLE_GEMFILE invalido: ");
                m.append(g);
                Err(m)
            },
        },
        None => {
            let mut m = "calisto: ".to_string();
            m.append(sub);
            m.append(
                ": nenhum Gemfile encontrado (subindo do cwd); crie um Gemfile ou rode `bundle init`",
            );
            Err(m)
        },
    }
}

/// Plans how Bundler runs a subcommand: in the directory of the Gemfile, with
/// the Ruby that was chosen; a program that is named takes its place.
pub fn bundle_plan(
    sub: &str,
    gemfile: &str,
    root: &str,
    ruby: &str,
    path_var: &str,
    bundle: Option<&str>,
    args: &Vec<String>,
) -> (r: BundlePlan)
    ensures
        r.cwd@ == root@,
        r.program@ == (match bundle {
            Some(b) => b@,
            None => ruby@,
        }),
        text::views(r.args@) == (match bundle {
            Some(_) => seq![sub@],
            None => seq!["-S"@, "bundle"@, sub@],
        }) + text::views(args@),
        request::pair_views(r.env@) == seq![
            ("BUNDLE_GEMFILE"@, gemfile@),
            ("CALISTO_BUNDLE_RUBY"@, ruby@),
            ("PATH"@, search_path(ruby@, path_var@)),
        ],
{
    let mut search = match parent(ruby) {
        Some(d) => d,
        None => ".".to_string(),
    };
    search.append(":");
    search.append(path_var);
    let mut argv: Vec<String> = Vec::new();
    let program = match bundle {
        Some(b) => {
            argv.push(sub.to_string());
            assert(text::views(argv@) =~= seq![sub@]);
            b.to_string()
        },
        None => {
            argv.push("-S".to_string());
            argv.push("bundle".to_string());
            argv.push(sub.to_string());
            assert(text::views(argv@) =~= seq!["-S"@, "bundle"@, sub@]);
            ruby.to_string()
        },
    };
    extend(&mut argv, args);
    let ghost path_text = search@;
    let mut env: Vec<(String, String)> = Vec::new();
    env.push(("BUNDLE_GEMFILE".to_string(), gemfile.to_string()));
    env.push(("CALISTO_BUNDLE_RUBY".to_string(), ruby.to_string()));
    env.push(("PATH".to_string(), search));
    assert(request::pair_views(env@) =~= seq![
        ("BUNDLE_GEMFILE"@, gemfile@),
        ("CALISTO_BUNDLE_RUBY"@, ruby@),
        ("PATH"@, path_text),
    ]);
    BundlePlan { program, args: argv, cwd: root.to_string(), env }
}

/// The programs beside the chosen Ruby are found before all others, and all
/// others are still found.
pub proof fn law_search_path(dir: Seq<char>, path_var: Seq<char>)
    requires
        dir.len() > 0 && dir.last() != '/',
        path::tail_stripped(dir) == dir,
    ensures
        search_path(dir + seq!['/'] + "ruby"@, path_var) == dir + seq![':'] + path_var,
{
    reveal_strlit("ruby");
    reveal_strlit(":");
    assert(":"@ =~= seq![':']);
    path::lemma_parent_of_child(dir, "ruby"@);
}

} // verus!
