//! `calisto init`, `upgrade` and `completions`.
use vstd::prelude::*;
use vstd::slice::slice_subrange;
use crate::appconfig;
use crate::path;
use crate::path::join_path;
use crate::protocol::request;
use crate::runtime;
use crate::runtime::{can_ask, PINNED_RUBY};
use crate::text;
use crate::text::{chars_of, enclosed, str_eq, string_of};

verus! {

/// The configuration of a new application.
pub const INIT_CALISTO_TOML: &'static str = "# calisto.toml — config da app calisto (subset minimo de TOML).
# Scripts rodam com `calisto run <nome>`; um arquivo com o mesmo nome sempre
# vence (ex.: `calisto run hello.rb` roda o arquivo, nao o script).
# Sem [run] preload o daemon e o generico (preload stdlib). Quando a app tiver
# um boot pesado (Rails etc.), adicione:
#   [run]
#   preload = \"config/environment.rb\"
# e o daemon da app congela o boot (cada comando roda como fork do boot).
[scripts]
start = \"./hello.rb\"
";

/// The program of a new application.
pub const INIT_HELLO_RB: &'static str = "#!/usr/bin/env ruby
# frozen_string_literal: true
# Ola do calisto! Edite este arquivo e rode `calisto run` (ou `calisto run
# hello.rb`) — o daemon quente roda no interpretador pre-carregado.
puts \"Hello from calisto!\"
";

/// What a new application keeps out of version control.
pub const INIT_GITIGNORE: &'static str = "/.bundle/
/vendor/bundle/
";

/// What the arguments of `init` say.
pub struct InitArgs {
    pub name: Option<String>,
    pub force: bool,
}

/// What the arguments of `init` say, where a name and `force` have been said
/// before them.
pub open spec fn read_init(args: Seq<Seq<char>>, name: Option<Seq<char>>, force: bool) -> Result<
    (Option<Seq<char>>, bool),
    Seq<char>,
>
    decreases args.len(),
{
    if args.len() == 0 {
        Ok((name, force))
    } else {
        let a = args[0];
        if a == "--force"@ || a == "-f"@ {
            read_init(args.skip(1), name, true)
        } else if a.len() > 0 && a[0] == '-' {
            Err("calisto: flag desconhecida '"@ + a + "' (calisto init [name] [--force])"@)
        } else if name is Some {
            Err("calisto: argumento inesperado '"@ + a + "'"@)
        } else {
            read_init(args.skip(1), Some(a), force)
        }
    }
}

/// Reads the arguments of `init`.
pub fn parse_init_args(args: &Vec<String>) -> (r: Result<InitArgs, String>)
    ensures
        match read_init(text::views(args@), None, false) {
            Ok((name, force)) => r matches Ok(x) && appconfig::opt_view(x.name) == name && x.force
                == force,
            Err(m) => r matches Err(e) && e@ == m,
        },
{
    let ghost all = text::views(args@);
    let mut name: Option<String> = None;
    let mut force = false;
    let mut i: usize = 0;
    assert(all.skip(0) =~= all);
    while i < args.len()
        invariant
            i <= args@.len(),
            all == text::views(args@),
            read_init(all.skip(i as int), appconfig::opt_view(name), force) == read_init(
                all,
                None,
                false,
            ),
        decreases args@.len() - i,
    {
        let ghost left = all.skip(i as int);
        assert(left[0] == args@[i as int]@);
        assert(left.skip(1) =~= all.skip(i + 1));
        let a = args[i].as_str();
        let c = chars_of(a);
        if str_eq(a, "--force") || str_eq(a, "-f") {
            force = true;
        } else if c.len() > 0 && c[0] == '-' {
            return Err(
                enclosed("calisto: flag desconhecida '", a, "' (calisto init [name] [--force])"),
            );
        } else if name.is_some() {
            return Err(enclosed("calisto: argumento inesperado '", a, "'"));
        } else {
            name = Some(args[i].clone());
        }
        i += 1;
    }
    Ok(InitArgs { name, force })
}

/// The directory of a new application: the one that is named, or the current
/// one. A file cannot be it.
pub fn init_target(name: &Option<String>, is_file: bool) -> (r: Result<String, String>)
    ensures
        match name {
            Some(n) => if is_file {
                r matches Err(e) && e@ == "calisto: init: '"@ + n@
                    + "' e um arquivo, nao um diretorio"@
            } else {
                r matches Ok(d) && d@ == n@
            },
            None => r matches Ok(d) && d@ == "."@,
        },
{
    match name {
        Some(n) => if is_file {
            Err(enclosed("calisto: init: '", n.as_str(), "' e um arquivo, nao um diretorio"))
        } else {
            Ok(n.clone())
        },
        None => Ok(".".to_string()),
    }
}

/// A file of a new application.
pub struct InitFile {
    /// Its name in the directory of the application.
    pub name: String,
    pub content: String,
    pub executable: bool,
}

/// A file of a new application, as texts.
pub struct Scaffold {
    pub name: Seq<char>,
    pub content: Seq<char>,
    pub executable: bool,
}

impl View for InitFile {
    type V = Scaffold;

    open spec fn view(&self) -> Scaffold {
        Scaffold { name: self.name@, content: self.content@, executable: self.executable }
    }
}

/// The files of a list, as texts.
pub open spec fn file_views(list: Seq<InitFile>) -> Seq<Scaffold> {
    Seq::new(list.len(), |i: int| list[i]@)
}

/// The files of a new application, in the order in which they are written.
pub open spec fn scaffold() -> Seq<Scaffold> {
    seq![
        Scaffold { name: "calisto.toml"@, content: INIT_CALISTO_TOML@, executable: false },
        Scaffold { name: "hello.rb"@, content: INIT_HELLO_RB@, executable: true },
        Scaffold { name: ".gitignore"@, content: INIT_GITIGNORE@, executable: false },
    ]
}

fn init_file(name: &str, content: &str, executable: bool) -> (r: InitFile)
    ensures
        r@ == (Scaffold { name: name@, content: content@, executable }),
{
    InitFile { name: name.to_string(), content: content.to_string(), executable }
}

/// The files of a new application, in the order in which they are written.
pub fn init_files() -> (r: Vec<InitFile>)
    ensures
        file_views(r@) == scaffold(),
{
    let mut r: Vec<InitFile> = Vec::new();
    r.push(init_file("calisto.toml", INIT_CALISTO_TOML, false));
    r.push(init_file("hello.rb", INIT_HELLO_RB, true));
    r.push(init_file(".gitignore", INIT_GITIGNORE, false));
    assert(file_views(r@) =~= scaffold());
    r
}

/// Where a file of a new application is written, or why it is not: it exists,
/// and nothing is overwritten unless that is asked for.
pub open spec fn written_to(target: Seq<char>, name: Seq<char>, found: bool, force: bool) -> Result<
    Seq<char>,
    Seq<char>,
> {
    let p = path::joined_path(target, name);
    if found && !force {
        Err("calisto: init: "@ + p + " ja existe (use --force para sobrescrever)"@)
    } else {
        Ok(p)
    }
}

/// Says where a file of a new application is to be looked for.
pub fn init_path(target: &str, file: &InitFile) -> (r: String)
    ensures
        r@ == path::joined_path(target@, file.name@),
{
    join_path(target, file.name.as_str())
}

/// Decides whether a file of a new application is written, and where, once it
/// is known whether it exists.
pub fn init_step(target: &str, file: &InitFile, found: bool, force: bool) -> (r: Result<
    String,
    String,
>)
    ensures
        match written_to(target@, file.name@, found, force) {
            Ok(p) => r matches Ok(x) && x@ == p,
            Err(m) => r matches Err(e) && e@ == m,
        },
{
    let p = init_path(target, file);
    if found && !force {
        Err(
            enclosed("calisto: init: ", p.as_str(), " ja existe (use --force para sobrescrever)"),
        )
    } else {
        Ok(p)
    }
}

/// The files on disk after the files of an application were written one after
/// the other, and why that ended early, if it did. Each one is looked for
/// right before it is written.
pub open spec fn after_init(
    disk: Map<Seq<char>, Seq<char>>,
    target: Seq<char>,
    files: Seq<Scaffold>,
    force: bool,
) -> (Map<Seq<char>, Seq<char>>, Option<Seq<char>>)
    decreases files.len(),
{
    if files.len() == 0 {
        (disk, None)
    } else {
        let f = files[0];
        match written_to(
            target,
            f.name,
            disk.contains_key(path::joined_path(target, f.name)),
            force,
        ) {
            Ok(p) => after_init(disk.insert(p, f.content), target, files.skip(1), force),
            Err(m) => (disk, Some(m)),
        }
    }
}

/// Whether a path is one of the files.
pub open spec fn is_among(target: Seq<char>, files: Seq<Scaffold>, p: Seq<char>) -> bool {
    exists|i: int|
        0 <= i < files.len() && p == path::joined_path(target, (#[trigger] files[i]).name)
}

proof fn lemma_init_keeps(
    disk: Map<Seq<char>, Seq<char>>,
    target: Seq<char>,
    files: Seq<Scaffold>,
)
    ensures
        ({
            let (after, refused) = after_init(disk, target, files, false);
            &&& forall|p: Seq<char>| #[trigger]
                disk.contains_key(p) ==> after.contains_key(p) && after[p] == disk[p]
            &&& forall|p: Seq<char>| #[trigger]
                after.contains_key(p) ==> disk.contains_key(p) || is_among(target, files, p)
            &&& (exists|p: Seq<char>| #[trigger]
                disk.contains_key(p) && is_among(target, files, p)) ==> refused is Some
        }),
    decreases files.len(),
{
    if files.len() > 0 {
        let f = files[0];
        let rest = files.skip(1);
        let first = path::joined_path(target, f.name);
        let (after, refused) = after_init(disk, target, files, false);
        if !disk.contains_key(first) {
            let next = disk.insert(first, f.content);
            lemma_init_keeps(next, target, rest);
            assert forall|p: Seq<char>| #[trigger] disk.contains_key(p) implies after.contains_key(p)
                && after[p] == disk[p] by {
                assert(next.contains_key(p));
            }
            assert forall|p: Seq<char>| #[trigger] after.contains_key(p) implies disk.contains_key(
                p,
            ) || is_among(target, files, p) by {
                if next.contains_key(p) {
                    if p == first {
                        assert(p == path::joined_path(target, files[0].name));
                    }
                } else {
                    let i = choose|i: int|
                        0 <= i < rest.len() && p == path::joined_path(
                            target,
                            (#[trigger] rest[i]).name,
                        );
                    assert(files[i + 1] == rest[i]);
                }
            }
            if exists|p: Seq<char>| #[trigger] disk.contains_key(p) && is_among(target, files, p) {
                let p = choose|p: Seq<char>| #[trigger]
                    disk.contains_key(p) && is_among(target, files, p);
                let i = choose|i: int|
                    0 <= i < files.len() && p == path::joined_path(
                        target,
                        (#[trigger] files[i]).name,
                    );
                assert(i > 0);
                assert(rest[i - 1] == files[i]);
                assert(next.contains_key(p) && is_among(target, rest, p));
            }
        }
    }
}

/// Without force nothing is overwritten: whenever `init` ends, after any number
/// of its files, every file that was there keeps its content, what is new is one
/// of its files, and where one of all its files was there, it is refused.
pub proof fn law_init_keeps(disk: Map<Seq<char>, Seq<char>>, target: Seq<char>, n: int)
    requires
        0 <= n <= scaffold().len(),
    ensures
        ({
            let (after, refused) = after_init(disk, target, scaffold().take(n), false);
            &&& forall|p: Seq<char>| #[trigger]
                disk.contains_key(p) ==> after.contains_key(p) && after[p] == disk[p]
            &&& forall|p: Seq<char>| #[trigger]
                after.contains_key(p) ==> disk.contains_key(p) || is_among(target, scaffold(), p)
            &&& n == scaffold().len() && (exists|p: Seq<char>| #[trigger]
                disk.contains_key(p) && is_among(target, scaffold(), p)) ==> refused is Some
        }),
{
    let all = scaffold();
    let files = all.take(n);
    lemma_init_keeps(disk, target, files);
    if n == all.len() {
        assert(files =~= all);
    }
    let (after, refused) = after_init(disk, target, files, false);
    assert forall|p: Seq<char>| #[trigger] after.contains_key(p) implies disk.contains_key(p)
        || is_among(target, all, p) by {
        if !disk.contains_key(p) {
            let i = choose|i: int|
                0 <= i < files.len() && p == path::joined_path(target, (#[trigger] files[i]).name);
            assert(all[i] == files[i]);
        }
    }
}

/// With force, or where none of its files is there, `init` writes them all and
/// nothing else.
pub proof fn law_init_makes_all(
    disk: Map<Seq<char>, Seq<char>>,
    target: Seq<char>,
    force: bool,
)
    requires
        force || forall|p: Seq<char>| #[trigger]
            disk.contains_key(p) ==> !is_among(target, scaffold(), p),
    ensures
        ({
            let (after, refused) = after_init(disk, target, scaffold(), force);
            let in_target = |name: Seq<char>| path::joined_path(target, name);
            &&& refused is None
            &&& after == disk.insert(in_target("calisto.toml"@), INIT_CALISTO_TOML@).insert(
                in_target("hello.rb"@),
                INIT_HELLO_RB@,
            ).insert(in_target(".gitignore"@), INIT_GITIGNORE@)
            &&& forall|i: int|
                0 <= i < scaffold().len() ==> {
                    let f = #[trigger] scaffold()[i];
                    &&& after.contains_key(in_target(f.name))
                    &&& after[in_target(f.name)] == f.content
                }
        }),
{
    let all = scaffold();
    reveal_strlit("calisto.toml");
    reveal_strlit("hello.rb");
    reveal_strlit(".gitignore");
    let p0 = path::joined_path(target, all[0].name);
    let p1 = path::joined_path(target, all[1].name);
    let p2 = path::joined_path(target, all[2].name);
    assert(p0 != p1 && p1 != p2 && p0 != p2) by {
        let n = p0.len() - all[0].name.len();
        assert(p0[n] == 'c' && p1[n] == 'h' && p2[n] == '.');
    }
    if !force {
        assert(is_among(target, all, p0) && is_among(target, all, p1) && is_among(target, all, p2));
    }
    reveal_with_fuel(after_init, 4);
    assert(all.skip(1)[0] == all[1]);
    assert(all.skip(1).skip(1)[0] == all[2]);
    assert(all.skip(1).skip(1).skip(1).len() == 0);
}

/// What is said after an application was made.
pub fn init_done(name: &Option<String>) -> (r: (String, String))
    ensures
        ({
            let rel = match appconfig::opt_view(*name) {
                Some(n) => "./"@ + n,
                None => "."@,
            };
            &&& r.0@ == "Initialized calisto app in "@ + rel
            &&& r.1@ == "next: cd "@ + rel + " && calisto run"@
        }),
{
    let rel = match name {
        Some(n) => {
            let mut s = "./".to_string();
            s.append(n.as_str());
            s
        },
        None => ".".to_string(),
    };
    let mut first = "Initialized calisto app in ".to_string();
    first.append(rel.as_str());
    (first, enclosed("next: cd ", rel.as_str(), " && calisto run"))
}

/// Whether the checksum of a version is known.
pub open spec fn is_known(v: Seq<char>) -> bool {
    v == "3.4.10"@ || v == "3.4.4"@
}

/// What the arguments of `upgrade` say.
pub struct UpgradeArgs {
    pub source_only: bool,
    pub version: Option<String>,
}

/// What the arguments of `upgrade` say, where the rest has been said before
/// them. The version, where there is one, has to be a known one.
pub open spec fn read_upgrade(
    args: Seq<Seq<char>>,
    source_only: bool,
    version: Option<Seq<char>>,
) -> Result<(bool, Option<Seq<char>>), Seq<char>>
    decreases args.len(),
{
    if args.len() == 0 {
        match version {
            Some(v) => if is_known(v) {
                Ok((source_only, version))
            } else {
                Err(unknown_version(v))
            },
            None => Ok((source_only, version)),
        }
    } else {
        let a = args[0];
        if a == "--source"@ {
            read_upgrade(args.skip(1), true, version)
        } else if a.len() > 0 && a[0] == '-' {
            Err("calisto: upgrade: flag desconhecida '"@ + a + "'"@)
        } else if version is Some {
            Err(
                "calisto: upgrade precisa de no maximo um argumento: calisto upgrade [version] [--source]"@,
            )
        } else {
            read_upgrade(args.skip(1), source_only, Some(a))
        }
    }
}

/// What is said of a version without a known checksum.
pub open spec fn unknown_version(v: Seq<char>) -> Seq<char> {
    "calisto: upgrade: versao "@ + v
        + " sem sha256 conhecido (3.4.10/3.4.4); rode RUBY_SHA256=<sha> scripts/build-ruby.sh manualmente"@
}

/// Reads the arguments of `upgrade`.
pub fn parse_upgrade_args(args: &Vec<String>) -> (r: Result<UpgradeArgs, String>)
    ensures
        match read_upgrade(text::views(args@), false, None) {
            Ok((source_only, version)) => r matches Ok(x) && x.source_only == source_only
                && appconfig::opt_view(x.version) == version,
            Err(m) => r matches Err(e) && e@ == m,
        },
{
    let ghost all = text::views(args@);
    let mut source_only = false;
    let mut version: Option<String> = None;
    let mut i: usize = 0;
    assert(all.skip(0) =~= all);
    while i < args.len()
        invariant
            i <= args@.len(),
            all == text::views(args@),
            read_upgrade(all.skip(i as int), source_only, appconfig::opt_view(version))
                == read_upgrade(all, false, None),
        decreases args@.len() - i,
    {
        let ghost left = all.skip(i as int);
        assert(left[0] == args@[i as int]@);
        assert(left.skip(1) =~= all.skip(i + 1));
        let a = args[i].as_str();
        let c = chars_of(a);
        if str_eq(a, "--source") {
            source_only = true;
        } else if c.len() > 0 && c[0] == '-' {
            return Err(enclosed("calisto: upgrade: flag desconhecida '", a, "'"));
        } else if version.is_some() {
            return Err(
                "calisto: upgrade precisa de no maximo um argumento: calisto upgrade [version] [--source]".to_string(),
            );
        } else {
            version = Some(args[i].clone());
        }
        i += 1;
    }
    match &version {
        Some(v) => {
            if !(str_eq(v.as_str(), "3.4.10") || str_eq(v.as_str(), "3.4.4")) {
                let mut m = "calisto: upgrade: versao ".to_string();
                m.append(v.as_str());
                m.append(
                    " sem sha256 conhecido (3.4.10/3.4.4); rode RUBY_SHA256=<sha> scripts/build-ruby.sh manualmente",
                );
                return Err(m);
            }
        },
        None => {},
    }
    Ok(UpgradeArgs { source_only, version })
}

/// What `upgrade` does.
pub enum UpgradeStep {
    /// Build with this script.
    Build(String),
    /// Download a Ruby that was built before.
    Download,
    /// Nothing, and why.
    Refuse(String),
}

/// The script that builds a Ruby: the one that is named, or the one beside the
/// directory of the packaged Rubies.
pub open spec fn build_script(named: Option<Seq<char>>, vendor: Option<Seq<char>>) -> Option<
    Seq<char>,
> {
    match (named, vendor) {
        (Some(s), _) => Some(s),
        (None, Some(v)) => Some(path::joined_path(v, "../scripts/build-ruby.sh"@)),
        (None, None) => None,
    }
}

/// Why `upgrade` is refused where the script is missing: the build was asked
/// for, or the script was named. Otherwise it downloads.
pub open spec fn without_script(
    source_only: bool,
    named: Option<Seq<char>>,
    script: Option<Seq<char>>,
) -> Option<Seq<char>> {
    if source_only {
        Some(
            "calisto: upgrade: --source pediu o build, mas "@ + (match script {
                Some(s) => s,
                None => "<sem vendor>"@,
            }) + " nao existe (instalacao portatil; use upgrade sem --source para baixar)"@,
        )
    } else {
        match named {
            Some(s) => Some(
                "calisto: upgrade: "@ + s
                    + " nao encontrado (rode scripts/build-ruby.sh manualmente)"@,
            ),
            None => None,
        }
    }
}

/// Decides what `upgrade` does: it builds where there is a script.
pub fn upgrade_step<F: Fn(&str) -> bool>(
    source_only: bool,
    named: &Option<String>,
    vendor: &Option<String>,
    is_file: F,
) -> (r: UpgradeStep)
    requires
        can_ask(is_file),
    ensures
        ({
            let own = appconfig::opt_view(*named);
            let script = build_script(own, appconfig::opt_view(*vendor));
            let missing = script matches Some(s) ==> runtime::told(is_file, s, false);
            match r {
                UpgradeStep::Build(s) => script == Some(s@) && runtime::told(is_file, s@, true),
                UpgradeStep::Refuse(m) => missing && without_script(source_only, own, script)
                    == Some(m@),
                UpgradeStep::Download => missing && without_script(source_only, own, script) is None,
            }
        }),
{
    let script = match (named, vendor) {
        (Some(s), _) => Some(s.clone()),
        (None, Some(v)) => Some(join_path(v.as_str(), "../scripts/build-ruby.sh")),
        (None, None) => None,
    };
    let shown = match script {
        Some(s) => {
            if is_file(s.as_str()) {
                return UpgradeStep::Build(s);
            }
            s
        },
        None => "<sem vendor>".to_string(),
    };
    if source_only {
        UpgradeStep::Refuse(
            enclosed(
                "calisto: upgrade: --source pediu o build, mas ",
                shown.as_str(),
                " nao existe (instalacao portatil; use upgrade sem --source para baixar)",
            ),
        )
    } else if named.is_some() {
        UpgradeStep::Refuse(
            enclosed(
                "calisto: upgrade: ",
                shown.as_str(),
                " nao encontrado (rode scripts/build-ruby.sh manualmente)",
            ),
        )
    } else {
        UpgradeStep::Download
    }
}

/// What the script is told: the version, where one is asked for.
pub fn build_env(version: &Option<String>) -> (r: Vec<(String, String)>)
    ensures
        request::pair_views(r@) == (match appconfig::opt_view(*version) {
            Some(v) => seq![("RUBY_VERSION"@, v)],
            None => seq![],
        }),
{
    let mut r: Vec<(String, String)> = Vec::new();
    match version {
        Some(v) => {
            r.push(("RUBY_VERSION".to_string(), v.clone()));
            assert(request::pair_views(r@) =~= seq![("RUBY_VERSION"@, v@)]);
        },
        None => {
            assert(request::pair_views(r@) =~= seq![]);
        },
    }
    r
}

/// Where packages are downloaded from: the place that is named, or the release
/// of this version of the program.
pub fn download_base(named: &Option<String>, version: &str) -> (r: String)
    ensures
        r@ == (match appconfig::opt_view(*named) {
            Some(base) => base,
            None => "https://github.com/felipebrgs1/ruby-rust/releases/download/v"@ + version@,
        }),
{
    match named {
        Some(base) => base.clone(),
        None => {
            let mut r = "https://github.com/felipebrgs1/ruby-rust/releases/download/v".to_string();
            r.append(version);
            r
        },
    }
}

/// What is downloaded.
pub struct DownloadPlan {
    pub version: String,
    /// Where the package is.
    pub url: String,
    /// Where its checksum is.
    pub sha_url: String,
    /// The name of the package.
    pub name: String,
    /// The name of the file with its checksum.
    pub sha_name: String,
}

/// Where the package of a version is.
pub open spec fn package_url(base: Seq<char>, version: Seq<char>) -> Seq<char> {
    base + "/calisto-ruby-"@ + version + "-linux-x86_64.tar.gz"@
}

/// Plans the download of a version, or of the pinned one. The name of the
/// package is what follows the last slash of its address, since its checksum
/// refers to it by that name.
pub fn download_plan(version: Option<&str>, base: &str) -> (r: DownloadPlan)
    ensures
        ({
            let v = match version {
                Some(v) => v@,
                None => PINNED_RUBY@,
            };
            let url = package_url(base@, v);
            let name = url.skip(path::last_start(url));
            &&& r.version@ == v
            &&& r.url@ == url
            &&& r.sha_url@ == url + ".sha256"@
            &&& r.name@ == name
            &&& r.sha_name@ == name + ".sha256"@
        }),
{
    let v = match version {
        Some(v) => v.to_string(),
        None => PINNED_RUBY.to_string(),
    };
    let mut url = base.to_string();
    url.append("/calisto-ruby-");
    url.append(v.as_str());
    url.append("-linux-x86_64.tar.gz");
    let chars = chars_of(url.as_str());
    let k: usize = path::start_of_last(chars.as_slice());
    let last = slice_subrange(chars.as_slice(), k, chars.len());
    assert(last@ =~= url@.skip(k as int));
    let name = string_of(last);
    let mut sha_url = url.clone();
    sha_url.append(".sha256");
    let mut sha_name = name.clone();
    sha_name.append(".sha256");
    DownloadPlan { version: v, url, sha_url, name, sha_name }
}

/// The name of the package of a version without a slash does not depend on
/// where it is.
pub proof fn law_package_name(base: Seq<char>, version: Seq<char>)
    requires
        !version.contains('/'),
    ensures
        ({
            let url = package_url(base, version);
            url.skip(path::last_start(url)) == "calisto-ruby-"@ + version
                + "-linux-x86_64.tar.gz"@
        }),
{
    reveal_strlit("/calisto-ruby-");
    reveal_strlit("calisto-ruby-");
    reveal_strlit("-linux-x86_64.tar.gz");
    let url = package_url(base, version);
    let name = "calisto-ruby-"@ + version + "-linux-x86_64.tar.gz"@;
    let head = base + seq!['/'];
    assert("/calisto-ruby-"@ =~= seq!['/'] + "calisto-ruby-"@);
    assert(url =~= head + name);
    assert(!name.contains('/')) by {
        if name.contains('/') {
            let i = choose|i: int| 0 <= i < name.len() && name[i] == '/';
            let a = "calisto-ruby-"@;
            let c = "-linux-x86_64.tar.gz"@;
            if i < a.len() {
                assert(name[i] == a[i]);
            } else if i < a.len() + version.len() {
                assert(name[i] == version[i - a.len()]);
            } else {
                assert(name[i] == c[i - a.len() - version.len()]);
            }
        }
    }
    path::lemma_last_start_is(head, name);
    assert(url.skip(head.len() as int) =~= name);
}

/// What is done next to install a Ruby that was built before.
pub enum Stage {
    /// The package is fetched.
    Fetch,
    /// Its checksum is fetched.
    FetchSum,
    /// The package is held against its checksum.
    Check,
    /// The package is unpacked.
    Unpack,
    /// Nothing, and the status of exit with what is said.
    Finished(i32, String),
}

/// How a stage went.
pub enum Outcome {
    Done,
    Failed,
    /// Its program could not be run, and why.
    NotRun(String),
}

/// The stage that follows one that is not the last: a package is unpacked only
/// after it was found to agree with its checksum. What `NotRun` says is told
/// only of the program that unpacks.
pub fn next_stage(stage: &Stage, outcome: &Outcome, plan: &DownloadPlan, vendor: &str) -> (r: Stage)
    requires
        !(stage is Finished),
    ensures
        r is Unpack <==> stage is Check && outcome is Done,
        match (stage, outcome) {
            (Stage::Fetch, Outcome::Done) => r is FetchSum,
            (Stage::FetchSum, Outcome::Done) => r is Check,
            (Stage::Check, Outcome::Done) => r is Unpack,
            (Stage::Unpack, Outcome::Done) => r matches Stage::Finished(code, m) && code == 0 && m@
                == "calisto: upgrade: ruby "@ + plan.version@ + " instalado em "@
                + path::joined_path(vendor@, "ruby-"@ + plan.version@),
            (Stage::Unpack, Outcome::Failed) => r matches Stage::Finished(code, m) && code == 1
                && m@ == "calisto: upgrade: extracao do tarball falhou"@,
            (Stage::Unpack, Outcome::NotRun(e)) => r matches Stage::Finished(code, m) && code == 1
                && m@ == "calisto: upgrade: cannot run tar: "@ + e@,
            (Stage::Check, _) => r matches Stage::Finished(code, m) && code == 1 && m@
                == "calisto: upgrade: sha256 do download nao confere (abortando)"@,
            (_, _) => r matches Stage::Finished(code, m) && code == 1 && m@
                == "calisto: upgrade: download falhou ("@ + plan.url@ + "; verifique a rede)"@,
        },
{
    match (stage, outcome) {
        (Stage::Fetch, Outcome::Done) => Stage::FetchSum,
        (Stage::FetchSum, Outcome::Done) => Stage::Check,
        (Stage::Check, Outcome::Done) => Stage::Unpack,
        (Stage::Unpack, Outcome::Done) => {
            let mut dir = "ruby-".to_string();
            dir.append(plan.version.as_str());
            let place = join_path(vendor, dir.as_str());
            let mut m = "calisto: upgrade: ruby ".to_string();
            m.append(plan.version.as_str());
            m.append(" instalado em ");
            m.append(place.as_str());
            Stage::Finished(0, m)
        },
        (Stage::Unpack, Outcome::Failed) => Stage::Finished(
            1,
            "calisto: upgrade: extracao do tarball falhou".to_string(),
        ),
        (Stage::Unpack, Outcome::NotRun(e)) => {
            let mut m = "calisto: upgrade: cannot run tar: ".to_string();
            m.append(e.as_str());
            Stage::Finished(1, m)
        },
        (Stage::Check, _) => Stage::Finished(
            1,
            "calisto: upgrade: sha256 do download nao confere (abortando)".to_string(),
        ),
        (_, _) => Stage::Finished(
            1,
            enclosed("calisto: upgrade: download falhou (", plan.url.as_str(), "; verifique a rede)"),
        ),
    }
}

/// A shell for which there are completions.
#[derive(PartialEq, Eq, Structural)]
pub enum Shell {
    Bash,
    Zsh,
}

/// Reads the argument of `completions`.
pub fn parse_completions_args(args: &Vec<String>) -> (r: Result<Shell, String>)
    ensures
        if args@.len() != 1 {
            r matches Err(e) && e@ == "calisto: uso: calisto completions <bash|zsh>"@
        } else if args@[0]@ == "bash"@ {
            r == Ok::<Shell, String>(Shell::Bash)
        } else if args@[0]@ == "zsh"@ {
            r == Ok::<Shell, String>(Shell::Zsh)
        } else {
            r matches Err(e) && e@ == "calisto: completions: shell desconhecido '"@ + args@[0]@
                + "' (bash|zsh)"@
        },
{
    if args.len() != 1 {
        return Err("calisto: uso: calisto completions <bash|zsh>".to_string());
    }
    let a = args[0].as_str();
    if str_eq(a, "bash") {
        proof {
            reveal_strlit("bash");
            reveal_strlit("zsh");
        }
        Ok(Shell::Bash)
    } else if str_eq(a, "zsh") {
        Ok(Shell::Zsh)
    } else {
        Err(enclosed("calisto: completions: shell desconhecido '", a, "' (bash|zsh)"))
    }
}

/// The completions for bash.
pub const BASH_COMPLETION: &'static str = r#"# bash completion for calisto
# Instale com: calisto completions bash > /etc/bash_completion.d/calisto
_calisto() {
    local cur
    cur="${COMP_WORDS[COMP_CWORD]}"
    local commands="run test task serve exec repl build init upgrade completions add remove lock status stop doctor help"
    if (( COMP_CWORD == 1 )); then
        COMPREPLY=( $(compgen -W "${commands}" -- "${cur}") )
        return 0
    fi
    case "${COMP_WORDS[1]}" in
        run)
            if [[ "${cur}" == -* ]]; then
                COMPREPLY=( $(compgen -W "--cold --time --preload -e --eval" -- "${cur}") )
            else
                COMPREPLY=( $(compgen -f -X '!*.rb' -- "${cur}") )
            fi
            ;;
        test)
            if [[ "${cur}" == -* ]]; then
                COMPREPLY=( $(compgen -W "--watch" -- "${cur}") )
            else
                COMPREPLY=( $(compgen -f -- "${cur}") )
            fi
            ;;
        serve)
            [[ "${cur}" == -* ]] && COMPREPLY=( $(compgen -W "-p --port -o --host" -- "${cur}") )
            ;;
        build)
            if [[ "${cur}" == -* ]]; then
                COMPREPLY=( $(compgen -W "--compile -o --out --root" -- "${cur}") )
            else
                COMPREPLY=( $(compgen -f -X '!*.rb' -- "${cur}") )
            fi
            ;;
        init)
            if [[ "${cur}" == -* ]]; then
                COMPREPLY=( $(compgen -W "--force -f" -- "${cur}") )
            else
                COMPREPLY=( $(compgen -d -- "${cur}") )
            fi
            ;;
        upgrade)
            COMPREPLY=( $(compgen -W "3.4.10 3.4.4" -- "${cur}") )
            ;;
        completions)
            COMPREPLY=( $(compgen -W "bash zsh" -- "${cur}") )
            ;;
    esac
}
complete -F _calisto calisto
"#;

/// The completions for zsh.
pub const ZSH_COMPLETION: &'static str = r#"#compdef calisto
# zsh completion for calisto
# Instale com: calisto completions zsh > ~/.zfunc/_calisto
_calisto() {
    local -a commands
    commands=(
        'run:executa script/script do calisto.toml no daemon quente'
        'test:roda a suite (minitest/rspec) no daemon quente'
        'task:rake no daemon quente'
        'serve:sobe a Rack app do config.ru'
        'exec:binario de uma gem no contexto da app'
        'repl:IRB no contexto da app'
        'build:empacota a app num arquivo unico'
        'init:scaffold de app (calisto.toml + hello.rb)'
        'upgrade:rebuild do pin / build de versao'
        'completions:gera completions (bash/zsh)'
        'add:adiciona gem ao Gemfile (bundle add)'
        'remove:remove gem do Gemfile (bundle remove)'
        'lock:atualiza o Gemfile.lock (bundle lock)'
        'status:estado do daemon'
        'stop:para o daemon'
        'doctor:diagnostico do ambiente'
        'help:ajuda'
    )
    if (( CURRENT == 2 )); then
        _describe 'command' commands
        return
    fi
    case "${words[2]}" in
        run)
            if [[ "$PREFIX" == -* ]]; then
                _arguments '--cold' '--time' '--preload[lista de stdlib]' '-e[codigo inline]' '--eval' '*:arquivo:_files -g "*.rb"'
            else
                _files -g '*.rb'
            fi
            ;;
        test) _arguments '--watch[re-roda ao salvar]' '*:arquivo:_files' ;;
        serve) _arguments '-p[porta]' '--port[porta]' '-o[host]' '--host[host]' ;;
        build) _arguments '--compile[embute gems pure-Ruby]' '-o[saida]' '--out[saida]' '--root[raiz do projeto]' '*:arquivo:_files -g "*.rb"' ;;
        init) _arguments '--force[sobrescreve arquivos]' '-f[sobrescreve arquivos]' '*:diretorio:_files -/' ;;
        upgrade) _values 'versao' 3.4.10 3.4.4 ;;
        completions) _values 'shell' bash zsh ;;
    esac
}
compdef _calisto calisto
"#;

/// The completions for a shell.
pub fn completions_text(shell: Shell) -> (r: &'static str)
    ensures
        r@ == (match shell {
            Shell::Bash => BASH_COMPLETION@,
            Shell::Zsh => ZSH_COMPLETION@,
        }),
{
    match shell {
        Shell::Bash => BASH_COMPLETION,
        Shell::Zsh => ZSH_COMPLETION,
    }
}

/// The arguments of `init`: `--force` and `-f` ask to overwrite, wherever they
/// stand, one name is taken, and a second one and an unknown flag are refused.
pub proof fn law_init_args(
    v: Seq<char>,
    rest: Seq<Seq<char>>,
    name: Option<Seq<char>>,
    force: bool,
)
    ensures
        read_init(seq!["--force"@] + rest, name, force) == read_init(rest, name, true),
        read_init(seq!["-f"@] + rest, name, force) == read_init(rest, name, true),
        v.len() == 0 || v[0] != '-' ==> read_init(seq![v] + rest, name, force) == (if name is None {
            read_init(rest, Some(v), force)
        } else {
            Err("calisto: argumento inesperado '"@ + v + "'"@)
        }),
        v.len() > 0 && v[0] == '-' && v != "--force"@ && v != "-f"@ ==> read_init(
            seq![v] + rest,
            name,
            force,
        ) is Err,
        read_init(Seq::empty(), name, force) == Ok::<(Option<Seq<char>>, bool), Seq<char>>(
            (name, force),
        ),
{
    reveal_strlit("--force");
    reveal_strlit("-f");
    assert("--force"@[0] == '-' && "-f"@[0] == '-');
    assert((seq!["--force"@] + rest).skip(1) =~= rest);
    assert((seq!["-f"@] + rest).skip(1) =~= rest);
    assert((seq![v] + rest).skip(1) =~= rest);
    assert((seq![v] + rest)[0] == v);
}

/// The arguments of `upgrade`: `--source` asks to build, one version is taken,
/// which has to be one whose checksum is known, and a second one and an unknown
/// flag are refused.
pub proof fn law_upgrade_args(
    v: Seq<char>,
    rest: Seq<Seq<char>>,
    source_only: bool,
    version: Option<Seq<char>>,
)
    ensures
        read_upgrade(seq!["--source"@] + rest, source_only, version) == read_upgrade(
            rest,
            true,
            version,
        ),
        v.len() == 0 || v[0] != '-' ==> (version is None ==> read_upgrade(
            seq![v] + rest,
            source_only,
            version,
        ) == read_upgrade(rest, source_only, Some(v))),
        v.len() == 0 || v[0] != '-' ==> (version is Some ==> read_upgrade(
            seq![v] + rest,
            source_only,
            version,
        ) is Err),
        v.len() > 0 && v[0] == '-' && v != "--source"@ ==> read_upgrade(
            seq![v] + rest,
            source_only,
            version,
        ) is Err,
        version is None || version == Some("3.4.10"@) || version == Some("3.4.4"@) ==> read_upgrade(
            Seq::empty(),
            source_only,
            version,
        ) == Ok::<(bool, Option<Seq<char>>), Seq<char>>((source_only, version)),
        version matches Some(x) ==> (x != "3.4.10"@ && x != "3.4.4"@ ==> read_upgrade(
            Seq::empty(),
            source_only,
            version,
        ) is Err),
{
    reveal_strlit("--source");
    assert("--source"@[0] == '-');
    assert((seq!["--source"@] + rest).skip(1) =~= rest);
    assert((seq![v] + rest).skip(1) =~= rest);
    assert((seq![v] + rest)[0] == v);
}

/// The script that is named is the one that builds; otherwise it stands beside
/// the packaged Rubies.
pub proof fn law_build_script(named: Seq<char>, vendor: Seq<char>, other: Option<Seq<char>>)
    requires
        vendor.len() > 0 && vendor.last() != '/',
    ensures
        build_script(Some(named), other) == Some(named),
        build_script(None, Some(vendor)) == Some(vendor + "/../scripts/build-ruby.sh"@),
        build_script(None, None) is None,
{
    reveal_strlit("../scripts/build-ruby.sh");
    reveal_strlit("/../scripts/build-ruby.sh");
    assert(path::joined_path(vendor, "../scripts/build-ruby.sh"@) =~= vendor
        + "/../scripts/build-ruby.sh"@);
}

/// Without its script an upgrade is refused exactly where the build was asked
/// for or the script was named; otherwise it downloads.
pub proof fn law_upgrade_without_script(
    source_only: bool,
    named: Option<Seq<char>>,
    script: Option<Seq<char>>,
)
    ensures
        without_script(source_only, named, script) is None <==> !source_only && named is None,
{
}

} // verus!
