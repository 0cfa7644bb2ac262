//! `calisto build`: a program in a single file.
use vstd::prelude::*;
use crate::appconfig;
use crate::number;
use crate::number::{decimal_of, parse_usize, signed_decimal_of};
use crate::path;
use crate::path::parent;
use crate::text;
use crate::text::{chars_of, enclosed, lines, str_eq, strip_prefix, trim};

verus! {

/// What the arguments of the command say.
pub struct BuildArgs {
    pub out: String,
    pub root: Option<String>,
    pub entry: Option<String>,
    pub compile: bool,
}

/// What the arguments say, as contracts see it.
#[verifier::ext_equal]
pub struct Args {
    pub out: Seq<char>,
    pub root: Option<Seq<char>>,
    pub entry: Option<Seq<char>>,
    pub compile: bool,
}

impl View for BuildArgs {
    type V = Args;

    open spec fn view(&self) -> Args {
        Args {
            out: self.out@,
            root: appconfig::opt_view(self.root),
            entry: appconfig::opt_view(self.entry),
            compile: self.compile,
        }
    }
}

/// What the arguments say, where `a` has been said before them. An entry point
/// has to be among them.
pub open spec fn read_args(args: Seq<Seq<char>>, a: Args) -> Result<Args, Seq<char>>
    decreases args.len(),
{
    if args.len() == 0 {
        if a.entry is None {
            Err(
                "calisto: build precisa de um entrypoint: calisto build app.rb [-o out.rb]"@,
            )
        } else {
            Ok(a)
        }
    } else {
        let f = args[0];
        if f == "-o"@ || f == "--out"@ {
            if args.len() < 2 {
                Err("calisto: -o precisa de um valor"@)
            } else {
                read_args(args.skip(2), Args { out: args[1], ..a })
            }
        } else if f == "--root"@ {
            if args.len() < 2 {
                Err("calisto: --root precisa de um valor"@)
            } else {
                read_args(args.skip(2), Args { root: Some(args[1]), ..a })
            }
        } else if f == "--compile"@ {
            read_args(args.skip(1), Args { compile: true, ..a })
        } else if f.len() > 0 && f[0] == '-' {
            Err("calisto: flag desconhecida '"@ + f + "'"@)
        } else if a.entry is None {
            read_args(args.skip(1), Args { entry: Some(f), ..a })
        } else {
            Err("calisto: argumento inesperado '"@ + f + "'"@)
        }
    }
}

/// What is said before the first argument.
pub open spec fn no_args() -> Args {
    Args { out: "bundle.rb"@, root: None, entry: None, compile: false }
}

/// Reads the arguments of the command.
pub fn parse_build_args(args: &Vec<String>) -> (r: Result<BuildArgs, String>)
    ensures
        match read_args(text::views(args@), no_args()) {
            Ok(a) => r matches Ok(x) && x@ == a && x.entry is Some,
            Err(m) => r matches Err(e) && e@ == m,
        },
{
    let ghost all = text::views(args@);
    let mut a = BuildArgs {
        out: "bundle.rb".to_string(),
        root: None,
        entry: None,
        compile: false,
    };
    let mut i: usize = 0;
    assert(all.skip(0) =~= all);
    while i < args.len()
        invariant
            i <= args@.len(),
            all == text::views(args@),
            read_args(all.skip(i as int), a@) == read_args(all, no_args()),
        decreases args@.len() - i,
    {
        let ghost left = all.skip(i as int);
        assert(left[0] == args@[i as int]@);
        assert(left.skip(1) =~= all.skip(i + 1));
        assert(left.len() >= 2 ==> left.skip(2) =~= all.skip(i + 2));
        let f = args[i].as_str();
        let c = chars_of(f);
        if str_eq(f, "-o") || str_eq(f, "--out") {
            if args.len() - i < 2 {
                return Err("calisto: -o precisa de um valor".to_string());
            }
            i += 1;
            assert(left[1] == args@[i as int]@);
            a.out = args[i].clone();
        } else if str_eq(f, "--root") {
            if args.len() - i < 2 {
                return Err("calisto: --root precisa de um valor".to_string());
            }
            i += 1;
            assert(left[1] == args@[i as int]@);
            a.root = Some(args[i].clone());
        } else if str_eq(f, "--compile") {
            a.compile = true;
        } else if c.len() > 0 && c[0] == '-' {
            return Err(enclosed("calisto: flag desconhecida '", f, "'"));
        } else if a.entry.is_none() {
            a.entry = Some(args[i].clone());
        } else {
            return Err(enclosed("calisto: argumento inesperado '", f, "'"));
        }
        i += 1;
    }
    if a.entry.is_none() {
        return Err(
            "calisto: build precisa de um entrypoint: calisto build app.rb [-o out.rb]".to_string(),
        );
    }
    Ok(a)
}

/// The file from which a bundle is made; there has to be one.
pub fn build_entry(entry: &Option<String>, is_file: bool) -> (r: Result<String, String>)
    ensures
        match entry {
            None => r matches Err(m) && m@
                == "calisto: build precisa de um entrypoint: calisto build app.rb [-o out.rb]"@,
            Some(p) => if is_file {
                r matches Ok(x) && x@ == p@
            } else {
                r matches Err(m) && m@ == "calisto: cannot open "@ + p@ + ": no such file"@
            },
        },
{
    match entry {
        None => Err(
            "calisto: build precisa de um entrypoint: calisto build app.rb [-o out.rb]".to_string(),
        ),
        Some(p) => if is_file {
            Ok(p.clone())
        } else {
            let mut m = "calisto: cannot open ".to_string();
            m.append(p.as_str());
            m.append(": no such file");
            Err(m)
        },
    }
}

/// The root of the project: the one that is named, or the directory of the
/// entry point.
pub fn build_root(root: &Option<String>, entry: &str) -> (r: String)
    ensures
        r@ == (match appconfig::opt_view(*root) {
            Some(d) => d,
            None => match path::parent_of(entry@) {
                Some(d) => d,
                None => "."@,
            },
        }),
{
    match root {
        Some(d) => d.clone(),
        None => match parent(entry) {
            Some(d) => d,
            None => ".".to_string(),
        },
    }
}

/// What a bundler reports.
#[derive(PartialEq, Eq, Structural)]
pub struct BundleStats {
    /// The number of files in the bundle.
    pub files: usize,
}

/// The arguments with which the bundler is started.
pub fn bundler_args(script: &str, entry: &str, out: &str, root: &str, compile: bool) -> (r: Vec<
    String,
>)
    ensures
        text::views(r@) == seq![script@, entry@, out@, root@] + (if compile {
            seq!["--compile"@]
        } else {
            seq![]
        }),
{
    let mut r: Vec<String> = Vec::new();
    r.push(script.to_string());
    r.push(entry.to_string());
    r.push(out.to_string());
    r.push(root.to_string());
    let ghost first = seq![script@, entry@, out@, root@];
    assert(text::views(r@) =~= first);
    if compile {
        r.push("--compile".to_string());
        assert(text::views(r@) =~= first + seq!["--compile"@]);
    } else {
        assert(text::views(r@) =~= first + seq![]);
    }
    r
}

/// The first line that reports a number of files, without the words in front.
pub open spec fn bundled_in(lines: Seq<Seq<char>>) -> Option<Seq<char>>
    decreases lines.len(),
{
    if lines.len() == 0 {
        None
    } else if text::has_prefix(lines[0], "BUNDLED "@) {
        Some(lines[0].skip("BUNDLED "@.len() as int))
    } else {
        bundled_in(lines.skip(1))
    }
}

/// The number of files that the output of a bundler reports.
pub open spec fn file_count(out: Seq<char>) -> Option<nat> {
    match bundled_in(text::lines_of(out)) {
        None => None,
        Some(n) => number::unsigned(text::trimmed(n), usize::MAX as int),
    }
}

/// How the exit code of a bundler that has failed is shown.
pub open spec fn code_text(code: Option<i32>) -> Seq<char> {
    match code {
        Some(n) => "Some("@ + number::signed_decimal(n as int) + ")"@,
        None => "None"@,
    }
}

/// Reads what a bundler has reported, given whether it has succeeded.
pub fn bundle_result(success: bool, code: Option<i32>, stdout: &str) -> (r: Result<
    BundleStats,
    String,
>)
    ensures
        if !success {
            r matches Err(e) && e@ == "bundler falhou (exit "@ + code_text(code) + ")"@
        } else {
            match file_count(stdout@) {
                Some(n) => r matches Ok(s) && s.files == n,
                None => r matches Err(e) && e@ == "saida inesperada do bundler: "@ + stdout@,
            }
        },
{
    if !success {
        let mut m = "bundler falhou (exit ".to_string();
        let shown = match code {
            Some(n) => enclosed("Some(", signed_decimal_of(n as i64).as_str(), ")"),
            None => "None".to_string(),
        };
        m.append(shown.as_str());
        m.append(")");
        return Err(m);
    }
    let chars = chars_of(stdout);
    let all = lines(chars.as_slice());
    let ghost texts = text::slice_views(all@);
    let mut i: usize = 0;
    assert(texts.skip(0) =~= texts);
    while i < all.len()
        invariant
            i <= all@.len(),
            success,
            texts == text::slice_views(all@),
            texts == text::lines_of(stdout@),
            bundled_in(texts.skip(i as int)) == bundled_in(texts),
        decreases all@.len() - i,
    {
        assert(texts.skip(i as int)[0] == all@[i as int]@);
        assert(texts.skip(i as int).skip(1) =~= texts.skip(i + 1));
        match strip_prefix(all[i], "BUNDLED ") {
            Some(n) => {
                return match parse_usize(trim(n)) {
                    Some(files) => Ok(BundleStats { files }),
                    None => Err(unexpected(stdout)),
                };
            },
            None => {},
        }
        i += 1;
    }
    Err(unexpected(stdout))
}

fn unexpected(stdout: &str) -> (r: String)
    ensures
        r@ == "saida inesperada do bundler: "@ + stdout@,
{
    let mut m = "saida inesperada do bundler: ".to_string();
    m.append(stdout);
    m
}

/// What is said after a bundle was written.
pub fn bundled_text(stats: &BundleStats, out: &str) -> (r: String)
    ensures
        r@ == "calisto: bundled "@ + number::decimal(stats.files as nat) + " arquivo(s) -> "@
            + out@,
{
    let mut r = "calisto: bundled ".to_string();
    r.append(decimal_of(stats.files as u64).as_str());
    r.append(" arquivo(s) -> ");
    r.append(out);
    r
}

/// The arguments of a build: the output behind `-o` or `--out`, the root behind
/// `--root`, whether libraries are taken in, and the one entry point; a second
/// one and an unknown flag are refused.
pub proof fn law_build_args(v: Seq<char>, rest: Seq<Seq<char>>, a: Args)
    ensures
        read_args(seq!["-o"@, v] + rest, a) == read_args(rest, Args { out: v, ..a }),
        read_args(seq!["--out"@, v] + rest, a) == read_args(rest, Args { out: v, ..a }),
        read_args(seq!["--root"@, v] + rest, a) == read_args(rest, Args { root: Some(v), ..a }),
        read_args(seq!["--compile"@] + rest, a) == read_args(rest, Args { compile: true, ..a }),
        read_args(seq!["-o"@], a) is Err,
        read_args(seq!["--out"@], a) is Err,
        read_args(seq!["--root"@], a) is Err,
        v.len() == 0 || v[0] != '-' ==> read_args(seq![v] + rest, a) == (if a.entry is None {
            read_args(rest, Args { entry: Some(v), ..a })
        } else {
            Err("calisto: argumento inesperado '"@ + v + "'"@)
        }),
        v.len() > 0 && v[0] == '-' && v != "-o"@ && v != "--out"@ && v != "--root"@ && v
            != "--compile"@ ==> read_args(seq![v] + rest, a) is Err,
        read_args(Seq::empty(), a) is Ok <==> a.entry is Some,
        a.entry is Some ==> read_args(Seq::empty(), a) == Ok::<Args, Seq<char>>(a),
{
    reveal_strlit("-o");
    reveal_strlit("--out");
    reveal_strlit("--root");
    reveal_strlit("--compile");
    assert("-o"@[0] == '-' && "--out"@[0] == '-' && "--root"@[0] == '-' && "--compile"@[0] == '-');
    assert("-o"@.len() == 2 && "--out"@.len() == 5 && "--root"@.len() == 6 && "--compile"@.len()
        == 9);
    assert((seq!["-o"@, v] + rest).skip(2) =~= rest);
    assert((seq!["--out"@, v] + rest).skip(2) =~= rest);
    assert((seq!["--root"@, v] + rest).skip(2) =~= rest);
    assert((seq!["--compile"@] + rest).skip(1) =~= rest);
    assert((seq![v] + rest).skip(1) =~= rest);
    assert((seq!["-o"@, v] + rest)[1] == v);
    assert((seq!["--out"@, v] + rest)[1] == v);
    assert((seq!["--root"@, v] + rest)[1] == v);
    assert((seq![v] + rest)[0] == v);
}

/// The number of files is the one behind `BUNDLED`, on the first line that
/// begins so.
pub proof fn law_bundled_line(front: Seq<Seq<char>>, n: nat, rest: Seq<Seq<char>>)
    requires
        forall|i: int| 0 <= i < front.len() ==> !text::has_prefix(#[trigger] front[i], "BUNDLED "@),
    ensures
        bundled_in(front + seq!["BUNDLED "@ + number::decimal(n)] + rest) == Some(number::decimal(n)),
        bundled_in(front) is None,
        n <= usize::MAX ==> number::unsigned(text::trimmed(number::decimal(n)), usize::MAX as int)
            == Some(n),
    decreases front.len(),
{
    let d = number::decimal(n);
    let line = "BUNDLED "@ + d;
    let all = front + seq![line] + rest;
    reveal_strlit("BUNDLED ");
    number::lemma_decimal_reads_back(n, if n <= usize::MAX { usize::MAX as int } else { n as int });
    let nothing = Seq::<char>::empty();
    assert(number::is_digit(d[0]) && number::is_digit(d[d.len() - 1]));
    text::law_trimmed(nothing, d, nothing);
    assert(nothing + d + nothing =~= d);
    if front.len() == 0 {
        assert(all[0] == line);
        assert(line.take(8) =~= "BUNDLED "@);
        assert(line.skip(8) =~= d);
    } else {
        let less = front.skip(1);
        assert forall|i: int| 0 <= i < less.len() implies !text::has_prefix(
            #[trigger] less[i],
            "BUNDLED "@,
        ) by {
            assert(less[i] == front[i + 1]);
        }
        law_bundled_line(less, n, rest);
        assert(all[0] == front[0]);
        assert(all.skip(1) =~= less + seq![line] + rest);
    }
}

/// What a bundler that has done its work says is read from its output.
pub proof fn law_bundled_output(n: nat, rest: Seq<char>)
    requires
        n <= usize::MAX,
    ensures
        file_count("BUNDLED "@ + number::decimal(n) + seq!['\n'] + rest) == Some(n),
{
    reveal_strlit("BUNDLED ");
    let d = number::decimal(n);
    let line = "BUNDLED "@ + d;
    number::lemma_decimal_reads_back(n, usize::MAX as int);
    assert(number::is_digit(d[0]) && number::is_digit(d[d.len() - 1]));
    assert(!line.contains('\n')) by {
        if line.contains('\n') {
            let i = choose|i: int| 0 <= i < line.len() && line[i] == '\n';
            if i >= 8 {
                assert(number::is_digit(d[i - 8]));
            }
        }
    }
    assert(line.last() == d[d.len() - 1]);
    text::law_lines(line, rest);
    let none = Seq::<Seq<char>>::empty();
    law_bundled_line(none, n, text::lines_of(rest));
    assert(none + seq![line] + text::lines_of(rest) =~= seq![line] + text::lines_of(rest));
}

/// The exit code of a bundler that has failed is shown as it is, and different
/// ones are shown differently.
pub proof fn law_code_shown(a: Option<i32>, b: Option<i32>)
    ensures
        code_text(a) == code_text(b) ==> a == b,
        a matches Some(n) ==> code_text(a) == seq!['S', 'o', 'm', 'e', '('] + number::signed_decimal(
            n as int,
        ) + seq![')'],
{
    reveal_strlit("Some(");
    reveal_strlit(")");
    reveal_strlit("None");
    assert("Some("@ =~= seq!['S', 'o', 'm', 'e', '(']);
    assert(")"@ =~= seq![')']);
    if code_text(a) == code_text(b) {
        assert(code_text(a)[0] == code_text(b)[0]);
        assert("None"@[0] == 'N' && "Some("@[0] == 'S');
        match (a, b) {
            (Some(m), Some(n)) => {
                let x = number::signed_decimal(m as int);
                let y = number::signed_decimal(n as int);
                let t = code_text(a);
                assert(t.subrange(5, t.len() - 1) =~= x);
                assert(t.subrange(5, t.len() - 1) =~= y);
                number::lemma_signed_reads_back(m as int, i32::MIN as int, i32::MAX as int);
                number::lemma_signed_reads_back(n as int, i32::MIN as int, i32::MAX as int);
            },
            _ => {},
        }
    }
}

} // verus!
