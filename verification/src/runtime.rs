//! Runtime directories, and which Ruby to use.
use vstd::prelude::*;
use vstd::slice::slice_subrange;
use crate::appconfig;
use crate::appconfig::{
    app_compact, app_daemon, app_runtime_dir, app_warmup, app_yjit, find_in_parents_from, AppConfig,
};
use crate::number;
use crate::number::{decimal_of, parse_unsigned};
use crate::path;
use crate::path::{file_name, join_path, parent};
use crate::protocol::request;
use crate::text;
use crate::text::{
    chars_of, find, is, lines, next_word, str_eq, string_of, strip_prefix, trim, trim_start,
};

verus! {

/// The version of Ruby that is used where nothing else is asked for.
pub const PINNED_RUBY: &'static str = "3.4.10";

/// Whether the function, asked about the path, may answer `b`.
pub open spec fn told<F: Fn(&str) -> bool>(f: F, p: Seq<char>, b: bool) -> bool {
    exists|s: &str| s@ == p && #[trigger] call_ensures(f, (s,), b)
}

/// Whether the function can be asked about every path.
pub open spec fn can_ask<F: Fn(&str) -> bool>(f: F) -> bool {
    forall|s: &str| #[trigger] call_requires(f, (s,))
}

/// Where the Ruby of a version stands below the directory of the packaged
/// ones.
pub open spec fn vendor_path(vendor: Seq<char>, version: Seq<char>) -> Seq<char> {
    path::joined_path(vendor, "ruby-"@ + version + "/bin/ruby"@)
}

/// The packaged Ruby of a version, if it is there.
pub fn vendor_ruby<F: Fn(&str) -> bool>(
    vendor: &Option<String>,
    version: &str,
    is_file: F,
) -> (r: Option<String>)
    requires
        can_ask(is_file),
    ensures
        match vendor {
            None => r is None,
            Some(v) => match r {
                Some(p) => p@ == vendor_path(v@, version@) && told(is_file, p@, true),
                None => told(is_file, vendor_path(v@, version@), false),
            },
        },
{
    match vendor {
        None => None,
        Some(v) => {
            let mut rel = "ruby-".to_string();
            rel.append(version);
            rel.append("/bin/ruby");
            let cand = join_path(v.as_str(), rel.as_str());
            if is_file(cand.as_str()) {
                Some(cand)
            } else {
                None
            }
        },
    }
}

/// Whether a directory stands in one that is named `vendor`.
pub open spec fn is_packaged(dir: Seq<char>) -> bool {
    path::parent_of(dir) matches Some(v) && path::file_name_of(v) == Some("vendor"@)
}

/// The version of a packaged Ruby, from where it stands. The pinned version
/// and a Ruby that is not packaged have none.
pub open spec fn version_of(p: Seq<char>) -> Option<Seq<char>> {
    match path::parent_of(p) {
        None => None,
        Some(bin) => match path::parent_of(bin) {
            None => None,
            Some(dir) => match path::file_name_of(dir) {
                None => None,
                Some(name) => if is_packaged(dir) && text::has_prefix(name, "ruby-"@) && name.skip(
                    "ruby-"@.len() as int,
                ) != PINNED_RUBY@ {
                    Some(name.skip("ruby-"@.len() as int))
                } else {
                    None
                },
            },
        },
    }
}

fn packaged(dir: &str) -> (r: bool)
    ensures
        r == is_packaged(dir@),
{
    match parent(dir) {
        Some(v) => match file_name(v.as_str()) {
            Some(name) => str_eq(name.as_str(), "vendor"),
            None => false,
        },
        None => false,
    }
}

/// The version of a packaged Ruby, from where it stands.
pub fn ruby_version_of(p: &str) -> (r: Option<String>)
    ensures
        match r {
            Some(v) => version_of(p@) == Some(v@),
            None => version_of(p@) is None,
        },
{
    let bin = match parent(p) {
        Some(x) => x,
        None => {
            return None;
        },
    };
    let dir = match parent(bin.as_str()) {
        Some(x) => x,
        None => {
            return None;
        },
    };
    let name = match file_name(dir.as_str()) {
        Some(x) => x,
        None => {
            return None;
        },
    };
    if !packaged(dir.as_str()) {
        return None;
    }
    let name = chars_of(name.as_str());
    match strip_prefix(name.as_slice(), "ruby-") {
        Some(v) => if is(v, PINNED_RUBY) {
            None
        } else {
            Some(string_of(v))
        },
        None => None,
    }
}

/// The number of the user in the lines of a process status: the second word
/// of the first line that begins with `Uid:`, or zero.
pub open spec fn uid_of(lines: Seq<Seq<char>>) -> nat
    decreases lines.len(),
{
    if lines.len() == 0 {
        0
    } else {
        match text::first_word(lines[0]) {
            Some((w, rest)) => if w == "Uid:"@ {
                match text::first_word(rest) {
                    Some((v, _)) => match number::unsigned(v, u32::MAX as int) {
                        Some(n) => n,
                        None => 0,
                    },
                    None => 0,
                }
            } else {
                uid_of(lines.skip(1))
            },
            None => uid_of(lines.skip(1)),
        }
    }
}

/// The number of the user, from the text of `/proc/self/status`.
pub fn uid(status: &str) -> (r: u32)
    ensures
        r == uid_of(text::lines_of(status@)),
{
    let chars = chars_of(status);
    let all = lines(chars.as_slice());
    let ghost texts = text::slice_views(all@);
    let mut i: usize = 0;
    assert(texts.skip(0) =~= texts);
    while i < all.len()
        invariant
            i <= all@.len(),
            texts == text::slice_views(all@),
            texts == text::lines_of(status@),
            uid_of(texts.skip(i as int)) == uid_of(texts),
        decreases all@.len() - i,
    {
        assert(texts.skip(i as int)[0] == all@[i as int]@);
        assert(texts.skip(i as int).skip(1) =~= texts.skip(i + 1));
        match next_word(all[i]) {
            Some((w, rest)) => {
                if is(w, "Uid:") {
                    return match next_word(rest) {
                        Some((v, _)) => match parse_unsigned(v, u32::MAX as u64) {
                            Some(n) => n as u32,
                            None => 0,
                        },
                        None => 0,
                    };
                }
            },
            None => {},
        }
        i += 1;
    }
    0
}

/// The directory in which daemons keep their sockets: the one that
/// `CALISTO_RUNTIME_DIR` names, or `calisto` in the user's runtime directory
/// where that can be created, or one in `/tmp` for the user.
pub fn runtime_dir(own: Option<&str>, xdg: Option<&str>, xdg_usable: bool, uid: u32) -> (r: String)
    ensures
        r@ == (match (own, xdg) {
            (Some(d), _) => d@,
            (None, Some(x)) if xdg_usable => path::joined_path(x@, "calisto"@),
            _ => "/tmp/calisto-"@ + number::decimal(uid as nat),
        }),
{
    match own {
        Some(d) => {
            return d.to_string();
        },
        None => {},
    }
    match xdg {
        Some(x) => {
            if xdg_usable {
                return join_path(x, "calisto");
            }
        },
        None => {},
    }
    let mut r = "/tmp/calisto-".to_string();
    r.append(decimal_of(uid as u64).as_str());
    r
}

/// The directory of the packaged Rubies: `vendor` in the home that
/// `CALISTO_HOME` names, or the first `vendor` from the directory of the
/// program upwards, or `vendor` where the program was started.
pub fn vendor_root<F: Fn(&str) -> bool>(home: Option<&str>, exe: Option<&str>, is_dir: F) -> (r:
    Option<String>)
    requires
        can_ask(is_dir),
    ensures
        match (home, exe) {
            (Some(h), _) if h@.len() > 0 => r matches Some(p) && p@ == path::joined_path(
                h@,
                "vendor"@,
            ),
            (_, None) => r is None,
            (_, Some(x)) => {
                ||| path::parent_of(x@) matches Some(d) && r is Some
                    && appconfig::found_in_parents(is_dir, path::ancestors(d), "vendor"@, r)
                ||| {
                    &&& path::parent_of(x@) matches Some(d) ==> appconfig::found_in_parents(
                        is_dir,
                        path::ancestors(d),
                        "vendor"@,
                        None,
                    )
                    &&& match r {
                        Some(p) => p@ == "vendor"@ && told(is_dir, "vendor"@, true),
                        None => told(is_dir, "vendor"@, false),
                    }
                }
            },
        },
{
    match home {
        Some(h) => {
            if chars_of(h).len() > 0 {
                return Some(join_path(h, "vendor"));
            }
        },
        None => {},
    }
    let exe = match exe {
        Some(x) => x,
        None => {
            return None;
        },
    };
    match parent(exe) {
        Some(d) => {
            let found = find_in_parents_from(d.as_str(), "vendor", &is_dir);
            if found.is_some() {
                return found;
            }
        },
        None => {},
    }
    let rel = "vendor".to_string();
    if is_dir(rel.as_str()) {
        Some(rel)
    } else {
        None
    }
}

/// A text without the prefixes `p` at its front.
pub open spec fn without_prefixes(s: Seq<char>, p: Seq<char>) -> Seq<char>
    decreases s.len(),
{
    if p.len() > 0 && text::has_prefix(s, p) {
        without_prefixes(s.skip(p.len() as int), p)
    } else {
        s
    }
}

/// The first line that is not blank, without the white space around it.
pub open spec fn first_content(lines: Seq<Seq<char>>) -> Option<Seq<char>>
    decreases lines.len(),
{
    if lines.len() == 0 {
        None
    } else if text::trimmed(lines[0]).len() > 0 {
        Some(text::trimmed(lines[0]))
    } else {
        first_content(lines.skip(1))
    }
}

/// The version that the text of a `.ruby-version` file asks for: its first
/// line, blank lines aside, with a prefix `ruby-` left out.
pub open spec fn version_in(content: Seq<char>) -> Option<Seq<char>> {
    match first_content(text::lines_of(content)) {
        None => None,
        Some(line) => {
            let v = text::trimmed(without_prefixes(line, "ruby-"@));
            if v.len() == 0 {
                None
            } else {
                Some(v)
            }
        },
    }
}

/// Reads the version that a `.ruby-version` file asks for.
pub fn ruby_version_from_file(content: &str) -> (r: Option<String>)
    ensures
        match r {
            Some(v) => version_in(content@) == Some(v@),
            None => version_in(content@) is None,
        },
{
    let chars = chars_of(content);
    let all = lines(chars.as_slice());
    let ghost texts = text::slice_views(all@);
    let mut i: usize = 0;
    assert(texts.skip(0) =~= texts);
    while i < all.len()
        invariant
            i <= all@.len(),
            texts == text::slice_views(all@),
            texts == text::lines_of(content@),
            first_content(texts.skip(i as int)) == first_content(texts),
        decreases all@.len() - i,
    {
        assert(texts.skip(i as int)[0] == all@[i as int]@);
        assert(texts.skip(i as int).skip(1) =~= texts.skip(i + 1));
        let line = trim(all[i]);
        if line.len() > 0 {
            let v = trim(strip_prefixes(line));
            if v.len() == 0 {
                return None;
            }
            return Some(string_of(v));
        }
        i += 1;
    }
    None
}

fn strip_prefixes(s: &[char]) -> (r: &[char])
    ensures
        r@ == without_prefixes(s@, "ruby-"@),
{
    proof {
        reveal_strlit("ruby-");
    }
    let mut rest = s;
    let mut more = true;
    while more
        invariant
            "ruby-"@.len() == 5,
            without_prefixes(rest@, "ruby-"@) == without_prefixes(s@, "ruby-"@),
            !more ==> !text::has_prefix(rest@, "ruby-"@),
        decreases rest@.len(), (if more { 1int } else { 0int }),
    {
        match strip_prefix(rest, "ruby-") {
            Some(t) => {
                rest = t;
            },
            None => {
                more = false;
            },
        }
    }
    rest
}

/// What a Gemfile asks for.
pub enum GemfileRuby {
    /// This version.
    Version(String),
    /// The version that this file asks for.
    File(String),
    /// Nothing.
    Unstated,
}

/// What a Gemfile asks for, as contracts see it.
pub enum Directive {
    Version(Seq<char>),
    File(Seq<char>),
    Unstated,
}

impl View for GemfileRuby {
    type V = Directive;

    open spec fn view(&self) -> Directive {
        match self {
            GemfileRuby::Version(v) => Directive::Version(v@),
            GemfileRuby::File(f) => Directive::File(f@),
            GemfileRuby::Unstated => Directive::Unstated,
        }
    }
}

/// What stands between a quotation mark at the front and the next one, or the
/// end.
pub open spec fn quoted_front(s: Seq<char>, q: char) -> Option<Seq<char>> {
    if s.len() > 0 && s[0] == q {
        Some(s.skip(1).take(text::index_of(s.skip(1), q)))
    } else {
        None
    }
}

/// What a line of a Gemfile asks for: `ruby "3.4.4"`, in quotation marks of
/// either kind, or `ruby file: ".ruby-version"`.
pub open spec fn directive_in(line: Seq<char>) -> Directive {
    let t = text::trimmed(line);
    if text::has_prefix(t, "ruby"@) {
        let rest = text::trimmed_start(t.skip("ruby"@.len() as int));
        let v = match quoted_front(rest, '"') {
            Some(x) => x,
            None => match quoted_front(rest, '\'') {
                Some(x) => x,
                None => Seq::empty(),
            },
        };
        if v.len() > 0 && number::is_digit(v[0]) {
            Directive::Version(v)
        } else if text::has_prefix(rest, "file:"@) {
            match quoted_front(text::trimmed(rest.skip("file:"@.len() as int)), '"') {
                Some(name) => Directive::File(name),
                None => Directive::Unstated,
            }
        } else {
            Directive::Unstated
        }
    } else {
        Directive::Unstated
    }
}

/// What the lines of a Gemfile ask for: the first line that asks decides.
pub open spec fn directive_of(lines: Seq<Seq<char>>) -> Directive
    decreases lines.len(),
{
    if lines.len() == 0 {
        Directive::Unstated
    } else {
        match directive_in(lines[0]) {
            Directive::Unstated => directive_of(lines.skip(1)),
            d => d,
        }
    }
}

fn take_quoted(s: &[char], q: char) -> (r: Option<&[char]>)
    ensures
        match r {
            Some(x) => quoted_front(s@, q) == Some(x@),
            None => quoted_front(s@, q) is None,
        },
{
    if s.len() > 0 && s[0] == q {
        let t = slice_subrange(s, 1, s.len());
        assert(t@ =~= s@.skip(1));
        let i: usize = find(t, q);
        let x = slice_subrange(t, 0, i);
        assert(x@ =~= t@.take(i as int));
        Some(x)
    } else {
        None
    }
}

fn gemfile_line(line: &[char]) -> (r: GemfileRuby)
    ensures
        r@ == directive_in(line@),
{
    let rest = match strip_prefix(trim(line), "ruby") {
        Some(rest) => trim_start(rest),
        None => {
            return GemfileRuby::Unstated;
        },
    };
    let v = match take_quoted(rest, '"') {
        Some(x) => x,
        None => match take_quoted(rest, '\'') {
            Some(x) => x,
            None => slice_subrange(rest, 0, 0),
        },
    };
    assert(v@.len() == 0 ==> v@ =~= Seq::<char>::empty());
    if v.len() > 0 && '0' <= v[0] && v[0] <= '9' {
        return GemfileRuby::Version(string_of(v));
    }
    match strip_prefix(rest, "file:") {
        Some(name) => match take_quoted(trim(name), '"') {
            Some(x) => GemfileRuby::File(string_of(x)),
            None => GemfileRuby::Unstated,
        },
        None => GemfileRuby::Unstated,
    }
}

/// Reads what a Gemfile asks for.
pub fn ruby_version_from_gemfile(content: &str) -> (r: GemfileRuby)
    ensures
        r@ == directive_of(text::lines_of(content@)),
{
    let chars = chars_of(content);
    let all = lines(chars.as_slice());
    let ghost texts = text::slice_views(all@);
    let mut i: usize = 0;
    assert(texts.skip(0) =~= texts);
    while i < all.len()
        invariant
            i <= all@.len(),
            texts == text::slice_views(all@),
            texts == text::lines_of(content@),
            directive_of(texts.skip(i as int)) == directive_of(texts),
        decreases all@.len() - i,
    {
        assert(texts.skip(i as int)[0] == all@[i as int]@);
        assert(texts.skip(i as int).skip(1) =~= texts.skip(i + 1));
        let d = gemfile_line(all[i]);
        match d {
            GemfileRuby::Unstated => {},
            _ => {
                return d;
            },
        }
        i += 1;
    }
    GemfileRuby::Unstated
}

/// Whether the function, asked for the text of the file at the path, may give
/// that text, or may say that there is none.
pub open spec fn gave<R: Fn(&str) -> Option<String>>(
    read: R,
    p: Seq<char>,
    content: Option<Seq<char>>,
) -> bool {
    exists|s: &str, c: Option<String>|
        s@ == p && appconfig::opt_view(c) == content && #[trigger] call_ensures(read, (s,), c)
}

/// The version that a Gemfile asks for, itself or through the file that it
/// names, which stands beside it.
pub fn gemfile_version<R: Fn(&str) -> Option<String>>(gemfile: &str, content: &str, read: R) -> (r:
    Option<String>)
    requires
        forall|s: &str| #[trigger] call_requires(read, (s,)),
    ensures
        match directive_of(text::lines_of(content@)) {
            Directive::Version(v) => r matches Some(x) && x@ == v,
            Directive::File(name) => match path::parent_of(gemfile@) {
                None => r is None,
                Some(dir) => {
                    let file = path::joined_path(dir, name);
                    ||| gave(read, file, None) && r is None
                    ||| exists|c: Seq<char>|
                        #[trigger] gave(read, file, Some(c)) && appconfig::opt_view(r)
                            == version_in(c)
                },
            },
            Directive::Unstated => r is None,
        },
{
    match ruby_version_from_gemfile(content) {
        GemfileRuby::Version(v) => Some(v),
        GemfileRuby::File(name) => match parent(gemfile) {
            None => None,
            Some(dir) => {
                let file = join_path(dir.as_str(), name.as_str());
                let found = read(file.as_str());
                assert(gave(read, file@, appconfig::opt_view(found)));
                match found {
                    Some(c) => ruby_version_from_file(c.as_str()),
                    None => None,
                }
            },
        },
        GemfileRuby::Unstated => None,
    }
}

/// What is asked of the choice of a Ruby.
pub struct RubyAsked {
    /// What `CALISTO_RUBY` names.
    pub override_ruby: Option<String>,
    /// The `.ruby-version` file from the current directory upwards, and the
    /// version that it asks for.
    pub version_file: Option<(String, Option<String>)>,
    /// The version that the Gemfile asks for.
    pub gemfile_version: Option<String>,
}

/// The Ruby that was chosen, or why there is none.
pub struct RubyChoice {
    pub ruby: Result<String, String>,
    /// Whether `CALISTO_RUBY` names no file and is passed over.
    pub ignored_override: bool,
    /// Whether no packaged Ruby was found and the one of the system is used.
    pub fell_back: bool,
}

/// What is said of a version that a file asks for and that is not installed.
pub open spec fn not_installed(want: Seq<char>, by: Seq<char>) -> Seq<char> {
    "calisto: ruby "@ + want + " pedido "@ + by + " nao esta instalado (vendor/ruby-"@ + want
        + " ausente); rode RUBY_VERSION="@ + want + " scripts/build-ruby.sh"@
}

fn not_installed_text(want: &str, by: &str) -> (r: String)
    ensures
        r@ == not_installed(want@, by@),
{
    let mut r = "calisto: ruby ".to_string();
    r.append(want);
    r.append(" pedido ");
    r.append(by);
    r.append(" nao esta instalado (vendor/ruby-");
    r.append(want);
    r.append(" ausente); rode RUBY_VERSION=");
    r.append(want);
    r.append(" scripts/build-ruby.sh");
    r
}

/// The version that is asked for, and by what: by `.ruby-version`, or by the
/// Gemfile where that file asks for none.
pub open spec fn wanted(a: RubyAsked) -> Option<(Seq<char>, Seq<char>)> {
    match (a.version_file, a.gemfile_version) {
        (Some((file, Some(want))), _) => Some((want@, "por "@ + file@)),
        (_, Some(want)) => Some((want@, "pelo Gemfile"@)),
        (_, None) => None,
    }
}

/// Where the packaged Ruby stands that is marked as the current one.
pub open spec fn current_path(vendor: Seq<char>) -> Seq<char> {
    path::joined_path(vendor, "current/bin/ruby"@)
}

/// Whether `r` is what a version that is asked for gives: the packaged Ruby of
/// that version, or why there is none.
pub open spec fn gives_wanted<F: Fn(&str) -> bool>(
    is_file: F,
    vendor: Option<Seq<char>>,
    want: Seq<char>,
    by: Seq<char>,
    r: RubyChoice,
) -> bool {
    &&& !r.fell_back
    &&& match r.ruby {
        Ok(p) => vendor matches Some(v) && p@ == vendor_path(v, want) && told(is_file, p@, true),
        Err(m) => {
            &&& m@ == not_installed(want, by)
            &&& vendor matches Some(v) ==> told(is_file, vendor_path(v, want), false)
        },
    }
}

/// Whether `r` is the Ruby where no version is asked for: the packaged one of
/// the pinned version, the current one, or the one of the system, each only
/// where those before it are missing.
pub open spec fn gives_default<F: Fn(&str) -> bool>(
    is_file: F,
    vendor: Option<Seq<char>>,
    r: RubyChoice,
) -> bool {
    &&& r.ruby matches Ok(p)
    &&& match vendor {
        None => r.fell_back && p@ == "ruby"@,
        Some(v) => {
            let pinned = vendor_path(v, PINNED_RUBY@);
            let current = current_path(v);
            ||| !r.fell_back && p@ == pinned && told(is_file, pinned, true)
            ||| {
                &&& told(is_file, pinned, false)
                &&& if r.fell_back {
                    p@ == "ruby"@ && told(is_file, current, false)
                } else {
                    p@ == current && told(is_file, current, true)
                }
            }
        },
    }
}

/// Whether `r` is the Ruby to use: what `CALISTO_RUBY` names, where that is a
/// file; else the one of the version that is asked for; else the default.
pub open spec fn resolves<F: Fn(&str) -> bool>(
    is_file: F,
    vendor: Option<Seq<char>>,
    a: RubyAsked,
    r: RubyChoice,
) -> bool {
    match a.override_ruby {
        Some(o) if !r.ignored_override => {
            &&& r.ruby matches Ok(p) && p@ == o@
            &&& told(is_file, o@, true)
            &&& !r.fell_back
        },
        over => {
            &&& match over {
                Some(o) => told(is_file, o@, false),
                None => !r.ignored_override,
            }
            &&& match wanted(a) {
                Some((want, by)) => gives_wanted(is_file, vendor, want, by, r),
                None => gives_default(is_file, vendor, r),
            }
        },
    }
}

fn wanted_ruby<F: Fn(&str) -> bool>(
    vendor: &Option<String>,
    want: &str,
    by: &str,
    ignored: bool,
    is_file: F,
) -> (r: RubyChoice)
    requires
        can_ask(is_file),
    ensures
        gives_wanted(is_file, appconfig::opt_view(*vendor), want@, by@, r),
        r.ignored_override == ignored,
{
    let ruby = match vendor_ruby(vendor, want, is_file) {
        Some(p) => Ok(p),
        None => Err(not_installed_text(want, by)),
    };
    RubyChoice { ruby, ignored_override: ignored, fell_back: false }
}

fn default_ruby<F: Fn(&str) -> bool>(vendor: &Option<String>, ignored: bool, is_file: F) -> (r:
    RubyChoice)
    requires
        can_ask(is_file),
    ensures
        gives_default(is_file, appconfig::opt_view(*vendor), r),
        r.ignored_override == ignored,
{
    match vendor_ruby(vendor, PINNED_RUBY, &is_file) {
        Some(p) => {
            return RubyChoice { ruby: Ok(p), ignored_override: ignored, fell_back: false };
        },
        None => {},
    }
    match vendor {
        Some(v) => {
            let current = join_path(v.as_str(), "current/bin/ruby");
            if is_file(current.as_str()) {
                return RubyChoice {
                    ruby: Ok(current),
                    ignored_override: ignored,
                    fell_back: false,
                };
            }
        },
        None => {},
    }
    RubyChoice { ruby: Ok("ruby".to_string()), ignored_override: ignored, fell_back: true }
}

/// Chooses the Ruby to use. The function says which paths are files.
pub fn resolve_ruby<F: Fn(&str) -> bool>(vendor: &Option<String>, a: &RubyAsked, is_file: F) -> (r:
    RubyChoice)
    requires
        can_ask(is_file),
    ensures
        resolves(is_file, appconfig::opt_view(*vendor), *a, r),
{
    let mut ignored = false;
    match &a.override_ruby {
        Some(p) => {
            if is_file(p.as_str()) {
                return RubyChoice {
                    ruby: Ok(p.clone()),
                    ignored_override: false,
                    fell_back: false,
                };
            }
            ignored = true;
        },
        None => {},
    }
    match &a.version_file {
        Some((file, Some(want))) => {
            let mut by = "por ".to_string();
            by.append(file.as_str());
            return wanted_ruby(vendor, want.as_str(), by.as_str(), ignored, is_file);
        },
        _ => {},
    }
    match &a.gemfile_version {
        Some(want) => wanted_ruby(vendor, want.as_str(), "pelo Gemfile", ignored, is_file),
        None => default_ruby(vendor, ignored, is_file),
    }
}

/// A packaged Ruby of any version but the pinned one is known by its version,
/// wherever the directory `vendor` stands; the pinned one has none.
pub proof fn law_vendor_version(vendor: Seq<char>, version: Seq<char>)
    requires
        path::file_name_of(vendor) == Some("vendor"@),
        !version.contains('/'),
    ensures
        version_of(vendor_path(vendor, version)) == (if version == PINNED_RUBY@ {
            None
        } else {
            Some(version)
        }),
{
    reveal_strlit("ruby-");
    reveal_strlit("/bin/ruby");
    let rel = "ruby-"@ + version + "/bin/ruby"@;
    let head = if vendor.last() == '/' {
        vendor
    } else {
        vendor + seq!['/']
    };
    let p = vendor_path(vendor, version);
    let dir = head + "ruby-"@ + version;
    let bin = dir + seq!['/', 'b', 'i', 'n'];
    assert(rel[0] == 'r');
    assert(p =~= bin + seq!['/', 'r', 'u', 'b', 'y']);
    assert(dir.last() != '/' && path::tail_stripped(dir) == dir) by {
        let n = dir.len() as int;
        if version.len() > 0 {
            assert(dir.last() == version.last());
            assert(version.contains(version.last()));
            if version.len() > 1 {
                assert(dir[n - 2] == version[version.len() - 2]);
                assert(version.contains(version[version.len() - 2]));
            } else {
                assert(dir[n - 2] == "ruby-"@[4]);
            }
        } else {
            assert(dir.last() == "ruby-"@[4]);
        }
    }
    path::lemma_parent_of_child(bin, seq!['r', 'u', 'b', 'y']);
    assert(bin + seq!['/'] + seq!['r', 'u', 'b', 'y'] =~= p);
    path::lemma_parent_of_child(dir, seq!['b', 'i', 'n']);
    assert(dir + seq!['/'] + seq!['b', 'i', 'n'] =~= bin);
    let name = "ruby-"@ + version;
    assert(dir =~= head + name);
    assert(!name.contains('/')) by {
        if name.contains('/') {
            let i = choose|i: int| 0 <= i < name.len() && name[i] == '/';
            assert(i >= 5);
            assert(version[i - 5] == '/');
        }
    }
    assert(name[0] == 'r');
    path::lemma_file_name(head, name);
    assert(is_packaged(dir)) by {
        path::lemma_last_start_is(head, name);
        assert(dir.take(head.len() as int) =~= head);
        assert(path::tail_stripped(head) == path::tail_stripped(vendor)) by {
            if vendor.last() != '/' {
                assert(head.drop_last() =~= vendor);
            }
        }
        path::lemma_stripped_once(vendor);
    }
    assert(name.take(5) =~= "ruby-"@);
    assert(name.skip(5) =~= version);
}

/// Where a version is asked for, no other version is ever used: unless
/// `CALISTO_RUBY` names a file, a Ruby that is chosen stands where the one of
/// that version is packaged, and is known by that version.
pub proof fn law_no_other_version<F: Fn(&str) -> bool>(
    is_file: F,
    vendor: Seq<char>,
    a: RubyAsked,
    want: Seq<char>,
    by: Seq<char>,
    r: RubyChoice,
)
    requires
        resolves(is_file, Some(vendor), a, r),
        wanted(a) == Some((want, by)),
        a.override_ruby is None || r.ignored_override,
        path::file_name_of(vendor) == Some("vendor"@),
        !want.contains('/'),
    ensures
        r.ruby matches Ok(p) ==> {
            &&& p@ == vendor_path(vendor, want)
            &&& version_of(p@) == (if want == PINNED_RUBY@ {
                None
            } else {
                Some(want)
            })
        },
{
    law_vendor_version(vendor, want);
}

/// The directory of the daemon that serves no application: one for each
/// version that is not the pinned one.
pub open spec fn generic_dir(ruby: Seq<char>, runtime_dir: Seq<char>) -> Seq<char> {
    match version_of(ruby) {
        Some(v) => path::joined_path(runtime_dir, "ruby-"@ + v),
        None => runtime_dir,
    }
}

/// A Ruby that is not packaged is served in the runtime directory itself, like
/// the pinned one, whatever its own directory is named.
pub proof fn law_other_rubies_share(ruby: Seq<char>, runtime_dir: Seq<char>)
    requires
        path::parent_of(ruby) matches Some(bin) ==> (path::parent_of(bin) matches Some(dir)
            ==> !is_packaged(dir)),
    ensures
        version_of(ruby) is None,
        generic_dir(ruby, runtime_dir) == runtime_dir,
{
}

/// Daemons of different versions do not share a directory.
pub proof fn law_versions_apart(a: Seq<char>, b: Seq<char>, runtime_dir: Seq<char>)
    requires
        version_of(a) != version_of(b),
    ensures
        generic_dir(a, runtime_dir) != generic_dir(b, runtime_dir),
{
    reveal_strlit("ruby-");
    match (version_of(a), version_of(b)) {
        (Some(v), Some(w)) => {
            let da = generic_dir(a, runtime_dir);
            let db = generic_dir(b, runtime_dir);
            let k = da.len() - v.len();
            assert(db.len() - w.len() == k);
            assert(da.skip(k) =~= v);
            assert(db.skip(k) =~= w);
        },
        (Some(v), None) => {
            assert(generic_dir(a, runtime_dir).len() > runtime_dir.len());
        },
        (None, Some(w)) => {
            assert(generic_dir(b, runtime_dir).len() > runtime_dir.len());
        },
        (None, None) => {},
    }
}

/// The directory of the daemon that serves no application.
pub fn daemon_dir_for(ruby: &str, runtime_dir: &str) -> (r: String)
    ensures
        r@ == generic_dir(ruby@, runtime_dir@),
{
    match ruby_version_of(ruby) {
        Some(v) => {
            let mut name = "ruby-".to_string();
            name.append(v.as_str());
            join_path(runtime_dir, name.as_str())
        },
        None => runtime_dir.to_string(),
    }
}

/// The directory of the daemon that commands about daemons mean: that of the
/// application where there is one, and the general one where there is none or
/// its configuration is broken. Without a Ruby it is the runtime directory
/// itself.
pub fn current_runtime_dir(
    ruby: Option<&str>,
    app: Option<&Option<AppConfig>>,
    runtime_dir: &str,
) -> (r: String)
    ensures
        r@ == (match ruby {
            None => runtime_dir@,
            Some(p) => match app {
                Some(Some(a)) if a.preload is Some => appconfig::app_dir(
                    a@,
                    ""@,
                    version_of(p@),
                    runtime_dir@,
                ),
                _ => generic_dir(p@, runtime_dir@),
            },
        }),
{
    match ruby {
        None => runtime_dir.to_string(),
        Some(p) => match app {
            Some(app) => match app_daemon(app) {
                Some(a) => app_runtime_dir(a, p, runtime_dir),
                None => daemon_dir_for(p, runtime_dir),
            },
            None => daemon_dir_for(p, runtime_dir),
        },
    }
}

/// How a daemon is started.
pub struct SpawnPlan {
    /// The arguments of the program.
    pub args: Vec<String>,
    /// The variables that are set, in this order.
    pub env: Vec<(String, String)>,
    /// The directory in which it starts, where that is not the current one.
    pub cwd: Option<String>,
}

/// The variables of a daemon in the directory.
pub open spec fn daemon_env(
    ruby: Seq<char>,
    dir: Seq<char>,
    preload: Seq<char>,
    compact: bool,
) -> Seq<(Seq<char>, Seq<char>)> {
    seq![
        ("CALISTO_EMBED_RUBY"@, ruby),
        ("CALISTO_SOCKET"@, path::joined_path(dir, "calisto.sock"@)),
        ("CALISTO_PIDFILE"@, path::joined_path(dir, "calisto.pid"@)),
        ("CALISTO_PRELOAD"@, preload),
        ("MALLOC_ARENA_MAX"@, "2"@),
        ("CALISTO_COMPACT"@, if compact {
            "1"@
        } else {
            "0"@
        }),
    ]
}

fn daemon_env_list(ruby: &str, dir: &str, preload: &str, compact: bool) -> (r: Vec<
    (String, String),
>)
    ensures
        request::pair_views(r@) == daemon_env(ruby@, dir@, preload@, compact),
{
    let mut env: Vec<(String, String)> = Vec::new();
    env.push(("CALISTO_EMBED_RUBY".to_string(), ruby.to_string()));
    env.push(("CALISTO_SOCKET".to_string(), join_path(dir, "calisto.sock")));
    env.push(("CALISTO_PIDFILE".to_string(), join_path(dir, "calisto.pid")));
    env.push(("CALISTO_PRELOAD".to_string(), preload.to_string()));
    env.push(("MALLOC_ARENA_MAX".to_string(), "2".to_string()));
    env.push(
        (
            "CALISTO_COMPACT".to_string(),
            if compact {
                "1".to_string()
            } else {
                "0".to_string()
            },
        ),
    );
    assert(request::pair_views(env@) =~= daemon_env(ruby@, dir@, preload@, compact));
    env
}

/// The plan for the daemon that serves no application: it loads the given
/// libraries in advance, and does not compact its heap.
pub fn generic_spawn_plan(ruby: &str, dir: &str, preload: &str) -> (r: SpawnPlan)
    ensures
        text::views(r.args@) == seq!["daemon"@, "--internal"@],
        request::pair_views(r.env@) == daemon_env(ruby@, dir@, preload@, false),
        r.cwd is None,
{
    let mut args: Vec<String> = Vec::new();
    args.push("daemon".to_string());
    args.push("--internal".to_string());
    assert(text::views(args@) =~= seq!["daemon"@, "--internal"@]);
    SpawnPlan { args, env: daemon_env_list(ruby, dir, preload, false), cwd: None }
}

/// A pair for a variable that may be missing.
pub open spec fn opt_pair(name: Seq<char>, v: Option<Seq<char>>) -> Seq<(Seq<char>, Seq<char>)> {
    match v {
        Some(x) => seq![(name, x)],
        None => Seq::empty(),
    }
}

/// The variables of an application's daemon.
pub open spec fn app_env(
    ruby: Seq<char>,
    app: appconfig::Config,
    dir: Seq<char>,
    compact: bool,
    warmup: Option<Seq<char>>,
    envs: Seq<(Seq<char>, Seq<char>)>,
) -> Seq<(Seq<char>, Seq<char>)> {
    daemon_env(ruby, dir, ""@, compact) + opt_pair("CALISTO_APP_PRELOAD"@, app.preload) + opt_pair(
        "CALISTO_APP_WARMUP"@,
        warmup,
    ) + envs
}

/// The plan for an application's daemon: it starts in the directory of the
/// application with its Gemfile active, and then loads the entry point and the
/// script that warms it up. The switches are read with the overrides of the
/// environment.
pub fn app_spawn_plan(
    ruby: &str,
    app: &AppConfig,
    dir: &str,
    envs: &Vec<(String, String)>,
    compact_over: Option<&str>,
    yjit_over: Option<&str>,
    warmup_over: Option<&str>,
) -> (r: Result<SpawnPlan, String>)
    ensures
        match (compact_over, yjit_over) {
            (Some(v), _) if appconfig::switch(v@) is None => r matches Err(e) && e@
                == appconfig::bad_switch("CALISTO_COMPACT"@, v@),
            (_, Some(v)) if appconfig::switch(v@) is None => r matches Err(e) && e@
                == appconfig::bad_switch("CALISTO_YJIT"@, v@),
            _ => {
                let compact = match compact_over {
                    Some(v) => appconfig::switch(v@)->0,
                    None => match app.compact {
                        Some(b) => b,
                        None => app.preload is Some,
                    },
                };
                let yjit = match yjit_over {
                    Some(v) => appconfig::switch(v@)->0,
                    None => app.yjit == Some(true),
                };
                let warmup = match warmup_over {
                    Some(v) => if v@ == "0"@ || v@ == "none"@ || v@.len() == 0 {
                        None
                    } else {
                        Some(v@)
                    },
                    None => app@.warmup,
                };
                &&& r matches Ok(plan)
                &&& text::views(plan.args@) == seq!["daemon"@, "--internal"@, "-rbundler/setup"@]
                    + (if yjit {
                    seq!["--yjit"@]
                } else {
                    Seq::empty()
                })
                &&& request::pair_views(plan.env@) == app_env(
                    ruby@,
                    app@,
                    dir@,
                    compact,
                    warmup,
                    request::pair_views(envs@),
                )
                &&& appconfig::opt_view(plan.cwd) == Some(app@.root)
            },
        },
{
    let compact = match app_compact(app, compact_over) {
        Ok(b) => b,
        Err(e) => {
            return Err(e);
        },
    };
    let yjit = match app_yjit(app, yjit_over) {
        Ok(b) => b,
        Err(e) => {
            return Err(e);
        },
    };
    let warmup = match app_warmup(app, warmup_over) {
        Ok(w) => w,
        Err(e) => {
            return Err(e);
        },
    };
    let mut args: Vec<String> = Vec::new();
    args.push("daemon".to_string());
    args.push("--internal".to_string());
    args.push("-rbundler/setup".to_string());
    if yjit {
        args.push("--yjit".to_string());
    }
    assert(text::views(args@) =~= seq!["daemon"@, "--internal"@, "-rbundler/setup"@] + (if yjit {
        seq!["--yjit"@]
    } else {
        Seq::empty()
    }));
    let ghost warm = appconfig::opt_view(warmup);
    let mut env = daemon_env_list(ruby, dir, "", compact);
    let ghost e0 = request::pair_views(env@);
    match &app.preload {
        Some(p) => {
            env.push(("CALISTO_APP_PRELOAD".to_string(), p.clone()));
        },
        None => {},
    }
    let ghost e1 = e0 + opt_pair("CALISTO_APP_PRELOAD"@, app@.preload);
    assert(request::pair_views(env@) =~= e1);
    match warmup {
        Some(w) => {
            env.push(("CALISTO_APP_WARMUP".to_string(), w));
        },
        None => {},
    }
    let ghost e2 = e1 + opt_pair("CALISTO_APP_WARMUP"@, warm);
    assert(request::pair_views(env@) =~= e2);
    let ghost more = request::pair_views(envs@);
    let mut i: usize = 0;
    while i < envs.len()
        invariant
            i <= envs@.len(),
            more == request::pair_views(envs@),
            request::pair_views(env@) == e2 + more.take(i as int),
        decreases envs@.len() - i,
    {
        let ghost before = request::pair_views(env@);
        env.push((envs[i].0.clone(), envs[i].1.clone()));
        assert(request::pair_views(env@) =~= before.push(more[i as int]));
        i += 1;
        assert(request::pair_views(env@) =~= e2 + more.take(i as int));
    }
    assert(more.take(i as int) =~= more);
    Ok(SpawnPlan { args, env, cwd: Some(app.root.clone()) })
}

/// What is said of a Ruby without a shared library.
pub open spec fn no_library(ruby: Seq<char>) -> Seq<char> {
    let version = match version_of(ruby) {
        Some(v) => v,
        None => PINNED_RUBY@,
    };
    ruby
        + " nao tem libruby.so (build pre --enable-shared); rode CALISTO_REBUILD=1 RUBY_VERSION="@
        + version + " scripts/build-ruby.sh"@
}

/// What is said of a Ruby without a shared library.
pub fn no_library_text(ruby: &str) -> (r: String)
    ensures
        r@ == no_library(ruby@),
{
    let mut r = ruby.to_string();
    r.append(
        " nao tem libruby.so (build pre --enable-shared); rode CALISTO_REBUILD=1 RUBY_VERSION=",
    );
    match ruby_version_of(ruby) {
        Some(v) => {
            r.append(v.as_str());
        },
        None => {
            r.append(PINNED_RUBY);
        },
    }
    r.append(" scripts/build-ruby.sh");
    r
}

/// What is known of a daemon that has been started.
pub enum Spawned {
    Running,
    Exited(String),
    Unknown(String),
}

/// What to do next while a started daemon does not answer yet.
pub enum WaitStep {
    /// The daemon answers.
    Connected,
    /// Try again a little later.
    Again,
    /// Give up.
    Failed(String),
    /// End the daemon and give up.
    TimedOut(String),
}

/// Decides what to do after one attempt to connect to a started daemon.
pub fn wait_step(connected: bool, daemon: &Spawned, late: bool) -> (r: WaitStep)
    ensures
        connected ==> r is Connected,
        !connected ==> match daemon {
            Spawned::Exited(st) => r matches WaitStep::Failed(m) && m@ == "daemon exited early ("@
                + st@ + "); see output above"@,
            Spawned::Unknown(e) => r matches WaitStep::Failed(m) && m@ == "waiting on daemon: "@
                + e@,
            Spawned::Running => if late {
                r matches WaitStep::TimedOut(m) && m@ == "timed out waiting for daemon socket"@
            } else {
                r is Again
            },
        },
{
    if connected {
        return WaitStep::Connected;
    }
    match daemon {
        Spawned::Exited(st) => {
            let mut m = "daemon exited early (".to_string();
            m.append(st.as_str());
            m.append("); see output above");
            WaitStep::Failed(m)
        },
        Spawned::Unknown(e) => {
            let mut m = "waiting on daemon: ".to_string();
            m.append(e.as_str());
            WaitStep::Failed(m)
        },
        Spawned::Running => if late {
            WaitStep::TimedOut("timed out waiting for daemon socket".to_string())
        } else {
            WaitStep::Again
        },
    }
}

/// How often a daemon is asked to stop.
pub const STOP_ATTEMPTS: u32 = 5;

/// What to do after a daemon was asked to stop.
#[derive(PartialEq, Eq, Structural)]
pub enum StopStep {
    /// Its socket is gone: it has stopped.
    Stopped,
    /// Ask again.
    Again,
    /// It does not stop: remove what it has left.
    CleanUp,
}

/// Decides what to do after the given number of attempts.
pub fn stop_step(attempts: u32, socket_left: bool) -> (r: StopStep)
    ensures
        r == (if !socket_left {
            StopStep::Stopped
        } else if attempts < STOP_ATTEMPTS {
            StopStep::Again
        } else {
            StopStep::CleanUp
        }),
{
    if !socket_left {
        StopStep::Stopped
    } else if attempts < STOP_ATTEMPTS {
        StopStep::Again
    } else {
        StopStep::CleanUp
    }
}

proof fn lemma_first_content(front: Seq<Seq<char>>, line: Seq<char>, rest: Seq<Seq<char>>)
    requires
        forall|i: int| 0 <= i < front.len() ==> text::trimmed(#[trigger] front[i]).len() == 0,
        text::trimmed(line).len() > 0,
    ensures
        first_content(front + seq![line] + rest) == Some(text::trimmed(line)),
        first_content(front) is None,
    decreases front.len(),
{
    let all = front + seq![line] + rest;
    if front.len() == 0 {
        assert(all[0] == line);
    } else {
        let less = front.skip(1);
        assert forall|i: int| 0 <= i < less.len() implies text::trimmed(#[trigger] less[i]).len()
            == 0 by {
            assert(less[i] == front[i + 1]);
        }
        lemma_first_content(less, line, rest);
        assert(all[0] == front[0]);
        assert(all.skip(1) =~= less + seq![line] + rest);
    }
}

/// A `.ruby-version` file asks for the version on its first line, with or
/// without `ruby-` in front of it; what follows that line says nothing.
pub proof fn law_version_file(pre: Seq<char>, v: Seq<char>, rest: Seq<char>)
    requires
        appconfig::is_blank(pre) && !pre.contains('\n'),
        v.len() > 0 && appconfig::is_tight(v) && !v.contains('\n'),
        !text::has_prefix(v, "ruby-"@),
    ensures
        version_in(pre + v + seq!['\n'] + rest) == Some(v),
        version_in(pre + "ruby-"@ + v + seq!['\n'] + rest) == Some(v),
        version_in(pre + v) == Some(v),
        version_in(pre) is None,
{
    reveal_strlit("ruby-");
    let nothing = Seq::<char>::empty();
    let none = Seq::<Seq<char>>::empty();
    let word = "ruby-"@ + v;
    let a = pre + v;
    let b = pre + word;
    assert(!a.contains('\n')) by {
        if a.contains('\n') {
            let i = choose|i: int| 0 <= i < a.len() && a[i] == '\n';
            if i < pre.len() {
                assert(pre[i] == '\n');
            } else {
                assert(v[i - pre.len()] == '\n');
            }
        }
    }
    assert(!b.contains('\n')) by {
        if b.contains('\n') {
            let i = choose|i: int| 0 <= i < b.len() && b[i] == '\n';
            if i < pre.len() {
                assert(pre[i] == '\n');
            } else if i >= pre.len() + 5 {
                assert(v[i - pre.len() - 5] == '\n');
            }
        }
    }
    assert(a.last() == v.last() && b.last() == v.last());
    assert(!text::is_space(v.last()));
    text::law_lines(a, rest);
    text::law_lines(b, rest);
    text::law_trimmed(pre, v, nothing);
    text::law_trimmed(pre, word, nothing);
    text::law_trimmed(pre, nothing, nothing);
    text::law_trimmed(nothing, v, nothing);
    assert(pre + v + nothing =~= a);
    assert(pre + word + nothing =~= b);
    assert(pre + nothing + nothing =~= pre);
    assert(nothing + v + nothing =~= v);
    let more = text::lines_of(rest);
    lemma_first_content(none, a, more);
    lemma_first_content(none, b, more);
    lemma_first_content(none, a, none);
    assert(none + seq![a] + more =~= seq![a] + more);
    assert(none + seq![b] + more =~= seq![b] + more);
    assert(none + seq![a] + none =~= seq![a]);
    assert(pre + "ruby-"@ + v + seq!['\n'] + rest =~= b + seq!['\n'] + rest);
    assert(word.take(5) =~= "ruby-"@);
    assert(word.skip(5) =~= v);
    assert(without_prefixes(v, "ruby-"@) == v);
    assert(without_prefixes(word, "ruby-"@) == v);
    if pre.len() > 0 {
        text::lemma_index_of(pre, '\n');
        if text::index_of(pre, '\n') < pre.len() {
            assert(pre.contains('\n'));
        }
        assert(text::lines_of(pre) =~= seq![pre]);
        lemma_first_content(seq![pre], a, none);
    } else {
        assert(text::lines_of(pre) =~= none);
        lemma_first_content(none, a, none);
    }
}

/// A Gemfile asks for the version in quotation marks behind `ruby`, of either
/// kind, as it stands there.
pub proof fn law_gemfile_version(
    pre: Seq<char>,
    gap: Seq<char>,
    q: char,
    v: Seq<char>,
    tail: Seq<char>,
)
    requires
        appconfig::is_blank(pre) && appconfig::is_blank(gap),
        q == '"' || q == '\'',
        v.len() > 0 && !v.contains(q) && number::is_digit(v[0]),
        tail.len() == 0 || !text::is_space(tail.last()),
    ensures
        directive_in(pre + ("ruby"@ + gap + (seq![q] + v + seq![q] + tail))) == Directive::Version(v),
{
    let quote = seq![q] + v + seq![q] + tail;
    assert(quote.last() == q || quote.last() == tail.last());
    assert(!text::is_space(q));
    lemma_ruby_line(pre, gap, quote);
    lemma_quote_read(q, v, tail);
    if q == '\'' {
        assert(quoted_front(quote, '"') is None);
    }
}

/// Behind `ruby` and `file:` a Gemfile names the file that asks for the version.
pub proof fn law_gemfile_file(
    pre: Seq<char>,
    gap: Seq<char>,
    gap2: Seq<char>,
    name: Seq<char>,
    tail: Seq<char>,
)
    requires
        appconfig::is_blank(pre) && appconfig::is_blank(gap) && appconfig::is_blank(gap2),
        !name.contains('"'),
        tail.len() == 0 || !text::is_space(tail.last()),
    ensures
        directive_in(
            pre + ("ruby"@ + gap + ("file:"@ + (gap2 + (seq!['"'] + name + seq!['"'] + tail)))),
        ) == Directive::File(name),
{
    reveal_strlit("file:");
    let nothing = Seq::<char>::empty();
    let quote = seq!['"'] + name + seq!['"'] + tail;
    let inner = "file:"@ + (gap2 + quote);
    assert(quote.last() == '"' || quote.last() == tail.last());
    assert(inner.last() == quote.last() && inner[0] == 'f');
    lemma_ruby_line(pre, gap, inner);
    lemma_quote_read('"', name, tail);
    assert(quoted_front(inner, '"') is None && quoted_front(inner, '\'') is None);
    assert(inner.take(5) =~= "file:"@);
    assert(inner.skip(5) =~= gap2 + quote);
    assert(gap2 + quote + nothing =~= gap2 + quote);
    text::law_trimmed(gap2, quote, nothing);
}

proof fn lemma_ruby_line(pre: Seq<char>, gap: Seq<char>, rest: Seq<char>)
    requires
        appconfig::is_blank(pre) && appconfig::is_blank(gap),
        rest.len() > 0 && !text::is_space(rest[0]) && !text::is_space(rest.last()),
    ensures
        ({
            let t = text::trimmed(pre + ("ruby"@ + gap + rest));
            &&& text::has_prefix(t, "ruby"@)
            &&& "ruby"@.len() == 4
            &&& text::trimmed_start(t.skip(4)) == rest
        }),
{
    reveal_strlit("ruby");
    let nothing = Seq::<char>::empty();
    let line = "ruby"@ + gap + rest;
    assert(line[0] == 'r' && line.last() == rest.last());
    text::law_trimmed(pre, line, nothing);
    assert(pre + line + nothing =~= pre + line);
    assert(line.take(4) =~= "ruby"@);
    assert(line.skip(4) =~= gap + rest + nothing);
    text::law_trimmed(gap, rest, nothing);
    assert(rest + nothing =~= rest);
}

/// A version whose quotation mark is never closed goes on to the end of the
/// line.
pub proof fn law_unclosed_version(q: char, v: Seq<char>)
    requires
        !v.contains(q),
    ensures
        quoted_front(seq![q] + v, q) == Some(v),
        v.len() == 0 || v[0] != q ==> quoted_front(v, q) is None,
{
    let s = seq![q] + v;
    assert(s.skip(1) =~= v);
    assert forall|j: int| 0 <= j < v.len() implies v[j] != q by {
        assert(v.contains(v[j]));
    }
    text::lemma_index_of_is(v, q, v.len() as int);
    assert(v.take(v.len() as int) =~= v);
}

proof fn lemma_quote_read(q: char, v: Seq<char>, tail: Seq<char>)
    requires
        !v.contains(q),
    ensures
        quoted_front(seq![q] + v + seq![q] + tail, q) == Some(v),
{
    let s = seq![q] + v + seq![q] + tail;
    let t = v + seq![q] + tail;
    assert(s.skip(1) =~= t);
    assert forall|j: int| 0 <= j < v.len() implies t[j] != q by {
        assert(t[j] == v[j]);
        assert(v.contains(v[j]));
    }
    text::lemma_index_of_is(t, q, v.len() as int);
    assert(t.take(v.len() as int) =~= v);
}

/// The first line of a Gemfile that asks for a version decides, and lines that
/// do not begin with `ruby` ask for none.
pub proof fn law_gemfile_lines(front: Seq<Seq<char>>, line: Seq<char>, rest: Seq<Seq<char>>)
    requires
        forall|i: int|
            0 <= i < front.len() ==> !text::has_prefix(text::trimmed(#[trigger] front[i]), "ruby"@),
        !(directive_in(line) is Unstated),
    ensures
        directive_of(front + seq![line] + rest) == directive_in(line),
        directive_of(front) is Unstated,
    decreases front.len(),
{
    let all = front + seq![line] + rest;
    if front.len() == 0 {
        assert(all[0] == line);
    } else {
        let less = front.skip(1);
        assert forall|i: int| 0 <= i < less.len() implies !text::has_prefix(
            text::trimmed(#[trigger] less[i]),
            "ruby"@,
        ) by {
            assert(less[i] == front[i + 1]);
        }
        law_gemfile_lines(less, line, rest);
        assert(all[0] == front[0]);
        assert(all.skip(1) =~= less + seq![line] + rest);
    }
}

/// The number of the user is the first one behind `Uid:`, wherever that line
/// stands; other lines do not count.
pub proof fn law_uid(
    front: Seq<Seq<char>>,
    gap: Seq<char>,
    n: nat,
    others: Seq<char>,
    rest: Seq<Seq<char>>,
)
    requires
        forall|i: int|
            0 <= i < front.len() ==> !(text::first_word(#[trigger] front[i]) matches Some(w) && w.0
                == "Uid:"@),
        gap.len() > 0 && appconfig::is_blank(gap),
        n <= u32::MAX,
        others.len() == 0 || text::is_space(others[0]),
    ensures
        uid_of(front + seq!["Uid:"@ + gap + number::decimal(n) + others] + rest) == n,
        uid_of(front) == 0,
    decreases front.len(),
{
    let line = "Uid:"@ + gap + number::decimal(n) + others;
    let all = front + seq![line] + rest;
    if front.len() == 0 {
        reveal_strlit("Uid:");
        let nothing = Seq::<char>::empty();
        let d = number::decimal(n);
        let after = gap + d + others;
        assert(all[0] == line);
        assert(line =~= nothing + "Uid:"@ + after);
        assert(after[0] == gap[0] && text::is_space(gap[0]));
        text::law_first_word(nothing, "Uid:"@, after);
        number::lemma_decimal_reads_back(n, u32::MAX as int);
        assert forall|i: int| 0 <= i < d.len() implies !text::is_space(#[trigger] d[i]) by {
            assert(number::is_digit(d[i]));
        }
        text::law_first_word(gap, d, others);
    } else {
        let less = front.skip(1);
        assert forall|i: int| 0 <= i < less.len() implies !(text::first_word(
            #[trigger] less[i],
        ) matches Some(w) && w.0 == "Uid:"@) by {
            assert(less[i] == front[i + 1]);
        }
        law_uid(less, gap, n, others, rest);
        assert(all[0] == front[0]);
        assert(all.skip(1) =~= less + seq![line] + rest);
    }
}

proof fn lemma_env_names_apart()
    ensures
        "CALISTO_EMBED_RUBY"@ != "CALISTO_SOCKET"@,
        "CALISTO_EMBED_RUBY"@ != "CALISTO_PIDFILE"@,
        "CALISTO_EMBED_RUBY"@ != "CALISTO_PRELOAD"@,
        "CALISTO_EMBED_RUBY"@ != "MALLOC_ARENA_MAX"@,
        "CALISTO_EMBED_RUBY"@ != "CALISTO_COMPACT"@,
        "CALISTO_EMBED_RUBY"@ != "CALISTO_APP_PRELOAD"@,
        "CALISTO_EMBED_RUBY"@ != "CALISTO_APP_WARMUP"@,
        "CALISTO_SOCKET"@ != "CALISTO_PIDFILE"@,
        "CALISTO_SOCKET"@ != "CALISTO_PRELOAD"@,
        "CALISTO_SOCKET"@ != "MALLOC_ARENA_MAX"@,
        "CALISTO_SOCKET"@ != "CALISTO_COMPACT"@,
        "CALISTO_SOCKET"@ != "CALISTO_APP_PRELOAD"@,
        "CALISTO_SOCKET"@ != "CALISTO_APP_WARMUP"@,
        "CALISTO_PIDFILE"@ != "CALISTO_PRELOAD"@,
        "CALISTO_PIDFILE"@ != "MALLOC_ARENA_MAX"@,
        "CALISTO_PIDFILE"@ != "CALISTO_COMPACT"@,
        "CALISTO_PIDFILE"@ != "CALISTO_APP_PRELOAD"@,
        "CALISTO_PIDFILE"@ != "CALISTO_APP_WARMUP"@,
        "CALISTO_PRELOAD"@ != "MALLOC_ARENA_MAX"@,
        "CALISTO_PRELOAD"@ != "CALISTO_COMPACT"@,
        "CALISTO_PRELOAD"@ != "CALISTO_APP_PRELOAD"@,
        "CALISTO_PRELOAD"@ != "CALISTO_APP_WARMUP"@,
        "MALLOC_ARENA_MAX"@ != "CALISTO_COMPACT"@,
        "MALLOC_ARENA_MAX"@ != "CALISTO_APP_PRELOAD"@,
        "MALLOC_ARENA_MAX"@ != "CALISTO_APP_WARMUP"@,
        "CALISTO_COMPACT"@ != "CALISTO_APP_PRELOAD"@,
        "CALISTO_COMPACT"@ != "CALISTO_APP_WARMUP"@,
        "CALISTO_APP_PRELOAD"@ != "CALISTO_APP_WARMUP"@,
        "1"@ != "0"@,
{
    reveal_strlit("CALISTO_EMBED_RUBY");
    reveal_strlit("CALISTO_SOCKET");
    reveal_strlit("CALISTO_PIDFILE");
    reveal_strlit("CALISTO_PRELOAD");
    reveal_strlit("MALLOC_ARENA_MAX");
    reveal_strlit("CALISTO_COMPACT");
    reveal_strlit("CALISTO_APP_PRELOAD");
    reveal_strlit("CALISTO_APP_WARMUP");
    reveal_strlit("1");
    reveal_strlit("0");
    assert("CALISTO_EMBED_RUBY"@[8] == 'E' && "CALISTO_SOCKET"@[8] == 'S' && "CALISTO_PIDFILE"@[8]
        == 'P' && "CALISTO_PRELOAD"@[8] == 'P' && "MALLOC_ARENA_MAX"@[0] == 'M'
        && "CALISTO_COMPACT"@[8] == 'C' && "CALISTO_APP_PRELOAD"@[8] == 'A'
        && "CALISTO_APP_WARMUP"@[8] == 'A');
    assert("CALISTO_PIDFILE"@[9] == 'I' && "CALISTO_PRELOAD"@[9] == 'R');
    assert("CALISTO_APP_PRELOAD"@[12] == 'P' && "CALISTO_APP_WARMUP"@[12] == 'W');
    assert("CALISTO_EMBED_RUBY"@[0] == 'C' && "CALISTO_SOCKET"@[0] == 'C' && "CALISTO_PIDFILE"@[0]
        == 'C' && "CALISTO_PRELOAD"@[0] == 'C' && "CALISTO_COMPACT"@[0] == 'C'
        && "CALISTO_APP_PRELOAD"@[0] == 'C' && "CALISTO_APP_WARMUP"@[0] == 'C');
    assert("1"@[0] == '1' && "0"@[0] == '0');
}

/// A daemon is told its Ruby, where its socket and the file with its number
/// stand, what it loads in advance, and whether it compacts; an application's
/// is told its entry point and the script that warms it up as well, and what is
/// set besides comes last.
pub proof fn law_daemon_told(
    ruby: Seq<char>,
    app: appconfig::Config,
    dir: Seq<char>,
    preload: Seq<char>,
    compact: bool,
    warmup: Option<Seq<char>>,
    envs: Seq<(Seq<char>, Seq<char>)>,
    k: Seq<char>,
)
    ensures
        ({
            let e = daemon_env(ruby, dir, preload, compact);
            &&& request::value_after(e, "CALISTO_EMBED_RUBY"@) == Some(ruby)
            &&& request::value_after(e, "CALISTO_SOCKET"@) == Some(
                path::joined_path(dir, "calisto.sock"@),
            )
            &&& request::value_after(e, "CALISTO_PIDFILE"@) == Some(
                path::joined_path(dir, "calisto.pid"@),
            )
            &&& request::value_after(e, "CALISTO_PRELOAD"@) == Some(preload)
            &&& request::value_after(e, "CALISTO_COMPACT"@) == Some("1"@) <==> compact
            &&& request::value_after(e, "CALISTO_COMPACT"@) == Some("0"@) <==> !compact
            &&& request::value_after(e, "CALISTO_APP_PRELOAD"@) is None
            &&& request::value_after(e, "CALISTO_APP_WARMUP"@) is None
        }),
        ({
            let e = app_env(ruby, app, dir, compact, warmup, envs);
            let told = request::value_after(e, k);
            if request::value_after(envs, k) is Some {
                told == request::value_after(envs, k)
            } else if k == "CALISTO_APP_WARMUP"@ {
                told == warmup
            } else if k == "CALISTO_APP_PRELOAD"@ {
                told == app.preload
            } else {
                told == request::value_after(daemon_env(ruby, dir, ""@, compact), k)
            }
        }),
{
    lemma_env_names_apart();
    lemma_daemon_env(ruby, dir, preload, compact);
    lemma_daemon_env(ruby, dir, ""@, compact);
    let own = daemon_env(ruby, dir, ""@, compact);
    let a = opt_pair("CALISTO_APP_PRELOAD"@, app.preload);
    let b = opt_pair("CALISTO_APP_WARMUP"@, warmup);
    lemma_value_then(own + a + b, envs, k);
    lemma_value_then(own + a, b, k);
    lemma_value_then(own, a, k);
    reveal_with_fuel(request::value_after, 2);
}

proof fn lemma_value_then(
    a: Seq<(Seq<char>, Seq<char>)>,
    b: Seq<(Seq<char>, Seq<char>)>,
    k: Seq<char>,
)
    ensures
        request::value_after(a + b, k) == (match request::value_after(b, k) {
            Some(v) => Some(v),
            None => request::value_after(a, k),
        }),
    decreases b.len(),
{
    if b.len() == 0 {
        assert(a + b =~= a);
    } else {
        lemma_value_then(a, b.drop_last(), k);
        assert((a + b).drop_last() =~= a + b.drop_last());
        assert((a + b).last() == b.last());
    }
}

proof fn lemma_daemon_env(ruby: Seq<char>, dir: Seq<char>, preload: Seq<char>, compact: bool)
    ensures
        ({
            let e = daemon_env(ruby, dir, preload, compact);
            &&& request::value_after(e, "CALISTO_EMBED_RUBY"@) == Some(ruby)
            &&& request::value_after(e, "CALISTO_SOCKET"@) == Some(
                path::joined_path(dir, "calisto.sock"@),
            )
            &&& request::value_after(e, "CALISTO_PIDFILE"@) == Some(
                path::joined_path(dir, "calisto.pid"@),
            )
            &&& request::value_after(e, "CALISTO_PRELOAD"@) == Some(preload)
            &&& request::value_after(e, "CALISTO_COMPACT"@) == Some(
                if compact {
                    "1"@
                } else {
                    "0"@
                },
            )
            &&& request::value_after(e, "CALISTO_APP_PRELOAD"@) is None
            &&& request::value_after(e, "CALISTO_APP_WARMUP"@) is None
        }),
{
    lemma_env_names_apart();
    let e = daemon_env(ruby, dir, preload, compact);
    let c = e.drop_last();
    let m = c.drop_last();
    let p = m.drop_last();
    let f = p.drop_last();
    let s = f.drop_last();
    assert(e.last() == e[5] && c.last() == e[4] && m.last() == e[3] && p.last() == e[2] && f.last()
        == e[1] && s.last() == e[0]);
    assert(s.drop_last().len() == 0);
    reveal_with_fuel(request::value_after, 8);
}

/// Which Ruby is used, where the files that are there are known: the one that
/// `CALISTO_RUBY` names where it is there; else exactly the version that is
/// asked for, by `.ruby-version` before the Gemfile, or an error; and where none
/// is asked for the pinned one, the current one, or that of the system.
pub proof fn law_ruby_chosen<F: Fn(&str) -> bool>(
    is_file: F,
    there: Set<Seq<char>>,
    vendor: Seq<char>,
    a: RubyAsked,
    r: RubyChoice,
)
    requires
        appconfig::is_faithful(is_file, there),
        resolves(is_file, Some(vendor), a, r),
        vendor.len() > 0 && vendor.last() != '/',
    ensures
        ({
            let packaged = |v: Seq<char>| vendor + "/ruby-"@ + v + "/bin/ruby"@;
            let wants = |v: Seq<char>|
                if there.contains(packaged(v)) {
                    r.ruby matches Ok(p) && p@ == packaged(v)
                } else {
                    r.ruby matches Err(m) && text::has_prefix(m@, "calisto: ruby "@ + v)
                        && text::has_suffix(m@, " RUBY_VERSION="@ + v + " scripts/build-ruby.sh"@)
                };
            match a.override_ruby {
                Some(o) if there.contains(o@) => r.ruby matches Ok(p) && p@ == o@,
                _ => match (a.version_file, a.gemfile_version) {
                    (Some((_, Some(v))), _) => wants(v@),
                    (_, Some(v)) => wants(v@),
                    (_, None) => {
                        let current = vendor + "/current/bin/ruby"@;
                        r.ruby matches Ok(p) && p@ == (if there.contains(packaged("3.4.10"@)) {
                            packaged("3.4.10"@)
                        } else if there.contains(current) {
                            current
                        } else {
                            "ruby"@
                        })
                    },
                },
            }
        }),
        r.ignored_override <==> (a.override_ruby matches Some(o) && !there.contains(o@)),
{
    lemma_vendor_text(vendor, PINNED_RUBY@);
    assert(current_path(vendor) =~= vendor + "/current/bin/ruby"@) by {
        reveal_strlit("current/bin/ruby");
        reveal_strlit("/current/bin/ruby");
    }
    let overridden = a.override_ruby matches Some(o) && there.contains(o@);
    match wanted(a) {
        Some((want, by)) => {
            lemma_vendor_text(vendor, want);
            if !overridden {
                lemma_not_installed(want, by);
            }
        },
        None => {},
    }
}

proof fn lemma_vendor_text(vendor: Seq<char>, v: Seq<char>)
    requires
        vendor.len() > 0 && vendor.last() != '/',
    ensures
        vendor_path(vendor, v) == vendor + "/ruby-"@ + v + "/bin/ruby"@,
{
    reveal_strlit("ruby-");
    reveal_strlit("/ruby-");
    let rel = "ruby-"@ + v + "/bin/ruby"@;
    assert(rel[0] == 'r');
    assert("/ruby-"@ =~= seq!['/'] + "ruby-"@);
    assert(vendor_path(vendor, v) =~= vendor + "/ruby-"@ + v + "/bin/ruby"@);
}

proof fn lemma_not_installed(want: Seq<char>, by: Seq<char>)
    ensures
        text::has_prefix(not_installed(want, by), "calisto: ruby "@ + want),
        text::has_suffix(
            not_installed(want, by),
            " RUBY_VERSION="@ + want + " scripts/build-ruby.sh"@,
        ),
{
    reveal_strlit(" ausente); rode RUBY_VERSION=");
    reveal_strlit(" RUBY_VERSION=");
    let m = not_installed(want, by);
    let front = "calisto: ruby "@ + want;
    let back = " RUBY_VERSION="@ + want + " scripts/build-ruby.sh"@;
    assert(m.take(front.len() as int) =~= front);
    assert(m.skip(m.len() - back.len()) =~= back);
}

/// Every `ruby-` in front of a version is passed over.
pub proof fn law_prefixes_passed(s: Seq<char>)
    ensures
        without_prefixes("ruby-"@ + s, "ruby-"@) == without_prefixes(s, "ruby-"@),
        !text::has_prefix(s, "ruby-"@) ==> without_prefixes(s, "ruby-"@) == s,
{
    reveal_strlit("ruby-");
    let t = "ruby-"@ + s;
    assert(t.take(5) =~= "ruby-"@);
    assert(t.skip(5) =~= s);
}

/// A daemon of another version than the pinned one stands in a directory that is
/// named after the version.
pub proof fn law_generic_dir(ruby: Seq<char>, runtime_dir: Seq<char>, v: Seq<char>)
    requires
        runtime_dir.len() > 0 && runtime_dir.last() != '/',
    ensures
        version_of(ruby) == Some(v) ==> generic_dir(ruby, runtime_dir) == runtime_dir + "/ruby-"@ + v,
        version_of(ruby) is None ==> generic_dir(ruby, runtime_dir) == runtime_dir,
{
    reveal_strlit("ruby-");
    reveal_strlit("/ruby-");
    assert("/ruby-"@ =~= seq!['/'] + "ruby-"@);
    let rel = "ruby-"@ + v;
    assert(rel[0] == 'r');
    assert(path::joined_path(runtime_dir, rel) =~= runtime_dir + "/ruby-"@ + v);
}

/// What is said of a Ruby without a shared library tells how to build it again:
/// the version that it is known by, or the pinned one.
pub proof fn law_rebuild_told(ruby: Seq<char>, v: Seq<char>)
    ensures
        text::has_prefix(no_library(ruby), ruby),
        version_of(ruby) == Some(v) || (version_of(ruby) is None && v == "3.4.10"@)
            ==> text::has_suffix(
            no_library(ruby),
            " RUBY_VERSION="@ + v + " scripts/build-ruby.sh"@,
        ),
{
    reveal_strlit(
        " nao tem libruby.so (build pre --enable-shared); rode CALISTO_REBUILD=1 RUBY_VERSION=",
    );
    reveal_strlit(" RUBY_VERSION=");
    let m = no_library(ruby);
    assert(m.take(ruby.len() as int) =~= ruby);
    if version_of(ruby) == Some(v) || (version_of(ruby) is None && v == "3.4.10"@) {
        let e = " RUBY_VERSION="@ + v + " scripts/build-ruby.sh"@;
        assert(m.skip(m.len() - e.len()) =~= e);
    }
}

} // verus!
