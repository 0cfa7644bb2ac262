//! The configuration of an application: `calisto.toml`, `.env`, and what
//! follows from them.
use vstd::prelude::*;
use vstd::slice::slice_subrange;
use vstd::utf8::*;
use crate::number;
use crate::number::{decimal_of, hex16};
use crate::path;
use crate::path::{join_path, parent};
use crate::protocol::request;
use crate::runtime;
use crate::runtime::ruby_version_of;
use crate::text;
use crate::text::{
    chars_of, find, is, is_whitespace, lines, split_once, str_eq, string_of, strip_prefix, trim,
};

verus! {

/// What a daemon loads in advance where no application says otherwise: the
/// cheap parts of the standard library.
pub const DEFAULT_PRELOAD: &'static str = "json,erb,pathname,fileutils,time,date,digest,base64,ostruct,set,stringio,logger,socket";

/// A list of libraries to load in advance; `0` and `none` mean none.
pub open spec fn normalized(v: Seq<char>) -> Seq<char> {
    if v == "0"@ || v == "none"@ {
        Seq::empty()
    } else {
        v
    }
}

/// Normalises a list of libraries to load in advance.
pub fn normalize_preload(v: &str) -> (r: String)
    ensures
        r@ == normalized(v@),
{
    if str_eq(v, "0") || str_eq(v, "none") {
        String::new()
    } else {
        v.to_string()
    }
}

/// Normalising twice is normalising once.
pub proof fn law_normalize_idempotent(v: Seq<char>)
    ensures
        normalized(normalized(v)) == normalized(v),
{
}

/// Looks for a file from a directory upwards. The function is asked for each
/// candidate in turn, until it says that the file is there.
pub fn find_in_parents_from<F: Fn(&str) -> bool>(base: &str, name: &str, is_file: F) -> (r: Option<
    String,
>)
    requires
        runtime::can_ask(is_file),
    ensures
        found_in_parents(is_file, path::ancestors(base@), name@, r),
{
    let mut dir: String = base.to_string();
    let mut more = true;
    let ghost all = path::ancestors(base@);
    let ghost mut k: int = 0;
    assert(all.skip(0) =~= all);
    while more
        invariant
            runtime::can_ask(is_file),
            all == path::ancestors(base@),
            0 <= k <= all.len(),
            forall|j: int| 0 <= j < k ==> runtime::told(
                is_file,
                path::joined_path(#[trigger] all[j], name@),
                false,
            ),
            more ==> k < all.len() && all.skip(k) == path::ancestors(dir@),
            !more ==> k == all.len(),
        decreases all.len() - k,
    {
        assert(all[k] == all.skip(k)[0]);
        assert(all[k] == dir@);
        let cand = join_path(dir.as_str(), name);
        if is_file(cand.as_str()) {
            assert(runtime::told(is_file, path::joined_path(all[k], name@), true));
            return Some(cand);
        }
        assert(runtime::told(is_file, path::joined_path(all[k], name@), false));
        match parent(dir.as_str()) {
            Some(p) => {
                assert(path::ancestors(dir@) == seq![dir@] + path::ancestors(p@));
                assert(all.skip(k + 1) =~= path::ancestors(dir@).skip(1));
                assert(path::ancestors(dir@).skip(1) =~= path::ancestors(p@));
                assert(path::ancestors(p@).len() > 0);
                dir = p;
            },
            None => {
                assert(path::ancestors(dir@) == seq![dir@]);
                assert(all.skip(k).len() == 1);
                more = false;
            },
        }
        proof {
            k = k + 1;
        }
    }
    None
}

/// What a search through directories gives: the first candidate that is said
/// to be there, or nothing where all are said not to be.
pub open spec fn found_in_parents<F: Fn(&str) -> bool>(
    is_file: F,
    dirs: Seq<Seq<char>>,
    name: Seq<char>,
    r: Option<String>,
) -> bool {
    match r {
        Some(p) => exists|k: int|
            {
                &&& 0 <= k < dirs.len()
                &&& p@ == path::joined_path(#[trigger] dirs[k], name)
                &&& runtime::told(is_file, p@, true)
                &&& forall|j: int|
                    0 <= j < k ==> runtime::told(
                        is_file,
                        path::joined_path(#[trigger] dirs[j], name),
                        false,
                    )
            },
        None => forall|j: int|
            0 <= j < dirs.len() ==> runtime::told(
                is_file,
                path::joined_path(#[trigger] dirs[j], name),
                false,
            ),
    }
}

/// The configuration of an application.
#[derive(Debug, Clone)]
pub struct AppConfig {
    /// The directory of the configuration file.
    pub root: String,
    /// The entry point that the daemon of the application loads in advance.
    pub preload: Option<String>,
    /// Whether the daemon compacts its heap after it has booted.
    pub compact: Option<bool>,
    /// Whether the daemon boots with the JIT compiler.
    pub yjit: Option<bool>,
    /// A script that warms the daemon up before it serves.
    pub warmup: Option<String>,
    /// The named commands, in the order of the file.
    pub scripts: Vec<(String, String)>,
}

/// A configuration, as contracts see it.
#[verifier::ext_equal]
pub struct Config {
    pub root: Seq<char>,
    pub preload: Option<Seq<char>>,
    pub compact: Option<bool>,
    pub yjit: Option<bool>,
    pub warmup: Option<Seq<char>>,
    pub scripts: Seq<(Seq<char>, Seq<char>)>,
}

/// The text of a string that may be missing.
pub open spec fn opt_view(s: Option<String>) -> Option<Seq<char>> {
    match s {
        Some(t) => Some(t@),
        None => None,
    }
}

impl View for AppConfig {
    type V = Config;

    open spec fn view(&self) -> Config {
        Config {
            root: self.root@,
            preload: opt_view(self.preload),
            compact: self.compact,
            yjit: self.yjit,
            warmup: opt_view(self.warmup),
            scripts: request::pair_views(self.scripts@),
        }
    }
}

/// A text without the characters `c` at its front.
pub open spec fn without_front(s: Seq<char>, c: char) -> Seq<char>
    decreases s.len(),
{
    if s.len() > 0 && s[0] == c {
        without_front(s.skip(1), c)
    } else {
        s
    }
}

/// A text without the characters `c` at its back.
pub open spec fn without_back(s: Seq<char>, c: char) -> Seq<char>
    decreases s.len(),
{
    if s.len() > 0 && s.last() == c {
        without_back(s.drop_last(), c)
    } else {
        s
    }
}

/// Removes the characters `c` from the front.
pub fn strip_front(s: &[char], c: char) -> (r: &[char])
    ensures
        r@ == without_front(s@, c),
{
    let mut i: usize = 0;
    assert(s@.skip(0) =~= s@);
    while i < s.len() && s[i] == c
        invariant
            i <= s@.len(),
            without_front(s@.skip(i as int), c) == without_front(s@, c),
        decreases s@.len() - i,
    {
        assert(s@.skip(i as int).skip(1) =~= s@.skip(i + 1));
        i += 1;
    }
    let r = slice_subrange(s, i, s.len());
    assert(r@ =~= s@.skip(i as int));
    r
}

/// Removes the characters `c` from the back.
pub fn strip_back(s: &[char], c: char) -> (r: &[char])
    ensures
        r@ == without_back(s@, c),
{
    let mut n: usize = s.len();
    assert(s@.take(n as int) =~= s@);
    while n > 0 && s[n - 1] == c
        invariant
            n <= s@.len(),
            without_back(s@.take(n as int), c) == without_back(s@, c),
        decreases n,
    {
        assert(s@.take(n as int).drop_last() =~= s@.take(n - 1));
        n -= 1;
    }
    let r = slice_subrange(s, 0, n);
    assert(r@ =~= s@.take(n as int));
    r
}

/// What a line of the configuration file is.
pub enum Line {
    /// Nothing, or a comment only.
    Blank,
    /// The name of a section in brackets.
    Section(Seq<char>),
    /// A key and a value.
    Pair(Seq<char>, Seq<char>),
    /// Anything else.
    Other,
}

/// What a line says, without its comment and the white space around it.
pub open spec fn content_of(raw: Seq<char>) -> Seq<char> {
    text::trimmed(raw.take(text::index_of(raw, '#')))
}

/// What a line is.
pub open spec fn classified(raw: Seq<char>) -> Line {
    let line = content_of(raw);
    if line.len() == 0 {
        Line::Blank
    } else if line[0] == '[' {
        Line::Section(text::trimmed(without_back(without_front(line, '['), ']')))
    } else {
        match text::split_at_first(line, '=') {
            Some((k, v)) => Line::Pair(text::trimmed(k), text::trimmed(v)),
            None => Line::Other,
        }
    }
}

/// A value without its quotation marks, where it has them.
pub open spec fn quoted(v: Seq<char>) -> Option<Seq<char>> {
    if v.len() >= 2 && v[0] == '"' && v.last() == '"' {
        Some(v.subrange(1, v.len() - 1))
    } else {
        None
    }
}

/// Whether the value of a key may stand without quotation marks: that of a
/// switch for running.
pub open spec fn is_bare(in_run: bool, k: Seq<char>) -> bool {
    in_run && (k == "compact"@ || k == "yjit"@)
}

/// The value of a key in a section.
pub open spec fn value_of(in_run: bool, k: Seq<char>, v: Seq<char>) -> Option<Seq<char>> {
    match quoted(v) {
        Some(s) => Some(s),
        None => if is_bare(in_run, k) {
            Some(v)
        } else {
            None
        },
    }
}

/// The meaning of a value that is true or false.
pub open spec fn flag(v: Seq<char>) -> Option<bool> {
    if v == "true"@ {
        Some(true)
    } else if v == "false"@ {
        Some(false)
    } else {
        None
    }
}

/// What is known after some lines: the settings, and whether the section is
/// that of the settings for running.
#[verifier::ext_equal]
pub struct Settings {
    pub in_run: bool,
    pub preload: Option<Seq<char>>,
    pub compact: Option<bool>,
    pub yjit: Option<bool>,
    pub warmup: Option<Seq<char>>,
    pub scripts: Seq<(Seq<char>, Seq<char>)>,
}

/// What is known before the first line. Keys in front of the first section
/// belong to the settings for running.
pub open spec fn no_settings() -> Settings {
    Settings {
        in_run: true,
        preload: None,
        compact: None,
        yjit: None,
        warmup: None,
        scripts: Seq::empty(),
    }
}

/// What is said of line `n`.
pub open spec fn complaint(n: nat, a: Seq<char>, b: Seq<char>, c: Seq<char>) -> Seq<char> {
    "calisto.toml:"@ + number::decimal(n) + a + b + c
}

/// What is known after a setting for running.
pub open spec fn with_setting(
    st: Settings,
    k: Seq<char>,
    value: Seq<char>,
    n: nat,
    base: Seq<char>,
) -> Result<Settings, Seq<char>> {
    if k == "preload"@ {
        if value.len() == 0 {
            Err(complaint(n, ": preload vazio"@, ""@, ""@))
        } else {
            Ok(Settings { preload: Some(path::joined_path(base, value)), ..st })
        }
    } else if k == "compact"@ {
        match flag(value) {
            Some(b) => Ok(Settings { compact: Some(b), ..st }),
            None => Err(
                complaint(n, ": compact precisa ser true/false (achei '"@, value, "')"@),
            ),
        }
    } else if k == "yjit"@ {
        match flag(value) {
            Some(b) => Ok(Settings { yjit: Some(b), ..st }),
            None => Err(complaint(n, ": yjit precisa ser true/false (achei '"@, value, "')"@)),
        }
    } else if k == "warmup"@ {
        if value.len() == 0 {
            Err(complaint(n, ": warmup vazio"@, ""@, ""@))
        } else {
            Ok(Settings { warmup: Some(path::joined_path(base, value)), ..st })
        }
    } else {
        Err(
            complaint(
                n,
                ": chave desconhecida '"@,
                k,
                "' (scripts vao na secao [scripts])"@,
            ),
        )
    }
}

/// What is known after line `n`, or what is wrong with that line.
pub open spec fn after_line(st: Settings, raw: Seq<char>, n: nat, base: Seq<char>) -> Result<
    Settings,
    Seq<char>,
> {
    match classified(raw) {
        Line::Blank => Ok(st),
        Line::Section(name) => if name == "run"@ {
            Ok(Settings { in_run: true, ..st })
        } else if name == "scripts"@ {
            Ok(Settings { in_run: false, ..st })
        } else {
            Err(complaint(n, ": secao desconhecida '"@, name, "'"@))
        },
        Line::Other => Err(complaint(n, ": linha invalida: "@, raw, ""@)),
        Line::Pair(k, v) => match value_of(st.in_run, k, v) {
            None => Err(complaint(n, ": "@, k, " precisa ser \"valor\""@)),
            Some(value) => if st.in_run {
                with_setting(st, k, value, n, base)
            } else {
                Ok(Settings { scripts: st.scripts.push((k, value)), ..st })
            },
        },
    }
}

/// What is known after all lines, or what is wrong with the first wrong one.
pub open spec fn after_lines(lines: Seq<Seq<char>>, base: Seq<char>) -> Result<Settings, Seq<char>>
    decreases lines.len(),
{
    if lines.len() == 0 {
        Ok(no_settings())
    } else {
        match after_lines(lines.drop_last(), base) {
            Ok(st) => after_line(st, lines.last(), lines.len(), base),
            Err(m) => Err(m),
        }
    }
}

struct Draft {
    in_run: bool,
    preload: Option<String>,
    compact: Option<bool>,
    yjit: Option<bool>,
    warmup: Option<String>,
    scripts: Vec<(String, String)>,
}

impl Draft {
    spec fn settings(&self) -> Settings {
        Settings {
            in_run: self.in_run,
            preload: opt_view(self.preload),
            compact: self.compact,
            yjit: self.yjit,
            warmup: opt_view(self.warmup),
            scripts: request::pair_views(self.scripts@),
        }
    }
}

fn complain(n: usize, a: &str, b: &str, c: &str) -> (r: String)
    ensures
        r@ == complaint(n as nat, a@, b@, c@),
{
    let mut r = "calisto.toml:".to_string();
    r.append(decimal_of(n as u64).as_str());
    r.append(a);
    r.append(b);
    r.append(c);
    r
}

fn read_flag(v: &[char]) -> (r: Option<bool>)
    ensures
        r == flag(v@),
{
    if is(v, "true") {
        Some(true)
    } else if is(v, "false") {
        Some(false)
    } else {
        None
    }
}

fn unquote(v: &[char]) -> (r: Option<&[char]>)
    ensures
        match r {
            Some(s) => quoted(v@) == Some(s@),
            None => quoted(v@) is None,
        },
{
    if v.len() >= 2 && v[0] == '"' && v[v.len() - 1] == '"' {
        Some(slice_subrange(v, 1, v.len() - 1))
    } else {
        None
    }
}

fn apply_setting(draft: &mut Draft, k: &[char], value: &[char], n: usize, base: &str) -> (r: Result<
    (),
    String,
>)
    ensures
        match with_setting(old(draft).settings(), k@, value@, n as nat, base@) {
            Ok(st) => r is Ok && final(draft).settings() == st,
            Err(m) => r matches Err(e) && e@ == m,
        },
{
    if is(k, "preload") {
        if value.len() == 0 {
            return Err(complain(n, ": preload vazio", "", ""));
        }
        draft.preload = Some(join_path(base, string_of(value).as_str()));
        Ok(())
    } else if is(k, "compact") {
        match read_flag(value) {
            Some(b) => {
                draft.compact = Some(b);
                Ok(())
            },
            None => Err(
                complain(
                    n,
                    ": compact precisa ser true/false (achei '",
                    string_of(value).as_str(),
                    "')",
                ),
            ),
        }
    } else if is(k, "yjit") {
        match read_flag(value) {
            Some(b) => {
                draft.yjit = Some(b);
                Ok(())
            },
            None => Err(
                complain(
                    n,
                    ": yjit precisa ser true/false (achei '",
                    string_of(value).as_str(),
                    "')",
                ),
            ),
        }
    } else if is(k, "warmup") {
        if value.len() == 0 {
            return Err(complain(n, ": warmup vazio", "", ""));
        }
        draft.warmup = Some(join_path(base, string_of(value).as_str()));
        Ok(())
    } else {
        Err(
            complain(
                n,
                ": chave desconhecida '",
                string_of(k).as_str(),
                "' (scripts vao na secao [scripts])",
            ),
        )
    }
}

fn apply_line(draft: &mut Draft, raw: &[char], n: usize, base: &str) -> (r: Result<(), String>)
    ensures
        match after_line(old(draft).settings(), raw@, n as nat, base@) {
            Ok(st) => r is Ok && final(draft).settings() == st,
            Err(m) => r matches Err(e) && e@ == m,
        },
{
    let i: usize = find(raw, '#');
    let uncommented = slice_subrange(raw, 0, i);
    assert(uncommented@ =~= raw@.take(i as int));
    let line = trim(uncommented);
    if line.len() == 0 {
        return Ok(());
    }
    if line[0] == '[' {
        let name = trim(strip_back(strip_front(line, '['), ']'));
        if is(name, "run") {
            draft.in_run = true;
            return Ok(());
        }
        if is(name, "scripts") {
            draft.in_run = false;
            return Ok(());
        }
        return Err(complain(n, ": secao desconhecida '", string_of(name).as_str(), "'"));
    }
    let (k, v) = match split_once(line, '=') {
        Some((k, v)) => (trim(k), trim(v)),
        None => {
            return Err(complain(n, ": linha invalida: ", string_of(raw).as_str(), ""));
        },
    };
    let bare = draft.in_run && (is(k, "compact") || is(k, "yjit"));
    let value = match unquote(v) {
        Some(s) => s,
        None => {
            if !bare {
                return Err(
                    complain(n, ": ", string_of(k).as_str(), " precisa ser \"valor\""),
                );
            }
            v
        },
    };
    if draft.in_run {
        apply_setting(draft, k, value, n, base)
    } else {
        let ghost before = request::pair_views(draft.scripts@);
        draft.scripts.push((string_of(k), string_of(value)));
        assert(request::pair_views(draft.scripts@) =~= before.push((k@, value@)));
        Ok(())
    }
}

/// What is said of a file that is not there.
pub open spec fn missing(what: Seq<char>, p: Seq<char>) -> Seq<char> {
    "calisto.toml: "@ + what + " '"@ + p + "' nao existe"@
}

fn missing_text(what: &str, p: &str) -> (r: String)
    ensures
        r@ == missing(what@, p@),
{
    let mut r = "calisto.toml: ".to_string();
    r.append(what);
    r.append(" '");
    r.append(p);
    r.append("' nao existe");
    r
}

/// Whether a file that may be named is accepted: it is where it is said to be
/// there, and where none is named.
pub open spec fn accepted<F: Fn(&str) -> bool>(is_file: F, p: Option<Seq<char>>, ok: bool) -> bool {
    match p {
        Some(s) => runtime::told(is_file, s, ok),
        None => ok,
    }
}

/// The configuration that the settings give.
pub open spec fn config_of(st: Settings, base: Seq<char>) -> Config {
    Config {
        root: base,
        preload: st.preload,
        compact: st.compact,
        yjit: st.yjit,
        warmup: st.warmup,
        scripts: st.scripts,
    }
}

/// Reads a configuration file that stands in the directory `base`. The files
/// that it names have to be there, which the function is asked.
pub fn parse_calisto_toml<F: Fn(&str) -> bool>(content: &str, base: &str, is_file: F) -> (r: Result<
    AppConfig,
    String,
>)
    requires
        runtime::can_ask(is_file),
    ensures
        match after_lines(text::lines_of(content@), base@) {
            Err(m) => r matches Err(e) && e@ == m,
            Ok(st) => match r {
                Ok(app) => {
                    &&& app@ == config_of(st, base@)
                    &&& accepted(is_file, st.preload, true)
                    &&& accepted(is_file, st.warmup, true)
                },
                Err(e) => {
                    ||| {
                        &&& accepted(is_file, st.preload, false)
                        &&& e@ == missing("preload"@, st.preload->0)
                    }
                    ||| {
                        &&& accepted(is_file, st.preload, true)
                        &&& accepted(is_file, st.warmup, false)
                        &&& e@ == missing("warmup"@, st.warmup->0)
                    }
                },
            },
        },
{
    let chars = chars_of(content);
    let all = lines(chars.as_slice());
    let ghost texts = text::slice_views(all@);
    let mut draft = Draft {
        in_run: true,
        preload: None,
        compact: None,
        yjit: None,
        warmup: None,
        scripts: Vec::new(),
    };
    assert(draft.settings() =~= no_settings());
    let mut i: usize = 0;
    while i < all.len()
        invariant
            i <= all@.len(),
            texts == text::slice_views(all@),
            texts == text::lines_of(content@),
            after_lines(texts.take(i as int), base@) == Ok::<Settings, Seq<char>>(draft.settings()),
        decreases all@.len() - i,
    {
        assert(texts.take(i + 1).drop_last() =~= texts.take(i as int));
        assert(texts.take(i + 1).last() == all@[i as int]@);
        match apply_line(&mut draft, all[i], i + 1, base) {
            Ok(_) => {},
            Err(e) => {
                proof {
                    lemma_first_error(texts, i + 1, base@);
                }
                return Err(e);
            },
        }
        i += 1;
    }
    assert(texts.take(i as int) =~= texts);
    let ghost st = draft.settings();
    match &draft.preload {
        Some(p) => {
            if !is_file(p.as_str()) {
                assert(runtime::told(is_file, p@, false));
                return Err(missing_text("preload", p.as_str()));
            }
            assert(runtime::told(is_file, p@, true));
        },
        None => {},
    }
    match &draft.warmup {
        Some(p) => {
            if !is_file(p.as_str()) {
                assert(runtime::told(is_file, p@, false));
                return Err(missing_text("warmup", p.as_str()));
            }
            assert(runtime::told(is_file, p@, true));
        },
        None => {},
    }
    Ok(
        AppConfig {
            root: base.to_string(),
            preload: draft.preload,
            compact: draft.compact,
            yjit: draft.yjit,
            warmup: draft.warmup,
            scripts: draft.scripts,
        },
    )
}

proof fn lemma_first_error(lines: Seq<Seq<char>>, n: int, base: Seq<char>)
    requires
        0 <= n <= lines.len(),
        after_lines(lines.take(n), base) is Err,
    ensures
        after_lines(lines, base) == after_lines(lines.take(n), base),
    decreases lines.len() - n,
{
    if n < lines.len() {
        assert(lines.take(n + 1).drop_last() =~= lines.take(n));
        lemma_first_error(lines, n + 1, base);
    } else {
        assert(lines.take(n) =~= lines);
    }
}

/// A blank line or a comment changes nothing, wherever it stands.
pub proof fn law_blank_line_ignored(st: Settings, raw: Seq<char>, n: nat, base: Seq<char>)
    requires
        forall|i: int| 0 <= i < text::index_of(raw, '#') ==> text::is_space(#[trigger] raw[i]),
    ensures
        after_line(st, raw, n, base) == Ok::<Settings, Seq<char>>(st),
{
    text::lemma_index_of(raw, '#');
    let head = raw.take(text::index_of(raw, '#'));
    assert forall|i: int| 0 <= i < head.len() implies text::is_space(#[trigger] head[i]) by {
        assert(head[i] == raw[i]);
    }
    lemma_all_space(head);
}

proof fn lemma_all_space(s: Seq<char>)
    requires
        forall|i: int| 0 <= i < s.len() ==> text::is_space(#[trigger] s[i]),
    ensures
        text::trimmed_start(s).len() == 0,
        text::trimmed(s).len() == 0,
    decreases s.len(),
{
    if s.len() > 0 {
        assert(text::is_space(s[0]));
        let t = s.skip(1);
        assert forall|i: int| 0 <= i < t.len() implies text::is_space(#[trigger] t[i]) by {
            assert(t[i] == s[i + 1]);
        }
        lemma_all_space(t);
    }
}

/// A setting does not depend on earlier ones: where a line gives a value that
/// is accepted, the last such line decides, and everything else stays.
pub proof fn law_later_setting_wins(
    st: Settings,
    k: Seq<char>,
    first: Seq<char>,
    second: Seq<char>,
    n: nat,
    m: nat,
    base: Seq<char>,
)
    requires
        with_setting(st, k, first, n, base) is Ok,
        with_setting(st, k, second, m, base) is Ok,
    ensures
        with_setting(with_setting(st, k, first, n, base)->Ok_0, k, second, m, base) == with_setting(
            st,
            k,
            second,
            m,
            base,
        ),
{
}

/// Whether a text is white space only.
pub open spec fn is_blank(s: Seq<char>) -> bool {
    forall|i: int| 0 <= i < s.len() ==> text::is_space(#[trigger] s[i])
}

/// Whether a text has no white space at its ends.
pub open spec fn is_tight(s: Seq<char>) -> bool {
    s.len() == 0 || (!text::is_space(s[0]) && !text::is_space(s.last()))
}

proof fn lemma_blank_holds_none(s: Seq<char>, c: char)
    requires
        is_blank(s),
        !text::is_space(c),
    ensures
        !s.contains(c),
{
    if s.contains(c) {
        let i = choose|i: int| 0 <= i < s.len() && s[i] == c;
        assert(text::is_space(s[i]));
    }
}

proof fn lemma_none_in_both(a: Seq<char>, b: Seq<char>, c: char)
    requires
        !a.contains(c),
        !b.contains(c),
    ensures
        !(a + b).contains(c),
{
    if (a + b).contains(c) {
        let i = choose|i: int| 0 <= i < (a + b).len() && (a + b)[i] == c;
        if i < a.len() {
            assert(a[i] == c);
        } else {
            assert(b[i - a.len()] == c);
        }
    }
}

/// A line `key = value` without the white space at its ends.
spec fn pair_core(k: Seq<char>, m1: Seq<char>, m2: Seq<char>, v: Seq<char>) -> Seq<char> {
    if v.len() > 0 {
        k + m1 + seq!['='] + m2 + v
    } else {
        k + m1 + seq!['=']
    }
}

spec fn pair_end(m2: Seq<char>, v: Seq<char>, post: Seq<char>) -> Seq<char> {
    if v.len() > 0 {
        post
    } else {
        m2 + post
    }
}

proof fn lemma_pair_core(
    k: Seq<char>,
    m1: Seq<char>,
    m2: Seq<char>,
    v: Seq<char>,
    post: Seq<char>,
)
    requires
        is_blank(m1) && is_blank(m2) && is_blank(post),
        k.len() > 0,
        is_tight(k) && is_tight(v),
        !k.contains('='),
    ensures
        k + m1 + seq!['='] + m2 + v + post == pair_core(k, m1, m2, v) + pair_end(m2, v, post),
        is_blank(pair_end(m2, v, post)),
        is_tight(pair_core(k, m1, m2, v)),
        pair_core(k, m1, m2, v).len() > 0,
        pair_core(k, m1, m2, v)[0] == k[0],
        text::split_at_first(pair_core(k, m1, m2, v), '=') matches Some((a, b)) && text::trimmed(a)
            == k && text::trimmed(b) == v,
{
    let core = pair_core(k, m1, m2, v);
    let end = pair_end(m2, v, post);
    let nothing = Seq::<char>::empty();
    let name = k + m1;
    lemma_blank_holds_none(m1, '=');
    lemma_none_in_both(k, m1, '=');
    text::law_trimmed(nothing, k, m1);
    assert(nothing + k + m1 =~= name);
    assert(core[0] == k[0]);
    assert(k + m1 + seq!['='] + m2 + v + post =~= core + end);
    if v.len() > 0 {
        assert(core =~= name + seq!['='] + (m2 + v));
        assert(core.last() == v.last());
        text::law_split_once(name, '=', m2 + v);
        text::law_trimmed(m2, v, nothing);
        assert(m2 + v + nothing =~= m2 + v);
    } else {
        assert(core.last() == '=');
        assert forall|i: int| 0 <= i < end.len() implies text::is_space(#[trigger] end[i]) by {
            if i < m2.len() {
                assert(end[i] == m2[i]);
            } else {
                assert(end[i] == post[i - m2.len()]);
            }
        }
        text::law_split_once(name, '=', nothing);
        assert(name + seq!['='] + nothing =~= core);
        text::law_trimmed(nothing, nothing, nothing);
        assert(nothing + nothing + nothing =~= nothing);
        assert(v =~= nothing);
    }
}

/// A line `key = value` gives the key and the whole of the value, whatever
/// white space stands around them and whatever comment behind them.
pub proof fn law_pair_line(
    pre: Seq<char>,
    k: Seq<char>,
    m1: Seq<char>,
    m2: Seq<char>,
    v: Seq<char>,
    post: Seq<char>,
    comment: Seq<char>,
)
    requires
        is_blank(pre) && is_blank(m1) && is_blank(m2) && is_blank(post),
        k.len() > 0 && k[0] != '[',
        is_tight(k) && is_tight(v),
        !k.contains('=') && !k.contains('#') && !v.contains('#'),
        comment.len() == 0 || comment[0] == '#',
    ensures
        classified(pre + k + m1 + seq!['='] + m2 + v + post + comment) == Line::Pair(k, v),
{
    let line = pre + k + m1 + seq!['='] + m2 + v + post;
    lemma_pair_core(k, m1, m2, v, post);
    text::law_trimmed(pre, pair_core(k, m1, m2, v), pair_end(m2, v, post));
    assert(line =~= pre + (k + m1 + seq!['='] + m2 + v + post));
    assert(line =~= pre + pair_core(k, m1, m2, v) + pair_end(m2, v, post));
    lemma_blank_holds_none(pre, '#');
    lemma_blank_holds_none(m1, '#');
    lemma_blank_holds_none(m2, '#');
    lemma_blank_holds_none(post, '#');
    lemma_none_in_both(pre, k, '#');
    lemma_none_in_both(pre + k, m1, '#');
    assert(!seq!['='].contains('#')) by {
        if seq!['='].contains('#') {
            let i = choose|i: int| 0 <= i < 1 && seq!['='][i] == '#';
            assert(seq!['='][i] == '=');
        }
    }
    lemma_none_in_both(pre + k + m1, seq!['='], '#');
    lemma_none_in_both(pre + k + m1 + seq!['='], m2, '#');
    lemma_none_in_both(pre + k + m1 + seq!['='] + m2, v, '#');
    lemma_none_in_both(pre + k + m1 + seq!['='] + m2 + v, post, '#');
    lemma_uncommented(line, comment);
}

proof fn lemma_uncommented(line: Seq<char>, comment: Seq<char>)
    requires
        !line.contains('#'),
        comment.len() == 0 || comment[0] == '#',
    ensures
        content_of(line + comment) == text::trimmed(line),
{
    let raw = line + comment;
    let n = line.len() as int;
    assert forall|j: int| 0 <= j < n implies raw[j] != '#' by {
        assert(raw[j] == line[j]);
        assert(line.contains(line[j]));
    }
    text::lemma_index_of_is(raw, '#', n);
    assert(raw.take(n) =~= line);
}

/// The name of a section stands in brackets; only `run` and `scripts` are
/// known, and what follows belongs to the section that was named last.
pub proof fn law_section_line(
    st: Settings,
    pre: Seq<char>,
    name: Seq<char>,
    post: Seq<char>,
    n: nat,
    base: Seq<char>,
)
    requires
        is_blank(pre) && is_blank(post),
        name.len() > 0 && is_tight(name),
        !name.contains('[') && !name.contains(']') && !name.contains('#'),
    ensures
        ({
            let r = after_line(st, pre + seq!['['] + name + seq![']'] + post, n, base);
            &&& name == "run"@ ==> r == Ok::<Settings, Seq<char>>(Settings { in_run: true, ..st })
            &&& name == "scripts"@ ==> r == Ok::<Settings, Seq<char>>(
                Settings { in_run: false, ..st },
            )
            &&& name != "run"@ && name != "scripts"@ ==> r is Err
        }),
{
    let nothing = Seq::<char>::empty();
    let core = seq!['['] + name + seq![']'];
    let raw = pre + core + post;
    assert(pre + seq!['['] + name + seq![']'] + post =~= raw);
    lemma_blank_holds_none(pre, '#');
    lemma_blank_holds_none(post, '#');
    assert(!core.contains('#')) by {
        if core.contains('#') {
            let i = choose|i: int| 0 <= i < core.len() && core[i] == '#';
            if 0 < i < core.len() - 1 {
                assert(name[i - 1] == '#');
            }
        }
    }
    lemma_none_in_both(pre, core, '#');
    lemma_none_in_both(pre + core, post, '#');
    lemma_uncommented(raw, nothing);
    assert(raw + nothing =~= raw);
    text::law_trimmed(pre, core, post);
    let tail = name + seq![']'];
    assert(core.skip(1) =~= tail);
    assert(name.contains(name[0]));
    assert(tail[0] == name[0]);
    assert(without_front(tail, '[') == tail);
    assert(without_front(core, '[') == tail);
    assert(tail.drop_last() =~= name);
    assert(name.contains(name.last()));
    assert(without_back(name, ']') == name);
    assert(without_back(tail, ']') == name);
    assert(nothing + name + nothing =~= name);
    text::law_trimmed(nothing, name, nothing);
    assert("run"@ != "scripts"@) by {
        reveal_strlit("run");
        reveal_strlit("scripts");
        assert("run"@.len() == 3 && "scripts"@.len() == 7);
    }
}

/// A value in quotation marks is what stands between them, all of it; a value
/// without them is accepted for a switch for running and for nothing else.
pub proof fn law_values(in_run: bool, k: Seq<char>, x: Seq<char>)
    ensures
        value_of(in_run, k, seq!['"'] + x + seq!['"']) == Some(x),
        x.len() == 0 || x[0] != '"' || x.len() < 2 || x.last() != '"' ==> (value_of(in_run, k, x)
            == (if in_run && (k == "compact"@ || k == "yjit"@) {
            Some(x)
        } else {
            None
        })),
{
    let v = seq!['"'] + x + seq!['"'];
    assert(v.subrange(1, v.len() - 1) =~= x);
}

proof fn lemma_keys_apart()
    ensures
        "compact"@ != "preload"@,
        "compact"@ != "yjit"@,
        "compact"@ != "warmup"@,
        "yjit"@ != "preload"@,
        "yjit"@ != "warmup"@,
        "warmup"@ != "preload"@,
        "true"@ != "false"@,
{
    reveal_strlit("compact");
    reveal_strlit("preload");
    reveal_strlit("yjit");
    reveal_strlit("warmup");
    reveal_strlit("true");
    reveal_strlit("false");
    assert("compact"@[0] == 'c' && "preload"@[0] == 'p' && "yjit"@[0] == 'y' && "warmup"@[0] == 'w');
    assert("true"@[0] == 't' && "false"@[0] == 'f');
}

/// A switch is set to the value that stands in the line and no other setting
/// changes: `true` switches on, `false` switches off, and anything else is
/// refused.
pub proof fn law_switch_set(st: Settings, value: Seq<char>, n: nat, base: Seq<char>)
    ensures
        ({
            let c = with_setting(st, "compact"@, value, n, base);
            let y = with_setting(st, "yjit"@, value, n, base);
            &&& value == "true"@ ==> c == Ok::<Settings, Seq<char>>(
                Settings { compact: Some(true), ..st },
            ) && y == Ok::<Settings, Seq<char>>(Settings { yjit: Some(true), ..st })
            &&& value == "false"@ ==> c == Ok::<Settings, Seq<char>>(
                Settings { compact: Some(false), ..st },
            ) && y == Ok::<Settings, Seq<char>>(Settings { yjit: Some(false), ..st })
            &&& value != "true"@ && value != "false"@ ==> c is Err && y is Err
        }),
{
    lemma_keys_apart();
}

/// An entry point and a script that warms up are taken from the directory of
/// the configuration, and no other setting changes; an empty one is refused.
pub proof fn law_files_set(st: Settings, value: Seq<char>, n: nat, base: Seq<char>)
    ensures
        ({
            let p = with_setting(st, "preload"@, value, n, base);
            let w = with_setting(st, "warmup"@, value, n, base);
            if value.len() == 0 {
                p is Err && w is Err
            } else {
                &&& p == Ok::<Settings, Seq<char>>(
                    Settings { preload: Some(path::joined_path(base, value)), ..st },
                )
                &&& w == Ok::<Settings, Seq<char>>(
                    Settings { warmup: Some(path::joined_path(base, value)), ..st },
                )
            }
        }),
{
    lemma_keys_apart();
}

/// Every complaint about a line begins with the name of the file and the number
/// of the line.
pub proof fn law_complaints_name_the_line(st: Settings, raw: Seq<char>, n: nat, base: Seq<char>)
    ensures
        after_line(st, raw, n, base) matches Err(m) ==> text::has_prefix(
            m,
            "calisto.toml:"@ + number::decimal(n) + seq![':', ' '],
        ),
{
    reveal_strlit(": preload vazio");
    reveal_strlit(": warmup vazio");
    reveal_strlit(": compact precisa ser true/false (achei '");
    reveal_strlit(": yjit precisa ser true/false (achei '");
    reveal_strlit(": chave desconhecida '");
    reveal_strlit(": secao desconhecida '");
    reveal_strlit(": linha invalida: ");
    reveal_strlit(": ");
    let front = "calisto.toml:"@ + number::decimal(n);
    match after_line(st, raw, n, base) {
        Err(m) => {
            let k = front.len() as int;
            assert(m.take(k) =~= front);
            assert(m[k] == ':' && m[k + 1] == ' ');
            assert(m.take(k + 2) =~= front + seq![':', ' ']);
        },
        _ => {},
    }
}

/// A value without quotation marks is refused for every key but the switches for
/// running, and a line that is neither a section nor a pair is refused too.
pub proof fn law_other_lines_refused(
    st: Settings,
    k: Seq<char>,
    m1: Seq<char>,
    m2: Seq<char>,
    v: Seq<char>,
    line: Seq<char>,
    n: nat,
    base: Seq<char>,
)
    requires
        is_blank(m1) && is_blank(m2),
        k.len() > 0 && k[0] != '[' && is_tight(k) && is_tight(v),
        !k.contains('=') && !k.contains('#') && !v.contains('#'),
        v.len() == 0 || v[0] != '"',
        !st.in_run || (k != "compact"@ && k != "yjit"@),
        line.len() > 0 && is_tight(line) && line[0] != '[' && !line.contains('#') && !line.contains(
            '=',
        ),
    ensures
        after_line(st, k + m1 + seq!['='] + m2 + v, n, base) is Err,
        after_line(st, line, n, base) is Err,
{
    let nothing = Seq::<char>::empty();
    law_pair_line(nothing, k, m1, m2, v, nothing, nothing);
    assert(nothing + k + m1 + seq!['='] + m2 + v + nothing + nothing =~= k + m1 + seq!['='] + m2 + v);
    law_values(st.in_run, k, v);
    lemma_uncommented(line, nothing);
    assert(line + nothing =~= line);
    text::law_trimmed(nothing, line, nothing);
    assert(nothing + line + nothing =~= line);
    text::law_split_once(line, '=', nothing);
}

/// Only the four settings are known.
pub proof fn law_unknown_setting(st: Settings, k: Seq<char>, value: Seq<char>, n: nat, base: Seq<char>)
    requires
        k != "preload"@ && k != "compact"@ && k != "yjit"@ && k != "warmup"@,
    ensures
        with_setting(st, k, value, n, base) is Err,
{
}

/// A line for a switch in the section for running sets it, in quotation marks
/// or without them, whatever stood in the lines before.
pub proof fn law_switch_line(
    st: Settings,
    on: bool,
    in_quotes: bool,
    m1: Seq<char>,
    m2: Seq<char>,
    comment: Seq<char>,
    n: nat,
    base: Seq<char>,
)
    requires
        st.in_run,
        is_blank(m1) && is_blank(m2),
        comment.len() == 0 || comment[0] == '#',
    ensures
        ({
            let word = if on {
                "true"@
            } else {
                "false"@
            };
            let v = if in_quotes {
                seq!['"'] + word + seq!['"']
            } else {
                word
            };
            let tail = m1 + seq!['='] + m2 + v + comment;
            &&& after_line(st, "compact"@ + tail, n, base) == Ok::<Settings, Seq<char>>(
                Settings { compact: Some(on), ..st },
            )
            &&& after_line(st, "yjit"@ + tail, n, base) == Ok::<Settings, Seq<char>>(
                Settings { yjit: Some(on), ..st },
            )
        }),
{
    reveal_strlit("true");
    reveal_strlit("false");
    reveal_strlit("compact");
    reveal_strlit("yjit");
    let nothing = Seq::<char>::empty();
    let word = if on {
        "true"@
    } else {
        "false"@
    };
    let v = if in_quotes {
        seq!['"'] + word + seq!['"']
    } else {
        word
    };
    assert(!text::is_space('t') && !text::is_space('e') && !text::is_space('f'));
    assert(!v.contains('#')) by {
        if v.contains('#') {
            let i = choose|i: int| 0 <= i < v.len() && v[i] == '#';
            if in_quotes && 0 < i < v.len() - 1 {
                assert(v[i] == word[i - 1]);
            }
        }
    }
    assert(is_tight(v));
    let tail = m1 + seq!['='] + m2 + v + comment;
    lemma_switch_key("compact"@, m1, m2, v, comment);
    lemma_switch_key("yjit"@, m1, m2, v, comment);
    law_values(true, "compact"@, word);
    law_values(true, "yjit"@, word);
    law_switch_set(st, word, n, base);
}

proof fn lemma_switch_key(
    k: Seq<char>,
    m1: Seq<char>,
    m2: Seq<char>,
    v: Seq<char>,
    comment: Seq<char>,
)
    requires
        k == "compact"@ || k == "yjit"@,
        is_blank(m1) && is_blank(m2),
        is_tight(v),
        !v.contains('#'),
        comment.len() == 0 || comment[0] == '#',
    ensures
        classified(k + (m1 + seq!['='] + m2 + v + comment)) == Line::Pair(k, v),
{
    reveal_strlit("compact");
    reveal_strlit("yjit");
    let nothing = Seq::<char>::empty();
    assert(!k.contains('=') && !k.contains('#'));
    assert(is_tight(k));
    law_pair_line(nothing, k, m1, m2, v, nothing, comment);
    assert(nothing + k + m1 + seq!['='] + m2 + v + nothing + comment =~= k + (m1 + seq!['='] + m2 + v
        + comment));
}

/// A line of the section for scripts adds a script under its name, with the
/// whole of its command, behind those that are there; nothing else changes.
pub proof fn law_script_line(
    st: Settings,
    pre: Seq<char>,
    name: Seq<char>,
    m1: Seq<char>,
    m2: Seq<char>,
    command: Seq<char>,
    comment: Seq<char>,
    n: nat,
    base: Seq<char>,
)
    requires
        !st.in_run,
        is_blank(pre) && is_blank(m1) && is_blank(m2),
        name.len() > 0 && name[0] != '[' && is_tight(name),
        !name.contains('=') && !name.contains('#') && !command.contains('#'),
        comment.len() == 0 || comment[0] == '#',
    ensures
        ({
            let raw = pre + name + m1 + seq!['='] + m2 + (seq!['"'] + command + seq!['"']) + comment;
            after_line(st, raw, n, base) == Ok::<Settings, Seq<char>>(
                Settings { scripts: st.scripts.push((name, command)), ..st },
            )
        }),
{
    let nothing = Seq::<char>::empty();
    let v = seq!['"'] + command + seq!['"'];
    assert(!v.contains('#')) by {
        if v.contains('#') {
            let i = choose|i: int| 0 <= i < v.len() && v[i] == '#';
            if 0 < i < v.len() - 1 {
                assert(command[i - 1] == '#');
            }
        }
    }
    law_pair_line(pre, name, m1, m2, v, nothing, comment);
    assert(pre + name + m1 + seq!['='] + m2 + v + nothing + comment =~= pre + name + m1 + seq!['=']
        + m2 + v + comment);
    law_values(false, name, command);
}

/// Lines are read one after the other, each with what those before it said; the
/// first wrong one is reported under its own number, and what follows is not
/// looked at.
pub proof fn law_line_by_line(
    front: Seq<Seq<char>>,
    line: Seq<char>,
    rest: Seq<Seq<char>>,
    base: Seq<char>,
    st: Settings,
)
    requires
        after_lines(front, base) == Ok::<Settings, Seq<char>>(st),
    ensures
        after_lines(Seq::empty(), base) == Ok::<Settings, Seq<char>>(no_settings()),
        after_lines(front.push(line), base) == after_line(st, line, front.len() + 1, base),
        after_line(st, line, front.len() + 1, base) is Err ==> after_lines(
            front.push(line) + rest,
            base,
        ) == after_line(st, line, front.len() + 1, base),
{
    let upto = front.push(line);
    assert(upto.drop_last() =~= front);
    let all = upto + rest;
    assert(all.take(upto.len() as int) =~= upto);
    if after_line(st, line, front.len() + 1, base) is Err {
        lemma_first_error(all, upto.len() as int, base);
    }
}

/// Before its first line a configuration has no settings at all, and what
/// stands there belongs to running.
pub proof fn law_nothing_set()
    ensures
        ({
            let st = no_settings();
            &&& st.in_run
            &&& st.preload is None && st.warmup is None
            &&& st.compact is None && st.yjit is None
            &&& st.scripts.len() == 0
        }),
{
}

/// The words of a command line from a state in the middle of it: what the
/// current word holds so far, and the quotation mark that is open. The error
/// is a quotation mark that is never closed.
pub open spec fn words_from(s: Seq<char>, cur: Seq<char>, quote: Option<char>) -> Result<
    Seq<Seq<char>>,
    char,
>
    decreases s.len(),
{
    if s.len() == 0 {
        match quote {
            Some(q) => Err(q),
            None => Ok(
                if cur.len() == 0 {
                    Seq::empty()
                } else {
                    seq![cur]
                },
            ),
        }
    } else {
        let c = s[0];
        let rest = s.skip(1);
        match quote {
            Some(q) => if c == q {
                words_from(rest, cur, None)
            } else {
                words_from(rest, cur.push(c), quote)
            },
            None => if c == '\'' || c == '"' {
                words_from(rest, cur, Some(c))
            } else if text::is_space(c) {
                if cur.len() == 0 {
                    words_from(rest, cur, None)
                } else {
                    with_word(cur, words_from(rest, Seq::empty(), None))
                }
            } else {
                words_from(rest, cur.push(c), None)
            },
        }
    }
}

/// The words with one more in front.
pub open spec fn with_word(w: Seq<char>, r: Result<Seq<Seq<char>>, char>) -> Result<
    Seq<Seq<char>>,
    char,
> {
    match r {
        Ok(list) => Ok(seq![w] + list),
        Err(q) => Err(q),
    }
}

/// The words with more in front.
spec fn with_words(front: Seq<Seq<char>>, r: Result<Seq<Seq<char>>, char>) -> Result<
    Seq<Seq<char>>,
    char,
> {
    match r {
        Ok(list) => Ok(front + list),
        Err(q) => Err(q),
    }
}

/// The words of a command line: white space separates them, and quotation
/// marks of either kind hold characters together.
pub open spec fn command_words(s: Seq<char>) -> Result<Seq<Seq<char>>, char> {
    words_from(s, Seq::empty(), None)
}

/// What is said of a quotation mark that is never closed.
pub open spec fn unclosed(q: char, s: Seq<char>) -> Seq<char> {
    "calisto.toml: aspas '"@ + seq![q] + "' nao fechadas em \""@ + s + "\""@
}

fn unclosed_text(q: char, s: &str) -> (r: String)
    ensures
        r@ == unclosed(q, s@),
{
    let mut r = "calisto.toml: aspas '".to_string();
    r.push(q);
    assert(r@ =~= "calisto.toml: aspas '"@ + seq![q]);
    r.append("' nao fechadas em \"");
    r.append(s);
    r.append("\"");
    r
}

/// Splits a command line into words.
pub fn split_command(s: &str) -> (r: Result<Vec<String>, String>)
    ensures
        match command_words(s@) {
            Ok(words) => r matches Ok(list) && text::views(list@) == words,
            Err(q) => r matches Err(e) && e@ == unclosed(q, s@),
        },
{
    let chars = chars_of(s);
    let ghost goal = command_words(s@);
    let mut out: Vec<String> = Vec::new();
    let mut cur: Vec<char> = Vec::new();
    let mut quote: Option<char> = None;
    let mut i: usize = 0;
    proof {
        assert(chars@.skip(0) =~= s@);
        assert(text::views(out@) =~= Seq::<Seq<char>>::empty());
        match goal {
            Ok(list) => {
                assert(Seq::<Seq<char>>::empty() + list =~= list);
            },
            Err(q) => {},
        }
    }
    while i < chars.len()
        invariant
            i <= chars@.len(),
            chars@ == s@,
            goal == command_words(s@),
            with_words(text::views(out@), words_from(chars@.skip(i as int), cur@, quote)) == goal,
        decreases chars@.len() - i,
    {
        let c = chars[i];
        let ghost rest = chars@.skip(i as int);
        assert(rest.skip(1) =~= chars@.skip(i + 1));
        match quote {
            Some(q) => {
                if c == q {
                    quote = None;
                } else {
                    cur.push(c);
                }
            },
            None => {
                if c == '\'' || c == '"' {
                    quote = Some(c);
                } else if is_whitespace(c) {
                    if cur.len() > 0 {
                        let ghost before = text::views(out@);
                        out.push(string_of(cur.as_slice()));
                        proof {
                            assert(text::views(out@) =~= before.push(cur@));
                            match words_from(rest.skip(1), Seq::empty(), None) {
                                Ok(list) => {
                                    assert(before + (seq![cur@] + list) =~= before.push(cur@)
                                        + list);
                                },
                                Err(q) => {},
                            }
                        }
                        cur = Vec::new();
                        assert(cur@ =~= Seq::<char>::empty());
                    }
                } else {
                    cur.push(c);
                }
            },
        }
        i += 1;
    }
    match quote {
        Some(q) => {
            return Err(unclosed_text(q, s));
        },
        None => {},
    }
    let ghost before = text::views(out@);
    if cur.len() > 0 {
        out.push(string_of(cur.as_slice()));
        assert(text::views(out@) =~= before + seq![cur@]);
    } else {
        assert(text::views(out@) =~= before + Seq::<Seq<char>>::empty());
    }
    Ok(out)
}

/// Whether a word needs no quotation marks: it is not empty and holds neither
/// white space nor quotation marks.
pub open spec fn is_plain_word(w: Seq<char>) -> bool {
    w.len() > 0 && forall|i: int|
        0 <= i < w.len() ==> {
            let c = #[trigger] w[i];
            !text::is_space(c) && c != '\'' && c != '"'
        }
}

proof fn lemma_plain_run(w: Seq<char>, cur: Seq<char>, rest: Seq<char>)
    requires
        forall|i: int|
            0 <= i < w.len() ==> {
                let c = #[trigger] w[i];
                !text::is_space(c) && c != '\'' && c != '"'
            },
    ensures
        words_from(w + rest, cur, None) == words_from(rest, cur + w, None),
    decreases w.len(),
{
    if w.len() == 0 {
        assert(w + rest =~= rest);
        assert(cur + w =~= cur);
    } else {
        let s = w + rest;
        assert(s[0] == w[0]);
        assert(!text::is_space(w[0]));
        assert(s.skip(1) =~= w.skip(1) + rest);
        assert forall|i: int| 0 <= i < w.skip(1).len() implies ({
            let c = #[trigger] w.skip(1)[i];
            !text::is_space(c) && c != '\'' && c != '"'
        }) by {
            assert(w.skip(1)[i] == w[i + 1]);
        }
        lemma_plain_run(w.skip(1), cur.push(w[0]), rest);
        assert(cur.push(w[0]) + w.skip(1) =~= cur + w);
    }
}

spec fn spaced(words: Seq<Seq<char>>) -> Seq<char>
    decreases words.len(),
{
    if words.len() == 0 {
        Seq::empty()
    } else {
        words[0] + (if words.len() == 1 {
            Seq::empty()
        } else {
            seq![' '] + spaced(words.skip(1))
        })
    }
}

proof fn lemma_spaced_push(words: Seq<Seq<char>>, w: Seq<char>)
    requires
        words.len() > 0,
    ensures
        spaced(words.push(w)) == spaced(words) + seq![' '] + w,
    decreases words.len(),
{
    let all = words.push(w);
    assert(all.skip(1) =~= words.skip(1).push(w));
    if words.len() == 1 {
        assert(words.skip(1).push(w) =~= seq![w]);
        assert(spaced(seq![w]) =~= w);
        assert(spaced(words) =~= words[0]);
        assert(spaced(all) =~= words[0] + seq![' '] + w);
    } else {
        lemma_spaced_push(words.skip(1), w);
        assert(spaced(all) =~= spaced(words) + seq![' '] + w);
    }
}

proof fn lemma_spaced_joined(words: Seq<Seq<char>>)
    ensures
        text::joined(words, seq![' ']) == spaced(words),
    decreases words.len(),
{
    if words.len() == 1 {
        assert(spaced(words) =~= words[0]);
    } else if words.len() > 1 {
        lemma_spaced_joined(words.drop_last());
        lemma_spaced_push(words.drop_last(), words.last());
        assert(words.drop_last().push(words.last()) =~= words);
    }
}

proof fn lemma_spaced_words(words: Seq<Seq<char>>)
    requires
        forall|i: int| 0 <= i < words.len() ==> is_plain_word(#[trigger] words[i]),
    ensures
        command_words(spaced(words)) == Ok::<Seq<Seq<char>>, char>(words),
    decreases words.len(),
{
    let nothing = Seq::<char>::empty();
    if words.len() == 0 {
        assert(words =~= Seq::<Seq<char>>::empty());
    } else {
        let w = words[0];
        assert(is_plain_word(w));
        let rest = if words.len() == 1 {
            nothing
        } else {
            seq![' '] + spaced(words.skip(1))
        };
        lemma_plain_run(w, nothing, rest);
        assert(nothing + w =~= w);
        if words.len() == 1 {
            assert(words =~= seq![w]);
        } else {
            assert forall|i: int| 0 <= i < words.skip(1).len() implies is_plain_word(
                #[trigger] words.skip(1)[i],
            ) by {
                assert(words.skip(1)[i] == words[i + 1]);
            }
            lemma_spaced_words(words.skip(1));
            assert(rest[0] == ' ');
            assert(rest.skip(1) =~= spaced(words.skip(1)));
            assert(seq![w] + words.skip(1) =~= words);
        }
    }
}

/// Plain words with a space between them are split into those words.
pub proof fn law_plain_words_round_trip(words: Seq<Seq<char>>)
    requires
        forall|i: int| 0 <= i < words.len() ==> is_plain_word(#[trigger] words[i]),
    ensures
        command_words(text::joined(words, seq![' '])) == Ok::<Seq<Seq<char>>, char>(words),
{
    lemma_spaced_joined(words);
    lemma_spaced_words(words);
}

proof fn lemma_quoted_run(w: Seq<char>, cur: Seq<char>, q: char, rest: Seq<char>)
    requires
        !w.contains(q),
    ensures
        words_from(w + seq![q] + rest, cur, Some(q)) == words_from(rest, cur + w, None),
    decreases w.len(),
{
    let s = w + seq![q] + rest;
    if w.len() == 0 {
        assert(s[0] == q);
        assert(s.skip(1) =~= rest);
        assert(cur + w =~= cur);
    } else {
        assert(s[0] == w[0]);
        assert(w.contains(w[0]));
        assert(s.skip(1) =~= w.skip(1) + seq![q] + rest);
        assert(!w.skip(1).contains(q)) by {
            if w.skip(1).contains(q) {
                let i = choose|i: int| 0 <= i < w.skip(1).len() && w.skip(1)[i] == q;
                assert(w[i + 1] == q);
            }
        }
        lemma_quoted_run(w.skip(1), cur.push(w[0]), q, rest);
        assert(cur.push(w[0]) + w.skip(1) =~= cur + w);
    }
}

/// A text in quotation marks that it does not hold is one word, and no word at
/// all where it is empty; without the closing mark it is an error.
pub proof fn law_quoted_word(w: Seq<char>, q: char)
    requires
        q == '\'' || q == '"',
        !w.contains(q),
    ensures
        command_words(seq![q] + w + seq![q]) == Ok::<Seq<Seq<char>>, char>(
            if w.len() == 0 {
                Seq::empty()
            } else {
                seq![w]
            },
        ),
        command_words(seq![q] + w) == Err::<Seq<Seq<char>>, char>(q),
{
    let nothing = Seq::<char>::empty();
    let s = seq![q] + w + seq![q];
    assert(s.skip(1) =~= w + seq![q] + nothing);
    lemma_quoted_run(w, nothing, q, nothing);
    assert(nothing + w =~= w);
    assert(words_from(nothing, w, None) == Ok::<Seq<Seq<char>>, char>(
        if w.len() == 0 {
            Seq::empty()
        } else {
            seq![w]
        },
    ));
    assert(words_from(s, nothing, None) == words_from(s.skip(1), nothing, Some(q)));
    let t = seq![q] + w;
    assert(t.skip(1) =~= w);
    lemma_never_closed(w, nothing, q);
    assert(words_from(t, nothing, None) == words_from(t.skip(1), nothing, Some(q)));
}

/// A command line is read word by word: plain characters and texts in quotation
/// marks that stand together are one word, white space ends it, however much of
/// it there is, and the rest is read as a command line of its own.
pub proof fn law_first_command_word(
    gap: Seq<char>,
    a: Seq<char>,
    q: char,
    w: Seq<char>,
    b: Seq<char>,
    rest: Seq<char>,
)
    requires
        is_blank(gap),
        q == '\'' || q == '"',
        !w.contains(q),
        forall|i: int|
            0 <= i < a.len() ==> {
                let c = #[trigger] a[i];
                !text::is_space(c) && c != '\'' && c != '"'
            },
        forall|i: int|
            0 <= i < b.len() ==> {
                let c = #[trigger] b[i];
                !text::is_space(c) && c != '\'' && c != '"'
            },
        (a + w + b).len() > 0,
    ensures
        command_words(gap + (a + (seq![q] + (w + seq![q] + b)))) == Ok::<Seq<Seq<char>>, char>(
            seq![a + w + b],
        ),
        command_words(gap + (a + (seq![q] + (w + seq![q] + (b + (seq![' '] + rest)))))) == with_word(
            a + w + b,
            command_words(rest),
        ),
        command_words(gap) == Ok::<Seq<Seq<char>>, char>(Seq::empty()),
{
    let nothing = Seq::<char>::empty();
    let word = a + w + b;
    lemma_gap(gap, a + (seq![q] + (w + seq![q] + b)));
    lemma_gap(gap, a + (seq![q] + (w + seq![q] + (b + (seq![' '] + rest)))));
    lemma_gap(gap, nothing);
    assert(gap + nothing =~= gap);
    lemma_one_word(a, q, w, b, nothing);
    assert(b + nothing =~= b);
    lemma_one_word(a, q, w, b, seq![' '] + rest);
    assert((seq![' '] + rest).skip(1) =~= rest);
    assert((seq![' '] + rest)[0] == ' ');
}

proof fn lemma_gap(gap: Seq<char>, rest: Seq<char>)
    requires
        is_blank(gap),
    ensures
        words_from(gap + rest, Seq::empty(), None) == words_from(rest, Seq::empty(), None),
    decreases gap.len(),
{
    let s = gap + rest;
    if gap.len() == 0 {
        assert(s =~= rest);
    } else {
        let less = gap.skip(1);
        assert(text::is_space(gap[0]));
        assert forall|i: int| 0 <= i < less.len() implies text::is_space(#[trigger] less[i]) by {
            assert(less[i] == gap[i + 1]);
        }
        assert(s.skip(1) =~= less + rest);
        lemma_gap(less, rest);
    }
}

proof fn lemma_one_word(a: Seq<char>, q: char, w: Seq<char>, b: Seq<char>, rest: Seq<char>)
    requires
        q == '\'' || q == '"',
        !w.contains(q),
        forall|i: int|
            0 <= i < a.len() ==> {
                let c = #[trigger] a[i];
                !text::is_space(c) && c != '\'' && c != '"'
            },
        forall|i: int|
            0 <= i < b.len() ==> {
                let c = #[trigger] b[i];
                !text::is_space(c) && c != '\'' && c != '"'
            },
    ensures
        words_from(a + (seq![q] + (w + seq![q] + (b + rest))), Seq::empty(), None) == words_from(
            rest,
            a + w + b,
            None,
        ),
{
    let nothing = Seq::<char>::empty();
    let tail = b + rest;
    let quoted_part = seq![q] + (w + seq![q] + tail);
    lemma_plain_run(a, nothing, quoted_part);
    assert(nothing + a =~= a);
    assert(quoted_part.skip(1) =~= w + seq![q] + tail);
    assert(quoted_part[0] == q);
    lemma_quoted_run(w, a, q, tail);
    lemma_plain_run(b, a + w, rest);
}

proof fn lemma_never_closed(w: Seq<char>, cur: Seq<char>, q: char)
    requires
        !w.contains(q),
    ensures
        words_from(w, cur, Some(q)) == Err::<Seq<Seq<char>>, char>(q),
    decreases w.len(),
{
    if w.len() > 0 {
        assert(w.contains(w[0]));
        assert(!w.skip(1).contains(q)) by {
            if w.skip(1).contains(q) {
                let i = choose|i: int| 0 <= i < w.skip(1).len() && w.skip(1)[i] == q;
                assert(w[i + 1] == q);
            }
        }
        lemma_never_closed(w.skip(1), cur.push(w[0]), q);
    }
}

/// The command of the first script with a name.
pub open spec fn script_of(scripts: Seq<(Seq<char>, Seq<char>)>, name: Seq<char>) -> Option<
    Seq<char>,
>
    decreases scripts.len(),
{
    if scripts.len() == 0 {
        None
    } else if scripts[0].0 == name {
        Some(scripts[0].1)
    } else {
        script_of(scripts.skip(1), name)
    }
}

/// A script is the first one of its name, and there is one exactly where the
/// name occurs.
pub proof fn law_script_of(scripts: Seq<(Seq<char>, Seq<char>)>, name: Seq<char>)
    ensures
        match script_of(scripts, name) {
            Some(c) => exists|i: int|
                {
                    &&& 0 <= i < scripts.len()
                    &&& #[trigger] scripts[i] == (name, c)
                    &&& forall|j: int| 0 <= j < i ==> (#[trigger] scripts[j]).0 != name
                },
            None => forall|j: int| 0 <= j < scripts.len() ==> (#[trigger] scripts[j]).0 != name,
        },
    decreases scripts.len(),
{
    if scripts.len() > 0 {
        let rest = scripts.skip(1);
        law_script_of(rest, name);
        if scripts[0].0 == name {
            assert(scripts[0] == (name, scripts[0].1));
        } else {
            match script_of(rest, name) {
                Some(c) => {
                    let i = choose|i: int|
                        {
                            &&& 0 <= i < rest.len()
                            &&& #[trigger] rest[i] == (name, c)
                            &&& forall|j: int| 0 <= j < i ==> (#[trigger] rest[j]).0 != name
                        };
                    assert(scripts[i + 1] == (name, c));
                    assert forall|j: int| 0 <= j < i + 1 implies (#[trigger] scripts[j]).0 != name by {
                        if j > 0 {
                            assert(scripts[j] == rest[j - 1]);
                        }
                    }
                },
                None => {
                    assert forall|j: int| 0 <= j < scripts.len() implies (#[trigger] scripts[j]).0
                        != name by {
                        if j > 0 {
                            assert(scripts[j] == rest[j - 1]);
                        }
                    }
                },
            }
        }
    }
}

/// What is said of a script without words.
pub open spec fn empty_script(name: Seq<char>) -> Seq<char> {
    "calisto.toml: script '"@ + name + "' sem comando"@
}

impl AppConfig {
    /// The words of the command of a script; none where the script is not
    /// defined.
    pub fn script_command(&self, name: &str) -> (r: Result<Option<Vec<String>>, String>)
        ensures
            match script_of(self@.scripts, name@) {
                None => r matches Ok(None),
                Some(cmd) => match command_words(cmd) {
                    Err(q) => r matches Err(e) && e@ == unclosed(q, cmd),
                    Ok(words) => if words.len() == 0 {
                        r matches Err(e) && e@ == empty_script(name@)
                    } else {
                        r matches Ok(Some(list)) && text::views(list@) == words
                    },
                },
            },
    {
        let ghost all = self@.scripts;
        let mut i: usize = 0;
        assert(all.skip(0) =~= all);
        while i < self.scripts.len()
            invariant
                i <= self.scripts@.len(),
                all == self@.scripts,
                script_of(all.skip(i as int), name@) == script_of(all, name@),
            decreases self.scripts@.len() - i,
        {
            assert(all.skip(i as int)[0] == (self.scripts@[i as int].0@, self.scripts@[i as int].1@));
            assert(all.skip(i as int).skip(1) =~= all.skip(i + 1));
            if str_eq(self.scripts[i].0.as_str(), name) {
                return match split_command(self.scripts[i].1.as_str()) {
                    Err(e) => Err(e),
                    Ok(argv) => {
                        assert(text::views(argv@).len() == argv@.len());
                        if argv.len() == 0 {
                            let mut m = "calisto.toml: script '".to_string();
                            m.append(name);
                            m.append("' sem comando");
                            Err(m)
                        } else {
                            Ok(Some(argv))
                        }
                    },
                };
            }
            i += 1;
        }
        Ok(None)
    }
}

/// What an override of a switch means.
pub open spec fn switch(v: Seq<char>) -> Option<bool> {
    if v == "1"@ || v == "true"@ {
        Some(true)
    } else if v == "0"@ || v == "false"@ {
        Some(false)
    } else {
        None
    }
}

/// What is said of an override that is no switch.
pub open spec fn bad_switch(name: Seq<char>, v: Seq<char>) -> Seq<char> {
    name + " deve ser 0/1/true/false (achei '"@ + v + "')"@
}

fn read_switch(name: &str, v: &str) -> (r: Result<bool, String>)
    ensures
        match switch(v@) {
            Some(b) => r == Ok::<bool, String>(b),
            None => r matches Err(e) && e@ == bad_switch(name@, v@),
        },
{
    if str_eq(v, "1") || str_eq(v, "true") {
        Ok(true)
    } else if str_eq(v, "0") || str_eq(v, "false") {
        Ok(false)
    } else {
        let mut m = name.to_string();
        m.append(" deve ser 0/1/true/false (achei '");
        m.append(v);
        m.append("')");
        Err(m)
    }
}

/// Whether the daemon compacts its heap: what `CALISTO_COMPACT` says, or the
/// configuration; otherwise it does where there is an entry point.
pub fn app_compact(app: &AppConfig, over: Option<&str>) -> (r: Result<bool, String>)
    ensures
        match over {
            Some(v) => match switch(v@) {
                Some(b) => r == Ok::<bool, String>(b),
                None => r matches Err(e) && e@ == bad_switch("CALISTO_COMPACT"@, v@),
            },
            None => r == Ok::<bool, String>(
                match app.compact {
                    Some(b) => b,
                    None => app.preload is Some,
                },
            ),
        },
{
    match over {
        Some(v) => read_switch("CALISTO_COMPACT", v),
        None => Ok(
            match app.compact {
                Some(b) => b,
                None => app.preload.is_some(),
            },
        ),
    }
}

/// Whether the daemon boots with the JIT compiler: what `CALISTO_YJIT` says,
/// or the configuration; otherwise it does not.
pub fn app_yjit(app: &AppConfig, over: Option<&str>) -> (r: Result<bool, String>)
    ensures
        match over {
            Some(v) => match switch(v@) {
                Some(b) => r == Ok::<bool, String>(b),
                None => r matches Err(e) && e@ == bad_switch("CALISTO_YJIT"@, v@),
            },
            None => r == Ok::<bool, String>(
                match app.yjit {
                    Some(b) => b,
                    None => false,
                },
            ),
        },
{
    match over {
        Some(v) => read_switch("CALISTO_YJIT", v),
        None => Ok(
            match app.yjit {
                Some(b) => b,
                None => false,
            },
        ),
    }
}

/// The script that warms the daemon up: what `CALISTO_WARMUP` says, where
/// nothing, `0` and `none` mean that there is none, or the configuration.
pub fn app_warmup(app: &AppConfig, over: Option<&str>) -> (r: Result<Option<String>, String>)
    ensures
        r matches Ok(w) && opt_view(w) == (match over {
            Some(v) => if v@ == "0"@ || v@ == "none"@ || v@.len() == 0 {
                None
            } else {
                Some(v@)
            },
            None => app@.warmup,
        }),
{
    match over {
        Some(v) => {
            let empty = chars_of(v).len() == 0;
            if str_eq(v, "0") || str_eq(v, "none") || empty {
                Ok(None)
            } else {
                Ok(Some(v.to_string()))
            }
        },
        None => match &app.warmup {
            Some(w) => Ok(Some(w.clone())),
            None => Ok(None),
        },
    }
}

/// The application, where it has a daemon of its own: it has one exactly
/// where it has an entry point.
pub fn app_daemon(app: &Option<AppConfig>) -> (r: Option<&AppConfig>)
    ensures
        match app {
            Some(a) => if a.preload is Some {
                r matches Some(x) && x@ == a@
            } else {
                r is None
            },
            None => r is None,
        },
{
    match app {
        Some(a) => if a.preload.is_some() {
            Some(a)
        } else {
            None
        },
        None => None,
    }
}

/// What a daemon loads in advance: nothing where an application has its own
/// daemon or where a Gemfile is active, otherwise what `CALISTO_PRELOAD` says
/// or the default.
pub fn run_preload(app: &Option<AppConfig>, gemfile: bool, over: Option<&str>) -> (r: String)
    ensures
        r@ == (if (app matches Some(a) && a.preload is Some) || gemfile {
            Seq::empty()
        } else {
            match over {
                Some(v) => normalized(v@),
                None => DEFAULT_PRELOAD@,
            }
        }),
{
    if app_daemon(app).is_some() || gemfile {
        String::new()
    } else {
        match over {
            Some(v) => normalize_preload(v),
            None => DEFAULT_PRELOAD.to_string(),
        }
    }
}

/// Whether the libraries of a Gemfile are active: one is named by
/// `BUNDLE_GEMFILE`, or a `Gemfile` or `gems.rb` stands in the directory or
/// above it.
pub fn has_gemfile_from<F: Fn(&str) -> bool>(base: &str, named: bool, is_file: F) -> (r: bool)
    requires
        runtime::can_ask(is_file),
    ensures
        named ==> r,
        !named && r ==> exists|k: int|
            0 <= k < path::ancestors(base@).len() && {
                let dir = #[trigger] path::ancestors(base@)[k];
                ||| runtime::told(is_file, path::joined_path(dir, "Gemfile"@), true)
                ||| runtime::told(is_file, path::joined_path(dir, "gems.rb"@), true)
            },
        !r ==> found_in_parents(is_file, path::ancestors(base@), "Gemfile"@, None)
            && found_in_parents(is_file, path::ancestors(base@), "gems.rb"@, None),
{
    if named {
        return true;
    }
    let gemfile = find_in_parents_from(base, "Gemfile", &is_file);
    if gemfile.is_some() {
        return true;
    }
    let gems = find_in_parents_from(base, "gems.rb", &is_file);
    if gems.is_some() {
        return true;
    }
    false
}

/// FNV-1a of 64 bits.
pub open spec fn fnv(bytes: Seq<u8>) -> u64
    decreases bytes.len(),
{
    if bytes.len() == 0 {
        0xcbf2_9ce4_8422_2325
    } else {
        (fnv(bytes.drop_last()) ^ (bytes.last() as u64)).wrapping_mul(0x0000_0100_0000_01b3)
    }
}

/// The FNV-1a hash of a text.
pub fn fnv1a(s: &str) -> (r: u64)
    ensures
        r == fnv(encode_utf8(s@)),
{
    let b = s.as_bytes();
    let mut h: u64 = 0xcbf2_9ce4_8422_2325;
    let mut i: usize = 0;
    while i < b.len()
        invariant
            i <= b@.len(),
            h == fnv(b@.take(i as int)),
        decreases b@.len() - i,
    {
        assert(b@.take(i + 1).drop_last() =~= b@.take(i as int));
        h = (h ^ (b[i] as u64)).wrapping_mul(0x0000_0100_0000_01b3);
        i += 1;
    }
    assert(b@.take(i as int) =~= b@);
    h
}

/// What the directory of an application's daemon depends on: the application,
/// its entry point, the salt, and the version of Ruby where it is not the
/// pinned one.
pub open spec fn runtime_key_parts(app: Config, salt: Seq<char>, version: Option<Seq<char>>) -> Seq<
    Seq<char>,
> {
    let preload = match app.preload {
        Some(p) => p,
        None => Seq::empty(),
    };
    match version {
        Some(v) => seq![app.root, preload, salt, v],
        None => seq![app.root, preload, salt],
    }
}

/// The text that is hashed for the directory.
pub open spec fn runtime_key(app: Config, salt: Seq<char>, version: Option<Seq<char>>) -> Seq<char> {
    text::joined(runtime_key_parts(app, salt, version), seq!['\0'])
}

/// The directory of an application's daemon.
pub open spec fn app_dir(
    app: Config,
    salt: Seq<char>,
    version: Option<Seq<char>>,
    runtime_dir: Seq<char>,
) -> Seq<char> {
    path::joined_path(
        path::joined_path(runtime_dir, "apps"@),
        number::hex_padded(fnv(encode_utf8(runtime_key(app, salt, version))) as nat, 16),
    )
}

/// The directory of an application's daemon, below the given one.
pub fn app_runtime_dir_for(app: &AppConfig, salt: &str, ruby: &str, runtime_dir: &str) -> (r: String)
    ensures
        r@ == app_dir(app@, salt@, runtime::version_of(ruby@), runtime_dir@),
{
    let ghost version = runtime::version_of(ruby@);
    let nul = string_of(['\0'].as_slice());
    assert(nul@ =~= seq!['\0']);
    let mut list: Vec<String> = Vec::new();
    list.push(app.root.clone());
    list.push(
        match &app.preload {
            Some(p) => p.clone(),
            None => String::new(),
        },
    );
    list.push(salt.to_string());
    match ruby_version_of(ruby) {
        Some(v) => {
            list.push(v);
        },
        None => {},
    }
    assert(text::views(list@) =~= runtime_key_parts(app@, salt@, version));
    let key = text::join(&list, nul.as_str());
    let apps = join_path(runtime_dir, "apps");
    join_path(apps.as_str(), hex16(fnv1a(key.as_str())).as_str())
}

/// The directory of an application's daemon.
pub fn app_runtime_dir(app: &AppConfig, ruby: &str, runtime_dir: &str) -> (r: String)
    ensures
        r@ == app_dir(app@, ""@, runtime::version_of(ruby@), runtime_dir@),
{
    app_runtime_dir_for(app, "", ruby, runtime_dir)
}

/// The directory of the daemon that runs an application's tests.
pub fn app_test_runtime_dir(app: &AppConfig, ruby: &str, runtime_dir: &str) -> (r: String)
    ensures
        r@ == app_dir(app@, "test"@, runtime::version_of(ruby@), runtime_dir@),
{
    app_runtime_dir_for(app, "test", ruby, runtime_dir)
}

/// Daemons are kept apart: what is hashed is the same only for the same
/// directory, entry point, salt and version. An entry point is never empty,
/// and no text holds a null character.
pub proof fn law_runtime_key_injective(
    a: Config,
    b: Config,
    salt_a: Seq<char>,
    salt_b: Seq<char>,
    va: Option<Seq<char>>,
    vb: Option<Seq<char>>,
)
    requires
        runtime_key(a, salt_a, va) == runtime_key(b, salt_b, vb),
        a.preload matches Some(p) ==> p.len() > 0,
        b.preload matches Some(p) ==> p.len() > 0,
        forall|i: int|
            0 <= i < runtime_key_parts(a, salt_a, va).len() ==> !(#[trigger] runtime_key_parts(
                a,
                salt_a,
                va,
            )[i]).contains('\0'),
        forall|i: int|
            0 <= i < runtime_key_parts(b, salt_b, vb).len() ==> !(#[trigger] runtime_key_parts(
                b,
                salt_b,
                vb,
            )[i]).contains('\0'),
    ensures
        a.root == b.root,
        a.preload == b.preload,
        salt_a == salt_b,
        va == vb,
{
    let pa = runtime_key_parts(a, salt_a, va);
    let pb = runtime_key_parts(b, salt_b, vb);
    text::lemma_split_joined(pa, '\0');
    text::lemma_split_joined(pb, '\0');
    assert(pa == pb);
    assert(pa[0] == pb[0] && pa[1] == pb[1] && pa[2] == pb[2]);
    if va is Some {
        assert(pa[3] == pb[3]);
    }
    assert(pa.len() == pb.len());
}

/// Switches and scripts do not make another daemon: its directory depends on
/// the directory and the entry point of the application alone.
pub proof fn law_switches_keep_the_daemon(
    a: Config,
    b: Config,
    salt: Seq<char>,
    version: Option<Seq<char>>,
    runtime_dir: Seq<char>,
)
    requires
        a.root == b.root,
        a.preload == b.preload,
    ensures
        app_dir(a, salt, version, runtime_dir) == app_dir(b, salt, version, runtime_dir),
{
}

/// What a line of a `.env` file sets.
pub open spec fn dotenv_pair(raw: Seq<char>) -> Option<(Seq<char>, Seq<char>)> {
    let line = text::trimmed(raw);
    if line.len() == 0 || line[0] == '#' {
        None
    } else {
        let body = text::trimmed(
            if text::has_prefix(line, "export "@) {
                line.skip("export "@.len() as int)
            } else {
                line
            },
        );
        match text::split_at_first(body, '=') {
            None => None,
            Some((k, v)) => if text::trimmed(k).len() == 0 {
                None
            } else {
                Some((text::trimmed(k), without_quotes(text::trimmed(v))))
            },
        }
    }
}

/// A value without the quotation marks of one kind around it.
pub open spec fn without_quotes(v: Seq<char>) -> Seq<char> {
    if v.len() >= 2 && (v[0] == '"' || v[0] == '\'') && v.last() == v[0] {
        v.subrange(1, v.len() - 1)
    } else {
        v
    }
}

/// Whether one of the pairs has the key.
pub open spec fn has_key(pairs: Seq<(Seq<char>, Seq<char>)>, k: Seq<char>) -> bool {
    exists|i: int| 0 <= i < pairs.len() && (#[trigger] pairs[i]).0 == k
}

/// What the lines of a `.env` file set: of the lines that set a variable the
/// first counts, and a variable that is defined already stays as it is.
pub open spec fn dotenv_of(lines: Seq<Seq<char>>, defined: Seq<Seq<char>>) -> Seq<
    (Seq<char>, Seq<char>),
>
    decreases lines.len(),
{
    if lines.len() == 0 {
        Seq::empty()
    } else {
        let before = dotenv_of(lines.drop_last(), defined);
        match dotenv_pair(lines.last()) {
            Some(p) => if defined.contains(p.0) || has_key(before, p.0) {
                before
            } else {
                before.push(p)
            },
            None => before,
        }
    }
}

fn dotenv_line(raw: &[char]) -> (r: Option<(String, String)>)
    ensures
        match r {
            Some((k, v)) => dotenv_pair(raw@) == Some((k@, v@)),
            None => dotenv_pair(raw@) is None,
        },
{
    let line = trim(raw);
    if line.len() == 0 || line[0] == '#' {
        return None;
    }
    let body = trim(
        match strip_prefix(line, "export ") {
            Some(rest) => rest,
            None => line,
        },
    );
    match split_once(body, '=') {
        None => None,
        Some((k, v)) => {
            let k = trim(k);
            if k.len() == 0 {
                return None;
            }
            let v = trim(v);
            let n: usize = v.len();
            let v = if n >= 2 && (v[0] == '"' || v[0] == '\'') && v[n - 1] == v[0] {
                slice_subrange(v, 1, n - 1)
            } else {
                v
            };
            Some((string_of(k), string_of(v)))
        },
    }
}

fn key_present(pairs: &Vec<(String, String)>, k: &str) -> (r: bool)
    ensures
        r == has_key(request::pair_views(pairs@), k@),
{
    let ghost all = request::pair_views(pairs@);
    let mut i: usize = 0;
    while i < pairs.len()
        invariant
            i <= pairs@.len(),
            all == request::pair_views(pairs@),
            forall|j: int| 0 <= j < i ==> (#[trigger] all[j]).0 != k@,
        decreases pairs@.len() - i,
    {
        assert(all[i as int].0 == pairs@[i as int].0@);
        if str_eq(pairs[i].0.as_str(), k) {
            return true;
        }
        i += 1;
    }
    false
}

/// Reads a `.env` file: the variables to set, given the names of those that
/// are defined already.
pub fn parse_dotenv(content: &str, defined: &Vec<String>) -> (r: Vec<(String, String)>)
    ensures
        request::pair_views(r@) == dotenv_of(text::lines_of(content@), text::views(defined@)),
{
    let chars = chars_of(content);
    let all = lines(chars.as_slice());
    let ghost texts = text::slice_views(all@);
    let ghost names = text::views(defined@);
    let mut out: Vec<(String, String)> = Vec::new();
    let mut i: usize = 0;
    assert(request::pair_views(out@) =~= dotenv_of(texts.take(0), names));
    while i < all.len()
        invariant
            i <= all@.len(),
            texts == text::slice_views(all@),
            names == text::views(defined@),
            request::pair_views(out@) == dotenv_of(texts.take(i as int), names),
        decreases all@.len() - i,
    {
        assert(texts.take(i + 1).drop_last() =~= texts.take(i as int));
        assert(texts.take(i + 1).last() == all@[i as int]@);
        match dotenv_line(all[i]) {
            Some((k, v)) => {
                if !text::list_contains(defined, k.as_str()) && !key_present(&out, k.as_str()) {
                    let ghost before = request::pair_views(out@);
                    let ghost p = (k@, v@);
                    out.push((k, v));
                    assert(request::pair_views(out@) =~= before.push(p));
                }
            },
            None => {},
        }
        i += 1;
    }
    assert(texts.take(i as int) =~= texts);
    out
}

/// A line `NAME=value` sets the name to the whole of the value, also where the
/// value holds equality signs or number signs, whatever white space stands
/// around the two, and with `export` in front as without it.
pub proof fn law_dotenv_line(
    pre: Seq<char>,
    gap: Seq<char>,
    k: Seq<char>,
    m1: Seq<char>,
    m2: Seq<char>,
    v: Seq<char>,
    post: Seq<char>,
)
    requires
        is_blank(pre) && is_blank(gap) && is_blank(m1) && is_blank(m2) && is_blank(post),
        k.len() > 0,
        forall|i: int| 0 <= i < k.len() ==> !text::is_space(#[trigger] k[i]),
        !k.contains('='),
        k[0] != '#',
        k != "export"@ || m1.len() == 0,
        is_tight(v),
        v.len() < 2 || v[0] != v.last() || (v[0] != '"' && v[0] != '\''),
    ensures
        dotenv_pair(pre + k + m1 + seq!['='] + m2 + v + post) == Some((k, v)),
        dotenv_pair(pre + "export "@ + gap + k + m1 + seq!['='] + m2 + v + post) == Some((k, v)),
{
    lemma_dotenv_plain(pre, k, m1, m2, v, post);
    lemma_dotenv_exported(pre, gap, k, m1, m2, v, post);
}

/// A value in quotation marks of one kind is what stands between them, with
/// the white space at its ends.
pub proof fn law_dotenv_quotes(
    pre: Seq<char>,
    gap: Seq<char>,
    k: Seq<char>,
    m1: Seq<char>,
    m2: Seq<char>,
    q: char,
    x: Seq<char>,
    post: Seq<char>,
)
    requires
        is_blank(pre) && is_blank(gap) && is_blank(m1) && is_blank(m2) && is_blank(post),
        k.len() > 0,
        forall|i: int| 0 <= i < k.len() ==> !text::is_space(#[trigger] k[i]),
        !k.contains('='),
        k[0] != '#',
        k != "export"@ || m1.len() == 0,
        q == '"' || q == '\'',
    ensures
        ({
            let v = seq![q] + x + seq![q];
            &&& dotenv_pair(pre + k + m1 + seq!['='] + m2 + v + post) == Some((k, x))
            &&& dotenv_pair(pre + "export "@ + gap + k + m1 + seq!['='] + m2 + v + post) == Some(
                (k, x),
            )
        }),
{
    let v = seq![q] + x + seq![q];
    lemma_dotenv_plain(pre, k, m1, m2, v, post);
    lemma_dotenv_exported(pre, gap, k, m1, m2, v, post);
    assert(v.subrange(1, v.len() - 1) =~= x);
}

proof fn lemma_no_export(k: Seq<char>, m1: Seq<char>, m2: Seq<char>, v: Seq<char>)
    requires
        is_blank(m1),
        forall|i: int| 0 <= i < k.len() ==> !text::is_space(#[trigger] k[i]),
        k != "export"@ || m1.len() == 0,
    ensures
        !text::has_prefix(pair_core(k, m1, m2, v), "export "@),
{
    let core = pair_core(k, m1, m2, v);
    let word = "export "@;
    let n = k.len() as int;
    reveal_strlit("export ");
    reveal_strlit("export");
    assert(core.take(n) =~= k);
    assert(core[n] == '=' || text::is_space(core[n])) by {
        if m1.len() > 0 {
            assert(core[n] == m1[0]);
        }
    }
    // The name holds no white space, and is followed by white space or the
    // equality sign.
    if text::has_prefix(core, word) {
        assert forall|i: int| 0 <= i < 7 implies core[i] == #[trigger] word[i] by {
            assert(core.take(7)[i] == word[i]);
        }
        if n >= 7 {
            assert(k[6] == core[6] && core[6] == word[6]);
        } else if n == 6 {
            assert(k =~= "export"@) by {
                assert forall|i: int| 0 <= i < 6 implies k[i] == "export"@[i] by {
                    assert(k[i] == core[i] && core[i] == word[i]);
                }
            }
            assert(core[6] == word[6]);
        } else {
            assert(core[n] == word[n]);
        }
        assert(false);
    }
}

proof fn lemma_dotenv_plain(
    pre: Seq<char>,
    k: Seq<char>,
    m1: Seq<char>,
    m2: Seq<char>,
    v: Seq<char>,
    post: Seq<char>,
)
    requires
        is_blank(pre) && is_blank(m1) && is_blank(m2) && is_blank(post),
        k.len() > 0,
        forall|i: int| 0 <= i < k.len() ==> !text::is_space(#[trigger] k[i]),
        !k.contains('='),
        k[0] != '#',
        k != "export"@ || m1.len() == 0,
        is_tight(v),
    ensures
        dotenv_pair(pre + k + m1 + seq!['='] + m2 + v + post) == Some((k, without_quotes(v))),
{
    let nothing = Seq::<char>::empty();
    assert(!text::is_space(k[0]) && !text::is_space(k[k.len() - 1]));
    let core = pair_core(k, m1, m2, v);
    let end = pair_end(m2, v, post);
    lemma_pair_core(k, m1, m2, v, post);
    lemma_no_export(k, m1, m2, v);
    let plain = pre + k + m1 + seq!['='] + m2 + v + post;
    assert(plain =~= pre + (k + m1 + seq!['='] + m2 + v + post));
    assert(plain =~= pre + core + end);
    text::law_trimmed(pre, core, end);
    assert(nothing + core + nothing =~= core);
    text::law_trimmed(nothing, core, nothing);
}

proof fn lemma_dotenv_exported(
    pre: Seq<char>,
    gap: Seq<char>,
    k: Seq<char>,
    m1: Seq<char>,
    m2: Seq<char>,
    v: Seq<char>,
    post: Seq<char>,
)
    requires
        is_blank(pre) && is_blank(gap) && is_blank(m1) && is_blank(m2) && is_blank(post),
        k.len() > 0,
        forall|i: int| 0 <= i < k.len() ==> !text::is_space(#[trigger] k[i]),
        !k.contains('='),
        k[0] != '#',
        is_tight(v),
    ensures
        dotenv_pair(pre + "export "@ + gap + k + m1 + seq!['='] + m2 + v + post) == Some(
            (k, without_quotes(v)),
        ),
{
    let nothing = Seq::<char>::empty();
    let word = "export "@;
    reveal_strlit("export ");
    assert(!text::is_space(k[0]) && !text::is_space(k[k.len() - 1]));
    let core = pair_core(k, m1, m2, v);
    let end = pair_end(m2, v, post);
    lemma_pair_core(k, m1, m2, v, post);
    let long = word + gap + core;
    let line = pre + word + gap + k + m1 + seq!['='] + m2 + v + post;
    assert(line =~= pre + word + gap + (k + m1 + seq!['='] + m2 + v + post));
    assert(line =~= pre + long + end);
    assert(long[0] == 'e' && long.last() == core.last());
    text::law_trimmed(pre, long, end);
    assert(long.take(7) =~= word);
    assert(long.skip(7) =~= gap + core + nothing);
    text::law_trimmed(gap, core, nothing);
}

/// Blank lines, comments, lines without an equality sign and lines without a
/// name set nothing.
pub proof fn law_dotenv_ignored(pre: Seq<char>, rest: Seq<char>)
    requires
        is_blank(pre),
    ensures
        dotenv_pair(pre) is None,
        dotenv_pair(pre + seq!['#'] + rest) is None,
        dotenv_pair(pre + seq!['='] + rest) is None,
        !rest.contains('=') ==> dotenv_pair(rest) is None,
{
    let nothing = Seq::<char>::empty();
    text::law_trimmed(pre, nothing, nothing);
    assert(pre + nothing + nothing =~= pre);
    lemma_first_kept(pre, '#', rest);
    lemma_first_kept(pre, '=', rest);
    reveal_strlit("export ");
    let line = text::trimmed(pre + seq!['='] + rest);
    assert(!text::has_prefix(line, "export "@)) by {
        if text::has_prefix(line, "export "@) {
            assert(line.take(7)[0] == "export "@[0]);
        }
    }
    lemma_trimmed_tight(pre + seq!['='] + rest);
    text::law_trimmed(nothing, line, nothing);
    assert(nothing + line + nothing =~= line);
    text::law_split_once(nothing, '=', line.skip(1));
    assert(nothing + seq!['='] + line.skip(1) =~= line);
    assert(nothing + nothing + nothing =~= nothing);
    text::law_trimmed(nothing, nothing, nothing);
    if !rest.contains('=') {
        let t = text::trimmed(rest);
        lemma_trimmed_part(rest, '=');
        let body = if text::has_prefix(t, "export "@) {
            t.skip("export "@.len() as int)
        } else {
            t
        };
        assert(!body.contains('=')) by {
            if body.contains('=') {
                let i = choose|i: int| 0 <= i < body.len() && body[i] == '=';
                if text::has_prefix(t, "export "@) {
                    assert(t[i + 7] == '=');
                }
            }
        }
        lemma_trimmed_part(body, '=');
        text::law_split_once(text::trimmed(body), '=', nothing);
    }
}

proof fn lemma_trimmed_tight(s: Seq<char>)
    ensures
        is_tight(text::trimmed(s)),
    decreases s.len(),
{
    if s.len() > 0 && text::is_space(s[0]) {
        lemma_trimmed_tight(s.skip(1));
    } else {
        lemma_end_tight(s);
    }
}

proof fn lemma_end_tight(s: Seq<char>)
    requires
        s.len() == 0 || !text::is_space(s[0]),
    ensures
        is_tight(text::trimmed_end(s)),
    decreases s.len(),
{
    if s.len() > 0 && text::is_space(s.last()) {
        assert(s.drop_last().len() == 0 || s.drop_last()[0] == s[0]);
        lemma_end_tight(s.drop_last());
    }
}

proof fn lemma_first_kept(pre: Seq<char>, c: char, rest: Seq<char>)
    requires
        is_blank(pre),
        !text::is_space(c),
    ensures
        text::trimmed(pre + seq![c] + rest).len() > 0,
        text::trimmed(pre + seq![c] + rest)[0] == c,
    decreases pre.len(),
{
    let s = pre + seq![c] + rest;
    if pre.len() == 0 {
        assert(s[0] == c);
        lemma_end_first(s);
    } else {
        assert(text::is_space(pre[0]));
        let less = pre.skip(1);
        assert forall|i: int| 0 <= i < less.len() implies text::is_space(#[trigger] less[i]) by {
            assert(less[i] == pre[i + 1]);
        }
        assert(s.skip(1) =~= less + seq![c] + rest);
        lemma_first_kept(less, c, rest);
    }
}

proof fn lemma_end_first(s: Seq<char>)
    requires
        s.len() > 0,
        !text::is_space(s[0]),
    ensures
        text::trimmed_end(s).len() > 0,
        text::trimmed_end(s)[0] == s[0],
    decreases s.len(),
{
    if text::is_space(s.last()) {
        lemma_end_first(s.drop_last());
    }
}

proof fn lemma_trimmed_part(s: Seq<char>, c: char)
    requires
        !s.contains(c),
    ensures
        !text::trimmed(s).contains(c),
    decreases s.len(),
{
    if s.len() > 0 && text::is_space(s[0]) {
        assert(!s.skip(1).contains(c)) by {
            if s.skip(1).contains(c) {
                let i = choose|i: int| 0 <= i < s.skip(1).len() && s.skip(1)[i] == c;
                assert(s[i + 1] == c);
            }
        }
        lemma_trimmed_part(s.skip(1), c);
    } else {
        lemma_end_part(s, c);
    }
}

proof fn lemma_end_part(s: Seq<char>, c: char)
    requires
        !s.contains(c),
    ensures
        !text::trimmed_end(s).contains(c),
    decreases s.len(),
{
    if s.len() > 0 && text::is_space(s.last()) {
        assert(!s.drop_last().contains(c)) by {
            if s.drop_last().contains(c) {
                let i = choose|i: int| 0 <= i < s.drop_last().len() && s.drop_last()[i] == c;
                assert(s[i] == c);
            }
        }
        lemma_end_part(s.drop_last(), c);
    }
}

/// Whether a line is the first that sets a variable, and sets it to a value.
pub open spec fn first_sets(lines: Seq<Seq<char>>, i: int, p: (Seq<char>, Seq<char>)) -> bool {
    &&& 0 <= i < lines.len()
    &&& dotenv_pair(lines[i]) == Some(p)
    &&& forall|j: int|
        0 <= j < i ==> !(dotenv_pair(#[trigger] lines[j]) matches Some(q) && q.0 == p.0)
}

/// A file sets a variable to a value exactly where the first line that sets it
/// gives that value and it is not defined already.
pub proof fn law_dotenv_first_counts(
    lines: Seq<Seq<char>>,
    defined: Seq<Seq<char>>,
    p: (Seq<char>, Seq<char>),
)
    ensures
        dotenv_of(lines, defined).contains(p) <==> !defined.contains(p.0) && exists|i: int| #[trigger]
            first_sets(lines, i, p),
    decreases lines.len(),
{
    let now = dotenv_of(lines, defined);
    if lines.len() > 0 {
        let head = lines.drop_last();
        let before = dotenv_of(head, defined);
        let n = head.len() as int;
        law_dotenv_first_counts(head, defined, p);
        if now.contains(p) {
            let k = choose|k: int| 0 <= k < now.len() && now[k] == p;
            if k < before.len() {
                assert(before[k] == p);
                let i = choose|i: int| #[trigger] first_sets(head, i, p);
                lemma_first_longer(lines, i, p);
            } else {
                assert(dotenv_pair(lines[n]) == Some(p));
                assert(first_sets(lines, n, p)) by {
                    assert forall|j: int| 0 <= j < n implies !(dotenv_pair(
                        #[trigger] lines[j],
                    ) matches Some(q) && q.0 == p.0) by {
                        assert(lines[j] == head[j]);
                        if dotenv_pair(lines[j]) matches Some(q) && q.0 == p.0 {
                            lemma_set_before(head, defined, p.0, j);
                        }
                    }
                }
            }
        }
        if !defined.contains(p.0) && exists|i: int| #[trigger] first_sets(lines, i, p) {
            let i = choose|i: int| #[trigger] first_sets(lines, i, p);
            if i < n {
                assert(first_sets(head, i, p)) by {
                    assert(head[i] == lines[i]);
                    assert forall|j: int| 0 <= j < i implies !(dotenv_pair(
                        #[trigger] head[j],
                    ) matches Some(q) && q.0 == p.0) by {
                        assert(head[j] == lines[j]);
                    }
                }
                let k = choose|k: int| 0 <= k < before.len() && before[k] == p;
                assert(now[k] == p);
            } else {
                if has_key(before, p.0) {
                    let k = choose|k: int| 0 <= k < before.len() && (#[trigger] before[k]).0 == p.0;
                    let q = before[k];
                    law_dotenv_first_counts(head, defined, q);
                    assert(before.contains(q));
                    let j = choose|j: int| #[trigger] first_sets(head, j, q);
                    assert(head[j] == lines[j]);
                    assert(false);
                }
                assert(now[now.len() - 1] == p);
            }
        }
    } else {
        assert(!now.contains(p));
    }
}

proof fn lemma_first_longer(lines: Seq<Seq<char>>, i: int, p: (Seq<char>, Seq<char>))
    requires
        lines.len() > 0,
        first_sets(lines.drop_last(), i, p),
    ensures
        first_sets(lines, i, p),
{
    let head = lines.drop_last();
    assert(head[i] == lines[i]);
    assert forall|j: int| 0 <= j < i implies !(dotenv_pair(#[trigger] lines[j]) matches Some(q) && q.0
        == p.0) by {
        assert(head[j] == lines[j]);
    }
}

proof fn lemma_set_before(
    lines: Seq<Seq<char>>,
    defined: Seq<Seq<char>>,
    k: Seq<char>,
    j: int,
)
    requires
        0 <= j < lines.len(),
        dotenv_pair(lines[j]) matches Some(q) && q.0 == k,
        !defined.contains(k),
    ensures
        has_key(dotenv_of(lines, defined), k),
    decreases lines.len(),
{
    let head = lines.drop_last();
    let before = dotenv_of(head, defined);
    let now = dotenv_of(lines, defined);
    if j < head.len() {
        assert(head[j] == lines[j]);
        lemma_set_before(head, defined, k, j);
        let i = choose|i: int| 0 <= i < before.len() && (#[trigger] before[i]).0 == k;
        assert(now[i].0 == k);
    } else if !has_key(before, k) {
        assert(now[now.len() - 1].0 == k);
    }
}

/// A `.env` file sets no variable that is defined already, and none twice.
pub proof fn law_dotenv_never_overrides(lines: Seq<Seq<char>>, defined: Seq<Seq<char>>)
    ensures
        forall|i: int|
            0 <= i < dotenv_of(lines, defined).len() ==> !defined.contains(
                (#[trigger] dotenv_of(lines, defined)[i]).0,
            ),
        forall|i: int, j: int|
            0 <= i < j < dotenv_of(lines, defined).len() ==> (#[trigger] dotenv_of(
                lines,
                defined,
            )[i]).0 != (#[trigger] dotenv_of(lines, defined)[j]).0,
    decreases lines.len(),
{
    if lines.len() > 0 {
        let before = dotenv_of(lines.drop_last(), defined);
        let now = dotenv_of(lines, defined);
        law_dotenv_never_overrides(lines.drop_last(), defined);
        assert forall|i: int, j: int| 0 <= i < j < now.len() implies (#[trigger] now[i]).0 != (
        #[trigger] now[j]).0 by {
            assert(now[i] == before[i]);
            if j < before.len() {
                assert(now[j] == before[j]);
            }
        }
        assert forall|i: int| 0 <= i < now.len() implies !defined.contains(
            (#[trigger] now[i]).0,
        ) by {
            if i < before.len() {
                assert(now[i] == before[i]);
            }
        }
    }
}

/// Whether a function answers of every path whether it is in the set.
pub open spec fn is_faithful<F: Fn(&str) -> bool>(f: F, there: Set<Seq<char>>) -> bool {
    forall|s: &str, b: bool| #[trigger] call_ensures(f, (s,), b) ==> b == there.contains(s@)
}

/// A search upwards finds the nearest file: it stands in the directory or in one
/// above it, and in none between; nothing is found only where there is none.
pub proof fn law_nearest_found<F: Fn(&str) -> bool>(
    is_file: F,
    there: Set<Seq<char>>,
    base: Seq<char>,
    name: Seq<char>,
    r: Option<String>,
)
    requires
        is_faithful(is_file, there),
        found_in_parents(is_file, path::ancestors(base), name, r),
    ensures
        r matches Some(p) ==> exists|k: int|
            {
                &&& 0 <= k < path::ancestors(base).len()
                &&& p@ == path::joined_path(#[trigger] path::ancestors(base)[k], name)
                &&& there.contains(p@)
                &&& forall|j: int|
                    0 <= j < k ==> !there.contains(
                        path::joined_path(#[trigger] path::ancestors(base)[j], name),
                    )
            },
        r is None ==> forall|j: int|
            0 <= j < path::ancestors(base).len() ==> !there.contains(
                path::joined_path(#[trigger] path::ancestors(base)[j], name),
            ),
{
    let dirs = path::ancestors(base);
    match r {
        Some(p) => {
            let k = choose|k: int|
                {
                    &&& 0 <= k < dirs.len()
                    &&& p@ == path::joined_path(#[trigger] dirs[k], name)
                    &&& runtime::told(is_file, p@, true)
                    &&& forall|j: int|
                        0 <= j < k ==> runtime::told(
                            is_file,
                            path::joined_path(#[trigger] dirs[j], name),
                            false,
                        )
                };
            assert(p@ == path::joined_path(dirs[k], name));
            assert forall|j: int| 0 <= j < k implies !there.contains(
                path::joined_path(#[trigger] dirs[j], name),
            ) by {
                assert(runtime::told(is_file, path::joined_path(dirs[j], name), false));
            }
        },
        None => {
            assert forall|j: int| 0 <= j < dirs.len() implies !there.contains(
                path::joined_path(#[trigger] dirs[j], name),
            ) by {
                assert(runtime::told(is_file, path::joined_path(dirs[j], name), false));
            }
        },
    }
}

/// What the environment says of a switch: `1` and `true` switch on, `0` and
/// `false` switch off, and anything else says nothing.
pub proof fn law_switches_of_the_environment(v: Seq<char>)
    ensures
        v == seq!['1'] ==> switch(v) == Some(true),
        v == seq!['t', 'r', 'u', 'e'] ==> switch(v) == Some(true),
        v == seq!['0'] ==> switch(v) == Some(false),
        v == seq!['f', 'a', 'l', 's', 'e'] ==> switch(v) == Some(false),
        v != seq!['1'] && v != seq!['t', 'r', 'u', 'e'] && v != seq!['0'] && v != seq![
            'f',
            'a',
            'l',
            's',
            'e',
        ] ==> switch(v) is None,
{
    reveal_strlit("1");
    reveal_strlit("0");
    reveal_strlit("true");
    reveal_strlit("false");
    assert("1"@ =~= seq!['1']);
    assert("0"@ =~= seq!['0']);
    assert("true"@ =~= seq!['t', 'r', 'u', 'e']);
    assert("false"@ =~= seq!['f', 'a', 'l', 's', 'e']);
    assert(seq!['1'][0] != seq!['0'][0]);
    assert(seq!['1'].len() == 1 && seq!['0'].len() == 1);
}

/// The configuration is what the lines have set, all of it, and stands for the
/// directory of its file.
pub proof fn law_configuration(st: Settings, base: Seq<char>)
    ensures
        ({
            let c = config_of(st, base);
            &&& c.root == base
            &&& c.preload == st.preload && c.warmup == st.warmup
            &&& c.compact == st.compact && c.yjit == st.yjit
            &&& c.scripts == st.scripts
        }),
{
}

/// The daemons of applications stand below the runtime directory, each in a
/// directory with a name of sixteen digits, and an application's tests are
/// never hashed as the application itself.
pub proof fn law_app_dirs(
    app: Config,
    salt: Seq<char>,
    version: Option<Seq<char>>,
    runtime_dir: Seq<char>,
)
    requires
        runtime_dir.len() > 0 && runtime_dir.last() != '/',
        !app.root.contains('\0') && (app.preload matches Some(p) ==> !p.contains('\0')),
        version matches Some(v) ==> !v.contains('\0'),
        app.preload matches Some(p) ==> p.len() > 0,
    ensures
        ({
            let d = app_dir(app, salt, version, runtime_dir);
            let front = runtime_dir + "/apps/"@;
            &&& d.len() == front.len() + 16
            &&& d.take(front.len() as int) == front
            &&& number::hex_number(d.skip(front.len() as int)) == fnv(
                encode_utf8(runtime_key(app, salt, version)),
            )
        }),
        runtime_key(app, ""@, version) != runtime_key(app, "test"@, version),
{
    reveal_strlit("apps");
    reveal_strlit("/apps/");
    let key = fnv(encode_utf8(runtime_key(app, salt, version)));
    reveal_with_fuel(number::sixteen_to, 17);
    number::law_hex_padded(key as nat, 16);
    let h = number::hex_padded(key as nat, 16);
    let apps = path::joined_path(runtime_dir, "apps"@);
    assert(apps =~= runtime_dir + seq!['/'] + "apps"@);
    let d = app_dir(app, salt, version, runtime_dir);
    let front = runtime_dir + "/apps/"@;
    assert(h[0] != '/') by {
        lemma_hex_digits(key as nat, 16);
    }
    assert(d =~= front + h);
    assert(d.take(front.len() as int) =~= front);
    assert(d.skip(front.len() as int) =~= h);
    lemma_tests_apart(app, version);
}

proof fn lemma_hex_digits(n: nat, width: nat)
    ensures
        forall|i: int|
            0 <= i < number::hex_padded(n, width).len() ==> #[trigger] number::hex_padded(n, width)[i]
                != '/',
    decreases width,
{
    if width > 0 {
        lemma_hex_digits(n / 16, (width - 1) as nat);
        let s = number::hex_padded(n, width);
        let head = number::hex_padded(n / 16, (width - 1) as nat);
        assert forall|i: int| 0 <= i < s.len() implies #[trigger] s[i] != '/' by {
            if i < head.len() {
                assert(s[i] == head[i]);
            }
        }
    }
}

proof fn lemma_tests_apart(app: Config, version: Option<Seq<char>>)
    requires
        !app.root.contains('\0') && (app.preload matches Some(p) ==> !p.contains('\0')),
        version matches Some(v) ==> !v.contains('\0'),
        app.preload matches Some(p) ==> p.len() > 0,
    ensures
        runtime_key(app, ""@, version) != runtime_key(app, "test"@, version),
{
    reveal_strlit("");
    reveal_strlit("test");
    let a = runtime_key_parts(app, ""@, version);
    let b = runtime_key_parts(app, "test"@, version);
    assert(!Seq::<char>::empty().contains('\0'));
    assert(""@ =~= Seq::<char>::empty());
    assert(!"test"@.contains('\0'));
    assert forall|i: int| 0 <= i < a.len() implies !(#[trigger] a[i]).contains('\0') by {}
    assert forall|i: int| 0 <= i < b.len() implies !(#[trigger] b[i]).contains('\0') by {}
    if runtime_key(app, ""@, version) == runtime_key(app, "test"@, version) {
        law_runtime_key_injective(app, app, ""@, "test"@, version, version);
        assert(""@.len() == 0 && "test"@.len() == 4);
    }
}

/// A message names what it is about: the setting and the file that is not there,
/// the switch and the value that is none, the script without a command, and the
/// quotation mark with the command in which it is open.
pub proof fn law_messages(what: Seq<char>, v: Seq<char>, q: char)
    ensures
        text::has_prefix(missing(what, v), "calisto.toml: "@ + what),
        text::has_suffix(missing(what, v), " '"@ + v + "' nao existe"@),
        text::has_prefix(bad_switch(what, v), what),
        text::has_suffix(bad_switch(what, v), "(achei '"@ + v + "')"@),
        text::has_suffix(empty_script(v), "script '"@ + v + "' sem comando"@),
        text::has_prefix(unclosed(q, v), "calisto.toml: aspas '"@ + seq![q]),
        text::has_suffix(unclosed(q, v), "\""@ + v + "\""@),
{
    reveal_strlit(" deve ser 0/1/true/false (achei '");
    reveal_strlit("(achei '");
    reveal_strlit("calisto.toml: script '");
    reveal_strlit("script '");
    reveal_strlit("' nao fechadas em \"");
    reveal_strlit("\"");
    let a = missing(what, v);
    let p = "calisto.toml: "@ + what;
    assert(a.take(p.len() as int) =~= p);
    let e = " '"@ + v + "' nao existe"@;
    assert(a.skip(a.len() - e.len()) =~= e);
    let b = bad_switch(what, v);
    assert(b.take(what.len() as int) =~= what);
    let f = "(achei '"@ + v + "')"@;
    assert(b.skip(b.len() - f.len()) =~= f);
    let c = empty_script(v);
    let g = "script '"@ + v + "' sem comando"@;
    assert(c.skip(c.len() - g.len()) =~= g);
    let d = unclosed(q, v);
    let h = "calisto.toml: aspas '"@ + seq![q];
    assert(d.take(h.len() as int) =~= h);
    let k = "\""@ + v + "\""@;
    assert(d.skip(d.len() - k.len()) =~= k);
}

} // verus!
