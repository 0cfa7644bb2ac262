//! What a child process does: it takes over the client's environment and runs
//! the client's program in the interpreter that it has inherited.
use vstd::prelude::*;
use crate::commands::flags;
use crate::commands::flags::RunFlags;
use crate::text;
use crate::text::{chars_of, split_once, string_of};

verus! {

/// How a character stands in a string literal.
pub open spec fn escaped_char(c: char) -> Seq<char> {
    if c == '"' {
        seq!['\\', '"']
    } else if c == '\\' {
        seq!['\\', '\\']
    } else if c == '\n' {
        seq!['\\', 'n']
    } else if c == '\r' {
        seq!['\\', 'r']
    } else if c == '\t' {
        seq!['\\', 't']
    } else {
        seq![c]
    }
}

/// The inside of a string literal.
pub open spec fn escaped(s: Seq<char>) -> Seq<char>
    decreases s.len(),
{
    if s.len() == 0 {
        Seq::empty()
    } else {
        escaped(s.drop_last()) + escaped_char(s.last())
    }
}

/// A text as a string literal in double quotation marks.
pub open spec fn literal(s: Seq<char>) -> Seq<char> {
    seq!['"'] + escaped(s) + seq!['"']
}

/// Writes a text as a string literal.
pub fn ruby_str_literal(s: &str) -> (r: String)
    ensures
        r@ == literal(s@),
{
    let chars = chars_of(s);
    let mut r = String::new();
    r.push('"');
    let mut i: usize = 0;
    assert(r@ =~= seq!['"'] + escaped(s@.take(0)));
    while i < chars.len()
        invariant
            i <= chars@.len(),
            chars@ == s@,
            r@ == seq!['"'] + escaped(s@.take(i as int)),
        decreases chars@.len() - i,
    {
        let c = chars[i];
        let ghost before = r@;
        assert(s@.take(i + 1).drop_last() =~= s@.take(i as int));
        if c == '"' {
            r.push('\\');
            r.push('"');
        } else if c == '\\' {
            r.push('\\');
            r.push('\\');
        } else if c == '\n' {
            r.push('\\');
            r.push('n');
        } else if c == '\r' {
            r.push('\\');
            r.push('r');
        } else if c == '\t' {
            r.push('\\');
            r.push('t');
        } else {
            r.push(c);
        }
        assert(r@ =~= before + escaped_char(c));
        assert((seq!['"'] + escaped(s@.take(i as int))) + escaped_char(c) =~= seq!['"'] + (escaped(
            s@.take(i as int),
        ) + escaped_char(c)));
        i += 1;
    }
    assert(s@.take(i as int) =~= s@);
    r.push('"');
    assert(r@ =~= literal(s@));
    r
}

/// The character that a backslash and the one behind it stand for, of those
/// that occur here.
pub open spec fn unescaped(c: char) -> Option<char> {
    if c == 'n' {
        Some('\n')
    } else if c == 'r' {
        Some('\r')
    } else if c == 't' {
        Some('\t')
    } else if c == '"' || c == '\\' {
        Some(c)
    } else {
        None
    }
}

/// Whether Ruby replaces what begins at index `i` of a literal by the value of
/// an expression or a variable.
pub open spec fn interpolates_at(s: Seq<char>, i: int) -> bool {
    &&& 0 <= i && i + 1 < s.len()
    &&& s[i] == '#'
    &&& s[i + 1] == '{' || s[i + 1] == '$' || s[i + 1] == '@'
}

/// Whether a text holds nothing that Ruby would replace in a literal.
pub open spec fn is_inert(s: Seq<char>) -> bool {
    forall|i: int| !#[trigger] interpolates_at(s, i)
}

/// What the inside of a string literal stands for; nothing is said of one that
/// Ruby would fill in, nor of other escapes.
pub open spec fn meaning(s: Seq<char>) -> Option<Seq<char>>
    decreases s.len(),
{
    if s.len() == 0 {
        Some(Seq::empty())
    } else if s[0] == '"' || interpolates_at(s, 0) {
        None
    } else if s[0] == '\\' {
        if s.len() < 2 {
            None
        } else {
            match (unescaped(s[1]), meaning(s.skip(2))) {
                (Some(c), Some(rest)) => Some(seq![c] + rest),
                _ => None,
            }
        }
    } else {
        match meaning(s.skip(1)) {
            Some(rest) => Some(seq![s[0]] + rest),
            None => None,
        }
    }
}

proof fn lemma_escaped_front(s: Seq<char>)
    requires
        s.len() > 0,
    ensures
        escaped(s) == escaped_char(s[0]) + escaped(s.skip(1)),
    decreases s.len(),
{
    if s.len() == 1 {
        assert(s.drop_last() =~= Seq::<char>::empty());
        assert(s.skip(1) =~= Seq::<char>::empty());
        assert(escaped(s.drop_last()) =~= Seq::<char>::empty());
        assert(escaped(s.skip(1)) =~= Seq::<char>::empty());
        assert(escaped(s) =~= escaped_char(s[0]) + escaped(s.skip(1)));
    } else {
        let head = s.drop_last();
        lemma_escaped_front(head);
        assert(head[0] == s[0]);
        assert(head.skip(1) =~= s.skip(1).drop_last());
        assert(s.skip(1).last() == s.last());
        let e = escaped_char(s.last());
        assert((escaped_char(s[0]) + escaped(head.skip(1))) + e =~= escaped_char(s[0]) + (escaped(
            head.skip(1),
        ) + e));
    }
}

/// The inside of a literal stands for the text that was written, where that
/// holds nothing that Ruby would replace.
pub proof fn law_literal_means_text(s: Seq<char>)
    requires
        is_inert(s),
    ensures
        meaning(escaped(s)) == Some(s),
    decreases s.len(),
{
    if s.len() == 0 {
        assert(s =~= Seq::<char>::empty());
    } else {
        let rest = s.skip(1);
        let e = escaped_char(s[0]);
        let t = escaped(s);
        assert(is_inert(rest)) by {
            assert forall|i: int| !#[trigger] interpolates_at(rest, i) by {
                assert(!interpolates_at(s, i + 1));
                if interpolates_at(rest, i) {
                    assert(rest[i] == s[i + 1] && rest[i + 1] == s[i + 2]);
                }
            }
        }
        law_literal_means_text(rest);
        lemma_escaped_front(s);
        assert(t.skip(e.len() as int) =~= escaped(rest));
        assert(t[0] == e[0]);
        assert(seq![s[0]] + rest =~= s);
        if e.len() == 2 {
            assert(t[1] == e[1]);
        } else {
            assert(!interpolates_at(t, 0)) by {
                if interpolates_at(t, 0) {
                    assert(rest.len() > 0);
                    lemma_escaped_front(rest);
                    assert(t[1] == escaped(rest)[0]);
                    assert(escaped(rest)[0] == escaped_char(rest[0])[0]);
                    assert(rest[0] == t[1]);
                    assert(interpolates_at(s, 0));
                }
            }
        }
    }
}

/// Every character is written where it stands: quotation marks, backslashes, line
/// ends and tabs with a backslash in front, and all others as they are, so that
/// a literal is one line.
pub proof fn law_literal_in_place(a: Seq<char>, c: char, b: Seq<char>)
    ensures
        escaped(a + seq![c] + b) == escaped(a) + escaped(seq![c]) + escaped(b),
        escaped(Seq::empty()).len() == 0,
        escaped(seq![c]) == (if c == '"' || c == '\\' {
            seq!['\\', c]
        } else if c == '\n' {
            seq!['\\', 'n']
        } else if c == '\r' {
            seq!['\\', 'r']
        } else if c == '\t' {
            seq!['\\', 't']
        } else {
            seq![c]
        }),
        literal(a) == seq!['"'] + escaped(a) + seq!['"'],
    decreases b.len(),
{
    let nothing = Seq::<char>::empty();
    assert(seq![c].drop_last() =~= nothing);
    assert(escaped(nothing) =~= nothing);
    assert(escaped(seq![c]) =~= escaped_char(c));
    let s = a + seq![c] + b;
    if b.len() == 0 {
        assert(s.drop_last() =~= a);
        assert(escaped(a) + escaped_char(c) + escaped(b) =~= escaped(a) + escaped_char(c));
    } else {
        law_literal_in_place(a, c, b.drop_last());
        assert(s.drop_last() =~= a + seq![c] + b.drop_last());
        assert(s.last() == b.last());
        assert(escaped(a) + escaped_char(c) + escaped(b.drop_last()) + escaped_char(b.last())
            =~= escaped(a) + escaped_char(c) + (escaped(b.drop_last()) + escaped_char(b.last())));
    }
}

/// A value of `$VERBOSE`.
#[derive(PartialEq, Eq, Structural)]
pub enum Verbose {
    True,
    False,
    Nil,
}

/// The value of `$VERBOSE` for a level of warnings: `-w` and `-W2` are true,
/// `-W1` is false and `-W0` is nil; other levels leave it as it is.
pub open spec fn level_value(verbose: Option<i8>) -> Option<Verbose> {
    match verbose {
        Some(n) => if n == -1 || n == 2 {
            Some(Verbose::True)
        } else if n == 0 {
            Some(Verbose::Nil)
        } else if n == 1 {
            Some(Verbose::False)
        } else {
            None
        },
        None => None,
    }
}

/// The value of `$VERBOSE` for a level of warnings.
pub fn apply_run_verbose(verbose: Option<i8>) -> (r: Option<Verbose>)
    ensures
        r == level_value(verbose),
{
    match verbose {
        Some(n) => if n == -1 || n == 2 {
            Some(Verbose::True)
        } else if n == 0 {
            Some(Verbose::Nil)
        } else if n == 1 {
            Some(Verbose::False)
        } else {
            None
        },
        None => None,
    }
}

/// The code that sets the encodings: the external one, and behind a colon the
/// internal one.
pub open spec fn encoding_code(enc: Seq<char>) -> Seq<char> {
    let external = |e: Seq<char>|
        "Encoding.default_external = Encoding.find("@ + literal(e) + ")"@;
    match text::split_at_first(enc, ':') {
        Some((e, i)) => external(e) + "\nEncoding.default_internal = Encoding.find("@ + literal(i)
            + ")"@,
        None => external(enc),
    }
}

/// Builds the code that sets the encodings.
pub fn apply_run_encoding(enc: &str) -> (r: String)
    ensures
        r@ == encoding_code(enc@),
{
    let chars = chars_of(enc);
    let mut r = "Encoding.default_external = Encoding.find(".to_string();
    match split_once(chars.as_slice(), ':') {
        Some((e, i)) => {
            r.append(ruby_str_literal(string_of(e).as_str()).as_str());
            r.append(")");
            r.append("\nEncoding.default_internal = Encoding.find(");
            r.append(ruby_str_literal(string_of(i).as_str()).as_str());
            r.append(")");
        },
        None => {
            r.append(ruby_str_literal(enc).as_str());
            r.append(")");
        },
    }
    r
}

/// One thing that a child does in its interpreter.
pub enum ChildStep {
    /// Set `$VERBOSE`.
    SetVerbose(Verbose),
    /// Run code that sets the encodings.
    SetEncoding(String),
    /// Check the program and end.
    CheckSyntax,
    /// Load a library.
    Load(String),
    /// Take over the directories that the environment names, and the one of
    /// the native modules.
    TakeLoadPath,
    /// Put a directory in front of the load path.
    PutInFront(String),
    /// Set `$0` and the arguments.
    NameProgram(String),
    /// Let the standard streams write at once where they are terminals.
    SyncStreams,
    /// Make what follows the end of the program readable as data.
    OpenData,
    /// Run the code of the request.
    EvalCode,
    /// Run the file of the request.
    LoadFile,
}

/// A step, as contracts see it.
pub enum Act {
    SetVerbose(Verbose),
    SetEncoding(Seq<char>),
    CheckSyntax,
    Load(Seq<char>),
    TakeLoadPath,
    PutInFront(Seq<char>),
    NameProgram(Seq<char>),
    SyncStreams,
    OpenData,
    EvalCode,
    LoadFile,
}

impl View for ChildStep {
    type V = Act;

    open spec fn view(&self) -> Act {
        match self {
            ChildStep::SetVerbose(v) => Act::SetVerbose(*v),
            ChildStep::SetEncoding(c) => Act::SetEncoding(c@),
            ChildStep::CheckSyntax => Act::CheckSyntax,
            ChildStep::Load(l) => Act::Load(l@),
            ChildStep::TakeLoadPath => Act::TakeLoadPath,
            ChildStep::PutInFront(d) => Act::PutInFront(d@),
            ChildStep::NameProgram(n) => Act::NameProgram(n@),
            ChildStep::SyncStreams => Act::SyncStreams,
            ChildStep::OpenData => Act::OpenData,
            ChildStep::EvalCode => Act::EvalCode,
            ChildStep::LoadFile => Act::LoadFile,
        }
    }
}

/// The steps of a list.
pub open spec fn step_views(list: Seq<ChildStep>) -> Seq<Act> {
    list.map_values(|s: ChildStep| s@)
}

/// The steps that put directories in front of the load path: the last
/// directory first, so that they stand there in their own order.
pub open spec fn in_front(dirs: Seq<Seq<char>>) -> Seq<Act>
    decreases dirs.len(),
{
    if dirs.len() == 0 {
        Seq::empty()
    } else {
        seq![Act::PutInFront(dirs.last())] + in_front(dirs.drop_last())
    }
}

/// What putting directories in front one after the other makes of a load path.
pub open spec fn load_path_after(steps: Seq<Act>, load_path: Seq<Seq<char>>) -> Seq<Seq<char>>
    decreases steps.len(),
{
    if steps.len() == 0 {
        load_path
    } else {
        match steps[0] {
            Act::PutInFront(d) => load_path_after(steps.skip(1), seq![d] + load_path),
            _ => load_path_after(steps.skip(1), load_path),
        }
    }
}

/// The directories of `-I` stand in front of the load path in the order in
/// which they were given.
pub proof fn law_load_path_order(dirs: Seq<Seq<char>>, load_path: Seq<Seq<char>>)
    ensures
        load_path_after(in_front(dirs), load_path) == dirs + load_path,
    decreases dirs.len(),
{
    if dirs.len() == 0 {
        assert(dirs + load_path =~= load_path);
    } else {
        let d = dirs.last();
        let steps = in_front(dirs);
        let head = dirs.drop_last();
        assert(steps[0] == Act::PutInFront(d));
        assert(steps.skip(1) =~= in_front(head));
        law_load_path_order(head, seq![d] + load_path);
        assert(head + (seq![d] + load_path) =~= dirs + load_path);
    }
}

/// The steps that set the interpreter up before the program is looked at.
pub open spec fn opening(f: flags::Flags) -> Seq<Act> {
    (match f.verbose {
        Some(n) => if n == -1 || n == 2 {
            seq![Act::SetVerbose(Verbose::True)]
        } else if n == 0 {
            seq![Act::SetVerbose(Verbose::Nil)]
        } else if n == 1 {
            seq![Act::SetVerbose(Verbose::False)]
        } else {
            Seq::empty()
        },
        None => Seq::empty(),
    }) + (match f.encoding {
        Some(e) => seq![Act::SetEncoding(encoding_code(e))],
        None => Seq::empty(),
    })
}

/// The steps that prepare the load path and the libraries.
pub open spec fn preparation(f: flags::Flags) -> Seq<Act> {
    seq![Act::Load("bundler/setup"@), Act::TakeLoadPath] + in_front(f.load_paths) + f.libs.map_values(
        |l: Seq<char>| Act::Load(l),
    )
}

/// The steps that run the program.
pub open spec fn running(eval: bool, subject: Seq<char>, is_file: bool) -> Seq<Act> {
    if eval {
        seq![Act::NameProgram("-e"@), Act::SyncStreams, Act::EvalCode]
    } else if is_file {
        seq![Act::NameProgram(subject), Act::SyncStreams, Act::OpenData, Act::LoadFile]
    } else {
        seq![Act::NameProgram(subject), Act::SyncStreams, Act::LoadFile]
    }
}

/// The steps of a child, in order. A check of the program ends them early.
pub open spec fn steps_of(
    eval: bool,
    subject: Seq<char>,
    is_file: bool,
    f: flags::Flags,
) -> Seq<Act> {
    if f.syntax_check {
        opening(f) + seq![Act::CheckSyntax]
    } else {
        opening(f) + preparation(f) + running(eval, subject, is_file)
    }
}

/// A check of the program runs nothing: neither the program nor a library is
/// loaded, and the check is the last step.
pub proof fn law_check_runs_nothing(
    eval: bool,
    subject: Seq<char>,
    is_file: bool,
    f: flags::Flags,
)
    requires
        f.syntax_check,
    ensures
        ({
            let steps = steps_of(eval, subject, is_file, f);
            &&& steps.len() > 0 && steps.last() == Act::CheckSyntax
            &&& forall|i: int|
                0 <= i < steps.len() ==> !((#[trigger] steps[i]) is Load) && !(steps[i] is EvalCode)
                    && !(steps[i] is LoadFile)
        }),
{
}

/// The libraries that steps load, in their order.
pub open spec fn loaded(steps: Seq<Act>) -> Seq<Seq<char>>
    decreases steps.len(),
{
    if steps.len() == 0 {
        Seq::empty()
    } else {
        match steps.last() {
            Act::Load(l) => loaded(steps.drop_last()).push(l),
            _ => loaded(steps.drop_last()),
        }
    }
}

proof fn lemma_loaded_then(a: Seq<Act>, b: Seq<Act>)
    ensures
        loaded(a + b) == loaded(a) + loaded(b),
    decreases b.len(),
{
    if b.len() == 0 {
        assert(a + b =~= a);
        assert(loaded(a) + loaded(b) =~= loaded(a));
    } else {
        lemma_loaded_then(a, b.drop_last());
        assert((a + b).drop_last() =~= a + b.drop_last());
        assert((a + b).last() == b.last());
        match b.last() {
            Act::Load(l) => {
                assert(loaded(a) + loaded(b.drop_last()).push(l) =~= (loaded(a) + loaded(
                    b.drop_last(),
                )).push(l));
            },
            _ => {},
        }
    }
}

proof fn lemma_none_loaded(steps: Seq<Act>)
    requires
        forall|i: int| 0 <= i < steps.len() ==> !((#[trigger] steps[i]) is Load),
    ensures
        loaded(steps) == Seq::<Seq<char>>::empty(),
    decreases steps.len(),
{
    if steps.len() > 0 {
        assert(!(steps[steps.len() - 1] is Load));
        let head = steps.drop_last();
        assert forall|i: int| 0 <= i < head.len() implies !((#[trigger] head[i]) is Load) by {
            assert(head[i] == steps[i]);
        }
        lemma_none_loaded(head);
    }
}

proof fn lemma_libs_loaded(libs: Seq<Seq<char>>)
    ensures
        loaded(libs.map_values(|l: Seq<char>| Act::Load(l))) == libs,
    decreases libs.len(),
{
    let acts = libs.map_values(|l: Seq<char>| Act::Load(l));
    if libs.len() == 0 {
        assert(loaded(acts) =~= libs);
    } else {
        lemma_libs_loaded(libs.drop_last());
        assert(acts.drop_last() =~= libs.drop_last().map_values(|l: Seq<char>| Act::Load(l)));
        assert(libs.drop_last().push(libs.last()) =~= libs);
    }
}

proof fn lemma_in_front_only(dirs: Seq<Seq<char>>)
    ensures
        forall|i: int| 0 <= i < in_front(dirs).len() ==> (#[trigger] in_front(dirs)[i]) is PutInFront,
    decreases dirs.len(),
{
    if dirs.len() > 0 {
        lemma_in_front_only(dirs.drop_last());
        assert forall|i: int| 0 <= i < in_front(dirs).len() implies (#[trigger] in_front(
            dirs,
        )[i]) is PutInFront by {
            if i > 0 {
                assert(in_front(dirs)[i] == in_front(dirs.drop_last())[i - 1]);
            }
        }
    }
}

proof fn lemma_path_then(a: Seq<Act>, b: Seq<Act>, load_path: Seq<Seq<char>>)
    ensures
        load_path_after(a + b, load_path) == load_path_after(b, load_path_after(a, load_path)),
    decreases a.len(),
{
    if a.len() == 0 {
        assert(a + b =~= b);
    } else {
        assert((a + b)[0] == a[0]);
        assert((a + b).skip(1) =~= a.skip(1) + b);
        match a[0] {
            Act::PutInFront(d) => lemma_path_then(a.skip(1), b, seq![d] + load_path),
            _ => lemma_path_then(a.skip(1), b, load_path),
        }
    }
}

proof fn lemma_path_kept(steps: Seq<Act>, load_path: Seq<Seq<char>>)
    requires
        forall|i: int| 0 <= i < steps.len() ==> !((#[trigger] steps[i]) is PutInFront),
    ensures
        load_path_after(steps, load_path) == load_path,
    decreases steps.len(),
{
    if steps.len() > 0 {
        assert(!(steps[0] is PutInFront));
        let rest = steps.skip(1);
        assert forall|i: int| 0 <= i < rest.len() implies !((#[trigger] rest[i]) is PutInFront) by {
            assert(rest[i] == steps[i + 1]);
        }
        lemma_path_kept(rest, load_path);
    }
}

/// The level of warnings decides `$VERBOSE` before anything else happens: a
/// child sets it to nil exactly at level 0, to false exactly at level 1, and to
/// true exactly at level 2 and for `-w`; otherwise it leaves it alone.
pub proof fn law_warning_level(
    eval: bool,
    subject: Seq<char>,
    is_file: bool,
    f: flags::Flags,
    v: Verbose,
)
    ensures
        ({
            let steps = steps_of(eval, subject, is_file, f);
            let due = match v {
                Verbose::Nil => f.verbose == Some(0i8),
                Verbose::False => f.verbose == Some(1i8),
                Verbose::True => f.verbose == Some(2i8) || f.verbose == Some(-1i8),
            };
            &&& steps.contains(Act::SetVerbose(v)) <==> due
            &&& due ==> steps[0] == Act::SetVerbose(v)
            &&& level_value(f.verbose) == Some(v) <==> due
        }),
{
    let steps = steps_of(eval, subject, is_file, f);
    let due = match v {
        Verbose::Nil => f.verbose == Some(0i8),
        Verbose::False => f.verbose == Some(1i8),
        Verbose::True => f.verbose == Some(2i8) || f.verbose == Some(-1i8),
    };
    let libs = f.libs.map_values(|l: Seq<char>| Act::Load(l));
    let dirs = in_front(f.load_paths);
    let n = opening(f).len() as int;
    lemma_in_front_only(f.load_paths);
    if due {
        assert(steps[0] == Act::SetVerbose(v));
    } else {
        assert forall|i: int| 0 <= i < steps.len() implies #[trigger] steps[i] != Act::SetVerbose(
            v,
        ) by {
            if i < n {
                assert(steps[i] == opening(f)[i]);
            } else if !f.syntax_check {
                let j = i - n;
                if j < preparation(f).len() {
                    assert(steps[i] == preparation(f)[j]);
                    if 2 <= j < 2 + dirs.len() {
                        assert(preparation(f)[j] == dirs[j - 2]);
                    } else if j >= 2 + dirs.len() {
                        assert(preparation(f)[j] == libs[j - 2 - dirs.len()]);
                    }
                } else {
                    assert(steps[i] == running(eval, subject, is_file)[j - preparation(f).len()]);
                }
            }
        }
    }
}

/// The encodings are set exactly where some are given: a name alone is the
/// external one, and behind a colon stands the internal one.
pub proof fn law_encoding(
    eval: bool,
    subject: Seq<char>,
    is_file: bool,
    f: flags::Flags,
    external: Seq<char>,
    internal: Seq<char>,
)
    requires
        !external.contains(':'),
    ensures
        ({
            let steps = steps_of(eval, subject, is_file, f);
            let first = "Encoding.default_external = Encoding.find("@ + literal(external) + ")"@;
            let second = "\nEncoding.default_internal = Encoding.find("@ + literal(internal) + ")"@;
            &&& f.encoding == Some(external) ==> steps.contains(Act::SetEncoding(first))
            &&& f.encoding == Some(external + seq![':'] + internal) ==> steps.contains(
                Act::SetEncoding(first + second),
            )
        }),
{
    let steps = steps_of(eval, subject, is_file, f);
    text::law_split_once(external, ':', internal);
    let first = "Encoding.default_external = Encoding.find("@ + literal(external) + ")"@;
    let second = "\nEncoding.default_internal = Encoding.find("@ + literal(internal) + ")"@;
    let n = opening(f).len() as int;
    if f.encoding is Some {
        assert(steps[n - 1] == opening(f)[n - 1]);
        assert(steps.contains(steps[n - 1]));
    }
    assert(encoding_code(external + seq![':'] + internal) =~= first + second);
}

/// Before the program runs, Bundler is set up and then the libraries of `-r`
/// are loaded, in the order in which they were given, and the directories of
/// `-I` stand in front of the load path, in theirs.
pub proof fn law_program_prepared(
    eval: bool,
    subject: Seq<char>,
    is_file: bool,
    f: flags::Flags,
    load_path: Seq<Seq<char>>,
)
    requires
        !f.syntax_check,
    ensures
        ({
            let steps = steps_of(eval, subject, is_file, f);
            let n = steps.len() as int;
            &&& loaded(steps.take(n - 1)) == seq!["bundler/setup"@] + f.libs
            &&& load_path_after(steps.take(n - 1), load_path) == f.load_paths + load_path
            &&& steps.last() == (if eval {
                Act::EvalCode
            } else {
                Act::LoadFile
            })
        }),
{
    let steps = steps_of(eval, subject, is_file, f);
    let n = steps.len() as int;
    let open = opening(f);
    let start = seq![Act::Load("bundler/setup"@), Act::TakeLoadPath];
    let dirs = in_front(f.load_paths);
    let libs = f.libs.map_values(|l: Seq<char>| Act::Load(l));
    let run = running(eval, subject, is_file);
    let end = run.drop_last();
    assert(steps.take(n - 1) =~= open + (start + (dirs + (libs + end))));
    lemma_in_front_only(f.load_paths);
    lemma_none_loaded(open);
    lemma_none_loaded(dirs);
    lemma_none_loaded(end);
    lemma_libs_loaded(f.libs);
    lemma_loaded_then(open, start + (dirs + (libs + end)));
    lemma_loaded_then(start, dirs + (libs + end));
    lemma_loaded_then(dirs, libs + end);
    lemma_loaded_then(libs, end);
    assert(loaded(start) =~= seq!["bundler/setup"@]) by {
        assert(start.drop_last() =~= seq![Act::Load("bundler/setup"@)]);
        assert(start.drop_last().drop_last() =~= Seq::<Act>::empty());
        reveal_with_fuel(loaded, 4);
    }
    assert(loaded(steps.take(n - 1)) =~= seq!["bundler/setup"@] + f.libs);
    lemma_path_then(open, start + (dirs + (libs + end)), load_path);
    lemma_path_then(start, dirs + (libs + end), load_path);
    lemma_path_then(dirs, libs + end, load_path);
    law_load_path_order(f.load_paths, load_path);
    lemma_path_kept(open, load_path);
    lemma_path_kept(start, load_path);
    let tail = libs + end;
    assert forall|i: int| 0 <= i < tail.len() implies !((#[trigger] tail[i]) is PutInFront) by {
        if i < libs.len() {
            assert(tail[i] == libs[i]);
        } else {
            assert(tail[i] == end[i - libs.len()]);
        }
    }
    lemma_path_kept(tail, f.load_paths + load_path);
}

/// The program is named before it runs, `-e` where it is code and its own path
/// otherwise, and its data is opened exactly where it is a file.
pub proof fn law_program_named(eval: bool, subject: Seq<char>, is_file: bool, f: flags::Flags)
    requires
        !f.syntax_check,
    ensures
        ({
            let steps = steps_of(eval, subject, is_file, f);
            let n = steps.len() as int;
            &&& eval ==> steps[n - 3] == Act::NameProgram("-e"@)
            &&& !eval && is_file ==> steps[n - 4] == Act::NameProgram(subject) && steps[n - 2]
                == Act::OpenData
            &&& !eval && !is_file ==> steps[n - 3] == Act::NameProgram(subject)
            &&& steps.contains(Act::OpenData) <==> !eval && is_file
        }),
{
    let steps = steps_of(eval, subject, is_file, f);
    let run = running(eval, subject, is_file);
    let libs = f.libs.map_values(|l: Seq<char>| Act::Load(l));
    let dirs = in_front(f.load_paths);
    let n = opening(f).len() as int;
    let m = preparation(f).len() as int;
    assert(steps.skip(n + m) =~= run);
    assert forall|k: int| 0 <= k < run.len() implies steps[n + m + k] == #[trigger] run[k] by {
        assert(steps.skip(n + m)[k] == run[k]);
    }
    lemma_in_front_only(f.load_paths);
    if !eval && is_file {
        assert(steps[steps.len() - 2] == run[2]);
        assert(steps.contains(steps[steps.len() - 2]));
    } else {
        assert forall|i: int| 0 <= i < steps.len() implies #[trigger] steps[i] != Act::OpenData by {
            if i < n {
                assert(steps[i] == opening(f)[i]);
            } else if i < n + m {
                let j = i - n;
                assert(steps[i] == preparation(f)[j]);
                if 2 <= j < 2 + dirs.len() {
                    assert(preparation(f)[j] == dirs[j - 2]);
                } else if j >= 2 + dirs.len() {
                    assert(preparation(f)[j] == libs[j - 2 - dirs.len()]);
                }
            } else {
                assert(steps[i] == run[i - n - m]);
            }
        }
    }
}

fn push_step(list: &mut Vec<ChildStep>, s: ChildStep)
    ensures
        step_views(final(list)@) == step_views(old(list)@).push(s@),
{
    let ghost before = step_views(list@);
    let ghost act = s@;
    list.push(s);
    assert(step_views(list@) =~= before.push(act));
}

fn push_opening(r: &mut Vec<ChildStep>, flags: &RunFlags)
    ensures
        step_views(final(r)@) == step_views(old(r)@) + opening(flags@),
{
    let ghost before = step_views(r@);
    match apply_run_verbose(flags.verbose) {
        Some(v) => {
            push_step(r, ChildStep::SetVerbose(v));
        },
        None => {},
    }
    match &flags.encoding {
        Some(e) => {
            push_step(r, ChildStep::SetEncoding(apply_run_encoding(e.as_str())));
        },
        None => {},
    }
    assert(step_views(r@) =~= before + opening(flags@));
}

fn push_dirs(r: &mut Vec<ChildStep>, list: &Vec<String>)
    ensures
        step_views(final(r)@) == step_views(old(r)@) + in_front(text::views(list@)),
{
    let ghost start = step_views(r@);
    let ghost dirs = text::views(list@);
    let mut n: usize = list.len();
    assert(dirs.take(n as int) =~= dirs);
    while n > 0
        invariant
            n <= list@.len(),
            dirs == text::views(list@),
            step_views(r@) + in_front(dirs.take(n as int)) == start + in_front(dirs),
        decreases n,
    {
        let ghost before = step_views(r@);
        n -= 1;
        push_step(r, ChildStep::PutInFront(list[n].clone()));
        proof {
            let upto = dirs.take(n + 1);
            let act = Act::PutInFront(upto.last());
            assert(upto.drop_last() =~= dirs.take(n as int));
            assert(upto.last() == list@[n as int]@);
            assert(before + (seq![act] + in_front(dirs.take(n as int))) =~= before.push(act)
                + in_front(dirs.take(n as int)));
        }
    }
    assert(step_views(r@) + in_front(dirs.take(0)) =~= step_views(r@));
}

fn push_libs(r: &mut Vec<ChildStep>, list: &Vec<String>)
    ensures
        step_views(final(r)@) == step_views(old(r)@) + text::views(list@).map_values(
            |l: Seq<char>| Act::Load(l),
        ),
{
    let ghost start = step_views(r@);
    let ghost loads = text::views(list@).map_values(|l: Seq<char>| Act::Load(l));
    let mut i: usize = 0;
    assert(start + loads.take(0) =~= start);
    while i < list.len()
        invariant
            i <= list@.len(),
            loads == text::views(list@).map_values(|l: Seq<char>| Act::Load(l)),
            step_views(r@) == start + loads.take(i as int),
        decreases list@.len() - i,
    {
        push_step(r, ChildStep::Load(list[i].clone()));
        assert(loads[i as int] == Act::Load(list@[i as int]@));
        i += 1;
        assert(step_views(r@) =~= start + loads.take(i as int));
    }
    assert(loads.take(i as int) =~= loads);
}

fn push_running(r: &mut Vec<ChildStep>, eval: bool, subject: &str, is_file: bool)
    ensures
        step_views(final(r)@) == step_views(old(r)@) + running(eval, subject@, is_file),
{
    let ghost before = step_views(r@);
    if eval {
        push_step(r, ChildStep::NameProgram("-e".to_string()));
        push_step(r, ChildStep::SyncStreams);
        push_step(r, ChildStep::EvalCode);
    } else {
        push_step(r, ChildStep::NameProgram(subject.to_string()));
        push_step(r, ChildStep::SyncStreams);
        if is_file {
            push_step(r, ChildStep::OpenData);
        }
        push_step(r, ChildStep::LoadFile);
    }
    assert(step_views(r@) =~= before + running(eval, subject@, is_file));
}

/// Plans what a child does; `is_file` says whether the subject is a file.
pub fn child_plan(eval: bool, subject: &str, is_file: bool, flags: &RunFlags) -> (r: Vec<ChildStep>)
    ensures
        step_views(r@) == steps_of(
            eval,
            subject@,
            is_file,
            flags@,
        ),
{
    let mut r: Vec<ChildStep> = Vec::new();
    push_opening(&mut r, flags);
    let ghost open = opening(flags@);
    assert(step_views(r@) =~= open);
    if flags.syntax_check {
        push_step(&mut r, ChildStep::CheckSyntax);
        assert(step_views(r@) =~= open + seq![Act::CheckSyntax]);
        return r;
    }
    push_step(&mut r, ChildStep::Load("bundler/setup".to_string()));
    push_step(&mut r, ChildStep::TakeLoadPath);
    push_dirs(&mut r, &flags.load_paths);
    push_libs(&mut r, &flags.libs);
    assert(step_views(r@) =~= open + preparation(flags@));
    push_running(&mut r, eval, subject, is_file);
    r
}

} // verus!
