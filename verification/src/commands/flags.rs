//! The flags of `ruby` that `calisto run` takes over: how they stand on a
//! command line, and how a request carries them to the child.
use vstd::prelude::*;
use vstd::slice::slice_subrange;
use vstd::utf8::*;
use crate::appconfig;
use crate::native::url;
use crate::native::url::{escape, unescape};
use crate::number;
use crate::number::{parse_i32, signed_decimal_of};
use crate::protocol::request;
use crate::text;
use crate::text::{chars_of, join, split, str_eq, string_of};
use crate::utf8;
use crate::utf8::{text_of, utf8_bytes};

verus! {

/// The flags of `ruby` for a program.
pub struct RunFlags {
    /// The level of warnings: -1 for `-w`, or the number behind `-W`.
    pub verbose: Option<i8>,
    /// The encoding behind `-E`.
    pub encoding: Option<String>,
    /// Whether the program is only checked (`-c`).
    pub syntax_check: bool,
    /// The directories behind `-I`.
    pub load_paths: Vec<String>,
    /// The libraries behind `-r`.
    pub libs: Vec<String>,
}

/// The flags, as contracts see them.
#[verifier::ext_equal]
pub struct Flags {
    pub verbose: Option<i8>,
    pub encoding: Option<Seq<char>>,
    pub syntax_check: bool,
    pub load_paths: Seq<Seq<char>>,
    pub libs: Seq<Seq<char>>,
}

impl View for RunFlags {
    type V = Flags;

    open spec fn view(&self) -> Flags {
        Flags {
            verbose: self.verbose,
            encoding: appconfig::opt_view(self.encoding),
            syntax_check: self.syntax_check,
            load_paths: text::views(self.load_paths@),
            libs: text::views(self.libs@),
        }
    }
}

/// No flags at all.
pub open spec fn no_flags() -> Flags {
    Flags {
        verbose: None,
        encoding: None,
        syntax_check: false,
        load_paths: Seq::empty(),
        libs: Seq::empty(),
    }
}

impl Default for RunFlags {
    fn default() -> (r: RunFlags)
        ensures
            r@ == no_flags(),
    {
        let r = RunFlags {
            verbose: None,
            encoding: None,
            syntax_check: false,
            load_paths: Vec::new(),
            libs: Vec::new(),
        };
        assert(r@ =~= no_flags());
        r
    }
}

// On a command line.

/// Whether an argument that begins with a dash and this character holds flags
/// of `ruby`.
pub open spec fn begins_flags(c: char) -> bool {
    c == 'I' || c == 'r' || c == 'w' || c == 'W' || c == 'c' || c == 'E'
}

/// The level of warnings that a digit behind `-W` asks for; from two on there
/// is no higher one.
pub open spec fn level(c: char) -> i8 {
    if c == '0' {
        0
    } else if c == '1' {
        1
    } else {
        2
    }
}

/// What an argument with flags says.
pub enum Short {
    /// This.
    Done(Flags),
    /// This, and the last flag takes a value, which may stand behind it in the
    /// argument.
    Value { flags: Flags, kind: char, attached: Seq<char> },
    /// It holds a character that is no flag.
    Unknown,
}

/// What the characters behind a dash say, where `f` has been said before. The
/// flags `w`, `W` with or without a digit, and `c` can stand one behind the
/// other; `I`, `r` and `E` take what follows.
pub open spec fn short_flags(s: Seq<char>, f: Flags) -> Short
    decreases s.len(),
{
    if s.len() == 0 {
        Short::Done(f)
    } else if s[0] == 'w' {
        short_flags(s.skip(1), Flags { verbose: Some(-1i8), ..f })
    } else if s[0] == 'c' {
        short_flags(s.skip(1), Flags { syntax_check: true, ..f })
    } else if s[0] == 'W' {
        if s.len() > 1 && '0' <= s[1] <= '7' {
            short_flags(s.skip(2), Flags { verbose: Some(level(s[1])), ..f })
        } else {
            short_flags(s.skip(1), Flags { verbose: Some(2i8), ..f })
        }
    } else if s[0] == 'I' || s[0] == 'r' || s[0] == 'E' {
        Short::Value { flags: f, kind: s[0], attached: s.skip(1) }
    } else {
        Short::Unknown
    }
}

/// The directories among the parts of a list: those that are not empty.
pub open spec fn dirs_of(parts: Seq<Seq<char>>) -> Seq<Seq<char>>
    decreases parts.len(),
{
    if parts.len() == 0 {
        Seq::empty()
    } else if parts.last().len() == 0 {
        dirs_of(parts.drop_last())
    } else {
        dirs_of(parts.drop_last()).push(parts.last())
    }
}

/// The flags with the value of one more: `-I` names directories with colons
/// between them, `-r` a library, and `-E` the encoding.
pub open spec fn with_value(f: Flags, kind: char, value: Seq<char>) -> Flags {
    if kind == 'I' {
        Flags { load_paths: f.load_paths + dirs_of(text::split_parts(value, ':')), ..f }
    } else if kind == 'r' {
        Flags { libs: f.libs.push(value), ..f }
    } else {
        Flags { encoding: Some(value), ..f }
    }
}

/// What an argument with flags has come to, after the flags were taken over.
pub enum ShortRead {
    Done,
    /// The last flag takes a value; this stands behind it in the argument.
    Value(char, String),
    Unknown,
}

/// Takes over the flags of an argument, given without its dash.
pub fn read_short(f: &mut RunFlags, s: &[char]) -> (r: ShortRead)
    ensures
        match short_flags(s@, old(f)@) {
            Short::Done(g) => r is Done && final(f)@ == g,
            Short::Value { flags, kind, attached } => {
                &&& r matches ShortRead::Value(k, v)
                &&& k == kind
                &&& v@ == attached
                &&& final(f)@ == flags
            },
            Short::Unknown => r is Unknown,
        },
{
    let mut i: usize = 0;
    assert(s@.skip(0) =~= s@);
    while i < s.len()
        invariant
            i <= s@.len(),
            short_flags(s@.skip(i as int), f@) == short_flags(s@, old(f)@),
        decreases s@.len() - i,
    {
        let ghost left = s@.skip(i as int);
        let ghost before = f@;
        assert(left[0] == s@[i as int]);
        assert(left.skip(1) =~= s@.skip(i + 1));
        assert(left.len() > 1 ==> left[1] == s@[i + 1] && left.skip(2) =~= s@.skip(i + 2));
        let c = s[i];
        if c == 'w' {
            f.verbose = Some(-1);
            assert(f@ =~= Flags { verbose: Some(-1i8), ..before });
        } else if c == 'c' {
            f.syntax_check = true;
            assert(f@ =~= Flags { syntax_check: true, ..before });
        } else if c == 'W' {
            if s.len() - i > 1 && '0' <= s[i + 1] && s[i + 1] <= '7' {
                i += 1;
                let n: i8 = if s[i] == '0' {
                    0
                } else if s[i] == '1' {
                    1
                } else {
                    2
                };
                f.verbose = Some(n);
                assert(f@ =~= Flags { verbose: Some(level(left[1])), ..before });
            } else {
                f.verbose = Some(2);
                assert(f@ =~= Flags { verbose: Some(2i8), ..before });
            }
        } else if c == 'I' || c == 'r' || c == 'E' {
            let rest = slice_subrange(s, i + 1, s.len());
            assert(rest@ =~= left.skip(1));
            return ShortRead::Value(c, string_of(rest));
        } else {
            return ShortRead::Unknown;
        }
        i += 1;
    }
    ShortRead::Done
}

/// Takes over the value of a flag.
pub fn take_value(f: &mut RunFlags, kind: char, value: &str)
    ensures
        final(f)@ == with_value(old(f)@, kind, value@),
{
    let ghost before = f@;
    if kind == 'I' {
        let chars = chars_of(value);
        let parts = split(chars.as_slice(), ':');
        let ghost all = text::slice_views(parts@);
        let mut i: usize = 0;
        assert(before.load_paths + dirs_of(all.take(0)) =~= before.load_paths);
        while i < parts.len()
            invariant
                i <= parts@.len(),
                all == text::slice_views(parts@),
                f@ == (Flags { load_paths: before.load_paths + dirs_of(all.take(i as int)), ..before }),
            decreases parts@.len() - i,
        {
            let ghost paths = text::views(f.load_paths@);
            assert(all.take(i + 1).drop_last() =~= all.take(i as int));
            assert(all.take(i + 1).last() == parts@[i as int]@);
            if parts[i].len() > 0 {
                f.load_paths.push(string_of(parts[i]));
                assert(text::views(f.load_paths@) =~= paths.push(parts@[i as int]@));
                assert(text::views(f.load_paths@) =~= before.load_paths + dirs_of(
                    all.take(i + 1),
                ));
            }
            i += 1;
        }
        assert(all.take(i as int) =~= all);
    } else if kind == 'r' {
        f.libs.push(value.to_string());
        assert(text::views(f.libs@) =~= before.libs.push(value@));
    } else {
        f.encoding = Some(value.to_string());
    }
    assert(f@ =~= with_value(before, kind, value@));
}

/// One flag for each of the values.
pub open spec fn each(flag: Seq<char>, values: Seq<Seq<char>>) -> Seq<Seq<char>>
    decreases values.len(),
{
    if values.len() == 0 {
        Seq::empty()
    } else {
        each(flag, values.drop_last()).push(flag).push(values.last())
    }
}

/// The argument of `ruby` that says the level of warnings.
pub open spec fn level_args(verbose: Option<i8>) -> Seq<Seq<char>> {
    match verbose {
        Some(n) => if n == -1 {
            seq!["-w"@]
        } else if n == 0 {
            seq!["-W0"@]
        } else if n == 1 {
            seq!["-W1"@]
        } else if n == 2 {
            seq!["-W2"@]
        } else {
            Seq::empty()
        },
        None => Seq::empty(),
    }
}

/// The arguments of `ruby` that say the encoding.
pub open spec fn encoding_args(encoding: Option<Seq<char>>) -> Seq<Seq<char>> {
    match encoding {
        Some(e) => seq!["-E"@, e],
        None => Seq::empty(),
    }
}

/// The argument of `ruby` that asks for a check.
pub open spec fn check_args(check: bool) -> Seq<Seq<char>> {
    if check {
        seq!["-c"@]
    } else {
        Seq::empty()
    }
}

/// The arguments of `ruby` that say the flags.
pub open spec fn flag_args(f: Flags) -> Seq<Seq<char>> {
    level_args(f.verbose) + encoding_args(f.encoding) + check_args(f.syntax_check) + each(
        "-I"@,
        f.load_paths,
    ) + each("-r"@, f.libs)
}

fn push_each(list: &mut Vec<String>, flag: &str, values: &Vec<String>)
    ensures
        text::views(final(list)@) == text::views(old(list)@) + each(flag@, text::views(values@)),
{
    let ghost start = text::views(list@);
    let ghost all = text::views(values@);
    let mut i: usize = 0;
    assert(start + each(flag@, all.take(0)) =~= start);
    while i < values.len()
        invariant
            i <= values@.len(),
            all == text::views(values@),
            text::views(list@) == start + each(flag@, all.take(i as int)),
        decreases values@.len() - i,
    {
        let ghost before = text::views(list@);
        assert(all.take(i + 1).drop_last() =~= all.take(i as int));
        list.push(flag.to_string());
        assert(text::views(list@) =~= before.push(flag@));
        list.push(values[i].clone());
        assert(text::views(list@) =~= before.push(flag@).push(all[i as int]));
        i += 1;
        assert(text::views(list@) =~= start + each(flag@, all.take(i as int)));
    }
    assert(all.take(i as int) =~= all);
}

/// Puts the arguments of `ruby` that say the flags behind others.
pub fn push_flag_args(list: &mut Vec<String>, f: &RunFlags)
    ensures
        text::views(final(list)@) == text::views(old(list)@) + flag_args(f@),
{
    let ghost start = text::views(list@);
    match f.verbose {
        Some(n) => {
            if n == -1 {
                list.push("-w".to_string());
            } else if n == 0 {
                list.push("-W0".to_string());
            } else if n == 1 {
                list.push("-W1".to_string());
            } else if n == 2 {
                list.push("-W2".to_string());
            }
        },
        None => {},
    }
    match &f.encoding {
        Some(e) => {
            list.push("-E".to_string());
            list.push(e.clone());
        },
        None => {},
    }
    if f.syntax_check {
        list.push("-c".to_string());
    }
    push_each(list, "-I", &f.load_paths);
    push_each(list, "-r", &f.libs);
    assert(text::views(list@) =~= start + flag_args(f@));
}

// In a request.

/// The variable with which a request carries the flags.
pub const RUN_FLAGS: &'static str = "CALISTO_RUN_FLAGS";

/// A value in the text of the flags: its bytes, escaped as in a URL.
pub open spec fn packed(v: Seq<char>) -> Seq<char> {
    url::escaped(encode_utf8(v)).map_values(|b: u8| b as char)
}

/// The value that stands packed in the text of the flags.
pub open spec fn opened(t: Seq<char>) -> Seq<char> {
    utf8::lossy_text(url::unescaped(encode_utf8(t)))
}

/// A word with a letter in front of each of the values.
pub open spec fn lettered(letter: char, values: Seq<Seq<char>>) -> Seq<Seq<char>> {
    values.map_values(|v: Seq<char>| seq![letter] + packed(v))
}

/// The words of the text of the flags, each with the letter of its flag in
/// front.
pub open spec fn words_of(f: Flags) -> Seq<Seq<char>> {
    (match f.verbose {
        Some(n) => seq![seq!['W'] + number::signed_decimal(n as int)],
        None => Seq::empty(),
    }) + (match f.encoding {
        Some(e) => seq![seq!['E'] + packed(e)],
        None => Seq::empty(),
    }) + (if f.syntax_check {
        seq![seq!['c']]
    } else {
        Seq::empty()
    }) + lettered('I', f.load_paths) + lettered('r', f.libs)
}

/// The text of the flags.
pub open spec fn wire(f: Flags) -> Seq<char> {
    text::joined(words_of(f), seq![' '])
}

/// The flags with what one word says; a word that says nothing is passed over.
pub open spec fn with_word(f: Flags, w: Seq<char>) -> Flags {
    if w.len() == 0 {
        f
    } else {
        let v = w.skip(1);
        if w[0] == 'W' {
            match number::signed(v, i32::MIN as int, i32::MAX as int) {
                Some(n) => if i8::MIN <= n <= i8::MAX {
                    Flags { verbose: Some(n as i8), ..f }
                } else {
                    f
                },
                None => f,
            }
        } else if w[0] == 'E' {
            Flags { encoding: Some(opened(v)), ..f }
        } else if w[0] == 'c' {
            Flags { syntax_check: true, ..f }
        } else if w[0] == 'I' {
            Flags { load_paths: f.load_paths.push(opened(v)), ..f }
        } else if w[0] == 'r' {
            Flags { libs: f.libs.push(opened(v)), ..f }
        } else {
            f
        }
    }
}

/// The flags with what words say, one after the other.
pub open spec fn with_words(f: Flags, words: Seq<Seq<char>>) -> Flags
    decreases words.len(),
{
    if words.len() == 0 {
        f
    } else {
        with_word(with_words(f, words.drop_last()), words.last())
    }
}

/// The flags that a text says.
pub open spec fn unwired(t: Seq<char>) -> Flags {
    with_words(no_flags(), text::split_parts(t, ' '))
}

fn pack(v: &str) -> (r: String)
    ensures
        r@ == packed(v@),
{
    let bytes = utf8_bytes(v);
    let raw = escape(bytes.as_slice());
    let mut r: String = String::new();
    let mut i: usize = 0;
    while i < raw.len()
        invariant
            i <= raw@.len(),
            r@ == raw@.take(i as int).map_values(|b: u8| b as char),
        decreases raw@.len() - i,
    {
        r.push(raw[i] as char);
        i += 1;
        assert(r@ =~= raw@.take(i as int).map_values(|b: u8| b as char));
    }
    assert(raw@.take(i as int) =~= raw@);
    r
}

fn open_value(t: &[char]) -> (r: String)
    ensures
        r@ == opened(t@),
{
    let s = string_of(t);
    let bytes = utf8_bytes(s.as_str());
    let raw = unescape(bytes.as_slice());
    text_of(raw.as_slice())
}

fn push_word(list: &mut Vec<String>, letter: char, rest: &str)
    ensures
        text::views(final(list)@) == text::views(old(list)@).push(seq![letter] + rest@),
{
    let ghost before = text::views(list@);
    let mut w = String::new();
    w.push(letter);
    assert(w@ =~= seq![letter]);
    w.append(rest);
    list.push(w);
    assert(text::views(list@) =~= before.push(seq![letter] + rest@));
}

fn push_lettered(list: &mut Vec<String>, letter: char, values: &Vec<String>)
    ensures
        text::views(final(list)@) == text::views(old(list)@) + lettered(
            letter,
            text::views(values@),
        ),
{
    let ghost start = text::views(list@);
    let ghost all = lettered(letter, text::views(values@));
    let mut i: usize = 0;
    assert(start + all.take(0) =~= start);
    while i < values.len()
        invariant
            i <= values@.len(),
            all == lettered(letter, text::views(values@)),
            text::views(list@) == start + all.take(i as int),
        decreases values@.len() - i,
    {
        push_word(list, letter, pack(values[i].as_str()).as_str());
        assert(all[i as int] == seq![letter] + packed(values@[i as int]@));
        i += 1;
        assert(text::views(list@) =~= start + all.take(i as int));
    }
    assert(all.take(i as int) =~= all);
}

/// Writes the flags as a text.
pub fn flags_text(f: &RunFlags) -> (r: String)
    ensures
        r@ == wire(f@),
{
    let mut words: Vec<String> = Vec::new();
    match f.verbose {
        Some(n) => {
            push_word(&mut words, 'W', signed_decimal_of(n as i64).as_str());
        },
        None => {},
    }
    match &f.encoding {
        Some(e) => {
            push_word(&mut words, 'E', pack(e.as_str()).as_str());
        },
        None => {},
    }
    if f.syntax_check {
        push_word(&mut words, 'c', "");
        proof {
            reveal_strlit("");
            assert(seq!['c'] + ""@ =~= seq!['c']);
        }
    }
    push_lettered(&mut words, 'I', &f.load_paths);
    push_lettered(&mut words, 'r', &f.libs);
    assert(text::views(words@) =~= words_of(f@));
    proof {
        reveal_strlit(" ");
        assert(" "@ =~= seq![' ']);
    }
    join(&words, " ")
}

fn take_word(f: &mut RunFlags, w: &[char])
    ensures
        final(f)@ == with_word(old(f)@, w@),
{
    let ghost before = f@;
    if w.len() == 0 {
        return;
    }
    let v = slice_subrange(w, 1, w.len());
    assert(v@ =~= w@.skip(1));
    if w[0] == 'W' {
        match parse_i32(v) {
            Some(n) => {
                if -128 <= n && n <= 127 {
                    f.verbose = Some(n as i8);
                }
            },
            None => {},
        }
    } else if w[0] == 'E' {
        f.encoding = Some(open_value(v));
    } else if w[0] == 'c' {
        f.syntax_check = true;
    } else if w[0] == 'I' {
        f.load_paths.push(open_value(v));
        assert(text::views(f.load_paths@) =~= before.load_paths.push(opened(v@)));
    } else if w[0] == 'r' {
        f.libs.push(open_value(v));
        assert(text::views(f.libs@) =~= before.libs.push(opened(v@)));
    }
    assert(f@ =~= with_word(before, w@));
}

/// Reads the flags from a text.
pub fn flags_in(s: &str) -> (r: RunFlags)
    ensures
        r@ == unwired(s@),
{
    let chars = chars_of(s);
    let parts = split(chars.as_slice(), ' ');
    let ghost all = text::slice_views(parts@);
    let mut r = RunFlags::default();
    let mut i: usize = 0;
    while i < parts.len()
        invariant
            i <= parts@.len(),
            all == text::slice_views(parts@),
            r@ == with_words(no_flags(), all.take(i as int)),
        decreases parts@.len() - i,
    {
        assert(all.take(i + 1).drop_last() =~= all.take(i as int));
        assert(all.take(i + 1).last() == parts@[i as int]@);
        take_word(&mut r, parts[i]);
        i += 1;
    }
    assert(all.take(i as int) =~= all);
    r
}

proof fn lemma_packed(v: Seq<char>)
    ensures
        opened(packed(v)) == v,
        forall|i: int|
            0 <= i < packed(v).len() ==> {
                let c = #[trigger] packed(v)[i];
                c != ' ' && c != '\u{1e}'
            },
{
    let bytes = url::escaped(encode_utf8(v));
    url::law_escaped_alphabet(encode_utf8(v));
    assert forall|i: int| 0 <= i < bytes.len() implies bytes[i] < 0x80 && #[trigger] packed(v)[i]
        == bytes[i] as char && packed(v)[i] != ' ' && packed(v)[i] != '\u{1e}' by {
        let b = url::escaped(encode_utf8(v))[i];
        assert(url::is_plain(b) || b == 0x2b || b == 0x25);
    }
    utf8::lemma_ascii_bytes(packed(v), bytes);
    url::law_round_trip(encode_utf8(v));
    utf8::lemma_text_of_encoded(v);
}

proof fn lemma_words_then(f: Flags, a: Seq<Seq<char>>, b: Seq<Seq<char>>)
    ensures
        with_words(f, a + b) == with_words(with_words(f, a), b),
    decreases b.len(),
{
    if b.len() == 0 {
        assert(a + b =~= a);
    } else {
        assert((a + b).drop_last() =~= a + b.drop_last());
        assert((a + b).last() == b.last());
        lemma_words_then(f, a, b.drop_last());
    }
}

proof fn lemma_dirs_read(f: Flags, dirs: Seq<Seq<char>>)
    ensures
        with_words(f, lettered('I', dirs)) == (Flags { load_paths: f.load_paths + dirs, ..f }),
    decreases dirs.len(),
{
    let words = lettered('I', dirs);
    if dirs.len() == 0 {
        assert(f.load_paths + dirs =~= f.load_paths);
    } else {
        let d = dirs.last();
        assert(words.drop_last() =~= lettered('I', dirs.drop_last()));
        lemma_dirs_read(f, dirs.drop_last());
        lemma_packed(d);
        assert(words.last().skip(1) =~= packed(d));
        assert((f.load_paths + dirs.drop_last()).push(d) =~= f.load_paths + dirs);
    }
}

proof fn lemma_libs_read(f: Flags, libs: Seq<Seq<char>>)
    ensures
        with_words(f, lettered('r', libs)) == (Flags { libs: f.libs + libs, ..f }),
    decreases libs.len(),
{
    let words = lettered('r', libs);
    if libs.len() == 0 {
        assert(f.libs + libs =~= f.libs);
    } else {
        let l = libs.last();
        assert(words.drop_last() =~= lettered('r', libs.drop_last()));
        lemma_libs_read(f, libs.drop_last());
        lemma_packed(l);
        assert(words.last().skip(1) =~= packed(l));
        assert((f.libs + libs.drop_last()).push(l) =~= f.libs + libs);
    }
}

proof fn lemma_one_word(f: Flags, w: Seq<char>)
    ensures
        with_words(f, seq![w]) == with_word(f, w),
        with_words(f, Seq::empty()) == f,
{
    reveal_with_fuel(with_words, 2);
    assert(seq![w].drop_last() =~= Seq::<Seq<char>>::empty());
}

proof fn lemma_level_read(f: Flags, n: i8)
    ensures
        with_word(f, seq!['W'] + number::signed_decimal(n as int)) == (Flags {
            verbose: Some(n),
            ..f
        }),
{
    let t = number::signed_decimal(n as int);
    assert((seq!['W'] + t).skip(1) =~= t);
    number::lemma_signed_reads_back(n as int, i32::MIN as int, i32::MAX as int);
}

proof fn lemma_words_read_back(f: Flags)
    ensures
        with_words(no_flags(), words_of(f)) == f,
{
    let none = Seq::<Seq<char>>::empty();
    let a = match f.verbose {
        Some(n) => seq![seq!['W'] + number::signed_decimal(n as int)],
        None => none,
    };
    let b = match f.encoding {
        Some(e) => seq![seq!['E'] + packed(e)],
        None => none,
    };
    let c = if f.syntax_check {
        seq![seq!['c']]
    } else {
        none
    };
    let d = lettered('I', f.load_paths);
    let e = lettered('r', f.libs);
    lemma_words_then(no_flags(), a + b + c + d, e);
    lemma_words_then(no_flags(), a + b + c, d);
    lemma_words_then(no_flags(), a + b, c);
    lemma_words_then(no_flags(), a, b);
    let fa = with_words(no_flags(), a);
    match f.verbose {
        Some(n) => {
            lemma_one_word(no_flags(), seq!['W'] + number::signed_decimal(n as int));
            lemma_level_read(no_flags(), n);
        },
        None => {},
    }
    assert(fa =~= Flags { verbose: f.verbose, ..no_flags() });
    let fb = with_words(fa, b);
    match f.encoding {
        Some(v) => {
            let w = seq!['E'] + packed(v);
            lemma_one_word(fa, w);
            lemma_packed(v);
            assert(w.skip(1) =~= packed(v));
        },
        None => {},
    }
    assert(fb =~= Flags { encoding: f.encoding, ..fa });
    let fc = with_words(fb, c);
    lemma_one_word(fb, seq!['c']);
    assert(fc =~= Flags { syntax_check: f.syntax_check, ..fb });
    lemma_dirs_read(fc, f.load_paths);
    let fd = with_words(fc, d);
    assert(fd.load_paths =~= f.load_paths);
    lemma_libs_read(fd, f.libs);
    let fe = with_words(fd, e);
    assert(fe.libs =~= f.libs);
    assert(fe =~= f);
}

proof fn lemma_word_chars(f: Flags, i: int)
    requires
        0 <= i < words_of(f).len(),
    ensures
        !words_of(f)[i].contains(' '),
        !words_of(f)[i].contains('\u{1e}'),
{
    let none = Seq::<Seq<char>>::empty();
    let a = match f.verbose {
        Some(n) => seq![seq!['W'] + number::signed_decimal(n as int)],
        None => none,
    };
    let b = match f.encoding {
        Some(e) => seq![seq!['E'] + packed(e)],
        None => none,
    };
    let c = if f.syntax_check {
        seq![seq!['c']]
    } else {
        none
    };
    let d = lettered('I', f.load_paths);
    let e = lettered('r', f.libs);
    let w = words_of(f)[i];
    let n = a.len() + b.len() + c.len();
    if i < a.len() {
        assert(w == a[i]);
        let t = number::signed_decimal(f.verbose->0 as int);
        number::lemma_signed_chars(f.verbose->0 as int);
        assert forall|k: int| 0 <= k < w.len() implies w[k] != ' ' && w[k] != '\u{1e}' by {
            if k > 0 {
                assert(w[k] == t[k - 1]);
            }
        }
    } else if i < a.len() + b.len() {
        assert(w == b[i - a.len()]);
        lemma_letter_chars('E', f.encoding->0);
    } else if i < n {
        assert(w == c[i - a.len() - b.len()]);
        assert(w =~= seq!['c']);
    } else if i < n + d.len() {
        assert(w == d[i - n]);
        lemma_letter_chars('I', f.load_paths[i - n]);
    } else {
        assert(w == e[i - n - d.len()]);
        lemma_letter_chars('r', f.libs[i - n - d.len()]);
    }
}

proof fn lemma_letter_chars(letter: char, v: Seq<char>)
    requires
        letter != ' ',
        letter != '\u{1e}',
    ensures
        !(seq![letter] + packed(v)).contains(' '),
        !(seq![letter] + packed(v)).contains('\u{1e}'),
{
    let w = seq![letter] + packed(v);
    lemma_packed(v);
    assert forall|k: int| 0 <= k < w.len() implies w[k] != ' ' && w[k] != '\u{1e}' by {
        if k > 0 {
            assert(w[k] == packed(v)[k - 1]);
        }
    }
}

/// The flags that were written are read back, whatever they hold.
pub proof fn law_flags_read_back(f: Flags)
    ensures
        unwired(wire(f)) == f,
{
    let words = words_of(f);
    lemma_words_read_back(f);
    if words.len() == 0 {
        let nothing = Seq::<char>::empty();
        assert(wire(f) =~= nothing);
        assert(text::split_parts(nothing, ' ') =~= seq![nothing]);
        lemma_one_word(no_flags(), nothing);
    } else {
        assert forall|i: int| 0 <= i < words.len() implies !(#[trigger] words[i]).contains(' ') by {
            lemma_word_chars(f, i);
        }
        text::lemma_split_joined(words, ' ');
    }
}

/// The variables of a request that carry the flags; none where there are no
/// flags.
pub open spec fn flag_pairs(f: Flags) -> Seq<(Seq<char>, Seq<char>)> {
    if f == no_flags() {
        Seq::empty()
    } else {
        seq![(RUN_FLAGS@, wire(f))]
    }
}

/// Builds the variables of a request that carry the flags.
pub fn flag_env(f: &RunFlags) -> (r: Vec<(String, String)>)
    ensures
        request::pair_views(r@) == flag_pairs(f@),
{
    let mut r: Vec<(String, String)> = Vec::new();
    if f.verbose.is_none() && f.encoding.is_none() && !f.syntax_check && f.load_paths.len() == 0
        && f.libs.len() == 0 {
        assert(f@ =~= no_flags());
        assert(request::pair_views(r@) =~= flag_pairs(f@));
    } else {
        assert(f@ != no_flags());
        r.push((RUN_FLAGS.to_string(), flags_text(f)));
        assert(request::pair_views(r@) =~= flag_pairs(f@));
    }
    r
}

/// The flags that the environment of a request carries.
pub open spec fn carried(env: Seq<(Seq<char>, Seq<char>)>) -> Flags {
    match request::value_after(env, RUN_FLAGS@) {
        Some(t) => unwired(t),
        None => no_flags(),
    }
}

/// Reads the flags that the environment of a request carries.
pub fn child_flags(env: &Vec<(String, String)>) -> (r: RunFlags)
    ensures
        r@ == carried(request::pair_views(env@)),
{
    let ghost all = request::pair_views(env@);
    let mut n: usize = env.len();
    assert(all.take(n as int) =~= all);
    while n > 0
        invariant
            n <= env@.len(),
            all == request::pair_views(env@),
            request::value_after(all.take(n as int), RUN_FLAGS@) == request::value_after(
                all,
                RUN_FLAGS@,
            ),
        decreases n,
    {
        assert(all.take(n as int).last() == (env@[n - 1].0@, env@[n - 1].1@));
        assert(all.take(n as int).drop_last() =~= all.take(n - 1));
        n -= 1;
        if str_eq(env[n].0.as_str(), RUN_FLAGS) {
            return flags_in(env[n].1.as_str());
        }
    }
    RunFlags::default()
}

/// The environment of a program: that of its request, without the variable
/// that carries the flags.
pub open spec fn program_pairs(env: Seq<(Seq<char>, Seq<char>)>) -> Seq<(Seq<char>, Seq<char>)>
    decreases env.len(),
{
    if env.len() == 0 {
        Seq::empty()
    } else if env.last().0 == RUN_FLAGS@ {
        program_pairs(env.drop_last())
    } else {
        program_pairs(env.drop_last()).push(env.last())
    }
}

/// Takes the variable that carries the flags out of the environment of a
/// request. All others stay, in their order.
pub fn program_env(env: &Vec<(String, String)>) -> (r: Vec<(String, String)>)
    ensures
        request::pair_views(r@) == program_pairs(request::pair_views(env@)),
{
    let ghost all = request::pair_views(env@);
    let mut r: Vec<(String, String)> = Vec::new();
    let mut i: usize = 0;
    assert(request::pair_views(r@) =~= program_pairs(all.take(0)));
    while i < env.len()
        invariant
            i <= env@.len(),
            all == request::pair_views(env@),
            request::pair_views(r@) == program_pairs(all.take(i as int)),
        decreases env@.len() - i,
    {
        let ghost before = request::pair_views(r@);
        let ghost upto = all.take(i + 1);
        assert(upto.drop_last() =~= all.take(i as int));
        assert(upto.last() == (env@[i as int].0@, env@[i as int].1@));
        if !str_eq(env[i].0.as_str(), RUN_FLAGS) {
            r.push((env[i].0.clone(), env[i].1.clone()));
            assert(request::pair_views(r@) =~= before.push(upto.last()));
        }
        i += 1;
    }
    assert(all.take(i as int) =~= all);
    r
}

/// A program does not see the variable that carries its flags, and sees every
/// other one as its request has it.
pub proof fn law_program_env(env: Seq<(Seq<char>, Seq<char>)>, k: Seq<char>)
    ensures
        request::value_after(program_pairs(env), k) == (if k == RUN_FLAGS@ {
            None
        } else {
            request::value_after(env, k)
        }),
    decreases env.len(),
{
    if env.len() > 0 {
        law_program_env(env.drop_last(), k);
        let kept = program_pairs(env.drop_last());
        assert(kept.push(env.last()).drop_last() =~= kept);
    }
}

/// The flags change nothing of the environment that a program sees.
pub proof fn law_flags_unseen(vars: Seq<(Seq<char>, Seq<char>)>, f: Flags)
    ensures
        program_pairs(request::request_pairs(vars, flag_pairs(f))) == program_pairs(
            request::handed_on(vars),
        ),
{
    let kept = request::handed_on(vars);
    let all = request::request_pairs(vars, flag_pairs(f));
    if f == no_flags() {
        assert(all =~= kept);
    } else {
        assert(all.drop_last() =~= kept);
        assert(all.last() == (RUN_FLAGS@, wire(f)));
    }
}

proof fn lemma_wire_chars(f: Flags)
    ensures
        !wire(f).contains('\u{1e}'),
{
    assert forall|i: int| 0 <= i < words_of(f).len() implies !(#[trigger] words_of(f)[i]).contains(
        '\u{1e}',
    ) by {
        lemma_word_chars(f, i);
    }
    lemma_joined_chars(words_of(f));
}

proof fn lemma_joined_chars(words: Seq<Seq<char>>)
    requires
        forall|i: int| 0 <= i < words.len() ==> !(#[trigger] words[i]).contains('\u{1e}'),
    ensures
        !text::joined(words, seq![' ']).contains('\u{1e}'),
    decreases words.len(),
{
    let c = '\u{1e}';
    if words.len() > 1 {
        let head = text::joined(words.drop_last(), seq![' ']);
        let last = words.last();
        assert forall|i: int| 0 <= i < words.drop_last().len() implies !(
        #[trigger] words.drop_last()[i]).contains(c) by {
            assert(words.drop_last()[i] == words[i]);
        }
        lemma_joined_chars(words.drop_last());
        let all = text::joined(words, seq![' ']);
        assert(!last.contains(c));
        if all.contains(c) {
            let k = choose|k: int| 0 <= k < all.len() && all[k] == c;
            if k < head.len() {
                assert(head[k] == c);
            } else if k > head.len() {
                assert(last[k - head.len() - 1] == c);
            }
        }
    } else if words.len() == 1 {
        assert(!words[0].contains(c));
    }
}

/// The flags of a run arrive in the child as they were given: the request
/// carries them next to the client's own variables, none of whose keys holds
/// `=` and which hold no record separator. Without flags the client's own
/// environment must not name any.
pub proof fn law_flags_arrive(vars: Seq<(Seq<char>, Seq<char>)>, f: Flags)
    requires
        forall|i: int|
            0 <= i < vars.len() ==> {
                let p = #[trigger] vars[i];
                !p.0.contains('=') && !p.0.contains('\u{1e}') && !p.1.contains('\u{1e}')
            },
        f == no_flags() ==> request::value_after(vars, RUN_FLAGS@) is None,
    ensures
        carried(
            request::pairs_in(request::blob_of(request::request_pairs(vars, flag_pairs(f)))),
        ) == f,
{
    let pairs = request::request_pairs(vars, flag_pairs(f));
    reveal_strlit("CALISTO_RUN_FLAGS");
    lemma_wire_chars(f);
    request::lemma_handed_on_members(vars);
    assert forall|i: int| 0 <= i < pairs.len() implies {
        let p = #[trigger] pairs[i];
        !p.0.contains('=') && !p.0.contains('\u{1e}') && !p.1.contains('\u{1e}')
    } by {
        let kept = request::handed_on(vars);
        if i < kept.len() {
            assert(pairs[i] == kept[i]);
            assert(vars.contains(kept[i]));
        } else {
            assert(pairs[i] == flag_pairs(f)[i - kept.len()]);
            assert(pairs[i].0 == RUN_FLAGS@);
        }
    }
    request::law_env_round_trip(pairs);
    request::law_extra_wins(vars, flag_pairs(f), RUN_FLAGS@);
    request::law_handed_on(vars, RUN_FLAGS@);
    law_flags_read_back(f);
    if f != no_flags() {
        reveal_with_fuel(request::value_after, 2);
        assert(flag_pairs(f).last() == (RUN_FLAGS@, wire(f)));
    }
}

} // verus!
