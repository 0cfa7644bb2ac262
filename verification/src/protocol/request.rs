//! The requests that run a program, and what the daemon replies.
//!
//! A request carries the working directory, the environment, the program and
//! its arguments, each as a Base64 field. The environment is one text: entries
//! `KEY=VALUE` with record separators between them.
use vstd::prelude::*;
use vstd::utf8::*;
use crate::base64;
use crate::base64::b64_decode_checked;
use crate::number;
use crate::number::{parse_i32, signed_decimal_of};
use crate::protocol;
use crate::protocol::{b64, build_cmd};
use crate::text;
use crate::text::{chars_of, join, split, split_once, str_eq, string_of, strip_prefix, trim};
use crate::utf8;

verus! {

/// The pairs of a list, as pairs of texts.
pub open spec fn pair_views(list: Seq<(String, String)>) -> Seq<(Seq<char>, Seq<char>)> {
    list.map_values(|p: (String, String)| (p.0@, p.1@))
}

/// Whether a variable configures the daemon itself, and is therefore not
/// handed on to programs.
pub open spec fn is_daemon_var(k: Seq<char>) -> bool {
    ||| k == "CALISTO_RUNTIME_DIR"@
    ||| k == "CALISTO_SOCKET"@
    ||| k == "CALISTO_PIDFILE"@
    ||| k == "CALISTO_PRELOAD"@
    ||| k == "CALISTO_COMPACT"@
    ||| k == "CALISTO_YJIT"@
    ||| k == "CALISTO_WARMUP"@
    ||| k == "CALISTO_RUBY"@
}

/// Whether a variable configures the daemon itself.
pub fn daemon_var(k: &str) -> (r: bool)
    ensures
        r == is_daemon_var(k@),
{
    str_eq(k, "CALISTO_RUNTIME_DIR") || str_eq(k, "CALISTO_SOCKET") || str_eq(k, "CALISTO_PIDFILE")
        || str_eq(k, "CALISTO_PRELOAD") || str_eq(k, "CALISTO_COMPACT") || str_eq(k, "CALISTO_YJIT")
        || str_eq(k, "CALISTO_WARMUP") || str_eq(k, "CALISTO_RUBY")
}

/// One entry of the environment.
pub open spec fn entry(p: (Seq<char>, Seq<char>)) -> Seq<char> {
    p.0 + seq!['='] + p.1
}

/// The entries of all pairs.
pub open spec fn entries(pairs: Seq<(Seq<char>, Seq<char>)>) -> Seq<Seq<char>> {
    pairs.map_values(|p: (Seq<char>, Seq<char>)| entry(p))
}

/// The pairs that do not configure the daemon.
pub open spec fn handed_on(pairs: Seq<(Seq<char>, Seq<char>)>) -> Seq<(Seq<char>, Seq<char>)>
    decreases pairs.len(),
{
    if pairs.len() == 0 {
        Seq::empty()
    } else if is_daemon_var(pairs.last().0) {
        handed_on(pairs.drop_last())
    } else {
        handed_on(pairs.drop_last()).push(pairs.last())
    }
}

/// What is handed on is part of what there is.
pub proof fn lemma_handed_on_members(pairs: Seq<(Seq<char>, Seq<char>)>)
    ensures
        forall|i: int| 0 <= i < handed_on(pairs).len() ==> pairs.contains(#[trigger] handed_on(pairs)[i]),
    decreases pairs.len(),
{
    if pairs.len() > 0 {
        let head = pairs.drop_last();
        lemma_handed_on_members(head);
        assert forall|i: int| 0 <= i < handed_on(pairs).len() implies pairs.contains(
            #[trigger] handed_on(pairs)[i],
        ) by {
            if i < handed_on(head).len() {
                assert(handed_on(pairs)[i] == handed_on(head)[i]);
                assert(head.contains(handed_on(head)[i]));
                let k = choose|k: int| 0 <= k < head.len() && head[k] == handed_on(head)[i];
                assert(pairs[k] == handed_on(pairs)[i]);
            } else {
                assert(pairs[pairs.len() - 1] == handed_on(pairs)[i]);
            }
        }
    }
}

/// The environment of a request: what is handed on of the caller's own, and
/// the extra pairs behind it, so that those win.
pub open spec fn request_pairs(
    vars: Seq<(Seq<char>, Seq<char>)>,
    extra: Seq<(Seq<char>, Seq<char>)>,
) -> Seq<(Seq<char>, Seq<char>)> {
    handed_on(vars) + extra
}

/// The text of an environment.
pub open spec fn blob_of(pairs: Seq<(Seq<char>, Seq<char>)>) -> Seq<char> {
    text::joined(entries(pairs), seq!['\u{1e}'])
}

fn entry_text(k: &str, v: &str) -> (r: String)
    ensures
        r@ == entry((k@, v@)),
{
    let mut r = k.to_string();
    r.push('=');
    r.append(v);
    assert(r@ =~= entry((k@, v@)));
    r
}

/// Builds the text of the environment of a request.
pub fn env_blob(vars: &Vec<(String, String)>, extra: &Vec<(String, String)>) -> (r: String)
    ensures
        r@ == blob_of(request_pairs(pair_views(vars@), pair_views(extra@))),
{
    let ghost own = pair_views(vars@);
    let ghost more = pair_views(extra@);
    let mut list: Vec<String> = Vec::new();
    let mut i: usize = 0;
    assert(text::views(list@) =~= entries(handed_on(own.take(0))));
    while i < vars.len()
        invariant
            i <= vars@.len(),
            own == pair_views(vars@),
            text::views(list@) == entries(handed_on(own.take(i as int))),
        decreases vars@.len() - i,
    {
        let ghost before = text::views(list@);
        let ghost upto = own.take(i + 1);
        assert(upto.drop_last() =~= own.take(i as int));
        assert(upto.last() == (vars@[i as int].0@, vars@[i as int].1@));
        if !daemon_var(vars[i].0.as_str()) {
            list.push(entry_text(vars[i].0.as_str(), vars[i].1.as_str()));
            assert(text::views(list@) =~= before.push(entry(upto.last())));
            assert(entries(handed_on(upto)) =~= before.push(entry(upto.last())));
        }
        i += 1;
    }
    assert(own.take(i as int) =~= own);
    let ghost first = text::views(list@);
    let mut j: usize = 0;
    while j < extra.len()
        invariant
            j <= extra@.len(),
            more == pair_views(extra@),
            text::views(list@) == first + entries(more.take(j as int)),
        decreases extra@.len() - j,
    {
        let ghost before = text::views(list@);
        list.push(entry_text(extra[j].0.as_str(), extra[j].1.as_str()));
        assert(text::views(list@) =~= before.push(entry(more[j as int])));
        assert(entries(more.take(j + 1)) =~= entries(more.take(j as int)).push(
            entry(more[j as int]),
        ));
        assert(before.push(entry(more[j as int])) =~= first + entries(more.take(j + 1)));
        j += 1;
    }
    assert(more.take(j as int) =~= more);
    assert(first + entries(more) =~= entries(handed_on(own) + more));
    let mut sep = String::new();
    sep.push('\u{1e}');
    assert(sep@ =~= seq!['\u{1e}']);
    join(&list, sep.as_str())
}

/// The pairs that the parts of an environment's text give: a part without `=`
/// gives none.
pub open spec fn pairs_of_parts(parts: Seq<Seq<char>>) -> Seq<(Seq<char>, Seq<char>)>
    decreases parts.len(),
{
    if parts.len() == 0 {
        Seq::empty()
    } else {
        match text::split_at_first(parts.last(), '=') {
            Some(p) => pairs_of_parts(parts.drop_last()).push(p),
            None => pairs_of_parts(parts.drop_last()),
        }
    }
}

/// The pairs of the text of an environment.
pub open spec fn pairs_in(blob: Seq<char>) -> Seq<(Seq<char>, Seq<char>)> {
    pairs_of_parts(text::split_parts(blob, '\u{1e}'))
}

/// Takes the text of an environment apart.
pub fn env_pairs(blob: &str) -> (r: Vec<(String, String)>)
    ensures
        pair_views(r@) == pairs_in(blob@),
{
    let chars = chars_of(blob);
    let parts = split(chars.as_slice(), '\u{1e}');
    let ghost all = text::slice_views(parts@);
    let mut r: Vec<(String, String)> = Vec::new();
    let mut i: usize = 0;
    assert(pair_views(r@) =~= pairs_of_parts(all.take(0)));
    while i < parts.len()
        invariant
            i <= parts@.len(),
            all == text::slice_views(parts@),
            pair_views(r@) == pairs_of_parts(all.take(i as int)),
        decreases parts@.len() - i,
    {
        let ghost before = pair_views(r@);
        assert(all.take(i + 1).drop_last() =~= all.take(i as int));
        assert(all.take(i + 1).last() == parts@[i as int]@);
        match split_once(parts[i], '=') {
            Some((k, v)) => {
                r.push((string_of(k), string_of(v)));
                assert(pair_views(r@) =~= before.push((k@, v@)));
            },
            None => {},
        }
        i += 1;
    }
    assert(all.take(i as int) =~= all);
    r
}

/// An environment arrives as it was sent: no key holds `=`, and neither keys
/// nor values hold the record separator.
pub proof fn law_env_round_trip(pairs: Seq<(Seq<char>, Seq<char>)>)
    requires
        forall|i: int|
            0 <= i < pairs.len() ==> {
                let p = #[trigger] pairs[i];
                !p.0.contains('=') && !p.0.contains('\u{1e}') && !p.1.contains('\u{1e}')
            },
    ensures
        pairs_in(blob_of(pairs)) == pairs,
{
    let c = '\u{1e}';
    let list = entries(pairs);
    if pairs.len() == 0 {
        let nothing = Seq::<char>::empty();
        assert(list =~= Seq::<Seq<char>>::empty());
        assert(blob_of(pairs) =~= nothing);
        assert(text::split_parts(nothing, c) =~= seq![nothing]);
        reveal_with_fuel(pairs_of_parts, 2);
        assert(text::index_of(nothing, '=') == 0);
        assert(seq![nothing].drop_last() =~= Seq::<Seq<char>>::empty());
        assert(pairs_in(blob_of(pairs)) =~= pairs);
    } else {
        assert forall|i: int| 0 <= i < list.len() implies !(#[trigger] list[i]).contains(c) by {
            let p = pairs[i];
            if list[i].contains(c) {
                let j = choose|j: int| 0 <= j < list[i].len() && list[i][j] == c;
                if j < p.0.len() {
                    assert(p.0[j] == c);
                } else if j > p.0.len() {
                    assert(p.1[j - p.0.len() - 1] == c);
                }
            }
        }
        text::lemma_split_joined(list, c);
        lemma_pairs_of_entries(pairs);
    }
}

/// The value that a variable has after all pairs were set in their order.
pub open spec fn value_after(pairs: Seq<(Seq<char>, Seq<char>)>, k: Seq<char>) -> Option<Seq<char>>
    decreases pairs.len(),
{
    if pairs.len() == 0 {
        None
    } else if pairs.last().0 == k {
        Some(pairs.last().1)
    } else {
        value_after(pairs.drop_last(), k)
    }
}

/// The extra pairs of a request win: a variable that they set has the value
/// that they give it, whatever the caller's own environment says.
pub proof fn law_extra_wins(
    vars: Seq<(Seq<char>, Seq<char>)>,
    extra: Seq<(Seq<char>, Seq<char>)>,
    k: Seq<char>,
)
    ensures
        value_after(request_pairs(vars, extra), k) == (match value_after(extra, k) {
            Some(v) => Some(v),
            None => value_after(handed_on(vars), k),
        }),
    decreases extra.len(),
{
    let all = request_pairs(vars, extra);
    if extra.len() == 0 {
        assert(all =~= handed_on(vars));
    } else {
        law_extra_wins(vars, extra.drop_last(), k);
        assert(all.drop_last() =~= request_pairs(vars, extra.drop_last()));
        assert(all.last() == extra.last());
    }
}

/// What configures the daemon is not handed on to programs, and everything
/// else is.
pub proof fn law_handed_on(vars: Seq<(Seq<char>, Seq<char>)>, k: Seq<char>)
    ensures
        value_after(handed_on(vars), k) == (if is_daemon_var(k) {
            None
        } else {
            value_after(vars, k)
        }),
    decreases vars.len(),
{
    if vars.len() > 0 {
        law_handed_on(vars.drop_last(), k);
        let h = handed_on(vars.drop_last());
        assert(h.push(vars.last()).drop_last() =~= h);
    }
}

proof fn lemma_pairs_of_entries(pairs: Seq<(Seq<char>, Seq<char>)>)
    requires
        forall|i: int| 0 <= i < pairs.len() ==> !(#[trigger] pairs[i]).0.contains('='),
    ensures
        pairs_of_parts(entries(pairs)) == pairs,
    decreases pairs.len(),
{
    let list = entries(pairs);
    if pairs.len() == 0 {
        assert(pairs_of_parts(list) =~= pairs);
    } else {
        let head = pairs.drop_last();
        assert forall|i: int| 0 <= i < head.len() implies !(#[trigger] head[i]).0.contains('=') by {
            assert(head[i] == pairs[i]);
        }
        lemma_pairs_of_entries(head);
        assert(list.drop_last() =~= entries(head));
        let p = pairs.last();
        let e = entry(p);
        assert(list.last() == e);
        assert(pairs[pairs.len() - 1] == p);
        assert forall|j: int| 0 <= j < p.0.len() implies e[j] != '=' by {
            assert(e[j] == p.0[j]);
            assert(p.0.contains(p.0[j]));
        }
        text::lemma_index_of_is(e, '=', p.0.len() as int);
        assert(e.take(p.0.len() as int) =~= p.0);
        assert(e.skip(p.0.len() as int + 1) =~= p.1);
        assert(head.push(p) =~= pairs);
    }
}

/// The text in which a field of a request carries a text.
pub open spec fn wire_text(t: Seq<char>) -> Seq<char> {
    base64::b64_text(encode_utf8(t))
}

/// The fields of a request.
pub open spec fn request_fields(
    cwd: Seq<char>,
    blob: Seq<char>,
    subject: Seq<char>,
    args: Seq<Seq<char>>,
) -> Seq<Seq<char>> {
    (seq![cwd, blob, subject] + args).map_values(|t: Seq<char>| wire_text(t))
}

/// Builds the bytes of a request that runs `subject` with the arguments.
pub fn run_request(
    op: &str,
    cwd: &str,
    vars: &Vec<(String, String)>,
    extra: &Vec<(String, String)>,
    subject: &str,
    args: &Vec<String>,
) -> (r: Vec<u8>)
    ensures
        r@ == protocol::command_bytes(
            op@,
            request_fields(
                cwd@,
                blob_of(request_pairs(pair_views(vars@), pair_views(extra@))),
                subject@,
                text::views(args@),
            ),
        ),
{
    let blob = env_blob(vars, extra);
    let ghost whole = seq![cwd@, blob@, subject@] + text::views(args@);
    let mut fields: Vec<String> = Vec::new();
    fields.push(b64(cwd));
    fields.push(b64(blob.as_str()));
    fields.push(b64(subject));
    assert(text::views(fields@) =~= whole.take(3).map_values(|t: Seq<char>| wire_text(t)));
    let mut i: usize = 0;
    while i < args.len()
        invariant
            i <= args@.len(),
            whole == seq![cwd@, blob@, subject@] + text::views(args@),
            text::views(fields@) == whole.take(3 + i).map_values(|t: Seq<char>| wire_text(t)),
        decreases args@.len() - i,
    {
        let ghost before = text::views(fields@);
        fields.push(b64(args[i].as_str()));
        assert(text::views(fields@) =~= before.push(wire_text(args@[i as int]@)));
        assert(whole[3 + i] == args@[i as int]@);
        i += 1;
        assert(text::views(fields@) =~= whole.take(3 + i).map_values(
            |t: Seq<char>| wire_text(t),
        ));
    }
    assert(whole.take(3 + i) =~= whole);
    build_cmd(op, &fields)
}

/// Whether every field of a command is complete Base64.
pub open spec fn all_complete(fields: Seq<Seq<u8>>) -> bool {
    forall|i: int|
        0 <= i < fields.len() ==> base64::is_complete(base64::clean(#[trigger] fields[i]))
}

/// The texts that the fields of a command carry.
pub open spec fn field_texts(fields: Seq<Seq<u8>>) -> Seq<Seq<char>> {
    fields.map_values(|f: Seq<u8>| utf8::lossy_text(base64::decoded(base64::clean(f))))
}

/// Decodes the fields of a command, where every field is complete.
pub fn decode_fields(fields: &Vec<Vec<u8>>) -> (r: Option<Vec<String>>)
    ensures
        match r {
            Some(list) => {
                &&& all_complete(protocol::byte_views(fields@))
                &&& text::views(list@) == field_texts(protocol::byte_views(fields@))
            },
            None => !all_complete(protocol::byte_views(fields@)),
        },
{
    let ghost all = protocol::byte_views(fields@);
    let mut r: Vec<String> = Vec::new();
    let mut i: usize = 0;
    while i < fields.len()
        invariant
            i <= fields@.len(),
            all == protocol::byte_views(fields@),
            all_complete(all.take(i as int)),
            text::views(r@) == field_texts(all.take(i as int)),
        decreases fields@.len() - i,
    {
        match b64_decode_checked(fields[i].as_slice()) {
            Some(t) => {
                let ghost before = text::views(r@);
                r.push(t);
                assert(text::views(r@) =~= before.push(t@));
            },
            None => {
                assert(!base64::is_complete(base64::clean(all[i as int])));
                return None;
            },
        }
        i += 1;
        assert(text::views(r@) =~= field_texts(all.take(i as int)));
        assert forall|j: int| 0 <= j < i implies base64::is_complete(
            base64::clean(#[trigger] all.take(i as int)[j]),
        ) by {
            if j < i - 1 {
                assert(all.take(i - 1)[j] == all[j]);
            }
        }
    }
    assert(all.take(i as int) =~= all);
    Some(r)
}

/// What a child process has to run.
pub struct ChildRequest {
    pub cwd: String,
    pub env_blob: String,
    pub subject: String,
    pub args: Vec<String>,
}

/// Takes the decoded fields of a request apart; there are at least three.
pub fn child_request(fields: &Vec<String>) -> (r: Option<ChildRequest>)
    ensures
        match r {
            Some(c) => {
                &&& fields@.len() >= 3
                &&& c.cwd@ == fields@[0]@
                &&& c.env_blob@ == fields@[1]@
                &&& c.subject@ == fields@[2]@
                &&& text::views(c.args@) == text::views(fields@).skip(3)
            },
            None => fields@.len() < 3,
        },
{
    if fields.len() < 3 {
        return None;
    }
    let mut args: Vec<String> = Vec::new();
    let mut i: usize = 3;
    while i < fields.len()
        invariant
            3 <= i <= fields@.len(),
            text::views(args@) == text::views(fields@).subrange(3, i as int),
        decreases fields@.len() - i,
    {
        let ghost before = text::views(args@);
        args.push(fields[i].clone());
        assert(text::views(args@) =~= before.push(fields@[i as int]@));
        i += 1;
        assert(text::views(args@) =~= text::views(fields@).subrange(3, i as int));
    }
    assert(text::views(fields@).subrange(3, i as int) =~= text::views(fields@).skip(3));
    Some(
        ChildRequest {
            cwd: fields[0].clone(),
            env_blob: fields[1].clone(),
            subject: fields[2].clone(),
            args,
        },
    )
}

/// A request arrives as it was sent: the daemon reads the operation and the
/// directory, the environment, the program and the arguments that the client
/// put into it.
pub proof fn law_request_round_trip(
    op: Seq<char>,
    cwd: Seq<char>,
    blob: Seq<char>,
    subject: Seq<char>,
    args: Seq<Seq<char>>,
)
    requires
        !utf8::has_crlf(op),
        !op.contains(' '),
        args.len() + 3 <= usize::MAX,
        forall|i: int|
            0 <= i < request_fields(cwd, blob, subject, args).len() ==> encode_utf8(
                #[trigger] request_fields(cwd, blob, subject, args)[i],
            ).len() <= usize::MAX,
    ensures
        ({
            let sent = protocol::command_bytes(op, request_fields(cwd, blob, subject, args));
            &&& protocol::command_in(sent) matches protocol::Command::Whole { op: o, fields, rest }
            &&& o == op
            &&& rest == Seq::<u8>::empty()
            &&& all_complete(fields)
            &&& field_texts(fields) == seq![cwd, blob, subject] + args
        }),
{
    let list = request_fields(cwd, blob, subject, args);
    let texts = seq![cwd, blob, subject] + args;
    let sent = protocol::command_bytes(op, list);
    protocol::law_command_round_trip(op, list, Seq::empty());
    assert(sent + Seq::<u8>::empty() =~= sent);
    let fields = list.map_values(|f: Seq<char>| encode_utf8(f));
    assert forall|i: int| 0 <= i < fields.len() implies base64::is_complete(
        base64::clean(#[trigger] fields[i]),
    ) && field_texts(fields)[i] == texts[i] by {
        base64::law_field_round_trip(texts[i]);
        assert(fields[i] == base64::field_of(texts[i]));
    }
    assert(field_texts(fields) =~= texts);
}

/// What the daemon's reply to a request says.
pub enum RunReply {
    /// The program ended with this code.
    Status(i32),
    /// The daemon reports an error.
    Failed(String),
    /// The reply is none of the protocol.
    Unexpected(String),
}

/// A reply, as contracts see it.
pub enum Reply {
    Status(int),
    Failed(Seq<char>),
    Unexpected(Seq<char>),
}

impl View for RunReply {
    type V = Reply;

    open spec fn view(&self) -> Reply {
        match self {
            RunReply::Status(n) => Reply::Status(*n as int),
            RunReply::Failed(m) => Reply::Failed(m@),
            RunReply::Unexpected(l) => Reply::Unexpected(l@),
        }
    }
}

/// What a reply line says. A status that is no number counts as one.
pub open spec fn reply_in(line: Seq<char>) -> Reply {
    if text::has_prefix(line, "STATUS "@) {
        let code = text::trimmed(line.skip("STATUS "@.len() as int));
        match number::signed(code, i32::MIN as int, i32::MAX as int) {
            Some(n) => Reply::Status(n),
            None => Reply::Status(1),
        }
    } else if text::has_prefix(line, "ERR "@) {
        Reply::Failed(line.skip("ERR "@.len() as int))
    } else {
        Reply::Unexpected(line)
    }
}

/// Reads a reply line.
pub fn read_reply(line: &str) -> (r: RunReply)
    ensures
        r@ == reply_in(line@),
{
    let chars = chars_of(line);
    match strip_prefix(chars.as_slice(), "STATUS ") {
        Some(code) => match parse_i32(trim(code)) {
            Some(n) => RunReply::Status(n),
            None => RunReply::Status(1),
        },
        None => match strip_prefix(chars.as_slice(), "ERR ") {
            Some(msg) => RunReply::Failed(string_of(msg)),
            None => RunReply::Unexpected(string_of(chars.as_slice())),
        },
    }
}

/// The code with which the client ends on a reply: the program's own, or one.
pub fn reply_code(reply: &RunReply) -> (r: i32)
    ensures
        r == (match reply@ {
            Reply::Status(n) => n,
            _ => 1,
        }),
{
    match reply {
        RunReply::Status(n) => *n,
        _ => 1,
    }
}

/// The line with which the daemon reports the end of a program.
pub open spec fn status_line(code: int) -> Seq<char> {
    "STATUS "@ + number::signed_decimal(code) + seq!['\r', '\n']
}

/// Builds the line with which the daemon reports the end of a program.
pub fn status_reply(code: i32) -> (r: String)
    ensures
        r@ == status_line(code as int),
{
    let mut r = "STATUS ".to_string();
    r.append(signed_decimal_of(code as i64).as_str());
    r.push('\r');
    r.push('\n');
    assert(r@ =~= status_line(code as int));
    r
}

/// The client ends with the code that the daemon reports.
pub proof fn law_status_arrives(code: int)
    requires
        0 <= code <= i32::MAX,
    ensures
        status_line(code).len() >= 2,
        reply_in(status_line(code).take(status_line(code).len() - 2)) == Reply::Status(code),
{
    reveal_strlit("STATUS ");
    let d = number::decimal(code as nat);
    let line = status_line(code);
    let s = line.take(line.len() - 2);
    let prefix = "STATUS "@;
    number::lemma_decimal_reads_back(code as nat, i32::MAX as int);
    assert(s =~= prefix + d);
    assert(s.take(prefix.len() as int) =~= prefix);
    assert(s.skip(prefix.len() as int) =~= d);
    assert(number::is_digit(d[0]));
    assert(number::is_digit(d.last())) by {
        assert(number::is_digit(d[d.len() - 1]));
    }
    assert(text::trimmed(d) == d);
}

/// What a program inherits: every variable whose name does not begin as those
/// of this program do arrives, and the eight that configure the daemon never
/// do.
pub proof fn law_inherited(vars: Seq<(Seq<char>, Seq<char>)>, k: Seq<char>)
    ensures
        !text::has_prefix(k, "CALISTO_"@) ==> value_after(handed_on(vars), k) == value_after(vars, k),
        k == "CALISTO_RUNTIME_DIR"@ || k == "CALISTO_SOCKET"@ || k == "CALISTO_PIDFILE"@ || k
            == "CALISTO_PRELOAD"@ || k == "CALISTO_COMPACT"@ || k == "CALISTO_YJIT"@ || k
            == "CALISTO_WARMUP"@ || k == "CALISTO_RUBY"@ ==> value_after(handed_on(vars), k) is None,
{
    law_handed_on(vars, k);
    reveal_strlit("CALISTO_");
    reveal_strlit("CALISTO_RUNTIME_DIR");
    reveal_strlit("CALISTO_SOCKET");
    reveal_strlit("CALISTO_PIDFILE");
    reveal_strlit("CALISTO_PRELOAD");
    reveal_strlit("CALISTO_COMPACT");
    reveal_strlit("CALISTO_YJIT");
    reveal_strlit("CALISTO_WARMUP");
    reveal_strlit("CALISTO_RUBY");
    if is_daemon_var(k) {
        assert(k.take(8) =~= "CALISTO_"@);
    }
}

/// What variables a program sees is what was set last: a pair behind others
/// decides, and pairs of other names change nothing.
pub proof fn law_last_value(
    pairs: Seq<(Seq<char>, Seq<char>)>,
    more: Seq<(Seq<char>, Seq<char>)>,
    k: Seq<char>,
    v: Seq<char>,
)
    requires
        forall|i: int| 0 <= i < more.len() ==> (#[trigger] more[i]).0 != k,
    ensures
        value_after(pairs.push((k, v)) + more, k) == Some(v),
        value_after(pairs + more, k) == value_after(pairs, k),
        value_after(more, k) is None,
    decreases more.len(),
{
    let a = pairs.push((k, v)) + more;
    let b = pairs + more;
    if more.len() == 0 {
        assert(a =~= pairs.push((k, v)));
        assert(b =~= pairs);
    } else {
        let head = more.drop_last();
        assert(more[more.len() - 1].0 != k);
        assert forall|i: int| 0 <= i < head.len() implies (#[trigger] head[i]).0 != k by {
            assert(head[i] == more[i]);
        }
        law_last_value(pairs, head, k, v);
        assert(a.drop_last() =~= pairs.push((k, v)) + head);
        assert(b.drop_last() =~= pairs + head);
        assert(a.last() == more.last() && b.last() == more.last());
    }
}

/// A reply says the code of a program, a failure with its message, or something
/// else; a code that cannot be read is a failure.
pub proof fn law_replies(code: int, m: Seq<char>)
    ensures
        i32::MIN <= code <= i32::MAX ==> reply_in("STATUS "@ + number::signed_decimal(code))
            == Reply::Status(code),
        reply_in("ERR "@ + m) == Reply::Failed(m),
        !text::has_prefix(m, "STATUS "@) && !text::has_prefix(m, "ERR "@) ==> reply_in(m)
            == Reply::Unexpected(m),
        number::signed(text::trimmed(m), i32::MIN as int, i32::MAX as int) is None ==> reply_in(
            "STATUS "@ + m,
        ) == Reply::Status(1),
{
    reveal_strlit("STATUS ");
    reveal_strlit("ERR ");
    let s = "STATUS "@;
    let d = number::signed_decimal(code);
    assert((s + d).take(7) =~= s);
    assert((s + d).skip(7) =~= d);
    assert((s + m).take(7) =~= s);
    assert((s + m).skip(7) =~= m);
    let e = "ERR "@ + m;
    assert(e.take(4) =~= "ERR "@);
    assert(e.skip(4) =~= m);
    assert(!text::has_prefix(e, s)) by {
        if text::has_prefix(e, s) {
            assert(e.take(7)[0] == e[0]);
            assert(s[0] == 'S' && e[0] == 'E');
        }
    }
    if i32::MIN <= code <= i32::MAX {
        number::lemma_signed_reads_back(code, i32::MIN as int, i32::MAX as int);
        number::lemma_signed_chars(code);
        number::law_signed_bounds(d, i32::MIN as int, i32::MAX as int);
        let nothing = Seq::<char>::empty();
        assert(d.len() > 0);
        assert(number::is_digit(d[0]) || d[0] == '-');
        assert(number::is_digit(d[d.len() - 1]) || d[d.len() - 1] == '-');
        text::law_trimmed(nothing, d, nothing);
        assert(nothing + d + nothing =~= d);
    }
}

} // verus!
