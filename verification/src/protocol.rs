//! The protocol between the client and the daemon.
//!
//! A command is a line `OP N` and then N fields. A field is a line with `$`
//! and the number of its bytes, and those bytes. Lines end with a carriage
//! return and a line feed.
pub mod control;
pub mod request;

use vstd::prelude::*;
use vstd::slice::{slice_subrange, slice_to_vec};
use vstd::utf8::*;
use crate::base64;
use crate::base64::b64_encode;
use crate::number;
use crate::number::{decimal_of, parse_usize};
use crate::text;
use crate::text::{chars_of, push_bytes, split_once, string_of};
use crate::utf8;
use crate::utf8::{debug_quoted, text_of};

verus! {

/// Nothing to receive yet.
pub const EAGAIN: i32 = 11;

/// A call that a signal interrupted.
pub const EINTR: i32 = 4;

/// The length of the longest line that a client accepts as a reply.
pub const MAX_REPLY: usize = 4096;

/// Whether a line end stands at index `i`.
pub open spec fn crlf_at(s: Seq<u8>, i: int) -> bool {
    0 <= i && i + 1 < s.len() && s[i] == 0x0d && s[i + 1] == 0x0a
}

/// The index of the first line end.
pub open spec fn line_end(s: Seq<u8>) -> Option<int>
    decreases s.len(),
{
    if s.len() < 2 {
        None
    } else if crlf_at(s, 0) {
        Some(0)
    } else {
        match line_end(s.skip(1)) {
            Some(i) => Some(i + 1),
            None => None,
        }
    }
}

/// `line_end` is the least index at which a line end stands.
pub proof fn lemma_line_end(s: Seq<u8>)
    ensures
        match line_end(s) {
            Some(i) => crlf_at(s, i) && forall|j: int| 0 <= j < i ==> !crlf_at(s, j),
            None => forall|j: int| !crlf_at(s, j),
        },
    decreases s.len(),
{
    if s.len() >= 2 && !crlf_at(s, 0) {
        let t = s.skip(1);
        lemma_line_end(t);
        assert forall|j: int| j > 0 implies crlf_at(s, j) == crlf_at(t, j - 1) by {}
        match line_end(t) {
            Some(i) => {
                assert(crlf_at(s, i + 1));
                assert forall|j: int| 0 <= j < i + 1 implies !crlf_at(s, j) by {
                    if j > 0 {
                        assert(!crlf_at(t, j - 1));
                    }
                }
            },
            None => {
                assert forall|j: int| !crlf_at(s, j) by {
                    if j > 0 {
                        assert(!crlf_at(t, j - 1));
                    }
                }
            },
        }
    }
}

proof fn lemma_line_end_is(s: Seq<u8>, i: int)
    requires
        crlf_at(s, i),
        forall|j: int| 0 <= j < i ==> !crlf_at(s, j),
    ensures
        line_end(s) == Some(i),
{
    lemma_line_end(s);
    match line_end(s) {
        Some(k) => {
            if k < i {
                assert(!crlf_at(s, k));
            } else if i < k {
                assert(!crlf_at(s, i));
            }
        },
        None => {
            assert(!crlf_at(s, i));
        },
    }
}

/// Finds the first line end.
pub fn find_crlf(buf: &[u8]) -> (r: Option<usize>)
    ensures
        match r {
            Some(i) => line_end(buf@) == Some(i as int) && i + 2 <= buf@.len(),
            None => line_end(buf@) is None,
        },
{
    proof {
        lemma_line_end(buf@);
    }
    let mut i: usize = 0;
    while buf.len() >= 2 && i < buf.len() - 1
        invariant
            i <= buf@.len(),
            forall|j: int| 0 <= j < i ==> !crlf_at(buf@, j),
        decreases buf@.len() - i,
    {
        if buf[i] == 0x0d && buf[i + 1] == 0x0a {
            proof {
                lemma_line_end_is(buf@, i as int);
            }
            return Some(i);
        }
        i += 1;
    }
    proof {
        lemma_line_end(buf@);
        match line_end(buf@) {
            Some(k) => {
                assert(!crlf_at(buf@, k));
            },
            None => {},
        }
    }
    None
}

/// What the first line of a command means: the operation, and how many fields
/// follow.
pub open spec fn head_parts(head: Seq<char>) -> Option<(Seq<char>, nat)> {
    match text::split_at_first(head, ' ') {
        Some((op, count)) => match number::unsigned(count, usize::MAX as int) {
            Some(n) => Some((op, n)),
            None => None,
        },
        None => None,
    }
}

/// Reads the first line of a command.
pub fn split_head(head: &str) -> (r: Option<(String, usize)>)
    ensures
        match r {
            Some((op, n)) => head_parts(head@) == Some((op@, n as nat)),
            None => head_parts(head@) is None,
        },
{
    let head = chars_of(head);
    match split_once(head.as_slice(), ' ') {
        Some((op, count)) => match parse_usize(count) {
            Some(n) => Some((string_of(op), n)),
            None => None,
        },
        None => None,
    }
}

/// What the line in front of a field means: how many bytes the field has.
pub open spec fn length_in(line: Seq<char>) -> Option<nat> {
    if line.len() > 0 && line[0] == '$' {
        number::unsigned(line.skip(1), usize::MAX as int)
    } else {
        None
    }
}

/// Reads the line in front of a field.
pub fn field_len(line: &str) -> (r: Option<usize>)
    ensures
        match r {
            Some(n) => length_in(line@) == Some(n as nat),
            None => length_in(line@) is None,
        },
{
    let line = chars_of(line);
    if line.len() > 0 && line[0] == '$' {
        let digits = slice_subrange(line.as_slice(), 1, line.len());
        assert(digits@ =~= line@.skip(1));
        parse_usize(digits)
    } else {
        None
    }
}

/// What comes of reading fields from received bytes.
pub enum Fields {
    /// All of them are there; `rest` follows them.
    Done { fields: Seq<Seq<u8>>, rest: Seq<u8> },
    /// More bytes have to come.
    Incomplete,
    /// A line in front of a field is no length; `rest` follows that line.
    Bad { rest: Seq<u8> },
}

/// The fields with `front` in front of them.
pub open spec fn with_front(front: Seq<Seq<u8>>, f: Fields) -> Fields {
    match f {
        Fields::Done { fields, rest } => Fields::Done { fields: front + fields, rest },
        _ => f,
    }
}

/// The first `count` fields of the received bytes.
pub open spec fn fields_of(buf: Seq<u8>, count: nat) -> Fields
    decreases count,
{
    if count == 0 {
        Fields::Done { fields: Seq::empty(), rest: buf }
    } else {
        match line_end(buf) {
            None => Fields::Incomplete,
            Some(p) => match length_in(utf8::lossy_text(buf.take(p))) {
                None => Fields::Bad { rest: buf.skip(p + 2) },
                Some(n) => if p + 2 + n > buf.len() {
                    Fields::Incomplete
                } else {
                    with_front(
                        seq![buf.subrange(p + 2, p + 2 + n)],
                        fields_of(buf.skip(p + 2 + n), (count - 1) as nat),
                    )
                },
            },
        }
    }
}

/// What comes of reading a command from received bytes.
pub enum Command {
    /// A whole command; `rest` follows it.
    Whole { op: Seq<char>, fields: Seq<Seq<u8>>, rest: Seq<u8> },
    /// More bytes have to come.
    Incomplete,
    /// The bytes begin no command; `head` is their first line, and `rest` follows
    /// the line with which that is known.
    Bad { head: Seq<char>, rest: Seq<u8> },
}

/// The command at the front of the received bytes.
pub open spec fn command_in(buf: Seq<u8>) -> Command {
    match line_end(buf) {
        None => Command::Incomplete,
        Some(p) => {
            let head = utf8::lossy_text(buf.take(p));
            match head_parts(head) {
                None => Command::Bad { head, rest: buf.skip(p + 2) },
                Some((op, count)) => match fields_of(buf.skip(p + 2), count) {
                    Fields::Done { fields, rest } => Command::Whole { op, fields, rest },
                    Fields::Incomplete => Command::Incomplete,
                    Fields::Bad { rest } => Command::Bad { head, rest },
                },
            }
        },
    }
}

/// The byte strings of a list.
pub open spec fn byte_views(list: Seq<Vec<u8>>) -> Seq<Seq<u8>> {
    list.map_values(|v: Vec<u8>| v@)
}

enum FieldsRead<'a> {
    Done(Vec<Vec<u8>>, &'a [u8]),
    Incomplete,
    Bad(&'a [u8]),
}

fn read_fields(buf: &[u8], count: usize) -> (r: FieldsRead<'_>)
    ensures
        match r {
            FieldsRead::Done(fields, rest) => fields_of(buf@, count as nat) == (Fields::Done {
                fields: byte_views(fields@),
                rest: rest@,
            }),
            FieldsRead::Incomplete => fields_of(buf@, count as nat) is Incomplete,
            FieldsRead::Bad(rest) => fields_of(buf@, count as nat) == (Fields::Bad { rest: rest@ }),
        },
{
    let mut fields: Vec<Vec<u8>> = Vec::new();
    let mut rest = buf;
    let mut left: usize = count;
    assert(byte_views(fields@) =~= Seq::<Seq<u8>>::empty());
    assert(with_front(byte_views(fields@), fields_of(rest@, left as nat)) == fields_of(
        buf@,
        count as nat,
    )) by {
        match fields_of(buf@, count as nat) {
            Fields::Done { fields: f, rest } => {
                assert(Seq::<Seq<u8>>::empty() + f =~= f);
            },
            _ => {},
        }
    }
    while left > 0
        invariant
            with_front(byte_views(fields@), fields_of(rest@, left as nat)) == fields_of(
                buf@,
                count as nat,
            ),
        decreases left,
    {
        let ghost before = byte_views(fields@);
        let p: usize = match find_crlf(rest) {
            Some(p) => p,
            None => {
                return FieldsRead::Incomplete;
            },
        };
        let line = slice_subrange(rest, 0, p);
        assert(line@ =~= rest@.take(p as int));
        let n: usize = match field_len(text_of(line).as_str()) {
            Some(n) => n,
            None => {
                assert(p + 2 <= rest.len());
                let after = slice_subrange(rest, p + 2, rest.len());
                assert(after@ =~= rest@.skip(p + 2));
                return FieldsRead::Bad(after);
            },
        };
        if rest.len() - (p + 2) < n {
            return FieldsRead::Incomplete;
        }
        let data = slice_subrange(rest, p + 2, p + 2 + n);
        fields.push(slice_to_vec(data));
        let after = slice_subrange(rest, p + 2 + n, rest.len());
        proof {
            assert(after@ =~= rest@.skip(p + 2 + n));
            assert(byte_views(fields@) =~= before + seq![data@]);
            let tail = fields_of(after@, (left - 1) as nat);
            match tail {
                Fields::Done { fields: f, rest: r } => {
                    assert(before + (seq![data@] + f) =~= (before + seq![data@]) + f);
                },
                _ => {},
            }
        }
        rest = after;
        left -= 1;
    }
    proof {
        assert(byte_views(fields@) + Seq::<Seq<u8>>::empty() =~= byte_views(fields@));
    }
    FieldsRead::Done(fields, rest)
}

/// A connection to the daemon.
pub struct DaemonClient {
    /// The connection.
    pub fd: i32,
    /// What has been received and not been read as a command.
    pub buf: Vec<u8>,
    /// The standard streams that the client sent along.
    pub fds: Vec<i32>,
    /// Whether nothing has been received yet.
    pub first: bool,
    /// The process that runs the client's program.
    pub pid: Option<i32>,
}

/// A connection, as contracts see it.
#[verifier::ext_equal]
pub struct Client {
    pub fd: i32,
    pub buf: Seq<u8>,
    pub fds: Seq<i32>,
    pub first: bool,
    pub pid: Option<i32>,
}

impl View for DaemonClient {
    type V = Client;

    open spec fn view(&self) -> Client {
        Client {
            fd: self.fd,
            buf: self.buf@,
            fds: self.fds@,
            first: self.first,
            pid: self.pid,
        }
    }
}

/// Why no command could be read.
pub enum CommandErr {
    /// The command is incomplete: it waits for more bytes.
    Partial,
    /// The connection has ended.
    Eof,
    /// What was received is no command.
    Bad(String),
}

/// Why no command could be read, as contracts see it.
pub enum ReadFailure {
    Partial,
    Eof,
    Bad(Seq<char>),
}

/// What was read, as contracts see it.
pub open spec fn read_view(r: Result<(String, Vec<Vec<u8>>), CommandErr>) -> Result<
    (Seq<char>, Seq<Seq<u8>>),
    ReadFailure,
> {
    match r {
        Ok((op, fields)) => Ok((op@, byte_views(fields@))),
        Err(CommandErr::Partial) => Err(ReadFailure::Partial),
        Err(CommandErr::Eof) => Err(ReadFailure::Eof),
        Err(CommandErr::Bad(msg)) => Err(ReadFailure::Bad(msg@)),
    }
}

/// What the daemon says of bytes that are no command.
pub open spec fn bad_command(head: Seq<char>) -> Seq<char> {
    "bad command: "@ + utf8::debug_text(head)
}

/// Takes note of one receive call on a connection: its result `n`, the bytes
/// and the descriptors that came with it, and the error code where `n` is
/// negative. The first call of a connection brings the descriptors; no bytes
/// mean that the connection has ended.
pub fn client_fill(
    c: &mut DaemonClient,
    n: isize,
    data: &[u8],
    fds: &[i32],
    errno: i32,
) -> (r: Result<(), CommandErr>)
    ensures
        n > 0 ==> r is Ok && final(c)@ == (Client {
            buf: old(c)@.buf + data@,
            fds: if old(c).first {
                fds@
            } else {
                old(c)@.fds
            },
            first: false,
            ..old(c)@
        }),
        n < 0 && (errno == EAGAIN || errno == EINTR) ==> r matches Err(CommandErr::Partial),
        n < 0 && errno != EAGAIN && errno != EINTR ==> r matches Err(CommandErr::Eof),
        n == 0 ==> r matches Err(CommandErr::Eof),
        r is Err ==> final(c)@ == (Client { first: false, ..old(c)@ }),
{
    let first = c.first;
    c.first = false;
    if n > 0 {
        if first {
            c.fds = slice_to_vec(fds);
        }
        push_bytes(&mut c.buf, data);
        Ok(())
    } else if n < 0 && (errno == EAGAIN || errno == EINTR) {
        Err(CommandErr::Partial)
    } else {
        Err(CommandErr::Eof)
    }
}

/// Reads the next command from what a connection has received, and removes it
/// from there. Where the command is incomplete, everything stays for the next
/// attempt; of a bad one, what was read is removed.
pub fn client_read_command(c: &mut DaemonClient) -> (r: Result<
    (String, Vec<Vec<u8>>),
    CommandErr,
>)
    ensures
        match command_in(old(c)@.buf) {
            Command::Whole { op, fields, rest } => {
                &&& r matches Ok((o, f)) && o@ == op && byte_views(f@) == fields
                &&& final(c)@ == (Client { buf: rest, ..old(c)@ })
            },
            Command::Incomplete => {
                &&& r matches Err(CommandErr::Partial)
                &&& final(c)@ == old(c)@
            },
            Command::Bad { head, rest } => {
                &&& r matches Err(CommandErr::Bad(msg)) && msg@ == bad_command(head)
                &&& final(c)@ == (Client { buf: rest, ..old(c)@ })
            },
        },
{
    let p: usize = match find_crlf(c.buf.as_slice()) {
        Some(p) => p,
        None => {
            return Err(CommandErr::Partial);
        },
    };
    let line = slice_subrange(c.buf.as_slice(), 0, p);
    assert(line@ =~= c.buf@.take(p as int));
    let head = text_of(line);
    assert(p + 2 <= c.buf.len());
    let body = slice_subrange(c.buf.as_slice(), p + 2, c.buf.len());
    assert(body@ =~= c.buf@.skip(p + 2));
    let (op, count) = match split_head(head.as_str()) {
        Some(x) => x,
        None => {
            let rest = slice_to_vec(body);
            c.buf = rest;
            return Err(CommandErr::Bad(bad_command_text(head.as_str())));
        },
    };
    match read_fields(body, count) {
        FieldsRead::Done(fields, rest) => {
            let rest = slice_to_vec(rest);
            c.buf = rest;
            Ok((op, fields))
        },
        FieldsRead::Incomplete => Err(CommandErr::Partial),
        FieldsRead::Bad(rest) => {
            let rest = slice_to_vec(rest);
            c.buf = rest;
            Err(CommandErr::Bad(bad_command_text(head.as_str())))
        },
    }
}

fn bad_command_text(head: &str) -> (r: String)
    ensures
        r@ == bad_command(head@),
{
    let mut r = "bad command: ".to_string();
    r.append(debug_quoted(head).as_str());
    r
}

/// The first line of a command.
pub open spec fn head_line(op: Seq<char>, count: nat) -> Seq<char> {
    op + seq![' '] + number::decimal(count) + seq!['\r', '\n']
}

/// The line in front of a field of `n` bytes.
pub open spec fn length_line(n: nat) -> Seq<char> {
    seq!['$'] + number::decimal(n) + seq!['\r', '\n']
}

/// The bytes of fields, each with its line in front.
pub open spec fn field_bytes(fields: Seq<Seq<char>>) -> Seq<u8>
    decreases fields.len(),
{
    if fields.len() == 0 {
        Seq::empty()
    } else {
        let data = encode_utf8(fields[0]);
        encode_utf8(length_line(data.len())) + data + field_bytes(fields.skip(1))
    }
}

/// The bytes of a command.
pub open spec fn command_bytes(op: Seq<char>, fields: Seq<Seq<char>>) -> Seq<u8> {
    encode_utf8(head_line(op, fields.len())) + field_bytes(fields)
}

/// Builds the bytes of a command.
pub fn build_cmd(op: &str, fields: &Vec<String>) -> (r: Vec<u8>)
    ensures
        r@ == command_bytes(op@, text::views(fields@)),
{
    let ghost all = text::views(fields@);
    let mut head = op.to_string();
    head.push(' ');
    head.append(decimal_of(fields.len() as u64).as_str());
    head.push('\r');
    head.push('\n');
    assert(head@ =~= head_line(op@, all.len()));
    let mut buf: Vec<u8> = utf8::utf8_bytes(head.as_str());
    let mut i: usize = 0;
    assert(all.skip(0) =~= all);
    while i < fields.len()
        invariant
            i <= fields@.len(),
            all == text::views(fields@),
            buf@ + field_bytes(all.skip(i as int)) == command_bytes(op@, all),
        decreases fields@.len() - i,
    {
        let ghost rest = all.skip(i as int);
        let ghost before = buf@;
        let data = fields[i].as_str().as_bytes();
        let mut line = String::new();
        line.push('$');
        line.append(decimal_of(data.len() as u64).as_str());
        line.push('\r');
        line.push('\n');
        assert(line@ =~= length_line(data@.len()));
        push_bytes(&mut buf, line.as_str().as_bytes());
        push_bytes(&mut buf, data);
        proof {
            assert(rest[0] == fields@[i as int]@);
            assert(rest.skip(1) =~= all.skip(i + 1));
            let l = encode_utf8(length_line(data@.len()));
            let tail = field_bytes(rest.skip(1));
            assert(field_bytes(rest) == l + data@ + tail);
            assert(before + (l + data@ + tail) =~= ((before + l) + data@) + tail);
        }
        i += 1;
    }
    assert(buf@ + field_bytes(all.skip(i as int)) =~= buf@);
    buf
}

/// A text as a field.
pub fn b64(s: &str) -> (r: String)
    ensures
        r@ == base64::b64_text(encode_utf8(s@)),
{
    b64_encode(s.as_bytes())
}

/// A line in front of other bytes: where it ends, and what it says.
proof fn lemma_line(line: Seq<char>, rest: Seq<u8>)
    requires
        !utf8::has_crlf(line),
    ensures
        ({
            let b = encode_utf8(line);
            let s = encode_utf8(line + seq!['\r', '\n']) + rest;
            &&& line_end(s) == Some(b.len() as int)
            &&& s.take(b.len() as int) == b
            &&& s.skip(b.len() as int + 2) == rest
            &&& utf8::lossy_text(b) == line
            &&& encode_utf8(line + seq!['\r', '\n']) == b + seq![0x0du8, 0x0au8]
        }),
{
    let b = encode_utf8(line);
    let end = seq!['\r', '\n'];
    let e = seq![0x0du8, 0x0au8];
    utf8::lemma_encode_concat(line, end);
    utf8::lemma_ascii_bytes(end, e);
    let s = encode_utf8(line + end) + rest;
    assert(s =~= b + e + rest);
    utf8::lemma_no_crlf(line);
    assert(s[b.len() as int] == e[0] && s[b.len() as int + 1] == e[1]);
    assert(crlf_at(s, b.len() as int));
    assert forall|j: int| 0 <= j < b.len() implies !crlf_at(s, j) by {
        assert(s[j] == b[j]);
        if j + 1 < b.len() {
            assert(s[j + 1] == b[j + 1]);
        } else {
            assert(s[j + 1] == e[0]);
        }
    }
    lemma_line_end_is(s, b.len() as int);
    assert(s.take(b.len() as int) =~= b);
    assert(s.skip(b.len() as int + 2) =~= rest);
    utf8::lemma_text_of_encoded(line);
}

proof fn lemma_digits_no_crlf(prefix: Seq<char>, n: nat)
    requires
        !utf8::has_crlf(prefix),
        prefix.len() > 0 ==> prefix.last() != '\r',
    ensures
        !utf8::has_crlf(prefix + number::decimal(n)),
{
    let d = number::decimal(n);
    let s = prefix + d;
    number::lemma_decimal_reads_back(n, n as int);
    if utf8::has_crlf(s) {
        let i = choose|i: int|
            0 <= i && i + 1 < s.len() && #[trigger] s[i] == '\r' && s[i + 1] == '\n';
        if i >= prefix.len() {
            assert(s[i] == d[i - prefix.len()]);
            assert(number::is_digit(d[i - prefix.len()]));
        } else if i + 1 < prefix.len() {
            assert(prefix[i] == '\r' && prefix[i + 1] == '\n');
            assert(utf8::has_crlf(prefix));
        } else {
            assert(prefix.last() == s[i]);
        }
    }
}

proof fn lemma_fields_round_trip(fields: Seq<Seq<char>>, rest: Seq<u8>)
    requires
        forall|i: int| 0 <= i < fields.len() ==> encode_utf8(#[trigger] fields[i]).len()
            <= usize::MAX,
    ensures
        fields_of(field_bytes(fields) + rest, fields.len()) == (Fields::Done {
            fields: fields.map_values(|f: Seq<char>| encode_utf8(f)),
            rest,
        }),
    decreases fields.len(),
{
    let datas = fields.map_values(|f: Seq<char>| encode_utf8(f));
    let buf = field_bytes(fields) + rest;
    if fields.len() == 0 {
        assert(buf =~= rest);
        assert(datas =~= Seq::<Seq<u8>>::empty());
    } else {
        let data = encode_utf8(fields[0]);
        let n = data.len();
        let more = fields.skip(1);
        let line = seq!['$'] + number::decimal(n);
        let tail = data + (field_bytes(more) + rest);
        assert(buf =~= encode_utf8(length_line(n)) + tail);
        assert(length_line(n) =~= line + seq!['\r', '\n']);
        lemma_digits_no_crlf(seq!['$'], n);
        lemma_line(line, tail);
        let p = encode_utf8(line).len() as int;
        assert(line.skip(1) =~= number::decimal(n));
        number::lemma_decimal_reads_back(n, usize::MAX as int);
        assert(length_in(line) == Some(n));
        assert(buf.subrange(p + 2, p + 2 + n) =~= data) by {
            assert(buf.skip(p + 2) == tail);
            assert forall|i: int| 0 <= i < n implies buf[p + 2 + i] == data[i] by {
                assert(buf[p + 2 + i] == buf.skip(p + 2)[i]);
                assert(tail[i] == data[i]);
            }
        }
        assert(buf.skip(p + 2 + n) =~= field_bytes(more) + rest) by {
            assert(buf.skip(p + 2 + n) =~= buf.skip(p + 2).skip(n as int));
            assert(tail.skip(n as int) =~= field_bytes(more) + rest);
        }
        assert forall|i: int| 0 <= i < more.len() implies encode_utf8(#[trigger] more[i]).len()
            <= usize::MAX by {
            assert(more[i] == fields[i + 1]);
        }
        lemma_fields_round_trip(more, rest);
        let rest_datas = more.map_values(|f: Seq<char>| encode_utf8(f));
        assert(seq![data] + rest_datas =~= datas);
        assert(buf.len() >= p + 2 + n) by {
            assert(buf.skip(p + 2) == tail);
        }
    }
}

/// A command that was built is read back, and what follows it stays: the
/// operation holds no space and no line end.
pub proof fn law_command_round_trip(op: Seq<char>, fields: Seq<Seq<char>>, rest: Seq<u8>)
    requires
        !utf8::has_crlf(op),
        !op.contains(' '),
        fields.len() <= usize::MAX,
        forall|i: int| 0 <= i < fields.len() ==> encode_utf8(#[trigger] fields[i]).len()
            <= usize::MAX,
    ensures
        command_in(command_bytes(op, fields) + rest) == (Command::Whole {
            op,
            fields: fields.map_values(|f: Seq<char>| encode_utf8(f)),
            rest,
        }),
{
    let n = fields.len();
    let prefix = op + seq![' '];
    let line = prefix + number::decimal(n);
    let tail = field_bytes(fields) + rest;
    let buf = command_bytes(op, fields) + rest;
    assert(buf =~= encode_utf8(head_line(op, n)) + tail);
    assert(head_line(op, n) =~= line + seq!['\r', '\n']);
    assert(!utf8::has_crlf(prefix)) by {
        if utf8::has_crlf(prefix) {
            let i = choose|i: int|
                0 <= i && i + 1 < prefix.len() && #[trigger] prefix[i] == '\r' && prefix[i + 1]
                    == '\n';
            assert(op[i] == '\r' && op[i + 1] == '\n');
        }
    }
    lemma_digits_no_crlf(prefix, n);
    lemma_line(line, tail);
    assert forall|j: int| 0 <= j < op.len() implies line[j] != ' ' by {
        assert(line[j] == op[j]);
        assert(op.contains(op[j]));
    }
    text::lemma_index_of_is(line, ' ', op.len() as int);
    assert(line.take(op.len() as int) =~= op);
    assert(line.skip(op.len() as int + 1) =~= number::decimal(n));
    number::lemma_decimal_reads_back(n, usize::MAX as int);
    lemma_fields_round_trip(fields, rest);
}

proof fn lemma_line_end_more(a: Seq<u8>, b: Seq<u8>)
    requires
        line_end(a) is Some,
    ensures
        line_end(a + b) == line_end(a),
        ({
            let p = line_end(a)->0;
            &&& 0 <= p
            &&& p + 2 <= a.len()
            &&& (a + b).take(p) == a.take(p)
            &&& (a + b).skip(p + 2) == a.skip(p + 2) + b
        }),
{
    let p = line_end(a)->0;
    let s = a + b;
    lemma_line_end(a);
    assert(crlf_at(s, p)) by {
        assert(s[p] == a[p] && s[p + 1] == a[p + 1]);
    }
    assert forall|j: int| 0 <= j < p implies !crlf_at(s, j) by {
        assert(!crlf_at(a, j));
        assert(s[j] == a[j] && s[j + 1] == a[j + 1]);
    }
    lemma_line_end_is(s, p);
    assert(s.take(p) =~= a.take(p));
    assert(s.skip(p + 2) =~= a.skip(p + 2) + b);
}

proof fn lemma_fields_more(a: Seq<u8>, b: Seq<u8>, count: nat)
    ensures
        match fields_of(a, count) {
            Fields::Done { fields, rest } => fields_of(a + b, count) == (Fields::Done {
                fields,
                rest: rest + b,
            }),
            Fields::Bad { rest } => fields_of(a + b, count) == (Fields::Bad { rest: rest + b }),
            Fields::Incomplete => true,
        },
    decreases count,
{
    if count > 0 && line_end(a) is Some {
        lemma_line_end_more(a, b);
        let p = line_end(a)->0;
        match length_in(utf8::lossy_text(a.take(p))) {
            Some(n) => {
                if p + 2 + n <= a.len() {
                    let s = a + b;
                    assert(s.subrange(p + 2, p + 2 + n) =~= a.subrange(p + 2, p + 2 + n));
                    assert(s.skip(p + 2 + n) =~= a.skip(p + 2 + n) + b);
                    lemma_fields_more(a.skip(p + 2 + n), b, (count - 1) as nat);
                }
            },
            None => {},
        }
    }
}

/// More bytes do not change a decision: a command that is complete stays what
/// it is and a bad one stays bad, with the new bytes behind them.
pub proof fn law_more_bytes(a: Seq<u8>, b: Seq<u8>)
    ensures
        match command_in(a) {
            Command::Whole { op, fields, rest } => command_in(a + b) == (Command::Whole {
                op,
                fields,
                rest: rest + b,
            }),
            Command::Bad { head, rest } => command_in(a + b) == (Command::Bad {
                head,
                rest: rest + b,
            }),
            Command::Incomplete => true,
        },
{
    if line_end(a) is Some {
        lemma_line_end_more(a, b);
        let p = line_end(a)->0;
        match head_parts(utf8::lossy_text(a.take(p))) {
            Some((op, count)) => {
                lemma_fields_more(a.skip(p + 2), b, count);
            },
            None => {},
        }
    }
}

/// As long as bytes of a built command are missing, the command is
/// incomplete, wherever it was cut.
pub proof fn law_cut_command_waits(op: Seq<char>, fields: Seq<Seq<char>>, n: int)
    requires
        !utf8::has_crlf(op),
        !op.contains(' '),
        fields.len() <= usize::MAX,
        forall|i: int| 0 <= i < fields.len() ==> encode_utf8(#[trigger] fields[i]).len()
            <= usize::MAX,
        0 <= n < command_bytes(op, fields).len(),
    ensures
        command_in(command_bytes(op, fields).take(n)) is Incomplete,
{
    let whole = command_bytes(op, fields);
    let a = whole.take(n);
    let b = whole.skip(n);
    assert(a + b =~= whole);
    assert(whole + Seq::<u8>::empty() =~= whole);
    law_command_round_trip(op, fields, Seq::empty());
    law_more_bytes(a, b);
    match command_in(a) {
        Command::Whole { op: o, fields: f, rest } => {
            assert((rest + b).len() > 0);
        },
        _ => {},
    }
}

/// What one more byte of a reply line means.
pub enum LineStep {
    /// The line goes on.
    More,
    /// The line has ended; this is its text.
    Done(String),
    /// The line is longer than a reply may be.
    TooLong,
}

/// Takes one more byte of a reply line. The line ends with the first line end;
/// it is refused once more than `MAX_REPLY` bytes have come without one.
pub fn read_line_step(buf: &mut Vec<u8>, byte: u8) -> (r: LineStep)
    ensures
        ({
            let now = old(buf)@.push(byte);
            let n = now.len() as int;
            let ended = n >= 2 && crlf_at(now, n - 2);
            match r {
                LineStep::Done(line) => {
                    &&& ended
                    &&& line@ == utf8::lossy_text(now.take(n - 2))
                    &&& final(buf)@ == now.take(n - 2)
                },
                LineStep::TooLong => !ended && n > MAX_REPLY && final(buf)@ == now,
                LineStep::More => !ended && n <= MAX_REPLY && final(buf)@ == now,
            }
        }),
{
    buf.push(byte);
    let n: usize = buf.len();
    if n >= 2 && buf[n - 2] == 0x0d && buf[n - 1] == 0x0a {
        let ghost now = buf@;
        buf.truncate(n - 2);
        assert(buf@ =~= now.take(n - 2));
        return LineStep::Done(text_of(buf.as_slice()));
    }
    if n > MAX_REPLY {
        return LineStep::TooLong;
    }
    LineStep::More
}

/// The signal that ended a process, or zero where it ended by itself.
pub open spec fn term_signal(status: i32) -> i32 {
    status & 0x7f
}

/// The exit status of a process that ended by itself.
pub open spec fn exit_status(status: i32) -> i32 {
    (status >> 8) & 0xff
}

/// The exit code that stands for the wait status of a process: its exit
/// status, or 128 and the signal that ended it.
pub open spec fn status_code(status: i32) -> int {
    if term_signal(status) == 0 {
        exit_status(status) as int
    } else {
        128 + term_signal(status)
    }
}

/// The exit code that stands for a wait status.
pub fn wait_status_code(status: i32) -> (r: i32)
    ensures
        r == status_code(status),
        0 <= r <= 255,
{
    assert(0 <= (status & 0x7f) <= 0x7f) by (bit_vector);
    assert(0 <= ((status >> 8) & 0xff) <= 0xff) by (bit_vector);
    if status & 0x7f == 0 {
        (status >> 8) & 0xff
    } else {
        128 + (status & 0x7f)
    }
}

/// The wait status of a process that exited with `code`, or that `signal`
/// ended, has the code of the one or 128 and the other, also where the process
/// has left its memory behind.
pub proof fn law_wait_status(code: i32, signal: i32)
    requires
        0 <= code <= 255,
        1 <= signal <= 127,
    ensures
        status_code(code << 8) == code,
        status_code(signal) == 128 + signal,
        status_code((signal + 0x80) as i32) == 128 + signal,
{
    assert((code << 8) & 0x7f == 0 && ((code << 8) >> 8) & 0xff == code) by (bit_vector)
        requires
            0 <= code <= 255,
    ;
    assert(signal & 0x7f == signal && ((signal + 0x80) as i32) & 0x7f == signal) by (bit_vector)
        requires
            1 <= signal <= 127,
    ;
}

/// The exit code of a finished process: its exit status, or 128 and the
/// signal that ended it.
pub fn exit_code(code: Option<i32>, signal: Option<i32>) -> (r: i32)
    requires
        code is None && signal is Some ==> signal->0 <= i32::MAX - 128,
    ensures
        r == (match (code, signal) {
            (Some(c), _) => c as int,
            (None, Some(s)) => 128 + s,
            (None, None) => 128,
        }),
{
    match (code, signal) {
        (Some(c), _) => c,
        (None, Some(s)) => 128 + s,
        (None, None) => 128,
    }
}

/// A command without a number of fields is refused, and so is a field without
/// its length; what follows the wrong line is kept.
pub proof fn law_malformed_refused(line: Seq<char>, op: Seq<char>, rest: Seq<u8>)
    requires
        !utf8::has_crlf(line),
        !utf8::has_crlf(op) && !op.contains(' '),
    ensures
        !line.contains(' ') ==> command_in(encode_utf8(line + seq!['\r', '\n']) + rest)
            == (Command::Bad { head: line, rest }),
        line.len() == 0 || line[0] != '$' ==> command_in(
            encode_utf8(head_line(op, 1)) + (encode_utf8(line + seq!['\r', '\n']) + rest),
        ) == (Command::Bad { head: op + seq![' ', '1'], rest }),
{
    lemma_line(line, rest);
    if !line.contains(' ') {
        text::law_split_once(line, ' ', Seq::empty());
    }
    if line.len() == 0 || line[0] != '$' {
        let head = op + seq![' ', '1'];
        let more = encode_utf8(line + seq!['\r', '\n']) + rest;
        assert(number::decimal(1) =~= seq!['1']);
        assert(head_line(op, 1) =~= head + seq!['\r', '\n']);
        assert(!utf8::has_crlf(head)) by {
            if utf8::has_crlf(head) {
                let i = choose|i: int|
                    0 <= i && i + 1 < head.len() && #[trigger] head[i] == '\r' && head[i + 1] == '\n';
                if i + 1 < op.len() {
                    assert(op[i] == '\r' && op[i + 1] == '\n');
                }
            }
        }
        lemma_line(head, more);
        text::law_split_once(op, ' ', seq!['1']);
        assert(op + seq![' '] + seq!['1'] =~= head);
        number::lemma_decimal_reads_back(1, usize::MAX as int);
    }
}

} // verus!
