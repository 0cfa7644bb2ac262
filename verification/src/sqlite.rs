//! Databases of SQLite for Ruby programs: how values are bound, what a step of
//! a statement means, and what is refused.
use vstd::prelude::*;
use crate::number;
use crate::number::signed_decimal_of;
use crate::pg::c_argument;
use crate::ruby;
use crate::ruby::{Qfalse, Qnil, Qtrue};
use crate::text;
use crate::text::{chars_of, is_whitespace, push_bytes};
use crate::utf8;
use crate::utf8::text_of;

verus! {

/// The code of success.
pub const SQLITE_OK: i32 = 0;

/// The code of a step that produced a row.
pub const SQLITE_ROW: i32 = 100;

/// The code of a step after the last row.
pub const SQLITE_DONE: i32 = 101;

/// Whether what is left of SQL after its first statement holds more than
/// whitespace and semicolons.
pub open spec fn holds_more(tail: Seq<char>) -> bool {
    exists|i: int| 0 <= i < tail.len() && !text::is_space(#[trigger] tail[i]) && tail[i] != ';'
}

/// Why SQL is refused after its first statement was read: there is another
/// one.
pub fn tail_refusal(tail: Option<&[u8]>) -> (r: Option<String>)
    ensures
        if tail matches Some(t) && holds_more(utf8::lossy_text(t@)) {
            r matches Some(m) && m@
                == "multiple SQL statements nao suportado (uma por chamada)"@
        } else {
            r is None
        },
{
    match tail {
        Some(t) => {
            let s = text_of(t);
            let c = chars_of(s.as_str());
            let mut i: usize = 0;
            while i < c.len() && (is_whitespace(c[i]) || c[i] == ';')
                invariant
                    i <= c@.len(),
                    forall|j: int| 0 <= j < i ==> text::is_space(#[trigger] c@[j]) || c@[j] == ';',
                decreases c@.len() - i,
            {
                i += 1;
            }
            if i < c.len() {
                Some("multiple SQL statements nao suportado (uma por chamada)".to_string())
            } else {
                None
            }
        },
        None => None,
    }
}

/// What is known of a value that is to be bound: its word, and of which
/// classes it is.
pub struct Given {
    pub word: u64,
    pub is_string: bool,
    pub is_integer: bool,
    pub is_float: bool,
    /// The name of its class.
    pub class: String,
}

/// How a value is bound.
pub enum Bind {
    Null,
    /// As this integer.
    Int(i64),
    /// As its bytes.
    Text,
    /// As the integer that Ruby makes of it.
    Integer,
    /// As the floating-point number that Ruby makes of it.
    Float,
    /// Not at all, and why.
    Refused(String),
}

/// Decides how a value is bound: `nil`, `true`, `false` and small integers are
/// known by their words, others by their classes.
pub fn bind_param(v: &Given) -> (r: Bind)
    ensures
        if v.word == Qnil {
            r == Bind::Null
        } else if v.word == Qtrue {
            r == Bind::Int(1)
        } else if v.word == Qfalse {
            r == Bind::Int(0)
        } else if v.word % 2 == 1 {
            r matches Bind::Int(n) && n == ruby::signed_word(v.word) / 2
        } else if v.is_string {
            r == Bind::Text
        } else if v.is_integer {
            r == Bind::Integer
        } else if v.is_float {
            r == Bind::Float
        } else {
            r matches Bind::Refused(m) && m@ == "cannot bind "@ + v.class@ + " as SQLite param"@
        },
{
    if v.word == Qnil as u64 {
        Bind::Null
    } else if v.word == Qtrue as u64 {
        Bind::Int(1)
    } else if v.word == Qfalse as u64 {
        Bind::Int(0)
    } else if v.word % 2 == 1 {
        let half: u64 = v.word / 2;
        if half < 0x4000_0000_0000_0000 {
            Bind::Int(half as i64)
        } else {
            Bind::Int((half as i128 - 0x8000_0000_0000_0000) as i64)
        }
    } else if v.is_string {
        Bind::Text
    } else if v.is_integer {
        Bind::Integer
    } else if v.is_float {
        Bind::Float
    } else {
        let mut m = "cannot bind ".to_string();
        m.append(v.class.as_str());
        m.append(" as SQLite param");
        Bind::Refused(m)
    }
}

/// A small integer is bound as itself.
pub proof fn law_small_integer_binds(n: i32)
    requires
        usize::MAX == u64::MAX,
    ensures
        ({
            let w = ruby::fixnum_word(n as int);
            &&& w % 2 == 1
            &&& w != Qnil
            &&& w != Qtrue
            &&& w != Qfalse
            &&& ruby::signed_word(w as u64) / 2 == n
        }),
{
}

/// What the code of a step means.
pub enum Step {
    /// A row with columns.
    Row,
    /// A row without columns, which is left out.
    Empty,
    Done,
    Failed,
}

/// Reads the code of a step of a statement with `columns` columns.
pub fn step(rc: i32, columns: i32) -> (r: Step)
    ensures
        r == (if rc == SQLITE_ROW {
            if columns > 0 {
                Step::Row
            } else {
                Step::Empty
            }
        } else if rc == SQLITE_DONE {
            Step::Done
        } else {
            Step::Failed
        }),
{
    if rc == SQLITE_ROW {
        if columns > 0 {
            Step::Row
        } else {
            Step::Empty
        }
    } else if rc == SQLITE_DONE {
        Step::Done
    } else {
        Step::Failed
    }
}

/// What a column of a row holds.
pub enum Column {
    Integer,
    Float,
    Text,
    Blob,
    Null,
}

/// Reads the code of what a column holds.
pub fn column_kind(code: i32) -> (r: Column)
    ensures
        r == (if code == 1 {
            Column::Integer
        } else if code == 2 {
            Column::Float
        } else if code == 3 {
            Column::Text
        } else if code == 4 {
            Column::Blob
        } else {
            Column::Null
        }),
{
    if code == 1 {
        Column::Integer
    } else if code == 2 {
        Column::Float
    } else if code == 3 {
        Column::Text
    } else if code == 4 {
        Column::Blob
    } else {
        Column::Null
    }
}

/// What is said of a failure: what was tried, and what SQLite says of it, or
/// the code where it says nothing.
pub fn failure_text(what: &str, rc: i32, message: Option<&str>) -> (r: String)
    ensures
        r@ == what@ + ": "@ + (match message {
            Some(m) => m@,
            None => what@ + " (erro "@ + number::signed_decimal(rc as int) + ")"@,
        }),
{
    let mut r = what.to_string();
    r.append(": ");
    let said = match message {
        Some(m) => m.to_string(),
        None => {
            let mut s = what.to_string();
            s.append(" (erro ");
            s.append(signed_decimal_of(rc as i64).as_str());
            s.append(")");
            s
        },
    };
    r.append(said.as_str());
    r
}

/// Where a database is: in memory where the symbol for that was given, and else
/// at a path, which cannot hold a zero byte.
pub fn database_path(in_memory: bool, given: &[u8]) -> (r: Result<Vec<u8>, String>)
    ensures
        if in_memory {
            r matches Ok(p) && p@ == seq![58u8, 109u8, 101u8, 109u8, 111u8, 114u8, 121u8, 58u8]
        } else if given@.contains(0u8) {
            r matches Err(e) && e@ == "path de banco"@ + " nao pode conter NUL"@
        } else {
            r matches Ok(p) && p@ == given@
        },
{
    if in_memory {
        let name: [u8; 8] = [58, 109, 101, 109, 111, 114, 121, 58];
        let mut p: Vec<u8> = Vec::new();
        push_bytes(&mut p, name.as_slice());
        assert(p@ =~= seq![58u8, 109u8, 101u8, 109u8, 111u8, 114u8, 121u8, 58u8]);
        return Ok(p);
    }
    c_argument(given, "path de banco")
}

/// SQL behind the first statement counts as soon as it holds one character that
/// is neither white space nor a semicolon, wherever that stands.
pub proof fn law_more_sql(a: Seq<char>, c: char, b: Seq<char>)
    requires
        forall|i: int| 0 <= i < a.len() ==> text::is_space(#[trigger] a[i]) || a[i] == ';',
    ensures
        !holds_more(a),
        !text::is_space(c) && c != ';' ==> holds_more(a + seq![c] + b),
{
    if !text::is_space(c) && c != ';' {
        let s = a + seq![c] + b;
        assert(s[a.len() as int] == c);
    }
}

} // verus!
