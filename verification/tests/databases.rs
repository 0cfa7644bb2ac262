use calisto::pg::{
    c_argument, cell, cell_index, cmd_tuples, column_index, connection_failure, conninfo,
    conninfo_quote, decode_value, fatal_message, message_text, parse_i64_checked, parse_i64_raw,
    pq_candidates, quote_ident, row_index, sources_dir, vendored_libraries, Cell, Whole,
};
use calisto::ruby::{fixnum, Qfalse, Qnil, Qtrue};
use calisto::sqlite::{
    bind_param, column_kind, database_path, failure_text, step, tail_refusal, Bind, Column, Given,
    Step, SQLITE_DONE, SQLITE_OK, SQLITE_ROW,
};

fn names(list: &[&str]) -> Vec<String> {
    list.iter().map(|w| w.to_string()).collect()
}

#[test]
fn libraries_of_postgres() {
    assert_eq!(sources_dir("/v/ruby-3/bin/ruby").unwrap(), "/v/src");
    assert!(sources_dir("ruby").is_none());
    let found = vendored_libraries("/v/src", &names(&["postgresql-16", "x", "postgresql-15"]));
    assert_eq!(
        found,
        names(&[
            "/v/src/postgresql-15/install/lib/libpq.so.5",
            "/v/src/postgresql-16/install/lib/libpq.so.5",
        ])
    );
    assert_eq!(
        pq_candidates(Some("/own.so"), &names(&["/b.so"])),
        names(&["/own.so", "libpq.so.5", "libpq.so", "/b.so"])
    );
    assert_eq!(pq_candidates(Some(""), &names(&[])), names(&["libpq.so.5", "libpq.so"]));
    assert_eq!(pq_candidates(None, &names(&[])), names(&["libpq.so.5", "libpq.so"]));
}

#[test]
fn parameters_are_quoted() {
    assert_eq!(conninfo_quote("plain"), "plain");
    assert_eq!(conninfo_quote(""), "''");
    assert_eq!(conninfo_quote("a b"), "'a b'");
    assert_eq!(conninfo_quote("it's"), "'it\\'s'");
    assert_eq!(conninfo_quote("a\\b"), "'a\\\\b'");
    assert_eq!(conninfo_quote("a\"b"), "'a\"b'");
    assert_eq!(conninfo_quote("a\u{85}b"), "'a\u{85}b'");
    assert_eq!(conninfo_quote("çã"), "çã");
    for c in (0..0x300u32).filter_map(char::from_u32) {
        let s = format!("x{c}");
        let quoted = conninfo_quote(&s) != s;
        let expected = matches!(c, ' ' | '\'' | '"' | '\\') || c.is_control();
        assert_eq!(quoted, expected, "{c:?}");
    }
    let pair = |k: &str, v: &str| (k.to_string(), v.to_string());
    assert_eq!(conninfo(&vec![pair("host", "h"), pair("dbname", "a b")]), "host=h dbname='a b'");
    assert_eq!(conninfo(&vec![]), "");
    assert_eq!(conninfo(&vec![pair("a", "\0")]), "");
}

#[test]
fn names_are_quoted() {
    assert_eq!(quote_ident(b"users"), b"\"users\"".to_vec());
    assert_eq!(quote_ident(b"a\"b"), b"\"a\"\"b\"".to_vec());
    assert_eq!(quote_ident(b""), b"\"\"".to_vec());
}

#[test]
fn zero_bytes_are_refused() {
    assert_eq!(c_argument(b"abc", "SQL").unwrap(), b"abc".to_vec());
    assert_eq!(c_argument(b"a\0c", "SQL").unwrap_err(), "SQL nao pode conter NUL");
}

#[test]
fn integers_are_read() {
    assert_eq!(parse_i64_raw(b"42"), Some(42));
    assert_eq!(parse_i64_raw(b"-42"), Some(-42));
    assert_eq!(parse_i64_raw(b"+7"), Some(7));
    assert_eq!(parse_i64_raw(b"007"), Some(7));
    assert_eq!(parse_i64_raw(b"9223372036854775807"), Some(i64::MAX));
    assert_eq!(parse_i64_raw(b"-9223372036854775808"), Some(i64::MIN));
    assert_eq!(parse_i64_raw(b""), None);
    assert_eq!(parse_i64_raw(b"-"), None);
    assert_eq!(parse_i64_raw(b"1x"), None);
    assert_eq!(parse_i64_raw(b" 1"), None);
    assert!(matches!(parse_i64_checked(b"9223372036854775808"), Whole::TooLarge));
    assert!(matches!(parse_i64_checked(b"-9223372036854775809"), Whole::TooLarge));
    assert!(matches!(parse_i64_checked(b"99999999999999999999999"), Whole::TooLarge));
    assert!(matches!(parse_i64_checked(b"x"), Whole::NotOne));
    assert!(matches!(parse_i64_checked(b"5"), Whole::Number(5)));
}

#[test]
fn values_are_decoded() {
    for oid in [20, 21, 23, 26] {
        assert!(matches!(decode_value(oid, b"-5"), Cell::Integer(-5)));
        assert!(matches!(decode_value(oid, b"x"), Cell::Text));
    }
    for oid in [700, 701] {
        assert!(matches!(decode_value(oid, b"NaN"), Cell::NotANumber));
        assert!(matches!(decode_value(oid, b"Infinity"), Cell::Infinity));
        assert!(matches!(decode_value(oid, b"-Infinity"), Cell::NegativeInfinity));
        assert!(matches!(decode_value(oid, b"1.5"), Cell::Float));
    }
    assert!(matches!(decode_value(16, b"t"), Cell::True));
    assert!(matches!(decode_value(16, b"f"), Cell::False));
    assert!(matches!(decode_value(16, b"x"), Cell::Text));
    assert!(matches!(decode_value(16, b""), Cell::Text));
    assert!(matches!(decode_value(25, b"5"), Cell::Text));
    assert!(matches!(cell(None, 23, true), Some(Cell::Nil)));
    assert!(matches!(cell(Some(b"5"), 23, false), Some(Cell::Text)));
    assert!(matches!(cell(Some(b"5"), 23, true), Some(Cell::Integer(5))));
    assert!(cell(Some(b"9223372036854775808"), 20, true).is_none());
    assert!(matches!(cell(Some(b"9223372036854775808"), 25, true), Some(Cell::Text)));
}

#[test]
fn changed_rows() {
    assert_eq!(cmd_tuples(None), 0);
    assert_eq!(cmd_tuples(Some(b"3")), 3);
    assert_eq!(cmd_tuples(Some(b"-3")), -3);
    assert_eq!(cmd_tuples(Some(b"")), 0);
    assert_eq!(cmd_tuples(Some(b"x")), 0);
    assert_eq!(cmd_tuples(Some(b"\xff3")), 0);
}

#[test]
fn rows_and_columns() {
    assert_eq!(row_index(0, 1), Some(0));
    assert_eq!(row_index(1, 1), None);
    assert_eq!(row_index(-1, 1), None);
    assert_eq!(column_index(2, 3), Ok(2));
    assert_eq!(column_index(3, 3).unwrap_err(), "indice fora do range do result");
    assert_eq!(cell_index(1, 2, 2, 3), Ok((1, 2)));
    assert!(cell_index(2, 2, 2, 3).is_err());
    assert!(cell_index(1, 3, 2, 3).is_err());
    assert!(cell_index(i64::MAX, 0, 2, 3).is_err());
}

#[test]
fn messages_of_postgres() {
    assert_eq!(message_text(b"ERROR:  no \n"), "ERROR:  no");
    assert_eq!(message_text(b"\xff\n"), "\u{fffd}");
    assert_eq!(fatal_message(7, b"no\n").unwrap(), "no");
    assert!(fatal_message(2, b"no\n").is_none());
    assert_eq!(connection_failure(1, b"no\n").unwrap(), "no");
    assert!(connection_failure(0, b"").is_none());
}

#[test]
fn second_statements_are_refused() {
    assert!(tail_refusal(None).is_none());
    assert!(tail_refusal(Some(b"")).is_none());
    assert!(tail_refusal(Some(b" ;;\n ")).is_none());
    assert!(tail_refusal(Some(b" ; ;;\n ")).is_none());
    assert!(tail_refusal(Some(b";; x")).is_some());
    assert_eq!(
        tail_refusal(Some(b" SELECT 1;")).unwrap(),
        "multiple SQL statements nao suportado (uma por chamada)"
    );
}

fn given(word: u64) -> Given {
    Given {
        word,
        is_string: false,
        is_integer: false,
        is_float: false,
        class: "Object".to_string(),
    }
}

#[test]
fn values_are_bound() {
    assert!(matches!(bind_param(&given(Qnil as u64)), Bind::Null));
    assert!(matches!(bind_param(&given(Qtrue as u64)), Bind::Int(1)));
    assert!(matches!(bind_param(&given(Qfalse as u64)), Bind::Int(0)));
    for n in [0, 1, -1, 42, i32::MAX, i32::MIN] {
        match bind_param(&given(fixnum(n) as u64)) {
            Bind::Int(v) => assert_eq!(v, n as i64),
            _ => panic!("not an integer"),
        }
    }
    assert!(matches!(bind_param(&given(u64::MAX / 2)), Bind::Int(v) if v == i64::MAX >> 1));
    let mut s = given(8);
    s.is_string = true;
    assert!(matches!(bind_param(&s), Bind::Text));
    let mut i = given(8);
    i.is_integer = true;
    assert!(matches!(bind_param(&i), Bind::Integer));
    let mut f = given(8);
    f.is_float = true;
    assert!(matches!(bind_param(&f), Bind::Float));
    match bind_param(&given(8)) {
        Bind::Refused(m) => assert_eq!(m, "cannot bind Object as SQLite param"),
        _ => panic!("bound"),
    }
}

#[test]
fn steps_of_statements() {
    assert!(matches!(step(SQLITE_ROW, 2), Step::Row));
    assert!(matches!(step(SQLITE_ROW, 0), Step::Empty));
    assert!(matches!(step(SQLITE_DONE, 2), Step::Done));
    assert!(matches!(step(SQLITE_OK, 2), Step::Failed));
    assert!(matches!(column_kind(1), Column::Integer));
    assert!(matches!(column_kind(2), Column::Float));
    assert!(matches!(column_kind(3), Column::Text));
    assert!(matches!(column_kind(4), Column::Blob));
    assert!(matches!(column_kind(5), Column::Null));
    assert_eq!(failure_text("step", 1, Some("no such table")), "step: no such table");
    assert_eq!(failure_text("step", 21, None), "step: step (erro 21)");
}

#[test]
fn places_of_databases() {
    assert_eq!(database_path(true, b"x").unwrap(), b":memory:".to_vec());
    assert_eq!(database_path(false, b"a.db").unwrap(), b"a.db".to_vec());
    assert_eq!(
        database_path(false, b"a\0b").unwrap_err(),
        "path de banco nao pode conter NUL"
    );
}
