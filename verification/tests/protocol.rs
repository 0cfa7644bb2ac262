use calisto::base64::{b64_decode, b64_decode_checked, b64_encode, complete, decode_bytes};
use calisto::protocol::control::{align8, control_message, is_well_formed, received_fds};
use calisto::protocol::request::{
    child_request, daemon_var, decode_fields, env_blob, env_pairs, read_reply, reply_code,
    run_request, status_reply, RunReply,
};
use calisto::protocol::{
    b64, build_cmd, client_fill, client_read_command, exit_code, field_len, find_crlf,
    read_line_step, split_head, wait_status_code, CommandErr, DaemonClient, LineStep, EAGAIN,
    EINTR, MAX_REPLY,
};

fn client(buf: &[u8]) -> DaemonClient {
    DaemonClient {
        fd: 7,
        buf: buf.to_vec(),
        fds: Vec::new(),
        first: false,
        pid: None,
    }
}

fn pairs(list: &[(&str, &str)]) -> Vec<(String, String)> {
    list.iter().map(|(k, v)| (k.to_string(), v.to_string())).collect()
}

fn texts(list: &[&str]) -> Vec<String> {
    list.iter().map(|w| w.to_string()).collect()
}

#[test]
fn fields_are_encoded() {
    assert_eq!(b64_encode(b"hello"), "aGVsbG8=");
    assert_eq!(b64("hello"), "aGVsbG8=");
    assert_eq!(b64_encode(b""), "");
    assert_eq!(b64_decode(b"aGVsbG8="), "hello");
    assert_eq!(b64_decode(b""), "");
    assert_eq!(b64_decode(b"aGVs!!!!bG8="), "hel");
    assert_eq!(b64_decode_checked(b"aGVsbG8=").unwrap(), "hello");
    assert!(b64_decode_checked(b"aG").is_none());
    assert!(b64_decode_checked(b"aGV").is_none());
    assert_eq!(b64_decode_checked(b"a").unwrap(), "");
    assert_eq!(b64_decode_checked(b"aG=").unwrap(), "h");
    assert!(complete(b"aGVs"));
    assert!(!complete(b"aG"));
    assert_eq!(decode_bytes(b"/w=="), vec![0xff]);
    // Bytes that are no UTF-8 come out with replacement characters.
    assert_eq!(b64_decode(b"/w=="), "\u{fffd}");
    for text in ["", "a", "ab", "abc", "olá, mundo"] {
        assert_eq!(b64_decode(b64(text).as_bytes()), text);
    }
}

#[test]
fn line_ends() {
    assert_eq!(find_crlf(b"ab\r\ncd\r\n"), Some(2));
    assert_eq!(find_crlf(b"\r\n"), Some(0));
    assert_eq!(find_crlf(b"ab\rcd\n"), None);
    assert_eq!(find_crlf(b""), None);
}

#[test]
fn heads_and_lengths() {
    assert_eq!(split_head("RUN 3").unwrap(), ("RUN".to_string(), 3));
    assert_eq!(split_head("RUN +3").unwrap(), ("RUN".to_string(), 3));
    assert!(split_head("RUN").is_none());
    assert!(split_head("RUN x").is_none());
    assert!(split_head("RUN 3 4").is_none());
    assert_eq!(field_len("$12"), Some(12));
    assert_eq!(field_len("12"), None);
    assert_eq!(field_len("$-1"), None);
}

#[test]
fn commands_are_written_and_read() {
    assert_eq!(build_cmd("PING", &vec![]), b"PING 0\r\n".to_vec());
    let bytes = build_cmd("RUN", &texts(&["ab", "", "c\r\nd"]));
    assert_eq!(bytes, b"RUN 3\r\n$2\r\nab$0\r\n$4\r\nc\r\nd".to_vec());
    let mut c = client(&bytes);
    c.buf.extend_from_slice(b"PING 0\r\n");
    match client_read_command(&mut c) {
        Ok((op, fields)) => {
            assert_eq!(op, "RUN");
            assert_eq!(fields, vec![b"ab".to_vec(), b"".to_vec(), b"c\r\nd".to_vec()]);
        }
        Err(_) => panic!("no command"),
    }
    assert_eq!(c.buf, b"PING 0\r\n".to_vec());
}

#[test]
fn cut_commands_wait() {
    let bytes = build_cmd("RUN", &texts(&["ab", "cde"]));
    for n in 0..bytes.len() {
        let mut c = client(&bytes[..n]);
        assert!(matches!(client_read_command(&mut c), Err(CommandErr::Partial)));
        assert_eq!(c.buf, bytes[..n].to_vec());
        c.buf.extend_from_slice(&bytes[n..]);
        assert!(client_read_command(&mut c).is_ok());
    }
}

#[test]
fn bad_commands() {
    for bad in ["HELLO\r\n", "RUN x\r\n", "RUN 1\r\n5\r\nabcde"] {
        let mut c = client(bad.as_bytes());
        let head = bad.split("\r\n").next().unwrap();
        match client_read_command(&mut c) {
            Err(CommandErr::Bad(m)) => assert_eq!(m, format!("bad command: {:?}", head)),
            _ => panic!("accepted"),
        }
        assert_eq!(c.buf, bad.rsplit("\r\n").next().unwrap().as_bytes().to_vec());
    }
}

#[test]
fn a_connection_that_ends_at_once() {
    let mut c = client(b"a");
    c.first = true;
    assert!(matches!(client_fill(&mut c, 0, b"", &[], 0), Err(CommandErr::Eof)));
    assert_eq!(c.buf, b"a".to_vec());
    assert!(!c.first);
}

#[test]
fn received_bytes_are_kept() {
    let mut c = client(b"a");
    c.first = true;
    assert!(client_fill(&mut c, 2, b"bc", &[4, 5, 6], 0).is_ok());
    assert_eq!(c.buf, b"abc".to_vec());
    assert_eq!(c.fds, vec![4, 5, 6]);
    assert!(!c.first);
    assert!(client_fill(&mut c, 1, b"d", &[], 0).is_ok());
    assert_eq!(c.buf, b"abcd".to_vec());
    assert_eq!(c.fds, vec![4, 5, 6]);
    assert!(matches!(client_fill(&mut c, 0, b"", &[], 0), Err(CommandErr::Eof)));
    assert!(matches!(client_fill(&mut c, -1, b"", &[], EAGAIN), Err(CommandErr::Partial)));
    assert!(matches!(client_fill(&mut c, -1, b"", &[], EINTR), Err(CommandErr::Partial)));
    assert!(matches!(client_fill(&mut c, -1, b"", &[], 104), Err(CommandErr::Eof)));
}

#[test]
fn replies_are_read_by_bytes() {
    let mut buf: Vec<u8> = Vec::new();
    for &b in b"STATUS 0\r" {
        assert!(matches!(read_line_step(&mut buf, b), LineStep::More));
    }
    match read_line_step(&mut buf, b'\n') {
        LineStep::Done(line) => assert_eq!(line, "STATUS 0"),
        _ => panic!("not done"),
    }
    let mut long: Vec<u8> = vec![b'x'; MAX_REPLY];
    assert!(matches!(read_line_step(&mut long, b'x'), LineStep::TooLong));
}

#[test]
fn statuses() {
    assert_eq!(wait_status_code(0), 0);
    assert_eq!(wait_status_code(42 << 8), 42);
    assert_eq!(wait_status_code(9), 137);
    assert_eq!(wait_status_code(15), 143);
    assert_eq!(exit_code(Some(3), None), 3);
    assert_eq!(exit_code(None, Some(15)), 143);
    assert_eq!(exit_code(None, None), 128);
}

#[test]
fn descriptors_travel() {
    assert_eq!(align8(0), 0);
    assert_eq!(align8(1), 8);
    assert_eq!(align8(16), 16);
    assert_eq!(align8(17), 24);
    let m = control_message(&[0, 1, 2]);
    assert_eq!(m.len(), 32);
    assert_eq!(&m[..8], &28u64.to_le_bytes());
    assert!(is_well_formed(&m));
    assert_eq!(received_fds(&m), vec![0, 1, 2]);
    assert!(is_well_formed(&[]));
    assert_eq!(received_fds(&[]), Vec::<i32>::new());
    // A header that claims less than itself.
    let mut short = m.clone();
    short[0] = 8;
    assert!(!is_well_formed(&short));
}

#[test]
fn variables_of_the_daemon_stay() {
    for name in [
        "CALISTO_RUNTIME_DIR",
        "CALISTO_SOCKET",
        "CALISTO_PIDFILE",
        "CALISTO_PRELOAD",
        "CALISTO_COMPACT",
        "CALISTO_YJIT",
        "CALISTO_WARMUP",
        "CALISTO_RUBY",
    ] {
        assert!(daemon_var(name));
    }
    assert!(!daemon_var("CALISTO_HOME"));
    assert!(!daemon_var("PATH"));
}

#[test]
fn environments_travel() {
    let vars = pairs(&[("A", "1"), ("CALISTO_RUBY", "x"), ("B", "2=3")]);
    let extra = pairs(&[("A", "9")]);
    let blob = env_blob(&vars, &extra);
    assert_eq!(blob, "A=1\u{1e}B=2=3\u{1e}A=9");
    assert_eq!(env_pairs(&blob), pairs(&[("A", "1"), ("B", "2=3"), ("A", "9")]));
    assert_eq!(env_pairs("junk\u{1e}C=4"), pairs(&[("C", "4")]));
}

#[test]
fn requests_travel() {
    let vars = pairs(&[("A", "1")]);
    let bytes = run_request("EVAL", "/tmp", &vars, &pairs(&[]), "puts 1", &texts(&["x", "ção"]));
    let mut c = client(&bytes);
    let (op, fields) = match client_read_command(&mut c) {
        Ok(found) => found,
        Err(_) => panic!("no command"),
    };
    assert_eq!(op, "EVAL");
    let decoded = decode_fields(&fields).unwrap();
    let r = child_request(&decoded).unwrap();
    assert_eq!(r.cwd, "/tmp");
    assert_eq!(r.env_blob, "A=1");
    assert_eq!(r.subject, "puts 1");
    assert_eq!(r.args, texts(&["x", "ção"]));
    assert!(decode_fields(&vec![b"aG".to_vec()]).is_none());
    assert!(child_request(&texts(&["a", "b"])).is_none());
}

#[test]
fn replies_mean_codes() {
    assert_eq!(status_reply(3), "STATUS 3\r\n");
    assert_eq!(reply_code(&read_reply("STATUS 3")), 3);
    assert_eq!(reply_code(&read_reply("STATUS  -2 ")), -2);
    assert_eq!(reply_code(&read_reply("STATUS x")), 1);
    match read_reply("ERR RuntimeError: eof") {
        RunReply::Failed(m) => assert_eq!(m, "RuntimeError: eof"),
        _ => panic!("not failed"),
    }
    match read_reply("HELLO") {
        RunReply::Unexpected(m) => assert_eq!(m, "HELLO"),
        _ => panic!("expected"),
    }
    assert_eq!(reply_code(&read_reply("ERR x")), 1);
    assert_eq!(reply_code(&read_reply("HELLO")), 1);
}
