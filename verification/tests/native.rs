use calisto::native::base64::{
    decode64, encode64, encode_raw, strict_decode64, strict_encode64, urlsafe_decode64,
    urlsafe_encode64,
};
use calisto::native::html;
use calisto::native::url::{escape, unescape};
use calisto::native::{arity_error, keeps_padding, Arity};
use calisto::ruby::{Qfalse, Qnil, Qtrue};

#[test]
fn rfc4648_vectors() {
    for (data, expected) in [
        (&b""[..], ""),
        (&b"f"[..], "Zg=="),
        (&b"fo"[..], "Zm8="),
        (&b"foo"[..], "Zm9v"),
        (&b"foob"[..], "Zm9vYg=="),
        (&b"fooba"[..], "Zm9vYmE="),
        (&b"foobar"[..], "Zm9vYmFy"),
    ] {
        assert_eq!(strict_encode64(data), expected.as_bytes());
    }
}

#[test]
fn wrap_and_urlsafe() {
    assert_eq!(encode64(b""), b"");
    // 57 bytes make 76 characters: a newline after 60, and one at the end.
    let mut exp = "eHh4".repeat(19).into_bytes();
    exp.insert(60, b'\n');
    exp.push(b'\n');
    assert_eq!(encode64(&[b'x'; 57]), exp);
    assert_eq!(urlsafe_encode64(&[0xfb, 0xff], true), b"-_8=");
    assert_eq!(urlsafe_encode64(&[0xfb, 0xff], false), b"-_8");
}

#[test]
fn lenient_decode_matches_ruby() {
    assert_eq!(decode64(b"aGVsbG8="), b"hello");
    assert_eq!(decode64(b"aGVs bG8="), b"hello");
    assert_eq!(decode64(b"YQ bG8="), b"a\x06\xc6");
    assert_eq!(decode64(b"!!aGVsbG8@@##"), b"hello");
    assert_eq!(decode64(b"aGVsbG8"), b"hello");
    assert_eq!(decode64(b"===="), b"");
    assert_eq!(decode64(b"YQ"), b"a");
    assert_eq!(decode64(b"Y"), b"");
    assert_eq!(decode64(b""), b"");
    assert_eq!(decode64(b"YQ=YQ"), b"a");
    assert_eq!(decode64(b"aGVsbG8=extra"), b"hello");
}

#[test]
fn strict_decode_matches_ruby() {
    assert_eq!(strict_decode64(b"YQ=="), Ok(b"a".to_vec()));
    assert_eq!(strict_decode64(b"YWI="), Ok(b"ab".to_vec()));
    assert_eq!(strict_decode64(b"aGVsbG8X"), Ok(b"hello\x17".to_vec()));
    assert_eq!(strict_decode64(b""), Ok(b"".to_vec()));
    for bad in [
        &b"YQ"[..],
        &b"YWI"[..],
        &b"aGVsbG8"[..],
        &b"===="[..],
        &b"Y==="[..],
        &b"aGVsbG8!"[..],
        &b"aGVs bG8="[..],
        &b"YQ==="[..],
    ] {
        assert!(strict_decode64(bad).is_err(), "{bad:?} deveria ser invalido");
    }
}

#[test]
fn urlsafe_roundtrip() {
    assert_eq!(urlsafe_decode64(b"-_8="), Ok(vec![0xfb, 0xff]));
    assert_eq!(urlsafe_decode64(b"-_8"), Ok(vec![0xfb, 0xff]));
    assert!(urlsafe_decode64(b"+/8=").is_ok());
    assert!(urlsafe_decode64(b"-__8=").is_err());
}

#[test]
fn escape_matches_erb() {
    assert_eq!(html::escape(b"a&b<c>d\"e'f"), b"a&amp;b&lt;c&gt;d&quot;e&#39;f");
    assert_eq!(html::escape("café".as_bytes()), "café".as_bytes());
    assert_eq!(html::escape(b""), b"");
    assert_eq!(html::escape(b"no specials"), b"no specials");
}

#[test]
fn escape_matches_cgi() {
    assert_eq!(escape(b"a b-c.d_e~f"), b"a+b-c.d_e~f");
    assert_eq!(escape("café & <tag>".as_bytes()), b"caf%C3%A9+%26+%3Ctag%3E");
    assert_eq!(escape(b"+%/=?"), b"%2B%25%2F%3D%3F");
    assert_eq!(escape(b""), b"");
}

#[test]
fn unescape_matches_cgi() {
    assert_eq!(unescape(b"a+b-c.d_e~f"), b"a b-c.d_e~f");
    assert_eq!(unescape(b"caf%C3%A9+%26+%3Ctag%3E"), "café & <tag>".as_bytes());
    assert_eq!(unescape(b"%2F+%3D+%3F"), b"/ = ?");
    assert_eq!(unescape(b"%zz"), b"%zz");
    assert_eq!(unescape(b"%c3%a9"), "é".as_bytes());
}

#[test]
fn roundtrip() {
    let s = "a b&c=d?e+f%g<h>i\"j'k~l.m_n-".as_bytes();
    assert_eq!(unescape(&escape(s)), s);
}

fn all_bytes(len: usize) -> Vec<u8> {
    let mut v: Vec<u8> = Vec::new();
    for i in 0..len {
        v.push((i * 7 % 256) as u8);
    }
    v
}

#[test]
fn every_encoding_reads_back() {
    for len in 0..300 {
        let data = all_bytes(len);
        assert_eq!(strict_decode64(&strict_encode64(&data)), Ok(data.clone()));
        assert_eq!(decode64(&strict_encode64(&data)), data);
        assert_eq!(decode64(&encode64(&data)), data);
        assert_eq!(urlsafe_decode64(&urlsafe_encode64(&data, true)), Ok(data.clone()));
        assert_eq!(urlsafe_decode64(&urlsafe_encode64(&data, false)), Ok(data.clone()));
        assert_eq!(unescape(&escape(&data)), data);
    }
}

#[test]
fn raw_encoding_takes_either_alphabet() {
    assert_eq!(encode_raw(&[0xfb, 0xff], false), b"+/8=");
    assert_eq!(encode_raw(&[0xfb, 0xff], true), b"-_8=");
}

#[test]
fn percent_at_the_end_stays() {
    assert_eq!(unescape(b"%"), b"%");
    assert_eq!(unescape(b"%4"), b"%4");
    assert_eq!(unescape(b"%41"), b"A");
    assert_eq!(unescape(b"a%4"), b"a%4");
}

#[test]
fn wrong_numbers_of_arguments() {
    assert_eq!(arity_error(1, Arity::Exactly(1)), None);
    assert_eq!(
        arity_error(2, Arity::Exactly(1)).unwrap(),
        "wrong number of arguments (given 2, expected 1)"
    );
    assert_eq!(arity_error(2, Arity::Between(1, 2)), None);
    assert_eq!(
        arity_error(0, Arity::Between(1, 2)).unwrap(),
        "wrong number of arguments (given 0, expected 1..2)"
    );
    assert_eq!(arity_error(7, Arity::AtLeast(1)), None);
    assert_eq!(
        arity_error(0, Arity::AtLeast(1)).unwrap(),
        "wrong number of arguments (given 0, expected 1+)"
    );
}

#[test]
fn padding_is_kept_unless_false() {
    assert!(keeps_padding(None));
    assert!(keeps_padding(Some(Qtrue)));
    assert!(keeps_padding(Some(Qnil)));
    assert!(!keeps_padding(Some(Qfalse)));
}
