//! Escaping for URLs with the behaviour of Ruby's `CGI.escape` and
//! `CGI.unescape`, on bytes.
use vstd::prelude::*;

verus! {

/// Whether a byte stands for itself in an escaped text: letters, digits and
/// the four marks `.`, `_`, `-` and `~`.
pub open spec fn is_plain(b: u8) -> bool {
    ||| 0x41 <= b <= 0x5a
    ||| 0x61 <= b <= 0x7a
    ||| 0x30 <= b <= 0x39
    ||| b == 0x2e
    ||| b == 0x5f
    ||| b == 0x2d
    ||| b == 0x7e
}

/// The upper-case hexadecimal digit of a number below sixteen.
pub open spec fn hex_upper(d: int) -> u8 {
    if d < 10 {
        (0x30 + d) as u8
    } else {
        (0x41 + d - 10) as u8
    }
}

/// How one byte is written.
pub open spec fn escaped_byte(b: u8) -> Seq<u8> {
    if is_plain(b) {
        seq![b]
    } else if b == 0x20 {
        seq![0x2bu8]
    } else {
        seq![0x25u8, hex_upper(b as int / 16), hex_upper(b as int % 16)]
    }
}

/// An escaped text: each byte in turn.
pub open spec fn escaped(s: Seq<u8>) -> Seq<u8>
    decreases s.len(),
{
    if s.len() == 0 {
        Seq::empty()
    } else {
        escaped(s.drop_last()) + escaped_byte(s.last())
    }
}

/// The number that a hexadecimal digit of either case stands for.
pub open spec fn hex_value(b: u8) -> Option<u8> {
    if 0x30 <= b <= 0x39 {
        Some((b - 0x30) as u8)
    } else if 0x61 <= b <= 0x66 {
        Some((b - 0x61 + 10) as u8)
    } else if 0x41 <= b <= 0x46 {
        Some((b - 0x41 + 10) as u8)
    } else {
        None
    }
}

/// The byte that an escape sequence at the front of the text stands for.
pub open spec fn front_escape(s: Seq<u8>) -> Option<u8> {
    if s.len() >= 3 && s[0] == 0x25 {
        match (hex_value(s[1]), hex_value(s[2])) {
            (Some(h), Some(l)) => Some((h * 16 + l) as u8),
            _ => None,
        }
    } else {
        None
    }
}

/// An unescaped text: `+` is a space, an escape sequence is its byte, and
/// every other byte is itself.
pub open spec fn unescaped(s: Seq<u8>) -> Seq<u8>
    decreases s.len(),
{
    if s.len() == 0 {
        Seq::empty()
    } else if s[0] == 0x2b {
        seq![0x20u8] + unescaped(s.skip(1))
    } else {
        match front_escape(s) {
            Some(b) => seq![b] + unescaped(s.skip(3)),
            None => seq![s[0]] + unescaped(s.skip(1)),
        }
    }
}

fn hex_digit(d: u8) -> (r: u8)
    requires
        d < 16,
    ensures
        r == hex_upper(d as int),
{
    if d < 10 {
        0x30 + d
    } else {
        0x41 + (d - 10)
    }
}

/// Escapes the bytes of a text.
pub fn escape(s: &[u8]) -> (r: Vec<u8>)
    ensures
        r@ == escaped(s@),
{
    let mut out: Vec<u8> = Vec::new();
    let mut i: usize = 0;
    while i < s.len()
        invariant
            i <= s@.len(),
            out@ == escaped(s@.take(i as int)),
        decreases s@.len() - i,
    {
        let b = s[i];
        let ghost before = out@;
        assert(s@.take(i + 1).drop_last() =~= s@.take(i as int));
        if (0x41 <= b && b <= 0x5a) || (0x61 <= b && b <= 0x7a) || (0x30 <= b && b <= 0x39) || b
            == 0x2e || b == 0x5f || b == 0x2d || b == 0x7e {
            out.push(b);
        } else if b == 0x20 {
            out.push(0x2b);
        } else {
            out.push(0x25);
            out.push(hex_digit(b / 16));
            out.push(hex_digit(b % 16));
        }
        assert(out@ =~= before + escaped_byte(b));
        i += 1;
    }
    assert(s@.take(i as int) =~= s@);
    out
}

fn hexval(b: u8) -> (r: Option<u8>)
    ensures
        r == hex_value(b),
        r matches Some(v) ==> v < 16,
{
    if 0x30 <= b && b <= 0x39 {
        Some(b - 0x30)
    } else if 0x61 <= b && b <= 0x66 {
        Some(b - 0x61 + 10)
    } else if 0x41 <= b && b <= 0x46 {
        Some(b - 0x41 + 10)
    } else {
        None
    }
}

/// Unescapes a text; a `%` that begins no escape sequence stays as it is.
pub fn unescape(s: &[u8]) -> (r: Vec<u8>)
    ensures
        r@ == unescaped(s@),
{
    let mut out: Vec<u8> = Vec::new();
    let mut i: usize = 0;
    assert(s@.skip(0) =~= s@);
    assert(out@ + unescaped(s@) =~= unescaped(s@));
    while i < s.len()
        invariant
            i <= s@.len(),
            out@ + unescaped(s@.skip(i as int)) == unescaped(s@),
        decreases s@.len() - i,
    {
        let ghost rest = s@.skip(i as int);
        let ghost before = out@;
        let b = s[i];
        let mut n: usize = 1;
        let mut byte: u8 = b;
        if b == 0x2b {
            byte = 0x20;
        } else if b == 0x25 && s.len() - i > 2 {
            match (hexval(s[i + 1]), hexval(s[i + 2])) {
                (Some(h), Some(l)) => {
                    byte = h * 16 + l;
                    n = 3;
                },
                _ => {},
            }
        }
        out.push(byte);
        proof {
            assert(rest.skip(n as int) =~= s@.skip(i + n));
            assert(out@ =~= before + seq![byte]);
            assert(unescaped(rest) == seq![byte] + unescaped(rest.skip(n as int)));
            assert(before + (seq![byte] + unescaped(rest.skip(n as int))) =~= (before + seq![byte])
                + unescaped(rest.skip(n as int)));
        }
        i += n;
    }
    assert(out@ + unescaped(s@.skip(i as int)) =~= out@);
    out
}

proof fn lemma_escaped_front(b: u8, rest: Seq<u8>)
    ensures
        unescaped(escaped_byte(b) + rest) == seq![b] + unescaped(rest),
{
    let e = escaped_byte(b);
    let s = e + rest;
    assert(s.skip(e.len() as int) =~= rest);
    if !is_plain(b) && b != 0x20 {
        let h = b as int / 16;
        let l = b as int % 16;
        assert(s[0] == 0x25 && s[1] == hex_upper(h) && s[2] == hex_upper(l));
        assert(hex_value(s[1]) == Some(h as u8));
        assert(hex_value(s[2]) == Some(l as u8));
        assert(front_escape(s) == Some(b));
    } else {
        assert(s[0] == e[0]);
    }
}

proof fn lemma_unescape_escaped(s: Seq<u8>, rest: Seq<u8>)
    ensures
        unescaped(escaped(s) + rest) == s + unescaped(rest),
    decreases s.len(),
{
    if s.len() == 0 {
        assert(escaped(s) + rest =~= rest);
        assert(s + unescaped(rest) =~= unescaped(rest));
    } else {
        let b = s.last();
        let head = s.drop_last();
        lemma_unescape_escaped(head, escaped_byte(b) + rest);
        lemma_escaped_front(b, rest);
        assert((escaped(head) + escaped_byte(b)) + rest =~= escaped(head) + (escaped_byte(b)
            + rest));
        assert(head + (seq![b] + unescaped(rest)) =~= s + unescaped(rest));
    }
}

/// Unescaping gives back the bytes that were escaped.
pub proof fn law_round_trip(s: Seq<u8>)
    ensures
        unescaped(escaped(s)) == s,
{
    lemma_unescape_escaped(s, Seq::empty());
    assert(escaped(s) + Seq::<u8>::empty() =~= escaped(s));
    assert(s + unescaped(Seq::<u8>::empty()) =~= s);
}

/// An escaped text holds plain characters, `+` and `%` only.
pub proof fn law_escaped_alphabet(s: Seq<u8>)
    ensures
        forall|i: int|
            0 <= i < escaped(s).len() ==> {
                let b = #[trigger] escaped(s)[i];
                is_plain(b) || b == 0x2b || b == 0x25
            },
    decreases s.len(),
{
    if s.len() > 0 {
        let head = escaped(s.drop_last());
        let tail = escaped_byte(s.last());
        law_escaped_alphabet(s.drop_last());
        let e = escaped(s);
        assert forall|i: int| 0 <= i < e.len() implies ({
            let b = #[trigger] e[i];
            is_plain(b) || b == 0x2b || b == 0x25
        }) by {
            if i < head.len() {
                assert(e[i] == head[i]);
            } else {
                assert(e[i] == tail[i - head.len()]);
            }
        }
    }
}

/// Every byte is escaped where it stands, and by itself: letters, digits and the
/// four marks stay, a space becomes a plus sign, and any other byte becomes a
/// percent sign and its two hexadecimal digits in upper case.
pub proof fn law_escaped_in_place(a: Seq<u8>, b: u8, c: Seq<u8>)
    ensures
        escaped(a + seq![b] + c) == escaped(a) + escaped(seq![b]) + escaped(c),
        escaped(Seq::empty()).len() == 0,
        ({
            let ch = b as char;
            let e = escaped(seq![b]);
            if ('a' <= ch <= 'z') || ('A' <= ch <= 'Z') || ('0' <= ch <= '9') || ch == '.' || ch
                == '_' || ch == '-' || ch == '~' {
                e == seq![b]
            } else if ch == ' ' {
                e.len() == 1 && e[0] as char == '+'
            } else {
                &&& e.len() == 3
                &&& e[0] as char == '%'
                &&& hex_value(e[1]) == Some((b / 16) as u8)
                &&& hex_value(e[2]) == Some((b % 16) as u8)
                &&& !('a' <= e[1] as char <= 'f') && !('a' <= e[2] as char <= 'f')
            }
        }),
    decreases c.len(),
{
    let nothing = Seq::<u8>::empty();
    assert(seq![b].drop_last() =~= nothing);
    assert(escaped(nothing) =~= nothing);
    assert(escaped(seq![b]) =~= escaped_byte(b));
    let s = a + seq![b] + c;
    if c.len() == 0 {
        assert(s.drop_last() =~= a);
        assert(escaped(a) + escaped_byte(b) + escaped(c) =~= escaped(a) + escaped_byte(b));
    } else {
        law_escaped_in_place(a, b, c.drop_last());
        assert(s.drop_last() =~= a + seq![b] + c.drop_last());
        assert(s.last() == c.last());
        assert(escaped(a) + escaped_byte(b) + escaped(c.drop_last()) + escaped_byte(c.last())
            =~= escaped(a) + escaped_byte(b) + (escaped(c.drop_last()) + escaped_byte(c.last())));
    }
}

/// Whether a byte is a hexadecimal digit of either case.
pub open spec fn is_hex(b: u8) -> bool {
    ('0' <= b as char <= '9') || ('a' <= b as char <= 'f') || ('A' <= b as char <= 'F')
}

/// A plus sign is a space, a percent sign with two hexadecimal digits of either
/// case behind it is their byte, and everything else stays, also a percent sign
/// without digits.
pub proof fn law_unescaped_front(b: u8, h: u8, l: u8, rest: Seq<u8>)
    ensures
        b as char != '+' && b as char != '%' ==> unescaped(seq![b] + rest) == seq![b] + unescaped(
            rest,
        ),
        unescaped(seq![0x2bu8] + rest) == seq![0x20u8] + unescaped(rest),
        is_hex(h) && is_hex(l) ==> unescaped(seq![0x25u8, h, l] + rest) == seq![
            (16 * hex_value(h)->0 + hex_value(l)->0) as u8,
        ] + unescaped(rest),
        rest.len() < 2 || !is_hex(rest[0]) || !is_hex(rest[1]) ==> unescaped(seq![0x25u8] + rest)
            == seq![0x25u8] + unescaped(rest),
        unescaped(Seq::empty()).len() == 0,
        is_hex(h) <==> hex_value(h) is Some,
        h as char == 'a' || h as char == 'A' ==> hex_value(h) == Some(10u8),
        h as char == 'f' || h as char == 'F' ==> hex_value(h) == Some(15u8),
        h as char == '0' ==> hex_value(h) == Some(0u8),
        is_hex(h) && is_hex(l) && h + 1 == l && h as char != '@' && h as char != '`' ==> hex_value(l)
            == Some((hex_value(h)->0 + 1) as u8),
{
    assert((seq![b] + rest).skip(1) =~= rest);
    assert((seq![0x2bu8] + rest).skip(1) =~= rest);
    assert((seq![0x25u8] + rest).skip(1) =~= rest);
    assert((seq![0x25u8, h, l] + rest).skip(3) =~= rest);
    assert(seq![0x25u8, h, l] + rest =~= seq![0x25u8] + (seq![h, l] + rest));
    if rest.len() >= 2 {
        assert((seq![0x25u8] + rest)[1] == rest[0] && (seq![0x25u8] + rest)[2] == rest[1]);
    }
}

} // verus!
