//! What holds of Base64: its alphabet, its groups and its lines, and which texts
//! are read.
use vstd::prelude::*;
use crate::native::base64::{
    encoded, lemma_symbol, sextet, sextets, strictly, symbol, unpacked, wrapped, PAD,
};

verus! {

/// The alphabet: upper-case letters, lower-case letters and digits in their
/// order, then `+` and `/`, for which `-` and `_` stand in an address.
pub proof fn law_alphabet(v: int)
    requires
        0 <= v < 64,
    ensures
        v < 26 ==> symbol(v, false) == 'A' as u8 + v,
        26 <= v < 52 ==> symbol(v, false) == 'a' as u8 + (v - 26),
        52 <= v < 62 ==> symbol(v, false) == '0' as u8 + (v - 52),
        v == 62 ==> symbol(v, false) as char == '+' && symbol(v, true) as char == '-',
        v == 63 ==> symbol(v, false) as char == '/' && symbol(v, true) as char == '_',
        v < 62 ==> symbol(v, true) == symbol(v, false),
        sextet(symbol(v, false)) == Some(v as u8),
        PAD as char == '=',
{
    lemma_symbol(v);
}

proof fn lemma_bits(a: int, b: int, c: int)
    requires
        0 <= a < 256,
        0 <= b < 256,
        0 <= c < 256,
    ensures
        ({
            let n = 0x1_0000 * a + 0x100 * b + c;
            &&& n / 0x4_0000 == a / 4
            &&& (n / 0x1000) % 64 == (a % 4) * 16 + b / 16
            &&& (n / 64) % 64 == (b % 16) * 4 + c / 64
            &&& n % 64 == c % 64
        }),
{
    let n = 0x1_0000 * a + 0x100 * b + c;
    let q = a / 4;
    let r = a % 4;
    let h = b / 16;
    let l = b % 16;
    let x = c / 64;
    let y = c % 64;
    assert(a == 4 * q + r && b == 16 * h + l && c == 64 * x + y);
    assert(n == 0x4_0000 * q + (0x1_0000 * r + 0x100 * b + c));
    assert(n / 0x4_0000 == q);
    let m = n / 0x1000;
    assert(n == 0x1000 * (16 * a + h) + (0x100 * l + c));
    assert(m == 16 * a + h);
    assert(m == 64 * q + (16 * r + h));
    assert(m % 64 == 16 * r + h);
    let k = n / 64;
    assert(n == 64 * (1024 * a + 4 * b + x) + y);
    assert(k == 1024 * a + 4 * b + x);
    assert(k == 64 * (16 * a + h) + (4 * l + x));
    assert(k % 64 == 4 * l + x);
    assert(n % 64 == y);
}

/// Three bytes are twenty-four bits and so are the four characters that stand
/// for them.
pub proof fn law_whole_group(a: u8, b: u8, c: u8, rest: Seq<u8>, url: bool)
    ensures
        ({
            let n = 0x1_0000 * a + 0x100 * b + c;
            encoded(seq![a, b, c] + rest, url) == seq![
                symbol(n / 0x4_0000, url),
                symbol((n / 0x1000) % 64, url),
                symbol((n / 64) % 64, url),
                symbol(n % 64, url),
            ] + encoded(rest, url)
        }),
        encoded(Seq::empty(), url).len() == 0,
{
    let s = seq![a, b, c] + rest;
    assert(s.skip(3) =~= rest);
    assert(s[0] == a && s[1] == b && s[2] == c);
    lemma_bits(a as int, b as int, c as int);
}

/// Of one byte or two at the end the missing bits are zero, and padding fills
/// the group up.
pub proof fn law_last_group(a: u8, b: u8, url: bool)
    ensures
        ({
            let n = 0x1_0000 * a + 0x100 * b;
            encoded(seq![a, b], url) == seq![
                symbol(n / 0x4_0000, url),
                symbol((n / 0x1000) % 64, url),
                symbol((n / 64) % 64, url),
                PAD,
            ]
        }),
        ({
            let n = 0x1_0000 * a;
            encoded(seq![a], url) == seq![
                symbol(n / 0x4_0000, url),
                symbol((n / 0x1000) % 64, url),
                PAD,
                PAD,
            ]
        }),
{
    lemma_bits(a as int, b as int, 0);
    lemma_bits(a as int, 0, 0);
}

proof fn lemma_wrapped_len(raw: Seq<u8>)
    ensures
        wrapped(raw).len() == raw.len() + (raw.len() + 59) / 60,
    decreases raw.len(),
{
    if raw.len() > 60 {
        lemma_wrapped_len(raw.skip(60));
    }
}

proof fn lemma_wrapped_at(raw: Seq<u8>, i: int)
    requires
        0 <= i < wrapped(raw).len(),
    ensures
        wrapped(raw)[i] == (if i % 61 == 60 || i == wrapped(raw).len() - 1 {
            0x0au8
        } else {
            raw[i - i / 61]
        }),
    decreases raw.len(),
{
    let w = wrapped(raw);
    lemma_wrapped_len(raw);
    if raw.len() > 60 {
        let rest = raw.skip(60);
        let t = wrapped(rest);
        lemma_wrapped_len(rest);
        let first = raw.take(60).push(0x0a);
        assert(w == first + t);
        if i < 61 {
            assert(w[i] == first[i]);
            assert(i / 61 == 0 && i % 61 == i);
        } else {
            let j = i - 61;
            assert(w[i] == t[j]);
            assert(j % 61 == i % 61 && j / 61 == i / 61 - 1);
            lemma_wrapped_at(rest, j);
            if !(j % 61 == 60 || j == t.len() - 1) {
                let p = j - j / 61;
                assert(0 <= p < rest.len()) by {
                    lemma_place(j, rest.len() as int);
                }
                assert(rest[p] == raw[60 + p]);
            }
        }
    } else {
        assert(i <= 60);
        assert(i / 61 == 0 && i % 61 == i);
    }
}

proof fn lemma_place(j: int, len: int)
    requires
        0 <= j,
        j < len + (len + 59) / 60 - 1,
        j % 61 != 60,
    ensures
        0 <= j - j / 61 < len,
{
    let q = j / 61;
    let r = j % 61;
    assert(j == 61 * q + r);
    assert(j - q == 60 * q + r);
    if 60 * q + r >= len {
        let k = (len + 59) / 60;
        assert(k <= q + 1) by {
            assert(len + 59 <= 60 * q + r + 59);
            assert(r <= 59);
            assert(len + 59 < 60 * (q + 2));
        }
        assert(j >= len + q);
        assert(j >= len + k - 1);
    }
}

/// A text in lines holds the same characters in the same order: sixty on every
/// line but the last, which is not empty, and a line feed behind every line.
pub proof fn law_lines_of_sixty(raw: Seq<u8>)
    ensures
        wrapped(raw).len() == raw.len() + (raw.len() + 59) / 60,
        forall|i: int|
            0 <= i < wrapped(raw).len() ==> #[trigger] wrapped(raw)[i] == (if i % 61 == 60 || i
                == wrapped(raw).len() - 1 {
                0x0au8
            } else {
                raw[i - i / 61]
            }),
{
    lemma_wrapped_len(raw);
    assert forall|i: int| 0 <= i < wrapped(raw).len() implies #[trigger] wrapped(raw)[i] == (if i
        % 61 == 60 || i == wrapped(raw).len() - 1 {
        0x0au8
    } else {
        raw[i - i / 61]
    }) by {
        lemma_wrapped_at(raw, i);
    }
}

/// Reading leniently, a character outside the alphabet counts for nothing,
/// wherever it stands, and nothing behind a padding counts.
pub proof fn law_lenient_reading(a: Seq<u8>, c: u8, b: Seq<u8>)
    requires
        forall|i: int| 0 <= i < a.len() ==> #[trigger] a[i] != PAD,
    ensures
        sextet(c) is None && c != PAD ==> sextets(a + seq![c] + b) == sextets(a + b),
        sextets(a + seq![PAD] + b) == sextets(a),
    decreases a.len(),
{
    if a.len() == 0 {
        assert(a + seq![c] + b =~= seq![c] + b);
        assert((seq![c] + b).skip(1) =~= b);
        assert(a + b =~= b);
        assert((a + seq![PAD] + b)[0] == PAD);
        assert(sextets(a) =~= Seq::<u8>::empty());
    } else {
        let rest = a.skip(1);
        assert forall|i: int| 0 <= i < rest.len() implies #[trigger] rest[i] != PAD by {
            assert(rest[i] == a[i + 1]);
        }
        law_lenient_reading(rest, c, b);
        assert(a[0] != PAD);
        assert((a + seq![c] + b).skip(1) =~= rest + seq![c] + b);
        assert((a + seq![PAD] + b).skip(1) =~= rest + seq![PAD] + b);
        assert((a + b).skip(1) =~= rest + b);
    }
}

proof fn lemma_value_bits(v0: int, v1: int, v2: int, v3: int)
    requires
        0 <= v0 < 64,
        0 <= v1 < 64,
        0 <= v2 < 64,
        0 <= v3 < 64,
    ensures
        ({
            let n = 0x4_0000 * v0 + 0x1000 * v1 + 64 * v2 + v3;
            &&& n / 0x1_0000 == v0 * 4 + v1 / 16
            &&& (n / 0x100) % 0x100 == (v1 % 16) * 16 + v2 / 4
            &&& n % 0x100 == (v2 % 4) * 64 + v3
        }),
{
    let n = 0x4_0000 * v0 + 0x1000 * v1 + 64 * v2 + v3;
    let h = v1 / 16;
    let l = v1 % 16;
    let x = v2 / 4;
    let y = v2 % 4;
    assert(v1 == 16 * h + l && v2 == 4 * x + y);
    assert(n == 0x1_0000 * (4 * v0 + h) + (0x1000 * l + 64 * v2 + v3));
    assert(n / 0x1_0000 == 4 * v0 + h);
    let m = n / 0x100;
    assert(n == 0x100 * (0x400 * v0 + 16 * v1 + x) + (64 * y + v3));
    assert(m == 0x400 * v0 + 16 * v1 + x);
    assert(m == 0x100 * (4 * v0 + h) + (16 * l + x));
    assert(m % 0x100 == 16 * l + x);
    assert(n % 0x100 == 64 * y + v3);
}

/// Four values of six bits are three bytes; of a last group two values make one
/// byte and three make two, and a single one makes none.
pub proof fn law_values_to_bytes(v0: u8, v1: u8, v2: u8, v3: u8, rest: Seq<u8>)
    requires
        v0 < 64 && v1 < 64 && v2 < 64 && v3 < 64,
    ensures
        ({
            let n = 0x4_0000 * v0 + 0x1000 * v1 + 64 * v2 + v3;
            unpacked(seq![v0, v1, v2, v3] + rest) == seq![
                (n / 0x1_0000) as u8,
                ((n / 0x100) % 0x100) as u8,
                (n % 0x100) as u8,
            ] + unpacked(rest)
        }),
        ({
            let n = 0x4_0000 * v0 + 0x1000 * v1 + 64 * v2;
            unpacked(seq![v0, v1, v2]) == seq![(n / 0x1_0000) as u8, ((n / 0x100) % 0x100) as u8]
        }),
        unpacked(seq![v0, v1]) == seq![((0x4_0000 * v0 + 0x1000 * v1) / 0x1_0000) as u8],
        unpacked(seq![v0]).len() == 0,
        unpacked(Seq::empty()).len() == 0,
{
    let s = seq![v0, v1, v2, v3] + rest;
    assert(s.skip(4) =~= rest);
    assert(s[0] == v0 && s[1] == v1 && s[2] == v2 && s[3] == v3);
    lemma_value_bits(v0 as int, v1 as int, v2 as int, v3 as int);
    lemma_value_bits(v0 as int, v1 as int, v2 as int, 0);
    lemma_value_bits(v0 as int, v1 as int, 0, 0);
}

/// Read strictly, a text is groups of four characters of the alphabet, and only
/// its last two places may hold padding, the last one first; any other text is
/// refused.
pub proof fn law_strict_form(s: Seq<u8>)
    ensures
        strictly(s) is Some <==> {
            &&& s.len() % 4 == 0
            &&& forall|i: int| 0 <= i < s.len() - 2 ==> sextet(#[trigger] s[i]) is Some
            &&& s.len() > 0 ==> {
                ||| sextet(s[s.len() - 2]) is Some && sextet(s[s.len() - 1]) is Some
                ||| sextet(s[s.len() - 2]) is Some && s[s.len() - 1] == PAD
                ||| s[s.len() - 2] == PAD && s[s.len() - 1] == PAD
            }
        },
    decreases s.len(),
{
    assert(sextet(PAD) is None);
    if s.len() >= 4 {
        let rest = s.skip(4);
        law_strict_form(rest);
        if rest.len() >= 2 {
            assert(rest[rest.len() - 2] == s[s.len() - 2]);
            assert(rest[rest.len() - 1] == s[s.len() - 1]);
        }
        if strictly(s) is Some {
            assert forall|i: int| 0 <= i < s.len() - 2 implies sextet(#[trigger] s[i]) is Some by {
                if i >= 4 {
                    assert(s[i] == rest[i - 4]);
                    assert(sextet(rest[i - 4]) is Some);
                }
            }
        }
        if s.len() % 4 == 0 && (forall|i: int|
            0 <= i < s.len() - 2 ==> sextet(#[trigger] s[i]) is Some) {
            assert(sextet(s[0]) is Some && sextet(s[1]) is Some);
            if s.len() > 4 {
                assert(s.len() >= 8);
                assert(sextet(s[2]) is Some && sextet(s[3]) is Some);
                assert forall|i: int| 0 <= i < rest.len() - 2 implies sextet(
                    #[trigger] rest[i],
                ) is Some by {
                    assert(rest[i] == s[i + 4]);
                }
            }
        }
    } else if s.len() > 0 {
        assert(s.len() % 4 != 0);
    }
}

} // verus!
