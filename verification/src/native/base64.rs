//! Base64 with the behaviour of Ruby's `base64` library.
use vstd::prelude::*;

verus! {

/// The padding character.
pub const PAD: u8 = 0x3d;

/// The character of six bits: letters, digits and two more characters, which
/// are `+` and `/`, or `-` and `_` in the alphabet for URLs.
pub open spec fn symbol(v: int, url: bool) -> u8 {
    if v < 26 {
        (0x41 + v) as u8
    } else if v < 52 {
        (0x61 + v - 26) as u8
    } else if v < 62 {
        (0x30 + v - 52) as u8
    } else if v == 62 {
        if url {
            0x2d
        } else {
            0x2b
        }
    } else {
        if url {
            0x5f
        } else {
            0x2f
        }
    }
}

/// The six bits that a character stands for in the standard alphabet.
pub open spec fn sextet(b: u8) -> Option<u8> {
    if 0x41 <= b <= 0x5a {
        Some((b - 0x41) as u8)
    } else if 0x61 <= b <= 0x7a {
        Some((b - 0x61 + 26) as u8)
    } else if 0x30 <= b <= 0x39 {
        Some((b - 0x30 + 52) as u8)
    } else if b == 0x2b {
        Some(62)
    } else if b == 0x2f {
        Some(63)
    } else {
        None
    }
}

/// A character of the standard alphabet stands for the six bits that it was
/// made from, and is not the padding.
pub proof fn lemma_symbol(v: int)
    requires
        0 <= v < 64,
    ensures
        sextet(symbol(v, false)) == Some(v as u8),
        symbol(v, false) != PAD,
        symbol(v, true) != PAD,
        symbol(v, false) < 0x80,
{
}

/// Six bits for every group of bytes: three bytes make four characters, and
/// padding fills the last group up.
pub open spec fn encoded(data: Seq<u8>, url: bool) -> Seq<u8>
    decreases data.len(),
{
    if data.len() == 0 {
        Seq::empty()
    } else {
        let b0 = data[0] as int;
        if data.len() == 1 {
            seq![symbol(b0 / 4, url), symbol((b0 % 4) * 16, url), PAD, PAD]
        } else {
            let b1 = data[1] as int;
            if data.len() == 2 {
                seq![
                    symbol(b0 / 4, url),
                    symbol((b0 % 4) * 16 + b1 / 16, url),
                    symbol((b1 % 16) * 4, url),
                    PAD,
                ]
            } else {
                let b2 = data[2] as int;
                seq![
                    symbol(b0 / 4, url),
                    symbol((b0 % 4) * 16 + b1 / 16, url),
                    symbol((b1 % 16) * 4 + b2 / 64, url),
                    symbol(b2 % 64, url),
                ] + encoded(data.skip(3), url)
            }
        }
    }
}

/// A text in lines of sixty characters, each with a line feed at its end.
pub open spec fn wrapped(raw: Seq<u8>) -> Seq<u8>
    decreases raw.len(),
{
    if raw.len() == 0 {
        Seq::empty()
    } else if raw.len() <= 60 {
        raw.push(0x0a)
    } else {
        raw.take(60).push(0x0a) + wrapped(raw.skip(60))
    }
}

/// A text without the padding at its end.
pub open spec fn unpadded(s: Seq<u8>) -> Seq<u8>
    decreases s.len(),
{
    if s.len() > 0 && s.last() == PAD {
        unpadded(s.drop_last())
    } else {
        s
    }
}

/// The six-bit values of a text up to its first padding; characters outside
/// the alphabet do not count.
pub open spec fn sextets(s: Seq<u8>) -> Seq<u8>
    decreases s.len(),
{
    if s.len() == 0 || s[0] == PAD {
        Seq::empty()
    } else {
        match sextet(s[0]) {
            Some(v) => seq![v] + sextets(s.skip(1)),
            None => sextets(s.skip(1)),
        }
    }
}

/// The first byte of a group of six-bit values.
pub open spec fn byte0(v0: u8, v1: u8) -> u8 {
    (v0 * 4 + v1 / 16) as u8
}

/// The second byte of a group.
pub open spec fn byte1(v1: u8, v2: u8) -> u8 {
    ((v1 % 16) * 16 + v2 / 4) as u8
}

/// The third byte of a group.
pub open spec fn byte2(v2: u8, v3: u8) -> u8 {
    ((v2 % 4) * 64 + v3) as u8
}

/// The bytes of six-bit values: four values make three bytes, of a last group
/// three values make two bytes and two make one.
pub open spec fn unpacked(q: Seq<u8>) -> Seq<u8>
    decreases q.len(),
{
    if q.len() < 2 {
        Seq::empty()
    } else if q.len() == 2 {
        seq![byte0(q[0], q[1])]
    } else if q.len() == 3 {
        seq![byte0(q[0], q[1]), byte1(q[1], q[2])]
    } else {
        seq![byte0(q[0], q[1]), byte1(q[1], q[2]), byte2(q[2], q[3])] + unpacked(q.skip(4))
    }
}

/// The bytes that a text means strictly: groups of four characters of the
/// alphabet, where the last group may end with one or two paddings.
pub open spec fn strictly(s: Seq<u8>) -> Option<Seq<u8>>
    decreases s.len(),
{
    if s.len() == 0 {
        Some(Seq::empty())
    } else if s.len() < 4 {
        None
    } else {
        match (sextet(s[0]), sextet(s[1])) {
            (Some(v0), Some(v1)) => match (sextet(s[2]), sextet(s[3])) {
                (Some(v2), Some(v3)) => match strictly(s.skip(4)) {
                    Some(rest) => Some(
                        seq![byte0(v0, v1), byte1(v1, v2), byte2(v2, v3)] + rest,
                    ),
                    None => None,
                },
                (Some(v2), None) => if s.len() == 4 && s[3] == PAD {
                    Some(seq![byte0(v0, v1), byte1(v1, v2)])
                } else {
                    None
                },
                _ => if s.len() == 4 && s[2] == PAD && s[3] == PAD {
                    Some(seq![byte0(v0, v1)])
                } else {
                    None
                },
            },
            _ => None,
        }
    }
}

/// A text in the URL alphabet, in the standard one.
pub open spec fn standard(s: Seq<u8>) -> Seq<u8> {
    s.map_values(
        |b: u8|
            if b == 0x2d {
                0x2bu8
            } else if b == 0x5f {
                0x2fu8
            } else {
                b
            },
    )
}

/// A text filled up with padding to a multiple of four, where it has no
/// padding at its end already.
pub open spec fn completed(s: Seq<u8>) -> Seq<u8> {
    if (s.len() == 0 || s.last() != PAD) && s.len() % 4 != 0 {
        s + Seq::new((4 - s.len() % 4) as nat, |i: int| PAD)
    } else {
        s
    }
}

fn symbol_of(v: u8, url: bool) -> (r: u8)
    requires
        v < 64,
    ensures
        r == symbol(v as int, url),
{
    if v < 26 {
        0x41 + v
    } else if v < 52 {
        0x61 + (v - 26)
    } else if v < 62 {
        0x30 + (v - 52)
    } else if v == 62 {
        if url {
            0x2d
        } else {
            0x2b
        }
    } else {
        if url {
            0x5f
        } else {
            0x2f
        }
    }
}

/// The six bits that a character stands for, if it is one of the alphabet.
pub fn sextet_of(b: u8) -> (r: Option<u8>)
    ensures
        r == sextet(b),
        r matches Some(v) ==> v < 64,
{
    if 0x41 <= b && b <= 0x5a {
        Some(b - 0x41)
    } else if 0x61 <= b && b <= 0x7a {
        Some(b - 0x61 + 26)
    } else if 0x30 <= b && b <= 0x39 {
        Some(b - 0x30 + 52)
    } else if b == 0x2b {
        Some(62)
    } else if b == 0x2f {
        Some(63)
    } else {
        None
    }
}

/// Encodes bytes in one of the two alphabets, with padding.
pub fn encode_raw(data: &[u8], url: bool) -> (r: Vec<u8>)
    ensures
        r@ == encoded(data@, url),
{
    let mut out: Vec<u8> = Vec::new();
    let mut i: usize = 0;
    assert(data@.skip(0) =~= data@);
    while data.len() - i >= 3
        invariant
            i <= data@.len(),
            out@ + encoded(data@.skip(i as int), url) == encoded(data@, url),
        decreases data@.len() - i,
    {
        let ghost rest = data@.skip(i as int);
        let ghost before = out@;
        let b0 = data[i];
        let b1 = data[i + 1];
        let b2 = data[i + 2];
        out.push(symbol_of(b0 / 4, url));
        out.push(symbol_of((b0 % 4) * 16 + b1 / 16, url));
        out.push(symbol_of((b1 % 16) * 4 + b2 / 64, url));
        out.push(symbol_of(b2 % 64, url));
        proof {
            let group = out@.skip(before.len() as int);
            assert(out@ =~= before + group);
            assert(rest.skip(3) =~= data@.skip(i + 3));
            assert(group =~= encoded(rest, url).take(4));
            assert(encoded(rest, url) =~= group + encoded(rest.skip(3), url));
            assert(before + (group + encoded(rest.skip(3), url)) =~= (before + group) + encoded(
                rest.skip(3),
                url,
            ));
        }
        i += 3;
    }
    let ghost rest = data@.skip(i as int);
    let ghost before = out@;
    if data.len() - i == 1 {
        let b0 = data[i];
        out.push(symbol_of(b0 / 4, url));
        out.push(symbol_of((b0 % 4) * 16, url));
        out.push(PAD);
        out.push(PAD);
    } else if data.len() - i == 2 {
        let b0 = data[i];
        let b1 = data[i + 1];
        out.push(symbol_of(b0 / 4, url));
        out.push(symbol_of((b0 % 4) * 16 + b1 / 16, url));
        out.push(symbol_of((b1 % 16) * 4, url));
        out.push(PAD);
    }
    assert(out@ =~= before + encoded(rest, url));
    out
}

/// Base64 with padding and without line feeds.
pub fn strict_encode64(data: &[u8]) -> (r: Vec<u8>)
    ensures
        r@ == encoded(data@, false),
{
    encode_raw(data, false)
}

/// Base64 in lines of sixty characters; nothing for no bytes.
pub fn encode64(data: &[u8]) -> (r: Vec<u8>)
    ensures
        r@ == wrapped(encoded(data@, false)),
{
    let raw = encode_raw(data, false);
    let mut out: Vec<u8> = Vec::new();
    let mut i: usize = 0;
    assert(raw@.skip(0) =~= raw@);
    while i < raw.len()
        invariant
            i <= raw@.len(),
            out@ + wrapped(raw@.skip(i as int)) == wrapped(raw@),
        decreases raw@.len() - i,
    {
        let ghost rest = raw@.skip(i as int);
        let ghost before = out@;
        let n: usize = if raw.len() - i <= 60 {
            raw.len() - i
        } else {
            60
        };
        let mut j: usize = 0;
        while j < n
            invariant
                j <= n,
                i + n <= raw@.len(),
                rest == raw@.skip(i as int),
                out@ == before + rest.take(j as int),
            decreases n - j,
        {
            assert(i + j < raw.len());
            out.push(raw[i + j]);
            j += 1;
            assert(out@ =~= before + rest.take(j as int));
        }
        out.push(0x0a);
        proof {
            let line = rest.take(n as int).push(0x0a);
            assert(out@ =~= before + line);
            assert(rest.skip(n as int) =~= raw@.skip(i + n));
            if rest.len() <= 60 {
                assert(rest.take(n as int) =~= rest);
                assert(wrapped(rest.skip(n as int)) =~= Seq::<u8>::empty());
            }
            assert(wrapped(rest) =~= line + wrapped(rest.skip(n as int)));
            assert(before + (line + wrapped(rest.skip(n as int))) =~= (before + line) + wrapped(
                rest.skip(n as int),
            ));
        }
        i += n;
    }
    assert(out@ + wrapped(raw@.skip(i as int)) =~= out@);
    out
}

/// Base64 in the URL alphabet, with or without the padding at its end.
pub fn urlsafe_encode64(data: &[u8], padding: bool) -> (r: Vec<u8>)
    ensures
        r@ == (if padding {
            encoded(data@, true)
        } else {
            unpadded(encoded(data@, true))
        }),
{
    let mut out = encode_raw(data, true);
    let ghost whole = out@;
    if !padding {
        while out.len() > 0 && out[out.len() - 1] == PAD
            invariant
                unpadded(out@) == unpadded(whole),
            decreases out@.len(),
        {
            let ghost before = out@;
            out.pop();
            assert(out@ =~= before.drop_last());
        }
    }
    out
}

/// Decodes leniently: characters outside the alphabet are passed over, and
/// everything from the first padding on is ignored.
pub fn decode64(s: &[u8]) -> (r: Vec<u8>)
    ensures
        r@ == unpacked(sextets(s@)),
{
    let mut out: Vec<u8> = Vec::new();
    let mut quad: Vec<u8> = Vec::new();
    let mut i: usize = 0;
    let ghost whole = unpacked(sextets(s@));
    assert(s@.skip(0) =~= s@);
    assert(quad@ + sextets(s@) =~= sextets(s@));
    assert(out@ + whole =~= whole);
    while i < s.len() && s[i] != PAD
        invariant
            i <= s@.len(),
            quad@.len() < 4,
            forall|j: int| 0 <= j < quad@.len() ==> quad@[j] < 64,
            out@ + unpacked(quad@ + sextets(s@.skip(i as int))) == whole,
        decreases s@.len() - i,
    {
        let ghost rest = s@.skip(i as int);
        let ghost q = quad@;
        assert(rest.skip(1) =~= s@.skip(i + 1));
        match sextet_of(s[i]) {
            Some(v) => {
                quad.push(v);
                proof {
                    let tail = sextets(rest.skip(1));
                    assert(q + (seq![v] + tail) =~= quad@ + tail);
                }
                if quad.len() == 4 {
                    let ghost before = out@;
                    out.push(quad[0] * 4 + quad[1] / 16);
                    out.push((quad[1] % 16) * 16 + quad[2] / 4);
                    out.push((quad[2] % 4) * 64 + quad[3]);
                    proof {
                        let tail = sextets(rest.skip(1));
                        let all = quad@ + tail;
                        let group = seq![
                            byte0(quad@[0], quad@[1]),
                            byte1(quad@[1], quad@[2]),
                            byte2(quad@[2], quad@[3]),
                        ];
                        assert(out@ =~= before + group);
                        assert(all.skip(4) =~= tail);
                        assert(unpacked(all) =~= group + unpacked(tail));
                        assert(before + (group + unpacked(tail)) =~= (before + group) + unpacked(
                            tail,
                        ));
                        assert(Seq::<u8>::empty() + tail =~= tail);
                    }
                    quad = Vec::new();
                }
            },
            None => {},
        }
        i += 1;
    }
    assert(sextets(s@.skip(i as int)) =~= Seq::<u8>::empty());
    assert(quad@ + Seq::<u8>::empty() =~= quad@);
    let ghost before = out@;
    if quad.len() == 3 {
        out.push(quad[0] * 4 + quad[1] / 16);
        out.push((quad[1] % 16) * 16 + quad[2] / 4);
    } else if quad.len() == 2 {
        out.push(quad[0] * 4 + quad[1] / 16);
    }
    assert(out@ =~= before + unpacked(quad@));
    out
}

/// Decodes strictly; everything else is an error.
pub fn strict_decode64(s: &[u8]) -> (r: Result<Vec<u8>, ()>)
    ensures
        match r {
            Ok(out) => strictly(s@) == Some(out@),
            Err(_) => strictly(s@) is None,
        },
{
    let mut out: Vec<u8> = Vec::new();
    let mut i: usize = 0;
    assert(s@.skip(0) =~= s@);
    while i < s.len()
        invariant
            i <= s@.len(),
            match strictly(s@.skip(i as int)) {
                Some(rest) => strictly(s@) == Some(out@ + rest),
                None => strictly(s@) is None,
            },
        decreases s@.len() - i,
    {
        let ghost rest = s@.skip(i as int);
        let left: usize = s.len() - i;
        if left < 4 {
            return Err(());
        }
        assert(rest.skip(4) =~= s@.skip(i + 4));
        let ghost before = out@;
        let v0 = match sextet_of(s[i]) {
            Some(v) => v,
            None => {
                return Err(());
            },
        };
        let v1 = match sextet_of(s[i + 1]) {
            Some(v) => v,
            None => {
                return Err(());
            },
        };
        out.push(v0 * 4 + v1 / 16);
        match sextet_of(s[i + 2]) {
            Some(v2) => {
                out.push((v1 % 16) * 16 + v2 / 4);
                match sextet_of(s[i + 3]) {
                    Some(v3) => {
                        out.push((v2 % 4) * 64 + v3);
                        proof {
                            let group = seq![byte0(v0, v1), byte1(v1, v2), byte2(v2, v3)];
                            assert(out@ =~= before + group);
                            match strictly(rest.skip(4)) {
                                Some(t) => {
                                    assert(before + (group + t) =~= (before + group) + t);
                                },
                                None => {},
                            }
                        }
                    },
                    None => {
                        if left == 4 && s[i + 3] == PAD {
                            assert(out@ =~= before + seq![byte0(v0, v1), byte1(v1, v2)]);
                            return Ok(out);
                        }
                        return Err(());
                    },
                }
            },
            None => {
                if left == 4 && s[i + 2] == PAD && s[i + 3] == PAD {
                    assert(out@ =~= before + seq![byte0(v0, v1)]);
                    return Ok(out);
                }
                return Err(());
            },
        }
        i += 4;
    }
    assert(out@ + Seq::<u8>::empty() =~= out@);
    Ok(out)
}

/// Decodes the URL alphabet strictly; padding at the end may be missing.
pub fn urlsafe_decode64(s: &[u8]) -> (r: Result<Vec<u8>, ()>)
    ensures
        match r {
            Ok(out) => strictly(completed(standard(s@))) == Some(out@),
            Err(_) => strictly(completed(standard(s@))) is None,
        },
{
    let mut t: Vec<u8> = Vec::new();
    let mut i: usize = 0;
    while i < s.len()
        invariant
            i <= s@.len(),
            t@ == standard(s@.take(i as int)),
        decreases s@.len() - i,
    {
        let b = s[i];
        t.push(
            if b == 0x2d {
                0x2b
            } else if b == 0x5f {
                0x2f
            } else {
                b
            },
        );
        i += 1;
        assert(t@ =~= standard(s@.take(i as int)));
    }
    assert(s@.take(i as int) =~= s@);
    let n: usize = t.len();
    if (n == 0 || t[n - 1] != PAD) && n % 4 != 0 {
        let missing: usize = 4 - n % 4;
        let ghost head = t@;
        let mut j: usize = 0;
        while j < missing
            invariant
                j <= missing,
                t@ == head + Seq::new(j as nat, |i: int| PAD),
            decreases missing - j,
        {
            t.push(PAD);
            j += 1;
            assert(t@ =~= head + Seq::new(j as nat, |i: int| PAD));
        }
    }
    assert(t@ =~= completed(standard(s@)));
    strict_decode64(t.as_slice())
}

/// Strict decoding gives back the bytes that strict encoding was given.
pub proof fn law_strict_round_trip(data: Seq<u8>)
    ensures
        strictly(encoded(data, false)) == Some(data),
    decreases data.len(),
{
    let e = encoded(data, false);
    if data.len() == 0 {
        assert(data =~= Seq::<u8>::empty());
    } else {
        lemma_group(data);
        if data.len() >= 3 {
            law_strict_round_trip(data.skip(3));
            assert(e.skip(4) =~= encoded(data.skip(3), false));
            assert(seq![data[0], data[1], data[2]] + data.skip(3) =~= data);
        } else if data.len() == 2 {
            assert(seq![data[0], data[1]] =~= data);
        } else {
            assert(seq![data[0]] =~= data);
        }
    }
}

/// The values of the first group of an encoding.
pub proof fn lemma_group(data: Seq<u8>)
    requires
        data.len() > 0,
    ensures
        ({
            let b0 = data[0] as int;
            let b1 = if data.len() > 1 {
                data[1] as int
            } else {
                0
            };
            let b2 = if data.len() > 2 {
                data[2] as int
            } else {
                0
            };
            let e = encoded(data, false);
            let v0 = (b0 / 4) as u8;
            let v1 = ((b0 % 4) * 16 + b1 / 16) as u8;
            let v2 = ((b1 % 16) * 4 + b2 / 64) as u8;
            let v3 = (b2 % 64) as u8;
            &&& e.len() >= 4
            &&& sextet(e[0]) == Some(v0)
            &&& sextet(e[1]) == Some(v1)
            &&& data.len() > 1 ==> sextet(e[2]) == Some(v2)
            &&& data.len() > 2 ==> sextet(e[3]) == Some(v3)
            &&& byte0(v0, v1) == data[0]
            &&& data.len() > 1 ==> byte1(v1, v2) == data[1]
            &&& data.len() > 2 ==> byte2(v2, v3) == data[2]
            &&& e[0] != PAD && e[1] != PAD
            &&& data.len() > 1 ==> e[2] != PAD
            &&& data.len() > 2 ==> e[3] != PAD
        }),
{
    let b0 = data[0] as int;
    let b1 = if data.len() > 1 {
        data[1] as int
    } else {
        0
    };
    let b2 = if data.len() > 2 {
        data[2] as int
    } else {
        0
    };
    lemma_symbol(b0 / 4);
    lemma_symbol((b0 % 4) * 16 + b1 / 16);
    lemma_symbol((b1 % 16) * 4 + b2 / 64);
    lemma_symbol(b2 % 64);
}

/// Lenient decoding gives back the bytes that strict encoding was given.
pub proof fn law_lenient_round_trip(data: Seq<u8>)
    ensures
        unpacked(sextets(encoded(data, false))) == data,
    decreases data.len(),
{
    let e = encoded(data, false);
    reveal_with_fuel(sextets, 5);
    if data.len() == 0 {
        assert(sextets(e) =~= Seq::<u8>::empty());
        assert(data =~= Seq::<u8>::empty());
    } else {
        lemma_group(data);
        assert(e.skip(1)[0] == e[1]);
        assert(e.skip(1).skip(1) =~= e.skip(2));
        assert(e.skip(2)[0] == e[2]);
        assert(e.skip(2).skip(1) =~= e.skip(3));
        assert(e.skip(3)[0] == e[3]);
        assert(e.skip(3).skip(1) =~= e.skip(4));
        let q = sextets(e);
        if data.len() >= 3 {
            law_lenient_round_trip(data.skip(3));
            assert(e.skip(4) =~= encoded(data.skip(3), false));
            let tail = sextets(e.skip(4));
            assert(q =~= seq![
                sextet(e[0])->0,
                sextet(e[1])->0,
                sextet(e[2])->0,
                sextet(e[3])->0,
            ] + tail);
            assert(q.skip(4) =~= tail);
            assert(unpacked(q) =~= seq![data[0], data[1], data[2]] + data.skip(3));
            assert(seq![data[0], data[1], data[2]] + data.skip(3) =~= data);
        } else if data.len() == 2 {
            assert(q =~= seq![sextet(e[0])->0, sextet(e[1])->0, sextet(e[2])->0]);
            assert(unpacked(q) =~= data);
        } else {
            assert(q =~= seq![sextet(e[0])->0, sextet(e[1])->0]);
            assert(unpacked(q) =~= data);
        }
    }
}

spec fn has_pad(s: Seq<u8>) -> bool {
    exists|i: int| 0 <= i < s.len() && s[i] == PAD
}

proof fn lemma_sextets_concat(a: Seq<u8>, b: Seq<u8>)
    ensures
        sextets(a + b) == (if has_pad(a) {
            sextets(a)
        } else {
            sextets(a) + sextets(b)
        }),
    decreases a.len(),
{
    if a.len() == 0 {
        assert(a + b =~= b);
        assert(sextets(a) + sextets(b) =~= sextets(b));
    } else {
        let s = a + b;
        assert(s[0] == a[0]);
        assert(s.skip(1) =~= a.skip(1) + b);
        if a[0] == PAD {
            assert(has_pad(a));
        } else {
            lemma_sextets_concat(a.skip(1), b);
            if has_pad(a) {
                let i = choose|i: int| 0 <= i < a.len() && a[i] == PAD;
                assert(a.skip(1)[i - 1] == PAD);
            }
            if has_pad(a.skip(1)) {
                let i = choose|i: int| 0 <= i < a.skip(1).len() && a.skip(1)[i] == PAD;
                assert(a[i + 1] == PAD);
            }
            match sextet(a[0]) {
                Some(v) => {
                    assert(seq![v] + (sextets(a.skip(1)) + sextets(b)) =~= (seq![v] + sextets(
                        a.skip(1),
                    )) + sextets(b));
                },
                None => {},
            }
        }
    }
}

/// The padding of an encoding stands in its last two characters.
proof fn lemma_padding_last(data: Seq<u8>, url: bool)
    ensures
        encoded(data, url).len() % 4 == 0,
        forall|i: int|
            0 <= i < encoded(data, url).len() - 2 ==> #[trigger] encoded(data, url)[i] != PAD,
    decreases data.len(),
{
    if data.len() >= 3 {
        let rest = encoded(data.skip(3), url);
        lemma_padding_last(data.skip(3), url);
        let e = encoded(data, url);
        assert forall|i: int| 0 <= i < e.len() - 2 implies #[trigger] e[i] != PAD by {
            if i >= 4 {
                assert(e[i] == rest[i - 4]);
            } else {
                lemma_symbol(data[0] as int / 4);
                lemma_symbol((data[0] as int % 4) * 16 + data[1] as int / 16);
                lemma_symbol((data[1] as int % 16) * 4 + data[2] as int / 64);
                lemma_symbol(data[2] as int % 64);
            }
        }
    }
}

proof fn lemma_sextets_wrapped(raw: Seq<u8>)
    requires
        raw.len() % 4 == 0,
        forall|i: int| 0 <= i < raw.len() - 2 ==> #[trigger] raw[i] != PAD,
    ensures
        sextets(wrapped(raw)) == sextets(raw),
    decreases raw.len(),
{
    let feed = seq![0x0au8];
    assert(sextets(feed) =~= Seq::<u8>::empty()) by {
        assert(feed.skip(1) =~= Seq::<u8>::empty());
        assert(sextets(feed.skip(1)) =~= Seq::<u8>::empty());
    }
    if raw.len() == 0 {
        assert(raw =~= Seq::<u8>::empty());
    } else if raw.len() <= 60 {
        assert(raw.push(0x0a) =~= raw + feed);
        lemma_sextets_concat(raw, feed);
        assert(sextets(raw) + sextets(feed) =~= sextets(raw));
    } else {
        let head = raw.take(60);
        let tail = raw.skip(60);
        assert forall|i: int| 0 <= i < tail.len() - 2 implies #[trigger] tail[i] != PAD by {
            assert(tail[i] == raw[i + 60]);
        }
        lemma_sextets_wrapped(tail);
        assert(head.push(0x0a) =~= head + feed);
        assert(!has_pad(head));
        lemma_sextets_concat(head, feed);
        assert(sextets(head) + sextets(feed) =~= sextets(head));
        assert(!has_pad(head + feed));
        lemma_sextets_concat(head + feed, wrapped(tail));
        assert(head + tail =~= raw);
        lemma_sextets_concat(head, tail);
    }
}

/// Lenient decoding gives back the bytes that wrapped encoding was given.
pub proof fn law_wrapped_round_trip(data: Seq<u8>)
    ensures
        unpacked(sextets(wrapped(encoded(data, false)))) == data,
{
    lemma_padding_last(data, false);
    lemma_sextets_wrapped(encoded(data, false));
    law_lenient_round_trip(data);
}

proof fn lemma_standard_encoded(data: Seq<u8>)
    ensures
        standard(encoded(data, true)) == encoded(data, false),
        encoded(data, true).len() == encoded(data, false).len(),
    decreases data.len(),
{
    let u = encoded(data, true);
    let e = encoded(data, false);
    if data.len() >= 3 {
        lemma_standard_encoded(data.skip(3));
        let ur = encoded(data.skip(3), true);
        let er = encoded(data.skip(3), false);
        assert forall|i: int| 0 <= i < u.len() implies standard(u)[i] == e[i] by {
            if i >= 4 {
                assert(u[i] == ur[i - 4]);
                assert(standard(ur)[i - 4] == er[i - 4]);
            }
        }
    }
    assert(standard(u) =~= e);
}

proof fn lemma_completed_unpadded(data: Seq<u8>)
    ensures
        completed(standard(unpadded(encoded(data, true)))) == encoded(data, false),
{
    let u = encoded(data, true);
    let e = encoded(data, false);
    lemma_padding_last(data, true);
    lemma_standard_encoded(data);
    let n = u.len() as int;
    reveal_with_fuel(unpadded, 3);
    let t = unpadded(u);
    if n > 0 {
        lemma_last_symbols(data, true);
        if u[n - 1] == PAD {
            assert(u.drop_last().last() == u[n - 2]);
            if u[n - 2] == PAD {
                assert(u.drop_last().drop_last() =~= u.take(n - 2));
                assert(u.take(n - 2).last() == u[n - 3]);
                assert(t =~= u.take(n - 2));
            } else {
                assert(t =~= u.take(n - 1));
            }
        }
        assert(standard(t) =~= standard(u).take(t.len() as int));
        assert(standard(t).last() == standard(u)[t.len() - 1]);
        assert(standard(t).last() != PAD);
        assert(completed(standard(t)) =~= e) by {
            assert forall|i: int| t.len() <= i < n implies e[i] == PAD by {
                assert(standard(u)[i] == e[i]);
                assert(u[i] == PAD);
            }
        }
    } else {
        assert(standard(t) =~= e);
    }
}

/// The last group of an encoding begins with two characters that are no
/// padding, and a padding is followed by padding.
proof fn lemma_last_symbols(data: Seq<u8>, url: bool)
    requires
        encoded(data, url).len() > 0,
    ensures
        encoded(data, url).len() >= 4,
        ({
            let e = encoded(data, url);
            let n = e.len() as int;
            &&& e[n - 3] != PAD
            &&& e[n - 4] != PAD
            &&& e[n - 2] == PAD ==> e[n - 1] == PAD
        }),
    decreases data.len(),
{
    let e = encoded(data, url);
    let n = e.len() as int;
    let b0 = data[0] as int;
    lemma_symbol(b0 / 4);
    if data.len() >= 3 {
        let b1 = data[1] as int;
        let b2 = data[2] as int;
        lemma_symbol((b0 % 4) * 16 + b1 / 16);
        lemma_symbol((b1 % 16) * 4 + b2 / 64);
        lemma_symbol(b2 % 64);
        let r = encoded(data.skip(3), url);
        if r.len() > 0 {
            lemma_last_symbols(data.skip(3), url);
            assert(e[n - 1] == r[r.len() - 1]);
            assert(e[n - 2] == r[r.len() - 2]);
            assert(e[n - 3] == r[r.len() - 3]);
            assert(e[n - 4] == r[r.len() - 4]);
        }
    } else if data.len() == 2 {
        let b1 = data[1] as int;
        lemma_symbol((b0 % 4) * 16 + b1 / 16);
        lemma_symbol((b1 % 16) * 4);
    } else {
        lemma_symbol((b0 % 4) * 16);
    }
}

/// Decoding of the URL alphabet gives back the bytes that its encoding was
/// given, with the padding and without.
pub proof fn law_urlsafe_round_trip(data: Seq<u8>)
    ensures
        strictly(completed(standard(encoded(data, true)))) == Some(data),
        strictly(completed(standard(unpadded(encoded(data, true))))) == Some(data),
{
    lemma_padding_last(data, true);
    lemma_standard_encoded(data);
    lemma_completed_unpadded(data);
    law_strict_round_trip(data);
}

/// What the strict decoding accepts, the lenient one decodes to the same
/// bytes.
pub proof fn law_strict_implies_lenient(s: Seq<u8>)
    requires
        strictly(s) is Some,
    ensures
        strictly(s) == Some(unpacked(sextets(s))),
    decreases s.len(),
{
    reveal_with_fuel(sextets, 5);
    if s.len() == 0 {
        assert(unpacked(sextets(s)) =~= Seq::<u8>::empty());
    } else {
        assert(s.skip(1)[0] == s[1]);
        assert(s.skip(1).skip(1) =~= s.skip(2));
        assert(s.skip(2)[0] == s[2]);
        assert(s.skip(2).skip(1) =~= s.skip(3));
        assert(s.skip(3)[0] == s[3]);
        assert(s.skip(3).skip(1) =~= s.skip(4));
        let q = sextets(s);
        let v0 = sextet(s[0])->0;
        let v1 = sextet(s[1])->0;
        match (sextet(s[2]), sextet(s[3])) {
            (Some(v2), Some(v3)) => {
                law_strict_implies_lenient(s.skip(4));
                let tail = sextets(s.skip(4));
                assert(q =~= seq![v0, v1, v2, v3] + tail);
                assert(q.skip(4) =~= tail);
            },
            (Some(v2), None) => {
                assert(q =~= seq![v0, v1, v2]);
            },
            _ => {
                assert(q =~= seq![v0, v1]);
            },
        }
        assert(strictly(s)->0 =~= unpacked(q));
    }
}

} // verus!
