//! The Base64 of the daemon's protocol, in which requests carry their texts.
//!
//! The decoder is tolerant in its own way: it reads groups of four bytes,
//! stops at a group whose first two bytes are not of the alphabet, and takes
//! any other third or fourth byte as the end of that group's data.
use vstd::prelude::*;
use vstd::utf8::*;
use crate::native::base64;
use crate::native::base64::{encode_raw, sextet_of};
use crate::utf8;
use crate::utf8::text_of;

verus! {

/// Base64 as a text.
pub open spec fn b64_text(data: Seq<u8>) -> Seq<char> {
    base64::encoded(data, false).map_values(|b: u8| b as char)
}

/// Encodes bytes.
pub fn b64_encode(data: &[u8]) -> (r: String)
    ensures
        r@ == b64_text(data@),
{
    let raw = encode_raw(data, false);
    let mut r: String = String::new();
    let mut i: usize = 0;
    while i < raw.len()
        invariant
            i <= raw@.len(),
            r@ == raw@.take(i as int).map_values(|b: u8| b as char),
        decreases raw@.len() - i,
    {
        r.push(raw[i] as char);
        i += 1;
        assert(r@ =~= raw@.take(i as int).map_values(|b: u8| b as char));
    }
    assert(raw@.take(i as int) =~= raw@);
    r
}

/// Whether the text has every byte that its groups need: a group whose first
/// two bytes are of the alphabet has a third byte, and where that one is of
/// the alphabet too, a fourth.
pub open spec fn is_complete(s: Seq<u8>) -> bool
    decreases s.len(),
{
    if s.len() < 2 || base64::sextet(s[0]) is None || base64::sextet(s[1]) is None {
        true
    } else {
        &&& s.len() >= 3
        &&& base64::sextet(s[2]) is Some ==> s.len() >= 4
        &&& s.len() >= 4 ==> is_complete(s.skip(4))
    }
}

/// The bytes of one group.
pub open spec fn group_bytes(s: Seq<u8>) -> Seq<u8> {
    let v0 = base64::sextet(s[0])->0;
    let v1 = base64::sextet(s[1])->0;
    match base64::sextet(s[2]) {
        Some(v2) => match base64::sextet(s[3]) {
            Some(v3) => seq![base64::byte0(v0, v1), base64::byte1(v1, v2), base64::byte2(v2, v3)],
            None => seq![base64::byte0(v0, v1), base64::byte1(v1, v2)],
        },
        None => seq![base64::byte0(v0, v1)],
    }
}

/// The bytes of a complete text.
pub open spec fn decoded(s: Seq<u8>) -> Seq<u8>
    decreases s.len(),
{
    if s.len() < 2 || base64::sextet(s[0]) is None || base64::sextet(s[1]) is None {
        Seq::empty()
    } else if s.len() >= 4 {
        group_bytes(s) + decoded(s.skip(4))
    } else {
        group_bytes(s)
    }
}

/// Whether a text is complete.
pub fn complete(s: &[u8]) -> (r: bool)
    ensures
        r == is_complete(s@),
{
    let mut i: usize = 0;
    assert(s@.skip(0) =~= s@);
    while i < s.len()
        invariant
            i <= s@.len(),
            is_complete(s@.skip(i as int)) == is_complete(s@),
        decreases s@.len() - i,
    {
        let ghost rest = s@.skip(i as int);
        let left: usize = s.len() - i;
        if left < 2 || sextet_of(s[i]).is_none() || sextet_of(s[i + 1]).is_none() {
            return true;
        }
        if left < 3 {
            return false;
        }
        if left < 4 {
            return sextet_of(s[i + 2]).is_none();
        }
        assert(rest.skip(4) =~= s@.skip(i + 4));
        i += 4;
    }
    true
}

/// Decodes a complete text to bytes.
pub fn decode_bytes(s: &[u8]) -> (r: Vec<u8>)
    requires
        is_complete(s@),
    ensures
        r@ == decoded(s@),
{
    let mut out: Vec<u8> = Vec::new();
    let mut i: usize = 0;
    assert(s@.skip(0) =~= s@);
    assert(out@ + decoded(s@) =~= decoded(s@));
    while i < s.len()
        invariant
            i <= s@.len(),
            is_complete(s@.skip(i as int)),
            out@ + decoded(s@.skip(i as int)) == decoded(s@),
        decreases s@.len() - i,
    {
        let ghost rest = s@.skip(i as int);
        let ghost before = out@;
        let left: usize = s.len() - i;
        if left < 2 {
            assert(out@ + decoded(rest) =~= out@);
            return out;
        }
        match (sextet_of(s[i]), sextet_of(s[i + 1])) {
            (Some(v0), Some(v1)) => {
                out.push(v0 * 4 + v1 / 16);
                match sextet_of(s[i + 2]) {
                    Some(v2) => {
                        out.push((v1 % 16) * 16 + v2 / 4);
                        match sextet_of(s[i + 3]) {
                            Some(v3) => {
                                out.push((v2 % 4) * 64 + v3);
                            },
                            None => {},
                        }
                    },
                    None => {},
                }
                assert(out@ =~= before + group_bytes(rest));
            },
            _ => {
                assert(out@ + decoded(rest) =~= out@);
                return out;
            },
        }
        if left < 4 {
            return out;
        }
        proof {
            assert(rest.skip(4) =~= s@.skip(i + 4));
            assert(before + (group_bytes(rest) + decoded(rest.skip(4))) =~= (before + group_bytes(
                rest,
            )) + decoded(rest.skip(4)));
        }
        i += 4;
    }
    assert(out@ + decoded(s@.skip(i as int)) =~= out@);
    out
}

/// The bytes of the text that is taken from the given bytes before it is
/// decoded: replacement characters stand for what is not UTF-8.
pub open spec fn clean(bytes: Seq<u8>) -> Seq<u8> {
    encode_utf8(utf8::lossy_text(bytes))
}

/// The field in which a text travels.
pub open spec fn field_of(text: Seq<char>) -> Seq<u8> {
    encode_utf8(b64_text(encode_utf8(text)))
}

/// Decodes a field to a text.
pub fn b64_decode(bytes: &[u8]) -> (r: String)
    requires
        is_complete(clean(bytes@)),
    ensures
        r@ == utf8::lossy_text(decoded(clean(bytes@))),
{
    let s = text_of(bytes);
    let out = decode_bytes(s.as_str().as_bytes());
    text_of(out.as_slice())
}

/// Decodes a field to a text, where the field is complete.
pub fn b64_decode_checked(bytes: &[u8]) -> (r: Option<String>)
    ensures
        match r {
            Some(t) => is_complete(clean(bytes@)) && t@ == utf8::lossy_text(
                decoded(clean(bytes@)),
            ),
            None => !is_complete(clean(bytes@)),
        },
{
    let s = text_of(bytes);
    if complete(s.as_str().as_bytes()) {
        Some(b64_decode(bytes))
    } else {
        None
    }
}

proof fn lemma_encoded_ascii(data: Seq<u8>)
    ensures
        forall|i: int|
            0 <= i < base64::encoded(data, false).len() ==> #[trigger] base64::encoded(
                data,
                false,
            )[i] < 0x80,
    decreases data.len(),
{
    if data.len() >= 3 {
        let e = base64::encoded(data, false);
        let r = base64::encoded(data.skip(3), false);
        lemma_encoded_ascii(data.skip(3));
        assert forall|i: int| 0 <= i < e.len() implies #[trigger] e[i] < 0x80 by {
            if i >= 4 {
                assert(e[i] == r[i - 4]);
            }
        }
    }
}

proof fn lemma_decoded_encoded(data: Seq<u8>)
    ensures
        decoded(base64::encoded(data, false)) == data,
        is_complete(base64::encoded(data, false)),
    decreases data.len(),
{
    let e = base64::encoded(data, false);
    if data.len() == 0 {
        assert(data =~= Seq::<u8>::empty());
    } else {
        base64::lemma_group(data);
        if data.len() >= 3 {
            lemma_decoded_encoded(data.skip(3));
            assert(e.skip(4) =~= base64::encoded(data.skip(3), false));
            assert(group_bytes(e) =~= data.take(3));
            assert(data.take(3) + data.skip(3) =~= data);
        } else {
            let nothing = Seq::<u8>::empty();
            assert(e.skip(4) =~= nothing);
            assert(decoded(nothing) == nothing);
            assert(is_complete(nothing));
            assert(group_bytes(e) =~= data);
            assert(data + nothing =~= data);
        }
    }
}

/// The bytes of an encoding are complete and decode to what was encoded.
pub proof fn law_bytes_round_trip(data: Seq<u8>)
    ensures
        is_complete(encode_utf8(b64_text(data))),
        decoded(encode_utf8(b64_text(data))) == data,
{
    lemma_decoded_encoded(data);
    lemma_encoded_ascii(data);
    utf8::lemma_ascii_bytes(b64_text(data), base64::encoded(data, false));
}

/// A text that travels in a field arrives as it was: the field is complete
/// and decodes to that text.
pub proof fn law_field_round_trip(text: Seq<char>)
    ensures
        is_complete(clean(field_of(text))),
        utf8::lossy_text(decoded(clean(field_of(text)))) == text,
{
    let data = encode_utf8(text);
    utf8::lemma_text_of_encoded(b64_text(data));
    law_bytes_round_trip(data);
    utf8::lemma_text_of_encoded(text);
}

} // verus!
