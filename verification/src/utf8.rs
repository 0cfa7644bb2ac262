//! Bytes and text: the parts of UTF-8 that the protocol and the file readers
//! need.
use vstd::prelude::*;
use vstd::utf8::*;

verus! {

/// The text that the standard library makes of bytes that are not UTF-8.
pub uninterp spec fn utf8_lossy(bytes: Seq<u8>) -> Seq<char>;

/// `String::from_utf8_lossy`: the text of the bytes. For valid UTF-8 that is
/// the decoded text; for other bytes the contract names the result, in which
/// replacement characters stand for what is not UTF-8.
#[verifier::external_body]
fn from_utf8_lossy(bytes: &[u8]) -> (r: String)
    ensures
        valid_utf8(bytes@) ==> r@ == decode_utf8(bytes@),
        !valid_utf8(bytes@) ==> r@ == utf8_lossy(bytes@),
{
    String::from_utf8_lossy(bytes).into_owned()
}

/// The text of bytes that may not be UTF-8.
pub open spec fn lossy_text(bytes: Seq<u8>) -> Seq<char> {
    if valid_utf8(bytes) {
        decode_utf8(bytes)
    } else {
        utf8_lossy(bytes)
    }
}

/// The text of the bytes, with replacement characters where they are not
/// UTF-8.
pub fn text_of(bytes: &[u8]) -> (r: String)
    ensures
        r@ == lossy_text(bytes@),
{
    from_utf8_lossy(bytes)
}

/// The text of the bytes of a text is that text.
pub proof fn lemma_text_of_encoded(text: Seq<char>)
    ensures
        lossy_text(encode_utf8(text)) == text,
{
    encode_utf8_valid_utf8(text);
    encode_utf8_decode_utf8(text);
}

/// The text of a string as a literal: quoted, with escapes.
pub uninterp spec fn debug_text(s: Seq<char>) -> Seq<char>;

/// The `Debug` format of `str`. The contract names the result; which
/// characters are escaped, and how, is not stated.
#[verifier::external_body]
pub(crate) fn debug_quoted(s: &str) -> (r: String)
    ensures
        r@ == debug_text(s@),
{
    format!("{:?}", s)
}

/// The bytes of a text.
pub fn utf8_bytes(s: &str) -> (r: Vec<u8>)
    ensures
        r@ == encode_utf8(s@),
{
    vstd::slice::slice_to_vec(s.as_bytes())
}

/// A text of ASCII characters has one byte for each of them.
pub proof fn lemma_ascii_bytes(text: Seq<char>, bytes: Seq<u8>)
    requires
        text.len() == bytes.len(),
        forall|i: int| 0 <= i < text.len() ==> bytes[i] < 0x80 && #[trigger] text[i] == bytes[i] as char,
    ensures
        encode_utf8(text) == bytes,
        is_ascii_chars(text),
{
    assert(is_ascii_chars(text));
    is_ascii_chars_encode_utf8(text);
    assert forall|i: int| 0 <= i < bytes.len() implies encode_utf8(text)[i] == bytes[i] by {
        assert(text[i] == bytes[i] as char);
        assert(text[i] as u8 == encode_utf8(text)[i]);
    }
    assert(encode_utf8(text) =~= bytes);
}

/// The bytes of two texts, one after the other.
pub proof fn lemma_encode_concat(a: Seq<char>, b: Seq<char>)
    ensures
        encode_utf8(a + b) == encode_utf8(a) + encode_utf8(b),
    decreases a.len(),
{
    if a.len() == 0 {
        assert(a + b =~= b);
        assert(encode_utf8(a) + encode_utf8(b) =~= encode_utf8(b));
    } else {
        lemma_encode_concat(a.drop_first(), b);
        assert((a + b).drop_first() =~= a.drop_first() + b);
        assert((a + b)[0] == a[0]);
        let first = encode_scalar(a[0] as u32);
        assert(first + (encode_utf8(a.drop_first()) + encode_utf8(b)) =~= (first + encode_utf8(
            a.drop_first(),
        )) + encode_utf8(b));
    }
}

/// Whether a text has a carriage return with a line feed behind it.
pub open spec fn has_crlf(s: Seq<char>) -> bool {
    exists|i: int| 0 <= i && i + 1 < s.len() && #[trigger] s[i] == '\r' && s[i + 1] == '\n'
}

/// The bytes of a text hold a line end only where the text does.
pub proof fn lemma_no_crlf(text: Seq<char>)
    requires
        !has_crlf(text),
    ensures
        forall|i: int|
            0 <= i && i + 1 < encode_utf8(text).len() ==> !(#[trigger] encode_utf8(text)[i] == 0x0d
                && encode_utf8(text)[i + 1] == 0x0a),
    decreases text.len(),
{
    if text.len() > 0 {
        let rest = text.drop_first();
        let b = encode_utf8(text);
        let r = encode_utf8(rest);
        let first = encode_scalar(text[0] as u32);
        assert(!has_crlf(rest)) by {
            if has_crlf(rest) {
                let i = choose|i: int|
                    0 <= i && i + 1 < rest.len() && #[trigger] rest[i] == '\r' && rest[i + 1]
                        == '\n';
                assert(text[i + 1] == '\r' && text[i + 2] == '\n');
            }
        }
        lemma_no_crlf(rest);
        encode_utf8_first_scalar(text);
        assert forall|i: int| 0 <= i && i + 1 < b.len() implies !(#[trigger] b[i] == 0x0d && b[i + 1]
            == 0x0a) by {
            if i >= first.len() {
                assert(b[i] == r[i - first.len()]);
                assert(b[i + 1] == r[i + 1 - first.len()]);
            } else if b[i] == 0x0d && b[i + 1] == 0x0a {
                lemma_first_byte(text);
                assert(i == 0 && first.len() == 1);
                assert(text[0] == '\r');
                assert(b[1] == r[0]);
                lemma_first_byte(rest);
                assert(rest[0] == '\n');
                assert(text[1] == '\n');
            }
        }
    }
}

/// The first byte of a text is its first character, where that is of ASCII;
/// otherwise no byte of the first character is of ASCII.
proof fn lemma_first_byte(text: Seq<char>)
    requires
        text.len() > 0,
    ensures
        ({
            let b = encode_utf8(text);
            let n = encode_scalar(text[0] as u32).len();
            &&& 1 <= n <= b.len()
            &&& b[0] < 0x80 ==> n == 1 && text[0] == b[0] as char
            &&& forall|i: int| 0 <= i < n && b[0] >= 0x80 ==> #[trigger] b[i] >= 0x80
        }),
{
    let b = encode_utf8(text);
    encode_utf8_first_scalar(text);
    assert(valid_first_scalar(b));
    let n = encode_scalar(text[0] as u32).len();
    assert(1 <= n <= b.len());
    assert forall|i: int| 0 <= i < n && b[0] >= 0x80 implies #[trigger] b[i] >= 0x80 by {
        assert(i == 0 || i == 1 || i == 2 || i == 3);
    }
    if b[0] < 0x80 {
        let b0 = b[0];
        assert(codepoint_width_1(b0) == b0) by (bit_vector)
            requires
                b0 < 0x80,
        ;
        char_u32_cast(text[0], b0 as u32);
        assert(text[0] == b0 as char);
    }
}

} // verus!
