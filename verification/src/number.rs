//! Numbers in text: decimal and hexadecimal digits, written and read.
use vstd::prelude::*;
use vstd::slice::slice_subrange;
use crate::text::string_of;

verus! {

/// The decimal digit of a number below ten.
pub open spec fn digit_char(d: int) -> char {
    (d + 0x30) as char
}

/// A number in decimal digits, without leading zeros.
pub open spec fn decimal(n: nat) -> Seq<char>
    decreases n,
{
    if n < 10 {
        seq![digit_char(n as int)]
    } else {
        decimal(n / 10).push(digit_char((n % 10) as int))
    }
}

/// An integer in decimal digits, with a minus sign in front where it is
/// negative.
pub open spec fn signed_decimal(n: int) -> Seq<char> {
    if n < 0 {
        seq!['-'] + decimal((-n) as nat)
    } else {
        decimal(n as nat)
    }
}

fn decimal_chars(n: u128) -> (r: Vec<char>)
    ensures
        r@ == decimal(n as nat),
    decreases n,
{
    if n < 10 {
        let c: char = (n as u8 + 0x30) as char;
        let mut r: Vec<char> = Vec::new();
        r.push(c);
        r
    } else {
        let mut r = decimal_chars(n / 10);
        let d: u8 = (n % 10) as u8;
        r.push((d + 0x30) as char);
        r
    }
}

/// Writes a number in decimal.
pub fn decimal_of(n: u64) -> (r: String)
    ensures
        r@ == decimal(n as nat),
{
    decimal_of_wide(n as u128)
}

/// Writes a number of up to 128 bits in decimal.
pub fn decimal_of_wide(n: u128) -> (r: String)
    ensures
        r@ == decimal(n as nat),
{
    let r = decimal_chars(n);
    string_of(r.as_slice())
}

/// Writes an integer in decimal, with its sign where it is negative.
pub fn signed_decimal_of(n: i64) -> (r: String)
    ensures
        r@ == signed_decimal(n as int),
{
    if n < 0 {
        let m: u64 = (-(n as i128)) as u64;
        let mut r = string_of(['-'].as_slice());
        assert(r@ =~= seq!['-']);
        r.append(decimal_of(m).as_str());
        r
    } else {
        decimal_of(n as u64)
    }
}

/// Whether a character is a decimal digit of ASCII.
pub open spec fn is_digit(c: char) -> bool {
    '0' <= c <= '9'
}

/// Whether a text holds decimal digits only.
pub open spec fn all_digits(s: Seq<char>) -> bool {
    forall|i: int| 0 <= i < s.len() ==> is_digit(#[trigger] s[i])
}

/// The number that a text of decimal digits writes.
pub open spec fn digits_value(s: Seq<char>) -> nat
    decreases s.len(),
{
    if s.len() == 0 {
        0
    } else {
        (10 * digits_value(s.drop_last()) + (s.last() as int - 0x30)) as nat
    }
}

/// A text without one plus sign at its front.
pub open spec fn without_plus(s: Seq<char>) -> Seq<char> {
    if s.len() > 0 && s[0] == '+' {
        s.skip(1)
    } else {
        s
    }
}

/// The number that decimal digits write, where there is at least one digit,
/// nothing else, and the number is at most `max`.
pub open spec fn magnitude(s: Seq<char>, max: int) -> Option<nat> {
    if s.len() > 0 && all_digits(s) && digits_value(s) <= max {
        Some(digits_value(s))
    } else {
        None
    }
}

/// What a text means as an unsigned number of at most `max`: decimal digits,
/// with a plus sign allowed in front.
pub open spec fn unsigned(s: Seq<char>, max: int) -> Option<nat> {
    magnitude(without_plus(s), max)
}

/// What a text means as an integer from `min` to `max`: decimal digits, with
/// one sign allowed in front.
pub open spec fn signed(s: Seq<char>, min: int, max: int) -> Option<int> {
    if s.len() > 0 && s[0] == '-' {
        match magnitude(s.skip(1), -min) {
            Some(n) => Some(-(n as int)),
            None => None,
        }
    } else {
        match unsigned(s, max) {
            Some(n) => Some(n as int),
            None => None,
        }
    }
}

proof fn lemma_value_grows(s: Seq<char>, i: int)
    requires
        0 <= i <= s.len(),
        all_digits(s),
    ensures
        digits_value(s.take(i)) <= digits_value(s),
    decreases s.len() - i,
{
    if i < s.len() {
        lemma_value_grows(s, i + 1);
        assert(s.take(i + 1).drop_last() =~= s.take(i));
        assert(s.take(i + 1).last() == s[i]);
        assert(is_digit(s[i]));
    } else {
        assert(s.take(i) =~= s);
    }
}

fn parse_magnitude(s: &[char], max: u64) -> (r: Option<u64>)
    ensures
        match r {
            Some(n) => magnitude(s@, max as int) == Some(n as nat),
            None => magnitude(s@, max as int) is None,
        },
{
    if s.len() == 0 {
        return None;
    }
    let mut value: u64 = 0;
    let mut i: usize = 0;
    while i < s.len()
        invariant
            i <= s@.len(),
            all_digits(s@.take(i as int)),
            value == digits_value(s@.take(i as int)),
            value <= max,
        decreases s@.len() - i,
    {
        let c = s[i];
        if c < '0' || c > '9' {
            assert(!is_digit(s@[i as int]));
            return None;
        }
        let d: u64 = c as u64 - 0x30;
        assert(s@.take(i + 1).drop_last() =~= s@.take(i as int));
        assert(s@.take(i + 1).last() == c);
        let next: u128 = value as u128 * 10 + d as u128;
        assert(digits_value(s@.take(i + 1)) == next);
        if next > max as u128 {
            proof {
                if all_digits(s@) {
                    lemma_value_grows(s@, i + 1);
                }
            }
            return None;
        }
        value = next as u64;
        i += 1;
        assert forall|j: int| 0 <= j < i implies is_digit(#[trigger] s@.take(i as int)[j]) by {
            if j < i - 1 {
                assert(s@.take(i as int)[j] == s@.take(i - 1)[j]);
            }
        }
    }
    assert(s@.take(i as int) =~= s@);
    Some(value)
}

/// Reads an unsigned number of at most `max`.
pub fn parse_unsigned(s: &[char], max: u64) -> (r: Option<u64>)
    ensures
        match r {
            Some(n) => unsigned(s@, max as int) == Some(n as nat),
            None => unsigned(s@, max as int) is None,
        },
{
    if s.len() > 0 && s[0] == '+' {
        let body = slice_subrange(s, 1, s.len());
        assert(body@ =~= s@.skip(1));
        parse_magnitude(body, max)
    } else {
        parse_magnitude(s, max)
    }
}

/// Reads a number of the machine's word size.
pub fn parse_usize(s: &[char]) -> (r: Option<usize>)
    ensures
        match r {
            Some(n) => unsigned(s@, usize::MAX as int) == Some(n as nat),
            None => unsigned(s@, usize::MAX as int) is None,
        },
{
    match parse_unsigned(s, usize::MAX as u64) {
        Some(n) => Some(n as usize),
        None => None,
    }
}

/// Reads an integer of 64 bits.
pub fn parse_i64(s: &[char]) -> (r: Option<i64>)
    ensures
        match r {
            Some(n) => signed(s@, i64::MIN as int, i64::MAX as int) == Some(n as int),
            None => signed(s@, i64::MIN as int, i64::MAX as int) is None,
        },
{
    if s.len() > 0 && s[0] == '-' {
        let body = slice_subrange(s, 1, s.len());
        assert(body@ =~= s@.skip(1));
        match parse_magnitude(body, 0x8000_0000_0000_0000) {
            Some(n) => Some((-(n as i128)) as i64),
            None => None,
        }
    } else {
        match parse_unsigned(s, 0x7fff_ffff_ffff_ffff) {
            Some(n) => Some(n as i64),
            None => None,
        }
    }
}

/// Reads an integer of 32 bits.
pub fn parse_i32(s: &[char]) -> (r: Option<i32>)
    ensures
        match r {
            Some(n) => signed(s@, i32::MIN as int, i32::MAX as int) == Some(n as int),
            None => signed(s@, i32::MIN as int, i32::MAX as int) is None,
        },
{
    if s.len() > 0 && s[0] == '-' {
        let body = slice_subrange(s, 1, s.len());
        assert(body@ =~= s@.skip(1));
        match parse_magnitude(body, 0x8000_0000) {
            Some(n) => Some((-(n as i64)) as i32),
            None => None,
        }
    } else {
        match parse_unsigned(s, 0x7fff_ffff) {
            Some(n) => Some(n as i32),
            None => None,
        }
    }
}

/// A number that is written in decimal is read back.
pub proof fn lemma_decimal_reads_back(n: nat, max: int)
    requires
        n <= max,
    ensures
        unsigned(decimal(n), max) == Some(n),
        decimal(n).len() > 0,
        all_digits(decimal(n)),
{
    lemma_decimal(n);
    assert(is_digit(decimal(n)[0]));
    assert(without_plus(decimal(n)) == decimal(n));
}

/// An integer that is written in decimal is read back.
pub proof fn lemma_signed_reads_back(n: int, min: int, max: int)
    requires
        min <= n <= max,
    ensures
        signed(signed_decimal(n), min, max) == Some(n),
{
    if n < 0 {
        lemma_decimal((-n) as nat);
        assert(signed_decimal(n).skip(1) =~= decimal((-n) as nat));
    } else {
        lemma_decimal_reads_back(n as nat, max);
        assert(is_digit(decimal(n as nat)[0]));
    }
}

/// An integer in decimal holds digits and a minus sign only.
pub proof fn lemma_signed_chars(n: int)
    ensures
        forall|i: int|
            0 <= i < signed_decimal(n).len() ==> {
                let c = #[trigger] signed_decimal(n)[i];
                is_digit(c) || c == '-'
            },
{
    let m = if n < 0 {
        (-n) as nat
    } else {
        n as nat
    };
    lemma_decimal(m);
    assert forall|i: int| 0 <= i < signed_decimal(n).len() implies {
        let c = #[trigger] signed_decimal(n)[i];
        is_digit(c) || c == '-'
    } by {
        let k = signed_decimal(n).len() - decimal(m).len();
        if i >= k {
            assert(signed_decimal(n)[i] == decimal(m)[i - k]);
        }
    }
}

proof fn lemma_decimal(n: nat)
    ensures
        decimal(n).len() > 0,
        all_digits(decimal(n)),
        digits_value(decimal(n)) == n,
    decreases n,
{
    let s = decimal(n);
    if n < 10 {
        assert(s.drop_last() =~= Seq::<char>::empty());
        assert(digits_value(Seq::<char>::empty()) == 0);
        assert(s.last() == digit_char(n as int));
    } else {
        lemma_decimal(n / 10);
        assert(s.drop_last() =~= decimal(n / 10));
        assert(s.last() == digit_char((n % 10) as int));
        assert forall|i: int| 0 <= i < s.len() implies is_digit(#[trigger] s[i]) by {
            if i < s.len() - 1 {
                assert(s[i] == decimal(n / 10)[i]);
            }
        }
    }
}

/// The lower-case hexadecimal digit of a number below sixteen.
pub open spec fn hex_char(d: int) -> char {
    if d < 10 {
        (d + 0x30) as char
    } else {
        (d + 0x57) as char
    }
}

fn hex_digit(d: u8) -> (r: char)
    requires
        d < 16,
    ensures
        r == hex_char(d as int),
{
    if d < 10 {
        (d + 0x30) as char
    } else {
        (d + 0x57) as char
    }
}

/// The last `width` hexadecimal digits of a number.
pub open spec fn hex_padded(n: nat, width: nat) -> Seq<char>
    decreases width,
{
    if width == 0 {
        Seq::empty()
    } else {
        hex_padded(n / 16, (width - 1) as nat).push(hex_char((n % 16) as int))
    }
}

fn hex_chars(n: u64, width: usize) -> (r: Vec<char>)
    ensures
        r@ == hex_padded(n as nat, width as nat),
    decreases width,
{
    if width == 0 {
        Vec::new()
    } else {
        let mut r = hex_chars(n / 16, width - 1);
        r.push(hex_digit((n % 16) as u8));
        r
    }
}

/// Writes a number in sixteen hexadecimal digits.
pub fn hex16(n: u64) -> (r: String)
    ensures
        r@ == hex_padded(n as nat, 16),
{
    let r = hex_chars(n, 16);
    string_of(r.as_slice())
}

/// The bytes in hexadecimal, two digits each.
pub open spec fn bytes_hex(bytes: Seq<u8>) -> Seq<char>
    decreases bytes.len(),
{
    if bytes.len() == 0 {
        Seq::empty()
    } else {
        bytes_hex(bytes.drop_last()) + seq![
            hex_char(bytes.last() as int / 16),
            hex_char(bytes.last() as int % 16),
        ]
    }
}

/// Writes bytes in hexadecimal.
pub fn hex_of(bytes: &[u8]) -> (r: String)
    ensures
        r@ == bytes_hex(bytes@),
{
    let mut r: String = String::new();
    let mut i: usize = 0;
    while i < bytes.len()
        invariant
            i <= bytes@.len(),
            r@ == bytes_hex(bytes@.take(i as int)),
        decreases bytes@.len() - i,
    {
        let b = bytes[i];
        let ghost before = r@;
        r.push(hex_digit(b / 16));
        r.push(hex_digit(b % 16));
        assert(r@ =~= before + seq![hex_char(b as int / 16), hex_char(b as int % 16)]);
        assert(bytes@.take(i + 1).drop_last() =~= bytes@.take(i as int));
        i += 1;
    }
    assert(bytes@.take(i as int) =~= bytes@);
    r
}

/// A text that is read as an integer is digits with at most one sign in front,
/// and what is read lies between the bounds; zeros in front change nothing.
pub proof fn law_signed_bounds(s: Seq<char>, min: int, max: int)
    requires
        min <= 0 <= max,
    ensures
        signed(s, min, max) matches Some(n) ==> {
            &&& min <= n <= max
            &&& s.len() > 0
            &&& is_digit(s[0]) || ((s[0] == '-' || s[0] == '+') && s.len() > 1)
            &&& forall|i: int| 1 <= i < s.len() ==> is_digit(#[trigger] s[i])
            &&& s[0] == '-' ==> n <= 0
            &&& s[0] != '-' ==> n >= 0
        },
        s.len() > 0 && all_digits(s) ==> digits_value(seq!['0'] + s) == digits_value(s),
{
    if signed(s, min, max) is Some {
        let body = if s[0] == '-' || s[0] == '+' {
            s.skip(1)
        } else {
            s
        };
        assert(is_digit(body[0]));
        assert forall|i: int| 1 <= i < s.len() implies is_digit(#[trigger] s[i]) by {
            if s[0] == '-' || s[0] == '+' {
                assert(s[i] == body[i - 1]);
                assert(is_digit(body[i - 1]));
            } else {
                assert(is_digit(body[i]));
            }
        }
    }
    lemma_zero_in_front(s);
}

proof fn lemma_zero_in_front(s: Seq<char>)
    ensures
        digits_value(seq!['0'] + s) == digits_value(s),
    decreases s.len(),
{
    let t = seq!['0'] + s;
    if s.len() == 0 {
        assert(t.drop_last() =~= Seq::<char>::empty());
        assert(t.last() == '0');
        assert(digits_value(t.drop_last()) == 0);
    } else {
        lemma_zero_in_front(s.drop_last());
        assert(t.drop_last() =~= seq!['0'] + s.drop_last());
        assert(t.last() == s.last());
    }
}

/// Two numbers are written alike only where they are the same.
pub proof fn law_decimal_injective(n: nat, m: nat)
    requires
        decimal(n) == decimal(m),
    ensures
        n == m,
{
    lemma_decimal(n);
    lemma_decimal(m);
}

/// The value of a hexadecimal digit, of either case.
pub open spec fn hex_value(c: char) -> int {
    if '0' <= c <= '9' {
        c as int - '0' as int
    } else if 'a' <= c <= 'f' {
        10 + (c as int - 'a' as int)
    } else if 'A' <= c <= 'F' {
        10 + (c as int - 'A' as int)
    } else {
        -1
    }
}

/// Bytes are written two digits each, in their order: every byte can be read
/// where it was written, in lower case.
pub proof fn law_bytes_hex(bytes: Seq<u8>)
    ensures
        bytes_hex(bytes).len() == 2 * bytes.len(),
        forall|i: int|
            0 <= i < bytes.len() ==> 16 * hex_value(bytes_hex(bytes)[2 * i]) + hex_value(
                bytes_hex(bytes)[2 * i + 1],
            ) == #[trigger] bytes[i],
        forall|i: int| 0 <= i < bytes_hex(bytes).len() ==> !('A' <= #[trigger] bytes_hex(bytes)[i] <= 'F'),
    decreases bytes.len(),
{
    if bytes.len() > 0 {
        let head = bytes.drop_last();
        law_bytes_hex(head);
        let all = bytes_hex(bytes);
        let front = bytes_hex(head);
        let b = bytes.last() as int;
        let n = head.len() as int;
        assert(all[2 * n] == hex_char(b / 16) && all[2 * n + 1] == hex_char(b % 16));
        assert forall|i: int| 0 <= i < bytes.len() implies 16 * hex_value(all[2 * i]) + hex_value(
            all[2 * i + 1],
        ) == #[trigger] bytes[i] by {
            if i < n {
                assert(head[i] == bytes[i]);
                assert(all[2 * i] == front[2 * i] && all[2 * i + 1] == front[2 * i + 1]);
            }
        }
        assert forall|i: int| 0 <= i < all.len() implies !('A' <= #[trigger] all[i] <= 'F') by {
            if i < 2 * n {
                assert(all[i] == front[i]);
            }
        }
    }
}

/// The number that hexadecimal digits write.
pub open spec fn hex_number(s: Seq<char>) -> int
    decreases s.len(),
{
    if s.len() == 0 {
        0
    } else {
        16 * hex_number(s.drop_last()) + hex_value(s.last())
    }
}

/// A power of sixteen.
pub open spec fn sixteen_to(w: nat) -> nat
    decreases w,
{
    if w == 0 {
        1
    } else {
        16 * sixteen_to((w - 1) as nat)
    }
}

/// A number that has no more digits than are written is read back, and exactly
/// that many digits are written.
pub proof fn law_hex_padded(n: nat, width: nat)
    requires
        n < sixteen_to(width),
    ensures
        hex_padded(n, width).len() == width,
        hex_number(hex_padded(n, width)) == n,
    decreases width,
{
    if width > 0 {
        let s = hex_padded(n, width);
        law_hex_padded(n / 16, (width - 1) as nat);
        assert(s.drop_last() =~= hex_padded(n / 16, (width - 1) as nat));
        assert(s.last() == hex_char((n % 16) as int));
    }
}

/// A number above the largest one that is asked for is not read as another.
pub proof fn law_too_large(n: nat, max: int)
    requires
        n > max,
    ensures
        unsigned(decimal(n), max) is None,
        max >= 0 ==> signed(decimal(n), 0, max) is None,
{
    lemma_decimal(n);
    assert(is_digit(decimal(n)[0]));
    assert(without_plus(decimal(n)) == decimal(n));
}

/// One plus sign in front of digits changes nothing, and a minus sign turns the
/// number round.
pub proof fn law_signs(d: Seq<char>, n: nat, max: int)
    requires
        d.len() > 0 && all_digits(d),
        digits_value(d) == n <= max,
    ensures
        unsigned(d, max) == Some(n),
        unsigned(seq!['+'] + d, max) == Some(n),
        signed(d, -max, max) == Some(n as int),
        signed(seq!['+'] + d, -max, max) == Some(n as int),
        signed(seq!['-'] + d, -max, max) == Some(-(n as int)),
        unsigned(seq!['-'] + d, max) is None,
{
    assert(is_digit(d[0]));
    assert((seq!['+'] + d).skip(1) =~= d);
    assert((seq!['-'] + d).skip(1) =~= d);
    assert(!is_digit((seq!['-'] + d)[0]));
}

} // verus!
