//! Machine words: their bytes in either order, and rotations.
use vstd::prelude::*;

verus! {

/// The number that four bytes at `p` write, the least significant first.
pub open spec fn le32(s: Seq<u8>, p: int) -> u32 {
    (s[p] + 0x100 * s[p + 1] + 0x1_0000 * s[p + 2] + 0x100_0000 * s[p + 3]) as u32
}

/// The number that four bytes at `p` write, the most significant first.
pub open spec fn be32(s: Seq<u8>, p: int) -> u32 {
    (0x100_0000 * s[p] + 0x1_0000 * s[p + 1] + 0x100 * s[p + 2] + s[p + 3]) as u32
}

/// The number that eight bytes at `p` write, the least significant first.
pub open spec fn le64(s: Seq<u8>, p: int) -> u64 {
    (le32(s, p) + 0x1_0000_0000 * le32(s, p + 4)) as u64
}

/// The four bytes of a word, the least significant first.
pub open spec fn le_bytes(w: u32) -> Seq<u8> {
    seq![
        (w % 0x100) as u8,
        ((w / 0x100) % 0x100) as u8,
        ((w / 0x1_0000) % 0x100) as u8,
        (w / 0x100_0000) as u8,
    ]
}

/// The four bytes of a word, the most significant first.
pub open spec fn be_bytes(w: u32) -> Seq<u8> {
    seq![
        (w / 0x100_0000) as u8,
        ((w / 0x1_0000) % 0x100) as u8,
        ((w / 0x100) % 0x100) as u8,
        (w % 0x100) as u8,
    ]
}

/// The bytes of the words, each word with its least significant byte first.
pub open spec fn words_le_bytes(w: Seq<u32>) -> Seq<u8>
    decreases w.len(),
{
    if w.len() == 0 {
        Seq::empty()
    } else {
        words_le_bytes(w.drop_last()) + le_bytes(w.last())
    }
}

/// The bytes of the words, each word with its most significant byte first.
pub open spec fn words_be_bytes(w: Seq<u32>) -> Seq<u8>
    decreases w.len(),
{
    if w.len() == 0 {
        Seq::empty()
    } else {
        words_be_bytes(w.drop_last()) + be_bytes(w.last())
    }
}

/// Reads four bytes, the least significant first.
pub fn read_le32(s: &[u8], p: usize) -> (r: u32)
    requires
        p + 4 <= s@.len(),
    ensures
        r == le32(s@, p as int),
{
    s[p] as u32 + 0x100 * (s[p + 1] as u32) + 0x1_0000 * (s[p + 2] as u32) + 0x100_0000 * (s[p
        + 3] as u32)
}

/// Reads four bytes, the most significant first.
pub fn read_be32(s: &[u8], p: usize) -> (r: u32)
    requires
        p + 4 <= s@.len(),
    ensures
        r == be32(s@, p as int),
{
    0x100_0000 * (s[p] as u32) + 0x1_0000 * (s[p + 1] as u32) + 0x100 * (s[p + 2] as u32) + s[p
        + 3] as u32
}

/// Reads eight bytes, the least significant first.
pub fn read_le64(s: &[u8], p: usize) -> (r: u64)
    requires
        p + 8 <= s@.len(),
    ensures
        r == le64(s@, p as int),
{
    assert(s.len() <= usize::MAX);
    read_le32(s, p) as u64 + 0x1_0000_0000 * (read_le32(s, p + 4) as u64)
}

/// Writes the first `n` words, the least significant byte of each first.
pub fn write_le(w: &[u32], n: usize) -> (r: Vec<u8>)
    requires
        n <= w@.len(),
    ensures
        r@ == words_le_bytes(w@.take(n as int)),
        r@.len() == 4 * n,
{
    let mut r: Vec<u8> = Vec::new();
    let mut i: usize = 0;
    while i < n
        invariant
            i <= n <= w@.len(),
            r@ == words_le_bytes(w@.take(i as int)),
            r@.len() == 4 * i,
        decreases n - i,
    {
        let ghost before = r@;
        let x = w[i];
        r.push((x % 0x100) as u8);
        r.push(((x / 0x100) % 0x100) as u8);
        r.push(((x / 0x1_0000) % 0x100) as u8);
        r.push((x / 0x100_0000) as u8);
        assert(r@ =~= before + le_bytes(x));
        assert(w@.take(i + 1).drop_last() =~= w@.take(i as int));
        i += 1;
    }
    r
}

/// Writes the words, the most significant byte of each first.
pub fn write_be(w: &[u32]) -> (r: Vec<u8>)
    requires
        4 * w@.len() <= usize::MAX,
    ensures
        r@ == words_be_bytes(w@),
        r@.len() == 4 * w@.len(),
{
    let mut r: Vec<u8> = Vec::new();
    let mut i: usize = 0;
    while i < w.len()
        invariant
            i <= w@.len(),
            r@ == words_be_bytes(w@.take(i as int)),
            r@.len() == 4 * i,
        decreases w@.len() - i,
    {
        let ghost before = r@;
        let x = w[i];
        r.push((x / 0x100_0000) as u8);
        r.push(((x / 0x1_0000) % 0x100) as u8);
        r.push(((x / 0x100) % 0x100) as u8);
        r.push((x % 0x100) as u8);
        assert(r@ =~= before + be_bytes(x));
        assert(w@.take(i + 1).drop_last() =~= w@.take(i as int));
        i += 1;
    }
    assert(w@.take(i as int) =~= w@);
    r
}

/// A word of 32 bits rotated right by `r` places.
pub open spec fn ror32(x: u32, r: u32) -> u32 {
    (x >> r) | (x << ((32 - r) as u32))
}

/// A word of 64 bits rotated left by `r` places.
pub open spec fn rol64(x: u64, r: u32) -> u64 {
    (x << r) | (x >> ((64 - r) as u32))
}

/// Rotates a word of 32 bits to the right.
pub fn rotr(x: u32, r: u32) -> (y: u32)
    requires
        0 < r < 32,
    ensures
        y == ror32(x, r),
{
    (x >> r) | (x << (32 - r))
}

/// Rotates a word of 64 bits to the left.
pub fn rotl(x: u64, r: u32) -> (y: u64)
    requires
        0 < r < 64,
    ensures
        y == rol64(x, r),
{
    (x << r) | (x >> (64 - r))
}

/// The four bytes of a word give its value back, the most significant first.
pub proof fn law_be_bytes(w: u32)
    ensures
        be_bytes(w).len() == 4,
        0x100_0000 * be_bytes(w)[0] + 0x1_0000 * be_bytes(w)[1] + 0x100 * be_bytes(w)[2]
            + be_bytes(w)[3] == w,
        be32(be_bytes(w), 0) == w,
{
}

/// The four bytes of a word give its value back, the least significant first.
pub proof fn law_le_bytes(w: u32)
    ensures
        le_bytes(w).len() == 4,
        le_bytes(w)[0] + 0x100 * le_bytes(w)[1] + 0x1_0000 * le_bytes(w)[2] + 0x100_0000 * le_bytes(
            w,
        )[3] == w,
        le32(le_bytes(w), 0) == w,
{
}

/// Every word is read back from where its bytes were written, the most
/// significant byte first.
pub proof fn law_words_be_bytes(w: Seq<u32>)
    ensures
        words_be_bytes(w).len() == 4 * w.len(),
        forall|i: int| 0 <= i < w.len() ==> be32(words_be_bytes(w), 4 * i) == #[trigger] w[i],
    decreases w.len(),
{
    if w.len() > 0 {
        let head = w.drop_last();
        law_words_be_bytes(head);
        law_be_bytes(w.last());
        let all = words_be_bytes(w);
        let front = words_be_bytes(head);
        assert forall|i: int| 0 <= i < w.len() implies be32(all, 4 * i) == #[trigger] w[i] by {
            if i < head.len() {
                assert(be32(front, 4 * i) == head[i]);
                assert(all[4 * i] == front[4 * i] && all[4 * i + 1] == front[4 * i + 1] && all[4 * i
                    + 2] == front[4 * i + 2] && all[4 * i + 3] == front[4 * i + 3]);
            } else {
                let b = be_bytes(w.last());
                assert(all[4 * i] == b[0] && all[4 * i + 1] == b[1] && all[4 * i + 2] == b[2] && all[4
                    * i + 3] == b[3]);
            }
        }
    }
}

/// Every word is read back from where its bytes were written, the least
/// significant byte first.
pub proof fn law_words_le_bytes(w: Seq<u32>)
    ensures
        words_le_bytes(w).len() == 4 * w.len(),
        forall|i: int| 0 <= i < w.len() ==> le32(words_le_bytes(w), 4 * i) == #[trigger] w[i],
    decreases w.len(),
{
    if w.len() > 0 {
        let head = w.drop_last();
        law_words_le_bytes(head);
        law_le_bytes(w.last());
        let all = words_le_bytes(w);
        let front = words_le_bytes(head);
        assert forall|i: int| 0 <= i < w.len() implies le32(all, 4 * i) == #[trigger] w[i] by {
            if i < head.len() {
                assert(le32(front, 4 * i) == head[i]);
                assert(all[4 * i] == front[4 * i] && all[4 * i + 1] == front[4 * i + 1] && all[4 * i
                    + 2] == front[4 * i + 2] && all[4 * i + 3] == front[4 * i + 3]);
            } else {
                let b = le_bytes(w.last());
                assert(all[4 * i] == b[0] && all[4 * i + 1] == b[1] && all[4 * i + 2] == b[2] && all[4
                    * i + 3] == b[3]);
            }
        }
    }
}

} // verus!
