//! BLAKE3 of a whole input.
//!
//! The input is cut into chunks of 1024 bytes, which are the leaves of a
//! binary tree. The left subtree of a node holds the largest power of two of
//! chunks that leaves at least one chunk for the right subtree.
use vstd::prelude::*;
use vstd::slice::slice_subrange;
use crate::hash::words;
use crate::hash::words::{read_le32, rotr, write_le};

verus! {

pub const CHUNK_START: u32 = 1;

pub const CHUNK_END: u32 = 2;

pub const PARENT: u32 = 4;

pub const ROOT: u32 = 8;

pub const IV: [u32; 8] = [
    0x6A09E667, 0xBB67AE85, 0x3C6EF372, 0xA54FF53A, 0x510E527F, 0x9B05688C, 0x1F83D9AB, 0x5BE0CD19,
];

pub const MSG_PERMUTATION: [usize; 16] = [2, 6, 3, 10, 7, 0, 4, 13, 1, 11, 12, 5, 9, 14, 15, 8];

/// The state after the quarter round on the four given places.
pub open spec fn mixed(s: Seq<u32>, a: int, b: int, c: int, d: int, mx: u32, my: u32) -> Seq<u32> {
    let a1 = s[a].wrapping_add(s[b]).wrapping_add(mx);
    let d1 = words::ror32(s[d] ^ a1, 16);
    let c1 = s[c].wrapping_add(d1);
    let b1 = words::ror32(s[b] ^ c1, 12);
    let a2 = a1.wrapping_add(b1).wrapping_add(my);
    let d2 = words::ror32(d1 ^ a2, 8);
    let c2 = c1.wrapping_add(d2);
    let b2 = words::ror32(b1 ^ c2, 7);
    s.update(a, a2).update(b, b2).update(c, c2).update(d, d2)
}

/// The state after one round: the four columns, then the four diagonals.
pub open spec fn rounded(s: Seq<u32>, m: Seq<u32>) -> Seq<u32> {
    let s = mixed(s, 0, 4, 8, 12, m[0], m[1]);
    let s = mixed(s, 1, 5, 9, 13, m[2], m[3]);
    let s = mixed(s, 2, 6, 10, 14, m[4], m[5]);
    let s = mixed(s, 3, 7, 11, 15, m[6], m[7]);
    let s = mixed(s, 0, 5, 10, 15, m[8], m[9]);
    let s = mixed(s, 1, 6, 11, 12, m[10], m[11]);
    let s = mixed(s, 2, 7, 8, 13, m[12], m[13]);
    mixed(s, 3, 4, 9, 14, m[14], m[15])
}

/// The message words in the order of the next round.
pub open spec fn permuted(m: Seq<u32>) -> Seq<u32> {
    Seq::new(16, |i: int| m[MSG_PERMUTATION@[i] as int])
}

/// The state after `n` more rounds that begin with the message words `m`.
pub open spec fn after_rounds(s: Seq<u32>, m: Seq<u32>, n: nat) -> Seq<u32>
    decreases n,
{
    if n == 0 {
        s
    } else {
        after_rounds(rounded(s, m), permuted(m), (n - 1) as nat)
    }
}

/// The sixteen words with which a compression begins.
pub open spec fn start_state(cv: Seq<u32>, counter: u64, block_len: u32, flags: u32) -> Seq<u32> {
    cv + seq![
        IV@[0],
        IV@[1],
        IV@[2],
        IV@[3],
        counter as u32,
        (counter >> 32) as u32,
        block_len,
        flags,
    ]
}

/// The sixteen words that the compression of a block gives.
#[verifier::opaque]
pub open spec fn compressed(
    cv: Seq<u32>,
    block: Seq<u32>,
    counter: u64,
    block_len: u32,
    flags: u32,
) -> Seq<u32> {
    let s = after_rounds(start_state(cv, counter, block_len, flags), block, 7);
    Seq::new(
        16,
        |i: int|
            if i < 8 {
                s[i] ^ s[i + 8]
            } else {
                s[i] ^ cv[i - 8]
            },
    )
}

/// What the last compression of a node takes in: the chaining value of the
/// node follows from it, and so does the digest, where the node is the root.
#[verifier::ext_equal]
pub struct Output {
    pub cv: Seq<u32>,
    pub block: Seq<u32>,
    pub counter: u64,
    pub block_len: u32,
    pub flags: u32,
}

/// The chaining value of a node.
pub open spec fn chaining(o: Output) -> Seq<u32> {
    compressed(o.cv, o.block, o.counter, o.block_len, o.flags).take(8)
}

/// The sixteen words of a block of at most 64 bytes, filled up with zeros.
pub open spec fn words_of(bytes: Seq<u8>) -> Seq<u32> {
    let full = bytes + Seq::new((64 - bytes.len()) as nat, |i: int| 0u8);
    Seq::new(16, |i: int| words::le32(full, 4 * i))
}

/// The number of blocks of a chunk before its last one.
pub open spec fn blocks_before_last(len: nat) -> nat {
    if len == 0 {
        0
    } else {
        ((len - 1) / 64) as nat
    }
}

/// The chaining value of a chunk after its first `n` blocks, of which none is
/// the last one.
pub open spec fn chunk_cv(chunk: Seq<u8>, counter: u64, n: nat) -> Seq<u32>
    decreases n,
{
    if n == 0 {
        IV@
    } else {
        compressed(
            chunk_cv(chunk, counter, (n - 1) as nat),
            words_of(chunk.subrange(64 * (n - 1), 64 * n as int)),
            counter,
            64,
            if n == 1 {
                CHUNK_START
            } else {
                0
            },
        ).take(8)
    }
}

/// The output of a leaf: its last block.
#[verifier::opaque]
pub open spec fn chunk_output(chunk: Seq<u8>, counter: u64) -> Output {
    let n = blocks_before_last(chunk.len());
    Output {
        cv: chunk_cv(chunk, counter, n),
        block: words_of(chunk.skip(64 * n as int)),
        counter,
        block_len: (chunk.len() - 64 * n) as u32,
        flags: CHUNK_END | (if n == 0 {
            CHUNK_START
        } else {
            0u32
        }),
    }
}

/// The output of a node with two children.
pub open spec fn parent_of(left: Seq<u32>, right: Seq<u32>) -> Output {
    Output { cv: IV@, block: left + right, counter: 0, block_len: 64, flags: PARENT }
}

/// The largest power of two below `n`, for `n` of at least two.
pub open spec fn left_len(n: nat) -> nat
    decreases n,
{
    if n <= 2 {
        1
    } else {
        2 * left_len((n + 1) / 2)
    }
}

/// Chunk `i` of the input.
pub open spec fn chunk_at(input: Seq<u8>, i: nat) -> Seq<u8> {
    let end = if 1024 * (i + 1) <= input.len() {
        1024 * (i + 1)
    } else {
        input.len()
    };
    input.subrange(1024 * i as int, end as int)
}

/// The number of chunks of an input of `len` bytes; an empty input is one
/// empty chunk.
pub open spec fn chunk_count(len: nat) -> nat {
    if len == 0 {
        1
    } else {
        ((len - 1) / 1024 + 1) as nat
    }
}

/// The output of the subtree of the `n` chunks from chunk `first` on.
pub open spec fn tree(input: Seq<u8>, first: nat, n: nat) -> Output
    decreases n,
    when n >= 1
    via tree_decreases
{
    if n == 1 {
        chunk_output(chunk_at(input, first), first as u64)
    } else {
        let l = left_len(n);
        parent_of(chaining(tree(input, first, l)), chaining(tree(input, first + l, (n - l) as nat)))
    }
}

#[via_fn]
proof fn tree_decreases(input: Seq<u8>, first: nat, n: nat) {
    if n > 1 {
        lemma_left_len(n);
    }
}

proof fn lemma_left_len(n: nat)
    requires
        n >= 2,
    ensures
        1 <= left_len(n) < n,
    decreases n,
{
    if n > 2 {
        lemma_left_len((n + 1) / 2);
    }
}

/// The bytes of the digest that a root gives.
pub open spec fn root_bytes(o: Output) -> Seq<u8> {
    words::words_le_bytes(
        compressed(o.cv, o.block, 0, o.block_len, o.flags | ROOT).take(8),
    )
}

/// The digest of an input.
pub open spec fn digest(input: Seq<u8>) -> Seq<u8> {
    root_bytes(tree(input, 0, chunk_count(input.len())))
}

spec fn two_to(k: nat) -> nat
    decreases k,
{
    if k == 0 {
        1
    } else {
        2 * two_to((k - 1) as nat)
    }
}

proof fn lemma_two_to_positive(k: nat)
    ensures
        two_to(k) >= 1,
    decreases k,
{
    if k > 0 {
        lemma_two_to_positive((k - 1) as nat);
    }
}

proof fn lemma_left_len_split(k: nat, r: nat)
    requires
        1 <= r <= two_to(k),
    ensures
        left_len(two_to(k) + r) == two_to(k),
    decreases k,
{
    if k > 0 {
        let p = two_to((k - 1) as nat);
        lemma_two_to_positive((k - 1) as nat);
        lemma_left_len_split((k - 1) as nat, (r + 1) / 2);
        assert((two_to(k) + r + 1) / 2 == p + (r + 1) / 2);
    }
}

/// A compression begins with the chaining value and the whole of the counter.
pub proof fn law_start_state(cv: Seq<u32>, counter: u64, block_len: u32, flags: u32)
    requires
        cv.len() == 8,
    ensures
        ({
            let s = start_state(cv, counter, block_len, flags);
            &&& s.len() == 16
            &&& s.take(8) == cv
            &&& s[12] + 0x1_0000_0000 * s[13] == counter
            &&& s[14] == block_len
            &&& s[15] == flags
        }),
{
    let s = start_state(cv, counter, block_len, flags);
    assert(s.take(8) =~= cv);
    assert(counter as u32 == counter % 0x1_0000_0000) by (bit_vector);
    assert((counter >> 32) as u32 == counter / 0x1_0000_0000) by (bit_vector);
}

/// The words of a block hold its bytes in their order, and zeros behind them.
pub proof fn law_words_of(bytes: Seq<u8>)
    requires
        bytes.len() <= 64,
    ensures
        words_of(bytes).len() == 16,
        forall|i: int|
            #![trigger words_of(bytes)[i]]
            0 <= i < 16 ==> {
                let at = |j: int|
                    if j < bytes.len() {
                        bytes[j] as int
                    } else {
                        0
                    };
                words_of(bytes)[i] == at(4 * i) + 0x100 * at(4 * i + 1) + 0x1_0000 * at(4 * i + 2)
                    + 0x100_0000 * at(4 * i + 3)
            },
{
}

/// The chunks of an input hold all of its bytes: byte `j` stands in its chunk,
/// all chunks but the last are full, and the last is not empty unless the input
/// is.
pub proof fn law_chunks(input: Seq<u8>, j: int)
    ensures
        ({
            let n = chunk_count(input.len());
            &&& n >= 1
            &&& chunk_at(input, (n - 1) as nat).len() + 1024 * (n - 1) == input.len()
            &&& input.len() > 0 ==> 0 < chunk_at(input, (n - 1) as nat).len() <= 1024
            &&& forall|i: nat| i + 1 < n ==> (#[trigger] chunk_at(input, i)).len() == 1024
            &&& 0 <= j < input.len() ==> j / 1024 < n && input[j] == chunk_at(
                input,
                (j / 1024) as nat,
            )[j % 1024]
        }),
{
}

proof fn lemma_chunk_prefix(a: Seq<u8>, b: Seq<u8>, counter: u64, n: nat)
    requires
        64 * n <= a.len(),
        64 * n <= b.len(),
        a.take(64 * n as int) == b.take(64 * n as int),
    ensures
        chunk_cv(a, counter, n) == chunk_cv(b, counter, n),
    decreases n,
{
    if n > 0 {
        let m = (n - 1) as nat;
        assert(a.take(64 * m as int) =~= a.take(64 * n as int).take(64 * m as int));
        assert(b.take(64 * m as int) =~= b.take(64 * n as int).take(64 * m as int));
        lemma_chunk_prefix(a, b, counter, m);
        assert(a.subrange(64 * m as int, 64 * n as int) =~= a.take(64 * n as int).skip(64 * m as int));
        assert(b.subrange(64 * m as int, 64 * n as int) =~= b.take(64 * n as int).skip(64 * m as int));
    }
}

/// The blocks of a chunk are compressed one after the other under the number of
/// the chunk; the first one is marked.
pub proof fn law_chunk_by_block(
    front: Seq<u8>,
    block: Seq<u8>,
    rest: Seq<u8>,
    counter: u64,
    n: nat,
)
    requires
        front.len() == 64 * n,
        block.len() == 64,
    ensures
        chunk_cv(front + block + rest, counter, n + 1) == compressed(
            chunk_cv(front, counter, n),
            words_of(block),
            counter,
            64,
            if n == 0 {
                CHUNK_START
            } else {
                0
            },
        ).take(8),
        chunk_cv(front, counter, 0) == IV@,
{
    let s = front + block + rest;
    assert(s.take(64 * n as int) =~= front.take(64 * n as int));
    lemma_chunk_prefix(s, front, counter, n);
    assert(s.subrange(64 * n as int, 64 * (n + 1) as int) =~= block);
}

/// A chunk ends with its last block, which need not be full: its length counts,
/// and it is marked as the last one.
pub proof fn law_chunk_end(front: Seq<u8>, last: Seq<u8>, counter: u64, n: nat)
    requires
        front.len() == 64 * n,
        last.len() <= 64,
        n > 0 ==> last.len() > 0,
    ensures
        ({
            let o = chunk_output(front + last, counter);
            &&& o.cv == chunk_cv(front, counter, n)
            &&& o.block == words_of(last)
            &&& o.counter == counter
            &&& o.block_len == last.len()
            &&& n == 0 ==> o.flags == 3
            &&& n > 0 ==> o.flags == 2
        }),
{
    reveal(chunk_output);
    let s = front + last;
    assert(blocks_before_last(s.len()) == n);
    assert(s.take(64 * n as int) =~= front.take(64 * n as int));
    lemma_chunk_prefix(s, front, counter, n);
    assert(s.skip(64 * n as int) =~= last);
    assert(CHUNK_END | CHUNK_START == 3) by (bit_vector);
    assert(CHUNK_END | 0u32 == 2) by (bit_vector);
}

/// Whether a number is a power of two.
pub open spec fn is_power(n: nat) -> bool
    decreases n,
{
    n == 1 || (n > 1 && n % 2 == 0 && is_power(n / 2))
}

/// The left subtree holds a power of two of chunks: as many as leave at least
/// one chunk for the right one, which holds no more.
pub proof fn law_left_len(n: nat)
    requires
        n >= 2,
    ensures
        is_power(left_len(n)),
        left_len(n) < n <= 2 * left_len(n),
    decreases n,
{
    if n > 2 {
        law_left_len((n + 1) / 2);
    }
}

/// A node stands for its two subtrees, the left one first: nothing but their
/// chaining values goes into it, and only the root is marked as one.
pub proof fn law_tree(input: Seq<u8>, first: nat, n: nat)
    requires
        n >= 2,
    ensures
        ({
            let l = left_len(n);
            let o = tree(input, first, n);
            &&& o.cv == IV@
            &&& o.block == chaining(tree(input, first, l)) + chaining(
                tree(input, first + l, (n - l) as nat),
            )
            &&& o.counter == 0 && o.block_len == 64 && o.flags == 4
        }),
        tree(input, first, 1) == chunk_output(chunk_at(input, first), first as u64),
{
    lemma_left_len(n);
}

/// The chaining value of the complete subtree number `j` among those of
/// height `k`.
spec fn full_subtree(input: Seq<u8>, k: nat, j: nat) -> Seq<u32> {
    chaining(tree(input, j * two_to(k), two_to(k)))
}

proof fn lemma_full_subtree(input: Seq<u8>, k: nat, j: nat)
    ensures
        full_subtree(input, k + 1, j) == chaining(
            parent_of(full_subtree(input, k, 2 * j), full_subtree(input, k, 2 * j + 1)),
        ),
{
    let p = two_to(k);
    lemma_two_to_positive(k);
    lemma_left_len_split(k, p);
    assert(two_to(k + 1) == 2 * p);
    assert(j * (2 * p) == (2 * j) * p) by (nonlinear_arith);
    assert((2 * j) * p + p == (2 * j + 1) * p) by (nonlinear_arith);
}

/// The chaining values that wait on the stack once `m` subtrees of height `k`
/// are complete.
spec fn waiting(input: Seq<u8>, k: nat, m: nat) -> Seq<Seq<u32>>
    decreases m,
{
    if m == 0 {
        Seq::empty()
    } else if m % 2 == 1 {
        waiting(input, k + 1, m / 2).push(full_subtree(input, k, (m - 1) as nat))
    } else {
        waiting(input, k + 1, m / 2)
    }
}

/// The output that comes of joining the waiting chaining values, the last one
/// first, to the left of `o`.
spec fn joined(stack: Seq<Seq<u32>>, o: Output) -> Output
    decreases stack.len(),
{
    if stack.len() == 0 {
        o
    } else {
        joined(stack.drop_last(), parent_of(stack.last(), chaining(o)))
    }
}

proof fn lemma_joined(input: Seq<u8>, k: nat, m: nat, r: nat)
    requires
        1 <= r <= two_to(k),
    ensures
        joined(waiting(input, k, m), tree(input, m * two_to(k), r)) == tree(
            input,
            0,
            m * two_to(k) + r,
        ),
    decreases m,
{
    let p = two_to(k);
    assert(two_to(k + 1) == 2 * p);
    if m == 0 {
        assert(0 * p == 0);
    } else if m % 2 == 0 {
        lemma_joined(input, k + 1, m / 2, r);
        assert((m / 2) * (2 * p) == m * p) by (nonlinear_arith)
            requires
                m % 2 == 0,
        ;
    } else {
        let h = (m / 2) as nat;
        lemma_left_len_split(k, r);
        lemma_joined(input, k + 1, h, p + r);
        assert(h * (2 * p) == (m - 1) * p) by (nonlinear_arith)
            requires
                m == 2 * h + 1,
        ;
        assert((m - 1) * p + p == m * p) by (nonlinear_arith);
        let s = waiting(input, k, m);
        assert(s.drop_last() =~= waiting(input, k + 1, h));
        assert(s.last() == full_subtree(input, k, (m - 1) as nat));
        assert(parent_of(s.last(), chaining(tree(input, m * p, r))) == tree(
            input,
            ((m - 1) * p) as nat,
            p + r,
        ));
    }
}

fn g(state: &mut [u32; 16], a: usize, b: usize, c: usize, d: usize, mx: u32, my: u32)
    requires
        a < b < 16,
        b < c < 16,
        c < d < 16 || b < d < c,
    ensures
        final(state)@ == mixed(
            old(state)@,
            a as int,
            b as int,
            c as int,
            d as int,
            mx,
            my,
        ),
{
    let ghost s = state@;
    state[a] = state[a].wrapping_add(state[b]).wrapping_add(mx);
    state[d] = rotr(state[d] ^ state[a], 16);
    state[c] = state[c].wrapping_add(state[d]);
    state[b] = rotr(state[b] ^ state[c], 12);
    state[a] = state[a].wrapping_add(state[b]).wrapping_add(my);
    state[d] = rotr(state[d] ^ state[a], 8);
    state[c] = state[c].wrapping_add(state[d]);
    state[b] = rotr(state[b] ^ state[c], 7);
    assert(state@ =~= mixed(s, a as int, b as int, c as int, d as int, mx, my));
}

fn round(state: &mut [u32; 16], m: &[u32; 16])
    ensures
        final(state)@ == rounded(old(state)@, m@),
{
    g(state, 0, 4, 8, 12, m[0], m[1]);
    g(state, 1, 5, 9, 13, m[2], m[3]);
    g(state, 2, 6, 10, 14, m[4], m[5]);
    g(state, 3, 7, 11, 15, m[6], m[7]);
    g(state, 0, 5, 10, 15, m[8], m[9]);
    g(state, 1, 6, 11, 12, m[10], m[11]);
    g(state, 2, 7, 8, 13, m[12], m[13]);
    g(state, 3, 4, 9, 14, m[14], m[15]);
}

fn permute(m: &[u32; 16]) -> (r: [u32; 16])
    ensures
        r@ == permuted(m@),
{
    let r = [
        m[2], m[6], m[3], m[10], m[7], m[0], m[4], m[13], m[1], m[11], m[12], m[5], m[9], m[14], m[15], m[8],
    ];
    assert(r@ =~= permuted(m@));
    r
}

fn compress(
    cv: &[u32; 8],
    block_words: &[u32; 16],
    counter: u64,
    block_len: u32,
    flags: u32,
) -> (r: [u32; 16])
    ensures
        r@ == compressed(cv@, block_words@, counter, block_len, flags),
{
    let mut state: [u32; 16] = [
        cv[0], cv[1], cv[2], cv[3], cv[4], cv[5], cv[6], cv[7], IV[0], IV[1], IV[2], IV[3],
        counter as u32, (counter >> 32) as u32, block_len, flags,
    ];
    let ghost start = state@;
    assert(start =~= cv@ + seq![
        IV@[0],
        IV@[1],
        IV@[2],
        IV@[3],
        counter as u32,
        (counter >> 32) as u32,
        block_len,
        flags,
    ]);
    let mut block: [u32; 16] = *block_words;
    let mut i: usize = 0;
    while i < 7
        invariant
            i <= 7,
            after_rounds(state@, block@, (7 - i) as nat) == after_rounds(start, block_words@, 7),
        decreases 7 - i,
    {
        round(&mut state, &block);
        block = permute(&block);
        i += 1;
    }
    let ghost s = state@;
    let r: [u32; 16] = [
        state[0] ^ state[8],
        state[1] ^ state[9],
        state[2] ^ state[10],
        state[3] ^ state[11],
        state[4] ^ state[12],
        state[5] ^ state[13],
        state[6] ^ state[14],
        state[7] ^ state[15],
        state[8] ^ cv[0],
        state[9] ^ cv[1],
        state[10] ^ cv[2],
        state[11] ^ cv[3],
        state[12] ^ cv[4],
        state[13] ^ cv[5],
        state[14] ^ cv[6],
        state[15] ^ cv[7],
    ];
    assert(r@ =~= compressed(cv@, block_words@, counter, block_len, flags)) by {
        reveal(compressed);
    }
    r
}

fn first_8_words(out: [u32; 16]) -> (r: [u32; 8])
    ensures
        r@ == out@.take(8),
{
    let r = [out[0], out[1], out[2], out[3], out[4], out[5], out[6], out[7]];
    assert(r@ =~= out@.take(8));
    r
}

/// The last block of a node, before it is compressed.
struct ChunkOutput {
    input_cv: [u32; 8],
    block_words: [u32; 16],
    counter: u64,
    block_len: u32,
    flags: u32,
}

impl ChunkOutput {
    spec fn output(&self) -> Output {
        Output {
            cv: self.input_cv@,
            block: self.block_words@,
            counter: self.counter,
            block_len: self.block_len,
            flags: self.flags,
        }
    }

    fn chaining_value(&self) -> (r: [u32; 8])
        ensures
            r@ == chaining(self.output()),
    {
        first_8_words(
            compress(
                &self.input_cv,
                &self.block_words,
                self.counter,
                self.block_len,
                self.flags,
            ),
        )
    }
}

fn words(block: &[u8]) -> (r: [u32; 16])
    requires
        block@.len() <= 64,
    ensures
        r@ == words_of(block@),
{
    let ghost whole = block@ + Seq::new((64 - block@.len()) as nat, |i: int| 0u8);
    let mut full: Vec<u8> = Vec::new();
    let mut i: usize = 0;
    while i < 64
        invariant
            i <= 64,
            block@.len() <= 64,
            whole == block@ + Seq::new((64 - block@.len()) as nat, |i: int| 0u8),
            full@ == whole.take(i as int),
        decreases 64 - i,
    {
        full.push(
            if i < block.len() {
                block[i]
            } else {
                0
            },
        );
        i += 1;
        assert(full@ =~= whole.take(i as int));
    }
    assert(full@ =~= whole);
    let mut r: [u32; 16] = [0; 16];
    let mut j: usize = 0;
    while j < 16
        invariant
            j <= 16,
            full@.len() == 64,
            forall|k: int| 0 <= k < j ==> #[trigger] r@[k] == words::le32(full@, 4 * k),
        decreases 16 - j,
    {
        r[j] = read_le32(full.as_slice(), 4 * j);
        j += 1;
    }
    assert(r@ =~= words_of(block@));
    r
}

fn process_chunk(chunk: &[u8], chunk_counter: u64) -> (r: ([u32; 8], ChunkOutput))
    requires
        chunk@.len() <= 1024,
    ensures
        r.1.output() == chunk_output(chunk@, chunk_counter),
        r.0@ == chaining(r.1.output()),
{
    let mut cv: [u32; 8] = IV;
    let n_update: usize = if chunk.len() == 0 {
        0
    } else {
        (chunk.len() - 1) / 64
    };
    let mut i: usize = 0;
    while i < n_update
        invariant
            i <= n_update,
            n_update == blocks_before_last(chunk@.len()),
            chunk@.len() <= 1024,
            cv@ == chunk_cv(chunk@, chunk_counter, i as nat),
        decreases n_update - i,
    {
        let block = slice_subrange(chunk, 64 * i, 64 * i + 64);
        let block_words = words(block);
        let flags: u32 = if i == 0 {
            CHUNK_START
        } else {
            0
        };
        cv = first_8_words(compress(&cv, &block_words, chunk_counter, 64, flags));
        i += 1;
    }
    let rem = slice_subrange(chunk, 64 * n_update, chunk.len());
    assert(rem@ =~= chunk@.skip(64 * n_update as int));
    let flags: u32 = CHUNK_END | (if n_update == 0 {
        CHUNK_START
    } else {
        0u32
    });
    let out = ChunkOutput {
        input_cv: cv,
        block_words: words(rem),
        counter: chunk_counter,
        block_len: rem.len() as u32,
        flags,
    };
    assert(out.output() =~= chunk_output(chunk@, chunk_counter)) by {
        reveal(chunk_output);
    }
    let chunk_cv = out.chaining_value();
    (chunk_cv, out)
}

fn parent_output(left_cv: [u32; 8], right_cv: [u32; 8]) -> (r: ChunkOutput)
    ensures
        r.output() == parent_of(left_cv@, right_cv@),
{
    let l = left_cv;
    let t = right_cv;
    let block_words: [u32; 16] = [
        l[0], l[1], l[2], l[3], l[4], l[5], l[6], l[7], t[0], t[1], t[2], t[3], t[4], t[5], t[6], t[7],
    ];
    let r = ChunkOutput { input_cv: IV, block_words, counter: 0, block_len: 64, flags: PARENT };
    assert(r.output() =~= parent_of(left_cv@, right_cv@));
    r
}

fn parent_cv(left_cv: [u32; 8], right_cv: [u32; 8]) -> (r: [u32; 8])
    ensures
        r@ == chaining(parent_of(left_cv@, right_cv@)),
{
    parent_output(left_cv, right_cv).chaining_value()
}

fn root_output_bytes(out: &ChunkOutput) -> (r: [u8; 32])
    ensures
        r@ == root_bytes(out.output()),
{
    let words = compress(&out.input_cv, &out.block_words, 0, out.block_len, out.flags | ROOT);
    let bytes = write_le(words.as_slice(), 8);
    let mut r: [u8; 32] = [0; 32];
    let mut j: usize = 0;
    while j < 32
        invariant
            j <= 32,
            bytes@.len() == 32,
            forall|k: int| 0 <= k < j ==> r@[k] == bytes@[k],
        decreases 32 - j,
    {
        r[j] = bytes[j];
        j += 1;
    }
    assert(r@ =~= bytes@);
    r
}

spec fn stack_view(stack: Seq<[u32; 8]>) -> Seq<Seq<u32>> {
    stack.map_values(|cv: [u32; 8]| cv@)
}

/// Puts the chaining value of one more complete chunk on the stack, and joins
/// it with every waiting subtree of its own size.
fn add_chunk(cv_stack: &mut Vec<[u32; 8]>, cv: [u32; 8], idx: usize, Ghost(input): Ghost<Seq<u8>>)
    requires
        idx < usize::MAX,
        stack_view(old(cv_stack)@) == waiting(input, 0, idx as nat),
        cv@ == full_subtree(input, 0, idx as nat),
    ensures
        stack_view(final(cv_stack)@) == waiting(input, 0, (idx + 1) as nat),
{
    let mut total: usize = idx + 1;
    let mut new_cv: [u32; 8] = cv;
    let ghost mut k: nat = 0;
    while total % 2 == 0
        invariant
            total > 0,
            new_cv@ == full_subtree(input, k, (total - 1) as nat),
            stack_view(cv_stack@) == waiting(input, k, (total - 1) as nat),
            waiting(input, k, total as nat) == waiting(input, 0, (idx + 1) as nat),
        decreases total,
    {
        let ghost before = stack_view(cv_stack@);
        let ghost m = (total - 1) as nat;
        let ghost h = (total / 2) as nat;
        assert(m % 2 == 1 && m / 2 == h - 1);
        assert(before.last() == full_subtree(input, k, (m - 1) as nat));
        assert(before.drop_last() =~= waiting(input, k + 1, (h - 1) as nat));
        assert(cv_stack@.len() > 0);
        match cv_stack.pop() {
            Some(left) => {
                assert(stack_view(cv_stack@) =~= before.drop_last());
                assert(left@ == before.last());
                new_cv = parent_cv(left, new_cv);
            },
            None => {},
        }
        proof {
            lemma_full_subtree(input, k, (h - 1) as nat);
            assert(2 * (h - 1) == m - 1);
            assert(2 * (h - 1) + 1 == m);
            k = k + 1;
        }
        total = total / 2;
    }
    let ghost before = stack_view(cv_stack@);
    cv_stack.push(new_cv);
    assert(stack_view(cv_stack@) =~= before.push(new_cv@));
    assert((total - 1) / 2 == total / 2);
    assert(waiting(input, k, (total - 1) as nat) == waiting(input, k + 1, (total / 2) as nat));
}

/// The BLAKE3 digest of `input`.
pub fn hash(input: &[u8]) -> (r: [u8; 32])
    ensures
        r@ == digest(input@),
{
    let mut cv_stack: Vec<[u32; 8]> = Vec::new();
    let n_chunks: usize = if input.len() == 0 {
        1
    } else {
        (input.len() - 1) / 1024 + 1
    };
    let mut idx: usize = 0;
    assert(stack_view(cv_stack@) =~= waiting(input@, 0, 0));
    while idx + 1 < n_chunks
        invariant
            idx < n_chunks,
            n_chunks == chunk_count(input@.len()),
            1024 * (n_chunks - 1) <= input@.len() <= usize::MAX,
            stack_view(cv_stack@) == waiting(input@, 0, idx as nat),
        decreases n_chunks - idx,
    {
        let chunk = slice_subrange(input, 1024 * idx, 1024 * idx + 1024);
        assert(chunk@ =~= chunk_at(input@, idx as nat));
        let (cv, out) = process_chunk(chunk, idx as u64);
        assert(idx * two_to(0) == idx) by (nonlinear_arith)
            requires
                two_to(0) == 1,
        ;
        add_chunk(&mut cv_stack, cv, idx, Ghost(input@));
        idx += 1;
    }
    let chunk = slice_subrange(input, 1024 * idx, input.len());
    assert(chunk@ =~= chunk_at(input@, idx as nat));
    let (_cv, last) = process_chunk(chunk, idx as u64);
    let mut out = last;
    let mut remaining: usize = cv_stack.len();
    proof {
        lemma_joined(input@, 0, idx as nat, 1);
        assert(idx * two_to(0) == idx) by (nonlinear_arith)
            requires
                two_to(0) == 1,
        ;
        assert(stack_view(cv_stack@).take(remaining as int) =~= stack_view(cv_stack@));
    }
    let ghost root = tree(input@, 0, chunk_count(input@.len()));
    while remaining > 0
        invariant
            remaining <= cv_stack@.len(),
            joined(stack_view(cv_stack@).take(remaining as int), out.output()) == root,
        decreases remaining,
    {
        let ghost upto = stack_view(cv_stack@).take(remaining as int);
        remaining -= 1;
        assert(upto.drop_last() =~= stack_view(cv_stack@).take(remaining as int));
        assert(upto.last() == cv_stack@[remaining as int]@);
        out = parent_output(cv_stack[remaining], out.chaining_value());
    }
    root_output_bytes(&out)
}

} // verus!
