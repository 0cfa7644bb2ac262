//! SHA-256, as FIPS 180-4 defines it.
use vstd::prelude::*;
use vstd::slice::slice_subrange;
use crate::hash::words;
use crate::hash::words::{read_be32, rotr, write_be};

verus! {

/// The constants of the sixty-four rounds.
pub const K: [u32; 64] = [
    0x428a2f98, 0x71374491, 0xb5c0fbcf, 0xe9b5dba5, 0x3956c25b, 0x59f111f1, 0x923f82a4, 0xab1c5ed5,
    0xd807aa98, 0x12835b01, 0x243185be, 0x550c7dc3, 0x72be5d74, 0x80deb1fe, 0x9bdc06a7, 0xc19bf174,
    0xe49b69c1, 0xefbe4786, 0x0fc19dc6, 0x240ca1cc, 0x2de92c6f, 0x4a7484aa, 0x5cb0a9dc, 0x76f988da,
    0x983e5152, 0xa831c66d, 0xb00327c8, 0xbf597fc7, 0xc6e00bf3, 0xd5a79147, 0x06ca6351, 0x14292967,
    0x27b70a85, 0x2e1b2138, 0x4d2c6dfc, 0x53380d13, 0x650a7354, 0x766a0abb, 0x81c2c92e, 0x92722c85,
    0xa2bfe8a1, 0xa81a664b, 0xc24b8b70, 0xc76c51a3, 0xd192e819, 0xd6990624, 0xf40e3585, 0x106aa070,
    0x19a4c116, 0x1e376c08, 0x2748774c, 0x34b0bcb5, 0x391c0cb3, 0x4ed8aa4a, 0x5b9cca4f, 0x682e6ff3,
    0x748f82ee, 0x78a5636f, 0x84c87814, 0x8cc70208, 0x90befffa, 0xa4506ceb, 0xbef9a3f7, 0xc67178f2,
];

/// The first hash value.
pub const H0: [u32; 8] = [
    0x6a09e667, 0xbb67ae85, 0x3c6ef372, 0xa54ff53a, 0x510e527f, 0x9b05688c, 0x1f83d9ab, 0x5be0cd19,
];

pub open spec fn ch(x: u32, y: u32, z: u32) -> u32 {
    (x & y) ^ (!x & z)
}

pub open spec fn maj(x: u32, y: u32, z: u32) -> u32 {
    (x & y) ^ (x & z) ^ (y & z)
}

pub open spec fn big_sigma0(x: u32) -> u32 {
    words::ror32(x, 2) ^ words::ror32(x, 13) ^ words::ror32(x, 22)
}

pub open spec fn big_sigma1(x: u32) -> u32 {
    words::ror32(x, 6) ^ words::ror32(x, 11) ^ words::ror32(x, 25)
}

pub open spec fn small_sigma0(x: u32) -> u32 {
    words::ror32(x, 7) ^ words::ror32(x, 18) ^ (x >> 3)
}

pub open spec fn small_sigma1(x: u32) -> u32 {
    words::ror32(x, 17) ^ words::ror32(x, 19) ^ (x >> 10)
}

/// The first `n` words of the message schedule of a block.
pub open spec fn schedule(block: Seq<u8>, n: nat) -> Seq<u32>
    decreases n,
{
    if n == 0 {
        Seq::empty()
    } else {
        let w = schedule(block, (n - 1) as nat);
        let t = n - 1;
        w.push(
            if t < 16 {
                words::be32(block, 4 * t)
            } else {
                small_sigma1(w[t - 2]).wrapping_add(w[t - 7]).wrapping_add(
                    small_sigma0(w[t - 15]),
                ).wrapping_add(w[t - 16])
            },
        )
    }
}

/// The eight working variables.
pub struct Work {
    pub a: u32,
    pub b: u32,
    pub c: u32,
    pub d: u32,
    pub e: u32,
    pub f: u32,
    pub g: u32,
    pub h: u32,
}

/// The working variables after the first `n` rounds.
pub open spec fn rounds(hash: Seq<u32>, w: Seq<u32>, n: nat) -> Work
    decreases n,
{
    if n == 0 {
        Work {
            a: hash[0],
            b: hash[1],
            c: hash[2],
            d: hash[3],
            e: hash[4],
            f: hash[5],
            g: hash[6],
            h: hash[7],
        }
    } else {
        let v = rounds(hash, w, (n - 1) as nat);
        let t1 = v.h.wrapping_add(big_sigma1(v.e)).wrapping_add(ch(v.e, v.f, v.g)).wrapping_add(
            K@[n - 1],
        ).wrapping_add(w[n - 1]);
        let t2 = big_sigma0(v.a).wrapping_add(maj(v.a, v.b, v.c));
        Work {
            a: t1.wrapping_add(t2),
            b: v.a,
            c: v.b,
            d: v.c,
            e: v.d.wrapping_add(t1),
            f: v.e,
            g: v.f,
            h: v.g,
        }
    }
}

/// The hash value after one more block.
pub open spec fn compressed(hash: Seq<u32>, block: Seq<u8>) -> Seq<u32> {
    let v = rounds(hash, schedule(block, 64), 64);
    seq![
        hash[0].wrapping_add(v.a),
        hash[1].wrapping_add(v.b),
        hash[2].wrapping_add(v.c),
        hash[3].wrapping_add(v.d),
        hash[4].wrapping_add(v.e),
        hash[5].wrapping_add(v.f),
        hash[6].wrapping_add(v.g),
        hash[7].wrapping_add(v.h),
    ]
}

/// The hash value after the first `n` blocks of a padded message.
pub open spec fn chained(padded: Seq<u8>, n: nat) -> Seq<u32>
    decreases n,
{
    if n == 0 {
        H0@
    } else {
        compressed(chained(padded, (n - 1) as nat), padded.subrange(64 * (n - 1), 64 * n as int))
    }
}

/// The length of a message in bits, modulo 2^64, in eight bytes with the most
/// significant first.
pub open spec fn bit_length(len: nat) -> Seq<u8> {
    let bits = (8 * len) % 0x1_0000_0000_0000_0000;
    words::be_bytes((bits / 0x1_0000_0000) as u32) + words::be_bytes((bits % 0x1_0000_0000) as u32)
}

/// A message with its padding: a one bit, then zeros, then its length in the
/// last eight bytes of a block.
pub open spec fn padded(msg: Seq<u8>) -> Seq<u8> {
    msg + seq![0x80u8] + Seq::new(((119 - msg.len() % 64) % 64) as nat, |i: int| 0u8) + bit_length(
        msg.len(),
    )
}

/// The digest of a message.
pub open spec fn digest(msg: Seq<u8>) -> Seq<u8> {
    words::words_be_bytes(chained(padded(msg), padded(msg).len() / 64))
}

/// A padded message is the message itself, a one bit behind it, zeros, and its
/// length in bits; it fills whole blocks, and no more of them than it needs.
pub proof fn law_padded(msg: Seq<u8>)
    ensures
        ({
            let p = padded(msg);
            let n = p.len() as int;
            &&& n % 64 == 0
            &&& msg.len() + 9 <= n < msg.len() + 9 + 64
            &&& p.take(msg.len() as int) == msg
            &&& p[msg.len() as int] == 0x80
            &&& forall|i: int| msg.len() < i < n - 8 ==> #[trigger] p[i] == 0
            &&& 0x100_0000_0000_0000 * p[n - 8] + 0x1_0000_0000_0000 * p[n - 7] + 0x100_0000_0000
                * p[n - 6] + 0x1_0000_0000 * p[n - 5] + 0x100_0000 * p[n - 4] + 0x1_0000 * p[n - 3]
                + 0x100 * p[n - 2] + p[n - 1] == (8 * msg.len()) % 0x1_0000_0000_0000_0000
        }),
{
    let p = padded(msg);
    let n = p.len() as int;
    assert(p.take(msg.len() as int) =~= msg);
    let l = bit_length(msg.len());
    assert(l.len() == 8);
    assert(p.skip(n - 8) =~= l);
    assert forall|k: int| 0 <= k < 8 implies p[n - 8 + k] == #[trigger] l[k] by {
        assert(p.skip(n - 8)[k] == l[k]);
    }
    let bits = (8 * msg.len()) % 0x1_0000_0000_0000_0000;
    let hi = (bits / 0x1_0000_0000) as u32;
    let lo = (bits % 0x1_0000_0000) as u32;
    assert(bits == 0x1_0000_0000 * hi + lo);
    words::law_be_bytes(hi);
    words::law_be_bytes(lo);
    assert(l[0] == words::be_bytes(hi)[0] && l[1] == words::be_bytes(hi)[1] && l[2]
        == words::be_bytes(hi)[2] && l[3] == words::be_bytes(hi)[3]);
    assert(l[4] == words::be_bytes(lo)[0] && l[5] == words::be_bytes(lo)[1] && l[6]
        == words::be_bytes(lo)[2] && l[7] == words::be_bytes(lo)[3]);
}

proof fn lemma_chained_prefix(p: Seq<u8>, q: Seq<u8>, n: nat)
    requires
        64 * n <= p.len(),
        64 * n <= q.len(),
        p.take(64 * n as int) == q.take(64 * n as int),
    ensures
        chained(p, n) == chained(q, n),
    decreases n,
{
    if n > 0 {
        let m = (n - 1) as nat;
        assert(p.take(64 * m as int) =~= p.take(64 * n as int).take(64 * m as int));
        assert(q.take(64 * m as int) =~= q.take(64 * n as int).take(64 * m as int));
        lemma_chained_prefix(p, q, m);
        assert(p.subrange(64 * m as int, 64 * n as int) =~= p.take(64 * n as int).skip(64 * m as int));
        assert(q.subrange(64 * m as int, 64 * n as int) =~= q.take(64 * n as int).skip(64 * m as int));
    }
}

/// Blocks are hashed one after the other, each into what the blocks before it
/// gave: one block more is one compression more, with that block.
pub proof fn law_block_by_block(front: Seq<u8>, block: Seq<u8>, rest: Seq<u8>, n: nat)
    requires
        front.len() == 64 * n,
        block.len() == 64,
    ensures
        chained(front + block + rest, n + 1) == compressed(chained(front, n), block),
        chained(rest, 0) == H0@,
{
    let p = front + block + rest;
    assert(p.take(64 * n as int) =~= front.take(64 * n as int));
    lemma_chained_prefix(p, front, n);
    assert(p.subrange(64 * n as int, 64 * (n + 1) as int) =~= block);
}

/// A digest is all eight words of the hash value after the last block.
pub proof fn law_digest_words(msg: Seq<u8>)
    ensures
        ({
            let h = chained(padded(msg), padded(msg).len() / 64);
            &&& h.len() == 8
            &&& digest(msg).len() == 32
            &&& forall|i: int| 0 <= i < 8 ==> words::be32(digest(msg), 4 * i) == #[trigger] h[i]
        }),
{
    let h = chained(padded(msg), padded(msg).len() / 64);
    law_padded(msg);
    assert(h.len() == 8);
    words::law_words_be_bytes(h);
}

fn message_schedule(block: &[u8]) -> (w: Vec<u32>)
    requires
        block@.len() == 64,
    ensures
        w@ == schedule(block@, 64),
        w@.len() == 64,
{
    let mut w: Vec<u32> = Vec::new();
    let mut t: usize = 0;
    while t < 64
        invariant
            t <= 64,
            block@.len() == 64,
            w@ == schedule(block@, t as nat),
            w@.len() == t,
        decreases 64 - t,
    {
        let x: u32 = if t < 16 {
            read_be32(block, 4 * t)
        } else {
            let w2 = w[t - 2];
            let w15 = w[t - 15];
            let s1 = rotr(w2, 17) ^ rotr(w2, 19) ^ (w2 >> 10);
            let s0 = rotr(w15, 7) ^ rotr(w15, 18) ^ (w15 >> 3);
            s1.wrapping_add(w[t - 7]).wrapping_add(s0).wrapping_add(w[t - 16])
        };
        w.push(x);
        t += 1;
    }
    w
}

fn compress(hash: &mut [u32; 8], block: &[u8])
    requires
        block@.len() == 64,
    ensures
        final(hash)@ == compressed(old(hash)@, block@),
{
    let w = message_schedule(block);
    let ghost start = hash@;
    let mut a = hash[0];
    let mut b = hash[1];
    let mut c = hash[2];
    let mut d = hash[3];
    let mut e = hash[4];
    let mut f = hash[5];
    let mut g = hash[6];
    let mut h = hash[7];
    let mut t: usize = 0;
    while t < 64
        invariant
            t <= 64,
            w@.len() == 64,
            rounds(start, w@, t as nat) == (Work { a, b, c, d, e, f, g, h }),
        decreases 64 - t,
    {
        let s1 = rotr(e, 6) ^ rotr(e, 11) ^ rotr(e, 25);
        let choice = (e & f) ^ (!e & g);
        let t1 = h.wrapping_add(s1).wrapping_add(choice).wrapping_add(K[t]).wrapping_add(w[t]);
        let s0 = rotr(a, 2) ^ rotr(a, 13) ^ rotr(a, 22);
        let majority = (a & b) ^ (a & c) ^ (b & c);
        let t2 = s0.wrapping_add(majority);
        h = g;
        g = f;
        f = e;
        e = d.wrapping_add(t1);
        d = c;
        c = b;
        b = a;
        a = t1.wrapping_add(t2);
        t += 1;
    }
    hash[0] = hash[0].wrapping_add(a);
    hash[1] = hash[1].wrapping_add(b);
    hash[2] = hash[2].wrapping_add(c);
    hash[3] = hash[3].wrapping_add(d);
    hash[4] = hash[4].wrapping_add(e);
    hash[5] = hash[5].wrapping_add(f);
    hash[6] = hash[6].wrapping_add(g);
    hash[7] = hash[7].wrapping_add(h);
    assert(hash@ =~= compressed(start, block@));
}

/// The last block or two of a message: what fills no block of its own, and
/// the padding.
fn last_blocks(input: &[u8], start: usize) -> (tail: Vec<u8>)
    requires
        start == 64 * (input@.len() / 64),
    ensures
        tail@ == padded(input@).skip(start as int),
        tail@.len() == 64 || tail@.len() == 128,
{
    let len: usize = input.len();
    let mut tail: Vec<u8> = Vec::new();
    let mut i: usize = start;
    while i < len
        invariant
            start <= i <= len,
            len == input@.len(),
            tail@ == input@.subrange(start as int, i as int),
        decreases len - i,
    {
        tail.push(input[i]);
        i += 1;
        assert(tail@ =~= input@.subrange(start as int, i as int));
    }
    tail.push(0x80);
    let zeros: usize = (119 - len % 64) % 64;
    let ghost head = tail@;
    let mut j: usize = 0;
    while j < zeros
        invariant
            j <= zeros,
            tail@ == head + Seq::new(j as nat, |i: int| 0u8),
        decreases zeros - j,
    {
        tail.push(0);
        j += 1;
        assert(tail@ =~= head + Seq::new(j as nat, |i: int| 0u8));
    }
    let bits: u64 = (len as u64).wrapping_mul(8);
    assert(bits == (8 * len) % 0x1_0000_0000_0000_0000);
    let halves: [u32; 2] = [(bits / 0x1_0000_0000) as u32, (bits % 0x1_0000_0000) as u32];
    let mut length = write_be(halves.as_slice());
    assert(length@ =~= bit_length(input@.len())) by {
        reveal_with_fuel(words::words_be_bytes, 3);
        assert(halves@.drop_last() =~= seq![halves@[0]]);
        assert(halves@.drop_last().drop_last() =~= Seq::<u32>::empty());
    }
    tail.append(&mut length);
    assert(tail@ =~= padded(input@).skip(start as int));
    tail
}

/// The SHA-256 digest of `input`.
pub fn hash(input: &[u8]) -> (r: [u8; 32])
    ensures
        r@ == digest(input@),
{
    let ghost whole = padded(input@);
    let mut h: [u32; 8] = H0;
    let blocks: usize = input.len() / 64;
    let mut i: usize = 0;
    while i < blocks
        invariant
            i <= blocks,
            blocks == input@.len() / 64,
            whole == padded(input@),
            h@ == chained(whole, i as nat),
        decreases blocks - i,
    {
        assert(64 * i + 64 <= input.len());
        let block = slice_subrange(input, 64 * i, 64 * i + 64);
        assert(block@ =~= whole.subrange(64 * i as int, 64 * (i + 1)));
        compress(&mut h, block);
        i += 1;
    }
    let start: usize = 64 * blocks;
    let tail = last_blocks(input, start);
    let first = slice_subrange(tail.as_slice(), 0, 64);
    assert(first@ =~= whole.subrange(64 * blocks as int, 64 * (blocks + 1)));
    compress(&mut h, first);
    assert(h@ == chained(whole, (blocks + 1) as nat));
    if tail.len() == 128 {
        let second = slice_subrange(tail.as_slice(), 64, 128);
        assert(second@ =~= whole.subrange(64 * (blocks + 1), 64 * (blocks + 2)));
        compress(&mut h, second);
        assert(h@ == chained(whole, (blocks + 2) as nat));
        assert(whole.len() / 64 == blocks + 2);
    } else {
        assert(whole.len() / 64 == blocks + 1);
    }
    let bytes = write_be(h.as_slice());
    let mut r: [u8; 32] = [0; 32];
    let mut j: usize = 0;
    while j < 32
        invariant
            j <= 32,
            bytes@.len() == 32,
            forall|k: int| 0 <= k < j ==> r@[k] == bytes@[k],
        decreases 32 - j,
    {
        r[j] = bytes[j];
        j += 1;
    }
    assert(r@ =~= bytes@);
    r
}

} // verus!
