//! xxHash64: a fast hash of 64 bits for cache keys and sharding. It is not a
//! cryptographic hash.
use vstd::prelude::*;
use crate::hash::words;
use crate::hash::words::{read_le32, read_le64, rotl};

verus! {

pub const P1: u64 = 0x9E37_79B1_85EB_CA87;

pub const P2: u64 = 0xC2B2_AE3D_27D4_EB4F;

pub const P3: u64 = 0x1656_67B1_9E37_79F9;

pub const P4: u64 = 0x85EB_CA77_C2B2_AE63;

pub const P5: u64 = 0x27D4_EB2F_1656_67C5;

/// One accumulator after it has taken in eight bytes.
pub open spec fn mixed(acc: u64, input: u64) -> u64 {
    words::rol64(acc.wrapping_add(input.wrapping_mul(P2)), 31).wrapping_mul(P1)
}

/// The hash after one accumulator has been merged into it.
pub open spec fn merged(acc: u64, val: u64) -> u64 {
    (acc ^ mixed(0, val)).wrapping_mul(P1).wrapping_add(P4)
}

/// The accumulators of the four lanes of a stripe.
#[verifier::ext_equal]
pub struct Lanes {
    pub v1: u64,
    pub v2: u64,
    pub v3: u64,
    pub v4: u64,
}

/// The four accumulators after the first `n` stripes of 32 bytes.
pub open spec fn lanes(data: Seq<u8>, seed: u64, n: nat) -> Lanes
    decreases n,
{
    if n == 0 {
        Lanes {
            v1: seed.wrapping_add(P1).wrapping_add(P2),
            v2: seed.wrapping_add(P2),
            v3: seed,
            v4: seed.wrapping_sub(P1),
        }
    } else {
        let l = lanes(data, seed, (n - 1) as nat);
        let p = 32 * (n - 1);
        Lanes {
            v1: mixed(l.v1, words::le64(data, p)),
            v2: mixed(l.v2, words::le64(data, p + 8)),
            v3: mixed(l.v3, words::le64(data, p + 16)),
            v4: mixed(l.v4, words::le64(data, p + 24)),
        }
    }
}

/// The hash of the four accumulators together.
pub open spec fn converged(l: Lanes) -> u64 {
    let h = words::rol64(l.v1, 1).wrapping_add(
        words::rol64(l.v2, 7),
    ).wrapping_add(words::rol64(l.v3, 12)).wrapping_add(
        words::rol64(l.v4, 18),
    );
    merged(merged(merged(merged(h, l.v1), l.v2), l.v3), l.v4)
}

/// The hash before the bytes that fill no stripe.
pub open spec fn body_hash(data: Seq<u8>, seed: u64) -> u64 {
    let h = if data.len() >= 32 {
        converged(lanes(data, seed, data.len() / 32))
    } else {
        seed.wrapping_add(P5)
    };
    h.wrapping_add(data.len() as u64)
}

/// The hash after the single bytes from `p` on.
pub open spec fn with_bytes(h: u64, data: Seq<u8>, p: int) -> u64
    decreases data.len() - p,
{
    if 0 <= p < data.len() {
        with_bytes(
            words::rol64(h ^ (data[p] as u64).wrapping_mul(P5), 11).wrapping_mul(P1),
            data,
            p + 1,
        )
    } else {
        h
    }
}

/// The hash after the bytes from `p` on: groups of eight, then at most one
/// group of four, then single bytes.
pub open spec fn with_tail(h: u64, data: Seq<u8>, p: int) -> u64
    decreases data.len() - p,
{
    if 0 <= p && p + 8 <= data.len() {
        with_tail(
            words::rol64(
                h ^ mixed(0, words::le64(data, p)),
                27,
            ).wrapping_mul(P1).wrapping_add(P4),
            data,
            p + 8,
        )
    } else if 0 <= p && p + 4 <= data.len() {
        with_bytes(
            words::rol64(
                h ^ (words::le32(data, p) as u64).wrapping_mul(P1),
                23,
            ).wrapping_mul(P2).wrapping_add(P3),
            data,
            p + 4,
        )
    } else {
        with_bytes(h, data, p)
    }
}

/// The last mixing of the bits.
pub open spec fn avalanche(h: u64) -> u64 {
    let a = (h ^ (h >> 33)).wrapping_mul(P2);
    let b = (a ^ (a >> 29)).wrapping_mul(P3);
    b ^ (b >> 32)
}

/// XXH64 of `data` with `seed`.
pub open spec fn digest(data: Seq<u8>, seed: u64) -> u64 {
    avalanche(with_tail(body_hash(data, seed), data, 32 * (data.len() as int / 32)))
}

proof fn lemma_lanes_prefix(a: Seq<u8>, b: Seq<u8>, seed: u64, n: nat)
    requires
        32 * n <= a.len(),
        32 * n <= b.len(),
        forall|i: int| 0 <= i < 32 * n ==> a[i] == b[i],
    ensures
        lanes(a, seed, n) == lanes(b, seed, n),
    decreases n,
{
    if n > 0 {
        lemma_lanes_prefix(a, b, seed, (n - 1) as nat);
        let p = 32 * (n - 1);
        assert(words::le64(a, p) == words::le64(b, p));
        assert(words::le64(a, p + 8) == words::le64(b, p + 8));
        assert(words::le64(a, p + 16) == words::le64(b, p + 16));
        assert(words::le64(a, p + 24) == words::le64(b, p + 24));
    }
}

/// Stripes are taken in one after the other, and each lane takes in its own
/// eight bytes of every stripe.
pub proof fn law_stripe_by_stripe(
    front: Seq<u8>,
    stripe: Seq<u8>,
    rest: Seq<u8>,
    seed: u64,
    n: nat,
)
    requires
        front.len() == 32 * n,
        stripe.len() == 32,
    ensures
        lanes(front + stripe + rest, seed, n + 1) == ({
            let l = lanes(front, seed, n);
            Lanes {
                v1: mixed(l.v1, words::le64(stripe.subrange(0, 8), 0)),
                v2: mixed(l.v2, words::le64(stripe.subrange(8, 16), 0)),
                v3: mixed(l.v3, words::le64(stripe.subrange(16, 24), 0)),
                v4: mixed(l.v4, words::le64(stripe.subrange(24, 32), 0)),
            }
        }),
{
    let s = front + stripe + rest;
    let p = 32 * n as int;
    lemma_lanes_prefix(s, front, seed, n);
    assert forall|i: int| 0 <= i < 32 implies s[p + i] == #[trigger] stripe[i] by {}
    assert(s[p + 4] == stripe[4] && s[p + 12] == stripe[12]);
    lemma_le64_at(s, p, stripe.subrange(0, 8));
    lemma_le64_at(s, p + 8, stripe.subrange(8, 16));
    lemma_le64_at(s, p + 16, stripe.subrange(16, 24));
    lemma_le64_at(s, p + 24, stripe.subrange(24, 32));
}

proof fn lemma_le64_at(s: Seq<u8>, p: int, part: Seq<u8>)
    requires
        0 <= p,
        p + 8 <= s.len(),
        part.len() == 8,
        forall|i: int| 0 <= i < 8 ==> s[p + i] == #[trigger] part[i],
    ensures
        words::le64(s, p) == words::le64(part, 0),
{
    assert(s[p + 0] == part[0] && s[p + 1] == part[1] && s[p + 2] == part[2] && s[p + 3] == part[3]);
    assert(s[p + 4] == part[4] && s[p + 5] == part[5] && s[p + 6] == part[6] && s[p + 7] == part[7]);
}

/// The whole length counts, and a short input takes in nothing else before its
/// bytes.
pub proof fn law_length_counts(data: Seq<u8>, seed: u64)
    ensures
        data.len() < 32 ==> body_hash(data, seed) == seed.wrapping_add(P5).wrapping_add(
            data.len() as u64,
        ),
        data.len() >= 32 ==> body_hash(data, seed) == converged(
            lanes(data, seed, data.len() / 32),
        ).wrapping_add(data.len() as u64),
{
}

proof fn lemma_bytes_shifted(h: u64, front: Seq<u8>, rest: Seq<u8>, p: int)
    requires
        0 <= p <= rest.len(),
    ensures
        with_bytes(h, front + rest, front.len() + p) == with_bytes(h, rest, p),
    decreases rest.len() - p,
{
    let s = front + rest;
    if p < rest.len() {
        assert(s[front.len() + p] == rest[p]);
        lemma_bytes_shifted(
            words::rol64(h ^ (rest[p] as u64).wrapping_mul(P5), 11).wrapping_mul(P1),
            front,
            rest,
            p + 1,
        );
    }
}

proof fn lemma_tail_shifted(h: u64, front: Seq<u8>, rest: Seq<u8>, p: int)
    requires
        0 <= p <= rest.len(),
    ensures
        with_tail(h, front + rest, front.len() + p) == with_tail(h, rest, p),
    decreases rest.len() - p,
{
    let s = front + rest;
    let q = front.len() + p;
    if p + 8 <= rest.len() {
        assert(s[q] == rest[p] && s[q + 1] == rest[p + 1] && s[q + 2] == rest[p + 2] && s[q + 3]
            == rest[p + 3]);
        assert(s[q + 4] == rest[p + 4] && s[q + 5] == rest[p + 5] && s[q + 6] == rest[p + 6] && s[q
            + 7] == rest[p + 7]);
        assert(words::le64(s, q) == words::le64(rest, p));
        lemma_tail_shifted(
            words::rol64(
                h ^ mixed(0, words::le64(rest, p)),
                27,
            ).wrapping_mul(P1).wrapping_add(P4),
            front,
            rest,
            p + 8,
        );
    } else if p + 4 <= rest.len() {
        assert(s[q] == rest[p] && s[q + 1] == rest[p + 1] && s[q + 2] == rest[p + 2] && s[q + 3]
            == rest[p + 3]);
        assert(words::le32(s, q) == words::le32(rest, p));
        lemma_bytes_shifted(
            words::rol64(
                h ^ (words::le32(rest, p) as u64).wrapping_mul(P1),
                23,
            ).wrapping_mul(P2).wrapping_add(P3),
            front,
            rest,
            p + 4,
        );
    } else {
        lemma_bytes_shifted(h, front, rest, p);
    }
}

/// Behind the stripes every byte is taken in once: groups of eight from the
/// front, then a group of four where one is left, then byte by byte.
pub proof fn law_tail_taken_in(h: u64, front: Seq<u8>, rest: Seq<u8>)
    ensures
        with_tail(h, front + rest, front.len() as int) == with_tail(h, rest, 0),
        rest.len() >= 8 ==> with_tail(h, rest, 0) == with_tail(
            words::rol64(
                h ^ mixed(0, words::le64(rest.take(8), 0)),
                27,
            ).wrapping_mul(P1).wrapping_add(P4),
            rest.skip(8),
            0,
        ),
        4 <= rest.len() < 8 ==> with_tail(h, rest, 0) == with_tail(
            words::rol64(
                h ^ (words::le32(rest.take(4), 0) as u64).wrapping_mul(P1),
                23,
            ).wrapping_mul(P2).wrapping_add(P3),
            rest.skip(4),
            0,
        ),
        0 < rest.len() < 4 ==> with_tail(h, rest, 0) == with_tail(
            words::rol64(h ^ (rest[0] as u64).wrapping_mul(P5), 11).wrapping_mul(P1),
            rest.skip(1),
            0,
        ),
        rest.len() == 0 ==> with_tail(h, rest, 0) == h,
{
    lemma_tail_shifted(h, front, rest, 0);
    if rest.len() >= 8 {
        let x = words::rol64(h ^ mixed(0, words::le64(rest, 0)), 27).wrapping_mul(P1).wrapping_add(P4);
        assert(rest.take(8) + rest.skip(8) =~= rest);
        assert(words::le64(rest.take(8), 0) == words::le64(rest, 0));
        lemma_tail_shifted(x, rest.take(8), rest.skip(8), 0);
    } else if rest.len() >= 4 {
        let x = words::rol64(
            h ^ (words::le32(rest, 0) as u64).wrapping_mul(P1),
            23,
        ).wrapping_mul(P2).wrapping_add(P3);
        assert(rest.take(4) + rest.skip(4) =~= rest);
        assert(words::le32(rest.take(4), 0) == words::le32(rest, 0));
        lemma_bytes_shifted(x, rest.take(4), rest.skip(4), 0);
    } else if rest.len() > 0 {
        let x = words::rol64(h ^ (rest[0] as u64).wrapping_mul(P5), 11).wrapping_mul(P1);
        assert(rest.take(1) + rest.skip(1) =~= rest);
        lemma_bytes_shifted(x, rest.take(1), rest.skip(1), 0);
    }
}

/// All of the input is hashed: whole stripes first, then the rest behind them.
pub proof fn law_all_hashed(stripes: Seq<u8>, rest: Seq<u8>, seed: u64)
    requires
        stripes.len() % 32 == 0,
        rest.len() < 32,
    ensures
        digest(stripes + rest, seed) == avalanche(
            with_tail(body_hash(stripes + rest, seed), rest, 0),
        ),
{
    let data = stripes + rest;
    assert(32 * (data.len() as int / 32) == stripes.len());
    lemma_tail_shifted(body_hash(data, seed), stripes, rest, 0);
}

fn round(acc: u64, input: u64) -> (r: u64)
    ensures
        r == mixed(acc, input),
{
    rotl(acc.wrapping_add(input.wrapping_mul(P2)), 31).wrapping_mul(P1)
}

fn merge_round(acc: u64, val: u64) -> (r: u64)
    ensures
        r == merged(acc, val),
{
    let v = round(0, val);
    (acc ^ v).wrapping_mul(P1).wrapping_add(P4)
}

/// XXH64 of the whole of `data` with the given seed.
pub fn xxh64(data: &[u8], seed: u64) -> (r: u64)
    ensures
        r == digest(data@, seed),
{
    let len: usize = data.len();
    let mut p: usize = 0;
    let mut h: u64;
    if len >= 32 {
        let mut v1 = seed.wrapping_add(P1).wrapping_add(P2);
        let mut v2 = seed.wrapping_add(P2);
        let mut v3 = seed;
        let mut v4 = seed.wrapping_sub(P1);
        let limit: usize = len - 32;
        let ghost mut n: nat = 0;
        while p <= limit
            invariant
                len == data@.len(),
                len >= 32,
                limit == len - 32,
                p == 32 * n,
                p <= len,
                lanes(data@, seed, n) == (Lanes { v1, v2, v3, v4 }),
            decreases len - p,
        {
            v1 = round(v1, read_le64(data, p));
            v2 = round(v2, read_le64(data, p + 8));
            v3 = round(v3, read_le64(data, p + 16));
            v4 = round(v4, read_le64(data, p + 24));
            proof {
                n = n + 1;
            }
            p += 32;
        }
        assert(n == data@.len() / 32);
        h = rotl(v1, 1).wrapping_add(rotl(v2, 7)).wrapping_add(rotl(v3, 12)).wrapping_add(
            rotl(v4, 18),
        );
        h = merge_round(h, v1);
        h = merge_round(h, v2);
        h = merge_round(h, v3);
        h = merge_round(h, v4);
    } else {
        h = seed.wrapping_add(P5);
    }
    h = h.wrapping_add(len as u64);
    let ghost whole = with_tail(h, data@, p as int);
    while len - p >= 8
        invariant
            len == data@.len(),
            p <= len,
            with_tail(h, data@, p as int) == whole,
        decreases len - p,
    {
        h = rotl(h ^ round(0, read_le64(data, p)), 27).wrapping_mul(P1).wrapping_add(P4);
        p += 8;
    }
    if len - p >= 4 {
        h = rotl(h ^ (read_le32(data, p) as u64).wrapping_mul(P1), 23).wrapping_mul(
            P2,
        ).wrapping_add(P3);
        p += 4;
    }
    assert(with_bytes(h, data@, p as int) == whole);
    while p < len
        invariant
            len == data@.len(),
            p <= len,
            with_bytes(h, data@, p as int) == whole,
        decreases len - p,
    {
        h = rotl(h ^ (data[p] as u64).wrapping_mul(P5), 11).wrapping_mul(P1);
        p += 1;
    }
    h = (h ^ (h >> 33)).wrapping_mul(P2);
    h = (h ^ (h >> 29)).wrapping_mul(P3);
    h ^ (h >> 32)
}

/// Byte `i` of the buffer on which the published test vectors are computed
/// comes from the top bits of this generator.
pub open spec fn sanity_generator(i: nat) -> u64
    decreases i,
{
    if i == 0 {
        2654435761
    } else {
        sanity_generator((i - 1) as nat).wrapping_mul(0x9E37_79B1_85EB_CA8D)
    }
}

/// The buffer on which the published test vectors are computed.
pub fn sanity_buffer() -> (r: Vec<u8>)
    ensures
        r@.len() == 2367,
        forall|i: int|
            0 <= i < 2367 ==> #[trigger] r@[i] == (sanity_generator(i as nat) >> 56) as u8,
{
    let mut state: u64 = 2654435761;
    let mut buf: Vec<u8> = Vec::new();
    let mut i: usize = 0;
    while i < 2367
        invariant
            i <= 2367,
            buf@.len() == i,
            state == sanity_generator(i as nat),
            forall|j: int|
                0 <= j < i ==> #[trigger] buf@[j] == (sanity_generator(j as nat) >> 56) as u8,
        decreases 2367 - i,
    {
        buf.push((state >> 56) as u8);
        state = state.wrapping_mul(0x9E37_79B1_85EB_CA8D);
        i += 1;
    }
    buf
}

} // verus!
