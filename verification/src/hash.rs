//! Hashes of bytes.
pub mod blake3;
pub mod sha256;
pub mod words;
pub mod xxh64;

use vstd::prelude::*;
use crate::number;
use crate::number::hex_of;

verus! {

/// A digest of 32 bytes, written in lower-case hexadecimal digits.
pub fn hexdigest(digest: &[u8]) -> (r: String)
    requires
        digest@.len() == 32,
    ensures
        r@ == number::bytes_hex(digest@),
{
    hex_of(digest)
}

/// The SHA-256 digest of bytes, in hexadecimal digits.
pub fn hash_sha256(data: &[u8]) -> (r: String)
    ensures
        r@ == number::bytes_hex(sha256::digest(data@)),
{
    let d = sha256::hash(data);
    hexdigest(d.as_slice())
}

/// The BLAKE3 digest of bytes, in hexadecimal digits.
pub fn hash_blake3(data: &[u8]) -> (r: String)
    ensures
        r@ == number::bytes_hex(blake3::digest(data@)),
{
    let d = blake3::hash(data);
    hexdigest(d.as_slice())
}

/// The XXH64 hash of bytes with a seed, which is zero where none is given.
pub fn hash_xxh64(data: &[u8], seed: Option<u64>) -> (r: u64)
    ensures
        r == xxh64::digest(
            data@,
            match seed {
                Some(s) => s,
                None => 0,
            },
        ),
{
    let s: u64 = match seed {
        Some(s) => s,
        None => 0,
    };
    xxh64::xxh64(data, s)
}

} // verus!
