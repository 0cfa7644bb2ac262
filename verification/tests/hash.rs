use calisto::hash::blake3;
use calisto::hash::sha256;
use calisto::hash::xxh64::{sanity_buffer, xxh64};
use calisto::hash::{hash_blake3, hash_sha256, hash_xxh64, hexdigest};

#[test]
fn official_vectors() {
    let buf = sanity_buffer();
    let cases: &[(usize, u64, u64)] = &[
        (0, 0, 0xEF46DB3751D8E999),
        (0, 2654435761, 0xAC75FDA2929B17EF),
        (1, 0, 0xE934A84ADB052768),
        (1, 2654435761, 0x5014607643A9B4C3),
        (4, 0, 0x9136A0DCA57457EE),
        (14, 0, 0x8282DCC4994E35C8),
        (14, 2654435761, 0xC3BD6BF63DEB6DF0),
        (222, 0, 0xB641AE8CB691C174),
        (222, 2654435761, 0x20CB8AB7AE10C14A),
    ];
    for &(len, seed, expected) in cases {
        assert_eq!(
            xxh64(&buf[..len], seed),
            expected,
            "xxh64(len={len}, seed={seed})"
        );
    }
}

#[test]
fn seeds_can_be_left_out() {
    let buf = sanity_buffer();
    assert_eq!(hash_xxh64(&buf[..14], None), 0x8282DCC4994E35C8);
    assert_eq!(hash_xxh64(&buf[..14], Some(2654435761)), 0xC3BD6BF63DEB6DF0);
}

#[test]
fn matches_c_reference() {
    let buf = sanity_buffer();
    let cases: &[(usize, u64, u64)] = &[
        (32, 0, 0x18B216492BB44B70),
        (33, 0, 0x55C8DC3E578F5B59),
        (222, 0, 0xB641AE8CB691C174),
        (222, 2654435761, 0x20CB8AB7AE10C14A),
        (512, 0, 0x4358D2FDD62B58A7),
    ];
    for &(len, seed, expected) in cases {
        assert_eq!(xxh64(&buf[..len], seed), expected, "len={len} seed={seed}");
    }
}

#[test]
fn sha256_vectors() {
    assert_eq!(
        hash_sha256(b""),
        "e3b0c44298fc1c149afbf4c8996fb92427ae41e4649b934ca495991b7852b855"
    );
    assert_eq!(
        hash_sha256(b"abc"),
        "ba7816bf8f01cfea414140de5dae2223b00361a396177a9cb410ff61f20015ad"
    );
    assert_eq!(
        hash_sha256(b"abcdbcdecdefdefgefghfghighijhijkijkljklmklmnlmnomnopnopq"),
        "248d6a61d20638b8e5c026930c3e6039a33ce45964ff2167f6ecedd419db06c1"
    );
}

#[test]
fn sha256_of_a_million_letters() {
    let data = vec![b'a'; 1_000_000];
    assert_eq!(
        hexdigest(&sha256::hash(&data)),
        "cdc76e5c9914fb9281a1c7e284d73e67f1809a48a497200e046d39ccc7112cd0"
    );
}

#[test]
fn sha256_around_block_ends() {
    // The length field does not fit behind 56 bytes, and fits behind 55.
    assert_eq!(
        hash_sha256(&[b'a'; 55]),
        "9f4390f8d30c2dd92ec9f095b65e2b9ae9b0a925a5258e241c9f1e910f734318"
    );
    assert_eq!(
        hash_sha256(&[b'a'; 56]),
        "b35439a4ac6f0948b6d6f9e3c6af0f5f590ce20f1bde7090ef7970686ec6738a"
    );
    assert_eq!(
        hash_sha256(&[b'a'; 64]),
        "ffe054fe7ae0cb6dc65c3af9b61d5209f439851db43d0ba5997337df154668eb"
    );
}

fn pattern(len: usize) -> Vec<u8> {
    let mut v: Vec<u8> = Vec::new();
    for i in 0..len {
        v.push((i % 251) as u8);
    }
    v
}

#[test]
fn blake3_vectors() {
    let cases: &[(usize, &str)] = &[
        (0, "af1349b9f5f9a1a6a0404dea36dcc9499bcb25c9adc112b7cc9a93cae41f3262"),
        (1, "2d3adedff11b61f14c886e35afa036736dcd87a74d27b5c1510225d0f592e213"),
        (1023, "10108970eeda3eb932baac1428c7a2163b0e924c9a9e25b35bba72b28f70bd11"),
        (1024, "42214739f095a406f3fc83deb889744ac00df831c10daa55189b5d121c855af7"),
        (1025, "d00278ae47eb27b34faecf67b4fe263f82d5412916c1ffd97c8cb7fb814b8444"),
        (2048, "e776b6028c7cd22a4d0ba182a8bf62205d2ef576467e838ed6f2529b85fba24a"),
        (2049, "5f4d72f40d7a5f82b15ca2b2e44b1de3c2ef86c426c95c1af0b6879522563030"),
        (3072, "b98cb0ff3623be03326b373de6b9095218513e64f1ee2edd2525c7ad1e5cffd2"),
        (3073, "7124b49501012f81cc7f11ca069ec9226cecb8a2c850cfe644e327d22d3e1cd3"),
        (4096, "015094013f57a5277b59d8475c0501042c0b642e531b0a1c8f58d2163229e969"),
        (5120, "9cadc15fed8b5d854562b26a9536d9707cadeda9b143978f319ab34230535833"),
        (8192, "aae792484c8efe4f19e2ca7d371d8c467ffb10748d8a5a1ae579948f718a2a63"),
        (31744, "62b6960e1a44bcc1eb1a611a8d6235b6b4b78f32e7abc4fb4c6cdcce94895c47"),
    ];
    for &(len, expected) in cases {
        assert_eq!(hash_blake3(&pattern(len)), expected, "len={len}");
    }
    assert_eq!(hexdigest(&blake3::hash(b"")), hash_blake3(b""));
}
