//! Card fingerprints: derived from the SHA-256 content digest.

use hashcards::digest::fingerprint_of_bytes;

#[test]
fn empty_content_hashes_to_the_known_digest() {
    // SHA-256 of the empty string, packed little-endian into the two words.
    let expected: [u8; 32] = [
        0xe3, 0xb0, 0xc4, 0x42, 0x98, 0xfc, 0x1c, 0x14, 0x9a, 0xfb, 0xf4, 0xc8, 0x99, 0x6f,
        0xb9, 0x24, 0x27, 0xae, 0x41, 0xe4, 0x64, 0x9b, 0x93, 0x4c, 0xa4, 0x95, 0x99, 0x1b,
        0x78, 0x52, 0xb8, 0x55,
    ];
    let fp = fingerprint_of_bytes(b"");
    let mut hi = [0u8; 16];
    hi.copy_from_slice(&expected[..16]);
    let mut lo = [0u8; 16];
    lo.copy_from_slice(&expected[16..]);
    assert_eq!(fp.hi, u128::from_le_bytes(hi));
    assert_eq!(fp.lo, u128::from_le_bytes(lo));
}

#[test]
fn fingerprints_are_stable_and_content_sensitive() {
    let a = fingerprint_of_bytes(b"front\tback");
    let b = fingerprint_of_bytes(b"front\tother");
    assert_ne!(a, b);
    assert_eq!(a, fingerprint_of_bytes(b"front\tback"));
}
