//! Request decoding: grade names and hexadecimal fingerprints.

use hashcards::protocol::{parse_fingerprint_hex, parse_grade};
use hashcards::types::{Fingerprint, Grade};

#[test]
fn grade_names_parse_exactly() {
    assert_eq!(parse_grade(&"again".to_owned()), Some(Grade::Again));
    assert_eq!(parse_grade(&"hard".to_owned()), Some(Grade::Hard));
    assert_eq!(parse_grade(&"good".to_owned()), Some(Grade::Good));
    assert_eq!(parse_grade(&"easy".to_owned()), Some(Grade::Easy));
    assert_eq!(parse_grade(&"GOOD".to_owned()), None);
    assert_eq!(parse_grade(&"ok".to_owned()), None);
}

#[test]
fn fingerprint_hex_round_trips() {
    let fp = Fingerprint { hi: 0xdeadbeef_01234567, lo: 0xfeed_cafe };
    let hex = format!("{:032x}{:032x}", fp.hi, fp.lo);
    assert_eq!(parse_fingerprint_hex(hex.as_bytes()), Some(fp));
}

#[test]
fn fingerprint_hex_rejects_bad_input() {
    assert_eq!(parse_fingerprint_hex(b"abc"), None);
    let upper = "A".repeat(64);
    assert_eq!(parse_fingerprint_hex(upper.as_bytes()), None);
    let bad = "g".repeat(64);
    assert_eq!(parse_fingerprint_hex(bad.as_bytes()), None);
    let ok = "0".repeat(64);
    assert_eq!(
        parse_fingerprint_hex(ok.as_bytes()),
        Some(Fingerprint { hi: 0, lo: 0 })
    );
}
