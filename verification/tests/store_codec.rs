//! The review-state store and the record codec: upserts, deletes, and the
//! write-then-read round trip.

use hashcards::codec::{decode_record, encode_record, RECORD_BYTES};
use hashcards::store::{record_is_wf, store_header_ok, store_is_wf, Store};
use hashcards::types::{default_params, CardState, Fingerprint, ReviewRecord};

fn fp(n: u128) -> Fingerprint {
    Fingerprint { hi: n, lo: n.wrapping_mul(7) }
}

fn sample_record() -> ReviewRecord {
    ReviewRecord {
        state: CardState::Review,
        due: 1_700_000_000,
        interval: 864_000,
        lapse_interval: 0,
        ease: 2500,
        reps: 11,
        lapses: 2,
        step: 0,
        last_reviewed: Some(1_699_000_000),
    }
}

#[test]
fn codec_round_trips_a_record() {
    let rec = sample_record();
    let bytes = encode_record(&rec);
    assert_eq!(bytes.len(), RECORD_BYTES);
    let back = decode_record(&bytes).expect("well-formed encoding");
    assert_eq!(back, rec);
}

#[test]
fn codec_round_trips_without_last_reviewed() {
    let mut rec = sample_record();
    rec.state = CardState::Learning;
    rec.step = 1;
    rec.last_reviewed = None;
    let bytes = encode_record(&rec);
    let back = decode_record(&bytes).expect("well-formed encoding");
    assert_eq!(back, rec);
}

#[test]
fn codec_rejects_wrong_length() {
    let rec = sample_record();
    let mut bytes = encode_record(&rec);
    bytes.pop();
    assert_eq!(decode_record(&bytes), None);
}

#[test]
fn codec_rejects_unknown_state_tag() {
    let rec = sample_record();
    let mut bytes = encode_record(&rec);
    bytes[0] = 9;
    assert_eq!(decode_record(&bytes), None);
}

#[test]
fn codec_rejects_bad_presence_flag() {
    let rec = sample_record();
    let mut bytes = encode_record(&rec);
    bytes[41] = 7;
    assert_eq!(decode_record(&bytes), None);
}

#[test]
fn store_put_then_get_returns_the_record() {
    let mut store = Store::new();
    let rec = sample_record();
    store.put(fp(1), rec);
    assert_eq!(store.get(&fp(1)), Some(rec));
    assert_eq!(store.get(&fp(2)), None);
}

#[test]
fn store_put_overwrites() {
    let mut store = Store::new();
    let mut rec = sample_record();
    store.put(fp(1), rec);
    rec.reps = 99;
    store.put(fp(1), rec);
    let got = store.get(&fp(1)).expect("present");
    assert_eq!(got.reps, 99);
    assert_eq!(store.rows().len(), 1);
}

#[test]
fn store_delete_removes_only_that_key() {
    let mut store = Store::new();
    let rec = sample_record();
    store.put(fp(1), rec);
    store.put(fp(2), rec);
    store.delete(&fp(1));
    assert_eq!(store.get(&fp(1)), None);
    assert_eq!(store.get(&fp(2)), Some(rec));
    store.delete(&fp(3));
    assert_eq!(store.rows().len(), 1);
}

#[test]
fn store_round_trips_through_the_codec() {
    let mut store = Store::new();
    store.put(fp(1), sample_record());
    let rows = store.rows().clone();
    let mut reloaded = Store::new();
    for (key, rec) in rows {
        let bytes = encode_record(&rec);
        let back = decode_record(&bytes).expect("well-formed encoding");
        reloaded.put(key, back);
    }
    assert_eq!(reloaded.get(&fp(1)), Some(sample_record()));
}

#[test]
fn well_formedness_checks_accept_and_reject() {
    let p = default_params();
    let rec = sample_record();
    assert!(record_is_wf(&rec, &p));
    let mut bad = rec;
    bad.ease = 100;
    assert!(!record_is_wf(&bad, &p));
    let mut store = Store::new();
    store.put(fp(1), rec);
    assert!(store_is_wf(&store, &p));
    store.put(fp(2), bad);
    assert!(!store_is_wf(&store, &p));
}

#[test]
fn store_file_round_trips() {
    let mut store = Store::new();
    store.put(fp(1), sample_record());
    let mut other = sample_record();
    other.state = CardState::Relearning;
    other.lapses = 4;
    store.put(fp(9), other);
    let bytes = store.to_bytes();
    let reloaded = Store::from_bytes(&bytes).expect("well-formed file");
    assert_eq!(reloaded.get(&fp(1)), Some(sample_record()));
    assert_eq!(reloaded.get(&fp(9)), Some(other));
    assert_eq!(reloaded.rows().len(), 2);
}

#[test]
fn store_file_rejects_truncation_and_corruption() {
    let mut store = Store::new();
    store.put(fp(1), sample_record());
    let bytes = store.to_bytes();
    assert!(Store::from_bytes(&bytes[..bytes.len() - 1]).is_none());
    let mut corrupt = bytes.clone();
    corrupt[40] = 200;
    assert!(Store::from_bytes(&corrupt).is_none());
    assert!(Store::from_bytes(&[]).is_none());
    assert!(Store::from_bytes(&Store::new().to_bytes()).is_some());
}

#[test]
fn store_file_requires_the_schema_header() {
    let mut store = Store::new();
    store.put(fp(1), sample_record());
    let mut bytes = store.to_bytes();
    assert!(store_header_ok(&bytes));
    bytes[4] = 2;
    assert!(!store_header_ok(&bytes));
    assert!(Store::from_bytes(&bytes).is_none());
}
