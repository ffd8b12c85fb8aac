use voicetime::codec::DecodeError;
use voicetime::store::Store;

const A: u64 = 7;
const B: u64 = 8;
const G1: u64 = 100;
const C1: u64 = 200;
const C2: u64 = 201;

fn le(x: u64) -> [u8; 8] {
    x.to_le_bytes()
}

#[test]
fn empty_input_degrades_to_empty_store() {
    // A missing or empty persistence file yields a fresh store, not a crash.
    assert!(Store::from_bytes(&[]).is_err());
    let s = Store::load_or_empty(&[]);
    assert_eq!(s.query_time(A, G1, None), 0);
    assert!(!s.is_excluded(A));
}

#[test]
fn end_to_end_accumulate_save_reload() {
    let mut s = Store::load_or_empty(&[]);
    s.apply_presence(A, Some((G1, C1)), 0);
    s.apply_presence(A, None, 120);
    assert_eq!(s.query_time(A, G1, Some(C1)), 120);
    let bytes = s.to_bytes();
    let reloaded = Store::from_bytes(&bytes).unwrap();
    assert_eq!(reloaded.query_time(A, G1, Some(C1)), 120);
}

#[test]
fn round_trip_preserves_exclusions_and_totals() {
    let mut s = Store::new();
    s.opt_out(B);
    s.opt_out(42);
    s.apply_presence(A, Some((G1, C1)), 0);
    s.apply_presence(A, Some((G1, C2)), 11);
    s.apply_presence(A, None, 30);
    s.apply_presence(5, Some((6, 7)), 2);
    s.apply_presence(5, None, 3);
    let bytes = s.to_bytes();
    let r = Store::from_bytes(&bytes).unwrap();
    assert!(r.is_excluded(B));
    assert!(r.is_excluded(42));
    assert!(!r.is_excluded(A));
    assert_eq!(r.query_time(A, G1, Some(C1)), 11);
    assert_eq!(r.query_time(A, G1, Some(C2)), 19);
    assert_eq!(r.query_time(A, G1, None), 30);
    assert_eq!(r.query_time(5, 6, Some(7)), 1);
    // Structural equality of the persisted parts, field by field.
    assert_eq!(r.excluded, s.excluded);
    assert_eq!(r.times.len(), s.times.len());
    for (ru, su) in r.times.iter().zip(s.times.iter()) {
        assert_eq!(ru.user, su.user);
        assert_eq!(ru.entries.len(), su.entries.len());
        for (re, se) in ru.entries.iter().zip(su.entries.iter()) {
            assert_eq!(re, se);
        }
    }
    // Sessions are runtime-only: never persisted.
    assert_eq!(r.sessions.len(), 0);
}

#[test]
fn encoding_layout_is_flat_little_endian() {
    let mut s = Store::new();
    s.opt_out(9);
    s.apply_presence(4, Some((5, 6)), 0);
    s.apply_presence(4, None, 77);
    let bytes = s.to_bytes();
    let mut expect = Vec::new();
    expect.extend_from_slice(&le(1)); // exclusion count
    expect.extend_from_slice(&le(9));
    expect.extend_from_slice(&le(1)); // user count
    expect.extend_from_slice(&le(4)); // user id
    expect.extend_from_slice(&le(1)); // entry count
    expect.extend_from_slice(&le(5)); // community
    expect.extend_from_slice(&le(6)); // channel
    expect.extend_from_slice(&le(77)); // seconds
    assert_eq!(bytes, expect);
}

#[test]
fn truncated_input_is_rejected() {
    let mut s = Store::new();
    s.opt_out(B);
    s.apply_presence(A, Some((G1, C1)), 0);
    s.apply_presence(A, None, 9);
    let bytes = s.to_bytes();
    for cut in 0..bytes.len() {
        let r = Store::from_bytes(&bytes[..cut]);
        assert_eq!(r.err(), Some(DecodeError::TruncatedInput));
    }
}

#[test]
fn trailing_bytes_are_ignored() {
    let mut s = Store::new();
    s.apply_presence(A, Some((G1, C1)), 0);
    s.apply_presence(A, None, 50);
    let mut bytes = s.to_bytes();
    bytes.extend_from_slice(&[1, 2, 3]);
    let r = Store::from_bytes(&bytes).unwrap();
    assert_eq!(r.query_time(A, G1, Some(C1)), 50);
}

#[test]
fn duplicate_keys_in_input_last_one_wins() {
    let mut bytes = Vec::new();
    bytes.extend_from_slice(&le(2)); // exclusion count, one id twice
    bytes.extend_from_slice(&le(B));
    bytes.extend_from_slice(&le(B));
    bytes.extend_from_slice(&le(2)); // user count, one user twice
    bytes.extend_from_slice(&le(A));
    bytes.extend_from_slice(&le(2)); // two entries with one key
    bytes.extend_from_slice(&le(G1));
    bytes.extend_from_slice(&le(C1));
    bytes.extend_from_slice(&le(10));
    bytes.extend_from_slice(&le(G1));
    bytes.extend_from_slice(&le(C1));
    bytes.extend_from_slice(&le(25));
    bytes.extend_from_slice(&le(A)); // the same user again
    bytes.extend_from_slice(&le(1));
    bytes.extend_from_slice(&le(G1));
    bytes.extend_from_slice(&le(C2));
    bytes.extend_from_slice(&le(40));
    let r = Store::from_bytes(&bytes).unwrap();
    assert!(r.is_excluded(B));
    assert_eq!(r.excluded.len(), 1);
    // The second binding of user A replaced the first entirely.
    assert_eq!(r.query_time(A, G1, Some(C1)), 0);
    assert_eq!(r.query_time(A, G1, Some(C2)), 40);
}

#[test]
fn accumulation_saturates_at_the_maximum() {
    let mut bytes = Vec::new();
    bytes.extend_from_slice(&le(0)); // nobody excluded
    bytes.extend_from_slice(&le(1));
    bytes.extend_from_slice(&le(A));
    bytes.extend_from_slice(&le(1));
    bytes.extend_from_slice(&le(G1));
    bytes.extend_from_slice(&le(C1));
    bytes.extend_from_slice(&le(u64::MAX - 10));
    let mut s = Store::from_bytes(&bytes).unwrap();
    s.apply_presence(A, Some((G1, C1)), 0);
    s.apply_presence(A, None, 100);
    assert_eq!(s.query_time(A, G1, Some(C1)), u64::MAX);
}

#[test]
fn malformed_file_loses_history_but_not_startup() {
    let s = Store::load_or_empty(&[0xff, 0x13, 0x77]);
    assert_eq!(s.query_time(A, G1, None), 0);
}
