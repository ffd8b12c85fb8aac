use voicetime::store::Store;

const A: u64 = 11;
const B: u64 = 22;
const G1: u64 = 1001;
const G2: u64 = 1002;
const C1: u64 = 51;
const C2: u64 = 52;
const C3: u64 = 53;

#[test]
fn empty_store_queries_zero() {
    let s = Store::new();
    assert_eq!(s.query_time(A, G1, None), 0);
    assert_eq!(s.query_time(A, G1, Some(C1)), 0);
}

#[test]
fn session_close_credits_elapsed_time() {
    let mut s = Store::new();
    s.apply_presence(A, Some((G1, C1)), 10);
    // Open sessions are not visible to queries.
    assert_eq!(s.query_time(A, G1, Some(C1)), 0);
    s.apply_presence(A, Some((G1, C2)), 25);
    // The closed (G1, C1) session is settled; the new one is still open.
    assert_eq!(s.query_time(A, G1, Some(C1)), 15);
    assert_eq!(s.query_time(A, G1, Some(C2)), 0);
    s.apply_presence(A, None, 40);
    assert_eq!(s.query_time(A, G1, Some(C1)), 15);
    assert_eq!(s.query_time(A, G1, Some(C2)), 15);
    assert_eq!(s.query_time(A, G1, None), 30);
}

#[test]
fn move_between_channels_is_close_then_open() {
    let mut s = Store::new();
    // A "move" to the same channel also closes and reopens: time settles.
    s.apply_presence(A, Some((G1, C1)), 0);
    s.apply_presence(A, Some((G1, C1)), 60);
    assert_eq!(s.query_time(A, G1, Some(C1)), 60);
    s.apply_presence(A, None, 90);
    assert_eq!(s.query_time(A, G1, Some(C1)), 90);
}

#[test]
fn excluded_user_accrues_nothing() {
    let mut s = Store::new();
    s.opt_out(B);
    s.apply_presence(B, Some((G1, C1)), 0);
    s.apply_presence(B, None, 500);
    assert_eq!(s.query_time(B, G1, None), 0);
    assert_eq!(s.query_time(B, G1, Some(C1)), 0);
}

#[test]
fn opt_in_restores_accounting() {
    let mut s = Store::new();
    s.opt_out(A);
    s.apply_presence(A, Some((G1, C1)), 0);
    s.apply_presence(A, None, 100);
    assert_eq!(s.query_time(A, G1, None), 0);
    s.opt_in(A);
    s.apply_presence(A, Some((G1, C1)), 200);
    s.apply_presence(A, None, 260);
    assert_eq!(s.query_time(A, G1, Some(C1)), 60);
}

#[test]
fn session_open_before_opt_out_still_settles_on_next_event() {
    // Exclusion is only consulted when the next presence event arrives:
    // a session opened before opting out keeps accruing until then.
    let mut s = Store::new();
    s.apply_presence(A, Some((G1, C1)), 0);
    s.opt_out(A);
    s.apply_presence(A, None, 80);
    // The event of an excluded user is a no-op, so nothing settles and the
    // session stays open.
    assert_eq!(s.query_time(A, G1, Some(C1)), 0);
    s.opt_in(A);
    s.apply_presence(A, None, 120);
    assert_eq!(s.query_time(A, G1, Some(C1)), 120);
}

#[test]
fn query_is_idempotent_and_read_only() {
    let mut s = Store::new();
    s.apply_presence(A, Some((G1, C1)), 0);
    s.apply_presence(A, None, 42);
    let first = s.query_time(A, G1, Some(C1));
    let second = s.query_time(A, G1, Some(C1));
    assert_eq!(first, 42);
    assert_eq!(first, second);
    // The whole observable state is unchanged by querying.
    assert_eq!(s.query_time(A, G1, None), 42);
}

#[test]
fn whole_community_query_sums_channels() {
    let mut s = Store::new();
    s.apply_presence(A, Some((G1, C1)), 0);
    s.apply_presence(A, Some((G1, C2)), 10);
    s.apply_presence(A, Some((G1, C3)), 30);
    s.apply_presence(A, Some((G2, C1)), 100);
    s.apply_presence(A, None, 101);
    let per_channel = s.query_time(A, G1, Some(C1)) + s.query_time(A, G1, Some(C2))
        + s.query_time(A, G1, Some(C3));
    assert_eq!(s.query_time(A, G1, Some(C1)), 10);
    assert_eq!(s.query_time(A, G1, Some(C2)), 20);
    assert_eq!(s.query_time(A, G1, Some(C3)), 70);
    assert_eq!(s.query_time(A, G1, None), per_channel);
    // The other community is accounted separately.
    assert_eq!(s.query_time(A, G2, None), 1);
}

#[test]
fn communities_and_users_are_independent() {
    let mut s = Store::new();
    s.apply_presence(A, Some((G1, C1)), 0);
    s.apply_presence(B, Some((G2, C2)), 0);
    s.apply_presence(A, None, 30);
    s.apply_presence(B, None, 70);
    assert_eq!(s.query_time(A, G1, None), 30);
    assert_eq!(s.query_time(A, G2, None), 0);
    assert_eq!(s.query_time(B, G2, None), 70);
    assert_eq!(s.query_time(B, G1, None), 0);
}

#[test]
fn largest_ids_are_ordinary_keys() {
    let mut s = Store::new();
    s.apply_presence(u64::MAX, Some((u64::MAX, u64::MAX)), 0);
    s.apply_presence(u64::MAX, None, 5);
    assert_eq!(s.query_time(u64::MAX, u64::MAX, Some(u64::MAX)), 5);
    assert_eq!(s.query_time(u64::MAX, u64::MAX, None), 5);
}
