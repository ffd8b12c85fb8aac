//! The persistence codec: a flat, versionless, little-endian byte layout for
//! the exclusion set and the accumulation table.
//!
//! Layout: the exclusion count, the excluded ids, the user count, then per
//! user its id, its entry count, and one (community, channel, seconds) triple
//! per entry; every field is an unsigned 64-bit little-endian value. Open
//! sessions are runtime-only and never persisted.

use vstd::prelude::*;
use vstd::bytes::{
    lemma_auto_spec_u64_to_from_le_bytes, spec_u64_from_le_bytes, spec_u64_to_le_bytes,
    u64_from_le_bytes, u64_to_le_bytes,
};
use crate::store::{
    contains_id, distinct_entry_keys, distinct_ids, distinct_session_users, distinct_user_rows,
    entry_key, find_entry, find_row, lemma_entries_remove_facts, lemma_rows_remove_facts, Entry,
    SessionSlot, Store, UserTimes,
};

verus! {

/// One user's persisted totals.
pub ghost struct SnapshotUser {
    pub user: u64,
    pub entries: Seq<Entry>,
}

/// The unit of persistence: the exclusion set and the accumulation table.
pub ghost struct Snapshot {
    pub excluded: Seq<u64>,
    pub users: Seq<SnapshotUser>,
}

/// Decoding failure: the input ended before a declared field.
#[derive(Clone, Copy, PartialEq, Eq, Structural, Debug)]
pub enum DecodeError {
    TruncatedInput,
}

pub open spec fn distinct_snapshot_users(us: Seq<SnapshotUser>) -> bool {
    forall|i: int, j: int| 0 <= i < j < us.len() ==> us[i].user != us[j].user
}

/// A snapshot that an encoder can be handed: keys are unique and the counts
/// fit their 64-bit fields.
pub open spec fn wf_snapshot(s: Snapshot) -> bool {
    &&& distinct_ids(s.excluded)
    &&& distinct_snapshot_users(s.users)
    &&& forall|i: int|
        0 <= i < s.users.len() ==> distinct_entry_keys((#[trigger] s.users[i]).entries)
    &&& s.excluded.len() <= u64::MAX
    &&& s.users.len() <= u64::MAX
    &&& forall|i: int| 0 <= i < s.users.len() ==> (#[trigger] s.users[i]).entries.len() <= u64::MAX
}

impl Store {
    /// The snapshot this store persists as.
    pub open spec fn snapshot(self) -> Snapshot {
        Snapshot {
            excluded: self.excluded@,
            users: self.times@.map_values(
                |r: UserTimes| SnapshotUser { user: r.user, entries: r.entries@ },
            ),
        }
    }
}

/// The bytes of an id list, in order.
pub open spec fn enc_ids(xs: Seq<u64>) -> Seq<u8>
    decreases xs.len(),
{
    if xs.len() == 0 {
        Seq::empty()
    } else {
        spec_u64_to_le_bytes(xs[0]) + enc_ids(xs.drop_first())
    }
}

/// The bytes of one entry: community, channel, seconds.
pub open spec fn enc_entry(e: Entry) -> Seq<u8> {
    spec_u64_to_le_bytes(e.community) + spec_u64_to_le_bytes(e.channel) + spec_u64_to_le_bytes(
        e.seconds,
    )
}

/// The bytes of an entry list, in order.
pub open spec fn enc_entries(es: Seq<Entry>) -> Seq<u8>
    decreases es.len(),
{
    if es.len() == 0 {
        Seq::empty()
    } else {
        enc_entry(es[0]) + enc_entries(es.drop_first())
    }
}

/// The bytes of one user: id, entry count, entries.
pub open spec fn enc_user(u: SnapshotUser) -> Seq<u8> {
    spec_u64_to_le_bytes(u.user) + spec_u64_to_le_bytes(u.entries.len() as u64) + enc_entries(
        u.entries,
    )
}

/// The bytes of a user list, in order.
pub open spec fn enc_users(us: Seq<SnapshotUser>) -> Seq<u8>
    decreases us.len(),
{
    if us.len() == 0 {
        Seq::empty()
    } else {
        enc_user(us[0]) + enc_users(us.drop_first())
    }
}

/// The whole encoding of a snapshot.
pub open spec fn spec_encode(s: Snapshot) -> Seq<u8> {
    spec_u64_to_le_bytes(s.excluded.len() as u64) + enc_ids(s.excluded) + spec_u64_to_le_bytes(
        s.users.len() as u64,
    ) + enc_users(s.users)
}

/// Splits one little-endian u64 off the front, or nothing when fewer than
/// eight bytes remain.
pub open spec fn take_u64(b: Seq<u8>) -> Option<(u64, Seq<u8>)> {
    if b.len() >= 8 {
        Option::Some((spec_u64_from_le_bytes(b.take(8)), b.skip(8)))
    } else {
        Option::None
    }
}

/// Set-insert into an id list: a repeated id changes nothing.
pub open spec fn id_upsert(xs: Seq<u64>, v: u64) -> Seq<u64> {
    if xs.contains(v) {
        xs
    } else {
        xs.push(v)
    }
}

/// Insert-or-replace into an entry list: a repeated key wins over the bound
/// entry, as a rebinding insert into a mapping would.
pub open spec fn entry_upsert(es: Seq<Entry>, e: Entry) -> Seq<Entry> {
    if exists|i: int| 0 <= i < es.len() && entry_key(es[i]) == entry_key(e) {
        let i = choose|i: int| 0 <= i < es.len() && entry_key(es[i]) == entry_key(e);
        es.remove(i).push(e)
    } else {
        es.push(e)
    }
}

/// Insert-or-replace into a user list: a repeated user id wins.
pub open spec fn user_upsert(us: Seq<SnapshotUser>, u: SnapshotUser) -> Seq<SnapshotUser> {
    if exists|i: int| 0 <= i < us.len() && us[i].user == u.user {
        let i = choose|i: int| 0 <= i < us.len() && us[i].user == u.user;
        us.remove(i).push(u)
    } else {
        us.push(u)
    }
}

/// Decodes `n` ids into `acc`.
pub open spec fn dec_ids(acc: Seq<u64>, b: Seq<u8>, n: nat) -> Option<(Seq<u64>, Seq<u8>)>
    decreases n,
{
    if n == 0 {
        Option::Some((acc, b))
    } else {
        match take_u64(b) {
            Option::None => Option::None,
            Option::Some(v) => dec_ids(id_upsert(acc, v.0), v.1, (n - 1) as nat),
        }
    }
}

/// Decodes `n` entries into `acc`.
pub open spec fn dec_entries(acc: Seq<Entry>, b: Seq<u8>, n: nat) -> Option<(Seq<Entry>, Seq<u8>)>
    decreases n,
{
    if n == 0 {
        Option::Some((acc, b))
    } else {
        match take_u64(b) {
            Option::None => Option::None,
            Option::Some(c) => match take_u64(c.1) {
                Option::None => Option::None,
                Option::Some(ch) => match take_u64(ch.1) {
                    Option::None => Option::None,
                    Option::Some(sc) => dec_entries(
                        entry_upsert(
                            acc,
                            Entry { community: c.0, channel: ch.0, seconds: sc.0 },
                        ),
                        sc.1,
                        (n - 1) as nat,
                    ),
                },
            },
        }
    }
}

/// Decodes `n` users into `acc`.
pub open spec fn dec_users(acc: Seq<SnapshotUser>, b: Seq<u8>, n: nat) -> Option<
    (Seq<SnapshotUser>, Seq<u8>),
>
    decreases n,
{
    if n == 0 {
        Option::Some((acc, b))
    } else {
        match take_u64(b) {
            Option::None => Option::None,
            Option::Some(u) => match take_u64(u.1) {
                Option::None => Option::None,
                Option::Some(cnt) => match dec_entries(Seq::empty(), cnt.1, cnt.0 as nat) {
                    Option::None => Option::None,
                    Option::Some(es) => dec_users(
                        user_upsert(acc, SnapshotUser { user: u.0, entries: es.0 }),
                        es.1,
                        (n - 1) as nat,
                    ),
                },
            },
        }
    }
}

/// The whole decoding of a byte string; bytes past the declared data are
/// ignored, as a reader that stops after the last declared field would.
pub open spec fn spec_decode(b: Seq<u8>) -> Option<Snapshot> {
    match take_u64(b) {
        Option::None => Option::None,
        Option::Some(xn) => match dec_ids(Seq::empty(), xn.1, xn.0 as nat) {
            Option::None => Option::None,
            Option::Some(xs) => match take_u64(xs.1) {
                Option::None => Option::None,
                Option::Some(un) => match dec_users(Seq::empty(), un.1, un.0 as nat) {
                    Option::None => Option::None,
                    Option::Some(us) => Option::Some(Snapshot { excluded: xs.0, users: us.0 }),
                },
            },
        },
    }
}

/// A u64 written at the front of a byte string reads back as itself.
proof fn lemma_take_u64_concat(v: u64, rest: Seq<u8>)
    ensures
        take_u64(spec_u64_to_le_bytes(v) + rest) == Option::Some((v, rest)),
{
    lemma_auto_spec_u64_to_from_le_bytes();
    let b = spec_u64_to_le_bytes(v) + rest;
    assert(b.take(8) =~= spec_u64_to_le_bytes(v));
    assert(b.skip(8) =~= rest);
}

/// Decoding the encoding of a duplicate-free id list appends exactly that
/// list.
proof fn lemma_dec_ids_round(acc: Seq<u64>, xs: Seq<u64>, rest: Seq<u8>)
    requires
        distinct_ids(acc + xs),
    ensures
        dec_ids(acc, enc_ids(xs) + rest, xs.len() as nat) == Option::Some((acc + xs, rest)),
    decreases xs.len(),
{
    if xs.len() == 0 {
        assert(enc_ids(xs) + rest =~= rest);
        assert(acc + xs =~= acc);
    } else {
        let v = xs[0];
        let tail = enc_ids(xs.drop_first()) + rest;
        assert(enc_ids(xs) + rest =~= spec_u64_to_le_bytes(v) + tail);
        lemma_take_u64_concat(v, tail);
        assert(!acc.contains(v)) by {
            if acc.contains(v) {
                let i = choose|i: int| 0 <= i < acc.len() && acc[i] == v;
                assert((acc + xs)[i] == v);
                assert((acc + xs)[acc.len() as int] == v);
            }
        };
        assert(id_upsert(acc, v) == acc.push(v));
        assert(acc.push(v) + xs.drop_first() =~= acc + xs);
        lemma_dec_ids_round(acc.push(v), xs.drop_first(), rest);
    }
}

/// Decoding the encoding of a duplicate-free entry list appends exactly that
/// list.
proof fn lemma_dec_entries_round(acc: Seq<Entry>, es: Seq<Entry>, rest: Seq<u8>)
    requires
        distinct_entry_keys(acc + es),
    ensures
        dec_entries(acc, enc_entries(es) + rest, es.len() as nat) == Option::Some(
            (acc + es, rest),
        ),
    decreases es.len(),
{
    if es.len() == 0 {
        assert(enc_entries(es) + rest =~= rest);
        assert(acc + es =~= acc);
    } else {
        let e = es[0];
        let tail = enc_entries(es.drop_first()) + rest;
        let t1 = spec_u64_to_le_bytes(e.channel) + (spec_u64_to_le_bytes(e.seconds) + tail);
        let t2 = spec_u64_to_le_bytes(e.seconds) + tail;
        assert(enc_entries(es) + rest =~= spec_u64_to_le_bytes(e.community) + t1);
        lemma_take_u64_concat(e.community, t1);
        lemma_take_u64_concat(e.channel, t2);
        lemma_take_u64_concat(e.seconds, tail);
        assert(!(exists|i: int| 0 <= i < acc.len() && entry_key(acc[i]) == entry_key(e))) by {
            if exists|i: int| 0 <= i < acc.len() && entry_key(acc[i]) == entry_key(e) {
                let i = choose|i: int| 0 <= i < acc.len() && entry_key(acc[i]) == entry_key(e);
                assert((acc + es)[i] == acc[i]);
                assert((acc + es)[acc.len() as int] == e);
            }
        };
        assert(Entry { community: e.community, channel: e.channel, seconds: e.seconds } == e);
        assert(entry_upsert(acc, e) == acc.push(e));
        assert(acc.push(e) + es.drop_first() =~= acc + es);
        lemma_dec_entries_round(acc.push(e), es.drop_first(), rest);
    }
}

/// Decoding the encoding of a well-formed user list appends exactly that
/// list.
proof fn lemma_dec_users_round(acc: Seq<SnapshotUser>, us: Seq<SnapshotUser>, rest: Seq<u8>)
    requires
        distinct_snapshot_users(acc + us),
        forall|i: int| 0 <= i < us.len() ==> distinct_entry_keys((#[trigger] us[i]).entries),
        forall|i: int| 0 <= i < us.len() ==> (#[trigger] us[i]).entries.len() <= u64::MAX,
    ensures
        dec_users(acc, enc_users(us) + rest, us.len() as nat) == Option::Some((acc + us, rest)),
    decreases us.len(),
{
    if us.len() == 0 {
        assert(enc_users(us) + rest =~= rest);
        assert(acc + us =~= acc);
    } else {
        let u = us[0];
        let tail = enc_users(us.drop_first()) + rest;
        let t1 = spec_u64_to_le_bytes(u.entries.len() as u64) + (enc_entries(u.entries) + tail);
        let t2 = enc_entries(u.entries) + tail;
        assert(enc_users(us) + rest =~= spec_u64_to_le_bytes(u.user) + t1);
        lemma_take_u64_concat(u.user, t1);
        lemma_take_u64_concat(u.entries.len() as u64, t2);
        assert(distinct_entry_keys(u.entries));
        assert(distinct_entry_keys(Seq::empty() + u.entries)) by {
            assert(Seq::empty() + u.entries =~= u.entries);
        };
        lemma_dec_entries_round(Seq::empty(), u.entries, tail);
        assert(Seq::empty() + u.entries =~= u.entries);
        assert((u.entries.len() as u64) as nat == u.entries.len());
        assert(SnapshotUser { user: u.user, entries: u.entries } == u);
        assert(!(exists|i: int| 0 <= i < acc.len() && acc[i].user == u.user)) by {
            if exists|i: int| 0 <= i < acc.len() && acc[i].user == u.user {
                let i = choose|i: int| 0 <= i < acc.len() && acc[i].user == u.user;
                assert((acc + us)[i] == acc[i]);
                assert((acc + us)[acc.len() as int] == u);
            }
        };
        assert(user_upsert(acc, u) == acc.push(u));
        assert(acc.push(u) + us.drop_first() =~= acc + us);
        assert forall|i: int| 0 <= i < us.drop_first().len() implies distinct_entry_keys(
            (#[trigger] us.drop_first()[i]).entries,
        ) && us.drop_first()[i].entries.len() <= u64::MAX by {
            assert(us.drop_first()[i] == us[i + 1]);
        };
        lemma_dec_users_round(acc.push(u), us.drop_first(), rest);
    }
}

/// Law: decoding an encoded snapshot reproduces it exactly — the exclusion
/// set and the accumulation table survive a persistence round trip.
pub proof fn lemma_snapshot_round_trip(s: Snapshot)
    requires
        wf_snapshot(s),
    ensures
        spec_decode(spec_encode(s)) == Option::Some(s),
{
    let b = spec_encode(s);
    let after_ids = spec_u64_to_le_bytes(s.users.len() as u64) + enc_users(s.users);
    let t1 = enc_ids(s.excluded) + after_ids;
    assert(b =~= spec_u64_to_le_bytes(s.excluded.len() as u64) + t1);
    lemma_take_u64_concat(s.excluded.len() as u64, t1);
    assert((s.excluded.len() as u64) as nat == s.excluded.len());
    assert(distinct_ids(Seq::empty() + s.excluded)) by {
        assert(Seq::empty() + s.excluded =~= s.excluded);
    };
    lemma_dec_ids_round(Seq::empty(), s.excluded, after_ids);
    assert(Seq::empty() + s.excluded =~= s.excluded);
    let t2 = enc_users(s.users) + Seq::<u8>::empty();
    assert(after_ids =~= spec_u64_to_le_bytes(s.users.len() as u64) + t2);
    lemma_take_u64_concat(s.users.len() as u64, t2);
    assert((s.users.len() as u64) as nat == s.users.len());
    assert(distinct_snapshot_users(Seq::empty() + s.users)) by {
        assert(Seq::empty() + s.users =~= s.users);
    };
    lemma_dec_users_round(Seq::empty(), s.users, Seq::empty());
    assert(Seq::empty() + s.users =~= s.users);
}

/// A well-formed store of machine-representable size has a well-formed
/// snapshot.
pub proof fn lemma_store_snapshot_wf(s: Store)
    requires
        s.wf(),
        s.excluded@.len() <= u64::MAX,
        s.times@.len() <= u64::MAX,
        forall|i: int| 0 <= i < s.times@.len() ==> (#[trigger] s.times@[i]).entries@.len()
            <= u64::MAX,
    ensures
        wf_snapshot(s.snapshot()),
{
    let snap = s.snapshot();
    assert forall|i: int, j: int| 0 <= i < j < snap.users.len() implies snap.users[i].user
        != snap.users[j].user by {
        assert(snap.users[i].user == s.times@[i].user);
        assert(snap.users[j].user == s.times@[j].user);
    };
    assert forall|i: int| 0 <= i < snap.users.len() implies distinct_entry_keys(
        (#[trigger] snap.users[i]).entries,
    ) && snap.users[i].entries.len() <= u64::MAX by {
        assert(snap.users[i].entries == s.times@[i].entries@);
    };
}

/// Appending an id appends its bytes.
proof fn lemma_enc_ids_push(xs: Seq<u64>, v: u64)
    ensures
        enc_ids(xs.push(v)) == enc_ids(xs) + spec_u64_to_le_bytes(v),
    decreases xs.len(),
{
    if xs.len() == 0 {
        assert(xs.push(v)[0] == v);
        assert(xs.push(v).drop_first() =~= Seq::<u64>::empty());
        assert(enc_ids(xs.push(v)) == spec_u64_to_le_bytes(v) + enc_ids(Seq::<u64>::empty()));
        assert(enc_ids(xs.push(v)) =~= enc_ids(xs) + spec_u64_to_le_bytes(v));
    } else {
        assert(xs.push(v)[0] == xs[0]);
        assert(xs.push(v).drop_first() =~= xs.drop_first().push(v));
        lemma_enc_ids_push(xs.drop_first(), v);
        assert(spec_u64_to_le_bytes(xs[0]) + (enc_ids(xs.drop_first()) + spec_u64_to_le_bytes(v))
            =~= (spec_u64_to_le_bytes(xs[0]) + enc_ids(xs.drop_first())) + spec_u64_to_le_bytes(
            v,
        ));
    }
}

/// Appending an entry appends its bytes.
proof fn lemma_enc_entries_push(es: Seq<Entry>, e: Entry)
    ensures
        enc_entries(es.push(e)) == enc_entries(es) + enc_entry(e),
    decreases es.len(),
{
    if es.len() == 0 {
        assert(es.push(e)[0] == e);
        assert(es.push(e).drop_first() =~= Seq::<Entry>::empty());
        assert(enc_entries(es.push(e)) == enc_entry(e) + enc_entries(Seq::<Entry>::empty()));
        assert(enc_entries(es.push(e)) =~= enc_entries(es) + enc_entry(e));
    } else {
        assert(es.push(e)[0] == es[0]);
        assert(es.push(e).drop_first() =~= es.drop_first().push(e));
        lemma_enc_entries_push(es.drop_first(), e);
        assert(enc_entry(es[0]) + (enc_entries(es.drop_first()) + enc_entry(e)) =~= (enc_entry(
            es[0],
        ) + enc_entries(es.drop_first())) + enc_entry(e));
    }
}

/// Appending a user appends its bytes.
proof fn lemma_enc_users_push(us: Seq<SnapshotUser>, u: SnapshotUser)
    ensures
        enc_users(us.push(u)) == enc_users(us) + enc_user(u),
    decreases us.len(),
{
    if us.len() == 0 {
        assert(us.push(u)[0] == u);
        assert(us.push(u).drop_first() =~= Seq::<SnapshotUser>::empty());
        assert(enc_users(us.push(u)) == enc_user(u) + enc_users(Seq::<SnapshotUser>::empty()));
        assert(enc_users(us.push(u)) =~= enc_users(us) + enc_user(u));
    } else {
        assert(us.push(u)[0] == us[0]);
        assert(us.push(u).drop_first() =~= us.drop_first().push(u));
        lemma_enc_users_push(us.drop_first(), u);
        assert(enc_user(us[0]) + (enc_users(us.drop_first()) + enc_user(u)) =~= (enc_user(us[0])
            + enc_users(us.drop_first())) + enc_user(u));
    }
}

/// Appends one u64 in little-endian order. Relies only on vstd's byte
/// conversions.
fn push_u64(out: &mut Vec<u8>, x: u64)
    ensures
        final(out)@ == old(out)@ + spec_u64_to_le_bytes(x),
{
    let mut b = u64_to_le_bytes(x);
    out.append(&mut b);
}

/// Appends the encoding of an entry list.
#[verifier::loop_isolation(false)]
fn push_entries(out: &mut Vec<u8>, es: &Vec<Entry>)
    ensures
        final(out)@ == old(out)@ + enc_entries(es@),
{
    let mut k: usize = 0;
    while k < es.len()
        invariant
            k <= es@.len(),
            out@ == old(out)@ + enc_entries(es@.take(k as int)),
        decreases es@.len() - k,
    {
        let e = es[k];
        proof {
            assert(es@.take(k + 1 as int) =~= es@.take(k as int).push(es@[k as int]));
            lemma_enc_entries_push(es@.take(k as int), es@[k as int]);
        }
        push_u64(out, e.community);
        push_u64(out, e.channel);
        push_u64(out, e.seconds);
        proof {
            assert(out@ =~= old(out)@ + enc_entries(es@.take(k + 1 as int)));
        }
        k += 1;
    }
    proof {
        assert(es@.take(es@.len() as int) =~= es@);
    }
}

impl Store {
    /// Encodes the snapshot of this store into the flat little-endian
    /// layout. Open sessions are left out by design.
    #[verifier::loop_isolation(false)]
    pub fn to_bytes(&self) -> (r: Vec<u8>)
        ensures
            r@ == spec_encode(self.snapshot()),
            self.wf() ==> wf_snapshot(self.snapshot()),
    {
        let ghost snap = self.snapshot();
        let mut out: Vec<u8> = Vec::new();
        push_u64(&mut out, self.excluded.len() as u64);
        let mut i: usize = 0;
        while i < self.excluded.len()
            invariant
                i <= self.excluded@.len(),
                out@ == spec_u64_to_le_bytes(self.excluded@.len() as u64) + enc_ids(
                    self.excluded@.take(i as int),
                ),
            decreases self.excluded@.len() - i,
        {
            proof {
                assert(self.excluded@.take(i + 1 as int) =~= self.excluded@.take(i as int).push(
                    self.excluded@[i as int],
                ));
                lemma_enc_ids_push(self.excluded@.take(i as int), self.excluded@[i as int]);
            }
            push_u64(&mut out, self.excluded[i]);
            proof {
                assert(out@ =~= spec_u64_to_le_bytes(self.excluded@.len() as u64) + enc_ids(
                    self.excluded@.take(i + 1 as int),
                ));
            }
            i += 1;
        }
        proof {
            assert(self.excluded@.take(self.excluded@.len() as int) =~= self.excluded@);
        }
        push_u64(&mut out, self.times.len() as u64);
        let ghost head = spec_u64_to_le_bytes(snap.excluded.len() as u64) + enc_ids(snap.excluded)
            + spec_u64_to_le_bytes(snap.users.len() as u64);
        proof {
            assert(out@ =~= head);
        }
        let mut j: usize = 0;
        while j < self.times.len()
            invariant
                j <= self.times@.len(),
                out@ == head + enc_users(snap.users.take(j as int)),
                forall|t: int| 0 <= t < j ==> (#[trigger] self.times@[t]).entries@.len()
                    <= u64::MAX,
            decreases self.times@.len() - j,
        {
            let row = &self.times[j];
            proof {
                assert(snap.users.take(j + 1 as int) =~= snap.users.take(j as int).push(
                    snap.users[j as int],
                ));
                lemma_enc_users_push(snap.users.take(j as int), snap.users[j as int]);
                assert(snap.users[j as int] == (SnapshotUser {
                    user: row.user,
                    entries: row.entries@,
                }));
            }
            push_u64(&mut out, row.user);
            push_u64(&mut out, row.entries.len() as u64);
            push_entries(&mut out, &row.entries);
            proof {
                assert(out@ =~= head + enc_users(snap.users.take(j + 1 as int)));
            }
            j += 1;
        }
        proof {
            assert(snap.users.take(snap.users.len() as int) =~= snap.users);
            assert(out@ =~= spec_encode(snap));
            if self.wf() {
                lemma_store_snapshot_wf(*self);
            }
        }
        out
    }
}

/// Reads one little-endian u64 at `pos`, or nothing when fewer than eight
/// bytes remain. Relies only on vstd's byte conversions.
fn read_u64_at(bytes: &[u8], pos: usize) -> (r: Option<u64>)
    requires
        pos <= bytes@.len(),
    ensures
        match r {
            Option::Some(v) => pos + 8 <= bytes@.len() && take_u64(bytes@.skip(pos as int))
                == Option::Some((v, bytes@.skip(pos as int + 8))),
            Option::None => take_u64(bytes@.skip(pos as int)) is None,
        },
{
    if bytes.len() - pos >= 8 {
        let sub = vstd::slice::slice_subrange(bytes, pos, pos + 8);
        let v = u64_from_le_bytes(sub);
        proof {
            assert(sub@ =~= bytes@.skip(pos as int).take(8));
            assert(bytes@.skip(pos as int).skip(8) =~= bytes@.skip(pos as int + 8));
        }
        Option::Some(v)
    } else {
        Option::None
    }
}

impl Store {
    /// Decodes a persisted snapshot. The result carries no open sessions:
    /// sessions do not survive a restart. Input that ends before a declared
    /// field is rejected; bytes past the declared data are ignored.
    #[verifier::loop_isolation(false)]
    pub fn from_bytes(bytes: &[u8]) -> (r: Result<Store, DecodeError>)
        ensures
            match r {
                Result::Ok(s) => s.wf() && s.sessions@ == Seq::<SessionSlot>::empty()
                    && spec_decode(bytes@) == Option::Some(s.snapshot()),
                Result::Err(e) => e == DecodeError::TruncatedInput && spec_decode(bytes@)
                    is None,
            },
    {
        let mut store = Store { excluded: Vec::new(), times: Vec::new(), sessions: Vec::new() };
        let mut pos: usize = 0;
        let xcount: u64;
        let _blen: usize = bytes.len();
        proof {
            assert(bytes@.skip(0) =~= bytes@);
        }
        match read_u64_at(bytes, 0) {
            Option::Some(v) => {
                xcount = v;
                pos = 8;
            },
            Option::None => {
                return Result::Err(DecodeError::TruncatedInput);
            },
        }
        let ghost ids_res = dec_ids(Seq::empty(), bytes@.skip(8), xcount as nat);
        let mut k: u64 = 0;
        while k < xcount
            invariant
                k <= xcount,
                8 <= pos <= bytes@.len(),
                distinct_ids(store.excluded@),
                store.times@ == Seq::<UserTimes>::empty(),
                store.sessions@ == Seq::<SessionSlot>::empty(),
                ids_res == dec_ids(store.excluded@, bytes@.skip(pos as int), (xcount - k) as nat),
            decreases xcount - k,
        {
            match read_u64_at(bytes, pos) {
                Option::Some(v) => {
                    proof {
                        assert(dec_ids(
                            store.excluded@,
                            bytes@.skip(pos as int),
                            (xcount - k) as nat,
                        ) == dec_ids(
                            id_upsert(store.excluded@, v),
                            bytes@.skip(pos as int + 8),
                            (xcount - k - 1) as nat,
                        ));
                    }
                    let ghost xs0 = store.excluded@;
                    let present = contains_id(&store.excluded, v);
                    if !present {
                        store.excluded.push(v);
                        proof {
                            assert forall|p: int, q: int|
                                0 <= p < q < store.excluded@.len() implies store.excluded@[p]
                                != store.excluded@[q] by {
                                if q == xs0.len() {
                                    assert(store.excluded@[p] == xs0[p]);
                                    assert(!xs0.contains(v));
                                }
                            };
                        }
                    }
                    proof {
                        assert(store.excluded@ == id_upsert(xs0, v));
                    }
                    pos = pos + 8;
                    k = k + 1;
                },
                Option::None => {
                    proof {
                        assert(ids_res is None);
                    }
                    return Result::Err(DecodeError::TruncatedInput);
                },
            }
        }
        let ghost xs_final = store.excluded@;
        let ghost pose = pos as int;
        proof {
            assert(ids_res == Option::Some((xs_final, bytes@.skip(pose))));
        }
        let ucount: u64;
        match read_u64_at(bytes, pos) {
            Option::Some(v) => {
                ucount = v;
                pos = pos + 8;
            },
            Option::None => {
                return Result::Err(DecodeError::TruncatedInput);
            },
        }
        let ghost users_res = dec_users(Seq::empty(), bytes@.skip(pos as int), ucount as nat);
        proof {
            assert(store.snapshot().users =~= Seq::<SnapshotUser>::empty());
        }
        let mut k2: u64 = 0;
        while k2 < ucount
            invariant
                k2 <= ucount,
                pos <= bytes@.len(),
                store.excluded@ == xs_final,
                distinct_user_rows(store.times@),
                forall|i: int|
                    0 <= i < store.times@.len() ==> distinct_entry_keys(
                        #[trigger] store.times@[i].entries@,
                    ),
                store.sessions@ == Seq::<SessionSlot>::empty(),
                users_res == dec_users(
                    store.snapshot().users,
                    bytes@.skip(pos as int),
                    (ucount - k2) as nat,
                ),
            decreases ucount - k2,
        {
            let ghost acc_u = store.snapshot().users;
            let ghost m = (ucount - k2) as nat;
            let uid: u64;
            match read_u64_at(bytes, pos) {
                Option::Some(v) => {
                    uid = v;
                    pos = pos + 8;
                },
                Option::None => {
                    proof {
                        assert(users_res is None);
                    }
                    return Result::Err(DecodeError::TruncatedInput);
                },
            }
            let cnt: u64;
            match read_u64_at(bytes, pos) {
                Option::Some(v) => {
                    cnt = v;
                    pos = pos + 8;
                },
                Option::None => {
                    proof {
                        assert(users_res is None);
                    }
                    return Result::Err(DecodeError::TruncatedInput);
                },
            }
            let ghost entries_res = dec_entries(Seq::empty(), bytes@.skip(pos as int), cnt as nat);
            proof {
                assert(users_res == (match entries_res {
                    Option::None => Option::<(Seq<SnapshotUser>, Seq<u8>)>::None,
                    Option::Some(es) => dec_users(
                        user_upsert(acc_u, SnapshotUser { user: uid, entries: es.0 }),
                        es.1,
                        (m - 1) as nat,
                    ),
                }));
            }
            let mut entries: Vec<Entry> = Vec::new();
            let mut k3: u64 = 0;
            while k3 < cnt
                invariant
                    k3 <= cnt,
                    pos <= bytes@.len(),
                    distinct_entry_keys(entries@),
                    entries_res == dec_entries(
                        entries@,
                        bytes@.skip(pos as int),
                        (cnt - k3) as nat,
                    ),
                decreases cnt - k3,
            {
                let community: u64;
                match read_u64_at(bytes, pos) {
                    Option::Some(v) => {
                        community = v;
                        pos = pos + 8;
                    },
                    Option::None => {
                        proof {
                            assert(entries_res is None);
                            assert(users_res is None);
                        }
                        return Result::Err(DecodeError::TruncatedInput);
                    },
                }
                let channel: u64;
                match read_u64_at(bytes, pos) {
                    Option::Some(v) => {
                        channel = v;
                        pos = pos + 8;
                    },
                    Option::None => {
                        proof {
                            assert(entries_res is None);
                            assert(users_res is None);
                        }
                        return Result::Err(DecodeError::TruncatedInput);
                    },
                }
                let seconds: u64;
                match read_u64_at(bytes, pos) {
                    Option::Some(v) => {
                        seconds = v;
                        pos = pos + 8;
                    },
                    Option::None => {
                        proof {
                            assert(entries_res is None);
                            assert(users_res is None);
                        }
                        return Result::Err(DecodeError::TruncatedInput);
                    },
                }
                let e = Entry { community, channel, seconds };
                let ghost es0 = entries@;
                match find_entry(&entries, community, channel) {
                    Option::Some(j) => {
                        proof {
                            lemma_entries_remove_facts(entries@, j as int);
                            let i = choose|i: int|
                                0 <= i < es0.len() && entry_key(es0[i]) == entry_key(e);
                            assert(i == j as int);
                        }
                        entries.remove(j);
                        entries.push(e);
                        proof {
                            assert(entries@ == entry_upsert(es0, e));
                            assert forall|p: int, q: int|
                                0 <= p < q < entries@.len() implies entry_key(entries@[p])
                                != entry_key(entries@[q]) by {
                                if q == entries@.len() - 1 {
                                    assert(entry_key(entries@[p]) != entry_key(e));
                                }
                            };
                        }
                    },
                    Option::None => {
                        entries.push(e);
                        proof {
                            assert(entries@ == entry_upsert(es0, e));
                            assert forall|p: int, q: int|
                                0 <= p < q < entries@.len() implies entry_key(entries@[p])
                                != entry_key(entries@[q]) by {
                                if q == es0.len() {
                                    assert(entries@[p] == es0[p]);
                                }
                            };
                        }
                    },
                }
                k3 = k3 + 1;
            }
            proof {
                assert(entries_res == Option::Some((entries@, bytes@.skip(pos as int))));
            }
            let ghost rowv = entries@;
            let row = UserTimes { user: uid, entries };
            let ghost rowg = row;
            match find_row(&store.times, uid) {
                Option::Some(i) => {
                    proof {
                        lemma_rows_remove_facts(store.times@, i as int);
                        assert(acc_u[i as int].user == uid);
                        let ci = choose|ci: int| 0 <= ci < acc_u.len() && acc_u[ci].user == uid;
                        assert(acc_u[ci].user == uid);
                        assert(store.times@[ci].user == uid);
                        assert(ci == i as int);
                        assert(store.times@.remove(i as int).map_values(
                            |r: UserTimes| SnapshotUser { user: r.user, entries: r.entries@ },
                        ) =~= acc_u.remove(i as int));
                    }
                    store.times.remove(i);
                },
                Option::None => {
                    proof {
                        assert(!(exists|ci: int| 0 <= ci < acc_u.len() && acc_u[ci].user == uid))
                            by {
                            if exists|ci: int| 0 <= ci < acc_u.len() && acc_u[ci].user == uid {
                                let ci = choose|ci: int|
                                    0 <= ci < acc_u.len() && acc_u[ci].user == uid;
                                assert(store.times@[ci].user == uid);
                            }
                        };
                    }
                },
            }
            let ghost t_mid = store.times@;
            store.times.push(row);
            proof {
                assert(store.times@.map_values(
                    |r: UserTimes| SnapshotUser { user: r.user, entries: r.entries@ },
                ) =~= t_mid.map_values(
                    |r: UserTimes| SnapshotUser { user: r.user, entries: r.entries@ },
                ).push(SnapshotUser { user: uid, entries: rowv }));
                assert(store.snapshot().users == user_upsert(
                    acc_u,
                    SnapshotUser { user: uid, entries: rowv },
                ));
                assert forall|p: int, q: int|
                    0 <= p < q < store.times@.len() implies store.times@[p].user
                    != store.times@[q].user by {
                    if q == t_mid.len() {
                        assert(store.times@[p] == t_mid[p]);
                        assert(t_mid[p].user != uid);
                    }
                };
                assert forall|i: int|
                    0 <= i < store.times@.len() implies distinct_entry_keys(
                    #[trigger] store.times@[i].entries@,
                ) by {
                    if i < t_mid.len() {
                        assert(store.times@[i] == t_mid[i]);
                    } else {
                        assert(store.times@[i] == rowg);
                    }
                };
            }
            k2 = k2 + 1;
        }
        proof {
            assert(users_res == Option::Some((store.snapshot().users, bytes@.skip(pos as int))));
            assert(spec_decode(bytes@) == Option::Some(store.snapshot()));
            assert(distinct_session_users(store.sessions@));
        }
        Result::Ok(store)
    }

    /// Decodes a persisted snapshot, degrading to an empty store when the
    /// input is malformed: a bad file loses history but never blocks
    /// startup.
    pub fn load_or_empty(bytes: &[u8]) -> (s: Store)
        ensures
            s.wf(),
            s.sessions@ == Seq::<SessionSlot>::empty(),
            match spec_decode(bytes@) {
                Option::Some(m) => s.snapshot() == m,
                Option::None => s.excluded@ == Seq::<u64>::empty() && s.times@ == Seq::<
                    UserTimes,
                >::empty(),
            },
    {
        match Store::from_bytes(bytes) {
            Result::Ok(s) => s,
            Result::Err(_) => Store {
                excluded: Vec::new(),
                times: Vec::new(),
                sessions: Vec::new(),
            },
        }
    }
}

} // verus!
