//! The accounting store: exclusion set, settled per-channel totals, and open
//! voice sessions, with pure state transitions over them.
//!
//! The store is modelled as three association lists whose mathematical views
//! are a `Set<u64>` (who opted out), a `Map<u64, Map<(u64, u64), u64>>`
//! (settled seconds per user per (community, channel)), and a
//! `Map<u64, Session>` (the at-most-one open session per user).

use vstd::prelude::*;

verus! {

/// Settled seconds of one user in one (community, channel) pair.
#[derive(Clone, Copy, PartialEq, Eq, Structural, Debug)]
pub struct Entry {
    pub community: u64,
    pub channel: u64,
    pub seconds: u64,
}

/// All settled totals of one user, keyed by (community, channel).
#[derive(Debug)]
pub struct UserTimes {
    pub user: u64,
    pub entries: Vec<Entry>,
}

/// An open voice session: the user is believed to occupy `channel` of
/// `community` since `started_at`, a monotonic timestamp in seconds.
#[derive(Clone, Copy, PartialEq, Eq, Structural, Debug)]
pub struct Session {
    pub started_at: u64,
    pub community: u64,
    pub channel: u64,
}

/// The open session of one user.
#[derive(Clone, Copy, PartialEq, Eq, Structural, Debug)]
pub struct SessionSlot {
    pub user: u64,
    pub session: Session,
}

/// The accounting state: who opted out, the settled totals, and the open
/// sessions. Sessions are runtime-only and never persisted.
#[derive(Debug)]
pub struct Store {
    pub excluded: Vec<u64>,
    pub times: Vec<UserTimes>,
    pub sessions: Vec<SessionSlot>,
}

/// The persistence key of an entry.
pub open spec fn entry_key(e: Entry) -> (u64, u64) {
    (e.community, e.channel)
}

pub open spec fn distinct_ids(s: Seq<u64>) -> bool {
    forall|i: int, j: int| 0 <= i < j < s.len() ==> s[i] != s[j]
}

pub open spec fn distinct_entry_keys(es: Seq<Entry>) -> bool {
    forall|i: int, j: int| 0 <= i < j < es.len() ==> entry_key(es[i]) != entry_key(es[j])
}

pub open spec fn distinct_user_rows(us: Seq<UserTimes>) -> bool {
    forall|i: int, j: int| 0 <= i < j < us.len() ==> us[i].user != us[j].user
}

pub open spec fn distinct_session_users(ss: Seq<SessionSlot>) -> bool {
    forall|i: int, j: int| 0 <= i < j < ss.len() ==> ss[i].user != ss[j].user
}

/// The mapping that an entry list stands for: later entries win.
pub open spec fn entries_map(es: Seq<Entry>) -> Map<(u64, u64), u64>
    decreases es.len(),
{
    if es.len() == 0 {
        Map::empty()
    } else {
        entries_map(es.drop_last()).insert(entry_key(es.last()), es.last().seconds)
    }
}

/// The mapping that the row list stands for: user to per-channel totals.
pub open spec fn rows_map(us: Seq<UserTimes>) -> Map<u64, Map<(u64, u64), u64>>
    decreases us.len(),
{
    if us.len() == 0 {
        Map::empty()
    } else {
        rows_map(us.drop_last()).insert(us.last().user, entries_map(us.last().entries@))
    }
}

/// The mapping that the session list stands for: user to open session.
pub open spec fn slots_map(ss: Seq<SessionSlot>) -> Map<u64, Session>
    decreases ss.len(),
{
    if ss.len() == 0 {
        Map::empty()
    } else {
        slots_map(ss.drop_last()).insert(ss.last().user, ss.last().session)
    }
}

/// Unsigned 64-bit addition that sticks at the maximum instead of wrapping.
pub open spec fn sat_add_u64(a: u64, b: u64) -> u64 {
    if a + b > u64::MAX {
        u64::MAX
    } else {
        (a + b) as u64
    }
}

impl Store {
    /// Internal consistency: each association list binds each key at most once.
    pub open spec fn wf(self) -> bool {
        &&& distinct_ids(self.excluded@)
        &&& distinct_user_rows(self.times@)
        &&& forall|i: int|
            0 <= i < self.times@.len() ==> distinct_entry_keys(#[trigger] self.times@[i].entries@)
        &&& distinct_session_users(self.sessions@)
    }

    /// The exclusion list as a set.
    pub open spec fn excluded_set(self) -> Set<u64> {
        self.excluded@.to_set()
    }

    /// The settled accumulation table as a nested map.
    pub open spec fn times_map(self) -> Map<u64, Map<(u64, u64), u64>> {
        rows_map(self.times@)
    }

    /// The open sessions as a map.
    pub open spec fn sessions_map(self) -> Map<u64, Session> {
        slots_map(self.sessions@)
    }

    /// An empty store: nobody excluded, nothing settled, no session open.
    pub fn new() -> (s: Store)
        ensures
            s.wf(),
            s.excluded_set() == Set::<u64>::empty(),
            s.times_map() == Map::<u64, Map<(u64, u64), u64>>::empty(),
            s.sessions_map() == Map::<u64, Session>::empty(),
    {
        let s = Store { excluded: Vec::new(), times: Vec::new(), sessions: Vec::new() };
        proof {
            assert(s.excluded_set() =~= Set::<u64>::empty());
        }
        s
    }

    /// Whether presence events of `user` are currently ignored.
    pub fn is_excluded(&self, user: u64) -> (r: bool)
        ensures
            r == self.excluded_set().contains(user),
    {
        contains_id(&self.excluded, user)
    }
}

/// What `opt_out` leaves behind: the user joins the exclusion set and nothing
/// else moves.
pub open spec fn opt_out_post(pre: Store, post: Store, user: u64) -> bool {
    &&& post.excluded_set() == pre.excluded_set().insert(user)
    &&& post.times_map() == pre.times_map()
    &&& post.sessions_map() == pre.sessions_map()
}

/// What `opt_in` leaves behind: the user leaves the exclusion set and nothing
/// else moves.
pub open spec fn opt_in_post(pre: Store, post: Store, user: u64) -> bool {
    &&& post.excluded_set() == pre.excluded_set().remove(user)
    &&& post.times_map() == pre.times_map()
    &&& post.sessions_map() == pre.sessions_map()
}

impl Store {
    /// Adds `user` to the exclusion set. Open sessions and settled totals are
    /// untouched: exclusion is only consulted by the next presence event.
    pub fn opt_out(&mut self, user: u64)
        requires
            old(self).wf(),
        ensures
            final(self).wf(),
            opt_out_post(*old(self), *final(self), user),
    {
        let present = contains_id(&self.excluded, user);
        if !present {
            proof {
                lemma_push_to_set(self.excluded@, user);
            }
            self.excluded.push(user);
        } else {
            proof {
                assert(self.excluded_set() =~= old(self).excluded_set().insert(user));
            }
        }
    }

    /// Removes `user` from the exclusion set. Nothing is credited
    /// retroactively.
    pub fn opt_in(&mut self, user: u64)
        requires
            old(self).wf(),
        ensures
            final(self).wf(),
            opt_in_post(*old(self), *final(self), user),
    {
        let mut i: usize = 0;
        while i < self.excluded.len()
            invariant
                old(self).wf(),
                i <= self.excluded@.len(),
                forall|j: int| 0 <= j < i ==> self.excluded@[j] != user,
                *self == *old(self),
            decreases self.excluded@.len() - i,
        {
            if self.excluded[i] == user {
                proof {
                    lemma_remove_keeps_distinct(self.excluded@, i as int);
                    lemma_remove_to_set(self.excluded@, i as int);
                }
                self.excluded.remove(i);
                return ;
            }
            i += 1;
        }
        proof {
            assert(!self.excluded@.contains(user));
            assert(self.excluded_set() =~= old(self).excluded_set().remove(user));
        }
    }
}

/// Linear membership test on an id list.
pub(crate) fn contains_id(v: &Vec<u64>, x: u64) -> (r: bool)
    ensures
        r == v@.contains(x),
{
    let mut i: usize = 0;
    while i < v.len()
        invariant
            i <= v@.len(),
            forall|j: int| 0 <= j < i ==> v@[j] != x,
        decreases v@.len() - i,
    {
        if v[i] == x {
            proof {
                assert(v@.contains(x)) by {
                    assert(v@[i as int] == x);
                }
            }
            return true;
        }
        i += 1;
    }
    false
}

/// Appending a value to a list inserts it into the list's set.
proof fn lemma_push_to_set(s: Seq<u64>, x: u64)
    ensures
        s.push(x).to_set() == s.to_set().insert(x),
{
    let p = s.push(x);
    assert forall|a: u64| p.to_set().contains(a) implies s.to_set().insert(x).contains(a) by {
        let j = choose|j: int| 0 <= j < p.len() && p[j] == a;
        if j < s.len() {
            assert(s[j] == a);
        }
    };
    assert forall|a: u64| s.to_set().insert(x).contains(a) implies p.to_set().contains(a) by {
        if a == x {
            assert(p[s.len() as int] == a);
        } else {
            let j = choose|j: int| 0 <= j < s.len() && s[j] == a;
            assert(p[j] == a);
        }
    };
    assert(s.push(x).to_set() =~= s.to_set().insert(x));
}

/// Removing one index of a duplicate-free list removes exactly its value from
/// the list's set.
proof fn lemma_remove_to_set(s: Seq<u64>, i: int)
    requires
        0 <= i < s.len(),
        distinct_ids(s),
    ensures
        s.remove(i).to_set() == s.to_set().remove(s[i]),
{
    let r = s.remove(i);
    assert forall|a: u64| r.to_set().contains(a) implies s.to_set().remove(s[i]).contains(a) by {
        let j = choose|j: int| 0 <= j < r.len() && r[j] == a;
        if j < i {
            assert(s[j] == a);
        } else {
            assert(s[j + 1] == a);
        }
    };
    assert forall|a: u64| s.to_set().remove(s[i]).contains(a) implies r.to_set().contains(a) by {
        let j = choose|j: int| 0 <= j < s.len() && s[j] == a;
        assert(j != i);
        if j < i {
            assert(r[j] == a);
        } else {
            assert(r[j - 1] == a);
        }
    };
    assert(s.remove(i).to_set() =~= s.to_set().remove(s[i]));
}

/// Removing an index keeps an id list duplicate-free.
proof fn lemma_remove_keeps_distinct(s: Seq<u64>, i: int)
    requires
        0 <= i < s.len(),
        distinct_ids(s),
    ensures
        distinct_ids(s.remove(i)),
{
    let r = s.remove(i);
    assert forall|p: int, q: int| 0 <= p < q < r.len() implies r[p] != r[q] by {
        let sp: int = if p < i { p } else { p + 1 };
        let sq: int = if q < i { q } else { q + 1 };
        assert(r[p] == s[sp]);
        assert(r[q] == s[sq]);
    };
}

/// A key bound by no entry is absent from the entry list's map.
proof fn lemma_entries_map_absent(es: Seq<Entry>, k: (u64, u64))
    requires
        forall|i: int| 0 <= i < es.len() ==> entry_key(es[i]) != k,
    ensures
        !entries_map(es).contains_key(k),
    decreases es.len(),
{
    if es.len() > 0 {
        assert forall|i: int| 0 <= i < es.drop_last().len() implies entry_key(
            es.drop_last()[i],
        ) != k by {
            assert(es.drop_last()[i] == es[i]);
        };
        lemma_entries_map_absent(es.drop_last(), k);
    }
}

/// In a duplicate-free entry list, index `i` decides its key's value.
proof fn lemma_entries_map_index(es: Seq<Entry>, i: int)
    requires
        distinct_entry_keys(es),
        0 <= i < es.len(),
    ensures
        entries_map(es).contains_key(entry_key(es[i])),
        entries_map(es)[entry_key(es[i])] == es[i].seconds,
    decreases es.len(),
{
    if i < es.len() - 1 {
        assert(distinct_entry_keys(es.drop_last()));
        lemma_entries_map_index(es.drop_last(), i);
        assert(es.drop_last()[i] == es[i]);
        assert(entry_key(es.last()) != entry_key(es[i]));
    }
}

/// Removing index `i` of a duplicate-free entry list removes its key from the
/// map.
proof fn lemma_entries_map_remove(es: Seq<Entry>, i: int)
    requires
        distinct_entry_keys(es),
        0 <= i < es.len(),
    ensures
        entries_map(es.remove(i)) == entries_map(es).remove(entry_key(es[i])),
    decreases es.len(),
{
    let k = entry_key(es[i]);
    if i == es.len() - 1 {
        assert(es.remove(i) =~= es.drop_last());
        assert forall|j: int| 0 <= j < es.drop_last().len() implies entry_key(
            es.drop_last()[j],
        ) != k by {
            assert(es.drop_last()[j] == es[j]);
        };
        lemma_entries_map_absent(es.drop_last(), k);
        assert(entries_map(es).remove(k) =~= entries_map(es.drop_last()));
    } else {
        assert(distinct_entry_keys(es.drop_last()));
        lemma_entries_map_remove(es.drop_last(), i);
        assert(es.drop_last()[i] == es[i]);
        assert(es.remove(i).drop_last() =~= es.drop_last().remove(i));
        assert(es.remove(i).last() == es.last());
        assert(entry_key(es.last()) != k);
        assert(entries_map(es.drop_last()).remove(k).insert(
            entry_key(es.last()),
            es.last().seconds,
        ) =~= entries_map(es.drop_last()).insert(entry_key(es.last()), es.last().seconds).remove(
            k,
        ));
    }
}

/// Appending an entry inserts its key into the map.
proof fn lemma_entries_map_push(es: Seq<Entry>, e: Entry)
    ensures
        entries_map(es.push(e)) == entries_map(es).insert(entry_key(e), e.seconds),
{
    assert(es.push(e).drop_last() =~= es);
    assert(es.push(e).last() == e);
}

/// A user bound by no row is absent from the row list's map.
proof fn lemma_rows_map_absent(us: Seq<UserTimes>, user: u64)
    requires
        forall|i: int| 0 <= i < us.len() ==> us[i].user != user,
    ensures
        !rows_map(us).contains_key(user),
    decreases us.len(),
{
    if us.len() > 0 {
        assert forall|i: int| 0 <= i < us.drop_last().len() implies us.drop_last()[i].user
            != user by {
            assert(us.drop_last()[i] == us[i]);
        };
        lemma_rows_map_absent(us.drop_last(), user);
    }
}

/// In a duplicate-free row list, index `i` decides its user's totals.
proof fn lemma_rows_map_index(us: Seq<UserTimes>, i: int)
    requires
        distinct_user_rows(us),
        0 <= i < us.len(),
    ensures
        rows_map(us).contains_key(us[i].user),
        rows_map(us)[us[i].user] == entries_map(us[i].entries@),
    decreases us.len(),
{
    if i < us.len() - 1 {
        assert(distinct_user_rows(us.drop_last()));
        lemma_rows_map_index(us.drop_last(), i);
        assert(us.drop_last()[i] == us[i]);
        assert(us.last().user != us[i].user);
    }
}

/// Removing index `i` of a duplicate-free row list removes its user from the
/// map.
proof fn lemma_rows_map_remove(us: Seq<UserTimes>, i: int)
    requires
        distinct_user_rows(us),
        0 <= i < us.len(),
    ensures
        rows_map(us.remove(i)) == rows_map(us).remove(us[i].user),
    decreases us.len(),
{
    let u = us[i].user;
    if i == us.len() - 1 {
        assert(us.remove(i) =~= us.drop_last());
        assert forall|j: int| 0 <= j < us.drop_last().len() implies us.drop_last()[j].user
            != u by {
            assert(us.drop_last()[j] == us[j]);
        };
        lemma_rows_map_absent(us.drop_last(), u);
        assert(rows_map(us).remove(u) =~= rows_map(us.drop_last()));
    } else {
        assert(distinct_user_rows(us.drop_last()));
        lemma_rows_map_remove(us.drop_last(), i);
        assert(us.drop_last()[i] == us[i]);
        assert(us.remove(i).drop_last() =~= us.drop_last().remove(i));
        assert(us.remove(i).last() == us.last());
        assert(us.last().user != u);
        assert(rows_map(us.drop_last()).remove(u).insert(
            us.last().user,
            entries_map(us.last().entries@),
        ) =~= rows_map(us.drop_last()).insert(us.last().user, entries_map(us.last().entries@)).remove(
            u,
        ));
    }
}

/// Appending a row inserts its user into the map.
proof fn lemma_rows_map_push(us: Seq<UserTimes>, r: UserTimes)
    ensures
        rows_map(us.push(r)) == rows_map(us).insert(r.user, entries_map(r.entries@)),
{
    assert(us.push(r).drop_last() =~= us);
    assert(us.push(r).last() == r);
}

/// A user bound by no slot is absent from the session map.
proof fn lemma_slots_map_absent(ss: Seq<SessionSlot>, user: u64)
    requires
        forall|i: int| 0 <= i < ss.len() ==> ss[i].user != user,
    ensures
        !slots_map(ss).contains_key(user),
    decreases ss.len(),
{
    if ss.len() > 0 {
        assert forall|i: int| 0 <= i < ss.drop_last().len() implies ss.drop_last()[i].user
            != user by {
            assert(ss.drop_last()[i] == ss[i]);
        };
        lemma_slots_map_absent(ss.drop_last(), user);
    }
}

/// In a duplicate-free slot list, index `i` decides its user's session.
proof fn lemma_slots_map_index(ss: Seq<SessionSlot>, i: int)
    requires
        distinct_session_users(ss),
        0 <= i < ss.len(),
    ensures
        slots_map(ss).contains_key(ss[i].user),
        slots_map(ss)[ss[i].user] == ss[i].session,
    decreases ss.len(),
{
    if i < ss.len() - 1 {
        assert(distinct_session_users(ss.drop_last()));
        lemma_slots_map_index(ss.drop_last(), i);
        assert(ss.drop_last()[i] == ss[i]);
        assert(ss.last().user != ss[i].user);
    }
}

/// Removing index `i` of a duplicate-free slot list removes its user from the
/// session map.
proof fn lemma_slots_map_remove(ss: Seq<SessionSlot>, i: int)
    requires
        distinct_session_users(ss),
        0 <= i < ss.len(),
    ensures
        slots_map(ss.remove(i)) == slots_map(ss).remove(ss[i].user),
    decreases ss.len(),
{
    let u = ss[i].user;
    if i == ss.len() - 1 {
        assert(ss.remove(i) =~= ss.drop_last());
        assert forall|j: int| 0 <= j < ss.drop_last().len() implies ss.drop_last()[j].user
            != u by {
            assert(ss.drop_last()[j] == ss[j]);
        };
        lemma_slots_map_absent(ss.drop_last(), u);
        assert(slots_map(ss).remove(u) =~= slots_map(ss.drop_last()));
    } else {
        assert(distinct_session_users(ss.drop_last()));
        lemma_slots_map_remove(ss.drop_last(), i);
        assert(ss.drop_last()[i] == ss[i]);
        assert(ss.remove(i).drop_last() =~= ss.drop_last().remove(i));
        assert(ss.remove(i).last() == ss.last());
        assert(ss.last().user != u);
        assert(slots_map(ss.drop_last()).remove(u).insert(ss.last().user, ss.last().session)
            =~= slots_map(ss.drop_last()).insert(ss.last().user, ss.last().session).remove(u));
    }
}

/// Appending a slot inserts its user into the session map.
proof fn lemma_slots_map_push(ss: Seq<SessionSlot>, x: SessionSlot)
    ensures
        slots_map(ss.push(x)) == slots_map(ss).insert(x.user, x.session),
{
    assert(ss.push(x).drop_last() =~= ss);
    assert(ss.push(x).last() == x);
}

/// Whether an entry is counted by a query for `community`, restricted to one
/// channel when `channel` carries one.
pub open spec fn entry_matches(e: Entry, community: u64, channel: Option<u64>) -> bool {
    e.community == community && (match channel {
        Option::None => true,
        Option::Some(ch) => ch == e.channel,
    })
}

/// The saturating sum of the seconds of all matching entries.
pub open spec fn sum_matching(es: Seq<Entry>, community: u64, channel: Option<u64>) -> u64
    decreases es.len(),
{
    if es.len() == 0 {
        0u64
    } else {
        let rest = sum_matching(es.drop_last(), community, channel);
        if entry_matches(es.last(), community, channel) {
            sat_add_u64(rest, es.last().seconds)
        } else {
            rest
        }
    }
}

/// The query result over a row list: the matching sum of the last row bound
/// to `user`, and zero when no row is.
pub open spec fn query_rows(
    us: Seq<UserTimes>,
    user: u64,
    community: u64,
    channel: Option<u64>,
) -> u64
    decreases us.len(),
{
    if us.len() == 0 {
        0u64
    } else if us.last().user == user {
        sum_matching(us.last().entries@, community, channel)
    } else {
        query_rows(us.drop_last(), user, community, channel)
    }
}

/// With no row for `user`, a query yields zero.
proof fn lemma_query_rows_absent(us: Seq<UserTimes>, user: u64, community: u64, channel: Option<
    u64,
>)
    requires
        forall|i: int| 0 <= i < us.len() ==> us[i].user != user,
    ensures
        query_rows(us, user, community, channel) == 0,
    decreases us.len(),
{
    if us.len() > 0 {
        assert forall|i: int| 0 <= i < us.drop_last().len() implies us.drop_last()[i].user
            != user by {
            assert(us.drop_last()[i] == us[i]);
        };
        lemma_query_rows_absent(us.drop_last(), user, community, channel);
    }
}

/// With duplicate-free rows, the row at index `i` decides the query.
proof fn lemma_query_rows_found(
    us: Seq<UserTimes>,
    i: int,
    community: u64,
    channel: Option<u64>,
)
    requires
        distinct_user_rows(us),
        0 <= i < us.len(),
    ensures
        query_rows(us, us[i].user, community, channel) == sum_matching(
            us[i].entries@,
            community,
            channel,
        ),
    decreases us.len(),
{
    if i < us.len() - 1 {
        assert(distinct_user_rows(us.drop_last()));
        lemma_query_rows_found(us.drop_last(), i, community, channel);
        assert(us.drop_last()[i] == us[i]);
        assert(us.last().user != us[i].user);
    }
}

impl Store {
    /// The settled seconds that a query reports: the saturating sum over the
    /// entries of `user` under `community`, restricted to one channel when
    /// `channel` carries one. Open sessions are not counted.
    pub open spec fn spec_query(self, user: u64, community: u64, channel: Option<u64>) -> u64 {
        query_rows(self.times@, user, community, channel)
    }

    /// Answers a time query from the settled totals alone. Never fails: a
    /// user or community without entries reports zero seconds.
    pub fn query_time(&self, user: u64, community: u64, channel: Option<u64>) -> (r: u64)
        requires
            self.wf(),
        ensures
            r == self.spec_query(user, community, channel),
    {
        let mut i: usize = 0;
        while i < self.times.len()
            invariant
                self.wf(),
                i <= self.times@.len(),
                forall|j: int| 0 <= j < i ==> self.times@[j].user != user,
            decreases self.times@.len() - i,
        {
            if self.times[i].user == user {
                proof {
                    lemma_query_rows_found(self.times@, i as int, community, channel);
                }
                return sum_entries(&self.times[i].entries, community, channel);
            }
            i += 1;
        }
        proof {
            lemma_query_rows_absent(self.times@, user, community, channel);
        }
        0
    }
}

/// The accumulation table after crediting `dur` seconds to `user` under
/// `key`: the one affected total grows by `dur`, saturating; everything else
/// is unchanged.
pub open spec fn credit(
    m: Map<u64, Map<(u64, u64), u64>>,
    user: u64,
    key: (u64, u64),
    dur: u64,
) -> Map<u64, Map<(u64, u64), u64>> {
    let inner = if m.contains_key(user) {
        m[user]
    } else {
        Map::<(u64, u64), u64>::empty()
    };
    let prev = if inner.contains_key(key) {
        inner[key]
    } else {
        0u64
    };
    m.insert(user, inner.insert(key, sat_add_u64(prev, dur)))
}

/// The monotonic clock never runs backwards: a session open for `user`
/// started no later than `now`.
pub open spec fn presence_ok(s: Store, user: u64, now: u64) -> bool {
    s.sessions_map().contains_key(user) ==> s.sessions_map()[user].started_at <= now
}

/// What `apply_presence` leaves behind. For an excluded user the event is a
/// no-op. Otherwise any open session is closed and its elapsed time credited
/// to the channel it occupied, and `location` decides the new session: a
/// presence change is always a close-then-open pair, never a rename.
pub open spec fn apply_post(
    pre: Store,
    post: Store,
    user: u64,
    location: Option<(u64, u64)>,
    now: u64,
) -> bool {
    if pre.excluded_set().contains(user) {
        post == pre
    } else {
        &&& post.excluded_set() == pre.excluded_set()
        &&& post.sessions_map() == (match location {
            Option::Some(loc) => pre.sessions_map().insert(
                user,
                Session { started_at: now, community: loc.0, channel: loc.1 },
            ),
            Option::None => pre.sessions_map().remove(user),
        })
        &&& post.times_map() == (if pre.sessions_map().contains_key(user) {
            credit(
                pre.times_map(),
                user,
                (pre.sessions_map()[user].community, pre.sessions_map()[user].channel),
                (now - pre.sessions_map()[user].started_at) as u64,
            )
        } else {
            pre.times_map()
        })
    }
}

/// Removing a row keeps the row list duplicate-free, leaves its user unbound,
/// and keeps every remaining row's entry keys duplicate-free.
pub(crate) proof fn lemma_rows_remove_facts(us: Seq<UserTimes>, i: int)
    requires
        distinct_user_rows(us),
        0 <= i < us.len(),
        forall|k: int| 0 <= k < us.len() ==> distinct_entry_keys(#[trigger] us[k].entries@),
    ensures
        distinct_user_rows(us.remove(i)),
        forall|j: int| 0 <= j < us.remove(i).len() ==> (#[trigger] us.remove(i)[j]).user
            != us[i].user,
        forall|j: int|
            0 <= j < us.remove(i).len() ==> distinct_entry_keys(
                (#[trigger] us.remove(i)[j]).entries@,
            ),
{
    let r = us.remove(i);
    assert forall|j: int| 0 <= j < r.len() implies (#[trigger] r[j]).user != us[i].user
        && distinct_entry_keys(r[j].entries@) by {
        let sj: int = if j < i {
            j
        } else {
            j + 1
        };
        assert(r[j] == us[sj]);
    };
    assert forall|p: int, q: int| 0 <= p < q < r.len() implies r[p].user != r[q].user by {
        let sp: int = if p < i {
            p
        } else {
            p + 1
        };
        let sq: int = if q < i {
            q
        } else {
            q + 1
        };
        assert(r[p] == us[sp]);
        assert(r[q] == us[sq]);
    };
}

/// Removing a slot keeps the slot list duplicate-free and leaves its user
/// unbound.
proof fn lemma_slots_remove_facts(ss: Seq<SessionSlot>, i: int)
    requires
        distinct_session_users(ss),
        0 <= i < ss.len(),
    ensures
        distinct_session_users(ss.remove(i)),
        forall|j: int| 0 <= j < ss.remove(i).len() ==> (#[trigger] ss.remove(i)[j]).user
            != ss[i].user,
{
    let r = ss.remove(i);
    assert forall|j: int| 0 <= j < r.len() implies (#[trigger] r[j]).user != ss[i].user by {
        let sj: int = if j < i {
            j
        } else {
            j + 1
        };
        assert(r[j] == ss[sj]);
    };
    assert forall|p: int, q: int| 0 <= p < q < r.len() implies r[p].user != r[q].user by {
        let sp: int = if p < i {
            p
        } else {
            p + 1
        };
        let sq: int = if q < i {
            q
        } else {
            q + 1
        };
        assert(r[p] == ss[sp]);
        assert(r[q] == ss[sq]);
    };
}

/// Removing an entry keeps an entry list duplicate-free and leaves its key
/// unbound.
pub(crate) proof fn lemma_entries_remove_facts(es: Seq<Entry>, i: int)
    requires
        distinct_entry_keys(es),
        0 <= i < es.len(),
    ensures
        distinct_entry_keys(es.remove(i)),
        forall|j: int|
            0 <= j < es.remove(i).len() ==> entry_key(#[trigger] es.remove(i)[j]) != entry_key(
                es[i],
            ),
{
    let r = es.remove(i);
    assert forall|j: int| 0 <= j < r.len() implies entry_key(#[trigger] r[j]) != entry_key(
        es[i],
    ) by {
        let sj: int = if j < i {
            j
        } else {
            j + 1
        };
        assert(r[j] == es[sj]);
    };
    assert forall|p: int, q: int| 0 <= p < q < r.len() implies entry_key(r[p]) != entry_key(
        r[q],
    ) by {
        let sp: int = if p < i {
            p
        } else {
            p + 1
        };
        let sq: int = if q < i {
            q
        } else {
            q + 1
        };
        assert(r[p] == es[sp]);
        assert(r[q] == es[sq]);
    };
}

/// Finds the row of `user`, if any.
pub(crate) fn find_row(v: &Vec<UserTimes>, user: u64) -> (r: Option<usize>)
    ensures
        match r {
            Option::Some(i) => i < v@.len() && v@[i as int].user == user,
            Option::None => forall|j: int| 0 <= j < v@.len() ==> v@[j].user != user,
        },
{
    let mut i: usize = 0;
    while i < v.len()
        invariant
            i <= v@.len(),
            forall|j: int| 0 <= j < i ==> v@[j].user != user,
        decreases v@.len() - i,
    {
        if v[i].user == user {
            return Some(i);
        }
        i += 1;
    }
    None
}

/// Finds the slot of `user`, if any.
fn find_slot(v: &Vec<SessionSlot>, user: u64) -> (r: Option<usize>)
    ensures
        match r {
            Option::Some(i) => i < v@.len() && v@[i as int].user == user,
            Option::None => forall|j: int| 0 <= j < v@.len() ==> v@[j].user != user,
        },
{
    let mut i: usize = 0;
    while i < v.len()
        invariant
            i <= v@.len(),
            forall|j: int| 0 <= j < i ==> v@[j].user != user,
        decreases v@.len() - i,
    {
        if v[i].user == user {
            return Some(i);
        }
        i += 1;
    }
    None
}

/// Finds the entry under `(community, channel)`, if any.
pub(crate) fn find_entry(v: &Vec<Entry>, community: u64, channel: u64) -> (r: Option<usize>)
    ensures
        match r {
            Option::Some(i) => i < v@.len() && entry_key(v@[i as int]) == (community, channel),
            Option::None => forall|j: int|
                0 <= j < v@.len() ==> entry_key(v@[j]) != (community, channel),
        },
{
    let mut i: usize = 0;
    while i < v.len()
        invariant
            i <= v@.len(),
            forall|j: int| 0 <= j < i ==> entry_key(v@[j]) != (community, channel),
        decreases v@.len() - i,
    {
        if v[i].community == community && v[i].channel == channel {
            return Some(i);
        }
        i += 1;
    }
    None
}

impl Store {
    /// Credits `dur` seconds to `user` under `(community, channel)`,
    /// saturating at the 64-bit maximum.
    fn add_time(&mut self, user: u64, community: u64, channel: u64, dur: u64)
        requires
            old(self).wf(),
        ensures
            final(self).wf(),
            final(self).times_map() == credit(
                old(self).times_map(),
                user,
                (community, channel),
                dur,
            ),
            final(self).excluded@ == old(self).excluded@,
            final(self).sessions@ == old(self).sessions@,
    {
        let ghost m0 = old(self).times_map();
        let ghost key = (community, channel);
        let ghost inner0 = if m0.contains_key(user) {
            m0[user]
        } else {
            Map::<(u64, u64), u64>::empty()
        };
        let mut row: UserTimes;
        match find_row(&self.times, user) {
            Some(i) => {
                proof {
                    lemma_rows_map_index(self.times@, i as int);
                    lemma_rows_map_remove(self.times@, i as int);
                    lemma_rows_remove_facts(self.times@, i as int);
                }
                row = self.times.remove(i);
            },
            None => {
                proof {
                    lemma_rows_map_absent(self.times@, user);
                    assert(m0.remove(user) =~= m0);
                }
                row = UserTimes { user, entries: Vec::new() };
            },
        }
        proof {
            assert(rows_map(self.times@) == m0.remove(user));
            assert(entries_map(row.entries@) == inner0);
            assert(distinct_entry_keys(row.entries@));
        }
        let ghost prev0 = if inner0.contains_key(key) {
            inner0[key]
        } else {
            0u64
        };
        let prev: u64;
        match find_entry(&row.entries, community, channel) {
            Some(j) => {
                prev = row.entries[j].seconds;
                proof {
                    lemma_entries_map_index(row.entries@, j as int);
                    lemma_entries_map_remove(row.entries@, j as int);
                    lemma_entries_remove_facts(row.entries@, j as int);
                }
                row.entries.remove(j);
            },
            None => {
                proof {
                    lemma_entries_map_absent(row.entries@, key);
                    assert(inner0.remove(key) =~= inner0);
                }
                prev = 0;
            },
        }
        proof {
            assert(prev == prev0);
            assert(entries_map(row.entries@) == inner0.remove(key));
        }
        let ghost e1 = row.entries@;
        let fresh = Entry { community, channel, seconds: prev.saturating_add(dur) };
        row.entries.push(fresh);
        proof {
            lemma_entries_map_push(e1, fresh);
            assert(entries_map(row.entries@) =~= inner0.insert(key, sat_add_u64(prev0, dur)));
            assert(distinct_entry_keys(row.entries@)) by {
                assert(forall|j: int| 0 <= j < e1.len() ==> entry_key(#[trigger] e1[j]) != key);
                assert(forall|j: int| 0 <= j < e1.len() ==> row.entries@[j] == e1[j]);
            }
        }
        let ghost t1 = self.times@;
        let ghost rowg = row;
        self.times.push(row);
        proof {
            lemma_rows_map_push(t1, rowg);
            assert(rows_map(self.times@) =~= credit(m0, user, key, dur));
            assert(forall|j: int| 0 <= j < t1.len() ==> self.times@[j] == t1[j]);
            assert(distinct_user_rows(self.times@));
            assert(forall|k: int|
                0 <= k < self.times@.len() ==> distinct_entry_keys(
                    #[trigger] self.times@[k].entries@,
                ));
        }
    }

    /// Applies one presence event: for a non-excluded user, closes and
    /// credits any open session, then opens a session at `location` when one
    /// is given. `now` is the monotonic receipt timestamp in seconds.
    pub fn apply_presence(&mut self, user: u64, location: Option<(u64, u64)>, now: u64)
        requires
            old(self).wf(),
            presence_ok(*old(self), user, now),
        ensures
            final(self).wf(),
            apply_post(*old(self), *final(self), user, location, now),
    {
        if self.is_excluded(user) {
            return ;
        }
        let ghost pre = *old(self);
        let mut closed: Option<Session> = None;
        match find_slot(&self.sessions, user) {
            Some(i) => {
                proof {
                    lemma_slots_map_index(self.sessions@, i as int);
                    lemma_slots_map_remove(self.sessions@, i as int);
                    lemma_slots_remove_facts(self.sessions@, i as int);
                }
                let slot = self.sessions.remove(i);
                closed = Some(slot.session);
            },
            None => {
                proof {
                    lemma_slots_map_absent(self.sessions@, user);
                    assert(pre.sessions_map().remove(user) =~= pre.sessions_map());
                }
            },
        }
        proof {
            assert(slots_map(self.sessions@) == pre.sessions_map().remove(user));
            assert(distinct_session_users(self.sessions@));
            assert(forall|j: int| 0 <= j < self.sessions@.len()
                ==> (#[trigger] self.sessions@[j]).user != user);
        }
        match location {
            Some(loc) => {
                let ghost s1 = self.sessions@;
                let slot = SessionSlot {
                    user,
                    session: Session { started_at: now, community: loc.0, channel: loc.1 },
                };
                self.sessions.push(slot);
                proof {
                    lemma_slots_map_push(s1, slot);
                    assert(slots_map(self.sessions@) =~= pre.sessions_map().insert(
                        user,
                        slot.session,
                    ));
                    assert(forall|j: int| 0 <= j < s1.len() ==> self.sessions@[j] == s1[j]);
                    assert(distinct_session_users(self.sessions@));
                }
            },
            None => {},
        }
        match closed {
            Some(sess) => {
                self.add_time(user, sess.community, sess.channel, now - sess.started_at);
            },
            None => {},
        }
    }
}

/// The settled total of one user under one key, zero when absent.
pub open spec fn total_of(m: Map<u64, Map<(u64, u64), u64>>, user: u64, key: (u64, u64)) -> u64 {
    if m.contains_key(user) && m[user].contains_key(key) {
        m[user][key]
    } else {
        0u64
    }
}

/// Law: presence events of an excluded user change nothing, whatever the
/// location transition.
pub proof fn lemma_exclusion_blocks_accounting(
    pre: Store,
    post: Store,
    user: u64,
    location: Option<(u64, u64)>,
    now: u64,
)
    requires
        pre.excluded_set().contains(user),
        apply_post(pre, post, user, location, now),
    ensures
        post.times_map() == pre.times_map(),
        post.sessions_map() == pre.sessions_map(),
        post.excluded_set() == pre.excluded_set(),
{
}

/// Law: closing a session accounts it exactly once. After opening a session
/// at `(c1, ch1)` at `t0` and replacing it at `t1`, the `(c1, ch1)` total has
/// grown by exactly `t1 - t0` (saturating), every other total of the user is
/// untouched, and the open session is at `(c2, ch2)` with start `t1`.
pub proof fn lemma_session_close_accounts_once(
    s0: Store,
    s1: Store,
    s2: Store,
    user: u64,
    c1: u64,
    ch1: u64,
    c2: u64,
    ch2: u64,
    t0: u64,
    t1: u64,
)
    requires
        !s0.excluded_set().contains(user),
        !s1.excluded_set().contains(user),
        apply_post(s0, s1, user, Option::Some((c1, ch1)), t0),
        apply_post(s1, s2, user, Option::Some((c2, ch2)), t1),
        t0 <= t1,
    ensures
        total_of(s2.times_map(), user, (c1, ch1)) == sat_add_u64(
            total_of(s1.times_map(), user, (c1, ch1)),
            (t1 - t0) as u64,
        ),
        forall|k: (u64, u64)|
            k != (c1, ch1) ==> total_of(s2.times_map(), user, k) == total_of(
                s1.times_map(),
                user,
                k,
            ),
        s2.sessions_map().contains_key(user),
        s2.sessions_map()[user] == (Session { started_at: t1, community: c2, channel: ch2 }),
{
    assert(s1.sessions_map().contains_key(user));
    assert(s1.sessions_map()[user] == Session { started_at: t0, community: c1, channel: ch1 });
}

/// Any bound row makes its user a key of the row map.
proof fn lemma_rows_map_contains(us: Seq<UserTimes>, i: int)
    requires
        0 <= i < us.len(),
    ensures
        rows_map(us).contains_key(us[i].user),
    decreases us.len(),
{
    if i < us.len() - 1 {
        lemma_rows_map_contains(us.drop_last(), i);
        assert(us.drop_last()[i] == us[i]);
    }
}

/// Law: a user without settled entries queries to zero seconds, for any
/// community and channel filter; a query never fails.
pub proof fn lemma_missing_user_queries_zero(
    s: Store,
    user: u64,
    community: u64,
    channel: Option<u64>,
)
    requires
        !s.times_map().contains_key(user),
    ensures
        s.spec_query(user, community, channel) == 0,
{
    assert forall|i: int| 0 <= i < s.times@.len() implies s.times@[i].user != user by {
        if s.times@[i].user == user {
            lemma_rows_map_contains(s.times@, i);
        }
    };
    lemma_query_rows_absent(s.times@, user, community, channel);
}

/// Over a duplicate-free entry list, the single-channel matching sum is
/// exactly the mapping's value under that key, or zero when unbound.
proof fn lemma_sum_matching_is_lookup(es: Seq<Entry>, community: u64, ch: u64)
    requires
        distinct_entry_keys(es),
    ensures
        sum_matching(es, community, Option::Some(ch)) == (if entries_map(es).contains_key(
            (community, ch),
        ) {
            entries_map(es)[(community, ch)]
        } else {
            0u64
        }),
    decreases es.len(),
{
    if es.len() > 0 {
        let e = es.last();
        assert(distinct_entry_keys(es.drop_last()));
        lemma_sum_matching_is_lookup(es.drop_last(), community, ch);
        if entry_key(e) == (community, ch) {
            assert forall|i: int| 0 <= i < es.drop_last().len() implies !entry_matches(
                #[trigger] es.drop_last()[i],
                community,
                Option::Some(ch),
            ) by {
                assert(es.drop_last()[i] == es[i]);
                assert(entry_key(es[i]) != entry_key(es[es.len() - 1]));
            };
            lemma_sum_matching_zero(es.drop_last(), community, ch);
        } else {
            assert(!entry_matches(e, community, Option::Some(ch)));
        }
    }
}

/// Law: a single-channel query reads exactly the settled total bound under
/// `(community, channel)` in the accumulation table, zero when none is.
pub proof fn lemma_query_single_channel(s: Store, user: u64, community: u64, ch: u64)
    requires
        s.wf(),
    ensures
        s.spec_query(user, community, Option::Some(ch)) == total_of(
            s.times_map(),
            user,
            (community, ch),
        ),
{
    let us = s.times@;
    if exists|i: int| 0 <= i < us.len() && us[i].user == user {
        let i = choose|i: int| 0 <= i < us.len() && us[i].user == user;
        lemma_query_rows_found(us, i, community, Option::Some(ch));
        lemma_rows_map_index(us, i);
        lemma_sum_matching_is_lookup(us[i].entries@, community, ch);
    } else {
        assert forall|i: int| 0 <= i < us.len() implies us[i].user != user by {};
        lemma_query_rows_absent(us, user, community, Option::Some(ch));
        lemma_rows_map_absent(us, user);
    }
}

/// The channels under `community` that an entry list has entries for, in
/// list order.
pub open spec fn channels_in(es: Seq<Entry>, community: u64) -> Seq<u64>
    decreases es.len(),
{
    if es.len() == 0 {
        Seq::empty()
    } else {
        let rest = channels_in(es.drop_last(), community);
        if es.last().community == community {
            rest.push(es.last().channel)
        } else {
            rest
        }
    }
}

/// The saturating sum of a list of second counts.
pub open spec fn sat_sum(xs: Seq<u64>) -> u64
    decreases xs.len(),
{
    if xs.len() == 0 {
        0u64
    } else {
        sat_add_u64(sat_sum(xs.drop_last()), xs.last())
    }
}

/// The channels of `user` under `community` over a row list.
pub open spec fn channels_rows(us: Seq<UserTimes>, user: u64, community: u64) -> Seq<u64>
    decreases us.len(),
{
    if us.len() == 0 {
        Seq::empty()
    } else if us.last().user == user {
        channels_in(us.last().entries@, community)
    } else {
        channels_rows(us.drop_last(), user, community)
    }
}

impl Store {
    /// The channels under `community` that `user` has settled entries for.
    pub open spec fn spec_channels(self, user: u64, community: u64) -> Seq<u64> {
        channels_rows(self.times@, user, community)
    }
}

/// A listed channel comes from some entry of that community.
proof fn lemma_channels_in_exists(es: Seq<Entry>, community: u64, ch: u64)
    requires
        channels_in(es, community).contains(ch),
    ensures
        exists|i: int| 0 <= i < es.len() && es[i].community == community && es[i].channel == ch,
    decreases es.len(),
{
    let cs = channels_in(es, community);
    let rest = channels_in(es.drop_last(), community);
    if es.last().community == community && es.last().channel == ch {
        assert(es[es.len() - 1].community == community && es[es.len() - 1].channel == ch);
    } else {
        assert(rest.contains(ch)) by {
            let k = choose|k: int| 0 <= k < cs.len() && cs[k] == ch;
            if es.last().community == community {
                assert(k < rest.len());
                assert(rest[k] == ch);
            }
        }
        lemma_channels_in_exists(es.drop_last(), community, ch);
        let i = choose|i: int|
            0 <= i < es.drop_last().len() && es.drop_last()[i].community == community
                && es.drop_last()[i].channel == ch;
        assert(es[i] == es.drop_last()[i]);
    }
}

/// With no matching entry, the matching sum is zero.
proof fn lemma_sum_matching_zero(es: Seq<Entry>, community: u64, ch: u64)
    requires
        forall|i: int| 0 <= i < es.len() ==> !entry_matches(#[trigger] es[i], community, Option::Some(ch)),
    ensures
        sum_matching(es, community, Option::Some(ch)) == 0,
    decreases es.len(),
{
    if es.len() > 0 {
        assert forall|i: int| 0 <= i < es.drop_last().len() implies !entry_matches(
            #[trigger] es.drop_last()[i],
            community,
            Option::Some(ch),
        ) by {
            assert(es.drop_last()[i] == es[i]);
        };
        lemma_sum_matching_zero(es.drop_last(), community, ch);
        assert(es.last() == es[es.len() - 1]);
    }
}

/// Over a duplicate-free entry list, the unfiltered matching sum for a
/// community is the saturating sum of the per-channel matching sums, taken
/// over the community's channel list.
proof fn lemma_sum_matching_split(es: Seq<Entry>, community: u64)
    requires
        distinct_entry_keys(es),
    ensures
        sum_matching(es, community, Option::None) == sat_sum(
            channels_in(es, community).map_values(
                |ch: u64| sum_matching(es, community, Option::Some(ch)),
            ),
        ),
    decreases es.len(),
{
    let f = |ch: u64| sum_matching(es, community, Option::Some(ch));
    if es.len() == 0 {
        assert(channels_in(es, community).map_values(f) =~= Seq::<u64>::empty());
    } else {
        let es1 = es.drop_last();
        let e = es.last();
        let f1 = |ch: u64| sum_matching(es1, community, Option::Some(ch));
        assert(distinct_entry_keys(es1));
        lemma_sum_matching_split(es1, community);
        let cs1 = channels_in(es1, community);
        // On every channel of the shorter list the last entry plays no part.
        assert forall|k: int| 0 <= k < cs1.len() implies f(cs1[k]) == f1(cs1[k]) by {
            let ch = cs1[k];
            assert(cs1.contains(ch));
            lemma_channels_in_exists(es1, community, ch);
            let i = choose|i: int|
                0 <= i < es1.len() && es1[i].community == community && es1[i].channel == ch;
            assert(es1[i] == es[i]);
            assert(entry_key(es[i]) != entry_key(es[es.len() - 1]));
            assert(!entry_matches(e, community, Option::Some(ch)));
        };
        assert(cs1.map_values(f) =~= cs1.map_values(f1));
        if e.community == community {
            // The last entry contributes its own channel, whose whole
            // per-channel sum is exactly the entry's seconds.
            assert forall|i: int| 0 <= i < es1.len() implies !entry_matches(
                #[trigger] es1[i],
                community,
                Option::Some(e.channel),
            ) by {
                assert(es1[i] == es[i]);
                assert(entry_key(es[i]) != entry_key(es[es.len() - 1]));
            };
            lemma_sum_matching_zero(es1, community, e.channel);
            assert(entry_matches(e, community, Option::Some(e.channel)));
            assert(f(e.channel) == sat_add_u64(0, e.seconds));
            assert(f(e.channel) == e.seconds);
            let cs = channels_in(es, community);
            assert(cs == cs1.push(e.channel));
            assert(cs.map_values(f) =~= cs1.map_values(f).push(f(e.channel)));
            assert(cs.map_values(f).drop_last() =~= cs1.map_values(f));
            assert(sat_sum(cs.map_values(f)) == sat_add_u64(
                sat_sum(cs1.map_values(f1)),
                e.seconds,
            ));
        } else {
            assert(channels_in(es, community) == cs1);
            assert(!entry_matches(e, community, Option::None));
        }
    }
}

/// Law: a query over a whole community is the saturating sum of the queries
/// over each channel the user has entries for in that community.
pub proof fn lemma_query_all_sums_channels(s: Store, user: u64, community: u64)
    requires
        s.wf(),
    ensures
        s.spec_query(user, community, Option::None) == sat_sum(
            s.spec_channels(user, community).map_values(
                |ch: u64| s.spec_query(user, community, Option::Some(ch)),
            ),
        ),
{
    let us = s.times@;
    let g = |ch: u64| s.spec_query(user, community, Option::Some(ch));
    if exists|i: int| 0 <= i < us.len() && us[i].user == user {
        let i = choose|i: int| 0 <= i < us.len() && us[i].user == user;
        let es = us[i].entries@;
        lemma_query_rows_found(us, i, community, Option::None);
        lemma_channels_rows_found(us, i, community);
        assert(distinct_entry_keys(es));
        lemma_sum_matching_split(es, community);
        let f = |ch: u64| sum_matching(es, community, Option::Some(ch));
        assert forall|k: int|
            0 <= k < channels_in(es, community).len() implies g(
            channels_in(es, community)[k],
        ) == f(channels_in(es, community)[k]) by {
            lemma_query_rows_found(us, i, community, Option::Some(channels_in(es, community)[k]));
        };
        assert(s.spec_channels(user, community).map_values(g) =~= channels_in(
            es,
            community,
        ).map_values(f));
    } else {
        assert forall|i: int| 0 <= i < us.len() implies us[i].user != user by {};
        lemma_query_rows_absent(us, user, community, Option::None);
        lemma_channels_rows_absent(us, user, community);
        assert(s.spec_channels(user, community).map_values(g) =~= Seq::<u64>::empty());
    }
}

/// With duplicate-free rows, the row at index `i` decides the channel list.
proof fn lemma_channels_rows_found(us: Seq<UserTimes>, i: int, community: u64)
    requires
        distinct_user_rows(us),
        0 <= i < us.len(),
    ensures
        channels_rows(us, us[i].user, community) == channels_in(us[i].entries@, community),
    decreases us.len(),
{
    if i < us.len() - 1 {
        assert(distinct_user_rows(us.drop_last()));
        lemma_channels_rows_found(us.drop_last(), i, community);
        assert(us.drop_last()[i] == us[i]);
        assert(us.last().user != us[i].user);
    }
}

/// With no row for `user`, the channel list is empty.
proof fn lemma_channels_rows_absent(us: Seq<UserTimes>, user: u64, community: u64)
    requires
        forall|i: int| 0 <= i < us.len() ==> us[i].user != user,
    ensures
        channels_rows(us, user, community) == Seq::<u64>::empty(),
    decreases us.len(),
{
    if us.len() > 0 {
        assert forall|i: int| 0 <= i < us.drop_last().len() implies us.drop_last()[i].user
            != user by {
            assert(us.drop_last()[i] == us[i]);
        };
        lemma_channels_rows_absent(us.drop_last(), user, community);
    }
}

/// Sums the matching entries with saturating addition.
fn sum_entries(es: &Vec<Entry>, community: u64, channel: Option<u64>) -> (r: u64)
    ensures
        r == sum_matching(es@, community, channel),
{
    let mut acc: u64 = 0;
    let mut i: usize = 0;
    while i < es.len()
        invariant
            i <= es@.len(),
            acc == sum_matching(es@.take(i as int), community, channel),
        decreases es@.len() - i,
    {
        let e = es[i];
        proof {
            assert(es@.take(i + 1 as int).drop_last() =~= es@.take(i as int));
            assert(es@.take(i + 1 as int).last() == es@[i as int]);
        }
        let counted = match channel {
            Option::None => e.community == community,
            Option::Some(ch) => e.community == community && ch == e.channel,
        };
        if counted {
            acc = acc.saturating_add(e.seconds);
        }
        i += 1;
    }
    proof {
        assert(es@.take(es@.len() as int) =~= es@);
    }
    acc
}

} // verus!
