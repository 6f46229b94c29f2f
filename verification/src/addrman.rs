//! The address store: every peer address the node knows of, in two tables
//! of fixed size. "new" holds addresses heard of, "tried" those that a
//! connection has reached.

use vstd::prelude::*;
use crate::endpoint::{Address, Service, ServiceFlags};
use crate::error::NetError;
use crate::hashing::{draw, endpoint_hash, hash_endpoint, hash_pair, pair_hash, stream_advance, stream_output};
use crate::netaddr::{NetAddr, Unknown};

verus! {

/// Buckets of the "new" table.
pub const NEW_BUCKET_COUNT: usize = 256;

/// Buckets of the "tried" table.
pub const TRIED_BUCKET_COUNT: usize = 64;

/// Slots of one bucket.
pub const BUCKET_SIZE: usize = 64;

/// Slots of the "new" table: `NEW_BUCKET_COUNT * BUCKET_SIZE`.
pub const NEW_SLOTS: usize = 16_384;

/// Slots of the "tried" table: `TRIED_BUCKET_COUNT * BUCKET_SIZE`.
pub const TRIED_SLOTS: usize = 4_096;

/// A record last seen longer ago than this, in seconds, is stale: 30 days.
pub const STALE_AFTER_SECS: i64 = 2_592_000;

/// A record seen within this many seconds, with no failure since, is
/// fresh: 7 days.
pub const FRESH_WITHIN_SECS: i64 = 604_800;

/// A record with this many failures in a row is given up.
pub const MAX_FAILURES: u32 = 10;

/// A success at most this many seconds ago is recent: one day.
pub const RECENT_SUCCESS_SECS: i64 = 86_400;

/// The most addresses that one sample holds.
pub const SAMPLE_MAX: usize = 1_000;

/// Tells the hash for the bucket of "new" apart from the others.
pub const TAG_NEW_BUCKET: u64 = 0x4e42;

/// Tells the hash for the slot within a bucket of "new" apart.
pub const TAG_NEW_SLOT: u64 = 0x4e53;

/// Tells the hash for the bucket of "tried" apart.
pub const TAG_TRIED_BUCKET: u64 = 0x5442;

/// Tells the hash for the slot within a bucket of "tried" apart.
pub const TAG_TRIED_SLOT: u64 = 0x5453;

/// Tells the hash for the list of the directory apart.
pub const TAG_DIRECTORY: u64 = 0x4452;

/// Lists of the directory by which a record of "new" is found again.
pub const DIRECTORY_SIZE: usize = 4_096;

/// Address and port: what tells two records apart.
pub type AddrKey = (NetAddr, u16);

/// What the store keeps for one endpoint.
#[derive(Clone, Copy, Debug, PartialEq, Eq, Structural)]
pub struct AddrRecord {
    /// The endpoint and its advertised capabilities.
    pub service: Service,
    /// The peer that reported it.
    pub source: NetAddr,
    /// When it was last seen alive, in seconds since the epoch.
    pub last_seen: i64,
    /// When a connection last reached it; 0 where none did.
    pub last_success: i64,
    /// Connections that reached it.
    pub successes: u32,
    /// Attempts that failed since the last success.
    pub failures: u32,
}

impl AddrRecord {
    pub open spec fn key(self) -> AddrKey {
        self.service.key()
    }

    /// Stale, or failed too often in a row.
    pub open spec fn is_terrible(self, now: i64) -> bool {
        now - self.last_seen > STALE_AFTER_SECS || self.failures >= MAX_FAILURES
    }

    /// Seen lately and without a failure since.
    pub open spec fn is_fresh(self, now: i64) -> bool {
        !self.is_terrible(now) && now - self.last_seen <= FRESH_WITHIN_SECS && self.failures == 0
    }

    /// Reached by a connection, and by every attempt since.
    pub open spec fn is_reliable(self, now: i64) -> bool {
        !self.is_terrible(now) && self.successes > 0 && self.failures == 0
    }

    /// Reached by a connection that ended at most a day before `now`.
    pub open spec fn recently_reached(self, now: i64) -> bool {
        self.successes > 0 && now - self.last_success <= RECENT_SUCCESS_SECS
    }

    /// The record after a connection reached the endpoint at `now`.
    pub open spec fn after_success(self, now: i64) -> AddrRecord {
        AddrRecord {
            last_seen: now,
            last_success: now,
            successes: if self.successes == u32::MAX {
                u32::MAX
            } else {
                (self.successes + 1) as u32
            },
            failures: 0,
            ..self
        }
    }

    /// The record after one more attempt failed.
    pub open spec fn after_failure(self) -> AddrRecord {
        AddrRecord {
            failures: if self.failures == u32::MAX {
                u32::MAX
            } else {
                (self.failures + 1) as u32
            },
            ..self
        }
    }

    /// The record with other capability flags.
    pub open spec fn with_services(self, flags: ServiceFlags) -> AddrRecord {
        AddrRecord { service: Service { services: flags, ..self.service }, ..self }
    }

    /// What a sample hands out for the record: endpoint and last-seen time.
    pub open spec fn address(self) -> Address {
        Address { inner: self.service, time: self.last_seen }
    }

    /// Computes [`AddrRecord::is_terrible`].
    pub fn terrible(&self, now: i64) -> (r: bool)
        ensures
            r == self.is_terrible(now),
    {
        now as i128 - self.last_seen as i128 > STALE_AFTER_SECS as i128 || self.failures
            >= MAX_FAILURES
    }

    /// Computes [`AddrRecord::is_fresh`].
    pub fn fresh(&self, now: i64) -> (r: bool)
        ensures
            r == self.is_fresh(now),
    {
        !self.terrible(now) && now as i128 - self.last_seen as i128 <= FRESH_WITHIN_SECS as i128
            && self.failures == 0
    }

    /// Computes [`AddrRecord::is_reliable`].
    pub fn reliable(&self, now: i64) -> (r: bool)
        ensures
            r == self.is_reliable(now),
    {
        !self.terrible(now) && self.successes > 0 && self.failures == 0
    }

    /// Computes [`AddrRecord::recently_reached`].
    pub fn reached_recently(&self, now: i64) -> (r: bool)
        ensures
            r == self.recently_reached(now),
    {
        self.successes > 0 && now as i128 - self.last_success as i128 <= RECENT_SUCCESS_SECS as i128
    }

    /// Computes [`AddrRecord::after_success`].
    pub fn succeeded(&self, now: i64) -> (r: AddrRecord)
        ensures
            r == self.after_success(now),
    {
        AddrRecord {
            service: self.service,
            source: self.source,
            last_seen: now,
            last_success: now,
            successes: self.successes.saturating_add(1),
            failures: 0,
        }
    }

    /// Computes [`AddrRecord::after_failure`].
    pub fn failed(&self) -> (r: AddrRecord)
        ensures
            r == self.after_failure(),
    {
        AddrRecord {
            service: self.service,
            source: self.source,
            last_seen: self.last_seen,
            last_success: self.last_success,
            successes: self.successes,
            failures: self.failures.saturating_add(1),
        }
    }
}

/// The last-seen time that a time reported at `now` gets. A time after
/// `now` counts as `now`: nobody was seen in the future. From that the
/// penalty is taken where it is positive, and the result is never before
/// the epoch.
pub open spec fn aged_time(time: i64, penalty: i64, now: i64) -> i64 {
    let seen: int = if time > now {
        now as int
    } else {
        time as int
    };
    let t: int = if penalty > 0 {
        seen - penalty
    } else {
        seen
    };
    if t < 0 {
        0
    } else {
        t as i64
    }
}

/// The record that an address heard of at `now` starts with.
pub open spec fn first_record(addr: Address, source: NetAddr, penalty: i64, now: i64) -> AddrRecord {
    AddrRecord {
        service: addr.inner,
        source,
        last_seen: aged_time(addr.time, penalty, now),
        last_success: 0,
        successes: 0,
        failures: 0,
    }
}

/// Whether the occupant of a slot gives way to a newcomer: a terrible one
/// always, a fresh or reliable one never, any other where the coin says
/// so.
pub open spec fn gives_way(occupant: AddrRecord, now: i64, coin: u64) -> bool {
    occupant.is_terrible(now) || (!occupant.is_fresh(now) && !occupant.is_reliable(now) && coin
        % 2 == 1)
}

/// Computes [`gives_way`].
pub fn yields(occupant: &AddrRecord, now: i64, coin: u64) -> (r: bool)
    ensures
        r == gives_way(*occupant, now, coin),
{
    occupant.terrible(now) || (!occupant.fresh(now) && !occupant.reliable(now) && coin % 2 == 1)
}

/// The slot of the "new" table for an endpoint reported by `source`:
/// bucket and slot within it come from two hashes under `salt`.
#[verifier::opaque]
pub open spec fn new_index(salt: u64, k: AddrKey, source: NetAddr) -> int {
    (pair_hash(salt, TAG_NEW_BUCKET, k.0, k.1, source) % (NEW_BUCKET_COUNT as u64)) * BUCKET_SIZE
        + pair_hash(salt, TAG_NEW_SLOT, k.0, k.1, source) % (BUCKET_SIZE as u64)
}

/// The slot of the "tried" table for an endpoint.
#[verifier::opaque]
pub open spec fn tried_index(salt: u64, k: AddrKey) -> int {
    (endpoint_hash(salt, TAG_TRIED_BUCKET, k.0, k.1) % (TRIED_BUCKET_COUNT as u64)) * BUCKET_SIZE
        + endpoint_hash(salt, TAG_TRIED_SLOT, k.0, k.1) % (BUCKET_SIZE as u64)
}

/// The list of the directory that names the slot of an endpoint in "new".
#[verifier::opaque]
pub open spec fn directory_index(salt: u64, k: AddrKey) -> int {
    (endpoint_hash(salt, TAG_DIRECTORY, k.0, k.1) % (DIRECTORY_SIZE as u64)) as int
}

/// Whether `slot` holds the record of endpoint `k`.
pub open spec fn holds(slot: Option<AddrRecord>, k: AddrKey) -> bool {
    slot matches Some(r) && r.key() == k
}

/// The number of slots that hold a record.
pub open spec fn occupied(s: Seq<Option<AddrRecord>>) -> nat
    decreases s.len(),
{
    if s.len() == 0 {
        0
    } else {
        occupied(s.drop_last()) + if s.last() is Some {
            1nat
        } else {
            0nat
        }
    }
}

proof fn lemma_occupied_bound(s: Seq<Option<AddrRecord>>)
    ensures
        occupied(s) <= s.len(),
    decreases s.len(),
{
    if s.len() > 0 {
        lemma_occupied_bound(s.drop_last());
    }
}

proof fn lemma_occupied_update(s: Seq<Option<AddrRecord>>, i: int, v: Option<AddrRecord>)
    requires
        0 <= i < s.len(),
    ensures
        occupied(s.update(i, v)) + (if s[i] is Some {
            1nat
        } else {
            0nat
        }) == occupied(s) + (if v is Some {
            1nat
        } else {
            0nat
        }),
    decreases s.len(),
{
    let s2: Seq<Option<AddrRecord>> = s.update(i, v);
    if i == s.len() - 1 {
        assert(s2.drop_last() == s.drop_last());
    } else {
        lemma_occupied_update(s.drop_last(), i, v);
        assert(s2.drop_last() == s.drop_last().update(i, v));
    }
}

proof fn lemma_occupied_empty(s: Seq<Option<AddrRecord>>)
    requires
        forall|i: int| 0 <= i < s.len() ==> #[trigger] s[i] is None,
    ensures
        occupied(s) == 0,
    decreases s.len(),
{
    if s.len() > 0 {
        lemma_occupied_empty(s.drop_last());
    }
}

/// The store as a value: its salt, the state of its pseudo-random stream,
/// and the slots of both tables.
pub struct AddrTables {
    pub salt: u64,
    pub stream: u64,
    pub new_slots: Seq<Option<AddrRecord>>,
    pub tried_slots: Seq<Option<AddrRecord>>,
}

impl AddrTables {
    /// Whether "new" holds the endpoint.
    pub open spec fn in_new(self, k: AddrKey) -> bool {
        exists|i: int| 0 <= i < self.new_slots.len() && holds(#[trigger] self.new_slots[i], k)
    }

    /// The slot of "new" that holds the endpoint.
    pub open spec fn new_place(self, k: AddrKey) -> int {
        choose|i: int| 0 <= i < self.new_slots.len() && holds(#[trigger] self.new_slots[i], k)
    }

    /// Whether "tried" holds the endpoint.
    pub open spec fn in_tried(self, k: AddrKey) -> bool {
        holds(self.tried_slots[tried_index(self.salt, k)], k)
    }

    /// The endpoints that the store knows.
    pub open spec fn keys(self) -> Set<AddrKey> {
        Set::new(|k: AddrKey| self.in_new(k) || self.in_tried(k))
    }

    /// The record of an endpoint, where the store knows it.
    pub open spec fn record(self, k: AddrKey) -> Option<AddrRecord> {
        if self.in_tried(k) {
            self.tried_slots[tried_index(self.salt, k)]
        } else if self.in_new(k) {
            self.new_slots[self.new_place(k)]
        } else {
            None
        }
    }

    /// What holds of every store: both tables have their fixed size, every
    /// record is that of a routable address and sits in the slot that its
    /// hashes name, no endpoint has two records, and none is in both
    /// tables.
    pub open spec fn wf(self) -> bool {
        &&& self.new_slots.len() == NEW_SLOTS
        &&& self.tried_slots.len() == TRIED_SLOTS
        &&& forall|i: int|
            0 <= i < self.new_slots.len() ==> (#[trigger] self.new_slots[i] matches Some(r)
                ==> new_index(self.salt, r.key(), r.source) == i && r.key().0.is_routable())
        &&& forall|i: int|
            0 <= i < self.tried_slots.len() ==> (#[trigger] self.tried_slots[i] matches Some(r)
                ==> tried_index(self.salt, r.key()) == i && r.key().0.is_routable())
        &&& forall|i: int, j: int|
            0 <= i < self.new_slots.len() && 0 <= j < self.new_slots.len() && (
            #[trigger] self.new_slots[i]) is Some && holds(
                #[trigger] self.new_slots[j],
                self.new_slots[i]->0.key(),
            ) ==> i == j
        &&& forall|i: int|
            0 <= i < self.new_slots.len() ==> (#[trigger] self.new_slots[i] matches Some(r)
                ==> !self.in_tried(r.key()))
    }

    /// The store with slot `i` of "new" set to `v`.
    pub open spec fn with_new(self, i: int, v: Option<AddrRecord>) -> AddrTables {
        AddrTables { new_slots: self.new_slots.update(i, v), ..self }
    }

    /// The store with slot `i` of "tried" set to `v`.
    pub open spec fn with_tried(self, i: int, v: Option<AddrRecord>) -> AddrTables {
        AddrTables { tried_slots: self.tried_slots.update(i, v), ..self }
    }

    /// The store with its stream in another state.
    pub open spec fn with_stream(self, stream: u64) -> AddrTables {
        AddrTables { stream, ..self }
    }

    /// The store after one draw from its stream.
    pub open spec fn drawn(self) -> AddrTables {
        self.with_stream(stream_advance(self.stream))
    }
}

/// The endpoints known once a slot that held `before` holds `after`.
pub open spec fn keys_after(keys: Set<AddrKey>, before: Option<AddrRecord>, after: Option<
    AddrRecord,
>) -> Set<AddrKey> {
    let cleared: Set<AddrKey> = match before {
        Some(r) => keys.remove(r.key()),
        None => keys,
    };
    match after {
        Some(r) => cleared.insert(r.key()),
        None => cleared,
    }
}

/// Whether `v` may be written to slot `i` of "new": it is nothing, or a
/// record that belongs in that slot and whose endpoint is the one the slot
/// holds, or is unknown to the store.
pub open spec fn fits_new(t: AddrTables, i: int, v: Option<AddrRecord>) -> bool {
    v matches Some(r) ==> new_index(t.salt, r.key(), r.source) == i && r.key().0.is_routable()
        && (holds(t.new_slots[i], r.key()) || (!t.in_new(r.key()) && !t.in_tried(r.key())))
}

/// Whether `v` may be written to slot `i` of "tried".
pub open spec fn fits_tried(t: AddrTables, i: int, v: Option<AddrRecord>) -> bool {
    v matches Some(r) ==> tried_index(t.salt, r.key()) == i && r.key().0.is_routable()
        && !t.in_new(r.key())
}

/// Every record has a slot inside its table.
pub proof fn lemma_index_ranges(salt: u64, k: AddrKey, source: NetAddr)
    ensures
        0 <= new_index(salt, k, source) < NEW_SLOTS,
        0 <= tried_index(salt, k) < TRIED_SLOTS,
{
    reveal(new_index);
    reveal(tried_index);
}

proof fn lemma_set_new(t: AddrTables, i: int, v: Option<AddrRecord>)
    requires
        t.wf(),
        0 <= i < NEW_SLOTS,
        fits_new(t, i, v),
    ensures
        t.with_new(i, v).wf(),
        forall|x: AddrKey|
            #[trigger] t.with_new(i, v).in_new(x) == (holds(v, x) || (t.in_new(x) && !holds(
                t.new_slots[i],
                x,
            ))),
        forall|x: AddrKey| #[trigger] t.with_new(i, v).in_tried(x) == t.in_tried(x),
        t.with_new(i, v).keys() == keys_after(t.keys(), t.new_slots[i], v),
{
    let t2: AddrTables = t.with_new(i, v);
    let before: Option<AddrRecord> = t.new_slots[i];
    assert forall|x: AddrKey|
        #[trigger] t2.in_new(x) == (holds(v, x) || (t.in_new(x) && !holds(before, x))) by {
        if holds(v, x) {
            assert(holds(t2.new_slots[i], x));
        }
        if t.in_new(x) && !holds(before, x) {
            let j: int = t.new_place(x);
            assert(holds(t2.new_slots[j], x));
        }
        if t2.in_new(x) {
            let j: int = t2.new_place(x);
            if j != i {
                assert(holds(t.new_slots[j], x));
                if holds(before, x) {
                    assert(t.new_slots[i] is Some);
                }
            }
        }
    }
    assert forall|a: int, b: int|
        0 <= a < t2.new_slots.len() && 0 <= b < t2.new_slots.len() && (
        #[trigger] t2.new_slots[a]) is Some && holds(
            #[trigger] t2.new_slots[b],
            t2.new_slots[a]->0.key(),
        ) implies a == b by {
        let x: AddrKey = t2.new_slots[a]->0.key();
        if a != i && b != i {
            assert(t.new_slots[a] is Some && holds(t.new_slots[b], x));
        } else if a == i && b != i {
            assert(holds(t.new_slots[b], x));
            assert(t.in_new(x));
            if holds(before, x) {
                assert(t.new_slots[i] is Some);
            }
        } else if b == i && a != i {
            assert(holds(t.new_slots[a], x));
            assert(t.in_new(x));
            if holds(before, x) {
                assert(t.new_slots[a] is Some && holds(t.new_slots[i], x));
            }
        }
    }
    assert forall|a: int| 0 <= a < t2.new_slots.len() implies (
    #[trigger] t2.new_slots[a] matches Some(r) ==> !t2.in_tried(r.key())) by {
        if a != i {
            assert(t.new_slots[a] == t2.new_slots[a]);
        } else if v is Some {
            let x: AddrKey = v->0.key();
            if holds(before, x) {
                assert(t.new_slots[i] is Some);
            }
        }
    }
    assert forall|a: int| 0 <= a < t2.new_slots.len() implies (
    #[trigger] t2.new_slots[a] matches Some(r) ==> new_index(t2.salt, r.key(), r.source)
        == a) by {
        if a != i {
            assert(t.new_slots[a] == t2.new_slots[a]);
        }
    }
    assert forall|x: AddrKey| t.in_tried(x) && holds(before, x) implies false by {
        assert(t.new_slots[i] is Some);
    }
    assert(t2.keys() =~= keys_after(t.keys(), before, v));
}

proof fn lemma_set_tried(t: AddrTables, i: int, v: Option<AddrRecord>)
    requires
        t.wf(),
        0 <= i < TRIED_SLOTS,
        fits_tried(t, i, v),
    ensures
        t.with_tried(i, v).wf(),
        forall|x: AddrKey|
            #[trigger] t.with_tried(i, v).in_tried(x) == (holds(v, x) || (t.in_tried(x) && !holds(
                t.tried_slots[i],
                x,
            ))),
        forall|x: AddrKey| #[trigger] t.with_tried(i, v).in_new(x) == t.in_new(x),
        t.with_tried(i, v).keys() == keys_after(t.keys(), t.tried_slots[i], v),
{
    let t2: AddrTables = t.with_tried(i, v);
    let before: Option<AddrRecord> = t.tried_slots[i];
    assert forall|x: AddrKey|
        #[trigger] t2.in_tried(x) == (holds(v, x) || (t.in_tried(x) && !holds(before, x))) by {
        lemma_index_ranges(t.salt, x, x.0);
        let j: int = tried_index(t.salt, x);
        if j != i {
            assert(t2.tried_slots[j] == t.tried_slots[j]);
            if holds(before, x) {
                assert(t.tried_slots[i] is Some);
            }
        }
    }
    assert forall|x: AddrKey| #[trigger] t2.in_new(x) == t.in_new(x) by {
        if t.in_new(x) {
            let j: int = t.new_place(x);
            assert(holds(t2.new_slots[j], x));
        }
        if t2.in_new(x) {
            let j: int = t2.new_place(x);
            assert(holds(t.new_slots[j], x));
        }
    }
    assert forall|a: int| 0 <= a < t2.new_slots.len() implies (
    #[trigger] t2.new_slots[a] matches Some(r) ==> !t2.in_tried(r.key())) by {
        if t2.new_slots[a] is Some {
            let x: AddrKey = t2.new_slots[a]->0.key();
            assert(holds(t.new_slots[a], x));
            assert(t.in_new(x));
        }
    }
    assert forall|x: AddrKey| t.in_new(x) && holds(before, x) implies false by {
        let j: int = t.new_place(x);
        assert(t.new_slots[j] is Some);
        assert(t.tried_slots[i] is Some);
    }
    assert(t2.keys() =~= keys_after(t.keys(), before, v));
}

impl AddrTables {
    /// The store after `addr`, reported by `source`, was heard of at `now`.
    /// An address that cannot be routed, or that the store knows already,
    /// changes nothing. Otherwise its record goes to its slot of "new" if
    /// that is empty; if not, one number is drawn from the stream and the
    /// occupant is replaced where [`gives_way`] says so.
    pub open spec fn after_add(self, addr: Address, source: NetAddr, penalty: i64, now: i64) -> AddrTables {
        let k: AddrKey = addr.inner.key();
        let i: int = new_index(self.salt, k, source);
        let rec: AddrRecord = first_record(addr, source, penalty, now);
        if !k.0.is_routable() || self.in_new(k) || self.in_tried(k) {
            self
        } else {
            match self.new_slots[i] {
                None => self.with_new(i, Some(rec)),
                Some(occupant) => if gives_way(occupant, now, stream_output(self.stream)) {
                    self.drawn().with_new(i, Some(rec))
                } else {
                    self.drawn()
                },
            }
        }
    }

    /// What the node itself learns of one address heard: whether its record
    /// was stored, or that its slot is held by a record that does not give
    /// way. An address that cannot be routed and one that is known are not
    /// told apart.
    pub open spec fn add_answer(self, addr: Address, source: NetAddr, now: i64) -> Result<
        bool,
        NetError,
    > {
        let k: AddrKey = addr.inner.key();
        if !k.0.is_routable() || self.in_new(k) || self.in_tried(k) {
            Ok(false)
        } else {
            match self.new_slots[new_index(self.salt, k, source)] {
                None => Ok(true),
                Some(occupant) => if gives_way(occupant, now, stream_output(self.stream)) {
                    Ok(true)
                } else {
                    Err(NetError::StoreFull)
                },
            }
        }
    }

    /// The store after each address of `addrs` was heard of, front to back.
    pub open spec fn after_add_all(
        self,
        addrs: Seq<Address>,
        source: NetAddr,
        penalty: i64,
        now: i64,
    ) -> AddrTables
        decreases addrs.len(),
    {
        if addrs.len() == 0 {
            self
        } else {
            self.after_add_all(addrs.drop_last(), source, penalty, now).after_add(
                addrs.last(),
                source,
                penalty,
                now,
            )
        }
    }

    /// The store with the record of `k` replaced by `r`, which describes
    /// the same endpoint from the same source.
    pub open spec fn touched(self, k: AddrKey, r: AddrRecord) -> AddrTables {
        if self.in_tried(k) {
            self.with_tried(tried_index(self.salt, k), Some(r))
        } else if self.in_new(k) {
            self.with_new(self.new_place(k), Some(r))
        } else {
            self
        }
    }

    /// The store after a connection reached `k` at `now`. A record of
    /// "tried" is brought up to date where it is. A record of "new" is
    /// brought up to date and moves to its slot of "tried" if that is
    /// empty; if not, one number is drawn and the record either takes the
    /// place of the occupant, which is dropped, or stays in "new". An
    /// endpoint that the store does not know changes nothing.
    pub open spec fn after_good(self, k: AddrKey, now: i64) -> AddrTables {
        let ti: int = tried_index(self.salt, k);
        if self.in_tried(k) {
            self.with_tried(ti, Some(self.tried_slots[ti]->0.after_success(now)))
        } else if self.in_new(k) {
            let i: int = self.new_place(k);
            let r: AddrRecord = self.new_slots[i]->0.after_success(now);
            match self.tried_slots[ti] {
                None => self.with_new(i, None).with_tried(ti, Some(r)),
                Some(occupant) => if gives_way(occupant, now, stream_output(self.stream)) {
                    self.drawn().with_new(i, None).with_tried(ti, Some(r))
                } else {
                    self.drawn().with_new(i, Some(r))
                },
            }
        } else {
            self
        }
    }

    /// The store after an attempt to reach `k` failed.
    pub open spec fn after_failure(self, k: AddrKey) -> AddrTables {
        match self.record(k) {
            Some(r) => self.touched(k, r.after_failure()),
            None => self,
        }
    }

    /// The store after the capabilities of `k` were set to `flags`.
    pub open spec fn after_services(self, k: AddrKey, flags: ServiceFlags) -> AddrTables {
        match self.record(k) {
            Some(r) => self.touched(k, r.with_services(flags)),
            None => self,
        }
    }
}

/// The table that holds a record.
#[derive(Clone, Copy, Debug, PartialEq, Eq, Structural)]
pub enum Table {
    /// Heard of, never reached.
    New,
    /// Reached by a connection.
    Tried,
}

/// Computes [`aged_time`].
pub fn age_time(time: i64, penalty: i64, now: i64) -> (r: i64)
    ensures
        r == aged_time(time, penalty, now),
{
    let seen: i64 = if time > now {
        now
    } else {
        time
    };
    let t: i128 = if penalty > 0 {
        seen as i128 - penalty as i128
    } else {
        seen as i128
    };
    if t < 0 {
        0
    } else {
        t as i64
    }
}

/// Computes [`new_index`].
pub fn new_slot_for(salt: u64, addr: &NetAddr, port: u16, source: &NetAddr) -> (i: usize)
    ensures
        i == new_index(salt, (*addr, port), *source),
        i < NEW_SLOTS,
{
    proof {
        reveal(new_index);
    }
    let bucket: u64 = hash_pair(salt, TAG_NEW_BUCKET, addr, port, source) % (
    NEW_BUCKET_COUNT as u64);
    let slot: u64 = hash_pair(salt, TAG_NEW_SLOT, addr, port, source) % (BUCKET_SIZE as u64);
    (bucket * (BUCKET_SIZE as u64) + slot) as usize
}

/// Computes [`tried_index`].
pub fn tried_slot_for(salt: u64, addr: &NetAddr, port: u16) -> (i: usize)
    ensures
        i == tried_index(salt, (*addr, port)),
        i < TRIED_SLOTS,
{
    proof {
        reveal(tried_index);
    }
    let bucket: u64 = hash_endpoint(salt, TAG_TRIED_BUCKET, addr, port) % (
    TRIED_BUCKET_COUNT as u64);
    let slot: u64 = hash_endpoint(salt, TAG_TRIED_SLOT, addr, port) % (BUCKET_SIZE as u64);
    (bucket * (BUCKET_SIZE as u64) + slot) as usize
}

/// Computes [`directory_index`].
pub fn directory_list_for(salt: u64, addr: &NetAddr, port: u16) -> (i: usize)
    ensures
        i == directory_index(salt, (*addr, port)),
        i < DIRECTORY_SIZE,
{
    proof {
        reveal(directory_index);
    }
    (hash_endpoint(salt, TAG_DIRECTORY, addr, port) % (DIRECTORY_SIZE as u64)) as usize
}

/// Whether list `b` of a directory may name slot `j` of "new": the slot
/// holds a record whose endpoint belongs to that list.
spec fn listed_right(t: AddrTables, b: int, j: usize) -> bool {
    j < NEW_SLOTS && t.new_slots[j as int] is Some && directory_index(
        t.salt,
        t.new_slots[j as int]->0.key(),
    ) == b
}

/// Whether the lists `d` are a directory of the "new" table of `t`, but
/// for slot `skip`, which no list names: each list names only slots that
/// belong to it, none of them twice, and every occupied slot but `skip`
/// is named by the list of its endpoint.
spec fn directory_of(t: AddrTables, d: Seq<Seq<usize>>, skip: int) -> bool {
    &&& d.len() == DIRECTORY_SIZE
    &&& forall|b: int, n: int|
        0 <= b < d.len() && 0 <= n < d[b].len() ==> listed_right(t, b, #[trigger] d[b][n])
            && d[b][n] != skip
    &&& forall|i: int|
        0 <= i < NEW_SLOTS && i != skip && (#[trigger] t.new_slots[i]) is Some ==> d[directory_index(
            t.salt,
            t.new_slots[i]->0.key(),
        )].contains(i as usize)
    &&& forall|b: int| 0 <= b < d.len() ==> (#[trigger] d[b]).no_duplicates()
}

proof fn lemma_directory_range(salt: u64, k: AddrKey)
    ensures
        0 <= directory_index(salt, k) < DIRECTORY_SIZE,
{
    reveal(directory_index);
}

/// The address store.
pub struct AddrMan {
    salt: u64,
    stream: u64,
    new_table: Vec<Option<AddrRecord>>,
    tried_table: Vec<Option<AddrRecord>>,
    count: usize,
    /// For each hash of an endpoint, the slots of "new" whose records have
    /// that hash.
    directory: Vec<Vec<usize>>,
}

impl View for AddrMan {
    type V = AddrTables;

    closed spec fn view(&self) -> AddrTables {
        AddrTables {
            salt: self.salt,
            stream: self.stream,
            new_slots: self.new_table@,
            tried_slots: self.tried_table@,
        }
    }
}

impl AddrMan {
    /// The maintained count of known endpoints.
    pub closed spec fn counter(&self) -> nat {
        self.count as nat
    }

    closed spec fn lists(&self) -> Seq<Seq<usize>> {
        Seq::new(self.directory@.len(), |b: int| self.directory@[b]@)
    }

    /// Whether the directory names every record of "new", and nothing
    /// else.
    pub closed spec fn indexed(&self) -> bool {
        directory_of(self@, self.lists(), -1)
    }

    /// What holds of every store between two calls: the tables are well
    /// formed, the counter is the number of occupied slots, which is the
    /// number of distinct endpoints known, and the directory is up to
    /// date.
    pub open spec fn inv(&self) -> bool {
        &&& self@.wf()
        &&& self@.keys().finite()
        &&& self.counter() == self@.keys().len()
        &&& self.counter() == occupied(self@.new_slots) + occupied(self@.tried_slots)
        &&& self.indexed()
    }

    /// An empty store. `salt` keys the placement of records, `seed` starts
    /// the pseudo-random stream.
    pub fn new(salt: u64, seed: u64) -> (r: Self)
        ensures
            r.inv(),
            r@.salt == salt,
            r@.stream == seed,
            r@.keys() == Set::<AddrKey>::empty(),
            forall|i: int| 0 <= i < NEW_SLOTS ==> r@.new_slots[i] is None,
            forall|i: int| 0 <= i < TRIED_SLOTS ==> r@.tried_slots[i] is None,
    {
        let mut new_table: Vec<Option<AddrRecord>> = Vec::new();
        let mut i: usize = 0;
        while i < NEW_SLOTS
            invariant
                i <= NEW_SLOTS,
                new_table@.len() == i,
                forall|j: int| 0 <= j < i ==> new_table@[j] is None,
            decreases NEW_SLOTS - i,
        {
            new_table.push(None);
            i += 1;
        }
        let mut tried_table: Vec<Option<AddrRecord>> = Vec::new();
        let mut j: usize = 0;
        while j < TRIED_SLOTS
            invariant
                j <= TRIED_SLOTS,
                tried_table@.len() == j,
                forall|n: int| 0 <= n < j ==> tried_table@[n] is None,
            decreases TRIED_SLOTS - j,
        {
            tried_table.push(None);
            j += 1;
        }
        let mut directory: Vec<Vec<usize>> = Vec::new();
        let mut b: usize = 0;
        while b < DIRECTORY_SIZE
            invariant
                b <= DIRECTORY_SIZE,
                directory@.len() == b,
                forall|n: int| 0 <= n < b ==> (#[trigger] directory@[n])@.len() == 0,
            decreases DIRECTORY_SIZE - b,
        {
            directory.push(Vec::new());
            b += 1;
        }
        let r = AddrMan { salt, stream: seed, new_table, tried_table, count: 0, directory };
        proof {
            assert forall|b: int| 0 <= b < r.lists().len() implies (
            #[trigger] r.lists()[b]).no_duplicates() by {
                assert(r.lists()[b] == r.directory@[b]@);
            }
            assert forall|b: int, n: int|
                0 <= b < r.lists().len() && 0 <= n < r.lists()[b].len() implies listed_right(
                r@,
                b,
                #[trigger] r.lists()[b][n],
            ) && r.lists()[b][n] != -1 by {
                assert(r.lists()[b] == r.directory@[b]@);
            }
            lemma_occupied_empty(r@.new_slots);
            lemma_occupied_empty(r@.tried_slots);
            assert forall|k: AddrKey| !(r@.in_new(k) || r@.in_tried(k)) by {
                lemma_index_ranges(salt, k, k.0);
            }
            assert(r@.keys() =~= Set::<AddrKey>::empty());
        }
        r
    }

    /// The number of distinct endpoints across both tables.
    pub fn get_address_count(&self) -> (n: usize)
        requires
            self.inv(),
        ensures
            n == self@.keys().len(),
            n <= NEW_SLOTS + TRIED_SLOTS,
    {
        proof {
            lemma_occupied_bound(self@.new_slots);
            lemma_occupied_bound(self@.tried_slots);
        }
        self.count
    }

    /// Takes slot `i` of "new" out of the directory.
    fn unlist(&mut self, i: usize)
        requires
            old(self).indexed(),
            old(self)@.new_slots.len() == NEW_SLOTS,
            i < NEW_SLOTS,
        ensures
            directory_of(final(self)@, final(self).lists(), i as int),
            final(self)@ == old(self)@,
            final(self).counter() == old(self).counter(),
    {
        let ghost t: AddrTables = self@;
        let ghost d: Seq<Seq<usize>> = self.lists();
        match self.new_table[i] {
            None => {
                assert forall|b: int, n: int|
                    0 <= b < d.len() && 0 <= n < d[b].len() implies listed_right(
                    t,
                    b,
                    #[trigger] d[b][n],
                ) && d[b][n] != i by {
                    assert(listed_right(t, b, d[b][n]));
                }
            },
            Some(occupant) => {
                let b: usize = directory_list_for(
                    self.salt,
                    &occupant.service.inner,
                    occupant.service.port,
                );
                let len: usize = self.directory[b].len();
                let ghost list: Seq<usize> = d[b as int];
                assert(list == self.directory@[b as int]@);
                assert(list.contains(i));
                let mut n: usize = 0;
                while n < len && self.directory[b][n] != i
                    invariant
                        n <= len,
                        b < self.directory@.len(),
                        list == self.directory@[b as int]@,
                        len == list.len(),
                        list.contains(i),
                        forall|m: int| 0 <= m < n ==> list[m] != i,
                    decreases len - n,
                {
                    n += 1;
                }
                self.directory[b].remove(n);
                proof {
                    let d2: Seq<Seq<usize>> = self.lists();
                    let list2: Seq<usize> = list.remove(n as int);
                    assert(d2[b as int] == list2);
                    assert(list.no_duplicates());
                    assert forall|c: int| 0 <= c < d2.len() && c != b implies #[trigger] d2[c]
                        == d[c] by {
                        assert(self.directory@[c] == old(self).directory@[c]);
                    }
                    assert forall|c: int, m: int|
                        0 <= c < d2.len() && 0 <= m < d2[c].len() implies listed_right(
                        t,
                        c,
                        #[trigger] d2[c][m],
                    ) && d2[c][m] != i by {
                        if c == b {
                            let m0: int = if m < n {
                                m
                            } else {
                                m + 1
                            };
                            assert(list2[m] == list[m0]);
                            assert(listed_right(t, c, d[c][m0]));
                            assert(list[m0] != list[n as int]);
                        } else {
                            assert(listed_right(t, c, d[c][m]));
                        }
                    }
                    assert forall|j: int|
                        0 <= j < NEW_SLOTS && j != i && (
                        #[trigger] t.new_slots[j]) is Some implies d2[directory_index(
                        t.salt,
                        t.new_slots[j]->0.key(),
                    )].contains(j as usize) by {
                        let c: int = directory_index(t.salt, t.new_slots[j]->0.key());
                        lemma_directory_range(t.salt, t.new_slots[j]->0.key());
                        assert(d[c].contains(j as usize));
                        if c == b {
                            let m0: int = choose|m0: int| 0 <= m0 < list.len() && list[m0] == j;
                            let m: int = if m0 < n {
                                m0
                            } else {
                                m0 - 1
                            };
                            assert(list2[m] == j);
                        }
                    }
                    assert forall|c: int| 0 <= c < d2.len() implies (
                    #[trigger] d2[c]).no_duplicates() by {
                        if c == b {
                            assert forall|x: int, y: int|
                                0 <= x < list2.len() && 0 <= y < list2.len() && x != y implies list2[x]
                                != list2[y] by {
                                let x0: int = if x < n {
                                    x
                                } else {
                                    x + 1
                                };
                                let y0: int = if y < n {
                                    y
                                } else {
                                    y + 1
                                };
                                assert(list[x0] != list[y0]);
                            }
                        } else {
                            assert(d[c].no_duplicates());
                        }
                    }
                }
            },
        }
    }

    /// Enters slot `i` of "new", which holds a record, in the directory.
    fn enlist(&mut self, i: usize)
        requires
            directory_of(old(self)@, old(self).lists(), i as int),
            old(self)@.new_slots.len() == NEW_SLOTS,
            i < NEW_SLOTS,
            old(self)@.new_slots[i as int] is Some,
        ensures
            final(self).indexed(),
            final(self)@ == old(self)@,
            final(self).counter() == old(self).counter(),
    {
        let ghost t: AddrTables = self@;
        let ghost d: Seq<Seq<usize>> = self.lists();
        let record: AddrRecord = self.new_table[i].unwrap();
        let b: usize = directory_list_for(self.salt, &record.service.inner, record.service.port);
        let ghost list: Seq<usize> = d[b as int];
        assert(list == self.directory@[b as int]@);
        self.directory[b].push(i);
        proof {
            let d2: Seq<Seq<usize>> = self.lists();
            let list2: Seq<usize> = list.push(i);
            assert(d2[b as int] == list2);
            assert forall|c: int| 0 <= c < d2.len() && c != b implies #[trigger] d2[c] == d[c] by {
                assert(self.directory@[c] == old(self).directory@[c]);
            }
            assert forall|c: int, m: int|
                0 <= c < d2.len() && 0 <= m < d2[c].len() implies listed_right(
                t,
                c,
                #[trigger] d2[c][m],
            ) && d2[c][m] != -1 by {
                if c != b || m != list.len() {
                    assert(listed_right(t, c, d[c][m]));
                }
            }
            assert forall|j: int|
                0 <= j < NEW_SLOTS && j != -1 && (
                #[trigger] t.new_slots[j]) is Some implies d2[directory_index(
                t.salt,
                t.new_slots[j]->0.key(),
            )].contains(j as usize) by {
                let c: int = directory_index(t.salt, t.new_slots[j]->0.key());
                lemma_directory_range(t.salt, t.new_slots[j]->0.key());
                if j == i {
                    assert(list2[list.len() as int] == i);
                } else {
                    assert(d[c].contains(j as usize));
                    if c == b {
                        let m0: int = choose|m0: int| 0 <= m0 < list.len() && list[m0] == j;
                        assert(list2[m0] == j);
                    }
                }
            }
            assert forall|c: int| 0 <= c < d2.len() implies (#[trigger] d2[c]).no_duplicates() by {
                if c == b {
                    assert(list.no_duplicates());
                    assert forall|x: int, y: int|
                        0 <= x < list2.len() && 0 <= y < list2.len() && x != y implies list2[x]
                        != list2[y] by {
                        if x < list.len() && y < list.len() {
                            assert(list[x] != list[y]);
                        } else if x < list.len() {
                            assert(list[x] == d[b as int][x]);
                        } else {
                            assert(list[y] == d[b as int][y]);
                        }
                    }
                } else {
                    assert(d[c].no_duplicates());
                }
            }
        }
    }

    fn put_new(&mut self, i: usize, v: Option<AddrRecord>)
        requires
            old(self).inv(),
            i < NEW_SLOTS,
            fits_new(old(self)@, i as int, v),
        ensures
            final(self).inv(),
            final(self)@ == old(self)@.with_new(i as int, v),
    {
        let ghost t: AddrTables = self@;
        let was: bool = self.new_table[i].is_some();
        proof {
            lemma_set_new(t, i as int, v);
            lemma_occupied_update(t.new_slots, i as int, v);
            lemma_occupied_bound(t.new_slots.update(i as int, v));
            lemma_occupied_bound(t.tried_slots);
            if was {
                assert(holds(t.new_slots[i as int], t.new_slots[i as int]->0.key()));
                assert(t.keys().contains(t.new_slots[i as int]->0.key()));
            }
        }
        self.unlist(i);
        let ghost d: Seq<Seq<usize>> = self.lists();
        self.new_table.set(i, v);
        if was {
            self.count = self.count - 1;
        }
        if v.is_some() {
            self.count = self.count + 1;
        }
        proof {
            let t2: AddrTables = self@;
            assert(self.lists() == d);
            assert forall|b: int, n: int|
                0 <= b < d.len() && 0 <= n < d[b].len() implies listed_right(
                t2,
                b,
                #[trigger] d[b][n],
            ) && d[b][n] != i by {
                assert(listed_right(t, b, d[b][n]));
            }
            assert forall|j: int|
                0 <= j < NEW_SLOTS && j != i && (
                #[trigger] t2.new_slots[j]) is Some implies d[directory_index(
                t2.salt,
                t2.new_slots[j]->0.key(),
            )].contains(j as usize) by {
                assert(t.new_slots[j] is Some);
            }
            assert(directory_of(t2, d, i as int));
        }
        if v.is_some() {
            self.enlist(i);
        } else {
            proof {
                let t2: AddrTables = self@;
                assert forall|b: int, n: int|
                    0 <= b < d.len() && 0 <= n < d[b].len() implies listed_right(
                    t2,
                    b,
                    #[trigger] d[b][n],
                ) && d[b][n] != -1 by {
                    assert(listed_right(t2, b, d[b][n]) && d[b][n] != i);
                }
            }
        }
    }

    fn put_tried(&mut self, i: usize, v: Option<AddrRecord>)
        requires
            old(self).inv(),
            i < TRIED_SLOTS,
            fits_tried(old(self)@, i as int, v),
        ensures
            final(self).inv(),
            final(self)@ == old(self)@.with_tried(i as int, v),
    {
        let was: bool = self.tried_table[i].is_some();
        proof {
            let t: AddrTables = self@;
            lemma_set_tried(t, i as int, v);
            lemma_occupied_update(t.tried_slots, i as int, v);
            lemma_occupied_bound(t.tried_slots.update(i as int, v));
            lemma_occupied_bound(t.new_slots);
            if was {
                assert(t.in_tried(t.tried_slots[i as int]->0.key()));
                assert(t.keys().contains(t.tried_slots[i as int]->0.key()));
            }
            if v is Some && !holds(t.tried_slots[i as int], v->0.key()) {
                assert(!t.in_tried(v->0.key()));
            }
        }
        let ghost before: AddrTables = self@;
        let ghost d: Seq<Seq<usize>> = self.lists();
        self.tried_table.set(i, v);
        if was {
            self.count = self.count - 1;
        }
        if v.is_some() {
            self.count = self.count + 1;
        }
        proof {
            let after: AddrTables = self@;
            assert(self.lists() == d);
            assert forall|b: int, n: int|
                0 <= b < d.len() && 0 <= n < d[b].len() implies listed_right(
                after,
                b,
                #[trigger] d[b][n],
            ) && d[b][n] != -1 by {
                assert(listed_right(before, b, d[b][n]));
            }
            assert forall|j: int|
                0 <= j < NEW_SLOTS && j != -1 && (
                #[trigger] after.new_slots[j]) is Some implies d[directory_index(
                after.salt,
                after.new_slots[j]->0.key(),
            )].contains(j as usize) by {
                assert(before.new_slots[j] is Some);
            }
        }
    }

    /// Where the store keeps the endpoint, if it knows it.
    fn locate(&self, addr: &NetAddr, port: u16) -> (r: Option<(Table, usize)>)
        requires
            self.inv(),
        ensures
            match r {
                Some((Table::Tried, i)) => self@.in_tried((*addr, port)) && i == tried_index(
                    self@.salt,
                    (*addr, port),
                ) && i < TRIED_SLOTS,
                Some((Table::New, i)) => !self@.in_tried((*addr, port)) && self@.in_new(
                    (*addr, port),
                ) && i == self@.new_place((*addr, port)) && i < NEW_SLOTS,
                None => !self@.in_tried((*addr, port)) && !self@.in_new((*addr, port)),
            },
    {
        let ghost k: AddrKey = (*addr, port);
        let ti: usize = tried_slot_for(self.salt, addr, port);
        match self.tried_table[ti] {
            Some(r) => {
                if r.service.inner == *addr && r.service.port == port {
                    return Some((Table::Tried, ti));
                }
            },
            None => {},
        }
        let b: usize = directory_list_for(self.salt, addr, port);
        let len: usize = self.directory[b].len();
        let ghost list: Seq<usize> = self.lists()[b as int];
        assert(list == self.directory@[b as int]@);
        let mut n: usize = 0;
        while n < len
            invariant
                self.inv(),
                n <= len,
                b < self.directory@.len(),
                b == directory_index(self@.salt, k),
                list == self.lists()[b as int],
                list == self.directory@[b as int]@,
                len == list.len(),
                k == (*addr, port),
                !self@.in_tried(k),
                forall|m: int| 0 <= m < n ==> !holds(self@.new_slots[(#[trigger] list[m]) as int], k),
            decreases len - n,
        {
            let i: usize = self.directory[b][n];
            assert(listed_right(self@, b as int, self.lists()[b as int][n as int]));
            match self.new_table[i] {
                Some(r) => {
                    if r.service.inner == *addr && r.service.port == port {
                        proof {
                            assert(holds(self@.new_slots[i as int], k));
                            let j: int = self@.new_place(k);
                            assert(self@.new_slots[j] is Some);
                        }
                        return Some((Table::New, i));
                    }
                },
                None => {},
            }
            n += 1;
        }
        proof {
            if self@.in_new(k) {
                let j: int = self@.new_place(k);
                assert(self@.new_slots[j] is Some);
                assert(list.contains(j as usize));
                let m: int = choose|m: int| 0 <= m < list.len() && list[m] == j;
                assert(!holds(self@.new_slots[list[m] as int], k));
            }
        }
        None
    }

    /// The table that holds the endpoint of `service`, and its record.
    pub fn lookup(&self, service: &Service) -> (r: Option<(Table, AddrRecord)>)
        requires
            self.inv(),
        ensures
            match r {
                Some((table, rec)) => self@.record(service.key()) == Some(rec) && rec.key()
                    == service.key() && (table == Table::Tried) == self@.in_tried(service.key()),
                None => self@.record(service.key()) is None && !self@.keys().contains(
                    service.key(),
                ),
            },
    {
        match self.locate(&service.inner, service.port) {
            Some((Table::Tried, i)) => Some((Table::Tried, self.tried_table[i].unwrap())),
            Some((Table::New, i)) => Some((Table::New, self.new_table[i].unwrap())),
            None => None,
        }
    }

    /// Takes note of one address heard from `source`. The answer is for
    /// the node's own use, not for the peer.
    pub fn add_address(&mut self, addr: &Address, source: &NetAddr, penalty: i64, now: i64) -> (r:
        Result<bool, NetError>)
        requires
            old(self).inv(),
        ensures
            final(self).inv(),
            final(self)@ == old(self)@.after_add(*addr, *source, penalty, now),
            r == old(self)@.add_answer(*addr, *source, now),
    {
        let ghost start: AddrTables = self@;
        if !addr.inner.inner.routable() {
            return Ok(false);
        }
        if self.locate(&addr.inner.inner, addr.inner.port).is_some() {
            return Ok(false);
        }
        let i: usize = new_slot_for(self.salt, &addr.inner.inner, addr.inner.port, source);
        let rec = AddrRecord {
            service: addr.inner,
            source: *source,
            last_seen: age_time(addr.time, penalty, now),
            last_success: 0,
            successes: 0,
            failures: 0,
        };
        match self.new_table[i] {
            None => {
                self.put_new(i, Some(rec));
                Ok(true)
            },
            Some(occupant) => {
                proof {
                    lemma_restream(self@, stream_advance(self@.stream));
                }
                let coin: u64 = draw(&mut self.stream);
                let give: bool = yields(&occupant, now, coin);
                assert(self@ == start.drawn());
                if give {
                    self.put_new(i, Some(rec));
                    Ok(true)
                } else {
                    Err(NetError::StoreFull)
                }
            },
        }
    }

    /// Takes note of the addresses `addrs` heard from `addr_from`, front to
    /// back. `time_penalty` ages each of them.
    pub fn add_new_addresses(
        &mut self,
        addrs: &[Address],
        addr_from: &Address,
        time_penalty: Unknown<i64>,
        now: i64,
    )
        requires
            old(self).inv(),
        ensures
            final(self).inv(),
            final(self)@ == old(self)@.after_add_all(
                addrs@,
                addr_from.inner.inner,
                time_penalty.inner,
                now,
            ),
    {
        let ghost start: AddrTables = self@;
        let source: NetAddr = addr_from.inner.inner;
        let mut i: usize = 0;
        while i < addrs.len()
            invariant
                self.inv(),
                i <= addrs@.len(),
                source == addr_from.inner.inner,
                self@ == start.after_add_all(addrs@.take(i as int), source, time_penalty.inner, now),
            decreases addrs@.len() - i,
        {
            proof {
                assert(addrs@.take(i + 1).drop_last() == addrs@.take(i as int));
            }
            let _ = self.add_address(&addrs[i], &source, time_penalty.inner, now);
            i += 1;
        }
        assert(addrs@.take(addrs@.len() as int) == addrs@);
    }

    /// Records that a connection reached the endpoint of `addr` at `now`.
    pub fn mark_address_good(&mut self, addr: &Address, now: i64)
        requires
            old(self).inv(),
        ensures
            final(self).inv(),
            final(self)@ == old(self)@.after_good(addr.inner.key(), now),
    {
        let ghost start: AddrTables = self@;
        match self.locate(&addr.inner.inner, addr.inner.port) {
            Some((Table::Tried, ti)) => {
                let r: AddrRecord = self.tried_table[ti].unwrap().succeeded(now);
                self.put_tried(ti, Some(r));
            },
            Some((Table::New, i)) => {
                let r: AddrRecord = self.new_table[i].unwrap().succeeded(now);
                let ti: usize = tried_slot_for(self.salt, &addr.inner.inner, addr.inner.port);
                match self.tried_table[ti] {
                    None => {
                        self.put_new(i, None);
                        self.put_tried(ti, Some(r));
                    },
                    Some(occupant) => {
                        proof {
                            lemma_restream(self@, stream_advance(self@.stream));
                        }
                        let coin: u64 = draw(&mut self.stream);
                        let give: bool = yields(&occupant, now, coin);
                        assert(self@ == start.drawn());
                        if give {
                            self.put_new(i, None);
                            self.put_tried(ti, None);
                            self.put_tried(ti, Some(r));
                            assert(self@.tried_slots == start.tried_slots.update(
                                ti as int,
                                Some(r),
                            ));
                        } else {
                            self.put_new(i, Some(r));
                        }
                    },
                }
            },
            None => {},
        }
    }

    /// Writes `r` over the record in slot `i` of `table`, which describes
    /// the same endpoint from the same source.
    fn rewrite(&mut self, table: Table, i: usize, r: AddrRecord)
        requires
            old(self).inv(),
            table == Table::Tried ==> i < TRIED_SLOTS && holds(
                old(self)@.tried_slots[i as int],
                r.key(),
            ) && old(self)@.tried_slots[i as int]->0.source == r.source,
            table == Table::New ==> i < NEW_SLOTS && holds(old(self)@.new_slots[i as int], r.key())
                && old(self)@.new_slots[i as int]->0.source == r.source,
        ensures
            final(self).inv(),
            final(self)@ == (if table == Table::Tried {
                old(self)@.with_tried(i as int, Some(r))
            } else {
                old(self)@.with_new(i as int, Some(r))
            }),
    {
        match table {
            Table::Tried => {
                proof {
                    lemma_never_in_both(self@, r.key());
                    assert(self@.in_tried(r.key()));
                }
                self.put_tried(i, Some(r));
            },
            Table::New => {
                self.put_new(i, Some(r));
            },
        }
    }

    /// The record in slot `i` of `table`.
    fn record_at(&self, table: Table, i: usize) -> (r: AddrRecord)
        requires
            self.inv(),
            table == Table::Tried ==> i < TRIED_SLOTS && self@.tried_slots[i as int] is Some,
            table == Table::New ==> i < NEW_SLOTS && self@.new_slots[i as int] is Some,
        ensures
            Some(r) == (if table == Table::Tried {
                self@.tried_slots[i as int]
            } else {
                self@.new_slots[i as int]
            }),
    {
        match table {
            Table::Tried => self.tried_table[i].unwrap(),
            Table::New => self.new_table[i].unwrap(),
        }
    }

    /// Records that an attempt to reach the endpoint of `service` failed.
    pub fn mark_attempt_failed(&mut self, service: &Service)
        requires
            old(self).inv(),
        ensures
            final(self).inv(),
            final(self)@ == old(self)@.after_failure(service.key()),
    {
        match self.locate(&service.inner, service.port) {
            Some((table, i)) => {
                let r: AddrRecord = self.record_at(table, i).failed();
                self.rewrite(table, i, r);
            },
            None => {},
        }
    }

    /// Sets the capabilities advertised for the endpoint of `addr`.
    pub fn set_services(&mut self, addr: &Service, services: ServiceFlags)
        requires
            old(self).inv(),
        ensures
            final(self).inv(),
            final(self)@ == old(self)@.after_services(addr.key(), services),
    {
        match self.locate(&addr.inner, addr.port) {
            Some((table, i)) => {
                let known: AddrRecord = self.record_at(table, i);
                let r = AddrRecord {
                    service: Service {
                        inner: known.service.inner,
                        port: known.service.port,
                        services,
                    },
                    source: known.source,
                    last_seen: known.last_seen,
                    last_success: known.last_success,
                    successes: known.successes,
                    failures: known.failures,
                };
                self.rewrite(table, i, r);
            },
            None => {},
        }
    }
}

/// Whether a record takes part in a sample, and in which of its two
/// pools. A record that is terrible at `now`, or lacks a capability of
/// `required`, takes part in none. The preferred pool is for the records
/// of "tried" that a connection reached lately, the other pool for the
/// rest.
pub open spec fn in_pool(r: AddrRecord, table: Table, preferred: bool, required: u64, now: i64) -> bool {
    !r.is_terrible(now) && r.service.services.has(required) && (table == Table::Tried
        && r.recently_reached(now)) == preferred
}

/// The addresses of the records of one table that are in one pool, in the
/// order of their slots.
pub open spec fn gather(
    slots: Seq<Option<AddrRecord>>,
    table: Table,
    preferred: bool,
    required: u64,
    now: i64,
) -> Seq<Address>
    decreases slots.len(),
{
    if slots.len() == 0 {
        Seq::empty()
    } else {
        let rest: Seq<Address> = gather(slots.drop_last(), table, preferred, required, now);
        match slots.last() {
            Some(r) => if in_pool(r, table, preferred, required, now) {
                rest.push(r.address())
            } else {
                rest
            },
            None => rest,
        }
    }
}

/// `s` with the items at `i` and `j` exchanged.
pub open spec fn swapped(s: Seq<Address>, i: int, j: int) -> Seq<Address> {
    s.update(i, s[j]).update(j, s[i])
}

/// The order that a shuffle gives to the items of `s` from index `i` on,
/// and the stream after it. `n` is the length of `s`. Each index in turn
/// gets an item drawn from those not yet placed.
pub open spec fn shuffled_from(s: Seq<Address>, i: nat, n: nat, stream: u64) -> (Seq<Address>, u64)
    decreases n - i,
{
    if n - i <= 1 {
        (s, stream)
    } else {
        let j: int = i + (stream_output(stream) as int) % (n - i);
        shuffled_from(swapped(s, i as int, j), i + 1, n, stream_advance(stream))
    }
}

/// `s` shuffled, and the stream after it.
pub open spec fn shuffled(s: Seq<Address>, stream: u64) -> (Seq<Address>, u64) {
    shuffled_from(s, 0, s.len(), stream)
}

impl AddrTables {
    /// The addresses that a sample prefers.
    pub open spec fn preferred(self, required: u64, now: i64) -> Seq<Address> {
        gather(self.tried_slots, Table::Tried, true, required, now)
    }

    /// The other addresses that a sample may hold.
    pub open spec fn others(self, required: u64, now: i64) -> Seq<Address> {
        gather(self.tried_slots, Table::Tried, false, required, now) + gather(
            self.new_slots,
            Table::New,
            false,
            required,
            now,
        )
    }

    /// A sample of at most `limit` addresses, and the stream after it. Both
    /// pools are shuffled; the sample is filled from the preferred pool
    /// first, then from the other, and shuffled once more.
    pub open spec fn sample(self, limit: nat, required: u64, now: i64) -> (Seq<Address>, u64) {
        let first: (Seq<Address>, u64) = shuffled(self.preferred(required, now), self.stream);
        let second: (Seq<Address>, u64) = shuffled(self.others(required, now), first.1);
        let pool: Seq<Address> = first.0 + second.0;
        let size: int = if limit < pool.len() {
            limit as int
        } else {
            pool.len() as int
        };
        shuffled(pool.take(size), second.1)
    }
}

proof fn lemma_restream(t: AddrTables, stream: u64)
    requires
        t.wf(),
    ensures
        t.with_stream(stream).wf(),
        t.with_stream(stream).keys() == t.keys(),
        forall|x: AddrKey| #[trigger] t.with_stream(stream).in_new(x) == t.in_new(x),
        forall|x: AddrKey| #[trigger] t.with_stream(stream).in_tried(x) == t.in_tried(x),
        forall|x: AddrKey| #[trigger] t.with_stream(stream).new_place(x) == t.new_place(x),
{
    let t2: AddrTables = t.with_stream(stream);
    assert(t2.new_slots == t.new_slots);
    assert forall|a: int| 0 <= a < t2.new_slots.len() implies (
    #[trigger] t2.new_slots[a] matches Some(r) ==> !t2.in_tried(r.key())) by {
        assert(t.new_slots[a] == t2.new_slots[a]);
    }
    assert(t2.keys() =~= t.keys());
}

proof fn lemma_gather_len(
    slots: Seq<Option<AddrRecord>>,
    table: Table,
    preferred: bool,
    required: u64,
    now: i64,
)
    ensures
        gather(slots, table, preferred, required, now).len() <= slots.len(),
    decreases slots.len(),
{
    if slots.len() > 0 {
        lemma_gather_len(slots.drop_last(), table, preferred, required, now);
    }
}

/// Every address of a pool is that of a record of the table which is in
/// the pool.
pub proof fn lemma_gathered_is_stored(
    slots: Seq<Option<AddrRecord>>,
    table: Table,
    preferred: bool,
    required: u64,
    now: i64,
    n: int,
)
    requires
        0 <= n < gather(slots, table, preferred, required, now).len(),
    ensures
        exists|i: int|
            0 <= i < slots.len() && (#[trigger] slots[i]) is Some && in_pool(
                slots[i]->0,
                table,
                preferred,
                required,
                now,
            ) && gather(slots, table, preferred, required, now)[n] == slots[i]->0.address(),
    decreases slots.len(),
{
    let rest: Seq<Address> = gather(slots.drop_last(), table, preferred, required, now);
    if n < rest.len() {
        lemma_gathered_is_stored(slots.drop_last(), table, preferred, required, now, n);
        let i: int = choose|i: int|
            0 <= i < slots.drop_last().len() && (#[trigger] slots.drop_last()[i]) is Some
                && in_pool(slots.drop_last()[i]->0, table, preferred, required, now) && rest[n]
                == slots.drop_last()[i]->0.address();
        assert(slots[i] == slots.drop_last()[i]);
    } else {
        let i: int = slots.len() - 1;
        assert(slots[i] is Some);
    }
}

/// A shuffle keeps every item, each as often as it was there.
pub proof fn lemma_shuffle_permutes(s: Seq<Address>, i: nat, n: nat, stream: u64)
    requires
        n == s.len(),
    ensures
        shuffled_from(s, i, n, stream).0.to_multiset() == s.to_multiset(),
        shuffled_from(s, i, n, stream).0.len() == n,
    decreases n - i,
{
    if n - i > 1 {
        let j: int = i + (stream_output(stream) as int) % (n - i);
        assert(i <= j < n) by {
            vstd::arithmetic::div_mod::lemma_mod_bound(stream_output(stream) as int, n - i);
        }
        let s2: Seq<Address> = swapped(s, i as int, j);
        let s1: Seq<Address> = s.update(i as int, s[j]);
        vstd::seq_lib::to_multiset_update(s, i as int, s[j]);
        vstd::seq_lib::to_multiset_update(s1, j, s[i as int]);
        assert(s.contains(s[i as int]) && s.contains(s[j]));
        vstd::seq_lib::to_multiset_contains(s, s[i as int]);
        vstd::seq_lib::to_multiset_contains(s, s[j]);
        assert(s1[j] == s[j]);
        assert(s2.to_multiset() =~= s.to_multiset());
        lemma_shuffle_permutes(s2, i + 1, n, stream_advance(stream));
    }
}

/// What a sample holds: as many addresses as the limit and the pools
/// allow, each from a pool and no oftener than there; all of the preferred
/// pool where the limit has room for it, and nothing else where it has not.
pub proof fn lemma_sample_contents(t: AddrTables, limit: nat, required: u64, now: i64)
    ensures
        ({
            let pref: Seq<Address> = t.preferred(required, now);
            let rest: Seq<Address> = t.others(required, now);
            let res: Seq<Address> = t.sample(limit, required, now).0;
            &&& res.len() == (if limit < pref.len() + rest.len() {
                limit
            } else {
                pref.len() + rest.len()
            })
            &&& res.to_multiset().subset_of(pref.to_multiset().add(rest.to_multiset()))
            &&& limit >= pref.len() ==> pref.to_multiset().subset_of(res.to_multiset())
            &&& limit < pref.len() ==> res.to_multiset().subset_of(pref.to_multiset())
        }),
{
    let pref: Seq<Address> = t.preferred(required, now);
    let rest: Seq<Address> = t.others(required, now);
    let first: (Seq<Address>, u64) = shuffled(pref, t.stream);
    let second: (Seq<Address>, u64) = shuffled(rest, first.1);
    let pool: Seq<Address> = first.0 + second.0;
    let size: int = if limit < pool.len() {
        limit as int
    } else {
        pool.len() as int
    };
    let picked: Seq<Address> = pool.take(size);
    let res: Seq<Address> = shuffled(picked, second.1).0;
    lemma_shuffle_permutes(pref, 0, pref.len(), t.stream);
    lemma_shuffle_permutes(rest, 0, rest.len(), first.1);
    lemma_shuffle_permutes(picked, 0, picked.len(), second.1);
    let p: Seq<Address> = first.0;
    let o: Seq<Address> = second.0;
    if size >= p.len() {
        let cut: Seq<Address> = o.take(size - p.len());
        assert(picked =~= p + cut);
        assert(o =~= cut + o.skip(size - p.len()));
        vstd::seq_lib::lemma_multiset_commutative(p, cut);
        vstd::seq_lib::lemma_multiset_commutative(cut, o.skip(size - p.len()));
    } else {
        assert(picked =~= p.take(size));
        assert(p =~= p.take(size) + p.skip(size));
        vstd::seq_lib::lemma_multiset_commutative(p.take(size), p.skip(size));
    }
}

/// A store without records is well formed and knows no endpoint.
pub proof fn lemma_blank_is_wf(salt: u64, stream: u64)
    ensures
        blank(salt, stream).wf(),
        blank(salt, stream).keys() == Set::<AddrKey>::empty(),
{
    let t: AddrTables = blank(salt, stream);
    assert forall|k: AddrKey| !(t.in_new(k) || t.in_tried(k)) by {
        lemma_index_ranges(salt, k, k.0);
    }
    assert(t.keys() =~= Set::<AddrKey>::empty());
}

/// Hearing of an address keeps the store well formed, and adds at most
/// the endpoint heard of while dropping at most the record that gave way.
pub proof fn lemma_add_keeps_wf(t: AddrTables, addr: Address, source: NetAddr, penalty: i64, now: i64)
    requires
        t.wf(),
    ensures
        t.after_add(addr, source, penalty, now).wf(),
        t.after_add(addr, source, penalty, now).keys() == (if t.add_answer(addr, source, now)
            == Ok::<bool, NetError>(true) {
            keys_after(
                t.keys(),
                t.new_slots[new_index(t.salt, addr.inner.key(), source)],
                Some(first_record(addr, source, penalty, now)),
            )
        } else {
            t.keys()
        }),
{
    let k: AddrKey = addr.inner.key();
    let i: int = new_index(t.salt, k, source);
    let rec: AddrRecord = first_record(addr, source, penalty, now);
    lemma_index_ranges(t.salt, k, source);
    if k.0.is_routable() && !t.in_new(k) && !t.in_tried(k) {
        if t.new_slots[i] is None {
            lemma_set_new(t, i, Some(rec));
        } else {
            lemma_restream(t, stream_advance(t.stream));
            if gives_way(t.new_slots[i]->0, now, stream_output(t.stream)) {
                lemma_set_new(t.drawn(), i, Some(rec));
            }
        }
    }
}

/// Marking an endpoint good keeps the store well formed, and drops at
/// most the record of "tried" that gave way.
pub proof fn lemma_good_keeps_wf(t: AddrTables, k: AddrKey, now: i64)
    requires
        t.wf(),
    ensures
        t.after_good(k, now).wf(),
        t.after_good(k, now).keys().subset_of(t.keys()),
        t.keys().contains(k) ==> t.after_good(k, now).keys().contains(k),
        t.after_good(k, now).in_new(k) ==> t.in_new(k),
{
    let ti: int = tried_index(t.salt, k);
    lemma_index_ranges(t.salt, k, k.0);
    lemma_never_in_both(t, k);
    if t.in_tried(k) {
        lemma_set_tried(t, ti, Some(t.tried_slots[ti]->0.after_success(now)));
    } else if t.in_new(k) {
        let i: int = t.new_place(k);
        let r: AddrRecord = t.new_slots[i]->0.after_success(now);
        assert(t.new_slots[i] is Some);
        if t.tried_slots[ti] is None {
            lemma_set_new(t, i, None);
            lemma_set_tried(t.with_new(i, None), ti, Some(r));
        } else {
            let d: AddrTables = t.drawn();
            lemma_restream(t, stream_advance(t.stream));
            if gives_way(t.tried_slots[ti]->0, now, stream_output(t.stream)) {
                lemma_set_new(d, i, None);
                lemma_set_tried(d.with_new(i, None), ti, Some(r));
                assert(t.in_tried(t.tried_slots[ti]->0.key()));
            } else {
                lemma_set_new(d, i, Some(r));
            }
        }
    }
}

/// Counting a failure or setting the capabilities of an endpoint keeps the
/// store well formed and the endpoints it knows.
pub proof fn lemma_touch_keeps_wf(t: AddrTables, k: AddrKey, flags: ServiceFlags)
    requires
        t.wf(),
    ensures
        t.after_failure(k).wf(),
        t.after_failure(k).keys() == t.keys(),
        t.after_services(k, flags).wf(),
        t.after_services(k, flags).keys() == t.keys(),
{
    let ti: int = tried_index(t.salt, k);
    lemma_index_ranges(t.salt, k, k.0);
    lemma_never_in_both(t, k);
    if t.in_tried(k) {
        let r: AddrRecord = t.tried_slots[ti]->0;
        lemma_set_tried(t, ti, Some(r.after_failure()));
        lemma_set_tried(t, ti, Some(r.with_services(flags)));
        assert(t.keys().contains(k));
        assert(keys_after(t.keys(), Some(r), Some(r.after_failure())) =~= t.keys());
        assert(keys_after(t.keys(), Some(r), Some(r.with_services(flags))) =~= t.keys());
    } else if t.in_new(k) {
        let i: int = t.new_place(k);
        let r: AddrRecord = t.new_slots[i]->0;
        assert(t.new_slots[i] is Some);
        lemma_set_new(t, i, Some(r.after_failure()));
        lemma_set_new(t, i, Some(r.with_services(flags)));
        assert(t.keys().contains(k));
        assert(keys_after(t.keys(), Some(r), Some(r.after_failure())) =~= t.keys());
        assert(keys_after(t.keys(), Some(r), Some(r.with_services(flags))) =~= t.keys());
    }
}

/// A record that is fresh or reliable keeps its slot: no address heard
/// takes it in "new", and no record on its way from "new" takes it in
/// "tried".
pub proof fn lemma_sound_record_keeps_its_slot(
    t: AddrTables,
    addr: Address,
    source: NetAddr,
    penalty: i64,
    k: AddrKey,
    now: i64,
    i: int,
)
    requires
        t.wf(),
    ensures
        0 <= i < NEW_SLOTS && t.new_slots[i] is Some && (t.new_slots[i]->0.is_fresh(now)
            || t.new_slots[i]->0.is_reliable(now)) ==> t.after_add(
            addr,
            source,
            penalty,
            now,
        ).new_slots[i] == t.new_slots[i],
        0 <= i < TRIED_SLOTS && t.tried_slots[i] is Some && !holds(t.tried_slots[i], k) && (
        t.tried_slots[i]->0.is_fresh(now) || t.tried_slots[i]->0.is_reliable(now)) ==> t.after_good(
            k,
            now,
        ).tried_slots[i] == t.tried_slots[i],
{
    lemma_index_ranges(t.salt, addr.inner.key(), source);
    lemma_index_ranges(t.salt, k, source);
    if t.in_new(k) {
        let j: int = t.new_place(k);
        assert(t.new_slots[j] is Some);
    }
}

/// Under one salt, the record of an endpoint heard from one source has
/// one slot of "new", and the record of an endpoint one slot of "tried",
/// whatever else the store holds or has held.
pub proof fn lemma_placement_is_fixed(a: AddrTables, b: AddrTables, i: int, j: int)
    requires
        a.wf(),
        b.wf(),
        a.salt == b.salt,
    ensures
        0 <= i < NEW_SLOTS && 0 <= j < NEW_SLOTS && a.new_slots[i] is Some && b.new_slots[j] is Some
            && a.new_slots[i]->0.key() == b.new_slots[j]->0.key() && a.new_slots[i]->0.source
            == b.new_slots[j]->0.source ==> i == j,
        0 <= i < TRIED_SLOTS && 0 <= j < TRIED_SLOTS && a.tried_slots[i] is Some
            && b.tried_slots[j] is Some && a.tried_slots[i]->0.key() == b.tried_slots[j]->0.key()
            ==> i == j,
{
}

/// No endpoint is in both tables.
pub proof fn lemma_never_in_both(t: AddrTables, k: AddrKey)
    requires
        t.wf(),
    ensures
        !(t.in_new(k) && t.in_tried(k)),
{
    if t.in_new(k) {
        let i: int = t.new_place(k);
        assert(t.new_slots[i] is Some);
    }
}

/// Computes [`in_pool`].
pub fn pool_holds(r: &AddrRecord, table: Table, preferred: bool, required: u64, now: i64) -> (b: bool)
    ensures
        b == in_pool(*r, table, preferred, required, now),
{
    let favoured: bool = table == Table::Tried && r.reached_recently(now);
    !r.terrible(now) && r.service.services.contains(required) && favoured == preferred
}

/// Appends to `out` the addresses of the records of `slots` that are in
/// the pool.
fn collect(
    slots: &Vec<Option<AddrRecord>>,
    table: Table,
    preferred: bool,
    required: u64,
    now: i64,
    out: &mut Vec<Address>,
)
    ensures
        final(out)@ == old(out)@ + gather(slots@, table, preferred, required, now),
{
    let ghost start: Seq<Address> = out@;
    let mut i: usize = 0;
    while i < slots.len()
        invariant
            i <= slots@.len(),
            out@ == start + gather(slots@.take(i as int), table, preferred, required, now),
        decreases slots@.len() - i,
    {
        proof {
            assert(slots@.take(i + 1).drop_last() == slots@.take(i as int));
        }
        match slots[i] {
            Some(r) => {
                if pool_holds(&r, table, preferred, required, now) {
                    out.push(Address { inner: r.service, time: r.last_seen });
                }
            },
            None => {},
        }
        i += 1;
    }
    assert(slots@.take(slots@.len() as int) == slots@);
}

/// Shuffles `v` with numbers drawn from `stream`.
pub fn shuffle(v: &mut Vec<Address>, stream: &mut u64)
    ensures
        (final(v)@, *final(stream)) == shuffled(old(v)@, *old(stream)),
{
    let n: usize = v.len();
    let ghost goal: (Seq<Address>, u64) = shuffled(v@, *stream);
    let mut i: usize = 0;
    while n - i > 1
        invariant
            i <= n,
            v@.len() == n,
            shuffled_from(v@, i as nat, n as nat, *stream) == goal,
        decreases n - i,
    {
        let r: u64 = draw(stream);
        let m: u64 = (n - i) as u64;
        proof {
            vstd::arithmetic::div_mod::lemma_mod_bound(r as int, m as int);
        }
        let j: usize = i + (r % m) as usize;
        let a: Address = v[i];
        let b: Address = v[j];
        v.set(i, b);
        v.set(j, a);
        i += 1;
    }
}

impl AddrMan {
    /// A sample of at most `max` known addresses, and never more than
    /// [`SAMPLE_MAX`], each with every capability of `required`. The
    /// tables stay as they are; only the stream moves on.
    pub fn get_addresses_filtered(&mut self, max: usize, required: ServiceFlags, now: i64) -> (r: Vec<
        Address,
    >)
        requires
            old(self).inv(),
        ensures
            final(self).inv(),
            (r@, final(self)@.stream) == old(self)@.sample(
                (if max < SAMPLE_MAX {
                    max
                } else {
                    SAMPLE_MAX
                }) as nat,
                required.bits,
                now,
            ),
            final(self)@ == old(self)@.with_stream(final(self)@.stream),
    {
        let ghost t: AddrTables = self@;
        let limit: usize = if max < SAMPLE_MAX {
            max
        } else {
            SAMPLE_MAX
        };
        let mut pref: Vec<Address> = Vec::new();
        collect(&self.tried_table, Table::Tried, true, required.bits, now, &mut pref);
        let mut rest: Vec<Address> = Vec::new();
        collect(&self.tried_table, Table::Tried, false, required.bits, now, &mut rest);
        collect(&self.new_table, Table::New, false, required.bits, now, &mut rest);
        proof {
            assert(pref@ =~= t.preferred(required.bits, now));
            assert(rest@ =~= t.others(required.bits, now));
            lemma_gather_len(t.tried_slots, Table::Tried, true, required.bits, now);
            lemma_gather_len(t.tried_slots, Table::Tried, false, required.bits, now);
            lemma_gather_len(t.new_slots, Table::New, false, required.bits, now);
            lemma_shuffle_permutes(pref@, 0, pref@.len(), self.stream);
        }
        shuffle(&mut pref, &mut self.stream);
        proof {
            lemma_shuffle_permutes(rest@, 0, rest@.len(), self.stream);
        }
        shuffle(&mut rest, &mut self.stream);
        let total: usize = pref.len() + rest.len();
        let size: usize = if limit < total {
            limit
        } else {
            total
        };
        let mut out: Vec<Address> = Vec::new();
        let mut k: usize = 0;
        while k < size
            invariant
                k <= size,
                size <= pref@.len() + rest@.len(),
                out@ == (pref@ + rest@).take(k as int),
            decreases size - k,
        {
            let a: Address = if k < pref.len() {
                pref[k]
            } else {
                rest[k - pref.len()]
            };
            out.push(a);
            proof {
                assert(out@ =~= (pref@ + rest@).take(k + 1));
            }
            k += 1;
        }
        shuffle(&mut out, &mut self.stream);
        proof {
            lemma_restream(t, self.stream);
        }
        out
    }

    /// A sample of at most [`SAMPLE_MAX`] known addresses: address data
    /// only, in shuffled order.
    pub fn get_addresses(&mut self, now: i64) -> (r: Vec<Address>)
        requires
            old(self).inv(),
        ensures
            final(self).inv(),
            (r@, final(self)@.stream) == old(self)@.sample(SAMPLE_MAX as nat, 0, now),
            final(self)@ == old(self)@.with_stream(final(self)@.stream),
    {
        self.get_addresses_filtered(SAMPLE_MAX, ServiceFlags { bits: 0 }, now)
    }
}

/// A record as it is kept for a restart, with the table that held it.
#[derive(Clone, Copy, Debug, PartialEq, Eq, Structural)]
pub struct StoredAddress {
    pub table: Table,
    pub record: AddrRecord,
}

/// A store without records.
pub open spec fn blank(salt: u64, stream: u64) -> AddrTables {
    AddrTables {
        salt,
        stream,
        new_slots: Seq::new(NEW_SLOTS as nat, |i: int| None::<AddrRecord>),
        tried_slots: Seq::new(TRIED_SLOTS as nat, |i: int| None::<AddrRecord>),
    }
}

/// The records of one table, in the order of their slots.
pub open spec fn stored(slots: Seq<Option<AddrRecord>>, table: Table) -> Seq<StoredAddress>
    decreases slots.len(),
{
    if slots.len() == 0 {
        Seq::empty()
    } else {
        let rest: Seq<StoredAddress> = stored(slots.drop_last(), table);
        match slots.last() {
            Some(record) => rest.push(StoredAddress { table, record }),
            None => rest,
        }
    }
}

impl AddrTables {
    /// All records of the store: those of "tried", then those of "new".
    pub open spec fn snapshot(self) -> Seq<StoredAddress> {
        stored(self.tried_slots, Table::Tried) + stored(self.new_slots, Table::New)
    }

    /// The store after a record kept from an earlier run was put back. It
    /// goes to the slot that the present salt gives it in the table that
    /// held it, if that slot is empty. A record that cannot be routed, whose
    /// endpoint is known already or whose slot is taken is left out.
    pub open spec fn after_restore(self, item: StoredAddress) -> AddrTables {
        let k: AddrKey = item.record.key();
        let i: int = new_index(self.salt, k, item.record.source);
        let ti: int = tried_index(self.salt, k);
        if !k.0.is_routable() || self.in_new(k) || self.in_tried(k) {
            self
        } else if item.table == Table::New && self.new_slots[i] is None {
            self.with_new(i, Some(item.record))
        } else if item.table == Table::Tried && self.tried_slots[ti] is None {
            self.with_tried(ti, Some(item.record))
        } else {
            self
        }
    }

    /// The store after each record of `items` was put back, front to back.
    pub open spec fn after_restore_all(self, items: Seq<StoredAddress>) -> AddrTables
        decreases items.len(),
    {
        if items.len() == 0 {
            self
        } else {
            self.after_restore_all(items.drop_last()).after_restore(items.last())
        }
    }
}

proof fn lemma_stored_len(slots: Seq<Option<AddrRecord>>, table: Table)
    ensures
        stored(slots, table).len() <= slots.len(),
    decreases slots.len(),
{
    if slots.len() > 0 {
        lemma_stored_len(slots.drop_last(), table);
    }
}

/// A snapshot lists no more records than the tables have slots.
pub proof fn lemma_snapshot_len(t: AddrTables)
    ensures
        t.snapshot().len() <= t.new_slots.len() + t.tried_slots.len(),
{
    lemma_stored_len(t.tried_slots, Table::Tried);
    lemma_stored_len(t.new_slots, Table::New);
}

/// `t` with only the first `j` slots of "tried" and the first `i` slots
/// of "new" filled.
spec fn partial(t: AddrTables, stream: u64, j: int, i: int) -> AddrTables {
    AddrTables {
        salt: t.salt,
        stream,
        new_slots: Seq::new(
            NEW_SLOTS as nat,
            |n: int|
                if n < i {
                    t.new_slots[n]
                } else {
                    None
                },
        ),
        tried_slots: Seq::new(
            TRIED_SLOTS as nat,
            |n: int|
                if n < j {
                    t.tried_slots[n]
                } else {
                    None
                },
        ),
    }
}

proof fn lemma_restore_push(t: AddrTables, items: Seq<StoredAddress>, x: StoredAddress)
    ensures
        t.after_restore_all(items.push(x)) == t.after_restore_all(items).after_restore(x),
{
    assert(items.push(x).drop_last() == items);
}

proof fn lemma_restore_tried(t: AddrTables, stream: u64, j: int)
    requires
        t.wf(),
        0 <= j <= TRIED_SLOTS,
    ensures
        blank(t.salt, stream).after_restore_all(stored(t.tried_slots.take(j), Table::Tried))
            == partial(t, stream, j, 0),
    decreases j,
{
    let start: AddrTables = blank(t.salt, stream);
    if j == 0 {
        assert(start.new_slots =~= partial(t, stream, 0, 0).new_slots);
        assert(start.tried_slots =~= partial(t, stream, 0, 0).tried_slots);
    } else {
        lemma_restore_tried(t, stream, j - 1);
        let prev: Seq<Option<AddrRecord>> = t.tried_slots.take(j - 1);
        let cur: Seq<Option<AddrRecord>> = t.tried_slots.take(j);
        let p: AddrTables = partial(t, stream, j - 1, 0);
        let q: AddrTables = partial(t, stream, j, 0);
        assert(cur.drop_last() == prev);
        assert(q.new_slots =~= p.new_slots);
        match t.tried_slots[j - 1] {
            None => {
                assert(q.tried_slots =~= p.tried_slots);
            },
            Some(r) => {
                let item: StoredAddress = StoredAddress { table: Table::Tried, record: r };
                lemma_restore_push(start, stored(prev, Table::Tried), item);
                let k: AddrKey = r.key();
                assert(tried_index(t.salt, k) == j - 1);
                assert(!p.in_new(k));
                assert(p.tried_slots[j - 1] is None);
                assert(q.tried_slots =~= p.tried_slots.update(j - 1, Some(r)));
            },
        }
    }
}

proof fn lemma_restore_new(t: AddrTables, stream: u64, i: int)
    requires
        t.wf(),
        0 <= i <= NEW_SLOTS,
    ensures
        blank(t.salt, stream).after_restore_all(
            stored(t.tried_slots, Table::Tried) + stored(t.new_slots.take(i), Table::New),
        ) == partial(t, stream, TRIED_SLOTS as int, i),
    decreases i,
{
    let start: AddrTables = blank(t.salt, stream);
    let head: Seq<StoredAddress> = stored(t.tried_slots, Table::Tried);
    if i == 0 {
        lemma_restore_tried(t, stream, TRIED_SLOTS as int);
        assert(t.tried_slots.take(TRIED_SLOTS as int) == t.tried_slots);
        assert(head + stored(t.new_slots.take(0), Table::New) =~= head);
    } else {
        lemma_restore_new(t, stream, i - 1);
        let prev: Seq<Option<AddrRecord>> = t.new_slots.take(i - 1);
        let cur: Seq<Option<AddrRecord>> = t.new_slots.take(i);
        let p: AddrTables = partial(t, stream, TRIED_SLOTS as int, i - 1);
        let q: AddrTables = partial(t, stream, TRIED_SLOTS as int, i);
        assert(cur.drop_last() == prev);
        assert(q.tried_slots =~= p.tried_slots);
        assert(p.tried_slots =~= t.tried_slots);
        match t.new_slots[i - 1] {
            None => {
                assert(q.new_slots =~= p.new_slots);
            },
            Some(r) => {
                let item: StoredAddress = StoredAddress { table: Table::New, record: r };
                assert(head + stored(prev, Table::New).push(item) =~= (head + stored(
                    prev,
                    Table::New,
                )).push(item));
                lemma_restore_push(start, head + stored(prev, Table::New), item);
                let k: AddrKey = r.key();
                assert(new_index(t.salt, k, r.source) == i - 1);
                if p.in_new(k) {
                    let n: int = p.new_place(k);
                    assert(holds(t.new_slots[n], k));
                    assert(t.new_slots[i - 1] is Some);
                }
                assert(!t.in_tried(k));
                assert(p.new_slots[i - 1] is None);
                assert(q.new_slots =~= p.new_slots.update(i - 1, Some(r)));
            },
        }
    }
}

/// Putting back under the same salt what a snapshot lists gives the store
/// that the snapshot was taken of.
pub proof fn lemma_snapshot_restores(t: AddrTables, stream: u64)
    requires
        t.wf(),
    ensures
        blank(t.salt, stream).after_restore_all(t.snapshot()) == t.with_stream(stream),
{
    lemma_restore_new(t, stream, NEW_SLOTS as int);
    assert(t.new_slots.take(NEW_SLOTS as int) == t.new_slots);
    let q: AddrTables = partial(t, stream, TRIED_SLOTS as int, NEW_SLOTS as int);
    assert(q.new_slots =~= t.new_slots);
    assert(q.tried_slots =~= t.tried_slots);
}

fn keep(slots: &Vec<Option<AddrRecord>>, table: Table, out: &mut Vec<StoredAddress>)
    ensures
        final(out)@ == old(out)@ + stored(slots@, table),
{
    let ghost start: Seq<StoredAddress> = out@;
    let mut i: usize = 0;
    while i < slots.len()
        invariant
            i <= slots@.len(),
            out@ == start + stored(slots@.take(i as int), table),
        decreases slots@.len() - i,
    {
        proof {
            assert(slots@.take(i + 1).drop_last() == slots@.take(i as int));
        }
        match slots[i] {
            Some(record) => {
                out.push(StoredAddress { table, record });
            },
            None => {},
        }
        i += 1;
    }
    assert(slots@.take(slots@.len() as int) == slots@);
}

impl AddrMan {
    /// All records, for safekeeping.
    pub fn snapshot(&self) -> (r: Vec<StoredAddress>)
        requires
            self.inv(),
        ensures
            r@ == self@.snapshot(),
    {
        let mut out: Vec<StoredAddress> = Vec::new();
        keep(&self.tried_table, Table::Tried, &mut out);
        keep(&self.new_table, Table::New, &mut out);
        out
    }

    /// Puts back one record kept from an earlier run.
    pub fn restore_one(&mut self, item: &StoredAddress)
        requires
            old(self).inv(),
        ensures
            final(self).inv(),
            final(self)@ == old(self)@.after_restore(*item),
    {
        let rec: AddrRecord = item.record;
        if !rec.service.inner.routable() {
            return ;
        }
        if self.locate(&rec.service.inner, rec.service.port).is_some() {
            return ;
        }
        match item.table {
            Table::New => {
                let i: usize = new_slot_for(
                    self.salt,
                    &rec.service.inner,
                    rec.service.port,
                    &rec.source,
                );
                if self.new_table[i].is_none() {
                    self.put_new(i, Some(rec));
                }
            },
            Table::Tried => {
                let ti: usize = tried_slot_for(self.salt, &rec.service.inner, rec.service.port);
                if self.tried_table[ti].is_none() {
                    self.put_tried(ti, Some(rec));
                }
            },
        }
    }

    /// Replaces what the store holds by the records of `items`, as far as
    /// they find their slots free. Salt and stream stay.
    pub fn reload(&mut self, items: &Vec<StoredAddress>)
        requires
            old(self).inv(),
        ensures
            final(self).inv(),
            final(self)@ == blank(old(self)@.salt, old(self)@.stream).after_restore_all(items@),
    {
        let fresh: AddrMan = AddrMan::restore(self.salt, self.stream, items);
        *self = fresh;
    }

    /// A store under `salt` that holds the records of `items`, as far as
    /// they find their slots free.
    pub fn restore(salt: u64, seed: u64, items: &Vec<StoredAddress>) -> (r: Self)
        ensures
            r.inv(),
            r@ == blank(salt, seed).after_restore_all(items@),
    {
        let mut store = AddrMan::new(salt, seed);
        let ghost start: AddrTables = store@;
        proof {
            assert(start.new_slots =~= blank(salt, seed).new_slots);
            assert(start.tried_slots =~= blank(salt, seed).tried_slots);
        }
        let mut i: usize = 0;
        while i < items.len()
            invariant
                i <= items@.len(),
                store.inv(),
                store@ == start.after_restore_all(items@.take(i as int)),
            decreases items@.len() - i,
        {
            proof {
                assert(items@.take(i + 1).drop_last() == items@.take(i as int));
            }
            store.restore_one(&items[i]);
            i += 1;
        }
        assert(items@.take(items@.len() as int) == items@);
        store
    }
}

} // verus!
