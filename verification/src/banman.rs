//! The ban table: targets that are refused until an instant passes.

use vstd::prelude::*;
use crate::netaddr::{BanAddr, BanReason, NetAddr};

verus! {

/// The duration of a ban that is asked for without one: one day.
pub const DEFAULT_BAN_SECS: i64 = 86_400;

/// One ban: whom it names, why, and the instant (seconds since the epoch)
/// from which it no longer holds.
#[derive(Clone, Copy, Debug, PartialEq, Eq, Structural)]
pub struct BanEntry {
    pub target: BanAddr,
    pub reason: BanReason,
    pub expiry: i64,
}

impl BanEntry {
    /// Whether the ban still holds at `now`.
    pub open spec fn live_at(self, now: i64) -> bool {
        now < self.expiry
    }

    /// Whether the ban holds at `now` and applies to `addr`.
    pub open spec fn bans(self, addr: NetAddr, now: i64) -> bool {
        self.target.covers(addr) && self.live_at(now)
    }

    /// Whether the ban applies to `addr` but has run out at `now`.
    pub open spec fn lapsed_for(self, addr: NetAddr, now: i64) -> bool {
        self.target.covers(addr) && !self.live_at(now)
    }
}

/// The instant at which a ban asked for at `now` ends: `offset` seconds
/// from the epoch where `since_unix_epoch` is set, and from `now` where it
/// is not, cut off at the smallest and the largest instant. An offset of 0
/// or less from `now` gives a ban that has run out when it is filed.
pub open spec fn ban_expiry(offset: i64, since_unix_epoch: bool, now: i64) -> i64 {
    let base: int = if since_unix_epoch {
        0
    } else {
        now as int
    };
    if base + offset > i64::MAX {
        i64::MAX
    } else if base + offset < i64::MIN {
        i64::MIN
    } else {
        (base + offset) as i64
    }
}

/// Which of two bans on one target stays, when the new one is asked for
/// at `now`. Between an operator's ban and another, the operator's stays:
/// a new one displaces the other, an old one stays for as long as it
/// holds. Apart from that the ban that ends later stays, the later request
/// winning a tie.
pub open spec fn ban_merge(old_entry: BanEntry, new_entry: BanEntry, now: i64) -> BanEntry {
    let old_manual: bool = old_entry.reason == BanReason::BanReasonManuallyAdded;
    let new_manual: bool = new_entry.reason == BanReason::BanReasonManuallyAdded;
    if new_manual && !old_manual {
        new_entry
    } else if old_manual && !new_manual && old_entry.live_at(now) {
        old_entry
    } else if new_entry.expiry >= old_entry.expiry {
        new_entry
    } else {
        old_entry
    }
}

/// The table after `entry` was asked for at `now`.
pub open spec fn table_after_ban(table: Map<BanAddr, BanEntry>, entry: BanEntry, now: i64) -> Map<
    BanAddr,
    BanEntry,
> {
    if table.contains_key(entry.target) {
        table.insert(entry.target, ban_merge(table[entry.target], entry, now))
    } else {
        table.insert(entry.target, entry)
    }
}

/// Whether some ban of the table holds at `now` and applies to `addr`.
pub open spec fn banned_at(table: Map<BanAddr, BanEntry>, addr: NetAddr, now: i64) -> bool {
    exists|t: BanAddr| #[trigger] table.contains_key(t) && table[t].bans(addr, now)
}

/// The targets whose bans apply to `addr` and have run out at `now`.
pub open spec fn lapsed_targets(table: Map<BanAddr, BanEntry>, addr: NetAddr, now: i64) -> Set<
    BanAddr,
> {
    Set::new(|t: BanAddr| table.contains_key(t) && table[t].lapsed_for(addr, now))
}

/// The targets whose bans have run out at `now`.
pub open spec fn expired_targets(table: Map<BanAddr, BanEntry>, now: i64) -> Set<BanAddr> {
    Set::new(|t: BanAddr| table.contains_key(t) && !table[t].live_at(now))
}

/// The table that a list of entries describes, read front to back: each
/// entry that still holds at `now` is asked for in turn.
pub open spec fn table_loaded(entries: Seq<BanEntry>, now: i64) -> Map<BanAddr, BanEntry>
    decreases entries.len(),
{
    if entries.len() == 0 {
        Map::empty()
    } else {
        let rest: Map<BanAddr, BanEntry> = table_loaded(entries.drop_last(), now);
        let e: BanEntry = entries.last();
        if e.live_at(now) {
            table_after_ban(rest, (BanEntry { target: e.target.canonical(), ..e }), now)
        } else {
            rest
        }
    }
}

/// No two entries name the same target.
pub open spec fn unique_targets(s: Seq<BanEntry>) -> bool {
    forall|i: int, j: int| 0 <= i < j < s.len() ==> (#[trigger] s[i]).target != (#[trigger] s[j]).target
}

/// The entries of `s`, each under its target.
pub open spec fn table_of(s: Seq<BanEntry>) -> Map<BanAddr, BanEntry> {
    Map::new(
        |t: BanAddr| exists|i: int| 0 <= i < s.len() && (#[trigger] s[i]).target == t,
        |t: BanAddr| s[choose|i: int| 0 <= i < s.len() && (#[trigger] s[i]).target == t],
    )
}

proof fn lemma_table_index(s: Seq<BanEntry>, i: int)
    requires
        unique_targets(s),
        0 <= i < s.len(),
    ensures
        table_of(s).contains_key(s[i].target),
        table_of(s)[s[i].target] == s[i],
{
    let t: BanAddr = s[i].target;
    let k: int = choose|k: int| 0 <= k < s.len() && (#[trigger] s[k]).target == t;
    if k < i {
        assert(s[k].target != s[i].target);
    } else if i < k {
        assert(s[i].target != s[k].target);
    }
}

proof fn lemma_table_push(s: Seq<BanEntry>, e: BanEntry)
    requires
        unique_targets(s),
        !table_of(s).contains_key(e.target),
    ensures
        unique_targets(s.push(e)),
        table_of(s.push(e)) == table_of(s).insert(e.target, e),
{
    let s2: Seq<BanEntry> = s.push(e);
    assert forall|i: int, j: int| 0 <= i < j < s2.len() implies (#[trigger] s2[i]).target != (
    #[trigger] s2[j]).target by {
        if j == s.len() {
            assert(s[i].target != e.target);
        } else {
            assert(s[i].target != s[j].target);
        }
    }
    assert forall|t: BanAddr| #[trigger]
        table_of(s2).contains_key(t) == table_of(s).insert(e.target, e).contains_key(t) by {
        if table_of(s).contains_key(t) {
            let k: int = choose|k: int| 0 <= k < s.len() && (#[trigger] s[k]).target == t;
            assert(s2[k].target == t);
        }
        if t == e.target {
            assert(s2[s.len() as int].target == t);
        }
        if table_of(s2).contains_key(t) {
            let k: int = choose|k: int| 0 <= k < s2.len() && (#[trigger] s2[k]).target == t;
            if k < s.len() {
                assert(s[k].target == t);
            }
        }
    }
    assert forall|t: BanAddr| #[trigger] table_of(s2).contains_key(t) implies table_of(s2)[t]
        == table_of(s).insert(e.target, e)[t] by {
        let k: int = choose|k: int| 0 <= k < s2.len() && (#[trigger] s2[k]).target == t;
        lemma_table_index(s2, k);
        if k < s.len() {
            lemma_table_index(s, k);
        }
    }
    assert(table_of(s2) =~= table_of(s).insert(e.target, e));
}

proof fn lemma_table_update(s: Seq<BanEntry>, i: int, e: BanEntry)
    requires
        unique_targets(s),
        0 <= i < s.len(),
        e.target == s[i].target,
    ensures
        unique_targets(s.update(i, e)),
        table_of(s.update(i, e)) == table_of(s).insert(e.target, e),
{
    let s2: Seq<BanEntry> = s.update(i, e);
    assert forall|a: int, b: int| 0 <= a < b < s2.len() implies (#[trigger] s2[a]).target != (
    #[trigger] s2[b]).target by {
        assert(s[a].target != s[b].target);
    }
    assert forall|t: BanAddr| #[trigger]
        table_of(s2).contains_key(t) == table_of(s).insert(e.target, e).contains_key(t) by {
        if table_of(s).contains_key(t) {
            let k: int = choose|k: int| 0 <= k < s.len() && (#[trigger] s[k]).target == t;
            assert(s2[k].target == t);
        }
        if t == e.target {
            assert(s2[i].target == t);
        }
        if table_of(s2).contains_key(t) {
            let k: int = choose|k: int| 0 <= k < s2.len() && (#[trigger] s2[k]).target == t;
            assert(s[k].target == t);
        }
    }
    assert forall|t: BanAddr| #[trigger] table_of(s2).contains_key(t) implies table_of(s2)[t]
        == table_of(s).insert(e.target, e)[t] by {
        let k: int = choose|k: int| 0 <= k < s2.len() && (#[trigger] s2[k]).target == t;
        lemma_table_index(s2, k);
        lemma_table_index(s, k);
    }
    assert(table_of(s2) =~= table_of(s).insert(e.target, e));
}

proof fn lemma_table_remove(s: Seq<BanEntry>, i: int)
    requires
        unique_targets(s),
        0 <= i < s.len(),
    ensures
        unique_targets(s.remove(i)),
        table_of(s.remove(i)) == table_of(s).remove(s[i].target),
{
    let s2: Seq<BanEntry> = s.remove(i);
    assert forall|a: int, b: int| 0 <= a < b < s2.len() implies (#[trigger] s2[a]).target != (
    #[trigger] s2[b]).target by {
        let a0: int = if a < i {
            a
        } else {
            a + 1
        };
        let b0: int = if b < i {
            b
        } else {
            b + 1
        };
        assert(s[a0].target != s[b0].target);
    }
    assert forall|t: BanAddr| #[trigger]
        table_of(s2).contains_key(t) == table_of(s).remove(s[i].target).contains_key(t) by {
        if table_of(s).contains_key(t) && t != s[i].target {
            let k: int = choose|k: int| 0 <= k < s.len() && (#[trigger] s[k]).target == t;
            let k2: int = if k < i {
                k
            } else {
                k - 1
            };
            assert(s2[k2].target == t);
        }
        if table_of(s2).contains_key(t) {
            let k: int = choose|k: int| 0 <= k < s2.len() && (#[trigger] s2[k]).target == t;
            let k0: int = if k < i {
                k
            } else {
                k + 1
            };
            assert(s[k0].target == t);
            if k0 < i {
                assert(s[k0].target != s[i].target);
            } else {
                assert(s[i].target != s[k0].target);
            }
        }
    }
    assert forall|t: BanAddr| #[trigger] table_of(s2).contains_key(t) implies table_of(s2)[t]
        == table_of(s).remove(s[i].target)[t] by {
        let k: int = choose|k: int| 0 <= k < s2.len() && (#[trigger] s2[k]).target == t;
        let k0: int = if k < i {
            k
        } else {
            k + 1
        };
        lemma_table_index(s2, k);
        lemma_table_index(s, k0);
    }
    assert(table_of(s2) =~= table_of(s).remove(s[i].target));
}

/// Computes [`ban_expiry`].
pub fn expiry_for(offset: i64, since_unix_epoch: bool, now: i64) -> (r: i64)
    ensures
        r == ban_expiry(offset, since_unix_epoch, now),
{
    let base: i128 = if since_unix_epoch {
        0
    } else {
        now as i128
    };
    let end: i128 = base + offset as i128;
    if end > i64::MAX as i128 {
        i64::MAX
    } else if end < i64::MIN as i128 {
        i64::MIN
    } else {
        end as i64
    }
}

/// Computes [`ban_merge`].
pub fn merge_bans(old_entry: BanEntry, new_entry: BanEntry, now: i64) -> (r: BanEntry)
    ensures
        r == ban_merge(old_entry, new_entry, now),
{
    let new_manual: bool = new_entry.reason == BanReason::BanReasonManuallyAdded;
    let old_manual: bool = old_entry.reason == BanReason::BanReasonManuallyAdded;
    if new_manual && !old_manual {
        new_entry
    } else if old_manual && !new_manual && now < old_entry.expiry {
        old_entry
    } else if new_entry.expiry >= old_entry.expiry {
        new_entry
    } else {
        old_entry
    }
}

/// The ban table. Its view is the map from each banned target, in canonical
/// form, to its entry.
pub struct BanMan {
    entries: Vec<BanEntry>,
}

impl View for BanMan {
    type V = Map<BanAddr, BanEntry>;

    closed spec fn view(&self) -> Map<BanAddr, BanEntry> {
        table_of(self.entries@)
    }
}

impl BanMan {
    /// What holds of every table: each target occurs once, in canonical
    /// form, and every entry is filed under its own target.
    pub closed spec fn wf(&self) -> bool {
        &&& unique_targets(self.entries@)
        &&& forall|i: int|
            0 <= i < self.entries@.len() ==> (#[trigger] self.entries@[i]).target
                == self.entries@[i].target.canonical()
    }

    /// The number of entries.
    pub closed spec fn spec_len(&self) -> nat {
        self.entries@.len()
    }

    /// The entries in the order in which a snapshot lists them.
    pub closed spec fn listing(&self) -> Seq<BanEntry> {
        self.entries@
    }

    /// Loading what a snapshot lists gives back the table, less the bans
    /// that have run out.
    pub proof fn lemma_snapshot_reloads(&self, now: i64)
        requires
            self.wf(),
        ensures
            table_loaded(self.listing(), now) == self@.remove_keys(expired_targets(self@, now)),
    {
        lemma_loaded_is_live(self.entries@, now);
    }

    /// In a well-formed table every target is canonical and is the target
    /// of its own entry, and there are as many targets as entries.
    pub proof fn lemma_wf(&self)
        requires
            self.wf(),
        ensures
            forall|t: BanAddr| #[trigger]
                self@.contains_key(t) ==> self@[t].target == t && t == t.canonical(),
            self@.dom().finite(),
            self@.dom().len() == self.spec_len(),
    {
        let s: Seq<BanEntry> = self.entries@;
        assert forall|t: BanAddr| #[trigger] self@.contains_key(t) implies self@[t].target == t
            && t == t.canonical() by {
            let k: int = choose|k: int| 0 <= k < s.len() && (#[trigger] s[k]).target == t;
            lemma_table_index(s, k);
        }
        lemma_table_dom(s);
    }

    /// An empty table: it bans nobody, and a snapshot of it lists nothing.
    pub fn new() -> (r: Self)
        ensures
            r.wf(),
            r@ == Map::<BanAddr, BanEntry>::empty(),
            r.listing() == Seq::<BanEntry>::empty(),
    {
        let r = BanMan { entries: Vec::new() };
        assert(r@ =~= Map::<BanAddr, BanEntry>::empty());
        r
    }

    /// The number of entries, those that have run out included.
    pub fn len(&self) -> (n: usize)
        requires
            self.wf(),
        ensures
            n == self@.dom().len(),
    {
        proof {
            self.lemma_wf();
        }
        self.entries.len()
    }

    fn position(&self, target: &BanAddr) -> (r: Option<usize>)
        requires
            self.wf(),
        ensures
            match r {
                Some(i) => i < self.entries@.len() && self.entries@[i as int].target == *target
                    && self@.contains_key(*target) && self@[*target] == self.entries@[i as int],
                None => !self@.contains_key(*target),
            },
    {
        let mut i: usize = 0;
        while i < self.entries.len()
            invariant
                self.wf(),
                i <= self.entries@.len(),
                forall|j: int| 0 <= j < i ==> (#[trigger] self.entries@[j]).target != *target,
            decreases self.entries@.len() - i,
        {
            if self.entries[i].target == *target {
                proof {
                    lemma_table_index(self.entries@, i as int);
                }
                return Some(i);
            }
            i += 1;
        }
        None
    }

    /// The entry filed for `target`, whether or not it still holds.
    pub fn get(&self, target: &BanAddr) -> (r: Option<BanEntry>)
        requires
            self.wf(),
        ensures
            r == (if self@.contains_key(target.canonical()) {
                Some(self@[target.canonical()])
            } else {
                None
            }),
    {
        let t: BanAddr = target.normalized();
        match self.position(&t) {
            Some(i) => Some(self.entries[i]),
            None => None,
        }
    }

    /// Files `entry`, whose target is canonical, merging it with the entry
    /// that the target already has.
    fn insert_entry(&mut self, entry: BanEntry, now: i64)
        requires
            old(self).wf(),
            entry.target == entry.target.canonical(),
        ensures
            final(self).wf(),
            final(self)@ == table_after_ban(old(self)@, entry, now),
    {
        match self.position(&entry.target) {
            Some(i) => {
                let merged: BanEntry = merge_bans(self.entries[i], entry, now);
                proof {
                    lemma_table_update(self.entries@, i as int, merged);
                }
                self.entries.set(i, merged);
            },
            None => {
                proof {
                    lemma_table_push(self.entries@, entry);
                }
                self.entries.push(entry);
            },
        }
    }

    /// Bans `addr` for `reason`, until [`ban_expiry`]. The ban is filed
    /// under the canonical form of `addr`; where that target has an entry
    /// already, [`ban_merge`] decides which of the two bans stays.
    pub fn ban(
        &mut self,
        addr: &BanAddr,
        reason: BanReason,
        ban_time_offset: i64,
        since_unix_epoch: bool,
        now: i64,
    )
        requires
            old(self).wf(),
        ensures
            final(self).wf(),
            final(self)@ == table_after_ban(
                old(self)@,
                (BanEntry {
                    target: addr.canonical(),
                    reason,
                    expiry: ban_expiry(ban_time_offset, since_unix_epoch, now),
                }),
                now,
            ),
    {
        let entry = BanEntry {
            target: addr.normalized(),
            reason,
            expiry: expiry_for(ban_time_offset, since_unix_epoch, now),
        };
        proof {
            addr.lemma_canonical(NetAddr { ip: 0, scope_id: crate::netaddr::Unknown { inner: 0 } });
        }
        self.insert_entry(entry, now);
    }

    /// Bans `addr` for `reason` for the default duration,
    /// [`DEFAULT_BAN_SECS`] from `now`.
    pub fn ban_for_default(&mut self, addr: &BanAddr, reason: BanReason, now: i64)
        requires
            old(self).wf(),
        ensures
            final(self).wf(),
            final(self)@ == table_after_ban(
                old(self)@,
                (BanEntry {
                    target: addr.canonical(),
                    reason,
                    expiry: ban_expiry(DEFAULT_BAN_SECS, false, now),
                }),
                now,
            ),
    {
        self.ban(addr, reason, DEFAULT_BAN_SECS, false, now);
    }

    /// Lifts the ban on `target`. Says whether there was one.
    pub fn unban(&mut self, target: &BanAddr) -> (found: bool)
        requires
            old(self).wf(),
        ensures
            final(self).wf(),
            found == old(self)@.contains_key(target.canonical()),
            final(self)@ == old(self)@.remove(target.canonical()),
    {
        let t: BanAddr = target.normalized();
        match self.position(&t) {
            Some(i) => {
                proof {
                    lemma_table_remove(self.entries@, i as int);
                }
                self.entries.remove(i);
                true
            },
            None => {
                assert(self@ =~= self@.remove(t));
                false
            },
        }
    }

    /// Whether a ban that holds at `now` applies to `addr`, be it a ban on
    /// the address itself or on a range around it. Entries that apply to
    /// `addr` but have run out are dropped on the way.
    pub fn is_banned(&mut self, addr: &NetAddr, now: i64) -> (banned: bool)
        requires
            old(self).wf(),
        ensures
            final(self).wf(),
            banned == banned_at(old(self)@, *addr, now),
            final(self)@ == old(self)@.remove_keys(lapsed_targets(old(self)@, *addr, now)),
    {
        let ghost before: Map<BanAddr, BanEntry> = self@;
        let mut banned: bool = false;
        let mut i: usize = 0;
        while i < self.entries.len()
            invariant
                self.wf(),
                i <= self.entries@.len(),
                forall|j: int|
                    0 <= j < i ==> !(#[trigger] self.entries@[j]).lapsed_for(*addr, now),
                banned == (exists|j: int|
                    0 <= j < i && (#[trigger] self.entries@[j]).bans(*addr, now)),
                forall|t: BanAddr| #[trigger]
                    self@.contains_key(t) ==> before.contains_key(t) && self@[t] == before[t],
                forall|t: BanAddr|
                    before.contains_key(t) && !before[t].lapsed_for(*addr, now)
                        ==> #[trigger] self@.contains_key(t),
            decreases self.entries@.len() - i,
        {
            let e: BanEntry = self.entries[i];
            let applies: bool = e.target.applies_to(addr);
            if applies && now >= e.expiry {
                let ghost prev: Seq<BanEntry> = self.entries@;
                let ghost prev_table: Map<BanAddr, BanEntry> = self@;
                proof {
                    lemma_table_remove(prev, i as int);
                    lemma_table_index(prev, i as int);
                    assert(prev_table.contains_key(prev[i as int].target));
                }
                self.entries.remove(i);
                proof {
                    assert(self@ == prev_table.remove(prev[i as int].target));
                    assert forall|t: BanAddr| #[trigger] self@.contains_key(t) implies before.contains_key(
                        t,
                    ) && self@[t] == before[t] by {
                        assert(prev_table.contains_key(t));
                    }
                    assert forall|t: BanAddr|
                        before.contains_key(t) && t != prev[i as int].target && prev_table.contains_key(
                            t,
                        ) implies #[trigger] self@.contains_key(t) by {}
                    if banned {
                        let j: int = choose|j: int|
                            0 <= j < i && (#[trigger] prev[j]).bans(*addr, now);
                        assert(self.entries@[j].bans(*addr, now));
                    }
                    if exists|j: int| 0 <= j < i && (#[trigger] self.entries@[j]).bans(*addr, now) {
                        let j: int = choose|j: int|
                            0 <= j < i && (#[trigger] self.entries@[j]).bans(*addr, now);
                        assert(prev[j].bans(*addr, now));
                    }
                    assert forall|j: int| 0 <= j < self.entries@.len() implies (
                    #[trigger] self.entries@[j]).target == self.entries@[j].target.canonical() by {
                        let j0: int = if j < i {
                            j
                        } else {
                            j + 1
                        };
                        assert(prev[j0].target == prev[j0].target.canonical());
                    }
                }
            } else {
                proof {
                    if banned {
                        let j: int = choose|j: int|
                            0 <= j < i && (#[trigger] self.entries@[j]).bans(*addr, now);
                        assert(0 <= j < i + 1);
                    }
                }
                if applies {
                    banned = true;
                    assert(self.entries@[i as int].bans(*addr, now));
                }
                i += 1;
            }
        }
        proof {
            let s: Seq<BanEntry> = self.entries@;
            let gone: Set<BanAddr> = lapsed_targets(before, *addr, now);
            assert forall|t: BanAddr| #[trigger]
                self@.contains_key(t) implies !gone.contains(t) by {
                let k: int = choose|k: int| 0 <= k < s.len() && (#[trigger] s[k]).target == t;
                lemma_table_index(s, k);
                assert(!s[k].lapsed_for(*addr, now));
            }
            assert(self@ =~= before.remove_keys(gone));
            if banned {
                let j: int = choose|j: int| 0 <= j < i && (#[trigger] s[j]).bans(*addr, now);
                lemma_table_index(s, j);
                assert(before.contains_key(s[j].target));
            }
            if banned_at(before, *addr, now) {
                let t: BanAddr = choose|t: BanAddr| #[trigger]
                    before.contains_key(t) && before[t].bans(*addr, now);
                assert(self@.contains_key(t));
                let k: int = choose|k: int| 0 <= k < s.len() && (#[trigger] s[k]).target == t;
                lemma_table_index(s, k);
                assert(s[k].bans(*addr, now));
            }
        }
        banned
    }

    /// Drops every entry that has run out at `now`.
    pub fn sweep(&mut self, now: i64)
        requires
            old(self).wf(),
        ensures
            final(self).wf(),
            final(self)@ == old(self)@.remove_keys(expired_targets(old(self)@, now)),
    {
        let ghost before: Map<BanAddr, BanEntry> = self@;
        let mut i: usize = 0;
        while i < self.entries.len()
            invariant
                self.wf(),
                i <= self.entries@.len(),
                forall|j: int| 0 <= j < i ==> (#[trigger] self.entries@[j]).live_at(now),
                forall|t: BanAddr| #[trigger]
                    self@.contains_key(t) ==> before.contains_key(t) && self@[t] == before[t],
                forall|t: BanAddr|
                    before.contains_key(t) && before[t].live_at(now) ==> #[trigger]
                        self@.contains_key(t),
            decreases self.entries@.len() - i,
        {
            let e: BanEntry = self.entries[i];
            if now >= e.expiry {
                let ghost prev: Seq<BanEntry> = self.entries@;
                let ghost prev_table: Map<BanAddr, BanEntry> = self@;
                proof {
                    lemma_table_remove(prev, i as int);
                    lemma_table_index(prev, i as int);
                    assert(prev_table.contains_key(prev[i as int].target));
                }
                self.entries.remove(i);
                proof {
                    assert(self@ == prev_table.remove(prev[i as int].target));
                    assert forall|t: BanAddr| #[trigger] self@.contains_key(t) implies before.contains_key(
                        t,
                    ) && self@[t] == before[t] by {
                        assert(prev_table.contains_key(t));
                    }
                    assert forall|t: BanAddr|
                        before.contains_key(t) && t != prev[i as int].target && prev_table.contains_key(
                            t,
                        ) implies #[trigger] self@.contains_key(t) by {}
                    assert forall|j: int| 0 <= j < self.entries@.len() implies (
                    #[trigger] self.entries@[j]).target == self.entries@[j].target.canonical() by {
                        let j0: int = if j < i {
                            j
                        } else {
                            j + 1
                        };
                        assert(prev[j0].target == prev[j0].target.canonical());
                    }
                }
            } else {
                i += 1;
            }
        }
        proof {
            let s: Seq<BanEntry> = self.entries@;
            let gone: Set<BanAddr> = expired_targets(before, now);
            assert forall|t: BanAddr| #[trigger]
                self@.contains_key(t) implies !gone.contains(t) by {
                let k: int = choose|k: int| 0 <= k < s.len() && (#[trigger] s[k]).target == t;
                lemma_table_index(s, k);
                assert(s[k].live_at(now));
            }
            assert(self@ =~= before.remove_keys(gone));
        }
    }

    /// All entries, for safekeeping: each target of the table once, with
    /// its entry.
    pub fn snapshot(&self) -> (r: Vec<BanEntry>)
        requires
            self.wf(),
        ensures
            r@ == self.listing(),
            unique_targets(r@),
            table_of(r@) == self@,
    {
        let mut out: Vec<BanEntry> = Vec::new();
        let mut i: usize = 0;
        while i < self.entries.len()
            invariant
                i <= self.entries@.len(),
                out@ == self.entries@.take(i as int),
            decreases self.entries@.len() - i,
        {
            out.push(self.entries[i]);
            i += 1;
        }
        assert(out@ == self.entries@);
        out
    }

    /// The table that `entries` describe at `now`: those that have run out
    /// are left behind, the others are asked for in turn.
    pub fn load(entries: &Vec<BanEntry>, now: i64) -> (r: Self)
        ensures
            r.wf(),
            r@ == table_loaded(entries@, now),
    {
        let mut table = BanMan::new();
        let mut i: usize = 0;
        while i < entries.len()
            invariant
                i <= entries@.len(),
                table.wf(),
                table@ == table_loaded(entries@.take(i as int), now),
            decreases entries@.len() - i,
        {
            let e: BanEntry = entries[i];
            proof {
                assert(entries@.take(i + 1).drop_last() == entries@.take(i as int));
                e.target.lemma_canonical(
                    NetAddr { ip: 0, scope_id: crate::netaddr::Unknown { inner: 0 } },
                );
            }
            if now < e.expiry {
                table.insert_entry(
                    BanEntry { target: e.target.normalized(), reason: e.reason, expiry: e.expiry },
                    now,
                );
            }
            i += 1;
        }
        assert(entries@.take(entries@.len() as int) == entries@);
        table
    }
}

/// A ban whose end has come plays no part in a lookup at that instant or
/// later: the answer is the same with the entry and without it.
pub proof fn lemma_expired_ban_is_ignored(
    table: Map<BanAddr, BanEntry>,
    target: BanAddr,
    addr: NetAddr,
    now: i64,
)
    requires
        table.contains_key(target),
        table[target].expiry <= now,
    ensures
        banned_at(table, addr, now) == banned_at(table.remove(target), addr, now),
{
    let rest: Map<BanAddr, BanEntry> = table.remove(target);
    if banned_at(table, addr, now) {
        let t: BanAddr = choose|t: BanAddr| #[trigger]
            table.contains_key(t) && table[t].bans(addr, now);
        assert(rest.contains_key(t) && rest[t].bans(addr, now));
    }
    if banned_at(rest, addr, now) {
        let t: BanAddr = choose|t: BanAddr| #[trigger]
            rest.contains_key(t) && rest[t].bans(addr, now);
        assert(table.contains_key(t) && table[t].bans(addr, now));
    }
}

/// Where every ban that applies to `addr` has run out at `now`, a lookup at
/// `now` does not answer "banned".
pub proof fn lemma_only_expired_means_not_banned(
    table: Map<BanAddr, BanEntry>,
    addr: NetAddr,
    now: i64,
)
    requires
        forall|t: BanAddr| #[trigger]
            table.contains_key(t) && table[t].target.covers(addr) ==> table[t].expiry <= now,
    ensures
        !banned_at(table, addr, now),
{
    if banned_at(table, addr, now) {
        let t: BanAddr = choose|t: BanAddr| #[trigger]
            table.contains_key(t) && table[t].bans(addr, now);
        assert(table.contains_key(t) && table[t].target.covers(addr));
    }
}

/// A later request for another reason never shortens an operator's ban:
/// the entry that stays ends no earlier, and while the operator's ban
/// holds it stays as it is.
pub proof fn lemma_manual_ban_never_shortened(
    table: Map<BanAddr, BanEntry>,
    request: BanEntry,
    now: i64,
)
    requires
        table.contains_key(request.target),
        table[request.target].reason == BanReason::BanReasonManuallyAdded,
        request.reason != BanReason::BanReasonManuallyAdded,
    ensures
        table_after_ban(table, request, now)[request.target].expiry
            >= table[request.target].expiry,
        table[request.target].live_at(now) ==> table_after_ban(table, request, now)[request.target]
            == table[request.target],
{
}

proof fn lemma_loaded_is_live(s: Seq<BanEntry>, now: i64)
    requires
        unique_targets(s),
        forall|i: int| 0 <= i < s.len() ==> (#[trigger] s[i]).target == s[i].target.canonical(),
    ensures
        table_loaded(s, now) == table_of(s).remove_keys(expired_targets(table_of(s), now)),
    decreases s.len(),
{
    if s.len() == 0 {
        assert(table_of(s) =~= Map::<BanAddr, BanEntry>::empty());
        assert(table_loaded(s, now) =~= table_of(s).remove_keys(
            expired_targets(table_of(s), now),
        ));
    } else {
        let rest: Seq<BanEntry> = s.drop_last();
        let e: BanEntry = s.last();
        assert forall|i: int, j: int| 0 <= i < j < rest.len() implies (#[trigger] rest[i]).target
            != (#[trigger] rest[j]).target by {
            assert(s[i].target != s[j].target);
        }
        assert forall|i: int| 0 <= i < rest.len() implies (#[trigger] rest[i]).target
            == rest[i].target.canonical() by {
            assert(s[i].target == s[i].target.canonical());
        }
        lemma_loaded_is_live(rest, now);
        if table_of(rest).contains_key(e.target) {
            let k: int = choose|k: int| 0 <= k < rest.len() && (#[trigger] rest[k]).target
                == e.target;
            assert(s[k].target != s[s.len() - 1].target);
        }
        lemma_table_push(rest, e);
        assert(rest.push(e) == s);
        assert(s[s.len() - 1].target == s[s.len() - 1].target.canonical());
        assert(table_loaded(s, now) =~= table_of(s).remove_keys(
            expired_targets(table_of(s), now),
        ));
    }
}

proof fn lemma_table_dom(s: Seq<BanEntry>)
    requires
        unique_targets(s),
    ensures
        table_of(s).dom().finite(),
        table_of(s).dom().len() == s.len(),
    decreases s.len(),
{
    if s.len() == 0 {
        assert(table_of(s).dom() =~= Set::<BanAddr>::empty());
    } else {
        let rest: Seq<BanEntry> = s.drop_last();
        let e: BanEntry = s.last();
        assert forall|i: int, j: int| 0 <= i < j < rest.len() implies (#[trigger] rest[i]).target
            != (#[trigger] rest[j]).target by {
            assert(s[i].target != s[j].target);
        }
        lemma_table_dom(rest);
        if table_of(rest).contains_key(e.target) {
            let k: int = choose|k: int| 0 <= k < rest.len() && (#[trigger] rest[k]).target
                == e.target;
            assert(s[k].target != s[s.len() - 1].target);
        }
        lemma_table_push(rest, e);
        assert(rest.push(e) == s);
        assert(table_of(s).dom() =~= table_of(rest).dom().insert(e.target));
    }
}

} // verus!
