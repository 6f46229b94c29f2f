//! The connection scheduler: which peers the node dials, accepts and keeps,
//! one slot per connection.

use vstd::prelude::*;
use crate::banman::{banned_at, lapsed_targets, BanMan};
use crate::endpoint::Service;
use crate::error::{HandshakeFailure, NetError, RejectReason};
use crate::hashing::{draw, stream_advance, stream_output};
use crate::netaddr::{NetAddr, Node};

verus! {

/// What a connection is for. Each class has slots of its own.
#[derive(Clone, Copy, Debug, PartialEq, Eq, Structural)]
pub enum ConnClass {
    /// Outbound, relaying everything.
    FullRelay,
    /// Outbound, relaying blocks only.
    BlockRelayOnly,
    /// Outbound, asked for by an operator.
    Manual,
    /// Outbound, closed after one exchange of addresses.
    OneShot,
    /// Outbound, made only to test that an address answers.
    Feeler,
    /// Opened by the peer.
    Inbound,
}

/// Where a connection stands.
#[derive(Clone, Copy, Debug, PartialEq, Eq, Structural)]
pub enum SlotState {
    Dialing,
    Handshaking,
    Established,
    Closing,
    Closed,
}

/// What can happen to a connection.
#[derive(Clone, Copy, Debug, PartialEq, Eq, Structural)]
pub enum SlotEvent {
    /// The transport reached the peer.
    Connected,
    /// The handshake ended well.
    HandshakeDone,
    /// Dialing or the handshake failed.
    Failed,
    /// The node asks for the connection to end.
    CloseRequested,
    /// The transport has let go of the connection.
    Released,
}

/// Whether a connection in `state` takes up a slot of its class.
pub open spec fn is_live(state: SlotState) -> bool {
    state is Dialing || state is Handshaking || state is Established
}

/// The state that `event` leads to from `state`; nothing where the event
/// has no place there. No event leads out of `Closed`.
pub open spec fn next_state(state: SlotState, event: SlotEvent) -> Option<SlotState> {
    match (state, event) {
        (SlotState::Dialing, SlotEvent::Connected) => Some(SlotState::Handshaking),
        (SlotState::Handshaking, SlotEvent::HandshakeDone) => Some(SlotState::Established),
        (SlotState::Dialing, SlotEvent::Failed) => Some(SlotState::Closed),
        (SlotState::Handshaking, SlotEvent::Failed) => Some(SlotState::Closed),
        (SlotState::Established, SlotEvent::CloseRequested) => Some(SlotState::Closing),
        (SlotState::Closing, SlotEvent::Released) => Some(SlotState::Closed),
        _ => None,
    }
}

/// Computes [`next_state`].
pub fn step(state: SlotState, event: SlotEvent) -> (r: Option<SlotState>)
    ensures
        r == next_state(state, event),
        r matches Some(s) ==> (is_live(s) ==> is_live(state)),
        state is Closed ==> r is None,
{
    match (state, event) {
        (SlotState::Dialing, SlotEvent::Connected) => Some(SlotState::Handshaking),
        (SlotState::Handshaking, SlotEvent::HandshakeDone) => Some(SlotState::Established),
        (SlotState::Dialing, SlotEvent::Failed) => Some(SlotState::Closed),
        (SlotState::Handshaking, SlotEvent::Failed) => Some(SlotState::Closed),
        (SlotState::Established, SlotEvent::CloseRequested) => Some(SlotState::Closing),
        (SlotState::Closing, SlotEvent::Released) => Some(SlotState::Closed),
        _ => None,
    }
}

/// One connection, live or in flight.
#[derive(Clone, Copy, Debug, PartialEq, Eq, Structural)]
pub struct PeerSlot {
    /// The identity under which the rest of the node knows the slot.
    pub node: Node,
    /// The remote endpoint.
    pub service: Service,
    pub class: ConnClass,
    /// The number sent in the handshake, by which the node knows itself.
    pub nonce: u64,
    pub state: SlotState,
    /// Whether a failure counts against the address.
    pub count_failure: bool,
    /// When dialing began, or the handshake once it has begun, in seconds
    /// since the epoch.
    pub since: i64,
}

impl PeerSlot {
    /// The slot in another state, which it enters at `now`. The time is
    /// noted where a handshake begins.
    pub open spec fn moved_to(self, state: SlotState, now: i64) -> PeerSlot {
        PeerSlot {
            state,
            since: if state is Handshaking {
                now
            } else {
                self.since
            },
            ..self
        }
    }

    /// Whether dialing or the handshake has taken longer than allowed.
    pub open spec fn overdue(self, timeouts: Timeouts, now: i64) -> bool {
        (self.state is Dialing && now - self.since > timeouts.dial_secs) || (
        self.state is Handshaking && now - self.since > timeouts.handshake_secs)
    }

    /// Computes [`PeerSlot::moved_to`].
    pub fn moved(&self, state: SlotState, now: i64) -> (r: PeerSlot)
        ensures
            r == self.moved_to(state, now),
    {
        PeerSlot {
            node: self.node,
            service: self.service,
            class: self.class,
            nonce: self.nonce,
            state,
            count_failure: self.count_failure,
            since: match state {
                SlotState::Handshaking => now,
                _ => self.since,
            },
        }
    }

    /// Computes [`PeerSlot::overdue`].
    pub fn is_overdue(&self, timeouts: &Timeouts, now: i64) -> (r: bool)
        ensures
            r == self.overdue(*timeouts, now),
    {
        let waited: i128 = now as i128 - self.since as i128;
        (self.state == SlotState::Dialing && waited > timeouts.dial_secs as i128) || (self.state
            == SlotState::Handshaking && waited > timeouts.handshake_secs as i128)
    }
}

/// How long dialing and the handshake may take, in seconds.
#[derive(Clone, Copy, Debug, PartialEq, Eq, Structural)]
pub struct Timeouts {
    pub dial_secs: i64,
    pub handshake_secs: i64,
}

impl Timeouts {
    /// Five seconds to dial, a minute for the handshake.
    pub fn standard() -> (r: Self)
        ensures
            r == (Timeouts { dial_secs: 5, handshake_secs: 60 }),
    {
        Timeouts { dial_secs: 5, handshake_secs: 60 }
    }
}

/// How many connections of each class may be live at once. One-shot and
/// feeler connections have one slot each.
#[derive(Clone, Copy, Debug, PartialEq, Eq, Structural)]
pub struct ConnLimits {
    pub full_relay: usize,
    pub block_relay_only: usize,
    pub manual: usize,
    pub inbound: usize,
}

impl ConnLimits {
    /// The slots of `class`.
    pub open spec fn limit(self, class: ConnClass) -> nat {
        match class {
            ConnClass::FullRelay => self.full_relay as nat,
            ConnClass::BlockRelayOnly => self.block_relay_only as nat,
            ConnClass::Manual => self.manual as nat,
            ConnClass::Inbound => self.inbound as nat,
            ConnClass::OneShot => 1,
            ConnClass::Feeler => 1,
        }
    }

    /// Eight full-relay, two block-relay-only, eight manual and 114
    /// inbound slots.
    pub fn standard() -> (r: Self)
        ensures
            r == (ConnLimits { full_relay: 8, block_relay_only: 2, manual: 8, inbound: 114 }),
    {
        ConnLimits { full_relay: 8, block_relay_only: 2, manual: 8, inbound: 114 }
    }

    /// Computes [`ConnLimits::limit`].
    pub fn slots_for(&self, class: ConnClass) -> (r: usize)
        ensures
            r == self.limit(class),
    {
        match class {
            ConnClass::FullRelay => self.full_relay,
            ConnClass::BlockRelayOnly => self.block_relay_only,
            ConnClass::Manual => self.manual,
            ConnClass::Inbound => self.inbound,
            ConnClass::OneShot => 1,
            ConnClass::Feeler => 1,
        }
    }
}

/// The class that the flags of a request for an outbound connection name:
/// manual before feeler before one-shot, full relay where none is set.
pub open spec fn requested_class(one_shot: bool, feeler: bool, manual_connection: bool) -> ConnClass {
    if manual_connection {
        ConnClass::Manual
    } else if feeler {
        ConnClass::Feeler
    } else if one_shot {
        ConnClass::OneShot
    } else {
        ConnClass::FullRelay
    }
}

/// Computes [`requested_class`].
pub fn class_for(one_shot: bool, feeler: bool, manual_connection: bool) -> (r: ConnClass)
    ensures
        r == requested_class(one_shot, feeler, manual_connection),
{
    if manual_connection {
        ConnClass::Manual
    } else if feeler {
        ConnClass::Feeler
    } else if one_shot {
        ConnClass::OneShot
    } else {
        ConnClass::FullRelay
    }
}

/// Whether `slot` holds a live connection of `class`.
pub open spec fn live_in(slot: Option<PeerSlot>, class: ConnClass) -> bool {
    slot matches Some(p) && p.class == class && is_live(p.state)
}

/// Whether `slot` holds a live connection to `addr`.
pub open spec fn live_to(slot: Option<PeerSlot>, addr: NetAddr) -> bool {
    slot matches Some(p) && is_live(p.state) && p.service.inner == addr
}

/// Whether `slot` holds an outbound connection that has sent `nonce` and
/// whose handshake has not ended.
pub open spec fn awaits_nonce(slot: Option<PeerSlot>, nonce: u64) -> bool {
    slot matches Some(p) && p.class != ConnClass::Inbound && (p.state is Dialing
        || p.state is Handshaking) && p.nonce == nonce
}

/// Whether `slot` holds a connection that is being made and carries
/// `nonce`, whoever opened it.
pub open spec fn carries_nonce(slot: Option<PeerSlot>, nonce: u64) -> bool {
    slot matches Some(p) && (p.state is Dialing || p.state is Handshaking) && p.nonce == nonce
}

/// Whether a connection that is being made carries `nonce`.
pub open spec fn nonce_in_flight(s: Seq<Option<PeerSlot>>, nonce: u64) -> bool {
    exists|i: int| 0 <= i < s.len() && carries_nonce(#[trigger] s[i], nonce)
}

/// The number `k` steps behind `base`, going round at the largest one.
pub open spec fn nonce_candidate(base: u64, k: nat) -> u64 {
    ((base + k) % 0x1_0000_0000_0000_0000) as u64
}

/// The first of the numbers from `k` steps behind `base` on that no
/// connection in the making carries. There are more candidates than
/// connections, so one of the first `s.len() + 1` is free.
pub open spec fn nonce_from(s: Seq<Option<PeerSlot>>, base: u64, k: nat) -> u64
    decreases s.len() + 1 - k,
{
    if k > s.len() || !nonce_in_flight(s, nonce_candidate(base, k)) {
        nonce_candidate(base, k)
    } else {
        nonce_from(s, base, k + 1)
    }
}

/// The number of live connections of `class`.
pub open spec fn live_count(s: Seq<Option<PeerSlot>>, class: ConnClass) -> nat
    decreases s.len(),
{
    if s.len() == 0 {
        0
    } else {
        live_count(s.drop_last(), class) + if live_in(s.last(), class) {
            1nat
        } else {
            0nat
        }
    }
}

/// Whether `i` is the first index of `s` without a slot, or its length
/// where there is none.
pub open spec fn is_first_free(s: Seq<Option<PeerSlot>>, i: int) -> bool {
    &&& 0 <= i <= s.len()
    &&& forall|j: int| 0 <= j < i ==> (#[trigger] s[j]) is Some
    &&& i < s.len() ==> s[i] is None
}

/// The index that the next connection gets.
pub open spec fn first_free(s: Seq<Option<PeerSlot>>) -> int {
    choose|i: int| is_first_free(s, i)
}

/// `s` with `v` at index `i`, one longer where `i` is its length.
pub open spec fn placed(s: Seq<Option<PeerSlot>>, i: int, v: Option<PeerSlot>) -> Seq<
    Option<PeerSlot>,
> {
    if i < s.len() {
        s.update(i, v)
    } else {
        s.push(v)
    }
}

/// What an interrupt makes of a slot: a connection that was being made is
/// closed, an established one is asked to close.
pub open spec fn halted(slot: Option<PeerSlot>) -> Option<PeerSlot> {
    match slot {
        Some(p) => if p.state is Dialing || p.state is Handshaking {
            Some(p.moved_to(SlotState::Closed, p.since))
        } else if p.state is Established {
            Some(p.moved_to(SlotState::Closing, p.since))
        } else {
            Some(p)
        },
        None => None,
    }
}

/// What the passing of time makes of a slot: a connection that is overdue
/// is closed.
pub open spec fn lapsed(slot: Option<PeerSlot>, timeouts: Timeouts, now: i64) -> Option<PeerSlot> {
    match slot {
        Some(p) => if p.overdue(timeouts, now) {
            Some(p.moved_to(SlotState::Closed, now))
        } else {
            Some(p)
        },
        None => None,
    }
}

/// The overdue connections of `s`, as they are before they are closed, in
/// the order of their slots.
pub open spec fn overdue_slots(s: Seq<Option<PeerSlot>>, timeouts: Timeouts, now: i64) -> Seq<
    PeerSlot,
>
    decreases s.len(),
{
    if s.len() == 0 {
        Seq::empty()
    } else {
        let rest: Seq<PeerSlot> = overdue_slots(s.drop_last(), timeouts, now);
        match s.last() {
            Some(p) => if p.overdue(timeouts, now) {
                rest.push(p)
            } else {
                rest
            },
            None => rest,
        }
    }
}

/// A slot without its closed connection.
pub open spec fn reaped(slot: Option<PeerSlot>) -> Option<PeerSlot> {
    match slot {
        Some(p) => if p.state is Closed {
            None
        } else {
            Some(p)
        },
        None => None,
    }
}

/// The scheduler as a value.
pub struct ConnTable {
    pub slots: Seq<Option<PeerSlot>>,
    pub limits: ConnLimits,
    pub timeouts: Timeouts,
    pub network_active: bool,
    pub interrupted: bool,
    pub stream: u64,
}

impl ConnTable {
    /// Whether a live connection to `addr` exists.
    pub open spec fn has_live_to(self, addr: NetAddr) -> bool {
        exists|i: int| 0 <= i < self.slots.len() && live_to(#[trigger] self.slots[i], addr)
    }

    /// Whether `nonce` was sent on an outbound connection whose handshake
    /// has not ended.
    pub open spec fn nonce_pending(self, nonce: u64) -> bool {
        exists|i: int| 0 <= i < self.slots.len() && awaits_nonce(#[trigger] self.slots[i], nonce)
    }

    /// Whether a connection that is being made carries `nonce`.
    pub open spec fn nonce_in_flight(self, nonce: u64) -> bool {
        nonce_in_flight(self.slots, nonce)
    }

    /// The nonce of the next connection: the number drawn from the stream,
    /// or the first behind it that no connection in the making carries.
    pub open spec fn fresh_nonce(self) -> u64 {
        nonce_from(self.slots, stream_output(self.stream), 0)
    }

    /// The connection that `node` names.
    pub open spec fn slot(self, node: Node) -> Option<PeerSlot> {
        if node.id < self.slots.len() {
            self.slots[node.id as int]
        } else {
            None
        }
    }

    /// What holds of every scheduler: networking is not switched on while
    /// an interrupt lasts, a slot is known by its index, no class has more
    /// live connections than slots, and two live connections go to the same
    /// address only where one of them is manual.
    pub open spec fn wf(self) -> bool {
        &&& self.interrupted ==> !self.network_active
        &&& forall|i: int|
            0 <= i < self.slots.len() ==> (#[trigger] self.slots[i] matches Some(p) ==> p.node.id
                == i)
        &&& forall|c: ConnClass| #[trigger] live_count(self.slots, c) <= self.limits.limit(c)
        &&& forall|i: int, j: int|
            0 <= i < self.slots.len() && 0 <= j < self.slots.len() && i != j && (
            #[trigger] self.slots[i]) is Some && is_live(self.slots[i]->0.state) && live_to(
                #[trigger] self.slots[j],
                self.slots[i]->0.service.inner,
            ) ==> self.slots[i]->0.class == ConnClass::Manual || self.slots[j]->0.class
                == ConnClass::Manual
    }

    /// Whether connections of `class` are admitted at all: not after an
    /// interrupt, and with networking switched off only manual ones.
    pub open spec fn open_for(self, class: ConnClass) -> bool {
        !self.interrupted && (self.network_active || class == ConnClass::Manual)
    }

    /// Why a connection of `class` to `addr` is refused, if it is. The
    /// tests run in this order: the switch, the ban, the slots of the class,
    /// a live connection to the same address.
    pub open spec fn verdict(self, addr: NetAddr, class: ConnClass, banned: bool) -> Option<
        RejectReason,
    > {
        if !self.open_for(class) {
            Some(RejectReason::NetworkInactive)
        } else if banned {
            Some(RejectReason::Banned)
        } else if live_count(self.slots, class) >= self.limits.limit(class) {
            Some(RejectReason::SlotLimit)
        } else if class != ConnClass::Manual && self.has_live_to(addr) {
            Some(RejectReason::Duplicate)
        } else {
            None
        }
    }

    /// The slot that a connection admitted at `now` gets: the first free
    /// index, and a fresh nonce.
    pub open spec fn next_slot(
        self,
        service: Service,
        class: ConnClass,
        count_failure: bool,
        state: SlotState,
        now: i64,
    ) -> PeerSlot {
        PeerSlot {
            node: Node { id: first_free(self.slots) as u64 },
            service,
            class,
            nonce: self.fresh_nonce(),
            state,
            count_failure,
            since: now,
        }
    }

    /// Whether `after` is this scheduler with the connection `p` in a slot
    /// that was free, every other slot as it was, and `p` carrying a nonce
    /// that no connection in the making carried.
    pub open spec fn gave_slot(self, after: ConnTable, p: PeerSlot) -> bool {
        &&& self.slot(p.node) is None
        &&& after.slot(p.node) == Some(p)
        &&& forall|n: Node| n != p.node ==> #[trigger] after.slot(n) == self.slot(n)
        &&& !self.nonce_in_flight(p.nonce)
    }

    /// The scheduler after a request for a connection, and its answer.
    pub open spec fn after_request(
        self,
        service: Service,
        class: ConnClass,
        count_failure: bool,
        state: SlotState,
        banned: bool,
        now: i64,
    ) -> (ConnTable, Result<Node, NetError>) {
        match self.verdict(service.inner, class, banned) {
            Some(reason) => (self, Err(NetError::AdmissionRejected(reason))),
            None => {
                let p: PeerSlot = self.next_slot(service, class, count_failure, state, now);
                (
                    ConnTable {
                        slots: placed(self.slots, first_free(self.slots), Some(p)),
                        stream: stream_advance(self.stream),
                        ..self
                    },
                    Ok(p.node),
                )
            },
        }
    }

    /// The scheduler after `event` reached the connection `node` at `now`,
    /// and whether the event had a place there.
    pub open spec fn after_event(self, node: Node, event: SlotEvent, now: i64) -> (ConnTable, bool) {
        match self.slot(node) {
            Some(p) => match next_state(p.state, event) {
                Some(s) => (
                    ConnTable {
                        slots: self.slots.update(node.id as int, Some(p.moved_to(s, now))),
                        ..self
                    },
                    true,
                ),
                None => (self, false),
            },
            None => (self, false),
        }
    }

    /// The scheduler after the handshake of `node` ended with the peer
    /// sending `peer_nonce`, and the answer. A nonce that an outbound
    /// connection of this node is waiting with closes the slot while it is
    /// being made. Apart from that a slot that is not in a handshake is left
    /// alone, a ban closes the slot, and otherwise the connection is
    /// established.
    pub open spec fn after_handshake(self, node: Node, peer_nonce: u64, banned: bool, now: i64) -> (
        ConnTable,
        Result<(), NetError>,
    ) {
        match self.slot(node) {
            Some(p) => if (p.state is Dialing || p.state is Handshaking) && self.nonce_pending(
                peer_nonce,
            ) {
                (
                    self.after_event(node, SlotEvent::Failed, now).0,
                    Err(NetError::HandshakeFailed(HandshakeFailure::SelfConnection)),
                )
            } else if !(p.state is Handshaking) {
                (self, Err(NetError::HandshakeFailed(HandshakeFailure::NotHandshaking)))
            } else if banned {
                (
                    self.after_event(node, SlotEvent::Failed, now).0,
                    Err(NetError::HandshakeFailed(HandshakeFailure::Banned)),
                )
            } else {
                (self.after_event(node, SlotEvent::HandshakeDone, now).0, Ok(()))
            },
            None => (self, Err(NetError::HandshakeFailed(HandshakeFailure::NotHandshaking))),
        }
    }

    /// Whether ending the handshake of `node` looks the peer up in the ban
    /// table: the slot is in a handshake and the nonce is none of ours.
    pub open spec fn handshake_asks_bans(self, node: Node, peer_nonce: u64) -> bool {
        self.slot(node) matches Some(p) && p.state is Handshaking && !self.nonce_pending(
            peer_nonce,
        )
    }

    /// The scheduler after an interrupt: no connection is being made any
    /// more, and none is admitted until networking is switched on again.
    pub open spec fn after_interrupt(self) -> ConnTable {
        ConnTable {
            slots: Seq::new(self.slots.len(), |i: int| halted(self.slots[i])),
            network_active: false,
            interrupted: true,
            ..self
        }
    }

    /// The scheduler after networking was switched on or off. Switching it
    /// on ends an interrupt.
    pub open spec fn after_set_active(self, active: bool) -> ConnTable {
        ConnTable {
            network_active: active,
            interrupted: if active {
                false
            } else {
                self.interrupted
            },
            ..self
        }
    }

    /// The scheduler after every overdue connection was closed.
    pub open spec fn after_expiry(self, now: i64) -> ConnTable {
        ConnTable {
            slots: Seq::new(self.slots.len(), |i: int| lapsed(self.slots[i], self.timeouts, now)),
            ..self
        }
    }

    /// The scheduler without its closed connections.
    pub open spec fn after_reap(self) -> ConnTable {
        ConnTable { slots: Seq::new(self.slots.len(), |i: int| reaped(self.slots[i])), ..self }
    }
}

proof fn lemma_free_from(s: Seq<Option<PeerSlot>>, i: int)
    requires
        0 <= i <= s.len(),
        forall|j: int| 0 <= j < i ==> (#[trigger] s[j]) is Some,
    ensures
        exists|k: int| is_first_free(s, k),
    decreases s.len() - i,
{
    if i == s.len() || s[i] is None {
        assert(is_first_free(s, i));
    } else {
        lemma_free_from(s, i + 1);
    }
}

/// The nonces that connections in the making carry.
spec fn flight_set(s: Seq<Option<PeerSlot>>) -> Set<u64>
    decreases s.len(),
{
    if s.len() == 0 {
        Set::empty()
    } else {
        match s.last() {
            Some(p) => if p.state is Dialing || p.state is Handshaking {
                flight_set(s.drop_last()).insert(p.nonce)
            } else {
                flight_set(s.drop_last())
            },
            None => flight_set(s.drop_last()),
        }
    }
}

proof fn lemma_flight_set(s: Seq<Option<PeerSlot>>)
    ensures
        flight_set(s).finite(),
        flight_set(s).len() <= s.len(),
        forall|x: u64| nonce_in_flight(s, x) ==> #[trigger] flight_set(s).contains(x),
    decreases s.len(),
{
    if s.len() > 0 {
        lemma_flight_set(s.drop_last());
        assert forall|x: u64| nonce_in_flight(s, x) implies #[trigger] flight_set(s).contains(
            x,
        ) by {
            let i: int = choose|i: int| 0 <= i < s.len() && carries_nonce(#[trigger] s[i], x);
            if i < s.len() - 1 {
                assert(carries_nonce(s.drop_last()[i], x));
                assert(nonce_in_flight(s.drop_last(), x));
            }
        }
    }
}

/// The first `k` candidates behind `base`.
spec fn candidate_set(base: u64, k: nat) -> Set<u64>
    decreases k,
{
    if k == 0 {
        Set::empty()
    } else {
        candidate_set(base, (k - 1) as nat).insert(nonce_candidate(base, (k - 1) as nat))
    }
}

proof fn lemma_candidate_set(base: u64, k: nat)
    requires
        k <= 0x1_0000_0000_0000_0000,
    ensures
        candidate_set(base, k).finite(),
        candidate_set(base, k).len() == k,
        forall|j: nat| j < k ==> candidate_set(base, k).contains(#[trigger] nonce_candidate(base, j)),
        forall|x: u64| #[trigger]
            candidate_set(base, k).contains(x) ==> exists|j: nat|
                j < k && x == nonce_candidate(base, j),
    decreases k,
{
    if k > 0 {
        let before: nat = (k - 1) as nat;
        lemma_candidate_set(base, before);
        let last: u64 = nonce_candidate(base, before);
        if candidate_set(base, before).contains(last) {
            let j: nat = choose|j: nat| j < before && last == nonce_candidate(base, j);
            assert(false);
        }
        assert forall|x: u64| #[trigger] candidate_set(base, k).contains(x) implies exists|j: nat|
            j < k && x == nonce_candidate(base, j) by {
            if x == last {
                assert(before < k && x == nonce_candidate(base, before));
            } else {
                let j: nat = choose|j: nat| j < before && x == nonce_candidate(base, j);
                assert(j < k && x == nonce_candidate(base, j));
            }
        }
    }
}

/// Where the candidates up to the `k`-th are all carried by connections
/// in the making, there are more than `k` such connections.
proof fn lemma_candidates_run_out(s: Seq<Option<PeerSlot>>, base: u64, k: nat)
    requires
        s.len() <= u64::MAX,
        k <= s.len(),
        forall|j: nat| j <= k ==> nonce_in_flight(s, #[trigger] nonce_candidate(base, j)),
    ensures
        k < s.len(),
{
    lemma_flight_set(s);
    lemma_candidate_set(base, k + 1);
    let c: Set<u64> = candidate_set(base, k + 1);
    assert forall|x: u64| c.contains(x) implies flight_set(s).contains(x) by {
        let j: nat = choose|j: nat| j < k + 1 && x == nonce_candidate(base, j);
        assert(nonce_in_flight(s, nonce_candidate(base, j)));
    }
    vstd::set_lib::lemma_len_subset(c, flight_set(s));
}

proof fn lemma_nonce_from(s: Seq<Option<PeerSlot>>, base: u64, k: nat)
    requires
        s.len() <= u64::MAX,
        k <= s.len(),
        forall|j: nat| j < k ==> nonce_in_flight(s, #[trigger] nonce_candidate(base, j)),
    ensures
        !nonce_in_flight(s, nonce_from(s, base, k)),
    decreases s.len() + 1 - k,
{
    if nonce_in_flight(s, nonce_candidate(base, k)) {
        lemma_candidates_run_out(s, base, k);
        lemma_nonce_from(s, base, k + 1);
    }
}

/// The nonce of the next connection is fresh: no connection that is being
/// made carries it, so an echo of it names the new connection alone.
pub proof fn lemma_fresh_nonce_is_fresh(t: ConnTable)
    requires
        t.slots.len() <= u64::MAX,
    ensures
        !t.nonce_in_flight(t.fresh_nonce()),
        !t.nonce_pending(t.fresh_nonce()),
{
    lemma_nonce_from(t.slots, stream_output(t.stream), 0);
    if t.nonce_pending(t.fresh_nonce()) {
        let i: int = choose|i: int|
            0 <= i < t.slots.len() && awaits_nonce(#[trigger] t.slots[i], t.fresh_nonce());
        assert(carries_nonce(t.slots[i], t.fresh_nonce()));
    }
}

/// There always is a next index, and no slot sits there.
pub proof fn lemma_first_free_is_free(s: Seq<Option<PeerSlot>>)
    ensures
        is_first_free(s, first_free(s)),
{
    lemma_free_from(s, 0);
}

/// A nonce that an outbound connection of this node has sent, coming back
/// on that connection while it is being made, ends it in failure for a
/// connection to oneself and closes the slot. The connection is never
/// established.
pub proof fn lemma_own_nonce_never_establishes(t: ConnTable, node: Node, banned: bool, now: i64)
    requires
        t.slot(node) is Some,
        t.slot(node)->0.class != ConnClass::Inbound,
        t.slot(node)->0.state is Dialing || t.slot(node)->0.state is Handshaking,
    ensures
        ({
            let p: PeerSlot = t.slot(node)->0;
            let after: (ConnTable, Result<(), NetError>) = t.after_handshake(
                node,
                p.nonce,
                banned,
                now,
            );
            &&& after.1 == Err::<(), NetError>(
                NetError::HandshakeFailed(HandshakeFailure::SelfConnection),
            )
            &&& after.0.slot(node) is Some
            &&& after.0.slot(node)->0.state is Closed
        }),
{
    let p: PeerSlot = t.slot(node)->0;
    assert(awaits_nonce(t.slots[node.id as int], p.nonce));
    assert(t.nonce_pending(p.nonce));
}

/// After an interrupt no connection is live: none is being made, and
/// none is established.
pub proof fn lemma_interrupt_leaves_nothing_live(t: ConnTable, class: ConnClass)
    ensures
        live_count(t.after_interrupt().slots, class) == 0,
        !t.after_interrupt().open_for(class),
        forall|i: int|
            0 <= i < t.slots.len() ==> (#[trigger] t.after_interrupt().slots[i] matches Some(p)
                ==> !is_live(p.state)),
{
    lemma_live_count_none(t.after_interrupt().slots, class);
}

/// Whether every connection of `after` is one of `before`, in its slot,
/// and is live only if it was.
pub open spec fn calmer(before: Seq<Option<PeerSlot>>, after: Seq<Option<PeerSlot>>) -> bool {
    &&& after.len() == before.len()
    &&& forall|i: int|
        0 <= i < after.len() ==> (#[trigger] after[i] matches Some(q) ==> before[i] is Some
            && q.node == before[i]->0.node && q.service == before[i]->0.service && q.class
            == before[i]->0.class && (is_live(q.state) ==> is_live(before[i]->0.state)))
}

proof fn lemma_calmer_counts(before: Seq<Option<PeerSlot>>, after: Seq<Option<PeerSlot>>, c: ConnClass)
    requires
        calmer(before, after),
    ensures
        live_count(after, c) <= live_count(before, c),
    decreases before.len(),
{
    if before.len() > 0 {
        assert forall|i: int| 0 <= i < after.drop_last().len() implies (
        #[trigger] after.drop_last()[i] matches Some(q) ==> before.drop_last()[i] is Some && q.node
            == before.drop_last()[i]->0.node && q.service == before.drop_last()[i]->0.service
            && q.class == before.drop_last()[i]->0.class && (is_live(q.state) ==> is_live(
            before.drop_last()[i]->0.state,
        ))) by {
            assert(after[i] == after.drop_last()[i]);
        }
        lemma_calmer_counts(before.drop_last(), after.drop_last(), c);
        assert(after[after.len() - 1] == after.last());
    }
}

/// Where connections only leave or calm down, the scheduler stays well
/// formed.
pub proof fn lemma_calmer_keeps_wf(t: ConnTable, after: Seq<Option<PeerSlot>>)
    requires
        t.wf(),
        calmer(t.slots, after),
    ensures
        (ConnTable { slots: after, ..t }).wf(),
{
    assert forall|c: ConnClass| #[trigger] live_count(after, c) <= t.limits.limit(c) by {
        lemma_calmer_counts(t.slots, after, c);
        assert(live_count(t.slots, c) <= t.limits.limit(c));
    }
    assert forall|a: int, b: int|
        0 <= a < after.len() && 0 <= b < after.len() && a != b && (#[trigger] after[a]) is Some
            && is_live(after[a]->0.state) && live_to(
            #[trigger] after[b],
            after[a]->0.service.inner,
        ) implies after[a]->0.class == ConnClass::Manual || after[b]->0.class
        == ConnClass::Manual by {
        assert(t.slots[a] is Some && is_live(t.slots[a]->0.state));
        assert(live_to(t.slots[b], t.slots[a]->0.service.inner));
    }
    assert forall|i: int| 0 <= i < after.len() implies (#[trigger] after[i] matches Some(p)
        ==> p.node.id == i) by {
        assert(after[i] is Some ==> t.slots[i] is Some);
    }
}

/// An event, the end of a handshake, an interrupt, the passing of time
/// and the freeing of closed slots each keep the scheduler well formed.
pub proof fn lemma_steps_keep_wf(
    t: ConnTable,
    node: Node,
    event: SlotEvent,
    peer_nonce: u64,
    banned: bool,
    active: bool,
    now: i64,
)
    requires
        t.wf(),
    ensures
        t.after_event(node, event, now).0.wf(),
        t.after_handshake(node, peer_nonce, banned, now).0.wf(),
        t.after_interrupt().wf(),
        t.after_set_active(active).wf(),
        t.after_expiry(now).wf(),
        t.after_reap().wf(),
{
    assert(calmer(t.slots, t.after_event(node, event, now).0.slots));
    lemma_calmer_keeps_wf(t, t.after_event(node, event, now).0.slots);
    assert(calmer(t.slots, t.after_event(node, SlotEvent::Failed, now).0.slots));
    lemma_calmer_keeps_wf(t, t.after_event(node, SlotEvent::Failed, now).0.slots);
    assert(calmer(t.slots, t.after_event(node, SlotEvent::HandshakeDone, now).0.slots));
    lemma_calmer_keeps_wf(t, t.after_event(node, SlotEvent::HandshakeDone, now).0.slots);
    assert(calmer(t.slots, t.after_interrupt().slots));
    lemma_calmer_keeps_wf(t, t.after_interrupt().slots);
    assert(calmer(t.slots, t.after_expiry(now).slots));
    lemma_calmer_keeps_wf(t, t.after_expiry(now).slots);
    assert(calmer(t.slots, t.after_reap().slots));
    lemma_calmer_keeps_wf(t, t.after_reap().slots);
}

/// A request for a connection keeps the scheduler well formed: the slot
/// it may give out is the next free one, its class had room, and no live
/// connection went to its address unless it is manual.
pub proof fn lemma_request_keeps_wf(
    t: ConnTable,
    service: Service,
    class: ConnClass,
    count_failure: bool,
    state: SlotState,
    banned: bool,
    now: i64,
)
    requires
        t.wf(),
        t.slots.len() <= u64::MAX,
    ensures
        t.after_request(service, class, count_failure, state, banned, now).0.wf(),
{
    if t.verdict(service.inner, class, banned) is None {
        let i: int = first_free(t.slots);
        lemma_first_free_is_free(t.slots);
        let p: PeerSlot = t.next_slot(service, class, count_failure, state, now);
        let s2: Seq<Option<PeerSlot>> = placed(t.slots, i, Some(p));
        assert forall|c: ConnClass| #[trigger] live_count(s2, c) <= t.limits.limit(c) by {
            lemma_live_count_placed(t.slots, i, Some(p), c);
            assert(live_count(t.slots, c) <= t.limits.limit(c));
        }
        assert forall|a: int, b: int|
            0 <= a < s2.len() && 0 <= b < s2.len() && a != b && (#[trigger] s2[a]) is Some
                && is_live(s2[a]->0.state) && live_to(
                #[trigger] s2[b],
                s2[a]->0.service.inner,
            ) implies s2[a]->0.class == ConnClass::Manual || s2[b]->0.class
            == ConnClass::Manual by {
            if a != i && b != i {
                assert(t.slots[a] is Some && is_live(t.slots[a]->0.state));
                assert(live_to(t.slots[b], t.slots[a]->0.service.inner));
            } else if a == i {
                assert(live_to(t.slots[b], service.inner));
            } else {
                assert(live_to(t.slots[a], service.inner));
            }
        }
    }
}

/// In a well-formed scheduler two live connections go to the same address
/// only where one of them is manual.
pub proof fn lemma_one_connection_per_address(t: ConnTable, i: int, j: int)
    requires
        t.wf(),
        0 <= i < t.slots.len(),
        0 <= j < t.slots.len(),
        i != j,
        t.slots[i] is Some,
        t.slots[j] is Some,
        is_live(t.slots[i]->0.state),
        is_live(t.slots[j]->0.state),
        t.slots[i]->0.service.inner == t.slots[j]->0.service.inner,
    ensures
        t.slots[i]->0.class == ConnClass::Manual || t.slots[j]->0.class == ConnClass::Manual,
{
    assert(live_to(t.slots[j], t.slots[i]->0.service.inner));
}

/// In a well-formed scheduler no class has more live connections than
/// slots.
pub proof fn lemma_within_limits(t: ConnTable, class: ConnClass)
    requires
        t.wf(),
    ensures
        live_count(t.slots, class) <= t.limits.limit(class),
{
}

/// No event leads out of `Closed`, and the only way into a live state is
/// from a live state.
pub proof fn lemma_closed_is_final(state: SlotState, event: SlotEvent)
    ensures
        state is Closed ==> next_state(state, event) is None,
        next_state(state, event) matches Some(s) ==> (is_live(s) ==> is_live(state)),
{
}

proof fn lemma_first_free(s: Seq<Option<PeerSlot>>, i: int)
    requires
        is_first_free(s, i),
    ensures
        first_free(s) == i,
{
    let c: int = first_free(s);
    assert(is_first_free(s, c));
    if c < i {
        assert(s[c] is Some);
    } else if i < c {
        assert(s[i] is Some);
    }
}

proof fn lemma_live_count_update(s: Seq<Option<PeerSlot>>, i: int, v: Option<PeerSlot>, c: ConnClass)
    requires
        0 <= i < s.len(),
    ensures
        live_count(s.update(i, v), c) + (if live_in(s[i], c) {
            1nat
        } else {
            0nat
        }) == live_count(s, c) + (if live_in(v, c) {
            1nat
        } else {
            0nat
        }),
    decreases s.len(),
{
    let s2: Seq<Option<PeerSlot>> = s.update(i, v);
    if i == s.len() - 1 {
        assert(s2.drop_last() == s.drop_last());
    } else {
        lemma_live_count_update(s.drop_last(), i, v, c);
        assert(s2.drop_last() == s.drop_last().update(i, v));
    }
}

proof fn lemma_live_count_placed(s: Seq<Option<PeerSlot>>, i: int, v: Option<PeerSlot>, c: ConnClass)
    requires
        is_first_free(s, i),
    ensures
        live_count(placed(s, i, v), c) == live_count(s, c) + (if live_in(v, c) {
            1nat
        } else {
            0nat
        }),
{
    if i < s.len() {
        lemma_live_count_update(s, i, v, c);
    } else {
        assert(s.push(v).drop_last() == s);
    }
}

proof fn lemma_live_count_none(s: Seq<Option<PeerSlot>>, c: ConnClass)
    requires
        forall|i: int| 0 <= i < s.len() ==> !live_in(#[trigger] s[i], c),
    ensures
        live_count(s, c) == 0,
    decreases s.len(),
{
    if s.len() > 0 {
        lemma_live_count_none(s.drop_last(), c);
    }
}

/// Putting a slot in a state that is live only if the old one was keeps
/// the scheduler well formed.
proof fn lemma_move(t: ConnTable, i: int, state: SlotState, now: i64)
    requires
        t.wf(),
        0 <= i < t.slots.len(),
        t.slots[i] is Some,
        is_live(state) ==> is_live(t.slots[i]->0.state),
    ensures
        (ConnTable { slots: t.slots.update(i, Some(t.slots[i]->0.moved_to(state, now))), ..t }).wf(),
{
    let p: PeerSlot = t.slots[i]->0;
    let s2: Seq<Option<PeerSlot>> = t.slots.update(i, Some(p.moved_to(state, now)));
    let t2: ConnTable = ConnTable { slots: s2, ..t };
    assert forall|c: ConnClass| #[trigger] live_count(s2, c) <= t2.limits.limit(c) by {
        lemma_live_count_update(t.slots, i, Some(p.moved_to(state, now)), c);
        assert(live_count(t.slots, c) <= t.limits.limit(c));
    }
    assert forall|a: int, b: int|
        0 <= a < s2.len() && 0 <= b < s2.len() && a != b && (#[trigger] s2[a]) is Some
            && is_live(s2[a]->0.state) && live_to(
            #[trigger] s2[b],
            s2[a]->0.service.inner,
        ) implies s2[a]->0.class == ConnClass::Manual || s2[b]->0.class
        == ConnClass::Manual by {
        assert(t.slots[a] is Some && is_live(t.slots[a]->0.state));
        assert(live_to(t.slots[b], t.slots[a]->0.service.inner));
    }
}

/// The scheduler.
pub struct ConnMan {
    slots: Vec<Option<PeerSlot>>,
    limits: ConnLimits,
    timeouts: Timeouts,
    network_active: bool,
    interrupted: bool,
    stream: u64,
}

impl View for ConnMan {
    type V = ConnTable;

    closed spec fn view(&self) -> ConnTable {
        ConnTable {
            slots: self.slots@,
            limits: self.limits,
            timeouts: self.timeouts,
            network_active: self.network_active,
            interrupted: self.interrupted,
            stream: self.stream,
        }
    }
}

impl ConnMan {
    /// What holds of every scheduler between two calls.
    pub open spec fn inv(&self) -> bool {
        self@.wf()
    }

    /// A scheduler without connections, with networking switched on.
    /// `seed` starts the stream of nonces.
    pub fn new(limits: ConnLimits, timeouts: Timeouts, seed: u64) -> (r: Self)
        ensures
            r.inv(),
            r@ == (ConnTable {
                slots: Seq::<Option<PeerSlot>>::empty(),
                limits,
                timeouts,
                network_active: true,
                interrupted: false,
                stream: seed,
            }),
    {
        let r = ConnMan {
            slots: Vec::new(),
            limits,
            timeouts,
            network_active: true,
            interrupted: false,
            stream: seed,
        };
        assert(r@.slots =~= Seq::<Option<PeerSlot>>::empty());
        r
    }

    /// Whether networking is switched on.
    pub fn network_active(&self) -> (r: bool)
        ensures
            r == self@.network_active,
    {
        self.network_active
    }

    /// Switches networking on or off.
    pub fn set_network_active(&mut self, active: bool)
        requires
            old(self).inv(),
        ensures
            final(self).inv(),
            final(self)@ == old(self)@.after_set_active(active),
    {
        self.network_active = active;
        if active {
            self.interrupted = false;
        }
    }

    /// The number of slots, free ones included: every connection has a
    /// number below it.
    pub fn slot_count(&self) -> (n: usize)
        ensures
            n == self@.slots.len(),
    {
        self.slots.len()
    }

    /// The connection that `node` names, if there is one.
    pub fn slot(&self, node: &Node) -> (r: Option<PeerSlot>)
        ensures
            r == self@.slot(*node),
    {
        if node.id < self.slots.len() as u64 {
            self.slots[node.id as usize]
        } else {
            None
        }
    }

    /// The number of live connections of `class`.
    pub fn live_connections(&self, class: ConnClass) -> (n: usize)
        requires
            self.inv(),
        ensures
            n == live_count(self@.slots, class),
            n <= self@.limits.limit(class),
    {
        let mut n: usize = 0;
        let mut i: usize = 0;
        while i < self.slots.len()
            invariant
                i <= self.slots@.len(),
                n == live_count(self.slots@.take(i as int), class),
                n <= i,
            decreases self.slots@.len() - i,
        {
            proof {
                assert(self.slots@.take(i + 1).drop_last() == self.slots@.take(i as int));
            }
            match self.slots[i] {
                Some(p) => {
                    if p.class == class && (p.state == SlotState::Dialing || p.state
                        == SlotState::Handshaking || p.state == SlotState::Established) {
                        n += 1;
                    }
                },
                None => {},
            }
            i += 1;
        }
        assert(self.slots@.take(self.slots@.len() as int) == self.slots@);
        n
    }

    /// Whether a live connection to `addr` exists.
    pub fn connected_to(&self, addr: &NetAddr) -> (r: bool)
        ensures
            r == self@.has_live_to(*addr),
    {
        let mut i: usize = 0;
        while i < self.slots.len()
            invariant
                i <= self.slots@.len(),
                forall|j: int| 0 <= j < i ==> !live_to(#[trigger] self@.slots[j], *addr),
            decreases self.slots@.len() - i,
        {
            match self.slots[i] {
                Some(p) => {
                    if (p.state == SlotState::Dialing || p.state == SlotState::Handshaking
                        || p.state == SlotState::Established) && p.service.inner == *addr {
                        assert(live_to(self@.slots[i as int], *addr));
                        return true;
                    }
                },
                None => {},
            }
            i += 1;
        }
        false
    }

    /// Whether `nonce` is none of this node's own: no outbound connection
    /// whose handshake has not ended has sent it. A peer that sends back a
    /// nonce of ours is this node itself.
    pub fn check_incoming_nonce(&self, nonce: u64) -> (r: bool)
        ensures
            r == !self@.nonce_pending(nonce),
    {
        let mut i: usize = 0;
        while i < self.slots.len()
            invariant
                i <= self.slots@.len(),
                forall|j: int| 0 <= j < i ==> !awaits_nonce(#[trigger] self@.slots[j], nonce),
            decreases self.slots@.len() - i,
        {
            match self.slots[i] {
                Some(p) => {
                    if p.class != ConnClass::Inbound && (p.state == SlotState::Dialing || p.state
                        == SlotState::Handshaking) && p.nonce == nonce {
                        assert(awaits_nonce(self@.slots[i as int], nonce));
                        return false;
                    }
                },
                None => {},
            }
            i += 1;
        }
        true
    }

    /// Whether a connection that is being made carries `nonce`.
    pub fn nonce_in_use(&self, nonce: u64) -> (r: bool)
        ensures
            r == self@.nonce_in_flight(nonce),
    {
        let mut i: usize = 0;
        while i < self.slots.len()
            invariant
                i <= self.slots@.len(),
                forall|j: int| 0 <= j < i ==> !carries_nonce(#[trigger] self@.slots[j], nonce),
            decreases self.slots@.len() - i,
        {
            match self.slots[i] {
                Some(p) => {
                    if (p.state == SlotState::Dialing || p.state == SlotState::Handshaking)
                        && p.nonce == nonce {
                        assert(carries_nonce(self@.slots[i as int], nonce));
                        return true;
                    }
                },
                None => {},
            }
            i += 1;
        }
        false
    }

    /// Draws the nonce of the next connection: the number that the stream
    /// yields, or the first behind it that no connection in the making
    /// carries.
    fn pick_nonce(&mut self) -> (nonce: u64)
        ensures
            nonce == old(self)@.fresh_nonce(),
            !old(self)@.nonce_in_flight(nonce),
            final(self)@ == (ConnTable { stream: stream_advance(old(self)@.stream), ..old(self)@ }),
    {
        let ghost t: ConnTable = self@;
        let room: usize = self.slots.len();
        let base: u64 = draw(&mut self.stream);
        let mut nonce: u64 = base;
        let mut k: usize = 0;
        while self.nonce_in_use(nonce)
            invariant
                self@ == (ConnTable { stream: stream_advance(t.stream), ..t }),
                base == stream_output(t.stream),
                room == t.slots.len(),
                k <= room,
                nonce == nonce_candidate(base, k as nat),
                nonce_from(t.slots, base, k as nat) == t.fresh_nonce(),
                forall|j: nat| j < k ==> nonce_in_flight(t.slots, #[trigger] nonce_candidate(base, j)),
            decreases room - k,
        {
            proof {
                lemma_candidates_run_out(t.slots, base, k as nat);
            }
            k += 1;
            nonce = nonce.wrapping_add(1);
        }
        nonce
    }

    fn free_index(&self) -> (i: usize)
        ensures
            i == first_free(self@.slots),
            is_first_free(self@.slots, i as int),
    {
        let mut i: usize = 0;
        while i < self.slots.len()
            invariant
                i <= self.slots@.len(),
                forall|j: int| 0 <= j < i ==> (#[trigger] self@.slots[j]) is Some,
            decreases self.slots@.len() - i,
        {
            if self.slots[i].is_none() {
                proof {
                    lemma_first_free(self@.slots, i as int);
                }
                return i;
            }
            i += 1;
        }
        proof {
            lemma_first_free(self@.slots, i as int);
        }
        i
    }

    /// Asks for a connection of `class` to `service`, which starts in
    /// `state`. The ban table is asked only where the switch lets the class in.
    fn request(
        &mut self,
        bans: &mut BanMan,
        service: &Service,
        class: ConnClass,
        count_failure: bool,
        state: SlotState,
        now: i64,
    ) -> (r: Result<Node, NetError>)
        requires
            old(self).inv(),
            old(bans).wf(),
            state is Dialing || state is Handshaking,
        ensures
            final(self).inv(),
            final(bans).wf(),
            r is Ok ==> old(self)@.gave_slot(
                final(self)@,
                old(self)@.next_slot(*service, class, count_failure, state, now),
            ) && r->Ok_0 == old(self)@.next_slot(*service, class, count_failure, state, now).node,
            (final(self)@, r) == old(self)@.after_request(
                *service,
                class,
                count_failure,
                state,
                banned_at(old(bans)@, service.inner, now),
                now,
            ),
            final(bans)@ == (if old(self)@.open_for(class) {
                old(bans)@.remove_keys(lapsed_targets(old(bans)@, service.inner, now))
            } else {
                old(bans)@
            }),
    {
        let ghost t: ConnTable = self@;
        if self.interrupted || !(self.network_active || class == ConnClass::Manual) {
            return Err(NetError::AdmissionRejected(RejectReason::NetworkInactive));
        }
        if bans.is_banned(&service.inner, now) {
            return Err(NetError::AdmissionRejected(RejectReason::Banned));
        }
        if self.live_connections(class) >= self.limits.slots_for(class) {
            return Err(NetError::AdmissionRejected(RejectReason::SlotLimit));
        }
        if class != ConnClass::Manual && self.connected_to(&service.inner) {
            return Err(NetError::AdmissionRejected(RejectReason::Duplicate));
        }
        let i: usize = self.free_index();
        let nonce: u64 = self.pick_nonce();
        let p = PeerSlot {
            node: Node { id: i as u64 },
            service: *service,
            class,
            nonce,
            state,
            count_failure,
            since: now,
        };
        let room: usize = self.slots.len();
        proof {
            assert(t.slots.len() == room);
            lemma_request_keeps_wf(
                t,
                *service,
                class,
                count_failure,
                state,
                banned_at(old(bans)@, service.inner, now),
                now,
            );
        }
        if i < room {
            self.slots.set(i, Some(p));
        } else {
            self.slots.push(Some(p));
        }
        proof {
            assert forall|n: Node| n != p.node implies #[trigger] self@.slot(n) == t.slot(n) by {
                if n.id < self@.slots.len() && n.id != i {
                    assert(self@.slots[n.id as int] == t.slots[n.id as int]);
                }
            }
        }
        Ok(p.node)
    }

    /// Asks for an outbound connection of `class` to `service`. Where it
    /// is admitted, its slot starts in `Dialing` with a nonce that no
    /// connection in the making carries, and the transport may dial.
    pub fn open_connection(
        &mut self,
        bans: &mut BanMan,
        service: &Service,
        class: ConnClass,
        count_failure: bool,
        now: i64,
    ) -> (r: Result<Node, NetError>)
        requires
            old(self).inv(),
            old(bans).wf(),
        ensures
            final(self).inv(),
            final(bans).wf(),
            r is Ok ==> old(self)@.gave_slot(
                final(self)@,
                old(self)@.next_slot(*service, class, count_failure, SlotState::Dialing, now),
            ) && r->Ok_0 == old(self)@.next_slot(*service, class, count_failure, SlotState::Dialing, now).node,
            (final(self)@, r) == old(self)@.after_request(
                *service,
                class,
                count_failure,
                SlotState::Dialing,
                banned_at(old(bans)@, service.inner, now),
                now,
            ),
            final(bans)@ == (if old(self)@.open_for(class) {
                old(bans)@.remove_keys(lapsed_targets(old(bans)@, service.inner, now))
            } else {
                old(bans)@
            }),
    {
        self.request(bans, service, class, count_failure, SlotState::Dialing, now)
    }

    /// Asks for a slot for a connection that `service` has opened. Where
    /// it is admitted, its slot starts in `Handshaking`.
    pub fn accept_inbound(&mut self, bans: &mut BanMan, service: &Service, now: i64) -> (r: Result<
        Node,
        NetError,
    >)
        requires
            old(self).inv(),
            old(bans).wf(),
        ensures
            final(self).inv(),
            final(bans).wf(),
            r is Ok ==> old(self)@.gave_slot(
                final(self)@,
                old(self)@.next_slot(*service, ConnClass::Inbound, false, SlotState::Handshaking, now),
            ) && r->Ok_0 == old(self)@.next_slot(*service, ConnClass::Inbound, false, SlotState::Handshaking, now).node,
            (final(self)@, r) == old(self)@.after_request(
                *service,
                ConnClass::Inbound,
                false,
                SlotState::Handshaking,
                banned_at(old(bans)@, service.inner, now),
                now,
            ),
            final(bans)@ == (if old(self)@.open_for(ConnClass::Inbound) {
                old(bans)@.remove_keys(lapsed_targets(old(bans)@, service.inner, now))
            } else {
                old(bans)@
            }),
    {
        self.request(bans, service, ConnClass::Inbound, false, SlotState::Handshaking, now)
    }

    /// Lets `event` reach the connection `node` at `now`. Says whether it
    /// had a place there; where it had none, nothing changes.
    pub fn apply(&mut self, node: &Node, event: SlotEvent, now: i64) -> (applied: bool)
        requires
            old(self).inv(),
        ensures
            final(self).inv(),
            (final(self)@, applied) == old(self)@.after_event(*node, event, now),
    {
        if node.id >= self.slots.len() as u64 {
            return false;
        }
        let i: usize = node.id as usize;
        match self.slots[i] {
            Some(p) => match step(p.state, event) {
                Some(s) => {
                    proof {
                        lemma_move(self@, i as int, s, now);
                    }
                    self.slots.set(i, Some(p.moved(s, now)));
                    true
                },
                None => false,
            },
            None => false,
        }
    }

    /// Ends the handshake of `node`, in which the peer sent `peer_nonce`.
    pub fn finish_handshake(&mut self, bans: &mut BanMan, node: &Node, peer_nonce: u64, now: i64) -> (r:
        Result<(), NetError>)
        requires
            old(self).inv(),
            old(bans).wf(),
        ensures
            final(self).inv(),
            final(bans).wf(),
            (final(self)@, r) == old(self)@.after_handshake(
                *node,
                peer_nonce,
                banned_at(old(bans)@, old(self)@.slot(*node)->0.service.inner, now),
                now,
            ),
            final(bans)@ == (if old(self)@.handshake_asks_bans(*node, peer_nonce) {
                old(bans)@.remove_keys(
                    lapsed_targets(old(bans)@, old(self)@.slot(*node)->0.service.inner, now),
                )
            } else {
                old(bans)@
            }),
    {
        match self.slot(node) {
            Some(p) => {
                let in_making: bool = p.state == SlotState::Dialing || p.state
                    == SlotState::Handshaking;
                if in_making && !self.check_incoming_nonce(peer_nonce) {
                    self.apply(node, SlotEvent::Failed, now);
                    return Err(NetError::HandshakeFailed(HandshakeFailure::SelfConnection));
                }
                if p.state != SlotState::Handshaking {
                    return Err(NetError::HandshakeFailed(HandshakeFailure::NotHandshaking));
                }
                if bans.is_banned(&p.service.inner, now) {
                    self.apply(node, SlotEvent::Failed, now);
                    return Err(NetError::HandshakeFailed(HandshakeFailure::Banned));
                }
                self.apply(node, SlotEvent::HandshakeDone, now);
                Ok(())
            },
            None => Err(NetError::HandshakeFailed(HandshakeFailure::NotHandshaking)),
        }
    }

    /// Calls off every connection that is being made, asks every
    /// established one to close, and admits none until networking is
    /// switched on again.
    pub fn interrupt(&mut self)
        requires
            old(self).inv(),
        ensures
            final(self).inv(),
            final(self)@ == old(self)@.after_interrupt(),
    {
        let ghost t: ConnTable = self@;
        let mut i: usize = 0;
        while i < self.slots.len()
            invariant
                self.inv(),
                i <= self.slots@.len(),
                self.slots@.len() == t.slots.len(),
                self@.limits == t.limits,
                self@.timeouts == t.timeouts,
                self@.stream == t.stream,
                forall|j: int| 0 <= j < i ==> #[trigger] self@.slots[j] == halted(t.slots[j]),
                forall|j: int| i <= j < t.slots.len() ==> #[trigger] self@.slots[j] == t.slots[j],
            decreases self.slots@.len() - i,
        {
            match self.slots[i] {
                Some(p) => {
                    let target: SlotState = match p.state {
                        SlotState::Dialing => SlotState::Closed,
                        SlotState::Handshaking => SlotState::Closed,
                        SlotState::Established => SlotState::Closing,
                        SlotState::Closing => SlotState::Closing,
                        SlotState::Closed => SlotState::Closed,
                    };
                    proof {
                        lemma_move(self@, i as int, target, p.since);
                    }
                    self.slots.set(i, Some(p.moved(target, p.since)));
                },
                None => {},
            }
            i += 1;
        }
        self.network_active = false;
        self.interrupted = true;
        assert(self@.slots =~= t.after_interrupt().slots);
    }

    /// Closes every connection whose dialing or handshake is overdue at
    /// `now`. Hands them back as they were, in the order of their slots.
    pub fn expire(&mut self, now: i64) -> (r: Vec<PeerSlot>)
        requires
            old(self).inv(),
        ensures
            final(self).inv(),
            final(self)@ == old(self)@.after_expiry(now),
            r@ == overdue_slots(old(self)@.slots, old(self)@.timeouts, now),
    {
        let ghost t: ConnTable = self@;
        let mut out: Vec<PeerSlot> = Vec::new();
        let mut i: usize = 0;
        while i < self.slots.len()
            invariant
                self.inv(),
                i <= self.slots@.len(),
                self.slots@.len() == t.slots.len(),
                self@.limits == t.limits,
                self@.timeouts == t.timeouts,
                self@.stream == t.stream,
                self@.network_active == t.network_active,
                self@.interrupted == t.interrupted,
                out@ == overdue_slots(t.slots.take(i as int), t.timeouts, now),
                forall|j: int|
                    0 <= j < i ==> #[trigger] self@.slots[j] == lapsed(t.slots[j], t.timeouts, now),
                forall|j: int| i <= j < t.slots.len() ==> #[trigger] self@.slots[j] == t.slots[j],
            decreases self.slots@.len() - i,
        {
            proof {
                assert(t.slots.take(i + 1).drop_last() == t.slots.take(i as int));
            }
            match self.slots[i] {
                Some(p) => {
                    if p.is_overdue(&self.timeouts, now) {
                        proof {
                            lemma_move(self@, i as int, SlotState::Closed, now);
                        }
                        self.slots.set(i, Some(p.moved(SlotState::Closed, now)));
                        out.push(p);
                    }
                },
                None => {},
            }
            i += 1;
        }
        assert(t.slots.take(t.slots.len() as int) == t.slots);
        assert(self@.slots =~= t.after_expiry(now).slots);
        out
    }

    /// Frees the slots of closed connections.
    pub fn reap(&mut self)
        requires
            old(self).inv(),
        ensures
            final(self).inv(),
            final(self)@ == old(self)@.after_reap(),
    {
        let ghost t: ConnTable = self@;
        let mut i: usize = 0;
        while i < self.slots.len()
            invariant
                self.inv(),
                i <= self.slots@.len(),
                self.slots@.len() == t.slots.len(),
                self@.limits == t.limits,
                self@.timeouts == t.timeouts,
                self@.stream == t.stream,
                self@.network_active == t.network_active,
                self@.interrupted == t.interrupted,
                forall|j: int| 0 <= j < i ==> #[trigger] self@.slots[j] == reaped(t.slots[j]),
                forall|j: int| i <= j < t.slots.len() ==> #[trigger] self@.slots[j] == t.slots[j],
            decreases self.slots@.len() - i,
        {
            match self.slots[i] {
                Some(p) => {
                    if p.state == SlotState::Closed {
                        proof {
                            let s1: Seq<Option<PeerSlot>> = self@.slots;
                            let s2: Seq<Option<PeerSlot>> = s1.update(i as int, None);
                            assert forall|c: ConnClass| #[trigger]
                                live_count(s2, c) <= t.limits.limit(c) by {
                                lemma_live_count_update(s1, i as int, None, c);
                                assert(live_count(s1, c) <= t.limits.limit(c));
                            }
                            assert forall|a: int, b: int|
                                0 <= a < s2.len() && 0 <= b < s2.len() && a != b && (
                                #[trigger] s2[a]) is Some && is_live(s2[a]->0.state) && live_to(
                                    #[trigger] s2[b],
                                    s2[a]->0.service.inner,
                                ) implies s2[a]->0.class == ConnClass::Manual || s2[b]->0.class
                                == ConnClass::Manual by {
                                assert(s1[a] is Some && is_live(s1[a]->0.state));
                                assert(live_to(s1[b], s1[a]->0.service.inner));
                            }
                        }
                        self.slots.set(i, None);
                    }
                },
                None => {},
            }
            i += 1;
        }
        assert(self@.slots =~= t.after_reap().slots);
    }
}

} // verus!
