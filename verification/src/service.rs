//! The network service: address store, ban table, connection scheduler and
//! relay queues behind one set of operations.

use vstd::prelude::*;
use crate::addrman::{blank, AddrMan, AddrTables, StoredAddress, SAMPLE_MAX};
use crate::banman::{
    ban_expiry, banned_at, expired_targets, lapsed_targets, table_after_ban, table_loaded, BanEntry,
    BanMan, DEFAULT_BAN_SECS,
};
use crate::codec::{
    decode_file, encode_addresses, encode_bans, file_bytes, file_parsed, Carried, ADDR_MAGIC, BAN_MAGIC,
};
use crate::connman::{
    class_for, lemma_first_free_is_free, overdue_slots, requested_class, ConnClass, ConnLimits,
    ConnMan, ConnTable, PeerSlot, SlotEvent, SlotState, Timeouts,
};
use crate::endpoint::{Address, Service, ServiceFlags};
use crate::error::{HandshakeFailure, NetError};
use crate::netaddr::{BanAddr, BanReason, NetAddr, Node, RawNetMessage, Unknown};
use crate::relay::{queue_after_push, OverflowPolicy, PushOutcome, RelayTable};

verus! {

/// A service that relays messages between peers.
pub trait RelayService {

}

/// A service that keeps the node in step with its peers.
pub trait SyncService {

}

trait NetworkServicePrivate {

}

/// The whole service as a value.
pub struct ServiceState {
    pub addresses: AddrTables,
    pub bans: Map<BanAddr, BanEntry>,
    pub connections: ConnTable,
    /// The messages that wait for each peer, by the peer's number.
    pub queues: Map<int, Seq<RawNetMessage>>,
    pub queue_capacity: usize,
    pub queue_policy: OverflowPolicy,
}

impl ServiceState {
    /// The ban table after a lookup of `addr` at `now`.
    pub open spec fn bans_after_lookup(self, addr: NetAddr, now: i64) -> Map<BanAddr, BanEntry> {
        self.bans.remove_keys(lapsed_targets(self.bans, addr, now))
    }

    /// The service after a request for a connection of `class` that starts
    /// in `state`, and the answer. The ban table is asked only where the
    /// switch of the scheduler lets the class in.
    pub open spec fn after_request(
        self,
        service: Service,
        class: ConnClass,
        count_failure: bool,
        state: SlotState,
        now: i64,
    ) -> (ServiceState, Result<Node, NetError>) {
        let step: (ConnTable, Result<Node, NetError>) = self.connections.after_request(
            service,
            class,
            count_failure,
            state,
            banned_at(self.bans, service.inner, now),
            now,
        );
        (
            ServiceState {
                connections: step.0,
                bans: if self.connections.open_for(class) {
                    self.bans_after_lookup(service.inner, now)
                } else {
                    self.bans
                },
                ..self
            },
            step.1,
        )
    }

    /// The service after an attempt on `node` failed: the slot is closed
    /// where it was dialing or in its handshake, and the failure counts
    /// against the address where the slot asks for that.
    pub open spec fn after_failed(self, node: Node, now: i64) -> (ServiceState, bool) {
        let step: (ConnTable, bool) = self.connections.after_event(node, SlotEvent::Failed, now);
        (
            ServiceState {
                connections: step.0,
                addresses: if step.1 && self.connections.slot(node)->0.count_failure {
                    self.addresses.after_failure(self.connections.slot(node)->0.service.key())
                } else {
                    self.addresses
                },
                ..self
            },
            step.1,
        )
    }

    /// The service after the handshake of `node` ended with the peer
    /// sending `peer_nonce`, and the answer. Where that closes the slot,
    /// the failure counts against the address if the slot asks for that.
    pub open spec fn after_handshake(self, node: Node, peer_nonce: u64, now: i64) -> (
        ServiceState,
        Result<(), NetError>,
    ) {
        let p: PeerSlot = self.connections.slot(node)->0;
        let step: (ConnTable, Result<(), NetError>) = self.connections.after_handshake(
            node,
            peer_nonce,
            banned_at(self.bans, p.service.inner, now),
            now,
        );
        let closed_now: bool = self.connections.slot(node) is Some && (p.state is Dialing
            || p.state is Handshaking) && step.0.slot(node)->0.state is Closed;
        (
            ServiceState {
                connections: step.0,
                bans: if self.connections.handshake_asks_bans(node, peer_nonce) {
                    self.bans_after_lookup(p.service.inner, now)
                } else {
                    self.bans
                },
                addresses: if closed_now && p.count_failure {
                    self.addresses.after_failure(p.service.key())
                } else {
                    self.addresses
                },
                ..self
            },
            step.1,
        )
    }

    /// The service after `msg` was handed over for `node`, and what became
    /// of it. Only an established connection has a queue to take it.
    pub open spec fn after_push(self, node: Node, msg: RawNetMessage) -> (ServiceState, PushOutcome) {
        if self.connections.slot(node) matches Some(p) && p.state is Established {
            let step: (Seq<RawNetMessage>, PushOutcome) = queue_after_push(
                self.queues[node.id as int],
                self.queue_capacity,
                self.queue_policy,
                msg,
            );
            (ServiceState { queues: self.queues.insert(node.id as int, step.0), ..self }, step.1)
        } else {
            (self, PushOutcome::NotEstablished)
        }
    }

    /// The service after every connection that is overdue at `now` was
    /// closed, each failure counted where its slot asks for that; and the
    /// connections that were closed, in the order of their slots.
    pub open spec fn after_timeouts(self, now: i64) -> (ServiceState, Seq<Node>) {
        let late: Seq<PeerSlot> = overdue_slots(
            self.connections.slots,
            self.connections.timeouts,
            now,
        );
        (
            ServiceState {
                connections: self.connections.after_expiry(now),
                addresses: failures_counted(self.addresses, late),
                ..self
            },
            late.map_values(|p: PeerSlot| p.node),
        )
    }

    /// The service after upkeep at `now`: bans that have run out are gone,
    /// and so are closed connections and what waited for them.
    pub open spec fn after_upkeep(self, now: i64) -> ServiceState {
        ServiceState {
            bans: self.bans.remove_keys(expired_targets(self.bans, now)),
            connections: self.connections.after_reap(),
            queues: Map::total(
                |id: int|
                    if self.closed_at(id) {
                        Seq::empty()
                    } else {
                        self.queues[id]
                    },
            ),
            ..self
        }
    }

    /// Whether the connection of number `id` is closed.
    pub open spec fn closed_at(self, id: int) -> bool {
        0 <= id < self.connections.slots.len() && self.connections.slots[id] is Some
            && self.connections.slots[id]->0.state is Closed
    }

    /// Whether the connection of number `id` has a slot and is past its
    /// handshake.
    pub open spec fn settled(self, id: int) -> bool {
        0 <= id < self.connections.slots.len() && self.connections.slots[id] is Some && !(
        self.connections.slots[id]->0.state is Dialing) && !(
        self.connections.slots[id]->0.state is Handshaking)
    }

    /// Messages wait only for connections that were established.
    pub open spec fn queues_belong(self) -> bool {
        forall|id: int| (#[trigger] self.queues[id]).len() > 0 ==> self.settled(id)
    }

    /// What holds of every service between two calls, as far as its value
    /// shows it: address store and scheduler are well formed, the store
    /// knows finitely many endpoints, messages wait only for connections
    /// that were established, and every ban is filed under its own target,
    /// in canonical form.
    pub open spec fn wf(self) -> bool {
        &&& self.addresses.wf()
        &&& self.addresses.keys().finite()
        &&& self.connections.wf()
        &&& self.queues_belong()
        &&& self.bans.dom().finite()
        &&& forall|t: BanAddr| #[trigger]
            self.bans.contains_key(t) ==> self.bans[t].target == t && t == t.canonical()
    }
}

/// The address store after the failures of `slots` were counted, front to
/// back, each where its slot asks for that.
pub open spec fn failures_counted(addresses: AddrTables, slots: Seq<PeerSlot>) -> AddrTables
    decreases slots.len(),
{
    if slots.len() == 0 {
        addresses
    } else {
        let rest: AddrTables = failures_counted(addresses, slots.drop_last());
        if slots.last().count_failure {
            rest.after_failure(slots.last().service.key())
        } else {
            rest
        }
    }
}

/// The queues stay with the connections they belong to where, from one
/// state to the next, a message comes to wait only at an established
/// connection, and a connection with messages waiting stays past its
/// handshake or loses them.
proof fn lemma_queues_follow(before: ServiceState, after: ServiceState)
    requires
        before.queues_belong(),
        forall|id: int|
            (#[trigger] after.queues[id]).len() > 0 ==> before.queues[id].len() > 0
                || after.settled(id),
        forall|id: int|
            before.settled(id) && (#[trigger] after.queues[id]).len() > 0 ==> after.settled(id),
    ensures
        after.queues_belong(),
{
    assert forall|id: int| (#[trigger] after.queues[id]).len() > 0 implies after.settled(id) by {
        if before.queues[id].len() > 0 {
            assert(before.settled(id));
        }
    }
}

/// What a service starts with.
#[derive(Clone, Copy, Debug, PartialEq, Eq, Structural)]
pub struct ServiceConfig {
    /// Keys the placement of address records. Fixed for the life of the
    /// process and unknown to peers.
    pub salt: u64,
    /// Starts the pseudo-random stream of the address store.
    pub address_seed: u64,
    /// Starts the stream of handshake nonces.
    pub nonce_seed: u64,
    pub limits: ConnLimits,
    pub timeouts: Timeouts,
    /// The most messages that wait for one peer.
    pub queue_capacity: usize,
    pub queue_policy: OverflowPolicy,
}

/// The operations of the network service. `now` is the current time in
/// seconds since the epoch.
pub trait NetworkService {
    /// The service as a value.
    spec fn state(&self) -> ServiceState;

    /// What holds of the service between two calls.
    spec fn valid(&self) -> bool;

    /// A valid service has a well-formed value.
    proof fn lemma_valid(&self)
        requires
            self.valid(),
        ensures
            self.state().wf(),
    ;

    /// Calls off every connection that is being made, asks every
    /// established one to close, and admits none until networking is
    /// switched on again.
    fn interrupt(&mut self)
        requires
            old(self).valid(),
        ensures
            final(self).valid(),
            final(self).state() == (ServiceState {
                connections: old(self).state().connections.after_interrupt(),
                ..old(self).state()
            }),
    ;

    /// Whether networking is switched on. While it is, no interrupt lasts,
    /// and connections of every class are let in.
    fn network_active(&self) -> (r: bool)
        requires
            self.valid(),
        ensures
            r == self.state().connections.network_active,
            r ==> !self.state().connections.interrupted,
    ;

    /// Switches networking on or off. Switching it on ends an interrupt.
    fn set_network_active(&mut self, active: bool)
        requires
            old(self).valid(),
        ensures
            final(self).valid(),
            final(self).state() == (ServiceState {
                connections: old(self).state().connections.after_set_active(active),
                ..old(self).state()
            }),
    ;

    /// Asks for an outbound connection to `addr`, of the class that
    /// `one_shot`, `feeler` and `manual_connection` name. An admitted
    /// connection gets a slot in `Dialing` and a nonce that no connection
    /// in the making carries, and the transport may dial. `grant_outbound`
    /// and `str_dest` belong to the transport.
    fn open_network_connection(
        &mut self,
        addr: Address,
        count_failure: bool,
        grant_outbound: Unknown<()>,
        str_dest: Unknown<&str>,
        one_shot: bool,
        feeler: bool,
        manual_connection: bool,
        now: i64,
    ) -> (r: Result<Node, NetError>)
        requires
            old(self).valid(),
        ensures
            final(self).valid(),
            r is Ok ==> old(self).state().connections.gave_slot(
                final(self).state().connections,
                old(self).state().connections.next_slot(
                    addr.inner,
                    requested_class(one_shot, feeler, manual_connection),
                    count_failure,
                    SlotState::Dialing,
                    now,
                ),
            ) && r->Ok_0 == old(self).state().connections.next_slot(
                    addr.inner,
                    requested_class(one_shot, feeler, manual_connection),
                    count_failure,
                    SlotState::Dialing,
                    now,
                ).node,
            (final(self).state(), r) == old(self).state().after_request(
                addr.inner,
                requested_class(one_shot, feeler, manual_connection),
                count_failure,
                SlotState::Dialing,
                now,
            ),
    ;

    /// Whether `nonce` is none of this node's own.
    fn check_incoming_nonce(&self, nonce: u64) -> (r: bool)
        requires
            self.valid(),
        ensures
            r == !self.state().connections.nonce_pending(nonce),
    ;

    /// Hands `msg` over for `node`. The caller never waits.
    fn push_message(&mut self, node: &Node, msg: RawNetMessage) -> (r: PushOutcome)
        requires
            old(self).valid(),
        ensures
            final(self).valid(),
            (final(self).state(), r) == old(self).state().after_push(*node, msg),
    ;

    /// The number of distinct endpoints that the address store knows.
    fn get_address_count(&self) -> (n: usize)
        requires
            self.valid(),
        ensures
            n == self.state().addresses.keys().len(),
    ;

    /// Sets the capabilities advertised for the endpoint of `addr`.
    fn set_services(&mut self, addr: &Service, services: ServiceFlags)
        requires
            old(self).valid(),
        ensures
            final(self).valid(),
            final(self).state() == (ServiceState {
                addresses: old(self).state().addresses.after_services(addr.key(), services),
                ..old(self).state()
            }),
    ;

    /// Records that a connection reached the endpoint of `addr`.
    fn mark_address_good(&mut self, addr: &Address, now: i64)
        requires
            old(self).valid(),
        ensures
            final(self).valid(),
            final(self).state() == (ServiceState {
                addresses: old(self).state().addresses.after_good(addr.inner.key(), now),
                ..old(self).state()
            }),
    ;

    /// Takes note of the addresses `addrs` heard from `addr_from`, each
    /// taken to have been seen `time_penalty` seconds earlier than it says.
    /// An address that cannot be routed or is known already is passed over
    /// in silence.
    fn add_new_addresses(
        &mut self,
        addrs: &[Address],
        addr_from: &Address,
        time_penalty: Unknown<i64>,
        now: i64,
    )
        requires
            old(self).valid(),
        ensures
            final(self).valid(),
            final(self).state() == (ServiceState {
                addresses: old(self).state().addresses.after_add_all(
                    addrs@,
                    addr_from.inner.inner,
                    time_penalty.inner,
                    now,
                ),
                ..old(self).state()
            }),
    ;

    /// A sample of the known addresses in shuffled order, those of
    /// "tried" that were reached lately before the others: address data
    /// only.
    fn get_addresses(&mut self, now: i64) -> (r: Vec<Address>)
        requires
            old(self).valid(),
        ensures
            final(self).valid(),
            r@ == old(self).state().addresses.sample(SAMPLE_MAX as nat, 0, now).0,
            final(self).state() == (ServiceState {
                addresses: old(self).state().addresses.with_stream(
                    old(self).state().addresses.sample(SAMPLE_MAX as nat, 0, now).1,
                ),
                ..old(self).state()
            }),
    ;

    /// Bans `addr` for `reason`. With `since_unix_epoch` the ban ends at
    /// the instant `ban_time_offset`, without it that many seconds from
    /// `now`.
    /// Where the target has an entry already, an operator's ban stays
    /// against any other, and apart from that the ban that ends later.
    fn ban(
        &mut self,
        addr: &BanAddr,
        reason: BanReason,
        ban_time_offset: i64,
        since_unix_epoch: bool,
        now: i64,
    )
        requires
            old(self).valid(),
        ensures
            final(self).valid(),
            final(self).state() == (ServiceState {
                bans: table_after_ban(
                    old(self).state().bans,
                    (BanEntry {
                        target: addr.canonical(),
                        reason,
                        expiry: ban_expiry(ban_time_offset, since_unix_epoch, now),
                    }),
                    now,
                ),
                ..old(self).state()
            }),
    ;
}

/// The network service of one node.
pub struct NetworkServiceImpl {
    addrman: AddrMan,
    banman: BanMan,
    connman: ConnMan,
    relay: RelayTable,
}

impl RelayService for NetworkServiceImpl {

}

impl SyncService for NetworkServiceImpl {

}

impl NetworkServicePrivate for NetworkServiceImpl {

}

impl NetworkService for NetworkServiceImpl {
    closed spec fn state(&self) -> ServiceState {
        ServiceState {
            addresses: self.addrman@,
            bans: self.banman@,
            connections: self.connman@,
            queues: self.relay@,
            queue_capacity: self.relay.capacity(),
            queue_policy: self.relay.policy(),
        }
    }

    closed spec fn valid(&self) -> bool {
        &&& self.addrman.inv()
        &&& self.banman.wf()
        &&& self.connman.inv()
        &&& self.relay.inv()
        &&& self.state().queues_belong()
    }

    proof fn lemma_valid(&self) {
        self.banman.lemma_wf();
    }

    fn interrupt(&mut self) {
        self.connman.interrupt();
    }

    fn network_active(&self) -> (r: bool) {
        self.connman.network_active()
    }

    fn set_network_active(&mut self, active: bool) {
        self.connman.set_network_active(active);
    }

    fn open_network_connection(
        &mut self,
        addr: Address,
        count_failure: bool,
        grant_outbound: Unknown<()>,
        str_dest: Unknown<&str>,
        one_shot: bool,
        feeler: bool,
        manual_connection: bool,
        now: i64,
    ) -> (r: Result<Node, NetError>) {
        let class: ConnClass = class_for(one_shot, feeler, manual_connection);
        let ghost before: ServiceState = self.state();
        let r: Result<Node, NetError> = self.connman.open_connection(
            &mut self.banman,
            &addr.inner,
            class,
            count_failure,
            now,
        );
        proof {
            lemma_first_free_is_free(before.connections.slots);
            lemma_queues_follow(before, self.state());
        }
        r
    }

    fn check_incoming_nonce(&self, nonce: u64) -> (r: bool) {
        self.connman.check_incoming_nonce(nonce)
    }

    fn push_message(&mut self, node: &Node, msg: RawNetMessage) -> (r: PushOutcome) {
        if node.id >= self.connman.slot_count() as u64 {
            return PushOutcome::NotEstablished;
        }
        match self.connman.slot(node) {
            Some(p) => {
                if p.state == SlotState::Established {
                    let ghost before: ServiceState = self.state();
                    let r: PushOutcome = self.relay.push(node.id as usize, msg);
                    proof {
                        lemma_queues_follow(before, self.state());
                    }
                    r
                } else {
                    PushOutcome::NotEstablished
                }
            },
            None => PushOutcome::NotEstablished,
        }
    }

    fn get_address_count(&self) -> (n: usize) {
        self.addrman.get_address_count()
    }

    fn set_services(&mut self, addr: &Service, services: ServiceFlags) {
        self.addrman.set_services(addr, services);
    }

    fn mark_address_good(&mut self, addr: &Address, now: i64) {
        self.addrman.mark_address_good(addr, now);
    }

    fn add_new_addresses(
        &mut self,
        addrs: &[Address],
        addr_from: &Address,
        time_penalty: Unknown<i64>,
        now: i64,
    ) {
        self.addrman.add_new_addresses(addrs, addr_from, time_penalty, now);
    }

    fn get_addresses(&mut self, now: i64) -> (r: Vec<Address>) {
        self.addrman.get_addresses(now)
    }

    fn ban(
        &mut self,
        addr: &BanAddr,
        reason: BanReason,
        ban_time_offset: i64,
        since_unix_epoch: bool,
        now: i64,
    ) {
        self.banman.ban(addr, reason, ban_time_offset, since_unix_epoch, now);
    }
}

impl NetworkServiceImpl {
    /// A service that knows no address, bans nobody and has no connection,
    /// with networking switched on.
    pub fn new(config: ServiceConfig) -> (r: Self)
        ensures
            r.valid(),
            r.state().addresses.salt == config.salt,
            r.state().addresses.stream == config.address_seed,
            r.state().addresses.keys() == Set::<crate::addrman::AddrKey>::empty(),
            r.state().bans == Map::<BanAddr, BanEntry>::empty(),
            r.state().connections == (ConnTable {
                slots: Seq::<Option<PeerSlot>>::empty(),
                limits: config.limits,
                timeouts: config.timeouts,
                network_active: true,
                interrupted: false,
                stream: config.nonce_seed,
            }),
            r.state().queues == Map::<int, Seq<RawNetMessage>>::total(
                |id: int| Seq::<RawNetMessage>::empty(),
            ),
            r.state().queue_capacity == config.queue_capacity,
            r.state().queue_policy == config.queue_policy,
    {
        NetworkServiceImpl {
            addrman: AddrMan::new(config.salt, config.address_seed),
            banman: BanMan::new(),
            connman: ConnMan::new(config.limits, config.timeouts, config.nonce_seed),
            relay: RelayTable::new(config.queue_capacity, config.queue_policy),
        }
    }

    /// The address store, to read.
    pub fn address_store(&self) -> (r: &AddrMan)
        requires
            self.valid(),
        ensures
            r.inv(),
            r@ == self.state().addresses,
    {
        &self.addrman
    }

    /// The ban table, to read.
    pub fn ban_table(&self) -> (r: &BanMan)
        requires
            self.valid(),
        ensures
            r.wf(),
            r@ == self.state().bans,
    {
        &self.banman
    }

    /// The connection scheduler, to read.
    pub fn scheduler(&self) -> (r: &ConnMan)
        requires
            self.valid(),
        ensures
            r.inv(),
            r@ == self.state().connections,
    {
        &self.connman
    }

    /// The number of messages that wait for `node`.
    pub fn pending_messages(&self, node: &Node) -> (n: usize)
        requires
            self.valid(),
        ensures
            n == self.state().queues[node.id as int].len(),
    {
        if node.id >= self.connman.slot_count() as u64 {
            assert(self.state().queues[node.id as int].len() == 0);
            return 0;
        }
        self.relay.pending(node.id as usize)
    }

    /// Asks for a slot for a connection that `service` has opened. An
    /// admitted connection starts in `Handshaking`.
    pub fn accept_inbound(&mut self, service: &Service, now: i64) -> (r: Result<Node, NetError>)
        requires
            old(self).valid(),
        ensures
            final(self).valid(),
            r is Ok ==> old(self).state().connections.gave_slot(
                final(self).state().connections,
                old(self).state().connections.next_slot(
                    *service,
                    ConnClass::Inbound,
                    false,
                    SlotState::Handshaking,
                    now,
                ),
            ) && r->Ok_0 == old(self).state().connections.next_slot(
                    *service,
                    ConnClass::Inbound,
                    false,
                    SlotState::Handshaking,
                    now,
                ).node,
            (final(self).state(), r) == old(self).state().after_request(
                *service,
                ConnClass::Inbound,
                false,
                SlotState::Handshaking,
                now,
            ),
    {
        let ghost before: ServiceState = self.state();
        let r: Result<Node, NetError> = self.connman.accept_inbound(&mut self.banman, service, now);
        proof {
            lemma_first_free_is_free(before.connections.slots);
            lemma_queues_follow(before, self.state());
        }
        r
    }

    /// Asks for an outbound connection of `class` to `service`.
    pub fn open_connection(
        &mut self,
        service: &Service,
        class: ConnClass,
        count_failure: bool,
        now: i64,
    ) -> (r: Result<Node, NetError>)
        requires
            old(self).valid(),
        ensures
            final(self).valid(),
            r is Ok ==> old(self).state().connections.gave_slot(
                final(self).state().connections,
                old(self).state().connections.next_slot(
                    *service,
                    class,
                    count_failure,
                    SlotState::Dialing,
                    now,
                ),
            ) && r->Ok_0 == old(self).state().connections.next_slot(
                    *service,
                    class,
                    count_failure,
                    SlotState::Dialing,
                    now,
                ).node,
            (final(self).state(), r) == old(self).state().after_request(
                *service,
                class,
                count_failure,
                SlotState::Dialing,
                now,
            ),
    {
        let ghost before: ServiceState = self.state();
        let r: Result<Node, NetError> = self.connman.open_connection(
            &mut self.banman,
            service,
            class,
            count_failure,
            now,
        );
        proof {
            lemma_first_free_is_free(before.connections.slots);
            lemma_queues_follow(before, self.state());
        }
        r
    }

    fn signal(&mut self, node: &Node, event: SlotEvent, now: i64) -> (applied: bool)
        requires
            old(self).valid(),
        ensures
            final(self).valid(),
            applied == old(self).state().connections.after_event(*node, event, now).1,
            final(self).state() == (ServiceState {
                connections: old(self).state().connections.after_event(*node, event, now).0,
                ..old(self).state()
            }),
    {
        let ghost before: ServiceState = self.state();
        let applied: bool = self.connman.apply(node, event, now);
        proof {
            lemma_queues_follow(before, self.state());
        }
        applied
    }

    /// The transport reached the peer of `node` at `now`: its handshake
    /// begins. Says whether the slot was dialing.
    pub fn connection_established(&mut self, node: &Node, now: i64) -> (applied: bool)
        requires
            old(self).valid(),
        ensures
            final(self).valid(),
            applied == old(self).state().connections.after_event(
                *node,
                SlotEvent::Connected,
                now,
            ).1,
            final(self).state() == (ServiceState {
                connections: old(self).state().connections.after_event(
                    *node,
                    SlotEvent::Connected,
                    now,
                ).0,
                ..old(self).state()
            }),
    {
        self.signal(node, SlotEvent::Connected, now)
    }

    /// Asks the established connection `node` to close. Says whether it
    /// was established.
    pub fn disconnect(&mut self, node: &Node, now: i64) -> (applied: bool)
        requires
            old(self).valid(),
        ensures
            final(self).valid(),
            applied == old(self).state().connections.after_event(
                *node,
                SlotEvent::CloseRequested,
                now,
            ).1,
            final(self).state() == (ServiceState {
                connections: old(self).state().connections.after_event(
                    *node,
                    SlotEvent::CloseRequested,
                    now,
                ).0,
                ..old(self).state()
            }),
    {
        self.signal(node, SlotEvent::CloseRequested, now)
    }

    /// The transport has let go of the closing connection `node`. Says
    /// whether it was closing.
    pub fn connection_closed(&mut self, node: &Node, now: i64) -> (applied: bool)
        requires
            old(self).valid(),
        ensures
            final(self).valid(),
            applied == old(self).state().connections.after_event(
                *node,
                SlotEvent::Released,
                now,
            ).1,
            final(self).state() == (ServiceState {
                connections: old(self).state().connections.after_event(
                    *node,
                    SlotEvent::Released,
                    now,
                ).0,
                ..old(self).state()
            }),
    {
        self.signal(node, SlotEvent::Released, now)
    }

    /// Dialing `node` or its handshake failed for `reason`. The slot is
    /// closed and the failure accounted for; the answer is the failure, or
    /// nothing where no connection was being made.
    pub fn connection_failed(&mut self, node: &Node, reason: HandshakeFailure, now: i64) -> (r:
        Option<NetError>)
        requires
            old(self).valid(),
        ensures
            final(self).valid(),
            final(self).state() == old(self).state().after_failed(*node, now).0,
            r == (if old(self).state().after_failed(*node, now).1 {
                Some(NetError::HandshakeFailed(reason))
            } else {
                None
            }),
    {
        let slot: Option<PeerSlot> = self.connman.slot(node);
        let applied: bool = self.signal(node, SlotEvent::Failed, now);
        match slot {
            Some(p) => {
                if applied && p.count_failure {
                    self.addrman.mark_attempt_failed(&p.service);
                }
            },
            None => {},
        }
        if applied {
            Some(NetError::HandshakeFailed(reason))
        } else {
            None
        }
    }

    /// Closes every connection whose dialing or handshake is overdue at
    /// `now`, counts each failure where its slot asks for that, and names
    /// the connections closed, so that the transport lets go of them.
    pub fn time_out(&mut self, now: i64) -> (r: Vec<Node>)
        requires
            old(self).valid(),
        ensures
            final(self).valid(),
            (final(self).state(), r@) == old(self).state().after_timeouts(now),
    {
        let ghost before: ServiceState = self.state();
        let late: Vec<PeerSlot> = self.connman.expire(now);
        proof {
            lemma_queues_follow(before, self.state());
        }
        let mut nodes: Vec<Node> = Vec::new();
        let mut i: usize = 0;
        while i < late.len()
            invariant
                i <= late@.len(),
                self.valid(),
                self.state() == (ServiceState {
                    addresses: failures_counted(before.addresses, late@.take(i as int)),
                    connections: before.connections.after_expiry(now),
                    ..before
                }),
                nodes@ == late@.take(i as int).map_values(|p: PeerSlot| p.node),
            decreases late@.len() - i,
        {
            proof {
                assert(late@.take(i + 1).drop_last() == late@.take(i as int));
            }
            let p: PeerSlot = late[i];
            let ghost mid: ServiceState = self.state();
            if p.count_failure {
                self.addrman.mark_attempt_failed(&p.service);
            }
            proof {
                lemma_queues_follow(mid, self.state());
            }
            nodes.push(p.node);
            proof {
                assert(nodes@ =~= late@.take(i + 1).map_values(|p: PeerSlot| p.node));
            }
            i += 1;
        }
        assert(late@.take(late@.len() as int) == late@);
        nodes
    }

    /// Ends the handshake of `node`, in which the peer sent `peer_nonce`.
    /// A nonce of this node's own, or a ban on the peer, closes the slot;
    /// otherwise the connection is established.
    pub fn handshake_completed(&mut self, node: &Node, peer_nonce: u64, now: i64) -> (r: Result<
        (),
        NetError,
    >)
        requires
            old(self).valid(),
        ensures
            final(self).valid(),
            (final(self).state(), r) == old(self).state().after_handshake(*node, peer_nonce, now),
    {
        let ghost before: ServiceState = self.state();
        let slot: Option<PeerSlot> = self.connman.slot(node);
        let r: Result<(), NetError> = self.connman.finish_handshake(
            &mut self.banman,
            node,
            peer_nonce,
            now,
        );
        proof {
            lemma_queues_follow(before, self.state());
        }
        match (slot, self.connman.slot(node)) {
            (Some(p), Some(q)) => {
                let was_in_making: bool = p.state == SlotState::Dialing || p.state
                    == SlotState::Handshaking;
                if was_in_making && q.state == SlotState::Closed && p.count_failure {
                    self.addrman.mark_attempt_failed(&p.service);
                }
            },
            _ => {},
        }
        r
    }

    /// Takes the oldest message that waits for `node`.
    pub fn pop_message(&mut self, node: &Node) -> (r: Option<RawNetMessage>)
        requires
            old(self).valid(),
        ensures
            final(self).valid(),
            match r {
                Some(msg) => old(self).state().queues[node.id as int].len() > 0 && msg == old(
                    self,
                ).state().queues[node.id as int][0] && final(self).state() == (ServiceState {
                    queues: old(self).state().queues.insert(
                        node.id as int,
                        old(self).state().queues[node.id as int].skip(1),
                    ),
                    ..old(self).state()
                }),
                None => old(self).state().queues[node.id as int].len() == 0 && final(self).state()
                    == old(self).state(),
            },
    {
        if node.id >= self.connman.slot_count() as u64 {
            assert(self.state().queues[node.id as int].len() == 0);
            return None;
        }
        let ghost before: ServiceState = self.state();
        let r: Option<RawNetMessage> = self.relay.pop(node.id as usize);
        proof {
            lemma_queues_follow(before, self.state());
        }
        r
    }

    /// Whether a ban that holds at `now` applies to `addr`.
    pub fn is_banned(&mut self, addr: &NetAddr, now: i64) -> (banned: bool)
        requires
            old(self).valid(),
        ensures
            final(self).valid(),
            banned == banned_at(old(self).state().bans, *addr, now),
            final(self).state() == (ServiceState {
                bans: old(self).state().bans_after_lookup(*addr, now),
                ..old(self).state()
            }),
    {
        self.banman.is_banned(addr, now)
    }

    /// Bans `addr` for `reason` for the default duration, one day from
    /// `now`.
    pub fn ban_for_default(&mut self, addr: &BanAddr, reason: BanReason, now: i64)
        requires
            old(self).valid(),
        ensures
            final(self).valid(),
            final(self).state() == (ServiceState {
                bans: table_after_ban(
                    old(self).state().bans,
                    (BanEntry {
                        target: addr.canonical(),
                        reason,
                        expiry: ban_expiry(DEFAULT_BAN_SECS, false, now),
                    }),
                    now,
                ),
                ..old(self).state()
            }),
    {
        self.banman.ban_for_default(addr, reason, now);
    }

    /// Lifts the ban on `target`. Says whether there was one.
    pub fn unban(&mut self, target: &BanAddr) -> (found: bool)
        requires
            old(self).valid(),
        ensures
            final(self).valid(),
            found == old(self).state().bans.contains_key(target.canonical()),
            final(self).state() == (ServiceState {
                bans: old(self).state().bans.remove(target.canonical()),
                ..old(self).state()
            }),
    {
        self.banman.unban(target)
    }

    /// A sample of at most `max` known addresses with every capability of
    /// `required`.
    pub fn get_addresses_filtered(&mut self, max: usize, required: ServiceFlags, now: i64) -> (r:
        Vec<Address>)
        requires
            old(self).valid(),
        ensures
            final(self).valid(),
            r@ == old(self).state().addresses.sample(
                (if max < SAMPLE_MAX {
                    max
                } else {
                    SAMPLE_MAX
                }) as nat,
                required.bits,
                now,
            ).0,
            final(self).state() == (ServiceState {
                addresses: old(self).state().addresses.with_stream(
                    old(self).state().addresses.sample(
                        (if max < SAMPLE_MAX {
                            max
                        } else {
                            SAMPLE_MAX
                        }) as nat,
                        required.bits,
                        now,
                    ).1,
                ),
                ..old(self).state()
            }),
    {
        self.addrman.get_addresses_filtered(max, required, now)
    }

    /// The periodic pass: drops the bans that have run out at `now`, frees
    /// the slots of closed connections, and drops what still waited for
    /// them.
    pub fn upkeep(&mut self, now: i64)
        requires
            old(self).valid(),
        ensures
            final(self).valid(),
            final(self).state() == old(self).state().after_upkeep(now),
    {
        let ghost before: ServiceState = self.state();
        self.banman.sweep(now);
        let n: usize = self.connman.slot_count();
        let mut i: usize = 0;
        assert forall|id: int| #[trigger] self.state().queues.contains_key(id) by {
            assert(self.state().queues[id].len() <= self.state().queue_capacity);
        }
        assert(self.state().queues =~= Map::<int, Seq<RawNetMessage>>::total(
            |id: int|
                if id < 0 && before.closed_at(id) {
                    Seq::empty()
                } else {
                    before.queues[id]
                },
        ));
        while i < n
            invariant
                i <= n,
                n == before.connections.slots.len(),
                self.addrman.inv(),
                self.banman.wf(),
                self.connman.inv(),
                self.relay.inv(),
                self.state().addresses == before.addresses,
                self.state().bans == before.bans.remove_keys(expired_targets(before.bans, now)),
                self.state().connections == before.connections,
                self.state().queue_capacity == before.queue_capacity,
                self.state().queue_policy == before.queue_policy,
                self.state().queues == Map::<int, Seq<RawNetMessage>>::total(
                    |id: int|
                        if id < i && before.closed_at(id) {
                            Seq::empty()
                        } else {
                            before.queues[id]
                        },
                ),
            decreases n - i,
        {
            match self.connman.slot(&Node { id: i as u64 }) {
                Some(p) => {
                    if p.state == SlotState::Closed {
                        self.relay.clear(i);
                    }
                },
                None => {},
            }
            i += 1;
            assert(self.state().queues =~= Map::<int, Seq<RawNetMessage>>::total(
                |id: int|
                    if id < i && before.closed_at(id) {
                        Seq::empty()
                    } else {
                        before.queues[id]
                    },
            ));
        }
        self.connman.reap();
        proof {
            let after: ServiceState = self.state();
            assert(after.queues =~= before.after_upkeep(now).queues);
            lemma_queues_follow(before, after);
        }
    }

    /// The bans in the order in which they are stored.
    pub closed spec fn ban_listing(&self) -> Seq<BanEntry> {
        self.banman.listing()
    }

    /// Loading the stored bans gives back the ban table, less the bans
    /// that have run out.
    pub proof fn lemma_stored_bans_reload(&self, now: i64)
        requires
            self.valid(),
        ensures
            table_loaded(self.ban_listing(), now) == self.state().bans.remove_keys(
                expired_targets(self.state().bans, now),
            ),
    {
        self.banman.lemma_snapshot_reloads(now);
    }

    /// The stored form of the ban table, with what it carries along.
    pub fn export_bans(&self, extra: &Carried) -> (r: Result<Vec<u8>, NetError>)
        requires
            self.valid(),
        ensures
            match r {
                Ok(bytes) => extra.version > 0 && self.ban_listing().len() <= u32::MAX && bytes@
                    == file_bytes(BAN_MAGIC, extra.version, self.ban_listing(), extra.trailer@),
                Err(e) => e == NetError::PersistenceError && (extra.version == 0
                    || self.ban_listing().len() > u32::MAX),
            },
    {
        encode_bans(&self.banman, extra)
    }

    /// Replaces the ban table by the one that `bytes` are the stored form
    /// of, less the bans that have run out at `now`. Hands back what the
    /// stored table carried along. Malformed bytes change nothing.
    pub fn import_bans(&mut self, bytes: &Vec<u8>, now: i64) -> (r: Result<Carried, NetError>)
        requires
            old(self).valid(),
        ensures
            final(self).valid(),
            match (r, file_parsed::<BanEntry>(BAN_MAGIC, bytes@)) {
                (Ok(extra), Some(parsed)) => extra.version == parsed.0 && extra.trailer@ == parsed.2
                    && final(self).state() == (ServiceState {
                    bans: table_loaded(parsed.1, now),
                    ..old(self).state()
                }),
                (Err(e), None) => e == NetError::PersistenceError && final(self).state() == old(
                    self,
                ).state(),
                _ => false,
            },
    {
        match crate::codec::decode_bans(bytes, now) {
            Ok((bans, extra)) => {
                self.banman = bans;
                Ok(extra)
            },
            Err(e) => Err(e),
        }
    }

    /// The stored form of the address store, with what it carries along.
    pub fn export_addresses(&self, extra: &Carried) -> (r: Result<Vec<u8>, NetError>)
        requires
            self.valid(),
        ensures
            match r {
                Ok(bytes) => extra.version > 0 && bytes@ == file_bytes(
                    ADDR_MAGIC,
                    extra.version,
                    self.state().addresses.snapshot(),
                    extra.trailer@,
                ),
                Err(e) => e == NetError::PersistenceError && extra.version == 0,
            },
    {
        encode_addresses(&self.addrman, extra)
    }

    /// Replaces what the address store holds by the records that `bytes`
    /// are the stored form of. Salt and stream stay. Hands back what the
    /// stored table carried along. Malformed bytes change nothing.
    pub fn import_addresses(&mut self, bytes: &Vec<u8>) -> (r: Result<Carried, NetError>)
        requires
            old(self).valid(),
        ensures
            final(self).valid(),
            match (r, file_parsed::<StoredAddress>(ADDR_MAGIC, bytes@)) {
                (Ok(extra), Some(parsed)) => extra.version == parsed.0 && extra.trailer@
                    == parsed.2 && final(self).state() == (ServiceState {
                    addresses: blank(
                        old(self).state().addresses.salt,
                        old(self).state().addresses.stream,
                    ).after_restore_all(parsed.1),
                    ..old(self).state()
                }),
                (Err(e), None) => e == NetError::PersistenceError && final(self).state() == old(
                    self,
                ).state(),
                _ => false,
            },
    {
        match decode_file::<StoredAddress>(ADDR_MAGIC, bytes) {
            Ok(stored) => {
                self.addrman.reload(&stored.items);
                Ok(Carried { version: stored.version, trailer: stored.trailer })
            },
            Err(e) => Err(e),
        }
    }
}

} // verus!
