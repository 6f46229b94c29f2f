use peer_network::addrman::Table;
use peer_network::connman::{ConnClass, ConnLimits, SlotState, Timeouts};
use peer_network::endpoint::{Address, Service, ServiceFlags, NODE_NETWORK, NODE_WITNESS};
use peer_network::error::{HandshakeFailure, NetError, RejectReason};
use peer_network::netaddr::{BanAddr, BanReason, NetAddr, Node, RawNetMessage, SubNet, Unknown};
use peer_network::relay::{OverflowPolicy, PushOutcome, RelayTable};
use peer_network::service::{NetworkService, NetworkServiceImpl, ServiceConfig};

const NOW: i64 = 1_700_000_000;

fn v4(a: u8, b: u8, c: u8, d: u8) -> NetAddr {
    NetAddr::from_ipv4(a, b, c, d)
}

fn addr(d: u8) -> Address {
    Address::new(Service::new(v4(8, 8, 8, d), 8333, ServiceFlags::from_bits(NODE_NETWORK)), NOW)
}

fn msg(bytes: &[u8]) -> RawNetMessage {
    RawNetMessage { payload: bytes.to_vec() }
}

fn config(policy: OverflowPolicy) -> ServiceConfig {
    ServiceConfig {
        salt: 1,
        address_seed: 2,
        nonce_seed: 3,
        limits: ConnLimits { full_relay: 2, block_relay_only: 1, manual: 2, inbound: 2 },
        timeouts: Timeouts { dial_secs: 5, handshake_secs: 60 },
        queue_capacity: 3,
        queue_policy: policy,
    }
}

fn service() -> NetworkServiceImpl {
    NetworkServiceImpl::new(config(OverflowPolicy::DropOldest))
}

fn open(s: &mut NetworkServiceImpl, a: Address, manual: bool, now: i64) -> Result<Node, NetError> {
    s.open_network_connection(a, true, Unknown::new(()), Unknown::new(""), false, false, manual, now)
}

fn establish(s: &mut NetworkServiceImpl, a: Address) -> Node {
    let node = open(s, a, false, NOW).unwrap();
    assert!(s.connection_established(&node, NOW));
    assert_eq!(s.handshake_completed(&node, 7, NOW), Ok(()));
    node
}

#[test]
fn new_service_is_empty_and_active() {
    let mut s = service();
    assert!(s.network_active());
    assert_eq!(s.get_address_count(), 0);
    assert!(s.get_addresses(NOW).is_empty());
    assert_eq!(s.ban_table().len(), 0);
    assert_eq!(s.scheduler().slot_count(), 0);
    assert_eq!(s.pending_messages(&Node { id: 0 }), 0);
    assert!(s.check_incoming_nonce(0));
}

#[test]
fn good_address_comes_back_from_a_sample_as_plain_data() {
    let mut s = service();
    let a = addr(1);
    s.add_new_addresses(&[a], &addr(200), Unknown::new(0), NOW);
    assert_eq!(s.get_address_count(), 1);
    assert_eq!(s.address_store().lookup(&a.inner).unwrap().0, Table::New);
    s.mark_address_good(&a, NOW + 5);
    assert_eq!(s.address_store().lookup(&a.inner).unwrap().0, Table::Tried);
    assert_eq!(s.get_address_count(), 1);
    let got: Vec<Address> = s.get_addresses(NOW + 6);
    assert_eq!(got, vec![Address::new(a.inner, NOW + 5)]);
}

#[test]
fn manual_ban_rejects_a_connection_within_the_hour() {
    let mut s = service();
    let a = addr(1);
    s.ban(&BanAddr::Net(a.inner.inner), BanReason::BanReasonManuallyAdded, 3_600, true, 0);
    assert_eq!(
        open(&mut s, a, false, 1_800),
        Err(NetError::AdmissionRejected(RejectReason::Banned))
    );
    assert_eq!(
        open(&mut s, a, true, 3_599),
        Err(NetError::AdmissionRejected(RejectReason::Banned))
    );
    assert_eq!(s.scheduler().slot_count(), 0);
    assert!(open(&mut s, a, false, 3_600).is_ok());
}

#[test]
fn full_relay_limit_rejects_but_manual_is_admitted() {
    let mut s = service();
    assert!(open(&mut s, addr(1), false, NOW).is_ok());
    assert!(open(&mut s, addr(2), false, NOW).is_ok());
    assert_eq!(
        open(&mut s, addr(3), false, NOW),
        Err(NetError::AdmissionRejected(RejectReason::SlotLimit))
    );
    let manual = open(&mut s, addr(3), true, NOW).unwrap();
    let slot = s.scheduler().slot(&manual).unwrap();
    assert_eq!(slot.class, ConnClass::Manual);
    assert_eq!(slot.state, SlotState::Dialing);
    assert_eq!(s.scheduler().live_connections(ConnClass::FullRelay), 2);
}

#[test]
fn one_shot_and_feeler_requests_get_their_class() {
    let mut s = service();
    let one = s
        .open_network_connection(addr(1), false, Unknown::new(()), Unknown::new("seed.example"), true, false, false, NOW)
        .unwrap();
    let feeler = s
        .open_network_connection(addr(2), false, Unknown::new(()), Unknown::new(""), false, true, false, NOW)
        .unwrap();
    assert_eq!(s.scheduler().slot(&one).unwrap().class, ConnClass::OneShot);
    assert_eq!(s.scheduler().slot(&feeler).unwrap().class, ConnClass::Feeler);
    assert!(!s.scheduler().slot(&one).unwrap().count_failure);
    let block = s.open_connection(&addr(3).inner, ConnClass::BlockRelayOnly, true, NOW).unwrap();
    assert_eq!(s.scheduler().slot(&block).unwrap().class, ConnClass::BlockRelayOnly);
    assert_eq!(
        s.open_connection(&addr(4).inner, ConnClass::BlockRelayOnly, true, NOW),
        Err(NetError::AdmissionRejected(RejectReason::SlotLimit))
    );
}

#[test]
fn echoed_nonce_is_a_self_connection_and_counts_as_failure() {
    let mut s = service();
    let a = addr(1);
    s.add_new_addresses(&[a], &addr(200), Unknown::new(0), NOW);
    let node = open(&mut s, a, false, NOW).unwrap();
    let nonce = s.scheduler().slot(&node).unwrap().nonce;
    assert!(!s.check_incoming_nonce(nonce));
    assert!(s.connection_established(&node, NOW));
    assert_eq!(
        s.handshake_completed(&node, nonce, NOW),
        Err(NetError::HandshakeFailed(HandshakeFailure::SelfConnection))
    );
    assert_eq!(s.scheduler().slot(&node).unwrap().state, SlotState::Closed);
    assert_eq!(s.address_store().lookup(&a.inner).unwrap().1.failures, 1);
    assert!(s.check_incoming_nonce(nonce));
}

#[test]
fn failure_counts_against_the_address_only_when_asked() {
    let mut s = service();
    let a = addr(1);
    let b = addr(2);
    s.add_new_addresses(&[a, b], &addr(200), Unknown::new(0), NOW);
    let counted = open(&mut s, a, false, NOW).unwrap();
    let uncounted = s
        .open_network_connection(b, false, Unknown::new(()), Unknown::new(""), false, false, false, NOW)
        .unwrap();
    assert_eq!(
        s.connection_failed(&counted, HandshakeFailure::Timeout, NOW),
        Some(NetError::HandshakeFailed(HandshakeFailure::Timeout))
    );
    assert_eq!(
        s.connection_failed(&uncounted, HandshakeFailure::ProtocolViolation, NOW),
        Some(NetError::HandshakeFailed(HandshakeFailure::ProtocolViolation))
    );
    assert_eq!(s.connection_failed(&counted, HandshakeFailure::Timeout, NOW), None);
    assert_eq!(s.connection_failed(&Node { id: 55 }, HandshakeFailure::Cancelled, NOW), None);
    assert_eq!(s.address_store().lookup(&a.inner).unwrap().1.failures, 1);
    assert_eq!(s.address_store().lookup(&b.inner).unwrap().1.failures, 0);
    assert_eq!(s.scheduler().slot(&counted).unwrap().state, SlotState::Closed);
}

#[test]
fn handshake_on_a_slot_that_has_none_changes_nothing() {
    let mut s = service();
    let a = addr(1);
    s.add_new_addresses(&[a], &addr(200), Unknown::new(0), NOW);
    let node = open(&mut s, a, false, NOW).unwrap();
    assert_eq!(
        s.handshake_completed(&node, 1, NOW),
        Err(NetError::HandshakeFailed(HandshakeFailure::NotHandshaking))
    );
    assert_eq!(s.scheduler().slot(&node).unwrap().state, SlotState::Dialing);
    assert_eq!(s.address_store().lookup(&a.inner).unwrap().1.failures, 0);
}

#[test]
fn ban_during_handshake_closes_and_counts() {
    let mut s = service();
    let a = addr(1);
    s.add_new_addresses(&[a], &addr(200), Unknown::new(0), NOW);
    let node = open(&mut s, a, false, NOW).unwrap();
    assert!(s.connection_established(&node, NOW));
    s.ban_for_default(&BanAddr::Sub(SubNet::new(v4(8, 8, 8, 0), 120)), BanReason::BanReasonNodeMisbehaving, NOW);
    assert_eq!(
        s.handshake_completed(&node, 9, NOW + 1),
        Err(NetError::HandshakeFailed(HandshakeFailure::Banned))
    );
    assert_eq!(s.address_store().lookup(&a.inner).unwrap().1.failures, 1);
}

#[test]
fn messages_leave_in_the_order_they_came() {
    let mut s = service();
    let node = establish(&mut s, addr(1));
    assert_eq!(s.push_message(&node, msg(b"one")), PushOutcome::Queued);
    assert_eq!(s.push_message(&node, msg(b"two")), PushOutcome::Queued);
    assert_eq!(s.push_message(&node, msg(b"three")), PushOutcome::Queued);
    assert_eq!(s.pending_messages(&node), 3);
    assert_eq!(s.pop_message(&node).unwrap().payload, b"one".to_vec());
    assert_eq!(s.pop_message(&node).unwrap().payload, b"two".to_vec());
    assert_eq!(s.push_message(&node, msg(b"four")), PushOutcome::Queued);
    assert_eq!(s.pop_message(&node).unwrap().payload, b"three".to_vec());
    assert_eq!(s.pop_message(&node).unwrap().payload, b"four".to_vec());
    assert!(s.pop_message(&node).is_none());
    assert_eq!(s.pending_messages(&node), 0);
}

#[test]
fn queues_of_two_peers_do_not_mix() {
    let mut s = service();
    let a = establish(&mut s, addr(1));
    let b = establish(&mut s, addr(2));
    assert_eq!(s.push_message(&b, msg(b"for b")), PushOutcome::Queued);
    assert_eq!(s.push_message(&a, msg(b"for a")), PushOutcome::Queued);
    assert_eq!(s.pending_messages(&a), 1);
    assert_eq!(s.pop_message(&a).unwrap().payload, b"for a".to_vec());
    assert!(s.pop_message(&a).is_none());
    assert_eq!(s.pop_message(&b).unwrap().payload, b"for b".to_vec());
}

#[test]
fn full_queue_drops_its_oldest_message() {
    let mut s = service();
    let node = establish(&mut s, addr(1));
    for m in [b"1", b"2", b"3"] {
        assert_eq!(s.push_message(&node, msg(m)), PushOutcome::Queued);
    }
    assert_eq!(s.push_message(&node, msg(b"4")), PushOutcome::QueuedAfterDrop);
    assert_eq!(s.pending_messages(&node), 3);
    assert_eq!(s.pop_message(&node).unwrap().payload, b"2".to_vec());
    assert_eq!(s.pop_message(&node).unwrap().payload, b"3".to_vec());
    assert_eq!(s.pop_message(&node).unwrap().payload, b"4".to_vec());
}

#[test]
fn full_queue_refuses_under_the_reject_policy() {
    let mut s = NetworkServiceImpl::new(config(OverflowPolicy::Reject));
    let node = establish(&mut s, addr(1));
    for m in [b"1", b"2", b"3"] {
        assert_eq!(s.push_message(&node, msg(m)), PushOutcome::Queued);
    }
    assert_eq!(s.push_message(&node, msg(b"4")), PushOutcome::Rejected);
    assert_eq!(s.pending_messages(&node), 3);
    assert_eq!(s.pop_message(&node).unwrap().payload, b"1".to_vec());
    assert_eq!(s.push_message(&node, msg(b"5")), PushOutcome::Queued);
}

#[test]
fn queue_without_room_takes_nothing() {
    let mut drop = RelayTable::new(0, OverflowPolicy::DropOldest);
    assert_eq!(drop.push(4, msg(b"x")), PushOutcome::Rejected);
    assert_eq!(drop.pending(4), 0);
    let mut reject = RelayTable::new(0, OverflowPolicy::Reject);
    assert_eq!(reject.push(0, msg(b"x")), PushOutcome::Rejected);
    assert!(reject.pop(0).is_none());
    assert!(reject.pop(100).is_none());
}

#[test]
fn relay_table_alone() {
    let mut t = RelayTable::new(2, OverflowPolicy::DropOldest);
    assert_eq!(t.pending(7), 0);
    assert_eq!(t.push(7, msg(b"a")), PushOutcome::Queued);
    assert_eq!(t.push(7, msg(b"b")), PushOutcome::Queued);
    assert_eq!(t.push(7, msg(b"c")), PushOutcome::QueuedAfterDrop);
    assert_eq!(t.pending(7), 2);
    assert_eq!(t.pending(6), 0);
    t.clear(7);
    assert_eq!(t.pending(7), 0);
    t.clear(1_000);
    assert!(t.pop(7).is_none());
    assert_eq!(t.push(0, msg(b"z")), PushOutcome::Queued);
    assert_eq!(t.pop(0).unwrap().payload, b"z".to_vec());
}

#[test]
fn only_an_established_peer_gets_messages() {
    let mut s = service();
    assert_eq!(s.push_message(&Node { id: 0 }, msg(b"x")), PushOutcome::NotEstablished);
    let node = open(&mut s, addr(1), false, NOW).unwrap();
    assert_eq!(s.push_message(&node, msg(b"x")), PushOutcome::NotEstablished);
    assert!(s.connection_established(&node, NOW));
    assert_eq!(s.push_message(&node, msg(b"x")), PushOutcome::NotEstablished);
    assert_eq!(s.handshake_completed(&node, 7, NOW), Ok(()));
    assert_eq!(s.push_message(&node, msg(b"x")), PushOutcome::Queued);
    assert!(s.disconnect(&node, NOW));
    assert_eq!(s.push_message(&node, msg(b"y")), PushOutcome::NotEstablished);
    assert_eq!(s.pending_messages(&node), 1);
    assert_eq!(s.push_message(&Node { id: u64::MAX }, msg(b"x")), PushOutcome::NotEstablished);
}

#[test]
fn upkeep_frees_closed_slots_and_their_queues() {
    let mut s = service();
    let gone = establish(&mut s, addr(1));
    let kept = establish(&mut s, addr(2));
    assert_eq!(s.push_message(&gone, msg(b"late")), PushOutcome::Queued);
    assert_eq!(s.push_message(&kept, msg(b"stay")), PushOutcome::Queued);
    s.ban(&BanAddr::Net(v4(5, 5, 5, 5)), BanReason::BanReasonNodeMisbehaving, 10, false, NOW);
    s.ban(&BanAddr::Net(v4(6, 6, 6, 6)), BanReason::BanReasonNodeMisbehaving, 1_000, false, NOW);
    assert!(s.disconnect(&gone, NOW));
    s.upkeep(NOW + 5);
    assert_eq!(s.scheduler().slot(&gone).unwrap().state, SlotState::Closing);
    assert_eq!(s.pending_messages(&gone), 1);
    assert_eq!(s.ban_table().len(), 2);
    assert!(s.connection_closed(&gone, NOW));
    assert!(!s.connection_closed(&gone, NOW));
    s.upkeep(NOW + 10);
    assert_eq!(s.scheduler().slot(&gone), None);
    assert_eq!(s.pending_messages(&gone), 0);
    assert_eq!(s.pending_messages(&kept), 1);
    assert_eq!(s.ban_table().len(), 1);
    let again = establish(&mut s, addr(3));
    assert_eq!(again, gone);
    assert!(s.pop_message(&again).is_none());
}

#[test]
fn interrupt_closes_what_is_in_flight() {
    let mut s = service();
    let up = establish(&mut s, addr(1));
    let dialing = open(&mut s, addr(2), false, NOW).unwrap();
    s.interrupt();
    assert!(!s.network_active());
    assert_eq!(s.scheduler().slot(&up).unwrap().state, SlotState::Closing);
    assert_eq!(s.scheduler().slot(&dialing).unwrap().state, SlotState::Closed);
    assert_eq!(
        open(&mut s, addr(3), true, NOW),
        Err(NetError::AdmissionRejected(RejectReason::NetworkInactive))
    );
    assert_eq!(
        s.accept_inbound(&addr(3).inner, NOW),
        Err(NetError::AdmissionRejected(RejectReason::NetworkInactive))
    );
    s.set_network_active(true);
    assert!(open(&mut s, addr(3), false, NOW).is_ok());
}

#[test]
fn switching_the_network_off_keeps_manual_connections_possible() {
    let mut s = service();
    s.set_network_active(false);
    assert!(!s.network_active());
    assert_eq!(
        open(&mut s, addr(1), false, NOW),
        Err(NetError::AdmissionRejected(RejectReason::NetworkInactive))
    );
    assert!(open(&mut s, addr(1), true, NOW).is_ok());
}

#[test]
fn inbound_connections_are_admitted_up_to_their_limit() {
    let mut s = service();
    let a = s.accept_inbound(&addr(1).inner, NOW).unwrap();
    assert!(s.accept_inbound(&addr(2).inner, NOW).is_ok());
    assert_eq!(
        s.accept_inbound(&addr(3).inner, NOW),
        Err(NetError::AdmissionRejected(RejectReason::SlotLimit))
    );
    assert_eq!(s.handshake_completed(&a, 1, NOW), Ok(()));
    assert_eq!(s.scheduler().slot(&a).unwrap().state, SlotState::Established);
}

#[test]
fn bans_can_be_looked_up_and_lifted() {
    let mut s = service();
    let a = v4(8, 8, 8, 1);
    s.ban_for_default(&BanAddr::Net(a), BanReason::BanReasonUnknown, NOW);
    assert!(s.is_banned(&a, NOW + 86_399));
    assert!(s.unban(&BanAddr::Net(a)));
    assert!(!s.unban(&BanAddr::Net(a)));
    assert!(!s.is_banned(&a, NOW));
    s.ban_for_default(&BanAddr::Net(a), BanReason::BanReasonUnknown, NOW);
    assert!(!s.is_banned(&a, NOW + 86_400));
    assert_eq!(s.ban_table().len(), 0);
}

#[test]
fn services_of_a_known_address_can_be_set() {
    let mut s = service();
    let a = addr(1);
    s.add_new_addresses(&[a], &addr(200), Unknown::new(0), NOW);
    s.set_services(&a.inner, ServiceFlags::from_bits(NODE_NETWORK | NODE_WITNESS | 0x8000_0000));
    let rec = s.address_store().lookup(&a.inner).unwrap().1;
    assert_eq!(rec.service.services.to_bits(), NODE_NETWORK | NODE_WITNESS | 0x8000_0000);
    let got = s.get_addresses_filtered(5, ServiceFlags::from_bits(NODE_WITNESS), NOW);
    assert_eq!(got.len(), 1);
    assert_eq!(got[0].inner.services.to_bits(), NODE_NETWORK | NODE_WITNESS | 0x8000_0000);
}

#[test]
fn timeouts_close_slots_and_count_failures() {
    let mut s = service();
    let a = addr(1);
    let b = addr(2);
    s.add_new_addresses(&[a, b], &addr(200), Unknown::new(0), NOW);
    let counted = open(&mut s, a, false, NOW).unwrap();
    let uncounted = s
        .open_network_connection(b, false, Unknown::new(()), Unknown::new(""), false, false, false, NOW)
        .unwrap();
    assert!(s.time_out(NOW + 5).is_empty());
    assert_eq!(s.time_out(NOW + 6), vec![counted, uncounted]);
    assert!(s.time_out(NOW + 7).is_empty());
    assert_eq!(s.scheduler().slot(&counted).unwrap().state, SlotState::Closed);
    assert_eq!(s.scheduler().slot(&uncounted).unwrap().state, SlotState::Closed);
    assert_eq!(s.address_store().lookup(&a.inner).unwrap().1.failures, 1);
    assert_eq!(s.address_store().lookup(&b.inner).unwrap().1.failures, 0);
    let again = open(&mut s, a, false, NOW + 10).unwrap();
    assert!(s.connection_established(&again, NOW + 12));
    assert!(s.time_out(NOW + 72).is_empty());
    assert_eq!(s.time_out(NOW + 73), vec![again]);
    assert_eq!(s.address_store().lookup(&a.inner).unwrap().1.failures, 2);
}

#[test]
fn called_off_handshake_is_a_failure_too() {
    let mut s = service();
    let node = s.accept_inbound(&addr(1).inner, NOW).unwrap();
    assert_eq!(
        s.connection_failed(&node, HandshakeFailure::Cancelled, NOW),
        Some(NetError::HandshakeFailed(HandshakeFailure::Cancelled))
    );
    assert_eq!(s.scheduler().slot(&node).unwrap().state, SlotState::Closed);
    let up = establish(&mut s, addr(2));
    assert_eq!(s.connection_failed(&up, HandshakeFailure::Timeout, NOW), None);
    assert_eq!(s.scheduler().slot(&up).unwrap().state, SlotState::Established);
}

#[test]
fn echoed_nonce_while_dialing_closes_and_counts() {
    let mut s = service();
    let a = addr(1);
    s.add_new_addresses(&[a], &addr(200), Unknown::new(0), NOW);
    let node = open(&mut s, a, false, NOW).unwrap();
    let nonce = s.scheduler().slot(&node).unwrap().nonce;
    assert_eq!(
        s.handshake_completed(&node, nonce, NOW),
        Err(NetError::HandshakeFailed(HandshakeFailure::SelfConnection))
    );
    assert_eq!(s.scheduler().slot(&node).unwrap().state, SlotState::Closed);
    assert_eq!(s.address_store().lookup(&a.inner).unwrap().1.failures, 1);
    assert_eq!(
        s.handshake_completed(&node, nonce, NOW),
        Err(NetError::HandshakeFailed(HandshakeFailure::NotHandshaking))
    );
    assert_eq!(s.address_store().lookup(&a.inner).unwrap().1.failures, 1);
}

#[test]
fn ban_with_a_negative_offset_does_not_reject_a_connection() {
    let mut s = service();
    let a = addr(1);
    s.ban(&BanAddr::Net(a.inner.inner), BanReason::BanReasonNodeMisbehaving, -1, false, NOW);
    assert_eq!(s.ban_table().get(&BanAddr::Net(a.inner.inner)).unwrap().expiry, NOW - 1);
    assert!(!s.is_banned(&a.inner.inner, NOW));
    s.ban(&BanAddr::Net(a.inner.inner), BanReason::BanReasonNodeMisbehaving, -1, false, NOW);
    assert!(open(&mut s, a, false, NOW).is_ok());
    assert_eq!(s.ban_table().len(), 0);
}

#[test]
fn run_out_ban_does_not_reject_a_connection() {
    let mut s = service();
    let a = addr(1);
    s.ban(&BanAddr::Net(a.inner.inner), BanReason::BanReasonManuallyAdded, 100, false, NOW);
    s.ban_for_default(&BanAddr::range(&a.inner.inner, 24), BanReason::BanReasonNodeMisbehaving, NOW);
    assert_eq!(
        open(&mut s, a, false, NOW + 99),
        Err(NetError::AdmissionRejected(RejectReason::Banned))
    );
    assert_eq!(
        open(&mut s, a, false, NOW + 86_399),
        Err(NetError::AdmissionRejected(RejectReason::Banned))
    );
    let node = open(&mut s, a, false, NOW + 86_400).unwrap();
    assert_eq!(s.scheduler().slot(&node).unwrap().state, SlotState::Dialing);
}

#[test]
fn feeler_is_admitted_with_the_relay_slots_full() {
    let mut s = service();
    assert!(open(&mut s, addr(1), false, NOW).is_ok());
    assert!(open(&mut s, addr(2), false, NOW).is_ok());
    assert!(s.network_active());
    let feeler = s
        .open_network_connection(addr(3), false, Unknown::new(()), Unknown::new(""), false, true, false, NOW)
        .unwrap();
    assert_eq!(
        s.open_network_connection(addr(4), false, Unknown::new(()), Unknown::new(""), false, true, false, NOW),
        Err(NetError::AdmissionRejected(RejectReason::SlotLimit))
    );
    assert!(s
        .open_network_connection(addr(4), false, Unknown::new(()), Unknown::new(""), true, false, false, NOW)
        .is_ok());
    assert_eq!(
        s.open_network_connection(addr(5), false, Unknown::new(()), Unknown::new(""), true, false, false, NOW),
        Err(NetError::AdmissionRejected(RejectReason::SlotLimit))
    );
    assert_eq!(s.connection_failed(&feeler, HandshakeFailure::Timeout, NOW).is_some(), true);
    assert!(s
        .open_network_connection(addr(5), false, Unknown::new(()), Unknown::new(""), false, true, false, NOW)
        .is_ok());
}
