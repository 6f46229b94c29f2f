use peer_network::addrman::{
    age_time, directory_list_for, new_slot_for, shuffle, tried_slot_for, yields, AddrMan, AddrRecord,
    Table,
    BUCKET_SIZE, DIRECTORY_SIZE, FRESH_WITHIN_SECS, MAX_FAILURES, NEW_BUCKET_COUNT, NEW_SLOTS,
    RECENT_SUCCESS_SECS, SAMPLE_MAX, STALE_AFTER_SECS, TRIED_BUCKET_COUNT, TRIED_SLOTS,
};
use peer_network::endpoint::{Address, Service, ServiceFlags, NODE_NETWORK, NODE_WITNESS};
use peer_network::error::NetError;
use peer_network::netaddr::{NetAddr, Unknown};

const NOW: i64 = 1_700_000_000;

fn v4(a: u8, b: u8, c: u8, d: u8) -> NetAddr {
    NetAddr::from_ipv4(a, b, c, d)
}

fn svc(a: u8, b: u8, c: u8, d: u8) -> Service {
    Service::new(v4(a, b, c, d), 8333, ServiceFlags::from_bits(NODE_NETWORK))
}

fn addr(a: u8, b: u8, c: u8, d: u8) -> Address {
    Address::new(svc(a, b, c, d), NOW)
}

fn nth(i: u32) -> Address {
    let b = i.to_be_bytes();
    Address::new(
        Service::new(v4(60 + b[1], b[2], b[3], 1), 8333, ServiceFlags::from_bits(NODE_NETWORK)),
        NOW,
    )
}

fn source() -> NetAddr {
    v4(1, 2, 3, 4)
}

/// Two addresses that one source sends to the same slot of "new".
fn colliding_pair(salt: u64) -> (Address, Address) {
    let mut seen: Vec<(usize, Address)> = Vec::new();
    let mut i: u32 = 0;
    loop {
        let a = nth(i);
        let slot = new_slot_for(salt, &a.inner.inner, a.inner.port, &source());
        for (s, b) in seen.iter() {
            if *s == slot {
                return (*b, a);
            }
        }
        seen.push((slot, a));
        i += 1;
    }
}

/// Two addresses with the same slot of "tried".
fn colliding_tried_pair(salt: u64) -> (Address, Address) {
    let mut seen: Vec<(usize, Address)> = Vec::new();
    let mut i: u32 = 0;
    loop {
        let a = nth(i);
        let slot = tried_slot_for(salt, &a.inner.inner, a.inner.port);
        for (s, b) in seen.iter() {
            if *s == slot {
                return (*b, a);
            }
        }
        seen.push((slot, a));
        i += 1;
    }
}

#[test]
fn table_sizes_fit_together() {
    assert_eq!(NEW_SLOTS, NEW_BUCKET_COUNT * BUCKET_SIZE);
    assert_eq!(TRIED_SLOTS, TRIED_BUCKET_COUNT * BUCKET_SIZE);
    assert_eq!(STALE_AFTER_SECS, 30 * 86_400);
    assert_eq!(FRESH_WITHIN_SECS, 7 * 86_400);
    assert_eq!(RECENT_SUCCESS_SECS, 86_400);
    assert_eq!(MAX_FAILURES, 10);
    assert_eq!(SAMPLE_MAX, 1_000);
}

#[test]
fn placement_is_fixed_by_salt_address_and_source() {
    let a = v4(8, 8, 8, 8);
    assert_eq!(new_slot_for(42, &a, 8333, &source()), 15_640);
    assert_eq!(tried_slot_for(42, &a, 8333), 4_049);
    for _ in 0..3 {
        assert_eq!(new_slot_for(42, &a, 8333, &source()), 15_640);
        assert_eq!(tried_slot_for(42, &a, 8333), 4_049);
    }
    assert_ne!(new_slot_for(43, &a, 8333, &source()), 15_640);
    assert_ne!(new_slot_for(42, &a, 8333, &v4(1, 2, 3, 5)), 15_640);
    assert_ne!(new_slot_for(42, &a, 8334, &source()), 15_640);
}

#[test]
fn placement_stays_inside_the_tables() {
    for i in 0..2_000u32 {
        let a = nth(i);
        assert!(new_slot_for(7, &a.inner.inner, a.inner.port, &source()) < NEW_SLOTS);
        assert!(tried_slot_for(7, &a.inner.inner, a.inner.port) < TRIED_SLOTS);
    }
}

#[test]
fn same_pair_lands_on_the_same_slot_across_insert_and_evict() {
    let (a, b) = colliding_pair(5);
    let slot = new_slot_for(5, &a.inner.inner, a.inner.port, &source());
    let mut store = AddrMan::new(5, 1);
    let late = NOW + STALE_AFTER_SECS + 1;
    for round in 0..4 {
        let _ = store.add_address(&a, &source(), 0, NOW);
        assert!(store.lookup(&a.inner).is_some(), "round {}", round);
        assert_eq!(new_slot_for(5, &a.inner.inner, a.inner.port, &source()), slot);
        let newer = Address::new(b.inner, late);
        let _ = store.add_address(&newer, &source(), 0, late);
        assert!(store.lookup(&a.inner).is_none());
        assert!(store.lookup(&b.inner).is_some());
        let back = Address::new(a.inner, late + late);
        let _ = store.add_address(&back, &source(), 0, late + late);
        assert!(store.lookup(&b.inner).is_none());
        assert_eq!(store.get_address_count(), 1);
        let mut fresh = AddrMan::new(5, 99);
        let _ = fresh.add_address(&a, &source(), 0, NOW);
        assert_eq!(fresh.lookup(&a.inner).map(|r| r.0), Some(Table::New));
        store = fresh;
    }
}

#[test]
fn empty_store_knows_nothing() {
    let mut store = AddrMan::new(1, 2);
    assert_eq!(store.get_address_count(), 0);
    assert_eq!(store.lookup(&svc(8, 8, 8, 8)), None);
    assert!(store.get_addresses(NOW).is_empty());
}

#[test]
fn heard_address_goes_to_new() {
    let mut store = AddrMan::new(1, 2);
    assert_eq!(store.add_address(&addr(8, 8, 8, 8), &source(), 0, NOW), Ok(true));
    assert_eq!(store.get_address_count(), 1);
    let (table, rec) = store.lookup(&svc(8, 8, 8, 8)).unwrap();
    assert_eq!(table, Table::New);
    assert_eq!(
        rec,
        AddrRecord {
            service: svc(8, 8, 8, 8),
            source: source(),
            last_seen: NOW,
            last_success: 0,
            successes: 0,
            failures: 0,
        }
    );
}

#[test]
fn known_address_is_not_added_again() {
    let mut store = AddrMan::new(1, 2);
    let _ = store.add_address(&addr(8, 8, 8, 8), &source(), 0, NOW);
    let other = Address::new(
        Service::new(v4(8, 8, 8, 8), 8333, ServiceFlags::from_bits(NODE_WITNESS)),
        NOW + 50,
    );
    assert_eq!(store.add_address(&other, &v4(9, 9, 9, 9), 0, NOW + 50), Ok(false));
    assert_eq!(store.get_address_count(), 1);
    let (_, rec) = store.lookup(&svc(8, 8, 8, 8)).unwrap();
    assert_eq!(rec.source, source());
    assert_eq!(rec.last_seen, NOW);
    assert_eq!(rec.service.services.to_bits(), NODE_NETWORK);
}

#[test]
fn same_address_on_another_port_is_another_endpoint() {
    let mut store = AddrMan::new(1, 2);
    let _ = store.add_address(&addr(8, 8, 8, 8), &source(), 0, NOW);
    let other = Address::new(Service::new(v4(8, 8, 8, 8), 18333, ServiceFlags::none()), NOW);
    let _ = store.add_address(&other, &source(), 0, NOW);
    assert_eq!(store.get_address_count(), 2);
}

#[test]
fn unroutable_address_is_dropped_in_silence() {
    let mut store = AddrMan::new(1, 2);
    assert_eq!(store.add_address(&addr(127, 0, 0, 1), &source(), 0, NOW), Ok(false));
    assert_eq!(store.add_address(&addr(10, 0, 0, 1), &source(), 0, NOW), Ok(false));
    assert_eq!(store.add_address(&addr(192, 168, 1, 1), &source(), 0, NOW), Ok(false));
    assert_eq!(store.add_address(&addr(0, 0, 0, 0), &source(), 0, NOW), Ok(false));
    assert_eq!(store.get_address_count(), 0);
    assert_eq!(store.lookup(&svc(127, 0, 0, 1)), None);
}

#[test]
fn penalty_ages_the_last_seen_time() {
    assert_eq!(age_time(1_000, 300, 2_000), 700);
    assert_eq!(age_time(1_000, 0, 2_000), 1_000);
    assert_eq!(age_time(1_000, -300, 2_000), 1_000);
    assert_eq!(age_time(1_000, 1_000, 2_000), 0);
    assert_eq!(age_time(1_000, 5_000, 2_000), 0);
    assert_eq!(age_time(-7, 0, 2_000), 0);
    assert_eq!(age_time(i64::MAX, i64::MAX, i64::MAX), 0);
    assert_eq!(age_time(i64::MIN, i64::MAX, 0), 0);
    assert_eq!(age_time(i64::MAX, 1, i64::MAX), i64::MAX - 1);
    assert_eq!(age_time(3_000, 0, 2_000), 2_000);
    assert_eq!(age_time(i64::MAX, 300, 2_000), 1_700);
    assert_eq!(age_time(2_000, 0, 2_000), 2_000);
    assert_eq!(age_time(5, 0, -10), 0);
    let mut store = AddrMan::new(1, 2);
    let list = [addr(8, 8, 8, 8), addr(8, 8, 4, 4)];
    store.add_new_addresses(&list, &addr(1, 2, 3, 4), Unknown::new(7_200), NOW);
    assert_eq!(store.get_address_count(), 2);
    assert_eq!(store.lookup(&svc(8, 8, 8, 8)).unwrap().1.last_seen, NOW - 7_200);
    assert_eq!(store.lookup(&svc(8, 8, 4, 4)).unwrap().1.source, source());
}

#[test]
fn add_new_addresses_takes_each_once() {
    let mut store = AddrMan::new(1, 2);
    let list = [addr(8, 8, 8, 8), addr(127, 0, 0, 1), addr(8, 8, 8, 8), addr(8, 8, 4, 4)];
    store.add_new_addresses(&list, &addr(1, 2, 3, 4), Unknown::new(0), NOW);
    assert_eq!(store.get_address_count(), 2);
    store.add_new_addresses(&[], &addr(1, 2, 3, 4), Unknown::new(0), NOW);
    assert_eq!(store.get_address_count(), 2);
}

#[test]
fn count_is_the_number_of_distinct_endpoints() {
    let mut store = AddrMan::new(11, 12);
    let mut all: Vec<Address> = Vec::new();
    for i in 0..400u32 {
        all.push(nth(i));
    }
    store.add_new_addresses(&all, &addr(1, 2, 3, 4), Unknown::new(0), NOW);
    store.add_new_addresses(&all, &addr(4, 3, 2, 1), Unknown::new(0), NOW);
    for a in all.iter().take(100) {
        store.mark_address_good(a, NOW + 1);
    }
    let mut known = 0usize;
    let mut in_tried = 0usize;
    for a in all.iter() {
        if let Some((table, rec)) = store.lookup(&a.inner) {
            known += 1;
            assert!(rec.service.same_endpoint(&a.inner));
            if table == Table::Tried {
                in_tried += 1;
            }
        }
    }
    assert_eq!(store.get_address_count(), known);
    assert!(known <= 400);
    assert!(known >= 300);
    assert!(in_tried >= 50 && in_tried <= 100);
}

#[test]
fn good_address_moves_to_tried() {
    let mut store = AddrMan::new(1, 2);
    let _ = store.add_address(&addr(8, 8, 8, 8), &source(), 0, NOW);
    store.mark_address_good(&addr(8, 8, 8, 8), NOW + 10);
    assert_eq!(store.get_address_count(), 1);
    let (table, rec) = store.lookup(&svc(8, 8, 8, 8)).unwrap();
    assert_eq!(table, Table::Tried);
    assert_eq!(rec.successes, 1);
    assert_eq!(rec.failures, 0);
    assert_eq!(rec.last_success, NOW + 10);
    assert_eq!(rec.last_seen, NOW + 10);
    assert_eq!(rec.source, source());
    store.mark_address_good(&addr(8, 8, 8, 8), NOW + 20);
    let (table, rec) = store.lookup(&svc(8, 8, 8, 8)).unwrap();
    assert_eq!(table, Table::Tried);
    assert_eq!(rec.successes, 2);
    assert_eq!(rec.last_success, NOW + 20);
    assert_eq!(store.get_address_count(), 1);
}

#[test]
fn good_mark_on_an_unknown_address_changes_nothing() {
    let mut store = AddrMan::new(1, 2);
    store.mark_address_good(&addr(8, 8, 8, 8), NOW);
    assert_eq!(store.get_address_count(), 0);
    assert_eq!(store.lookup(&svc(8, 8, 8, 8)), None);
}

#[test]
fn tried_address_is_not_heard_into_new_again() {
    let mut store = AddrMan::new(1, 2);
    let _ = store.add_address(&addr(8, 8, 8, 8), &source(), 0, NOW);
    store.mark_address_good(&addr(8, 8, 8, 8), NOW);
    let _ = store.add_address(&addr(8, 8, 8, 8), &v4(7, 7, 7, 7), 0, NOW);
    assert_eq!(store.get_address_count(), 1);
    assert_eq!(store.lookup(&svc(8, 8, 8, 8)).unwrap().0, Table::Tried);
}

#[test]
fn failures_are_counted_and_reset_by_success() {
    let mut store = AddrMan::new(1, 2);
    let _ = store.add_address(&addr(8, 8, 8, 8), &source(), 0, NOW);
    store.mark_attempt_failed(&svc(8, 8, 8, 8));
    store.mark_attempt_failed(&svc(8, 8, 8, 8));
    assert_eq!(store.lookup(&svc(8, 8, 8, 8)).unwrap().1.failures, 2);
    store.mark_attempt_failed(&svc(9, 9, 9, 9));
    assert_eq!(store.get_address_count(), 1);
    store.mark_address_good(&addr(8, 8, 8, 8), NOW);
    assert_eq!(store.lookup(&svc(8, 8, 8, 8)).unwrap().1.failures, 0);
    store.mark_attempt_failed(&svc(8, 8, 8, 8));
    let (table, rec) = store.lookup(&svc(8, 8, 8, 8)).unwrap();
    assert_eq!(table, Table::Tried);
    assert_eq!(rec.failures, 1);
    assert_eq!(rec.successes, 1);
}

#[test]
fn record_judgement() {
    let rec = AddrRecord {
        service: svc(8, 8, 8, 8),
        source: source(),
        last_seen: NOW,
        last_success: 0,
        successes: 0,
        failures: 0,
    };
    assert!(!rec.terrible(NOW));
    assert!(rec.fresh(NOW));
    assert!(rec.fresh(NOW + FRESH_WITHIN_SECS));
    assert!(!rec.fresh(NOW + FRESH_WITHIN_SECS + 1));
    assert!(!rec.terrible(NOW + STALE_AFTER_SECS));
    assert!(rec.terrible(NOW + STALE_AFTER_SECS + 1));
    assert!(!rec.reached_recently(NOW));
    let failing = AddrRecord { failures: MAX_FAILURES - 1, ..rec };
    assert!(!failing.terrible(NOW));
    assert!(!failing.fresh(NOW));
    assert!(failing.failed().terrible(NOW));
    let good = rec.succeeded(NOW + 5);
    assert!(good.reached_recently(NOW + 5 + RECENT_SUCCESS_SECS));
    assert!(!good.reached_recently(NOW + 6 + RECENT_SUCCESS_SECS));
    let extreme = AddrRecord { last_seen: i64::MIN, ..rec };
    assert!(extreme.terrible(i64::MAX));
    let full = AddrRecord { successes: u32::MAX, failures: u32::MAX, ..rec };
    assert_eq!(full.succeeded(NOW).successes, u32::MAX);
    assert_eq!(full.failed().failures, u32::MAX);
}

#[test]
fn fresh_occupant_is_never_evicted_for_a_newcomer() {
    let (a, b) = colliding_pair(5);
    for seed in 0..16u64 {
        let mut store = AddrMan::new(5, seed);
        assert_eq!(store.add_address(&a, &source(), 0, NOW), Ok(true));
        assert_eq!(store.add_address(&b, &source(), 0, NOW), Err(NetError::StoreFull));
        assert_eq!(store.get_address_count(), 1);
        assert!(store.lookup(&a.inner).is_some());
        assert!(store.lookup(&b.inner).is_none());
    }
}

#[test]
fn terrible_occupant_always_gives_way() {
    let (a, b) = colliding_pair(5);
    for seed in 0..16u64 {
        let mut store = AddrMan::new(5, seed);
        let _ = store.add_address(&a, &source(), 0, NOW);
        for _ in 0..MAX_FAILURES {
            store.mark_attempt_failed(&a.inner);
        }
        assert_eq!(store.add_address(&b, &source(), 0, NOW), Ok(true));
        assert_eq!(store.get_address_count(), 1);
        assert!(store.lookup(&a.inner).is_none());
        assert_eq!(store.lookup(&b.inner).unwrap().0, Table::New);
    }
}

#[test]
fn middling_occupant_gives_way_on_the_coin() {
    let (a, b) = colliding_pair(5);
    let mut kept = 0;
    let mut replaced = 0;
    for seed in 0..64u64 {
        let mut store = AddrMan::new(5, seed);
        let _ = store.add_address(&a, &source(), 0, NOW);
        store.mark_attempt_failed(&a.inner);
        let answer = store.add_address(&b, &source(), 0, NOW);
        assert_eq!(store.get_address_count(), 1);
        if store.lookup(&a.inner).is_some() {
            assert_eq!(answer, Err(NetError::StoreFull));
            assert!(store.lookup(&b.inner).is_none());
            kept += 1;
        } else {
            assert_eq!(answer, Ok(true));
            assert!(store.lookup(&b.inner).is_some());
            replaced += 1;
        }
    }
    assert!(kept > 0);
    assert!(replaced > 0);
}

#[test]
fn coin_of_the_first_draw_decides() {
    let (a, b) = colliding_pair(5);
    // The first number drawn from a stream started at 0 is odd: the
    // occupant gives way.
    let mut store = AddrMan::new(5, 0);
    let _ = store.add_address(&a, &source(), 0, NOW);
    store.mark_attempt_failed(&a.inner);
    let _ = store.add_address(&b, &source(), 0, NOW);
    assert!(store.lookup(&b.inner).is_some());
    assert!(store.lookup(&a.inner).is_none());
}

#[test]
fn promotion_into_an_occupied_tried_slot() {
    let (a, b) = colliding_tried_pair(5);
    let mut moved = 0;
    let mut stayed = 0;
    for seed in 0..64u64 {
        let mut store = AddrMan::new(5, seed);
        let _ = store.add_address(&a, &source(), 0, NOW);
        let _ = store.add_address(&b, &source(), 0, NOW);
        assert_eq!(store.get_address_count(), 2);
        store.mark_address_good(&a, NOW);
        store.mark_attempt_failed(&a.inner);
        store.mark_address_good(&b, NOW);
        let rec_b = store.lookup(&b.inner).unwrap();
        assert_eq!(rec_b.1.successes, 1);
        if rec_b.0 == Table::Tried {
            assert!(store.lookup(&a.inner).is_none());
            assert_eq!(store.get_address_count(), 1);
            moved += 1;
        } else {
            assert_eq!(store.lookup(&a.inner).unwrap().0, Table::Tried);
            assert_eq!(store.get_address_count(), 2);
            stayed += 1;
        }
    }
    assert!(moved > 0);
    assert!(stayed > 0);
}

#[test]
fn promotion_never_evicts_a_fresh_tried_record() {
    let (a, b) = colliding_tried_pair(5);
    for seed in 0..16u64 {
        let mut store = AddrMan::new(5, seed);
        let _ = store.add_address(&a, &source(), 0, NOW);
        let _ = store.add_address(&b, &source(), 0, NOW);
        store.mark_address_good(&a, NOW);
        store.mark_address_good(&b, NOW);
        assert_eq!(store.lookup(&a.inner).unwrap().0, Table::Tried);
        assert_eq!(store.lookup(&b.inner).unwrap().0, Table::New);
        assert_eq!(store.lookup(&b.inner).unwrap().1.successes, 1);
        assert_eq!(store.get_address_count(), 2);
    }
}

#[test]
fn set_services_replaces_the_flags() {
    let mut store = AddrMan::new(1, 2);
    let _ = store.add_address(&addr(8, 8, 8, 8), &source(), 0, NOW);
    store.set_services(&svc(8, 8, 8, 8), ServiceFlags::from_bits(0xf000_0000_0000_0008));
    let (table, rec) = store.lookup(&svc(8, 8, 8, 8)).unwrap();
    assert_eq!(table, Table::New);
    assert_eq!(rec.service.services.to_bits(), 0xf000_0000_0000_0008);
    assert_eq!(rec.last_seen, NOW);
    store.set_services(&svc(9, 9, 9, 9), ServiceFlags::from_bits(1));
    assert_eq!(store.get_address_count(), 1);
    store.mark_address_good(&addr(8, 8, 8, 8), NOW);
    store.set_services(&svc(8, 8, 8, 8), ServiceFlags::from_bits(NODE_NETWORK));
    let (table, rec) = store.lookup(&svc(8, 8, 8, 8)).unwrap();
    assert_eq!(table, Table::Tried);
    assert_eq!(rec.service.services.to_bits(), NODE_NETWORK);
}

#[test]
fn sample_returns_a_good_address_as_plain_data() {
    let mut store = AddrMan::new(1, 2);
    let _ = store.add_address(&addr(8, 8, 8, 8), &source(), 0, NOW);
    store.mark_address_good(&addr(8, 8, 8, 8), NOW + 10);
    let got = store.get_addresses(NOW + 20);
    assert_eq!(got, vec![Address::new(svc(8, 8, 8, 8), NOW + 10)]);
    let mut never_new = AddrMan::new(1, 2);
    let _ = never_new.add_address(&addr(8, 8, 8, 8), &v4(4, 4, 4, 4), 500, NOW);
    never_new.mark_address_good(&addr(8, 8, 8, 8), NOW + 10);
    assert_eq!(never_new.get_addresses(NOW + 20), got);
}

#[test]
fn sample_holds_each_known_address_once() {
    let mut store = AddrMan::new(3, 4);
    let mut all: Vec<Address> = Vec::new();
    for i in 0..50u32 {
        all.push(nth(i));
    }
    store.add_new_addresses(&all, &addr(1, 2, 3, 4), Unknown::new(0), NOW);
    for a in all.iter().take(10) {
        store.mark_address_good(a, NOW);
    }
    let count = store.get_address_count();
    let got = store.get_addresses(NOW);
    assert_eq!(got.len(), count);
    for (i, a) in got.iter().enumerate() {
        assert!(store.lookup(&a.inner).is_some());
        for b in got.iter().skip(i + 1) {
            assert!(!a.inner.same_endpoint(&b.inner));
        }
    }
    assert_eq!(store.get_address_count(), count);
}

#[test]
fn sample_is_bounded() {
    let mut store = AddrMan::new(3, 4);
    let mut all: Vec<Address> = Vec::new();
    for i in 0..1_500u32 {
        all.push(nth(i));
    }
    store.add_new_addresses(&all, &addr(1, 2, 3, 4), Unknown::new(0), NOW);
    assert!(store.get_address_count() > SAMPLE_MAX);
    assert_eq!(store.get_addresses(NOW).len(), SAMPLE_MAX);
    assert_eq!(store.get_addresses_filtered(10, ServiceFlags::none(), NOW).len(), 10);
    assert_eq!(store.get_addresses_filtered(0, ServiceFlags::none(), NOW).len(), 0);
    assert_eq!(store.get_addresses_filtered(usize::MAX, ServiceFlags::none(), NOW).len(), SAMPLE_MAX);
}

#[test]
fn sample_prefers_tried_addresses_reached_lately() {
    let mut store = AddrMan::new(3, 4);
    let mut all: Vec<Address> = Vec::new();
    for i in 0..200u32 {
        all.push(nth(i));
    }
    store.add_new_addresses(&all, &addr(1, 2, 3, 4), Unknown::new(0), NOW);
    let mut good: Vec<Address> = Vec::new();
    for a in all.iter().take(20) {
        store.mark_address_good(a, NOW);
        if store.lookup(&a.inner).unwrap().0 == Table::Tried {
            good.push(*a);
        }
    }
    assert!(good.len() >= 15);
    let few = store.get_addresses_filtered(5, ServiceFlags::none(), NOW + 1);
    assert_eq!(few.len(), 5);
    for a in few.iter() {
        assert!(good.iter().any(|g| g.inner.same_endpoint(&a.inner)));
    }
    let more = store.get_addresses_filtered(good.len() + 7, ServiceFlags::none(), NOW + 1);
    assert_eq!(more.len(), good.len() + 7);
    for g in good.iter() {
        assert!(more.iter().any(|a| a.inner.same_endpoint(&g.inner)));
    }
    let later = NOW + RECENT_SUCCESS_SECS + 1;
    let stale_pref = store.get_addresses_filtered(200, ServiceFlags::none(), later);
    assert_eq!(stale_pref.len(), store.get_address_count());
}

#[test]
fn sample_honours_the_capability_filter() {
    let mut store = AddrMan::new(3, 4);
    let plain = addr(8, 8, 8, 8);
    let witness = Address::new(
        Service::new(v4(8, 8, 4, 4), 8333, ServiceFlags::from_bits(NODE_NETWORK | NODE_WITNESS)),
        NOW,
    );
    let _ = store.add_address(&plain, &source(), 0, NOW);
    let _ = store.add_address(&witness, &source(), 0, NOW);
    let got = store.get_addresses_filtered(10, ServiceFlags::from_bits(NODE_WITNESS), NOW);
    assert_eq!(got, vec![witness]);
    let both = store.get_addresses_filtered(10, ServiceFlags::from_bits(NODE_NETWORK), NOW);
    assert_eq!(both.len(), 2);
    let none = store.get_addresses_filtered(10, ServiceFlags::from_bits(0x4000), NOW);
    assert!(none.is_empty());
}

#[test]
fn sample_leaves_out_terrible_records() {
    let mut store = AddrMan::new(3, 4);
    let _ = store.add_address(&addr(8, 8, 8, 8), &source(), 0, NOW);
    let _ = store.add_address(&addr(8, 8, 4, 4), &source(), 0, NOW);
    for _ in 0..MAX_FAILURES {
        store.mark_attempt_failed(&svc(8, 8, 4, 4));
    }
    assert_eq!(store.get_addresses(NOW), vec![addr(8, 8, 8, 8)]);
    assert!(store.get_addresses(NOW + STALE_AFTER_SECS + 1).is_empty());
    assert_eq!(store.get_address_count(), 2);
}

#[test]
fn sample_order_follows_the_stream() {
    let mut all: Vec<Address> = Vec::new();
    for i in 0..30u32 {
        all.push(nth(i));
    }
    let mut one = AddrMan::new(3, 4);
    let mut two = AddrMan::new(3, 4);
    let mut other = AddrMan::new(3, 5);
    one.add_new_addresses(&all, &addr(1, 2, 3, 4), Unknown::new(0), NOW);
    two.add_new_addresses(&all, &addr(1, 2, 3, 4), Unknown::new(0), NOW);
    other.add_new_addresses(&all, &addr(1, 2, 3, 4), Unknown::new(0), NOW);
    let first = one.get_addresses(NOW);
    assert_eq!(first, two.get_addresses(NOW));
    let second = one.get_addresses(NOW);
    assert_eq!(second.len(), first.len());
    assert_ne!(first, second);
    assert_ne!(first, other.get_addresses(NOW));
}

#[test]
fn shuffle_keeps_every_item() {
    let mut v: Vec<Address> = Vec::new();
    for i in 0..40u32 {
        v.push(nth(i));
    }
    let before = v.clone();
    let mut stream: u64 = 9;
    shuffle(&mut v, &mut stream);
    assert_ne!(v, before);
    assert_eq!(v.len(), before.len());
    for a in before.iter() {
        assert_eq!(v.iter().filter(|b| *b == a).count(), 1);
    }
    let mut again = before.clone();
    let mut same_stream: u64 = 9;
    shuffle(&mut again, &mut same_stream);
    assert_eq!(again, v);
    assert_eq!(same_stream, stream);
}

#[test]
fn shuffle_of_short_lists() {
    let mut stream: u64 = 9;
    let mut empty: Vec<Address> = Vec::new();
    shuffle(&mut empty, &mut stream);
    assert!(empty.is_empty());
    assert_eq!(stream, 9);
    let mut one = vec![nth(1)];
    shuffle(&mut one, &mut stream);
    assert_eq!(one, vec![nth(1)]);
    assert_eq!(stream, 9);
    let mut two = vec![nth(1), nth(2)];
    shuffle(&mut two, &mut stream);
    assert_eq!(stream, 9u64.wrapping_add(0x9e37_79b9_7f4a_7c15));
    assert_eq!(two.len(), 2);
    assert!(two.contains(&nth(1)) && two.contains(&nth(2)));
}

#[test]
fn directory_list_is_fixed_by_salt_and_endpoint() {
    let a = v4(8, 8, 8, 8);
    let list = directory_list_for(42, &a, 8333);
    assert!(list < DIRECTORY_SIZE);
    assert_eq!(directory_list_for(42, &a, 8333), list);
    for i in 0..2_000u32 {
        let x = nth(i);
        assert!(directory_list_for(7, &x.inner.inner, x.inner.port) < DIRECTORY_SIZE);
    }
}

#[test]
fn every_stored_record_is_found_again() {
    let mut store = AddrMan::new(31, 32);
    let mut now = NOW;
    for round in 0..6u32 {
        let mut batch: Vec<Address> = Vec::new();
        for i in 0..700u32 {
            batch.push(Address::new(nth(round * 500 + i).inner, now));
        }
        let from = Address::new(nth(50_000 + round).inner, now);
        store.add_new_addresses(&batch, &from, Unknown::new(0), now);
        for a in batch.iter().step_by(3) {
            store.mark_address_good(a, now);
        }
        for a in batch.iter().step_by(5) {
            store.mark_attempt_failed(&a.inner);
        }
        let kept = store.snapshot();
        assert_eq!(kept.len(), store.get_address_count());
        for item in kept.iter() {
            assert_eq!(store.lookup(&item.record.service), Some((item.table, item.record)));
        }
        for (i, a) in kept.iter().enumerate().step_by(97) {
            for b in kept.iter().skip(i + 1) {
                assert!(!a.record.service.same_endpoint(&b.record.service));
            }
        }
        now += STALE_AFTER_SECS / 2 + 1;
    }
    assert!(store.get_address_count() > 1_000);
}

#[test]
fn occupant_gives_way_by_its_standing() {
    let fresh = AddrRecord {
        service: svc(8, 8, 8, 8),
        source: source(),
        last_seen: NOW,
        last_success: 0,
        successes: 0,
        failures: 0,
    };
    assert!(!fresh.reliable(NOW));
    for coin in 0..4u64 {
        assert!(!yields(&fresh, NOW, coin));
    }
    let aged = NOW + FRESH_WITHIN_SECS + 1;
    assert!(!yields(&fresh, aged, 0));
    assert!(yields(&fresh, aged, 1));
    assert!(!yields(&fresh, aged, 2));
    assert!(yields(&fresh, aged, u64::MAX));
    let reliable = fresh.succeeded(NOW);
    assert!(reliable.reliable(aged));
    assert!(!reliable.fresh(aged));
    assert!(!yields(&reliable, aged, 1));
    let shaken = reliable.failed();
    assert!(!shaken.reliable(NOW));
    assert!(yields(&shaken, NOW, 1));
    assert!(!yields(&shaken, NOW, 0));
    let stale = NOW + STALE_AFTER_SECS + 1;
    assert!(!reliable.reliable(stale));
    assert!(yields(&reliable, stale, 0));
    assert!(yields(&fresh, stale, 0));
}

#[test]
fn address_from_the_future_counts_as_seen_now() {
    let (a, b) = colliding_pair(5);
    let mut store = AddrMan::new(5, 1);
    let ahead = Address::new(a.inner, i64::MAX);
    assert_eq!(store.add_address(&ahead, &source(), 0, NOW), Ok(true));
    assert_eq!(store.lookup(&a.inner).unwrap().1.last_seen, NOW);
    let late = NOW + STALE_AFTER_SECS + 1;
    assert!(store.lookup(&a.inner).unwrap().1.terrible(late));
    assert_eq!(store.add_address(&Address::new(b.inner, late), &source(), 0, late), Ok(true));
    assert!(store.lookup(&a.inner).is_none());
}
