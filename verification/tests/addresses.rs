use peer_network::endpoint::{
    Address, Service, ServiceFlags, NODE_BLOOM, NODE_NETWORK, NODE_NETWORK_LIMITED, NODE_NONE,
    NODE_WITNESS,
};
use peer_network::hashing::{draw, hash_endpoint, mix};
use peer_network::netaddr::{mask_of, prefix_in_family, BanAddr, NetAddr, SubNet, Unknown};

fn v4(a: u8, b: u8, c: u8, d: u8) -> NetAddr {
    NetAddr::from_ipv4(a, b, c, d)
}

#[test]
fn ipv4_is_held_in_mapped_form() {
    let a = v4(1, 2, 3, 4);
    assert_eq!(a.ip, 0xffff_0102_0304u128);
    assert_eq!(a.scope_id.inner, 0);
    assert!(a.ipv4());
    assert!(!NetAddr::new(0x2001_0db8_0000_0000_0000_0000_0000_0001, 0).ipv4());
}

#[test]
fn equal_addresses_need_equal_scope() {
    let a = NetAddr::new(0xfe80_0000_0000_0000_0000_0000_0000_0001, 1);
    let b = NetAddr::new(0xfe80_0000_0000_0000_0000_0000_0000_0001, 2);
    assert!(a.same(&a));
    assert!(!a.same(&b));
    assert_ne!(a, b);
}

#[test]
fn public_addresses_are_routable() {
    assert!(v4(8, 8, 8, 8).routable());
    assert!(v4(172, 32, 0, 1).routable());
    assert!(v4(11, 0, 0, 1).routable());
    assert!(NetAddr::new(0x2a00_1450_4001_0000_0000_0000_0000_200e, 0).routable());
}

#[test]
fn reserved_addresses_are_not_routable() {
    assert!(!NetAddr::new(0, 0).routable());
    assert!(!NetAddr::new(1, 0).routable());
    assert!(!v4(0, 0, 0, 0).routable());
    assert!(!v4(0, 1, 2, 3).routable());
    assert!(!v4(127, 0, 0, 1).routable());
    assert!(!v4(10, 1, 2, 3).routable());
    assert!(!v4(172, 16, 0, 1).routable());
    assert!(!v4(172, 31, 255, 255).routable());
    assert!(!v4(192, 168, 1, 1).routable());
    assert!(!v4(169, 254, 1, 1).routable());
    assert!(!v4(224, 0, 0, 1).routable());
    assert!(!v4(255, 255, 255, 255).routable());
    assert!(!NetAddr::new(0xfe80_0000_0000_0000_0000_0000_0000_0001, 3).routable());
    assert!(!NetAddr::new(0xfc00_0000_0000_0000_0000_0000_0000_0001, 0).routable());
    assert!(!NetAddr::new(0xfd12_3456_0000_0000_0000_0000_0000_0001, 0).routable());
    assert!(!NetAddr::new(0xff02_0000_0000_0000_0000_0000_0000_0001, 0).routable());
}

#[test]
fn prefix_masks() {
    assert_eq!(mask_of(0), 0);
    assert_eq!(mask_of(1), 1u128 << 127);
    assert_eq!(mask_of(8), 0xffu128 << 120);
    assert_eq!(mask_of(104), !0u128 << 24);
    assert_eq!(mask_of(127), !1u128);
    assert_eq!(mask_of(128), !0u128);
    assert_eq!(mask_of(200), !0u128);
}

#[test]
fn subnet_is_filed_in_canonical_form() {
    let s = SubNet::new(NetAddr::new(v4(10, 1, 2, 3).ip, 7), 104);
    assert_eq!(s.network, v4(10, 0, 0, 0));
    assert_eq!(s.prefix_len, 104);
    assert_eq!(s.normalized(), s);
    let wide = SubNet::new(v4(10, 1, 2, 3), 250);
    assert_eq!(wide.prefix_len, 128);
    assert_eq!(wide.network, v4(10, 1, 2, 3));
}

#[test]
fn subnet_holds_the_addresses_of_its_prefix() {
    let s = SubNet::new(v4(10, 1, 2, 3), 104);
    assert!(s.includes(&v4(10, 0, 0, 0)));
    assert!(s.includes(&v4(10, 255, 255, 255)));
    assert!(!s.includes(&v4(11, 0, 0, 0)));
    assert!(!s.includes(&v4(9, 255, 255, 255)));
    let all = SubNet::new(v4(10, 1, 2, 3), 0);
    assert!(all.includes(&v4(200, 1, 1, 1)));
    assert!(all.includes(&NetAddr::new(5, 0)));
    let one = SubNet::new(v4(10, 1, 2, 3), 128);
    assert!(one.includes(&v4(10, 1, 2, 3)));
    assert!(!one.includes(&v4(10, 1, 2, 2)));
    let raw = SubNet { network: v4(10, 1, 2, 3), prefix_len: 104 };
    assert!(raw.includes(&v4(10, 9, 9, 9)));
}

#[test]
fn ban_target_covers_address_or_range() {
    let a = v4(8, 8, 8, 8);
    assert!(BanAddr::Net(a).applies_to(&a));
    assert!(!BanAddr::Net(a).applies_to(&v4(8, 8, 8, 9)));
    assert!(!BanAddr::Net(a).applies_to(&NetAddr::new(a.ip, 1)));
    let range = BanAddr::Sub(SubNet { network: v4(8, 8, 1, 1), prefix_len: 112 });
    assert!(range.applies_to(&v4(8, 8, 200, 200)));
    assert!(!range.applies_to(&v4(8, 9, 0, 0)));
    assert_eq!(range.normalized(), BanAddr::Sub(SubNet::new(v4(8, 8, 0, 0), 112)));
    assert!(range.normalized().same(&BanAddr::Sub(SubNet::new(v4(8, 8, 77, 1), 112))));
    assert_eq!(BanAddr::Net(a).normalized(), BanAddr::Net(a));
}

#[test]
fn unknown_carries_its_value() {
    let u = Unknown::new(17i64);
    assert_eq!(u.inner, 17);
    assert_eq!(u.into_inner(), 17);
}

#[test]
fn service_flags_keep_unknown_bits() {
    let bits: u64 = 0xdead_0000_0f00_0409;
    let f = ServiceFlags::from_bits(bits);
    assert_eq!(f.to_bits(), bits);
    assert!(f.contains(NODE_NETWORK));
    assert!(f.contains(NODE_WITNESS));
    assert!(f.contains(NODE_NETWORK_LIMITED));
    assert!(!f.contains(NODE_BLOOM));
    assert!(f.contains(NODE_NONE));
    assert!(f.contains(NODE_NETWORK | NODE_WITNESS));
    assert!(!f.contains(NODE_NETWORK | NODE_BLOOM));
}

#[test]
fn service_flags_set_and_clear() {
    let f = ServiceFlags::from_bits(0x8000_0000_0000_0001);
    let g = f.with(NODE_BLOOM);
    assert_eq!(g.to_bits(), 0x8000_0000_0000_0005);
    assert!(g.contains(NODE_BLOOM));
    let h = g.without(NODE_NETWORK);
    assert_eq!(h.to_bits(), 0x8000_0000_0000_0004);
    assert!(!h.contains(NODE_NETWORK));
    assert_eq!(ServiceFlags::none().to_bits(), 0);
    assert_eq!(ServiceFlags::none().with(NODE_NONE).to_bits(), 0);
}

#[test]
fn endpoints_are_told_apart_by_address_and_port() {
    let a = Service::new(v4(8, 8, 8, 8), 8333, ServiceFlags::from_bits(NODE_NETWORK));
    let b = Service::new(v4(8, 8, 8, 8), 8333, ServiceFlags::from_bits(NODE_WITNESS));
    let c = Service::new(v4(8, 8, 8, 8), 8334, ServiceFlags::from_bits(NODE_NETWORK));
    let d = Service::new(v4(8, 8, 8, 9), 8333, ServiceFlags::from_bits(NODE_NETWORK));
    assert!(a.same_endpoint(&b));
    assert!(!a.same_endpoint(&c));
    assert!(!a.same_endpoint(&d));
    let addr = Address::new(a, 1_000);
    assert_eq!(addr.inner, a);
    assert_eq!(addr.time, 1_000);
}

#[test]
fn mixing_gives_the_known_values() {
    assert_eq!(mix(0), 0);
    assert_eq!(mix(1), 0x5692_161d_100b_05e5);
    assert_eq!(mix(0x9e37_79b9_7f4a_7c15), 0xe220_a839_7b1d_cdaf);
}

#[test]
fn draw_moves_the_stream_on() {
    let mut state: u64 = 0;
    let first = draw(&mut state);
    assert_eq!(state, 0x9e37_79b9_7f4a_7c15);
    assert_eq!(first, 0xe220_a839_7b1d_cdaf);
    let mut wrap: u64 = u64::MAX;
    let _ = draw(&mut wrap);
    assert_eq!(wrap, 0x9e37_79b9_7f4a_7c14);
}

#[test]
fn endpoint_hash_depends_on_every_part() {
    let a = v4(8, 8, 8, 8);
    let h = hash_endpoint(7, 1, &a, 8333);
    assert_eq!(h, 0x4f82_c6dd_c98b_753f);
    assert_ne!(h, hash_endpoint(8, 1, &a, 8333));
    assert_ne!(h, hash_endpoint(7, 2, &a, 8333));
    assert_ne!(h, hash_endpoint(7, 1, &v4(8, 8, 8, 9), 8333));
    assert_ne!(h, hash_endpoint(7, 1, &a, 8334));
    assert_ne!(h, hash_endpoint(7, 1, &NetAddr::new(a.ip, 1), 8333));
}

#[test]
fn prefix_is_counted_as_the_family_counts() {
    let four = v4(10, 1, 2, 3);
    let six = NetAddr::new(0x2001_0db8_0000_0000_0000_0000_0000_0001, 0);
    assert_eq!(prefix_in_family(&four, 0), 96);
    assert_eq!(prefix_in_family(&four, 8), 104);
    assert_eq!(prefix_in_family(&four, 32), 128);
    assert_eq!(prefix_in_family(&four, 33), 128);
    assert_eq!(prefix_in_family(&four, 255), 128);
    assert_eq!(prefix_in_family(&six, 0), 0);
    assert_eq!(prefix_in_family(&six, 32), 32);
    assert_eq!(prefix_in_family(&six, 128), 128);
    assert_eq!(prefix_in_family(&six, 129), 128);
}

#[test]
fn range_around_an_address_covers_it() {
    let four = v4(10, 1, 2, 3);
    let range = BanAddr::range(&four, 8);
    assert_eq!(range, BanAddr::Sub(SubNet::new(v4(10, 0, 0, 0), 104)));
    assert!(range.applies_to(&four));
    assert!(range.applies_to(&v4(10, 200, 0, 0)));
    assert!(!range.applies_to(&v4(11, 0, 0, 0)));
    assert_eq!(range.normalized(), range);
    let every_v4 = BanAddr::range(&four, 0);
    assert!(every_v4.applies_to(&v4(200, 1, 1, 1)));
    assert!(!every_v4.applies_to(&NetAddr::new(0x2001_0db8_0000_0000_0000_0000_0000_0001, 0)));
    let scoped = NetAddr::new(0xfe80_0000_0000_0000_0000_0000_0000_0001, 4);
    let six = BanAddr::range(&scoped, 64);
    assert_eq!(
        six,
        BanAddr::Sub(SubNet { network: NetAddr::new(0xfe80_0000_0000_0000_0000_0000_0000_0000, 0), prefix_len: 64 })
    );
    assert!(six.applies_to(&scoped));
    assert_eq!(BanAddr::range(&four, 32), BanAddr::Sub(SubNet::new(four, 128)));
}
