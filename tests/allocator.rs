use scaleway_test::ipam::{Ipam, IpamApiMock, Mac, DEFAULT_DURATION};
use scaleway_test::vpc::{Ipv4Cidr, PnId, PrivateNetwork, Subnet, SubnetID, VpcApiMock};

fn ip(a: u8, b: u8, c: u8, d: u8) -> u32 {
    u32::from_be_bytes([a, b, c, d])
}

fn mac(last: u8) -> Mac {
    Mac::new([0xaa, 0xbb, 0xcc, 0xdd, 0xee, last])
}

fn topology(addr: u32, prefix: u8) -> VpcApiMock {
    VpcApiMock {
        pns: vec![PrivateNetwork {
            id: PnId::new("pn-a"),
            name: "backend".to_string(),
            vni: 7,
            subnets: vec![Subnet { id: SubnetID::new("s1"), cidr: Ipv4Cidr::new(addr, prefix).unwrap() }],
        }],
    }
}

#[test]
fn first_host_address_is_handed_out() {
    let vpc = VpcApiMock::new();
    let mut ipam = IpamApiMock::new();
    assert_eq!(ipam.assign_ip_at(mac(1), &vpc, 30, 0), Some(ip(192, 168, 1, 1)));
    assert_eq!(ipam.assign_ip_at(mac(2), &vpc, 30, 0), Some(ip(192, 168, 1, 2)));
}

#[test]
fn assign_twice_gives_same_address() {
    let vpc = VpcApiMock::new();
    let mut ipam = IpamApiMock::new();
    let a = ipam.assign_ip_at(mac(1), &vpc, 30, 100);
    let b = ipam.assign_ip_at(mac(1), &vpc, 500, 110);
    assert_eq!(a, b);
    assert_eq!(ipam.leases().len(), 1);
    // the second call leaves the lease as it was
    assert_eq!(ipam.leases()[0].duration, 30);
    assert_eq!(ipam.leases()[0].updated, 100);
}

#[test]
fn assign_with_clock_is_idempotent() {
    let vpc = VpcApiMock::new();
    let mut ipam = IpamApiMock::new();
    let a = ipam.assign_ip(mac(1), &vpc, 3600);
    let b = ipam.assign_ip(mac(1), &vpc, 3600);
    assert!(a.is_some());
    assert_eq!(a, b);
}

#[test]
fn exhausted_subnet_refuses() {
    // a /30 has two host addresses
    let vpc = topology(ip(10, 0, 0, 0), 30);
    let mut ipam = IpamApiMock::new();
    assert_eq!(ipam.assign_ip_at(mac(1), &vpc, 60, 0), Some(ip(10, 0, 0, 1)));
    assert_eq!(ipam.assign_ip_at(mac(2), &vpc, 60, 0), Some(ip(10, 0, 0, 2)));
    assert_eq!(ipam.assign_ip_at(mac(3), &vpc, 60, 0), None);
    // a machine that already holds an address still gets it
    assert_eq!(ipam.assign_ip_at(mac(2), &vpc, 60, 0), Some(ip(10, 0, 0, 2)));
}

#[test]
fn exhausted_larger_subnet_refuses() {
    let vpc = topology(ip(10, 0, 0, 8), 29);
    let mut ipam = IpamApiMock::new();
    for i in 0..6u8 {
        assert_eq!(ipam.assign_ip_at(mac(i), &vpc, 60, 0), Some(ip(10, 0, 0, 9 + i)));
    }
    assert_eq!(ipam.assign_ip_at(mac(6), &vpc, 60, 0), None);
}

#[test]
fn no_host_addresses_in_slash_32() {
    let vpc = topology(ip(10, 0, 0, 5), 32);
    let mut ipam = IpamApiMock::new();
    assert_eq!(ipam.assign_ip_at(mac(1), &vpc, 60, 0), None);
}

#[test]
fn no_subnet_means_no_address() {
    let vpc = VpcApiMock { pns: vec![] };
    let mut ipam = IpamApiMock::new();
    assert_eq!(ipam.assign_ip_at(mac(1), &vpc, 60, 0), None);
}

#[test]
fn unexpired_address_is_not_reused() {
    let vpc = topology(ip(10, 0, 0, 0), 30);
    let mut ipam = IpamApiMock::new();
    assert_eq!(ipam.assign_ip_at(mac(1), &vpc, 100, 1000), Some(ip(10, 0, 0, 1)));
    assert_eq!(ipam.assign_ip_at(mac(2), &vpc, 100, 1099), Some(ip(10, 0, 0, 2)));
    assert_eq!(ipam.assign_ip_at(mac(3), &vpc, 100, 1099), None);
}

#[test]
fn expired_address_is_reused() {
    let vpc = topology(ip(10, 0, 0, 0), 30);
    let mut ipam = IpamApiMock::new();
    assert_eq!(ipam.assign_ip_at(mac(1), &vpc, 100, 1000), Some(ip(10, 0, 0, 1)));
    assert_eq!(ipam.assign_ip_at(mac(2), &vpc, 500, 1000), Some(ip(10, 0, 0, 2)));
    // exactly 100 seconds later the first lease has run out
    assert_eq!(ipam.assign_ip_at(mac(3), &vpc, 100, 1100), Some(ip(10, 0, 0, 1)));
    assert!(ipam.get_ip_by_mac(mac(1)).is_none());
}

#[test]
fn permanent_lease_is_never_swept() {
    let vpc = topology(ip(10, 0, 0, 0), 30);
    let mut ipam = IpamApiMock::new();
    assert_eq!(ipam.assign_ip_at(mac(1), &vpc, 0, 0), Some(ip(10, 0, 0, 1)));
    assert_eq!(ipam.assign_ip_at(mac(2), &vpc, 10, u64::MAX), Some(ip(10, 0, 0, 2)));
    assert_eq!(ipam.assign_ip_at(mac(3), &vpc, 10, u64::MAX), None);
    assert_eq!(ipam.get_ip_by_mac(mac(1)).unwrap().ip, ip(10, 0, 0, 1));
}

#[test]
fn lease_records_machine() {
    let vpc = VpcApiMock::new();
    let mut ipam = IpamApiMock::new();
    ipam.assign_ip_at(Mac::new([0xaa, 0xbb, 0xcc, 0xdd, 0xee, 0xff]), &vpc, 30, 5);
    let l = ipam.get_ip_by_mac(Mac::new([0xaa, 0xbb, 0xcc, 0xdd, 0xee, 0xff])).unwrap();
    assert_eq!(l.resource.name, "machine-AA:BB:CC:DD:EE:FF");
    assert_eq!(l.resource.id, "res-AA:BB:CC:DD:EE:FF");
    assert_eq!(l.subnet_id.as_str(), "subnet-1");
    assert_eq!(l.duration, 30);
    assert_eq!(l.updated, 5);
    let by_name = ipam.get_ip_by_name("machine-AA:BB:CC:DD:EE:FF").unwrap();
    assert_eq!(by_name.ip, l.ip);
    assert!(ipam.get_ip_by_name("machine-00:00:00:00:00:00").is_none());
}

#[test]
fn renew_sets_default_duration() {
    let vpc = VpcApiMock::new();
    let mut ipam = IpamApiMock::new();
    ipam.assign_ip_at(mac(1), &vpc, 30, 10);
    assert!(ipam.renew_lease_at(mac(1), 20).is_ok());
    let l = ipam.get_ip_by_mac(mac(1)).unwrap();
    assert_eq!(l.duration, DEFAULT_DURATION);
    assert_eq!(l.updated, 20);
}

#[test]
fn renew_unknown_mac_fails() {
    let mut ipam = IpamApiMock::new();
    assert!(ipam.renew_lease_at(mac(9), 20).is_err());
    assert!(ipam.renew_lease(mac(9)).is_err());
}

#[test]
fn renew_expired_lease_fails() {
    let vpc = VpcApiMock::new();
    let mut ipam = IpamApiMock::new();
    ipam.assign_ip_at(mac(1), &vpc, 30, 10);
    assert!(ipam.renew_lease_at(mac(1), 40).is_err());
    assert_eq!(ipam.get_ip_by_mac(mac(1)).unwrap().duration, 30);
}

#[test]
fn default_duration_is_42_days() {
    assert_eq!(DEFAULT_DURATION, 42 * 24 * 60 * 60);
}

#[test]
fn duplicate_leases_are_not_well_formed() {
    let vpc = VpcApiMock::new();
    let mut ipam = IpamApiMock::new();
    ipam.assign_ip_at(mac(1), &vpc, 30, 0);
    ipam.assign_ip_at(mac(2), &vpc, 30, 0);
    assert!(ipam.is_well_formed());
    let copy = ipam.assignments[0].clone();
    ipam.assignments.push(copy);
    assert!(!ipam.is_well_formed());
}

#[test]
fn lowest_network_and_subnet_are_used() {
    let vpc = VpcApiMock {
        pns: vec![
            PrivateNetwork {
                id: PnId::new("pn-b"),
                name: "second".to_string(),
                vni: 2,
                subnets: vec![Subnet { id: SubnetID::new("a"), cidr: Ipv4Cidr::new(ip(10, 2, 0, 0), 24).unwrap() }],
            },
            PrivateNetwork {
                id: PnId::new("pn-a"),
                name: "first".to_string(),
                vni: 1,
                subnets: vec![
                    Subnet { id: SubnetID::new("s-z"), cidr: Ipv4Cidr::new(ip(10, 1, 9, 0), 24).unwrap() },
                    Subnet { id: SubnetID::new("s-b"), cidr: Ipv4Cidr::new(ip(10, 1, 2, 0), 24).unwrap() },
                    Subnet { id: SubnetID::new("s-bb"), cidr: Ipv4Cidr::new(ip(10, 1, 3, 0), 24).unwrap() },
                ],
            },
        ],
    };
    assert_eq!(vpc.pick_subnet().unwrap().id.as_str(), "s-b");
    let mut ipam = IpamApiMock::new();
    assert_eq!(ipam.assign_ip_at(mac(1), &vpc, 60, 0), Some(ip(10, 1, 2, 1)));
    assert_eq!(ipam.get_ip_by_mac(mac(1)).unwrap().subnet_id.as_str(), "s-b");
}

fn address_of<I: Ipam>(store: &I, m: Mac) -> Option<u32> {
    store.get_ip_by_mac(m).map(|l| l.ip)
}

#[test]
fn leases_work_through_trait() {
    let vpc = VpcApiMock::new();
    let mut ipam = IpamApiMock::new();
    let a = Ipam::assign_ip(&mut ipam, mac(4), &vpc, 600);
    assert_eq!(a, Some(ip(192, 168, 1, 1)));
    assert_eq!(address_of(&ipam, mac(4)), a);
    assert!(Ipam::renew_lease(&mut ipam, mac(4)).is_ok());
    assert_eq!(Ipam::get_ip_by_name(&ipam, "machine-AA:BB:CC:DD:EE:04").map(|l| l.duration), Some(DEFAULT_DURATION));
}
