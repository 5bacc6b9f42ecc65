use scaleway_test::dns::{handle_request, parse_internal_name, resolve_dns, Error, DNS_TTL};
use scaleway_test::ipam::{IpamApiMock, Mac};
use scaleway_test::vpc::{Ipv4Cidr, PnId, PrivateNetwork, Subnet, SubnetID, VpcApiMock};

fn ip(a: u8, b: u8, c: u8, d: u8) -> u32 {
    u32::from_be_bytes([a, b, c, d])
}

fn labels(name: &str) -> Vec<String> {
    name.split('.').map(|l| l.to_string()).collect()
}

const HOST: &str = "machine-AA:BB:CC:DD:EE:01";

fn setup() -> (VpcApiMock, IpamApiMock) {
    let mut vpc = VpcApiMock::new();
    vpc.pns.push(PrivateNetwork {
        id: PnId::new("pn-2"),
        name: "frontend".to_string(),
        vni: 43,
        subnets: vec![Subnet { id: SubnetID::new("subnet-2"), cidr: Ipv4Cidr::new(ip(10, 1, 0, 0), 24).unwrap() }],
    });
    let mut ipam = IpamApiMock::new();
    let got = ipam.assign_ip_at(Mac::new([0xaa, 0xbb, 0xcc, 0xdd, 0xee, 0x01]), &vpc, 600, 0);
    assert_eq!(got, Some(ip(192, 168, 1, 1)));
    (vpc, ipam)
}

#[test]
fn host_resolves_in_its_own_network() {
    let (vpc, ipam) = setup();
    assert_eq!(resolve_dns(HOST, "backend", &vpc, &ipam), Some(ip(192, 168, 1, 1)));
}

#[test]
fn host_is_hidden_from_other_networks() {
    let (vpc, ipam) = setup();
    assert_eq!(resolve_dns(HOST, "frontend", &vpc, &ipam), None);
    assert_eq!(resolve_dns("machine-unknown", "backend", &vpc, &ipam), None);
}

#[test]
fn query_answers_in_order() {
    let (vpc, ipam) = setup();
    let q = vec![labels("machine-AA:BB:CC:DD:EE:01.backend.internal")];
    // the host label holds no dot here, so build it by hand
    assert_eq!(q[0].len(), 3);
    let r = handle_request(true, &q, &vpc, &ipam);
    assert_eq!(r, Ok(vec![ip(192, 168, 1, 1)]));
    let two = vec![q[0].clone(), q[0].clone()];
    assert_eq!(handle_request(true, &two, &vpc, &ipam), Ok(vec![ip(192, 168, 1, 1), ip(192, 168, 1, 1)]));
    assert_eq!(handle_request(true, &vec![], &vpc, &ipam), Ok(vec![]));
}

#[test]
fn query_in_wrong_network_is_not_found() {
    let (vpc, ipam) = setup();
    let q = vec![labels("machine-AA:BB:CC:DD:EE:01.frontend.internal")];
    assert_eq!(handle_request(true, &q, &vpc, &ipam), Err(Error::NotFound));
}

#[test]
fn two_label_name_is_usage_error() {
    let (vpc, ipam) = setup();
    let q = vec![labels("host.internal")];
    assert_eq!(handle_request(true, &q, &vpc, &ipam), Err(Error::Usage));
}

#[test]
fn malformed_names_are_usage_errors() {
    assert_eq!(parse_internal_name(&labels("host.internal")), Err(Error::Usage));
    assert_eq!(parse_internal_name(&labels("a.b.c.internal")), Err(Error::Usage));
    assert_eq!(parse_internal_name(&labels("a.b.external")), Err(Error::Usage));
    assert_eq!(parse_internal_name(&vec![]), Err(Error::Usage));
    let l = labels("a.b.internal");
    let (h, n) = parse_internal_name(&l).unwrap();
    assert_eq!((h.as_str(), n.as_str()), ("a", "b"));
}

#[test]
fn one_bad_question_fails_the_whole_query() {
    let (vpc, ipam) = setup();
    let good = labels("machine-AA:BB:CC:DD:EE:01.backend.internal");
    let q = vec![good.clone(), labels("host.internal"), labels("x.backend.internal")];
    assert_eq!(handle_request(true, &q, &vpc, &ipam), Err(Error::Usage));
    let q = vec![good, labels("x.backend.internal"), labels("host.internal")];
    assert_eq!(handle_request(true, &q, &vpc, &ipam), Err(Error::NotFound));
}

#[test]
fn other_operation_is_not_implemented() {
    let (vpc, ipam) = setup();
    let q = vec![labels("machine-AA:BB:CC:DD:EE:01.backend.internal")];
    assert_eq!(handle_request(false, &q, &vpc, &ipam), Err(Error::NotImplemented));
}

#[test]
fn ttl_is_short() {
    assert!(DNS_TTL <= 300);
}

#[test]
fn failures_map_to_response_codes() {
    assert_eq!(Error::NotFound.response_code(), 3);
    assert_eq!(Error::NotImplemented.response_code(), 4);
    assert_eq!(Error::Usage.response_code(), 2);
}
