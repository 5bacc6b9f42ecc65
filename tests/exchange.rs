use scaleway_test::dhcp::{handle_dhcp_request, DhcpRequest, DhcpServer, MessageKind, ReplyKind, PROBATION_SECS};
use scaleway_test::ipam::{IpamApiMock, Mac, DEFAULT_DURATION};
use scaleway_test::vpc::{Ipv4Cidr, PnId, PrivateNetwork, Subnet, SubnetID, VpcApiMock};

fn ip(a: u8, b: u8, c: u8, d: u8) -> u32 {
    u32::from_be_bytes([a, b, c, d])
}

fn client() -> Mac {
    Mac::new([0x02, 0, 0, 0, 0, 0x42])
}

fn msg(kind: MessageKind, requested_ip: Option<u32>) -> DhcpRequest {
    DhcpRequest { is_boot_request: true, kind, xid: 0xdead_beef, htype: 1, mac: client(), requested_ip }
}

fn setup() -> (DhcpServer, IpamApiMock, VpcApiMock) {
    let vpc = VpcApiMock::new();
    let mut ipam = IpamApiMock::new();
    let server = DhcpServer::new(Mac::new([0x02, 0, 0, 0, 0, 1]), &mut ipam, &vpc).unwrap();
    (server, ipam, vpc)
}

#[test]
fn server_takes_first_address_for_good() {
    let (server, ipam, _) = setup();
    assert_eq!(server.ip, ip(192, 168, 1, 1));
    assert_eq!(ipam.get_ip_by_mac(server.mac).unwrap().duration, 0);
}

#[test]
fn discover_gets_offer() {
    let (server, mut ipam, vpc) = setup();
    let offer = server.request_at(&msg(MessageKind::Discover, None), &mut ipam, &vpc, 100).unwrap();
    assert_eq!(offer.kind, ReplyKind::Offer);
    assert_eq!(offer.yiaddr, ip(192, 168, 1, 2));
    assert_eq!(offer.xid, 0xdead_beef);
    assert_eq!(offer.htype, 1);
    assert_eq!(offer.mac.0, client().0);
    assert_eq!(offer.server_id, ip(192, 168, 1, 1));
    assert_eq!(offer.lease_secs, DEFAULT_DURATION as u32);
    assert_eq!(offer.subnet_mask, ip(255, 255, 255, 0));
    assert_eq!(ipam.get_ip_by_mac(client()).unwrap().duration, PROBATION_SECS);
}

#[test]
fn discover_then_request_same_address() {
    let (server, mut ipam, vpc) = setup();
    let offer = server.request_at(&msg(MessageKind::Discover, None), &mut ipam, &vpc, 100).unwrap();
    let ack = server.request_at(&msg(MessageKind::Request, Some(offer.yiaddr)), &mut ipam, &vpc, 110).unwrap();
    assert_eq!(ack.kind, ReplyKind::Ack);
    assert_eq!(ack.yiaddr, offer.yiaddr);
    assert_eq!(ack.lease_secs, DEFAULT_DURATION as u32);
    let l = ipam.get_ip_by_mac(client()).unwrap();
    assert_eq!(l.duration, DEFAULT_DURATION);
    assert_eq!(l.updated, 110);
}

#[test]
fn request_for_other_address_is_refused() {
    let (server, mut ipam, vpc) = setup();
    server.request_at(&msg(MessageKind::Discover, None), &mut ipam, &vpc, 100).unwrap();
    let nak = server.request_at(&msg(MessageKind::Request, Some(ip(192, 168, 1, 99))), &mut ipam, &vpc, 110).unwrap();
    assert_eq!(nak.kind, ReplyKind::Nak);
    assert_eq!(nak.yiaddr, 0);
    assert_eq!(ipam.get_ip_by_mac(client()).unwrap().duration, PROBATION_SECS);
}

#[test]
fn reply_is_ignored() {
    let (server, mut ipam, vpc) = setup();
    let mut m = msg(MessageKind::Discover, None);
    m.is_boot_request = false;
    assert!(server.request_at(&m, &mut ipam, &vpc, 100).is_none());
    assert!(ipam.get_ip_by_mac(client()).is_none());
}

#[test]
fn other_message_type_is_dropped() {
    let (server, mut ipam, vpc) = setup();
    assert!(server.request_at(&msg(MessageKind::Other, None), &mut ipam, &vpc, 100).is_none());
    assert_eq!(ipam.leases().len(), 1);
}

#[test]
fn discover_without_address_is_silent() {
    let vpc = VpcApiMock {
        pns: vec![PrivateNetwork {
            id: PnId::new("pn-a"),
            name: "tiny".to_string(),
            vni: 1,
            subnets: vec![Subnet { id: SubnetID::new("s"), cidr: Ipv4Cidr::new(ip(10, 0, 0, 0), 30).unwrap() }],
        }],
    };
    let mut ipam = IpamApiMock::new();
    let server = DhcpServer::new(Mac::new([0x02, 0, 0, 0, 0, 1]), &mut ipam, &vpc).unwrap();
    let other = DhcpRequest { mac: Mac::new([0x02, 0, 0, 0, 0, 7]), ..msg(MessageKind::Discover, None) };
    let offer = server.request_at(&other, &mut ipam, &vpc, 0).unwrap();
    assert_eq!(offer.subnet_mask, ip(255, 255, 255, 252));
    assert!(server.request_at(&msg(MessageKind::Discover, None), &mut ipam, &vpc, 0).is_none());
    let nak = server.request_at(&msg(MessageKind::Request, None), &mut ipam, &vpc, 0).unwrap();
    assert_eq!(nak.kind, ReplyKind::Nak);
}

#[test]
fn request_with_clock() {
    let (server, mut ipam, vpc) = setup();
    let offer = server.request(&msg(MessageKind::Discover, None), &mut ipam, &vpc).unwrap();
    let ack = server.request(&msg(MessageKind::Request, None), &mut ipam, &vpc).unwrap();
    assert_eq!(ack.yiaddr, offer.yiaddr);
}

#[test]
fn text_mac_gets_address() {
    let vpc = VpcApiMock::new();
    let mut ipam = IpamApiMock::new();
    assert_eq!(handle_dhcp_request("aa:bb:cc:dd:ee:ff", &vpc, &mut ipam), Some(ip(192, 168, 1, 1)));
    let l = ipam.get_ip_by_mac(Mac::new([0xaa, 0xbb, 0xcc, 0xdd, 0xee, 0xff])).unwrap();
    assert_eq!(l.duration, PROBATION_SECS);
    assert_eq!(handle_dhcp_request("not a mac", &vpc, &mut ipam), None);
    assert_eq!(ipam.leases().len(), 1);
}
