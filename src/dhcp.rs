//! The DHCP exchange: what the server answers to each inbound message.
use crate::ipam::{
    assign_spec, has_mac, is_first_of_mac, keys_unique, lemma_assign_idempotent, lemma_assigned_lease,
    lemma_first_of_mac_unique, lemma_live_from, lemma_live_keeps, live, renew_spec, renewed, IpamApiMock, LeaseView, Mac,
    DEFAULT_DURATION,
};
use crate::vpc::{cidr_of, lemma_cidr_of_wf, PnView, VpcApiMock};
use vstd::prelude::*;

verus! {

/// How long an offered address is held for the client while the exchange
/// completes, in seconds.
pub const PROBATION_SECS: u64 = 30;

/// Why an exchange got no address.
#[derive(Clone, Copy, Debug, PartialEq, Eq, Structural)]
pub enum Error {
    NoIpAvailable,
}

/// The DHCP message type of an inbound message, as far as the server cares.
#[derive(Clone, Copy, Debug, PartialEq, Eq, Structural)]
pub enum MessageKind {
    Discover,
    Request,
    Other,
}

/// The message type of a reply.
#[derive(Clone, Copy, Debug, PartialEq, Eq, Structural)]
pub enum ReplyKind {
    Offer,
    Ack,
    Nak,
}

/// The fields of an inbound message that the server reads.
#[derive(Clone, Copy, Debug)]
pub struct DhcpRequest {
    /// Whether the operation code is BOOTREQUEST.
    pub is_boot_request: bool,
    pub kind: MessageKind,
    pub xid: u32,
    pub htype: u8,
    pub mac: Mac,
    /// The address the client asks for, where it names one.
    pub requested_ip: Option<u32>,
}

/// A reply, field by field; the lease time is in seconds.
#[derive(Clone, Copy, Debug)]
pub struct DhcpReply {
    pub kind: ReplyKind,
    pub xid: u32,
    pub htype: u8,
    pub mac: Mac,
    pub yiaddr: u32,
    pub server_id: u32,
    pub lease_secs: u32,
    pub subnet_mask: u32,
}

/// The reply of kind `kind` that describes the lease of the requesting
/// machine in `s`: its address, and the mask of its subnet.
pub open spec fn lease_reply(
    server_ip: u32,
    msg: DhcpRequest,
    kind: ReplyKind,
    s: Seq<LeaseView>,
    topo: Seq<PnView>,
) -> Option<DhcpReply> {
    if exists|k: int| is_first_of_mac(s, msg.mac@, k) {
        let k = choose|k: int| is_first_of_mac(s, msg.mac@, k);
        match cidr_of(topo, s[k].subnet_id) {
            Some(c) => Some(
                DhcpReply {
                    kind,
                    xid: msg.xid,
                    htype: msg.htype,
                    mac: msg.mac,
                    yiaddr: s[k].ip,
                    server_id: server_ip,
                    lease_secs: DEFAULT_DURATION as u32,
                    subnet_mask: c.netmask() as u32,
                },
            ),
            None => None,
        }
    } else {
        None
    }
}

/// The refusal of a request.
pub open spec fn nak_reply(server_ip: u32, msg: DhcpRequest) -> DhcpReply {
    DhcpReply {
        kind: ReplyKind::Nak,
        xid: msg.xid,
        htype: msg.htype,
        mac: msg.mac,
        yiaddr: 0,
        server_id: server_ip,
        lease_secs: 0,
        subnet_mask: 0,
    }
}

/// What the server does with one message: `pre` and `post` are the lease
/// store before and after, `r` the reply, if any.
pub open spec fn dhcp_spec(
    server_ip: u32,
    msg: DhcpRequest,
    pre: Seq<LeaseView>,
    topo: Seq<PnView>,
    now: u64,
    r: Option<DhcpReply>,
    post: Seq<LeaseView>,
) -> bool {
    if !msg.is_boot_request || msg.kind == MessageKind::Other {
        r is None && post == pre
    } else if msg.kind == MessageKind::Discover {
        exists|a: Option<u32>|
            #[trigger] assign_spec(pre, topo, msg.mac@, PROBATION_SECS, now, a, post) && if a is Some {
                r == lease_reply(server_ip, msg, ReplyKind::Offer, post, topo)
            } else {
                r is None
            }
    } else {
        exists|a: Option<u32>, mid: Seq<LeaseView>|
            #[trigger] assign_spec(pre, topo, msg.mac@, PROBATION_SECS, now, a, mid) && match a {
                None => r == Some(nak_reply(server_ip, msg)) && post == mid,
                Some(ip) => if msg.requested_ip matches Some(q) && q != ip {
                    r == Some(nak_reply(server_ip, msg)) && post == mid
                } else {
                    exists|ok: bool|
                        #[trigger] renew_spec(mid, msg.mac@, now, ok, post) && if ok {
                            r == lease_reply(server_ip, msg, ReplyKind::Ack, post, topo)
                        } else {
                            r == Some(nak_reply(server_ip, msg))
                        }
                },
            }
    }
}

/// A DISCOVER and then a REQUEST from the same machine, its lease not run
/// out in between, get the same address; the ACK carries the full lease
/// time, and the lease is committed for it.
pub proof fn lemma_discover_then_request(
    server_ip: u32,
    discover: DhcpRequest,
    request: DhcpRequest,
    pre: Seq<LeaseView>,
    topo: Seq<PnView>,
    now1: u64,
    offer: DhcpReply,
    mid: Seq<LeaseView>,
    now2: u64,
    r: Option<DhcpReply>,
    post: Seq<LeaseView>,
)
    requires
        discover.is_boot_request && discover.kind == MessageKind::Discover,
        request.is_boot_request && request.kind == MessageKind::Request,
        request.mac@ == discover.mac@,
        request.requested_ip is None || request.requested_ip == Some(offer.yiaddr),
        dhcp_spec(server_ip, discover, pre, topo, now1, Some(offer), mid),
        keys_unique(mid),
        forall|k: int| 0 <= k < mid.len() && (#[trigger] mid[k]).mac == discover.mac@ ==> !mid[k].is_expired(now2),
        dhcp_spec(server_ip, request, mid, topo, now2, r, post),
    ensures
        r matches Some(ack) && ack.kind == ReplyKind::Ack && ack.yiaddr == offer.yiaddr && ack.lease_secs
            == DEFAULT_DURATION as u32,
        exists|k: int| #[trigger] is_first_of_mac(post, discover.mac@, k) && post[k].duration == DEFAULT_DURATION,
{
    let mac = discover.mac@;
    let a1 = choose|a: Option<u32>|
        #[trigger] assign_spec(pre, topo, mac, PROBATION_SECS, now1, a, mid) && if a is Some {
            Some(offer) == lease_reply(server_ip, discover, ReplyKind::Offer, mid, topo)
        } else {
            Some(offer) is None
        };
    lemma_assigned_lease(pre, topo, mac, PROBATION_SECS, now1, a1, mid);
    let k1 = choose|k: int| #[trigger] is_first_of_mac(mid, mac, k) && Some(mid[k].ip) == a1;
    let kc = choose|k: int| is_first_of_mac(mid, mac, k);
    lemma_first_of_mac_unique(mid, mac, k1, kc);
    assert(offer.yiaddr == mid[k1].ip);
    let sid = mid[k1].subnet_id;
    assert(cidr_of(topo, sid) is Some);

    let (a2, mid2) = choose|a: Option<u32>, m: Seq<LeaseView>|
        #[trigger] assign_spec(mid, topo, request.mac@, PROBATION_SECS, now2, a, m) && match a {
            None => r == Some(nak_reply(server_ip, request)) && post == m,
            Some(ip) => if request.requested_ip matches Some(q) && q != ip {
                r == Some(nak_reply(server_ip, request)) && post == m
            } else {
                exists|ok: bool|
                    #[trigger] renew_spec(m, request.mac@, now2, ok, post) && if ok {
                        r == lease_reply(server_ip, request, ReplyKind::Ack, post, topo)
                    } else {
                        r == Some(nak_reply(server_ip, request))
                    }
            },
        };
    lemma_assign_idempotent(pre, topo, mac, PROBATION_SECS, now1, a1, mid, PROBATION_SECS, now2, a2, mid2);
    assert(a2 == Some(offer.yiaddr));
    lemma_assigned_lease(mid, topo, mac, PROBATION_SECS, now2, a2, mid2);
    let k2 = choose|k: int| #[trigger] is_first_of_mac(mid2, mac, k) && Some(mid2[k].ip) == a2;
    // the machine already held its lease, so the sweep result is kept as it is
    let sw = live(mid, now2);
    lemma_live_from(mid, now2);
    lemma_live_keeps(mid, now2, k1);
    assert(has_mac(sw, mac)) by {
        let m = choose|m: int| 0 <= m < sw.len() && #[trigger] sw[m] == mid[k1];
        assert(sw[m].mac == mac);
    }
    assert(mid2 == sw);
    assert(!mid2[k2].is_expired(now2));
    let j = choose|j: int| 0 <= j < mid.len() && #[trigger] sw[k2] == mid[j];
    assert(j == k1) by {
        if j != k1 {
            assert(mid[j].mac == mid[k1].mac);
        }
    }
    let ok = choose|ok: bool|
        #[trigger] renew_spec(mid2, request.mac@, now2, ok, post) && if ok {
            r == lease_reply(server_ip, request, ReplyKind::Ack, post, topo)
        } else {
            r == Some(nak_reply(server_ip, request))
        };
    assert(ok);
    assert(post == mid2.update(k2, renewed(mid2[k2], now2)));
    assert(is_first_of_mac(post, mac, k2));
    let kp = choose|k: int| is_first_of_mac(post, request.mac@, k);
    lemma_first_of_mac_unique(post, mac, k2, kp);
    assert(post[k2].subnet_id == sid);
}

/// The DHCP server's own identity: its hardware address and the permanent
/// address it holds.
#[derive(Clone, Copy, Debug)]
pub struct DhcpServer {
    pub mac: Mac,
    pub ip: u32,
}

impl DhcpServer {
    /// Takes the server's own address: a permanent lease (duration zero).
    /// `None` where no address is left.
    pub fn new(mac: Mac, ipam: &mut IpamApiMock, vpc: &VpcApiMock) -> (r: Option<DhcpServer>)
        requires
            old(ipam).wf(),
            vpc.wf(),
        ensures
            final(ipam).wf(),
            final(ipam).clock == old(ipam).clock,
            r is Some ==> r.unwrap().mac == mac && exists|now: u64|
                #[trigger] assign_spec(old(ipam)@, vpc@, mac@, 0, now, Some(r.unwrap().ip), final(ipam)@),
            r is None ==> exists|now: u64| #[trigger] assign_spec(old(ipam)@, vpc@, mac@, 0, now, None, final(ipam)@),
    {
        let ghost pre = ipam@;
        let now = ipam.now();
        let a = ipam.assign_ip_at(mac, vpc, 0, now);
        assert(assign_spec(pre, vpc@, mac@, 0, now, a, ipam@));
        match a {
            Some(ip) => {
                let srv = DhcpServer { mac, ip };
                assert(assign_spec(pre, vpc@, mac@, 0, now, Some(srv.ip), ipam@));
                assert(Some(srv).unwrap().mac == mac);
                Some(srv)
            },
            None => None,
        }
    }

    /// A reply of kind `kind` on address `ip` with the full lease time.
    fn build_offer(&self, request: &DhcpRequest, kind: ReplyKind, ip: u32, mask: u32) -> (r: DhcpReply)
        ensures
            r == (DhcpReply {
                kind,
                xid: request.xid,
                htype: request.htype,
                mac: request.mac,
                yiaddr: ip,
                server_id: self.ip,
                lease_secs: DEFAULT_DURATION as u32,
                subnet_mask: mask,
            }),
    {
        DhcpReply {
            kind,
            xid: request.xid,
            htype: request.htype,
            mac: request.mac,
            yiaddr: ip,
            server_id: self.ip,
            lease_secs: DEFAULT_DURATION as u32,
            subnet_mask: mask,
        }
    }

    /// The refusal of `request`.
    fn build_nak(&self, request: &DhcpRequest) -> (r: DhcpReply)
        ensures
            r == nak_reply(self.ip, *request),
    {
        DhcpReply {
            kind: ReplyKind::Nak,
            xid: request.xid,
            htype: request.htype,
            mac: request.mac,
            yiaddr: 0,
            server_id: self.ip,
            lease_secs: 0,
            subnet_mask: 0,
        }
    }

    /// The reply that describes the lease `request.mac` holds.
    fn describe_lease(&self, request: &DhcpRequest, kind: ReplyKind, ipam: &IpamApiMock, vpc: &VpcApiMock) -> (r:
        Option<DhcpReply>)
        requires
            vpc.wf(),
        ensures
            r == lease_reply(self.ip, *request, kind, ipam@, vpc@),
    {
        let ghost s = ipam@;
        match ipam.get_ip_by_mac(request.mac) {
            None => None,
            Some(lease) => {
                proof {
                    let k = choose|k: int| is_first_of_mac(s, request.mac@, k) && lease@ == #[trigger] s[k];
                    let k2 = choose|k: int| is_first_of_mac(s, request.mac@, k);
                    if k < k2 {
                        assert(s[k].mac == request.mac@);
                    } else if k2 < k {
                        assert(s[k2].mac == request.mac@);
                    }
                }
                match vpc.find_subnet(&lease.subnet_id) {
                    None => None,
                    Some(sub) => {
                        proof {
                            lemma_cidr_of_wf(vpc@, lease@.subnet_id);
                        }
                        let mask = sub.cidr.mask();
                        Some(self.build_offer(request, kind, lease.ip, mask))
                    },
                }
            },
        }
    }
    /// Answers one inbound message at time `now`: a DISCOVER gets an OFFER
    /// of an address held on probation, or silence where none is left; a
    /// REQUEST gets the same address committed for the full lease time and
    /// an ACK, or a NAK where the client asks for another address or none
    /// can be had; anything else gets no reply.
    pub fn request_at(&self, msg: &DhcpRequest, ipam: &mut IpamApiMock, vpc: &VpcApiMock, now: u64) -> (r:
        Option<DhcpReply>)
        requires
            old(ipam).wf(),
            vpc.wf(),
        ensures
            final(ipam).wf(),
            final(ipam).clock == old(ipam).clock,
            dhcp_spec(self.ip, *msg, old(ipam)@, vpc@, now, r, final(ipam)@),
    {
        let ghost pre = ipam@;
        if !msg.is_boot_request {
            return None;
        }
        match msg.kind {
            MessageKind::Discover => {
                let a = ipam.assign_ip_at(msg.mac, vpc, PROBATION_SECS, now);
                assert(assign_spec(pre, vpc@, msg.mac@, PROBATION_SECS, now, a, ipam@));
                match a {
                    None => None,
                    Some(_) => self.describe_lease(msg, ReplyKind::Offer, ipam, vpc),
                }
            },
            MessageKind::Request => {
                let a = ipam.assign_ip_at(msg.mac, vpc, PROBATION_SECS, now);
                let ghost mid = ipam@;
                assert(assign_spec(pre, vpc@, msg.mac@, PROBATION_SECS, now, a, mid));
                match a {
                    None => Some(self.build_nak(msg)),
                    Some(ip) => {
                        if let Some(q) = msg.requested_ip {
                            if q != ip {
                                return Some(self.build_nak(msg));
                            }
                        }
                        let renewed = ipam.renew_lease_at(msg.mac, now);
                        assert(renew_spec(mid, msg.mac@, now, renewed is Ok, ipam@));
                        match renewed {
                            Ok(()) => self.describe_lease(msg, ReplyKind::Ack, ipam, vpc),
                            Err(_) => Some(self.build_nak(msg)),
                        }
                    },
                }
            },
            MessageKind::Other => None,
        }
    }

    /// `request_at` at the present time of the store's clock.
    pub fn request(&self, msg: &DhcpRequest, ipam: &mut IpamApiMock, vpc: &VpcApiMock) -> (r: Option<DhcpReply>)
        requires
            old(ipam).wf(),
            vpc.wf(),
        ensures
            final(ipam).wf(),
            exists|now: u64| #[trigger] dhcp_spec(self.ip, *msg, old(ipam)@, vpc@, now, r, final(ipam)@),
    {
        let now = ipam.now();
        self.request_at(msg, ipam, vpc, now)
    }
}

/// How `mac_address` reads a hardware address from text: the six bytes, or
/// `None` where the text is not one.
pub uninterp spec fn mac_parse(text: Seq<char>) -> Option<Seq<u8>>;

/// Relies on `FromStr` for `mac_address::MacAddress`: the result depends on
/// the text alone.
#[verifier::external_body]
fn parse_mac(text: &str) -> (r: Option<Mac>)
    ensures
        r matches Some(m) ==> mac_parse(text@) == Some(m@),
        r is None ==> mac_parse(text@) is None,
{
    match text.parse::<mac_address::MacAddress>() {
        Ok(m) => Some(Mac(m.bytes())),
        Err(_) => None,
    }
}

/// Hands the machine written as `mac` an address on probation, as a
/// DISCOVER would; `None` where the text is no hardware address or no
/// address is left.
pub fn handle_dhcp_request(mac: &str, vpc_api: &VpcApiMock, ipam_api: &mut IpamApiMock) -> (r: Option<u32>)
    requires
        old(ipam_api).wf(),
        vpc_api.wf(),
    ensures
        final(ipam_api).wf(),
        mac_parse(mac@) is None ==> r is None && final(ipam_api)@ == old(ipam_api)@,
        mac_parse(mac@) is Some ==> exists|now: u64|
            #[trigger] assign_spec(old(ipam_api)@, vpc_api@, mac_parse(mac@).unwrap(), PROBATION_SECS, now, r, final(ipam_api)@),
{
    match parse_mac(mac) {
        None => None,
        Some(m) => {
            let r = ipam_api.assign_ip(m, vpc_api, PROBATION_SECS);
            assert(m@ == mac_parse(mac@).unwrap());
            r
        },
    }
}

} // verus!
