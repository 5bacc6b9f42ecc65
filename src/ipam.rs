//! The lease allocator: which address each machine holds, and for how long.
use crate::vpc::{target_subnet, Ipv4Cidr, PnView, SubnetID, VpcApiMock};
use vstd::prelude::*;
use vstd::set_lib::{lemma_int_range, lemma_len_subset, lemma_subset_equality, set_int_range};

verus! {

/// Lease time granted on renewal, in seconds (42 days).
pub const DEFAULT_DURATION: u64 = 3628800;

/// A hardware (MAC) address.
#[derive(Clone, Copy, Debug)]
pub struct Mac(pub [u8; 6]);

impl View for Mac {
    type V = Seq<u8>;

    open spec fn view(&self) -> Seq<u8> {
        self.0@
    }
}

impl Mac {
    pub fn new(bytes: [u8; 6]) -> (r: Mac)
        ensures
            r@ == bytes@,
    {
        Mac(bytes)
    }

    pub fn same(&self, other: &Mac) -> (r: bool)
        ensures
            r == (self@ == other@),
    {
        let a = &self.0;
        let b = &other.0;
        let r = a[0] == b[0] && a[1] == b[1] && a[2] == b[2] && a[3] == b[3] && a[4] == b[4] && a[5]
            == b[5];
        if r {
            assert(self@ =~= other@);
        }
        r
    }
}

/// How `mac_address` writes a hardware address as text.
pub uninterp spec fn mac_display(bytes: Seq<u8>) -> Seq<char>;

/// Relies on the `Display` impl of `mac_address::MacAddress`: the text depends
/// on the six bytes alone.
#[verifier::external_body]
fn mac_text(mac: &Mac) -> (r: String)
    ensures
        r@ == mac_display(mac@),
{
    mac_address::MacAddress::new(mac.0).to_string()
}

#[verifier::external_type_specification]
#[verifier::external_body]
pub struct ExInstant(tokio::time::Instant);

/// Relies on `tokio::time::Instant::now`; nothing is known of the value.
#[verifier::external_body]
fn clock_start() -> (r: tokio::time::Instant) {
    tokio::time::Instant::now()
}

/// Relies on `tokio::time::Instant::elapsed`: whole seconds since `start`;
/// nothing is known of the value.
#[verifier::external_body]
fn clock_secs(start: &tokio::time::Instant) -> (r: u64) {
    start.elapsed().as_secs()
}

/// The machine that holds a lease.
pub struct Resource {
    pub id: String,
    pub name: String,
    pub mac: Mac,
}

impl Clone for Resource {
    fn clone(&self) -> (r: Resource)
        ensures
            r.id@ == self.id@,
            r.name@ == self.name@,
            r.mac@ == self.mac@,
    {
        Resource { id: self.id.clone(), name: self.name.clone(), mac: self.mac }
    }
}

/// A lease as contracts see it.
pub struct LeaseView {
    pub ip: u32,
    pub subnet_id: Seq<char>,
    pub duration: u64,
    pub updated: u64,
    pub id: Seq<char>,
    pub name: Seq<char>,
    pub mac: Seq<u8>,
}

impl LeaseView {
    /// Whether the lease has run out at time `now`; a zero duration never
    /// runs out.
    pub open spec fn is_expired(self, now: u64) -> bool {
        self.duration != 0 && now >= self.updated && now - self.updated >= self.duration
    }
}

/// One address bound to one machine, from `updated` (seconds on the store's
/// clock) for `duration` seconds, or for good where `duration` is zero.
pub struct Lease {
    pub ip: u32,
    pub subnet_id: SubnetID,
    pub duration: u64,
    pub updated: u64,
    pub resource: Resource,
}

impl View for Lease {
    type V = LeaseView;

    open spec fn view(&self) -> LeaseView {
        LeaseView {
            ip: self.ip,
            subnet_id: self.subnet_id@,
            duration: self.duration,
            updated: self.updated,
            id: self.resource.id@,
            name: self.resource.name@,
            mac: self.resource.mac@,
        }
    }
}

impl Clone for Lease {
    fn clone(&self) -> (r: Lease)
        ensures
            r@ == self@,
    {
        Lease {
            ip: self.ip,
            subnet_id: self.subnet_id.clone(),
            duration: self.duration,
            updated: self.updated,
            resource: self.resource.clone(),
        }
    }
}

/// The leases of `s` that have not run out at `now`, in their order.
pub open spec fn live(s: Seq<LeaseView>, now: u64) -> Seq<LeaseView>
    decreases s.len(),
{
    if s.len() == 0 {
        s
    } else {
        let rest = live(s.drop_last(), now);
        if s.last().is_expired(now) {
            rest
        } else {
            rest.push(s.last())
        }
    }
}

/// No two leases share an address, and no two share a hardware address.
pub open spec fn keys_unique(s: Seq<LeaseView>) -> bool {
    forall|i: int, j: int|
        0 <= i < s.len() && 0 <= j < s.len() && i != j ==> s[i].ip != s[j].ip && s[i].mac != s[j].mac
}

/// Whether some lease of `s` holds address `ip`.
pub open spec fn taken(s: Seq<LeaseView>, ip: int) -> bool {
    exists|k: int| 0 <= k < s.len() && s[k].ip == ip
}

/// Whether some lease of `s` belongs to hardware address `mac`.
pub open spec fn has_mac(s: Seq<LeaseView>, mac: Seq<u8>) -> bool {
    exists|k: int| 0 <= k < s.len() && s[k].mac == mac
}

/// Whether `ip` is a host address of block `c`: neither its network nor its
/// broadcast address.
pub open spec fn is_host(c: Ipv4Cidr, ip: int) -> bool {
    c.network() < ip < c.broadcast()
}

/// Whether `ip` is the lowest host address of `c` that `s` leaves free.
pub open spec fn is_first_free(s: Seq<LeaseView>, c: Ipv4Cidr, ip: int) -> bool {
    &&& is_host(c, ip)
    &&& !taken(s, ip)
    &&& forall|h: int| c.network() < h < ip ==> taken(s, h)
}

/// Whether every host address of `c` is taken in `s`.
pub open spec fn is_full(s: Seq<LeaseView>, c: Ipv4Cidr) -> bool {
    forall|h: int| #[trigger] is_host(c, h) ==> taken(s, h)
}

/// The lease that a new machine `mac` gets on address `ip` of subnet `sid`.
pub open spec fn fresh_lease(ip: u32, sid: Seq<char>, mac: Seq<u8>, duration: u64, now: u64) -> LeaseView {
    LeaseView {
        ip,
        subnet_id: sid,
        duration,
        updated: now,
        id: "res-"@ + mac_display(mac),
        name: "machine-"@ + mac_display(mac),
        mac,
    }
}

/// What an allocation does: `pre` and `post` are the store before and after,
/// `r` the address handed out.
pub open spec fn assign_spec(
    pre: Seq<LeaseView>,
    topo: Seq<PnView>,
    mac: Seq<u8>,
    duration: u64,
    now: u64,
    r: Option<u32>,
    post: Seq<LeaseView>,
) -> bool {
    let sw = live(pre, now);
    if has_mac(sw, mac) {
        &&& post == sw
        &&& forall|k: int| 0 <= k < sw.len() && sw[k].mac == mac ==> r == Some(sw[k].ip)
    } else {
        match target_subnet(topo) {
            None => r is None && post == sw,
            Some(sub) => if is_full(sw, sub.cidr) {
                r is None && post == sw
            } else {
                &&& r matches Some(ip) && is_first_free(sw, sub.cidr, ip as int)
                    && post == sw.push(fresh_lease(ip, sub.id, mac, duration, now))
            },
        }
    }
}

/// Every lease kept by the sweep was in the store and has not run out.
pub proof fn lemma_live_from(s: Seq<LeaseView>, now: u64)
    ensures
        forall|k: int| 0 <= k < live(s, now).len() ==> exists|j: int|
            0 <= j < s.len() && #[trigger] live(s, now)[k] == s[j],
        forall|k: int| 0 <= k < live(s, now).len() ==> !(#[trigger] live(s, now)[k]).is_expired(now),
    decreases s.len(),
{
    if s.len() > 0 {
        let d = s.drop_last();
        lemma_live_from(d, now);
        assert forall|k: int| 0 <= k < live(s, now).len() implies exists|j: int|
            0 <= j < s.len() && #[trigger] live(s, now)[k] == s[j] by {
            if k < live(d, now).len() {
                let j = choose|j: int| 0 <= j < d.len() && live(d, now)[k] == d[j];
                assert(live(s, now)[k] == s[j]);
            } else {
                assert(live(s, now)[k] == s[s.len() - 1]);
            }
        }
        assert forall|k: int| 0 <= k < live(s, now).len() implies !(#[trigger] live(s, now)[k]).is_expired(now) by {
            if k < live(d, now).len() {
                assert(live(s, now)[k] == live(d, now)[k]);
            }
        }
    }
}

/// Every lease that has not run out survives the sweep.
pub proof fn lemma_live_keeps(s: Seq<LeaseView>, now: u64, j: int)
    requires
        0 <= j < s.len(),
        !s[j].is_expired(now),
    ensures
        exists|k: int| 0 <= k < live(s, now).len() && #[trigger] live(s, now)[k] == s[j],
    decreases s.len(),
{
    let d = s.drop_last();
    if j < s.len() - 1 {
        lemma_live_keeps(d, now, j);
        let k = choose|k: int| 0 <= k < live(d, now).len() && #[trigger] live(d, now)[k] == d[j];
        assert(live(s, now)[k] == s[j]);
    } else {
        assert(live(s, now)[live(s, now).len() - 1] == s[j]);
    }
}

/// The sweep keeps addresses and hardware addresses distinct.
pub proof fn lemma_live_unique(s: Seq<LeaseView>, now: u64)
    requires
        keys_unique(s),
    ensures
        keys_unique(live(s, now)),
    decreases s.len(),
{
    if s.len() > 0 {
        let d = s.drop_last();
        assert(keys_unique(d));
        lemma_live_unique(d, now);
        lemma_live_from(d, now);
        let l = live(s, now);
        if !s.last().is_expired(now) {
            assert forall|i: int, j: int|
                0 <= i < l.len() && 0 <= j < l.len() && i != j implies l[i].ip != l[j].ip && l[i].mac != l[j].mac by {
                if i < l.len() - 1 && j < l.len() - 1 {
                    assert(l[i] == live(d, now)[i] && l[j] == live(d, now)[j]);
                } else if i < l.len() - 1 {
                    assert(l[i] == live(d, now)[i]);
                    let a = choose|a: int| 0 <= a < d.len() && #[trigger] live(d, now)[i] == d[a];
                    assert(l[i] == s[a]);
                } else {
                    assert(l[j] == live(d, now)[j]);
                    let a = choose|a: int| 0 <= a < d.len() && #[trigger] live(d, now)[j] == d[a];
                    assert(l[j] == s[a]);
                }
            }
        }
    }
}

/// Whether `k` is the first lease of `s` held by hardware address `mac`.
pub open spec fn is_first_of_mac(s: Seq<LeaseView>, mac: Seq<u8>, k: int) -> bool {
    &&& 0 <= k < s.len()
    &&& s[k].mac == mac
    &&& forall|j: int| 0 <= j < k ==> (#[trigger] s[j]).mac != mac
}

/// Whether `k` is the first lease of `s` whose machine is named `name`.
pub open spec fn is_first_named(s: Seq<LeaseView>, name: Seq<char>, k: int) -> bool {
    &&& 0 <= k < s.len()
    &&& s[k].name == name
    &&& forall|j: int| 0 <= j < k ==> (#[trigger] s[j]).name != name
}

/// Failures of the allocator.
pub enum Error {
    IpNotFound { mac: Mac },
}


/// `l` with the default duration, counted from `now`.
pub open spec fn renewed(l: LeaseView, now: u64) -> LeaseView {
    LeaseView { duration: DEFAULT_DURATION, updated: now, ..l }
}

/// What a renewal does: `ok` tells whether it succeeded.
pub open spec fn renew_spec(pre: Seq<LeaseView>, mac: Seq<u8>, now: u64, ok: bool, post: Seq<LeaseView>) -> bool {
    if exists|k: int| is_first_of_mac(pre, mac, k) && !pre[k].is_expired(now) {
        &&& ok
        &&& forall|k: int| #[trigger] is_first_of_mac(pre, mac, k) ==> post == pre.update(k, renewed(pre[k], now))
    } else {
        !ok && post == pre
    }
}

/// Asking twice for the same machine gives the same address, as long as its
/// lease has not run out by the second request.
pub proof fn lemma_assign_idempotent(
    pre: Seq<LeaseView>,
    topo: Seq<PnView>,
    mac: Seq<u8>,
    d1: u64,
    now1: u64,
    r1: Option<u32>,
    mid: Seq<LeaseView>,
    d2: u64,
    now2: u64,
    r2: Option<u32>,
    post: Seq<LeaseView>,
)
    requires
        assign_spec(pre, topo, mac, d1, now1, r1, mid),
        r1 is Some,
        forall|k: int| 0 <= k < mid.len() && (#[trigger] mid[k]).mac == mac ==> !mid[k].is_expired(now2),
        assign_spec(mid, topo, mac, d2, now2, r2, post),
    ensures
        r2 == r1,
{
    let sw1 = live(pre, now1);
    let k = if has_mac(sw1, mac) {
        choose|k: int| 0 <= k < sw1.len() && sw1[k].mac == mac
    } else {
        sw1.len() as int
    };
    assert(0 <= k < mid.len() && mid[k].mac == mac && r1 == Some(mid[k].ip));
    lemma_live_keeps(mid, now2, k);
    let sw2 = live(mid, now2);
    let k2 = choose|k2: int| 0 <= k2 < sw2.len() && #[trigger] sw2[k2] == mid[k];
    assert(sw2[k2].mac == mac);
    assert(has_mac(sw2, mac));
}

/// A lease that has not run out keeps its address from every other machine.
pub proof fn lemma_unexpired_address_not_reused(
    pre: Seq<LeaseView>,
    topo: Seq<PnView>,
    mac: Seq<u8>,
    duration: u64,
    now: u64,
    r: Option<u32>,
    post: Seq<LeaseView>,
    j: int,
)
    requires
        keys_unique(pre),
        assign_spec(pre, topo, mac, duration, now, r, post),
        0 <= j < pre.len(),
        pre[j].mac != mac,
        !pre[j].is_expired(now),
    ensures
        r != Some(pre[j].ip),
{
    let sw = live(pre, now);
    lemma_live_keeps(pre, now, j);
    lemma_live_unique(pre, now);
    let k = choose|k: int| 0 <= k < sw.len() && #[trigger] sw[k] == pre[j];
    if has_mac(sw, mac) {
        let m = choose|m: int| 0 <= m < sw.len() && sw[m].mac == mac;
        assert(r == Some(sw[m].ip));
        assert(m != k);
    } else {
        assert(taken(sw, pre[j].ip as int));
    }
}

/// Once a lease has run out, the sweep frees its address.
pub proof fn lemma_expired_address_freed(pre: Seq<LeaseView>, now: u64, j: int)
    requires
        keys_unique(pre),
        0 <= j < pre.len(),
        pre[j].is_expired(now),
    ensures
        !taken(live(pre, now), pre[j].ip as int),
{
    let sw = live(pre, now);
    lemma_live_from(pre, now);
    assert forall|k: int| 0 <= k < sw.len() implies sw[k].ip != pre[j].ip by {
        let a = choose|a: int| 0 <= a < pre.len() && #[trigger] sw[k] == pre[a];
        assert(!sw[k].is_expired(now));
        assert(a != j);
    }
}

/// A lease of duration zero survives every allocation, however late.
pub proof fn lemma_permanent_lease_kept(
    pre: Seq<LeaseView>,
    topo: Seq<PnView>,
    mac: Seq<u8>,
    duration: u64,
    now: u64,
    r: Option<u32>,
    post: Seq<LeaseView>,
    j: int,
)
    requires
        assign_spec(pre, topo, mac, duration, now, r, post),
        0 <= j < pre.len(),
        pre[j].duration == 0,
    ensures
        exists|k: int| 0 <= k < post.len() && #[trigger] post[k] == pre[j],
{
    let sw = live(pre, now);
    lemma_live_keeps(pre, now, j);
    let k = choose|k: int| 0 <= k < sw.len() && #[trigger] sw[k] == pre[j];
    assert(post[k] == pre[j]);
}

/// A new machine gets no address once every host address of the target
/// subnet is held by a lease that has not run out.
pub proof fn lemma_full_subnet_refuses(
    pre: Seq<LeaseView>,
    topo: Seq<PnView>,
    mac: Seq<u8>,
    duration: u64,
    now: u64,
    r: Option<u32>,
    post: Seq<LeaseView>,
)
    requires
        assign_spec(pre, topo, mac, duration, now, r, post),
        !has_mac(live(pre, now), mac),
        target_subnet(topo) matches Some(sub) && is_full(live(pre, now), sub.cidr),
    ensures
        r is None,
        post == live(pre, now),
{
}

/// After a successful allocation, the address handed out is that of the
/// first lease the machine holds.
pub proof fn lemma_assigned_lease(
    pre: Seq<LeaseView>,
    topo: Seq<PnView>,
    mac: Seq<u8>,
    duration: u64,
    now: u64,
    r: Option<u32>,
    post: Seq<LeaseView>,
)
    requires
        assign_spec(pre, topo, mac, duration, now, r, post),
        r is Some,
    ensures
        exists|k: int| #[trigger] is_first_of_mac(post, mac, k) && Some(post[k].ip) == r,
{
    let sw = live(pre, now);
    if has_mac(sw, mac) {
        let m = choose|m: int| 0 <= m < sw.len() && sw[m].mac == mac;
        lemma_first_of_mac_exists(sw, mac, m);
        let k = choose|k: int| is_first_of_mac(sw, mac, k);
        assert(is_first_of_mac(post, mac, k) && Some(post[k].ip) == r);
    } else {
        let k = sw.len() as int;
        assert(is_first_of_mac(post, mac, k));
    }
}

/// Where some lease belongs to `mac`, a first one does.
pub proof fn lemma_first_of_mac_exists(s: Seq<LeaseView>, mac: Seq<u8>, j: int)
    requires
        0 <= j < s.len(),
        s[j].mac == mac,
    ensures
        exists|f: int| is_first_of_mac(s, mac, f),
    decreases j,
{
    if exists|k: int| 0 <= k < j && (#[trigger] s[k]).mac == mac {
        let k = choose|k: int| 0 <= k < j && (#[trigger] s[k]).mac == mac;
        lemma_first_of_mac_exists(s, mac, k);
    } else {
        assert(is_first_of_mac(s, mac, j));
    }
}

/// The first lease of a machine is unique.
pub proof fn lemma_first_of_mac_unique(s: Seq<LeaseView>, mac: Seq<u8>, a: int, b: int)
    requires
        is_first_of_mac(s, mac, a),
        is_first_of_mac(s, mac, b),
    ensures
        a == b,
{
    if a < b {
        assert(s[a].mac == mac);
    } else if b < a {
        assert(s[b].mac == mac);
    }
}

/// The host addresses of `c` that leases of `s` hold.
pub open spec fn hosts_taken(s: Seq<LeaseView>, c: Ipv4Cidr) -> Set<int> {
    Set::new(|h: int| is_host(c, h) && taken(s, h))
}

/// How many host addresses block `c` has.
pub open spec fn host_count(c: Ipv4Cidr) -> int {
    if c.size() >= 2 {
        c.size() - 2
    } else {
        0
    }
}

/// The set of held host addresses is finite and holds at most as many
/// addresses as the block has hosts.
pub proof fn lemma_hosts_taken_bounded(s: Seq<LeaseView>, c: Ipv4Cidr)
    ensures
        hosts_taken(s, c).finite(),
        hosts_taken(s, c).len() <= host_count(c),
{
    let t = hosts_taken(s, c);
    if c.size() >= 2 {
        let range = set_int_range(c.network() + 1, c.broadcast());
        lemma_int_range(c.network() + 1, c.broadcast());
        lemma_len_subset(t, range);
    } else {
        assert(t =~= Set::<int>::empty());
    }
}

/// Once as many host addresses of `c` are held as `c` has, every host
/// address is held: the subnet is full.
pub proof fn lemma_counted_hosts_fill(s: Seq<LeaseView>, c: Ipv4Cidr)
    requires
        hosts_taken(s, c).len() >= host_count(c),
    ensures
        is_full(s, c),
{
    let t = hosts_taken(s, c);
    lemma_hosts_taken_bounded(s, c);
    if c.size() >= 2 {
        let range = set_int_range(c.network() + 1, c.broadcast());
        lemma_int_range(c.network() + 1, c.broadcast());
        lemma_subset_equality(t, range);
        assert forall|h: int| #[trigger] is_host(c, h) implies taken(s, h) by {
            assert(range.contains(h));
            assert(t.contains(h));
        }
    }
}

/// A machine without a lease that gets an address takes exactly one more
/// host address of the target subnet.
pub proof fn lemma_new_lease_takes_one_host(
    pre: Seq<LeaseView>,
    topo: Seq<PnView>,
    mac: Seq<u8>,
    duration: u64,
    now: u64,
    r: Option<u32>,
    post: Seq<LeaseView>,
)
    requires
        assign_spec(pre, topo, mac, duration, now, r, post),
        !has_mac(live(pre, now), mac),
        r is Some,
    ensures
        target_subnet(topo) is Some,
        ({
            let c = target_subnet(topo).unwrap().cidr;
            let before = hosts_taken(live(pre, now), c);
            &&& hosts_taken(post, c) == before.insert(r.unwrap() as int)
            &&& !before.contains(r.unwrap() as int)
            &&& hosts_taken(post, c).len() == before.len() + 1
        }),
{
    let sw = live(pre, now);
    let sub = target_subnet(topo).unwrap();
    let c = sub.cidr;
    let ip = r.unwrap() as int;
    let before = hosts_taken(sw, c);
    assert(post == sw.push(fresh_lease(r.unwrap(), sub.id, mac, duration, now)));
    assert forall|h: int| hosts_taken(post, c).contains(h) == before.insert(ip).contains(h) by {
        if taken(post, h) && h != ip {
            let k = choose|k: int| 0 <= k < post.len() && post[k].ip == h;
            assert(k < sw.len());
            assert(sw[k].ip == h);
        }
        if taken(sw, h) {
            let k = choose|k: int| 0 <= k < sw.len() && sw[k].ip == h;
            assert(post[k].ip == h);
        }
        if h == ip {
            assert(post[sw.len() as int].ip == h);
        }
    }
    assert(hosts_taken(post, c) =~= before.insert(ip));
    lemma_hosts_taken_bounded(sw, c);
}

/// In a target subnet with N host addresses, once N of them are held by
/// leases that have not run out, a new machine gets no address.
pub proof fn lemma_exhausted_subnet_refuses(
    pre: Seq<LeaseView>,
    topo: Seq<PnView>,
    mac: Seq<u8>,
    duration: u64,
    now: u64,
    r: Option<u32>,
    post: Seq<LeaseView>,
)
    requires
        assign_spec(pre, topo, mac, duration, now, r, post),
        !has_mac(live(pre, now), mac),
        target_subnet(topo) matches Some(sub) && hosts_taken(live(pre, now), sub.cidr).len() >= host_count(sub.cidr),
    ensures
        r is None,
{
    let sub = target_subnet(topo).unwrap();
    lemma_counted_hosts_fill(live(pre, now), sub.cidr);
    lemma_full_subnet_refuses(pre, topo, mac, duration, now, r, post);
}

/// Access to a lease store.
pub trait Ipam: Sized {
    /// The leases, in store order.
    spec fn leases_view(&self) -> Seq<LeaseView>;

    /// No two leases share an address or a hardware address.
    spec fn well_formed(&self) -> bool;

    /// Hands `mac` an address, as `assign_spec` says, at some present time.
    fn assign_ip(&mut self, mac: Mac, vpc: &VpcApiMock, duration: u64) -> (r: Option<u32>)
        requires
            old(self).well_formed(),
            vpc.wf(),
        ensures
            final(self).well_formed(),
            exists|now: u64|
                #[trigger] assign_spec(old(self).leases_view(), vpc@, mac@, duration, now, r, final(self).leases_view()),
    ;

    /// The first lease held by `mac`.
    fn get_ip_by_mac(&self, mac: Mac) -> (r: Option<&Lease>)
        ensures
            r matches Some(l) ==> exists|k: int|
                is_first_of_mac(self.leases_view(), mac@, k) && l@ == #[trigger] self.leases_view()[k],
            r is None <==> !has_mac(self.leases_view(), mac@),
    ;

    /// The first lease whose machine is named `name`.
    fn get_ip_by_name(&self, name: &str) -> (r: Option<&Lease>)
        ensures
            r matches Some(l) ==> exists|k: int|
                is_first_named(self.leases_view(), name@, k) && l@ == #[trigger] self.leases_view()[k],
            r is None <==> forall|k: int|
                0 <= k < self.leases_view().len() ==> (#[trigger] self.leases_view()[k]).name != name@,
    ;

    /// Renews the lease of `mac`, as `renew_spec` says, at some present time.
    fn renew_lease(&mut self, mac: Mac) -> (r: Result<(), Error>)
        requires
            old(self).well_formed(),
        ensures
            final(self).well_formed(),
            exists|now: u64|
                #[trigger] renew_spec(old(self).leases_view(), mac@, now, r is Ok, final(self).leases_view()),
    ;
}

impl Ipam for IpamApiMock {
    open spec fn leases_view(&self) -> Seq<LeaseView> {
        self@
    }

    open spec fn well_formed(&self) -> bool {
        self.wf()
    }

    fn assign_ip(&mut self, mac: Mac, vpc: &VpcApiMock, duration: u64) -> (r: Option<u32>) {
        let ghost pre = self@;
        let r = IpamApiMock::assign_ip(self, mac, vpc, duration);
        proof {
            let now = choose|now: u64| #[trigger] assign_spec(pre, vpc@, mac@, duration, now, r, self@);
            assert(assign_spec(old(self).leases_view(), vpc@, mac@, duration, now, r, self.leases_view()));
        }
        r
    }

    fn get_ip_by_mac(&self, mac: Mac) -> (r: Option<&Lease>) {
        IpamApiMock::get_ip_by_mac(self, mac)
    }

    fn get_ip_by_name(&self, name: &str) -> (r: Option<&Lease>) {
        let r = IpamApiMock::get_ip_by_name(self, name);
        assert(self.leases_view() == self@);
        r
    }

    fn renew_lease(&mut self, mac: Mac) -> (r: Result<(), Error>) {
        let ghost pre = self@;
        let r = IpamApiMock::renew_lease(self, mac);
        proof {
            let now = choose|now: u64| #[trigger] renew_spec(pre, mac@, now, r is Ok, self@);
            assert(renew_spec(old(self).leases_view(), mac@, now, r is Ok, self.leases_view()));
        }
        r
    }
}

/// The in-memory allocation store.
pub struct IpamApiMock {
    pub assignments: Vec<Lease>,
    pub clock: tokio::time::Instant,
}

impl View for IpamApiMock {
    type V = Seq<LeaseView>;

    open spec fn view(&self) -> Seq<LeaseView> {
        self.assignments@.map_values(|l: Lease| l@)
    }
}

impl IpamApiMock {
    pub open spec fn wf(&self) -> bool {
        keys_unique(self@)
    }

    /// Whether no two leases share an address or a hardware address.
    pub fn is_well_formed(&self) -> (r: bool)
        ensures
            r == self.wf(),
    {
        let n = self.assignments.len();
        let mut i: usize = 0;
        while i < n
            invariant
                n == self@.len(),
                self@.len() == self.assignments@.len(),
                i <= n,
                forall|a: int, b: int| 0 <= a < i && 0 <= b < n && a != b ==> self@[a].ip != self@[b].ip
                    && self@[a].mac != self@[b].mac,
            decreases n - i,
        {
            let mut j: usize = 0;
            while j < n
                invariant
                    n == self@.len(),
                    self@.len() == self.assignments@.len(),
                    i < n,
                    j <= n,
                    forall|a: int, b: int| 0 <= a < i && 0 <= b < n && a != b ==> self@[a].ip != self@[b].ip
                        && self@[a].mac != self@[b].mac,
                    forall|b: int| 0 <= b < j && i != b ==> self@[i as int].ip != self@[b].ip
                        && self@[i as int].mac != self@[b].mac,
                decreases n - j,
            {
                if i != j && (self.assignments[i].ip == self.assignments[j].ip
                    || self.assignments[i].resource.mac.same(&self.assignments[j].resource.mac)) {
                    assert(!keys_unique(self@)) by {
                        assert(self@[i as int].ip == self@[j as int].ip || self@[i as int].mac == self@[j as int].mac);
                    }
                    return false;
                }
                j = j + 1;
            }
            i = i + 1;
        }
        true
    }

    /// An empty store whose clock starts now.
    pub fn new() -> (r: IpamApiMock)
        ensures
            r.wf(),
            r@ == Seq::<LeaseView>::empty(),
    {
        let r = IpamApiMock { assignments: Vec::new(), clock: clock_start() };
        assert(r@ =~= Seq::<LeaseView>::empty());
        r
    }

    /// Removes every lease that has run out at `now`.
    fn check_duration_leaves(&mut self, now: u64)
        requires
            old(self).wf(),
        ensures
            final(self)@ == live(old(self)@, now),
            final(self).wf(),
            final(self).clock == old(self).clock,
    {
        let ghost pre = self@;
        let mut kept: Vec<Lease> = Vec::new();
        let mut i: usize = 0;
        while i < self.assignments.len()
            invariant
                i <= self.assignments@.len(),
                self@ == pre,
                kept@.map_values(|l: Lease| l@) == live(pre.take(i as int), now),
            decreases self.assignments@.len() - i,
        {
            let l = &self.assignments[i];
            let expired = l.duration != 0 && now >= l.updated && now - l.updated >= l.duration;
            assert(expired == pre[i as int].is_expired(now));
            assert(pre.take(i + 1).drop_last() =~= pre.take(i as int));
            assert(pre.take(i + 1).last() == pre[i as int]);
            if !expired {
                let ghost before = kept@;
                kept.push(l.clone());
                assert(kept@.map_values(|l: Lease| l@) =~= before.map_values(|l: Lease| l@).push(pre[i as int]));
            }
            i = i + 1;
        }
        assert(pre.take(i as int) =~= pre);
        self.assignments = kept;
        proof {
            lemma_live_unique(pre, now);
        }
    }

    /// The first lease held by hardware address `mac`.
    pub fn get_ip_by_mac(&self, mac: Mac) -> (r: Option<&Lease>)
        ensures
            r matches Some(l) ==> exists|k: int| is_first_of_mac(self@, mac@, k) && l@ == #[trigger] self@[k],
            r is None <==> !has_mac(self@, mac@),
    {
        let mut i: usize = 0;
        while i < self.assignments.len()
            invariant
                i <= self.assignments@.len(),
                self@.len() == self.assignments@.len(),
                forall|j: int| 0 <= j < i ==> (#[trigger] self@[j]).mac != mac@,
            decreases self.assignments@.len() - i,
        {
            if self.assignments[i].resource.mac.same(&mac) {
                assert(is_first_of_mac(self@, mac@, i as int));
                return Some(&self.assignments[i]);
            }
            i = i + 1;
        }
        None
    }

    /// The first lease whose machine is named `name`.
    pub fn get_ip_by_name(&self, name: &str) -> (r: Option<&Lease>)
        ensures
            r matches Some(l) ==> exists|k: int| is_first_named(self@, name@, k) && l@ == #[trigger] self@[k],
            r is None <==> forall|k: int| 0 <= k < self@.len() ==> (#[trigger] self@[k]).name != name@,
    {
        let wanted = name.to_owned();
        let mut i: usize = 0;
        while i < self.assignments.len()
            invariant
                i <= self.assignments@.len(),
                self@.len() == self.assignments@.len(),
                wanted@ == name@,
                forall|j: int| 0 <= j < i ==> (#[trigger] self@[j]).name != name@,
            decreases self.assignments@.len() - i,
        {
            if self.assignments[i].resource.name == wanted {
                assert(is_first_named(self@, name@, i as int));
                return Some(&self.assignments[i]);
            }
            i = i + 1;
        }
        None
    }

    /// Whether some lease holds address `ip`.
    fn ip_taken(&self, ip: u32) -> (r: bool)
        ensures
            r == taken(self@, ip as int),
    {
        let mut i: usize = 0;
        while i < self.assignments.len()
            invariant
                i <= self.assignments@.len(),
                self@.len() == self.assignments@.len(),
                forall|j: int| 0 <= j < i ==> (#[trigger] self@[j]).ip != ip,
            decreases self.assignments@.len() - i,
        {
            if self.assignments[i].ip == ip {
                assert(self@[i as int].ip == ip);
                return true;
            }
            i = i + 1;
        }
        false
    }

    /// Sweeps the leases that have run out at `now`, then hands `mac` an
    /// address: the one it already holds, or else the lowest free host
    /// address of the lowest subnet of the lowest network (by identifier),
    /// under a new lease of `duration` seconds from `now`. `None` where that
    /// subnet is full or there is none.
    pub fn assign_ip_at(&mut self, mac: Mac, vpc: &VpcApiMock, duration: u64, now: u64) -> (r: Option<u32>)
        requires
            old(self).wf(),
            vpc.wf(),
        ensures
            final(self).wf(),
            final(self).clock == old(self).clock,
            assign_spec(old(self)@, vpc@, mac@, duration, now, r, final(self)@),
    {
        self.check_duration_leaves(now);
        let ghost sw = self@;
        if let Some(l) = self.get_ip_by_mac(mac) {
            let ip = l.ip;
            proof {
                let k = choose|k: int| is_first_of_mac(sw, mac@, k) && l@ == #[trigger] sw[k];
                assert forall|j: int| 0 <= j < sw.len() && sw[j].mac == mac@ implies ip == sw[j].ip by {
                    if j != k {
                        assert(sw[j].mac != sw[k].mac);
                    }
                }
            }
            return Some(ip);
        }
        let sub = match vpc.pick_subnet() {
            Some(sub) => sub,
            None => {
                return None;
            },
        };
        let (lo, hi) = sub.cidr.bounds();
        let mut h: u64 = lo + 1;
        while h < hi
            invariant
                lo < h,
                lo == sub.cidr.network(),
                hi == sub.cidr.broadcast(),
                hi < 0x1_0000_0000,
                self@ == sw,
                sw == live(old(self)@, now),
                keys_unique(sw),
                target_subnet(vpc@) == Some(sub@),
                self.clock == old(self).clock,
                !has_mac(sw, mac@),
                forall|g: int| lo < g < h ==> taken(sw, g),
            decreases hi - h,
        {
            if !self.ip_taken(h as u32) {
                let text = mac_text(&mac);
                let mut id = "res-".to_owned();
                id.append(text.as_str());
                let mut name = "machine-".to_owned();
                name.append(text.as_str());
                let lease = Lease {
                    ip: h as u32,
                    subnet_id: sub.id.clone(),
                    duration,
                    updated: now,
                    resource: Resource { id, name, mac },
                };
                let ghost fresh = lease@;
                assert(fresh == fresh_lease(h as u32, sub@.id, mac@, duration, now));
                self.assignments.push(lease);
                assert(self@ =~= sw.push(fresh));
                assert(is_first_free(sw, sub.cidr, h as int));
                assert(!is_full(sw, sub.cidr)) by {
                    assert(is_host(sub.cidr, h as int));
                }
                assert(keys_unique(self@)) by {
                    assert forall|i: int, j: int|
                        0 <= i < self@.len() && 0 <= j < self@.len() && i != j implies self@[i].ip
                            != self@[j].ip && self@[i].mac != self@[j].mac by {
                        if i == sw.len() {
                            assert(self@[j] == sw[j]);
                            assert(sw[j].ip != h);
                            assert(sw[j].mac != mac@);
                        } else if j == sw.len() {
                            assert(self@[i] == sw[i]);
                            assert(sw[i].ip != h);
                            assert(sw[i].mac != mac@);
                        } else {
                            assert(self@[i] == sw[i] && self@[j] == sw[j]);
                        }
                    }
                }
                return Some(h as u32);
            }
            h = h + 1;
        }
        assert(is_full(sw, sub.cidr));
        None
    }

    /// Seconds on the store's clock; nothing is known of the value.
    pub fn now(&self) -> u64 {
        clock_secs(&self.clock)
    }

    /// `assign_ip_at` at the present time of the store's clock.
    pub fn assign_ip(&mut self, mac: Mac, vpc: &VpcApiMock, duration: u64) -> (r: Option<u32>)
        requires
            old(self).wf(),
            vpc.wf(),
        ensures
            final(self).wf(),
            exists|now: u64| #[trigger] assign_spec(old(self)@, vpc@, mac@, duration, now, r, final(self)@),
    {
        let now = self.now();
        self.assign_ip_at(mac, vpc, duration, now)
    }

    /// Gives the lease that `mac` holds, where it has not run out at `now`, the
    /// default duration from `now`; fails where there is no such lease.
    pub fn renew_lease_at(&mut self, mac: Mac, now: u64) -> (r: Result<(), Error>)
        requires
            old(self).wf(),
        ensures
            final(self).wf(),
            final(self).clock == old(self).clock,
            renew_spec(old(self)@, mac@, now, r is Ok, final(self)@),
            r matches Err(Error::IpNotFound { mac: m }) ==> m@ == mac@,
    {
        let ghost pre = self@;
        let mut i: usize = 0;
        while i < self.assignments.len() && !self.assignments[i].resource.mac.same(&mac)
            invariant
                i <= self.assignments@.len(),
                self@ == pre,
                forall|j: int| 0 <= j < i ==> (#[trigger] pre[j]).mac != mac@,
            decreases self.assignments@.len() - i,
        {
            i = i + 1;
        }
        if i == self.assignments.len() {
            return Err(Error::IpNotFound { mac });
        }
        assert(is_first_of_mac(pre, mac@, i as int));
        let l = &self.assignments[i];
        if l.duration != 0 && now >= l.updated && now - l.updated >= l.duration {
            return Err(Error::IpNotFound { mac });
        }
        self.assignments[i].duration = DEFAULT_DURATION;
        self.assignments[i].updated = now;
        assert(self@ =~= pre.update(i as int, renewed(pre[i as int], now)));
        assert(keys_unique(self@)) by {
            assert forall|a: int, b: int|
                0 <= a < self@.len() && 0 <= b < self@.len() && a != b implies self@[a].ip != self@[b].ip
                    && self@[a].mac != self@[b].mac by {
                assert(pre[a].ip != pre[b].ip && pre[a].mac != pre[b].mac);
            }
        }
        Ok(())
    }

    /// `renew_lease_at` at the present time of the store's clock.
    pub fn renew_lease(&mut self, mac: Mac) -> (r: Result<(), Error>)
        requires
            old(self).wf(),
        ensures
            final(self).wf(),
            exists|now: u64| #[trigger] renew_spec(old(self)@, mac@, now, r is Ok, final(self)@),
    {
        let now = self.now();
        self.renew_lease_at(mac, now)
    }

    /// The leases, in the order they were made.
    pub fn leases(&self) -> (r: &Vec<Lease>)
        ensures
            r@.map_values(|l: Lease| l@) == self@,
    {
        &self.assignments
    }
}

} // verus!
