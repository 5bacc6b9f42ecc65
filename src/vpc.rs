//! Private networks and their subnets.
use vstd::arithmetic::power2::{lemma2_to64, lemma_pow2_strictly_increases, lemma_pow2_unfold, pow2};
use vstd::prelude::*;

verus! {

/// Identifier of a subnet, unique across the whole topology.
pub struct SubnetID(pub String);

impl View for SubnetID {
    type V = Seq<char>;

    open spec fn view(&self) -> Seq<char> {
        self.0@
    }
}

impl SubnetID {
    pub fn new(id: &str) -> (r: SubnetID)
        ensures
            r@ == id@,
    {
        SubnetID(id.to_owned())
    }

    pub fn as_str(&self) -> (r: &str)
        ensures
            r@ == self@,
    {
        self.0.as_str()
    }

    pub fn same(&self, other: &SubnetID) -> (r: bool)
        ensures
            r == (self@ == other@),
    {
        self.0 == other.0
    }
}

impl AsRef<str> for SubnetID {
    fn as_ref(&self) -> &str {
        self.0.as_str()
    }
}

impl Clone for SubnetID {
    fn clone(&self) -> (r: SubnetID)
        ensures
            r@ == self@,
    {
        SubnetID(self.0.clone())
    }
}

/// Identifier of a private network.
pub struct PnId(pub String);

impl View for PnId {
    type V = Seq<char>;

    open spec fn view(&self) -> Seq<char> {
        self.0@
    }
}

impl PnId {
    pub fn new(id: &str) -> (r: PnId)
        ensures
            r@ == id@,
    {
        PnId(id.to_owned())
    }

    pub fn as_str(&self) -> (r: &str)
        ensures
            r@ == self@,
    {
        self.0.as_str()
    }

    pub fn same(&self, other: &PnId) -> (r: bool)
        ensures
            r == (self@ == other@),
    {
        self.0 == other.0
    }
}

impl AsRef<str> for PnId {
    fn as_ref(&self) -> &str {
        self.0.as_str()
    }
}

impl Clone for PnId {
    fn clone(&self) -> (r: PnId)
        ensures
            r@ == self@,
    {
        PnId(self.0.clone())
    }
}

/// An IPv4 CIDR block: an address and a prefix length of at most 32.
/// The address may carry host bits, as `ipnet::Ipv4Net` allows.
#[derive(Clone, Copy, Debug, PartialEq, Eq, Structural)]
pub struct Ipv4Cidr {
    pub addr: u32,
    pub prefix_len: u8,
}

impl Ipv4Cidr {
    pub open spec fn wf(&self) -> bool {
        self.prefix_len <= 32
    }

    /// Number of addresses in the block.
    pub open spec fn size(&self) -> int {
        pow2((32 - self.prefix_len) as nat) as int
    }

    /// The lowest address of the block (host bits cleared).
    pub open spec fn network(&self) -> int {
        (self.addr as int) - (self.addr as int) % self.size()
    }

    /// The highest address of the block (host bits set).
    pub open spec fn broadcast(&self) -> int {
        self.network() + self.size() - 1
    }

    /// Whether every address of `other` lies in `self`.
    pub open spec fn contains(&self, other: Ipv4Cidr) -> bool {
        self.network() <= other.network() && other.broadcast() <= self.broadcast()
    }

    /// Whether one of the two blocks holds the other; for CIDR blocks this is
    /// the same as sharing an address.
    pub open spec fn overlaps(&self, other: Ipv4Cidr) -> bool {
        self.contains(other) || other.contains(*self)
    }

    /// A block, or `None` where the prefix length exceeds 32.
    pub fn new(addr: u32, prefix_len: u8) -> (r: Option<Ipv4Cidr>)
        ensures
            prefix_len <= 32 <==> r.is_some(),
            r matches Some(c) ==> c.addr == addr && c.prefix_len == prefix_len && c.wf(),
    {
        if prefix_len <= 32 {
            Some(Ipv4Cidr { addr, prefix_len })
        } else {
            None
        }
    }

    /// The first and last address of a block, as machine integers.
    pub fn bounds(&self) -> (r: (u64, u64))
        requires
            self.wf(),
        ensures
            r.0 == self.network(),
            r.1 == self.broadcast(),
            r.0 <= r.1 < 0x1_0000_0000,
    {
        let n: u8 = 32 - self.prefix_len;
        let mut size: u64 = 1;
        let mut k: u8 = 0;
        proof {
            lemma2_to64();
        }
        while k < n
            invariant
                k <= n <= 32,
                n == 32 - self.prefix_len,
                size == pow2(k as nat),
            decreases n - k,
        {
            proof {
                lemma_pow2_unfold((k + 1) as nat);
                if k + 1 < 32 {
                    lemma_pow2_strictly_increases((k + 1) as nat, 32);
                }
                lemma2_to64();
            }
            size = size * 2;
            k = k + 1;
        }
        proof {
            if n < 32 {
                lemma_pow2_strictly_increases(n as nat, 32);
            }
            lemma2_to64();
        }
        let addr = self.addr as u64;
        assert(self.size() == size);
        assert(addr % size < size && addr % size <= addr) by (nonlinear_arith)
            requires size > 0;
        let network = addr - addr % size;
        proof {
            let m = pow2(self.prefix_len as nat);
            vstd::arithmetic::power2::lemma_pow2_adds(n as nat, self.prefix_len as nat);
            assert(size * m == 0x1_0000_0000);
            vstd::arithmetic::div_mod::lemma_fundamental_div_mod(addr as int, size as int);
            let q = addr as int / size as int;
            assert(network == size * q);
            assert(q < m) by (nonlinear_arith)
                requires addr as int == size * q + addr % size, addr < size * m, size > 0, addr % size >= 0;
            assert(size * (q + 1) <= size * m) by (nonlinear_arith)
                requires q < m, size > 0;
            assert(network + size == size * (q + 1)) by (nonlinear_arith)
                requires network == size * q;
        }
        (network, network + size - 1)
    }

    /// The network mask of a prefix length: its leading bits set.
    pub open spec fn netmask(&self) -> int {
        0x1_0000_0000 - self.size()
    }

    /// The network mask of the block.
    pub fn mask(&self) -> (r: u32)
        requires
            self.wf(),
        ensures
            r == self.netmask(),
    {
        let (lo, hi) = self.bounds();
        assert(self.size() >= 1) by {
            vstd::arithmetic::power2::lemma_pow2_pos((32 - self.prefix_len) as nat);
        }
        (0x1_0000_0000u64 - (hi - lo + 1)) as u32
    }

    /// Whether every address of `other` lies in `self`.
    pub fn contains_net(&self, other: &Ipv4Cidr) -> (r: bool)
        requires
            self.wf(),
            other.wf(),
        ensures
            r == self.contains(*other),
    {
        net_contains(self, other)
    }
}

/// A subnet as contracts see it.
pub struct SubnetView {
    pub id: Seq<char>,
    pub cidr: Ipv4Cidr,
}

/// A CIDR block of a private network, under an identifier.
pub struct Subnet {
    pub id: SubnetID,
    pub cidr: Ipv4Cidr,
}

impl View for Subnet {
    type V = SubnetView;

    open spec fn view(&self) -> SubnetView {
        SubnetView { id: self.id@, cidr: self.cidr }
    }
}

impl Clone for Subnet {
    fn clone(&self) -> (r: Subnet)
        ensures
            r@ == self@,
    {
        Subnet { id: self.id.clone(), cidr: self.cidr }
    }
}

/// A private network as contracts see it.
pub struct PnView {
    pub id: Seq<char>,
    pub name: Seq<char>,
    pub vni: u32,
    pub subnets: Seq<SubnetView>,
}

impl PnView {
    /// Whether one of the network's subnets has the identifier `id`.
    pub open spec fn has_subnet(self, id: Seq<char>) -> bool {
        exists|j: int| 0 <= j < self.subnets.len() && #[trigger] self.subnets[j].id == id
    }

    /// Every block of the network has a valid prefix length.
    pub open spec fn wf(self) -> bool {
        forall|j: int| 0 <= j < self.subnets.len() ==> #[trigger] self.subnets[j].cidr.wf()
    }
}

/// An isolated virtual network: a name, a virtual-network identifier and
/// the subnets it owns, in the order they were added.
pub struct PrivateNetwork {
    pub id: PnId,
    pub name: String,
    pub vni: u32,
    pub subnets: Vec<Subnet>,
}

impl View for PrivateNetwork {
    type V = PnView;

    open spec fn view(&self) -> PnView {
        PnView {
            id: self.id@,
            name: self.name@,
            vni: self.vni,
            subnets: self.subnets@.map_values(|s: Subnet| s@),
        }
    }
}

/// Failures of the topology operations.
pub enum Error {
    SubnetNotFound { subnet_id: SubnetID },
    PnNotFound { pn_id: PnId },
    SubnetOverlap { subnet_id: SubnetID, other_id: SubnetID, pn_id: PnId },
}

/// The in-memory topology store: every private network, in the order they
/// were created.
pub struct VpcApiMock {
    pub pns: Vec<PrivateNetwork>,
}

impl View for VpcApiMock {
    type V = Seq<PnView>;

    open spec fn view(&self) -> Seq<PnView> {
        self.pns@.map_values(|p: PrivateNetwork| p@)
    }
}

/// Lexicographic order of identifiers, character by character, as `str`
/// orders them.
pub open spec fn id_lt(a: Seq<char>, b: Seq<char>) -> bool
    decreases a.len(),
{
    if a.len() == 0 {
        b.len() > 0
    } else if b.len() == 0 {
        false
    } else if a[0] != b[0] {
        (a[0] as int) < (b[0] as int)
    } else {
        id_lt(a.drop_first(), b.drop_first())
    }
}

/// No identifier comes before itself.
pub proof fn lemma_id_lt_irreflexive(a: Seq<char>)
    ensures
        !id_lt(a, a),
    decreases a.len(),
{
    if a.len() > 0 {
        lemma_id_lt_irreflexive(a.drop_first());
    }
}

/// The order of identifiers is transitive.
pub proof fn lemma_id_lt_transitive(a: Seq<char>, b: Seq<char>, c: Seq<char>)
    requires
        id_lt(a, b),
        id_lt(b, c),
    ensures
        id_lt(a, c),
    decreases a.len(),
{
    if a.len() > 0 && b.len() > 0 && c.len() > 0 && a[0] == b[0] && b[0] == c[0] {
        lemma_id_lt_transitive(a.drop_first(), b.drop_first(), c.drop_first());
    }
}

/// Of two different identifiers, one comes first.
pub proof fn lemma_id_lt_total(a: Seq<char>, b: Seq<char>)
    requires
        a != b,
    ensures
        id_lt(a, b) || id_lt(b, a),
    decreases a.len(),
{
    if a.len() > 0 && b.len() > 0 {
        if a[0] == b[0] {
            if a.drop_first() == b.drop_first() {
                assert(a =~= seq![a[0]] + a.drop_first());
                assert(b =~= seq![b[0]] + b.drop_first());
            }
            lemma_id_lt_total(a.drop_first(), b.drop_first());
        } else {
            assert(a[0] as int != b[0] as int);
        }
    } else if a.len() == 0 && b.len() == 0 {
        assert(a =~= b);
    }
}

/// After a common prefix of length `i`, the order is that of the rests.
proof fn lemma_id_lt_skip(a: Seq<char>, b: Seq<char>, i: int)
    requires
        0 <= i <= a.len(),
        i <= b.len(),
        a.take(i) =~= b.take(i),
    ensures
        id_lt(a, b) == id_lt(a.skip(i), b.skip(i)),
    decreases i,
{
    if i > 0 {
        assert(a[0] == a.take(i)[0]);
        assert(b[0] == b.take(i)[0]);
        assert(a[0] == b[0]);
        assert(id_lt(a, b) == id_lt(a.drop_first(), b.drop_first()));
        assert(a.drop_first().take(i - 1) =~= b.drop_first().take(i - 1)) by {
            assert forall|k: int| 0 <= k < i - 1 implies a.drop_first()[k] == b.drop_first()[k] by {
                assert(a[k + 1] == a.take(i)[k + 1]);
                assert(b[k + 1] == b.take(i)[k + 1]);
            }
        }
        lemma_id_lt_skip(a.drop_first(), b.drop_first(), i - 1);
        assert(a.drop_first().skip(i - 1) =~= a.skip(i));
        assert(b.drop_first().skip(i - 1) =~= b.skip(i));
    } else {
        assert(a.skip(0) =~= a);
        assert(b.skip(0) =~= b);
    }
}

/// Whether `a` comes before `b` in the order of identifiers.
pub fn id_less(a: &str, b: &str) -> (r: bool)
    ensures
        r == id_lt(a@, b@),
{
    let la = a.unicode_len();
    let lb = b.unicode_len();
    let mut i: usize = 0;
    while i < la && i < lb && a.get_char(i) == b.get_char(i)
        invariant
            i <= la == a@.len(),
            i <= lb == b@.len(),
            a@.take(i as int) =~= b@.take(i as int),
        decreases la - i,
    {
        proof {
            assert(a@.take(i + 1) =~= a@.take(i as int).push(a@[i as int]));
            assert(b@.take(i + 1) =~= b@.take(i as int).push(b@[i as int]));
        }
        i = i + 1;
    }
    proof {
        lemma_id_lt_skip(a@, b@, i as int);
    }
    if i == la {
        i < lb
    } else if i == lb {
        false
    } else {
        let ca = a.get_char(i);
        let cb = b.get_char(i);
        proof {
            assert(a@.skip(i as int)[0] == ca);
            assert(b@.skip(i as int)[0] == cb);
        }
        (ca as u32) < (cb as u32)
    }
}

/// Whether `i` is the lowest of `ids`: none comes before it, and no earlier
/// one equals it.
pub open spec fn is_lowest(ids: Seq<Seq<char>>, i: int) -> bool {
    &&& 0 <= i < ids.len()
    &&& forall|k: int| 0 <= k < ids.len() ==> !id_lt(#[trigger] ids[k], ids[i])
    &&& forall|k: int| 0 <= k < i ==> #[trigger] ids[k] != ids[i]
}

/// There is at most one lowest identifier.
pub proof fn lemma_lowest_unique(ids: Seq<Seq<char>>, a: int, b: int)
    requires
        is_lowest(ids, a),
        is_lowest(ids, b),
    ensures
        a == b,
{
    if ids[a] != ids[b] {
        lemma_id_lt_total(ids[a], ids[b]);
        assert(!id_lt(ids[a], ids[b]));
        assert(!id_lt(ids[b], ids[a]));
    }
    if a < b {
        assert(ids[a] != ids[b]);
    } else if b < a {
        assert(ids[b] != ids[a]);
    }
}

/// Keeping the first lowest while scanning: `best` stays lowest among the
/// first `i + 1` identifiers after looking at `ids[i]`.
proof fn lemma_lowest_step(ids: Seq<Seq<char>>, best: int, i: int)
    requires
        0 <= best < i < ids.len(),
        forall|k: int| 0 <= k < i ==> !id_lt(#[trigger] ids[k], ids[best]),
        forall|k: int| 0 <= k < best ==> #[trigger] ids[k] != ids[best],
    ensures
        id_lt(ids[i], ids[best]) ==> (forall|k: int| 0 <= k <= i ==> !id_lt(#[trigger] ids[k], ids[i])) && (
        forall|k: int| 0 <= k < i ==> #[trigger] ids[k] != ids[i]),
        !id_lt(ids[i], ids[best]) ==> forall|k: int| 0 <= k <= i ==> !id_lt(#[trigger] ids[k], ids[best]),
{
    if id_lt(ids[i], ids[best]) {
        assert forall|k: int| 0 <= k <= i implies !id_lt(#[trigger] ids[k], ids[i]) by {
            if k == i {
                lemma_id_lt_irreflexive(ids[i]);
            } else if id_lt(ids[k], ids[i]) {
                lemma_id_lt_transitive(ids[k], ids[i], ids[best]);
            }
        }
    }
}

/// The identifiers of the networks, in store order.
pub open spec fn pn_ids(topo: Seq<PnView>) -> Seq<Seq<char>> {
    topo.map_values(|p: PnView| p.id)
}

/// The identifiers of the subnets, in store order.
pub open spec fn subnet_ids(subnets: Seq<SubnetView>) -> Seq<Seq<char>> {
    subnets.map_values(|s: SubnetView| s.id)
}

/// The subnet that new addresses come from: the lowest subnet, by
/// identifier, of the lowest network; `None` where there is no network or
/// that network has no subnet.
pub open spec fn target_subnet(topo: Seq<PnView>) -> Option<SubnetView> {
    if exists|i: int| is_lowest(pn_ids(topo), i) {
        let i = choose|i: int| is_lowest(pn_ids(topo), i);
        let subs = topo[i].subnets;
        if exists|j: int| is_lowest(subnet_ids(subs), j) {
            let j = choose|j: int| is_lowest(subnet_ids(subs), j);
            Some(subs[j])
        } else {
            None
        }
    } else {
        None
    }
}

/// Index of the first network in `pns` that owns subnet `id`.
pub open spec fn is_first_owner(pns: Seq<PnView>, id: Seq<char>, i: int) -> bool {
    &&& 0 <= i < pns.len()
    &&& pns[i].has_subnet(id)
    &&& forall|k: int| 0 <= k < i ==> !(#[trigger] pns[k]).has_subnet(id)
}

/// Index of the first subnet of `subnets` with identifier `id`.
pub open spec fn is_first_subnet(subnets: Seq<SubnetView>, id: Seq<char>, j: int) -> bool {
    &&& 0 <= j < subnets.len()
    &&& subnets[j].id == id
    &&& forall|k: int| 0 <= k < j ==> (#[trigger] subnets[k]).id != id
}

/// The block of subnet `id`: the first such subnet of the first network
/// that owns one.
pub open spec fn cidr_of(topo: Seq<PnView>, id: Seq<char>) -> Option<Ipv4Cidr> {
    if exists|i: int| is_first_owner(topo, id, i) {
        let i = choose|i: int| is_first_owner(topo, id, i);
        let j = choose|j: int| is_first_subnet(topo[i].subnets, id, j);
        Some(topo[i].subnets[j].cidr)
    } else {
        None
    }
}

/// In a well-formed topology every block that `cidr_of` gives is valid.
pub proof fn lemma_cidr_of_wf(topo: Seq<PnView>, id: Seq<char>)
    requires
        forall|i: int| 0 <= i < topo.len() ==> (#[trigger] topo[i]).wf(),
        cidr_of(topo, id) is Some,
    ensures
        cidr_of(topo, id).unwrap().wf(),
{
    let i = choose|i: int| is_first_owner(topo, id, i);
    let j0 = choose|j: int| 0 <= j < topo[i].subnets.len() && #[trigger] topo[i].subnets[j].id == id;
    let subs = topo[i].subnets;
    lemma_first_subnet_exists(subs, id, j0);
    let j = choose|j: int| is_first_subnet(subs, id, j);
    assert(topo[i].wf());
    assert(subs[j].cidr.wf());
}

/// Where some subnet has identifier `id`, a first one does.
pub proof fn lemma_first_subnet_exists(subnets: Seq<SubnetView>, id: Seq<char>, j: int)
    requires
        0 <= j < subnets.len(),
        subnets[j].id == id,
    ensures
        exists|f: int| is_first_subnet(subnets, id, f),
    decreases j,
{
    if exists|k: int| 0 <= k < j && (#[trigger] subnets[k]).id == id {
        let k = choose|k: int| 0 <= k < j && (#[trigger] subnets[k]).id == id;
        lemma_first_subnet_exists(subnets, id, k);
    } else {
        assert(is_first_subnet(subnets, id, j));
    }
}

/// Index of the first subnet of `subnets` whose block overlaps `cidr`.
pub open spec fn is_first_overlap(subnets: Seq<SubnetView>, cidr: Ipv4Cidr, j: int) -> bool {
    &&& 0 <= j < subnets.len()
    &&& subnets[j].cidr.overlaps(cidr)
    &&& forall|k: int| 0 <= k < j ==> !(#[trigger] subnets[k]).cidr.overlaps(cidr)
}

/// Index of the first network in `pns` with identifier `id`.
pub open spec fn is_first_with_id(pns: Seq<PnView>, id: Seq<char>, i: int) -> bool {
    &&& 0 <= i < pns.len()
    &&& pns[i].id == id
    &&& forall|k: int| 0 <= k < i ==> (#[trigger] pns[k]).id != id
}

/// What a lookup of the network owning subnet `id` may return.
pub open spec fn owner_found(topo: Seq<PnView>, id: Seq<char>, r: Option<PnView>) -> bool {
    &&& r matches Some(pn) ==> exists|i: int| is_first_owner(topo, id, i) && pn == #[trigger] topo[i]
    &&& r is None <==> forall|i: int| 0 <= i < topo.len() ==> !(#[trigger] topo[i]).has_subnet(id)
}

/// What adding `subnet` to network `pn_id` does: `pre` and `post` are the
/// topology before and after.
pub open spec fn add_subnet_spec(
    pre: Seq<PnView>,
    pn_id: Seq<char>,
    subnet: SubnetView,
    r: Result<(), Error>,
    post: Seq<PnView>,
) -> bool {
    &&& (forall|i: int| 0 <= i < pre.len() ==> (#[trigger] pre[i]).id != pn_id) ==> (
    r matches Err(Error::PnNotFound { pn_id: e }) && e@ == pn_id && post == pre)
    &&& forall|i: int| #[trigger] is_first_with_id(pre, pn_id, i) ==> {
        let pn = pre[i];
        if exists|k: int| 0 <= k < pn.subnets.len() && (#[trigger] pn.subnets[k]).cidr.overlaps(subnet.cidr) {
            &&& post == pre
            &&& r matches Err(Error::SubnetOverlap { subnet_id, other_id, pn_id: e })
            &&& subnet_id@ == subnet.id
            &&& e@ == pn_id
            &&& exists|j: int| is_first_overlap(pn.subnets, subnet.cidr, j) && other_id@ == (#[trigger] pn.subnets[j]).id
        } else {
            &&& r is Ok
            &&& post == pre.update(i, PnView { subnets: pn.subnets.push(subnet), ..pn })
        }
    }
}

/// Access to a topology store.
pub trait Vpc: Sized {
    /// The networks, in store order.
    spec fn topology(&self) -> Seq<PnView>;

    /// Every block has a valid prefix length.
    spec fn well_formed(&self) -> bool;

    /// The first network that owns subnet `subnet_id`.
    fn find_pn_by_subnet(&self, subnet_id: &SubnetID) -> (r: Option<&PrivateNetwork>)
        ensures
            owner_found(
                self.topology(),
                subnet_id@,
                match r {
                    Some(pn) => Some(pn@),
                    None => None,
                },
            ),
    ;

    /// Adds `subnet` to network `pn_id` unless it overlaps a block there.
    fn add_subnet(&mut self, pn_id: PnId, subnet: Subnet) -> (r: Result<(), Error>)
        requires
            old(self).well_formed(),
            subnet.cidr.wf(),
        ensures
            final(self).well_formed(),
            add_subnet_spec(old(self).topology(), pn_id@, subnet@, r, final(self).topology()),
    ;
}

impl Vpc for VpcApiMock {
    open spec fn topology(&self) -> Seq<PnView> {
        self@
    }

    open spec fn well_formed(&self) -> bool {
        self.wf()
    }

    fn find_pn_by_subnet(&self, subnet_id: &SubnetID) -> (r: Option<&PrivateNetwork>) {
        VpcApiMock::find_pn_by_subnet(self, subnet_id)
    }

    fn add_subnet(&mut self, pn_id: PnId, subnet: Subnet) -> (r: Result<(), Error>) {
        VpcApiMock::add_subnet(self, pn_id, subnet)
    }
}

impl VpcApiMock {
    /// Every block of every network has a valid prefix length.
    pub open spec fn wf(&self) -> bool {
        forall|i: int| 0 <= i < self@.len() ==> (#[trigger] self@[i]).wf()
    }

    /// Whether every block has a valid prefix length.
    pub fn is_well_formed(&self) -> (r: bool)
        ensures
            r == self.wf(),
    {
        let mut i: usize = 0;
        while i < self.pns.len()
            invariant
                i <= self.pns@.len(),
                self@.len() == self.pns@.len(),
                forall|k: int| 0 <= k < i ==> (#[trigger] self@[k]).wf(),
            decreases self.pns@.len() - i,
        {
            let pn = &self.pns[i];
            let mut j: usize = 0;
            while j < pn.subnets.len()
                invariant
                    j <= pn.subnets@.len(),
                    i < self@.len(),
                    self@.len() == self.pns@.len(),
                    pn@ == self@[i as int],
                    forall|k: int| 0 <= k < i ==> (#[trigger] self@[k]).wf(),
                    forall|k: int| 0 <= k < j ==> (#[trigger] pn@.subnets[k]).cidr.wf(),
                decreases pn.subnets@.len() - j,
            {
                if pn.subnets[j].cidr.prefix_len > 32 {
                    assert(!self@[i as int].subnets[j as int].cidr.wf());
                    assert(!self@[i as int].wf());
                    return false;
                }
                j = j + 1;
            }
            i = i + 1;
        }
        true
    }

    /// A topology of one network `pn-1`, named `backend`, with virtual-network
    /// identifier 42 and the one subnet `subnet-1`, 192.168.1.0/24.
    pub fn new() -> (r: VpcApiMock)
        ensures
            r.wf(),
            r@.len() == 1,
            r@[0].id == "pn-1"@,
            r@[0].name == "backend"@,
            r@[0].vni == 42,
            r@[0].subnets.len() == 1,
            r@[0].subnets[0].id == "subnet-1"@,
            r@[0].subnets[0].cidr == (Ipv4Cidr { addr: 0xC0A8_0100, prefix_len: 24 }),
    {
        let subnet = Subnet {
            id: SubnetID::new("subnet-1"),
            cidr: Ipv4Cidr { addr: 0xC0A8_0100, prefix_len: 24 },
        };
        let mut subnets: Vec<Subnet> = Vec::new();
        subnets.push(subnet);
        let pn = PrivateNetwork {
            id: PnId::new("pn-1"),
            name: "backend".to_owned(),
            vni: 42,
            subnets,
        };
        let mut pns: Vec<PrivateNetwork> = Vec::new();
        pns.push(pn);
        let r = VpcApiMock { pns };
        assert(r@[0].subnets[0].cidr.wf());
        r
    }

    /// The first network that owns subnet `subnet_id`.
    pub fn find_pn_by_subnet(&self, subnet_id: &SubnetID) -> (r: Option<&PrivateNetwork>)
        ensures
            r matches Some(pn) ==> exists|i: int|
                is_first_owner(self@, subnet_id@, i) && pn@ == #[trigger] self@[i],
            r is None <==> forall|i: int| 0 <= i < self@.len() ==> !(#[trigger] self@[i]).has_subnet(subnet_id@),
    {
        let mut i: usize = 0;
        while i < self.pns.len()
            invariant
                i <= self.pns@.len(),
                self@.len() == self.pns@.len(),
                forall|k: int| 0 <= k < i ==> !(#[trigger] self@[k]).has_subnet(subnet_id@),
            decreases self.pns@.len() - i,
        {
            let pn = &self.pns[i];
            let mut j: usize = 0;
            while j < pn.subnets.len()
                invariant
                    j <= pn.subnets@.len(),
                    i < self@.len(),
                    self@.len() == self.pns@.len(),
                    pn@ == self@[i as int],
                    forall|k: int| 0 <= k < i ==> !(#[trigger] self@[k]).has_subnet(subnet_id@),
                    forall|k: int| 0 <= k < j ==> (#[trigger] pn@.subnets[k]).id != subnet_id@,
                decreases pn.subnets@.len() - j,
            {
                if pn.subnets[j].id.same(subnet_id) {
                    assert(self@[i as int].subnets[j as int].id == subnet_id@);
                    assert(is_first_owner(self@, subnet_id@, i as int));
                    return Some(pn);
                }
                j = j + 1;
            }
            assert(!self@[i as int].has_subnet(subnet_id@));
            i = i + 1;
        }
        None
    }

    /// The subnet that new addresses come from, as `target_subnet` picks it.
    pub fn pick_subnet(&self) -> (r: Option<&Subnet>)
        ensures
            r matches Some(s) ==> target_subnet(self@) == Some(s@) && (self.wf() ==> s.cidr.wf()),
            r is None ==> target_subnet(self@) is None,
    {
        let ghost ids = pn_ids(self@);
        if self.pns.len() == 0 {
            return None;
        }
        let mut best: usize = 0;
        let mut i: usize = 1;
        proof {
            lemma_id_lt_irreflexive(ids[0]);
        }
        while i < self.pns.len()
            invariant
                0 <= best < i <= self.pns@.len(),
                self@.len() == self.pns@.len(),
                ids == pn_ids(self@),
                forall|k: int| 0 <= k < i ==> !id_lt(#[trigger] ids[k], ids[best as int]),
                forall|k: int| 0 <= k < best ==> #[trigger] ids[k] != ids[best as int],
            decreases self.pns@.len() - i,
        {
            proof {
                lemma_lowest_step(ids, best as int, i as int);
            }
            if id_less(self.pns[i].id.as_str(), self.pns[best].id.as_str()) {
                best = i;
            }
            i = i + 1;
        }
        proof {
            assert(is_lowest(ids, best as int));
            let c = choose|c: int| is_lowest(pn_ids(self@), c);
            lemma_lowest_unique(ids, best as int, c);
        }
        let pn = &self.pns[best];
        let ghost subs = pn@.subnets;
        let ghost sids = subnet_ids(subs);
        if pn.subnets.len() == 0 {
            return None;
        }
        let mut sb: usize = 0;
        let mut j: usize = 1;
        proof {
            lemma_id_lt_irreflexive(sids[0]);
        }
        while j < pn.subnets.len()
            invariant
                0 <= sb < j <= pn.subnets@.len(),
                subs == pn@.subnets,
                sids == subnet_ids(subs),
                forall|k: int| 0 <= k < j ==> !id_lt(#[trigger] sids[k], sids[sb as int]),
                forall|k: int| 0 <= k < sb ==> #[trigger] sids[k] != sids[sb as int],
            decreases pn.subnets@.len() - j,
        {
            proof {
                lemma_lowest_step(sids, sb as int, j as int);
            }
            if id_less(pn.subnets[j].id.as_str(), pn.subnets[sb].id.as_str()) {
                sb = j;
            }
            j = j + 1;
        }
        proof {
            assert(is_lowest(sids, sb as int));
            let c = choose|c: int| is_lowest(sids, c);
            lemma_lowest_unique(sids, sb as int, c);
            if self.wf() {
                assert(self@[best as int].wf());
                assert(subs[sb as int].cidr.wf());
            }
        }
        Some(&pn.subnets[sb])
    }

    /// The subnet with identifier `subnet_id`, as `cidr_of` picks it.
    pub fn find_subnet(&self, subnet_id: &SubnetID) -> (r: Option<&Subnet>)
        ensures
            r matches Some(s) ==> cidr_of(self@, subnet_id@) == Some(s.cidr) && s@.id == subnet_id@,
            r is None ==> cidr_of(self@, subnet_id@) is None,
    {
        let mut i: usize = 0;
        while i < self.pns.len()
            invariant
                i <= self.pns@.len(),
                self@.len() == self.pns@.len(),
                forall|k: int| 0 <= k < i ==> !(#[trigger] self@[k]).has_subnet(subnet_id@),
            decreases self.pns@.len() - i,
        {
            let pn = &self.pns[i];
            let mut j: usize = 0;
            while j < pn.subnets.len()
                invariant
                    j <= pn.subnets@.len(),
                    i < self@.len(),
                    self@.len() == self.pns@.len(),
                    pn@ == self@[i as int],
                    forall|k: int| 0 <= k < i ==> !(#[trigger] self@[k]).has_subnet(subnet_id@),
                    forall|k: int| 0 <= k < j ==> (#[trigger] pn@.subnets[k]).id != subnet_id@,
                decreases pn.subnets@.len() - j,
            {
                if pn.subnets[j].id.same(subnet_id) {
                    proof {
                        let topo = self@;
                        assert(topo[i as int].subnets[j as int].id == subnet_id@);
                        assert(is_first_owner(topo, subnet_id@, i as int));
                        assert(is_first_subnet(topo[i as int].subnets, subnet_id@, j as int));
                        let i2 = choose|i2: int| is_first_owner(topo, subnet_id@, i2);
                        if i2 < i as int {
                            assert(!topo[i2].has_subnet(subnet_id@));
                        } else if i2 > i as int {
                            assert(!topo[i as int].has_subnet(subnet_id@));
                        }
                        let subs = topo[i as int].subnets;
                        let j2 = choose|j2: int| is_first_subnet(subs, subnet_id@, j2);
                        if j2 < j as int {
                            assert(subs[j2].id != subnet_id@);
                        } else if j2 > j as int {
                            assert(subs[j as int].id != subnet_id@);
                        }
                    }
                    return Some(&pn.subnets[j]);
                }
                j = j + 1;
            }
            assert(!self@[i as int].has_subnet(subnet_id@));
            i = i + 1;
        }
        None
    }

    /// Adds `subnet` to network `pn_id`, unless no network has that
    /// identifier, or the new block overlaps a block already in that network
    /// (either one holding the other). Other networks are not consulted.
    pub fn add_subnet(&mut self, pn_id: PnId, subnet: Subnet) -> (r: Result<(), Error>)
        requires
            old(self).wf(),
            subnet.cidr.wf(),
        ensures
            final(self).wf(),
            add_subnet_spec(old(self)@, pn_id@, subnet@, r, final(self)@),
    {
        let mut i: usize = 0;
        while i < self.pns.len() && !self.pns[i].id.same(&pn_id)
            invariant
                i <= self.pns@.len(),
                self@.len() == self.pns@.len(),
                forall|k: int| 0 <= k < i ==> (#[trigger] self@[k]).id != pn_id@,
            decreases self.pns@.len() - i,
        {
            i = i + 1;
        }
        if i == self.pns.len() {
            return Err(Error::PnNotFound { pn_id });
        }
        assert(is_first_with_id(self@, pn_id@, i as int));
        assert(self@[i as int].wf());
        match Self::check_if_subnet_overlaps(&self.pns[i], &subnet) {
            Err(e) => {
                return Err(e);
            },
            Ok(()) => {},
        }
        let ghost pre = self@;
        let ghost pre_pns = self.pns@;
        self.pns[i].subnets.push(subnet);
        assert(self.pns@[i as int]@.subnets =~= pre[i as int].subnets.push(subnet@));
        assert(self.pns@ == pre_pns.update(i as int, self.pns@[i as int]));
        assert(self@ =~= pre.update(i as int, PnView { subnets: pre[i as int].subnets.push(subnet@), ..pre[i as int] }));
        assert forall|k: int| 0 <= k < self@.len() implies (#[trigger] self@[k]).wf() by {
            if k == i as int {
                assert forall|j: int| 0 <= j < self@[k].subnets.len() implies (#[trigger] self@[k].subnets[j]).cidr.wf() by {
                    if j < pre[k].subnets.len() {
                        assert(pre[k].subnets[j].cidr.wf());
                    }
                }
            }
        }
        Ok(())
    }

    /// Checks `subnet` against the blocks that `pn` already owns.
    fn check_if_subnet_overlaps(pn: &PrivateNetwork, subnet: &Subnet) -> (r: Result<(), Error>)
        requires
            pn@.wf(),
            subnet.cidr.wf(),
        ensures
            r is Ok <==> forall|k: int|
                0 <= k < pn@.subnets.len() ==> !(#[trigger] pn@.subnets[k]).cidr.overlaps(subnet.cidr),
            r is Err ==> (r matches Err(Error::SubnetOverlap { subnet_id, other_id, pn_id }) && exists|j: int|
                is_first_overlap(pn@.subnets, subnet.cidr, j) && other_id@ == (#[trigger] pn@.subnets[j]).id
                    && subnet_id@ == subnet.id@ && pn_id@ == pn.id@),
    {
        let mut j: usize = 0;
        while j < pn.subnets.len()
            invariant
                j <= pn.subnets@.len(),
                pn@.wf(),
                subnet.cidr.wf(),
                forall|k: int| 0 <= k < j ==> !(#[trigger] pn@.subnets[k]).cidr.overlaps(subnet.cidr),
            decreases pn.subnets@.len() - j,
        {
            let other = &pn.subnets[j];
            assert(pn@.subnets[j as int].cidr.wf());
            if other.cidr.contains_net(&subnet.cidr) || subnet.cidr.contains_net(&other.cidr) {
                assert(is_first_overlap(pn@.subnets, subnet.cidr, j as int));
                return Err(Error::SubnetOverlap {
                    subnet_id: subnet.id.clone(),
                    other_id: other.id.clone(),
                    pn_id: pn.id.clone(),
                });
            }
            j = j + 1;
        }
        Ok(())
    }
}

/// Relies on `ipnet::Ipv4Net::contains` for two networks, which compares the
/// network addresses (host bits cleared) and the broadcast addresses (host
/// bits set); `Ipv4Net::new` refuses only a prefix length over 32.
#[verifier::external_body]
fn net_contains(a: &Ipv4Cidr, b: &Ipv4Cidr) -> (r: bool)
    requires
        a.wf(),
        b.wf(),
    ensures
        r == a.contains(*b),
{
    let na = ipnet::Ipv4Net::new(a.addr.into(), a.prefix_len).unwrap();
    let nb = ipnet::Ipv4Net::new(b.addr.into(), b.prefix_len).unwrap();
    na.contains(&nb)
}

} // verus!
