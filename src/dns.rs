//! Resolution of `<host>.<network>.internal` names against the lease store.
use crate::ipam::{is_first_named, IpamApiMock, LeaseView};
use crate::vpc::{is_first_owner, PnView, VpcApiMock};
use vstd::prelude::*;

verus! {

/// Time to live of every answer, in seconds: short, so that no answer
/// outlives the lease behind it by much.
pub const DNS_TTL: u32 = 60;

/// Why a query gets no answer.
#[derive(Clone, Copy, Debug, PartialEq, Eq, Structural)]
pub enum Error {
    NotImplemented,
    Usage,
    NotFound,
}

impl Error {
    /// The DNS response code of the failure reply: NXDOMAIN (3) where the
    /// name is unknown, NOTIMP (4) for an operation other than a query,
    /// SERVFAIL (2) for a malformed name.
    pub fn response_code(&self) -> (r: u16)
        ensures
            *self == Error::NotFound ==> r == 3,
            *self == Error::NotImplemented ==> r == 4,
            *self == Error::Usage ==> r == 2,
    {
        match self {
            Error::NotFound => 3,
            Error::NotImplemented => 4,
            Error::Usage => 2,
        }
    }
}

/// The first network that owns a subnet is unique.
pub proof fn lemma_first_owner_unique(topo: Seq<PnView>, id: Seq<char>, a: int, b: int)
    requires
        is_first_owner(topo, id, a),
        is_first_owner(topo, id, b),
    ensures
        a == b,
{
    if a < b {
        assert(!topo[a].has_subnet(id));
    } else if b < a {
        assert(!topo[b].has_subnet(id));
    }
}

/// The first lease with a given name is unique.
pub proof fn lemma_first_named_unique(s: Seq<LeaseView>, name: Seq<char>, a: int, b: int)
    requires
        is_first_named(s, name, a),
        is_first_named(s, name, b),
    ensures
        a == b,
{
    if a < b {
        assert(s[a].name != name);
    } else if b < a {
        assert(s[b].name != name);
    }
}

/// The address that `host` has inside network `pn`: that of the first lease
/// named `host`, where the first network owning its subnet is named `pn`.
pub open spec fn resolved(s: Seq<LeaseView>, topo: Seq<PnView>, host: Seq<char>, pn: Seq<char>) -> Option<u32> {
    if exists|k: int| is_first_named(s, host, k) {
        let k = choose|k: int| is_first_named(s, host, k);
        if exists|i: int| is_first_owner(topo, s[k].subnet_id, i) {
            let i = choose|i: int| is_first_owner(topo, s[k].subnet_id, i);
            if topo[i].name == pn {
                Some(s[k].ip)
            } else {
                None
            }
        } else {
            None
        }
    } else {
        None
    }
}

/// Whether a queried name, as labels, has the form `<host>.<network>.internal`.
pub open spec fn well_formed(labels: Seq<Seq<char>>) -> bool {
    labels.len() == 3 && labels[2] == "internal"@
}

/// The answer to one queried name.
pub open spec fn answer(labels: Seq<Seq<char>>, s: Seq<LeaseView>, topo: Seq<PnView>) -> Result<u32, Error> {
    if !well_formed(labels) {
        Err(Error::Usage)
    } else {
        match resolved(s, topo, labels[0], labels[1]) {
            Some(ip) => Ok(ip),
            None => Err(Error::NotFound),
        }
    }
}

/// The labels of a queried name, as contracts see them.
pub open spec fn labels_view(labels: &Vec<String>) -> Seq<Seq<char>> {
    labels@.map_values(|l: String| l@)
}

/// A name of any other shape than `<host>.<network>.internal` is a usage
/// error, whatever the store holds.
pub proof fn lemma_malformed_name_is_usage(labels: Seq<Seq<char>>, s: Seq<LeaseView>, topo: Seq<PnView>)
    requires
        labels.len() != 3 || labels[2] != "internal"@,
    ensures
        answer(labels, s, topo) == Err::<u32, Error>(Error::Usage),
{
}

/// Splits a queried name into its host and network labels.
pub fn parse_internal_name(labels: &Vec<String>) -> (r: Result<(&String, &String), Error>)
    ensures
        r is Ok <==> well_formed(labels_view(labels)),
        r matches Ok((h, n)) ==> h@ == labels@[0]@ && n@ == labels@[1]@,
        r matches Err(e) ==> e == Error::Usage,
{
    let suffix = "internal".to_owned();
    if labels.len() != 3 || labels[2] != suffix {
        return Err(Error::Usage);
    }
    Ok((&labels[0], &labels[1]))
}

/// The address of `name` inside the network named `pn_name`.
pub fn resolve_dns(name: &str, pn_name: &str, vpc_api: &VpcApiMock, ipam_api: &IpamApiMock) -> (r: Option<u32>)
    ensures
        r == resolved(ipam_api@, vpc_api@, name@, pn_name@),
{
    let ghost s = ipam_api@;
    let ghost topo = vpc_api@;
    match ipam_api.get_ip_by_name(name) {
        None => None,
        Some(lease) => {
            proof {
                let k = choose|k: int| is_first_named(s, name@, k) && lease@ == #[trigger] s[k];
                let k2 = choose|k: int| is_first_named(s, name@, k);
                lemma_first_named_unique(s, name@, k, k2);
            }
            match vpc_api.find_pn_by_subnet(&lease.subnet_id) {
                None => None,
                Some(pn) => {
                    proof {
                        let i = choose|i: int| is_first_owner(topo, lease@.subnet_id, i) && pn@ == #[trigger] topo[i];
                        let i2 = choose|i: int| is_first_owner(topo, lease@.subnet_id, i);
                        lemma_first_owner_unique(topo, lease@.subnet_id, i, i2);
                    }
                    let wanted = pn_name.to_owned();
                    if pn.name == wanted {
                        Some(lease.ip)
                    } else {
                        None
                    }
                },
            }
        },
    }
}

/// Answers a message: `is_query` tells whether its operation code is a
/// query, and `questions` holds the labels of each queried name. All the
/// addresses, in question order, or the failure of the first question that
/// fails: no partial answer.
pub fn handle_request(
    is_query: bool,
    questions: &Vec<Vec<String>>,
    vpc_api: &VpcApiMock,
    ipam_api: &IpamApiMock,
) -> (r: Result<Vec<u32>, Error>)
    ensures
        !is_query ==> r == Err::<Vec<u32>, Error>(Error::NotImplemented),
        is_query ==> match r {
            Ok(v) => v@.len() == questions@.len() && forall|i: int|
                0 <= i < questions@.len() ==> answer(labels_view(#[trigger] &questions@[i]), ipam_api@, vpc_api@)
                    == Ok::<u32, Error>(v@[i]),
            Err(e) => exists|i: int|
                0 <= i < questions@.len() && answer(labels_view(#[trigger] &questions@[i]), ipam_api@, vpc_api@)
                    == Err::<u32, Error>(e) && forall|j: int|
                    0 <= j < i ==> (#[trigger] answer(labels_view(&questions@[j]), ipam_api@, vpc_api@)) is Ok,
        },
{
    if !is_query {
        return Err(Error::NotImplemented);
    }
    let mut out: Vec<u32> = Vec::new();
    let mut i: usize = 0;
    while i < questions.len()
        invariant
            is_query,
            i <= questions@.len(),
            out@.len() == i,
            forall|j: int|
                0 <= j < i ==> answer(labels_view(#[trigger] &questions@[j]), ipam_api@, vpc_api@) == Ok::<
                    u32,
                    Error,
                >(out@[j]),
        decreases questions@.len() - i,
    {
        let labels = &questions[i];
        let ghost a = answer(labels_view(labels), ipam_api@, vpc_api@);
        match parse_internal_name(labels) {
            Err(e) => {
                assert(a == Err::<u32, Error>(e));
                return Err(e);
            },
            Ok((host, pn_name)) => {
                match resolve_dns(host.as_str(), pn_name.as_str(), vpc_api, ipam_api) {
                    None => {
                        assert(a == Err::<u32, Error>(Error::NotFound));
                        return Err(Error::NotFound);
                    },
                    Some(ip) => {
                        assert(a == Ok::<u32, Error>(ip));
                        out.push(ip);
                    },
                }
            },
        }
        i = i + 1;
    }
    Ok(out)
}

} // verus!
