//! Keys of the datastore and what is stored under them.
//!
//! A key knows the path that it is stored under, and a path of a resource can be read back.

use crate::cas::Revision;
use crate::ordmap::{
    lemma_text_irreflexive, lemma_text_transitive, lemma_texts_irreflexive, lemma_texts_total,
    lemma_texts_transitive, text_less, texts_less, texts_precede, MapKey,
};
use crate::text::{
    ascii_lowercase, lemma_split_append, lemma_split_single, occurs_at, opt_str_eq, split, split_on, str_eq, to_chars, lowercase,
    views,
};
use vstd::prelude::*;
use vstd::utf8::is_ascii_chars;

verus! {

broadcast use crate::text::lemma_views_push;

/// The kind of a resource.
#[derive(Debug, Clone, Copy, PartialEq, Eq, Hash, Structural)]
pub enum ResourceKind {
    /// A pool of addresses.
    IpPool,
    /// Addresses that are not assigned.
    IpReservation,
    /// An endpoint of a workload.
    WorkloadEndpoint,
    /// An interface of a host.
    HostEndpoint,
    /// A node.
    Node,
    /// A policy of one namespace.
    NetworkPolicy,
    /// A policy of all namespaces.
    GlobalNetworkPolicy,
    /// A tier of policies.
    Tier,
    /// A set of address blocks of one namespace.
    NetworkSet,
    /// A set of address blocks of all namespaces.
    GlobalNetworkSet,
    /// A profile.
    Profile,
    /// What is known of the cluster.
    ClusterInformation,
    /// The configuration of the node agent.
    FelixConfiguration,
    /// The configuration of BGP.
    BgpConfiguration,
    /// A BGP peer.
    BgpPeer,
    /// The configuration of the controllers.
    KubeControllersConfiguration,
    /// A block of addresses with its allocations.
    IpamBlock,
    /// The affinity of a block to a host.
    BlockAffinity,
    /// A handle on allocations.
    IpamHandle,
    /// The configuration of address assignment.
    IpamConfiguration,
}

impl DeepView for ResourceKind {
    type V = ResourceKind;

    open spec fn deep_view(&self) -> ResourceKind {
        *self
    }
}

impl ResourceKind {
    /// All kinds.
    pub const ALL: [ResourceKind; 20] = [
        ResourceKind::IpPool,
        ResourceKind::IpReservation,
        ResourceKind::WorkloadEndpoint,
        ResourceKind::HostEndpoint,
        ResourceKind::Node,
        ResourceKind::NetworkPolicy,
        ResourceKind::GlobalNetworkPolicy,
        ResourceKind::Tier,
        ResourceKind::NetworkSet,
        ResourceKind::GlobalNetworkSet,
        ResourceKind::Profile,
        ResourceKind::ClusterInformation,
        ResourceKind::FelixConfiguration,
        ResourceKind::BgpConfiguration,
        ResourceKind::BgpPeer,
        ResourceKind::KubeControllersConfiguration,
        ResourceKind::IpamBlock,
        ResourceKind::BlockAffinity,
        ResourceKind::IpamHandle,
        ResourceKind::IpamConfiguration,
    ];

    /// The path segment of the kind.
    pub open spec fn plural(self) -> Seq<char> {
        match self {
            ResourceKind::IpPool => "ippools"@,
            ResourceKind::IpReservation => "ipreservations"@,
            ResourceKind::WorkloadEndpoint => "workloadendpoints"@,
            ResourceKind::HostEndpoint => "hostendpoints"@,
            ResourceKind::Node => "nodes"@,
            ResourceKind::NetworkPolicy => "networkpolicies"@,
            ResourceKind::GlobalNetworkPolicy => "globalnetworkpolicies"@,
            ResourceKind::Tier => "tiers"@,
            ResourceKind::NetworkSet => "networksets"@,
            ResourceKind::GlobalNetworkSet => "globalnetworksets"@,
            ResourceKind::Profile => "profiles"@,
            ResourceKind::ClusterInformation => "clusterinformations"@,
            ResourceKind::FelixConfiguration => "felixconfigurations"@,
            ResourceKind::BgpConfiguration => "bgpconfigurations"@,
            ResourceKind::BgpPeer => "bgppeers"@,
            ResourceKind::KubeControllersConfiguration => "kubecontrollersconfigurations"@,
            ResourceKind::IpamBlock => "ipamblocks"@,
            ResourceKind::BlockAffinity => "blockaffinities"@,
            ResourceKind::IpamHandle => "ipamhandles"@,
            ResourceKind::IpamConfiguration => "ipamconfigurations"@,
        }
    }

    /// The name of the kind in Kubernetes.
    pub open spec fn name(self) -> Seq<char> {
        match self {
            ResourceKind::IpPool => "IPPool"@,
            ResourceKind::IpReservation => "IPReservation"@,
            ResourceKind::WorkloadEndpoint => "WorkloadEndpoint"@,
            ResourceKind::HostEndpoint => "HostEndpoint"@,
            ResourceKind::Node => "Node"@,
            ResourceKind::NetworkPolicy => "NetworkPolicy"@,
            ResourceKind::GlobalNetworkPolicy => "GlobalNetworkPolicy"@,
            ResourceKind::Tier => "Tier"@,
            ResourceKind::NetworkSet => "NetworkSet"@,
            ResourceKind::GlobalNetworkSet => "GlobalNetworkSet"@,
            ResourceKind::Profile => "Profile"@,
            ResourceKind::ClusterInformation => "ClusterInformation"@,
            ResourceKind::FelixConfiguration => "FelixConfiguration"@,
            ResourceKind::BgpConfiguration => "BGPConfiguration"@,
            ResourceKind::BgpPeer => "BGPPeer"@,
            ResourceKind::KubeControllersConfiguration => "KubeControllersConfiguration"@,
            ResourceKind::IpamBlock => "IPAMBlock"@,
            ResourceKind::BlockAffinity => "BlockAffinity"@,
            ResourceKind::IpamHandle => "IPAMHandle"@,
            ResourceKind::IpamConfiguration => "IPAMConfiguration"@,
        }
    }

    /// The path segment of the kind.
    pub fn as_str(self) -> (r: &'static str)
        ensures
            r@ == self.plural(),
    {
        match self {
            ResourceKind::IpPool => "ippools",
            ResourceKind::IpReservation => "ipreservations",
            ResourceKind::WorkloadEndpoint => "workloadendpoints",
            ResourceKind::HostEndpoint => "hostendpoints",
            ResourceKind::Node => "nodes",
            ResourceKind::NetworkPolicy => "networkpolicies",
            ResourceKind::GlobalNetworkPolicy => "globalnetworkpolicies",
            ResourceKind::Tier => "tiers",
            ResourceKind::NetworkSet => "networksets",
            ResourceKind::GlobalNetworkSet => "globalnetworksets",
            ResourceKind::Profile => "profiles",
            ResourceKind::ClusterInformation => "clusterinformations",
            ResourceKind::FelixConfiguration => "felixconfigurations",
            ResourceKind::BgpConfiguration => "bgpconfigurations",
            ResourceKind::BgpPeer => "bgppeers",
            ResourceKind::KubeControllersConfiguration => "kubecontrollersconfigurations",
            ResourceKind::IpamBlock => "ipamblocks",
            ResourceKind::BlockAffinity => "blockaffinities",
            ResourceKind::IpamHandle => "ipamhandles",
            ResourceKind::IpamConfiguration => "ipamconfigurations",
        }
    }

    /// The name of the kind in Kubernetes.
    pub fn kind_name(self) -> (r: &'static str)
        ensures
            r@ == self.name(),
    {
        match self {
            ResourceKind::IpPool => "IPPool",
            ResourceKind::IpReservation => "IPReservation",
            ResourceKind::WorkloadEndpoint => "WorkloadEndpoint",
            ResourceKind::HostEndpoint => "HostEndpoint",
            ResourceKind::Node => "Node",
            ResourceKind::NetworkPolicy => "NetworkPolicy",
            ResourceKind::GlobalNetworkPolicy => "GlobalNetworkPolicy",
            ResourceKind::Tier => "Tier",
            ResourceKind::NetworkSet => "NetworkSet",
            ResourceKind::GlobalNetworkSet => "GlobalNetworkSet",
            ResourceKind::Profile => "Profile",
            ResourceKind::ClusterInformation => "ClusterInformation",
            ResourceKind::FelixConfiguration => "FelixConfiguration",
            ResourceKind::BgpConfiguration => "BGPConfiguration",
            ResourceKind::BgpPeer => "BGPPeer",
            ResourceKind::KubeControllersConfiguration => "KubeControllersConfiguration",
            ResourceKind::IpamBlock => "IPAMBlock",
            ResourceKind::BlockAffinity => "BlockAffinity",
            ResourceKind::IpamHandle => "IPAMHandle",
            ResourceKind::IpamConfiguration => "IPAMConfiguration",
        }
    }

    /// Whether resources of the kind belong to a namespace.
    pub fn is_namespaced(self) -> (r: bool)
        ensures
            r == (self == ResourceKind::NetworkPolicy || self == ResourceKind::NetworkSet || self
                == ResourceKind::WorkloadEndpoint),
    {
        match self {
            ResourceKind::NetworkPolicy => true,
            ResourceKind::NetworkSet => true,
            ResourceKind::WorkloadEndpoint => true,
            _ => false,
        }
    }

    /// The kind with the given path segment.
    pub fn from_str(s: &str) -> (r: Option<ResourceKind>)
        ensures
            match r {
                Some(k) => k.plural() == s@,
                None => forall|k: ResourceKind| #[trigger] k.plural() != s@,
            },
    {
        let kinds = ResourceKind::ALL;
        for i in 0..20usize
            invariant
                kinds == ResourceKind::ALL,
                forall|j: int| 0 <= j < i ==> (#[trigger] ResourceKind::ALL[j]).plural() != s@,
        {
            if str_eq(kinds[i].as_str(), s) {
                return Some(kinds[i]);
            }
        }
        proof {
            assert forall|k: ResourceKind| #[trigger] k.plural() != s@ by {
                lemma_all_kinds(k);
                let j = choose|j: int| 0 <= j < 20 && ResourceKind::ALL[j] == k;
                assert(ResourceKind::ALL[j] == k);
            }
        }
        None
    }

    /// The path segment in the singular.
    pub open spec fn singular(self) -> Seq<char> {
        singular_of(self.plural())
    }

    /// Whether the token `l`, in lower case, denotes this kind: it is the plural, the
    /// singular or the name of the kind.
    pub open spec fn denoted_by(self, l: Seq<char>) -> bool {
        ||| l == self.plural()
        ||| l == self.singular()
        ||| l == ascii_lowercase(self.name())
    }

    /// Whether the token `l`, in lower case, denotes this kind.
    fn is_denoted_by(self, l: &str) -> (r: bool)
        ensures
            r == self.denoted_by(l@),
    {
        let plural = self.as_str();
        str_eq(l, plural) || str_eq(l, singular_text(plural).as_str()) || str_eq(
            l,
            lower_ascii(self.kind_name()).as_str(),
        )
    }

    /// The kind that a token in lower case denotes.
    pub fn parse_lower(l: &str) -> (r: Option<ResourceKind>)
        ensures
            forall|k: ResourceKind| #[trigger] k.denoted_by(l@) <==> r == Some(k),
    {
        let kinds = ResourceKind::ALL;
        for i in 0..20usize
            invariant
                kinds == ResourceKind::ALL,
                forall|j: int| 0 <= j < i ==> !(#[trigger] ResourceKind::ALL[j]).denoted_by(l@),
        {
            if kinds[i].is_denoted_by(l) {
                let found = kinds[i];
                proof {
                    assert forall|k: ResourceKind| #[trigger] k.denoted_by(l@) implies k == found by {
                        law_token_denotes_one_kind(k, found, l@);
                    }
                }
                return Some(found);
            }
        }
        proof {
            assert forall|k: ResourceKind| !(#[trigger] k.denoted_by(l@)) by {
                lemma_all_kinds(k);
                let j = choose|j: int| 0 <= j < 20 && ResourceKind::ALL[j] == k;
                assert(ResourceKind::ALL[j] == k);
            }
        }
        None
    }

    /// The kind that a token denotes, in whatever case it is written.
    pub fn parse_cli(s: &str) -> (r: Option<ResourceKind>)
        ensures
            forall|k: ResourceKind| #[trigger] k.denoted_by(lowercase(s@)) <==> r == Some(k),
    {
        let l = s.to_lowercase();
        ResourceKind::parse_lower(l.as_str())
    }
}

/// Every kind is listed.
pub proof fn lemma_all_kinds(k: ResourceKind)
    ensures
        exists|j: int| 0 <= j < 20 && ResourceKind::ALL[j] == k,
{
    match k {
        ResourceKind::IpPool => assert(ResourceKind::ALL[0] == k),
        ResourceKind::IpReservation => assert(ResourceKind::ALL[1] == k),
        ResourceKind::WorkloadEndpoint => assert(ResourceKind::ALL[2] == k),
        ResourceKind::HostEndpoint => assert(ResourceKind::ALL[3] == k),
        ResourceKind::Node => assert(ResourceKind::ALL[4] == k),
        ResourceKind::NetworkPolicy => assert(ResourceKind::ALL[5] == k),
        ResourceKind::GlobalNetworkPolicy => assert(ResourceKind::ALL[6] == k),
        ResourceKind::Tier => assert(ResourceKind::ALL[7] == k),
        ResourceKind::NetworkSet => assert(ResourceKind::ALL[8] == k),
        ResourceKind::GlobalNetworkSet => assert(ResourceKind::ALL[9] == k),
        ResourceKind::Profile => assert(ResourceKind::ALL[10] == k),
        ResourceKind::ClusterInformation => assert(ResourceKind::ALL[11] == k),
        ResourceKind::FelixConfiguration => assert(ResourceKind::ALL[12] == k),
        ResourceKind::BgpConfiguration => assert(ResourceKind::ALL[13] == k),
        ResourceKind::BgpPeer => assert(ResourceKind::ALL[14] == k),
        ResourceKind::KubeControllersConfiguration => assert(ResourceKind::ALL[15] == k),
        ResourceKind::IpamBlock => assert(ResourceKind::ALL[16] == k),
        ResourceKind::BlockAffinity => assert(ResourceKind::ALL[17] == k),
        ResourceKind::IpamHandle => assert(ResourceKind::ALL[18] == k),
        ResourceKind::IpamConfiguration => assert(ResourceKind::ALL[19] == k),
    }
}

/// What the path segments of the kinds are told apart by.
pub proof fn lemma_plural_marks(k: ResourceKind)
    ensures
        k.plural().len() >= 5,
        !k.plural().contains('/'),
        ({
            let p = k.plural();
            match k {
                ResourceKind::IpPool => p.len() == 7 && p[0] == 'i',
                ResourceKind::IpReservation => p.len() == 14 && p[0] == 'i',
                ResourceKind::WorkloadEndpoint => p.len() == 17 && p[0] == 'w',
                ResourceKind::HostEndpoint => p.len() == 13 && p[0] == 'h',
                ResourceKind::Node => p.len() == 5 && p[0] == 'n',
                ResourceKind::NetworkPolicy => p.len() == 15 && p[0] == 'n',
                ResourceKind::GlobalNetworkPolicy => p.len() == 21 && p[0] == 'g',
                ResourceKind::Tier => p.len() == 5 && p[0] == 't',
                ResourceKind::NetworkSet => p.len() == 11 && p[0] == 'n',
                ResourceKind::GlobalNetworkSet => p.len() == 17 && p[0] == 'g',
                ResourceKind::Profile => p.len() == 8 && p[0] == 'p',
                ResourceKind::ClusterInformation => p.len() == 19 && p[0] == 'c',
                ResourceKind::FelixConfiguration => p.len() == 19 && p[0] == 'f',
                ResourceKind::BgpConfiguration => p.len() == 17 && p[0] == 'b',
                ResourceKind::BgpPeer => p.len() == 8 && p[0] == 'b',
                ResourceKind::KubeControllersConfiguration => p.len() == 29 && p[0] == 'k',
                ResourceKind::IpamBlock => p.len() == 10 && p[0] == 'i',
                ResourceKind::BlockAffinity => p.len() == 15 && p[0] == 'b',
                ResourceKind::IpamHandle => p.len() == 11 && p[0] == 'i',
                ResourceKind::IpamConfiguration => p.len() == 18 && p[0] == 'i',
            }
        }),
{
    match k {
        ResourceKind::IpPool => {
            reveal_strlit("ippools");
        },
        ResourceKind::IpReservation => {
            reveal_strlit("ipreservations");
        },
        ResourceKind::WorkloadEndpoint => {
            reveal_strlit("workloadendpoints");
        },
        ResourceKind::HostEndpoint => {
            reveal_strlit("hostendpoints");
        },
        ResourceKind::Node => {
            reveal_strlit("nodes");
        },
        ResourceKind::NetworkPolicy => {
            reveal_strlit("networkpolicies");
        },
        ResourceKind::GlobalNetworkPolicy => {
            reveal_strlit("globalnetworkpolicies");
        },
        ResourceKind::Tier => {
            reveal_strlit("tiers");
        },
        ResourceKind::NetworkSet => {
            reveal_strlit("networksets");
        },
        ResourceKind::GlobalNetworkSet => {
            reveal_strlit("globalnetworksets");
        },
        ResourceKind::Profile => {
            reveal_strlit("profiles");
        },
        ResourceKind::ClusterInformation => {
            reveal_strlit("clusterinformations");
        },
        ResourceKind::FelixConfiguration => {
            reveal_strlit("felixconfigurations");
        },
        ResourceKind::BgpConfiguration => {
            reveal_strlit("bgpconfigurations");
        },
        ResourceKind::BgpPeer => {
            reveal_strlit("bgppeers");
        },
        ResourceKind::KubeControllersConfiguration => {
            reveal_strlit("kubecontrollersconfigurations");
        },
        ResourceKind::IpamBlock => {
            reveal_strlit("ipamblocks");
        },
        ResourceKind::BlockAffinity => {
            reveal_strlit("blockaffinities");
        },
        ResourceKind::IpamHandle => {
            reveal_strlit("ipamhandles");
        },
        ResourceKind::IpamConfiguration => {
            reveal_strlit("ipamconfigurations");
        },
    }
}

/// Different kinds have different path segments.
pub proof fn law_plurals_are_distinct(a: ResourceKind, b: ResourceKind)
    requires
        a.plural() == b.plural(),
    ensures
        a == b,
{
    lemma_plural_marks(a);
    lemma_plural_marks(b);
}

/// What the tokens of a kind are told apart by: their length, their first character and
/// their fifth one.
pub open spec fn token_marks(k: ResourceKind, l: Seq<char>) -> bool {
    let p = k.plural();
    &&& l.len() >= 4
    &&& l[0] == p[0]
    &&& l.len() > 4 ==> l[4] == p[4]
    &&& l.len() == p.len() || l.len() == p.len() - (if p[p.len() - 2] == 'e' && p[p.len() - 3]
        == 'i' {
        2int
    } else {
        1int
    })
}

/// Every token of a kind has the marks of the kind.
proof fn lemma_token_marks(k: ResourceKind, l: Seq<char>)
    requires
        k.denoted_by(l),
    ensures
        token_marks(k, l),
{
    lemma_plural_marks(k);
    lemma_plural_ends(k);
    lemma_name_marks(k);
    reveal_strlit("ies");
    reveal_strlit("y");
    let p = k.plural();
    let n = p.len();
    assert("ies"@.len() == 3 && "ies"@[0] == 'i' && "ies"@[1] == 'e' && "ies"@[2] == 's');
    if occurs_at(p, "ies"@, n - 3) {
        assert(p.subrange(n - 3, n as int)[0] == p[n - 3]);
        assert(p.subrange(n - 3, n as int)[1] == p[n - 2]);
    } else if p[n - 2] == 'e' && p[n - 3] == 'i' {
        assert(p.subrange(n - 3, n as int) =~= "ies"@);
    }
}

/// The name of a kind in lower case has the marks of the kind.
proof fn lemma_name_marks(k: ResourceKind)
    ensures
        k.plural().last() == 's',
        token_marks(k, ascii_lowercase(k.name())),
{
    match k {
        ResourceKind::IpPool => {
            reveal_strlit("ippools");
            reveal_strlit("IPPool");
        },
        ResourceKind::IpReservation => {
            reveal_strlit("ipreservations");
            reveal_strlit("IPReservation");
        },
        ResourceKind::WorkloadEndpoint => {
            reveal_strlit("workloadendpoints");
            reveal_strlit("WorkloadEndpoint");
        },
        ResourceKind::HostEndpoint => {
            reveal_strlit("hostendpoints");
            reveal_strlit("HostEndpoint");
        },
        ResourceKind::Node => {
            reveal_strlit("nodes");
            reveal_strlit("Node");
        },
        ResourceKind::NetworkPolicy => {
            reveal_strlit("networkpolicies");
            reveal_strlit("NetworkPolicy");
        },
        ResourceKind::GlobalNetworkPolicy => {
            reveal_strlit("globalnetworkpolicies");
            reveal_strlit("GlobalNetworkPolicy");
        },
        ResourceKind::Tier => {
            reveal_strlit("tiers");
            reveal_strlit("Tier");
        },
        ResourceKind::NetworkSet => {
            reveal_strlit("networksets");
            reveal_strlit("NetworkSet");
        },
        ResourceKind::GlobalNetworkSet => {
            reveal_strlit("globalnetworksets");
            reveal_strlit("GlobalNetworkSet");
        },
        ResourceKind::Profile => {
            reveal_strlit("profiles");
            reveal_strlit("Profile");
        },
        ResourceKind::ClusterInformation => {
            reveal_strlit("clusterinformations");
            reveal_strlit("ClusterInformation");
        },
        ResourceKind::FelixConfiguration => {
            reveal_strlit("felixconfigurations");
            reveal_strlit("FelixConfiguration");
        },
        ResourceKind::BgpConfiguration => {
            reveal_strlit("bgpconfigurations");
            reveal_strlit("BGPConfiguration");
        },
        ResourceKind::BgpPeer => {
            reveal_strlit("bgppeers");
            reveal_strlit("BGPPeer");
        },
        ResourceKind::KubeControllersConfiguration => {
            reveal_strlit("kubecontrollersconfigurations");
            reveal_strlit("KubeControllersConfiguration");
        },
        ResourceKind::IpamBlock => {
            reveal_strlit("ipamblocks");
            reveal_strlit("IPAMBlock");
        },
        ResourceKind::BlockAffinity => {
            reveal_strlit("blockaffinities");
            reveal_strlit("BlockAffinity");
        },
        ResourceKind::IpamHandle => {
            reveal_strlit("ipamhandles");
            reveal_strlit("IPAMHandle");
        },
        ResourceKind::IpamConfiguration => {
            reveal_strlit("ipamconfigurations");
            reveal_strlit("IPAMConfiguration");
        },
    }
}

/// How the path segments end, and the fifth characters that tell two of them apart. None
/// holds a letter in upper case.
proof fn lemma_plural_ends(k: ResourceKind)
    ensures
        ({
            let p = k.plural();
            let n = p.len();
            &&& p[n - 2] == 'e' && p[n - 3] == 'i' <==> k == ResourceKind::NetworkPolicy || k
                == ResourceKind::GlobalNetworkPolicy || k == ResourceKind::BlockAffinity
            &&& k == ResourceKind::IpamBlock ==> p[4] == 'b'
            &&& k == ResourceKind::IpamHandle ==> p[4] == 'h'
            &&& forall|i: int| 0 <= i < n ==> 'a' <= #[trigger] p[i] && p[i] <= 'z'
        }),
{
    match k {
        ResourceKind::IpPool => {
            reveal_strlit("ippools");
        },
        ResourceKind::IpReservation => {
            reveal_strlit("ipreservations");
        },
        ResourceKind::WorkloadEndpoint => {
            reveal_strlit("workloadendpoints");
        },
        ResourceKind::HostEndpoint => {
            reveal_strlit("hostendpoints");
        },
        ResourceKind::Node => {
            reveal_strlit("nodes");
        },
        ResourceKind::NetworkPolicy => {
            reveal_strlit("networkpolicies");
        },
        ResourceKind::GlobalNetworkPolicy => {
            reveal_strlit("globalnetworkpolicies");
        },
        ResourceKind::Tier => {
            reveal_strlit("tiers");
        },
        ResourceKind::NetworkSet => {
            reveal_strlit("networksets");
        },
        ResourceKind::GlobalNetworkSet => {
            reveal_strlit("globalnetworksets");
        },
        ResourceKind::Profile => {
            reveal_strlit("profiles");
        },
        ResourceKind::ClusterInformation => {
            reveal_strlit("clusterinformations");
        },
        ResourceKind::FelixConfiguration => {
            reveal_strlit("felixconfigurations");
        },
        ResourceKind::BgpConfiguration => {
            reveal_strlit("bgpconfigurations");
        },
        ResourceKind::BgpPeer => {
            reveal_strlit("bgppeers");
        },
        ResourceKind::KubeControllersConfiguration => {
            reveal_strlit("kubecontrollersconfigurations");
        },
        ResourceKind::IpamBlock => {
            reveal_strlit("ipamblocks");
        },
        ResourceKind::BlockAffinity => {
            reveal_strlit("blockaffinities");
        },
        ResourceKind::IpamHandle => {
            reveal_strlit("ipamhandles");
        },
        ResourceKind::IpamConfiguration => {
            reveal_strlit("ipamconfigurations");
        },
    }
}

/// No token denotes two kinds.
pub proof fn law_token_denotes_one_kind(a: ResourceKind, b: ResourceKind, l: Seq<char>)
    requires
        a.denoted_by(l),
        b.denoted_by(l),
    ensures
        a == b,
{
    lemma_token_marks(a, l);
    lemma_token_marks(b, l);
    lemma_plural_marks(a);
    lemma_plural_marks(b);
    lemma_plural_ends(a);
    lemma_plural_ends(b);
}

/// A text is the token `token` in some mix of upper and lower case.
pub open spec fn in_any_case(s: Seq<char>, token: Seq<char>) -> bool {
    is_ascii_chars(s) && ascii_lowercase(s) == ascii_lowercase(token)
}

/// Every kind is found by its plural, by its singular and by its name, each in any mix of
/// upper and lower case.
pub proof fn law_every_token_finds_its_kind(k: ResourceKind, s: Seq<char>)
    requires
        in_any_case(s, k.plural()) || in_any_case(s, k.singular()) || in_any_case(s, k.name()),
    ensures
        k.denoted_by(lowercase(s)),
        forall|other: ResourceKind| #[trigger] other.denoted_by(lowercase(s)) ==> other == k,
{
    lemma_plural_ends(k);
    reveal_strlit("y");
    assert(ascii_lowercase(k.plural()) =~= k.plural());
    assert(ascii_lowercase(k.singular()) =~= k.singular());
    assert forall|other: ResourceKind| #[trigger] other.denoted_by(lowercase(s)) implies other
        == k by {
        law_token_denotes_one_kind(other, k, lowercase(s));
    }
}

/// The singular of a plural: `y` stands for a final `ies`, and else a final `s` is dropped.
pub open spec fn singular_of(plural: Seq<char>) -> Seq<char> {
    if occurs_at(plural, "ies"@, plural.len() - 3) {
        plural.take(plural.len() - 3) + "y"@
    } else if plural.len() > 0 && plural.last() == 's' {
        plural.drop_last()
    } else {
        plural
    }
}

/// The singular of a plural.
fn singular_text(plural: &str) -> (r: String)
    ensures
        r@ == singular_of(plural@),
{
    let v = to_chars(plural);
    let ies = to_chars("ies");
    proof {
        reveal_strlit("ies");
        assert(ies@.len() == 3);
    }
    if v.len() >= 3 && ends_at(&v, v.len(), &ies) {
        let mut s = first_chars(&v, v.len() - 3);
        s.push_str("y");
        s
    } else if v.len() > 0 && v[v.len() - 1] == 's' {
        let s = first_chars(&v, v.len() - 1);
        assert(s@ =~= plural@.drop_last());
        s
    } else {
        plural.to_owned()
    }
}

/// The text of the first `n` characters.
fn first_chars(v: &Vec<char>, n: usize) -> (r: String)
    requires
        n <= v@.len(),
    ensures
        r@ == v@.take(n as int),
{
    let mut out = String::new();
    for i in 0..n
        invariant
            n <= v.len(),
            out@ == v@.take(i as int),
    {
        out.push(v[i]);
        assert(out@ =~= v@.take(i + 1));
    }
    out
}

/// Whether the first `n` characters end in `q`.
fn ends_at(v: &Vec<char>, n: usize, q: &Vec<char>) -> (r: bool)
    requires
        q@.len() <= n <= v@.len(),
    ensures
        r == (v@.subrange(n - q@.len(), n as int) == q@),
{
    for j in 0..q.len()
        invariant
            q.len() <= n <= v.len(),
            forall|k: int| 0 <= k < j ==> v@[n - q@.len() + k] == q@[k],
    {
        if v[n - q.len() + j] != q[j] {
            assert(v@.subrange(n - q@.len(), n as int)[j as int] != q@[j as int]);
            return false;
        }
    }
    assert(v@.subrange(n - q@.len(), n as int) =~= q@);
    true
}

/// The text with each ASCII letter in lower case.
fn lower_ascii(s: &str) -> (r: String)
    ensures
        r@ == ascii_lowercase(s@),
{
    let v = to_chars(s);
    let mut out = String::new();
    for i in 0..v.len()
        invariant
            v@ == s@,
            out@ == ascii_lowercase(s@).take(i as int),
    {
        let c = v[i];
        if 'A' <= c && c <= 'Z' {
            out.push(((c as u8) + 32) as char);
        } else {
            out.push(c);
        }
        assert(out@ =~= ascii_lowercase(s@).take(i + 1));
    }
    assert(out@ =~= ascii_lowercase(s@));
    out
}

/// A key of the datastore.
#[derive(Debug, PartialEq, Eq, Hash)]
pub enum Key {
    /// A resource, in a namespace or in none.
    Resource { kind: ResourceKind, namespace: Option<String>, name: String },
    /// A block of addresses with its allocations.
    Block { cidr: String },
    /// The affinity of a block to a host.
    BlockAffinity { host: String, cidr: String },
    /// A handle on allocations.
    IpamHandle { id: String },
}

/// The mathematical content of a [`Key`].
#[verifier::ext_equal]
pub enum KeyView {
    Resource { kind: ResourceKind, namespace: Option<Seq<char>>, name: Seq<char> },
    Block { cidr: Seq<char> },
    BlockAffinity { host: Seq<char>, cidr: Seq<char> },
    IpamHandle { id: Seq<char> },
}

impl DeepView for Key {
    type V = KeyView;

    open spec fn deep_view(&self) -> KeyView {
        match self {
            Key::Resource { kind, namespace, name } => KeyView::Resource { kind: *kind, namespace: namespace.deep_view(), name: name.deep_view() },
            Key::Block { cidr } => KeyView::Block { cidr: cidr.deep_view() },
            Key::BlockAffinity { host, cidr } => KeyView::BlockAffinity { host: host.deep_view(), cidr: cidr.deep_view() },
            Key::IpamHandle { id } => KeyView::IpamHandle { id: id.deep_view() },
        }
    }
}

impl Clone for Key {
    fn clone(&self) -> (r: Self)
        ensures
            r.deep_view() == self.deep_view(),
    {
        let r = match self {
            Key::Resource { kind, namespace, name } => Key::Resource { kind: *kind, namespace: namespace.clone(), name: name.clone() },
            Key::Block { cidr } => Key::Block { cidr: cidr.clone() },
            Key::BlockAffinity { host, cidr } => Key::BlockAffinity { host: host.clone(), cidr: cidr.clone() },
            Key::IpamHandle { id } => Key::IpamHandle { id: id.clone() },
        };
        assert(r.deep_view() =~= self.deep_view());
        r
    }
}

/// The character in a path-safe token.
pub open spec fn token_char(c: char) -> char {
    if c == '.' || c == ':' || c == '/' {
        '-'
    } else {
        c
    }
}

/// The path-safe token of an address block.
pub open spec fn cidr_token(cidr: Seq<char>) -> Seq<char> {
    Seq::new(cidr.len(), |i: int| token_char(cidr[i]))
}

/// The path-safe token of an address block: `.`, `:` and `/` become `-`.
pub fn cidr_to_token(cidr: &str) -> (r: String)
    ensures
        r@ == cidr_token(cidr@),
{
    let v = to_chars(cidr);
    let mut out = String::new();
    for i in 0..v.len()
        invariant
            v@ == cidr@,
            out@ == cidr_token(cidr@).take(i as int),
    {
        let c = v[i];
        if c == '.' || c == ':' || c == '/' {
            out.push('-');
        } else {
            out.push(c);
        }
        assert(out@ =~= cidr_token(cidr@).take(i + 1));
    }
    assert(out@ =~= cidr_token(cidr@));
    out
}

impl KeyView {
    /// The path that the key is stored under.
    pub open spec fn path(self) -> Seq<char> {
        match self {
            KeyView::Resource { kind, namespace: Some(ns), name } => "/"@ + kind.plural() + "/"@ + ns
                + "/"@ + name,
            KeyView::Resource { kind, namespace: None, name } => "/"@ + kind.plural() + "/"@ + name,
            KeyView::Block { cidr } => "/ipam/block/"@ + cidr_token(cidr),
            KeyView::BlockAffinity { host, cidr } => "/ipam/affinity/"@ + host + "/"@ + cidr_token(
                cidr,
            ),
            KeyView::IpamHandle { id } => "/ipam/handle/"@ + id,
        }
    }
}

/// A path without the slashes that it begins with.
pub open spec fn trim_slashes(path: Seq<char>) -> Seq<char>
    decreases path.len(),
{
    if path.len() > 0 && path[0] == '/' {
        trim_slashes(path.skip(1))
    } else {
        path
    }
}

/// Whether a resource is stored under a path: the path has two segments, the kind and the
/// name, or three, with the namespace between them.
pub open spec fn stored_under(path: Seq<char>, key: KeyView) -> bool {
    let parts = split_on(trim_slashes(path), '/');
    match key {
        KeyView::Resource { kind, namespace: None, name } => parts.len() == 2 && parts[0]
            == kind.plural() && parts[1] == name,
        KeyView::Resource { kind, namespace: Some(ns), name } => parts.len() == 3 && parts[0]
            == kind.plural() && parts[1] == ns && parts[2] == name,
        _ => false,
    }
}

impl Key {
    /// The path that the key is stored under.
    pub fn path(&self) -> (r: String)
        ensures
            r@ == self.deep_view().path(),
    {
        match self {
            Key::Resource { kind, namespace, name } => {
                let mut s = "/".to_owned();
                s.push_str(kind.as_str());
                s.push_str("/");
                if let Some(ns) = namespace {
                    s.push_str(ns.as_str());
                    s.push_str("/");
                }
                s.push_str(name.as_str());
                s
            },
            Key::Block { cidr } => {
                let mut s = "/ipam/block/".to_owned();
                s.push_str(cidr_to_token(cidr.as_str()).as_str());
                s
            },
            Key::BlockAffinity { host, cidr } => {
                let mut s = "/ipam/affinity/".to_owned();
                s.push_str(host.as_str());
                s.push_str("/");
                s.push_str(cidr_to_token(cidr.as_str()).as_str());
                s
            },
            Key::IpamHandle { id } => {
                let mut s = "/ipam/handle/".to_owned();
                s.push_str(id.as_str());
                s
            },
        }
    }

    /// The resource that is stored under a path. The keys of address management are not
    /// read back: their token does not tell `.`, `:` and `/` apart.
    pub fn parse_resource(path: &str) -> (r: Option<Key>)
        ensures
            match r {
                Some(k) => stored_under(path@, k.deep_view()),
                None => forall|k: KeyView| !#[trigger] stored_under(path@, k),
            },
    {
        let v = to_chars(path);
        let mut i: usize = 0;
        assert(v@.skip(0) =~= path@);
        while i < v.len() && v[i] == '/'
            invariant
                i <= v.len(),
                trim_slashes(path@) == trim_slashes(v@.skip(i as int)),
            decreases v.len() - i,
        {
            assert(v@.skip(i as int).skip(1) =~= v@.skip(i + 1));
            i = i + 1;
        }
        let mut rest = String::new();
        for j in i..v.len()
            invariant
                i <= v.len(),
                rest@ == v@.subrange(i as int, j as int),
        {
            rest.push(v[j]);
            assert(rest@ =~= v@.subrange(i as int, j + 1));
        }
        assert(rest@ =~= v@.skip(i as int));
        let parts = split(rest.as_str(), '/');
        let ghost pv = split_on(trim_slashes(path@), '/');
        assert(views(parts@) == pv);
        assert(pv.len() == parts@.len());
        if parts.len() == 2 {
            assert(pv[0] == parts@[0]@ && pv[1] == parts@[1]@);
            match ResourceKind::from_str(parts[0].as_str()) {
                Some(kind) => Some(
                    Key::Resource { kind, namespace: None, name: parts[1].clone() },
                ),
                None => None,
            }
        } else if parts.len() == 3 {
            assert(pv[0] == parts@[0]@ && pv[1] == parts@[1]@ && pv[2] == parts@[2]@);
            match ResourceKind::from_str(parts[0].as_str()) {
                Some(kind) => Some(
                    Key::Resource {
                        kind,
                        namespace: Some(parts[1].clone()),
                        name: parts[2].clone(),
                    },
                ),
                None => None,
            }
        } else {
            None
        }
    }

    /// Whether the two keys are the same.
    pub fn is_same(&self, other: &Key) -> (r: bool)
        ensures
            r == (self.deep_view() == other.deep_view()),
    {
        match (self, other) {
            (
                Key::Resource { kind: k1, namespace: ns1, name: n1 },
                Key::Resource { kind: k2, namespace: ns2, name: n2 },
            ) => *k1 == *k2 && opt_str_eq(ns1, ns2) && str_eq(n1.as_str(), n2.as_str()),
            (Key::Block { cidr: c1 }, Key::Block { cidr: c2 }) => str_eq(c1.as_str(), c2.as_str()),
            (
                Key::BlockAffinity { host: h1, cidr: c1 },
                Key::BlockAffinity { host: h2, cidr: c2 },
            ) => str_eq(h1.as_str(), h2.as_str()) && str_eq(c1.as_str(), c2.as_str()),
            (Key::IpamHandle { id: i1 }, Key::IpamHandle { id: i2 }) => str_eq(
                i1.as_str(),
                i2.as_str(),
            ),
            _ => false,
        }
    }
}

/// At most one resource is stored under a path.
pub proof fn law_path_names_one_resource(path: Seq<char>, a: KeyView, b: KeyView)
    requires
        stored_under(path, a),
        stored_under(path, b),
    ensures
        a == b,
{
    let parts = split_on(trim_slashes(path), '/');
    match (a, b) {
        (
            KeyView::Resource { kind: k1, namespace: _, name: _ },
            KeyView::Resource { kind: k2, namespace: _, name: _ },
        ) => {
            assert(k1.plural() == parts[0]);
            assert(k2.plural() == parts[0]);
            law_plurals_are_distinct(k1, k2);
        },
        _ => {},
    }
}

/// A resource whose namespace and name hold no slash reads back from its path as itself.
pub proof fn law_resource_path_round_trips(
    kind: ResourceKind,
    namespace: Option<Seq<char>>,
    name: Seq<char>,
)
    requires
        !name.contains('/'),
        namespace is Some ==> !namespace->0.contains('/'),
    ensures
        ({
            let key = KeyView::Resource { kind, namespace, name };
            stored_under(key.path(), key)
        }),
{
    let key = KeyView::Resource { kind, namespace, name };
    let path = key.path();
    let p = kind.plural();
    lemma_plural_marks(kind);
    reveal_strlit("/");
    assert("/"@ =~= seq!['/']);
    assert(path[0] == '/');
    let rest = path.skip(1);
    assert(rest[0] == p[0]);
    assert(p.contains(p[0]));
    assert(trim_slashes(rest) == rest);
    assert(trim_slashes(path) == rest);
    lemma_split_single(p, '/');
    match namespace {
        None => {
            assert(rest =~= p.push('/') + name);
            lemma_split_append(p, name, '/');
        },
        Some(ns) => {
            let head = p.push('/') + ns;
            assert(rest =~= head.push('/') + name);
            lemma_split_append(p, ns, '/');
            lemma_split_append(head, name, '/');
        },
    }
}

/// The name by which keys are ordered first; empty for a key that is no resource.
pub open spec fn name_of(key: KeyView) -> Seq<char> {
    match key {
        KeyView::Resource { kind: _, namespace: _, name } => name,
        _ => Seq::empty(),
    }
}

/// What keys are ordered by: their name, then what else tells them apart.
pub open spec fn sort_parts(key: KeyView) -> Seq<Seq<char>> {
    match key {
        KeyView::Resource { kind, namespace: None, name } => seq![
            name,
            "0"@,
            kind.plural(),
            Seq::empty(),
        ],
        KeyView::Resource { kind, namespace: Some(ns), name } => seq![name, "1"@, kind.plural(), ns],
        KeyView::Block { cidr } => seq![Seq::empty(), "2"@, cidr, Seq::empty()],
        KeyView::BlockAffinity { host, cidr } => seq![Seq::empty(), "3"@, host, cidr],
        KeyView::IpamHandle { id } => seq![Seq::empty(), "4"@, id, Seq::empty()],
    }
}

/// What keys are ordered by tells them apart.
proof fn lemma_sort_parts(a: KeyView, b: KeyView)
    requires
        sort_parts(a) == sort_parts(b),
    ensures
        a == b,
{
    reveal_strlit("0");
    reveal_strlit("1");
    reveal_strlit("2");
    reveal_strlit("3");
    reveal_strlit("4");
    let x = sort_parts(a);
    let y = sort_parts(b);
    assert(x[0] == y[0] && x[1] == y[1] && x[2] == y[2] && x[3] == y[3]);
    assert(x[1][0] == y[1][0]);
    match (a, b) {
        (
            KeyView::Resource { kind: k1, namespace: _, name: _ },
            KeyView::Resource { kind: k2, namespace: _, name: _ },
        ) => {
            law_plurals_are_distinct(k1, k2);
        },
        _ => {},
    }
}

impl Key {
    /// What keys are ordered by.
    fn sort_texts(&self) -> (r: Vec<String>)
        ensures
            views(r@) == sort_parts(self.deep_view()),
    {
        let mut out: Vec<String> = Vec::new();
        match self {
            Key::Resource { kind, namespace, name } => {
                out.push(name.clone());
                match namespace {
                    Some(ns) => {
                        out.push("1".to_owned());
                        out.push(kind.as_str().to_owned());
                        out.push(ns.clone());
                    },
                    None => {
                        out.push("0".to_owned());
                        out.push(kind.as_str().to_owned());
                        out.push(String::new());
                    },
                }
            },
            Key::Block { cidr } => {
                out.push(String::new());
                out.push("2".to_owned());
                out.push(cidr.clone());
                out.push(String::new());
            },
            Key::BlockAffinity { host, cidr } => {
                out.push(String::new());
                out.push("3".to_owned());
                out.push(host.clone());
                out.push(cidr.clone());
            },
            Key::IpamHandle { id } => {
                out.push(String::new());
                out.push("4".to_owned());
                out.push(id.clone());
                out.push(String::new());
            },
        }
        assert(views(out@) =~= sort_parts(self.deep_view()));
        out
    }
}

impl MapKey for Key {
    open spec fn less(a: KeyView, b: KeyView) -> bool {
        texts_less(sort_parts(a), sort_parts(b))
    }

    proof fn less_irreflexive(a: KeyView) {
        lemma_texts_irreflexive(sort_parts(a));
    }

    proof fn less_transitive(a: KeyView, b: KeyView, c: KeyView) {
        lemma_texts_transitive(sort_parts(a), sort_parts(b), sort_parts(c));
    }

    proof fn less_total(a: KeyView, b: KeyView) {
        if sort_parts(a) == sort_parts(b) {
            lemma_sort_parts(a, b);
        }
        lemma_texts_total(sort_parts(a), sort_parts(b));
    }

    fn precedes(&self, other: &Key) -> (r: bool) {
        texts_precede(&self.sort_texts(), &other.sort_texts())
    }

    fn same(&self, other: &Key) -> (r: bool) {
        self.is_same(other)
    }
}

/// Keys ascend by their names.
pub proof fn law_keys_ascend_by_name(a: KeyView, b: KeyView)
    requires
        <Key as MapKey>::less(a, b),
    ensures
        !text_less(name_of(b), name_of(a)),
{
    let x = sort_parts(a);
    let y = sort_parts(b);
    if x[0] != y[0] {
        if text_less(name_of(b), name_of(a)) {
            lemma_text_transitive(x[0], y[0], x[0]);
        }
    }
    lemma_text_irreflexive(x[0]);
}

/// A value with its key, and the revision that it was read at.
#[derive(Debug, PartialEq, Eq)]
pub struct KVPair<V> {
    /// The key.
    pub key: Key,
    /// The value.
    pub value: V,
    /// The revision; one that is there makes an update conditional on it.
    pub revision: Option<Revision>,
}

impl<V: Clone> Clone for KVPair<V> {
    fn clone(&self) -> (r: Self)
        ensures
            r.key.deep_view() == self.key.deep_view(),
            cloned(self.value, r.value),
            r.revision == self.revision,
    {
        KVPair { key: self.key.clone(), value: self.value.clone(), revision: self.revision }
    }
}

impl<V> KVPair<V> {
    /// A pair without a revision.
    pub fn new(key: Key, value: V) -> (r: Self)
        ensures
            r.key == key,
            r.value == value,
            r.revision is None,
    {
        KVPair { key, value, revision: None }
    }

    /// A pair with a revision.
    pub fn with_revision(key: Key, value: V, revision: Revision) -> (r: Self)
        ensures
            r.key == key,
            r.value == value,
            r.revision == Some(revision),
    {
        KVPair { key, value, revision: Some(revision) }
    }
}

/// What begins with one text and goes on with another does so in one way.
proof fn lemma_same_start(p: Seq<char>, a: Seq<char>, b: Seq<char>)
    requires
        p + a == p + b,
    ensures
        a == b,
{
    assert(a =~= (p + a).skip(p.len() as int));
    assert(b =~= (p + b).skip(p.len() as int));
}

/// Segments without slashes in front of a slash are the same where the paths are.
proof fn lemma_same_segment(a: Seq<char>, x: Seq<char>, b: Seq<char>, y: Seq<char>)
    requires
        !a.contains('/'),
        !b.contains('/'),
        a + "/"@ + x == b + "/"@ + y,
    ensures
        a == b,
        x == y,
{
    reveal_strlit("/");
    let p = a + "/"@ + x;
    let q = b + "/"@ + y;
    if a.len() < b.len() {
        assert(p[a.len() as int] == '/');
        assert(q[a.len() as int] == b[a.len() as int]);
        assert(b.contains(b[a.len() as int]));
    }
    if b.len() < a.len() {
        assert(q[b.len() as int] == '/');
        assert(p[b.len() as int] == a[b.len() as int]);
        assert(a.contains(a[b.len() as int]));
    }
    assert(a =~= p.take(a.len() as int));
    assert(b =~= q.take(b.len() as int));
    assert(x =~= p.skip(a.len() as int + 1));
    assert(y =~= q.skip(b.len() as int + 1));
}

/// Address blocks, their affinities to hosts and handles are stored apart from each other and
/// from all resources: keys of two sorts never share a path. Two handles share one only where
/// they are the same, two blocks only where their tokens are, and two affinities only where
/// their hosts and tokens are.
pub proof fn law_paths_of_other_keys_are_apart(a: KeyView, b: KeyView)
    requires
        !(a is Resource),
        a.path() == b.path(),
        a matches KeyView::BlockAffinity { host, cidr: _ } ==> !host.contains('/'),
        b matches KeyView::BlockAffinity { host, cidr: _ } ==> !host.contains('/'),
    ensures
        match a {
            KeyView::Block { cidr } => b matches KeyView::Block { cidr: c } && cidr_token(c)
                == cidr_token(cidr),
            KeyView::BlockAffinity { host, cidr } => b matches KeyView::BlockAffinity {
                host: h,
                cidr: c,
            } && h == host && cidr_token(c) == cidr_token(cidr),
            KeyView::IpamHandle { id } => b == KeyView::IpamHandle { id },
            KeyView::Resource { .. } => true,
        },
{
    reveal_strlit("/");
    reveal_strlit("/ipam/block/");
    reveal_strlit("/ipam/affinity/");
    reveal_strlit("/ipam/handle/");
    let p = a.path();
    let q = b.path();
    match a {
        KeyView::Block { cidr } => {
            assert(p[6] == 'b' && p[5] == '/');
        },
        KeyView::BlockAffinity { host, cidr } => {
            assert(p[6] == 'a' && p[5] == '/');
        },
        KeyView::IpamHandle { id } => {
            assert(p[6] == 'h' && p[5] == '/');
        },
        KeyView::Resource { .. } => {},
    }
    match b {
        KeyView::Block { cidr: c } => {
            assert(q[6] == 'b');
            if let KeyView::Block { cidr } = a {
                lemma_same_start("/ipam/block/"@, cidr_token(cidr), cidr_token(c));
            }
        },
        KeyView::BlockAffinity { host: h, cidr: c } => {
            assert(q[6] == 'a');
            if let KeyView::BlockAffinity { host, cidr } = a {
                let x = host + "/"@ + cidr_token(cidr);
                let y = h + "/"@ + cidr_token(c);
                assert(p =~= "/ipam/affinity/"@ + x);
                assert(q =~= "/ipam/affinity/"@ + y);
                lemma_same_start("/ipam/affinity/"@, x, y);
                lemma_same_segment(host, cidr_token(cidr), h, cidr_token(c));
            }
        },
        KeyView::IpamHandle { id: i } => {
            assert(q[6] == 'h');
            if let KeyView::IpamHandle { id } = a {
                lemma_same_start("/ipam/handle/"@, id, i);
            }
        },
        KeyView::Resource { kind, namespace, name } => {
            lemma_plural_marks(kind);
            let plural = kind.plural();
            assert(q[5] == plural[4]);
            assert(plural.contains(plural[4]));
        },
    }
}

/// A token keeps every character of its block but the separators, which all become hyphens:
/// it holds no separator, and is as long as the block.
pub proof fn law_tokens_hold_no_separators(cidr: Seq<char>, i: int)
    requires
        0 <= i < cidr.len(),
    ensures
        cidr_token(cidr).len() == cidr.len(),
        ({
            let separates = cidr[i] == '.' || cidr[i] == ':' || cidr[i] == '/';
            &&& separates ==> cidr_token(cidr)[i] == '-'
            &&& !separates ==> cidr_token(cidr)[i] == cidr[i]
        }),
{
}

} // verus!
