//! The specifications of the resources that the datastore holds.
//!
//! An order among policies is carried as the bits of a double and never computed with.

use crate::ordmap::{Labels, OrdMap};
use vstd::prelude::*;

verus! {

/// What a matched rule does.
#[derive(Debug, Clone, Copy, PartialEq, Eq, Structural)]
pub enum Action {
    /// Allow the traffic.
    Allow,
    /// Deny the traffic.
    Deny,
    /// Log the traffic.
    Log,
    /// Go on with the next tier.
    Pass,
}

impl DeepView for Action {
    type V = Action;

    open spec fn deep_view(&self) -> Action {
        *self
    }
}

/// The direction that a policy governs.
#[derive(Debug, Clone, Copy, PartialEq, Eq, Structural)]
pub enum PolicyType {
    /// Traffic to the endpoint.
    Ingress,
    /// Traffic from the endpoint.
    Egress,
}

impl DeepView for PolicyType {
    type V = PolicyType;

    open spec fn deep_view(&self) -> PolicyType {
        *self
    }
}

/// A transport protocol.
#[derive(Debug, PartialEq, Eq)]
pub enum Protocol {
    /// By its name.
    Named(String),
    /// By its number.
    Number(u8),
}

/// The mathematical content of a [`Protocol`].
#[verifier::ext_equal]
pub enum ProtocolView {
    Named(Seq<char>),
    Number(u8),
}

impl DeepView for Protocol {
    type V = ProtocolView;

    open spec fn deep_view(&self) -> ProtocolView {
        match self {
            Protocol::Named(a) => ProtocolView::Named(a.deep_view()),
            Protocol::Number(a) => ProtocolView::Number(*a),
        }
    }
}

impl Clone for Protocol {
    fn clone(&self) -> (r: Self)
        ensures
            r.deep_view() == self.deep_view(),
    {
        let r = match self {
            Protocol::Named(a) => Protocol::Named(a.clone()),
            Protocol::Number(a) => Protocol::Number(*a),
        };
        assert(r.deep_view() =~= self.deep_view());
        r
    }
}

/// One side of the traffic that a rule matches.
#[derive(Debug, PartialEq, Eq)]
pub struct EntityRule {
    /// The endpoints.
    pub selector: Option<String>,
    /// The namespaces.
    pub namespace_selector: Option<String>,
    /// Address blocks.
    pub nets: Vec<String>,
    /// Address blocks that are left out.
    pub not_nets: Vec<String>,
    /// Ports.
    pub ports: Vec<u16>,
}

/// The mathematical content of a [`EntityRule`].
#[verifier::ext_equal]
pub struct EntityRuleView {
    pub selector: Option<Seq<char>>,
    pub namespace_selector: Option<Seq<char>>,
    pub nets: Seq<Seq<char>>,
    pub not_nets: Seq<Seq<char>>,
    pub ports: Seq<u16>,
}

impl DeepView for EntityRule {
    type V = EntityRuleView;

    open spec fn deep_view(&self) -> EntityRuleView {
        EntityRuleView {
            selector: self.selector.deep_view(),
            namespace_selector: self.namespace_selector.deep_view(),
            nets: self.nets.deep_view(),
            not_nets: self.not_nets.deep_view(),
            ports: self.ports.deep_view(),
        }
    }
}

impl Clone for EntityRule {
    fn clone(&self) -> (r: Self)
        ensures
            r.deep_view() == self.deep_view(),
    {
        let r = EntityRule {
            selector: self.selector.clone(),
            namespace_selector: self.namespace_selector.clone(),
            nets: self.nets.clone(),
            not_nets: self.not_nets.clone(),
            ports: self.ports.clone(),
        };
        assert(r.deep_view() =~= self.deep_view());
        r
    }
}

impl Default for EntityRule {
    fn default() -> (r: Self)
        ensures
            r.selector is None,
            r.namespace_selector is None,
            r.nets@.len() == 0,
            r.not_nets@.len() == 0,
            r.ports@.len() == 0,
    {
        EntityRule {
            selector: None,
            namespace_selector: None,
            nets: Vec::new(),
            not_nets: Vec::new(),
            ports: Vec::new(),
        }
    }
}

/// A rule of a policy or of a profile.
#[derive(Debug, PartialEq, Eq)]
pub struct Rule {
    /// What it does.
    pub action: Action,
    /// The protocol that it matches.
    pub protocol: Option<Protocol>,
    /// Where the traffic comes from.
    pub source: EntityRule,
    /// Where the traffic goes.
    pub destination: EntityRule,
}

/// The mathematical content of a [`Rule`].
#[verifier::ext_equal]
pub struct RuleView {
    pub action: Action,
    pub protocol: Option<ProtocolView>,
    pub source: EntityRuleView,
    pub destination: EntityRuleView,
}

impl DeepView for Rule {
    type V = RuleView;

    open spec fn deep_view(&self) -> RuleView {
        RuleView {
            action: self.action,
            protocol: self.protocol.deep_view(),
            source: self.source.deep_view(),
            destination: self.destination.deep_view(),
        }
    }
}

impl Clone for Rule {
    fn clone(&self) -> (r: Self)
        ensures
            r.deep_view() == self.deep_view(),
    {
        let r = Rule {
            action: self.action,
            protocol: self.protocol.clone(),
            source: self.source.clone(),
            destination: self.destination.clone(),
        };
        assert(r.deep_view() =~= self.deep_view());
        r
    }
}

/// A network policy.
#[derive(Debug, PartialEq, Eq)]
pub struct NetworkPolicySpec {
    /// Its tier.
    pub tier: Option<String>,
    /// Its order within the tier, as the bits of a double.
    pub order: Option<u64>,
    /// The endpoints that it applies to.
    pub selector: String,
    /// The directions that it governs.
    pub types: Vec<PolicyType>,
    /// Its rules for traffic to the endpoints.
    pub ingress: Vec<Rule>,
    /// Its rules for traffic from the endpoints.
    pub egress: Vec<Rule>,
}

/// The mathematical content of a [`NetworkPolicySpec`].
#[verifier::ext_equal]
pub struct NetworkPolicySpecView {
    pub tier: Option<Seq<char>>,
    pub order: Option<u64>,
    pub selector: Seq<char>,
    pub types: Seq<PolicyType>,
    pub ingress: Seq<RuleView>,
    pub egress: Seq<RuleView>,
}

impl DeepView for NetworkPolicySpec {
    type V = NetworkPolicySpecView;

    open spec fn deep_view(&self) -> NetworkPolicySpecView {
        NetworkPolicySpecView {
            tier: self.tier.deep_view(),
            order: self.order.deep_view(),
            selector: self.selector.deep_view(),
            types: self.types.deep_view(),
            ingress: self.ingress.deep_view(),
            egress: self.egress.deep_view(),
        }
    }
}

impl Clone for NetworkPolicySpec {
    fn clone(&self) -> (r: Self)
        ensures
            r.deep_view() == self.deep_view(),
    {
        let r = NetworkPolicySpec {
            tier: self.tier.clone(),
            order: self.order.clone(),
            selector: self.selector.clone(),
            types: self.types.clone(),
            ingress: self.ingress.clone(),
            egress: self.egress.clone(),
        };
        assert(r.deep_view() =~= self.deep_view());
        r
    }
}

impl Default for NetworkPolicySpec {
    fn default() -> (r: Self)
        ensures
            r.tier is None,
            r.order is None,
            r.selector@.len() == 0,
            r.types@.len() == 0,
            r.ingress@.len() == 0,
            r.egress@.len() == 0,
    {
        NetworkPolicySpec {
            tier: None,
            order: None,
            selector: String::new(),
            types: Vec::new(),
            ingress: Vec::new(),
            egress: Vec::new(),
        }
    }
}

/// A network policy for all namespaces.
#[derive(Debug, PartialEq, Eq)]
pub struct GlobalNetworkPolicySpec {
    /// Its tier.
    pub tier: Option<String>,
    /// Its order within the tier, as the bits of a double.
    pub order: Option<u64>,
    /// The endpoints that it applies to.
    pub selector: String,
    /// The namespaces that it applies to.
    pub namespace_selector: String,
    /// The directions that it governs.
    pub types: Vec<PolicyType>,
    /// Its rules for traffic to the endpoints.
    pub ingress: Vec<Rule>,
    /// Its rules for traffic from the endpoints.
    pub egress: Vec<Rule>,
    /// Whether it applies to forwarded traffic.
    pub apply_on_forward: bool,
    /// Whether it applies before connection tracking.
    pub do_not_track: bool,
    /// Whether it applies before address translation.
    pub pre_dnat: bool,
}

/// The mathematical content of a [`GlobalNetworkPolicySpec`].
#[verifier::ext_equal]
pub struct GlobalNetworkPolicySpecView {
    pub tier: Option<Seq<char>>,
    pub order: Option<u64>,
    pub selector: Seq<char>,
    pub namespace_selector: Seq<char>,
    pub types: Seq<PolicyType>,
    pub ingress: Seq<RuleView>,
    pub egress: Seq<RuleView>,
    pub apply_on_forward: bool,
    pub do_not_track: bool,
    pub pre_dnat: bool,
}

impl DeepView for GlobalNetworkPolicySpec {
    type V = GlobalNetworkPolicySpecView;

    open spec fn deep_view(&self) -> GlobalNetworkPolicySpecView {
        GlobalNetworkPolicySpecView {
            tier: self.tier.deep_view(),
            order: self.order.deep_view(),
            selector: self.selector.deep_view(),
            namespace_selector: self.namespace_selector.deep_view(),
            types: self.types.deep_view(),
            ingress: self.ingress.deep_view(),
            egress: self.egress.deep_view(),
            apply_on_forward: self.apply_on_forward,
            do_not_track: self.do_not_track,
            pre_dnat: self.pre_dnat,
        }
    }
}

impl Clone for GlobalNetworkPolicySpec {
    fn clone(&self) -> (r: Self)
        ensures
            r.deep_view() == self.deep_view(),
    {
        let r = GlobalNetworkPolicySpec {
            tier: self.tier.clone(),
            order: self.order.clone(),
            selector: self.selector.clone(),
            namespace_selector: self.namespace_selector.clone(),
            types: self.types.clone(),
            ingress: self.ingress.clone(),
            egress: self.egress.clone(),
            apply_on_forward: self.apply_on_forward,
            do_not_track: self.do_not_track,
            pre_dnat: self.pre_dnat,
        };
        assert(r.deep_view() =~= self.deep_view());
        r
    }
}

impl Default for GlobalNetworkPolicySpec {
    fn default() -> (r: Self)
        ensures
            r.tier is None,
            r.order is None,
            r.selector@.len() == 0,
            r.namespace_selector@.len() == 0,
            r.types@.len() == 0,
            r.ingress@.len() == 0,
            r.egress@.len() == 0,
            !r.apply_on_forward,
            !r.do_not_track,
            !r.pre_dnat,
    {
        GlobalNetworkPolicySpec {
            tier: None,
            order: None,
            selector: String::new(),
            namespace_selector: String::new(),
            types: Vec::new(),
            ingress: Vec::new(),
            egress: Vec::new(),
            apply_on_forward: false,
            do_not_track: false,
            pre_dnat: false,
        }
    }
}

/// A profile.
#[derive(Debug, PartialEq, Eq)]
pub struct ProfileSpec {
    /// Its rules for traffic to the endpoints.
    pub ingress: Vec<Rule>,
    /// Its rules for traffic from the endpoints.
    pub egress: Vec<Rule>,
    /// The labels that its endpoints inherit.
    pub labels_to_apply: Labels,
}

/// The mathematical content of a [`ProfileSpec`].
#[verifier::ext_equal]
pub struct ProfileSpecView {
    pub ingress: Seq<RuleView>,
    pub egress: Seq<RuleView>,
    pub labels_to_apply: Seq<(Seq<char>, Seq<char>)>,
}

impl DeepView for ProfileSpec {
    type V = ProfileSpecView;

    open spec fn deep_view(&self) -> ProfileSpecView {
        ProfileSpecView {
            ingress: self.ingress.deep_view(),
            egress: self.egress.deep_view(),
            labels_to_apply: self.labels_to_apply.deep_view(),
        }
    }
}

impl Clone for ProfileSpec {
    fn clone(&self) -> (r: Self)
        ensures
            r.deep_view() == self.deep_view(),
    {
        let r = ProfileSpec {
            ingress: self.ingress.clone(),
            egress: self.egress.clone(),
            labels_to_apply: self.labels_to_apply.clone(),
        };
        assert(r.deep_view() =~= self.deep_view());
        r
    }
}

impl Default for ProfileSpec {
    fn default() -> (r: Self)
        ensures
            r.ingress@.len() == 0,
            r.egress@.len() == 0,
            r.labels_to_apply.entries@.len() == 0,
    {
        ProfileSpec {
            ingress: Vec::new(),
            egress: Vec::new(),
            labels_to_apply: OrdMap::new(),
        }
    }
}

/// A port of a workload.
#[derive(Debug, PartialEq, Eq)]
pub struct WorkloadPort {
    /// Its name.
    pub name: String,
    /// Its protocol.
    pub protocol: String,
    /// Its number.
    pub port: u16,
}

/// The mathematical content of a [`WorkloadPort`].
#[verifier::ext_equal]
pub struct WorkloadPortView {
    pub name: Seq<char>,
    pub protocol: Seq<char>,
    pub port: u16,
}

impl DeepView for WorkloadPort {
    type V = WorkloadPortView;

    open spec fn deep_view(&self) -> WorkloadPortView {
        WorkloadPortView {
            name: self.name.deep_view(),
            protocol: self.protocol.deep_view(),
            port: self.port,
        }
    }
}

impl Clone for WorkloadPort {
    fn clone(&self) -> (r: Self)
        ensures
            r.deep_view() == self.deep_view(),
    {
        let r = WorkloadPort {
            name: self.name.clone(),
            protocol: self.protocol.clone(),
            port: self.port,
        };
        assert(r.deep_view() =~= self.deep_view());
        r
    }
}

/// A workload endpoint.
#[derive(Debug, PartialEq, Eq)]
pub struct WorkloadEndpointSpec {
    /// The node that it is on.
    pub node: String,
    /// The orchestrator that made it.
    pub orchestrator: String,
    /// The workload.
    pub workload: String,
    /// The endpoint within the workload.
    pub endpoint: String,
    /// The pod.
    pub pod: String,
    /// The container.
    pub container_id: String,
    /// Its interface on the node.
    pub interface_name: String,
    /// Its hardware address.
    pub mac: Option<String>,
    /// Its addresses.
    pub ipnetworks: Vec<String>,
    /// Its profiles.
    pub profiles: Vec<String>,
    /// Its ports.
    pub ports: Vec<WorkloadPort>,
    /// Its service account.
    pub service_account_name: Option<String>,
    /// Source blocks that it may send from besides its own addresses.
    pub allow_spoofed_source_prefixes: Vec<String>,
}

/// The mathematical content of a [`WorkloadEndpointSpec`].
#[verifier::ext_equal]
pub struct WorkloadEndpointSpecView {
    pub node: Seq<char>,
    pub orchestrator: Seq<char>,
    pub workload: Seq<char>,
    pub endpoint: Seq<char>,
    pub pod: Seq<char>,
    pub container_id: Seq<char>,
    pub interface_name: Seq<char>,
    pub mac: Option<Seq<char>>,
    pub ipnetworks: Seq<Seq<char>>,
    pub profiles: Seq<Seq<char>>,
    pub ports: Seq<WorkloadPortView>,
    pub service_account_name: Option<Seq<char>>,
    pub allow_spoofed_source_prefixes: Seq<Seq<char>>,
}

impl DeepView for WorkloadEndpointSpec {
    type V = WorkloadEndpointSpecView;

    open spec fn deep_view(&self) -> WorkloadEndpointSpecView {
        WorkloadEndpointSpecView {
            node: self.node.deep_view(),
            orchestrator: self.orchestrator.deep_view(),
            workload: self.workload.deep_view(),
            endpoint: self.endpoint.deep_view(),
            pod: self.pod.deep_view(),
            container_id: self.container_id.deep_view(),
            interface_name: self.interface_name.deep_view(),
            mac: self.mac.deep_view(),
            ipnetworks: self.ipnetworks.deep_view(),
            profiles: self.profiles.deep_view(),
            ports: self.ports.deep_view(),
            service_account_name: self.service_account_name.deep_view(),
            allow_spoofed_source_prefixes: self.allow_spoofed_source_prefixes.deep_view(),
        }
    }
}

impl Clone for WorkloadEndpointSpec {
    fn clone(&self) -> (r: Self)
        ensures
            r.deep_view() == self.deep_view(),
    {
        let r = WorkloadEndpointSpec {
            node: self.node.clone(),
            orchestrator: self.orchestrator.clone(),
            workload: self.workload.clone(),
            endpoint: self.endpoint.clone(),
            pod: self.pod.clone(),
            container_id: self.container_id.clone(),
            interface_name: self.interface_name.clone(),
            mac: self.mac.clone(),
            ipnetworks: self.ipnetworks.clone(),
            profiles: self.profiles.clone(),
            ports: self.ports.clone(),
            service_account_name: self.service_account_name.clone(),
            allow_spoofed_source_prefixes: self.allow_spoofed_source_prefixes.clone(),
        };
        assert(r.deep_view() =~= self.deep_view());
        r
    }
}

impl Default for WorkloadEndpointSpec {
    fn default() -> (r: Self)
        ensures
            r.node@.len() == 0,
            r.orchestrator@.len() == 0,
            r.workload@.len() == 0,
            r.endpoint@.len() == 0,
            r.pod@.len() == 0,
            r.container_id@.len() == 0,
            r.interface_name@.len() == 0,
            r.mac is None,
            r.ipnetworks@.len() == 0,
            r.profiles@.len() == 0,
            r.ports@.len() == 0,
            r.service_account_name is None,
            r.allow_spoofed_source_prefixes@.len() == 0,
    {
        WorkloadEndpointSpec {
            node: String::new(),
            orchestrator: String::new(),
            workload: String::new(),
            endpoint: String::new(),
            pod: String::new(),
            container_id: String::new(),
            interface_name: String::new(),
            mac: None,
            ipnetworks: Vec::new(),
            profiles: Vec::new(),
            ports: Vec::new(),
            service_account_name: None,
            allow_spoofed_source_prefixes: Vec::new(),
        }
    }
}

/// When traffic to a pool is encapsulated.
#[derive(Debug, Clone, Copy, PartialEq, Eq, Structural)]
pub enum EncapMode {
    /// Always.
    Always,
    /// Between nodes of different subnets.
    CrossSubnet,
    /// Never.
    Never,
}

impl DeepView for EncapMode {
    type V = EncapMode;

    open spec fn deep_view(&self) -> EncapMode {
        *self
    }
}

/// How addresses of a pool are assigned.
#[derive(Debug, Clone, Copy, PartialEq, Eq, Structural)]
pub enum AssignmentMode {
    /// By the allocator.
    Automatic,
    /// On request only.
    Manual,
}

impl DeepView for AssignmentMode {
    type V = AssignmentMode;

    open spec fn deep_view(&self) -> AssignmentMode {
        *self
    }
}

/// What the addresses of a pool may be used for.
#[derive(Debug, Clone, Copy, PartialEq, Eq, Structural)]
pub enum AllowedUse {
    /// Workloads.
    Workload,
    /// Tunnels.
    Tunnel,
}

impl DeepView for AllowedUse {
    type V = AllowedUse;

    open spec fn deep_view(&self) -> AllowedUse {
        *self
    }
}

/// An IP pool.
#[derive(Debug, PartialEq, Eq)]
pub struct IpPoolSpec {
    /// Its block.
    pub cidr: String,
    /// When traffic is encapsulated in IP.
    pub ipip_mode: EncapMode,
    /// When traffic is encapsulated in VXLAN.
    pub vxlan_mode: EncapMode,
    /// Whether traffic that leaves the pools is masqueraded.
    pub nat_outgoing: bool,
    /// Whether the pool is out of use.
    pub disabled: bool,
    /// Whether its routes are kept from peers.
    pub disable_bgp_export: bool,
    /// How its addresses are assigned.
    pub assignment_mode: AssignmentMode,
    /// What its addresses may be used for.
    pub allowed_uses: Vec<AllowedUse>,
}

/// The mathematical content of a [`IpPoolSpec`].
#[verifier::ext_equal]
pub struct IpPoolSpecView {
    pub cidr: Seq<char>,
    pub ipip_mode: EncapMode,
    pub vxlan_mode: EncapMode,
    pub nat_outgoing: bool,
    pub disabled: bool,
    pub disable_bgp_export: bool,
    pub assignment_mode: AssignmentMode,
    pub allowed_uses: Seq<AllowedUse>,
}

impl DeepView for IpPoolSpec {
    type V = IpPoolSpecView;

    open spec fn deep_view(&self) -> IpPoolSpecView {
        IpPoolSpecView {
            cidr: self.cidr.deep_view(),
            ipip_mode: self.ipip_mode,
            vxlan_mode: self.vxlan_mode,
            nat_outgoing: self.nat_outgoing,
            disabled: self.disabled,
            disable_bgp_export: self.disable_bgp_export,
            assignment_mode: self.assignment_mode,
            allowed_uses: self.allowed_uses.deep_view(),
        }
    }
}

impl Clone for IpPoolSpec {
    fn clone(&self) -> (r: Self)
        ensures
            r.deep_view() == self.deep_view(),
    {
        let r = IpPoolSpec {
            cidr: self.cidr.clone(),
            ipip_mode: self.ipip_mode,
            vxlan_mode: self.vxlan_mode,
            nat_outgoing: self.nat_outgoing,
            disabled: self.disabled,
            disable_bgp_export: self.disable_bgp_export,
            assignment_mode: self.assignment_mode,
            allowed_uses: self.allowed_uses.clone(),
        };
        assert(r.deep_view() =~= self.deep_view());
        r
    }
}

/// The configuration of the node agent.
#[derive(Debug, PartialEq, Eq)]
pub struct FelixConfigurationSpec {
    /// Whether the eBPF dataplane is used.
    pub bpf_enabled: Option<bool>,
    /// The least severity that is logged.
    pub log_severity_screen: Option<String>,
    /// The prefix of workload interfaces.
    pub interface_prefix: Option<String>,
    /// What is done with traffic from workloads to the host.
    pub default_endpoint_to_host_action: Option<String>,
}

/// The mathematical content of a [`FelixConfigurationSpec`].
#[verifier::ext_equal]
pub struct FelixConfigurationSpecView {
    pub bpf_enabled: Option<bool>,
    pub log_severity_screen: Option<Seq<char>>,
    pub interface_prefix: Option<Seq<char>>,
    pub default_endpoint_to_host_action: Option<Seq<char>>,
}

impl DeepView for FelixConfigurationSpec {
    type V = FelixConfigurationSpecView;

    open spec fn deep_view(&self) -> FelixConfigurationSpecView {
        FelixConfigurationSpecView {
            bpf_enabled: self.bpf_enabled.deep_view(),
            log_severity_screen: self.log_severity_screen.deep_view(),
            interface_prefix: self.interface_prefix.deep_view(),
            default_endpoint_to_host_action: self.default_endpoint_to_host_action.deep_view(),
        }
    }
}

impl Clone for FelixConfigurationSpec {
    fn clone(&self) -> (r: Self)
        ensures
            r.deep_view() == self.deep_view(),
    {
        let r = FelixConfigurationSpec {
            bpf_enabled: self.bpf_enabled.clone(),
            log_severity_screen: self.log_severity_screen.clone(),
            interface_prefix: self.interface_prefix.clone(),
            default_endpoint_to_host_action: self.default_endpoint_to_host_action.clone(),
        };
        assert(r.deep_view() =~= self.deep_view());
        r
    }
}

impl Default for FelixConfigurationSpec {
    fn default() -> (r: Self)
        ensures
            r.bpf_enabled is None,
            r.log_severity_screen is None,
            r.interface_prefix is None,
            r.default_endpoint_to_host_action is None,
    {
        FelixConfigurationSpec {
            bpf_enabled: None,
            log_severity_screen: None,
            interface_prefix: None,
            default_endpoint_to_host_action: None,
        }
    }
}

/// A set of address blocks.
#[derive(Debug, PartialEq, Eq)]
pub struct NetworkSetSpec {
    /// The blocks.
    pub nets: Vec<String>,
}

/// The mathematical content of a [`NetworkSetSpec`].
#[verifier::ext_equal]
pub struct NetworkSetSpecView {
    pub nets: Seq<Seq<char>>,
}

impl DeepView for NetworkSetSpec {
    type V = NetworkSetSpecView;

    open spec fn deep_view(&self) -> NetworkSetSpecView {
        NetworkSetSpecView {
            nets: self.nets.deep_view(),
        }
    }
}

impl Clone for NetworkSetSpec {
    fn clone(&self) -> (r: Self)
        ensures
            r.deep_view() == self.deep_view(),
    {
        let r = NetworkSetSpec {
            nets: self.nets.clone(),
        };
        assert(r.deep_view() =~= self.deep_view());
        r
    }
}

impl Default for NetworkSetSpec {
    fn default() -> (r: Self)
        ensures
            r.nets@.len() == 0,
    {
        NetworkSetSpec {
            nets: Vec::new(),
        }
    }
}

/// A tier of policies.
#[derive(Debug, PartialEq, Eq)]
pub struct TierSpec {
    /// Its order among the tiers, as the bits of a double.
    pub order: Option<u64>,
}

/// The mathematical content of a [`TierSpec`].
#[verifier::ext_equal]
pub struct TierSpecView {
    pub order: Option<u64>,
}

impl DeepView for TierSpec {
    type V = TierSpecView;

    open spec fn deep_view(&self) -> TierSpecView {
        TierSpecView {
            order: self.order.deep_view(),
        }
    }
}

impl Clone for TierSpec {
    fn clone(&self) -> (r: Self)
        ensures
            r.deep_view() == self.deep_view(),
    {
        let r = TierSpec {
            order: self.order.clone(),
        };
        assert(r.deep_view() =~= self.deep_view());
        r
    }
}

impl Default for TierSpec {
    fn default() -> (r: Self)
        ensures
            r.order is None,
    {
        TierSpec {
            order: None,
        }
    }
}

/// The BGP configuration of a node.
#[derive(Debug, PartialEq, Eq)]
pub struct NodeBgpSpec {
    /// The IPv4 address that it speaks from.
    pub ipv4_address: Option<String>,
}

/// The mathematical content of a [`NodeBgpSpec`].
#[verifier::ext_equal]
pub struct NodeBgpSpecView {
    pub ipv4_address: Option<Seq<char>>,
}

impl DeepView for NodeBgpSpec {
    type V = NodeBgpSpecView;

    open spec fn deep_view(&self) -> NodeBgpSpecView {
        NodeBgpSpecView {
            ipv4_address: self.ipv4_address.deep_view(),
        }
    }
}

impl Clone for NodeBgpSpec {
    fn clone(&self) -> (r: Self)
        ensures
            r.deep_view() == self.deep_view(),
    {
        let r = NodeBgpSpec {
            ipv4_address: self.ipv4_address.clone(),
        };
        assert(r.deep_view() =~= self.deep_view());
        r
    }
}

impl Default for NodeBgpSpec {
    fn default() -> (r: Self)
        ensures
            r.ipv4_address is None,
    {
        NodeBgpSpec {
            ipv4_address: None,
        }
    }
}

/// How an orchestrator knows a node.
#[derive(Debug, PartialEq, Eq)]
pub struct OrchRef {
    /// The name of the node there.
    pub node_name: Option<String>,
    /// The orchestrator.
    pub orchestrator: String,
}

/// The mathematical content of a [`OrchRef`].
#[verifier::ext_equal]
pub struct OrchRefView {
    pub node_name: Option<Seq<char>>,
    pub orchestrator: Seq<char>,
}

impl DeepView for OrchRef {
    type V = OrchRefView;

    open spec fn deep_view(&self) -> OrchRefView {
        OrchRefView {
            node_name: self.node_name.deep_view(),
            orchestrator: self.orchestrator.deep_view(),
        }
    }
}

impl Clone for OrchRef {
    fn clone(&self) -> (r: Self)
        ensures
            r.deep_view() == self.deep_view(),
    {
        let r = OrchRef {
            node_name: self.node_name.clone(),
            orchestrator: self.orchestrator.clone(),
        };
        assert(r.deep_view() =~= self.deep_view());
        r
    }
}

/// A node.
#[derive(Debug, PartialEq, Eq)]
pub struct NodeSpec {
    /// Its BGP configuration.
    pub bgp: Option<NodeBgpSpec>,
    /// Its IPv4 address in the VXLAN tunnel.
    pub ipv4_vxlan_tunnel_addr: Option<String>,
    /// Its IPv6 address in the VXLAN tunnel.
    pub ipv6_vxlan_tunnel_addr: Option<String>,
    /// How orchestrators know it.
    pub orch_refs: Vec<OrchRef>,
}

/// The mathematical content of a [`NodeSpec`].
#[verifier::ext_equal]
pub struct NodeSpecView {
    pub bgp: Option<NodeBgpSpecView>,
    pub ipv4_vxlan_tunnel_addr: Option<Seq<char>>,
    pub ipv6_vxlan_tunnel_addr: Option<Seq<char>>,
    pub orch_refs: Seq<OrchRefView>,
}

impl DeepView for NodeSpec {
    type V = NodeSpecView;

    open spec fn deep_view(&self) -> NodeSpecView {
        NodeSpecView {
            bgp: self.bgp.deep_view(),
            ipv4_vxlan_tunnel_addr: self.ipv4_vxlan_tunnel_addr.deep_view(),
            ipv6_vxlan_tunnel_addr: self.ipv6_vxlan_tunnel_addr.deep_view(),
            orch_refs: self.orch_refs.deep_view(),
        }
    }
}

impl Clone for NodeSpec {
    fn clone(&self) -> (r: Self)
        ensures
            r.deep_view() == self.deep_view(),
    {
        let r = NodeSpec {
            bgp: self.bgp.clone(),
            ipv4_vxlan_tunnel_addr: self.ipv4_vxlan_tunnel_addr.clone(),
            ipv6_vxlan_tunnel_addr: self.ipv6_vxlan_tunnel_addr.clone(),
            orch_refs: self.orch_refs.clone(),
        };
        assert(r.deep_view() =~= self.deep_view());
        r
    }
}

impl Default for IpPoolSpec {
    fn default() -> (r: Self)
        ensures
            r.cidr@.len() == 0,
            r.ipip_mode == EncapMode::Never,
            r.vxlan_mode == EncapMode::Never,
            !r.nat_outgoing,
            !r.disabled,
            !r.disable_bgp_export,
            r.assignment_mode == AssignmentMode::Automatic,
            r.allowed_uses@.len() == 0,
    {
        IpPoolSpec {
            cidr: String::new(),
            ipip_mode: EncapMode::Never,
            vxlan_mode: EncapMode::Never,
            nat_outgoing: false,
            disabled: false,
            disable_bgp_export: false,
            assignment_mode: AssignmentMode::Automatic,
            allowed_uses: Vec::new(),
        }
    }
}

} // verus!
