//! From resources to what the node agent takes in.
//!
//! Every resource becomes one or more pairs of a lean key and value: policies with their
//! selectors confined to a namespace, pools with what the dataplane needs of them,
//! endpoints by their interface, and configuration as flat entries.

use crate::model::{Key, KeyView, ResourceKind};
use crate::ordmap::{Labels, OrdMap};
use crate::resources::{
    Action, AllowedUse, AssignmentMode, EncapMode, EntityRule, EntityRuleView,
    FelixConfigurationSpec, FelixConfigurationSpecView, IpPoolSpec, IpPoolSpecView,
    NetworkPolicySpec, NetworkPolicySpecView, PolicyType, Protocol, ProtocolView, Rule, RuleView,
    WorkloadEndpointSpec, WorkloadEndpointSpecView, WorkloadPortView,
};
use crate::seqs::push_item;
use crate::text::{
    clone_opt, clone_strings, contains_char, decimal, decimal_text, has_prefix, replace, replace_all,
    starts_with, str_eq, lowercase, views,
};
use vstd::prelude::*;
use vstd::string::*;

verus! {

broadcast use crate::text::lemma_views_push;

/// The label that holds an endpoint's namespace.
pub const LABEL_NAMESPACE: &'static str = "projectcalico.org/namespace";

/// The label that holds an endpoint's service account.
pub const LABEL_SERVICE_ACCOUNT: &'static str = "projectcalico.org/serviceaccount";

/// Why a resource cannot be converted.
#[derive(Debug, PartialEq, Eq)]
pub enum ProcessError {
    /// Its specification cannot be read.
    Deserialize(String),
    /// Its key lacks a field.
    MissingKeyField(&'static str),
    /// There is no conversion for its kind.
    UnsupportedKind(ResourceKind),
}

/// The mathematical content of a [`ProcessError`].
#[verifier::ext_equal]
pub enum ProcessErrorView {
    Deserialize(Seq<char>),
    MissingKeyField(Seq<char>),
    UnsupportedKind(ResourceKind),
}

impl DeepView for ProcessError {
    type V = ProcessErrorView;

    open spec fn deep_view(&self) -> ProcessErrorView {
        match self {
            ProcessError::Deserialize(a) => ProcessErrorView::Deserialize(a.deep_view()),
            ProcessError::MissingKeyField(a) => ProcessErrorView::MissingKeyField(a@),
            ProcessError::UnsupportedKind(a) => ProcessErrorView::UnsupportedKind(*a),
        }
    }
}

impl Clone for ProcessError {
    fn clone(&self) -> (r: Self)
        ensures
            r.deep_view() == self.deep_view(),
    {
        let r = match self {
            ProcessError::Deserialize(a) => ProcessError::Deserialize(a.clone()),
            ProcessError::MissingKeyField(a) => ProcessError::MissingKeyField(*a),
            ProcessError::UnsupportedKind(a) => ProcessError::UnsupportedKind(*a),
        };
        assert(r.deep_view() =~= self.deep_view());
        r
    }
}

/// The kind of a policy.
#[derive(Debug, Clone, Copy, PartialEq, Eq, Structural)]
pub enum PolicyKind {
    /// A policy of one namespace.
    NetworkPolicy,
}

impl DeepView for PolicyKind {
    type V = PolicyKind;

    open spec fn deep_view(&self) -> PolicyKind {
        *self
    }
}

/// The key of a policy.
#[derive(Debug, PartialEq, Eq)]
pub struct PolicyV1Key {
    /// Its tier.
    pub tier: String,
    /// Its name.
    pub name: String,
    /// Its namespace.
    pub namespace: Option<String>,
    /// Its kind.
    pub kind: PolicyKind,
}

/// The mathematical content of a [`PolicyV1Key`].
#[verifier::ext_equal]
pub struct PolicyV1KeyView {
    pub tier: Seq<char>,
    pub name: Seq<char>,
    pub namespace: Option<Seq<char>>,
    pub kind: PolicyKind,
}

impl DeepView for PolicyV1Key {
    type V = PolicyV1KeyView;

    open spec fn deep_view(&self) -> PolicyV1KeyView {
        PolicyV1KeyView {
            tier: self.tier.deep_view(),
            name: self.name.deep_view(),
            namespace: self.namespace.deep_view(),
            kind: self.kind,
        }
    }
}

impl Clone for PolicyV1Key {
    fn clone(&self) -> (r: Self)
        ensures
            r.deep_view() == self.deep_view(),
    {
        let r = PolicyV1Key {
            tier: self.tier.clone(),
            name: self.name.clone(),
            namespace: self.namespace.clone(),
            kind: self.kind,
        };
        assert(r.deep_view() =~= self.deep_view());
        r
    }
}

/// A rule of a policy.
#[derive(Debug, PartialEq, Eq)]
pub struct RuleV1 {
    /// What it does.
    pub action: String,
    /// The protocol that it matches.
    pub protocol: Option<String>,
    /// The sources.
    pub src_selector: String,
    /// The destinations.
    pub dst_selector: String,
    /// Source blocks.
    pub src_nets: Vec<String>,
    /// Destination blocks.
    pub dst_nets: Vec<String>,
    /// Source blocks that are left out.
    pub not_src_nets: Vec<String>,
    /// Destination blocks that are left out.
    pub not_dst_nets: Vec<String>,
    /// Source ports.
    pub src_ports: Vec<u16>,
    /// Destination ports.
    pub dst_ports: Vec<u16>,
}

/// The mathematical content of a [`RuleV1`].
#[verifier::ext_equal]
pub struct RuleV1View {
    pub action: Seq<char>,
    pub protocol: Option<Seq<char>>,
    pub src_selector: Seq<char>,
    pub dst_selector: Seq<char>,
    pub src_nets: Seq<Seq<char>>,
    pub dst_nets: Seq<Seq<char>>,
    pub not_src_nets: Seq<Seq<char>>,
    pub not_dst_nets: Seq<Seq<char>>,
    pub src_ports: Seq<u16>,
    pub dst_ports: Seq<u16>,
}

impl DeepView for RuleV1 {
    type V = RuleV1View;

    open spec fn deep_view(&self) -> RuleV1View {
        RuleV1View {
            action: self.action.deep_view(),
            protocol: self.protocol.deep_view(),
            src_selector: self.src_selector.deep_view(),
            dst_selector: self.dst_selector.deep_view(),
            src_nets: self.src_nets.deep_view(),
            dst_nets: self.dst_nets.deep_view(),
            not_src_nets: self.not_src_nets.deep_view(),
            not_dst_nets: self.not_dst_nets.deep_view(),
            src_ports: self.src_ports.deep_view(),
            dst_ports: self.dst_ports.deep_view(),
        }
    }
}

impl Clone for RuleV1 {
    fn clone(&self) -> (r: Self)
        ensures
            r.deep_view() == self.deep_view(),
    {
        let r = RuleV1 {
            action: self.action.clone(),
            protocol: self.protocol.clone(),
            src_selector: self.src_selector.clone(),
            dst_selector: self.dst_selector.clone(),
            src_nets: self.src_nets.clone(),
            dst_nets: self.dst_nets.clone(),
            not_src_nets: self.not_src_nets.clone(),
            not_dst_nets: self.not_dst_nets.clone(),
            src_ports: self.src_ports.clone(),
            dst_ports: self.dst_ports.clone(),
        };
        assert(r.deep_view() =~= self.deep_view());
        r
    }
}

/// A policy.
#[derive(Debug, PartialEq, Eq)]
pub struct PolicyV1 {
    /// Its namespace.
    pub namespace: Option<String>,
    /// Its tier.
    pub tier: String,
    /// Its order within the tier, as the bits of a double.
    pub order: Option<u64>,
    /// The endpoints that it applies to.
    pub selector: String,
    /// The directions that it governs.
    pub types: Vec<String>,
    /// Its rules for traffic to the endpoints.
    pub inbound_rules: Vec<RuleV1>,
    /// Its rules for traffic from the endpoints.
    pub outbound_rules: Vec<RuleV1>,
}

/// The mathematical content of a [`PolicyV1`].
#[verifier::ext_equal]
pub struct PolicyV1View {
    pub namespace: Option<Seq<char>>,
    pub tier: Seq<char>,
    pub order: Option<u64>,
    pub selector: Seq<char>,
    pub types: Seq<Seq<char>>,
    pub inbound_rules: Seq<RuleV1View>,
    pub outbound_rules: Seq<RuleV1View>,
}

impl DeepView for PolicyV1 {
    type V = PolicyV1View;

    open spec fn deep_view(&self) -> PolicyV1View {
        PolicyV1View {
            namespace: self.namespace.deep_view(),
            tier: self.tier.deep_view(),
            order: self.order.deep_view(),
            selector: self.selector.deep_view(),
            types: self.types.deep_view(),
            inbound_rules: self.inbound_rules.deep_view(),
            outbound_rules: self.outbound_rules.deep_view(),
        }
    }
}

impl Clone for PolicyV1 {
    fn clone(&self) -> (r: Self)
        ensures
            r.deep_view() == self.deep_view(),
    {
        let r = PolicyV1 {
            namespace: self.namespace.clone(),
            tier: self.tier.clone(),
            order: self.order.clone(),
            selector: self.selector.clone(),
            types: self.types.clone(),
            inbound_rules: self.inbound_rules.clone(),
            outbound_rules: self.outbound_rules.clone(),
        };
        assert(r.deep_view() =~= self.deep_view());
        r
    }
}

/// The key of an IP pool.
#[derive(Debug, PartialEq, Eq)]
pub struct IpPoolV1Key {
    /// Its block.
    pub cidr: String,
}

/// The mathematical content of a [`IpPoolV1Key`].
#[verifier::ext_equal]
pub struct IpPoolV1KeyView {
    pub cidr: Seq<char>,
}

impl DeepView for IpPoolV1Key {
    type V = IpPoolV1KeyView;

    open spec fn deep_view(&self) -> IpPoolV1KeyView {
        IpPoolV1KeyView {
            cidr: self.cidr.deep_view(),
        }
    }
}

impl Clone for IpPoolV1Key {
    fn clone(&self) -> (r: Self)
        ensures
            r.deep_view() == self.deep_view(),
    {
        let r = IpPoolV1Key {
            cidr: self.cidr.clone(),
        };
        assert(r.deep_view() =~= self.deep_view());
        r
    }
}

/// An IP pool.
#[derive(Debug, PartialEq, Eq)]
pub struct IpPoolV1 {
    /// Its block.
    pub cidr: String,
    /// When traffic is encapsulated in IP.
    pub ipip_mode: EncapMode,
    /// The tunnel interface; empty where there is none.
    pub ipip_interface: String,
    /// When traffic is encapsulated in VXLAN.
    pub vxlan_mode: EncapMode,
    /// Whether traffic that leaves the pools is masqueraded.
    pub masquerade: bool,
    /// Whether addresses are assigned from it.
    pub ipam: bool,
    /// Whether the pool is out of use.
    pub disabled: bool,
    /// Whether its routes are kept from peers.
    pub disable_bgp_export: bool,
    /// How its addresses are assigned.
    pub assignment_mode: AssignmentMode,
    /// What its addresses may be used for.
    pub allowed_uses: Vec<AllowedUse>,
}

/// The mathematical content of a [`IpPoolV1`].
#[verifier::ext_equal]
pub struct IpPoolV1View {
    pub cidr: Seq<char>,
    pub ipip_mode: EncapMode,
    pub ipip_interface: Seq<char>,
    pub vxlan_mode: EncapMode,
    pub masquerade: bool,
    pub ipam: bool,
    pub disabled: bool,
    pub disable_bgp_export: bool,
    pub assignment_mode: AssignmentMode,
    pub allowed_uses: Seq<AllowedUse>,
}

impl DeepView for IpPoolV1 {
    type V = IpPoolV1View;

    open spec fn deep_view(&self) -> IpPoolV1View {
        IpPoolV1View {
            cidr: self.cidr.deep_view(),
            ipip_mode: self.ipip_mode,
            ipip_interface: self.ipip_interface.deep_view(),
            vxlan_mode: self.vxlan_mode,
            masquerade: self.masquerade,
            ipam: self.ipam,
            disabled: self.disabled,
            disable_bgp_export: self.disable_bgp_export,
            assignment_mode: self.assignment_mode,
            allowed_uses: self.allowed_uses.deep_view(),
        }
    }
}

impl Clone for IpPoolV1 {
    fn clone(&self) -> (r: Self)
        ensures
            r.deep_view() == self.deep_view(),
    {
        let r = IpPoolV1 {
            cidr: self.cidr.clone(),
            ipip_mode: self.ipip_mode,
            ipip_interface: self.ipip_interface.clone(),
            vxlan_mode: self.vxlan_mode,
            masquerade: self.masquerade,
            ipam: self.ipam,
            disabled: self.disabled,
            disable_bgp_export: self.disable_bgp_export,
            assignment_mode: self.assignment_mode,
            allowed_uses: self.allowed_uses.clone(),
        };
        assert(r.deep_view() =~= self.deep_view());
        r
    }
}

/// The key of a workload endpoint.
#[derive(Debug, PartialEq, Eq)]
pub struct WorkloadEndpointV1Key {
    /// The node that it is on.
    pub hostname: String,
    /// Its namespace.
    pub namespace: Option<String>,
    /// Its name.
    pub name: String,
}

/// The mathematical content of a [`WorkloadEndpointV1Key`].
#[verifier::ext_equal]
pub struct WorkloadEndpointV1KeyView {
    pub hostname: Seq<char>,
    pub namespace: Option<Seq<char>>,
    pub name: Seq<char>,
}

impl DeepView for WorkloadEndpointV1Key {
    type V = WorkloadEndpointV1KeyView;

    open spec fn deep_view(&self) -> WorkloadEndpointV1KeyView {
        WorkloadEndpointV1KeyView {
            hostname: self.hostname.deep_view(),
            namespace: self.namespace.deep_view(),
            name: self.name.deep_view(),
        }
    }
}

impl Clone for WorkloadEndpointV1Key {
    fn clone(&self) -> (r: Self)
        ensures
            r.deep_view() == self.deep_view(),
    {
        let r = WorkloadEndpointV1Key {
            hostname: self.hostname.clone(),
            namespace: self.namespace.clone(),
            name: self.name.clone(),
        };
        assert(r.deep_view() =~= self.deep_view());
        r
    }
}

/// A named port of an endpoint.
#[derive(Debug, PartialEq, Eq)]
pub struct EndpointPortV1 {
    /// Its name.
    pub name: String,
    /// Its protocol.
    pub protocol: String,
    /// Its number.
    pub port: u16,
}

/// The mathematical content of a [`EndpointPortV1`].
#[verifier::ext_equal]
pub struct EndpointPortV1View {
    pub name: Seq<char>,
    pub protocol: Seq<char>,
    pub port: u16,
}

impl DeepView for EndpointPortV1 {
    type V = EndpointPortV1View;

    open spec fn deep_view(&self) -> EndpointPortV1View {
        EndpointPortV1View {
            name: self.name.deep_view(),
            protocol: self.protocol.deep_view(),
            port: self.port,
        }
    }
}

impl Clone for EndpointPortV1 {
    fn clone(&self) -> (r: Self)
        ensures
            r.deep_view() == self.deep_view(),
    {
        let r = EndpointPortV1 {
            name: self.name.clone(),
            protocol: self.protocol.clone(),
            port: self.port,
        };
        assert(r.deep_view() =~= self.deep_view());
        r
    }
}

/// A workload endpoint.
#[derive(Debug, PartialEq, Eq)]
pub struct WorkloadEndpointV1 {
    /// Its state.
    pub state: &'static str,
    /// Its interface on the node.
    pub name: String,
    /// Its hardware address.
    pub mac: Option<String>,
    /// Its profiles.
    pub profile_ids: Vec<String>,
    /// Its IPv4 addresses.
    pub ipv4_nets: Vec<String>,
    /// Its IPv6 addresses.
    pub ipv6_nets: Vec<String>,
    /// Its labels.
    pub labels: Labels,
    /// Its named ports.
    pub ports: Vec<EndpointPortV1>,
    /// Source blocks that it may send from besides its own addresses.
    pub allow_spoofed_source_prefixes: Vec<String>,
}

/// The mathematical content of a [`WorkloadEndpointV1`].
#[verifier::ext_equal]
pub struct WorkloadEndpointV1View {
    pub state: Seq<char>,
    pub name: Seq<char>,
    pub mac: Option<Seq<char>>,
    pub profile_ids: Seq<Seq<char>>,
    pub ipv4_nets: Seq<Seq<char>>,
    pub ipv6_nets: Seq<Seq<char>>,
    pub labels: Seq<(Seq<char>, Seq<char>)>,
    pub ports: Seq<EndpointPortV1View>,
    pub allow_spoofed_source_prefixes: Seq<Seq<char>>,
}

impl DeepView for WorkloadEndpointV1 {
    type V = WorkloadEndpointV1View;

    open spec fn deep_view(&self) -> WorkloadEndpointV1View {
        WorkloadEndpointV1View {
            state: self.state@,
            name: self.name.deep_view(),
            mac: self.mac.deep_view(),
            profile_ids: self.profile_ids.deep_view(),
            ipv4_nets: self.ipv4_nets.deep_view(),
            ipv6_nets: self.ipv6_nets.deep_view(),
            labels: self.labels.deep_view(),
            ports: self.ports.deep_view(),
            allow_spoofed_source_prefixes: self.allow_spoofed_source_prefixes.deep_view(),
        }
    }
}

impl Clone for WorkloadEndpointV1 {
    fn clone(&self) -> (r: Self)
        ensures
            r.deep_view() == self.deep_view(),
    {
        let r = WorkloadEndpointV1 {
            state: self.state,
            name: self.name.clone(),
            mac: self.mac.clone(),
            profile_ids: self.profile_ids.clone(),
            ipv4_nets: self.ipv4_nets.clone(),
            ipv6_nets: self.ipv6_nets.clone(),
            labels: self.labels.clone(),
            ports: self.ports.clone(),
            allow_spoofed_source_prefixes: self.allow_spoofed_source_prefixes.clone(),
        };
        assert(r.deep_view() =~= self.deep_view());
        r
    }
}

/// A configuration entry.
#[derive(Debug, PartialEq, Eq)]
pub struct ConfigV1 {
    /// The host that it is for; all where there is none.
    pub host: Option<String>,
    /// Its name.
    pub name: String,
    /// Its value.
    pub value: String,
}

/// The mathematical content of a [`ConfigV1`].
#[verifier::ext_equal]
pub struct ConfigV1View {
    pub host: Option<Seq<char>>,
    pub name: Seq<char>,
    pub value: Seq<char>,
}

impl DeepView for ConfigV1 {
    type V = ConfigV1View;

    open spec fn deep_view(&self) -> ConfigV1View {
        ConfigV1View {
            host: self.host.deep_view(),
            name: self.name.deep_view(),
            value: self.value.deep_view(),
        }
    }
}

impl Clone for ConfigV1 {
    fn clone(&self) -> (r: Self)
        ensures
            r.deep_view() == self.deep_view(),
    {
        let r = ConfigV1 {
            host: self.host.clone(),
            name: self.name.clone(),
            value: self.value.clone(),
        };
        assert(r.deep_view() =~= self.deep_view());
        r
    }
}

/// The key of what a resource becomes.
#[derive(Debug, PartialEq, Eq)]
pub enum V1Key {
    /// A policy.
    Policy(PolicyV1Key),
    /// An IP pool.
    IpPool(IpPoolV1Key),
    /// A workload endpoint.
    WorkloadEndpoint(WorkloadEndpointV1Key),
    /// A configuration entry.
    Config { host: Option<String>, name: String },
}

/// The mathematical content of a [`V1Key`].
#[verifier::ext_equal]
pub enum V1KeyView {
    Policy(PolicyV1KeyView),
    IpPool(IpPoolV1KeyView),
    WorkloadEndpoint(WorkloadEndpointV1KeyView),
    Config { host: Option<Seq<char>>, name: Seq<char> },
}

impl DeepView for V1Key {
    type V = V1KeyView;

    open spec fn deep_view(&self) -> V1KeyView {
        match self {
            V1Key::Policy(a) => V1KeyView::Policy(a.deep_view()),
            V1Key::IpPool(a) => V1KeyView::IpPool(a.deep_view()),
            V1Key::WorkloadEndpoint(a) => V1KeyView::WorkloadEndpoint(a.deep_view()),
            V1Key::Config { host, name } => V1KeyView::Config { host: host.deep_view(), name: name.deep_view() },
        }
    }
}

impl Clone for V1Key {
    fn clone(&self) -> (r: Self)
        ensures
            r.deep_view() == self.deep_view(),
    {
        let r = match self {
            V1Key::Policy(a) => V1Key::Policy(a.clone()),
            V1Key::IpPool(a) => V1Key::IpPool(a.clone()),
            V1Key::WorkloadEndpoint(a) => V1Key::WorkloadEndpoint(a.clone()),
            V1Key::Config { host, name } => V1Key::Config { host: host.clone(), name: name.clone() },
        };
        assert(r.deep_view() =~= self.deep_view());
        r
    }
}

/// What a resource becomes.
#[derive(Debug, PartialEq, Eq)]
pub enum V1Value {
    /// A policy.
    Policy(PolicyV1),
    /// An IP pool.
    IpPool(IpPoolV1),
    /// A workload endpoint.
    WorkloadEndpoint(WorkloadEndpointV1),
    /// The value of a configuration entry.
    Config(String),
}

/// The mathematical content of a [`V1Value`].
#[verifier::ext_equal]
pub enum V1ValueView {
    Policy(PolicyV1View),
    IpPool(IpPoolV1View),
    WorkloadEndpoint(WorkloadEndpointV1View),
    Config(Seq<char>),
}

impl DeepView for V1Value {
    type V = V1ValueView;

    open spec fn deep_view(&self) -> V1ValueView {
        match self {
            V1Value::Policy(a) => V1ValueView::Policy(a.deep_view()),
            V1Value::IpPool(a) => V1ValueView::IpPool(a.deep_view()),
            V1Value::WorkloadEndpoint(a) => V1ValueView::WorkloadEndpoint(a.deep_view()),
            V1Value::Config(a) => V1ValueView::Config(a.deep_view()),
        }
    }
}

impl Clone for V1Value {
    fn clone(&self) -> (r: Self)
        ensures
            r.deep_view() == self.deep_view(),
    {
        let r = match self {
            V1Value::Policy(a) => V1Value::Policy(a.clone()),
            V1Value::IpPool(a) => V1Value::IpPool(a.clone()),
            V1Value::WorkloadEndpoint(a) => V1Value::WorkloadEndpoint(a.clone()),
            V1Value::Config(a) => V1Value::Config(a.clone()),
        };
        assert(r.deep_view() =~= self.deep_view());
        r
    }
}

/// What a resource becomes, with its key.
#[derive(Debug, PartialEq, Eq)]
pub struct V1KVPair {
    /// The key.
    pub key: V1Key,
    /// The value.
    pub value: V1Value,
}

/// The mathematical content of a [`V1KVPair`].
#[verifier::ext_equal]
pub struct V1KVPairView {
    pub key: V1KeyView,
    pub value: V1ValueView,
}

impl DeepView for V1KVPair {
    type V = V1KVPairView;

    open spec fn deep_view(&self) -> V1KVPairView {
        V1KVPairView {
            key: self.key.deep_view(),
            value: self.value.deep_view(),
        }
    }
}

impl Clone for V1KVPair {
    fn clone(&self) -> (r: Self)
        ensures
            r.deep_view() == self.deep_view(),
    {
        let r = V1KVPair {
            key: self.key.clone(),
            value: self.value.clone(),
        };
        assert(r.deep_view() =~= self.deep_view());
        r
    }
}

/// The specification of a resource, read.
#[derive(Debug, PartialEq, Eq)]
pub enum DecodedSpec {
    /// A network policy.
    NetworkPolicy(NetworkPolicySpec),
    /// An IP pool.
    IpPool(IpPoolSpec),
    /// A workload endpoint.
    WorkloadEndpoint(WorkloadEndpointSpec),
    /// The configuration of the node agent.
    FelixConfiguration(FelixConfigurationSpec),
}

/// The mathematical content of a [`DecodedSpec`].
#[verifier::ext_equal]
pub enum DecodedSpecView {
    NetworkPolicy(NetworkPolicySpecView),
    IpPool(IpPoolSpecView),
    WorkloadEndpoint(WorkloadEndpointSpecView),
    FelixConfiguration(FelixConfigurationSpecView),
}

impl DeepView for DecodedSpec {
    type V = DecodedSpecView;

    open spec fn deep_view(&self) -> DecodedSpecView {
        match self {
            DecodedSpec::NetworkPolicy(a) => DecodedSpecView::NetworkPolicy(a.deep_view()),
            DecodedSpec::IpPool(a) => DecodedSpecView::IpPool(a.deep_view()),
            DecodedSpec::WorkloadEndpoint(a) => DecodedSpecView::WorkloadEndpoint(a.deep_view()),
            DecodedSpec::FelixConfiguration(a) => DecodedSpecView::FelixConfiguration(a.deep_view()),
        }
    }
}

impl Clone for DecodedSpec {
    fn clone(&self) -> (r: Self)
        ensures
            r.deep_view() == self.deep_view(),
    {
        let r = match self {
            DecodedSpec::NetworkPolicy(a) => DecodedSpec::NetworkPolicy(a.clone()),
            DecodedSpec::IpPool(a) => DecodedSpec::IpPool(a.clone()),
            DecodedSpec::WorkloadEndpoint(a) => DecodedSpec::WorkloadEndpoint(a.clone()),
            DecodedSpec::FelixConfiguration(a) => DecodedSpec::FelixConfiguration(a.clone()),
        };
        assert(r.deep_view() =~= self.deep_view());
        r
    }
}

impl ProcessError {
    /// The refusal in words.
    pub fn text(&self) -> (r: String)
        ensures
            r@ == (match self.deep_view() {
                ProcessErrorView::Deserialize(e) => "failed to deserialize v3 spec: "@ + e,
                ProcessErrorView::MissingKeyField(f) => "missing key field for v1 conversion: "@ + f,
                ProcessErrorView::UnsupportedKind(k) => "no v1 update processor for kind "@
                    + k.name(),
            }),
    {
        match self {
            ProcessError::Deserialize(e) => {
                let mut s = "failed to deserialize v3 spec: ".to_owned();
                s.push_str(e.as_str());
                s
            },
            ProcessError::MissingKeyField(f) => {
                let mut s = "missing key field for v1 conversion: ".to_owned();
                s.push_str(f);
                s
            },
            ProcessError::UnsupportedKind(k) => {
                let mut s = "no v1 update processor for kind ".to_owned();
                s.push_str(k.kind_name());
                s
            },
        }
    }
}

/// The tier, or `default` where there is none.
pub open spec fn tier_of(tier: Option<Seq<char>>) -> Seq<char> {
    match tier {
        Some(t) => if t.len() > 0 {
            t
        } else {
            "default"@
        },
        None => "default"@,
    }
}

/// The tier, or `default` where there is none.
pub fn tier_or_default(tier: &Option<String>) -> (r: String)
    ensures
        r@ == tier_of(tier.deep_view()),
{
    if let Some(t) = tier {
        if !t.as_str().is_empty() {
            return t.clone();
        }
    }
    "default".to_owned()
}

/// The selector of the endpoints of a namespace.
pub open spec fn in_namespace(namespace: Seq<char>) -> Seq<char> {
    LABEL_NAMESPACE@ + " == '"@ + namespace + "'"@
}

/// The selector of the endpoints of a namespace.
fn namespace_term(namespace: &str) -> (r: String)
    ensures
        r@ == in_namespace(namespace@),
{
    let mut s = LABEL_NAMESPACE.to_owned();
    s.push_str(" == '");
    s.push_str(namespace);
    s.push_str("'");
    s
}

/// A policy's selector confined to a namespace.
pub open spec fn confined(selector: Seq<char>, namespace: Seq<char>) -> Seq<char> {
    if selector.len() == 0 {
        in_namespace(namespace)
    } else {
        "("@ + selector + ") && "@ + in_namespace(namespace)
    }
}

/// A policy's selector confined to a namespace.
pub fn augment_policy_selector(selector: &str, namespace: &str) -> (r: String)
    ensures
        r@ == confined(selector@, namespace@),
{
    let term = namespace_term(namespace);
    if selector.is_empty() {
        return term;
    }
    let mut s = "(".to_owned();
    s.push_str(selector);
    s.push_str(") && ");
    s.push_str(term.as_str());
    s
}

/// The text, or an empty one.
pub open spec fn or_empty(s: Option<Seq<char>>) -> Seq<char> {
    match s {
        Some(t) => t,
        None => Seq::empty(),
    }
}

/// A namespace selector with its two special terms written out.
pub open spec fn expand_namespaces(s: Seq<char>) -> Seq<char> {
    replace_all(
        replace_all(s, "all()"@, "has(projectcalico.org/namespace)"@),
        "global()"@,
        "!has(projectcalico.org/namespace)"@,
    )
}

/// The namespaces that one side of a rule is confined to: those that it selects, else the
/// policy's own, if it has one.
pub open spec fn namespace_part(er: EntityRuleView, ns: Option<Seq<char>>) -> Seq<char> {
    if or_empty(er.namespace_selector).len() > 0 {
        expand_namespaces(or_empty(er.namespace_selector))
    } else if or_empty(ns).len() > 0 {
        in_namespace(or_empty(ns))
    } else {
        Seq::empty()
    }
}

/// The selector of one side of a rule, confined to namespaces. A side that selects neither
/// endpoints nor namespaces is not confined.
pub open spec fn side_selector(er: EntityRuleView, ns: Option<Seq<char>>) -> Seq<char> {
    let selector = or_empty(er.selector);
    let part = namespace_part(er, ns);
    if part.len() > 0 && (selector.len() > 0 || or_empty(er.namespace_selector).len() > 0) {
        if selector.len() == 0 {
            part
        } else {
            "("@ + part + ") && ("@ + selector + ")"@
        }
    } else {
        selector
    }
}

/// The text, or an empty one.
fn text_or_empty(s: &Option<String>) -> (r: String)
    ensures
        r@ == or_empty(s.deep_view()),
{
    match s {
        Some(t) => t.clone(),
        None => String::new(),
    }
}

/// The selector of one side of a rule, confined to namespaces.
pub fn rule_endpoint_selector(er: &EntityRule, ns: &Option<String>) -> (r: String)
    ensures
        r@ == side_selector(er.deep_view(), ns.deep_view()),
{
    let namespace_selector = text_or_empty(&er.namespace_selector);
    let selector = text_or_empty(&er.selector);
    let own = text_or_empty(ns);
    proof {
        reveal_strlit("all()");
        reveal_strlit("global()");
    }
    let part = if !namespace_selector.as_str().is_empty() {
        let s = replace(namespace_selector.as_str(), "all()", "has(projectcalico.org/namespace)");
        replace(s.as_str(), "global()", "!has(projectcalico.org/namespace)")
    } else if !own.as_str().is_empty() {
        namespace_term(own.as_str())
    } else {
        String::new()
    };
    if !part.as_str().is_empty() && (!selector.as_str().is_empty()
        || !namespace_selector.as_str().is_empty()) {
        if selector.as_str().is_empty() {
            return part;
        }
        let mut s = "(".to_owned();
        s.push_str(part.as_str());
        s.push_str(") && (");
        s.push_str(selector.as_str());
        s.push_str(")");
        return s;
    }
    selector
}

/// The name of an action.
pub open spec fn action_name(action: Action) -> Seq<char> {
    match action {
        Action::Pass => "next-tier"@,
        Action::Allow => "allow"@,
        Action::Deny => "deny"@,
        Action::Log => "log"@,
    }
}

/// The name of an action.
pub fn rule_action(action: Action) -> (r: String)
    ensures
        r@ == action_name(action),
{
    match action {
        Action::Pass => "next-tier".to_owned(),
        Action::Allow => "allow".to_owned(),
        Action::Deny => "deny".to_owned(),
        Action::Log => "log".to_owned(),
    }
}

/// The name of a protocol: in lower case, or its number.
pub open spec fn protocol_name(p: ProtocolView) -> Seq<char> {
    match p {
        ProtocolView::Named(s) => lowercase(s),
        ProtocolView::Number(n) => decimal(n as nat),
    }
}

/// The name of a protocol.
pub fn protocol_to_v1(p: &Protocol) -> (r: String)
    ensures
        r@ == protocol_name(p.deep_view()),
{
    match p {
        Protocol::Named(s) => s.as_str().to_lowercase(),
        Protocol::Number(n) => decimal_text(*n as u64),
    }
}

/// What a rule becomes.
pub open spec fn rule_v1(r: RuleView, ns: Option<Seq<char>>) -> RuleV1View {
    RuleV1View {
        action: action_name(r.action),
        protocol: match r.protocol {
            Some(p) => Some(protocol_name(p)),
            None => None,
        },
        src_selector: side_selector(r.source, ns),
        dst_selector: side_selector(r.destination, ns),
        src_nets: r.source.nets,
        dst_nets: r.destination.nets,
        not_src_nets: r.source.not_nets,
        not_dst_nets: r.destination.not_nets,
        src_ports: r.source.ports,
        dst_ports: r.destination.ports,
    }
}

/// What a rule becomes.
pub fn rule_to_v1(r: &Rule, ns: &Option<String>) -> (v: RuleV1)
    ensures
        v.deep_view() == rule_v1(r.deep_view(), ns.deep_view()),
{
    let v = RuleV1 {
        action: rule_action(r.action),
        protocol: match &r.protocol {
            Some(p) => Some(protocol_to_v1(p)),
            None => None,
        },
        src_selector: rule_endpoint_selector(&r.source, ns),
        dst_selector: rule_endpoint_selector(&r.destination, ns),
        src_nets: clone_strings(&r.source.nets),
        dst_nets: clone_strings(&r.destination.nets),
        not_src_nets: clone_strings(&r.source.not_nets),
        not_dst_nets: clone_strings(&r.destination.not_nets),
        src_ports: r.source.ports.clone(),
        dst_ports: r.destination.ports.clone(),
    };
    assert(v.deep_view() =~= rule_v1(r.deep_view(), ns.deep_view()));
    v
}

/// What the rules become.
pub open spec fn rules_v1(rules: Seq<RuleView>, ns: Option<Seq<char>>) -> Seq<RuleV1View> {
    Seq::new(rules.len(), |i: int| rule_v1(rules[i], ns))
}

/// What the rules become.
fn rules_to_v1(rules: &Vec<Rule>, ns: &Option<String>) -> (r: Vec<RuleV1>)
    ensures
        r.deep_view() == rules_v1(rules.deep_view(), ns.deep_view()),
{
    let ghost want = rules_v1(rules.deep_view(), ns.deep_view());
    let mut out: Vec<RuleV1> = Vec::new();
    assert(out.deep_view() =~= want.take(0));
    for i in 0..rules.len()
        invariant
            want == rules_v1(rules.deep_view(), ns.deep_view()),
            out.deep_view() == want.take(i as int),
    {
        push_item(&mut out, rule_to_v1(&rules[i], ns));
        assert(out.deep_view() =~= want.take(i + 1));
    }
    assert(want.take(want.len() as int) =~= want);
    out
}

/// The name of a direction.
pub open spec fn direction_name(t: PolicyType) -> Seq<char> {
    match t {
        PolicyType::Ingress => "ingress"@,
        PolicyType::Egress => "egress"@,
    }
}

/// The name of a direction.
pub fn policy_type_to_v1(t: PolicyType) -> (r: String)
    ensures
        r@ == direction_name(t),
{
    match t {
        PolicyType::Ingress => "ingress".to_owned(),
        PolicyType::Egress => "egress".to_owned(),
    }
}

/// The key of a policy.
pub open spec fn policy_key(ns: Seq<char>, name: Seq<char>, spec: NetworkPolicySpecView) -> PolicyV1KeyView {
    PolicyV1KeyView {
        tier: tier_of(spec.tier),
        name,
        namespace: Some(ns),
        kind: PolicyKind::NetworkPolicy,
    }
}

/// What a policy becomes.
pub open spec fn policy_v1(ns: Seq<char>, spec: NetworkPolicySpecView) -> PolicyV1View {
    PolicyV1View {
        namespace: Some(ns),
        tier: tier_of(spec.tier),
        order: spec.order,
        selector: confined(spec.selector, ns),
        types: Seq::new(spec.types.len(), |i: int| direction_name(spec.types[i])),
        inbound_rules: rules_v1(spec.ingress, Some(ns)),
        outbound_rules: rules_v1(spec.egress, Some(ns)),
    }
}

/// What a policy becomes, with its key. A policy needs a name and a namespace.
pub fn process_network_policy(
    namespace: &Option<String>,
    name: &str,
    spec: &NetworkPolicySpec,
) -> (r: Result<(PolicyV1Key, PolicyV1), ProcessError>)
    ensures
        match r {
            Ok(p) => name@.len() > 0 && or_empty(namespace.deep_view()).len() > 0 && p.0.deep_view()
                == policy_key(or_empty(namespace.deep_view()), name@, spec.deep_view())
                && p.1.deep_view() == policy_v1(
                or_empty(namespace.deep_view()),
                spec.deep_view(),
            ),
            Err(e) => e.deep_view() == ProcessErrorView::MissingKeyField(
                if name@.len() == 0 {
                    "name"@
                } else {
                    "namespace"@
                },
            ) && (name@.len() == 0 || or_empty(namespace.deep_view()).len() == 0),
        },
{
    if name.is_empty() {
        return Err(ProcessError::MissingKeyField("name"));
    }
    let ns = text_or_empty(namespace);
    if ns.as_str().is_empty() {
        return Err(ProcessError::MissingKeyField("namespace"));
    }
    let ghost sv = spec.deep_view();
    let ghost want = policy_v1(ns@, sv);
    let key = PolicyV1Key {
        tier: tier_or_default(&spec.tier),
        name: name.to_owned(),
        namespace: Some(ns.clone()),
        kind: PolicyKind::NetworkPolicy,
    };
    let mut types: Vec<String> = Vec::new();
    assert(views(types@) =~= want.types.take(0));
    for i in 0..spec.types.len()
        invariant
            sv == spec.deep_view(),
            want == policy_v1(ns@, sv),
            views(types@) == want.types.take(i as int),
    {
        types.push(policy_type_to_v1(spec.types[i]));
        assert(views(types@) =~= want.types.take(i + 1));
    }
    let own = Some(ns.clone());
    let value = PolicyV1 {
        namespace: Some(ns.clone()),
        tier: tier_or_default(&spec.tier),
        order: spec.order,
        selector: augment_policy_selector(spec.selector.as_str(), ns.as_str()),
        types,
        inbound_rules: rules_to_v1(&spec.ingress, &own),
        outbound_rules: rules_to_v1(&spec.egress, &own),
    };
    assert(value.deep_view().types =~= views(types@));
    assert(value.deep_view() =~= want);
    Ok((key, value))
}

/// What a pool becomes.
pub open spec fn pool_v1(spec: IpPoolSpecView) -> IpPoolV1View {
    IpPoolV1View {
        cidr: spec.cidr,
        ipip_mode: spec.ipip_mode,
        ipip_interface: if spec.ipip_mode == EncapMode::Never {
            Seq::empty()
        } else {
            "tunl0"@
        },
        vxlan_mode: spec.vxlan_mode,
        masquerade: spec.nat_outgoing,
        ipam: !spec.disabled,
        disabled: spec.disabled,
        disable_bgp_export: spec.disable_bgp_export,
        assignment_mode: spec.assignment_mode,
        allowed_uses: spec.allowed_uses,
    }
}

/// What a pool becomes, with its key.
pub fn process_ip_pool(spec: &IpPoolSpec) -> (r: (IpPoolV1Key, IpPoolV1))
    ensures
        r.0.deep_view() == (IpPoolV1KeyView { cidr: spec.cidr@ }),
        r.1.deep_view() == pool_v1(spec.deep_view()),
{
    let ipip_interface = match spec.ipip_mode {
        EncapMode::Never => String::new(),
        _ => "tunl0".to_owned(),
    };
    let key = IpPoolV1Key { cidr: spec.cidr.clone() };
    let value = IpPoolV1 {
        cidr: spec.cidr.clone(),
        ipip_mode: spec.ipip_mode,
        ipip_interface,
        vxlan_mode: spec.vxlan_mode,
        masquerade: spec.nat_outgoing,
        ipam: !spec.disabled,
        disabled: spec.disabled,
        disable_bgp_export: spec.disable_bgp_export,
        assignment_mode: spec.assignment_mode,
        allowed_uses: spec.allowed_uses.clone(),
    };
    assert(value.deep_view() =~= pool_v1(spec.deep_view()));
    (key, value)
}

/// Whether an address is of IPv6: it holds a colon.
pub fn is_ipv6(net: &str) -> (r: bool)
    ensures
        r == net@.contains(':'),
{
    contains_char(net, ':')
}

/// Those of the first `n` addresses that are of IPv6, or those that are not.
pub open spec fn family_first(nets: Seq<Seq<char>>, v6: bool, n: nat) -> Seq<Seq<char>>
    decreases n,
{
    if n == 0 {
        Seq::empty()
    } else {
        let head = family_first(nets, v6, (n - 1) as nat);
        if nets[n - 1].contains(':') == v6 {
            head.push(nets[n - 1])
        } else {
            head
        }
    }
}

/// Those of the first `n` ports that have a name.
pub open spec fn named_ports_first(ports: Seq<WorkloadPortView>, n: nat) -> Seq<EndpointPortV1View>
    decreases n,
{
    if n == 0 {
        Seq::empty()
    } else {
        let head = named_ports_first(ports, (n - 1) as nat);
        let p = ports[n - 1];
        if p.name.len() > 0 {
            head.push(
                EndpointPortV1View {
                    name: p.name,
                    protocol: lowercase(p.protocol),
                    port: p.port,
                },
            )
        } else {
            head
        }
    }
}

/// What an endpoint becomes.
pub open spec fn endpoint_v1(spec: WorkloadEndpointSpecView) -> WorkloadEndpointV1View {
    WorkloadEndpointV1View {
        state: "active"@,
        name: spec.interface_name,
        mac: spec.mac,
        profile_ids: spec.profiles,
        ipv4_nets: family_first(spec.ipnetworks, false, spec.ipnetworks.len()),
        ipv6_nets: family_first(spec.ipnetworks, true, spec.ipnetworks.len()),
        labels: if or_empty(spec.service_account_name).len() > 0 {
            seq![(LABEL_SERVICE_ACCOUNT@, or_empty(spec.service_account_name))]
        } else {
            Seq::empty()
        },
        ports: named_ports_first(spec.ports, spec.ports.len()),
        allow_spoofed_source_prefixes: spec.allow_spoofed_source_prefixes,
    }
}

/// The key of an endpoint.
pub open spec fn endpoint_key(
    namespace: Option<Seq<char>>,
    name: Seq<char>,
    spec: WorkloadEndpointSpecView,
) -> WorkloadEndpointV1KeyView {
    WorkloadEndpointV1KeyView { hostname: spec.node, namespace, name }
}

/// What an endpoint becomes, with its key; nothing where it has no address. Ports without
/// a name are left out.
pub fn process_workload_endpoint(
    namespace: &Option<String>,
    name: &str,
    spec: &WorkloadEndpointSpec,
) -> (r: Result<Option<(WorkloadEndpointV1Key, WorkloadEndpointV1)>, ProcessError>)
    ensures
        r is Ok,
        match r->Ok_0 {
            Some(p) => spec.ipnetworks@.len() > 0 && p.0.deep_view() == endpoint_key(
                namespace.deep_view(),
                name@,
                spec.deep_view(),
            ) && p.1.deep_view() == endpoint_v1(spec.deep_view()),
            None => spec.ipnetworks@.len() == 0,
        },
{
    if spec.ipnetworks.len() == 0 {
        return Ok(None);
    }
    let ghost sv = spec.deep_view();
    let ghost want = endpoint_v1(sv);
    let mut ipv4_nets: Vec<String> = Vec::new();
    let mut ipv6_nets: Vec<String> = Vec::new();
    assert(views(ipv4_nets@) =~= Seq::<Seq<char>>::empty());
    assert(views(ipv6_nets@) =~= Seq::<Seq<char>>::empty());
    for i in 0..spec.ipnetworks.len()
        invariant
            sv == spec.deep_view(),
            views(ipv4_nets@) == family_first(sv.ipnetworks, false, i as nat),
            views(ipv6_nets@) == family_first(sv.ipnetworks, true, i as nat),
    {
        let net = &spec.ipnetworks[i];
        assert(sv.ipnetworks[i as int] == net@);
        if is_ipv6(net.as_str()) {
            ipv6_nets.push(net.clone());
        } else {
            ipv4_nets.push(net.clone());
        }
    }
    let mut ports: Vec<EndpointPortV1> = Vec::new();
    assert(ports.deep_view() =~= Seq::<EndpointPortV1View>::empty());
    for i in 0..spec.ports.len()
        invariant
            sv == spec.deep_view(),
            ports.deep_view() == named_ports_first(sv.ports, i as nat),
    {
        let p = &spec.ports[i];
        assert(sv.ports[i as int] == p.deep_view());
        if !p.name.as_str().is_empty() {
            push_item(
                &mut ports,
                EndpointPortV1 {
                    name: p.name.clone(),
                    protocol: p.protocol.as_str().to_lowercase(),
                    port: p.port,
                },
            );
        }
    }
    let mut entries: Vec<(String, String)> = Vec::new();
    if let Some(sa) = &spec.service_account_name {
        if !sa.as_str().is_empty() {
            entries.push((LABEL_SERVICE_ACCOUNT.to_owned(), sa.clone()));
        }
    }
    let labels: Labels = OrdMap { entries };
    let key = WorkloadEndpointV1Key {
        hostname: spec.node.clone(),
        namespace: clone_opt(namespace),
        name: name.to_owned(),
    };
    let value = WorkloadEndpointV1 {
        state: "active",
        name: spec.interface_name.clone(),
        mac: clone_opt(&spec.mac),
        profile_ids: clone_strings(&spec.profiles),
        ipv4_nets,
        ipv6_nets,
        labels,
        ports,
        allow_spoofed_source_prefixes: clone_strings(&spec.allow_spoofed_source_prefixes),
    };
    assert(value.deep_view().ipv4_nets =~= views(ipv4_nets@));
    assert(value.deep_view().ipv6_nets =~= views(ipv6_nets@));
    assert(value.deep_view().labels =~= want.labels);
    assert(value.deep_view() =~= want);
    Ok(Some((key, value)))
}

/// The hosts that a configuration resource is for: all for `default`, one for `node.` and
/// its name; any other resource is not flattened.
pub open spec fn config_scope(name: Seq<char>) -> Option<Option<Seq<char>>> {
    if name == "default"@ {
        Some(None)
    } else if has_prefix(name, "node."@) {
        Some(Some(name.skip(5)))
    } else {
        None
    }
}

/// The entry of a text field, where it is set.
pub open spec fn text_entry(host: Option<Seq<char>>, name: Seq<char>, value: Option<Seq<char>>) -> Seq<
    ConfigV1View,
> {
    if or_empty(value).len() > 0 {
        seq![ConfigV1View { host, name, value: or_empty(value) }]
    } else {
        Seq::empty()
    }
}

/// The entries of a configuration: one for each field that is set.
pub open spec fn config_entries(host: Option<Seq<char>>, spec: FelixConfigurationSpecView) -> Seq<
    ConfigV1View,
> {
    (match spec.bpf_enabled {
        Some(b) => seq![
            ConfigV1View {
                host,
                name: "BPFEnabled"@,
                value: if b {
                    "true"@
                } else {
                    "false"@
                },
            },
        ],
        None => Seq::empty(),
    }) + text_entry(host, "LogSeverityScreen"@, spec.log_severity_screen) + text_entry(
        host,
        "InterfacePrefix"@,
        spec.interface_prefix,
    ) + text_entry(host, "DefaultEndpointToHostAction"@, spec.default_endpoint_to_host_action)
}

/// What a configuration resource becomes.
pub open spec fn configs_v1(name: Seq<char>, spec: FelixConfigurationSpecView) -> Seq<ConfigV1View> {
    match config_scope(name) {
        Some(host) => config_entries(host, spec),
        None => Seq::empty(),
    }
}

/// Appends the entry of a text field, where it is set.
fn push_text_entry(
    out: &mut Vec<ConfigV1>,
    host: &Option<String>,
    name: &str,
    value: &Option<String>,
)
    ensures
        final(out).deep_view() == old(out).deep_view() + text_entry(
            host.deep_view(),
            name@,
            value.deep_view(),
        ),
{
    let ghost before = out.deep_view();
    if let Some(v) = value {
        if !v.as_str().is_empty() {
            push_item(
                out,
                ConfigV1 { host: clone_opt(host), name: name.to_owned(), value: v.clone() },
            );
        }
    }
    assert(out.deep_view() =~= before + text_entry(host.deep_view(), name@, value.deep_view()));
}

/// What a configuration resource becomes: flat entries, one for each field that is set.
pub fn process_felix_configuration(name: &str, spec: &FelixConfigurationSpec) -> (r: Vec<ConfigV1>)
    ensures
        r.deep_view() == configs_v1(name@, spec.deep_view()),
{
    let mut out: Vec<ConfigV1> = Vec::new();
    assert(out.deep_view() =~= Seq::<ConfigV1View>::empty());
    let host: Option<String> = if str_eq(name, "default") {
        None
    } else if starts_with(name, "node.") {
        proof {
            reveal_strlit("node.");
        }
        let n = name.unicode_len();
        let rest = name.substring_char(5, n);
        assert(name@.subrange(5, name@.len() as int) =~= name@.skip(5));
        Some(rest.to_owned())
    } else {
        return out;
    };
    if let Some(b) = spec.bpf_enabled {
        let value = if b {
            "true".to_owned()
        } else {
            "false".to_owned()
        };
        push_item(
            &mut out,
            ConfigV1 { host: clone_opt(&host), name: "BPFEnabled".to_owned(), value },
        );
    }
    push_text_entry(&mut out, &host, "LogSeverityScreen", &spec.log_severity_screen);
    push_text_entry(&mut out, &host, "InterfacePrefix", &spec.interface_prefix);
    push_text_entry(
        &mut out,
        &host,
        "DefaultEndpointToHostAction",
        &spec.default_endpoint_to_host_action,
    );
    assert(out.deep_view() =~= configs_v1(name@, spec.deep_view()));
    out
}

/// The entries of a configuration as pairs.
pub open spec fn config_pairs(entries: Seq<ConfigV1View>) -> Seq<V1KVPairView> {
    Seq::new(
        entries.len(),
        |i: int|
            V1KVPairView {
                key: V1KeyView::Config { host: entries[i].host, name: entries[i].name },
                value: V1ValueView::Config(entries[i].value),
            },
    )
}

/// A specification that was read, by its view.
pub open spec fn decoded_view(decoded: Result<DecodedSpec, String>) -> Result<
    DecodedSpecView,
    Seq<char>,
> {
    match decoded {
        Ok(s) => Ok(s.deep_view()),
        Err(e) => Err(e@),
    }
}

/// What a resource becomes, given what reading its specification came to.
pub open spec fn processed(
    kind: ResourceKind,
    key: KeyView,
    decoded: Result<DecodedSpecView, Seq<char>>,
) -> Result<Seq<V1KVPairView>, ProcessErrorView> {
    match key {
        KeyView::Resource { kind: _, namespace, name } => match kind {
            ResourceKind::NetworkPolicy => match decoded {
                Ok(DecodedSpecView::NetworkPolicy(spec)) => {
                    if name.len() == 0 {
                        Err(ProcessErrorView::MissingKeyField("name"@))
                    } else if or_empty(namespace).len() == 0 {
                        Err(ProcessErrorView::MissingKeyField("namespace"@))
                    } else {
                        Ok(
                            seq![
                                V1KVPairView {
                                    key: V1KeyView::Policy(
                                        policy_key(or_empty(namespace), name, spec),
                                    ),
                                    value: V1ValueView::Policy(
                                        policy_v1(or_empty(namespace), spec),
                                    ),
                                },
                            ],
                        )
                    }
                },
                Ok(_) => Err(ProcessErrorView::Deserialize("spec of another kind"@)),
                Err(e) => Err(ProcessErrorView::Deserialize(e)),
            },
            ResourceKind::IpPool => match decoded {
                Ok(DecodedSpecView::IpPool(spec)) => Ok(
                    seq![
                        V1KVPairView {
                            key: V1KeyView::IpPool(IpPoolV1KeyView { cidr: spec.cidr }),
                            value: V1ValueView::IpPool(pool_v1(spec)),
                        },
                    ],
                ),
                Ok(_) => Err(ProcessErrorView::Deserialize("spec of another kind"@)),
                Err(e) => Err(ProcessErrorView::Deserialize(e)),
            },
            ResourceKind::WorkloadEndpoint => match decoded {
                Ok(DecodedSpecView::WorkloadEndpoint(spec)) => if spec.ipnetworks.len() == 0 {
                    Ok(Seq::empty())
                } else {
                    Ok(
                        seq![
                            V1KVPairView {
                                key: V1KeyView::WorkloadEndpoint(
                                    endpoint_key(namespace, name, spec),
                                ),
                                value: V1ValueView::WorkloadEndpoint(endpoint_v1(spec)),
                            },
                        ],
                    )
                },
                Ok(_) => Err(ProcessErrorView::Deserialize("spec of another kind"@)),
                Err(e) => Err(ProcessErrorView::Deserialize(e)),
            },
            ResourceKind::FelixConfiguration => match decoded {
                Ok(DecodedSpecView::FelixConfiguration(spec)) => Ok(
                    config_pairs(configs_v1(name, spec)),
                ),
                Ok(_) => Err(ProcessErrorView::Deserialize("spec of another kind"@)),
                Err(e) => Err(ProcessErrorView::Deserialize(e)),
            },
            other => Err(ProcessErrorView::UnsupportedKind(other)),
        },
        _ => Err(ProcessErrorView::MissingKeyField("resource key"@)),
    }
}

/// The refusal of a specification that was not read as one of the wanted kind.
fn not_decoded(decoded: &Result<DecodedSpec, String>) -> (r: ProcessError)
    ensures
        r.deep_view() == ProcessErrorView::Deserialize(
            match decoded_view(*decoded) {
                Ok(_) => "spec of another kind"@,
                Err(e) => e,
            },
        ),
{
    match decoded {
        Ok(_) => ProcessError::Deserialize("spec of another kind".to_owned()),
        Err(e) => ProcessError::Deserialize(e.clone()),
    }
}

/// What a resource becomes, given what reading its specification came to. Only policies,
/// pools, workload endpoints and configurations become something.
pub fn process(kind: ResourceKind, key: &Key, decoded: &Result<DecodedSpec, String>) -> (r: Result<
    Vec<V1KVPair>,
    ProcessError,
>)
    ensures
        match r {
            Ok(v) => processed(kind, key.deep_view(), decoded_view(*decoded)) == Ok::<
                Seq<V1KVPairView>,
                ProcessErrorView,
            >(v.deep_view()),
            Err(e) => processed(kind, key.deep_view(), decoded_view(*decoded)) == Err::<
                Seq<V1KVPairView>,
                ProcessErrorView,
            >(e.deep_view()),
        },
{
    let (namespace, name) = match key {
        Key::Resource { kind: _, namespace, name } => (namespace, name),
        _ => return Err(ProcessError::MissingKeyField("resource key")),
    };
    let mut out: Vec<V1KVPair> = Vec::new();
    assert(out.deep_view() =~= Seq::<V1KVPairView>::empty());
    match kind {
        ResourceKind::NetworkPolicy => match decoded {
            Ok(DecodedSpec::NetworkPolicy(spec)) => match process_network_policy(
                namespace,
                name.as_str(),
                spec,
            ) {
                Ok((k, v)) => {
                    push_item(
                        &mut out,
                        V1KVPair { key: V1Key::Policy(k), value: V1Value::Policy(v) },
                    );
                    assert(out.deep_view() =~= processed(
                        kind,
                        key.deep_view(),
                        decoded_view(*decoded),
                    )->Ok_0);
                    Ok(out)
                },
                Err(e) => Err(e),
            },
            other => Err(not_decoded(other)),
        },
        ResourceKind::IpPool => match decoded {
            Ok(DecodedSpec::IpPool(spec)) => {
                let (k, v) = process_ip_pool(spec);
                push_item(&mut out, V1KVPair { key: V1Key::IpPool(k), value: V1Value::IpPool(v) });
                assert(out.deep_view() =~= processed(
                    kind,
                    key.deep_view(),
                    decoded_view(*decoded),
                )->Ok_0);
                Ok(out)
            },
            other => Err(not_decoded(other)),
        },
        ResourceKind::WorkloadEndpoint => match decoded {
            Ok(DecodedSpec::WorkloadEndpoint(spec)) => {
                if let Ok(Some((k, v))) = process_workload_endpoint(namespace, name.as_str(), spec) {
                    push_item(
                        &mut out,
                        V1KVPair {
                            key: V1Key::WorkloadEndpoint(k),
                            value: V1Value::WorkloadEndpoint(v),
                        },
                    );
                }
                assert(out.deep_view() =~= processed(
                    kind,
                    key.deep_view(),
                    decoded_view(*decoded),
                )->Ok_0);
                Ok(out)
            },
            other => Err(not_decoded(other)),
        },
        ResourceKind::FelixConfiguration => match decoded {
            Ok(DecodedSpec::FelixConfiguration(spec)) => {
                let entries = process_felix_configuration(name.as_str(), spec);
                let ghost ev = entries.deep_view();
                for i in 0..entries.len()
                    invariant
                        ev == entries.deep_view(),
                        out.deep_view() == config_pairs(ev).take(i as int),
                {
                    let c = &entries[i];
                    assert(ev[i as int] == c.deep_view());
                    push_item(
                        &mut out,
                        V1KVPair {
                            key: V1Key::Config { host: clone_opt(&c.host), name: c.name.clone() },
                            value: V1Value::Config(c.value.clone()),
                        },
                    );
                    assert(out.deep_view() =~= config_pairs(ev).take(i + 1));
                }
                assert(config_pairs(ev).take(ev.len() as int) =~= config_pairs(ev));
                Ok(out)
            },
            other => Err(not_decoded(other)),
        },
        other => Err(ProcessError::UnsupportedKind(other)),
    }
}

/// The keys of a list of pairs.
pub open spec fn keys_of(pairs: Seq<V1KVPairView>) -> Seq<V1KeyView> {
    Seq::new(pairs.len(), |i: int| pairs[i].key)
}

/// The keys of what a resource becomes: those of [`process`], in the same order.
pub fn process_keys(kind: ResourceKind, key: &Key, decoded: &Result<DecodedSpec, String>) -> (r: Result<
    Vec<V1Key>,
    ProcessError,
>)
    ensures
        match r {
            Ok(v) => processed(kind, key.deep_view(), decoded_view(*decoded)) matches Ok(pairs)
                && v.deep_view() == keys_of(pairs),
            Err(e) => processed(kind, key.deep_view(), decoded_view(*decoded)) == Err::<
                Seq<V1KVPairView>,
                ProcessErrorView,
            >(e.deep_view()),
        },
{
    match process(kind, key, decoded) {
        Ok(pairs) => {
            let ghost pv = pairs.deep_view();
            let mut out: Vec<V1Key> = Vec::new();
            assert(out.deep_view() =~= keys_of(pv).take(0));
            for i in 0..pairs.len()
                invariant
                    pv == pairs.deep_view(),
                    out.deep_view() == keys_of(pv).take(i as int),
            {
                assert(pv[i as int] == pairs@[i as int].deep_view());
                push_item(&mut out, pairs[i].key.clone());
                assert(out.deep_view() =~= keys_of(pv).take(i + 1));
            }
            assert(keys_of(pv).take(pv.len() as int) =~= keys_of(pv));
            Ok(out)
        },
        Err(e) => Err(e),
    }
}

/// Every address of an endpoint goes to exactly one of the two families.
pub proof fn law_families_partition_addresses(nets: Seq<Seq<char>>, n: nat)
    requires
        n <= nets.len(),
    ensures
        family_first(nets, false, n).len() + family_first(nets, true, n).len() == n,
        forall|i: int|
            0 <= i < family_first(nets, true, n).len() ==> (#[trigger] family_first(
                nets,
                true,
                n,
            )[i]).contains(':'),
        forall|i: int|
            0 <= i < family_first(nets, false, n).len() ==> !(#[trigger] family_first(
                nets,
                false,
                n,
            )[i]).contains(':'),
    decreases n,
{
    if n > 0 {
        law_families_partition_addresses(nets, (n - 1) as nat);
    }
}

/// One end of a flow: the selectors that pick it, the blocks that hold its address, and its
/// port.
pub struct Party {
    pub picked_by: spec_fn(Seq<char>) -> bool,
    pub inside: spec_fn(Seq<char>) -> bool,
    pub port: u16,
}

/// A flow: the names of its protocol, the end that sends and the end that is sent to.
pub struct Flow {
    pub protocol: spec_fn(Seq<char>) -> bool,
    pub source: Party,
    pub destination: Party,
}

impl Party {
    /// Whether a conjunction of two selectors picks the party where both of them do.
    pub open spec fn reads_conjunctions(self) -> bool {
        &&& forall|a: Seq<char>, b: Seq<char>|
            #[trigger] (self.picked_by)("("@ + a + ") && ("@ + b + ")"@) <==> (self.picked_by)(a)
                && (self.picked_by)(b)
        &&& forall|a: Seq<char>, b: Seq<char>|
            #[trigger] (self.picked_by)("("@ + a + ") && "@ + b) <==> (self.picked_by)(a) && (
            self.picked_by)(b)
    }

    /// Whether the address is in one of the blocks, where there are any, and in none of those
    /// left out, and the port is one of the ports, where there are any.
    pub open spec fn is_at(
        self,
        nets: Seq<Seq<char>>,
        not_nets: Seq<Seq<char>>,
        ports: Seq<u16>,
    ) -> bool {
        &&& nets.len() == 0 || exists|i: int| 0 <= i < nets.len() && (self.inside)(
            #[trigger] nets[i],
        )
        &&& forall|i: int|
            0 <= i < not_nets.len() ==> !(self.inside)(#[trigger] not_nets[i])
        &&& ports.len() == 0 || ports.contains(self.port)
    }

    /// Whether one side of a rule of a policy in the namespace `ns` is about the party. A
    /// side with a namespace selector is about the namespaces that it picks; one that has
    /// only a selector is about the policy's own namespace.
    pub open spec fn is_on_side(self, er: EntityRuleView, ns: Option<Seq<char>>) -> bool {
        let namespaces = or_empty(er.namespace_selector);
        let text = replace_all(
            replace_all(namespaces, "all()"@, "has(projectcalico.org/namespace)"@),
            "global()"@,
            "!has(projectcalico.org/namespace)"@,
        );
        let own = "projectcalico.org/namespace"@ + " == '"@ + or_empty(ns) + "'"@;
        let chosen = er.selector is Some && er.selector->0.len() > 0;
        &&& self.is_at(er.nets, er.not_nets, er.ports)
        &&& chosen ==> (self.picked_by)(er.selector->0)
        &&& namespaces.len() > 0 && text.len() > 0 ==> (self.picked_by)(text)
        &&& namespaces.len() == 0 && chosen && or_empty(ns).len() > 0 ==> (self.picked_by)(own)
    }
}

/// Whether a rule of a policy in the namespace `ns` is about a flow.
pub open spec fn concerns(flow: Flow, r: RuleView, ns: Option<Seq<char>>) -> bool {
    &&& match r.protocol {
        None => true,
        Some(ProtocolView::Named(s)) => (flow.protocol)(lowercase(s)),
        Some(ProtocolView::Number(n)) => (flow.protocol)(decimal(n as nat)),
    }
    &&& flow.source.is_on_side(r.source, ns)
    &&& flow.destination.is_on_side(r.destination, ns)
}

/// Whether a v1 rule is about a flow.
pub open spec fn concerns_v1(flow: Flow, r: RuleV1View) -> bool {
    &&& r.protocol is Some ==> (flow.protocol)(r.protocol->0)
    &&& r.src_selector.len() > 0 ==> (flow.source.picked_by)(r.src_selector)
    &&& flow.source.is_at(r.src_nets, r.not_src_nets, r.src_ports)
    &&& r.dst_selector.len() > 0 ==> (flow.destination.picked_by)(r.dst_selector)
    &&& flow.destination.is_at(r.dst_nets, r.not_dst_nets, r.dst_ports)
}

/// What a rule's action is called in v1.
pub open spec fn same_verdict(action: Action, name: Seq<char>) -> bool {
    match action {
        Action::Allow => name == "allow"@,
        Action::Deny => name == "deny"@,
        Action::Log => name == "log"@,
        Action::Pass => name == "next-tier"@,
    }
}

/// The selector of a side picks who the side is about.
pub proof fn lemma_side_selector(p: Party, er: EntityRuleView, ns: Option<Seq<char>>)
    requires
        p.reads_conjunctions(),
    ensures
        p.is_on_side(er, ns) <==> p.is_at(er.nets, er.not_nets, er.ports) && (side_selector(
            er,
            ns,
        ).len() > 0 ==> (p.picked_by)(side_selector(er, ns))),
{
    reveal_strlit("(");
    reveal_strlit(" == '");
    let selector = or_empty(er.selector);
    let part = namespace_part(er, ns);
    assert(("("@ + part + ") && ("@ + selector + ")"@).len() > 0);
    assert((p.picked_by)("("@ + part + ") && ("@ + selector + ")"@) <==> (p.picked_by)(part) && (
    p.picked_by)(selector));
}

/// A v1 rule is about the same flows as the rule that it came from, whatever the flow, and
/// does the same with them: the source side says who may send, the destination side who may
/// be sent to.
pub proof fn law_v1_rule_concerns_the_same_flows(r: RuleView, ns: Option<Seq<char>>, flow: Flow)
    requires
        flow.source.reads_conjunctions(),
        flow.destination.reads_conjunctions(),
    ensures
        concerns(flow, r, ns) <==> concerns_v1(flow, rule_v1(r, ns)),
        same_verdict(r.action, rule_v1(r, ns).action),
{
    lemma_side_selector(flow.source, r.source, ns);
    lemma_side_selector(flow.destination, r.destination, ns);
}

/// A network policy becomes one v1 policy, under its own name and namespace and in its own
/// tier. It applies to the endpoints that the policy's selector picks in that namespace. Its
/// inbound rules are about the flows that the ingress rules are about, rule for rule, its
/// outbound rules about those of the egress rules, and both do the same with them.
pub proof fn law_v1_policy_does_what_the_policy_does(
    kind: ResourceKind,
    ns: Seq<char>,
    name: Seq<char>,
    spec: NetworkPolicySpecView,
    flow: Flow,
    target: Party,
)
    requires
        ns.len() > 0,
        name.len() > 0,
        flow.source.reads_conjunctions(),
        flow.destination.reads_conjunctions(),
        target.reads_conjunctions(),
    ensures
        ({
            let key = KeyView::Resource { kind, namespace: Some(ns), name };
            let tier = if spec.tier is Some && spec.tier->0.len() > 0 {
                spec.tier->0
            } else {
                "default"@
            };
            let own = "projectcalico.org/namespace"@ + " == '"@ + ns + "'"@;
            &&& processed(
                ResourceKind::NetworkPolicy,
                key,
                Ok(DecodedSpecView::NetworkPolicy(spec)),
            ) matches Ok(pairs)
            &&& pairs.len() == 1
            &&& pairs[0].key matches V1KeyView::Policy(k)
            &&& pairs[0].value matches V1ValueView::Policy(v)
            &&& k.name == name
            &&& k.namespace == Some(ns)
            &&& k.tier == tier
            &&& v.namespace == Some(ns)
            &&& v.tier == tier
            &&& v.order == spec.order
            &&& v.selector.len() > 0
            &&& (target.picked_by)(v.selector) <==> (spec.selector.len() > 0 ==> (
            target.picked_by)(spec.selector)) && (target.picked_by)(own)
            &&& v.types.len() == spec.types.len()
            &&& forall|i: int|
                0 <= i < spec.types.len() ==> #[trigger] v.types[i] == (match spec.types[i] {
                    PolicyType::Ingress => "ingress"@,
                    PolicyType::Egress => "egress"@,
                })
            &&& v.inbound_rules.len() == spec.ingress.len()
            &&& forall|i: int|
                0 <= i < spec.ingress.len() ==> (concerns_v1(flow, #[trigger] v.inbound_rules[i])
                    <==> concerns(flow, spec.ingress[i], Some(ns))) && same_verdict(
                    spec.ingress[i].action,
                    v.inbound_rules[i].action,
                )
            &&& v.outbound_rules.len() == spec.egress.len()
            &&& forall|i: int|
                0 <= i < spec.egress.len() ==> (concerns_v1(flow, #[trigger] v.outbound_rules[i])
                    <==> concerns(flow, spec.egress[i], Some(ns))) && same_verdict(
                    spec.egress[i].action,
                    v.outbound_rules[i].action,
                )
        }),
{
    reveal_strlit("(");
    reveal_strlit(" == '");
    let v = policy_v1(ns, spec);
    assert forall|i: int| 0 <= i < spec.ingress.len() implies (concerns_v1(
        flow,
        #[trigger] v.inbound_rules[i],
    ) <==> concerns(flow, spec.ingress[i], Some(ns))) && same_verdict(
        spec.ingress[i].action,
        v.inbound_rules[i].action,
    ) by {
        law_v1_rule_concerns_the_same_flows(spec.ingress[i], Some(ns), flow);
    }
    assert forall|i: int| 0 <= i < spec.egress.len() implies (concerns_v1(
        flow,
        #[trigger] v.outbound_rules[i],
    ) <==> concerns(flow, spec.egress[i], Some(ns))) && same_verdict(
        spec.egress[i].action,
        v.outbound_rules[i].action,
    ) by {
        law_v1_rule_concerns_the_same_flows(spec.egress[i], Some(ns), flow);
    }
    let own = in_namespace(ns);
    assert((target.picked_by)("("@ + spec.selector + ") && "@ + own) <==> (target.picked_by)(
        spec.selector,
    ) && (target.picked_by)(own));
    assert(("("@ + spec.selector + ") && "@ + own).len() > 0);
}

/// A pool becomes one v1 pool under its own block. Addresses are assigned from it exactly
/// where it is not disabled, traffic out of it is masqueraded exactly where the pool asks for
/// it, and it has a tunnel device exactly where packets are tunnelled in IP.
pub proof fn law_v1_pool_does_what_the_pool_does(key: KeyView, spec: IpPoolSpecView)
    requires
        key is Resource,
    ensures
        ({
            &&& processed(ResourceKind::IpPool, key, Ok(DecodedSpecView::IpPool(spec))) matches Ok(
                pairs,
            )
            &&& pairs.len() == 1
            &&& pairs[0].key matches V1KeyView::IpPool(k)
            &&& pairs[0].value matches V1ValueView::IpPool(v)
            &&& k.cidr == spec.cidr
            &&& v.cidr == spec.cidr
            &&& v.masquerade == spec.nat_outgoing
            &&& v.disabled == spec.disabled
            &&& v.ipam != spec.disabled
            &&& v.disable_bgp_export == spec.disable_bgp_export
            &&& v.ipip_mode == spec.ipip_mode
            &&& v.vxlan_mode == spec.vxlan_mode
            &&& v.assignment_mode == spec.assignment_mode
            &&& v.allowed_uses == spec.allowed_uses
            &&& v.ipip_interface == "tunl0"@ || v.ipip_interface.len() == 0
            &&& v.ipip_interface.len() > 0 <==> spec.ipip_mode != EncapMode::Never
        }),
{
    reveal_strlit("tunl0");
}

/// A network is in the list of its own family, and in the list of that family alone.
proof fn lemma_family(nets: Seq<Seq<char>>, v6: bool, n: nat, net: Seq<char>)
    requires
        n <= nets.len(),
    ensures
        family_first(nets, v6, n).contains(net) <==> net.contains(':') == v6 && exists|i: int|
            0 <= i < n && #[trigger] nets[i] == net,
    decreases n,
{
    if n > 0 {
        let m = (n - 1) as nat;
        lemma_family(nets, v6, m, net);
        let head = family_first(nets, v6, m);
        let all = family_first(nets, v6, n);
        if all.contains(net) {
            let i = all.index_of(net);
            if i < head.len() {
                assert(head[i] == net);
                assert(head.contains(net));
            } else {
                assert(nets[n - 1] == net);
            }
        }
        if net.contains(':') == v6 && exists|i: int| 0 <= i < n && #[trigger] nets[i] == net {
            let i = choose|i: int| 0 <= i < n && #[trigger] nets[i] == net;
            if i < m {
                assert(head.contains(net));
                assert(all[head.index_of(net)] == net);
            } else {
                assert(all[head.len() as int] == net);
            }
        }
    }
}

/// The named ports, and those alone, are listed.
proof fn lemma_named_ports(ports: Seq<WorkloadPortView>, n: nat, p: EndpointPortV1View)
    requires
        n <= ports.len(),
    ensures
        named_ports_first(ports, n).contains(p) <==> exists|i: int|
            0 <= i < n && (#[trigger] ports[i]).name.len() > 0 && p.name == ports[i].name && p.port
                == ports[i].port && p.protocol == lowercase(ports[i].protocol),
    decreases n,
{
    if n > 0 {
        let m = (n - 1) as nat;
        lemma_named_ports(ports, m, p);
        let head = named_ports_first(ports, m);
        let all = named_ports_first(ports, n);
        if all.contains(p) {
            let i = all.index_of(p);
            if i < head.len() {
                assert(head[i] == p);
                assert(head.contains(p));
            } else {
                assert(ports[n - 1].name.len() > 0);
            }
        }
        if exists|i: int|
            0 <= i < n && (#[trigger] ports[i]).name.len() > 0 && p.name == ports[i].name && p.port
                == ports[i].port && p.protocol == lowercase(ports[i].protocol) {
            let i = choose|i: int|
                0 <= i < n && (#[trigger] ports[i]).name.len() > 0 && p.name == ports[i].name
                    && p.port == ports[i].port && p.protocol == lowercase(ports[i].protocol);
            if i < m {
                assert(head.contains(p));
                assert(all[head.index_of(p)] == p);
            } else {
                assert(all[head.len() as int] == p);
            }
        }
    }
}

/// A workload endpoint with addresses becomes one v1 endpoint under its own node, namespace
/// and name; one without becomes nothing. Each of its networks is in the list of its family
/// and no other network is, its named ports are listed and no others, its service account is
/// its only label, and the rest is carried over.
pub proof fn law_v1_endpoint_is_the_endpoint(
    kind: ResourceKind,
    namespace: Option<Seq<char>>,
    name: Seq<char>,
    spec: WorkloadEndpointSpecView,
    net: Seq<char>,
    port: EndpointPortV1View,
)
    ensures
        ({
            let key = KeyView::Resource { kind, namespace, name };
            let account = or_empty(spec.service_account_name);
            &&& processed(
                ResourceKind::WorkloadEndpoint,
                key,
                Ok(DecodedSpecView::WorkloadEndpoint(spec)),
            ) matches Ok(pairs)
            &&& pairs.len() == (if spec.ipnetworks.len() == 0 {
                0nat
            } else {
                1nat
            })
            &&& pairs.len() == 1 ==> {
                &&& pairs[0].key matches V1KeyView::WorkloadEndpoint(k)
                &&& pairs[0].value matches V1ValueView::WorkloadEndpoint(v)
                &&& k.hostname == spec.node
                &&& k.namespace == namespace
                &&& k.name == name
                &&& v.state == "active"@
                &&& v.name == spec.interface_name
                &&& v.mac == spec.mac
                &&& v.profile_ids == spec.profiles
                &&& v.allow_spoofed_source_prefixes == spec.allow_spoofed_source_prefixes
                &&& v.ipv4_nets.len() + v.ipv6_nets.len() == spec.ipnetworks.len()
                &&& v.ipv4_nets.contains(net) <==> spec.ipnetworks.contains(net) && !net.contains(
                    ':',
                )
                &&& v.ipv6_nets.contains(net) <==> spec.ipnetworks.contains(net) && net.contains(
                    ':',
                )
                &&& v.labels.len() == (if account.len() > 0 {
                    1nat
                } else {
                    0nat
                })
                &&& account.len() > 0 ==> v.labels[0] == (
                    "projectcalico.org/serviceaccount"@,
                    account,
                )
                &&& v.ports.contains(port) <==> exists|i: int|
                    0 <= i < spec.ports.len() && (#[trigger] spec.ports[i]).name.len() > 0
                        && port.name == spec.ports[i].name && port.port == spec.ports[i].port
                        && port.protocol == lowercase(spec.ports[i].protocol)
            }
        }),
{
    let n = spec.ipnetworks.len();
    law_families_partition_addresses(spec.ipnetworks, n);
    lemma_family(spec.ipnetworks, false, n, net);
    lemma_family(spec.ipnetworks, true, n, net);
    lemma_named_ports(spec.ports, spec.ports.len(), port);
    if spec.ipnetworks.contains(net) {
        let i = spec.ipnetworks.index_of(net);
        assert(spec.ipnetworks[i] == net);
    }
}

/// The value that the pairs give the parameter `name` of `host`, if any of them does.
pub open spec fn sets(pairs: Seq<V1KVPairView>, host: Option<Seq<char>>, name: Seq<char>, value: Seq<
    char,
>) -> bool {
    exists|i: int|
        0 <= i < pairs.len() && #[trigger] pairs[i] == (V1KVPairView {
            key: V1KeyView::Config { host, name },
            value: V1ValueView::Config(value),
        })
}

/// Whether `host` is who a configuration of that name is for: everyone where it is called
/// `default`, one host where its name is that of the host behind `node.`.
pub open spec fn configures(name: Seq<char>, host: Option<Seq<char>>) -> bool {
    match host {
        None => name == "default"@,
        Some(h) => name == "node."@ + h,
    }
}

/// A configuration sets a parameter exactly where the field of that name is set: for everyone
/// where it is the default configuration, for the one host where it is a host's, and for
/// nobody otherwise.
pub proof fn law_v1_config_sets_what_is_set(
    kind: ResourceKind,
    namespace: Option<Seq<char>>,
    name: Seq<char>,
    spec: FelixConfigurationSpecView,
    host: Option<Seq<char>>,
    param: Seq<char>,
    value: Seq<char>,
)
    ensures
        ({
            let key = KeyView::Resource { kind, namespace, name };
            &&& processed(
                ResourceKind::FelixConfiguration,
                key,
                Ok(DecodedSpecView::FelixConfiguration(spec)),
            ) matches Ok(pairs)
            &&& sets(pairs, host, param, value) <==> {
                &&& configures(name, host)
                &&& {
                    ||| param == "BPFEnabled"@ && spec.bpf_enabled == Some(true) && value
                        == "true"@
                    ||| param == "BPFEnabled"@ && spec.bpf_enabled == Some(false) && value
                        == "false"@
                    ||| param == "LogSeverityScreen"@ && spec.log_severity_screen == Some(value)
                        && value.len() > 0
                    ||| param == "InterfacePrefix"@ && spec.interface_prefix == Some(value)
                        && value.len() > 0
                    ||| param == "DefaultEndpointToHostAction"@
                        && spec.default_endpoint_to_host_action == Some(value) && value.len() > 0
                }
            }
        }),
{
    reveal_strlit("node.");
    reveal_strlit("default");
    let pairs = config_pairs(configs_v1(name, spec));
    let pair = V1KVPairView {
        key: V1KeyView::Config { host, name: param },
        value: V1ValueView::Config(value),
    };
    let p = "node."@;
    assert(p.len() == 5);
    if has_prefix(name, p) {
        assert(name =~= p + name.skip(5));
        assert(name[0] == 'n');
        assert("default"@[0] == 'd');
    }
    if let Some(h) = host {
        if name == p + h {
            crate::text::lemma_prefix_of_sum(p, h);
            assert((p + h).skip(5) =~= h);
        }
    }
    assert(config_scope(name) == Some(host) <==> configures(name, host));
    match config_scope(name) {
        Some(h) => {
            let first = match spec.bpf_enabled {
                Some(b) => seq![
                    ConfigV1View {
                        host: h,
                        name: "BPFEnabled"@,
                        value: if b {
                            "true"@
                        } else {
                            "false"@
                        },
                    },
                ],
                None => Seq::empty(),
            };
            let second = text_entry(h, "LogSeverityScreen"@, spec.log_severity_screen);
            let third = text_entry(h, "InterfacePrefix"@, spec.interface_prefix);
            let fourth = text_entry(
                h,
                "DefaultEndpointToHostAction"@,
                spec.default_endpoint_to_host_action,
            );
            let entries = first + second + third + fourth;
            assert(configs_v1(name, spec) =~= entries);
            let a = first.len() as int;
            let b = a + second.len();
            let c = b + third.len();
            if sets(pairs, host, param, value) {
                let i = choose|i: int| 0 <= i < pairs.len() && #[trigger] pairs[i] == pair;
                assert(entries[i].host == h);
            }
            if first.len() > 0 {
                assert(entries[0] == first[0]);
                assert(pairs[0].value == V1ValueView::Config(first[0].value));
            }
            if second.len() > 0 {
                assert(entries[a] == second[0]);
                assert(pairs[a].value == V1ValueView::Config(second[0].value));
            }
            if third.len() > 0 {
                assert(entries[b] == third[0]);
                assert(pairs[b].value == V1ValueView::Config(third[0].value));
            }
            if fourth.len() > 0 {
                assert(entries[c] == fourth[0]);
                assert(pairs[c].value == V1ValueView::Config(fourth[0].value));
            }
        },
        None => {},
    }
}

/// Only the four kinds that have a v1 form are converted; a specification that could not be
/// read is an error, never an empty answer.
pub proof fn law_unread_specs_are_errors(
    kind: ResourceKind,
    key: KeyView,
    decoded: Result<DecodedSpecView, Seq<char>>,
)
    ensures
        decoded is Err ==> processed(kind, key, decoded) is Err,
        key !is Resource ==> processed(kind, key, decoded) is Err,
        processed(kind, key, decoded) is Ok ==> (match kind {
            ResourceKind::NetworkPolicy => decoded matches Ok(DecodedSpecView::NetworkPolicy(_)),
            ResourceKind::IpPool => decoded matches Ok(DecodedSpecView::IpPool(_)),
            ResourceKind::WorkloadEndpoint => decoded matches Ok(
                DecodedSpecView::WorkloadEndpoint(_),
            ),
            ResourceKind::FelixConfiguration => decoded matches Ok(
                DecodedSpecView::FelixConfiguration(_),
            ),
            _ => false,
        }),
        decoded is Err ==> (processed(kind, key, decoded) matches Err(
            ProcessErrorView::Deserialize(e),
        ) ==> e == decoded->Err_0),
{
}

/// The networks of a family are those of the endpoint that have its form, in their order.
pub proof fn law_families_keep_their_order(nets: Seq<Seq<char>>)
    ensures
        family_first(nets, true, nets.len()) == nets.filter(|n: Seq<char>| n.contains(':')),
        family_first(nets, false, nets.len()) == nets.filter(|n: Seq<char>| !n.contains(':')),
{
    lemma_families_filter(nets, nets.len());
    assert(nets.take(nets.len() as int) =~= nets);
}

/// The same of the first `n` networks.
proof fn lemma_families_filter(nets: Seq<Seq<char>>, n: nat)
    requires
        n <= nets.len(),
    ensures
        family_first(nets, true, n) == nets.take(n as int).filter(
            |n: Seq<char>| n.contains(':'),
        ),
        family_first(nets, false, n) == nets.take(n as int).filter(
            |n: Seq<char>| !n.contains(':'),
        ),
    decreases n,
{
    reveal(Seq::filter);
    if n > 0 {
        lemma_families_filter(nets, (n - 1) as nat);
        assert(nets.take(n as int).drop_last() =~= nets.take(n - 1));
    }
}

/// The ports of a v1 endpoint are the named ports of the endpoint, in their order.
pub proof fn law_named_ports_keep_their_order(ports: Seq<WorkloadPortView>, i: int)
    requires
        0 <= i < named_ports_first(ports, ports.len()).len(),
    ensures
        ({
            let named = ports.filter(|p: WorkloadPortView| p.name.len() > 0);
            let out = named_ports_first(ports, ports.len());
            &&& out.len() == named.len()
            &&& out[i].name == named[i].name
            &&& out[i].port == named[i].port
            &&& out[i].protocol == lowercase(named[i].protocol)
        }),
{
    lemma_named_filter(ports, ports.len());
    assert(ports.take(ports.len() as int) =~= ports);
}

/// The same of the first `n` ports.
proof fn lemma_named_filter(ports: Seq<WorkloadPortView>, n: nat)
    requires
        n <= ports.len(),
    ensures
        ({
            let named = ports.take(n as int).filter(|p: WorkloadPortView| p.name.len() > 0);
            let out = named_ports_first(ports, n);
            &&& out.len() == named.len()
            &&& forall|i: int|
                0 <= i < out.len() ==> (#[trigger] out[i]).name == named[i].name && out[i].port
                    == named[i].port && out[i].protocol == lowercase(named[i].protocol)
        }),
    decreases n,
{
    reveal(Seq::filter);
    if n > 0 {
        lemma_named_filter(ports, (n - 1) as nat);
        assert(ports.take(n as int).drop_last() =~= ports.take(n - 1));
    }
}

} // verus!
