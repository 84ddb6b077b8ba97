//! The messages that the policy calculation sends to the dataplane.

use crate::ordmap::{lemma_text_irreflexive, lemma_text_total, lemma_text_transitive, text_less, text_precedes, MapKey};
use crate::text::str_eq;
use vstd::prelude::*;

verus! {

/// The identity of an IP set.
pub type IpSetId = String;

/// What the members of an IP set are.
#[derive(Debug, Clone, Copy, PartialEq, Eq, Structural)]
pub enum IpSetKind {
    /// Bare addresses.
    Ip,
    /// Address blocks in CIDR form.
    Net,
    /// An address together with a port.
    IpAndPort,
}

impl DeepView for IpSetKind {
    type V = IpSetKind;

    open spec fn deep_view(&self) -> IpSetKind {
        *self
    }
}

/// The full membership of one IP set.
#[derive(Debug, PartialEq, Eq)]
pub struct IpSetUpdate {
    /// The set.
    pub id: String,
    /// What its members are.
    pub kind: IpSetKind,
    /// All its members.
    pub members: Vec<String>,
}

/// The mathematical content of a [`IpSetUpdate`].
#[verifier::ext_equal]
pub struct IpSetUpdateView {
    pub id: Seq<char>,
    pub kind: IpSetKind,
    pub members: Seq<Seq<char>>,
}

impl DeepView for IpSetUpdate {
    type V = IpSetUpdateView;

    open spec fn deep_view(&self) -> IpSetUpdateView {
        IpSetUpdateView {
            id: self.id.deep_view(),
            kind: self.kind,
            members: self.members.deep_view(),
        }
    }
}

impl Clone for IpSetUpdate {
    fn clone(&self) -> (r: Self)
        ensures
            r.deep_view() == self.deep_view(),
    {
        let r = IpSetUpdate {
            id: self.id.clone(),
            kind: self.kind,
            members: self.members.clone(),
        };
        assert(r.deep_view() =~= self.deep_view());
        r
    }
}

/// A change of the membership of one IP set.
#[derive(Debug, PartialEq, Eq)]
pub struct IpSetDeltaUpdate {
    /// The set.
    pub id: String,
    /// Members to add.
    pub added_members: Vec<String>,
    /// Members to take out, after the additions.
    pub removed_members: Vec<String>,
}

/// The mathematical content of a [`IpSetDeltaUpdate`].
#[verifier::ext_equal]
pub struct IpSetDeltaUpdateView {
    pub id: Seq<char>,
    pub added_members: Seq<Seq<char>>,
    pub removed_members: Seq<Seq<char>>,
}

impl DeepView for IpSetDeltaUpdate {
    type V = IpSetDeltaUpdateView;

    open spec fn deep_view(&self) -> IpSetDeltaUpdateView {
        IpSetDeltaUpdateView {
            id: self.id.deep_view(),
            added_members: self.added_members.deep_view(),
            removed_members: self.removed_members.deep_view(),
        }
    }
}

impl Clone for IpSetDeltaUpdate {
    fn clone(&self) -> (r: Self)
        ensures
            r.deep_view() == self.deep_view(),
    {
        let r = IpSetDeltaUpdate {
            id: self.id.clone(),
            added_members: self.added_members.clone(),
            removed_members: self.removed_members.clone(),
        };
        assert(r.deep_view() =~= self.deep_view());
        r
    }
}

/// What a matched policy rule does.
#[derive(Debug, Clone, Copy, PartialEq, Eq, Structural)]
pub enum RuleAction {
    /// Let the packet pass this direction.
    Allow,
    /// Drop the packet.
    Deny,
    /// Go on with the next tier or the profiles.
    Pass,
    /// Log the packet.
    Log,
}

impl DeepView for RuleAction {
    type V = RuleAction;

    open spec fn deep_view(&self) -> RuleAction {
        *self
    }
}

/// One rule of a policy, its selectors resolved to IP sets.
#[derive(Debug, PartialEq, Eq)]
pub struct PolicyRule {
    /// What the rule does; a rule without an action has no effect.
    pub action_field: Option<RuleAction>,
    /// The transport protocol that it matches.
    pub protocol: Option<String>,
    /// Source blocks.
    pub src_nets: Vec<String>,
    /// Destination blocks.
    pub dst_nets: Vec<String>,
    /// Source ports.
    pub src_ports: Vec<u16>,
    /// Destination ports.
    pub dst_ports: Vec<u16>,
    /// IP sets of sources.
    pub src_ip_set_ids: Vec<String>,
    /// IP sets of destinations.
    pub dst_ip_set_ids: Vec<String>,
    /// A label for the rule.
    pub rule_id: Option<String>,
}

/// The mathematical content of a [`PolicyRule`].
#[verifier::ext_equal]
pub struct PolicyRuleView {
    pub action_field: Option<RuleAction>,
    pub protocol: Option<Seq<char>>,
    pub src_nets: Seq<Seq<char>>,
    pub dst_nets: Seq<Seq<char>>,
    pub src_ports: Seq<u16>,
    pub dst_ports: Seq<u16>,
    pub src_ip_set_ids: Seq<Seq<char>>,
    pub dst_ip_set_ids: Seq<Seq<char>>,
    pub rule_id: Option<Seq<char>>,
}

impl DeepView for PolicyRule {
    type V = PolicyRuleView;

    open spec fn deep_view(&self) -> PolicyRuleView {
        PolicyRuleView {
            action_field: self.action_field.deep_view(),
            protocol: self.protocol.deep_view(),
            src_nets: self.src_nets.deep_view(),
            dst_nets: self.dst_nets.deep_view(),
            src_ports: self.src_ports.deep_view(),
            dst_ports: self.dst_ports.deep_view(),
            src_ip_set_ids: self.src_ip_set_ids.deep_view(),
            dst_ip_set_ids: self.dst_ip_set_ids.deep_view(),
            rule_id: self.rule_id.deep_view(),
        }
    }
}

impl Clone for PolicyRule {
    fn clone(&self) -> (r: Self)
        ensures
            r.deep_view() == self.deep_view(),
    {
        let r = PolicyRule {
            action_field: self.action_field.clone(),
            protocol: self.protocol.clone(),
            src_nets: self.src_nets.clone(),
            dst_nets: self.dst_nets.clone(),
            src_ports: self.src_ports.clone(),
            dst_ports: self.dst_ports.clone(),
            src_ip_set_ids: self.src_ip_set_ids.clone(),
            dst_ip_set_ids: self.dst_ip_set_ids.clone(),
            rule_id: self.rule_id.clone(),
        };
        assert(r.deep_view() =~= self.deep_view());
        r
    }
}

impl Default for PolicyRule {
    fn default() -> (r: Self)
        ensures
            r.action_field is None,
            r.protocol is None,
            r.src_nets@.len() == 0,
            r.dst_nets@.len() == 0,
            r.src_ports@.len() == 0,
            r.dst_ports@.len() == 0,
            r.src_ip_set_ids@.len() == 0,
            r.dst_ip_set_ids@.len() == 0,
            r.rule_id is None,
    {
        PolicyRule {
            action_field: None,
            protocol: None,
            src_nets: Vec::new(),
            dst_nets: Vec::new(),
            src_ports: Vec::new(),
            dst_ports: Vec::new(),
            src_ip_set_ids: Vec::new(),
            dst_ip_set_ids: Vec::new(),
            rule_id: None,
        }
    }
}

impl PolicyRule {
    /// A rule that matches every packet.
    pub fn action(action: RuleAction) -> (r: Self)
        ensures
            r.action_field == Some(action),
            r.protocol is None,
            r.src_nets@.len() == 0,
            r.dst_nets@.len() == 0,
            r.src_ports@.len() == 0,
            r.dst_ports@.len() == 0,
            r.src_ip_set_ids@.len() == 0,
            r.dst_ip_set_ids@.len() == 0,
            r.rule_id is None,
    {
        let mut r = PolicyRule::default();
        r.action_field = Some(action);
        r
    }
}

/// The rules of a policy or of a profile.
#[derive(Debug, PartialEq, Eq)]
pub struct Policy {
    /// Rules for traffic to the endpoint.
    pub inbound_rules: Vec<PolicyRule>,
    /// Rules for traffic from the endpoint.
    pub outbound_rules: Vec<PolicyRule>,
}

/// The mathematical content of a [`Policy`].
#[verifier::ext_equal]
pub struct PolicyView {
    pub inbound_rules: Seq<PolicyRuleView>,
    pub outbound_rules: Seq<PolicyRuleView>,
}

impl DeepView for Policy {
    type V = PolicyView;

    open spec fn deep_view(&self) -> PolicyView {
        PolicyView {
            inbound_rules: self.inbound_rules.deep_view(),
            outbound_rules: self.outbound_rules.deep_view(),
        }
    }
}

impl Clone for Policy {
    fn clone(&self) -> (r: Self)
        ensures
            r.deep_view() == self.deep_view(),
    {
        let r = Policy {
            inbound_rules: self.inbound_rules.clone(),
            outbound_rules: self.outbound_rules.clone(),
        };
        assert(r.deep_view() =~= self.deep_view());
        r
    }
}

impl Default for Policy {
    fn default() -> (r: Self)
        ensures
            r.inbound_rules@.len() == 0,
            r.outbound_rules@.len() == 0,
    {
        Policy {
            inbound_rules: Vec::new(),
            outbound_rules: Vec::new(),
        }
    }
}

/// The identity of a policy.
#[derive(Debug, PartialEq, Eq)]
pub struct PolicyId {
    /// Its tier.
    pub tier: String,
    /// Its name.
    pub name: String,
}

/// The mathematical content of a [`PolicyId`].
#[verifier::ext_equal]
pub struct PolicyIdView {
    pub tier: Seq<char>,
    pub name: Seq<char>,
}

impl DeepView for PolicyId {
    type V = PolicyIdView;

    open spec fn deep_view(&self) -> PolicyIdView {
        PolicyIdView {
            tier: self.tier.deep_view(),
            name: self.name.deep_view(),
        }
    }
}

impl Clone for PolicyId {
    fn clone(&self) -> (r: Self)
        ensures
            r.deep_view() == self.deep_view(),
    {
        let r = PolicyId {
            tier: self.tier.clone(),
            name: self.name.clone(),
        };
        assert(r.deep_view() =~= self.deep_view());
        r
    }
}

/// The policies of one tier that select an endpoint.
#[derive(Debug, PartialEq, Eq)]
pub struct TierInfo {
    /// The tier.
    pub name: String,
    /// Policies for traffic to the endpoint, in order.
    pub ingress_policies: Vec<String>,
    /// Policies for traffic from the endpoint, in order.
    pub egress_policies: Vec<String>,
}

/// The mathematical content of a [`TierInfo`].
#[verifier::ext_equal]
pub struct TierInfoView {
    pub name: Seq<char>,
    pub ingress_policies: Seq<Seq<char>>,
    pub egress_policies: Seq<Seq<char>>,
}

impl DeepView for TierInfo {
    type V = TierInfoView;

    open spec fn deep_view(&self) -> TierInfoView {
        TierInfoView {
            name: self.name.deep_view(),
            ingress_policies: self.ingress_policies.deep_view(),
            egress_policies: self.egress_policies.deep_view(),
        }
    }
}

impl Clone for TierInfo {
    fn clone(&self) -> (r: Self)
        ensures
            r.deep_view() == self.deep_view(),
    {
        let r = TierInfo {
            name: self.name.clone(),
            ingress_policies: self.ingress_policies.clone(),
            egress_policies: self.egress_policies.clone(),
        };
        assert(r.deep_view() =~= self.deep_view());
        r
    }
}

/// A workload endpoint on this node.
#[derive(Debug, PartialEq, Eq)]
pub struct WorkloadEndpoint {
    /// Its interface.
    pub name: String,
    /// The tiers whose policies select it, in order.
    pub tiers: Vec<TierInfo>,
    /// Its profiles, in order.
    pub profile_ids: Vec<String>,
    /// Its addresses.
    pub ipv4_nets: Vec<String>,
}

/// The mathematical content of a [`WorkloadEndpoint`].
#[verifier::ext_equal]
pub struct WorkloadEndpointView {
    pub name: Seq<char>,
    pub tiers: Seq<TierInfoView>,
    pub profile_ids: Seq<Seq<char>>,
    pub ipv4_nets: Seq<Seq<char>>,
}

impl DeepView for WorkloadEndpoint {
    type V = WorkloadEndpointView;

    open spec fn deep_view(&self) -> WorkloadEndpointView {
        WorkloadEndpointView {
            name: self.name.deep_view(),
            tiers: self.tiers.deep_view(),
            profile_ids: self.profile_ids.deep_view(),
            ipv4_nets: self.ipv4_nets.deep_view(),
        }
    }
}

impl Clone for WorkloadEndpoint {
    fn clone(&self) -> (r: Self)
        ensures
            r.deep_view() == self.deep_view(),
    {
        let r = WorkloadEndpoint {
            name: self.name.clone(),
            tiers: self.tiers.clone(),
            profile_ids: self.profile_ids.clone(),
            ipv4_nets: self.ipv4_nets.clone(),
        };
        assert(r.deep_view() =~= self.deep_view());
        r
    }
}

impl Default for WorkloadEndpoint {
    fn default() -> (r: Self)
        ensures
            r.name@.len() == 0,
            r.tiers@.len() == 0,
            r.profile_ids@.len() == 0,
            r.ipv4_nets@.len() == 0,
    {
        WorkloadEndpoint {
            name: String::new(),
            tiers: Vec::new(),
            profile_ids: Vec::new(),
            ipv4_nets: Vec::new(),
        }
    }
}

/// The identity of a workload endpoint.
#[derive(Debug, PartialEq, Eq)]
pub struct WorkloadEndpointId {
    /// The orchestrator.
    pub orchestrator: String,
    /// The workload.
    pub workload: String,
    /// The endpoint within the workload.
    pub endpoint: String,
}

/// The mathematical content of a [`WorkloadEndpointId`].
#[verifier::ext_equal]
pub struct WorkloadEndpointIdView {
    pub orchestrator: Seq<char>,
    pub workload: Seq<char>,
    pub endpoint: Seq<char>,
}

impl DeepView for WorkloadEndpointId {
    type V = WorkloadEndpointIdView;

    open spec fn deep_view(&self) -> WorkloadEndpointIdView {
        WorkloadEndpointIdView {
            orchestrator: self.orchestrator.deep_view(),
            workload: self.workload.deep_view(),
            endpoint: self.endpoint.deep_view(),
        }
    }
}

impl Clone for WorkloadEndpointId {
    fn clone(&self) -> (r: Self)
        ensures
            r.deep_view() == self.deep_view(),
    {
        let r = WorkloadEndpointId {
            orchestrator: self.orchestrator.clone(),
            workload: self.workload.clone(),
            endpoint: self.endpoint.clone(),
        };
        assert(r.deep_view() =~= self.deep_view());
        r
    }
}

/// What a route leads to.
#[derive(Debug, Clone, Copy, PartialEq, Eq, Structural)]
pub enum RouteType {
    /// A workload on this node.
    LocalWorkload,
    /// A workload on another node.
    RemoteWorkload,
    /// This node.
    LocalHost,
    /// Another node.
    RemoteHost,
}

impl DeepView for RouteType {
    type V = RouteType;

    open spec fn deep_view(&self) -> RouteType {
        *self
    }
}

/// One desired route.
#[derive(Debug, PartialEq, Eq)]
pub struct RouteUpdate {
    /// What it leads to.
    pub route_type: RouteType,
    /// Its destination in CIDR form.
    pub dst: String,
    /// The node that owns the destination.
    pub dst_node_name: Option<String>,
    /// The next hop; none for a connected route.
    pub gateway: Option<String>,
}

/// The mathematical content of a [`RouteUpdate`].
#[verifier::ext_equal]
pub struct RouteUpdateView {
    pub route_type: RouteType,
    pub dst: Seq<char>,
    pub dst_node_name: Option<Seq<char>>,
    pub gateway: Option<Seq<char>>,
}

impl DeepView for RouteUpdate {
    type V = RouteUpdateView;

    open spec fn deep_view(&self) -> RouteUpdateView {
        RouteUpdateView {
            route_type: self.route_type,
            dst: self.dst.deep_view(),
            dst_node_name: self.dst_node_name.deep_view(),
            gateway: self.gateway.deep_view(),
        }
    }
}

impl Clone for RouteUpdate {
    fn clone(&self) -> (r: Self)
        ensures
            r.deep_view() == self.deep_view(),
    {
        let r = RouteUpdate {
            route_type: self.route_type,
            dst: self.dst.clone(),
            dst_node_name: self.dst_node_name.clone(),
            gateway: self.gateway.clone(),
        };
        assert(r.deep_view() =~= self.deep_view());
        r
    }
}

/// A message to the dataplane.
#[allow(inconsistent_fields)]
#[derive(Debug, PartialEq, Eq)]
pub enum ToDataplane {
    /// The datastore has been read completely.
    InSync,
    /// The full membership of an IP set.
    IpSetUpdate(IpSetUpdate),
    /// A change of the membership of an IP set.
    IpSetDeltaUpdate(IpSetDeltaUpdate),
    /// An IP set is gone.
    IpSetRemove(String),
    /// A policy that some local endpoint uses.
    ActivePolicyUpdate { id: PolicyId, policy: Policy },
    /// No local endpoint uses the policy any more.
    ActivePolicyRemove(PolicyId),
    /// A profile that some local endpoint uses.
    ActiveProfileUpdate { id: String, profile: Policy },
    /// No local endpoint uses the profile any more.
    ActiveProfileRemove(String),
    /// A local endpoint.
    WorkloadEndpointUpdate { id: WorkloadEndpointId, endpoint: WorkloadEndpoint },
    /// A local endpoint is gone.
    WorkloadEndpointRemove(WorkloadEndpointId),
    /// A desired route.
    RouteUpdate(RouteUpdate),
    /// The route to a destination is gone.
    RouteRemove(String),
}

/// The mathematical content of a [`ToDataplane`].
#[allow(inconsistent_fields)]
#[verifier::ext_equal]
pub enum ToDataplaneView {
    InSync,
    IpSetUpdate(IpSetUpdateView),
    IpSetDeltaUpdate(IpSetDeltaUpdateView),
    IpSetRemove(Seq<char>),
    ActivePolicyUpdate { id: PolicyIdView, policy: PolicyView },
    ActivePolicyRemove(PolicyIdView),
    ActiveProfileUpdate { id: Seq<char>, profile: PolicyView },
    ActiveProfileRemove(Seq<char>),
    WorkloadEndpointUpdate { id: WorkloadEndpointIdView, endpoint: WorkloadEndpointView },
    WorkloadEndpointRemove(WorkloadEndpointIdView),
    RouteUpdate(RouteUpdateView),
    RouteRemove(Seq<char>),
}

impl DeepView for ToDataplane {
    type V = ToDataplaneView;

    open spec fn deep_view(&self) -> ToDataplaneView {
        match self {
            ToDataplane::InSync => ToDataplaneView::InSync,
            ToDataplane::IpSetUpdate(a) => ToDataplaneView::IpSetUpdate(a.deep_view()),
            ToDataplane::IpSetDeltaUpdate(a) => ToDataplaneView::IpSetDeltaUpdate(a.deep_view()),
            ToDataplane::IpSetRemove(a) => ToDataplaneView::IpSetRemove(a.deep_view()),
            ToDataplane::ActivePolicyUpdate { id, policy } => ToDataplaneView::ActivePolicyUpdate { id: id.deep_view(), policy: policy.deep_view() },
            ToDataplane::ActivePolicyRemove(a) => ToDataplaneView::ActivePolicyRemove(a.deep_view()),
            ToDataplane::ActiveProfileUpdate { id, profile } => ToDataplaneView::ActiveProfileUpdate { id: id.deep_view(), profile: profile.deep_view() },
            ToDataplane::ActiveProfileRemove(a) => ToDataplaneView::ActiveProfileRemove(a.deep_view()),
            ToDataplane::WorkloadEndpointUpdate { id, endpoint } => ToDataplaneView::WorkloadEndpointUpdate { id: id.deep_view(), endpoint: endpoint.deep_view() },
            ToDataplane::WorkloadEndpointRemove(a) => ToDataplaneView::WorkloadEndpointRemove(a.deep_view()),
            ToDataplane::RouteUpdate(a) => ToDataplaneView::RouteUpdate(a.deep_view()),
            ToDataplane::RouteRemove(a) => ToDataplaneView::RouteRemove(a.deep_view()),
        }
    }
}

impl Clone for ToDataplane {
    fn clone(&self) -> (r: Self)
        ensures
            r.deep_view() == self.deep_view(),
    {
        let r = match self {
            ToDataplane::InSync => ToDataplane::InSync,
            ToDataplane::IpSetUpdate(a) => ToDataplane::IpSetUpdate(a.clone()),
            ToDataplane::IpSetDeltaUpdate(a) => ToDataplane::IpSetDeltaUpdate(a.clone()),
            ToDataplane::IpSetRemove(a) => ToDataplane::IpSetRemove(a.clone()),
            ToDataplane::ActivePolicyUpdate { id, policy } => ToDataplane::ActivePolicyUpdate { id: id.clone(), policy: policy.clone() },
            ToDataplane::ActivePolicyRemove(a) => ToDataplane::ActivePolicyRemove(a.clone()),
            ToDataplane::ActiveProfileUpdate { id, profile } => ToDataplane::ActiveProfileUpdate { id: id.clone(), profile: profile.clone() },
            ToDataplane::ActiveProfileRemove(a) => ToDataplane::ActiveProfileRemove(a.clone()),
            ToDataplane::WorkloadEndpointUpdate { id, endpoint } => ToDataplane::WorkloadEndpointUpdate { id: id.clone(), endpoint: endpoint.clone() },
            ToDataplane::WorkloadEndpointRemove(a) => ToDataplane::WorkloadEndpointRemove(a.clone()),
            ToDataplane::RouteUpdate(a) => ToDataplane::RouteUpdate(a.clone()),
            ToDataplane::RouteRemove(a) => ToDataplane::RouteRemove(a.clone()),
        };
        assert(r.deep_view() =~= self.deep_view());
        r
    }
}

/// A message from the dataplane.
#[derive(Debug, Clone, Copy, PartialEq, Eq, Structural)]
pub enum FromDataplane {
    /// The dataplane has applied everything that it was told.
    InSync,
}

impl DeepView for FromDataplane {
    type V = FromDataplane;

    open spec fn deep_view(&self) -> FromDataplane {
        *self
    }
}

impl MapKey for PolicyId {
    open spec fn less(a: PolicyIdView, b: PolicyIdView) -> bool {
        if a.tier != b.tier {
            text_less(a.tier, b.tier)
        } else {
            text_less(a.name, b.name)
        }
    }

    proof fn less_irreflexive(a: PolicyIdView) {
        lemma_text_irreflexive(a.name);
    }

    proof fn less_transitive(a: PolicyIdView, b: PolicyIdView, c: PolicyIdView) {
        if a.tier == b.tier && b.tier == c.tier {
            lemma_text_transitive(a.name, b.name, c.name);
        } else if a.tier != b.tier && b.tier != c.tier {
            lemma_text_transitive(a.tier, b.tier, c.tier);
            lemma_text_irreflexive(a.tier);
        }
    }

    proof fn less_total(a: PolicyIdView, b: PolicyIdView) {
        if a.tier != b.tier {
            lemma_text_total(a.tier, b.tier);
        } else {
            lemma_text_total(a.name, b.name);
        }
    }

    fn precedes(&self, other: &PolicyId) -> (r: bool) {
        if !str_eq(self.tier.as_str(), other.tier.as_str()) {
            text_precedes(self.tier.as_str(), other.tier.as_str())
        } else {
            text_precedes(self.name.as_str(), other.name.as_str())
        }
    }

    fn same(&self, other: &PolicyId) -> (r: bool) {
        str_eq(self.tier.as_str(), other.tier.as_str()) && str_eq(
            self.name.as_str(),
            other.name.as_str(),
        )
    }
}

impl MapKey for WorkloadEndpointId {
    open spec fn less(a: WorkloadEndpointIdView, b: WorkloadEndpointIdView) -> bool {
        if a.orchestrator != b.orchestrator {
            text_less(a.orchestrator, b.orchestrator)
        } else if a.workload != b.workload {
            text_less(a.workload, b.workload)
        } else {
            text_less(a.endpoint, b.endpoint)
        }
    }

    proof fn less_irreflexive(a: WorkloadEndpointIdView) {
        lemma_text_irreflexive(a.endpoint);
    }

    proof fn less_transitive(
        a: WorkloadEndpointIdView,
        b: WorkloadEndpointIdView,
        c: WorkloadEndpointIdView,
    ) {
        lemma_text_irreflexive(a.orchestrator);
        lemma_text_irreflexive(a.workload);
        if a.orchestrator != b.orchestrator {
            if b.orchestrator != c.orchestrator {
                lemma_text_transitive(a.orchestrator, b.orchestrator, c.orchestrator);
            }
        } else if b.orchestrator == c.orchestrator {
            if a.workload != b.workload {
                if b.workload != c.workload {
                    lemma_text_transitive(a.workload, b.workload, c.workload);
                }
            } else if b.workload == c.workload {
                lemma_text_transitive(a.endpoint, b.endpoint, c.endpoint);
            }
        }
    }

    proof fn less_total(a: WorkloadEndpointIdView, b: WorkloadEndpointIdView) {
        if a.orchestrator != b.orchestrator {
            lemma_text_total(a.orchestrator, b.orchestrator);
        } else if a.workload != b.workload {
            lemma_text_total(a.workload, b.workload);
        } else {
            lemma_text_total(a.endpoint, b.endpoint);
        }
    }

    fn precedes(&self, other: &WorkloadEndpointId) -> (r: bool) {
        if !str_eq(self.orchestrator.as_str(), other.orchestrator.as_str()) {
            text_precedes(self.orchestrator.as_str(), other.orchestrator.as_str())
        } else if !str_eq(self.workload.as_str(), other.workload.as_str()) {
            text_precedes(self.workload.as_str(), other.workload.as_str())
        } else {
            text_precedes(self.endpoint.as_str(), other.endpoint.as_str())
        }
    }

    fn same(&self, other: &WorkloadEndpointId) -> (r: bool) {
        str_eq(self.orchestrator.as_str(), other.orchestrator.as_str()) && str_eq(
            self.workload.as_str(),
            other.workload.as_str(),
        ) && str_eq(self.endpoint.as_str(), other.endpoint.as_str())
    }
}

} // verus!
