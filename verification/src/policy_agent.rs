//! The policy agent: what an update of the datastore means for the policy calculation.
//!
//! Only policies, profiles, workload endpoints, network sets and tiers matter. An endpoint
//! is known to the calculation by its interface, since that is what its chains hook. A
//! policy is handed on confined to the namespaces that it governs.

use crate::cas::CasError;
use crate::model::{Key, KeyView, ResourceKind};
use crate::ordmap::Labels;
use crate::policy_scope::{
    has_namespace, law_own_namespace_keeps_the_rest, law_selected_namespaces_keep_the_rest,
    own_namespace_only, same_flows, scope_global_network_policy, scope_network_policy,
    selected_namespaces_only,
};
use crate::resources::{
    GlobalNetworkPolicySpec, GlobalNetworkPolicySpecView, NetworkPolicySpec, NetworkPolicySpecView,
    NetworkSetSpec, NetworkSetSpecView, ProfileSpec, ProfileSpecView, TierSpec, TierSpecView,
    WorkloadEndpointSpec, WorkloadEndpointSpecView,
};
use crate::syncer::{SyncStatus, SyncerEvent, SyncerEventView, UpdateType};
use crate::text::{contains_char, views};
use crate::updateprocessors::{confined, Flow, Party};
use vstd::prelude::*;

verus! {

broadcast use crate::text::lemma_views_push;

/// The specification of a resource, read.
#[derive(Debug, PartialEq, Eq)]
pub enum AgentSpec {
    /// A network policy.
    NetworkPolicy(NetworkPolicySpec),
    /// A network policy for all namespaces.
    GlobalNetworkPolicy(GlobalNetworkPolicySpec),
    /// A profile.
    Profile(ProfileSpec),
    /// A workload endpoint.
    WorkloadEndpoint(WorkloadEndpointSpec),
    /// A network set.
    NetworkSet(NetworkSetSpec),
    /// A tier.
    Tier(TierSpec),
}

/// The mathematical content of a [`AgentSpec`].
#[verifier::ext_equal]
pub enum AgentSpecView {
    NetworkPolicy(NetworkPolicySpecView),
    GlobalNetworkPolicy(GlobalNetworkPolicySpecView),
    Profile(ProfileSpecView),
    WorkloadEndpoint(WorkloadEndpointSpecView),
    NetworkSet(NetworkSetSpecView),
    Tier(TierSpecView),
}

impl DeepView for AgentSpec {
    type V = AgentSpecView;

    open spec fn deep_view(&self) -> AgentSpecView {
        match self {
            AgentSpec::NetworkPolicy(a) => AgentSpecView::NetworkPolicy(a.deep_view()),
            AgentSpec::GlobalNetworkPolicy(a) => AgentSpecView::GlobalNetworkPolicy(a.deep_view()),
            AgentSpec::Profile(a) => AgentSpecView::Profile(a.deep_view()),
            AgentSpec::WorkloadEndpoint(a) => AgentSpecView::WorkloadEndpoint(a.deep_view()),
            AgentSpec::NetworkSet(a) => AgentSpecView::NetworkSet(a.deep_view()),
            AgentSpec::Tier(a) => AgentSpecView::Tier(a.deep_view()),
        }
    }
}

impl Clone for AgentSpec {
    fn clone(&self) -> (r: Self)
        ensures
            r.deep_view() == self.deep_view(),
    {
        let r = match self {
            AgentSpec::NetworkPolicy(a) => AgentSpec::NetworkPolicy(a.clone()),
            AgentSpec::GlobalNetworkPolicy(a) => AgentSpec::GlobalNetworkPolicy(a.clone()),
            AgentSpec::Profile(a) => AgentSpec::Profile(a.clone()),
            AgentSpec::WorkloadEndpoint(a) => AgentSpec::WorkloadEndpoint(a.clone()),
            AgentSpec::NetworkSet(a) => AgentSpec::NetworkSet(a.clone()),
            AgentSpec::Tier(a) => AgentSpec::Tier(a.clone()),
        };
        assert(r.deep_view() =~= self.deep_view());
        r
    }
}

/// An update for the policy calculation.
#[allow(inconsistent_fields)]
#[derive(Debug, PartialEq, Eq)]
pub enum ResourceUpdate {
    /// A policy.
    Policy { id: String, spec: NetworkPolicySpec, remove: bool },
    /// A profile.
    Profile { id: String, spec: ProfileSpec, remove: bool },
    /// A workload endpoint.
    WorkloadEndpoint { id: String, node: String, labels: Labels, profiles: Vec<String>, ipnets: Vec<String>, remove: bool },
    /// A network set.
    NetworkSet { id: String, labels: Labels, nets: Vec<String>, remove: bool },
    /// A tier.
    Tier { name: String, order: Option<u64>, remove: bool },
}

/// The mathematical content of a [`ResourceUpdate`].
#[allow(inconsistent_fields)]
#[verifier::ext_equal]
pub enum ResourceUpdateView {
    Policy { id: Seq<char>, spec: NetworkPolicySpecView, remove: bool },
    Profile { id: Seq<char>, spec: ProfileSpecView, remove: bool },
    WorkloadEndpoint { id: Seq<char>, node: Seq<char>, labels: Seq<(Seq<char>, Seq<char>)>, profiles: Seq<Seq<char>>, ipnets: Seq<Seq<char>>, remove: bool },
    NetworkSet { id: Seq<char>, labels: Seq<(Seq<char>, Seq<char>)>, nets: Seq<Seq<char>>, remove: bool },
    Tier { name: Seq<char>, order: Option<u64>, remove: bool },
}

impl DeepView for ResourceUpdate {
    type V = ResourceUpdateView;

    open spec fn deep_view(&self) -> ResourceUpdateView {
        match self {
            ResourceUpdate::Policy { id, spec, remove } => ResourceUpdateView::Policy { id: id.deep_view(), spec: spec.deep_view(), remove: *remove },
            ResourceUpdate::Profile { id, spec, remove } => ResourceUpdateView::Profile { id: id.deep_view(), spec: spec.deep_view(), remove: *remove },
            ResourceUpdate::WorkloadEndpoint { id, node, labels, profiles, ipnets, remove } => ResourceUpdateView::WorkloadEndpoint { id: id.deep_view(), node: node.deep_view(), labels: labels.deep_view(), profiles: profiles.deep_view(), ipnets: ipnets.deep_view(), remove: *remove },
            ResourceUpdate::NetworkSet { id, labels, nets, remove } => ResourceUpdateView::NetworkSet { id: id.deep_view(), labels: labels.deep_view(), nets: nets.deep_view(), remove: *remove },
            ResourceUpdate::Tier { name, order, remove } => ResourceUpdateView::Tier { name: name.deep_view(), order: order.deep_view(), remove: *remove },
        }
    }
}

impl Clone for ResourceUpdate {
    fn clone(&self) -> (r: Self)
        ensures
            r.deep_view() == self.deep_view(),
    {
        let r = match self {
            ResourceUpdate::Policy { id, spec, remove } => ResourceUpdate::Policy { id: id.clone(), spec: spec.clone(), remove: *remove },
            ResourceUpdate::Profile { id, spec, remove } => ResourceUpdate::Profile { id: id.clone(), spec: spec.clone(), remove: *remove },
            ResourceUpdate::WorkloadEndpoint { id, node, labels, profiles, ipnets, remove } => ResourceUpdate::WorkloadEndpoint { id: id.clone(), node: node.clone(), labels: labels.clone(), profiles: profiles.clone(), ipnets: ipnets.clone(), remove: *remove },
            ResourceUpdate::NetworkSet { id, labels, nets, remove } => ResourceUpdate::NetworkSet { id: id.clone(), labels: labels.clone(), nets: nets.clone(), remove: *remove },
            ResourceUpdate::Tier { name, order, remove } => ResourceUpdate::Tier { name: name.clone(), order: order.clone(), remove: *remove },
        };
        assert(r.deep_view() =~= self.deep_view());
        r
    }
}

/// An address in CIDR form.
pub open spec fn cidr_form(addr: Seq<char>) -> Seq<char> {
    if addr.contains('/') {
        addr
    } else if addr.contains(':') {
        addr + "/128"@
    } else {
        addr + "/32"@
    }
}

/// An address in CIDR form: a bare address becomes the block of that address alone.
pub fn normalize_cidr(addr: &str) -> (r: String)
    ensures
        r@ == cidr_form(addr@),
{
    let mut s = addr.to_owned();
    if !contains_char(addr, '/') {
        if contains_char(addr, ':') {
            s.push_str("/128");
        } else {
            s.push_str("/32");
        }
    }
    s
}

/// Bringing an address to CIDR form twice changes nothing more.
pub proof fn law_cidr_form_is_stable(addr: Seq<char>)
    ensures
        cidr_form(cidr_form(addr)) == cidr_form(addr),
        cidr_form(addr).contains('/'),
{
    reveal_strlit("/128");
    reveal_strlit("/32");
    let c = cidr_form(addr);
    if !addr.contains('/') {
        assert(c[addr.len() as int] == '/');
    }
}

/// The fields that a policy for all namespaces shares with a network policy.
pub open spec fn shared_fields(gnp: GlobalNetworkPolicySpecView) -> NetworkPolicySpecView {
    NetworkPolicySpecView {
        tier: gnp.tier,
        order: gnp.order,
        selector: gnp.selector,
        types: gnp.types,
        ingress: gnp.ingress,
        egress: gnp.egress,
    }
}

/// The fields that a policy for all namespaces shares with a network policy. Its namespace
/// selector is not among them; what concerns forwarded, untracked and untranslated traffic
/// is dropped.
pub fn gnp_to_network_policy(gnp: GlobalNetworkPolicySpec) -> (r: NetworkPolicySpec)
    ensures
        r.deep_view() == shared_fields(gnp.deep_view()),
{
    NetworkPolicySpec {
        tier: gnp.tier,
        order: gnp.order,
        selector: gnp.selector,
        types: gnp.types,
        ingress: gnp.ingress,
        egress: gnp.egress,
    }
}

/// A network policy as the calculation takes it: confined to its namespace, where it has
/// one.
pub open spec fn in_own_namespace(
    spec: NetworkPolicySpecView,
    namespace: Option<Seq<char>>,
    forms: Seq<(Seq<char>, Seq<char>)>,
) -> NetworkPolicySpecView {
    match namespace {
        Some(ns) => if ns.len() > 0 {
            own_namespace_only(spec, ns, forms)
        } else {
            spec
        },
        None => spec,
    }
}

/// What an update of a resource means for the policy calculation, given its specification
/// if that could be read, and the prefixed forms of its namespace selectors.
pub open spec fn meaning(
    kind: ResourceKind,
    name: Seq<char>,
    namespace: Option<Seq<char>>,
    spec: Option<AgentSpecView>,
    forms: Seq<(Seq<char>, Seq<char>)>,
    labels: Seq<(Seq<char>, Seq<char>)>,
    remove: bool,
) -> Option<ResourceUpdateView> {
    match (kind, spec) {
        (ResourceKind::NetworkPolicy, Some(AgentSpecView::NetworkPolicy(s))) => Some(
            ResourceUpdateView::Policy {
                id: name,
                spec: in_own_namespace(s, namespace, forms),
                remove,
            },
        ),
        (ResourceKind::GlobalNetworkPolicy, Some(AgentSpecView::GlobalNetworkPolicy(s))) => Some(
            ResourceUpdateView::Policy {
                id: name,
                spec: selected_namespaces_only(shared_fields(s), s.namespace_selector, forms),
                remove,
            },
        ),
        (ResourceKind::Profile, Some(AgentSpecView::Profile(s))) => Some(
            ResourceUpdateView::Profile { id: name, spec: s, remove },
        ),
        (ResourceKind::WorkloadEndpoint, Some(AgentSpecView::WorkloadEndpoint(s))) => Some(
            ResourceUpdateView::WorkloadEndpoint {
                id: s.interface_name,
                node: s.node,
                labels,
                profiles: s.profiles,
                ipnets: Seq::new(s.ipnetworks.len(), |i: int| cidr_form(s.ipnetworks[i])),
                remove,
            },
        ),
        (ResourceKind::NetworkSet, Some(AgentSpecView::NetworkSet(s))) => Some(
            ResourceUpdateView::NetworkSet { id: name, labels, nets: s.nets, remove },
        ),
        (ResourceKind::Tier, Some(AgentSpecView::Tier(s))) => Some(
            ResourceUpdateView::Tier { name, order: s.order, remove },
        ),
        _ => None,
    }
}

/// What an update of a resource means for the policy calculation; nothing where its kind
/// does not matter, or where its specification could not be read as one of its kind.
pub fn syncer_update_to_resource(
    kind: ResourceKind,
    name: &str,
    namespace: &Option<String>,
    spec: Option<AgentSpec>,
    forms: &Vec<(String, String)>,
    labels: Labels,
    is_delete: bool,
) -> (r: Option<ResourceUpdate>)
    ensures
        r.deep_view() == meaning(
            kind,
            name@,
            namespace.deep_view(),
            spec.deep_view(),
            forms.deep_view(),
            labels.deep_view(),
            is_delete,
        ),
{
    match (kind, spec) {
        (ResourceKind::NetworkPolicy, Some(AgentSpec::NetworkPolicy(s))) => {
            let spec = match namespace {
                Some(ns) => {
                    if ns.as_str().is_empty() {
                        s
                    } else {
                        scope_network_policy(s, ns.as_str(), forms)
                    }
                },
                None => s,
            };
            Some(ResourceUpdate::Policy { id: name.to_owned(), spec, remove: is_delete })
        },
        (ResourceKind::GlobalNetworkPolicy, Some(AgentSpec::GlobalNetworkPolicy(s))) => {
            let selected = s.namespace_selector.clone();
            let shared = gnp_to_network_policy(s);
            let spec = scope_global_network_policy(shared, selected.as_str(), forms);
            Some(ResourceUpdate::Policy { id: name.to_owned(), spec, remove: is_delete })
        },
        (ResourceKind::Profile, Some(AgentSpec::Profile(s))) => Some(
            ResourceUpdate::Profile { id: name.to_owned(), spec: s, remove: is_delete },
        ),
        (ResourceKind::WorkloadEndpoint, Some(AgentSpec::WorkloadEndpoint(s))) => {
            let ghost sv = s.deep_view();
            let ghost want = Seq::new(
                sv.ipnetworks.len(),
                |i: int| cidr_form(sv.ipnetworks[i]),
            );
            let mut ipnets: Vec<String> = Vec::new();
            assert(views(ipnets@) =~= want.take(0));
            for i in 0..s.ipnetworks.len()
                invariant
                    sv == s.deep_view(),
                    want == Seq::new(
                        sv.ipnetworks.len(),
                        |i: int| cidr_form(sv.ipnetworks[i]),
                    ),
                    views(ipnets@) == want.take(i as int),
            {
                assert(sv.ipnetworks[i as int] == s.ipnetworks@[i as int]@);
                ipnets.push(normalize_cidr(s.ipnetworks[i].as_str()));
                assert(views(ipnets@) =~= want.take(i + 1));
            }
            let r = ResourceUpdate::WorkloadEndpoint {
                id: s.interface_name,
                node: s.node,
                labels,
                profiles: s.profiles,
                ipnets,
                remove: is_delete,
            };
            assert(ipnets.deep_view() =~= views(ipnets@));
            assert(want.take(want.len() as int) =~= want);
            Some(r)
        },
        (ResourceKind::NetworkSet, Some(AgentSpec::NetworkSet(s))) => Some(
            ResourceUpdate::NetworkSet {
                id: name.to_owned(),
                labels,
                nets: s.nets,
                remove: is_delete,
            },
        ),
        (ResourceKind::Tier, Some(AgentSpec::Tier(s))) => Some(
            ResourceUpdate::Tier { name: name.to_owned(), order: s.order, remove: is_delete },
        ),
        _ => None,
    }
}

/// The kinds that the agent watches, each in all namespaces.
pub fn policy_kinds() -> (r: [(ResourceKind, Option<String>); 6])
    ensures
        r@ == crate::syncers::everywhere(
            seq![
                ResourceKind::NetworkPolicy,
                ResourceKind::GlobalNetworkPolicy,
                ResourceKind::Profile,
                ResourceKind::WorkloadEndpoint,
                ResourceKind::NetworkSet,
                ResourceKind::Tier,
            ],
        ),
{
    let r = [
        (ResourceKind::NetworkPolicy, None),
        (ResourceKind::GlobalNetworkPolicy, None),
        (ResourceKind::Profile, None),
        (ResourceKind::WorkloadEndpoint, None),
        (ResourceKind::NetworkSet, None),
        (ResourceKind::Tier, None),
    ];
    assert(r@ =~= crate::syncers::everywhere(
        seq![
            ResourceKind::NetworkPolicy,
            ResourceKind::GlobalNetworkPolicy,
            ResourceKind::Profile,
            ResourceKind::WorkloadEndpoint,
            ResourceKind::NetworkSet,
            ResourceKind::Tier,
        ],
    ));
    r
}

/// What has happened to the agent.
pub enum AgentEvent {
    /// The watch has given an item. `spec` is the specification that the item carries, if
    /// that could be read, and `forms` has the prefixed forms of its namespace selectors.
    Watched {
        item: Result<SyncerEvent, CasError>,
        spec: Option<AgentSpec>,
        forms: Vec<(String, String)>,
    },
    /// The sequencer knows that the datastore has been read completely.
    Marked,
    /// The policy calculation has taken an update in, or could not read its selector.
    Calculated(Result<(), String>),
    /// What had become due was sent to the dataplane, or the dataplane is gone.
    Flushed(Result<(), String>),
    /// The watch has ended.
    Ended,
}

/// What the agent does next.
#[derive(Debug, PartialEq, Eq)]
pub enum AgentAction {
    /// Wait for the next item of the watch.
    Wait,
    /// Tell the sequencer that the datastore has been read completely.
    MarkInSync,
    /// Hand an update to the policy calculation.
    Calculate(ResourceUpdate),
    /// Send what has become due to the dataplane, in order.
    Flush,
    /// Stop.
    Stop,
}

/// The mathematical content of an [`AgentAction`].
#[verifier::ext_equal]
pub enum AgentActionView {
    Wait,
    MarkInSync,
    Calculate(ResourceUpdateView),
    Flush,
    Stop,
}

impl DeepView for AgentAction {
    type V = AgentActionView;

    open spec fn deep_view(&self) -> AgentActionView {
        match self {
            AgentAction::Wait => AgentActionView::Wait,
            AgentAction::MarkInSync => AgentActionView::MarkInSync,
            AgentAction::Calculate(u) => AgentActionView::Calculate(u.deep_view()),
            AgentAction::Flush => AgentActionView::Flush,
            AgentAction::Stop => AgentActionView::Stop,
        }
    }
}

/// What the agent does with an event of the watch, given the specification that the event
/// carries, if that could be read.
pub open spec fn action_for(
    ev: SyncerEventView,
    spec: Option<AgentSpecView>,
    forms: Seq<(Seq<char>, Seq<char>)>,
) -> AgentActionView {
    match ev {
        SyncerEventView::Status(s) => if s == SyncStatus::InSync {
            AgentActionView::MarkInSync
        } else {
            AgentActionView::Wait
        },
        SyncerEventView::Update { key, spec: _, revision: _, update_type, labels } => match key {
            KeyView::Resource { kind, namespace, name } => match meaning(
                kind,
                name,
                namespace,
                spec,
                forms,
                labels,
                update_type == UpdateType::Deleted,
            ) {
                Some(u) => AgentActionView::Calculate(u),
                None => AgentActionView::Wait,
            },
            _ => AgentActionView::Wait,
        },
    }
}

/// What the agent does next. Everything that the calculation takes in is flushed at once,
/// and so is the end of the initial read; an item of the watch that failed and an update
/// that cannot be calculated are passed over.
pub open spec fn next_action(event: AgentEvent) -> AgentActionView {
    match event {
        AgentEvent::Watched { item: Ok(ev), spec, forms } => action_for(
            ev.deep_view(),
            spec.deep_view(),
            forms.deep_view(),
        ),
        AgentEvent::Watched { item: Err(_), spec: _, forms: _ } => AgentActionView::Wait,
        AgentEvent::Marked => AgentActionView::Flush,
        AgentEvent::Calculated(Ok(_)) => AgentActionView::Flush,
        AgentEvent::Calculated(Err(_)) => AgentActionView::Wait,
        AgentEvent::Flushed(Ok(_)) => AgentActionView::Wait,
        AgentEvent::Flushed(Err(_)) => AgentActionView::Stop,
        AgentEvent::Ended => AgentActionView::Stop,
    }
}

/// What the agent does with an event of the watch.
fn action_of(ev: SyncerEvent, spec: Option<AgentSpec>, forms: &Vec<(String, String)>) -> (r:
    AgentAction)
    ensures
        r.deep_view() == action_for(ev.deep_view(), spec.deep_view(), forms.deep_view()),
{
    match ev {
        SyncerEvent::Status(SyncStatus::InSync) => AgentAction::MarkInSync,
        SyncerEvent::Status(_) => AgentAction::Wait,
        SyncerEvent::Update { key, spec: _, revision: _, update_type, labels } => match key {
            Key::Resource { kind, namespace, name } => {
                let is_delete = update_type == UpdateType::Deleted;
                match syncer_update_to_resource(
                    kind,
                    name.as_str(),
                    &namespace,
                    spec,
                    forms,
                    labels,
                    is_delete,
                ) {
                    Some(u) => AgentAction::Calculate(u),
                    None => AgentAction::Wait,
                }
            },
            _ => AgentAction::Wait,
        },
    }
}

/// What the agent does next.
pub fn run_policy_dataplane(event: AgentEvent) -> (r: AgentAction)
    ensures
        r.deep_view() == next_action(event),
{
    match event {
        AgentEvent::Watched { item, spec, forms } => match item {
            Ok(ev) => action_of(ev, spec, &forms),
            Err(_) => AgentAction::Wait,
        },
        AgentEvent::Marked => AgentAction::Flush,
        AgentEvent::Calculated(outcome) => if outcome.is_ok() {
            AgentAction::Flush
        } else {
            AgentAction::Wait
        },
        AgentEvent::Flushed(outcome) => if outcome.is_ok() {
            AgentAction::Wait
        } else {
            AgentAction::Stop
        },
        AgentEvent::Ended => AgentAction::Stop,
    }
}

/// The agent stops only where the watch has ended or the dataplane is gone: neither a
/// failure of the watch nor an update that cannot be read holds it up.
pub proof fn law_agent_outlives_bad_input(event: AgentEvent)
    ensures
        next_action(event) is Stop <==> event is Ended || (event matches AgentEvent::Flushed(r) && r
            is Err),
{
}

/// A policy of a namespace is always handed on confined to that namespace.
pub proof fn law_namespaced_policies_are_confined(
    name: Seq<char>,
    namespace: Seq<char>,
    spec: NetworkPolicySpecView,
    forms: Seq<(Seq<char>, Seq<char>)>,
    labels: Seq<(Seq<char>, Seq<char>)>,
    remove: bool,
)
    requires
        namespace.len() > 0,
    ensures
        meaning(
            ResourceKind::NetworkPolicy,
            name,
            Some(namespace),
            Some(AgentSpecView::NetworkPolicy(spec)),
            forms,
            labels,
            remove,
        ) matches Some(ResourceUpdateView::Policy { id, spec: handed, remove: r }) && id == name && r
            == remove && handed.selector == confined(spec.selector, namespace),
{
}

/// What an update is about, as the calculation knows it.
pub enum Object {
    /// A policy, by its name.
    Policy(Seq<char>),
    /// A profile, by its name.
    Profile(Seq<char>),
    /// A workload endpoint, by its interface.
    WorkloadEndpoint(Seq<char>),
    /// A network set, by its name.
    NetworkSet(Seq<char>),
    /// A tier, by its name.
    Tier(Seq<char>),
}

impl ResourceUpdateView {
    /// What the update is about.
    pub open spec fn object(self) -> Object {
        match self {
            ResourceUpdateView::Policy { id, spec: _, remove: _ } => Object::Policy(id),
            ResourceUpdateView::Profile { id, spec: _, remove: _ } => Object::Profile(id),
            ResourceUpdateView::WorkloadEndpoint {
                id,
                node: _,
                labels: _,
                profiles: _,
                ipnets: _,
                remove: _,
            } => Object::WorkloadEndpoint(id),
            ResourceUpdateView::NetworkSet { id, labels: _, nets: _, remove: _ } =>
                Object::NetworkSet(id),
            ResourceUpdateView::Tier { name, order: _, remove: _ } => Object::Tier(name),
        }
    }

    /// Whether the update takes the object out of the calculation.
    pub open spec fn removes(self) -> bool {
        match self {
            ResourceUpdateView::Policy { id: _, spec: _, remove } => remove,
            ResourceUpdateView::Profile { id: _, spec: _, remove } => remove,
            ResourceUpdateView::WorkloadEndpoint {
                id: _,
                node: _,
                labels: _,
                profiles: _,
                ipnets: _,
                remove,
            } => remove,
            ResourceUpdateView::NetworkSet { id: _, labels: _, nets: _, remove } => remove,
            ResourceUpdateView::Tier { name: _, order: _, remove } => remove,
        }
    }
}

/// What the calculation holds after an action: an update that removes takes its object out,
/// any other puts it in.
pub open spec fn held_after(held: Map<Object, ResourceUpdateView>, action: AgentActionView) -> Map<
    Object,
    ResourceUpdateView,
> {
    match action {
        AgentActionView::Calculate(u) => if u.removes() {
            held.remove(u.object())
        } else {
            held.insert(u.object(), u)
        },
        _ => held,
    }
}

/// What a resource of that kind is to the calculation, where it matters to it and its
/// specification was read.
pub open spec fn object_of(
    kind: ResourceKind,
    name: Seq<char>,
    spec: Option<AgentSpecView>,
) -> Option<Object> {
    match spec {
        None => None,
        Some(AgentSpecView::NetworkPolicy(_)) => if kind == ResourceKind::NetworkPolicy {
            Some(Object::Policy(name))
        } else {
            None
        },
        Some(AgentSpecView::GlobalNetworkPolicy(_)) => if kind
            == ResourceKind::GlobalNetworkPolicy {
            Some(Object::Policy(name))
        } else {
            None
        },
        Some(AgentSpecView::Profile(_)) => if kind == ResourceKind::Profile {
            Some(Object::Profile(name))
        } else {
            None
        },
        Some(AgentSpecView::WorkloadEndpoint(s)) => if kind == ResourceKind::WorkloadEndpoint {
            Some(Object::WorkloadEndpoint(s.interface_name))
        } else {
            None
        },
        Some(AgentSpecView::NetworkSet(_)) => if kind == ResourceKind::NetworkSet {
            Some(Object::NetworkSet(name))
        } else {
            None
        },
        Some(AgentSpecView::Tier(_)) => if kind == ResourceKind::Tier {
            Some(Object::Tier(name))
        } else {
            None
        },
    }
}

/// The calculation holds an object after an event about it exactly where the event is no
/// deletion, whatever its kind and whatever was held before. What it holds of the other
/// objects stays, and an event about something that does not matter to it changes nothing.
pub proof fn law_deleted_objects_leave_the_calculation(
    held: Map<Object, ResourceUpdateView>,
    kind: ResourceKind,
    namespace: Option<Seq<char>>,
    name: Seq<char>,
    ev: SyncerEventView,
    spec: Option<AgentSpecView>,
    forms: Seq<(Seq<char>, Seq<char>)>,
    other: Object,
)
    requires
        ev is Update,
        ev->key == (KeyView::Resource { kind, namespace, name }),
    ensures
        ({
            let action = action_for(ev, spec, forms);
            let after = held_after(held, action);
            match object_of(kind, name, spec) {
                Some(o) => {
                    &&& action is Calculate
                    &&& action->Calculate_0.object() == o
                    &&& action->Calculate_0.removes() <==> ev->update_type == UpdateType::Deleted
                    &&& after.dom().contains(o) <==> ev->update_type != UpdateType::Deleted
                    &&& ev->update_type != UpdateType::Deleted ==> after[o]
                        == action->Calculate_0
                    &&& other != o ==> after.dom().contains(other) == held.dom().contains(other)
                        && after[other] == held[other]
                },
                None => action is Wait && after == held,
            }
        }),
{
}

/// What the calculation is told of an object is the same whether it was new, changed or is
/// being deleted: only whether it is to be removed differs.
pub proof fn law_only_the_removal_differs(
    kind: ResourceKind,
    namespace: Option<Seq<char>>,
    name: Seq<char>,
    a: SyncerEventView,
    b: SyncerEventView,
    spec: Option<AgentSpecView>,
    forms: Seq<(Seq<char>, Seq<char>)>,
)
    requires
        a is Update,
        b is Update,
        a->key == (KeyView::Resource { kind, namespace, name }),
        b->key == a->key,
        a->labels == b->labels,
        a->update_type != UpdateType::Deleted,
    ensures
        b->update_type != UpdateType::Deleted ==> action_for(a, spec, forms) == action_for(
            b,
            spec,
            forms,
        ),
        action_for(a, spec, forms) is Calculate <==> action_for(b, spec, forms) is Calculate,
        action_for(a, spec, forms) matches AgentActionView::Calculate(u) ==> {
            let w = action_for(b, spec, forms)->Calculate_0;
            &&& w.object() == u.object()
            &&& held_after(
                held_after(Map::empty(), action_for(a, spec, forms)),
                AgentActionView::Calculate(w),
            ).dom().contains(u.object()) <==> b->update_type != UpdateType::Deleted
        },
{
}

/// Each address of an endpoint as a block that holds it alone: as it stands where it is a
/// block, with the whole length of its family behind it otherwise.
pub open spec fn block_of(addr: Seq<char>, block: Seq<char>) -> bool {
    if addr.contains('/') {
        block == addr
    } else if addr.contains(':') {
        block == addr + "/128"@
    } else {
        block == addr + "/32"@
    }
}

/// What the calculation is told of a resource is what the resource says: of an endpoint its
/// node, labels and profiles and one block for each address, of a network set its labels and
/// networks, of a tier its order, of a profile its specification.
pub proof fn law_resources_are_handed_on_as_they_are(
    kind: ResourceKind,
    namespace: Option<Seq<char>>,
    name: Seq<char>,
    ev: SyncerEventView,
    spec: AgentSpecView,
    forms: Seq<(Seq<char>, Seq<char>)>,
)
    requires
        ev is Update,
        ev->key == (KeyView::Resource { kind, namespace, name }),
    ensures
        action_for(ev, Some(spec), forms) matches AgentActionView::Calculate(u) ==> match spec {
            AgentSpecView::Profile(s) => u matches ResourceUpdateView::Profile {
                id: _,
                spec: p,
                remove: _,
            } && p == s,
            AgentSpecView::WorkloadEndpoint(s) => {
                &&& u matches ResourceUpdateView::WorkloadEndpoint {
                    id: _,
                    node,
                    labels,
                    profiles,
                    ipnets,
                    remove: _,
                }
                &&& node == s.node
                &&& labels == ev->labels
                &&& profiles == s.profiles
                &&& ipnets.len() == s.ipnetworks.len()
                &&& forall|i: int|
                    0 <= i < ipnets.len() ==> block_of(s.ipnetworks[i], #[trigger] ipnets[i])
            },
            AgentSpecView::NetworkSet(s) => u matches ResourceUpdateView::NetworkSet {
                id: _,
                labels,
                nets,
                remove: _,
            } && labels == ev->labels && nets == s.nets,
            AgentSpecView::Tier(s) => u matches ResourceUpdateView::Tier {
                name: _,
                order,
                remove: _,
            } && order == s.order,
            AgentSpecView::NetworkPolicy(_) => u is Policy,
            AgentSpecView::GlobalNetworkPolicy(_) => u is Policy,
        },
{
}

/// A policy is handed on in its own tier, order and directions. One of a namespace applies to
/// the endpoints of that namespace that its selector picks; one for all namespaces applies to
/// those that its selector picks in the namespaces that it selects. Its ingress rules are
/// about the flows of its ingress rules and its egress rules about those of its egress rules.
pub proof fn law_policies_are_handed_on_scoped(
    namespace: Seq<char>,
    name: Seq<char>,
    own: NetworkPolicySpecView,
    global: GlobalNetworkPolicySpecView,
    forms: Seq<(Seq<char>, Seq<char>)>,
    labels: Seq<(Seq<char>, Seq<char>)>,
    remove: bool,
    target: Party,
    flow: Flow,
)
    requires
        namespace.len() > 0,
        target.reads_conjunctions(),
        has_namespace(target),
        flow.source.reads_conjunctions(),
        flow.destination.reads_conjunctions(),
    ensures
        ({
            let term = "projectcalico.org/namespace"@ + " == '"@ + namespace + "'"@;
            &&& meaning(
                ResourceKind::NetworkPolicy,
                name,
                Some(namespace),
                Some(AgentSpecView::NetworkPolicy(own)),
                forms,
                labels,
                remove,
            ) matches Some(ResourceUpdateView::Policy { id: _, spec: s, remove: _ })
            &&& s.tier == own.tier
            &&& s.order == own.order
            &&& s.types == own.types
            &&& (target.picked_by)(s.selector) <==> (own.selector.len() > 0 ==> (target.picked_by)(
                own.selector,
            )) && (target.picked_by)(term)
            &&& same_flows(flow, own.ingress, s.ingress, Some(namespace), forms)
            &&& same_flows(flow, own.egress, s.egress, Some(namespace), forms)
        }),
        ({
            let form = crate::policy_scope::form_from(forms, global.namespace_selector, 0);
            &&& meaning(
                ResourceKind::GlobalNetworkPolicy,
                name,
                None,
                Some(AgentSpecView::GlobalNetworkPolicy(global)),
                forms,
                labels,
                remove,
            ) matches Some(ResourceUpdateView::Policy { id: _, spec: s, remove: _ })
            &&& s.tier == global.tier
            &&& s.order == global.order
            &&& s.types == global.types
            &&& global.namespace_selector.len() == 0 ==> s.selector == global.selector
            &&& global.namespace_selector.len() > 0 ==> ((target.picked_by)(s.selector) <==> (
            global.selector.len() > 0 ==> (target.picked_by)(global.selector)) && (
            target.picked_by)(form))
            &&& same_flows(flow, global.ingress, s.ingress, None, forms)
            &&& same_flows(flow, global.egress, s.egress, None, forms)
        }),
{
    law_own_namespace_keeps_the_rest(own, namespace, forms, target, flow);
    law_selected_namespaces_keep_the_rest(
        shared_fields(global),
        global.namespace_selector,
        forms,
        target,
        flow,
    );
}

/// A policy without a namespace is handed on as it is.
pub proof fn law_policies_without_a_namespace_stay(
    name: Seq<char>,
    own: NetworkPolicySpecView,
    forms: Seq<(Seq<char>, Seq<char>)>,
    labels: Seq<(Seq<char>, Seq<char>)>,
    remove: bool,
)
    ensures
        meaning(
            ResourceKind::NetworkPolicy,
            name,
            None,
            Some(AgentSpecView::NetworkPolicy(own)),
            forms,
            labels,
            remove,
        ) == Some(ResourceUpdateView::Policy { id: name, spec: own, remove }),
{
}

/// The agent reports the end of the first reading exactly when it comes, flushes after each
/// thing that it took in, and waits for the next event otherwise.
pub proof fn law_what_is_taken_in_is_flushed(event: AgentEvent)
    ensures
        next_action(event) is MarkInSync <==> (event matches AgentEvent::Watched {
            item: Ok(SyncerEvent::Status(s)),
            spec: _,
            forms: _,
        } && s == SyncStatus::InSync),
        next_action(event) is Flush <==> event is Marked || (event matches AgentEvent::Calculated(
            r,
        ) && r is Ok),
        next_action(event) is Calculate ==> (event matches AgentEvent::Watched {
            item: Ok(SyncerEvent::Update { .. }),
            spec: Some(_),
            forms: _,
        }),
{
}

} // verus!
