//! From network policies of Kubernetes to network policies.
//!
//! Kubernetes denies whatever no rule allows, once a pod is selected. The rules made here
//! only allow; the deny is that of the endpoint's chain. Namespaces are not confined here.

use crate::conversion::{anything, LABEL_ORCHESTRATOR, ORCHESTRATOR_K8S};
use crate::ordmap::{
    deep_map, enumerates, in_order, law_contents_determine_order, lemma_order_with, listing, Labels,
    OrdMap,
};
use crate::resources::{
    Action, EntityRule, EntityRuleView, NetworkPolicySpec, NetworkPolicySpecView, PolicyType, Protocol,
    ProtocolView, Rule, RuleView,
};
use crate::seqs::{
    append_items, concat_all, concat_first, lemma_concat_all, lemma_concat_member, push_item,
};
use crate::text::{clone_strings, join, join_spec, str_eq, views};
use vstd::prelude::*;

verus! {

broadcast use {
    crate::text::lemma_views_push,
    crate::ordmap::lemma_deep_insert,
};

/// The tier of the policies.
pub const DEFAULT_TIER: &'static str = "default";

/// The order of the policies within their tier: 1000, as the bits of a double.
pub const K8S_NETWORK_POLICY_ORDER: u64 = 0x408f_4000_0000_0000;

/// The protocol of a port that names none.
pub const DEFAULT_PROTOCOL: &'static str = "TCP";

/// One requirement of a label selector.
#[derive(Debug)]
pub struct LabelRequirement {
    /// The label.
    pub key: String,
    /// How the label is held against the values.
    pub operator: String,
    /// The values.
    pub values: Option<Vec<String>>,
}

/// A label selector.
#[derive(Debug)]
pub struct LabelSelector {
    /// Labels with their values.
    pub match_labels: Option<Labels>,
    /// Further requirements.
    pub match_expressions: Option<Vec<LabelRequirement>>,
}

/// An address block with exceptions.
#[derive(Debug)]
pub struct IpBlock {
    /// The block.
    pub cidr: String,
    /// The blocks within it that are left out.
    pub except: Option<Vec<String>>,
}

/// A peer of a rule.
#[derive(Debug)]
pub struct PolicyPeer {
    /// An address block; it excludes the selectors.
    pub ip_block: Option<IpBlock>,
    /// The pods.
    pub pod_selector: Option<LabelSelector>,
    /// The namespaces.
    pub namespace_selector: Option<LabelSelector>,
}

/// A port, by its number or by its name.
#[derive(Debug)]
pub enum PortRef {
    /// By its number.
    Int(i32),
    /// By its name.
    Named(String),
}

/// A port of a rule.
#[derive(Debug)]
pub struct PolicyPort {
    /// The protocol.
    pub protocol: Option<String>,
    /// The port; all where there is none.
    pub port: Option<PortRef>,
    /// The last port of a range.
    pub end_port: Option<i32>,
}

/// A rule: its peers and its ports.
#[derive(Debug)]
pub struct PolicyRuleFacts {
    /// The peers; any where there is none.
    pub peers: Option<Vec<PolicyPeer>>,
    /// The ports; any where there is none.
    pub ports: Option<Vec<PolicyPort>>,
}

/// A network policy of Kubernetes.
#[derive(Debug)]
pub struct K8sNetworkPolicySpec {
    /// The pods that it applies to.
    pub pod_selector: Option<LabelSelector>,
    /// Its rules for traffic to the pods.
    pub ingress: Option<Vec<PolicyRuleFacts>>,
    /// Its rules for traffic from the pods.
    pub egress: Option<Vec<PolicyRuleFacts>>,
    /// The directions that it governs.
    pub policy_types: Option<Vec<String>>,
}

impl Default for K8sNetworkPolicySpec {
    fn default() -> (r: Self)
        ensures
            r == K8sNetworkPolicySpec::empty(),
    {
        K8sNetworkPolicySpec { pod_selector: None, ingress: None, egress: None, policy_types: None }
    }
}

impl K8sNetworkPolicySpec {
    /// A policy that says nothing.
    pub open spec fn empty() -> K8sNetworkPolicySpec {
        K8sNetworkPolicySpec { pod_selector: None, ingress: None, egress: None, policy_types: None }
    }
}

/// What a selector selects.
#[derive(Debug, Clone, Copy, PartialEq, Eq, Structural)]
pub enum SelectorKind {
    /// Pods.
    Pod,
    /// Namespaces.
    Namespace,
}

/// The labels of a selector, ascending by key.
pub open spec fn labels_of(s: LabelSelector) -> Seq<(Seq<char>, Seq<char>)> {
    match s.match_labels {
        Some(l) => l.deep_view(),
        None => Seq::empty(),
    }
}

/// The requirements of a selector.
pub open spec fn requirements_of(s: LabelSelector) -> Seq<LabelRequirement> {
    match s.match_expressions {
        Some(v) => v@,
        None => Seq::empty(),
    }
}

/// The term of a label.
pub open spec fn label_term(e: (Seq<char>, Seq<char>)) -> Seq<char> {
    e.0 + " == '"@ + e.1 + "'"@
}

/// The values of a requirement, as they stand between quotes.
pub open spec fn values_text(r: LabelRequirement) -> Seq<char> {
    match r.values {
        Some(v) => join_spec(views(v@), "', '"@),
        None => Seq::empty(),
    }
}

/// The term of a requirement; none where its operator is not known.
pub open spec fn requirement_term(r: LabelRequirement) -> Option<Seq<char>> {
    if r.operator@ == "In"@ {
        Some(r.key@ + " in { '"@ + values_text(r) + "' }"@)
    } else if r.operator@ == "NotIn"@ {
        Some(r.key@ + " not in { '"@ + values_text(r) + "' }"@)
    } else if r.operator@ == "Exists"@ {
        Some("has("@ + r.key@ + ")"@)
    } else if r.operator@ == "DoesNotExist"@ {
        Some("! has("@ + r.key@ + ")"@)
    } else {
        None
    }
}

/// The terms of the first `n` requirements.
pub open spec fn requirement_terms(rs: Seq<LabelRequirement>, n: nat) -> Seq<Seq<char>>
    decreases n,
{
    if n == 0 {
        Seq::empty()
    } else {
        let head = requirement_terms(rs, (n - 1) as nat);
        match requirement_term(rs[n - 1]) {
            Some(t) => head.push(t),
            None => head,
        }
    }
}

/// The term that every selector of pods begins with.
pub open spec fn pod_terms(kind: SelectorKind) -> Seq<Seq<char>> {
    if kind == SelectorKind::Pod {
        seq![LABEL_ORCHESTRATOR@ + " == '"@ + ORCHESTRATOR_K8S@ + "'"@]
    } else {
        Seq::empty()
    }
}

/// A selector in text form. An absent selector of namespaces is empty; one that is there
/// and asks for nothing selects all.
pub open spec fn selector_text(s: Option<LabelSelector>, kind: SelectorKind) -> Seq<char> {
    match s {
        None => join_spec(pod_terms(kind), " && "@),
        Some(s) => {
            let labels = labels_of(s);
            let rs = requirements_of(s);
            if kind == SelectorKind::Namespace && labels.len() == 0 && rs.len() == 0 {
                "all()"@
            } else {
                join_spec(
                    pod_terms(kind) + Seq::new(labels.len(), |i: int| label_term(labels[i]))
                        + requirement_terms(rs, rs.len()),
                    " && "@,
                )
            }
        },
    }
}

/// The term of a requirement.
fn requirement_text(r: &LabelRequirement) -> (t: Option<String>)
    ensures
        t.deep_view() == requirement_term(*r),
{
    let values = match &r.values {
        Some(v) => join(v, "', '"),
        None => String::new(),
    };
    let op = r.operator.as_str();
    if str_eq(op, "In") {
        let mut s = r.key.clone();
        s.push_str(" in { '");
        s.push_str(values.as_str());
        s.push_str("' }");
        Some(s)
    } else if str_eq(op, "NotIn") {
        let mut s = r.key.clone();
        s.push_str(" not in { '");
        s.push_str(values.as_str());
        s.push_str("' }");
        Some(s)
    } else if str_eq(op, "Exists") {
        let mut s = "has(".to_owned();
        s.push_str(r.key.as_str());
        s.push_str(")");
        Some(s)
    } else if str_eq(op, "DoesNotExist") {
        let mut s = "! has(".to_owned();
        s.push_str(r.key.as_str());
        s.push_str(")");
        Some(s)
    } else {
        None
    }
}

/// A selector in text form.
pub fn selector_to_calico(s: &Option<LabelSelector>, kind: SelectorKind) -> (r: String)
    ensures
        r@ == selector_text(*s, kind),
{
    let mut terms: Vec<String> = Vec::new();
    if kind == SelectorKind::Pod {
        let mut t = LABEL_ORCHESTRATOR.to_owned();
        t.push_str(" == '");
        t.push_str(ORCHESTRATOR_K8S);
        t.push_str("'");
        terms.push(t);
    }
    assert(views(terms@) =~= pod_terms(kind));
    let s = match s {
        Some(s) => s,
        None => return join(&terms, " && "),
    };
    let ghost labels = labels_of(*s);
    let ghost rs = requirements_of(*s);
    let labels_empty = match &s.match_labels {
        Some(l) => l.is_empty(),
        None => true,
    };
    let exprs_empty = match &s.match_expressions {
        Some(v) => v.len() == 0,
        None => true,
    };
    assert(labels_empty == (labels.len() == 0));
    if kind == SelectorKind::Namespace && labels_empty && exprs_empty {
        return "all()".to_owned();
    }
    let ghost want = Seq::new(labels.len(), |i: int| label_term(labels[i]));
    let ghost start = views(terms@);
    assert(start + want.take(0) =~= start);
    if let Some(l) = &s.match_labels {
        for i in 0..l.entries.len()
            invariant
                labels == l.deep_view(),
                want == Seq::new(labels.len(), |i: int| label_term(labels[i])),
                views(terms@) == start + want.take(i as int),
        {
            let (k, v) = &l.entries[i];
            assert(labels[i as int] == (k@, v@));
            let mut t = k.clone();
            t.push_str(" == '");
            t.push_str(v.as_str());
            t.push_str("'");
            terms.push(t);
            assert(views(terms@) =~= start + want.take(i + 1));
        }
    }
    assert(want.take(want.len() as int) =~= want);
    let ghost start = views(terms@);
    assert(start + Seq::<Seq<char>>::empty() =~= start);
    if let Some(v) = &s.match_expressions {
        for i in 0..v.len()
            invariant
                rs == v@,
                views(terms@) == start + requirement_terms(rs, i as nat),
        {
            if let Some(t) = requirement_text(&v[i]) {
                terms.push(t);
            }
            assert(views(terms@) =~= start + requirement_terms(rs, (i + 1) as nat));
        }
    }
    join(&terms, " && ")
}

/// The side of a rule that a peer becomes; any side for no peer.
pub open spec fn peer_side(peer: Option<PolicyPeer>) -> EntityRuleView {
    match peer {
        None => anything(),
        Some(p) => match p.ip_block {
            Some(b) => EntityRuleView {
                nets: seq![b.cidr@],
                not_nets: match b.except {
                    Some(v) => views(v@),
                    None => Seq::empty(),
                },
                ..anything()
            },
            None => EntityRuleView {
                selector: Some(selector_text(p.pod_selector, SelectorKind::Pod)),
                namespace_selector: {
                    let ns = selector_text(p.namespace_selector, SelectorKind::Namespace);
                    if ns.len() == 0 {
                        None
                    } else {
                        Some(ns)
                    }
                },
                ..anything()
            },
        },
    }
}

/// The fields of the side of a rule that a peer becomes: the selector, the namespace
/// selector, the blocks and the blocks left out.
pub fn peer_fields(peer: Option<&PolicyPeer>) -> (r: (
    Option<String>,
    Option<String>,
    Vec<String>,
    Vec<String>,
))
    ensures
        ({
            let side = peer_side(
                match peer {
                    Some(p) => Some(*p),
                    None => None,
                },
            );
            &&& r.0.deep_view() == side.selector
            &&& r.1.deep_view() == side.namespace_selector
            &&& views(r.2@) == side.nets
            &&& views(r.3@) == side.not_nets
        }),
{
    let p = match peer {
        Some(p) => p,
        None => {
            let none: Vec<String> = Vec::new();
            let none2: Vec<String> = Vec::new();
            assert(views(none@) =~= Seq::<Seq<char>>::empty());
            assert(views(none2@) =~= Seq::<Seq<char>>::empty());
            return (None, None, none, none2);
        },
    };
    if let Some(b) = &p.ip_block {
        let mut nets: Vec<String> = Vec::new();
        nets.push(b.cidr.clone());
        assert(views(nets@) =~= seq![b.cidr@]);
        let not_nets = match &b.except {
            Some(v) => clone_strings(v),
            None => Vec::new(),
        };
        assert(b.except is None ==> views(not_nets@) =~= Seq::<Seq<char>>::empty());
        return (None, None, nets, not_nets);
    }
    let selector = selector_to_calico(&p.pod_selector, SelectorKind::Pod);
    let ns = selector_to_calico(&p.namespace_selector, SelectorKind::Namespace);
    let ns = if ns.as_str().is_empty() {
        None
    } else {
        Some(ns)
    };
    let nets: Vec<String> = Vec::new();
    let not_nets: Vec<String> = Vec::new();
    assert(views(nets@) =~= Seq::<Seq<char>>::empty());
    assert(views(not_nets@) =~= Seq::<Seq<char>>::empty());
    (Some(selector), ns, nets, not_nets)
}

/// What a port comes to.
#[derive(Debug, Clone, Copy, PartialEq, Eq, Structural)]
pub enum PortKind {
    /// A single port.
    Number(u16),
    /// All ports of the protocol.
    Absent,
    /// A named port, a range, or a number that is no port: it is skipped.
    Unsupported,
}

/// What a port comes to.
pub open spec fn port_kind_of(p: PolicyPort) -> PortKind {
    match p.port {
        None => PortKind::Absent,
        Some(PortRef::Int(i)) => if 0 <= i <= 65535 && p.end_port is None {
            PortKind::Number(i as u16)
        } else {
            PortKind::Unsupported
        },
        Some(PortRef::Named(_)) => PortKind::Unsupported,
    }
}

/// What a port comes to.
pub fn port_kind(p: &PolicyPort) -> (r: PortKind)
    ensures
        r == port_kind_of(*p),
{
    match &p.port {
        None => PortKind::Absent,
        Some(PortRef::Int(i)) => {
            if 0 <= *i && *i <= 65535 && p.end_port.is_none() {
                PortKind::Number(*i as u16)
            } else {
                PortKind::Unsupported
            }
        },
        Some(PortRef::Named(_)) => PortKind::Unsupported,
    }
}

/// The ports of one protocol.
pub struct Bucket {
    /// Whether all ports are meant.
    pub all: bool,
    /// The ports, where not all are meant.
    pub ports: Vec<u16>,
}

/// The mathematical content of a [`Bucket`].
#[verifier::ext_equal]
pub struct BucketView {
    pub all: bool,
    pub ports: Seq<u16>,
}

impl DeepView for Bucket {
    type V = BucketView;

    open spec fn deep_view(&self) -> BucketView {
        BucketView { all: self.all, ports: self.ports@ }
    }
}

/// The protocol of a port.
pub open spec fn protocol_of(p: PolicyPort) -> Seq<char> {
    match p.protocol {
        Some(s) => s@,
        None => DEFAULT_PROTOCOL@,
    }
}

/// The buckets with one more port. A port that stands for all ports of its protocol
/// prevails; one that is not supported is skipped, and widens nothing.
pub open spec fn with_port(buckets: Map<Seq<char>, BucketView>, p: PolicyPort) -> Map<
    Seq<char>,
    BucketView,
> {
    let proto = protocol_of(p);
    let known = if buckets.dom().contains(proto) {
        buckets[proto]
    } else {
        BucketView { all: false, ports: Seq::empty() }
    };
    match port_kind_of(p) {
        PortKind::Number(n) => buckets.insert(
            proto,
            if known.all {
                known
            } else {
                BucketView { all: false, ports: known.ports.push(n) }
            },
        ),
        PortKind::Absent => buckets.insert(proto, BucketView { all: true, ports: Seq::empty() }),
        PortKind::Unsupported => buckets,
    }
}

/// The buckets of the first `n` ports.
pub open spec fn buckets_first(ports: Seq<PolicyPort>, n: nat) -> Map<Seq<char>, BucketView>
    decreases n,
{
    if n == 0 {
        Map::empty()
    } else {
        with_port(buckets_first(ports, (n - 1) as nat), ports[n - 1])
    }
}

/// The ports of a rule by protocol, ascending; where the rule names no port at all, one
/// bucket without a protocol. No ports in a bucket stand for all.
pub open spec fn groups(ports: Seq<PolicyPort>) -> Seq<(Option<ProtocolView>, Seq<u16>)> {
    if ports.len() == 0 {
        seq![(None, Seq::empty())]
    } else {
        let list = listing::<String, BucketView>(buckets_first(ports, ports.len()));
        Seq::new(list.len(), |i: int| (Some(ProtocolView::Named(list[i].0)), list[i].1.ports))
    }
}

/// The ports of a rule by protocol.
pub fn grouped_ports(ports: &Vec<PolicyPort>) -> (r: Vec<(Option<Protocol>, Vec<u16>)>)
    ensures
        r@.len() == groups(ports@).len(),
        forall|i: int|
            0 <= i < r@.len() ==> (#[trigger] r@[i]).0.deep_view() == groups(ports@)[i].0 && r@[i].1@
                == groups(ports@)[i].1,
{
    let mut out: Vec<(Option<Protocol>, Vec<u16>)> = Vec::new();
    if ports.len() == 0 {
        let none: Vec<u16> = Vec::new();
        assert(none@ =~= Seq::<u16>::empty());
        out.push((None, none));
        return out;
    }
    let mut map: OrdMap<String, Bucket> = OrdMap::new();
    assert(deep_map(map.map()) =~= Map::<Seq<char>, BucketView>::empty());
    for i in 0..ports.len()
        invariant
            map.wf(),
            deep_map(map.map()) == buckets_first(ports@, i as nat),
    {
        let p = &ports[i];
        let ghost before = deep_map(map.map());
        let proto = match &p.protocol {
            Some(s) => s.clone(),
            None => DEFAULT_PROTOCOL.to_owned(),
        };
        match port_kind(p) {
            PortKind::Number(n) => {
                assert(before.dom().contains(proto@) <==> map.map().dom().contains(proto@));
                let mut bucket = match map.remove(&proto) {
                    Some(b) => {
                        assert(before[proto@] == b.deep_view());
                        b
                    },
                    None => Bucket { all: false, ports: Vec::new() },
                };
                if !bucket.all {
                    bucket.ports.push(n);
                }
                map.insert(proto, bucket);
                assert(deep_map(map.map()) =~= with_port(before, *p));
            },
            PortKind::Absent => {
                let bucket = Bucket { all: true, ports: Vec::new() };
                assert(bucket.deep_view() =~= (BucketView { all: true, ports: Seq::empty() }));
                map.insert(proto, bucket);
            },
            PortKind::Unsupported => {},
        }
    }
    proof {
        law_contents_determine_order(map);
    }
    let ghost list = listing::<String, BucketView>(deep_map(map.map()));
    for i in 0..map.entries.len()
        invariant
            list == map.entries.deep_view(),
            out@.len() == i,
            forall|j: int|
                0 <= j < i ==> (#[trigger] out@[j]).0.deep_view() == Some(
                    ProtocolView::Named(list[j].0),
                ) && out@[j].1@ == list[j].1.ports,
    {
        let (proto, bucket) = &map.entries[i];
        assert(list[i as int] == (proto@, bucket.deep_view()));
        let nums = copy_ports(&bucket.ports);
        out.push((Some(Protocol::Named(proto.clone())), nums));
    }
    out
}

/// A copy of the ports.
fn copy_ports(v: &Vec<u16>) -> (r: Vec<u16>)
    ensures
        r@ == v@,
{
    let mut out: Vec<u16> = Vec::new();
    for i in 0..v.len()
        invariant
            out@ == v@.take(i as int),
    {
        out.push(v[i]);
        assert(out@ =~= v@.take(i + 1));
    }
    assert(v@.take(v@.len() as int) =~= v@);
    out
}

/// The rule for one bucket of ports and one peer. Ports are those of the destination; the
/// peer is the source of traffic to the pods, and the destination of traffic from them.
pub open spec fn allow_rule(
    group: (Option<ProtocolView>, Seq<u16>),
    side: EntityRuleView,
    ingress: bool,
) -> RuleView {
    if ingress {
        RuleView {
            action: Action::Allow,
            protocol: group.0,
            source: side,
            destination: EntityRuleView { ports: group.1, ..anything() },
        }
    } else {
        RuleView {
            action: Action::Allow,
            protocol: group.0,
            source: anything(),
            destination: EntityRuleView { ports: group.1, ..side },
        }
    }
}

/// The peers of a rule; where there is none, the one alternative of any peer.
pub open spec fn peer_choices(peers: Seq<PolicyPeer>) -> Seq<Option<PolicyPeer>> {
    if peers.len() == 0 {
        seq![None]
    } else {
        Seq::new(peers.len(), |i: int| Some(peers[i]))
    }
}

/// The rules for one bucket of ports.
pub open spec fn group_rules(
    group: (Option<ProtocolView>, Seq<u16>),
    peers: Seq<PolicyPeer>,
    ingress: bool,
) -> Seq<RuleView> {
    let choices = peer_choices(peers);
    Seq::new(choices.len(), |j: int| allow_rule(group, peer_side(choices[j]), ingress))
}

/// The rules that a rule becomes: one for each bucket of ports and each peer.
pub open spec fn rules_for(peers: Seq<PolicyPeer>, ports: Seq<PolicyPort>, ingress: bool) -> Seq<
    RuleView,
> {
    let gs = groups(ports);
    concat_all(Seq::new(gs.len(), |i: int| group_rules(gs[i], peers, ingress)))
}

/// The rule for one bucket of ports and one peer.
fn one_rule(
    protocol: &Option<Protocol>,
    ports: &Vec<u16>,
    peer: Option<&PolicyPeer>,
    ingress: bool,
) -> (r: Rule)
    ensures
        r.deep_view() == allow_rule(
            (protocol.deep_view(), ports@),
            peer_side(
                match peer {
                    Some(p) => Some(*p),
                    None => None,
                },
            ),
            ingress,
        ),
{
    let ghost side = peer_side(
        match peer {
            Some(p) => Some(*p),
            None => None,
        },
    );
    let (selector, namespace_selector, nets, not_nets) = peer_fields(peer);
    let nums = copy_ports(ports);
    let any = EntityRule::default();
    assert(any.deep_view() =~= anything());
    let protocol = match protocol {
        Some(p) => Some(p.clone()),
        None => None,
    };
    if ingress {
        let source = EntityRule { selector, namespace_selector, nets, not_nets, ports: Vec::new() };
        assert(source.deep_view().nets =~= views(nets@));
        assert(source.deep_view().not_nets =~= views(not_nets@));
        assert(source.deep_view() =~= side);
        let destination = EntityRule { ports: nums, ..any };
        assert(destination.deep_view() =~= (EntityRuleView { ports: ports@, ..anything() }));
        Rule { action: Action::Allow, protocol, source, destination }
    } else {
        let destination = EntityRule { selector, namespace_selector, nets, not_nets, ports: nums };
        assert(destination.deep_view().nets =~= views(nets@));
        assert(destination.deep_view().not_nets =~= views(not_nets@));
        assert(destination.deep_view() =~= (EntityRuleView { ports: ports@, ..side }));
        Rule { action: Action::Allow, protocol, source: any, destination }
    }
}

/// The rules that a rule becomes.
pub fn build_rules(peers: &Vec<PolicyPeer>, ports: &Vec<PolicyPort>, ingress: bool) -> (r: Vec<Rule>)
    ensures
        r.deep_view() == rules_for(peers@, ports@, ingress),
{
    let ghost gs = groups(ports@);
    let ghost blocks = Seq::new(gs.len(), |i: int| group_rules(gs[i], peers@, ingress));
    let found = grouped_ports(ports);
    let mut out: Vec<Rule> = Vec::new();
    assert(out.deep_view() =~= Seq::<RuleView>::empty());
    for i in 0..found.len()
        invariant
            gs == groups(ports@),
            blocks == Seq::new(gs.len(), |i: int| group_rules(gs[i], peers@, ingress)),
            found@.len() == gs.len(),
            forall|j: int|
                0 <= j < found@.len() ==> (#[trigger] found@[j]).0.deep_view() == gs[j].0
                    && found@[j].1@ == gs[j].1,
            out.deep_view() == concat_first(blocks, i as nat),
    {
        let (protocol, nums) = &found[i];
        assert(found@[i as int].0.deep_view() == gs[i as int].0);
        let ghost start = out.deep_view();
        let ghost row = group_rules(gs[i as int], peers@, ingress);
        if peers.len() == 0 {
            push_item(&mut out, one_rule(protocol, nums, None, ingress));
            assert(out.deep_view() =~= start + row);
        } else {
            assert(start + row.take(0) =~= start);
            for j in 0..peers.len()
                invariant
                    peers@.len() > 0,
                    protocol.deep_view() == gs[i as int].0,
                    nums@ == gs[i as int].1,
                    row == group_rules(gs[i as int], peers@, ingress),
                    out.deep_view() == start + row.take(j as int),
            {
                push_item(&mut out, one_rule(protocol, nums, Some(&peers[j]), ingress));
                assert(out.deep_view() =~= start + row.take(j + 1));
            }
            assert(row.take(row.len() as int) =~= row);
        }
        assert(out.deep_view() =~= concat_first(blocks, (i + 1) as nat));
    }
    out
}

/// The items, or none.
pub open spec fn or_none<A>(v: Option<Vec<A>>) -> Seq<A> {
    match v {
        Some(x) => x@,
        None => Seq::empty(),
    }
}

/// The rules that the rules of a direction become.
pub open spec fn direction_rules(rules: Option<Vec<PolicyRuleFacts>>, ingress: bool) -> Seq<RuleView> {
    let rs = or_none(rules);
    concat_all(
        Seq::new(
            rs.len(),
            |i: int| rules_for(or_none(rs[i].peers), or_none(rs[i].ports), ingress),
        ),
    )
}

/// The rules that the rules of a direction become.
fn build_direction(rules: &Option<Vec<PolicyRuleFacts>>, ingress: bool) -> (r: Vec<Rule>)
    ensures
        r.deep_view() == direction_rules(*rules, ingress),
{
    let ghost rs = or_none(*rules);
    let ghost blocks = Seq::new(
        rs.len(),
        |i: int| rules_for(or_none(rs[i].peers), or_none(rs[i].ports), ingress),
    );
    let mut out: Vec<Rule> = Vec::new();
    assert(out.deep_view() =~= Seq::<RuleView>::empty());
    let no_peers: Vec<PolicyPeer> = Vec::new();
    let no_ports: Vec<PolicyPort> = Vec::new();
    assert(no_peers@ =~= Seq::<PolicyPeer>::empty());
    assert(no_ports@ =~= Seq::<PolicyPort>::empty());
    if let Some(v) = rules {
        for i in 0..v.len()
            invariant
                rs == v@,
                no_peers@ == Seq::<PolicyPeer>::empty(),
                no_ports@ == Seq::<PolicyPort>::empty(),
                blocks == Seq::new(
                    rs.len(),
                    |i: int| rules_for(or_none(rs[i].peers), or_none(rs[i].ports), ingress),
                ),
                out.deep_view() == concat_first(blocks, i as nat),
        {
            let rule = &v[i];
            let peers = match &rule.peers {
                Some(p) => p,
                None => &no_peers,
            };
            let ports = match &rule.ports {
                Some(p) => p,
                None => &no_ports,
            };
            let mut more = build_rules(peers, ports, ingress);
            append_items(&mut out, &mut more);
        }
    }
    out
}

/// Whether a list of strings holds the text.
pub open spec fn names(v: Option<Vec<String>>, t: Seq<char>) -> bool {
    exists|i: int| 0 <= i < or_none(v).len() && (#[trigger] or_none(v)[i])@ == t
}

/// Whether a list of strings holds the text.
fn is_named(v: &Option<Vec<String>>, t: &str) -> (r: bool)
    ensures
        r == names(*v, t@),
{
    if let Some(x) = v {
        for i in 0..x.len()
            invariant
                or_none(*v) == x@,
                forall|j: int| 0 <= j < i ==> (#[trigger] x@[j])@ != t@,
        {
            if str_eq(x[i].as_str(), t) {
                assert(or_none(*v)[i as int]@ == t@);
                return true;
            }
        }
    }
    false
}

/// The directions that a policy governs: those that it names, and ingress where it names
/// none.
pub open spec fn directions(policy_types: Option<Vec<String>>) -> Seq<PolicyType> {
    if names(policy_types, "Egress"@) {
        if names(policy_types, "Ingress"@) {
            seq![PolicyType::Ingress, PolicyType::Egress]
        } else {
            seq![PolicyType::Egress]
        }
    } else {
        seq![PolicyType::Ingress]
    }
}

/// The network policy that a network policy of Kubernetes becomes.
pub open spec fn converted(spec: K8sNetworkPolicySpec) -> NetworkPolicySpecView {
    NetworkPolicySpecView {
        tier: Some(DEFAULT_TIER@),
        order: Some(K8S_NETWORK_POLICY_ORDER),
        selector: selector_text(spec.pod_selector, SelectorKind::Pod),
        types: directions(spec.policy_types),
        ingress: direction_rules(spec.ingress, true),
        egress: direction_rules(spec.egress, false),
    }
}

/// The network policy that a network policy of Kubernetes becomes.
pub fn k8s_network_policy_spec_to_calico(spec: &K8sNetworkPolicySpec) -> (r: NetworkPolicySpec)
    ensures
        r.deep_view() == converted(*spec),
{
    let selector = selector_to_calico(&spec.pod_selector, SelectorKind::Pod);
    let ingress = build_direction(&spec.ingress, true);
    let egress = build_direction(&spec.egress, false);
    let to = is_named(&spec.policy_types, "Ingress");
    let from = is_named(&spec.policy_types, "Egress");
    let mut types: Vec<PolicyType> = Vec::new();
    if to || !from {
        types.push(PolicyType::Ingress);
    }
    if from {
        types.push(PolicyType::Egress);
    }
    let r = NetworkPolicySpec {
        tier: Some(DEFAULT_TIER.to_owned()),
        order: Some(K8S_NETWORK_POLICY_ORDER),
        selector,
        types,
        ingress,
        egress,
    };
    assert(r.deep_view() =~= converted(*spec));
    r
}

/// The network policy that a network policy of Kubernetes becomes; one without a
/// specification says nothing.
pub fn k8s_network_policy_to_calico(spec: &Option<K8sNetworkPolicySpec>) -> (r: NetworkPolicySpec)
    ensures
        r.deep_view() == converted(
            match spec {
                Some(s) => *s,
                None => K8sNetworkPolicySpec::empty(),
            },
        ),
{
    match spec {
        Some(s) => k8s_network_policy_spec_to_calico(s),
        None => k8s_network_policy_spec_to_calico(&K8sNetworkPolicySpec::default()),
    }
}

/// What a converted policy does is to allow: no rule denies.
pub proof fn law_only_allow_rules(rules: Option<Vec<PolicyRuleFacts>>, ingress: bool)
    ensures
        forall|i: int|
            0 <= i < direction_rules(rules, ingress).len() ==> (#[trigger] direction_rules(
                rules,
                ingress,
            )[i]).action == Action::Allow,
{
    let rs = or_none(rules);
    let allows = |r: RuleView| r.action == Action::Allow;
    let outer = Seq::new(
        rs.len(),
        |i: int| rules_for(or_none(rs[i].peers), or_none(rs[i].ports), ingress),
    );
    assert forall|i: int, j: int| 0 <= i < outer.len() && 0 <= j < outer[i].len() implies allows(
        #[trigger] outer[i][j],
    ) by {
        let peers = or_none(rs[i].peers);
        let gs = groups(or_none(rs[i].ports));
        let inner = Seq::new(gs.len(), |k: int| group_rules(gs[k], peers, ingress));
        assert forall|k: int, l: int|
            0 <= k < inner.len() && 0 <= l < inner[k].len() implies allows(
            #[trigger] inner[k][l],
        ) by {}
        lemma_concat_all(inner, inner.len(), allows);
        assert(outer[i] == concat_all(inner));
    }
    lemma_concat_all(outer, outer.len(), allows);
    assert forall|i: int| 0 <= i < direction_rules(rules, ingress).len() implies (
    #[trigger] direction_rules(rules, ingress)[i]).action == Action::Allow by {
        assert(allows(concat_all(outer)[i]));
    }
}

/// The length of blocks of equal length.
proof fn lemma_equal_blocks(blocks: Seq<Seq<RuleView>>, n: nat, width: nat)
    requires
        n <= blocks.len(),
        forall|i: int| 0 <= i < n ==> (#[trigger] blocks[i]).len() == width,
    ensures
        concat_first(blocks, n).len() == n * width,
    decreases n,
{
    if n > 0 {
        lemma_equal_blocks(blocks, (n - 1) as nat, width);
        assert(n * width == (n - 1) * width + width) by (nonlinear_arith)
            requires
                n > 0,
        ;
    } else {
        assert(0 * width == 0);
    }
}

/// A rule becomes one rule for each bucket of ports and each peer, where no peer counts as
/// one.
pub proof fn law_one_rule_per_bucket_and_peer(
    peers: Seq<PolicyPeer>,
    ports: Seq<PolicyPort>,
    ingress: bool,
)
    ensures
        rules_for(peers, ports, ingress).len() == groups(ports).len() * peer_choices(peers).len(),
{
    let gs = groups(ports);
    let blocks = Seq::new(gs.len(), |i: int| group_rules(gs[i], peers, ingress));
    lemma_equal_blocks(blocks, blocks.len(), peer_choices(peers).len());
}

/// A port that is not supported changes nothing: it neither adds nor widens a match.
pub proof fn law_unsupported_port_is_skipped(buckets: Map<Seq<char>, BucketView>, p: PolicyPort)
    requires
        port_kind_of(p) == PortKind::Unsupported,
    ensures
        with_port(buckets, p) == buckets,
{
}

/// Once all ports of a protocol are meant, it stays so.
pub proof fn law_all_ports_prevail(buckets: Map<Seq<char>, BucketView>, p: PolicyPort, proto: Seq<char>)
    requires
        buckets.dom().contains(proto),
        buckets[proto] == (BucketView { all: true, ports: Seq::empty() }),
    ensures
        with_port(buckets, p).dom().contains(proto),
        with_port(buckets, p)[proto] == buckets[proto],
{
}

/// The other end of a flow: the selectors that pick the pod, those that pick its namespace,
/// and the blocks that hold its address.
pub struct Peer {
    pub picked_by: spec_fn(Seq<char>) -> bool,
    pub namespace_picked_by: spec_fn(Seq<char>) -> bool,
    pub inside: spec_fn(Seq<char>) -> bool,
}

/// A flow as a rule sees it: its other end, its protocol and the port that is connected to.
pub struct PodFlow {
    pub peer: Peer,
    pub protocol: Seq<char>,
    pub port: u16,
}

impl Peer {
    /// Whether a peer of a rule is this one: its address is in the block and in none of the
    /// exceptions, or its pod is selected and, where namespaces are selected, its namespace.
    pub open spec fn is_meant(self, p: PolicyPeer) -> bool {
        match p.ip_block {
            Some(b) => {
                &&& (self.inside)(b.cidr@)
                &&& match b.except {
                    Some(v) => forall|i: int|
                        0 <= i < v@.len() ==> !(self.inside)((#[trigger] v@[i])@),
                    None => true,
                }
            },
            None => {
                let namespaces = selector_text(p.namespace_selector, SelectorKind::Namespace);
                &&& (self.picked_by)(selector_text(p.pod_selector, SelectorKind::Pod))
                &&& namespaces.len() > 0 ==> (self.namespace_picked_by)(namespaces)
            },
        }
    }

    /// Whether a side of a converted rule is about this peer.
    pub open spec fn is_on_side(self, er: EntityRuleView) -> bool {
        &&& er.selector is Some ==> (self.picked_by)(er.selector->0)
        &&& er.namespace_selector is Some ==> (self.namespace_picked_by)(er.namespace_selector->0)
        &&& er.nets.len() > 0 ==> exists|i: int|
            0 <= i < er.nets.len() && (self.inside)(#[trigger] er.nets[i])
        &&& forall|i: int|
            0 <= i < er.not_nets.len() ==> !(self.inside)(#[trigger] er.not_nets[i])
    }
}

/// Whether a port of a rule is about a flow: it is of the protocol, TCP where it names none,
/// and is the port of the flow or every port. Ranges and named ports are not supported and
/// are about nothing.
pub open spec fn port_is_meant(p: PolicyPort, protocol: Seq<char>, port: u16) -> bool {
    &&& protocol == (match p.protocol {
        Some(s) => s@,
        None => "TCP"@,
    })
    &&& match p.port {
        None => true,
        Some(PortRef::Int(i)) => i == port && p.end_port is None,
        Some(PortRef::Named(_)) => false,
    }
}

/// Whether a rule of a Kubernetes policy allows a flow: its peer is one of the rule's, where
/// the rule has any, and its port one of the rule's, where the rule has any.
pub open spec fn allows(rule: PolicyRuleFacts, f: PodFlow) -> bool {
    let peers = or_none(rule.peers);
    let ports = or_none(rule.ports);
    &&& peers.len() == 0 || exists|i: int|
        0 <= i < peers.len() && f.peer.is_meant(#[trigger] peers[i])
    &&& ports.len() == 0 || exists|i: int|
        0 <= i < ports.len() && port_is_meant(#[trigger] ports[i], f.protocol, f.port)
}

/// Whether a side of a rule leaves open who is meant.
pub open spec fn is_open(er: EntityRuleView) -> bool {
    er.selector is None && er.namespace_selector is None && er.nets.len() == 0 && er.not_nets.len()
        == 0
}

/// Whether a converted rule allows a flow. The peer of an ingress rule is the source, that of
/// an egress rule the destination; the port is that of the destination either way.
pub open spec fn rule_allows(r: RuleView, f: PodFlow, ingress: bool) -> bool {
    let (peer, own) = if ingress {
        (r.source, r.destination)
    } else {
        (r.destination, r.source)
    };
    &&& r.action == Action::Allow
    &&& r.protocol is Some ==> r.protocol == Some(ProtocolView::Named(f.protocol))
    &&& r.source.ports.len() == 0
    &&& r.destination.ports.len() > 0 ==> r.destination.ports.contains(f.port)
    &&& is_open(own)
    &&& f.peer.is_on_side(peer)
}

/// Whether a group of ports takes a protocol and a port.
pub open spec fn group_takes(
    g: (Option<ProtocolView>, Seq<u16>),
    protocol: Seq<char>,
    port: u16,
) -> bool {
    &&& g.0 is Some ==> g.0 == Some(ProtocolView::Named(protocol))
    &&& g.1.len() > 0 ==> g.1.contains(port)
}

/// The buckets take a port where one of the ports put into them does.
proof fn lemma_buckets(ports: Seq<PolicyPort>, n: nat, protocol: Seq<char>, port: u16)
    requires
        n <= ports.len(),
    ensures
        ({
            let b = buckets_first(ports, n);
            &&& enumerates::<String>(in_order::<String>(b.dom()), b.dom())
            &&& b.dom().contains(protocol) ==> (b[protocol].all <==> b[protocol].ports.len() == 0)
            &&& (b.dom().contains(protocol) && (b[protocol].ports.len() > 0
                ==> b[protocol].ports.contains(port))) <==> exists|i: int|
                0 <= i < n && port_is_meant(#[trigger] ports[i], protocol, port)
        }),
    decreases n,
{
    if n == 0 {
        let d = buckets_first(ports, 0).dom();
        assert(enumerates::<String>(Seq::empty(), d));
    } else {
        let m = (n - 1) as nat;
        lemma_buckets(ports, m, protocol, port);
        let old_b = buckets_first(ports, m);
        let b = buckets_first(ports, n);
        let p = ports[m as int];
        let proto = protocol_of(p);
        if port_kind_of(p) != PortKind::Unsupported {
            assert(b.dom() =~= old_b.dom().insert(proto));
            if old_b.dom().contains(proto) {
                assert(old_b.dom().insert(proto) =~= old_b.dom());
            } else {
                lemma_order_with::<String>(old_b.dom(), proto);
            }
        }
        let had = exists|i: int| 0 <= i < m && port_is_meant(#[trigger] ports[i], protocol, port);
        let has = exists|i: int| 0 <= i < n && port_is_meant(#[trigger] ports[i], protocol, port);
        assert(has <==> had || port_is_meant(p, protocol, port)) by {
            if has {
                let i = choose|i: int|
                    0 <= i < n && port_is_meant(#[trigger] ports[i], protocol, port);
                if i < m {
                    assert(port_is_meant(ports[i], protocol, port));
                }
            }
            if had {
                let i = choose|i: int|
                    0 <= i < m && port_is_meant(#[trigger] ports[i], protocol, port);
                assert(port_is_meant(ports[i], protocol, port));
            }
        }
        if proto == protocol {
            if let PortKind::Number(k) = port_kind_of(p) {
                let known = if old_b.dom().contains(proto) {
                    old_b[proto]
                } else {
                    BucketView { all: false, ports: Seq::empty() }
                };
                if !known.all {
                    let more = known.ports.push(k);
                    assert(more[known.ports.len() as int] == k);
                    assert(more.contains(port) <==> known.ports.contains(port) || k == port) by {
                        if known.ports.contains(port) {
                            let i = known.ports.index_of(port);
                            assert(more[i] == port);
                        }
                        if more.contains(port) {
                            let i = more.index_of(port);
                            if i < known.ports.len() {
                                assert(known.ports[i] == port);
                            }
                        }
                    }
                }
            }
        }
    }
}

/// The groups take a port where the rule's ports do.
proof fn lemma_groups(ports: Seq<PolicyPort>, protocol: Seq<char>, port: u16)
    ensures
        (exists|i: int| 0 <= i < groups(ports).len() && group_takes(
            #[trigger] groups(ports)[i],
            protocol,
            port,
        )) <==> ports.len() == 0 || exists|i: int|
            0 <= i < ports.len() && port_is_meant(#[trigger] ports[i], protocol, port),
{
    let gs = groups(ports);
    if ports.len() == 0 {
        assert(group_takes(gs[0], protocol, port));
    } else {
        lemma_buckets(ports, ports.len(), protocol, port);
        let b = buckets_first(ports, ports.len());
        let keys = in_order::<String>(b.dom());
        if exists|i: int| 0 <= i < gs.len() && group_takes(#[trigger] gs[i], protocol, port) {
            let i = choose|i: int| 0 <= i < gs.len() && group_takes(#[trigger] gs[i], protocol, port);
            assert(keys.contains(keys[i]));
            assert(keys[i] == protocol);
        }
        if exists|i: int| 0 <= i < ports.len() && port_is_meant(#[trigger] ports[i], protocol, port) {
            assert(keys.contains(protocol));
            let i = keys.index_of(protocol);
            assert(group_takes(gs[i], protocol, port));
        }
    }
}

/// The side that stands for a peer is about whom the peer means.
proof fn lemma_peer_side(who: Peer, p: PolicyPeer)
    ensures
        who.is_on_side(peer_side(Some(p))) <==> who.is_meant(p),
        who.is_on_side(peer_side(None)),
{
    let side = peer_side(Some(p));
    if let Some(b) = p.ip_block {
        assert(side.nets[0] == b.cidr@);
        if let Some(v) = b.except {
            assert(side.not_nets.len() == v@.len());
            assert forall|i: int| 0 <= i < v@.len() implies side.not_nets[i] == (
            #[trigger] v@[i])@ by {}
            if who.is_on_side(side) {
                assert forall|i: int| 0 <= i < v@.len() implies !(who.inside)((
                #[trigger] v@[i])@) by {
                    assert(side.not_nets[i] == v@[i]@);
                }
            }
        }
    }
}

/// A flow is allowed by the rules that a direction becomes exactly where one of the rules of
/// that direction allows it: nothing is allowed that was not, and nothing is lost.
pub proof fn law_the_same_flows_are_allowed(
    rules: Option<Vec<PolicyRuleFacts>>,
    ingress: bool,
    f: PodFlow,
)
    ensures
        (exists|k: int| 0 <= k < direction_rules(rules, ingress).len() && rule_allows(
            #[trigger] direction_rules(rules, ingress)[k],
            f,
            ingress,
        )) <==> exists|i: int| 0 <= i < or_none(rules).len() && allows(
            #[trigger] or_none(rules)[i],
            f,
        ),
{
    let rs = or_none(rules);
    let all = direction_rules(rules, ingress);
    let blocks = Seq::new(
        rs.len(),
        |i: int| rules_for(or_none(rs[i].peers), or_none(rs[i].ports), ingress),
    );
    if exists|k: int| 0 <= k < all.len() && rule_allows(#[trigger] all[k], f, ingress) {
        let k = choose|k: int| 0 <= k < all.len() && rule_allows(#[trigger] all[k], f, ingress);
        lemma_concat_member(blocks, blocks.len(), all[k]);
        assert(all.contains(all[k]));
        let i = choose|i: int| 0 <= i < blocks.len() && (#[trigger] blocks[i]).contains(all[k]);
        lemma_rule_flows(or_none(rs[i].peers), or_none(rs[i].ports), ingress, f);
        let j = blocks[i].index_of(all[k]);
        assert(rule_allows(blocks[i][j], f, ingress));
        assert(allows(rs[i], f));
    }
    if exists|i: int| 0 <= i < rs.len() && allows(#[trigger] rs[i], f) {
        let i = choose|i: int| 0 <= i < rs.len() && allows(#[trigger] rs[i], f);
        lemma_rule_flows(or_none(rs[i].peers), or_none(rs[i].ports), ingress, f);
        let part = rules_for(or_none(rs[i].peers), or_none(rs[i].ports), ingress);
        let j = choose|j: int| 0 <= j < part.len() && rule_allows(#[trigger] part[j], f, ingress);
        assert(blocks[i].contains(part[j]));
        lemma_concat_member(blocks, blocks.len(), part[j]);
        let k = all.index_of(part[j]);
        assert(rule_allows(all[k], f, ingress));
    }
}

/// What a rule made of a group of ports and a side allows.
proof fn lemma_allow_rule(
    g: (Option<ProtocolView>, Seq<u16>),
    peer: Option<PolicyPeer>,
    f: PodFlow,
    ingress: bool,
)
    ensures
        rule_allows(allow_rule(g, peer_side(peer), ingress), f, ingress) <==> group_takes(
            g,
            f.protocol,
            f.port,
        ) && (peer is Some ==> f.peer.is_meant(peer->0)),
{
    let side = peer_side(peer);
    let r = allow_rule(g, side, ingress);
    match peer {
        Some(p) => lemma_peer_side(f.peer, p),
        None => {},
    }
    let stands = if ingress {
        r.source
    } else {
        r.destination
    };
    assert(stands.nets == side.nets && stands.not_nets == side.not_nets);
    assert(f.peer.is_on_side(stands) <==> f.peer.is_on_side(side));
}

/// What the rules made of one rule allow.
proof fn lemma_rule_flows(
    peers: Seq<PolicyPeer>,
    ports: Seq<PolicyPort>,
    ingress: bool,
    f: PodFlow,
)
    ensures
        (exists|k: int| 0 <= k < rules_for(peers, ports, ingress).len() && rule_allows(
            #[trigger] rules_for(peers, ports, ingress)[k],
            f,
            ingress,
        )) <==> {
            &&& peers.len() == 0 || exists|i: int|
                0 <= i < peers.len() && f.peer.is_meant(#[trigger] peers[i])
            &&& ports.len() == 0 || exists|i: int|
                0 <= i < ports.len() && port_is_meant(#[trigger] ports[i], f.protocol, f.port)
        },
{
    let gs = groups(ports);
    let choices = peer_choices(peers);
    let blocks = Seq::new(gs.len(), |i: int| group_rules(gs[i], peers, ingress));
    let all = rules_for(peers, ports, ingress);
    lemma_groups(ports, f.protocol, f.port);
    if exists|k: int| 0 <= k < all.len() && rule_allows(#[trigger] all[k], f, ingress) {
        let k = choose|k: int| 0 <= k < all.len() && rule_allows(#[trigger] all[k], f, ingress);
        lemma_concat_member(blocks, blocks.len(), all[k]);
        assert(all.contains(all[k]));
        let i = choose|i: int| 0 <= i < blocks.len() && (#[trigger] blocks[i]).contains(all[k]);
        let j = blocks[i].index_of(all[k]);
        assert(blocks[i][j] == allow_rule(gs[i], peer_side(choices[j]), ingress));
        lemma_allow_rule(gs[i], choices[j], f, ingress);
        assert(group_takes(gs[i], f.protocol, f.port));
        if peers.len() > 0 {
            assert(choices[j] == Some(peers[j]));
            assert(f.peer.is_meant(peers[j]));
        }
    }
    if {
        &&& peers.len() == 0 || exists|i: int|
            0 <= i < peers.len() && f.peer.is_meant(#[trigger] peers[i])
        &&& ports.len() == 0 || exists|i: int|
            0 <= i < ports.len() && port_is_meant(#[trigger] ports[i], f.protocol, f.port)
    } {
        let i = choose|i: int| 0 <= i < gs.len() && group_takes(#[trigger] gs[i], f.protocol, f.port);
        let j = if peers.len() == 0 {
            0
        } else {
            choose|j: int| 0 <= j < peers.len() && f.peer.is_meant(#[trigger] peers[j])
        };
        if peers.len() > 0 {
            assert(choices[j] == Some(peers[j]));
        } else {
            assert(choices[j] == None::<PolicyPeer>);
        }
        let r = allow_rule(gs[i], peer_side(choices[j]), ingress);
        lemma_allow_rule(gs[i], choices[j], f, ingress);
        assert(blocks[i][j] == r);
        assert(blocks[i].contains(r));
        lemma_concat_member(blocks, blocks.len(), r);
        let k = all.index_of(r);
        assert(rule_allows(all[k], f, ingress));
    }
}

/// The same peers and ports give the same rules in either direction, but that the peer stands
/// on the other side: what an egress rule selects of its destination is what the ingress rule
/// in its place selects of its source, and the side of the policy's own pods selects nothing
/// but, for ingress, the ports.
pub proof fn law_peer_is_carried_either_way(peers: Seq<PolicyPeer>, ports: Seq<PolicyPort>, k: int)
    requires
        0 <= k < rules_for(peers, ports, true).len(),
    ensures
        rules_for(peers, ports, true).len() == rules_for(peers, ports, false).len(),
        ({
            let a = rules_for(peers, ports, true)[k];
            let b = rules_for(peers, ports, false)[k];
            &&& b.destination.selector == a.source.selector
            &&& b.destination.namespace_selector == a.source.namespace_selector
            &&& b.destination.nets == a.source.nets
            &&& b.destination.not_nets == a.source.not_nets
            &&& b.destination.ports == a.destination.ports
            &&& a.source.ports.len() == 0
            &&& b.source.ports.len() == 0
            &&& is_open(a.destination)
            &&& is_open(b.source)
            &&& a.protocol == b.protocol
            &&& a.action == b.action
        }),
{
    let gs = groups(ports);
    let a = Seq::new(gs.len(), |i: int| group_rules(gs[i], peers, true));
    let b = Seq::new(gs.len(), |i: int| group_rules(gs[i], peers, false));
    assert forall|i: int, j: int| 0 <= i < gs.len() && 0 <= j < a[i].len() implies mirrored(
        #[trigger] a[i][j],
        b[i][j],
    ) by {}
    lemma_mirrored(a, b, gs.len());
}

/// Whether two rules are the ingress and the egress form of one.
pub open spec fn mirrored(a: RuleView, b: RuleView) -> bool {
    &&& b.destination.selector == a.source.selector
    &&& b.destination.namespace_selector == a.source.namespace_selector
    &&& b.destination.nets == a.source.nets
    &&& b.destination.not_nets == a.source.not_nets
    &&& b.destination.ports == a.destination.ports
    &&& a.source.ports.len() == 0
    &&& b.source.ports.len() == 0
    &&& is_open(a.destination)
    &&& is_open(b.source)
    &&& a.protocol == b.protocol
    &&& a.action == b.action
}

/// What holds of two lists block by block holds of them whole.
proof fn lemma_mirrored(a: Seq<Seq<RuleView>>, b: Seq<Seq<RuleView>>, n: nat)
    requires
        n <= a.len(),
        a.len() == b.len(),
        forall|i: int| 0 <= i < n ==> (#[trigger] a[i]).len() == b[i].len(),
        forall|i: int, j: int|
            0 <= i < n && 0 <= j < a[i].len() ==> mirrored(#[trigger] a[i][j], b[i][j]),
    ensures
        concat_first(a, n).len() == concat_first(b, n).len(),
        forall|k: int|
            0 <= k < concat_first(a, n).len() ==> mirrored(
                #[trigger] concat_first(a, n)[k],
                concat_first(b, n)[k],
            ),
    decreases n,
{
    if n > 0 {
        let m = (n - 1) as nat;
        lemma_mirrored(a, b, m);
        let head = concat_first(a, m);
        assert(a[m as int].len() == b[m as int].len());
        assert forall|k: int| 0 <= k < concat_first(a, n).len() implies mirrored(
            #[trigger] concat_first(a, n)[k],
            concat_first(b, n)[k],
        ) by {
            if k < head.len() {
                assert(concat_first(a, n)[k] == head[k]);
            } else {
                assert(concat_first(a, n)[k] == a[m as int][k - head.len()]);
                assert(concat_first(b, n)[k] == b[m as int][k - head.len()]);
            }
        }
    }
}

/// A converted policy allows what the policy allows, its ingress rules in and its egress rules
/// out, in the default tier. It governs egress exactly where the policy names egress, and
/// ingress exactly where the policy names ingress or does not name egress.
pub proof fn law_converted_policy_does_what_the_policy_does(spec: K8sNetworkPolicySpec, f: PodFlow)
    ensures
        ({
            let c = converted(spec);
            let named = or_none(spec.policy_types);
            let egress = exists|i: int| 0 <= i < named.len() && (#[trigger] named[i])@ == "Egress"@;
            let ingress = exists|i: int|
                0 <= i < named.len() && (#[trigger] named[i])@ == "Ingress"@;
            &&& c.tier == Some("default"@)
            &&& c.types.contains(PolicyType::Egress) <==> egress
            &&& c.types.contains(PolicyType::Ingress) <==> ingress || !egress
            &&& c.types.len() == (if egress && ingress {
                2nat
            } else {
                1nat
            })
            &&& (exists|k: int|
                0 <= k < c.ingress.len() && rule_allows(#[trigger] c.ingress[k], f, true)) <==> (
            exists|i: int|
                0 <= i < or_none(spec.ingress).len() && allows(
                    #[trigger] or_none(spec.ingress)[i],
                    f,
                ))
            &&& (exists|k: int|
                0 <= k < c.egress.len() && rule_allows(#[trigger] c.egress[k], f, false)) <==> (
            exists|i: int|
                0 <= i < or_none(spec.egress).len() && allows(
                    #[trigger] or_none(spec.egress)[i],
                    f,
                ))
        }),
{
    law_the_same_flows_are_allowed(spec.ingress, true, f);
    law_the_same_flows_are_allowed(spec.egress, false, f);
    let c = converted(spec);
    let t = directions(spec.policy_types);
    let named = or_none(spec.policy_types);
    assert(names(spec.policy_types, "Egress"@) <==> exists|i: int|
        0 <= i < named.len() && (#[trigger] named[i])@ == "Egress"@);
    assert(names(spec.policy_types, "Ingress"@) <==> exists|i: int|
        0 <= i < named.len() && (#[trigger] named[i])@ == "Ingress"@);
    assert(c.ingress == direction_rules(spec.ingress, true));
    assert(c.egress == direction_rules(spec.egress, false));
    assert(t.contains(PolicyType::Egress) ==> names(spec.policy_types, "Egress"@));
    assert(t.contains(PolicyType::Ingress) ==> names(spec.policy_types, "Ingress"@) || !names(
        spec.policy_types,
        "Egress"@,
    ));
    if names(spec.policy_types, "Egress"@) {
        assert(t.contains(PolicyType::Egress)) by {
            assert(t[t.len() - 1] == PolicyType::Egress);
        }
    }
    if names(spec.policy_types, "Ingress"@) || !names(spec.policy_types, "Egress"@) {
        assert(t.contains(PolicyType::Ingress)) by {
            assert(t[0] == PolicyType::Ingress);
        }
    }
}

/// Whether terms joined by `&&` pick someone where all of them do.
pub open spec fn reads_joined_terms(picked_by: spec_fn(Seq<char>) -> bool) -> bool {
    forall|terms: Seq<Seq<char>>|
        terms.len() > 0 ==> (#[trigger] picked_by(join_spec(terms, " && "@)) <==> forall|i: int|
            0 <= i < terms.len() ==> picked_by(#[trigger] terms[i]))
}

/// Whether what a requirement asks for holds. One with an unknown operator asks for nothing.
pub open spec fn requirement_holds(
    picked_by: spec_fn(Seq<char>) -> bool,
    r: LabelRequirement,
) -> bool {
    let values = match r.values {
        Some(v) => join_spec(views(v@), "', '"@),
        None => Seq::empty(),
    };
    &&& r.operator@ == "In"@ ==> picked_by(r.key@ + " in { '"@ + values + "' }"@)
    &&& r.operator@ == "NotIn"@ ==> picked_by(r.key@ + " not in { '"@ + values + "' }"@)
    &&& r.operator@ == "Exists"@ ==> picked_by("has("@ + r.key@ + ")"@)
    &&& r.operator@ == "DoesNotExist"@ ==> picked_by("! has("@ + r.key@ + ")"@)
}

/// The terms of the first `n` requirements hold where what they ask for does.
proof fn lemma_requirement_terms(
    picked_by: spec_fn(Seq<char>) -> bool,
    rs: Seq<LabelRequirement>,
    n: nat,
)
    requires
        n <= rs.len(),
    ensures
        (forall|i: int|
            0 <= i < requirement_terms(rs, n).len() ==> picked_by(
                #[trigger] requirement_terms(rs, n)[i],
            )) <==> forall|i: int|
            0 <= i < n ==> requirement_holds(picked_by, #[trigger] rs[i]),
    decreases n,
{
    if n > 0 {
        let m = (n - 1) as nat;
        lemma_requirement_terms(picked_by, rs, m);
        reveal_strlit("In");
        reveal_strlit("NotIn");
        reveal_strlit("Exists");
        reveal_strlit("DoesNotExist");
        assert("In"@.len() == 2 && "NotIn"@.len() == 5 && "Exists"@.len() == 6
            && "DoesNotExist"@.len() == 12);
        let r = rs[m as int];
        let head = requirement_terms(rs, m);
        let all = requirement_terms(rs, n);
        assert(match requirement_term(r) {
            Some(t) => requirement_holds(picked_by, r) <==> picked_by(t),
            None => requirement_holds(picked_by, r),
        });
        if forall|i: int| 0 <= i < all.len() ==> picked_by(#[trigger] all[i]) {
            assert forall|i: int| 0 <= i < head.len() implies picked_by(#[trigger] head[i]) by {
                assert(all[i] == head[i]);
            }
            if let Some(t) = requirement_term(r) {
                assert(all[head.len() as int] == t);
            }
            assert forall|i: int| 0 <= i < n implies requirement_holds(
                picked_by,
                #[trigger] rs[i],
            ) by {}
        }
        if forall|i: int| 0 <= i < n ==> requirement_holds(picked_by, #[trigger] rs[i]) {
            assert(requirement_holds(picked_by, rs[m as int]));
            assert forall|i: int| 0 <= i < all.len() implies picked_by(#[trigger] all[i]) by {
                if i < head.len() {
                    assert(all[i] == head[i]);
                }
            }
        }
    }
}

/// The selector of a pod picks those of Kubernetes that carry every label asked for and meet
/// every requirement.
pub proof fn law_selector_asks_for_every_label(
    s: LabelSelector,
    picked_by: spec_fn(Seq<char>) -> bool,
)
    requires
        reads_joined_terms(picked_by),
    ensures
        picked_by(selector_text(Some(s), SelectorKind::Pod)) <==> {
            &&& picked_by("projectcalico.org/orchestrator"@ + " == '"@ + "k8s"@ + "'"@)
            &&& forall|i: int|
                0 <= i < labels_of(s).len() ==> picked_by(
                    (#[trigger] labels_of(s)[i]).0 + " == '"@ + labels_of(s)[i].1 + "'"@,
                )
            &&& forall|i: int|
                0 <= i < requirements_of(s).len() ==> requirement_holds(
                    picked_by,
                    #[trigger] requirements_of(s)[i],
                )
        },
{
    let labels = labels_of(s);
    let rs = requirements_of(s);
    let a = pod_terms(SelectorKind::Pod);
    let b = Seq::new(labels.len(), |i: int| label_term(labels[i]));
    let c = requirement_terms(rs, rs.len());
    let terms = a + b + c;
    lemma_requirement_terms(picked_by, rs, rs.len());
    assert(picked_by(join_spec(terms, " && "@)) <==> forall|i: int|
        0 <= i < terms.len() ==> picked_by(#[trigger] terms[i]));
    if forall|i: int| 0 <= i < terms.len() ==> picked_by(#[trigger] terms[i]) {
        assert(terms[0] == a[0]);
        assert forall|i: int| 0 <= i < labels.len() implies picked_by(
            (#[trigger] labels[i]).0 + " == '"@ + labels[i].1 + "'"@,
        ) by {
            assert(terms[1 + i] == b[i]);
        }
        assert forall|i: int| 0 <= i < c.len() implies picked_by(#[trigger] c[i]) by {
            assert(terms[1 + labels.len() + i] == c[i]);
        }
    }
    if picked_by(a[0]) && (forall|i: int|
        0 <= i < labels.len() ==> picked_by(
            (#[trigger] labels[i]).0 + " == '"@ + labels[i].1 + "'"@,
        )) && (forall|i: int| 0 <= i < c.len() ==> picked_by(#[trigger] c[i])) {
        assert forall|i: int| 0 <= i < terms.len() implies picked_by(#[trigger] terms[i]) by {
            if i == 0 {
                assert(terms[i] == a[0]);
            } else if i < 1 + labels.len() {
                assert(terms[i] == b[i - 1]);
                assert(picked_by(labels[i - 1].0 + " == '"@ + labels[i - 1].1 + "'"@));
            } else {
                assert(terms[i] == c[i - 1 - labels.len()]);
            }
        }
    }
}

/// The selector of a namespace asks for every label and requirement too; one that has
/// neither picks every namespace.
pub proof fn law_namespace_selector_asks_for_every_label(
    s: LabelSelector,
    picked_by: spec_fn(Seq<char>) -> bool,
)
    requires
        reads_joined_terms(picked_by),
        picked_by("all()"@),
        selector_text(Some(s), SelectorKind::Namespace).len() > 0,
    ensures
        picked_by(selector_text(Some(s), SelectorKind::Namespace)) <==> {
            &&& forall|i: int|
                0 <= i < labels_of(s).len() ==> picked_by(
                    (#[trigger] labels_of(s)[i]).0 + " == '"@ + labels_of(s)[i].1 + "'"@,
                )
            &&& forall|i: int|
                0 <= i < requirements_of(s).len() ==> requirement_holds(
                    picked_by,
                    #[trigger] requirements_of(s)[i],
                )
        },
{
    let labels = labels_of(s);
    let rs = requirements_of(s);
    if labels.len() > 0 || rs.len() > 0 {
        let b = Seq::new(labels.len(), |i: int| label_term(labels[i]));
        let c = requirement_terms(rs, rs.len());
        let terms = pod_terms(SelectorKind::Namespace) + b + c;
        lemma_requirement_terms(picked_by, rs, rs.len());
        assert(terms =~= b + c);
        assert(terms.len() > 0);
        assert(picked_by(join_spec(terms, " && "@)) <==> forall|i: int|
            0 <= i < terms.len() ==> picked_by(#[trigger] terms[i]));
        if forall|i: int| 0 <= i < terms.len() ==> picked_by(#[trigger] terms[i]) {
            assert forall|i: int| 0 <= i < labels.len() implies picked_by(
                (#[trigger] labels[i]).0 + " == '"@ + labels[i].1 + "'"@,
            ) by {
                assert(terms[i] == b[i]);
            }
            assert forall|i: int| 0 <= i < c.len() implies picked_by(#[trigger] c[i]) by {
                assert(terms[labels.len() + i] == c[i]);
            }
        }
        if (forall|i: int|
            0 <= i < labels.len() ==> picked_by(
                (#[trigger] labels[i]).0 + " == '"@ + labels[i].1 + "'"@,
            )) && (forall|i: int| 0 <= i < c.len() ==> picked_by(#[trigger] c[i])) {
            assert forall|i: int| 0 <= i < terms.len() implies picked_by(#[trigger] terms[i]) by {
                if i < labels.len() {
                    assert(terms[i] == b[i]);
                    assert(picked_by(labels[i].0 + " == '"@ + labels[i].1 + "'"@));
                } else {
                    assert(terms[i] == c[i - labels.len()]);
                }
            }
        }
    }
}

/// A peer that selects no namespaces leaves them open, and one that selects no pods means the
/// pods of Kubernetes; a peer that is a block of addresses selects nothing but addresses.
pub proof fn law_absent_selectors_leave_open(p: PolicyPeer)
    ensures
        p.namespace_selector is None ==> peer_side(Some(p)).namespace_selector is None,
        p.ip_block is None && p.pod_selector is None ==> peer_side(Some(p)).selector == Some(
            "projectcalico.org/orchestrator"@ + " == '"@ + "k8s"@ + "'"@,
        ),
        p.ip_block is Some ==> peer_side(Some(p)).selector is None && peer_side(
            Some(p),
        ).namespace_selector is None,
        p.ip_block is None ==> peer_side(Some(p)).nets.len() == 0 && peer_side(
            Some(p),
        ).not_nets.len() == 0,
        peer_side(Some(p)).ports.len() == 0,
        is_open(peer_side(None)),
{
    let none = pod_terms(SelectorKind::Namespace);
    let one = pod_terms(SelectorKind::Pod);
    assert(join_spec(none, " && "@) =~= Seq::<char>::empty());
    assert(join_spec(one, " && "@) =~= one[0]) by {
        reveal_with_fuel(crate::text::join_first, 3);
    }
}

/// A converted policy applies to the pods that carry every label that its selector asks for
/// and meet every requirement of it, and comes at its place among the policies of its tier.
pub proof fn law_converted_policy_applies_to_the_selected_pods(
    spec: K8sNetworkPolicySpec,
    s: LabelSelector,
    picked_by: spec_fn(Seq<char>) -> bool,
)
    requires
        spec.pod_selector == Some(s),
        reads_joined_terms(picked_by),
    ensures
        converted(spec).order is Some,
        picked_by(converted(spec).selector) <==> {
            &&& picked_by("projectcalico.org/orchestrator"@ + " == '"@ + "k8s"@ + "'"@)
            &&& forall|i: int|
                0 <= i < labels_of(s).len() ==> picked_by(
                    (#[trigger] labels_of(s)[i]).0 + " == '"@ + labels_of(s)[i].1 + "'"@,
                )
            &&& forall|i: int|
                0 <= i < requirements_of(s).len() ==> requirement_holds(
                    picked_by,
                    #[trigger] requirements_of(s)[i],
                )
        },
{
    law_selector_asks_for_every_label(s, picked_by);
}

} // verus!
