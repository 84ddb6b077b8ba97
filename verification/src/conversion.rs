//! From objects of the Kubernetes API to resources: pods, namespaces, service accounts and
//! nodes.

use crate::digest::{hex, hex_of, sha1, sha1_of};
use crate::nft::hex_fixed;
use crate::ordmap::{deep_map, law_contents_determine_order, listing, text_less, Labels, OrdMap};
use crate::resources::{
    Action, EntityRule, EntityRuleView, NodeBgpSpec, NodeBgpSpecView, NodeSpec, NodeSpecView, OrchRef,
    OrchRefView, ProfileSpec, ProfileSpecView, Rule, RuleView, WorkloadEndpointSpec,
    WorkloadEndpointSpecView, WorkloadPortView,
};
use crate::seqs::{concat_all, lemma_concat_front, push_item};
use crate::text::{contains_char, join, join_spec, replace, replace_all, str_eq, views};
use crate::vxlan::hex_run;
use crate::vxlan_reconcile::{internal_from, lemma_first_internal, NodeAddress};
use vstd::prelude::*;
use vstd::string::*;
use vstd::utf8::encode_utf8;

verus! {

broadcast use {
    crate::text::lemma_views_push,
    crate::ordmap::lemma_deep_insert,
};

/// The prefix of the profile of a namespace.
pub const NAMESPACE_PROFILE_PREFIX: &'static str = "kns.";

/// The prefix of the labels of a namespace.
pub const NAMESPACE_LABEL_PREFIX: &'static str = "pcns.";

/// The prefix of the profile of a service account.
pub const SERVICE_ACCOUNT_PROFILE_PREFIX: &'static str = "ksa.";

/// The prefix of the labels of a service account.
pub const SERVICE_ACCOUNT_LABEL_PREFIX: &'static str = "pcsa.";

/// The label that holds an endpoint's namespace.
pub const LABEL_NAMESPACE: &'static str = "projectcalico.org/namespace";

/// The label that holds an endpoint's orchestrator.
pub const LABEL_ORCHESTRATOR: &'static str = "projectcalico.org/orchestrator";

/// The label that holds an endpoint's service account.
pub const LABEL_SERVICE_ACCOUNT: &'static str = "projectcalico.org/serviceaccount";

/// The name of the orchestrator Kubernetes.
pub const ORCHESTRATOR_K8S: &'static str = "k8s";

/// The endpoint of a pod.
pub const DEFAULT_ENDPOINT: &'static str = "eth0";

/// The annotation that carries an endpoint's metadata through storage.
pub const METADATA_ANNOTATION: &'static str = "projectcalico.org/metadata";

/// The annotation that reports a pod's networks.
pub const NETWORK_STATUS_ANNOTATION: &'static str = "k8s.v1.cni.cncf.io/network-status";

/// A segment of an endpoint's name, with every dash doubled.
pub open spec fn escaped(segment: Seq<char>) -> Seq<char> {
    replace_all(segment, "-"@, "--"@)
}

/// A segment of an endpoint's name, with every dash doubled.
pub fn escape_segment(segment: &str) -> (r: String)
    ensures
        r@ == escaped(segment@),
{
    proof {
        reveal_strlit("-");
    }
    replace(segment, "-", "--")
}

/// The endpoint, or the default one for an empty text.
pub open spec fn endpoint_or_default(endpoint: Seq<char>) -> Seq<char> {
    if endpoint.len() == 0 {
        DEFAULT_ENDPOINT@
    } else {
        endpoint
    }
}

/// The name of an endpoint: the node, the orchestrator, the pod and the endpoint within it,
/// each with its dashes doubled, joined by single dashes.
pub open spec fn endpoint_name(node: Seq<char>, pod: Seq<char>, endpoint: Seq<char>) -> Seq<char> {
    escaped(node) + "-"@ + escaped(ORCHESTRATOR_K8S@) + "-"@ + escaped(pod) + "-"@ + escaped(
        endpoint_or_default(endpoint),
    )
}

/// The name of an endpoint. An empty endpoint stands for the default one.
pub fn workload_endpoint_name(node: &str, pod: &str, endpoint: &str) -> (r: String)
    ensures
        r@ == endpoint_name(node@, pod@, endpoint@),
{
    let mut s = escape_segment(node);
    s.push_str("-");
    s.push_str(escape_segment(ORCHESTRATOR_K8S).as_str());
    s.push_str("-");
    s.push_str(escape_segment(pod).as_str());
    s.push_str("-");
    if endpoint.is_empty() {
        s.push_str(escape_segment(DEFAULT_ENDPOINT).as_str());
    } else {
        s.push_str(escape_segment(endpoint).as_str());
    }
    s
}

/// Escaping goes character by character.
proof fn lemma_escape_step(s: Seq<char>)
    requires
        s.len() > 0,
    ensures
        escaped(s) == (if s[0] == '-' {
            seq!['-', '-']
        } else {
            seq![s[0]]
        }) + escaped(s.skip(1)),
{
    reveal_strlit("-");
    reveal_strlit("--");
    assert(s.subrange(0, 1) =~= seq![s[0]]);
    assert("-"@ =~= seq!['-']);
    assert("--"@ =~= seq!['-', '-']);
    assert((s.subrange(0, 1) == "-"@) == (s[0] == '-')) by {
        if s.subrange(0, 1) == "-"@ {
            assert(s.subrange(0, 1)[0] == "-"@[0]);
        }
    }
}

/// Whether a text can stand behind an escaped segment: it is empty, or a single dash with
/// something else behind it.
spec fn follows_segment(r: Seq<char>) -> bool {
    r.len() == 0 || (r.len() > 1 && r[0] == '-' && r[1] != '-')
}

/// An escaped segment ends where a single dash stands.
proof fn lemma_segment_ends(s: Seq<char>, r: Seq<char>, t: Seq<char>, q: Seq<char>)
    requires
        follows_segment(r),
        follows_segment(q),
        escaped(s) + r == escaped(t) + q,
    ensures
        s == t,
        r == q,
    decreases s.len(),
{
    let a = escaped(s) + r;
    let b = escaped(t) + q;
    if s.len() == 0 && t.len() == 0 {
        assert(escaped(s) =~= Seq::<char>::empty());
        assert(escaped(t) =~= Seq::<char>::empty());
        assert(a =~= r);
        assert(b =~= q);
        assert(s =~= t);
    } else if s.len() == 0 {
        assert(escaped(s) =~= Seq::<char>::empty());
        assert(a =~= r);
        lemma_escape_step(t);
        if t[0] == '-' {
            assert(b[1] == '-');
        } else {
            assert(b[0] == t[0]);
        }
    } else if t.len() == 0 {
        assert(escaped(t) =~= Seq::<char>::empty());
        assert(b =~= q);
        lemma_escape_step(s);
        if s[0] == '-' {
            assert(a[1] == '-');
        } else {
            assert(a[0] == s[0]);
        }
    } else {
        lemma_escape_step(s);
        lemma_escape_step(t);
        assert(a[0] == s[0]);
        assert(b[0] == t[0]);
        let k: int = if s[0] == '-' {
            2
        } else {
            1
        };
        assert(a.skip(k) =~= escaped(s.skip(1)) + r);
        assert(b.skip(k) =~= escaped(t.skip(1)) + q);
        lemma_segment_ends(s.skip(1), r, t.skip(1), q);
        assert(s =~= seq![s[0]] + s.skip(1));
        assert(t =~= seq![t[0]] + t.skip(1));
    }
}

/// An escaped segment begins as the segment does.
proof fn lemma_escape_first(s: Seq<char>)
    requires
        s.len() > 0,
    ensures
        escaped(s).len() > 0,
        escaped(s)[0] == s[0],
{
    lemma_escape_step(s);
}

/// Endpoints of different workloads have different names, as long as no endpoint begins
/// with a dash.
pub proof fn law_endpoint_names_are_distinct(
    node: Seq<char>,
    pod: Seq<char>,
    endpoint: Seq<char>,
    other_node: Seq<char>,
    other_pod: Seq<char>,
    other_endpoint: Seq<char>,
)
    requires
        endpoint.len() > 0 ==> endpoint[0] != '-',
        other_endpoint.len() > 0 ==> other_endpoint[0] != '-',
        endpoint_name(node, pod, endpoint) == endpoint_name(other_node, other_pod, other_endpoint),
    ensures
        node == other_node,
        pod == other_pod,
        endpoint_or_default(endpoint) == endpoint_or_default(other_endpoint),
{
    reveal_strlit("-");
    reveal_strlit("k8s");
    reveal_strlit("eth0");
    let own = endpoint_or_default(endpoint);
    let other = endpoint_or_default(other_endpoint);
    let middle = escaped(ORCHESTRATOR_K8S@);
    lemma_escape_first(ORCHESTRATOR_K8S@);
    let e = escaped(own);
    let f = escaped(other);
    lemma_escape_first(own);
    lemma_escape_first(other);
    let r = "-"@ + middle + "-"@ + escaped(pod) + "-"@ + e;
    let q = "-"@ + middle + "-"@ + escaped(other_pod) + "-"@ + f;
    assert(endpoint_name(node, pod, endpoint) =~= escaped(node) + r);
    assert(endpoint_name(other_node, other_pod, other_endpoint) =~= escaped(other_node) + q);
    assert(r[1] == middle[0]);
    assert(q[1] == middle[0]);
    lemma_segment_ends(node, r, other_node, q);
    let head = "-"@ + middle + "-"@;
    let n = head.len() as int;
    assert(r.skip(n) =~= escaped(pod) + ("-"@ + e));
    assert(q.skip(n) =~= escaped(other_pod) + ("-"@ + f));
    assert(("-"@ + e)[1] == e[0]);
    assert(("-"@ + f)[1] == f[0]);
    lemma_segment_ends(pod, "-"@ + e, other_pod, "-"@ + f);
    assert(("-"@ + e).skip(1) =~= e);
    assert(("-"@ + f).skip(1) =~= f);
    assert(e + Seq::<char>::empty() =~= e);
    assert(f + Seq::<char>::empty() =~= f);
    lemma_segment_ends(own, Seq::empty(), other, Seq::empty());
}

/// The interface name that belongs to the SHA-1 digest of a workload's identity: a fixed
/// prefix and the first eleven hexadecimal digits.
pub open spec fn veth_of_digest(digest: Seq<u8>) -> Seq<char> {
    "cali"@ + hex_of(digest).take(11)
}

/// The interface name of a workload.
pub open spec fn veth_name(namespace: Seq<char>, pod: Seq<char>) -> Seq<char> {
    veth_of_digest(sha1_of(encode_utf8(namespace + "."@ + pod)))
}

/// The interface name that belongs to the SHA-1 digest of a workload's identity.
pub fn veth_name_for_digest(digest: &[u8]) -> (r: String)
    requires
        digest@.len() == 20,
    ensures
        r@ == veth_of_digest(digest@),
        r@.len() == 15,
{
    let text = hex(digest);
    assert(hex_of(digest@).len() == 40);
    let mut s = "cali".to_owned();
    s.push_str(text.as_str().substring_char(0, 11));
    assert(hex_of(digest@).subrange(0, 11) =~= hex_of(digest@).take(11));
    proof {
        reveal_strlit("cali");
    }
    s
}

/// The interface name of a workload. It fits the kernel's limit on interface names.
pub fn veth_name_for_workload(namespace: &str, pod: &str) -> (r: String)
    ensures
        r@ == veth_name(namespace@, pod@),
        r@.len() == 15,
{
    let mut id = namespace.to_owned();
    id.push_str(".");
    id.push_str(pod);
    let digest = sha1(id.as_str().as_bytes());
    veth_name_for_digest(digest.as_slice())
}

/// The name of the profile of a service account. An empty namespace stands for `default`.
pub open spec fn account_profile(namespace: Seq<char>, account: Seq<char>) -> Seq<char> {
    SERVICE_ACCOUNT_PROFILE_PREFIX@ + (if namespace.len() == 0 {
        "default"@
    } else {
        namespace
    }) + "."@ + account
}

/// The name of the profile of a service account.
pub fn service_account_profile_name(namespace: &str, service_account: &str) -> (r: String)
    ensures
        r@ == account_profile(namespace@, service_account@),
{
    let mut s = SERVICE_ACCOUNT_PROFILE_PREFIX.to_owned();
    if namespace.is_empty() {
        s.push_str("default");
    } else {
        s.push_str(namespace);
    }
    s.push_str(".");
    s.push_str(service_account);
    s
}

/// What is read of a pod's specification.
#[derive(Debug)]
pub struct PodSpecFacts {
    /// Whether the pod uses the network of its node.
    pub host_network: Option<bool>,
    /// The node that the pod runs on.
    pub node_name: Option<String>,
    /// The service account of the pod.
    pub service_account_name: Option<String>,
}

/// What is read of a pod's status.
#[derive(Debug)]
pub struct PodStatusFacts {
    /// The addresses of the pod.
    pub pod_ips: Option<Vec<String>>,
    /// The first address of the pod.
    pub pod_ip: Option<String>,
}

/// What is read of a pod.
#[derive(Debug)]
pub struct PodFacts {
    /// Its name.
    pub name: String,
    /// Its namespace.
    pub namespace: Option<String>,
    /// The prefix that its name was generated from.
    pub generate_name: Option<String>,
    /// Its labels.
    pub labels: Labels,
    /// Its annotations.
    pub annotations: Labels,
    /// Its specification.
    pub spec: Option<PodSpecFacts>,
    /// Its status.
    pub status: Option<PodStatusFacts>,
}

/// The single-address block of an address.
pub open spec fn host_block(ip: Seq<char>) -> Seq<char> {
    if ip.contains(':') {
        ip + "/128"@
    } else {
        ip + "/32"@
    }
}

/// The single-address block of an address.
fn to_cidr(ip: &str) -> (r: String)
    ensures
        r@ == host_block(ip@),
{
    let mut s = ip.to_owned();
    if contains_char(ip, ':') {
        s.push_str("/128");
    } else {
        s.push_str("/32");
    }
    s
}

/// The address blocks of a pod: one for each of its addresses, or one for its first address
/// where no list is given.
pub open spec fn pod_blocks(status: Option<PodStatusFacts>) -> Seq<Seq<char>> {
    match status {
        None => Seq::empty(),
        Some(s) => if s.pod_ips is Some && s.pod_ips->0@.len() > 0 {
            Seq::new(s.pod_ips->0@.len(), |i: int| host_block(s.pod_ips->0@[i]@))
        } else if s.pod_ip is Some && s.pod_ip->0@.len() > 0 {
            seq![host_block(s.pod_ip->0@)]
        } else {
            Seq::empty()
        },
    }
}

/// The address blocks of a pod.
pub fn pod_ip_networks(pod: &PodFacts) -> (r: Vec<String>)
    ensures
        views(r@) == pod_blocks(pod.status),
{
    let mut out: Vec<String> = Vec::new();
    assert(views(out@) =~= Seq::<Seq<char>>::empty());
    let status = match &pod.status {
        Some(s) => s,
        None => return out,
    };
    if let Some(ips) = &status.pod_ips {
        if ips.len() > 0 {
            let ghost want = pod_blocks(pod.status);
            for i in 0..ips.len()
                invariant
                    pod.status == Some(*status),
                    status.pod_ips == Some(*ips),
                    ips@.len() > 0,
                    want == pod_blocks(pod.status),
                    views(out@) == want.take(i as int),
            {
                out.push(to_cidr(ips[i].as_str()));
                assert(views(out@) =~= want.take(i + 1));
            }
            assert(want.take(want.len() as int) =~= want);
            return out;
        }
    }
    if let Some(ip) = &status.pod_ip {
        if !ip.as_str().is_empty() {
            out.push(to_cidr(ip.as_str()));
            assert(views(out@) =~= pod_blocks(pod.status));
        }
    }
    out
}

/// A character within a JSON string.
pub open spec fn json_char(c: char) -> Seq<char> {
    if c == '"' {
        "\\\""@
    } else if c == '\\' {
        "\\\\"@
    } else if c == '\u{8}' {
        "\\b"@
    } else if c == '\u{9}' {
        "\\t"@
    } else if c == '\u{a}' {
        "\\n"@
    } else if c == '\u{c}' {
        "\\f"@
    } else if c == '\u{d}' {
        "\\r"@
    } else if c as u32 <= 31 {
        "\\u00"@ + hex_fixed(c as nat, 2)
    } else {
        seq![c]
    }
}

/// A text as a JSON string.
pub open spec fn json_string(s: Seq<char>) -> Seq<char> {
    "\""@ + concat_all(Seq::new(s.len(), |i: int| json_char(s[i]))) + "\""@
}

/// `serde_json::to_string` of a string writes it between double quotes. It escapes the
/// double quote, the backslash and the control characters below the space, in their short
/// form where JSON has one, and keeps every other character. It does not fail, since it
/// writes to memory.
#[verifier::external_body]
fn json_quoted(s: &str) -> (r: String)
    ensures
        r@ == json_string(s@),
{
    match serde_json::to_string(s) {
        Ok(t) => t,
        Err(_) => String::new(),
    }
}

/// One member of a JSON object.
pub open spec fn json_member(e: (Seq<char>, Seq<char>)) -> Seq<char> {
    json_string(e.0) + ":"@ + json_string(e.1)
}

/// A JSON object of texts.
pub open spec fn json_object(entries: Seq<(Seq<char>, Seq<char>)>) -> Seq<char> {
    "{"@ + join_spec(Seq::new(entries.len(), |i: int| json_member(entries[i])), ","@) + "}"@
}

/// A JSON object of texts.
fn json_of_labels(labels: &Labels) -> (r: String)
    ensures
        r@ == json_object(labels.deep_view()),
{
    let ghost entries = labels.deep_view();
    let ghost want = Seq::new(entries.len(), |i: int| json_member(entries[i]));
    let mut parts: Vec<String> = Vec::new();
    assert(views(parts@) =~= want.take(0));
    for i in 0..labels.entries.len()
        invariant
            entries == labels.deep_view(),
            want == Seq::new(entries.len(), |i: int| json_member(entries[i])),
            views(parts@) == want.take(i as int),
    {
        let (k, v) = &labels.entries[i];
        assert(entries[i as int] == (k@, v@));
        let mut s = json_quoted(k.as_str());
        s.push_str(":");
        s.push_str(json_quoted(v.as_str()).as_str());
        parts.push(s);
        assert(views(parts@) =~= want.take(i + 1));
    }
    assert(want.take(want.len() as int) =~= want);
    let mut s = "{".to_owned();
    s.push_str(join(&parts, ",").as_str());
    s.push_str("}");
    s
}

/// The members of the metadata that is carried through storage: the name prefix, the labels
/// and the annotations, each where it is not empty, and a creation time that is never set.
pub open spec fn metadata_members(
    generate_name: Seq<char>,
    labels: Seq<(Seq<char>, Seq<char>)>,
    annotations: Seq<(Seq<char>, Seq<char>)>,
) -> Seq<Seq<char>> {
    (if generate_name.len() > 0 {
        seq!["\"generateName\":"@ + json_string(generate_name)]
    } else {
        Seq::empty()
    }) + seq!["\"creationTimestamp\":null"@] + (if labels.len() > 0 {
        seq!["\"labels\":"@ + json_object(labels)]
    } else {
        Seq::empty()
    }) + (if annotations.len() > 0 {
        seq!["\"annotations\":"@ + json_object(annotations)]
    } else {
        Seq::empty()
    })
}

/// The metadata that is carried through storage, as JSON.
pub open spec fn metadata_json(
    generate_name: Seq<char>,
    labels: Seq<(Seq<char>, Seq<char>)>,
    annotations: Seq<(Seq<char>, Seq<char>)>,
) -> Seq<char> {
    "{"@ + join_spec(metadata_members(generate_name, labels, annotations), ","@) + "}"@
}

/// The metadata that is carried through storage, as JSON.
fn metadata_text(generate_name: &str, labels: &Labels, annotations: &Labels) -> (r: String)
    ensures
        r@ == metadata_json(generate_name@, labels.deep_view(), annotations.deep_view()),
{
    let mut parts: Vec<String> = Vec::new();
    if !generate_name.is_empty() {
        let mut s = "\"generateName\":".to_owned();
        s.push_str(json_quoted(generate_name).as_str());
        parts.push(s);
    }
    parts.push("\"creationTimestamp\":null".to_owned());
    if !labels.is_empty() {
        let mut s = "\"labels\":".to_owned();
        s.push_str(json_of_labels(labels).as_str());
        parts.push(s);
    }
    if !annotations.is_empty() {
        let mut s = "\"annotations\":".to_owned();
        s.push_str(json_of_labels(annotations).as_str());
        parts.push(s);
    }
    assert(views(parts@) =~= metadata_members(
        generate_name@,
        labels.deep_view(),
        annotations.deep_view(),
    ));
    let mut s = "{".to_owned();
    s.push_str(join(&parts, ",").as_str());
    s.push_str("}");
    s
}

/// The endpoint that a pod becomes: its name, its specification, and what goes into its
/// metadata.
#[derive(Debug, PartialEq, Eq)]
pub struct WorkloadEndpointConversion {
    /// The name of the endpoint.
    pub name: String,
    /// The specification of the endpoint.
    pub spec: WorkloadEndpointSpec,
    /// The labels of the endpoint.
    pub labels: Labels,
    /// The annotations of the endpoint.
    pub annotations: Labels,
}

/// The text, or an empty one.
pub open spec fn or_empty(s: Option<String>) -> Seq<char> {
    match s {
        Some(t) => t@,
        None => Seq::empty(),
    }
}

/// The text, or an empty one.
fn text_or_empty(s: &Option<String>) -> (r: String)
    ensures
        r@ == or_empty(*s),
{
    match s {
        Some(t) => t.clone(),
        None => String::new(),
    }
}

/// Whether a pod becomes an endpoint: it has a network of its own, a node and an address.
pub open spec fn is_ready(pod: PodFacts) -> bool {
    &&& pod.spec is Some
    &&& pod.spec->0.host_network != Some(true)
    &&& or_empty(pod.spec->0.node_name).len() > 0
    &&& pod_blocks(pod.status).len() > 0
}

/// The labels of the endpoint: those of the pod, its namespace, the orchestrator, and its
/// service account where that is short enough for a label.
pub open spec fn endpoint_labels(pod: PodFacts) -> Map<Seq<char>, Seq<char>> {
    let account = or_empty(pod.spec->0.service_account_name);
    let labels = deep_map(pod.labels.map()).insert(
        LABEL_NAMESPACE@,
        or_empty(pod.namespace),
    ).insert(LABEL_ORCHESTRATOR@, ORCHESTRATOR_K8S@);
    if account.len() > 0 && (encode_utf8(account).len() as usize) < 63 {
        labels.insert(LABEL_SERVICE_ACCOUNT@, account)
    } else {
        labels
    }
}

/// The profiles of the endpoint: that of the namespace and, where there is one, that of the
/// service account.
pub open spec fn endpoint_profiles(pod: PodFacts) -> Seq<Seq<char>> {
    let account = or_empty(pod.spec->0.service_account_name);
    let own = seq![NAMESPACE_PROFILE_PREFIX@ + or_empty(pod.namespace)];
    if account.len() > 0 {
        own.push(account_profile(or_empty(pod.namespace), account))
    } else {
        own
    }
}

/// The specification of the endpoint.
pub open spec fn endpoint_spec(pod: PodFacts) -> WorkloadEndpointSpecView {
    let account = or_empty(pod.spec->0.service_account_name);
    WorkloadEndpointSpecView {
        node: or_empty(pod.spec->0.node_name),
        orchestrator: ORCHESTRATOR_K8S@,
        workload: Seq::empty(),
        endpoint: DEFAULT_ENDPOINT@,
        pod: pod.name@,
        container_id: Seq::empty(),
        interface_name: veth_name(or_empty(pod.namespace), pod.name@),
        mac: None,
        ipnetworks: pod_blocks(pod.status),
        profiles: endpoint_profiles(pod),
        ports: Seq::<WorkloadPortView>::empty(),
        service_account_name: if account.len() > 0 {
            Some(account)
        } else {
            None
        },
        allow_spoofed_source_prefixes: Seq::empty(),
    }
}

/// The annotation on networks, where the pod has it.
pub open spec fn status_annotations(pod: PodFacts) -> Map<Seq<char>, Seq<char>> {
    let ann = deep_map(pod.annotations.map());
    if ann.dom().contains(NETWORK_STATUS_ANNOTATION@) && ann[NETWORK_STATUS_ANNOTATION@].len() > 0 {
        Map::empty().insert(NETWORK_STATUS_ANNOTATION@, ann[NETWORK_STATUS_ANNOTATION@])
    } else {
        Map::empty()
    }
}

/// The annotations of the endpoint.
pub open spec fn endpoint_annotations(pod: PodFacts) -> Map<Seq<char>, Seq<char>> {
    status_annotations(pod).insert(
        METADATA_ANNOTATION@,
        metadata_json(
            or_empty(pod.generate_name),
            listing::<String, Seq<char>>(endpoint_labels(pod)),
            listing::<String, Seq<char>>(status_annotations(pod)),
        ),
    )
}

/// The endpoint that a pod becomes, if it becomes one.
pub fn pod_to_workload_endpoint(pod: &PodFacts) -> (r: Option<WorkloadEndpointConversion>)
    requires
        pod.labels.wf(),
        pod.annotations.wf(),
    ensures
        r is Some <==> is_ready(*pod),
        r matches Some(c) ==> {
            &&& c.name@ == endpoint_name(
                or_empty(pod.spec->0.node_name),
                pod.name@,
                DEFAULT_ENDPOINT@,
            )
            &&& c.spec.deep_view() == endpoint_spec(*pod)
            &&& c.labels.wf()
            &&& deep_map(c.labels.map()) == endpoint_labels(*pod)
            &&& c.annotations.wf()
            &&& deep_map(c.annotations.map()) == endpoint_annotations(*pod)
        },
{
    let spec = match &pod.spec {
        Some(s) => s,
        None => return None,
    };
    if let Some(h) = spec.host_network {
        if h {
            return None;
        }
    }
    let node = text_or_empty(&spec.node_name);
    if node.as_str().is_empty() {
        return None;
    }
    let ipnetworks = pod_ip_networks(pod);
    assert(views(ipnetworks@).len() == ipnetworks@.len());
    if ipnetworks.len() == 0 {
        return None;
    }
    let namespace = text_or_empty(&pod.namespace);
    let name = workload_endpoint_name(node.as_str(), pod.name.as_str(), DEFAULT_ENDPOINT);
    let account = text_or_empty(&spec.service_account_name);
    let has_account = !account.as_str().is_empty();

    let mut profiles: Vec<String> = Vec::new();
    profiles.push(profile_name(namespace.as_str()));
    if has_account {
        profiles.push(service_account_profile_name(namespace.as_str(), account.as_str()));
    }
    assert(views(profiles@) =~= endpoint_profiles(*pod));

    let mut labels = pod.labels.clone();
    labels.insert(LABEL_NAMESPACE.to_owned(), namespace.clone());
    labels.insert(LABEL_ORCHESTRATOR.to_owned(), ORCHESTRATOR_K8S.to_owned());
    if has_account && account.as_str().len() < 63 {
        labels.insert(LABEL_SERVICE_ACCOUNT.to_owned(), account.clone());
    }
    assert(deep_map(labels.map()) == endpoint_labels(*pod));

    let wep_spec = WorkloadEndpointSpec {
        node,
        orchestrator: ORCHESTRATOR_K8S.to_owned(),
        workload: String::new(),
        endpoint: DEFAULT_ENDPOINT.to_owned(),
        pod: pod.name.clone(),
        container_id: String::new(),
        interface_name: veth_name_for_workload(namespace.as_str(), pod.name.as_str()),
        mac: None,
        ipnetworks,
        profiles,
        ports: Vec::new(),
        service_account_name: if has_account {
            Some(account)
        } else {
            None
        },
        allow_spoofed_source_prefixes: Vec::new(),
    };
    assert(wep_spec.deep_view().ipnetworks =~= views(ipnetworks@));
    assert(wep_spec.deep_view().profiles =~= views(profiles@));
    assert(wep_spec.deep_view() =~= endpoint_spec(*pod));

    let mut annotations: Labels = OrdMap::new();
    assert(deep_map(annotations.map()) =~= Map::<Seq<char>, Seq<char>>::empty());
    if let Some(v) = pod.annotations.lookup(NETWORK_STATUS_ANNOTATION) {
        assert(deep_map(pod.annotations.map())[NETWORK_STATUS_ANNOTATION@] == v@);
        if !v.as_str().is_empty() {
            annotations.insert(NETWORK_STATUS_ANNOTATION.to_owned(), v.clone());
        }
    }
    assert(deep_map(annotations.map()) == status_annotations(*pod));
    let generate_name = text_or_empty(&pod.generate_name);
    let metadata = metadata_text(generate_name.as_str(), &labels, &annotations);
    proof {
        law_contents_determine_order(labels);
        law_contents_determine_order(annotations);
    }
    annotations.insert(METADATA_ANNOTATION.to_owned(), metadata);
    Some(WorkloadEndpointConversion { name, spec: wep_spec, labels, annotations })
}

/// The name of the profile of a namespace.
pub fn profile_name(namespace: &str) -> (r: String)
    ensures
        r@ == NAMESPACE_PROFILE_PREFIX@ + namespace@,
{
    let mut s = NAMESPACE_PROFILE_PREFIX.to_owned();
    s.push_str(namespace);
    s
}

/// Traffic of any kind, from anywhere or to anywhere.
pub open spec fn anything() -> EntityRuleView {
    EntityRuleView {
        selector: None,
        namespace_selector: None,
        nets: Seq::empty(),
        not_nets: Seq::empty(),
        ports: Seq::empty(),
    }
}

/// The rule that allows everything.
pub open spec fn allow_all() -> RuleView {
    RuleView {
        action: Action::Allow,
        protocol: None,
        source: anything(),
        destination: anything(),
    }
}

/// The rule that allows everything.
fn allow_rule() -> (r: Rule)
    ensures
        r.deep_view() == allow_all(),
{
    let r = Rule {
        action: Action::Allow,
        protocol: None,
        source: EntityRule::default(),
        destination: EntityRule::default(),
    };
    assert(r.deep_view().source =~= anything());
    assert(r.deep_view().destination =~= anything());
    r
}

/// Labels with a prefix before each key.
pub open spec fn with_prefix(prefix: Seq<char>, labels: Seq<(Seq<char>, Seq<char>)>) -> Seq<
    (Seq<char>, Seq<char>),
> {
    Seq::new(labels.len(), |i: int| (prefix + labels[i].0, labels[i].1))
}

/// The profile that allows everything and applies the given labels under a prefix.
pub open spec fn open_profile(prefix: Seq<char>, labels: Seq<(Seq<char>, Seq<char>)>) -> ProfileSpecView {
    ProfileSpecView {
        ingress: seq![allow_all()],
        egress: seq![allow_all()],
        labels_to_apply: with_prefix(prefix, labels),
    }
}

/// A common prefix does not change the order.
proof fn lemma_prefix_keeps_order(p: Seq<char>, a: Seq<char>, b: Seq<char>)
    ensures
        text_less(p + a, p + b) == text_less(a, b),
    decreases p.len(),
{
    if p.len() == 0 {
        assert(p + a =~= a);
        assert(p + b =~= b);
    } else {
        lemma_prefix_keeps_order(p.skip(1), a, b);
        assert((p + a).skip(1) =~= p.skip(1) + a);
        assert((p + b).skip(1) =~= p.skip(1) + b);
    }
}

/// Labels with a prefix before each key.
fn prefixed(prefix: &str, labels: &Labels) -> (r: Labels)
    requires
        labels.wf(),
    ensures
        r.wf(),
        r.deep_view() == with_prefix(prefix@, labels.deep_view()),
{
    let mut entries: Vec<(String, String)> = Vec::new();
    for i in 0..labels.entries.len()
        invariant
            entries@.len() == i,
            forall|j: int|
                0 <= j < i ==> (#[trigger] entries@[j]).0@ == prefix@ + labels.entries@[j].0@
                    && entries@[j].1@ == labels.entries@[j].1@,
    {
        let (k, v) = &labels.entries[i];
        let mut s = prefix.to_owned();
        s.push_str(k.as_str());
        entries.push((s, v.clone()));
    }
    let r: Labels = OrdMap { entries };
    assert forall|i: int, j: int| 0 <= i < j < r.entries@.len() implies text_less(
        (#[trigger] r.entries@[i]).0.deep_view(),
        (#[trigger] r.entries@[j]).0.deep_view(),
    ) by {
        lemma_prefix_keeps_order(prefix@, labels.entries@[i].0@, labels.entries@[j].0@);
    }
    assert(r.deep_view() =~= with_prefix(prefix@, labels.deep_view()));
    r
}

/// The profile that allows everything and applies the given labels under a prefix.
fn open_profile_spec(prefix: &str, labels: &Labels) -> (r: ProfileSpec)
    requires
        labels.wf(),
    ensures
        r.deep_view() == open_profile(prefix@, labels.deep_view()),
        r.labels_to_apply.wf(),
{
    let mut ingress: Vec<Rule> = Vec::new();
    push_item(&mut ingress, allow_rule());
    let mut egress: Vec<Rule> = Vec::new();
    push_item(&mut egress, allow_rule());
    let r = ProfileSpec { ingress, egress, labels_to_apply: prefixed(prefix, labels) };
    assert(r.deep_view().ingress =~= seq![allow_all()]);
    assert(r.deep_view().egress =~= seq![allow_all()]);
    r
}

/// The profile of a namespace with the given labels.
pub fn namespace_to_profile(namespace: &str, labels: &Labels) -> (r: (String, ProfileSpec))
    requires
        labels.wf(),
    ensures
        r.0@ == NAMESPACE_PROFILE_PREFIX@ + namespace@,
        r.1.deep_view() == open_profile(NAMESPACE_LABEL_PREFIX@, labels.deep_view()),
        r.1.labels_to_apply.wf(),
{
    (profile_name(namespace), open_profile_spec(NAMESPACE_LABEL_PREFIX, labels))
}

/// What is read of a namespace or a service account.
#[derive(Debug)]
pub struct NamedLabels {
    /// Its name.
    pub name: String,
    /// Its labels.
    pub labels: Labels,
}

/// The profile of a namespace.
pub fn namespace_object_to_profile(ns: &NamedLabels) -> (r: (String, ProfileSpec))
    requires
        ns.labels.wf(),
    ensures
        r.0@ == NAMESPACE_PROFILE_PREFIX@ + ns.name@,
        r.1.deep_view() == open_profile(NAMESPACE_LABEL_PREFIX@, ns.labels.deep_view()),
        r.1.labels_to_apply.wf(),
{
    namespace_to_profile(ns.name.as_str(), &ns.labels)
}

/// The profile of a service account.
pub fn service_account_to_profile(namespace: &str, sa: &NamedLabels) -> (r: (String, ProfileSpec))
    requires
        sa.labels.wf(),
    ensures
        r.0@ == account_profile(namespace@, sa.name@),
        r.1.deep_view() == open_profile(SERVICE_ACCOUNT_LABEL_PREFIX@, sa.labels.deep_view()),
        r.1.labels_to_apply.wf(),
{
    (
        service_account_profile_name(namespace, sa.name.as_str()),
        open_profile_spec(SERVICE_ACCOUNT_LABEL_PREFIX, &sa.labels),
    )
}

/// The first internal address of a node.
pub fn node_internal_ip(addresses: &Vec<NodeAddress>) -> (r: Option<String>)
    ensures
        r.deep_view() == internal_from(addresses@, 0),
{
    let mut i: usize = 0;
    while i < addresses.len()
        invariant
            i <= addresses@.len(),
            internal_from(addresses@, 0) == internal_from(addresses@, i as int),
        decreases addresses.len() - i,
    {
        let a = &addresses[i];
        if str_eq(a.kind.as_str(), "InternalIP") {
            return Some(a.address.clone());
        }
        i = i + 1;
    }
    None
}

/// The node that a node of Kubernetes becomes.
pub open spec fn node_spec(name: Seq<char>, addresses: Seq<NodeAddress>) -> NodeSpecView {
    NodeSpecView {
        bgp: match internal_from(addresses, 0) {
            Some(ip) => Some(NodeBgpSpecView { ipv4_address: Some(ip) }),
            None => None,
        },
        ipv4_vxlan_tunnel_addr: None,
        ipv6_vxlan_tunnel_addr: None,
        orch_refs: seq![OrchRefView { node_name: Some(name), orchestrator: ORCHESTRATOR_K8S@ }],
    }
}

/// The node that a node of Kubernetes becomes: it refers to it by its name, and speaks BGP
/// from its first internal address where it has one.
pub fn node_to_calico_node(name: &str, addresses: &Vec<NodeAddress>) -> (r: (String, NodeSpec))
    ensures
        r.0@ == name@,
        r.1.deep_view() == node_spec(name@, addresses@),
{
    let bgp = match node_internal_ip(addresses) {
        Some(ip) => Some(NodeBgpSpec { ipv4_address: Some(ip) }),
        None => None,
    };
    let mut orch_refs: Vec<OrchRef> = Vec::new();
    push_item(
        &mut orch_refs,
        OrchRef { node_name: Some(name.to_owned()), orchestrator: ORCHESTRATOR_K8S.to_owned() },
    );
    let spec = NodeSpec {
        bgp,
        ipv4_vxlan_tunnel_addr: None,
        ipv6_vxlan_tunnel_addr: None,
        orch_refs,
    };
    assert(spec.deep_view() =~= node_spec(name@, addresses@));
    (name.to_owned(), spec)
}

/// Whether a block holds one address alone: the address with the whole length of its family
/// behind it.
pub open spec fn holds_only(block: Seq<char>, ip: Seq<char>) -> bool {
    block == (if ip.contains(':') {
        ip + "/128"@
    } else {
        ip + "/32"@
    })
}

/// The addresses of a pod: the list that its status gives, or the one address where there is
/// no such list.
pub open spec fn addresses_of(pod: PodFacts) -> Seq<Seq<char>> {
    if pod.status is None {
        Seq::empty()
    } else {
        let s = pod.status->0;
        if s.pod_ips is Some && s.pod_ips->0@.len() > 0 {
            views(s.pod_ips->0@)
        } else if or_empty(s.pod_ip).len() > 0 {
            seq![or_empty(s.pod_ip)]
        } else {
            Seq::empty()
        }
    }
}

/// A pod becomes an endpoint exactly where it is given a specification, has its own network,
/// runs on a node and has an address.
pub proof fn law_pods_with_their_own_network_become_endpoints(pod: PodFacts)
    ensures
        is_ready(pod) <==> {
            &&& pod.spec is Some
            &&& pod.spec->0.host_network is None || !pod.spec->0.host_network->0
            &&& pod.spec->0.node_name is Some
            &&& pod.spec->0.node_name->0@.len() > 0
            &&& addresses_of(pod).len() > 0
        },
{
}

/// The endpoint of a pod is the pod's: it is on the pod's node, bears the pod's name, and has
/// one block for each of its addresses, in their order. The profile of its namespace comes
/// first and that of its service account behind it, where it has one.
pub proof fn law_endpoint_is_the_pods(pod: PodFacts)
    requires
        is_ready(pod),
    ensures
        ({
            let s = endpoint_spec(pod);
            let account = or_empty(pod.spec->0.service_account_name);
            let namespace = or_empty(pod.namespace);
            &&& pod.spec->0.node_name matches Some(n)
            &&& s.node == n@
            &&& s.pod == pod.name@
            &&& s.orchestrator == "k8s"@
            &&& s.endpoint == "eth0"@
            &&& s.workload.len() == 0
            &&& s.container_id.len() == 0
            &&& s.mac is None
            &&& s.ports.len() == 0
            &&& s.allow_spoofed_source_prefixes.len() == 0
            &&& s.interface_name == veth_name(namespace, pod.name@)
            &&& s.ipnetworks.len() == addresses_of(pod).len()
            &&& forall|i: int|
                0 <= i < s.ipnetworks.len() ==> holds_only(
                    #[trigger] s.ipnetworks[i],
                    addresses_of(pod)[i],
                )
            &&& s.service_account_name is Some <==> account.len() > 0
            &&& account.len() > 0 ==> s.service_account_name == Some(account)
            &&& s.profiles.len() == (if account.len() > 0 {
                2nat
            } else {
                1nat
            })
            &&& s.profiles[0] == "kns."@ + namespace
            &&& account.len() > 0 && namespace.len() > 0 ==> s.profiles[1] == "ksa."@ + namespace
                + "."@ + account
            &&& account.len() > 0 && namespace.len() == 0 ==> s.profiles[1] == "ksa."@
                + "default"@ + "."@ + account
        }),
{
    let status = pod.status->0;
    if status.pod_ips is Some && status.pod_ips->0@.len() > 0 {
        assert forall|i: int| 0 <= i < pod_blocks(pod.status).len() implies holds_only(
            #[trigger] pod_blocks(pod.status)[i],
            addresses_of(pod)[i],
        ) by {
            assert(addresses_of(pod)[i] == status.pod_ips->0@[i]@);
        }
    }
}

/// The labels of an endpoint are those of its pod, but that three are given by where it runs:
/// its namespace, its orchestrator, and its service account where the name fits a label.
pub proof fn law_endpoint_keeps_the_pods_labels(pod: PodFacts, name: Seq<char>)
    requires
        is_ready(pod),
    ensures
        ({
            let labels = endpoint_labels(pod);
            let own = deep_map(pod.labels.map());
            let account = or_empty(pod.spec->0.service_account_name);
            let fits = account.len() > 0 && (encode_utf8(account).len() as usize) < 63;
            &&& labels.dom().contains("projectcalico.org/namespace"@)
            &&& labels["projectcalico.org/namespace"@] == or_empty(pod.namespace)
            &&& labels.dom().contains("projectcalico.org/orchestrator"@)
            &&& labels["projectcalico.org/orchestrator"@] == "k8s"@
            &&& fits ==> labels.dom().contains("projectcalico.org/serviceaccount"@)
                && labels["projectcalico.org/serviceaccount"@] == account
            &&& name != "projectcalico.org/namespace"@ && name != "projectcalico.org/orchestrator"@
                && !(fits && name == "projectcalico.org/serviceaccount"@) ==> labels.dom().contains(
                name,
            ) == own.dom().contains(name) && (own.dom().contains(name) ==> labels[name]
                == own[name])
        }),
{
    reveal_strlit("projectcalico.org/namespace");
    reveal_strlit("projectcalico.org/orchestrator");
    reveal_strlit("projectcalico.org/serviceaccount");
    assert("projectcalico.org/namespace"@.len() == 27);
    assert("projectcalico.org/orchestrator"@.len() == 30);
    assert("projectcalico.org/serviceaccount"@.len() == 32);
}

/// An endpoint carries what its pod is called and labelled with, and the network status of
/// its pod where that is not empty; nothing else.
pub proof fn law_endpoint_annotations(pod: PodFacts, name: Seq<char>)
    ensures
        ({
            let ann = endpoint_annotations(pod);
            let own = deep_map(pod.annotations.map());
            let status = "k8s.v1.cni.cncf.io/network-status"@;
            let kept = own.dom().contains(status) && own[status].len() > 0;
            &&& ann.dom().contains(name) <==> name == "projectcalico.org/metadata"@ || (kept && name
                == status)
            &&& kept ==> ann[status] == own[status]
        }),
{
    reveal_strlit("projectcalico.org/metadata");
    reveal_strlit("k8s.v1.cni.cncf.io/network-status");
    assert("projectcalico.org/metadata"@.len() == 26);
    assert("k8s.v1.cni.cncf.io/network-status"@.len() == 33);
}

/// The profiles that an endpoint names are those that its namespace and its service account
/// become, under the names that they are given there.
pub proof fn law_endpoint_names_existing_profiles(pod: PodFacts)
    requires
        is_ready(pod),
    ensures
        endpoint_spec(pod).profiles.len() > 0,
        endpoint_spec(pod).profiles[0] == NAMESPACE_PROFILE_PREFIX@ + or_empty(pod.namespace),
        forall|i: int|
            1 <= i < endpoint_spec(pod).profiles.len() ==> #[trigger] endpoint_spec(pod).profiles[i]
                == account_profile(
                or_empty(pod.namespace),
                or_empty(pod.spec->0.service_account_name),
            ),
{
}

/// A profile made of labels allows everything in both directions and applies each label under
/// the prefix, and no other.
pub proof fn law_profile_applies_prefixed_labels(
    prefix: Seq<char>,
    labels: Seq<(Seq<char>, Seq<char>)>,
    e: (Seq<char>, Seq<char>),
)
    ensures
        ({
            let p = open_profile(prefix, labels);
            &&& p.ingress.len() == 1
            &&& p.egress.len() == 1
            &&& allows_everything(p.ingress[0])
            &&& allows_everything(p.egress[0])
            &&& p.labels_to_apply.len() == labels.len()
            &&& p.labels_to_apply.contains(e) <==> exists|i: int|
                0 <= i < labels.len() && e.0 == prefix + (#[trigger] labels[i]).0 && e.1
                    == labels[i].1
        }),
{
    let all = open_profile(prefix, labels).labels_to_apply;
    if all.contains(e) {
        let i = all.index_of(e);
        assert(e.0 == prefix + labels[i].0 && e.1 == labels[i].1);
    }
    if exists|i: int|
        0 <= i < labels.len() && e.0 == prefix + (#[trigger] labels[i]).0 && e.1 == labels[i].1 {
        let i = choose|i: int|
            0 <= i < labels.len() && e.0 == prefix + (#[trigger] labels[i]).0 && e.1
                == labels[i].1;
        assert(all[i] == e);
    }
}

/// Whether a rule allows whatever it is asked about.
pub open spec fn allows_everything(r: RuleView) -> bool {
    &&& r.action == Action::Allow
    &&& r.protocol is None
    &&& leaves_open(r.source)
    &&& leaves_open(r.destination)
}

/// Whether a side of a rule leaves everything open.
pub open spec fn leaves_open(er: EntityRuleView) -> bool {
    er.selector is None && er.namespace_selector is None && er.nets.len() == 0 && er.not_nets.len()
        == 0 && er.ports.len() == 0
}

/// A node's address is that of the first of its internal addresses, and it has one exactly
/// where there is such an address.
pub proof fn law_node_has_its_first_internal_address(
    name: Seq<char>,
    addresses: Seq<NodeAddress>,
    i: int,
)
    requires
        0 <= i <= addresses.len(),
        forall|j: int| 0 <= j < i ==> (#[trigger] addresses[j]).kind@ != "InternalIP"@,
        i < addresses.len() ==> addresses[i].kind@ == "InternalIP"@,
    ensures
        ({
            let s = node_spec(name, addresses);
            &&& s.bgp is Some <==> i < addresses.len()
            &&& i < addresses.len() ==> s.bgp->0.ipv4_address == Some(addresses[i].address@)
            &&& s.ipv4_vxlan_tunnel_addr is None
            &&& s.ipv6_vxlan_tunnel_addr is None
            &&& s.orch_refs.len() == 1
            &&& s.orch_refs[0].node_name == Some(name)
            &&& s.orch_refs[0].orchestrator == "k8s"@
        }),
{
    lemma_first_internal(addresses, 0, i);
}

/// What the letter behind a backslash stands for.
pub open spec fn escape_meaning(c: char) -> Option<char> {
    if c == '"' || c == '\\' || c == '/' {
        Some(c)
    } else if c == 'b' {
        Some('\u{8}')
    } else if c == 't' {
        Some('\u{9}')
    } else if c == 'n' {
        Some('\u{a}')
    } else if c == 'f' {
        Some('\u{c}')
    } else if c == 'r' {
        Some('\u{d}')
    } else {
        None
    }
}

/// The text that the inside of a JSON string stands for. A quote that is not escaped, and a
/// character that has to be, stand for nothing.
pub open spec fn json_meaning(s: Seq<char>) -> Option<Seq<char>>
    decreases s.len(),
{
    if s.len() == 0 {
        Some(Seq::empty())
    } else if s[0] == '"' || (s[0] as u32) < 32 {
        None
    } else if s[0] != '\\' {
        match json_meaning(s.skip(1)) {
            Some(rest) => Some(seq![s[0]] + rest),
            None => None,
        }
    } else if s.len() > 1 && s[1] != 'u' {
        match (escape_meaning(s[1]), json_meaning(s.skip(2))) {
            (Some(c), Some(rest)) => Some(seq![c] + rest),
            _ => None,
        }
    } else if s.len() > 5 {
        match (hex_run(s.subrange(2, 6)), json_meaning(s.skip(6))) {
            (Some(n), Some(rest)) => Some(seq![n as char] + rest),
            _ => None,
        }
    } else {
        None
    }
}

/// A digit of a hexadecimal number is read as what it was written for.
proof fn lemma_hex_char(d: nat)
    requires
        d < 16,
    ensures
        crate::vxlan::hex_digit(crate::nft::hex_char(d)) == Some(d),
{
}

/// One character of a JSON string, and what stands behind it.
proof fn lemma_json_char(c: char, rest: Seq<char>)
    requires
        json_meaning(rest) is Some,
    ensures
        json_meaning(json_char(c) + rest) == Some(seq![c] + json_meaning(rest)->0),
{
    reveal_strlit("\\\"");
    reveal_strlit("\\\\");
    reveal_strlit("\\b");
    reveal_strlit("\\t");
    reveal_strlit("\\n");
    reveal_strlit("\\f");
    reveal_strlit("\\r");
    reveal_strlit("\\u00");
    let all = json_char(c) + rest;
    if c == '"' || c == '\\' || c == '\u{8}' || c == '\u{9}' || c == '\u{a}' || c == '\u{c}' || c
        == '\u{d}' {
        assert(all[0] == '\\');
        assert(all[1] == json_char(c)[1]);
        assert(all.skip(2) =~= rest);
    } else if c as u32 <= 31 {
        let n = c as nat;
        reveal_with_fuel(hex_fixed, 3);
        assert(hex_fixed(n, 2) =~= seq![
            crate::nft::hex_char(n / 16 % 16),
            crate::nft::hex_char(n % 16),
        ]);
        assert(all[0] == '\\' && all[1] == 'u');
        assert(all.skip(6) =~= rest);
        let digits = all.subrange(2, 6);
        let a = crate::nft::hex_char(n / 16 % 16);
        let b = crate::nft::hex_char(n % 16);
        assert(digits =~= seq!['0', '0', a, b]);
        lemma_hex_char(n / 16 % 16);
        lemma_hex_char(n % 16);
        let d3 = digits.drop_last();
        let d2 = d3.drop_last();
        let d1 = d2.drop_last();
        assert(d3 =~= seq!['0', '0', a]);
        assert(d2 =~= seq!['0', '0']);
        assert(d1 =~= seq!['0']);
        assert(d1.drop_last() =~= Seq::<char>::empty());
        assert(hex_run(d1.drop_last()) == Some(0nat));
        assert(hex_run(d1) == Some(0nat));
        assert(hex_run(d2) == Some(0nat));
        assert(hex_run(d3) == Some(n / 16 % 16));
        assert(hex_run(digits) == Some(n));
    } else {
        assert(all[0] == c);
        assert(all.skip(1) =~= rest);
    }
}

/// A text written as a JSON string stands between quotes and is read back as it was, whatever
/// characters it holds.
pub proof fn law_json_strings_are_read_back(s: Seq<char>)
    ensures
        ({
            let j = json_string(s);
            &&& j.len() >= 2
            &&& j[0] == '"'
            &&& j.last() == '"'
            &&& json_meaning(j.subrange(1, j.len() - 1)) == Some(s)
        }),
{
    reveal_strlit("\"");
    let inner = concat_all(Seq::new(s.len(), |i: int| json_char(s[i])));
    lemma_json_inner(s);
    let j = json_string(s);
    assert(j.subrange(1, j.len() - 1) =~= inner);
}

/// The inside of a JSON string is read back.
proof fn lemma_json_inner(s: Seq<char>)
    ensures
        json_meaning(concat_all(Seq::new(s.len(), |i: int| json_char(s[i])))) == Some(s),
    decreases s.len(),
{
    let blocks = Seq::new(s.len(), |i: int| json_char(s[i]));
    if s.len() == 0 {
        assert(concat_all(blocks) =~= Seq::<char>::empty());
    } else {
        let tail = s.skip(1);
        let more = Seq::new(tail.len(), |i: int| json_char(tail[i]));
        lemma_json_inner(tail);
        lemma_concat_front(blocks, blocks.len());
        assert(blocks.skip(1) =~= more);
        lemma_json_char(s[0], concat_all(more));
        assert(seq![s[0]] + tail =~= s);
    }
}

/// The metadata of an endpoint holds the name that its pod was generated from, its labels and
/// its annotations, each exactly where there is any, and that it has no time of creation;
/// nothing else, and each once.
pub proof fn law_metadata_holds_what_there_is(
    generate_name: Seq<char>,
    labels: Seq<(Seq<char>, Seq<char>)>,
    annotations: Seq<(Seq<char>, Seq<char>)>,
    member: Seq<char>,
)
    ensures
        ({
            let all = metadata_members(generate_name, labels, annotations);
            let named = generate_name.len() > 0;
            let labelled = labels.len() > 0;
            let annotated = annotations.len() > 0;
            &&& all.contains(member) <==> {
                ||| named && member == "\"generateName\":"@ + json_string(generate_name)
                ||| member == "\"creationTimestamp\":null"@
                ||| labelled && member == "\"labels\":"@ + json_object(labels)
                ||| annotated && member == "\"annotations\":"@ + json_object(annotations)
            }
            &&& all.len() == 1 + (if named {
                1nat
            } else {
                0nat
            }) + (if labelled {
                1nat
            } else {
                0nat
            }) + (if annotated {
                1nat
            } else {
                0nat
            })
        }),
{
    let all = metadata_members(generate_name, labels, annotations);
    let named = generate_name.len() > 0;
    let labelled = labels.len() > 0;
    let a: int = if named {
        1
    } else {
        0
    };
    let b: int = a + 1;
    let c: int = if labelled {
        b + 1
    } else {
        b
    };
    if named {
        assert(all[0] == "\"generateName\":"@ + json_string(generate_name));
    }
    assert(all[a] == "\"creationTimestamp\":null"@);
    if labelled {
        assert(all[b] == "\"labels\":"@ + json_object(labels));
    }
    if annotations.len() > 0 {
        assert(all[c] == "\"annotations\":"@ + json_object(annotations));
    }
    if all.contains(member) {
        let i = all.index_of(member);
        assert(all[i] == member);
    }
}

} // verus!
