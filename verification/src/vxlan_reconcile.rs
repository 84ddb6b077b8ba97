//! What the VXLAN overlay needs of the other nodes.
//!
//! Every node publishes its tunnel address and hardware address. For each other node a
//! neighbour entry and a forwarding entry are programmed, and a route for each block that
//! it owns, as far as the block's pool asks for encapsulation.

use crate::ordmap::{
    deep_map, in_order, law_contents_determine_order, lemma_keys_in_order, listing, Labels, OrdMap,
};
use crate::payload::{annotation_patch, field_text, json_of, Json};
use crate::pools::{
    ipv4_form, ipv4_text, ipv4_value, law_ipv4_text_round_trips, parse_ipv4, Cidr, IpAddress,
    PoolFields,
};
use crate::resources::EncapMode;
use crate::seqs::{concat_all, concat_first, lemma_concat_member, push_item};
use crate::text::{cat, str_eq};
use crate::vxlan::{law_mac_round_trips, mac_text, mac_value, parse_mac};
use serde_json::Value;
use vstd::arithmetic::div_mod::{lemma_fundamental_div_mod, lemma_mod_multiples_basic};
use vstd::arithmetic::power2::{lemma_pow2_pos, pow2};
use vstd::prelude::*;

verus! {

broadcast use {
    crate::text::lemma_views_push,
    crate::ordmap::lemma_deep_insert,
};

/// The annotation that publishes a node's tunnel address.
pub const ANN_TUNNEL_IP: &'static str = "projectcalico.org/VXLANTunnelIPv4Address";

/// The annotation that publishes the hardware address of a node's tunnel device.
pub const ANN_TUNNEL_MAC: &'static str = "projectcalico.org/VXLANTunnelMACAddr";

/// Whether traffic to a block gets a route through the tunnel.
#[derive(Debug, Clone, Copy, PartialEq, Eq, Structural)]
pub enum EncapDecision {
    /// It does.
    Route,
    /// Its pool asks for none.
    Skip,
    /// No pool holds the block.
    NoPool,
}

impl DeepView for EncapDecision {
    type V = EncapDecision;

    open spec fn deep_view(&self) -> EncapDecision {
        *self
    }
}

/// A node's end of the tunnel.
#[derive(Debug, PartialEq, Eq)]
pub struct Vtep {
    /// Its address in the tunnel.
    pub tunnel_ip: u32,
    /// Its hardware address.
    pub mac: String,
    /// The address by which the node is reached.
    pub underlay_ip: u32,
}

/// The mathematical content of a [`Vtep`].
#[verifier::ext_equal]
pub struct VtepView {
    pub tunnel_ip: u32,
    pub mac: Seq<char>,
    pub underlay_ip: u32,
}

impl DeepView for Vtep {
    type V = VtepView;

    open spec fn deep_view(&self) -> VtepView {
        VtepView {
            tunnel_ip: self.tunnel_ip,
            mac: self.mac.deep_view(),
            underlay_ip: self.underlay_ip,
        }
    }
}

impl Clone for Vtep {
    fn clone(&self) -> (r: Self)
        ensures
            r.deep_view() == self.deep_view(),
    {
        let r = Vtep {
            tunnel_ip: self.tunnel_ip,
            mac: self.mac.clone(),
            underlay_ip: self.underlay_ip,
        };
        assert(r.deep_view() =~= self.deep_view());
        r
    }
}

/// An address of a node.
#[derive(Debug)]
pub struct NodeAddress {
    /// What the address is for.
    pub kind: String,
    /// The address.
    pub address: String,
}

/// What is read of a node.
#[derive(Debug)]
pub struct NodeFacts {
    /// Its name.
    pub name: String,
    /// Its annotations.
    pub annotations: Labels,
    /// Its addresses.
    pub addresses: Vec<NodeAddress>,
}

/// What is read of the affinity of a block to a node.
#[derive(Debug)]
pub struct AffinityFields {
    /// The node that owns the block.
    pub node: Option<String>,
    /// The block, or why its text denotes none.
    pub block: Option<Result<Cidr, String>>,
}

impl AffinityFields {
    /// Reads the specification of an affinity. `block` is the block that its text denotes.
    pub fn read(spec: &Value, block: Result<Cidr, String>) -> (r: Self)
        ensures
            r.node.deep_view() == json_of(*spec).text_at("node"@),
            r.block == (if json_of(*spec).text_at("cidr"@) is Some {
                Some(block)
            } else {
                None
            }),
    {
        let named = field_text(spec, "cidr").is_some();
        let node = field_text(spec, "node");
        AffinityFields {
            node,
            block: if named {
                Some(block)
            } else {
                None
            },
        }
    }
}

/// A pool as far as encapsulation depends on it.
#[derive(Debug, Clone, Copy, PartialEq, Eq, Structural)]
pub struct PoolEncap {
    /// Its block.
    pub cidr: Cidr,
    /// When traffic to it is encapsulated.
    pub vxlan_mode: EncapMode,
}

/// One thing to do for the overlay.
#[derive(Debug, PartialEq, Eq)]
pub enum OverlayAction {
    /// Map a tunnel address to a hardware address.
    Neighbour { tunnel_ip: u32, mac: String },
    /// Map a hardware address to the node that it is reached by.
    Forward { mac: String, node_ip: u32 },
    /// Route a block through the tunnel.
    Route { dst: u32, prefix_len: u8, gateway: u32 },
    /// Warn that no pool holds a block.
    NoPool(Cidr),
    /// Give up with an error.
    Abort(String),
}

/// The mathematical content of a [`OverlayAction`].
#[verifier::ext_equal]
pub enum OverlayActionView {
    Neighbour { tunnel_ip: u32, mac: Seq<char> },
    Forward { mac: Seq<char>, node_ip: u32 },
    Route { dst: u32, prefix_len: u8, gateway: u32 },
    NoPool(Cidr),
    Abort(Seq<char>),
}

impl DeepView for OverlayAction {
    type V = OverlayActionView;

    open spec fn deep_view(&self) -> OverlayActionView {
        match self {
            OverlayAction::Neighbour { tunnel_ip, mac } => OverlayActionView::Neighbour { tunnel_ip: *tunnel_ip, mac: mac.deep_view() },
            OverlayAction::Forward { mac, node_ip } => OverlayActionView::Forward { mac: mac.deep_view(), node_ip: *node_ip },
            OverlayAction::Route { dst, prefix_len, gateway } => OverlayActionView::Route { dst: *dst, prefix_len: *prefix_len, gateway: *gateway },
            OverlayAction::NoPool(a) => OverlayActionView::NoPool(*a),
            OverlayAction::Abort(a) => OverlayActionView::Abort(a.deep_view()),
        }
    }
}

impl Clone for OverlayAction {
    fn clone(&self) -> (r: Self)
        ensures
            r.deep_view() == self.deep_view(),
    {
        let r = match self {
            OverlayAction::Neighbour { tunnel_ip, mac } => OverlayAction::Neighbour { tunnel_ip: *tunnel_ip, mac: mac.clone() },
            OverlayAction::Forward { mac, node_ip } => OverlayAction::Forward { mac: mac.clone(), node_ip: *node_ip },
            OverlayAction::Route { dst, prefix_len, gateway } => OverlayAction::Route { dst: *dst, prefix_len: *prefix_len, gateway: *gateway },
            OverlayAction::NoPool(a) => OverlayAction::NoPool(*a),
            OverlayAction::Abort(a) => OverlayAction::Abort(a.clone()),
        };
        assert(r.deep_view() =~= self.deep_view());
        r
    }
}

/// The first address of the kind `InternalIP`, from position `i` on.
pub open spec fn internal_from(addresses: Seq<NodeAddress>, i: int) -> Option<Seq<char>>
    decreases addresses.len() - i,
{
    if i < 0 || i >= addresses.len() {
        None
    } else if addresses[i].kind@ == "InternalIP"@ {
        Some(addresses[i].address@)
    } else {
        internal_from(addresses, i + 1)
    }
}

/// The address by which a node is reached: its first internal one, where that is IPv4.
pub open spec fn underlay_of(addresses: Seq<NodeAddress>) -> Option<nat> {
    match internal_from(addresses, 0) {
        Some(a) => ipv4_value(a),
        None => None,
    }
}

/// The address by which a node is reached.
pub fn internal_ip(addresses: &Vec<NodeAddress>) -> (r: Option<u32>)
    ensures
        match r {
            Some(a) => underlay_of(addresses@) == Some(a as nat),
            None => underlay_of(addresses@) is None,
        },
{
    let mut i: usize = 0;
    while i < addresses.len()
        invariant
            i <= addresses@.len(),
            internal_from(addresses@, 0) == internal_from(addresses@, i as int),
        decreases addresses.len() - i,
    {
        let a = &addresses[i];
        if str_eq(a.kind.as_str(), "InternalIP") {
            return parse_ipv4(a.address.as_str());
        }
        i = i + 1;
    }
    None
}

/// The tunnel address that the annotations publish.
pub open spec fn published_ip(annotations: Map<Seq<char>, Seq<char>>) -> Option<nat> {
    if annotations.dom().contains(ANN_TUNNEL_IP@) {
        ipv4_value(annotations[ANN_TUNNEL_IP@])
    } else {
        None
    }
}

/// The tunnel address that the annotations publish; none where there is none yet, or where
/// it is no IPv4 address.
pub fn published_tunnel_ip(annotations: &Labels) -> (r: Option<u32>)
    requires
        annotations.wf(),
    ensures
        match r {
            Some(a) => published_ip(deep_map(annotations.map())) == Some(a as nat),
            None => published_ip(deep_map(annotations.map())) is None,
        },
{
    match annotations.lookup(ANN_TUNNEL_IP) {
        Some(s) => parse_ipv4(s.as_str()),
        None => None,
    }
}

/// The annotations by which a node publishes its end of the tunnel.
pub open spec fn publication(tunnel_ip: u32, mac: Seq<char>) -> Map<Seq<char>, Seq<char>> {
    map![ANN_TUNNEL_IP@ => ipv4_form(tunnel_ip), ANN_TUNNEL_MAC@ => mac]
}

/// The texts of a map as JSON.
pub open spec fn texts_json(texts: Map<Seq<char>, Seq<char>>) -> Json {
    Json::Object(texts.map_values(|t: Seq<char>| Json::Text(t)))
}

/// The patch of a node that publishes its end of the tunnel.
pub fn publication_patch(tunnel_ip: u32, mac: &str) -> (r: Value)
    ensures
        json_of(r) == Json::Object(
            map![
                "metadata"@ => Json::Object(
                    map!["annotations"@ => texts_json(publication(tunnel_ip, mac@))],
                ),
            ],
        ),
{
    proof {
        reveal_strlit("projectcalico.org/VXLANTunnelIPv4Address");
        reveal_strlit("projectcalico.org/VXLANTunnelMACAddr");
        assert(ANN_TUNNEL_IP@.len() != ANN_TUNNEL_MAC@.len());
    }
    let mut pairs: Vec<(String, String)> = Vec::new();
    pairs.push((ANN_TUNNEL_IP.to_owned(), ipv4_text(tunnel_ip)));
    pairs.push((ANN_TUNNEL_MAC.to_owned(), mac.to_owned()));
    let patch = annotation_patch(&pairs);
    proof {
        let p = pairs.deep_view();
        assert(p[0] == (ANN_TUNNEL_IP@, ipv4_form(tunnel_ip)));
        assert(p[1] == (ANN_TUNNEL_MAC@, mac@));
        let one = crate::payload::annotations_first(p, 1);
        assert(crate::payload::annotations_first(p, 0) == Json::nothing());
        assert(one == Json::nothing().with(p[0].0, Json::Text(p[0].1)));
        assert(crate::payload::annotations_first(p, 2) == one.with(p[1].0, Json::Text(p[1].1)));
        let texts = publication(tunnel_ip, mac@).map_values(|t: Seq<char>| Json::Text(t));
        assert(Map::<Seq<char>, Json>::empty().insert(p[0].0, Json::Text(p[0].1)).insert(
            p[1].0,
            Json::Text(p[1].1),
        ) =~= texts);
    }
    patch
}

/// Other nodes find the end of the tunnel that a node has published, as soon as the node's
/// own address is known.
pub proof fn law_published_end_is_found(node: NodeFacts, tunnel_ip: u32, mac: Seq<u8>, own: nat)
    requires
        mac.len() == 6,
        publication(tunnel_ip, mac_text(mac)).submap_of(deep_map(node.annotations.map())),
        underlay_of(node.addresses@) == Some(own),
    ensures
        vtep_of(node) == Some(
            VtepView { tunnel_ip, mac: mac_text(mac), underlay_ip: own as u32 },
        ),
{
    law_mac_round_trips(mac);
    reveal_strlit("projectcalico.org/VXLANTunnelIPv4Address");
    reveal_strlit("projectcalico.org/VXLANTunnelMACAddr");
    assert(ANN_TUNNEL_IP@.len() != ANN_TUNNEL_MAC@.len());
    law_ipv4_text_round_trips(tunnel_ip);
    let p = publication(tunnel_ip, mac_text(mac));
    let ann = deep_map(node.annotations.map());
    assert(p.dom().contains(ANN_TUNNEL_IP@) && p.dom().contains(ANN_TUNNEL_MAC@));
    assert(ann[ANN_TUNNEL_IP@] == p[ANN_TUNNEL_IP@]);
    assert(ann[ANN_TUNNEL_MAC@] == p[ANN_TUNNEL_MAC@]);
}

/// The end of the tunnel that a node has published; none where the tunnel address, the
/// hardware address or the address of the node is missing or cannot be read.
pub open spec fn vtep_of(node: NodeFacts) -> Option<VtepView> {
    let ann = deep_map(node.annotations.map());
    if published_ip(ann) is Some && ann.dom().contains(ANN_TUNNEL_MAC@) && mac_value(
        ann[ANN_TUNNEL_MAC@],
    ) is Ok && underlay_of(node.addresses@) is Some {
        Some(
            VtepView {
                tunnel_ip: published_ip(ann)->0 as u32,
                mac: ann[ANN_TUNNEL_MAC@],
                underlay_ip: underlay_of(node.addresses@)->0 as u32,
            },
        )
    } else {
        None
    }
}

/// The end of the tunnel that a node has published.
pub fn vtep_from_node(n: &NodeFacts) -> (r: Option<Vtep>)
    requires
        n.annotations.wf(),
    ensures
        r.deep_view() == vtep_of(*n),
{
    let tunnel_ip = match published_tunnel_ip(&n.annotations) {
        Some(a) => a,
        None => return None,
    };
    let mac = match n.annotations.lookup(ANN_TUNNEL_MAC) {
        Some(m) => m.clone(),
        None => return None,
    };
    if parse_mac(mac.as_str()).is_err() {
        return None;
    }
    let underlay_ip = match internal_ip(&n.addresses) {
        Some(a) => a,
        None => return None,
    };
    Some(Vtep { tunnel_ip, mac, underlay_ip })
}

/// The published ends of the tunnel of the first `n` nodes, by node.
pub open spec fn vteps_first(nodes: Seq<NodeFacts>, n: nat) -> Map<Seq<char>, VtepView>
    decreases n,
{
    if n == 0 {
        Map::empty()
    } else {
        let head = vteps_first(nodes, (n - 1) as nat);
        match vtep_of(nodes[n - 1]) {
            Some(v) => head.insert(nodes[n - 1].name@, v),
            None => head,
        }
    }
}

/// The published ends of the tunnel, by node. A node that has not published all of it is
/// left out.
pub fn build_vteps(nodes: &Vec<NodeFacts>) -> (r: OrdMap<String, Vtep>)
    requires
        forall|i: int| 0 <= i < nodes@.len() ==> (#[trigger] nodes@[i]).annotations.wf(),
    ensures
        r.wf(),
        deep_map(r.map()) == vteps_first(nodes@, nodes@.len()),
{
    let mut out: OrdMap<String, Vtep> = OrdMap::new();
    assert(deep_map(out.map()) =~= Map::<Seq<char>, VtepView>::empty());
    for i in 0..nodes.len()
        invariant
            forall|i: int| 0 <= i < nodes@.len() ==> (#[trigger] nodes@[i]).annotations.wf(),
            out.wf(),
            deep_map(out.map()) == vteps_first(nodes@, i as nat),
    {
        if let Some(v) = vtep_from_node(&nodes[i]) {
            out.insert(nodes[i].name.clone(), v);
        }
    }
    out
}

/// Whether the pool at `i` decides for `block`: it holds the block, no pool that does has a
/// longer prefix, and no later one has an equal prefix.
pub open spec fn decides(pools: Seq<PoolEncap>, block: Cidr, i: int) -> bool {
    &&& 0 <= i < pools.len()
    &&& pools[i].cidr.covers(block)
    &&& forall|j: int|
        0 <= j < pools.len() && (#[trigger] pools[j]).cidr.covers(block) ==> pools[j].cidr.prefix_len
            <= pools[i].cidr.prefix_len && (j > i ==> pools[j].cidr.prefix_len
            < pools[i].cidr.prefix_len)
}

/// What a pool's mode comes to. Subnets are not told apart, so traffic that would only be
/// encapsulated between them always is.
pub open spec fn mode_decision(mode: EncapMode) -> EncapDecision {
    match mode {
        EncapMode::Always => EncapDecision::Route,
        EncapMode::CrossSubnet => EncapDecision::Route,
        EncapMode::Never => EncapDecision::Skip,
    }
}

/// Whether traffic to the block gets a route through the tunnel: the pool with the longest
/// prefix that holds the block decides.
pub fn resolve_encap(pools: &[PoolEncap], block: Cidr) -> (r: EncapDecision)
    requires
        block.wf(),
        forall|i: int| 0 <= i < pools@.len() ==> (#[trigger] pools@[i]).cidr.wf(),
    ensures
        (r == EncapDecision::NoPool) == (forall|i: int|
            0 <= i < pools@.len() ==> !(#[trigger] pools@[i]).cidr.covers(block)),
        forall|i: int|
            #[trigger] decides(pools@, block, i) ==> r == mode_decision(pools@[i].vxlan_mode),
        r != EncapDecision::NoPool ==> exists|i: int| decides(pools@, block, i),
{
    let mut best: Option<usize> = None;
    for i in 0..pools.len()
        invariant
            block.wf(),
            forall|i: int| 0 <= i < pools@.len() ==> (#[trigger] pools@[i]).cidr.wf(),
            best is None ==> forall|j: int|
                0 <= j < i ==> !(#[trigger] pools@[j]).cidr.covers(block),
            best matches Some(b) ==> b < i && pools@[b as int].cidr.covers(block) && forall|j: int|
                0 <= j < i && (#[trigger] pools@[j]).cidr.covers(block)
                    ==> pools@[j].cidr.prefix_len <= pools@[b as int].cidr.prefix_len && (j > b
                    ==> pools@[j].cidr.prefix_len < pools@[b as int].cidr.prefix_len),
    {
        if pools[i].cidr.contains(&block) {
            match best {
                Some(b) => {
                    if pools[i].cidr.prefix_len >= pools[b].cidr.prefix_len {
                        best = Some(i);
                    }
                },
                None => {
                    best = Some(i);
                },
            }
        }
    }
    match best {
        None => EncapDecision::NoPool,
        Some(b) => {
            assert(decides(pools@, block, b as int));
            assert forall|i: int| #[trigger] decides(pools@, block, i) implies i == b by {
                assert(pools@[b as int].cidr.covers(block));
                assert(pools@[i].cidr.covers(block));
            }
            match pools[b].vxlan_mode {
                EncapMode::Always => EncapDecision::Route,
                EncapMode::CrossSubnet => EncapDecision::Route,
                EncapMode::Never => EncapDecision::Skip,
            }
        },
    }
}

/// The mode that a text denotes; whatever is not known is `Never`.
pub open spec fn encap_of(s: Option<Seq<char>>) -> EncapMode {
    if s == Some("Always"@) {
        EncapMode::Always
    } else if s == Some("CrossSubnet"@) {
        EncapMode::CrossSubnet
    } else {
        EncapMode::Never
    }
}

/// The mode that a text denotes.
pub fn parse_encap(s: &Option<String>) -> (r: EncapMode)
    ensures
        r == encap_of(s.deep_view()),
{
    proof {
        reveal_strlit("Always");
        reveal_strlit("CrossSubnet");
        assert("Always"@.len() != "CrossSubnet"@.len());
    }
    match s {
        Some(t) => {
            if str_eq(t.as_str(), "Always") {
                EncapMode::Always
            } else if str_eq(t.as_str(), "CrossSubnet") {
                EncapMode::CrossSubnet
            } else {
                EncapMode::Never
            }
        },
        None => EncapMode::Never,
    }
}

/// Those of the first `n` pools that are in use and have a block.
pub open spec fn encaps_first(pools: Seq<PoolFields>, n: nat) -> Seq<PoolEncap>
    decreases n,
{
    if n == 0 {
        Seq::empty()
    } else {
        let head = encaps_first(pools, (n - 1) as nat);
        let p = pools[n - 1];
        if p.enabled() && p.cidr is Some && p.block is Ok {
            head.push(
                PoolEncap { cidr: p.block->Ok_0, vxlan_mode: encap_of(p.vxlan_mode.deep_view()) },
            )
        } else {
            head
        }
    }
}

/// The pools that are in use and have a block, as far as encapsulation depends on them.
pub fn pool_encaps(pools: &Vec<PoolFields>) -> (r: Vec<PoolEncap>)
    ensures
        r@ == encaps_first(pools@, pools@.len()),
{
    let mut out: Vec<PoolEncap> = Vec::new();
    for i in 0..pools.len()
        invariant
            out@ == encaps_first(pools@, i as nat),
    {
        let p = &pools[i];
        if p.is_enabled() && p.cidr.is_some() {
            if let Ok(cidr) = &p.block {
                out.push(PoolEncap { cidr: *cidr, vxlan_mode: parse_encap(&p.vxlan_mode) });
            }
        }
    }
    out
}

/// The first pool in use, from position `i` on.
pub open spec fn usable_from(pools: Seq<PoolFields>, i: int) -> Option<PoolFields>
    decreases pools.len() - i,
{
    if i < 0 || i >= pools.len() {
        None
    } else if pools[i].enabled() {
        Some(pools[i])
    } else {
        usable_from(pools, i + 1)
    }
}

/// The block of the first pool in use and the prefix length of the blocks that nodes own
/// there, 26 where the pool does not say, cut to eight bits; or what is missing.
pub open spec fn pool_choice(pools: Seq<PoolFields>) -> Result<(Cidr, u8), Seq<char>> {
    match usable_from(pools, 0) {
        None => Err("no usable IP pool"@),
        Some(p) => match (p.cidr, p.block) {
            (None, _) => Err("pool has no cidr"@),
            (Some(_), Err(m)) => Err(m@),
            (Some(_), Ok(c)) => {
                let size: u64 = match p.block_size {
                    Some(b) => b,
                    None => 26,
                };
                Ok((c, (size % 256) as u8))
            },
        },
    }
}

/// The block of the first pool in use and the prefix length of the blocks that nodes own
/// there.
pub fn first_pool(pools: &Vec<PoolFields>) -> (r: Result<(Cidr, u8), String>)
    ensures
        match pool_choice(pools@) {
            Ok(c) => r == Ok::<(Cidr, u8), String>(c),
            Err(m) => r matches Err(e) && e@ == m,
        },
{
    let mut i: usize = 0;
    while i < pools.len()
        invariant
            i <= pools@.len(),
            usable_from(pools@, 0) == usable_from(pools@, i as int),
        decreases pools.len() - i,
    {
        let p = &pools[i];
        if p.is_enabled() {
            if p.cidr.is_none() {
                return Err("pool has no cidr".to_owned());
            }
            let size: u64 = match p.block_size {
                Some(b) => b,
                None => 26,
            };
            return match &p.block {
                Ok(c) => Ok((*c, (size % 256) as u8)),
                Err(e) => Err(e.clone()),
            };
        }
        i = i + 1;
    }
    Err("no usable IP pool".to_owned())
}

/// The identity under which a node's tunnel address is allocated.
pub fn tunnel_handle_id(node_name: &str) -> (r: String)
    ensures
        r@ == "vxlan-tunnel-"@ + node_name@,
{
    let mut s = "vxlan-tunnel-".to_owned();
    s.push_str(node_name);
    s
}

/// The first IPv4 address, from position `i` on.
pub open spec fn ipv4_from(ips: Seq<IpAddress>, i: int) -> Option<u32>
    decreases ips.len() - i,
{
    if i < 0 || i >= ips.len() {
        None
    } else {
        match ips[i] {
            IpAddress::V4(a) => Some(a),
            IpAddress::V6(_) => ipv4_from(ips, i + 1),
        }
    }
}

/// The address to take up again of those that the node already holds: the first IPv4 one.
pub fn recovered_tunnel_ip(ips: &Vec<IpAddress>) -> (r: Option<u32>)
    ensures
        r == ipv4_from(ips@, 0),
{
    let mut i: usize = 0;
    while i < ips.len()
        invariant
            i <= ips@.len(),
            ipv4_from(ips@, 0) == ipv4_from(ips@, i as int),
        decreases ips.len() - i,
    {
        if let IpAddress::V4(a) = ips[i] {
            return Some(a);
        }
        i = i + 1;
    }
    None
}

/// The address to take of those that were just allocated: the first, which must be IPv4.
pub fn allocated_tunnel_ip(ips: &Vec<IpAddress>) -> (r: Result<u32, String>)
    ensures
        match r {
            Ok(a) => ips@.len() > 0 && ips@[0] == IpAddress::V4(a),
            Err(e) => (ips@.len() == 0 || ips@[0] is V6) && e@
                == "no address available for VXLAN tunnel"@,
        },
{
    if ips.len() > 0 {
        if let IpAddress::V4(a) = ips[0] {
            return Ok(a);
        }
    }
    Err("no address available for VXLAN tunnel".to_owned())
}

/// What has come of a step of finding this node's tunnel address.
pub enum TunnelIpEvent {
    /// The addresses that are held under the node's handle.
    Held(Result<Vec<IpAddress>, String>),
    /// The pools of the datastore.
    Pools(Result<Vec<PoolFields>, String>),
    /// The addresses that were just assigned.
    Assigned(Result<Vec<IpAddress>, String>),
}

/// The next step of finding this node's tunnel address.
#[derive(Debug, PartialEq, Eq)]
pub enum TunnelIpAction {
    /// Read the pools of the datastore.
    ReadPools,
    /// Assign one address out of a pool, in blocks of the given prefix length.
    Assign { pool: Cidr, block_size: u8 },
    /// The address is found.
    Use(u32),
    /// There is none.
    Fail(String),
}

/// The words of a failure behind a prefix.
pub open spec fn fails_with(r: TunnelIpAction, prefix: Seq<char>, e: Seq<char>) -> bool {
    r matches TunnelIpAction::Fail(m) && m@ == prefix + e
}

/// The next step of finding this node's tunnel address. An address that the node holds
/// already, from a pass that did not come to its end, is taken up again, so that it is not
/// lost; only where it holds none is one assigned, out of the first pool in use.
pub fn allocate_tunnel_ip(event: TunnelIpEvent) -> (r: TunnelIpAction)
    ensures
        match event {
            TunnelIpEvent::Held(Err(e)) => fails_with(r, "look up existing tunnel IP: "@, e@),
            TunnelIpEvent::Held(Ok(ips)) => r == (match ipv4_from(ips@, 0) {
                Some(ip) => TunnelIpAction::Use(ip),
                None => TunnelIpAction::ReadPools,
            }),
            TunnelIpEvent::Pools(Err(e)) => r == TunnelIpAction::Fail(e),
            TunnelIpEvent::Pools(Ok(pools)) => match pool_choice(pools@) {
                Ok((pool, block_size)) => r == (TunnelIpAction::Assign { pool, block_size }),
                Err(e) => r matches TunnelIpAction::Fail(m) && m@ == e,
            },
            TunnelIpEvent::Assigned(Err(e)) => fails_with(r, "allocate tunnel IP: "@, e@),
            TunnelIpEvent::Assigned(Ok(ips)) => if ips@.len() > 0 && ips@[0] is V4 {
                r == TunnelIpAction::Use(ips@[0]->V4_0)
            } else {
                r matches TunnelIpAction::Fail(m) && m@ == "no address available for VXLAN tunnel"@
            },
        },
{
    match event {
        TunnelIpEvent::Held(Err(e)) => TunnelIpAction::Fail(
            cat("look up existing tunnel IP: ", e.as_str()),
        ),
        TunnelIpEvent::Held(Ok(ips)) => match recovered_tunnel_ip(&ips) {
            Some(ip) => TunnelIpAction::Use(ip),
            None => TunnelIpAction::ReadPools,
        },
        TunnelIpEvent::Pools(Err(e)) => TunnelIpAction::Fail(e),
        TunnelIpEvent::Pools(Ok(pools)) => match first_pool(&pools) {
            Ok((pool, block_size)) => TunnelIpAction::Assign { pool, block_size },
            Err(e) => TunnelIpAction::Fail(e),
        },
        TunnelIpEvent::Assigned(Err(e)) => TunnelIpAction::Fail(
            cat("allocate tunnel IP: ", e.as_str()),
        ),
        TunnelIpEvent::Assigned(Ok(ips)) => match allocated_tunnel_ip(&ips) {
            Ok(ip) => TunnelIpAction::Use(ip),
            Err(e) => TunnelIpAction::Fail(e),
        },
    }
}

/// An address that the node holds is never left for a new one.
pub proof fn law_held_address_is_taken_up(ips: Seq<IpAddress>, i: int)
    requires
        0 <= i < ips.len(),
        ips[i] is V4,
    ensures
        ipv4_from(ips, 0) is Some,
{
    lemma_ipv4_found(ips, 0, i);
}

/// A search that starts at or before an IPv4 address finds one.
proof fn lemma_ipv4_found(ips: Seq<IpAddress>, from: int, i: int)
    requires
        0 <= from <= i < ips.len(),
        ips[i] is V4,
    ensures
        ipv4_from(ips, from) is Some,
    decreases i - from,
{
    if from < i {
        lemma_ipv4_found(ips, from + 1, i);
    }
}

/// The address of this node, which its tunnel device binds to.
pub fn underlay_address(addresses: &Vec<NodeAddress>) -> (r: Result<u32, String>)
    ensures
        match underlay_of(addresses@) {
            Some(ip) => r == Ok::<u32, String>(ip as u32),
            None => r matches Err(e) && e@ == "node has no InternalIP"@,
        },
{
    match internal_ip(addresses) {
        Some(ip) => Ok(ip),
        None => Err("node has no InternalIP".to_owned()),
    }
}

/// The link that carries this node's address, which there must be.
pub fn underlay_link(found: Option<u32>, ip: u32) -> (r: Result<u32, String>)
    ensures
        match found {
            Some(index) => r == Ok::<u32, String>(index),
            None => r matches Err(e) && e@ == "no local interface carries "@ + ipv4_form(ip),
        },
{
    match found {
        Some(index) => Ok(index),
        None => Err(cat("no local interface carries ", ipv4_text(ip).as_str())),
    }
}

/// The entries for one other node.
pub open spec fn peer_actions(v: VtepView) -> Seq<OverlayActionView> {
    seq![
        OverlayActionView::Neighbour { tunnel_ip: v.tunnel_ip, mac: v.mac },
        OverlayActionView::Forward { mac: v.mac, node_ip: v.underlay_ip },
    ]
}

/// The entries for a node, where it is another one.
pub open spec fn entry_actions(node_name: Seq<char>, entry: (Seq<char>, VtepView)) -> Seq<
    OverlayActionView,
> {
    if entry.0 == node_name {
        Seq::empty()
    } else {
        peer_actions(entry.1)
    }
}

/// The first address of a block.
pub open spec fn network_v4(a: u32, prefix_len: u8) -> nat {
    let step = pow2((32 - prefix_len) as nat);
    (a as nat / step) * step
}

/// What the affinity of a block calls for.
pub open spec fn affinity_actions(
    node_name: Seq<char>,
    vteps: Map<Seq<char>, VtepView>,
    aff: AffinityFields,
    decision: EncapDecision,
) -> Seq<OverlayActionView> {
    if aff.node is None || aff.node->0@.len() == 0 || aff.node->0@ == node_name
        || !vteps.dom().contains(aff.node->0@) {
        Seq::empty()
    } else {
        match aff.block {
            None => Seq::empty(),
            Some(Err(e)) => seq![OverlayActionView::Abort(e@)],
            Some(Ok(cidr)) => match decision {
                EncapDecision::Skip => Seq::empty(),
                EncapDecision::NoPool => seq![OverlayActionView::NoPool(cidr)],
                EncapDecision::Route => match cidr.addr {
                    IpAddress::V6(_) => Seq::empty(),
                    IpAddress::V4(a) => seq![
                        OverlayActionView::Route {
                            dst: network_v4(a, cidr.prefix_len) as u32,
                            prefix_len: cidr.prefix_len,
                            gateway: vteps[aff.node->0@].tunnel_ip,
                        },
                    ],
                },
            },
        }
    }
}

/// The decision on a block, as [`resolve_encap`] takes it.
pub open spec fn decision_of(pools: Seq<PoolEncap>, block: Cidr) -> EncapDecision {
    if exists|i: int| decides(pools, block, i) {
        mode_decision(pools[choose|i: int| decides(pools, block, i)].vxlan_mode)
    } else {
        EncapDecision::NoPool
    }
}

/// The decision on an affinity's block.
pub open spec fn affinity_decision(pools: Seq<PoolEncap>, aff: AffinityFields) -> EncapDecision {
    match aff.block {
        Some(Ok(cidr)) => decision_of(pools, cidr),
        _ => EncapDecision::NoPool,
    }
}

/// Whether the list ends in giving up.
pub open spec fn aborted(actions: Seq<OverlayActionView>) -> bool {
    actions.len() > 0 && actions.last() is Abort
}

/// What the first `n` affinities call for, up to the first one that makes it give up.
pub open spec fn routes_first(
    node_name: Seq<char>,
    vteps: Map<Seq<char>, VtepView>,
    pools: Seq<PoolEncap>,
    affinities: Seq<AffinityFields>,
    n: nat,
) -> Seq<OverlayActionView>
    decreases n,
{
    if n == 0 {
        Seq::empty()
    } else {
        let head = routes_first(node_name, vteps, pools, affinities, (n - 1) as nat);
        let aff = affinities[n - 1];
        if aborted(head) {
            head
        } else {
            head + affinity_actions(node_name, vteps, aff, affinity_decision(pools, aff))
        }
    }
}

/// The entries for all other nodes.
pub open spec fn all_entries(node_name: Seq<char>, vteps: Map<Seq<char>, VtepView>) -> Seq<
    OverlayActionView,
> {
    let list = listing::<String, VtepView>(vteps);
    concat_all(Seq::new(list.len(), |i: int| entry_actions(node_name, list[i])))
}

/// Having given up, nothing more is done.
proof fn lemma_aborted_stays(
    node_name: Seq<char>,
    vteps: Map<Seq<char>, VtepView>,
    pools: Seq<PoolEncap>,
    affinities: Seq<AffinityFields>,
    n: nat,
    m: nat,
)
    requires
        n <= m,
        aborted(routes_first(node_name, vteps, pools, affinities, n)),
    ensures
        routes_first(node_name, vteps, pools, affinities, m) == routes_first(
            node_name,
            vteps,
            pools,
            affinities,
            n,
        ),
    decreases m,
{
    if n < m {
        lemma_aborted_stays(node_name, vteps, pools, affinities, n, (m - 1) as nat);
    }
}

/// What resolving a block comes to is what is decided for it.
fn decide(pools: &Vec<PoolEncap>, block: Cidr) -> (r: EncapDecision)
    requires
        block.wf(),
        forall|i: int| 0 <= i < pools@.len() ==> (#[trigger] pools@[i]).cidr.wf(),
    ensures
        r == decision_of(pools@, block),
{
    let r = resolve_encap(pools.as_slice(), block);
    proof {
        if exists|i: int| decides(pools@, block, i) {
            let i = choose|i: int| decides(pools@, block, i);
            assert(decides(pools@, block, i));
        }
    }
    r
}

/// The first address of an IPv4 block.
fn network_address(a: u32, prefix_len: u8) -> (r: u32)
    requires
        prefix_len <= 32,
    ensures
        r == network_v4(a, prefix_len),
{
    let host: u64 = 32 - prefix_len as u64;
    proof {
        vstd::arithmetic::power2::lemma2_to64();
        if host < 32 {
            vstd::arithmetic::power2::lemma_pow2_strictly_increases(host as nat, 32);
        }
        vstd::bits::lemma_u64_shl_is_mul(1, host);
        lemma_pow2_pos(host as nat);
        lemma_fundamental_div_mod(a as int, pow2(host as nat) as int);
        vstd::arithmetic::div_mod::lemma_mod_bound(a as int, pow2(host as nat) as int);
    }
    let step: u64 = 1u64 << host;
    let rest: u64 = (a as u64) % step;
    assert(pow2(host as nat) * (a as nat / pow2(host as nat)) == (a as nat / pow2(host as nat)) * pow2(
        host as nat,
    )) by (nonlinear_arith);
    a - rest as u32
}

/// What to do for the other nodes, in order: the entries for each of them, then the routes
/// to their blocks. A block whose text cannot be read ends the list.
pub fn plan_remotes(
    node_name: &str,
    vteps: &OrdMap<String, Vtep>,
    pools: &Vec<PoolEncap>,
    affinities: &Vec<AffinityFields>,
) -> (r: Vec<OverlayAction>)
    requires
        vteps.wf(),
        forall|i: int| 0 <= i < pools@.len() ==> (#[trigger] pools@[i]).cidr.wf(),
        forall|i: int|
            0 <= i < affinities@.len() ==> ((#[trigger] affinities@[i]).block matches Some(
                Ok(c),
            ) ==> c.wf()),
    ensures
        r.deep_view() == all_entries(node_name@, deep_map(vteps.map())) + routes_first(
            node_name@,
            deep_map(vteps.map()),
            pools@,
            affinities@,
            affinities@.len(),
        ),
{
    let ghost vv = deep_map(vteps.map());
    let ghost list = listing::<String, VtepView>(vv);
    proof {
        law_contents_determine_order(*vteps);
    }
    let ghost blocks = Seq::new(list.len(), |i: int| entry_actions(node_name@, list[i]));
    let mut out: Vec<OverlayAction> = Vec::new();
    assert(out.deep_view() =~= Seq::<OverlayActionView>::empty());
    for i in 0..vteps.entries.len()
        invariant
            list == vteps.entries.deep_view(),
            blocks == Seq::new(list.len(), |i: int| entry_actions(node_name@, list[i])),
            out.deep_view() == concat_first(blocks, i as nat),
    {
        let (name, v) = &vteps.entries[i];
        let ghost start = out.deep_view();
        assert(list[i as int] == (name@, v.deep_view()));
        if !str_eq(name.as_str(), node_name) {
            push_item(
                &mut out,
                OverlayAction::Neighbour { tunnel_ip: v.tunnel_ip, mac: v.mac.clone() },
            );
            push_item(
                &mut out,
                OverlayAction::Forward { mac: v.mac.clone(), node_ip: v.underlay_ip },
            );
        }
        assert(out.deep_view() =~= start + entry_actions(node_name@, list[i as int]));
    }
    let ghost head = out.deep_view();
    assert(head == all_entries(node_name@, vv));
    assert(head + Seq::<OverlayActionView>::empty() =~= head);
    for i in 0..affinities.len()
        invariant
            vteps.wf(),
            vv == deep_map(vteps.map()),
            head == all_entries(node_name@, vv),
            forall|i: int| 0 <= i < pools@.len() ==> (#[trigger] pools@[i]).cidr.wf(),
            forall|i: int|
                0 <= i < affinities@.len() ==> ((#[trigger] affinities@[i]).block matches Some(
                    Ok(c),
                ) ==> c.wf()),
            out.deep_view() == head + routes_first(node_name@, vv, pools@, affinities@, i as nat),
            !aborted(routes_first(node_name@, vv, pools@, affinities@, i as nat)),
    {
        let aff = &affinities[i];
        let ghost start = out.deep_view();
        let ghost prev = routes_first(node_name@, vv, pools@, affinities@, i as nat);
        let ghost step = affinity_actions(
            node_name@,
            vv,
            *aff,
            affinity_decision(pools@, *aff),
        );
        assert(prev + Seq::<OverlayActionView>::empty() =~= prev);
        if let Some(owner) = &aff.node {
            if !owner.as_str().is_empty() && !str_eq(owner.as_str(), node_name) {
                if let Some(vtep) = vteps.lookup(owner.as_str()) {
                    assert(vv[owner@] == vtep.deep_view());
                    match &aff.block {
                        None => {},
                        Some(Err(e)) => {
                            push_item(&mut out, OverlayAction::Abort(e.clone()));
                            assert(step =~= seq![OverlayActionView::Abort(e@)]);
                            assert((prev + step).last() is Abort);
                            proof {
                                lemma_aborted_stays(
                                    node_name@,
                                    vv,
                                    pools@,
                                    affinities@,
                                    (i + 1) as nat,
                                    affinities@.len(),
                                );
                            }
                            assert(out.deep_view() =~= head + (prev + step));
                            return out;
                        },
                        Some(Ok(cidr)) => match decide(pools, *cidr) {
                            EncapDecision::Skip => {},
                            EncapDecision::NoPool => {
                                push_item(&mut out, OverlayAction::NoPool(*cidr));
                            },
                            EncapDecision::Route => {
                                if let IpAddress::V4(a) = cidr.addr {
                                    push_item(
                                        &mut out,
                                        OverlayAction::Route {
                                            dst: network_address(a, cidr.prefix_len),
                                            prefix_len: cidr.prefix_len,
                                            gateway: vtep.tunnel_ip,
                                        },
                                    );
                                }
                            },
                        },
                    }
                }
            }
        }
        assert(out.deep_view() =~= start + step);
        assert(out.deep_view() =~= head + (prev + step));
    }
    out
}

/// Nothing is done for the node itself: no entry, and no route to a block of its own.
pub proof fn law_own_node_is_left_out(
    node_name: Seq<char>,
    vteps: Map<Seq<char>, VtepView>,
    v: VtepView,
    aff: AffinityFields,
    decision: EncapDecision,
)
    ensures
        entry_actions(node_name, (node_name, v)).len() == 0,
        aff.node is Some && aff.node->0@ == node_name ==> affinity_actions(
            node_name,
            vteps,
            aff,
            decision,
        ).len() == 0,
{
}

/// Of two pools that hold a block, the one with the longer prefix decides.
pub proof fn law_longest_prefix_decides(pools: Seq<PoolEncap>, block: Cidr, i: int, j: int)
    requires
        decides(pools, block, i),
        0 <= j < pools.len(),
        pools[j].cidr.covers(block),
    ensures
        pools[j].cidr.prefix_len <= pools[i].cidr.prefix_len,
        decision_of(pools, block) == mode_decision(pools[i].vxlan_mode),
{
    let k = choose|k: int| decides(pools, block, k);
    assert(decides(pools, block, k));
    assert(pools[k].cidr.covers(block));
    assert(pools[i].cidr.covers(block));
    assert(k == i);
}

/// The first internal address from a position on.
pub proof fn lemma_first_internal(addresses: Seq<NodeAddress>, k: int, i: int)
    requires
        0 <= k <= i <= addresses.len(),
        forall|j: int| k <= j < i ==> (#[trigger] addresses[j]).kind@ != "InternalIP"@,
        i < addresses.len() ==> addresses[i].kind@ == "InternalIP"@,
    ensures
        i < addresses.len() ==> internal_from(addresses, k) == Some(addresses[i].address@),
        i == addresses.len() ==> internal_from(addresses, k) is None,
    decreases i - k,
{
    if k < i {
        lemma_first_internal(addresses, k + 1, i);
    }
}

/// The end of a node's tunnel is what the node publishes, read: the tunnel address from the
/// one annotation, the hardware address from the other as it stands, and the node's own
/// address from its first internal address. A node that lacks one of them, or has one that
/// cannot be read, has no end.
pub proof fn law_tunnel_end_is_what_the_node_publishes(node: NodeFacts, i: int)
    requires
        0 <= i <= node.addresses@.len(),
        forall|j: int| 0 <= j < i ==> (#[trigger] node.addresses@[j]).kind@ != "InternalIP"@,
        i < node.addresses@.len() ==> node.addresses@[i].kind@ == "InternalIP"@,
    ensures
        ({
            let ann = deep_map(node.annotations.map());
            let ip = "projectcalico.org/VXLANTunnelIPv4Address"@;
            let mac = "projectcalico.org/VXLANTunnelMACAddr"@;
            let complete = {
                &&& ann.dom().contains(ip) && ipv4_value(ann[ip]) is Some
                &&& ann.dom().contains(mac) && mac_value(ann[mac]) is Ok
                &&& i < node.addresses@.len() && ipv4_value(node.addresses@[i].address@) is Some
            };
            &&& vtep_of(node) is Some <==> complete
            &&& vtep_of(node) matches Some(v) ==> {
                &&& v.tunnel_ip == ipv4_value(ann[ip])->0 as u32
                &&& v.mac == ann[mac]
                &&& v.underlay_ip == ipv4_value(node.addresses@[i].address@)->0 as u32
            }
        }),
{
    lemma_first_internal(node.addresses@, 0, i);
}

/// Each node that has an end is known by its name, and by the end of the last node of that
/// name; a name that no such node bears is not known.
pub proof fn law_ends_are_known_by_node(nodes: Seq<NodeFacts>, name: Seq<char>, i: int)
    requires
        -1 <= i < nodes.len(),
        forall|j: int|
            i < j < nodes.len() ==> !((#[trigger] nodes[j]).name@ == name && vtep_of(nodes[j])
                is Some),
        i >= 0 ==> nodes[i].name@ == name && vtep_of(nodes[i]) is Some,
    ensures
        ({
            let known = vteps_first(nodes, nodes.len());
            &&& i >= 0 ==> known.dom().contains(name) && Some(known[name]) == vtep_of(nodes[i])
            &&& i < 0 ==> !known.dom().contains(name)
        }),
{
    lemma_ends_known(nodes, name, i, nodes.len());
}

/// The same of the first `n` nodes.
proof fn lemma_ends_known(nodes: Seq<NodeFacts>, name: Seq<char>, i: int, n: nat)
    requires
        -1 <= i < n <= nodes.len() || (i == -1 && n == 0),
        forall|j: int|
            i < j < n ==> !((#[trigger] nodes[j]).name@ == name && vtep_of(nodes[j]) is Some),
        i >= 0 ==> nodes[i].name@ == name && vtep_of(nodes[i]) is Some,
    ensures
        ({
            let known = vteps_first(nodes, n);
            &&& i >= 0 ==> known.dom().contains(name) && Some(known[name]) == vtep_of(nodes[i])
            &&& i < 0 ==> !known.dom().contains(name)
        }),
    decreases n,
{
    if n > 0 {
        let m = (n - 1) as nat;
        if i < m {
            lemma_ends_known(nodes, name, i, m);
            assert(!(nodes[m as int].name@ == name && vtep_of(nodes[m as int]) is Some));
        }
    }
}

/// Every other node with an end gets its neighbour entry, from its tunnel address to its
/// hardware address, and its forwarding entry, from its hardware address to the node's own
/// address. Nothing else is entered, and nothing for the own node.
pub proof fn law_every_other_end_is_entered(
    node_name: Seq<char>,
    vteps: OrdMap<String, Vtep>,
    a: OverlayActionView,
)
    requires
        vteps.wf(),
    ensures
        ({
            let known = deep_map(vteps.map());
            all_entries(node_name, known).contains(a) <==> exists|n: Seq<char>|
                {
                    &&& #[trigger] known.dom().contains(n)
                    &&& n != node_name
                    &&& a == (OverlayActionView::Neighbour {
                        tunnel_ip: known[n].tunnel_ip,
                        mac: known[n].mac,
                    }) || a == (OverlayActionView::Forward {
                        mac: known[n].mac,
                        node_ip: known[n].underlay_ip,
                    })
                }
        }),
{
    let known = deep_map(vteps.map());
    lemma_keys_in_order(vteps);
    assert(known.dom() =~= vteps.map().dom());
    let keys = in_order::<String>(known.dom());
    let list = listing::<String, VtepView>(known);
    let blocks = Seq::new(list.len(), |i: int| entry_actions(node_name, list[i]));
    lemma_concat_member(blocks, blocks.len(), a);
    if all_entries(node_name, known).contains(a) {
        let s = choose|s: int| 0 <= s < blocks.len() && (#[trigger] blocks[s]).contains(a);
        assert(keys.contains(keys[s]));
        assert(known.dom().contains(keys[s]));
        let k = blocks[s].index_of(a);
        assert(blocks[s][k] == a);
    }
    if exists|n: Seq<char>|
        {
            &&& #[trigger] known.dom().contains(n)
            &&& n != node_name
            &&& a == (OverlayActionView::Neighbour {
                tunnel_ip: known[n].tunnel_ip,
                mac: known[n].mac,
            }) || a == (OverlayActionView::Forward {
                mac: known[n].mac,
                node_ip: known[n].underlay_ip,
            })
        } {
        let n = choose|n: Seq<char>|
            {
                &&& #[trigger] known.dom().contains(n)
                &&& n != node_name
                &&& a == (OverlayActionView::Neighbour {
                    tunnel_ip: known[n].tunnel_ip,
                    mac: known[n].mac,
                }) || a == (OverlayActionView::Forward {
                    mac: known[n].mac,
                    node_ip: known[n].underlay_ip,
                })
            };
        assert(keys.contains(n));
        let s = keys.index_of(n);
        assert(blocks[s] == peer_actions(known[n]));
        assert(blocks[s][0] == a || blocks[s][1] == a);
        assert(blocks[s].contains(a));
    }
}

/// Whether a route leads to a block of addresses: it begins at the first address of the block
/// and has the block's length.
pub open spec fn leads_to(dst: u32, prefix_len: u8, block: Cidr) -> bool {
    &&& block.addr is V4
    &&& prefix_len == block.prefix_len
    &&& dst <= block.addr->V4_0
    &&& block.addr->V4_0 < dst + pow2((32 - prefix_len) as nat)
    &&& dst as nat % pow2((32 - prefix_len) as nat) == 0
}

/// The first address of a block is in the block and begins it.
proof fn lemma_network_v4(a: u32, prefix_len: u8)
    requires
        prefix_len <= 32,
    ensures
        network_v4(a, prefix_len) <= a,
        (a as nat) < network_v4(a, prefix_len) + pow2((32 - prefix_len) as nat),
        network_v4(a, prefix_len) % pow2((32 - prefix_len) as nat) == 0,
{
    let step = pow2((32 - prefix_len) as nat);
    lemma_pow2_pos((32 - prefix_len) as nat);
    let q = a as nat / step;
    lemma_fundamental_div_mod(a as int, step as int);
    assert(q * step == step * q) by (nonlinear_arith);
    lemma_mod_multiples_basic(q as int, step as int);
}

/// Whether the most specific of the pools that hold a block has its traffic tunnelled.
pub open spec fn is_tunnelled(pools: Seq<PoolEncap>, block: Cidr) -> bool {
    exists|i: int| #[trigger]
        decides(pools, block, i) && (pools[i].vxlan_mode == EncapMode::Always || pools[i].vxlan_mode
            == EncapMode::CrossSubnet)
}

/// Whether a block of addresses of another node is to be routed through the tunnel.
pub open spec fn is_routed(
    node_name: Seq<char>,
    vteps: Map<Seq<char>, VtepView>,
    pools: Seq<PoolEncap>,
    aff: AffinityFields,
) -> bool {
    &&& aff.node is Some
    &&& aff.node->0@.len() > 0
    &&& aff.node->0@ != node_name
    &&& vteps.dom().contains(aff.node->0@)
    &&& aff.block matches Some(Ok(c))
    &&& c.addr is V4
    &&& is_tunnelled(pools, c)
}

/// One pool at most decides.
proof fn lemma_one_pool_decides(pools: Seq<PoolEncap>, block: Cidr, i: int, j: int)
    requires
        decides(pools, block, i),
        decides(pools, block, j),
    ensures
        i == j,
{
    assert(pools[i].cidr.covers(block) && pools[j].cidr.covers(block));
}

/// What is done for a block.
proof fn lemma_affinity_route(
    node_name: Seq<char>,
    vteps: Map<Seq<char>, VtepView>,
    pools: Seq<PoolEncap>,
    aff: AffinityFields,
    a: OverlayActionView,
)
    requires
        a is Route,
        aff.block matches Some(Ok(c)) ==> c.wf(),
    ensures
        affinity_actions(node_name, vteps, aff, affinity_decision(pools, aff)).contains(a) ==> {
            &&& is_routed(node_name, vteps, pools, aff)
            &&& leads_to(a->dst, a->prefix_len, aff.block->0->Ok_0)
            &&& a->gateway == vteps[aff.node->0@].tunnel_ip
        },
        is_routed(node_name, vteps, pools, aff) && leads_to(
            a->dst,
            a->prefix_len,
            aff.block->0->Ok_0,
        ) && a->gateway == vteps[aff.node->0@].tunnel_ip ==> affinity_actions(
            node_name,
            vteps,
            aff,
            affinity_decision(pools, aff),
        ).contains(a),
{
    let decision = affinity_decision(pools, aff);
    let actions = affinity_actions(node_name, vteps, aff, decision);
    if let Some(Ok(c)) = aff.block {
        if exists|i: int| decides(pools, c, i) {
            let i = choose|i: int| decides(pools, c, i);
            if is_tunnelled(pools, c) {
                let j = choose|j: int| #[trigger]
                    decides(pools, c, j) && (pools[j].vxlan_mode == EncapMode::Always
                        || pools[j].vxlan_mode == EncapMode::CrossSubnet);
                lemma_one_pool_decides(pools, c, i, j);
            }
            assert(decision == EncapDecision::Route <==> is_tunnelled(pools, c));
        } else {
            assert(decision == EncapDecision::NoPool);
        }
        if let IpAddress::V4(x) = c.addr {
            lemma_network_v4(x, c.prefix_len);
            let step = pow2((32 - c.prefix_len) as nat);
            let first = network_v4(x, c.prefix_len);
            lemma_pow2_pos((32 - c.prefix_len) as nat);
            if leads_to(a->dst, a->prefix_len, c) {
                lemma_same_multiple(a->dst as nat, first, step, x as nat);
            }
            if is_routed(node_name, vteps, pools, aff) {
                assert(actions[0] == (OverlayActionView::Route {
                    dst: first as u32,
                    prefix_len: c.prefix_len,
                    gateway: vteps[aff.node->0@].tunnel_ip,
                }));
            }
        }
    }
    if actions.contains(a) {
        let k = actions.index_of(a);
        assert(actions[k] == a);
    }
}

/// Two multiples of a step that are no further than the step below a number are the same.
proof fn lemma_same_multiple(a: nat, b: nat, step: nat, x: nat)
    requires
        step > 0,
        a % step == 0,
        b % step == 0,
        a <= x < a + step,
        b <= x < b + step,
    ensures
        a == b,
{
    lemma_fundamental_div_mod(a as int, step as int);
    lemma_fundamental_div_mod(b as int, step as int);
    let p = a as int / step as int;
    let q = b as int / step as int;
    if p < q {
        assert(step * q >= step * p + step) by (nonlinear_arith)
            requires
                p < q,
                step > 0,
        ;
    }
    if q < p {
        assert(step * p >= step * q + step) by (nonlinear_arith)
            requires
                q < p,
                step > 0,
        ;
    }
}

/// Every block of another node that is reached through the tunnel gets a route that begins at
/// the block's first address, has its length and goes to the tunnel address of that node; no
/// other route is made. A block is reached through the tunnel where the most specific of the
/// pools that hold it asks for it. This holds as long as every block could be read.
pub proof fn law_tunnelled_blocks_are_routed(
    node_name: Seq<char>,
    vteps: Map<Seq<char>, VtepView>,
    pools: Seq<PoolEncap>,
    affinities: Seq<AffinityFields>,
    a: OverlayActionView,
)
    requires
        a is Route,
        forall|i: int|
            0 <= i < affinities.len() ==> ((#[trigger] affinities[i]).block matches Some(r) ==> (r
                matches Ok(c) && c.wf())),
    ensures
        routes_first(node_name, vteps, pools, affinities, affinities.len()).contains(a)
            <==> exists|i: int|
            {
                &&& 0 <= i < affinities.len()
                &&& is_routed(node_name, vteps, pools, #[trigger] affinities[i])
                &&& leads_to(a->dst, a->prefix_len, affinities[i].block->0->Ok_0)
                &&& a->gateway == vteps[affinities[i].node->0@].tunnel_ip
            },
{
    lemma_routes(node_name, vteps, pools, affinities, a, affinities.len());
}

/// The same of the first `n` blocks.
proof fn lemma_routes(
    node_name: Seq<char>,
    vteps: Map<Seq<char>, VtepView>,
    pools: Seq<PoolEncap>,
    affinities: Seq<AffinityFields>,
    a: OverlayActionView,
    n: nat,
)
    requires
        n <= affinities.len(),
        a is Route,
        forall|i: int|
            0 <= i < affinities.len() ==> ((#[trigger] affinities[i]).block matches Some(r) ==> (r
                matches Ok(c) && c.wf())),
    ensures
        !aborted(routes_first(node_name, vteps, pools, affinities, n)),
        routes_first(node_name, vteps, pools, affinities, n).contains(a) <==> exists|i: int|
            {
                &&& 0 <= i < n
                &&& is_routed(node_name, vteps, pools, #[trigger] affinities[i])
                &&& leads_to(a->dst, a->prefix_len, affinities[i].block->0->Ok_0)
                &&& a->gateway == vteps[affinities[i].node->0@].tunnel_ip
            },
    decreases n,
{
    if n > 0 {
        let m = (n - 1) as nat;
        lemma_routes(node_name, vteps, pools, affinities, a, m);
        let head = routes_first(node_name, vteps, pools, affinities, m);
        let all = routes_first(node_name, vteps, pools, affinities, n);
        let aff = affinities[m as int];
        let more = affinity_actions(node_name, vteps, aff, affinity_decision(pools, aff));
        lemma_affinity_route(node_name, vteps, pools, aff, a);
        assert(all == head + more);
        assert(!aborted(all)) by {
            if more.len() > 0 {
                assert(all.last() == more.last());
                assert(!(more[0] is Abort));
            } else {
                assert(all =~= head);
            }
        }
        if all.contains(a) {
            let k = all.index_of(a);
            if k < head.len() {
                assert(head[k] == a);
                assert(head.contains(a));
            } else {
                assert(more[k - head.len()] == a);
                assert(more.contains(a));
            }
        }
        if exists|i: int|
            {
                &&& 0 <= i < n
                &&& is_routed(node_name, vteps, pools, #[trigger] affinities[i])
                &&& leads_to(a->dst, a->prefix_len, affinities[i].block->0->Ok_0)
                &&& a->gateway == vteps[affinities[i].node->0@].tunnel_ip
            } {
            let i = choose|i: int|
                {
                    &&& 0 <= i < n
                    &&& is_routed(node_name, vteps, pools, #[trigger] affinities[i])
                    &&& leads_to(a->dst, a->prefix_len, affinities[i].block->0->Ok_0)
                    &&& a->gateway == vteps[affinities[i].node->0@].tunnel_ip
                };
            if i < m {
                assert(head.contains(a));
                assert(all[head.index_of(a)] == a);
            } else {
                assert(more.contains(a));
                assert(all[head.len() + more.index_of(a)] == a);
            }
        }
    }
}

/// The pools that decide about tunnelling are those that are enabled and have a block, each
/// with the mode that it names: always, across subnets only, or never where it names neither.
pub proof fn law_enabled_pools_decide(pools: Seq<PoolFields>, e: PoolEncap)
    ensures
        encaps_first(pools, pools.len()).contains(e) <==> exists|i: int|
            0 <= i < pools.len() && is_pool_of(#[trigger] pools[i], e),
{
    lemma_encaps(pools, e, pools.len());
}

/// Whether a pool counts, and is read so.
pub open spec fn is_pool_of(p: PoolFields, e: PoolEncap) -> bool {
    &&& p.disabled is None || !p.disabled->0
    &&& p.cidr is Some
    &&& p.block == Ok::<Cidr, String>(e.cidr)
    &&& e.vxlan_mode == EncapMode::Always <==> (p.vxlan_mode is Some && p.vxlan_mode->0@
        == "Always"@)
    &&& e.vxlan_mode == EncapMode::CrossSubnet <==> (p.vxlan_mode is Some && p.vxlan_mode->0@
        == "CrossSubnet"@)
}

/// The same of the first `n` pools.
proof fn lemma_encaps(pools: Seq<PoolFields>, e: PoolEncap, n: nat)
    requires
        n <= pools.len(),
    ensures
        encaps_first(pools, n).contains(e) <==> exists|i: int|
            0 <= i < n && is_pool_of(#[trigger] pools[i], e),
    decreases n,
{
    if n > 0 {
        let m = (n - 1) as nat;
        lemma_encaps(pools, e, m);
        reveal_strlit("Always");
        reveal_strlit("CrossSubnet");
        assert("Always"@.len() == 6 && "CrossSubnet"@.len() == 11);
        let head = encaps_first(pools, m);
        let all = encaps_first(pools, n);
        let p = pools[m as int];
        assert(p.vxlan_mode.deep_view() == (match p.vxlan_mode {
            Some(s) => Some(s@),
            None => None,
        }));
        let counted = p.enabled() && p.cidr is Some && p.block is Ok;
        if counted {
            let x = PoolEncap {
                cidr: p.block->Ok_0,
                vxlan_mode: encap_of(p.vxlan_mode.deep_view()),
            };
            assert(all == head.push(x));
            assert(is_pool_of(p, e) <==> e == x);
            assert(all[head.len() as int] == x);
        } else {
            assert(!is_pool_of(p, e));
        }
        if all.contains(e) {
            let i = all.index_of(e);
            if i < head.len() {
                assert(head[i] == e);
                assert(head.contains(e));
            }
        }
        if head.contains(e) {
            assert(all[head.index_of(e)] == e);
        }
        if exists|i: int| 0 <= i < n && is_pool_of(#[trigger] pools[i], e) {
            let i = choose|i: int| 0 <= i < n && is_pool_of(#[trigger] pools[i], e);
            if i < m {
                assert(is_pool_of(pools[i], e));
            }
        }
    }
}

/// The tunnel address comes from the first pool that is not disabled, in blocks of the size
/// that it names, or of the usual size where it names none.
pub proof fn law_first_enabled_pool_is_taken(pools: Seq<PoolFields>, i: int)
    requires
        0 <= i <= pools.len(),
        forall|j: int| 0 <= j < i ==> (#[trigger] pools[j]).disabled == Some(true),
        i < pools.len() ==> pools[i].disabled != Some(true),
    ensures
        i == pools.len() ==> pool_choice(pools) is Err,
        i < pools.len() ==> {
            &&& pool_choice(pools) is Ok <==> pools[i].cidr is Some && pools[i].block is Ok
            &&& pool_choice(pools) matches Ok((c, size)) ==> c == pools[i].block->Ok_0 && (
            pools[i].block_size matches Some(b) ==> (b < 256 ==> size == b)) && (
            pools[i].block_size is None ==> size == 26)
        },
{
    lemma_usable(pools, 0, i);
}

/// The first enabled pool from a position on.
proof fn lemma_usable(pools: Seq<PoolFields>, k: int, i: int)
    requires
        0 <= k <= i <= pools.len(),
        forall|j: int| k <= j < i ==> (#[trigger] pools[j]).disabled == Some(true),
        i < pools.len() ==> pools[i].disabled != Some(true),
    ensures
        i == pools.len() ==> usable_from(pools, k) is None,
        i < pools.len() ==> usable_from(pools, k) == Some(pools[i]),
    decreases i - k,
{
    if k < i {
        lemma_usable(pools, k + 1, i);
    }
}

/// Whether a block is one of another node that has an end, so that it has to be read.
pub open spec fn is_remote(
    node_name: Seq<char>,
    vteps: Map<Seq<char>, VtepView>,
    aff: AffinityFields,
) -> bool {
    &&& aff.node is Some
    &&& aff.node->0@.len() > 0
    &&& aff.node->0@ != node_name
    &&& vteps.dom().contains(aff.node->0@)
}

/// The first block of another node that cannot be read ends the work with what is wrong with
/// it; what was to be done before it is still done, and nothing behind it.
pub proof fn law_unreadable_block_ends_the_work(
    node_name: Seq<char>,
    vteps: Map<Seq<char>, VtepView>,
    pools: Seq<PoolEncap>,
    affinities: Seq<AffinityFields>,
    i: int,
    n: nat,
)
    requires
        0 <= i < n <= affinities.len(),
        is_remote(node_name, vteps, affinities[i]),
        affinities[i].block matches Some(Err(_)),
        forall|j: int|
            0 <= j < i ==> !(is_remote(node_name, vteps, #[trigger] affinities[j]) && (
            affinities[j].block matches Some(Err(_)))),
    ensures
        ({
            let done = routes_first(node_name, vteps, pools, affinities, i as nat);
            let all = routes_first(node_name, vteps, pools, affinities, n);
            &&& all == done.push(OverlayActionView::Abort(affinities[i].block->0->Err_0@))
            &&& forall|k: int| 0 <= k < done.len() ==> !((#[trigger] done[k]) is Abort)
        }),
    decreases n,
{
    lemma_no_abort(node_name, vteps, pools, affinities, i as nat);
    let done = routes_first(node_name, vteps, pools, affinities, i as nat);
    if n == i + 1 {
        assert(!aborted(done));
        let aff = affinities[i];
        let more = affinity_actions(node_name, vteps, aff, affinity_decision(pools, aff));
        assert(more =~= seq![OverlayActionView::Abort(aff.block->0->Err_0@)]);
        assert(routes_first(node_name, vteps, pools, affinities, n) =~= done.push(more[0]));
    } else {
        law_unreadable_block_ends_the_work(
            node_name,
            vteps,
            pools,
            affinities,
            i,
            (n - 1) as nat,
        );
        assert(aborted(routes_first(node_name, vteps, pools, affinities, (n - 1) as nat)));
    }
}

/// Blocks that can be read do not end the work.
proof fn lemma_no_abort(
    node_name: Seq<char>,
    vteps: Map<Seq<char>, VtepView>,
    pools: Seq<PoolEncap>,
    affinities: Seq<AffinityFields>,
    n: nat,
)
    requires
        n <= affinities.len(),
        forall|j: int|
            0 <= j < n ==> !(is_remote(node_name, vteps, #[trigger] affinities[j]) && (
            affinities[j].block matches Some(Err(_)))),
    ensures
        forall|k: int|
            0 <= k < routes_first(node_name, vteps, pools, affinities, n).len() ==> !((
            #[trigger] routes_first(node_name, vteps, pools, affinities, n)[k]) is Abort),
    decreases n,
{
    if n > 0 {
        let m = (n - 1) as nat;
        lemma_no_abort(node_name, vteps, pools, affinities, m);
        let head = routes_first(node_name, vteps, pools, affinities, m);
        let aff = affinities[m as int];
        let more = affinity_actions(node_name, vteps, aff, affinity_decision(pools, aff));
        assert(!(is_remote(node_name, vteps, affinities[m as int]) && (
        affinities[m as int].block matches Some(Err(_)))));
        assert forall|k: int| 0 <= k < more.len() implies !((#[trigger] more[k]) is Abort) by {}
        assert forall|k: int|
            0 <= k < routes_first(node_name, vteps, pools, affinities, n).len() implies !((
        #[trigger] routes_first(node_name, vteps, pools, affinities, n)[k]) is Abort) by {
            if k < head.len() {
                assert(routes_first(node_name, vteps, pools, affinities, n)[k] == head[k]);
            } else {
                assert(routes_first(node_name, vteps, pools, affinities, n)[k] == more[k
                    - head.len()]);
            }
        }
    }
}

} // verus!
