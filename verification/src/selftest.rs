//! What a self-test of the dataplane expects of what it reads back.
//!
//! The self-tests program the kernel for real and then list what is there. The functions
//! here hold such a listing against what was programmed, and say in words what is wrong.

use crate::kernel::set_contains_member;
use crate::pools::{ipv4_form, ipv4_text, IpAddress};
use crate::text::{cat, cat3, contains_text, debug_text, decimal, decimal_text};
use crate::vxlan::{mac_value, parse_mac, PORT, VNI};
use vstd::prelude::*;

verus! {

/// The first of the texts that does not stand in the listing.
pub open spec fn first_missing(
    listed: Seq<char>,
    needles: Seq<Seq<char>>,
) -> Option<Seq<char>>
    decreases needles.len(),
{
    if needles.len() == 0 {
        None
    } else if !crate::text::holds_text(listed, needles[0]) {
        Some(needles[0])
    } else {
        first_missing(listed, needles.skip(1))
    }
}

/// The first of the texts that stands in the listing.
pub open spec fn first_present(
    listed: Seq<char>,
    needles: Seq<Seq<char>>,
) -> Option<Seq<char>>
    decreases needles.len(),
{
    if needles.len() == 0 {
        None
    } else if crate::text::holds_text(listed, needles[0]) {
        Some(needles[0])
    } else {
        first_present(listed, needles.skip(1))
    }
}

/// How a complaint about a text in a listing is worded.
#[derive(Debug)]
pub enum Wording {
    /// These words alone.
    Plain(String),
    /// These words, and then the listing.
    Listing(String),
    /// Words before the text, which is quoted, words behind it, and then the listing.
    Quoting(String, String),
}

impl Wording {
    /// The complaint about `text` in `listed`.
    pub open spec fn about(&self, text: Seq<char>, listed: Seq<char>) -> Seq<char> {
        match self {
            Wording::Plain(words) => words@,
            Wording::Listing(words) => words@ + listed,
            Wording::Quoting(before, behind) => before@ + crate::text::debug_form(text) + behind@
                + listed,
        }
    }

    /// The complaint about `text` in `listed`.
    fn words(&self, text: &str, listed: &str) -> (r: String)
        ensures
            r@ == self.about(text@, listed@),
    {
        match self {
            Wording::Plain(words) => words.clone(),
            Wording::Listing(words) => {
                let mut s = words.clone();
                s.push_str(listed);
                s
            },
            Wording::Quoting(before, behind) => complaint(
                before.as_str(),
                debug_text(text).as_str(),
                behind.as_str(),
                listed,
            ),
        }
    }
}

/// Complains about the first of the texts that the listing lacks.
pub fn require_all(listed: &str, needles: &Vec<String>, wording: &Wording) -> (r: Result<
    (),
    String,
>)
    ensures
        match first_missing(listed@, needles.deep_view()) {
            None => r == Ok::<(), String>(()),
            Some(n) => r matches Err(e) && e@ == wording.about(n, listed@),
        },
{
    let ghost all = needles.deep_view();
    assert(all.skip(0) =~= all);
    let mut i: usize = 0;
    while i < needles.len()
        invariant
            i <= needles@.len(),
            all == needles.deep_view(),
            first_missing(listed@, all) == first_missing(listed@, all.skip(i as int)),
        decreases needles@.len() - i,
    {
        assert(all.skip(i as int)[0] == needles@[i as int]@);
        assert(all.skip(i as int).skip(1) =~= all.skip(i + 1));
        if !contains_text(listed, needles[i].as_str()) {
            return Err(wording.words(needles[i].as_str(), listed));
        }
        i = i + 1;
    }
    Ok(())
}

/// Complains about the first of the texts that is still in the listing.
pub fn require_gone(listed: &str, needles: &Vec<String>, wording: &Wording) -> (r: Result<
    (),
    String,
>)
    ensures
        match first_present(listed@, needles.deep_view()) {
            None => r == Ok::<(), String>(()),
            Some(n) => r matches Err(e) && e@ == wording.about(n, listed@),
        },
{
    let ghost all = needles.deep_view();
    assert(all.skip(0) =~= all);
    let mut i: usize = 0;
    while i < needles.len()
        invariant
            i <= needles@.len(),
            all == needles.deep_view(),
            first_present(listed@, all) == first_present(listed@, all.skip(i as int)),
        decreases needles@.len() - i,
    {
        assert(all.skip(i as int)[0] == needles@[i as int]@);
        assert(all.skip(i as int).skip(1) =~= all.skip(i + 1));
        if contains_text(listed, needles[i].as_str()) {
            return Err(wording.words(needles[i].as_str(), listed));
        }
        i = i + 1;
    }
    Ok(())
}

/// Complains about a change of a set's members that did not take effect: `added` and `kept`
/// must stand in the listing, and `removed` must be gone from the set `name`.
pub fn require_members(
    listed: &str,
    name: &str,
    added: &str,
    kept: &str,
    removed: &str,
) -> (r: Result<(), String>)
    ensures
        ({
            let gone = match crate::kernel::set_block(listed@, name@) {
                Some(block) => !crate::text::holds_text(block, removed@),
                None => true,
            };
            if !crate::text::holds_text(listed@, added@) {
                r matches Err(e) && e@ == "delta add "@ + added@ + " missing; got:\n"@ + listed@
            } else if !crate::text::holds_text(listed@, kept@) {
                r matches Err(e) && e@ == "untouched "@ + kept@ + " vanished; got:\n"@ + listed@
            } else if !gone {
                r matches Err(e) && e@ == "delta remove "@ + removed@ + " still present; got:\n"@
                    + listed@
            } else {
                r == Ok::<(), String>(())
            }
        }),
{
    if !contains_text(listed, added) {
        return Err(complaint("delta add ", added, " missing; got:\n", listed));
    }
    if !contains_text(listed, kept) {
        return Err(complaint("untouched ", kept, " vanished; got:\n", listed));
    }
    if set_contains_member(listed, name, removed) {
        return Err(complaint("delta remove ", removed, " still present; got:\n", listed));
    }
    Ok(())
}

/// Four texts, one after the other.
fn complaint(a: &str, b: &str, c: &str, d: &str) -> (r: String)
    ensures
        r@ == a@ + b@ + c@ + d@,
{
    let mut s = a.to_owned();
    s.push_str(b);
    s.push_str(c);
    s.push_str(d);
    s
}

/// A number that may be absent, in words.
pub open spec fn optional_number(n: Option<u64>) -> Seq<char> {
    match n {
        Some(v) => "Some("@ + crate::text::decimal(v as nat) + ")"@,
        None => "None"@,
    }
}

/// A number that may be absent, in words.
fn optional_number_text(n: Option<u64>) -> (r: String)
    ensures
        r@ == optional_number(n),
{
    match n {
        Some(v) => {
            let mut s = "Some(".to_owned();
            s.push_str(decimal_text(v).as_str());
            s.push_str(")");
            s
        },
        None => "None".to_owned(),
    }
}

/// What is wrong with the attributes of the tunnel device, where they are not the ones it
/// was made with: the network identifier, the port, and that learning is off.
pub open spec fn device_complaint(
    vni: Option<u32>,
    port: Option<u16>,
    learning: Option<bool>,
) -> Option<Seq<char>> {
    if vni != Some(VNI) {
        Some(
            "VNI mismatch: got "@ + optional_number(
                match vni {
                    Some(v) => Some(v as u64),
                    None => None,
                },
            ) + ", want "@ + decimal(VNI as nat),
        )
    } else if port != Some(PORT) {
        Some(
            "port mismatch: got "@ + optional_number(
                match port {
                    Some(v) => Some(v as u64),
                    None => None,
                },
            ) + ", want "@ + decimal(PORT as nat),
        )
    } else {
        match learning {
            Some(false) => None,
            Some(true) => Some("learning mismatch: got "@ + "Some(true)"@ + ", want Some(false)"@),
            None => Some("learning mismatch: got "@ + "None"@ + ", want Some(false)"@),
        }
    }
}

/// Whether an outcome is success, or the given complaint.
pub open spec fn complains(r: Result<(), String>, complaint: Option<Seq<char>>) -> bool {
    match complaint {
        None => r == Ok::<(), String>(()),
        Some(c) => r matches Err(e) && e@ == c,
    }
}

/// Complains about attributes of the tunnel device that are not the ones it was made with.
pub fn require_device(vni: Option<u32>, port: Option<u16>, learning: Option<bool>) -> (r: Result<
    (),
    String,
>)
    ensures
        complains(r, device_complaint(vni, port, learning)),
{
    let vni_ok = match vni {
        Some(v) => v == VNI,
        None => false,
    };
    if !vni_ok {
        let got = optional_number_text(
            match vni {
                Some(v) => Some(v as u64),
                None => None,
            },
        );
        let want = decimal_text(VNI as u64);
        return Err(complaint("VNI mismatch: got ", got.as_str(), ", want ", want.as_str()));
    }
    let port_ok = match port {
        Some(v) => v == PORT,
        None => false,
    };
    if !port_ok {
        let got = optional_number_text(
            match port {
                Some(v) => Some(v as u64),
                None => None,
            },
        );
        let want = decimal_text(PORT as u64);
        return Err(complaint("port mismatch: got ", got.as_str(), ", want ", want.as_str()));
    }
    match learning {
        Some(false) => Ok(()),
        Some(true) => Err(
            cat3("learning mismatch: got ", "Some(true)", ", want Some(false)"),
        ),
        None => Err(cat3("learning mismatch: got ", "None", ", want Some(false)")),
    }
}

/// What is read of an entry of a neighbour or a forwarding table.
#[derive(Debug)]
pub struct NeighbourFacts {
    /// The index of its link.
    pub link: u32,
    /// The addresses that it is for, byte by byte.
    pub destinations: Vec<Vec<u8>>,
    /// The hardware addresses that it leads to.
    pub hardware: Vec<Vec<u8>>,
}

/// Whether an entry leads to a hardware address.
pub open spec fn leads(e: NeighbourFacts, link: u32, dst: Seq<u8>, mac: Seq<u8>) -> bool {
    e.link == link && holds_bytes(e.destinations@, dst) && holds_bytes(e.hardware@, mac)
}

/// Whether one of the byte strings is the given one.
pub open spec fn holds_bytes(list: Seq<Vec<u8>>, want: Seq<u8>) -> bool {
    exists|i: int| 0 <= i < list.len() && (#[trigger] list[i])@ == want
}

/// Whether one of the byte strings is the given one.
fn find_bytes(list: &Vec<Vec<u8>>, want: &[u8]) -> (r: bool)
    ensures
        r == holds_bytes(list@, want@),
{
    for i in 0..list.len()
        invariant
            forall|j: int| 0 <= j < i ==> (#[trigger] list@[j])@ != want@,
    {
        if bytes_eq(list[i].as_slice(), want) {
            assert(list@[i as int]@ == want@);
            return true;
        }
    }
    false
}

/// Whether two byte strings are equal.
fn bytes_eq(a: &[u8], b: &[u8]) -> (r: bool)
    ensures
        r == (a@ == b@),
{
    if a.len() != b.len() {
        return false;
    }
    for i in 0..a.len()
        invariant
            a@.len() == b@.len(),
            forall|j: int| 0 <= j < i ==> a@[j] == b@[j],
    {
        if a[i] != b[i] {
            return false;
        }
    }
    assert(a@ =~= b@);
    true
}

/// Whether some entry of the link leads from the address to the hardware address.
pub fn neighbour_present(entries: &Vec<NeighbourFacts>, link: u32, dst: &[u8], mac: &[u8]) -> (r:
    bool)
    ensures
        r == exists|i: int| 0 <= i < entries@.len() && leads(#[trigger] entries@[i], link, dst@, mac@),
{
    for i in 0..entries.len()
        invariant
            forall|j: int| 0 <= j < i ==> !leads(#[trigger] entries@[j], link, dst@, mac@),
    {
        let e = &entries[i];
        if e.link == link && find_bytes(&e.destinations, dst) && find_bytes(&e.hardware, mac) {
            assert(leads(entries@[i as int], link, dst@, mac@));
            return true;
        }
    }
    false
}

/// What is read of a route.
#[derive(Debug)]
pub struct RouteFacts {
    /// The length of its prefix.
    pub prefix_len: u8,
    /// The addresses that it is for.
    pub destinations: Vec<IpAddress>,
}

/// Whether a route is that to the given destination.
pub open spec fn routes_to(route: RouteFacts, dst: IpAddress, prefix_len: u8) -> bool {
    route.prefix_len == prefix_len && route.destinations@.contains(dst)
}

/// Whether one of the routes is that to exactly the given destination.
pub fn route_present(routes: &Vec<RouteFacts>, dst: IpAddress, prefix_len: u8) -> (r: bool)
    ensures
        r == exists|i: int|
            0 <= i < routes@.len() && routes_to(#[trigger] routes@[i], dst, prefix_len),
{
    for i in 0..routes.len()
        invariant
            forall|j: int| 0 <= j < i ==> !routes_to(#[trigger] routes@[j], dst, prefix_len),
    {
        let route = &routes[i];
        if route.prefix_len == prefix_len {
            for k in 0..route.destinations.len()
                invariant
                    i < routes@.len(),
                    *route == routes@[i as int],
                    route.prefix_len == prefix_len,
                    forall|j: int| 0 <= j < i ==> !routes_to(#[trigger] routes@[j], dst, prefix_len),
                    forall|m: int| 0 <= m < k ==> route.destinations@[m] != dst,
            {
                if route.destinations[k] == dst {
                    assert(route.destinations@[k as int] == dst);
                    assert(routes_to(routes@[i as int], dst, prefix_len));
                    return true;
                }
            }
        }
    }
    false
}

/// What is wrong with a route, where it is missing although it was programmed, or is there
/// although it was removed.
pub open spec fn route_complaint(present: bool, dst: Seq<char>, wanted: bool) -> Option<Seq<char>> {
    if wanted && !present {
        Some("route "@ + dst + " missing after program"@)
    } else if !wanted && present {
        Some("route "@ + dst + " still present after remove"@)
    } else {
        None
    }
}

/// Complains about the route to `dst`, which is the block of `addr`, where it is missing
/// although it is wanted or is there although it is not.
pub fn require_route(
    routes: &Vec<RouteFacts>,
    dst: &str,
    addr: IpAddress,
    prefix_len: u8,
    wanted: bool,
) -> (r: Result<(), String>)
    ensures
        complains(
            r,
            route_complaint(
                exists|i: int|
                    0 <= i < routes@.len() && routes_to(#[trigger] routes@[i], addr, prefix_len),
                dst@,
                wanted,
            ),
        ),
{
    let present = route_present(routes, addr, prefix_len);
    if wanted && !present {
        Err(cat3("route ", dst, " missing after program"))
    } else if !wanted && present {
        Err(cat3("route ", dst, " still present after remove"))
    } else {
        Ok(())
    }
}

/// What the self-test of the tunnel programs.
#[derive(Debug)]
pub struct TunnelFixture {
    /// The index of the tunnel device.
    pub link: u32,
    /// The address of this end of the tunnel.
    pub tunnel_ip: u32,
    /// The address of the other end.
    pub remote_vtep: u32,
    /// The address of the other node.
    pub remote_underlay: u32,
    /// The hardware address of the other end.
    pub remote_mac: String,
    /// A block of the other node.
    pub block: u32,
    /// The length of the block's prefix.
    pub block_prefix: u8,
}

/// What the self-test of the tunnel reads back.
#[derive(Debug)]
pub struct TunnelReadback {
    /// The network identifier of the device.
    pub vni: Option<u32>,
    /// The port of the device.
    pub port: Option<u16>,
    /// Whether the device learns.
    pub learning: Option<bool>,
    /// The addresses of the device.
    pub addresses: Vec<u32>,
    /// The neighbour table.
    pub neighbours: Vec<NeighbourFacts>,
    /// The forwarding table.
    pub forwarding: Vec<NeighbourFacts>,
    /// The routes.
    pub routes: Vec<RouteFacts>,
}

/// The bytes of an IPv4 address.
pub open spec fn octets(a: u32) -> Seq<u8> {
    seq![
        (a / 0x100_0000) as u8,
        (a / 0x1_0000 % 0x100) as u8,
        (a / 0x100 % 0x100) as u8,
        (a % 0x100) as u8,
    ]
}

/// The bytes of an IPv4 address.
fn octets_of(a: u32) -> (r: Vec<u8>)
    ensures
        r@ == octets(a),
{
    let v: Vec<u8> = vec![
        (a / 0x100_0000) as u8,
        (a / 0x1_0000 % 0x100) as u8,
        (a / 0x100 % 0x100) as u8,
        (a % 0x100) as u8,
    ];
    assert(v@ =~= octets(a));
    v
}

/// Whether some entry leads from the address to the hardware address.
pub open spec fn some_leads(
    entries: Seq<NeighbourFacts>,
    link: u32,
    dst: Seq<u8>,
    mac: Seq<u8>,
) -> bool {
    exists|i: int| 0 <= i < entries.len() && leads(#[trigger] entries[i], link, dst, mac)
}

/// What is wrong with a tunnel: the first of its device, its address, the neighbour entry,
/// the forwarding entry and the route that is not as it was programmed.
pub open spec fn tunnel_complaint(f: TunnelFixture, found: TunnelReadback) -> Option<Seq<char>> {
    let device = device_complaint(found.vni, found.port, found.learning);
    let to = IpAddress::V4(f.block);
    if device is Some {
        device
    } else if !found.addresses@.contains(f.tunnel_ip) {
        Some("tunnel addr "@ + ipv4_form(f.tunnel_ip) + " missing on vxlan device"@)
    } else {
        match mac_value(f.remote_mac@) {
            Err(e) => Some(e),
            Ok(mac) => if !some_leads(found.neighbours@, f.link, octets(f.remote_vtep), mac) {
                Some(
                    "neighbour "@ + ipv4_form(f.remote_vtep) + " -> "@ + f.remote_mac@ + " missing"@,
                )
            } else if !some_leads(found.forwarding@, f.link, octets(f.remote_underlay), mac) {
                Some("FDB "@ + f.remote_mac@ + " -> "@ + ipv4_form(f.remote_underlay) + " missing"@)
            } else if !exists|i: int|
                0 <= i < found.routes@.len() && routes_to(
                    #[trigger] found.routes@[i],
                    to,
                    f.block_prefix,
                ) {
                Some(
                    "route "@ + ipv4_form(f.block) + "/"@ + decimal(f.block_prefix as nat)
                        + " missing"@,
                )
            } else {
                None
            },
        }
    }
}

/// Whether an address is in the list.
fn lists(addresses: &Vec<u32>, ip: u32) -> (r: bool)
    ensures
        r == addresses@.contains(ip),
{
    for i in 0..addresses.len()
        invariant
            forall|j: int| 0 <= j < i ==> addresses@[j] != ip,
    {
        if addresses[i] == ip {
            assert(addresses@[i as int] == ip);
            return true;
        }
    }
    false
}

/// Complains about the first thing of a tunnel that is not as it was programmed.
pub fn check_tunnel(f: &TunnelFixture, found: &TunnelReadback) -> (r: Result<(), String>)
    ensures
        complains(r, tunnel_complaint(*f, *found)),
{
    let device = require_device(found.vni, found.port, found.learning);
    if device.is_err() {
        return device;
    }
    if !lists(&found.addresses, f.tunnel_ip) {
        let ip = ipv4_text(f.tunnel_ip);
        return Err(cat3("tunnel addr ", ip.as_str(), " missing on vxlan device"));
    }
    let mac = match parse_mac(f.remote_mac.as_str()) {
        Ok(mac) => mac,
        Err(e) => {
            return Err(e);
        },
    };
    let vtep = octets_of(f.remote_vtep);
    if !neighbour_present(&found.neighbours, f.link, vtep.as_slice(), &mac) {
        let ip = ipv4_text(f.remote_vtep);
        let mut e = complaint("neighbour ", ip.as_str(), " -> ", f.remote_mac.as_str());
        e.push_str(" missing");
        return Err(e);
    }
    let underlay = octets_of(f.remote_underlay);
    if !neighbour_present(&found.forwarding, f.link, underlay.as_slice(), &mac) {
        let ip = ipv4_text(f.remote_underlay);
        let mut e = complaint("FDB ", f.remote_mac.as_str(), " -> ", ip.as_str());
        e.push_str(" missing");
        return Err(e);
    }
    if !route_present(&found.routes, IpAddress::V4(f.block), f.block_prefix) {
        let ip = ipv4_text(f.block);
        let len = decimal_text(f.block_prefix as u64);
        let mut e = complaint("route ", ip.as_str(), "/", len.as_str());
        e.push_str(" missing");
        return Err(e);
    }
    Ok(())
}

/// How far the test of forwarding between two pods has come.
#[derive(Debug, Clone, Copy, PartialEq, Eq, Structural)]
pub enum ForwardPhase {
    /// The pods and the router between them are being built.
    Topology,
    /// A packet is sent without any policy.
    Baseline,
    /// The policy that does not admit the source is being programmed.
    ApplyDeny,
    /// A packet is sent that must not arrive.
    PingDenied,
    /// The source is being added to what the policy admits.
    ApplyAllow,
    /// A packet is sent that must arrive.
    PingAllowed,
    /// The test has passed.
    Passed,
}

/// How the test of forwarding ends early: with an exit code and words. Code 2 says that the
/// test could not be made here, code 1 that it has failed.
#[derive(Debug, PartialEq, Eq)]
pub struct ForwardEnd {
    /// The exit code.
    pub code: i32,
    /// What happened.
    pub message: String,
}

/// How the test of forwarding ends where a step does not come out as it must.
pub open spec fn forward_end(phase: ForwardPhase, error: Seq<char>) -> (int, Seq<char>) {
    match phase {
        ForwardPhase::Topology => (2, "SKIP: cannot build topology: "@ + error),
        ForwardPhase::Baseline => (2, "SKIP: baseline forwarding does not work here"@),
        ForwardPhase::ApplyDeny => (1, "FAILED: apply (deny state): "@ + error),
        ForwardPhase::PingDenied => (
            1,
            "FAILED: src→dst was ALLOWED despite the dst ingress default-deny — the source-egress ALLOW short-circuited ingress (the terminal-accept bug)."@,
        ),
        ForwardPhase::ApplyAllow => (1, "FAILED: apply (allow state): "@ + error),
        _ => (
            1,
            "FAILED: src→dst was DROPPED after being added to the dst ingress allow-set — enforcement is over-blocking."@,
        ),
    }
}

/// The step behind a step that has come out as it must.
pub open spec fn forward_next(phase: ForwardPhase) -> ForwardPhase {
    match phase {
        ForwardPhase::Topology => ForwardPhase::Baseline,
        ForwardPhase::Baseline => ForwardPhase::ApplyDeny,
        ForwardPhase::ApplyDeny => ForwardPhase::PingDenied,
        ForwardPhase::PingDenied => ForwardPhase::ApplyAllow,
        ForwardPhase::ApplyAllow => ForwardPhase::PingAllowed,
        _ => ForwardPhase::Passed,
    }
}

/// What is said once a scenario has come out as it must; nothing for the other steps.
pub fn forward_passed(phase: ForwardPhase) -> (r: Option<&'static str>)
    ensures
        match phase {
            ForwardPhase::PingDenied => r matches Some(s) && s@
                == "DENY scenario OK (dst ingress dropped the packet)"@,
            ForwardPhase::PingAllowed => r matches Some(s) && s@
                == "ALLOW scenario OK (src→dst permitted)"@,
            _ => r is None,
        },
{
    match phase {
        ForwardPhase::PingDenied => Some("DENY scenario OK (dst ingress dropped the packet)"),
        ForwardPhase::PingAllowed => Some("ALLOW scenario OK (src→dst permitted)"),
        _ => None,
    }
}

/// Goes on with the test of forwarding, given what came of the step that was made. Every
/// step must succeed but one: the packet that the policy does not admit must not arrive.
pub fn forward_step(phase: ForwardPhase, outcome: Result<(), String>) -> (r: Result<
    ForwardPhase,
    ForwardEnd,
>)
    requires
        phase != ForwardPhase::Passed,
    ensures
        (outcome is Ok) != (phase == ForwardPhase::PingDenied) ==> r == Ok::<
            ForwardPhase,
            ForwardEnd,
        >(forward_next(phase)),
        (outcome is Ok) == (phase == ForwardPhase::PingDenied) ==> (r matches Err(end) && (
            end.code as int,
            end.message@,
        ) == forward_end(
            phase,
            match outcome {
                Ok(_) => Seq::empty(),
                Err(e) => e@,
            },
        )),
{
    let arrived = outcome.is_ok();
    let error = match outcome {
        Ok(_) => String::new(),
        Err(e) => e,
    };
    let good = arrived != (phase == ForwardPhase::PingDenied);
    match phase {
        ForwardPhase::Topology => if good {
            Ok(ForwardPhase::Baseline)
        } else {
            let message = cat("SKIP: cannot build topology: ", error.as_str());
            Err(ForwardEnd { code: 2, message })
        },
        ForwardPhase::Baseline => if good {
            Ok(ForwardPhase::ApplyDeny)
        } else {
            let message = "SKIP: baseline forwarding does not work here".to_owned();
            Err(ForwardEnd { code: 2, message })
        },
        ForwardPhase::ApplyDeny => if good {
            Ok(ForwardPhase::PingDenied)
        } else {
            let message = cat("FAILED: apply (deny state): ", error.as_str());
            Err(ForwardEnd { code: 1, message })
        },
        ForwardPhase::PingDenied => if good {
            Ok(ForwardPhase::ApplyAllow)
        } else {
            let message = "FAILED: src→dst was ALLOWED despite the dst ingress default-deny — the source-egress ALLOW short-circuited ingress (the terminal-accept bug).".to_owned();
            Err(ForwardEnd { code: 1, message })
        },
        ForwardPhase::ApplyAllow => if good {
            Ok(ForwardPhase::PingAllowed)
        } else {
            let message = cat("FAILED: apply (allow state): ", error.as_str());
            Err(ForwardEnd { code: 1, message })
        },
        _ => if good {
            Ok(ForwardPhase::Passed)
        } else {
            let message =
                "FAILED: src→dst was DROPPED after being added to the dst ingress allow-set — enforcement is over-blocking.".to_owned();
            Err(ForwardEnd { code: 1, message })
        },
    }
}

/// A listing passes where every text stands in it; where one is missing, the first that is
/// missing is named.
pub proof fn law_every_text_is_required(listed: Seq<char>, needles: Seq<Seq<char>>)
    ensures
        match first_missing(listed, needles) {
            None => forall|i: int|
                0 <= i < needles.len() ==> crate::text::holds_text(listed, #[trigger] needles[i]),
            Some(n) => exists|i: int|
                {
                    &&& 0 <= i < needles.len()
                    &&& #[trigger] needles[i] == n
                    &&& !crate::text::holds_text(listed, n)
                    &&& forall|j: int|
                        0 <= j < i ==> crate::text::holds_text(listed, #[trigger] needles[j])
                },
        },
    decreases needles.len(),
{
    if needles.len() > 0 {
        let rest = needles.skip(1);
        assert forall|i: int| 0 <= i < rest.len() implies #[trigger] rest[i] == needles[i + 1] by {}
        law_every_text_is_required(listed, rest);
        if crate::text::holds_text(listed, needles[0]) {
            match first_missing(listed, rest) {
                None => {
                    assert forall|i: int| 0 <= i < needles.len() implies crate::text::holds_text(
                        listed,
                        #[trigger] needles[i],
                    ) by {
                        if i > 0 {
                            assert(rest[i - 1] == needles[i]);
                        }
                    }
                },
                Some(n) => {
                    let i = choose|i: int|
                        {
                            &&& 0 <= i < rest.len()
                            &&& #[trigger] rest[i] == n
                            &&& !crate::text::holds_text(listed, n)
                            &&& forall|j: int|
                                0 <= j < i ==> crate::text::holds_text(listed, #[trigger] rest[j])
                        };
                    assert(needles[i + 1] == n);
                    assert forall|j: int| 0 <= j < i + 1 implies crate::text::holds_text(
                        listed,
                        #[trigger] needles[j],
                    ) by {
                        if j > 0 {
                            assert(rest[j - 1] == needles[j]);
                        }
                    }
                },
            }
        } else {
            assert(needles[0] == first_missing(listed, needles)->0);
        }
    }
}

/// A listing passes where none of the texts stands in it; where one does, the first that does
/// is named.
pub proof fn law_every_text_is_to_be_gone(listed: Seq<char>, needles: Seq<Seq<char>>)
    ensures
        match first_present(listed, needles) {
            None => forall|i: int|
                0 <= i < needles.len() ==> !crate::text::holds_text(listed, #[trigger] needles[i]),
            Some(n) => exists|i: int|
                {
                    &&& 0 <= i < needles.len()
                    &&& #[trigger] needles[i] == n
                    &&& crate::text::holds_text(listed, n)
                    &&& forall|j: int|
                        0 <= j < i ==> !crate::text::holds_text(listed, #[trigger] needles[j])
                },
        },
    decreases needles.len(),
{
    if needles.len() > 0 {
        let rest = needles.skip(1);
        assert forall|i: int| 0 <= i < rest.len() implies #[trigger] rest[i] == needles[i + 1] by {}
        law_every_text_is_to_be_gone(listed, rest);
        if !crate::text::holds_text(listed, needles[0]) {
            match first_present(listed, rest) {
                None => {
                    assert forall|i: int| 0 <= i < needles.len() implies !crate::text::holds_text(
                        listed,
                        #[trigger] needles[i],
                    ) by {
                        if i > 0 {
                            assert(rest[i - 1] == needles[i]);
                        }
                    }
                },
                Some(n) => {
                    let i = choose|i: int|
                        {
                            &&& 0 <= i < rest.len()
                            &&& #[trigger] rest[i] == n
                            &&& crate::text::holds_text(listed, n)
                            &&& forall|j: int|
                                0 <= j < i ==> !crate::text::holds_text(listed, #[trigger] rest[j])
                        };
                    assert(needles[i + 1] == n);
                    assert forall|j: int| 0 <= j < i + 1 implies !crate::text::holds_text(
                        listed,
                        #[trigger] needles[j],
                    ) by {
                        if j > 0 {
                            assert(rest[j - 1] == needles[j]);
                        }
                    }
                },
            }
        } else {
            assert(needles[0] == first_present(listed, needles)->0);
        }
    }
}

/// A tunnel passes exactly where everything that was programmed is read back: the device with
/// its identifier and port and without learning, the tunnel address on it, the neighbour entry
/// from the remote tunnel address and the forwarding entry from the remote node's address to
/// the remote hardware address, and the route to the remote block.
pub proof fn law_tunnel_passes_where_everything_is_there(f: TunnelFixture, found: TunnelReadback)
    ensures
        tunnel_complaint(f, found) is None <==> {
            &&& found.vni == Some(4096u32)
            &&& found.port == Some(4789u16)
            &&& found.learning == Some(false)
            &&& found.addresses@.contains(f.tunnel_ip)
            &&& mac_value(f.remote_mac@) matches Ok(mac)
            &&& exists|i: int|
                0 <= i < found.neighbours@.len() && leads(
                    #[trigger] found.neighbours@[i],
                    f.link,
                    octets(f.remote_vtep),
                    mac,
                )
            &&& exists|i: int|
                0 <= i < found.forwarding@.len() && leads(
                    #[trigger] found.forwarding@[i],
                    f.link,
                    octets(f.remote_underlay),
                    mac,
                )
            &&& exists|i: int|
                {
                    &&& 0 <= i < found.routes@.len()
                    &&& (#[trigger] found.routes@[i]).prefix_len == f.block_prefix
                    &&& found.routes@[i].destinations@.contains(IpAddress::V4(f.block))
                }
        },
{
    let to = IpAddress::V4(f.block);
    if exists|i: int|
        {
            &&& 0 <= i < found.routes@.len()
            &&& (#[trigger] found.routes@[i]).prefix_len == f.block_prefix
            &&& found.routes@[i].destinations@.contains(to)
        } {
        let i = choose|i: int|
            {
                &&& 0 <= i < found.routes@.len()
                &&& (#[trigger] found.routes@[i]).prefix_len == f.block_prefix
                &&& found.routes@[i].destinations@.contains(to)
            };
        assert(routes_to(found.routes@[i], to, f.block_prefix));
    }
}

/// The octets of an address, most significant first, are the address.
pub proof fn law_octets_are_the_address(a: u32)
    ensures
        octets(a).len() == 4,
        octets(a)[0] * 0x100_0000 + octets(a)[1] * 0x1_0000 + octets(a)[2] * 0x100 + octets(a)[3]
            == a,
{
    assert(a / 0x100_0000 < 0x100);
    assert(a / 0x1_0000 % 0x100 < 0x100);
    assert(a / 0x100 % 0x100 < 0x100);
}

/// A route is complained about exactly where it is not as it is wanted.
pub proof fn law_routes_are_as_wanted(present: bool, dst: Seq<char>, wanted: bool)
    ensures
        route_complaint(present, dst, wanted) is None <==> present == wanted,
{
}

} // verus!
