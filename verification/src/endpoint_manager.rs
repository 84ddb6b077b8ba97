//! The chains that enforce policy on the workloads of a node.
//!
//! Every policy and every profile has one chain for each direction, and so has every
//! endpoint. An endpoint's chain jumps to the chains of its policies in order, or, where
//! no policy selects the endpoint in that direction, to those of its profiles; whatever
//! none of them allows is dropped. The base chain `cali-forward` sends the traffic of each
//! endpoint through its chains of both directions.

use crate::ipset_manager::{set_name, set_name_for};
use crate::messages::{
    Policy, PolicyId, PolicyIdView, PolicyRule, PolicyRuleView, PolicyView, RuleAction, TierInfoView,
    WorkloadEndpoint, WorkloadEndpointId, WorkloadEndpointIdView, WorkloadEndpointView,
};
use crate::nft::{
    guarded_rule, plain_rule, BaseHook, BaseHookView, ChainType, NftChain, NftChainView, NftMatch,
    NftMatchView, NftRule, NftRuleView, Verdict, VerdictView,
};
use crate::ordmap::{deep_map, OrdMap};
use crate::seqs::{append_items, concat_all, concat_first, lemma_concat_all, push_item};
use crate::text::{is_alnum, alnum, to_chars, lowercase, views};
use vstd::prelude::*;

verus! {

broadcast use {
    crate::text::lemma_views_push,
    crate::ordmap::lemma_deep_insert,
};

/// The base chain that sends traffic to the chains of the endpoints.
pub const FORWARD_CHAIN: &'static str = "cali-forward";

/// The direction of traffic, seen from the endpoint.
#[derive(Debug, Clone, Copy, PartialEq, Eq, Structural)]
pub enum Direction {
    /// To the endpoint.
    Ingress,
    /// From the endpoint.
    Egress,
}

/// What a rule's action becomes.
pub open spec fn action_verdict(action: RuleAction) -> Option<VerdictView> {
    match action {
        RuleAction::Allow => Some(VerdictView::SetAcceptMarkReturn),
        RuleAction::Deny => Some(VerdictView::Drop),
        RuleAction::Pass => Some(VerdictView::Return),
        RuleAction::Log => None,
    }
}

/// What a rule's action becomes. An allow sets the accept mark and returns, so that the
/// other direction is still evaluated; only a deny is final. A log has no verdict.
pub fn map_action(action: RuleAction) -> (r: Option<Verdict>)
    ensures
        r.deep_view() == action_verdict(action),
{
    match action {
        RuleAction::Allow => Some(Verdict::SetAcceptMarkReturn),
        RuleAction::Deny => Some(Verdict::Drop),
        RuleAction::Pass => Some(Verdict::Return),
        RuleAction::Log => None,
    }
}

/// The character itself where a chain name may hold it, else `-`.
pub open spec fn safe_char(c: char, dot: bool) -> char {
    if is_alnum(c) || c == '-' || c == '_' || (dot && c == '.') {
        c
    } else {
        '-'
    }
}

/// The text with every character that a chain name may not hold replaced by `-`. A dot is
/// kept where `dot` says so.
pub open spec fn safe_text(s: Seq<char>, dot: bool) -> Seq<char> {
    Seq::new(s.len(), |i: int| safe_char(s[i], dot))
}

/// The text with every character that a chain name may not hold replaced by `-`.
fn safe(s: &str, dot: bool) -> (r: String)
    ensures
        r@ == safe_text(s@, dot),
{
    let v = to_chars(s);
    let mut out = String::new();
    for i in 0..v.len()
        invariant
            v@ == s@,
            out@ == safe_text(s@, dot).take(i as int),
    {
        let c = v[i];
        if alnum(c) || c == '-' || c == '_' || (dot && c == '.') {
            out.push(c);
        } else {
            out.push('-');
        }
        assert(out@ =~= safe_text(s@, dot).take(i + 1));
    }
    assert(out@ =~= safe_text(s@, dot));
    out
}

/// The text with every character but letters, digits, `_` and `-` replaced by `-`.
pub fn sanitize(s: &str) -> (r: String)
    ensures
        r@ == safe_text(s@, false),
{
    safe(s, false)
}

/// The name of a policy's chain.
pub open spec fn policy_chain(tier: Seq<char>, name: Seq<char>, dir: Direction) -> Seq<char> {
    (match dir {
        Direction::Ingress => "cali-pi"@,
        Direction::Egress => "cali-po"@,
    }) + "-"@ + safe_text(tier, false) + "-"@ + safe_text(name, false)
}

/// The name of a profile's chain.
pub open spec fn profile_chain(id: Seq<char>, dir: Direction) -> Seq<char> {
    (match dir {
        Direction::Ingress => "cali-pri"@,
        Direction::Egress => "cali-pro"@,
    }) + "-"@ + safe_text(id, true)
}

/// The name of an endpoint's chain.
pub open spec fn dispatch_chain(iface: Seq<char>, dir: Direction) -> Seq<char> {
    (match dir {
        Direction::Ingress => "cali-tw"@,
        Direction::Egress => "cali-fw"@,
    }) + "-"@ + safe_text(iface, false)
}

/// The name of a policy's chain.
pub fn policy_chain_name(id: &PolicyId, dir: Direction) -> (r: String)
    ensures
        r@ == policy_chain(id.tier@, id.name@, dir),
{
    let mut s = match dir {
        Direction::Ingress => "cali-pi".to_owned(),
        Direction::Egress => "cali-po".to_owned(),
    };
    s.push_str("-");
    s.push_str(sanitize(id.tier.as_str()).as_str());
    s.push_str("-");
    s.push_str(sanitize(id.name.as_str()).as_str());
    s
}

/// The name of a profile's chain. A dot in the profile's identity is kept.
pub fn profile_chain_name(id: &str, dir: Direction) -> (r: String)
    ensures
        r@ == profile_chain(id@, dir),
{
    let mut s = match dir {
        Direction::Ingress => "cali-pri".to_owned(),
        Direction::Egress => "cali-pro".to_owned(),
    };
    s.push_str("-");
    s.push_str(safe(id, true).as_str());
    s
}

/// The name of an endpoint's chain.
pub fn dispatch_chain_name(iface: &str, dir: Direction) -> (r: String)
    ensures
        r@ == dispatch_chain(iface@, dir),
{
    let mut s = match dir {
        Direction::Ingress => "cali-tw".to_owned(),
        Direction::Egress => "cali-fw".to_owned(),
    };
    s.push_str("-");
    s.push_str(sanitize(iface).as_str());
    s
}

/// The conditions on an address: one for each block, then one for each IP set; where there
/// is neither, the one alternative of no condition.
pub open spec fn addr_choices(
    nets: Seq<Seq<char>>,
    set_ids: Seq<Seq<char>>,
    is_src: bool,
) -> Seq<Option<NftMatchView>> {
    if nets.len() + set_ids.len() == 0 {
        seq![None]
    } else {
        Seq::new(
            nets.len() + set_ids.len(),
            |i: int|
                if i < nets.len() {
                    Some(
                        if is_src {
                            NftMatchView::SrcAddr(nets[i])
                        } else {
                            NftMatchView::DestAddr(nets[i])
                        },
                    )
                } else {
                    let name = set_name(set_ids[i - nets.len()]);
                    Some(
                        if is_src {
                            NftMatchView::SrcSet(name)
                        } else {
                            NftMatchView::DestSet(name)
                        },
                    )
                },
        )
    }
}

/// The conditions on a port: one for each port; where there is none, the one alternative
/// of no condition.
pub open spec fn port_choices(ports: Seq<u16>, is_src: bool) -> Seq<Option<NftMatchView>> {
    if ports.len() == 0 {
        seq![None]
    } else {
        Seq::new(
            ports.len(),
            |i: int|
                Some(
                    if is_src {
                        NftMatchView::SrcPort(ports[i])
                    } else {
                        NftMatchView::DestPort(ports[i])
                    },
                ),
        )
    }
}

/// The conditions on an address.
pub fn addr_alternatives(nets: &Vec<String>, set_ids: &Vec<String>, is_src: bool) -> (r: Vec<
    Option<NftMatch>,
>)
    ensures
        r.deep_view() == addr_choices(nets.deep_view(), set_ids.deep_view(), is_src),
{
    let ghost n = nets.deep_view();
    let ghost s = set_ids.deep_view();
    let ghost want = addr_choices(n, s, is_src);
    let mut out: Vec<Option<NftMatch>> = Vec::new();
    for i in 0..nets.len()
        invariant
            n == nets.deep_view(),
            s == set_ids.deep_view(),
            want == addr_choices(n, s, is_src),
            i > 0 ==> want.len() == n.len() + s.len(),
            out.deep_view() == want.take(i as int),
    {
        push_item(
            &mut out,
            Some(
                if is_src {
                    NftMatch::SrcAddr(nets[i].clone())
                } else {
                    NftMatch::DestAddr(nets[i].clone())
                },
            ),
        );
        assert(out.deep_view() =~= want.take(i + 1));
    }
    for i in 0..set_ids.len()
        invariant
            n == nets.deep_view(),
            s == set_ids.deep_view(),
            want == addr_choices(n, s, is_src),
            n.len() + i > 0 ==> want.len() == n.len() + s.len(),
            out.deep_view() == want.take(n.len() + i),
    {
        let name = set_name_for(set_ids[i].as_str());
        push_item(
            &mut out,
            Some(
                if is_src {
                    NftMatch::SrcSet(name)
                } else {
                    NftMatch::DestSet(name)
                },
            ),
        );
        assert(out.deep_view() =~= want.take(n.len() + i + 1));
    }
    if out.len() == 0 {
        assert(out.deep_view().len() == 0);
        push_item(&mut out, None);
    }
    assert(out.deep_view() =~= want);
    out
}

/// The conditions on a port.
pub fn port_alternatives(ports: &Vec<u16>, is_src: bool) -> (r: Vec<Option<NftMatch>>)
    ensures
        r.deep_view() == port_choices(ports@, is_src),
{
    let mut out: Vec<Option<NftMatch>> = Vec::new();
    if ports.len() == 0 {
        push_item(&mut out, None);
        assert(out.deep_view() =~= port_choices(ports@, is_src));
        return out;
    }
    for i in 0..ports.len()
        invariant
            ports@.len() > 0,
            out.deep_view() == port_choices(ports@, is_src).take(i as int),
    {
        push_item(
            &mut out,
            Some(
                if is_src {
                    NftMatch::SrcPort(ports[i])
                } else {
                    NftMatch::DestPort(ports[i])
                },
            ),
        );
        assert(out.deep_view() =~= port_choices(ports@, is_src).take(i + 1));
    }
    assert(out.deep_view() =~= port_choices(ports@, is_src));
    out
}

/// The condition, where there is one.
pub open spec fn optional(m: Option<NftMatchView>) -> Seq<NftMatchView> {
    match m {
        Some(x) => seq![x],
        None => Seq::empty(),
    }
}

/// What every rule made from one policy rule shares.
pub struct RuleFrame {
    pub protocol: Option<Seq<char>>,
    pub verdict: VerdictView,
    pub comment: Option<Seq<char>>,
}

impl RuleFrame {
    /// The rule for one choice of conditions.
    pub open spec fn rule(
        self,
        src: Option<NftMatchView>,
        dst: Option<NftMatchView>,
        sport: Option<NftMatchView>,
        dport: Option<NftMatchView>,
    ) -> NftRuleView {
        let proto = match self.protocol {
            Some(p) => Some(NftMatchView::L4Proto(p)),
            None => None,
        };
        NftRuleView {
            matches: optional(proto) + optional(src) + optional(dst) + optional(sport) + optional(
                dport,
            ),
            verdict: self.verdict,
            comment: self.comment,
        }
    }

    /// One rule for each choice of a destination port.
    pub open spec fn over_dports(
        self,
        src: Option<NftMatchView>,
        dst: Option<NftMatchView>,
        sport: Option<NftMatchView>,
        dports: Seq<Option<NftMatchView>>,
    ) -> Seq<NftRuleView> {
        Seq::new(dports.len(), |q: int| self.rule(src, dst, sport, dports[q]))
    }

    /// One rule for each choice of ports.
    pub open spec fn over_ports(
        self,
        src: Option<NftMatchView>,
        dst: Option<NftMatchView>,
        sports: Seq<Option<NftMatchView>>,
        dports: Seq<Option<NftMatchView>>,
    ) -> Seq<NftRuleView> {
        concat_all(Seq::new(sports.len(), |p: int| self.over_dports(src, dst, sports[p], dports)))
    }

    /// One rule for each choice of a destination and ports.
    pub open spec fn over_dests(
        self,
        src: Option<NftMatchView>,
        dests: Seq<Option<NftMatchView>>,
        sports: Seq<Option<NftMatchView>>,
        dports: Seq<Option<NftMatchView>>,
    ) -> Seq<NftRuleView> {
        concat_all(Seq::new(dests.len(), |d: int| self.over_ports(src, dests[d], sports, dports)))
    }

    /// One rule for each choice of a source, a destination and ports.
    pub open spec fn over_all(
        self,
        sources: Seq<Option<NftMatchView>>,
        dests: Seq<Option<NftMatchView>>,
        sports: Seq<Option<NftMatchView>>,
        dports: Seq<Option<NftMatchView>>,
    ) -> Seq<NftRuleView> {
        concat_all(
            Seq::new(sources.len(), |s: int| self.over_dests(sources[s], dests, sports, dports)),
        )
    }
}

/// The rules that a policy rule becomes: none where it has no action or no verdict, else
/// one for each combination of its conditions on source, destination and ports.
pub open spec fn rule_expansion(rule: PolicyRuleView) -> Seq<NftRuleView> {
    match rule.action_field {
        None => Seq::empty(),
        Some(action) => match action_verdict(action) {
            None => Seq::empty(),
            Some(verdict) => {
                let frame = RuleFrame {
                    protocol: match rule.protocol {
                        Some(p) => Some(lowercase(p)),
                        None => None,
                    },
                    verdict,
                    comment: rule.rule_id,
                };
                frame.over_all(
                    addr_choices(rule.src_nets, rule.src_ip_set_ids, true),
                    addr_choices(rule.dst_nets, rule.dst_ip_set_ids, false),
                    port_choices(rule.src_ports, true),
                    port_choices(rule.dst_ports, false),
                )
            },
        },
    }
}

/// Appends the condition, where there is one.
fn push_optional(matches: &mut Vec<NftMatch>, m: &Option<NftMatch>)
    ensures
        final(matches).deep_view() == old(matches).deep_view() + optional(m.deep_view()),
{
    let ghost before = matches.deep_view();
    if let Some(x) = m {
        matches.push(x.clone());
    }
    assert(matches.deep_view() =~= before + optional(m.deep_view()));
}

/// The rule for one choice of conditions.
fn frame_rule(
    protocol: &Option<String>,
    verdict: &Verdict,
    comment: &Option<String>,
    src: &Option<NftMatch>,
    dst: &Option<NftMatch>,
    sport: &Option<NftMatch>,
    dport: &Option<NftMatch>,
) -> (r: NftRule)
    ensures
        r.deep_view() == (RuleFrame {
            protocol: protocol.deep_view(),
            verdict: verdict.deep_view(),
            comment: comment.deep_view(),
        }).rule(src.deep_view(), dst.deep_view(), sport.deep_view(), dport.deep_view()),
{
    let mut matches: Vec<NftMatch> = Vec::new();
    if let Some(p) = protocol {
        matches.push(NftMatch::L4Proto(p.clone()));
    }
    push_optional(&mut matches, src);
    push_optional(&mut matches, dst);
    push_optional(&mut matches, sport);
    push_optional(&mut matches, dport);
    let r = NftRule { matches, verdict: verdict.clone(), comment: crate::text::clone_opt(comment) };
    let ghost frame = RuleFrame {
        protocol: protocol.deep_view(),
        verdict: verdict.deep_view(),
        comment: comment.deep_view(),
    };
    assert(r.deep_view().matches =~= frame.rule(
        src.deep_view(),
        dst.deep_view(),
        sport.deep_view(),
        dport.deep_view(),
    ).matches);
    r
}

/// The rules that a policy rule becomes.
pub fn render_rule(rule: &PolicyRule) -> (r: Vec<NftRule>)
    ensures
        r.deep_view() == rule_expansion(rule.deep_view()),
{
    let ghost rv = rule.deep_view();
    let mut out: Vec<NftRule> = Vec::new();
    assert(out.deep_view() =~= Seq::<NftRuleView>::empty());
    let action = match rule.action_field {
        Some(a) => a,
        None => return out,
    };
    let verdict = match map_action(action) {
        Some(v) => v,
        None => return out,
    };
    let protocol = match &rule.protocol {
        Some(p) => Some(p.as_str().to_lowercase()),
        None => None,
    };
    let sources = addr_alternatives(&rule.src_nets, &rule.src_ip_set_ids, true);
    let dests = addr_alternatives(&rule.dst_nets, &rule.dst_ip_set_ids, false);
    let sports = port_alternatives(&rule.src_ports, true);
    let dports = port_alternatives(&rule.dst_ports, false);
    assert(rule.src_ports.deep_view() =~= rule.src_ports@);
    assert(rule.dst_ports.deep_view() =~= rule.dst_ports@);
    let ghost frame = RuleFrame {
        protocol: protocol.deep_view(),
        verdict: verdict.deep_view(),
        comment: rule.rule_id.deep_view(),
    };
    let ghost (sv, dv, pv, qv) = (
        sources.deep_view(),
        dests.deep_view(),
        sports.deep_view(),
        dports.deep_view(),
    );
    let ghost by_src = Seq::new(sv.len(), |s: int| frame.over_dests(sv[s], dv, pv, qv));
    for s in 0..sources.len()
        invariant
            sv == sources.deep_view(),
            dv == dests.deep_view(),
            pv == sports.deep_view(),
            qv == dports.deep_view(),
            frame == (RuleFrame {
                protocol: protocol.deep_view(),
                verdict: verdict.deep_view(),
                comment: rule.rule_id.deep_view(),
            }),
            by_src == Seq::new(sv.len(), |s: int| frame.over_dests(sv[s], dv, pv, qv)),
            out.deep_view() == concat_first(by_src, s as nat),
    {
        let src = &sources[s];
        let ghost start = out.deep_view();
        let ghost by_dst = Seq::new(dv.len(), |d: int| frame.over_ports(sv[s as int], dv[d], pv, qv));
        assert(start + concat_first(by_dst, 0) =~= start);
        for d in 0..dests.len()
            invariant
                sv == sources.deep_view(),
                dv == dests.deep_view(),
                pv == sports.deep_view(),
                qv == dports.deep_view(),
                s < sources.len(),
                src.deep_view() == sv[s as int],
                frame == (RuleFrame {
                    protocol: protocol.deep_view(),
                    verdict: verdict.deep_view(),
                    comment: rule.rule_id.deep_view(),
                }),
                by_dst == Seq::new(
                    dv.len(),
                    |d: int| frame.over_ports(sv[s as int], dv[d], pv, qv),
                ),
                out.deep_view() == start + concat_first(by_dst, d as nat),
        {
            let dst = &dests[d];
            let ghost start2 = out.deep_view();
            let ghost by_sp = Seq::new(
                pv.len(),
                |p: int| frame.over_dports(sv[s as int], dv[d as int], pv[p], qv),
            );
            assert(start2 + concat_first(by_sp, 0) =~= start2);
            for p in 0..sports.len()
                invariant
                    sv == sources.deep_view(),
                    dv == dests.deep_view(),
                    pv == sports.deep_view(),
                    qv == dports.deep_view(),
                    s < sources.len(),
                    d < dests.len(),
                    src.deep_view() == sv[s as int],
                    dst.deep_view() == dv[d as int],
                    frame == (RuleFrame {
                        protocol: protocol.deep_view(),
                        verdict: verdict.deep_view(),
                        comment: rule.rule_id.deep_view(),
                    }),
                    by_sp == Seq::new(
                        pv.len(),
                        |p: int| frame.over_dports(sv[s as int], dv[d as int], pv[p], qv),
                    ),
                    out.deep_view() == start2 + concat_first(by_sp, p as nat),
            {
                let sport = &sports[p];
                let ghost start3 = out.deep_view();
                let ghost row = frame.over_dports(sv[s as int], dv[d as int], pv[p as int], qv);
                assert(start3 + row.take(0) =~= start3);
                for q in 0..dports.len()
                    invariant
                        qv == dports.deep_view(),
                        src.deep_view() == sv[s as int],
                        dst.deep_view() == dv[d as int],
                        sport.deep_view() == pv[p as int],
                        frame == (RuleFrame {
                            protocol: protocol.deep_view(),
                            verdict: verdict.deep_view(),
                            comment: rule.rule_id.deep_view(),
                        }),
                        row == frame.over_dports(sv[s as int], dv[d as int], pv[p as int], qv),
                        out.deep_view() == start3 + row.take(q as int),
                {
                    let r = frame_rule(
                        &protocol,
                        &verdict,
                        &rule.rule_id,
                        src,
                        dst,
                        sport,
                        &dports[q],
                    );
                    push_item(&mut out, r);
                    assert(out.deep_view() =~= start3 + row.take(q + 1));
                }
                assert(row.take(row.len() as int) =~= row);
                assert(out.deep_view() =~= start2 + concat_first(by_sp, (p + 1) as nat));
            }
            assert(out.deep_view() =~= start + concat_first(by_dst, (d + 1) as nat));
        }
        assert(out.deep_view() =~= concat_first(by_src, (s + 1) as nat));
    }
    assert(out.deep_view() =~= rule_expansion(rv));
    out
}

/// The rules of a policy's chain: what its rules become, in order.
pub open spec fn chain_rules(rules: Seq<PolicyRuleView>) -> Seq<NftRuleView> {
    concat_all(Seq::new(rules.len(), |i: int| rule_expansion(rules[i])))
}

/// The rules of a policy's chain.
pub fn render_rules(rules: &Vec<PolicyRule>) -> (r: Vec<NftRule>)
    ensures
        r.deep_view() == chain_rules(rules.deep_view()),
{
    let ghost rv = rules.deep_view();
    let ghost blocks = Seq::new(rv.len(), |i: int| rule_expansion(rv[i]));
    let mut out: Vec<NftRule> = Vec::new();
    assert(out.deep_view() =~= Seq::<NftRuleView>::empty());
    for i in 0..rules.len()
        invariant
            rv == rules.deep_view(),
            blocks == Seq::new(rv.len(), |i: int| rule_expansion(rv[i])),
            out.deep_view() == concat_first(blocks, i as nat),
    {
        let mut block = render_rule(&rules[i]);
        append_items(&mut out, &mut block);
    }
    out
}

/// A chain that is only jumped to.
pub open spec fn regular_chain(name: Seq<char>, rules: Seq<NftRuleView>) -> NftChainView {
    NftChainView { name, base: None, rules }
}

/// The names of the chains of a tier's policies.
pub open spec fn tier_targets(tier: TierInfoView, dir: Direction) -> Seq<Seq<char>> {
    let names = match dir {
        Direction::Ingress => tier.ingress_policies,
        Direction::Egress => tier.egress_policies,
    };
    Seq::new(names.len(), |i: int| policy_chain(tier.name, names[i], dir))
}

/// The names of the chains of all policies that select an endpoint, in order.
pub open spec fn policy_targets(ep: WorkloadEndpointView, dir: Direction) -> Seq<Seq<char>> {
    concat_all(Seq::new(ep.tiers.len(), |i: int| tier_targets(ep.tiers[i], dir)))
}

/// The names of the chains of an endpoint's profiles, in order.
pub open spec fn profile_targets(ep: WorkloadEndpointView, dir: Direction) -> Seq<Seq<char>> {
    Seq::new(ep.profile_ids.len(), |i: int| profile_chain(ep.profile_ids[i], dir))
}

/// The chains that an endpoint's chain jumps to: those of its policies, and those of its
/// profiles only where no policy selects it in this direction.
pub open spec fn targets(ep: WorkloadEndpointView, dir: Direction) -> Seq<Seq<char>> {
    if policy_targets(ep, dir).len() > 0 {
        policy_targets(ep, dir)
    } else {
        profile_targets(ep, dir)
    }
}

/// The chains that an endpoint's chain jumps to.
pub fn dispatch_targets(ep: &WorkloadEndpoint, dir: Direction) -> (r: Vec<String>)
    ensures
        views(r@) == targets(ep.deep_view(), dir),
{
    let ghost ev = ep.deep_view();
    let ghost blocks = Seq::new(ev.tiers.len(), |i: int| tier_targets(ev.tiers[i], dir));
    let mut out: Vec<String> = Vec::new();
    assert(views(out@) =~= Seq::<Seq<char>>::empty());
    for i in 0..ep.tiers.len()
        invariant
            ev == ep.deep_view(),
            blocks == Seq::new(ev.tiers.len(), |i: int| tier_targets(ev.tiers[i], dir)),
            views(out@) == concat_first(blocks, i as nat),
    {
        let tier = &ep.tiers[i];
        let names = match dir {
            Direction::Ingress => &tier.ingress_policies,
            Direction::Egress => &tier.egress_policies,
        };
        let ghost start = views(out@);
        let ghost row = tier_targets(ev.tiers[i as int], dir);
        assert(start + row.take(0) =~= start);
        for j in 0..names.len()
            invariant
                names@.len() == row.len(),
                row == tier_targets(tier.deep_view(), dir),
                names.deep_view() == (match dir {
                    Direction::Ingress => tier.deep_view().ingress_policies,
                    Direction::Egress => tier.deep_view().egress_policies,
                }),
                views(out@) == start + row.take(j as int),
        {
            let id = PolicyId { tier: tier.name.clone(), name: names[j].clone() };
            assert(names.deep_view()[j as int] == names@[j as int]@);
            out.push(policy_chain_name(&id, dir));
            assert(views(out@) =~= start + row.take(j + 1));
        }
        assert(row.take(row.len() as int) =~= row);
    }
    assert(views(out@).len() == out@.len());
    if out.len() == 0 {
        let ghost row = profile_targets(ev, dir);
        assert(row.take(0) =~= views(out@));
        for i in 0..ep.profile_ids.len()
            invariant
                ev == ep.deep_view(),
                row == profile_targets(ev, dir),
                views(out@) == row.take(i as int),
        {
            out.push(profile_chain_name(ep.profile_ids[i].as_str(), dir));
            assert(views(out@) =~= row.take(i + 1));
        }
        assert(row.take(row.len() as int) =~= row);
    }
    out
}

/// The rule that goes back as soon as one chain has allowed the packet.
pub open spec fn return_if_accepted() -> NftRuleView {
    guarded_rule(NftMatchView::AcceptMarkSet, VerdictView::Return)
}

/// A jump to each chain, each followed by the return of an allowed packet.
pub open spec fn jump_rules(names: Seq<Seq<char>>) -> Seq<NftRuleView> {
    concat_all(
        Seq::new(
            names.len(),
            |i: int| seq![plain_rule(VerdictView::Jump(names[i])), return_if_accepted()],
        ),
    )
}

/// The rules of an endpoint's chain: clear the mark that the other direction may have
/// left, try each chain, and drop what none has allowed.
pub open spec fn endpoint_rules(ep: WorkloadEndpointView, dir: Direction) -> Seq<NftRuleView> {
    let label = match dir {
        Direction::Ingress => "ingress"@,
        Direction::Egress => "egress"@,
    };
    (seq![plain_rule(VerdictView::ClearAcceptMark)] + jump_rules(targets(ep, dir))).push(
        NftRuleView {
            comment: Some("default deny ("@ + label + ")"@),
            ..plain_rule(VerdictView::Drop)
        },
    )
}

/// The chains with an empty chain for each name that is not there yet, so that every jump
/// finds its target.
pub open spec fn with_stubs(
    chains: Map<Seq<char>, NftChainView>,
    names: Seq<Seq<char>>,
) -> Map<Seq<char>, NftChainView> {
    Map::new(
        |k: Seq<char>| chains.dom().contains(k) || names.contains(k),
        |k: Seq<char>|
            if chains.dom().contains(k) {
                chains[k]
            } else {
                regular_chain(k, Seq::empty())
            },
    )
}

/// The rules of an endpoint's chain. Every chain that they jump to is put in place, empty
/// where nothing is known of it.
pub fn dispatch_rules(
    ep: &WorkloadEndpoint,
    dir: Direction,
    chains: &mut OrdMap<String, NftChain>,
) -> (r: Vec<NftRule>)
    requires
        old(chains).wf(),
    ensures
        final(chains).wf(),
        deep_map(final(chains).map()) == with_stubs(
            deep_map(old(chains).map()),
            targets(ep.deep_view(), dir),
        ),
        r.deep_view() == endpoint_rules(ep.deep_view(), dir),
{
    let names = dispatch_targets(ep, dir);
    let ghost nv = targets(ep.deep_view(), dir);
    let ghost start = deep_map(chains.map());
    let ghost blocks = Seq::new(
        nv.len(),
        |i: int| seq![plain_rule(VerdictView::Jump(nv[i])), return_if_accepted()],
    );
    let mut rules: Vec<NftRule> = Vec::new();
    push_item(&mut rules, NftRule::new(Verdict::ClearAcceptMark));
    let ghost first = rules.deep_view();
    assert(first =~= seq![plain_rule(VerdictView::ClearAcceptMark)]);
    assert(first + Seq::<NftRuleView>::empty() =~= first);
    assert(with_stubs(start, nv.take(0)) =~= start);
    for i in 0..names.len()
        invariant
            views(names@) == nv,
            chains.wf(),
            deep_map(chains.map()) == with_stubs(start, nv.take(i as int)),
            blocks == Seq::new(
                nv.len(),
                |i: int| seq![plain_rule(VerdictView::Jump(nv[i])), return_if_accepted()],
            ),
            rules.deep_view() == first + concat_first(blocks, i as nat),
    {
        let name = &names[i];
        assert(name@ == nv[i as int]);
        let ghost prev = deep_map(chains.map());
        assert(prev.dom().contains(name@) <==> chains.map().dom().contains(name@));
        if !chains.contains(name) {
            let stub = NftChain::regular(name.as_str(), Vec::new());
            assert(stub.deep_view() =~= regular_chain(name@, Seq::empty()));
            chains.insert(name.clone(), stub);
        }
        proof {
            assert(nv.take(i + 1) =~= nv.take(i as int).push(name@));
            assert forall|k: Seq<char>| nv.take(i + 1).contains(k) <==> nv.take(i as int).contains(k)
                || k == name@ by {
                if nv.take(i + 1).contains(k) {
                    let j = nv.take(i + 1).index_of(k);
                    if j < i {
                        assert(nv.take(i as int)[j] == k);
                    }
                }
                if nv.take(i as int).contains(k) {
                    let j = nv.take(i as int).index_of(k);
                    assert(nv.take(i + 1)[j] == k);
                }
                assert(nv.take(i + 1)[i as int] == name@);
            }
        }
        let ghost next = with_stubs(start, nv.take(i + 1));
        assert(deep_map(chains.map()) == if prev.dom().contains(name@) {
            prev
        } else {
            prev.insert(name@, regular_chain(name@, Seq::empty()))
        });
        assert forall|k: Seq<char>| next.dom().contains(k) <==> deep_map(
            chains.map(),
        ).dom().contains(k) by {}
        assert(deep_map(chains.map()) =~= next);
        push_item(&mut rules, NftRule::new(Verdict::Jump(name.clone())));
        push_item(&mut rules, NftRule::new(Verdict::Return).with(NftMatch::AcceptMarkSet));
        assert(rules.deep_view().last().matches =~= return_if_accepted().matches);
        assert(rules.deep_view() =~= first + concat_first(blocks, (i + 1) as nat));
    }
    assert(nv.take(nv.len() as int) =~= nv);
    let mut label = "default deny (".to_owned();
    match dir {
        Direction::Ingress => label.push_str("ingress"),
        Direction::Egress => label.push_str("egress"),
    }
    label.push_str(")");
    push_item(&mut rules, NftRule::new(Verdict::Drop).comment(label.as_str()));
    assert(rules.deep_view() =~= endpoint_rules(ep.deep_view(), dir));
    rules
}

/// The chains of one policy or profile put in place, under the given names.
pub open spec fn with_policy(
    chains: Map<Seq<char>, NftChainView>,
    ingress: Seq<char>,
    egress: Seq<char>,
    policy: PolicyView,
) -> Map<Seq<char>, NftChainView> {
    chains.insert(ingress, regular_chain(ingress, chain_rules(policy.inbound_rules))).insert(
        egress,
        regular_chain(egress, chain_rules(policy.outbound_rules)),
    )
}

/// The chains of the first `n` policies put in place.
pub open spec fn with_policies(
    chains: Map<Seq<char>, NftChainView>,
    policies: Seq<(PolicyIdView, PolicyView)>,
    n: nat,
) -> Map<Seq<char>, NftChainView>
    decreases n,
{
    if n == 0 {
        chains
    } else {
        let (id, policy) = policies[n - 1];
        with_policy(
            with_policies(chains, policies, (n - 1) as nat),
            policy_chain(id.tier, id.name, Direction::Ingress),
            policy_chain(id.tier, id.name, Direction::Egress),
            policy,
        )
    }
}

/// The chains of the first `n` profiles put in place.
pub open spec fn with_profiles(
    chains: Map<Seq<char>, NftChainView>,
    profiles: Seq<(Seq<char>, PolicyView)>,
    n: nat,
) -> Map<Seq<char>, NftChainView>
    decreases n,
{
    if n == 0 {
        chains
    } else {
        let (id, profile) = profiles[n - 1];
        with_policy(
            with_profiles(chains, profiles, (n - 1) as nat),
            profile_chain(id, Direction::Ingress),
            profile_chain(id, Direction::Egress),
            profile,
        )
    }
}

/// One chain of an endpoint put in place, with what it jumps to.
pub open spec fn with_dispatch(
    chains: Map<Seq<char>, NftChainView>,
    ep: WorkloadEndpointView,
    dir: Direction,
) -> Map<Seq<char>, NftChainView> {
    let name = dispatch_chain(ep.name, dir);
    with_stubs(chains, targets(ep, dir)).insert(name, regular_chain(name, endpoint_rules(ep, dir)))
}

/// The chains of the first `n` endpoints put in place.
pub open spec fn with_endpoints(
    chains: Map<Seq<char>, NftChainView>,
    endpoints: Seq<(WorkloadEndpointIdView, WorkloadEndpointView)>,
    n: nat,
) -> Map<Seq<char>, NftChainView>
    decreases n,
{
    if n == 0 {
        chains
    } else {
        let ep = endpoints[n - 1].1;
        with_dispatch(
            with_dispatch(
                with_endpoints(chains, endpoints, (n - 1) as nat),
                ep,
                Direction::Ingress,
            ),
            ep,
            Direction::Egress,
        )
    }
}

/// The rules that send one endpoint's traffic to its chains: what goes out of its
/// interface is traffic to the endpoint, what comes in there is traffic from it.
pub open spec fn forward_pair(ep: WorkloadEndpointView) -> Seq<NftRuleView> {
    seq![
        guarded_rule(
            NftMatchView::OutInterface(ep.name),
            VerdictView::Jump(dispatch_chain(ep.name, Direction::Ingress)),
        ),
        guarded_rule(
            NftMatchView::InInterface(ep.name),
            VerdictView::Jump(dispatch_chain(ep.name, Direction::Egress)),
        ),
    ]
}

/// The rules of the base chain.
pub open spec fn forward_rules(
    endpoints: Seq<(WorkloadEndpointIdView, WorkloadEndpointView)>,
) -> Seq<NftRuleView> {
    concat_all(Seq::new(endpoints.len(), |i: int| forward_pair(endpoints[i].1)))
}

/// The base chain: attached to the forward hook, it accepts what none of its jumps drops.
pub open spec fn forward_chain(
    endpoints: Seq<(WorkloadEndpointIdView, WorkloadEndpointView)>,
) -> NftChainView {
    NftChainView {
        name: FORWARD_CHAIN@,
        base: Some(
            BaseHookView {
                chain_type: ChainType::Filter,
                hook: "forward"@,
                priority: 0,
                policy_accept: true,
            },
        ),
        rules: forward_rules(endpoints),
    }
}

/// All chains that the policies, the profiles and the endpoints call for.
pub open spec fn desired_chains(
    policies: Seq<(PolicyIdView, PolicyView)>,
    profiles: Seq<(Seq<char>, PolicyView)>,
    endpoints: Seq<(WorkloadEndpointIdView, WorkloadEndpointView)>,
) -> Map<Seq<char>, NftChainView> {
    let a = with_policies(Map::empty(), policies, policies.len());
    let b = with_profiles(a, profiles, profiles.len());
    let c = with_endpoints(b, endpoints, endpoints.len());
    if endpoints.len() == 0 {
        c
    } else {
        c.insert(FORWARD_CHAIN@, forward_chain(endpoints))
    }
}

/// Puts the two chains of a policy or a profile in place.
fn add_policy(chains: &mut OrdMap<String, NftChain>, ingress: String, egress: String, policy: &Policy)
    requires
        old(chains).wf(),
    ensures
        final(chains).wf(),
        deep_map(final(chains).map()) == with_policy(
            deep_map(old(chains).map()),
            ingress@,
            egress@,
            policy.deep_view(),
        ),
{
    let rules = render_rules(&policy.inbound_rules);
    let chain = NftChain::regular(ingress.as_str(), rules);
    chains.insert(ingress, chain);
    let rules = render_rules(&policy.outbound_rules);
    let chain = NftChain::regular(egress.as_str(), rules);
    chains.insert(egress, chain);
}

/// Puts one chain of an endpoint in place, and gives its name.
fn add_dispatch(chains: &mut OrdMap<String, NftChain>, ep: &WorkloadEndpoint, dir: Direction) -> (r:
    String)
    requires
        old(chains).wf(),
    ensures
        final(chains).wf(),
        deep_map(final(chains).map()) == with_dispatch(
            deep_map(old(chains).map()),
            ep.deep_view(),
            dir,
        ),
        r@ == dispatch_chain(ep.name@, dir),
{
    let name = dispatch_chain_name(ep.name.as_str(), dir);
    let rules = dispatch_rules(ep, dir, chains);
    chains.insert(name.clone(), NftChain::regular(name.as_str(), rules));
    name
}

/// All chains that the policies, the profiles and the endpoints call for.
pub fn build_desired_chains(
    policies: &OrdMap<PolicyId, Policy>,
    profiles: &OrdMap<String, Policy>,
    endpoints: &OrdMap<WorkloadEndpointId, WorkloadEndpoint>,
) -> (r: OrdMap<String, NftChain>)
    ensures
        r.wf(),
        deep_map(r.map()) == desired_chains(
            policies.entries.deep_view(),
            profiles.entries.deep_view(),
            endpoints.entries.deep_view(),
        ),
{
    let ghost pv = policies.entries.deep_view();
    let ghost fv = profiles.entries.deep_view();
    let ghost ev = endpoints.entries.deep_view();
    let mut chains: OrdMap<String, NftChain> = OrdMap::new();
    assert(deep_map(chains.map()) =~= Map::<Seq<char>, NftChainView>::empty());
    for i in 0..policies.entries.len()
        invariant
            chains.wf(),
            pv == policies.entries.deep_view(),
            deep_map(chains.map()) == with_policies(Map::empty(), pv, i as nat),
    {
        let (id, policy) = &policies.entries[i];
        assert(pv[i as int] == (id.deep_view(), policy.deep_view()));
        let ingress = policy_chain_name(id, Direction::Ingress);
        let egress = policy_chain_name(id, Direction::Egress);
        add_policy(&mut chains, ingress, egress, policy);
    }
    let ghost a = with_policies(Map::empty(), pv, pv.len());
    for i in 0..profiles.entries.len()
        invariant
            chains.wf(),
            fv == profiles.entries.deep_view(),
            deep_map(chains.map()) == with_profiles(a, fv, i as nat),
    {
        let (id, profile) = &profiles.entries[i];
        assert(fv[i as int] == (id.deep_view(), profile.deep_view()));
        let ingress = profile_chain_name(id.as_str(), Direction::Ingress);
        let egress = profile_chain_name(id.as_str(), Direction::Egress);
        add_policy(&mut chains, ingress, egress, profile);
    }
    let ghost b = with_profiles(a, fv, fv.len());
    let ghost blocks = Seq::new(ev.len(), |i: int| forward_pair(ev[i].1));
    let mut forward: Vec<NftRule> = Vec::new();
    assert(forward.deep_view() =~= Seq::<NftRuleView>::empty());
    for i in 0..endpoints.entries.len()
        invariant
            chains.wf(),
            ev == endpoints.entries.deep_view(),
            deep_map(chains.map()) == with_endpoints(b, ev, i as nat),
            blocks == Seq::new(ev.len(), |i: int| forward_pair(ev[i].1)),
            forward.deep_view() == concat_first(blocks, i as nat),
    {
        let ep = &endpoints.entries[i].1;
        assert(ev[i as int].1 == ep.deep_view());
        let ghost start = forward.deep_view();
        let tw = add_dispatch(&mut chains, ep, Direction::Ingress);
        let rule = NftRule::new(Verdict::Jump(tw)).with(NftMatch::OutInterface(ep.name.clone()));
        assert(rule.deep_view().matches =~= seq![NftMatchView::OutInterface(ep.name@)]);
        push_item(&mut forward, rule);
        let fw = add_dispatch(&mut chains, ep, Direction::Egress);
        let rule = NftRule::new(Verdict::Jump(fw)).with(NftMatch::InInterface(ep.name.clone()));
        assert(rule.deep_view().matches =~= seq![NftMatchView::InInterface(ep.name@)]);
        push_item(&mut forward, rule);
        assert(forward.deep_view() =~= start + forward_pair(ev[i as int].1));
    }
    if endpoints.entries.len() > 0 {
        let hook = BaseHook {
            chain_type: ChainType::Filter,
            hook: "forward".to_owned(),
            priority: 0,
            policy_accept: true,
        };
        let chain = NftChain::base(FORWARD_CHAIN, hook, forward);
        chains.insert(FORWARD_CHAIN.to_owned(), chain);
    }
    chains
}

/// Every rule that a policy rule becomes has the verdict of its action and names the rule that
/// it was made from.
pub proof fn law_expansion_keeps_verdict(rule: PolicyRuleView)
    ensures
        forall|i: int|
            0 <= i < rule_expansion(rule).len() ==> rule.action_field is Some && action_verdict(
                rule.action_field->0,
            ) == Some((#[trigger] rule_expansion(rule)[i]).verdict) && rule_expansion(rule)[i].comment
                == rule.rule_id,
{
    if rule.action_field is Some && action_verdict(rule.action_field->0) is Some {
        let verdict = action_verdict(rule.action_field->0)->0;
        let frame = RuleFrame {
            protocol: match rule.protocol {
                Some(p) => Some(lowercase(p)),
                None => None,
            },
            verdict,
            comment: rule.rule_id,
        };
        let sv = addr_choices(rule.src_nets, rule.src_ip_set_ids, true);
        let dv = addr_choices(rule.dst_nets, rule.dst_ip_set_ids, false);
        let pv = port_choices(rule.src_ports, true);
        let qv = port_choices(rule.dst_ports, false);
        let same = |r: NftRuleView| r.verdict == verdict && r.comment == rule.rule_id;
        let by_src = Seq::new(sv.len(), |s: int| frame.over_dests(sv[s], dv, pv, qv));
        assert forall|s: int, j: int| 0 <= s < by_src.len() && 0 <= j < by_src[s].len() implies same(
            #[trigger] by_src[s][j],
        ) by {
            let by_dst = Seq::new(dv.len(), |d: int| frame.over_ports(sv[s], dv[d], pv, qv));
            assert forall|d: int, j: int|
                0 <= d < by_dst.len() && 0 <= j < by_dst[d].len() implies same(
                #[trigger] by_dst[d][j],
            ) by {
                let by_sp = Seq::new(
                    pv.len(),
                    |p: int| frame.over_dports(sv[s], dv[d], pv[p], qv),
                );
                lemma_concat_all(by_sp, by_sp.len(), same);
                assert(by_dst[d] == concat_all(by_sp));
            }
            lemma_concat_all(by_dst, by_dst.len(), same);
            assert(by_src[s] == concat_all(by_dst));
        }
        lemma_concat_all(by_src, by_src.len(), same);
        assert(rule_expansion(rule) == concat_all(by_src));
        assert forall|i: int| 0 <= i < rule_expansion(rule).len() implies action_verdict(
            rule.action_field->0,
        ) == Some((#[trigger] rule_expansion(rule)[i]).verdict) && rule_expansion(rule)[i].comment
            == rule.rule_id by {
            assert(same(concat_all(by_src)[i]));
        }
    }
}

/// The chain of a policy or a profile neither accepts a packet for good nor leaves for
/// another chain: it allows by the mark, drops, or returns.
pub proof fn law_policy_chains_never_accept(rules: Seq<PolicyRuleView>)
    ensures
        forall|i: int|
            0 <= i < chain_rules(rules).len() ==> {
                let v = (#[trigger] chain_rules(rules)[i]).verdict;
                v == VerdictView::SetAcceptMarkReturn || v == VerdictView::Drop || v
                    == VerdictView::Return
            },
{
    let ok = |r: NftRuleView|
        r.verdict == VerdictView::SetAcceptMarkReturn || r.verdict == VerdictView::Drop || r.verdict
            == VerdictView::Return;
    let blocks = Seq::new(rules.len(), |i: int| rule_expansion(rules[i]));
    assert forall|i: int, j: int| 0 <= i < blocks.len() && 0 <= j < blocks[i].len() implies ok(
        #[trigger] blocks[i][j],
    ) by {
        law_expansion_keeps_verdict(rules[i]);
        assert(blocks[i][j] == rule_expansion(rules[i])[j]);
    }
    lemma_concat_all(blocks, blocks.len(), ok);
    assert forall|i: int| 0 <= i < chain_rules(rules).len() implies {
        let v = (#[trigger] chain_rules(rules)[i]).verdict;
        v == VerdictView::SetAcceptMarkReturn || v == VerdictView::Drop || v == VerdictView::Return
    } by {
        assert(ok(concat_all(blocks)[i]));
    }
}

/// Where the jumps stand.
proof fn lemma_jump_rules(names: Seq<Seq<char>>, n: nat)
    requires
        n <= names.len(),
    ensures
        ({
            let blocks = Seq::new(
                names.len(),
                |i: int| seq![plain_rule(VerdictView::Jump(names[i])), return_if_accepted()],
            );
            &&& concat_first(blocks, n).len() == 2 * n
            &&& forall|i: int|
                0 <= i < n ==> #[trigger] concat_first(blocks, n)[2 * i] == plain_rule(
                    VerdictView::Jump(names[i]),
                )
            &&& forall|i: int|
                0 <= i < n ==> #[trigger] concat_first(blocks, n)[2 * i + 1]
                    == return_if_accepted()
        }),
    decreases n,
{
    if n > 0 {
        lemma_jump_rules(names, (n - 1) as nat);
    }
}

/// An endpoint's chain first clears the mark; then each jump is followed at once by the
/// return of an allowed packet; last of all it drops. It never accepts.
pub proof fn law_endpoint_chain_shape(ep: WorkloadEndpointView, dir: Direction)
    ensures
        ({
            let rules = endpoint_rules(ep, dir);
            let names = targets(ep, dir);
            &&& rules.len() == 2 * names.len() + 2
            &&& rules[0] == plain_rule(VerdictView::ClearAcceptMark)
            &&& forall|i: int|
                0 <= i < names.len() ==> #[trigger] rules[2 * i + 1] == plain_rule(
                    VerdictView::Jump(names[i]),
                )
            &&& forall|i: int|
                0 <= i < names.len() ==> #[trigger] rules[2 * i + 2] == return_if_accepted()
            &&& rules.last().verdict == VerdictView::Drop
            &&& rules.last().matches.len() == 0
            &&& forall|i: int| 0 <= i < rules.len() ==> (#[trigger] rules[i]).verdict
                != VerdictView::Accept
        }),
{
    let rules = endpoint_rules(ep, dir);
    let names = targets(ep, dir);
    lemma_jump_rules(names, names.len());
    let jumps = jump_rules(names);
    assert forall|i: int| 0 <= i < names.len() implies #[trigger] rules[2 * i + 1] == plain_rule(
        VerdictView::Jump(names[i]),
    ) by {
        assert(rules[2 * i + 1] == jumps[2 * i]);
    }
    assert forall|i: int| 0 <= i < names.len() implies #[trigger] rules[2 * i + 2]
        == return_if_accepted() by {
        assert(rules[2 * i + 2] == jumps[2 * i + 1]);
    }
    assert forall|i: int| 0 <= i < rules.len() implies (#[trigger] rules[i]).verdict
        != VerdictView::Accept by {
        if 0 < i < rules.len() - 1 {
            if i % 2 == 1 {
                let j = (i - 1) / 2;
                assert(i == 2 * j + 1);
                assert(rules[2 * j + 1] == plain_rule(VerdictView::Jump(names[j])));
            } else {
                let j = (i - 2) / 2;
                assert(i == 2 * j + 2);
                assert(rules[2 * j + 2] == return_if_accepted());
            }
        }
    }
}

/// Where a policy selects an endpoint in a direction, its profiles have no say there; the
/// two directions are decided separately.
pub proof fn law_policies_hide_profiles(
    ep: WorkloadEndpointView,
    dir: Direction,
    profile_ids: Seq<Seq<char>>,
)
    requires
        policy_targets(ep, dir).len() > 0,
    ensures
        endpoint_rules(ep, dir) == endpoint_rules(WorkloadEndpointView { profile_ids, ..ep }, dir),
{
    let other = WorkloadEndpointView { profile_ids, ..ep };
    assert(Seq::new(ep.tiers.len(), |i: int| tier_targets(ep.tiers[i], dir)) =~= Seq::new(
        other.tiers.len(),
        |i: int| tier_targets(other.tiers[i], dir),
    ));
}

/// Where no policy selects an endpoint in a direction, its profiles decide.
pub proof fn law_profiles_are_the_fallback(ep: WorkloadEndpointView, dir: Direction)
    requires
        policy_targets(ep, dir).len() == 0,
    ensures
        targets(ep, dir) == profile_targets(ep, dir),
{
}

/// Whether every jump finds its target.
pub open spec fn jumps_resolve(chains: Map<Seq<char>, NftChainView>) -> bool {
    forall|k: Seq<char>, i: int|
        chains.dom().contains(k) && 0 <= i < chains[k].rules.len() ==> (
        #[trigger] chains[k].rules[i].verdict matches VerdictView::Jump(t) ==> chains.dom().contains(
            t,
        ))
}

/// Whether every chain stands under its own name.
pub open spec fn keyed_by_name(chains: Map<Seq<char>, NftChainView>) -> bool {
    forall|k: Seq<char>| #[trigger] chains.dom().contains(k) ==> chains[k].name == k
}

/// One more chain keeps the jumps resolved where its own jumps are.
proof fn lemma_resolve_insert(chains: Map<Seq<char>, NftChainView>, k: Seq<char>, c: NftChainView)
    requires
        jumps_resolve(chains),
        keyed_by_name(chains),
        c.name == k,
        forall|i: int|
            0 <= i < c.rules.len() ==> ((#[trigger] c.rules[i]).verdict matches VerdictView::Jump(t)
                ==> chains.dom().contains(t)),
    ensures
        jumps_resolve(chains.insert(k, c)),
        keyed_by_name(chains.insert(k, c)),
{
    let d = chains.insert(k, c);
    assert forall|q: Seq<char>, i: int|
        d.dom().contains(q) && 0 <= i < d[q].rules.len() implies (
    #[trigger] d[q].rules[i].verdict matches VerdictView::Jump(t) ==> d.dom().contains(t)) by {
        if q == k {
            assert(d[q].rules[i] == c.rules[i]);
        } else {
            assert(d[q] == chains[q]);
            assert(chains[q].rules[i].verdict == d[q].rules[i].verdict);
        }
    }
}

/// Stubs keep the jumps resolved.
proof fn lemma_resolve_stubs(chains: Map<Seq<char>, NftChainView>, names: Seq<Seq<char>>)
    requires
        jumps_resolve(chains),
        keyed_by_name(chains),
    ensures
        jumps_resolve(with_stubs(chains, names)),
        keyed_by_name(with_stubs(chains, names)),
{
    let d = with_stubs(chains, names);
    assert forall|q: Seq<char>, i: int|
        d.dom().contains(q) && 0 <= i < d[q].rules.len() implies (
    #[trigger] d[q].rules[i].verdict matches VerdictView::Jump(t) ==> d.dom().contains(t)) by {
        if chains.dom().contains(q) {
            assert(chains[q].rules[i].verdict == d[q].rules[i].verdict);
        }
    }
}

/// The chains of a policy keep the jumps resolved.
proof fn lemma_resolve_policy(
    chains: Map<Seq<char>, NftChainView>,
    ingress: Seq<char>,
    egress: Seq<char>,
    policy: PolicyView,
)
    requires
        jumps_resolve(chains),
        keyed_by_name(chains),
    ensures
        jumps_resolve(with_policy(chains, ingress, egress, policy)),
        keyed_by_name(with_policy(chains, ingress, egress, policy)),
{
    law_policy_chains_never_accept(policy.inbound_rules);
    law_policy_chains_never_accept(policy.outbound_rules);
    let c = regular_chain(ingress, chain_rules(policy.inbound_rules));
    lemma_resolve_insert(chains, ingress, c);
    lemma_resolve_insert(
        chains.insert(ingress, c),
        egress,
        regular_chain(egress, chain_rules(policy.outbound_rules)),
    );
}

/// The chain of an endpoint keeps the jumps resolved.
proof fn lemma_resolve_dispatch(
    chains: Map<Seq<char>, NftChainView>,
    ep: WorkloadEndpointView,
    dir: Direction,
)
    requires
        jumps_resolve(chains),
        keyed_by_name(chains),
    ensures
        jumps_resolve(with_dispatch(chains, ep, dir)),
        keyed_by_name(with_dispatch(chains, ep, dir)),
{
    let names = targets(ep, dir);
    let rules = endpoint_rules(ep, dir);
    let name = dispatch_chain(ep.name, dir);
    let stubbed = with_stubs(chains, names);
    lemma_resolve_stubs(chains, names);
    law_endpoint_chain_shape(ep, dir);
    assert forall|i: int| 0 <= i < rules.len() implies ((
    #[trigger] rules[i]).verdict matches VerdictView::Jump(t) ==> stubbed.dom().contains(t)) by {
        if rules[i].verdict is Jump {
            assert(0 < i < rules.len() - 1);
            if i % 2 == 1 {
                let j = (i - 1) / 2;
                assert(i == 2 * j + 1);
                assert(rules[2 * j + 1] == plain_rule(VerdictView::Jump(names[j])));
                assert(names.contains(names[j]));
            } else {
                let j = (i - 2) / 2;
                assert(i == 2 * j + 2);
                assert(rules[2 * j + 2] == return_if_accepted());
            }
        }
    }
    lemma_resolve_insert(stubbed, name, regular_chain(name, rules));
}

/// The chains of all policies, profiles and endpoints keep the jumps resolved.
proof fn lemma_resolve_all(
    policies: Seq<(PolicyIdView, PolicyView)>,
    profiles: Seq<(Seq<char>, PolicyView)>,
    endpoints: Seq<(WorkloadEndpointIdView, WorkloadEndpointView)>,
    a: nat,
    b: nat,
    c: nat,
)
    requires
        a <= policies.len(),
        b <= profiles.len(),
        c <= endpoints.len(),
    ensures
        ({
            let x = with_policies(Map::empty(), policies, a);
            let y = with_profiles(x, profiles, b);
            let z = with_endpoints(y, endpoints, c);
            &&& jumps_resolve(z)
            &&& keyed_by_name(z)
            &&& forall|i: int|
                0 <= i < c ==> z.dom().contains(
                    dispatch_chain((#[trigger] endpoints[i]).1.name, Direction::Ingress),
                ) && z.dom().contains(dispatch_chain(endpoints[i].1.name, Direction::Egress))
        }),
    decreases a + b + c,
{
    let x = with_policies(Map::empty(), policies, a);
    let y = with_profiles(x, profiles, b);
    let z = with_endpoints(y, endpoints, c);
    if c > 0 {
        let m = (c - 1) as nat;
        lemma_resolve_all(policies, profiles, endpoints, a, b, m);
        let w = with_endpoints(y, endpoints, m);
        let ep = endpoints[c - 1].1;
        lemma_resolve_dispatch(w, ep, Direction::Ingress);
        lemma_resolve_dispatch(with_dispatch(w, ep, Direction::Ingress), ep, Direction::Egress);
    } else if b > 0 {
        let m = (b - 1) as nat;
        lemma_resolve_all(policies, profiles, endpoints, a, m, 0);
        let (id, profile) = profiles[b - 1];
        lemma_resolve_policy(
            with_profiles(x, profiles, m),
            profile_chain(id, Direction::Ingress),
            profile_chain(id, Direction::Egress),
            profile,
        );
    } else if a > 0 {
        let m = (a - 1) as nat;
        lemma_resolve_all(policies, profiles, endpoints, m, 0, 0);
        let (id, policy) = policies[a - 1];
        lemma_resolve_policy(
            with_policies(Map::empty(), policies, m),
            policy_chain(id.tier, id.name, Direction::Ingress),
            policy_chain(id.tier, id.name, Direction::Egress),
            policy,
        );
    }
}

/// Where the jumps of the base chain lead.
proof fn lemma_forward_rules(endpoints: Seq<(WorkloadEndpointIdView, WorkloadEndpointView)>, n: nat)
    requires
        n <= endpoints.len(),
    ensures
        ({
            let blocks = Seq::new(endpoints.len(), |i: int| forward_pair(endpoints[i].1));
            &&& concat_first(blocks, n).len() == 2 * n
            &&& forall|i: int|
                0 <= i < n ==> #[trigger] concat_first(blocks, n)[2 * i] == forward_pair(
                    endpoints[i].1,
                )[0]
            &&& forall|i: int|
                0 <= i < n ==> #[trigger] concat_first(blocks, n)[2 * i + 1] == forward_pair(
                    endpoints[i].1,
                )[1]
        }),
    decreases n,
{
    if n > 0 {
        lemma_forward_rules(endpoints, (n - 1) as nat);
    }
}

/// Every jump of every chain finds its target, every chain stands under its own name, and
/// the traffic of every endpoint passes chains for both directions.
pub proof fn law_every_jump_resolves(
    policies: Seq<(PolicyIdView, PolicyView)>,
    profiles: Seq<(Seq<char>, PolicyView)>,
    endpoints: Seq<(WorkloadEndpointIdView, WorkloadEndpointView)>,
)
    ensures
        ({
            let chains = desired_chains(policies, profiles, endpoints);
            &&& jumps_resolve(chains)
            &&& keyed_by_name(chains)
            &&& forall|i: int|
                0 <= i < endpoints.len() ==> {
                    let rules = chains[FORWARD_CHAIN@].rules;
                    let pair = forward_pair((#[trigger] endpoints[i]).1);
                    &&& chains.dom().contains(FORWARD_CHAIN@)
                    &&& rules.contains(pair[0])
                    &&& rules.contains(pair[1])
                }
        }),
{
    let chains = desired_chains(policies, profiles, endpoints);
    lemma_resolve_all(
        policies,
        profiles,
        endpoints,
        policies.len(),
        profiles.len(),
        endpoints.len(),
    );
    let n = endpoints.len();
    if n > 0 {
        let y = with_profiles(
            with_policies(Map::empty(), policies, policies.len()),
            profiles,
            profiles.len(),
        );
        let z = with_endpoints(y, endpoints, n);
        lemma_forward_rules(endpoints, n);
        let rules = forward_rules(endpoints);
        assert forall|i: int| 0 <= i < rules.len() implies ((
        #[trigger] rules[i]).verdict matches VerdictView::Jump(t) ==> z.dom().contains(t)) by {
            let j = i / 2;
            assert(endpoints[j].1 == endpoints[j].1);
            if i % 2 == 0 {
                assert(i == 2 * j);
                assert(rules[2 * j] == forward_pair(endpoints[j].1)[0]);
            } else {
                assert(i == 2 * j + 1);
                assert(rules[2 * j + 1] == forward_pair(endpoints[j].1)[1]);
            }
        }
        lemma_resolve_insert(z, FORWARD_CHAIN@, forward_chain(endpoints));
        assert forall|i: int| 0 <= i < n implies {
            let pair = forward_pair((#[trigger] endpoints[i]).1);
            rules.contains(pair[0]) && rules.contains(pair[1])
        } by {
            let pair = forward_pair(endpoints[i].1);
            assert(rules[2 * i] == pair[0]);
            assert(rules[2 * i + 1] == pair[1]);
        }
    }
}

/// Chain names hold nothing but letters, digits, hyphens and underscores, and dots in the
/// names of profiles; what holds nothing else is kept as it is, and nothing gets longer or
/// shorter.
pub proof fn law_chain_names_are_safe(s: Seq<char>, dot: bool, i: int)
    requires
        0 <= i < s.len(),
    ensures
        safe_text(s, dot).len() == s.len(),
        ({
            let c = safe_text(s, dot)[i];
            let fine = |x: char| is_alnum(x) || x == '-' || x == '_' || (dot && x == '.');
            &&& fine(c)
            &&& c == s[i] <==> fine(s[i])
            &&& !fine(s[i]) ==> c == '-'
        }),
{
}

/// The drop at the end of an endpoint's chain says which direction it denies.
pub proof fn law_default_deny_names_its_direction(ep: WorkloadEndpointView)
    ensures
        endpoint_rules(ep, Direction::Ingress).last().comment == Some("default deny (ingress)"@),
        endpoint_rules(ep, Direction::Egress).last().comment == Some("default deny (egress)"@),
{
    reveal_strlit("default deny (");
    reveal_strlit("ingress");
    reveal_strlit("egress");
    reveal_strlit(")");
    reveal_strlit("default deny (ingress)");
    reveal_strlit("default deny (egress)");
    assert("default deny (ingress)"@ =~= "default deny ("@ + "ingress"@ + ")"@);
    assert("default deny (egress)"@ =~= "default deny ("@ + "egress"@ + ")"@);
}

} // verus!
