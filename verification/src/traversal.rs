//! What becomes of a packet on its way through the chains.
//!
//! The chains are lists of rules with conditions and verdicts. Here is what such a list
//! does to a packet, as far as the dataplane relies on it, and with it what the chains of
//! the policies, the profiles and the endpoints mean: a packet between two workloads gets
//! through only where both directions admit it, whichever is looked at first.

use crate::endpoint_manager::{
    action_verdict, addr_choices, chain_rules, desired_chains, dispatch_chain, endpoint_rules,
    forward_chain, forward_pair, forward_rules, jump_rules, law_endpoint_chain_shape,
    law_policy_chains_never_accept, optional, policy_chain, policy_targets, port_choices,
    profile_chain, profile_targets, regular_chain, return_if_accepted, rule_expansion, targets,
    tier_targets, with_dispatch, with_endpoints, with_policies, with_policy, with_profiles,
    Direction, RuleFrame, FORWARD_CHAIN,
};
use crate::ipset_manager::set_name;
use crate::messages::{
    PolicyIdView, PolicyRuleView, PolicyView, RuleAction, WorkloadEndpointIdView, WorkloadEndpointView,
};
use crate::nft::{plain_rule, NftChainView, NftMatchView, NftRuleView, VerdictView};
use crate::seqs::{concat_all, concat_first, lemma_concat_all};
use crate::text::lowercase;
use vstd::prelude::*;

verus! {

/// How the way through a chain ends.
#[derive(Clone, Copy)]
pub enum End {
    /// The packet is dropped.
    Dropped,
    /// The packet is accepted; no further rule is looked at.
    Accepted,
    /// The packet's source address is rewritten; no further rule is looked at.
    Masqueraded,
    /// The chain came to its end or went back: the chain before goes on.
    Passed,
}

/// How the way through a chain ends, with the accept mark at that point.
pub struct Walk {
    pub end: End,
    pub mark: bool,
}

/// Whether a condition holds: that of the mark for the mark, every other for the packet,
/// which is given by the conditions that hold for it.
pub open spec fn holds(packet: spec_fn(NftMatchView) -> bool, mark: bool, m: NftMatchView) -> bool {
    if m == NftMatchView::AcceptMarkSet {
        mark
    } else {
        packet(m)
    }
}

/// Whether all conditions of a rule hold.
pub open spec fn applies(
    packet: spec_fn(NftMatchView) -> bool,
    mark: bool,
    rule: NftRuleView,
) -> bool {
    forall|i: int| 0 <= i < rule.matches.len() ==> holds(packet, mark, #[trigger] rule.matches[i])
}

/// The way of a packet through a list of rules, with at most `depth` jumps within each
/// other. A jump that goes deeper, or nowhere, drops the packet.
pub open spec fn walk(
    chains: Map<Seq<char>, NftChainView>,
    rules: Seq<NftRuleView>,
    packet: spec_fn(NftMatchView) -> bool,
    mark: bool,
    depth: nat,
) -> Walk
    decreases depth, rules.len(),
{
    if rules.len() == 0 {
        Walk { end: End::Passed, mark }
    } else if !applies(packet, mark, rules[0]) {
        walk(chains, rules.skip(1), packet, mark, depth)
    } else {
        match rules[0].verdict {
            VerdictView::Accept => Walk { end: End::Accepted, mark },
            VerdictView::Drop => Walk { end: End::Dropped, mark },
            VerdictView::Return => Walk { end: End::Passed, mark },
            VerdictView::Masquerade => Walk { end: End::Masqueraded, mark },
            VerdictView::SetAcceptMarkReturn => Walk { end: End::Passed, mark: true },
            VerdictView::ClearAcceptMark => walk(chains, rules.skip(1), packet, false, depth),
            VerdictView::Jump(t) => if depth == 0 || !chains.dom().contains(t) {
                Walk { end: End::Dropped, mark }
            } else {
                let inner = walk(chains, chains[t].rules, packet, mark, (depth - 1) as nat);
                if inner.end == End::Passed {
                    walk(chains, rules.skip(1), packet, inner.mark, depth)
                } else {
                    inner
                }
            },
            VerdictView::Goto(t) => if depth == 0 || !chains.dom().contains(t) {
                Walk { end: End::Dropped, mark }
            } else {
                walk(chains, chains[t].rules, packet, mark, (depth - 1) as nat)
            },
        }
    }
}

/// Whether one of the rules applies.
pub open spec fn any_applies(
    packet: spec_fn(NftMatchView) -> bool,
    mark: bool,
    rules: Seq<NftRuleView>,
) -> bool {
    exists|i: int| 0 <= i < rules.len() && applies(packet, mark, #[trigger] rules[i])
}

/// What a verdict that ends the way through its chain leads to.
pub open spec fn outcome(verdict: VerdictView, mark: bool) -> Walk {
    match verdict {
        VerdictView::Accept => Walk { end: End::Accepted, mark },
        VerdictView::Drop => Walk { end: End::Dropped, mark },
        VerdictView::Masquerade => Walk { end: End::Masqueraded, mark },
        VerdictView::SetAcceptMarkReturn => Walk { end: End::Passed, mark: true },
        _ => Walk { end: End::Passed, mark },
    }
}

/// Whether a verdict ends the way through its chain.
pub open spec fn final_verdict(verdict: VerdictView) -> bool {
    verdict == VerdictView::Accept || verdict == VerdictView::Drop || verdict
        == VerdictView::Masquerade || verdict == VerdictView::SetAcceptMarkReturn || verdict
        == VerdictView::Return
}

/// Rules with one and the same final verdict decide as one: if any applies.
pub proof fn lemma_walk_block(
    chains: Map<Seq<char>, NftChainView>,
    block: Seq<NftRuleView>,
    rest: Seq<NftRuleView>,
    packet: spec_fn(NftMatchView) -> bool,
    mark: bool,
    depth: nat,
    verdict: VerdictView,
)
    requires
        final_verdict(verdict),
        forall|i: int| 0 <= i < block.len() ==> (#[trigger] block[i]).verdict == verdict,
    ensures
        walk(chains, block + rest, packet, mark, depth) == if any_applies(packet, mark, block) {
            outcome(verdict, mark)
        } else {
            walk(chains, rest, packet, mark, depth)
        },
    decreases block.len(),
{
    if block.len() == 0 {
        assert(block + rest =~= rest);
    } else {
        assert((block + rest)[0] == block[0]);
        assert((block + rest).skip(1) =~= block.skip(1) + rest);
        if applies(packet, mark, block[0]) {
            assert(any_applies(packet, mark, block));
        } else {
            assert forall|i: int| 0 <= i < block.skip(1).len() implies (
            #[trigger] block.skip(1)[i]).verdict == verdict by {
                assert(block.skip(1)[i] == block[i + 1]);
            }
            lemma_walk_block(chains, block.skip(1), rest, packet, mark, depth, verdict);
            if any_applies(packet, mark, block) {
                let i = choose|i: int|
                    0 <= i < block.len() && applies(packet, mark, #[trigger] block[i]);
                assert(block.skip(1)[i - 1] == block[i]);
                assert(any_applies(packet, mark, block.skip(1)));
            }
            if any_applies(packet, mark, block.skip(1)) {
                let i = choose|i: int|
                    0 <= i < block.skip(1).len() && applies(
                        packet,
                        mark,
                        #[trigger] block.skip(1)[i],
                    );
                assert(block[i + 1] == block.skip(1)[i]);
            }
        }
    }
}

/// A rule applies in the whole exactly where it applies in a block.
pub proof fn lemma_any_concat(
    packet: spec_fn(NftMatchView) -> bool,
    mark: bool,
    blocks: Seq<Seq<NftRuleView>>,
    n: nat,
)
    requires
        n <= blocks.len(),
    ensures
        any_applies(packet, mark, concat_first(blocks, n)) <==> exists|i: int|
            0 <= i < n && any_applies(packet, mark, #[trigger] blocks[i]),
    decreases n,
{
    if n > 0 {
        let m = (n - 1) as nat;
        lemma_any_concat(packet, mark, blocks, m);
        let a = concat_first(blocks, m);
        let b = blocks[n - 1];
        let c = concat_first(blocks, n);
        assert(c == a + b);
        if any_applies(packet, mark, c) {
            let i = choose|i: int| 0 <= i < c.len() && applies(packet, mark, #[trigger] c[i]);
            if i < a.len() {
                assert(a[i] == c[i]);
                assert(any_applies(packet, mark, a));
                let j = choose|j: int| 0 <= j < m && any_applies(packet, mark, #[trigger] blocks[j]);
                assert(0 <= j < n && any_applies(packet, mark, blocks[j]));
            } else {
                assert(b[i - a.len()] == c[i]);
                assert(any_applies(packet, mark, blocks[n - 1]));
            }
        }
        if exists|i: int| 0 <= i < n && any_applies(packet, mark, #[trigger] blocks[i]) {
            let j = choose|j: int| 0 <= j < n && any_applies(packet, mark, #[trigger] blocks[j]);
            if j < m {
                assert(any_applies(packet, mark, a));
                let i = choose|i: int| 0 <= i < a.len() && applies(packet, mark, #[trigger] a[i]);
                assert(c[i] == a[i]);
            } else {
                let i = choose|i: int| 0 <= i < b.len() && applies(packet, mark, #[trigger] b[i]);
                assert(c[a.len() + i] == b[i]);
            }
        }
    }
}

/// Whether a packet meets an optional condition.
pub open spec fn meets(packet: spec_fn(NftMatchView) -> bool, m: Option<NftMatchView>) -> bool {
    match m {
        Some(x) => packet(x),
        None => true,
    }
}

/// Whether a packet meets one of several alternatives.
pub open spec fn meets_one(
    packet: spec_fn(NftMatchView) -> bool,
    choices: Seq<Option<NftMatchView>>,
) -> bool {
    exists|i: int| 0 <= i < choices.len() && meets(packet, #[trigger] choices[i])
}

/// Whether a packet comes from one of the blocks or sets, where any are named.
pub open spec fn comes_from(
    packet: spec_fn(NftMatchView) -> bool,
    nets: Seq<Seq<char>>,
    set_ids: Seq<Seq<char>>,
) -> bool {
    ||| nets.len() == 0 && set_ids.len() == 0
    ||| exists|i: int| 0 <= i < nets.len() && packet(NftMatchView::SrcAddr(#[trigger] nets[i]))
    ||| exists|i: int|
        0 <= i < set_ids.len() && packet(NftMatchView::SrcSet(set_name(#[trigger] set_ids[i])))
}

/// Whether a packet goes to one of the blocks or sets, where any are named.
pub open spec fn goes_to(
    packet: spec_fn(NftMatchView) -> bool,
    nets: Seq<Seq<char>>,
    set_ids: Seq<Seq<char>>,
) -> bool {
    ||| nets.len() == 0 && set_ids.len() == 0
    ||| exists|i: int| 0 <= i < nets.len() && packet(NftMatchView::DestAddr(#[trigger] nets[i]))
    ||| exists|i: int|
        0 <= i < set_ids.len() && packet(NftMatchView::DestSet(set_name(#[trigger] set_ids[i])))
}

/// Whether a policy rule is about a packet: its protocol, one of its sources, one of its
/// destinations and one of its ports at either end are those of the packet, as far as the
/// rule names any.
pub open spec fn rule_concerns(packet: spec_fn(NftMatchView) -> bool, rule: PolicyRuleView) -> bool {
    &&& match rule.protocol {
        Some(p) => packet(NftMatchView::L4Proto(lowercase(p))),
        None => true,
    }
    &&& comes_from(packet, rule.src_nets, rule.src_ip_set_ids)
    &&& goes_to(packet, rule.dst_nets, rule.dst_ip_set_ids)
    &&& rule.src_ports.len() == 0 || exists|i: int|
        0 <= i < rule.src_ports.len() && packet(NftMatchView::SrcPort(#[trigger] rule.src_ports[i]))
    &&& rule.dst_ports.len() == 0 || exists|i: int|
        0 <= i < rule.dst_ports.len() && packet(NftMatchView::DestPort(#[trigger] rule.dst_ports[i]))
}

/// The alternatives for an address are met where the packet comes from, or goes to, one of
/// the blocks or sets.
proof fn lemma_addr_choices(
    packet: spec_fn(NftMatchView) -> bool,
    nets: Seq<Seq<char>>,
    set_ids: Seq<Seq<char>>,
)
    ensures
        meets_one(packet, addr_choices(nets, set_ids, true)) <==> comes_from(packet, nets, set_ids),
        meets_one(packet, addr_choices(nets, set_ids, false)) <==> goes_to(packet, nets, set_ids),
{
    let from = addr_choices(nets, set_ids, true);
    let to = addr_choices(nets, set_ids, false);
    if nets.len() + set_ids.len() == 0 {
        assert(meets(packet, from[0]));
        assert(meets(packet, to[0]));
    } else {
        if meets_one(packet, from) {
            let i = choose|i: int| 0 <= i < from.len() && meets(packet, #[trigger] from[i]);
            if i < nets.len() {
                assert(packet(NftMatchView::SrcAddr(nets[i])));
            } else {
                assert(packet(NftMatchView::SrcSet(set_name(set_ids[i - nets.len()]))));
            }
        }
        if meets_one(packet, to) {
            let i = choose|i: int| 0 <= i < to.len() && meets(packet, #[trigger] to[i]);
            if i < nets.len() {
                assert(packet(NftMatchView::DestAddr(nets[i])));
            } else {
                assert(packet(NftMatchView::DestSet(set_name(set_ids[i - nets.len()]))));
            }
        }
        assert forall|i: int| 0 <= i < nets.len() implies from[i] == Some(
            NftMatchView::SrcAddr(#[trigger] nets[i]),
        ) && to[i] == Some(NftMatchView::DestAddr(nets[i])) by {}
        assert forall|i: int| 0 <= i < set_ids.len() implies from[nets.len() + i] == Some(
            NftMatchView::SrcSet(set_name(#[trigger] set_ids[i])),
        ) && to[nets.len() + i] == Some(NftMatchView::DestSet(set_name(set_ids[i]))) by {}
        if comes_from(packet, nets, set_ids) {
            if exists|i: int|
                0 <= i < nets.len() && packet(NftMatchView::SrcAddr(#[trigger] nets[i])) {
                let i = choose|i: int|
                    0 <= i < nets.len() && packet(NftMatchView::SrcAddr(#[trigger] nets[i]));
                assert(meets(packet, from[i]));
            } else {
                let i = choose|i: int|
                    0 <= i < set_ids.len() && packet(
                        NftMatchView::SrcSet(set_name(#[trigger] set_ids[i])),
                    );
                assert(meets(packet, from[nets.len() + i]));
            }
        }
        if goes_to(packet, nets, set_ids) {
            if exists|i: int|
                0 <= i < nets.len() && packet(NftMatchView::DestAddr(#[trigger] nets[i])) {
                let i = choose|i: int|
                    0 <= i < nets.len() && packet(NftMatchView::DestAddr(#[trigger] nets[i]));
                assert(meets(packet, to[i]));
            } else {
                let i = choose|i: int|
                    0 <= i < set_ids.len() && packet(
                        NftMatchView::DestSet(set_name(#[trigger] set_ids[i])),
                    );
                assert(meets(packet, to[nets.len() + i]));
            }
        }
    }
}

/// The alternatives for a port are met where the packet has one of the ports.
proof fn lemma_port_choices(packet: spec_fn(NftMatchView) -> bool, ports: Seq<u16>)
    ensures
        meets_one(packet, port_choices(ports, true)) <==> ports.len() == 0 || exists|i: int|
            0 <= i < ports.len() && packet(NftMatchView::SrcPort(#[trigger] ports[i])),
        meets_one(packet, port_choices(ports, false)) <==> ports.len() == 0 || exists|i: int|
            0 <= i < ports.len() && packet(NftMatchView::DestPort(#[trigger] ports[i])),
{
    let from = port_choices(ports, true);
    let to = port_choices(ports, false);
    if ports.len() == 0 {
        assert(meets(packet, from[0]));
        assert(meets(packet, to[0]));
    } else {
        assert forall|i: int| 0 <= i < ports.len() implies from[i] == Some(
            NftMatchView::SrcPort(#[trigger] ports[i]),
        ) && to[i] == Some(NftMatchView::DestPort(ports[i])) by {}
        if meets_one(packet, from) {
            let i = choose|i: int| 0 <= i < from.len() && meets(packet, #[trigger] from[i]);
            assert(packet(NftMatchView::SrcPort(ports[i])));
        }
        if meets_one(packet, to) {
            let i = choose|i: int| 0 <= i < to.len() && meets(packet, #[trigger] to[i]);
            assert(packet(NftMatchView::DestPort(ports[i])));
        }
        if exists|i: int|
            0 <= i < ports.len() && packet(NftMatchView::SrcPort(#[trigger] ports[i])) {
            let i = choose|i: int|
                0 <= i < ports.len() && packet(NftMatchView::SrcPort(#[trigger] ports[i]));
            assert(meets(packet, from[i]));
        }
        if exists|i: int|
            0 <= i < ports.len() && packet(NftMatchView::DestPort(#[trigger] ports[i])) {
            let i = choose|i: int|
                0 <= i < ports.len() && packet(NftMatchView::DestPort(#[trigger] ports[i]));
            assert(meets(packet, to[i]));
        }
    }
}

/// An optional condition that is not about the mark.
pub open spec fn about_packet(m: Option<NftMatchView>) -> bool {
    m != Some(NftMatchView::AcceptMarkSet)
}

/// A rule that is put together from optional conditions applies where each of them is met.
proof fn lemma_frame_applies(
    frame: RuleFrame,
    packet: spec_fn(NftMatchView) -> bool,
    mark: bool,
    src: Option<NftMatchView>,
    dst: Option<NftMatchView>,
    sport: Option<NftMatchView>,
    dport: Option<NftMatchView>,
)
    requires
        about_packet(src),
        about_packet(dst),
        about_packet(sport),
        about_packet(dport),
    ensures
        applies(packet, mark, frame.rule(src, dst, sport, dport)) <==> {
            &&& match frame.protocol {
                Some(p) => packet(NftMatchView::L4Proto(p)),
                None => true,
            }
            &&& meets(packet, src)
            &&& meets(packet, dst)
            &&& meets(packet, sport)
            &&& meets(packet, dport)
        },
{
    let proto = match frame.protocol {
        Some(p) => Some(NftMatchView::L4Proto(p)),
        None => None,
    };
    let a = optional(proto);
    let b = a + optional(src);
    let c = b + optional(dst);
    let d = c + optional(sport);
    let e = d + optional(dport);
    let rule = frame.rule(src, dst, sport, dport);
    assert(rule.matches == e);
    lemma_all_of(packet, mark, a, src);
    lemma_all_of(packet, mark, b, dst);
    lemma_all_of(packet, mark, c, sport);
    lemma_all_of(packet, mark, d, dport);
    assert(Seq::<NftMatchView>::empty() + a =~= a);
    lemma_all_of(packet, mark, Seq::empty(), proto);
}

/// One more optional condition.
proof fn lemma_all_of(
    packet: spec_fn(NftMatchView) -> bool,
    mark: bool,
    before: Seq<NftMatchView>,
    m: Option<NftMatchView>,
)
    requires
        about_packet(m),
    ensures
        (forall|i: int|
            0 <= i < (before + optional(m)).len() ==> holds(
                packet,
                mark,
                #[trigger] (before + optional(m))[i],
            )) <==> (forall|i: int|
            0 <= i < before.len() ==> holds(packet, mark, #[trigger] before[i])) && meets(packet, m),
{
    let all = before + optional(m);
    if forall|i: int| 0 <= i < all.len() ==> holds(packet, mark, #[trigger] all[i]) {
        assert forall|i: int| 0 <= i < before.len() implies holds(
            packet,
            mark,
            #[trigger] before[i],
        ) by {
            assert(all[i] == before[i]);
        }
        if m is Some {
            assert(all[before.len() as int] == m->0);
        }
    }
    if (forall|i: int| 0 <= i < before.len() ==> holds(packet, mark, #[trigger] before[i])) && meets(
        packet,
        m,
    ) {
        assert forall|i: int| 0 <= i < all.len() implies holds(packet, mark, #[trigger] all[i]) by {
            if i < before.len() {
                assert(all[i] == before[i]);
            } else {
                assert(all[i] == m->0);
            }
        }
    }
}

/// The rules that a policy rule becomes apply to exactly the packets that it is about,
/// whatever the mark: every combination of its conditions is there, and no other.
pub proof fn law_expansion_covers_its_rule(
    packet: spec_fn(NftMatchView) -> bool,
    mark: bool,
    rule: PolicyRuleView,
)
    requires
        rule.action_field is Some,
        rule.action_field->0 != RuleAction::Log,
    ensures
        any_applies(packet, mark, rule_expansion(rule)) <==> rule_concerns(packet, rule),
{
    let verdict = action_verdict(rule.action_field->0)->0;
    let frame = RuleFrame {
        protocol: match rule.protocol {
            Some(p) => Some(lowercase(p)),
            None => None,
        },
        verdict,
        comment: rule.rule_id,
    };
    let sv = addr_choices(rule.src_nets, rule.src_ip_set_ids, true);
    let dv = addr_choices(rule.dst_nets, rule.dst_ip_set_ids, false);
    let pv = port_choices(rule.src_ports, true);
    let qv = port_choices(rule.dst_ports, false);
    assert(rule_expansion(rule) == frame.over_all(sv, dv, pv, qv));
    lemma_addr_choices(packet, rule.src_nets, rule.src_ip_set_ids);
    lemma_addr_choices(packet, rule.dst_nets, rule.dst_ip_set_ids);
    lemma_port_choices(packet, rule.src_ports);
    lemma_port_choices(packet, rule.dst_ports);
    assert(rule_concerns(packet, rule) <==> (match frame.protocol {
        Some(p) => packet(NftMatchView::L4Proto(p)),
        None => true,
    }) && meets_one(packet, sv) && meets_one(packet, dv) && meets_one(packet, pv) && meets_one(
        packet,
        qv,
    ));
    let proto = match frame.protocol {
        Some(p) => packet(NftMatchView::L4Proto(p)),
        None => true,
    };
    let by_src = Seq::new(sv.len(), |s: int| frame.over_dests(sv[s], dv, pv, qv));
    lemma_any_concat(packet, mark, by_src, by_src.len());
    assert forall|s: int| 0 <= s < sv.len() implies (any_applies(packet, mark, #[trigger] by_src[s])
        <==> proto && meets(packet, sv[s]) && meets_one(packet, dv) && meets_one(packet, pv)
        && meets_one(packet, qv)) by {
        let by_dst = Seq::new(dv.len(), |d: int| frame.over_ports(sv[s], dv[d], pv, qv));
        lemma_any_concat(packet, mark, by_dst, by_dst.len());
        assert(by_src[s] == concat_all(by_dst));
        assert forall|d: int| 0 <= d < dv.len() implies (any_applies(
            packet,
            mark,
            #[trigger] by_dst[d],
        ) <==> proto && meets(packet, sv[s]) && meets(packet, dv[d]) && meets_one(packet, pv)
            && meets_one(packet, qv)) by {
            let by_sp = Seq::new(pv.len(), |k: int| frame.over_dports(sv[s], dv[d], pv[k], qv));
            lemma_any_concat(packet, mark, by_sp, by_sp.len());
            assert(by_dst[d] == concat_all(by_sp));
            assert forall|k: int| 0 <= k < pv.len() implies (any_applies(
                packet,
                mark,
                #[trigger] by_sp[k],
            ) <==> proto && meets(packet, sv[s]) && meets(packet, dv[d]) && meets(packet, pv[k])
                && meets_one(packet, qv)) by {
                let row = by_sp[k];
                assert forall|q: int| 0 <= q < qv.len() implies (applies(
                    packet,
                    mark,
                    #[trigger] row[q],
                ) <==> proto && meets(packet, sv[s]) && meets(packet, dv[d]) && meets(packet, pv[k])
                    && meets(packet, qv[q])) by {
                    assert(row[q] == frame.rule(sv[s], dv[d], pv[k], qv[q]));
                    lemma_frame_applies(frame, packet, mark, sv[s], dv[d], pv[k], qv[q]);
                }
                if any_applies(packet, mark, row) {
                    let q = choose|q: int|
                        0 <= q < row.len() && applies(packet, mark, #[trigger] row[q]);
                    assert(meets(packet, qv[q]));
                }
                if proto && meets(packet, sv[s]) && meets(packet, dv[d]) && meets(packet, pv[k])
                    && meets_one(packet, qv) {
                    let q = choose|q: int| 0 <= q < qv.len() && meets(packet, #[trigger] qv[q]);
                    assert(applies(packet, mark, row[q]));
                }
            }
            if any_applies(packet, mark, by_dst[d]) {
                let k = choose|k: int|
                    0 <= k < by_sp.len() && any_applies(packet, mark, #[trigger] by_sp[k]);
                assert(meets(packet, pv[k]));
            }
            if proto && meets(packet, sv[s]) && meets(packet, dv[d]) && meets_one(packet, pv)
                && meets_one(packet, qv) {
                let k = choose|k: int| 0 <= k < pv.len() && meets(packet, #[trigger] pv[k]);
                assert(any_applies(packet, mark, by_sp[k]));
            }
        }
        if any_applies(packet, mark, by_src[s]) {
            let d = choose|d: int|
                0 <= d < by_dst.len() && any_applies(packet, mark, #[trigger] by_dst[d]);
            assert(meets(packet, dv[d]));
        }
        if proto && meets(packet, sv[s]) && meets_one(packet, dv) && meets_one(packet, pv)
            && meets_one(packet, qv) {
            let d = choose|d: int| 0 <= d < dv.len() && meets(packet, #[trigger] dv[d]);
            assert(any_applies(packet, mark, by_dst[d]));
        }
    }
    if any_applies(packet, mark, rule_expansion(rule)) {
        let s = choose|s: int|
            0 <= s < by_src.len() && any_applies(packet, mark, #[trigger] by_src[s]);
        assert(meets(packet, sv[s]));
    }
    if rule_concerns(packet, rule) {
        let s = choose|s: int| 0 <= s < sv.len() && meets(packet, #[trigger] sv[s]);
        assert(any_applies(packet, mark, by_src[s]));
    }
}

/// What the rules of a policy or a profile say of a packet: whether the first rule that is
/// about it allows it; nothing, where there is none or that rule passes it on. A rule that
/// only logs, or has no action, does not count.
pub open spec fn opinion(
    packet: spec_fn(NftMatchView) -> bool,
    rules: Seq<PolicyRuleView>,
) -> Option<bool>
    decreases rules.len(),
{
    if rules.len() == 0 {
        None
    } else {
        match rules[0].action_field {
            Some(RuleAction::Allow) if rule_concerns(packet, rules[0]) => Some(true),
            Some(RuleAction::Deny) if rule_concerns(packet, rules[0]) => Some(false),
            Some(RuleAction::Pass) if rule_concerns(packet, rules[0]) => None,
            _ => opinion(packet, rules.skip(1)),
        }
    }
}

/// The chain of a policy or a profile does what its rules say: it marks what they allow,
/// drops what they deny, and leaves everything else to the chain before. It never accepts.
pub proof fn law_policy_chain_decides(
    chains: Map<Seq<char>, NftChainView>,
    packet: spec_fn(NftMatchView) -> bool,
    rules: Seq<PolicyRuleView>,
    mark: bool,
    depth: nat,
)
    ensures
        walk(chains, chain_rules(rules), packet, mark, depth) == (match opinion(packet, rules) {
            Some(true) => Walk { end: End::Passed, mark: true },
            Some(false) => Walk { end: End::Dropped, mark },
            None => Walk { end: End::Passed, mark },
        }),
    decreases rules.len(),
{
    let blocks = Seq::new(rules.len(), |i: int| rule_expansion(rules[i]));
    if rules.len() == 0 {
        assert(chain_rules(rules) =~= Seq::<NftRuleView>::empty());
    } else {
        let rest = rules.skip(1);
        let more = Seq::new(rest.len(), |i: int| rule_expansion(rest[i]));
        lemma_concat_shift(blocks, more, rules.len());
        assert(chain_rules(rules) == rule_expansion(rules[0]) + chain_rules(rest));
        law_policy_chain_decides(chains, packet, rest, mark, depth);
        let block = rule_expansion(rules[0]);
        match rules[0].action_field {
            Some(action) if action != RuleAction::Log => {
                let verdict = action_verdict(action)->0;
                crate::endpoint_manager::law_expansion_keeps_verdict(rules[0]);
                lemma_walk_block(chains, block, chain_rules(rest), packet, mark, depth, verdict);
                law_expansion_covers_its_rule(packet, mark, rules[0]);
            },
            _ => {
                assert(block =~= Seq::<NftRuleView>::empty());
                assert(block + chain_rules(rest) =~= chain_rules(rest));
            },
        }
    }
}

/// The first block, and then the others.
pub proof fn lemma_concat_shift(
    blocks: Seq<Seq<NftRuleView>>,
    more: Seq<Seq<NftRuleView>>,
    n: nat,
)
    requires
        0 < n <= blocks.len(),
        n - 1 <= more.len(),
        forall|i: int| 0 <= i < n - 1 ==> #[trigger] more[i] == blocks[i + 1],
    ensures
        concat_first(blocks, n) == blocks[0] + concat_first(more, (n - 1) as nat),
    decreases n,
{
    if n == 1 {
        assert(concat_first(blocks, 1) == concat_first(blocks, 0) + blocks[0]);
        assert(concat_first(blocks, 1) =~= blocks[0] + concat_first(more, 0));
    } else {
        lemma_concat_shift(blocks, more, (n - 1) as nat);
        assert(more[n - 2] == blocks[n - 1]);
        assert(concat_first(blocks, n) =~= blocks[0] + concat_first(more, (n - 1) as nat));
    }
}

/// Whether the chains, in order, admit a packet: the first of them that does not leave the
/// packet undecided marks it as allowed.
pub open spec fn admitted_by(
    chains: Map<Seq<char>, NftChainView>,
    names: Seq<Seq<char>>,
    packet: spec_fn(NftMatchView) -> bool,
    depth: nat,
) -> bool
    decreases names.len(),
{
    if names.len() == 0 {
        false
    } else {
        let w = walk(chains, chains[names[0]].rules, packet, false, depth);
        if w.end == End::Passed && !w.mark {
            admitted_by(chains, names.skip(1), packet, depth)
        } else {
            w.end == End::Passed
        }
    }
}

/// Whether a chain only marks, drops or returns, as those of policies and profiles do.
pub open spec fn decides_only(chain: NftChainView) -> bool {
    forall|i: int|
        0 <= i < chain.rules.len() ==> {
            let v = (#[trigger] chain.rules[i]).verdict;
            v == VerdictView::SetAcceptMarkReturn || v == VerdictView::Drop || v
                == VerdictView::Return
        }
}

/// Such a chain ends in a drop, or goes back; where it goes back with the mark set, either
/// it has set the mark or the mark was set before.
proof fn lemma_decides_only(
    chains: Map<Seq<char>, NftChainView>,
    rules: Seq<NftRuleView>,
    packet: spec_fn(NftMatchView) -> bool,
    mark: bool,
    depth: nat,
)
    requires
        forall|i: int|
            0 <= i < rules.len() ==> {
                let v = (#[trigger] rules[i]).verdict;
                v == VerdictView::SetAcceptMarkReturn || v == VerdictView::Drop || v
                    == VerdictView::Return
            },
    ensures
        ({
            let w = walk(chains, rules, packet, mark, depth);
            w.end == End::Passed || w.end == End::Dropped
        }),
    decreases rules.len(),
{
    if rules.len() > 0 {
        assert forall|i: int| 0 <= i < rules.skip(1).len() implies {
            let v = (#[trigger] rules.skip(1)[i]).verdict;
            v == VerdictView::SetAcceptMarkReturn || v == VerdictView::Drop || v
                == VerdictView::Return
        } by {
            assert(rules.skip(1)[i] == rules[i + 1]);
        }
        lemma_decides_only(chains, rules.skip(1), packet, mark, depth);
    }
}

/// The jumps of an endpoint's chain, and what stands behind them.
proof fn lemma_walk_jumps(
    chains: Map<Seq<char>, NftChainView>,
    names: Seq<Seq<char>>,
    last: NftRuleView,
    packet: spec_fn(NftMatchView) -> bool,
    depth: nat,
)
    requires
        forall|i: int|
            0 <= i < names.len() ==> chains.dom().contains(#[trigger] names[i]) && decides_only(
                chains[names[i]],
            ),
        last.verdict == VerdictView::Drop,
        last.matches.len() == 0,
    ensures
        ({
            let w = walk(
                chains,
                jump_rules(names).push(last),
                packet,
                false,
                depth + 1,
            );
            if admitted_by(chains, names, packet, depth) {
                w == Walk { end: End::Passed, mark: true }
            } else {
                w.end == End::Dropped
            }
        }),
    decreases names.len(),
{
    let pairs = Seq::new(
        names.len(),
        |i: int| seq![plain_rule(VerdictView::Jump(names[i])), return_if_accepted()],
    );
    let all = jump_rules(names).push(last);
    if names.len() == 0 {
        assert(all =~= seq![last]);
        assert(applies(packet, false, all[0]));
    } else {
        let rest = names.skip(1);
        let more = Seq::new(
            rest.len(),
            |i: int| seq![plain_rule(VerdictView::Jump(rest[i])), return_if_accepted()],
        );
        assert forall|i: int| 0 <= i < names.len() - 1 implies #[trigger] more[i] == pairs[i + 1] by {
            assert(rest[i] == names[i + 1]);
        }
        lemma_concat_shift(pairs, more, names.len());
        let tail = jump_rules(rest).push(last);
        assert(all =~= seq![plain_rule(VerdictView::Jump(names[0])), return_if_accepted()] + tail);
        assert(all[0] == plain_rule(VerdictView::Jump(names[0])));
        assert(all.skip(1)[0] == return_if_accepted());
        assert(all.skip(1).skip(1) =~= tail);
        assert(chains.dom().contains(names[0]));
        let inner = walk(chains, chains[names[0]].rules, packet, false, depth);
        lemma_decides_only(chains, chains[names[0]].rules, packet, false, depth);
        assert forall|i: int| 0 <= i < rest.len() implies chains.dom().contains(#[trigger] rest[i])
            && decides_only(chains[rest[i]]) by {
            assert(rest[i] == names[i + 1]);
        }
        lemma_walk_jumps(chains, rest, last, packet, depth);
        assert(return_if_accepted().matches =~= seq![NftMatchView::AcceptMarkSet]);
        let w = walk(chains, all, packet, false, depth + 1);
        assert(applies(packet, false, all[0]));
        if inner.end == End::Passed {
            let behind = walk(chains, all.skip(1), packet, inner.mark, depth + 1);
            assert(w == behind);
            if inner.mark {
                assert(applies(packet, true, return_if_accepted()));
                assert(behind == Walk { end: End::Passed, mark: true });
            } else {
                assert(!applies(packet, false, return_if_accepted())) by {
                    assert(!holds(packet, false, return_if_accepted().matches[0]));
                }
                assert(behind == walk(chains, tail, packet, false, depth + 1));
            }
        } else {
            assert(w == inner);
        }
    }
}

/// An endpoint's chain admits what the first of its policies that has an opinion allows,
/// and drops everything else, whatever mark the packet comes with: it goes back with the
/// mark set, or drops.
pub proof fn law_endpoint_chain_decides(
    chains: Map<Seq<char>, NftChainView>,
    ep: WorkloadEndpointView,
    dir: Direction,
    packet: spec_fn(NftMatchView) -> bool,
    mark: bool,
    depth: nat,
)
    requires
        forall|i: int|
            0 <= i < targets(ep, dir).len() ==> chains.dom().contains(#[trigger] targets(ep, dir)[i])
                && decides_only(chains[targets(ep, dir)[i]]),
    ensures
        ({
            let w = walk(chains, endpoint_rules(ep, dir), packet, mark, depth + 1);
            if admitted_by(chains, targets(ep, dir), packet, depth) {
                w == Walk { end: End::Passed, mark: true }
            } else {
                w.end == End::Dropped
            }
        }),
{
    let rules = endpoint_rules(ep, dir);
    law_endpoint_chain_shape(ep, dir);
    let last = rules.last();
    assert(rules.skip(1) =~= jump_rules(targets(ep, dir)).push(last));
    assert(applies(packet, mark, rules[0]));
    lemma_walk_jumps(chains, targets(ep, dir), last, packet, depth);
}

/// What several policies or profiles, in order, say of a packet: the opinion of the first
/// one that has any.
pub open spec fn first_opinion(
    packet: spec_fn(NftMatchView) -> bool,
    lists: Seq<Seq<PolicyRuleView>>,
) -> Option<bool>
    decreases lists.len(),
{
    if lists.len() == 0 {
        None
    } else {
        match opinion(packet, lists[0]) {
            Some(b) => Some(b),
            None => first_opinion(packet, lists.skip(1)),
        }
    }
}

/// Where the chains that an endpoint's chain jumps to are those of the given rules, a packet
/// is admitted exactly where the first of them that has an opinion allows it. Where none has
/// one, it is not admitted.
pub proof fn law_first_opinion_prevails(
    chains: Map<Seq<char>, NftChainView>,
    names: Seq<Seq<char>>,
    lists: Seq<Seq<PolicyRuleView>>,
    packet: spec_fn(NftMatchView) -> bool,
    depth: nat,
)
    requires
        names.len() == lists.len(),
        forall|i: int|
            0 <= i < names.len() ==> chains[#[trigger] names[i]].rules == chain_rules(lists[i]),
    ensures
        admitted_by(chains, names, packet, depth) == (first_opinion(packet, lists) == Some(true)),
    decreases names.len(),
{
    if names.len() > 0 {
        law_policy_chain_decides(chains, packet, lists[0], false, depth);
        assert(chains[names[0]].rules == chain_rules(lists[0]));
        assert forall|i: int| 0 <= i < names.skip(1).len() implies chains[
            #[trigger] names.skip(1)[i]
        ].rules == chain_rules(lists.skip(1)[i]) by {
            assert(names.skip(1)[i] == names[i + 1]);
            assert(lists.skip(1)[i] == lists[i + 1]);
        }
        law_first_opinion_prevails(chains, names.skip(1), lists.skip(1), packet, depth);
    }
}

/// Whether a name is that of a policy's or a profile's chain.
pub open spec fn names_policy(k: Seq<char>) -> bool {
    k.len() > 5 && k[5] == 'p'
}

/// Whether a chain is an endpoint's, all of whose targets are in place.
pub open spec fn serves_endpoint(
    chains: Map<Seq<char>, NftChainView>,
    chain: NftChainView,
    ep: WorkloadEndpointView,
    dir: Direction,
) -> bool {
    &&& chain.rules == endpoint_rules(ep, dir)
    &&& forall|i: int|
        0 <= i < targets(ep, dir).len() ==> chains.dom().contains(#[trigger] targets(ep, dir)[i])
            && names_policy(targets(ep, dir)[i])
}

/// Whether every chain is one of a policy or a profile, or one of an endpoint, as its name
/// says.
pub open spec fn well_sorted(chains: Map<Seq<char>, NftChainView>) -> bool {
    forall|k: Seq<char>| #[trigger]
        chains.dom().contains(k) ==> if names_policy(k) {
            decides_only(chains[k])
        } else {
            exists|ep: WorkloadEndpointView, dir: Direction|
                serves_endpoint(chains, chains[k], ep, dir)
        }
}

/// The names of the chains tell which kind they are of.
pub proof fn lemma_chain_names(a: Seq<char>, b: Seq<char>, dir: Direction)
    ensures
        names_policy(policy_chain(a, b, dir)),
        names_policy(profile_chain(a, dir)),
        !names_policy(dispatch_chain(a, dir)),
        dispatch_chain(a, dir) != FORWARD_CHAIN@,
        !names_policy(FORWARD_CHAIN@),
{
    reveal_strlit("cali-pi");
    reveal_strlit("cali-po");
    reveal_strlit("cali-pri");
    reveal_strlit("cali-pro");
    reveal_strlit("cali-tw");
    reveal_strlit("cali-fw");
    reveal_strlit("cali-forward");
    let d = dispatch_chain(a, dir);
    assert(d[5] == 't' || d[5] == 'f');
    assert(d[6] == 'w');
    assert(FORWARD_CHAIN@[6] == 'o');
    assert(policy_chain(a, b, dir)[5] == 'p');
    assert(profile_chain(a, dir)[5] == 'p');
}

/// All targets of an endpoint's chain are chains of policies or profiles.
pub proof fn lemma_targets_are_policies(ep: WorkloadEndpointView, dir: Direction)
    ensures
        forall|i: int| 0 <= i < targets(ep, dir).len() ==> names_policy(#[trigger] targets(ep, dir)[i]),
{
    let rows = Seq::new(ep.tiers.len(), |i: int| tier_targets(ep.tiers[i], dir));
    let p = |k: Seq<char>| names_policy(k);
    assert forall|i: int, j: int| 0 <= i < rows.len() && 0 <= j < rows[i].len() implies p(
        #[trigger] rows[i][j],
    ) by {
        let names = match dir {
            Direction::Ingress => ep.tiers[i].ingress_policies,
            Direction::Egress => ep.tiers[i].egress_policies,
        };
        lemma_chain_names(ep.tiers[i].name, names[j], dir);
        assert(rows[i][j] == policy_chain(ep.tiers[i].name, names[j], dir));
    }
    lemma_concat_all(rows, rows.len(), p);
    assert forall|i: int| 0 <= i < targets(ep, dir).len() implies names_policy(
        #[trigger] targets(ep, dir)[i],
    ) by {
        if policy_targets(ep, dir).len() > 0 {
            assert(p(concat_first(rows, rows.len())[i]));
        } else {
            lemma_chain_names(ep.profile_ids[i], ep.profile_ids[i], dir);
            assert(profile_targets(ep, dir)[i] == profile_chain(ep.profile_ids[i], dir));
        }
    }
}

/// What serves an endpoint goes on doing so when chains are added.
proof fn lemma_sorted_grows(
    chains: Map<Seq<char>, NftChainView>,
    more: Map<Seq<char>, NftChainView>,
    k: Seq<char>,
)
    requires
        well_sorted(chains),
        chains.dom().contains(k),
        more.dom().contains(k),
        more[k] == chains[k],
        forall|q: Seq<char>| chains.dom().contains(q) ==> #[trigger] more.dom().contains(q),
    ensures
        if names_policy(k) {
            decides_only(more[k])
        } else {
            exists|ep: WorkloadEndpointView, dir: Direction| serves_endpoint(more, more[k], ep, dir)
        },
{
    if !names_policy(k) {
        let (ep, dir) = choose|ep: WorkloadEndpointView, dir: Direction|
            serves_endpoint(chains, chains[k], ep, dir);
        assert(serves_endpoint(more, more[k], ep, dir));
    }
}

/// The chains of a policy keep the chains well sorted.
proof fn lemma_sorted_policy(
    chains: Map<Seq<char>, NftChainView>,
    ingress: Seq<char>,
    egress: Seq<char>,
    policy: PolicyView,
)
    requires
        well_sorted(chains),
        names_policy(ingress),
        names_policy(egress),
    ensures
        well_sorted(with_policy(chains, ingress, egress, policy)),
{
    let more = with_policy(chains, ingress, egress, policy);
    law_policy_chains_never_accept(policy.inbound_rules);
    law_policy_chains_never_accept(policy.outbound_rules);
    assert forall|k: Seq<char>| #[trigger] more.dom().contains(k) implies if names_policy(k) {
        decides_only(more[k])
    } else {
        exists|ep: WorkloadEndpointView, dir: Direction| serves_endpoint(more, more[k], ep, dir)
    } by {
        if k != ingress && k != egress {
            lemma_sorted_grows(chains, more, k);
        }
    }
}

/// The chain of an endpoint keeps the chains well sorted.
proof fn lemma_sorted_dispatch(
    chains: Map<Seq<char>, NftChainView>,
    ep: WorkloadEndpointView,
    dir: Direction,
)
    requires
        well_sorted(chains),
    ensures
        well_sorted(with_dispatch(chains, ep, dir)),
        with_dispatch(chains, ep, dir).dom().contains(dispatch_chain(ep.name, dir)),
        forall|k: Seq<char>| #[trigger]
            chains.dom().contains(k) ==> with_dispatch(chains, ep, dir).dom().contains(k),
{
    let more = with_dispatch(chains, ep, dir);
    let name = dispatch_chain(ep.name, dir);
    let names = targets(ep, dir);
    lemma_targets_are_policies(ep, dir);
    lemma_chain_names(ep.name, ep.name, dir);
    assert forall|k: Seq<char>| #[trigger] more.dom().contains(k) implies if names_policy(k) {
        decides_only(more[k])
    } else {
        exists|e: WorkloadEndpointView, d: Direction| serves_endpoint(more, more[k], e, d)
    } by {
        if k == name {
            assert forall|i: int| 0 <= i < names.len() implies more.dom().contains(
                #[trigger] names[i],
            ) && names_policy(names[i]) by {
                assert(names.contains(names[i]));
            }
            assert(serves_endpoint(more, more[k], ep, dir));
        } else if chains.dom().contains(k) {
            lemma_sorted_grows(chains, more, k);
        } else {
            assert(names.contains(k));
            let i = names.index_of(k);
            assert(names_policy(names[i]));
            assert(more[k] == regular_chain(k, Seq::empty()));
        }
    }
}

/// All chains but the base chain are well sorted, and every endpoint has its two.
pub proof fn lemma_sorted_all(
    policies: Seq<(PolicyIdView, PolicyView)>,
    profiles: Seq<(Seq<char>, PolicyView)>,
    endpoints: Seq<(WorkloadEndpointIdView, WorkloadEndpointView)>,
    a: nat,
    b: nat,
    c: nat,
)
    requires
        a <= policies.len(),
        b <= profiles.len(),
        c <= endpoints.len(),
    ensures
        ({
            let x = with_policies(Map::empty(), policies, a);
            let y = with_profiles(x, profiles, b);
            let z = with_endpoints(y, endpoints, c);
            &&& well_sorted(z)
            &&& forall|i: int|
                0 <= i < c ==> z.dom().contains(
                    dispatch_chain((#[trigger] endpoints[i]).1.name, Direction::Ingress),
                ) && z.dom().contains(dispatch_chain(endpoints[i].1.name, Direction::Egress))
        }),
    decreases a + b + c,
{
    let x = with_policies(Map::empty(), policies, a);
    let y = with_profiles(x, profiles, b);
    if c > 0 {
        let m = (c - 1) as nat;
        lemma_sorted_all(policies, profiles, endpoints, a, b, m);
        let w = with_endpoints(y, endpoints, m);
        let ep = endpoints[c - 1].1;
        lemma_sorted_dispatch(w, ep, Direction::Ingress);
        lemma_sorted_dispatch(with_dispatch(w, ep, Direction::Ingress), ep, Direction::Egress);
    } else if b > 0 {
        let m = (b - 1) as nat;
        lemma_sorted_all(policies, profiles, endpoints, a, m, 0);
        let (id, profile) = profiles[b - 1];
        lemma_chain_names(id, id, Direction::Ingress);
        lemma_chain_names(id, id, Direction::Egress);
        lemma_sorted_policy(
            with_profiles(x, profiles, m),
            profile_chain(id, Direction::Ingress),
            profile_chain(id, Direction::Egress),
            profile,
        );
    } else if a > 0 {
        let m = (a - 1) as nat;
        lemma_sorted_all(policies, profiles, endpoints, m, 0, 0);
        let (id, policy) = policies[a - 1];
        lemma_chain_names(id.tier, id.name, Direction::Ingress);
        lemma_chain_names(id.tier, id.name, Direction::Egress);
        lemma_sorted_policy(
            with_policies(Map::empty(), policies, m),
            policy_chain(id.tier, id.name, Direction::Ingress),
            policy_chain(id.tier, id.name, Direction::Egress),
            policy,
        );
    }
}

/// Whether the chain `k` admits a packet, looked at by itself.
pub open spec fn admits(
    chains: Map<Seq<char>, NftChainView>,
    k: Seq<char>,
    packet: spec_fn(NftMatchView) -> bool,
    depth: nat,
) -> bool {
    walk(chains, chains[k].rules, packet, false, depth).end == End::Passed
}

/// Whether every chain of an endpoint whose interface a packet goes through admits it.
pub open spec fn both_admit(
    chains: Map<Seq<char>, NftChainView>,
    endpoints: Seq<(WorkloadEndpointIdView, WorkloadEndpointView)>,
    packet: spec_fn(NftMatchView) -> bool,
    depth: nat,
) -> bool {
    forall|i: int|
        0 <= i < endpoints.len() ==> {
            let name = (#[trigger] endpoints[i]).1.name;
            &&& packet(NftMatchView::OutInterface(name)) ==> admits(
                chains,
                dispatch_chain(name, Direction::Ingress),
                packet,
                depth,
            )
            &&& packet(NftMatchView::InInterface(name)) ==> admits(
                chains,
                dispatch_chain(name, Direction::Egress),
                packet,
                depth,
            )
        }
}

/// Jumps of the base chain one after the other: a packet that goes through an endpoint's
/// interface is dropped there or goes on, whatever the mark is by then.
proof fn lemma_walk_forward(
    chains: Map<Seq<char>, NftChainView>,
    endpoints: Seq<(WorkloadEndpointIdView, WorkloadEndpointView)>,
    packet: spec_fn(NftMatchView) -> bool,
    mark: bool,
    depth: nat,
)
    requires
        depth >= 1,
        forall|i: int|
            0 <= i < endpoints.len() ==> steady(
                chains,
                dispatch_chain((#[trigger] endpoints[i]).1.name, Direction::Ingress),
                packet,
                depth,
            ) && steady(
                chains,
                dispatch_chain(endpoints[i].1.name, Direction::Egress),
                packet,
                depth,
            ),
    ensures
        walk(chains, forward_rules(endpoints), packet, mark, depth + 1).end == if both_admit(
            chains,
            endpoints,
            packet,
            depth,
        ) {
            End::Passed
        } else {
            End::Dropped
        },
    decreases endpoints.len(),
{
    let blocks = Seq::new(endpoints.len(), |i: int| forward_pair(endpoints[i].1));
    let rules = forward_rules(endpoints);
    if endpoints.len() == 0 {
        assert(rules =~= Seq::<NftRuleView>::empty());
    } else {
        let rest = endpoints.skip(1);
        let more = Seq::new(rest.len(), |i: int| forward_pair(rest[i].1));
        assert forall|i: int| 0 <= i < endpoints.len() - 1 implies #[trigger] more[i] == blocks[i + 1] by {
            assert(rest[i] == endpoints[i + 1]);
        }
        lemma_concat_shift(blocks, more, endpoints.len());
        let name = endpoints[0].1.name;
        let pair = forward_pair(endpoints[0].1);
        let tail = forward_rules(rest);
        let tw = dispatch_chain(name, Direction::Ingress);
        let fw = dispatch_chain(name, Direction::Egress);
        assert(rules =~= pair + tail);
        assert(rules[0] == pair[0]);
        assert(rules.skip(1)[0] == pair[1]);
        assert(rules.skip(1).skip(1) =~= tail);
        assert(steady(chains, tw, packet, depth));
        assert(steady(chains, fw, packet, depth));
        assert(pair[0].matches =~= seq![NftMatchView::OutInterface(name)]);
        assert(pair[1].matches =~= seq![NftMatchView::InInterface(name)]);
        let out = packet(NftMatchView::OutInterface(name));
        let inn = packet(NftMatchView::InInterface(name));
        assert forall|m: bool| #[trigger] applies(packet, m, pair[0]) == out by {
            assert(holds(packet, m, pair[0].matches[0]) == out);
        }
        assert forall|m: bool| #[trigger] applies(packet, m, pair[1]) == inn by {
            assert(holds(packet, m, pair[1].matches[0]) == inn);
        }
        assert forall|i: int| 0 <= i < rest.len() implies steady(
            chains,
            dispatch_chain((#[trigger] rest[i]).1.name, Direction::Ingress),
            packet,
            depth,
        ) && steady(chains, dispatch_chain(rest[i].1.name, Direction::Egress), packet, depth) by {
            assert(rest[i] == endpoints[i + 1]);
        }
        lemma_walk_forward(chains, rest, packet, false, depth);
        lemma_walk_forward(chains, rest, packet, true, depth);
        let end = if both_admit(chains, rest, packet, depth) {
            End::Passed
        } else {
            End::Dropped
        };
        assert forall|m: bool| #[trigger]
            walk(chains, rules.skip(1), packet, m, depth + 1).end == (if inn && !admits(
                chains,
                fw,
                packet,
                depth,
            ) {
                End::Dropped
            } else {
                end
            }) by {
            let inner = walk(chains, chains[fw].rules, packet, m, depth);
            assert(inner.end == walk(chains, chains[fw].rules, packet, false, depth).end);
            assert(walk(chains, tail, packet, m, depth + 1).end == end);
            assert(walk(chains, tail, packet, inner.mark, depth + 1).end == end);
            assert(applies(packet, m, rules.skip(1)[0]) == inn);
        }
        let inner = walk(chains, chains[tw].rules, packet, mark, depth);
        assert(inner.end == walk(chains, chains[tw].rules, packet, false, depth).end);
        assert(applies(packet, mark, rules[0]) == out);
        assert(walk(chains, rules.skip(1), packet, mark, depth + 1).end == walk(
            chains,
            rules.skip(1),
            packet,
            inner.mark,
            depth + 1,
        ).end);
        if both_admit(chains, endpoints, packet, depth) {
            assert forall|i: int| 0 <= i < rest.len() implies {
                let n = (#[trigger] rest[i]).1.name;
                &&& packet(NftMatchView::OutInterface(n)) ==> admits(
                    chains,
                    dispatch_chain(n, Direction::Ingress),
                    packet,
                    depth,
                )
                &&& packet(NftMatchView::InInterface(n)) ==> admits(
                    chains,
                    dispatch_chain(n, Direction::Egress),
                    packet,
                    depth,
                )
            } by {
                assert(rest[i] == endpoints[i + 1]);
            }
            assert(both_admit(chains, rest, packet, depth));
            assert(endpoints[0].1.name == name);
        }
        let first = (out ==> admits(chains, tw, packet, depth)) && (inn ==> admits(
            chains,
            fw,
            packet,
            depth,
        ));
        if both_admit(chains, rest, packet, depth) && first {
            assert forall|i: int| 0 <= i < endpoints.len() implies {
                let n = (#[trigger] endpoints[i]).1.name;
                &&& packet(NftMatchView::OutInterface(n)) ==> admits(
                    chains,
                    dispatch_chain(n, Direction::Ingress),
                    packet,
                    depth,
                )
                &&& packet(NftMatchView::InInterface(n)) ==> admits(
                    chains,
                    dispatch_chain(n, Direction::Egress),
                    packet,
                    depth,
                )
            } by {
                if i > 0 {
                    assert(rest[i - 1] == endpoints[i]);
                }
            }
        }
        assert(both_admit(chains, endpoints, packet, depth) == (first && both_admit(
            chains,
            rest,
            packet,
            depth,
        )));
    }
}

/// Whether a chain is in place and does the same to a packet whatever the mark: it goes
/// back, or it drops.
pub open spec fn steady(
    chains: Map<Seq<char>, NftChainView>,
    k: Seq<char>,
    packet: spec_fn(NftMatchView) -> bool,
    depth: nat,
) -> bool {
    &&& chains.dom().contains(k)
    &&& walk(chains, chains[k].rules, packet, true, depth).end == walk(
        chains,
        chains[k].rules,
        packet,
        false,
        depth,
    ).end
    &&& walk(chains, chains[k].rules, packet, false, depth).end == End::Passed || walk(
        chains,
        chains[k].rules,
        packet,
        false,
        depth,
    ).end == End::Dropped
}

/// A forwarded packet gets through the base chain exactly where every chain of an endpoint
/// whose interface it goes through admits it by itself: that of the source for what comes
/// from it, and that of the destination for what goes to it. What one direction allows, the
/// other one still decides, in whatever order they stand; and nothing is accepted for good
/// on the way, so that a packet is accepted only by the policy of the base chain.
pub proof fn law_both_directions_decide(
    policies: Seq<(PolicyIdView, PolicyView)>,
    profiles: Seq<(Seq<char>, PolicyView)>,
    endpoints: Seq<(WorkloadEndpointIdView, WorkloadEndpointView)>,
    packet: spec_fn(NftMatchView) -> bool,
    mark: bool,
    depth: nat,
)
    requires
        endpoints.len() > 0,
        depth >= 1,
    ensures
        ({
            let chains = desired_chains(policies, profiles, endpoints);
            walk(chains, chains[FORWARD_CHAIN@].rules, packet, mark, depth + 1).end == if both_admit(
                chains,
                endpoints,
                packet,
                depth,
            ) {
                End::Passed
            } else {
                End::Dropped
            }
        }),
{
    let chains = desired_chains(policies, profiles, endpoints);
    let x = with_policies(Map::empty(), policies, policies.len());
    let y = with_profiles(x, profiles, profiles.len());
    let z = with_endpoints(y, endpoints, endpoints.len());
    lemma_sorted_all(
        policies,
        profiles,
        endpoints,
        policies.len(),
        profiles.len(),
        endpoints.len(),
    );
    assert(chains == z.insert(FORWARD_CHAIN@, forward_chain(endpoints)));
    assert forall|i: int| 0 <= i < endpoints.len() implies steady(
        chains,
        dispatch_chain((#[trigger] endpoints[i]).1.name, Direction::Ingress),
        packet,
        depth,
    ) && steady(chains, dispatch_chain(endpoints[i].1.name, Direction::Egress), packet, depth) by {
        lemma_steady(z, chains, endpoints[i].1.name, Direction::Ingress, packet, depth);
        lemma_steady(z, chains, endpoints[i].1.name, Direction::Egress, packet, depth);
    }
    lemma_walk_forward(chains, endpoints, packet, mark, depth);
}

/// The chain of an endpoint's interface is steady.
proof fn lemma_steady(
    z: Map<Seq<char>, NftChainView>,
    chains: Map<Seq<char>, NftChainView>,
    iface: Seq<char>,
    dir: Direction,
    packet: spec_fn(NftMatchView) -> bool,
    depth: nat,
)
    requires
        depth >= 1,
        well_sorted(z),
        z.dom().contains(dispatch_chain(iface, dir)),
        forall|k: Seq<char>| #[trigger]
            z.dom().contains(k) ==> chains.dom().contains(k) && (k != FORWARD_CHAIN@ ==> chains[k]
                == z[k]),
    ensures
        steady(chains, dispatch_chain(iface, dir), packet, depth),
{
    let k = dispatch_chain(iface, dir);
    lemma_chain_names(iface, iface, dir);
    let (ep, d) = choose|ep: WorkloadEndpointView, d: Direction| serves_endpoint(z, z[k], ep, d);
    let names = targets(ep, d);
    assert forall|i: int| 0 <= i < names.len() implies chains.dom().contains(#[trigger] names[i])
        && decides_only(chains[names[i]]) by {
        assert(z.dom().contains(names[i]) && names_policy(names[i]));
    }
    law_endpoint_chain_decides(chains, ep, d, packet, true, (depth - 1) as nat);
    law_endpoint_chain_decides(chains, ep, d, packet, false, (depth - 1) as nat);
}

} // verus!
