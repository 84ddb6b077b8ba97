//! Masquerading of traffic that leaves the pods' address space.
//!
//! Pods of a pool with outgoing NAT reach what is outside all pools with the node's
//! address as their source. Traffic between pools keeps its addresses.

use crate::nft::{
    BaseHook, BaseHookView, ChainType, NftChain, NftChainView, NftMatch, NftMatchView, NftRule,
    NftRuleView, NftTable, NftTableView, Verdict, VerdictView,
};
use crate::pools::PoolFields;
use crate::seqs::{concat_all, concat_first, doc_of, lemma_concat_all, lemma_concat_contains, push_item};
use crate::text::{contains_char, views};
use crate::traversal::{any_applies, applies, holds, lemma_any_concat, lemma_walk_block, walk, End};
use vstd::prelude::*;

verus! {

broadcast use crate::text::lemma_views_push;

/// The name of the table.
pub const TABLE: &'static str = "calico-nat";

/// The place of source NAT among the chains of the hook.
pub const SRCNAT_PRIORITY: i32 = 100;

/// The rule that exempts traffic from the pool `s` to the pool `d`.
pub open spec fn exempt(s: Seq<char>, d: Seq<char>) -> NftRuleView {
    NftRuleView {
        matches: seq![NftMatchView::SrcAddr(s), NftMatchView::DestAddr(d)],
        verdict: VerdictView::Return,
        comment: None,
    }
}

/// The rule that masquerades what is left of the pool `s`.
pub open spec fn masquerade(s: Seq<char>) -> NftRuleView {
    NftRuleView {
        matches: seq![NftMatchView::SrcAddr(s)],
        verdict: VerdictView::Masquerade,
        comment: Some("cali-nat-outgoing"@),
    }
}

/// The exemptions of traffic from the pool `s` to any pool.
pub open spec fn exempt_row(s: Seq<char>, all: Seq<Seq<char>>) -> Seq<NftRuleView> {
    Seq::new(all.len(), |d: int| exempt(s, all[d]))
}

/// All exemptions.
pub open spec fn exemptions(outgoing: Seq<Seq<char>>, all: Seq<Seq<char>>) -> Seq<NftRuleView> {
    concat_all(Seq::new(outgoing.len(), |s: int| exempt_row(outgoing[s], all)))
}

/// All masquerading rules.
pub open spec fn masquerades(outgoing: Seq<Seq<char>>) -> Seq<NftRuleView> {
    Seq::new(outgoing.len(), |s: int| masquerade(outgoing[s]))
}

/// The NAT table of the given pools.
pub open spec fn nat_table(outgoing: Seq<Seq<char>>, all: Seq<Seq<char>>) -> NftTableView {
    NftTableView {
        family: "ip"@,
        name: TABLE@,
        sets: Seq::empty(),
        chains: seq![
            NftChainView {
                name: "cali-postrouting"@,
                base: Some(
                    BaseHookView {
                        chain_type: ChainType::Nat,
                        hook: "postrouting"@,
                        priority: SRCNAT_PRIORITY,
                        policy_accept: true,
                    },
                ),
                rules: exemptions(outgoing, all) + masquerades(outgoing),
            },
        ],
    }
}

/// The NAT table, from the pools with outgoing NAT and from all pools.
pub fn build_nat_table(nat_out_pools: &[String], all_pools: &[String]) -> (r: NftTable)
    ensures
        r.deep_view() == nat_table(nat_out_pools.deep_view(), all_pools.deep_view()),
{
    let ghost nv = nat_out_pools.deep_view();
    let ghost av = all_pools.deep_view();
    let ghost blocks = Seq::new(nv.len(), |s: int| exempt_row(nv[s], av));
    let mut rules: Vec<NftRule> = Vec::new();
    assert(rules.deep_view() =~= Seq::<NftRuleView>::empty());
    for s in 0..nat_out_pools.len()
        invariant
            nv == nat_out_pools.deep_view(),
            av == all_pools.deep_view(),
            blocks == Seq::new(nv.len(), |s: int| exempt_row(nv[s], av)),
            rules.deep_view() == concat_first(blocks, s as nat),
    {
        let ghost start = rules.deep_view();
        let ghost row = exempt_row(nv[s as int], av);
        assert(start + row.take(0) =~= start);
        for d in 0..all_pools.len()
            invariant
                s < nat_out_pools.len(),
                nv == nat_out_pools.deep_view(),
                av == all_pools.deep_view(),
                row == exempt_row(nv[s as int], av),
                rules.deep_view() == start + row.take(d as int),
        {
            let rule = NftRule::new(Verdict::Return).with(
                NftMatch::SrcAddr(nat_out_pools[s].clone()),
            ).with(NftMatch::DestAddr(all_pools[d].clone()));
            assert(rule.deep_view().matches =~= exempt(nv[s as int], av[d as int]).matches);
            push_item(&mut rules, rule);
            assert(rules.deep_view() =~= start + row.take(d + 1));
        }
        assert(row.take(row.len() as int) =~= row);
    }
    let ghost start = rules.deep_view();
    let ghost row = masquerades(nv);
    assert(start + row.take(0) =~= start);
    for s in 0..nat_out_pools.len()
        invariant
            nv == nat_out_pools.deep_view(),
            row == masquerades(nv),
            rules.deep_view() == start + row.take(s as int),
    {
        let rule = NftRule::new(Verdict::Masquerade).with(
            NftMatch::SrcAddr(nat_out_pools[s].clone()),
        ).comment("cali-nat-outgoing");
        assert(rule.deep_view().matches =~= masquerade(nv[s as int]).matches);
        push_item(&mut rules, rule);
        assert(rules.deep_view() =~= start + row.take(s + 1));
    }
    assert(row.take(row.len() as int) =~= row);
    let hook = BaseHook {
        chain_type: ChainType::Nat,
        hook: "postrouting".to_owned(),
        priority: SRCNAT_PRIORITY,
        policy_accept: true,
    };
    let postrouting = NftChain::base("cali-postrouting", hook, rules);
    let mut chains: Vec<NftChain> = Vec::new();
    push_item(&mut chains, postrouting);
    let ghost cv = chains.deep_view();
    assert(cv =~= nat_table(nv, av).chains);
    NftTable::new("ip", TABLE, chains)
}

/// Whether a pool counts: it is in use and has an IPv4 block.
pub open spec fn counts(pool: PoolFields) -> bool {
    pool.enabled() && pool.cidr is Some && !pool.cidr->0@.contains(':')
}

/// The blocks of those of the first `n` pools that count.
pub open spec fn all_first(pools: Seq<PoolFields>, n: nat) -> Seq<Seq<char>>
    decreases n,
{
    if n == 0 {
        Seq::empty()
    } else {
        let head = all_first(pools, (n - 1) as nat);
        let p = pools[n - 1];
        if counts(p) {
            head.push(p.cidr->0@)
        } else {
            head
        }
    }
}

/// The blocks of those of the first `n` pools that count and have outgoing NAT.
pub open spec fn nat_first(pools: Seq<PoolFields>, n: nat) -> Seq<Seq<char>>
    decreases n,
{
    if n == 0 {
        Seq::empty()
    } else {
        let head = nat_first(pools, (n - 1) as nat);
        let p = pools[n - 1];
        if counts(p) && p.nat_outgoing == Some(true) {
            head.push(p.cidr->0@)
        } else {
            head
        }
    }
}

/// The document of the NAT table that the pools call for.
pub fn desired_doc(pools: &Vec<PoolFields>) -> (r: String)
    ensures
        r@ == doc_of(
            nat_table(nat_first(pools@, pools@.len()), all_first(pools@, pools@.len())).lines(),
        ),
{
    let mut all: Vec<String> = Vec::new();
    let mut outgoing: Vec<String> = Vec::new();
    for i in 0..pools.len()
        invariant
            views(all@) == all_first(pools@, i as nat),
            views(outgoing@) == nat_first(pools@, i as nat),
    {
        let p = &pools[i];
        if p.is_enabled() {
            if let Some(cidr) = &p.cidr {
                if !contains_char(cidr.as_str(), ':') {
                    all.push(cidr.clone());
                    if let Some(out) = p.nat_outgoing {
                        if out {
                            outgoing.push(cidr.clone());
                        }
                    }
                }
            }
        }
    }
    let from = outgoing.as_slice();
    let to = all.as_slice();
    assert(from.deep_view() =~= views(outgoing@));
    assert(to.deep_view() =~= views(all@));
    build_nat_table(from, to).render()
}

/// The document that was applied last. Applying the same one again would cut established
/// connections, so it is applied only where it differs.
pub struct NatState {
    /// The document.
    pub applied: Option<String>,
}

impl NatState {
    /// Nothing has been applied.
    pub fn new() -> (r: Self)
        ensures
            r.applied is None,
    {
        NatState { applied: None }
    }

    /// Whether the document has to be applied.
    pub fn due(&self, doc: &str) -> (r: bool)
        ensures
            r == (self.applied.deep_view() != Some(doc@)),
    {
        match &self.applied {
            Some(a) => !crate::text::str_eq(a.as_str(), doc),
            None => true,
        }
    }

    /// Takes in what became of applying the document: one that failed is tried again.
    pub fn record(&mut self, doc: String, outcome: &Result<(), String>)
        ensures
            final(self).applied == if outcome is Ok {
                Some(doc)
            } else {
                old(self).applied
            },
    {
        if outcome.is_ok() {
            self.applied = Some(doc);
        }
    }
}

/// Traffic from a pool with outgoing NAT to any pool is exempt, and every exemption stands
/// before every masquerading rule; only pools with outgoing NAT are masqueraded.
pub proof fn law_pod_traffic_is_exempt(outgoing: Seq<Seq<char>>, all: Seq<Seq<char>>)
    ensures
        ({
            let rules = nat_table(outgoing, all).chains[0].rules;
            let n = exemptions(outgoing, all).len();
            &&& n <= rules.len()
            &&& forall|s: int, d: int|
                #![trigger outgoing[s], all[d]]
                0 <= s < outgoing.len() && 0 <= d < all.len() ==> rules.take(n as int).contains(
                    exempt(outgoing[s], all[d]),
                )
            &&& forall|i: int|
                0 <= i < n ==> (#[trigger] rules[i]).verdict == VerdictView::Return
            &&& forall|i: int|
                n <= i < rules.len() ==> #[trigger] rules[i] == masquerade(outgoing[i - n])
            &&& rules.len() == n + outgoing.len()
        }),
{
    let rules = nat_table(outgoing, all).chains[0].rules;
    let blocks = Seq::new(outgoing.len(), |s: int| exempt_row(outgoing[s], all));
    let part = exemptions(outgoing, all);
    let n = part.len();
    assert(rules.take(n as int) =~= part);
    assert forall|s: int, d: int|
        #![trigger outgoing[s], all[d]]
        0 <= s < outgoing.len() && 0 <= d < all.len() implies rules.take(n as int).contains(
        exempt(outgoing[s], all[d]),
    ) by {
        assert(blocks[s][d] == exempt(outgoing[s], all[d]));
        lemma_concat_contains(blocks, blocks.len(), s, exempt(outgoing[s], all[d]));
    }
    let is_return = |r: NftRuleView| r.verdict == VerdictView::Return;
    assert forall|i: int, j: int| 0 <= i < blocks.len() && 0 <= j < blocks[i].len() implies is_return(
        #[trigger] blocks[i][j],
    ) by {}
    lemma_concat_all(blocks, blocks.len(), is_return);
    assert forall|i: int| 0 <= i < n implies (#[trigger] rules[i]).verdict
        == VerdictView::Return by {
        assert(rules[i] == part[i]);
        assert(is_return(concat_all(blocks)[i]));
    }
}

/// Whether a packet's source is in one of the pools.
pub open spec fn comes_from(
    packet: spec_fn(NftMatchView) -> bool,
    pools: Seq<Seq<char>>,
) -> bool {
    exists|i: int| 0 <= i < pools.len() && packet(NftMatchView::SrcAddr(#[trigger] pools[i]))
}

/// Whether a packet's destination is in one of the pools.
pub open spec fn goes_to(packet: spec_fn(NftMatchView) -> bool, pools: Seq<Seq<char>>) -> bool {
    exists|i: int| 0 <= i < pools.len() && packet(NftMatchView::DestAddr(#[trigger] pools[i]))
}

/// A packet is masqueraded exactly where it comes from a pool with outgoing NAT and leaves
/// all pools. Everything else passes unchanged.
pub proof fn law_only_leaving_traffic_is_masqueraded(
    outgoing: Seq<Seq<char>>,
    all: Seq<Seq<char>>,
    packet: spec_fn(NftMatchView) -> bool,
    mark: bool,
    depth: nat,
)
    ensures
        walk(
            Map::empty(),
            nat_table(outgoing, all).chains[0].rules,
            packet,
            mark,
            depth,
        ).end == if comes_from(packet, outgoing) && !goes_to(packet, all) {
            End::Masqueraded
        } else {
            End::Passed
        },
{
    let chains = Map::<Seq<char>, NftChainView>::empty();
    let rows = Seq::new(outgoing.len(), |s: int| exempt_row(outgoing[s], all));
    let head = exemptions(outgoing, all);
    let tail = masquerades(outgoing);
    let is_return = |r: NftRuleView| r.verdict == VerdictView::Return;
    assert forall|i: int, j: int| 0 <= i < rows.len() && 0 <= j < rows[i].len() implies is_return(
        #[trigger] rows[i][j],
    ) by {}
    lemma_concat_all(rows, rows.len(), is_return);
    assert forall|i: int| 0 <= i < head.len() implies (#[trigger] head[i]).verdict
        == VerdictView::Return by {
        assert(is_return(concat_all(rows)[i]));
    }
    lemma_walk_block(chains, head, tail, packet, mark, depth, VerdictView::Return);
    lemma_walk_block(chains, tail, Seq::empty(), packet, mark, depth, VerdictView::Masquerade);
    assert(tail + Seq::<NftRuleView>::empty() =~= tail);
    lemma_any_concat(packet, mark, rows, rows.len());
    assert forall|s: int, d: int|
        0 <= s < outgoing.len() && 0 <= d < all.len() implies applies(
        packet,
        mark,
        #[trigger] exempt(outgoing[s], all[d]),
    ) == (packet(NftMatchView::SrcAddr(outgoing[s])) && packet(NftMatchView::DestAddr(all[d]))) by {
        let m = exempt(outgoing[s], all[d]).matches;
        assert(holds(packet, mark, m[0]) == packet(NftMatchView::SrcAddr(outgoing[s])));
        assert(holds(packet, mark, m[1]) == packet(NftMatchView::DestAddr(all[d])));
    }
    assert forall|s: int| 0 <= s < outgoing.len() implies applies(
        packet,
        mark,
        #[trigger] tail[s],
    ) == packet(NftMatchView::SrcAddr(outgoing[s])) by {
        let m = tail[s].matches;
        assert(holds(packet, mark, m[0]) == packet(NftMatchView::SrcAddr(outgoing[s])));
    }
    assert(any_applies(packet, mark, tail) == comes_from(packet, outgoing)) by {
        if any_applies(packet, mark, tail) {
            let s = choose|s: int| 0 <= s < tail.len() && applies(packet, mark, #[trigger] tail[s]);
            assert(packet(NftMatchView::SrcAddr(outgoing[s])));
        }
        if comes_from(packet, outgoing) {
            let s = choose|s: int|
                0 <= s < outgoing.len() && packet(NftMatchView::SrcAddr(#[trigger] outgoing[s]));
            assert(applies(packet, mark, tail[s]));
        }
    }
    assert(any_applies(packet, mark, head) == (comes_from(packet, outgoing) && goes_to(
        packet,
        all,
    ))) by {
        if any_applies(packet, mark, head) {
            let s = choose|s: int|
                0 <= s < rows.len() && any_applies(packet, mark, #[trigger] rows[s]);
            let d = choose|d: int|
                0 <= d < rows[s].len() && applies(packet, mark, #[trigger] rows[s][d]);
            assert(rows[s][d] == exempt(outgoing[s], all[d]));
            assert(packet(NftMatchView::SrcAddr(outgoing[s])));
            assert(packet(NftMatchView::DestAddr(all[d])));
        }
        if comes_from(packet, outgoing) && goes_to(packet, all) {
            let s = choose|s: int|
                0 <= s < outgoing.len() && packet(NftMatchView::SrcAddr(#[trigger] outgoing[s]));
            let d = choose|d: int|
                0 <= d < all.len() && packet(NftMatchView::DestAddr(#[trigger] all[d]));
            assert(rows[s][d] == exempt(outgoing[s], all[d]));
            assert(applies(packet, mark, rows[s][d]));
            assert(any_applies(packet, mark, rows[s]));
        }
    }
}

/// Whether a pool is in use, for addresses of this family.
pub open spec fn is_in_use(p: PoolFields) -> bool {
    &&& p.disabled is None || !p.disabled->0
    &&& p.cidr is Some
    &&& !p.cidr->0@.contains(':')
}

/// The blocks of the pools in use among the first `n`.
proof fn lemma_pools_listed(pools: Seq<PoolFields>, n: nat, block: Seq<char>)
    requires
        n <= pools.len(),
    ensures
        all_first(pools, n).contains(block) <==> exists|i: int|
            0 <= i < n && is_in_use(#[trigger] pools[i]) && pools[i].cidr->0@ == block,
        nat_first(pools, n).contains(block) <==> exists|i: int|
            0 <= i < n && is_in_use(#[trigger] pools[i]) && pools[i].cidr->0@ == block
                && pools[i].nat_outgoing == Some(true),
    decreases n,
{
    if n > 0 {
        let m = (n - 1) as nat;
        lemma_pools_listed(pools, m, block);
        let p = pools[m as int];
        let a = all_first(pools, m);
        let b = all_first(pools, n);
        let c = nat_first(pools, m);
        let d = nat_first(pools, n);
        assert(counts(p) == is_in_use(p));
        if b.contains(block) {
            let i = b.index_of(block);
            if i < a.len() {
                assert(a[i] == block);
                assert(a.contains(block));
            } else {
                assert(is_in_use(pools[m as int]));
            }
        }
        if d.contains(block) {
            let i = d.index_of(block);
            if i < c.len() {
                assert(c[i] == block);
                assert(c.contains(block));
            } else {
                assert(is_in_use(pools[m as int]));
            }
        }
        if a.contains(block) {
            assert(b[a.index_of(block)] == block);
        }
        if c.contains(block) {
            assert(d[c.index_of(block)] == block);
        }
        if is_in_use(p) && p.cidr->0@ == block {
            assert(b[a.len() as int] == block);
            if p.nat_outgoing == Some(true) {
                assert(d[c.len() as int] == block);
            }
        }
    }
}

/// Whether a packet comes from a pool in use that has outgoing NAT.
pub open spec fn comes_from_nat_pool(
    packet: spec_fn(NftMatchView) -> bool,
    pools: Seq<PoolFields>,
) -> bool {
    exists|i: int|
        0 <= i < pools.len() && is_in_use(#[trigger] pools[i]) && pools[i].nat_outgoing == Some(
            true,
        ) && packet(NftMatchView::SrcAddr(pools[i].cidr->0@))
}

/// Whether a packet goes to a pool in use.
pub open spec fn goes_to_pool(
    packet: spec_fn(NftMatchView) -> bool,
    pools: Seq<PoolFields>,
) -> bool {
    exists|i: int|
        0 <= i < pools.len() && is_in_use(#[trigger] pools[i]) && packet(
            NftMatchView::DestAddr(pools[i].cidr->0@),
        )
}

/// Of the pools that there are, a packet is masqueraded exactly where it comes from one in
/// use that has outgoing NAT and goes to none in use, with or without NAT. The table does
/// that behind routing, where a source address may still be rewritten.
pub proof fn law_pools_decide_masquerading(
    pools: Seq<PoolFields>,
    packet: spec_fn(NftMatchView) -> bool,
    mark: bool,
    depth: nat,
)
    ensures
        ({
            let t = nat_table(nat_first(pools, pools.len()), all_first(pools, pools.len()));
            &&& t.family == "ip"@
            &&& t.chains.len() == 1
            &&& t.chains[0].base is Some
            &&& t.chains[0].base->0.chain_type == ChainType::Nat
            &&& t.chains[0].base->0.hook == "postrouting"@
            &&& t.chains[0].base->0.policy_accept
            &&& walk(Map::empty(), t.chains[0].rules, packet, mark, depth).end == if
            comes_from_nat_pool(packet, pools) && !goes_to_pool(packet, pools) {
                End::Masqueraded
            } else {
                End::Passed
            }
        }),
{
    let outgoing = nat_first(pools, pools.len());
    let all = all_first(pools, pools.len());
    law_only_leaving_traffic_is_masqueraded(outgoing, all, packet, mark, depth);
    if comes_from(packet, outgoing) {
        let i = choose|i: int|
            0 <= i < outgoing.len() && packet(NftMatchView::SrcAddr(#[trigger] outgoing[i]));
        assert(outgoing.contains(outgoing[i]));
        lemma_pools_listed(pools, pools.len(), outgoing[i]);
    }
    if comes_from_nat_pool(packet, pools) {
        let i = choose|i: int|
            0 <= i < pools.len() && is_in_use(#[trigger] pools[i]) && pools[i].nat_outgoing == Some(
                true,
            ) && packet(NftMatchView::SrcAddr(pools[i].cidr->0@));
        let block = pools[i].cidr->0@;
        lemma_pools_listed(pools, pools.len(), block);
        assert(outgoing.contains(block));
        assert(outgoing[outgoing.index_of(block)] == block);
    }
    if goes_to(packet, all) {
        let i = choose|i: int| 0 <= i < all.len() && packet(NftMatchView::DestAddr(#[trigger] all[i]));
        assert(all.contains(all[i]));
        lemma_pools_listed(pools, pools.len(), all[i]);
    }
    if goes_to_pool(packet, pools) {
        let i = choose|i: int|
            0 <= i < pools.len() && is_in_use(#[trigger] pools[i]) && packet(
                NftMatchView::DestAddr(pools[i].cidr->0@),
            );
        let block = pools[i].cidr->0@;
        lemma_pools_listed(pools, pools.len(), block);
        assert(all.contains(block));
        assert(all[all.index_of(block)] == block);
    }
}

} // verus!
