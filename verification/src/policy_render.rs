//! The chains of a namespace's ingress policies.
//!
//! Every policy has a chain that ends in a drop, and a base chain jumps to each of them in
//! order. A rule that names address blocks matches them; one that selects endpoints matches
//! a named set of their addresses.

use crate::delta::StrSet;
use crate::nft::{
    plain_rule, BaseHook, BaseHookView, ChainType, NftChain, NftChainView, NftMatch, NftMatchView,
    NftRule, NftRuleView, NftSet, NftSetView, NftTable, NftTableView, Verdict, VerdictView,
};
use crate::ordmap::{
    deep_map, enumerates, in_order, lemma_keys_in_order, lemma_order_with, Labels, OrdMap,
};
use crate::resources::{
    Action, NetworkPolicySpec, NetworkPolicySpecView, Protocol, ProtocolView, Rule, RuleView,
};
use crate::seqs::{append_items, concat_all, concat_first, lemma_concat_all, push_item};
use crate::text::{
    decimal, decimal_text, lemma_decimal_reads_back, trim, trim_spec, lowercase, views,
};
use crate::traversal::{
    any_applies, applies, holds, lemma_any_concat, lemma_concat_shift, lemma_walk_block, walk, End,
    Walk,
};
use vstd::prelude::*;

verus! {

broadcast use {
    crate::text::lemma_views_push,
    crate::ordmap::lemma_deep_insert,
};

/// What is known of an endpoint.
#[derive(Debug)]
pub struct Endpoint {
    /// Its labels.
    pub labels: Labels,
    /// Its address.
    pub ip: String,
}

/// For each selector, which endpoints it selects, by position; none for a selector that
/// cannot be read.
pub type Evaluations = OrdMap<String, Option<Vec<bool>>>;

/// What an action becomes.
pub open spec fn verdict_of(a: Action) -> Option<VerdictView> {
    match a {
        Action::Allow => Some(VerdictView::Accept),
        Action::Deny => Some(VerdictView::Drop),
        Action::Pass => Some(VerdictView::Return),
        Action::Log => None,
    }
}

/// What an action becomes; a log has no verdict.
pub fn map_verdict(a: Action) -> (r: Option<Verdict>)
    ensures
        r.deep_view() == verdict_of(a),
{
    match a {
        Action::Allow => Some(Verdict::Accept),
        Action::Deny => Some(Verdict::Drop),
        Action::Pass => Some(Verdict::Return),
        Action::Log => None,
    }
}

/// The protocol of a rule as conditions name it: a name in lower case, or a number in
/// decimal.
pub open spec fn protocol_name(rule: RuleView) -> Option<Seq<char>> {
    match rule.protocol {
        Some(ProtocolView::Named(s)) => Some(lowercase(s)),
        Some(ProtocolView::Number(n)) => Some(decimal(n as nat)),
        None => None,
    }
}

/// The condition on the protocol.
pub open spec fn protocol_match(rule: RuleView) -> Seq<NftMatchView> {
    match protocol_name(rule) {
        Some(s) => seq![NftMatchView::L4Proto(s)],
        None => Seq::empty(),
    }
}

/// The protocol of a rule as conditions name it.
pub fn proto_of(rule: &Rule) -> (r: Option<String>)
    ensures
        r.deep_view() == protocol_name(rule.deep_view()),
{
    match &rule.protocol {
        Some(Protocol::Named(s)) => Some(s.as_str().to_lowercase()),
        Some(Protocol::Number(n)) => Some(decimal_text(*n as u64)),
        None => None,
    }
}

/// The alternatives for the destination port; no condition where the rule names none.
pub open spec fn port_choices(rule: RuleView) -> Seq<Option<u16>> {
    if rule.destination.ports.len() == 0 {
        seq![None]
    } else {
        Seq::new(rule.destination.ports.len(), |i: int| Some(rule.destination.ports[i]))
    }
}

/// The alternatives for the destination port.
pub fn port_opts(rule: &Rule) -> (r: Vec<Option<u16>>)
    ensures
        r@ == port_choices(rule.deep_view()),
{
    let ghost want = port_choices(rule.deep_view());
    let mut out: Vec<Option<u16>> = Vec::new();
    if rule.destination.ports.len() == 0 {
        out.push(None);
        assert(out@ =~= want);
        return out;
    }
    for i in 0..rule.destination.ports.len()
        invariant
            rule.destination.ports@.len() > 0,
            want == port_choices(rule.deep_view()),
            out@ == want.take(i as int),
    {
        out.push(Some(rule.destination.ports[i]));
        assert(out@ =~= want.take(i + 1));
    }
    assert(out@ =~= want);
    out
}

/// The alternatives for the source block; no condition where the rule names none.
pub open spec fn net_choices(rule: RuleView) -> Seq<Option<Seq<char>>> {
    if rule.source.nets.len() == 0 {
        seq![None]
    } else {
        Seq::new(rule.source.nets.len(), |i: int| Some(rule.source.nets[i]))
    }
}

/// The condition on the destination port.
pub open spec fn port_match(port: Option<u16>) -> Seq<NftMatchView> {
    match port {
        Some(p) => seq![NftMatchView::DestPort(p)],
        None => Seq::empty(),
    }
}

/// The rule with the given condition on the source and the given port.
pub open spec fn one_rule(
    rule: RuleView,
    verdict: VerdictView,
    source: Seq<NftMatchView>,
    port: Option<u16>,
) -> NftRuleView {
    NftRuleView {
        matches: protocol_match(rule) + source + port_match(port),
        verdict,
        comment: None,
    }
}

/// The rules with the given condition on the source, one for each port.
pub open spec fn source_rules(rule: RuleView, verdict: VerdictView, source: Seq<NftMatchView>) -> Seq<
    NftRuleView,
> {
    let ports = port_choices(rule);
    Seq::new(ports.len(), |j: int| one_rule(rule, verdict, source, ports[j]))
}

/// The condition on the source block.
pub open spec fn net_match(net: Option<Seq<char>>) -> Seq<NftMatchView> {
    match net {
        Some(n) => seq![NftMatchView::SrcAddr(n)],
        None => Seq::empty(),
    }
}

/// The rules that a rule becomes without named sets: one for each source block and each
/// port; none where it has no verdict, or selects its sources without naming blocks.
pub open spec fn ingress_rules(rule: RuleView) -> Seq<NftRuleView> {
    match verdict_of(rule.action) {
        None => Seq::empty(),
        Some(verdict) => if rule.source.selector is Some && rule.source.nets.len() == 0 {
            Seq::empty()
        } else {
            let nets = net_choices(rule);
            concat_all(
                Seq::new(nets.len(), |i: int| source_rules(rule, verdict, net_match(nets[i]))),
            )
        },
    }
}

/// Appends the rules with the given condition on the source, one for each port.
fn push_source_rules(
    out: &mut Vec<NftRule>,
    rule: &Rule,
    verdict: &Verdict,
    source: &Option<NftMatch>,
)
    ensures
        final(out).deep_view() == old(out).deep_view() + source_rules(
            rule.deep_view(),
            verdict.deep_view(),
            match source.deep_view() {
                Some(m) => seq![m],
                None => Seq::empty(),
            },
        ),
{
    let ghost rv = rule.deep_view();
    let ghost sv: Seq<NftMatchView> = match source.deep_view() {
        Some(m) => seq![m],
        None => Seq::empty(),
    };
    let ghost row = source_rules(rv, verdict.deep_view(), sv);
    let ghost start = out.deep_view();
    assert(start + row.take(0) =~= start);
    let proto = proto_of(rule);
    let ports = port_opts(rule);
    for j in 0..ports.len()
        invariant
            rv == rule.deep_view(),
            ports@ == port_choices(rv),
            proto.deep_view() == protocol_name(rv),
            sv == (match source.deep_view() {
                Some(m) => seq![m],
                None => Seq::empty(),
            }),
            row == source_rules(rv, verdict.deep_view(), sv),
            out.deep_view() == start + row.take(j as int),
    {
        let mut matches: Vec<NftMatch> = Vec::new();
        if let Some(p) = &proto {
            matches.push(NftMatch::L4Proto(p.clone()));
        }
        if let Some(m) = source {
            matches.push(m.clone());
        }
        if let Some(p) = ports[j] {
            matches.push(NftMatch::DestPort(p));
        }
        let r = NftRule { matches, verdict: verdict.clone(), comment: None };
        assert(r.deep_view().matches =~= row[j as int].matches);
        push_item(out, r);
        assert(out.deep_view() =~= start + row.take(j + 1));
    }
    assert(row.take(row.len() as int) =~= row);
}

/// The rules that a rule becomes without named sets.
pub fn render_ingress_rule(rule: &Rule) -> (r: Vec<NftRule>)
    ensures
        r.deep_view() == ingress_rules(rule.deep_view()),
{
    let ghost rv = rule.deep_view();
    let mut out: Vec<NftRule> = Vec::new();
    assert(out.deep_view() =~= Seq::<NftRuleView>::empty());
    let verdict = match map_verdict(rule.action) {
        Some(v) => v,
        None => return out,
    };
    if rule.source.selector.is_some() && rule.source.nets.len() == 0 {
        return out;
    }
    let ghost nets = net_choices(rv);
    let ghost blocks = Seq::new(
        nets.len(),
        |i: int| source_rules(rv, verdict.deep_view(), net_match(nets[i])),
    );
    if rule.source.nets.len() == 0 {
        push_source_rules(&mut out, rule, &verdict, &None);
        assert(concat_first(blocks, 0) + blocks[0] =~= blocks[0]);
        assert(concat_first(blocks, 1) == concat_first(blocks, 0) + blocks[0]);
        assert(out.deep_view() =~= concat_all(blocks));
        return out;
    }
    for i in 0..rule.source.nets.len()
        invariant
            rv == rule.deep_view(),
            nets == net_choices(rv),
            rv.source.nets.len() > 0,
            blocks == Seq::new(
                nets.len(),
                |i: int| source_rules(rv, verdict.deep_view(), net_match(nets[i])),
            ),
            out.deep_view() == concat_first(blocks, i as nat),
    {
        let m = Some(NftMatch::SrcAddr(rule.source.nets[i].clone()));
        assert(nets[i as int] == Some(rule.source.nets@[i as int]@));
        push_source_rules(&mut out, rule, &verdict, &m);
        assert(out.deep_view() =~= concat_first(blocks, (i + 1) as nat));
    }
    out
}

/// The name of a policy's chain.
pub open spec fn chain_name(policy: Seq<char>) -> Seq<char> {
    "cali-pi-"@ + policy
}

/// The name of a policy's chain.
fn policy_chain(policy: &str) -> (r: String)
    ensures
        r@ == chain_name(policy@),
{
    let mut s = "cali-pi-".to_owned();
    s.push_str(policy);
    s
}

/// The last rule of every policy's chain.
pub open spec fn default_deny() -> NftRuleView {
    NftRuleView { comment: Some("end-of-policy default deny"@), ..plain_rule(VerdictView::Drop) }
}

/// The base chain: a jump to each policy's chain, in order.
pub open spec fn base_chain(policies: Seq<(Seq<char>, NetworkPolicySpecView)>) -> NftChainView {
    NftChainView {
        name: "cali-input"@,
        base: Some(
            BaseHookView {
                chain_type: ChainType::Filter,
                hook: "input"@,
                priority: 0,
                policy_accept: true,
            },
        ),
        rules: Seq::new(
            policies.len(),
            |i: int| plain_rule(VerdictView::Jump(chain_name(policies[i].0))),
        ),
    }
}

/// The base chain.
fn build_base_chain(policies: &Vec<(String, NetworkPolicySpec)>) -> (r: NftChain)
    ensures
        r.deep_view() == base_chain(policies.deep_view()),
{
    let ghost want = base_chain(policies.deep_view()).rules;
    let mut rules: Vec<NftRule> = Vec::new();
    assert(rules.deep_view() =~= want.take(0));
    for i in 0..policies.len()
        invariant
            want == base_chain(policies.deep_view()).rules,
            rules.deep_view() == want.take(i as int),
    {
        assert(policies.deep_view()[i as int].0 == policies@[i as int].0@);
        push_item(
            &mut rules,
            NftRule::new(Verdict::Jump(policy_chain(policies[i].0.as_str()))),
        );
        assert(rules.deep_view() =~= want.take(i + 1));
    }
    assert(want.take(want.len() as int) =~= want);
    let hook = BaseHook {
        chain_type: ChainType::Filter,
        hook: "input".to_owned(),
        priority: 0,
        policy_accept: true,
    };
    NftChain::base("cali-input", hook, rules)
}

/// The rules of a policy's chain without named sets.
pub open spec fn policy_rules(spec: NetworkPolicySpecView) -> Seq<NftRuleView> {
    concat_all(Seq::new(spec.ingress.len(), |i: int| ingress_rules(spec.ingress[i]))).push(
        default_deny(),
    )
}

/// The table of ingress policies without named sets.
pub open spec fn ingress_table(
    family: Seq<char>,
    table: Seq<char>,
    policies: Seq<(Seq<char>, NetworkPolicySpecView)>,
) -> NftTableView {
    NftTableView {
        family,
        name: table,
        sets: Seq::empty(),
        chains: seq![base_chain(policies)] + Seq::new(
            policies.len(),
            |i: int|
                NftChainView {
                    name: chain_name(policies[i].0),
                    base: None,
                    rules: policy_rules(policies[i].1),
                },
        ),
    }
}

/// The table of ingress policies: a base chain that jumps to each policy's chain, and one
/// chain for each policy, which ends in a drop.
pub fn render_ingress_policies(
    family: &str,
    table: &str,
    policies: &Vec<(String, NetworkPolicySpec)>,
) -> (r: NftTable)
    ensures
        r.deep_view() == ingress_table(family@, table@, policies.deep_view()),
{
    let ghost pv = policies.deep_view();
    let ghost want = ingress_table(family@, table@, pv).chains;
    let mut chains: Vec<NftChain> = Vec::new();
    push_item(&mut chains, build_base_chain(policies));
    assert(chains.deep_view() =~= want.take(1));
    for i in 0..policies.len()
        invariant
            pv == policies.deep_view(),
            want == ingress_table(family@, table@, pv).chains,
            chains.deep_view() == want.take(i + 1),
    {
        let (name, spec) = &policies[i];
        assert(pv[i as int] == (name@, spec.deep_view()));
        let ghost sv = spec.deep_view();
        let ghost blocks = Seq::new(sv.ingress.len(), |k: int| ingress_rules(sv.ingress[k]));
        let mut rules: Vec<NftRule> = Vec::new();
        assert(rules.deep_view() =~= Seq::<NftRuleView>::empty());
        for k in 0..spec.ingress.len()
            invariant
                sv == spec.deep_view(),
                blocks == Seq::new(sv.ingress.len(), |k: int| ingress_rules(sv.ingress[k])),
                rules.deep_view() == concat_first(blocks, k as nat),
        {
            let mut more = render_ingress_rule(&spec.ingress[k]);
            append_items(&mut rules, &mut more);
        }
        push_item(&mut rules, NftRule::new(Verdict::Drop).comment("end-of-policy default deny"));
        assert(rules.deep_view() =~= policy_rules(sv));
        let name = policy_chain(name.as_str());
        push_item(&mut chains, NftChain::regular(name.as_str(), rules));
        assert(chains.deep_view() =~= want.take(i + 2));
    }
    assert(want.take(want.len() as int) =~= want);
    NftTable::new(family, table, chains)
}

/// The policies of a list, up to the first whose specification could not be read.
pub open spec fn read_first(items: Seq<(String, Result<NetworkPolicySpec, String>)>, n: nat) -> Result<
    Seq<(Seq<char>, NetworkPolicySpecView)>,
    Seq<char>,
>
    decreases n,
{
    if n == 0 {
        Ok(Seq::empty())
    } else {
        match read_first(items, (n - 1) as nat) {
            Err(e) => Err(e),
            Ok(head) => match items[n - 1].1 {
                Ok(spec) => Ok(head.push((items[n - 1].0@, spec.deep_view()))),
                Err(e) => Err("bad NetworkPolicy spec: "@ + e@),
            },
        }
    }
}

/// What is wrong with one item is wrong with the list.
proof fn lemma_read_fails(items: Seq<(String, Result<NetworkPolicySpec, String>)>, k: nat, n: nat)
    requires
        k <= n,
        read_first(items, k) is Err,
    ensures
        read_first(items, n) == read_first(items, k),
    decreases n,
{
    if k < n {
        lemma_read_fails(items, k, (n - 1) as nat);
    }
}

/// The table of the listed ingress policies of a namespace, each with its specification as
/// far as it could be read. The first one that could not be read is the error.
pub fn build_ingress_policy_table(
    items: Vec<(String, Result<NetworkPolicySpec, String>)>,
    table: &str,
) -> (r: Result<NftTable, String>)
    ensures
        match read_first(items@, items@.len()) {
            Ok(policies) => r matches Ok(t) && t.deep_view() == ingress_table(
                "inet"@,
                table@,
                policies,
            ),
            Err(e) => r matches Err(out) && out@ == e,
        },
{
    let ghost all = items@;
    let mut policies: Vec<(String, NetworkPolicySpec)> = Vec::new();
    assert(policies.deep_view() =~= Seq::<(Seq<char>, NetworkPolicySpecView)>::empty());
    for item in it: items
        invariant
            it.seq() == all,
            read_first(all, it.index() as nat) == Ok::<_, Seq<char>>(policies.deep_view()),
    {
        let ghost k = it.index();
        assert(item == all[k]);
        let (name, spec) = item;
        match spec {
            Ok(spec) => {
                push_item(&mut policies, (name, spec));
            },
            Err(e) => {
                let mut out = "bad NetworkPolicy spec: ".to_owned();
                out.push_str(e.as_str());
                proof {
                    lemma_read_fails(all, (k + 1) as nat, all.len());
                }
                return Err(out);
            },
        }
    }
    Ok(render_ingress_policies("inet", table, &policies))
}

/// The addresses of the endpoints that are selected.
pub open spec fn selected(endpoints: Seq<Endpoint>, hits: Seq<bool>) -> Set<Seq<char>> {
    Set::new(
        |ip: Seq<char>|
            exists|i: int|
                0 <= i < endpoints.len() && i < hits.len() && hits[i] && (#[trigger] endpoints[i]).ip@
                    == ip,
    )
}

/// What a [`SetResolver`] knows.
#[verifier::ext_equal]
pub struct ResolverView {
    /// The name of the set of each selector.
    pub by_selector: Map<Seq<char>, Seq<char>>,
    /// The sets.
    pub sets: Seq<NftSetView>,
}

/// The name of the set with the given number.
pub open spec fn set_name(n: nat) -> Seq<char> {
    "cali-s-"@ + decimal(n)
}

impl ResolverView {
    /// What is known after a selector has been asked for. One that was asked for before, or
    /// that cannot be read, changes nothing.
    pub open spec fn after(
        self,
        endpoints: Seq<Endpoint>,
        selector: Seq<char>,
        hits: Option<Seq<bool>>,
    ) -> ResolverView {
        if self.by_selector.dom().contains(selector) || hits is None {
            self
        } else {
            let name = set_name(self.sets.len());
            ResolverView {
                by_selector: self.by_selector.insert(selector, name),
                sets: self.sets.push(
                    NftSetView {
                        name,
                        elements: in_order::<String>(selected(endpoints, hits->0)),
                    },
                ),
            }
        }
    }

    /// The name of a selector's set, once it is known.
    pub open spec fn name_of(self, selector: Seq<char>) -> Option<Seq<char>> {
        if self.by_selector.dom().contains(selector) {
            Some(self.by_selector[selector])
        } else {
            None
        }
    }

    /// Every set has the name of its position, and every name is that of a set.
    pub open spec fn consistent(self) -> bool {
        &&& forall|i: int| 0 <= i < self.sets.len() ==> (#[trigger] self.sets[i]).name == set_name(
            i as nat,
        )
        &&& forall|s: Seq<char>| #[trigger]
            self.by_selector.dom().contains(s) ==> exists|i: int|
                0 <= i < self.sets.len() && (#[trigger] self.sets[i]).name == self.by_selector[s]
    }
}

/// Finds the named sets of selectors, one for each different selector.
pub struct SetResolver<'a> {
    /// The endpoints that selectors select from.
    pub endpoints: &'a Vec<Endpoint>,
    /// The name of the set of each selector.
    pub by_selector: OrdMap<String, String>,
    /// The sets.
    pub sets: Vec<NftSet>,
}

impl<'a> SetResolver<'a> {
    /// What is known.
    pub open spec fn known(&self) -> ResolverView {
        ResolverView { by_selector: deep_map(self.by_selector.map()), sets: self.sets.deep_view() }
    }

    /// Nothing is known yet.
    pub fn new(endpoints: &'a Vec<Endpoint>) -> (r: Self)
        ensures
            r.by_selector.wf(),
            r.endpoints == endpoints,
            r.known() == (ResolverView { by_selector: Map::empty(), sets: Seq::empty() }),
    {
        let r = SetResolver { endpoints, by_selector: OrdMap::new(), sets: Vec::new() };
        assert(r.known() =~= (ResolverView { by_selector: Map::empty(), sets: Seq::empty() }));
        r
    }

    /// The name of the set of a selector, given which endpoints it selects; none where it
    /// cannot be read. A selector that was asked for before has its set already.
    pub fn resolve(&mut self, selector: &str, hits: &Option<Vec<bool>>) -> (r: Option<String>)
        requires
            old(self).by_selector.wf(),
        ensures
            final(self).by_selector.wf(),
            final(self).endpoints == old(self).endpoints,
            final(self).known() == old(self).known().after(
                old(self).endpoints@,
                selector@,
                match hits {
                    Some(h) => Some(h@),
                    None => None,
                },
            ),
            r.deep_view() == final(self).known().name_of(selector@),
    {
        let ghost known = self.known();
        if let Some(name) = self.by_selector.lookup(selector) {
            assert(known.by_selector[selector@] == name@);
            return Some(name.clone());
        }
        assert(!known.by_selector.dom().contains(selector@));
        let hits = match hits {
            Some(h) => h,
            None => return None,
        };
        let elements = select(self.endpoints, hits);
        let mut name = "cali-s-".to_owned();
        name.push_str(decimal_text(self.sets.len() as u64).as_str());
        let set = NftSet { name: name.clone(), elements };
        assert(set.deep_view().elements =~= views(elements@));
        push_item(&mut self.sets, set);
        self.by_selector.insert(selector.to_owned(), name.clone());
        assert(self.known() =~= known.after(self.endpoints@, selector@, Some(hits@)));
        Some(name)
    }
}

/// The addresses of the selected endpoints, ascending and each once.
fn select(endpoints: &Vec<Endpoint>, hits: &Vec<bool>) -> (r: Vec<String>)
    ensures
        views(r@) == in_order::<String>(selected(endpoints@, hits@)),
{
    let mut set: StrSet = OrdMap::new();
    for i in 0..endpoints.len()
        invariant
            set.wf(),
            forall|ip: Seq<char>| #[trigger]
                set.map().dom().contains(ip) <==> exists|j: int|
                    0 <= j < i && j < hits@.len() && hits@[j] && (#[trigger] endpoints@[j]).ip@ == ip,
    {
        let ghost before = set.map().dom();
        if i < hits.len() && hits[i] {
            set.insert(endpoints[i].ip.clone(), ());
        }
        assert forall|ip: Seq<char>| #[trigger] set.map().dom().contains(ip) <==> exists|j: int|
            0 <= j < i + 1 && j < hits@.len() && hits@[j] && (#[trigger] endpoints@[j]).ip@ == ip by {
            if before.contains(ip) {
                let j = choose|j: int|
                    0 <= j < i && j < hits@.len() && hits@[j] && (#[trigger] endpoints@[j]).ip@
                        == ip;
                assert(endpoints@[j].ip@ == ip);
            }
            if i < hits@.len() && hits@[i as int] && ip == endpoints@[i as int].ip@ {
                assert(endpoints@[i as int].ip@ == ip);
            }
        }
    }
    assert(set.map().dom() =~= selected(endpoints@, hits@));
    let ghost keys = Seq::new(set.entries@.len(), |i: int| set.entries@[i].0.deep_view());
    proof {
        lemma_keys_in_order(set);
    }
    let mut out: Vec<String> = Vec::new();
    assert(views(out@) =~= keys.take(0));
    for i in 0..set.entries.len()
        invariant
            keys == Seq::new(set.entries@.len(), |i: int| set.entries@[i].0.deep_view()),
            views(out@) == keys.take(i as int),
    {
        out.push(set.entries[i].0.clone());
        assert(views(out@) =~= keys.take(i + 1));
    }
    assert(keys.take(keys.len() as int) =~= keys);
    out
}

/// Which endpoints a selector selects, by position; none where it cannot be read.
pub open spec fn hits_of(evaluations: Map<Seq<char>, Option<Vec<bool>>>, selector: Seq<char>) -> Option<
    Seq<bool>,
> {
    if evaluations.dom().contains(selector) {
        match evaluations[selector] {
            Some(h) => Some(h@),
            None => None,
        }
    } else {
        None
    }
}

/// Whether the sources of a rule are a named set: it selects them, and names no blocks.
pub open spec fn uses_set(rule: RuleView) -> bool {
    rule.source.selector is Some && trim_spec(rule.source.selector->0).len() > 0
        && rule.source.nets.len() == 0
}

/// What is known after a rule has been rendered.
pub open spec fn known_after(
    known: ResolverView,
    endpoints: Seq<Endpoint>,
    evaluations: Map<Seq<char>, Option<Vec<bool>>>,
    rule: RuleView,
) -> ResolverView {
    if uses_set(rule) && verdict_of(rule.action) is Some {
        let selector = rule.source.selector->0;
        known.after(endpoints, selector, hits_of(evaluations, selector))
    } else {
        known
    }
}

/// The rules that a rule becomes with named sets, given what is known once it has been
/// rendered.
pub open spec fn resolved_rules(known: ResolverView, rule: RuleView) -> Seq<NftRuleView> {
    if uses_set(rule) {
        match (verdict_of(rule.action), known.name_of(rule.source.selector->0)) {
            (Some(verdict), Some(name)) => source_rules(
                rule,
                verdict,
                seq![NftMatchView::SrcSet(name)],
            ),
            _ => Seq::empty(),
        }
    } else {
        ingress_rules(rule)
    }
}

/// The rules that a rule becomes with named sets.
pub fn render_ingress_rule_resolved(
    rule: &Rule,
    res: &mut SetResolver,
    evaluations: &Evaluations,
) -> (r: Vec<NftRule>)
    requires
        old(res).by_selector.wf(),
        evaluations.wf(),
    ensures
        final(res).by_selector.wf(),
        final(res).endpoints == old(res).endpoints,
        final(res).known() == known_after(
            old(res).known(),
            old(res).endpoints@,
            evaluations.map(),
            rule.deep_view(),
        ),
        r.deep_view() == resolved_rules(final(res).known(), rule.deep_view()),
{
    if let Some(sel) = &rule.source.selector {
        if !trim(sel.as_str()).as_str().is_empty() && rule.source.nets.len() == 0 {
            let mut out: Vec<NftRule> = Vec::new();
            assert(out.deep_view() =~= Seq::<NftRuleView>::empty());
            let verdict = match map_verdict(rule.action) {
                Some(v) => v,
                None => return out,
            };
            let none: Option<Vec<bool>> = None;
            let hits = match evaluations.lookup(sel.as_str()) {
                Some(h) => h,
                None => &none,
            };
            let name = match res.resolve(sel.as_str(), hits) {
                Some(n) => n,
                None => return out,
            };
            let m = Some(NftMatch::SrcSet(name));
            push_source_rules(&mut out, rule, &verdict, &m);
            assert(out.deep_view() =~= resolved_rules(res.known(), rule.deep_view()));
            return out;
        }
    }
    render_ingress_rule(rule)
}

/// What is known after the first `n` rules of a policy.
pub open spec fn known_rules(
    known: ResolverView,
    endpoints: Seq<Endpoint>,
    evaluations: Map<Seq<char>, Option<Vec<bool>>>,
    rules: Seq<RuleView>,
    n: nat,
) -> ResolverView
    decreases n,
{
    if n == 0 {
        known
    } else {
        known_after(
            known_rules(known, endpoints, evaluations, rules, (n - 1) as nat),
            endpoints,
            evaluations,
            rules[n - 1],
        )
    }
}

/// The rules that the first `n` rules of a policy become.
pub open spec fn rendered_rules(
    known: ResolverView,
    endpoints: Seq<Endpoint>,
    evaluations: Map<Seq<char>, Option<Vec<bool>>>,
    rules: Seq<RuleView>,
    n: nat,
) -> Seq<NftRuleView>
    decreases n,
{
    if n == 0 {
        Seq::empty()
    } else {
        rendered_rules(known, endpoints, evaluations, rules, (n - 1) as nat) + resolved_rules(
            known_rules(known, endpoints, evaluations, rules, n),
            rules[n - 1],
        )
    }
}

/// What is known after the first `n` policies.
pub open spec fn known_policies(
    endpoints: Seq<Endpoint>,
    evaluations: Map<Seq<char>, Option<Vec<bool>>>,
    policies: Seq<(Seq<char>, NetworkPolicySpecView)>,
    n: nat,
) -> ResolverView
    decreases n,
{
    if n == 0 {
        ResolverView { by_selector: Map::empty(), sets: Seq::empty() }
    } else {
        let rules = policies[n - 1].1.ingress;
        known_rules(
            known_policies(endpoints, evaluations, policies, (n - 1) as nat),
            endpoints,
            evaluations,
            rules,
            rules.len(),
        )
    }
}

/// The chain of the policy at `i`.
pub open spec fn resolved_chain(
    endpoints: Seq<Endpoint>,
    evaluations: Map<Seq<char>, Option<Vec<bool>>>,
    policies: Seq<(Seq<char>, NetworkPolicySpecView)>,
    i: int,
) -> NftChainView {
    let rules = policies[i].1.ingress;
    NftChainView {
        name: chain_name(policies[i].0),
        base: None,
        rules: rendered_rules(
            known_policies(endpoints, evaluations, policies, i as nat),
            endpoints,
            evaluations,
            rules,
            rules.len(),
        ).push(default_deny()),
    }
}

/// The table of ingress policies with named sets.
pub open spec fn resolved_table(
    family: Seq<char>,
    table: Seq<char>,
    policies: Seq<(Seq<char>, NetworkPolicySpecView)>,
    endpoints: Seq<Endpoint>,
    evaluations: Map<Seq<char>, Option<Vec<bool>>>,
) -> NftTableView {
    NftTableView {
        family,
        name: table,
        sets: known_policies(endpoints, evaluations, policies, policies.len()).sets,
        chains: seq![base_chain(policies)] + Seq::new(
            policies.len(),
            |i: int| resolved_chain(endpoints, evaluations, policies, i),
        ),
    }
}

/// The table of ingress policies, with a named set for each different selector of sources.
/// Which endpoints a selector selects is handed in.
pub fn render_ingress_policies_with_endpoints(
    family: &str,
    table: &str,
    policies: &Vec<(String, NetworkPolicySpec)>,
    endpoints: &Vec<Endpoint>,
    evaluations: &Evaluations,
) -> (r: NftTable)
    requires
        evaluations.wf(),
    ensures
        r.deep_view() == resolved_table(
            family@,
            table@,
            policies.deep_view(),
            endpoints@,
            evaluations.map(),
        ),
{
    let ghost pv = policies.deep_view();
    let ghost ev = evaluations.map();
    let ghost want = resolved_table(family@, table@, pv, endpoints@, ev).chains;
    let mut res = SetResolver::new(endpoints);
    let mut chains: Vec<NftChain> = Vec::new();
    push_item(&mut chains, build_base_chain(policies));
    assert(chains.deep_view() =~= want.take(1));
    for i in 0..policies.len()
        invariant
            evaluations.wf(),
            pv == policies.deep_view(),
            ev == evaluations.map(),
            want == resolved_table(family@, table@, pv, endpoints@, ev).chains,
            res.by_selector.wf(),
            res.endpoints == endpoints,
            res.known() == known_policies(endpoints@, ev, pv, i as nat),
            chains.deep_view() == want.take(i + 1),
    {
        let (name, spec) = &policies[i];
        assert(pv[i as int] == (name@, spec.deep_view()));
        let ghost rv = spec.deep_view().ingress;
        let ghost start = res.known();
        let mut rules: Vec<NftRule> = Vec::new();
        assert(rules.deep_view() =~= Seq::<NftRuleView>::empty());
        for k in 0..spec.ingress.len()
            invariant
                evaluations.wf(),
                ev == evaluations.map(),
                rv == spec.deep_view().ingress,
                res.by_selector.wf(),
                res.endpoints == endpoints,
                res.known() == known_rules(start, endpoints@, ev, rv, k as nat),
                rules.deep_view() == rendered_rules(start, endpoints@, ev, rv, k as nat),
        {
            assert(rv[k as int] == spec.ingress@[k as int].deep_view());
            let mut more = render_ingress_rule_resolved(&spec.ingress[k], &mut res, evaluations);
            append_items(&mut rules, &mut more);
        }
        push_item(&mut rules, NftRule::new(Verdict::Drop).comment("end-of-policy default deny"));
        let name = policy_chain(name.as_str());
        let chain = NftChain::regular(name.as_str(), rules);
        assert(chain.deep_view() =~= resolved_chain(endpoints@, ev, pv, i as int));
        push_item(&mut chains, chain);
        assert(chains.deep_view() =~= want.take(i + 2));
    }
    assert(want.take(want.len() as int) =~= want);
    NftTable::new(family, table, chains).with_sets(res.sets)
}

/// Different numbers name different sets.
pub proof fn law_set_names_are_distinct(a: nat, b: nat)
    requires
        set_name(a) == set_name(b),
    ensures
        a == b,
{
    lemma_decimal_reads_back(a);
    lemma_decimal_reads_back(b);
    let p = "cali-s-"@;
    assert(set_name(a).skip(p.len() as int) =~= decimal(a));
    assert(set_name(b).skip(p.len() as int) =~= decimal(b));
}

/// A selector that is asked for again has the same set, and no other set is made for it;
/// every set keeps the name of its position.
pub proof fn law_one_set_per_selector(
    known: ResolverView,
    endpoints: Seq<Endpoint>,
    selector: Seq<char>,
    hits: Option<Seq<bool>>,
    again: Option<Seq<bool>>,
)
    requires
        known.consistent(),
        hits is Some,
    ensures
        ({
            let once = known.after(endpoints, selector, hits);
            &&& once.name_of(selector) is Some
            &&& once.after(endpoints, selector, again) == once
            &&& once.consistent()
        }),
{
    let once = known.after(endpoints, selector, hits);
    if !known.by_selector.dom().contains(selector) {
        assert forall|s: Seq<char>| #[trigger] once.by_selector.dom().contains(s) implies exists|i: int|
            0 <= i < once.sets.len() && (#[trigger] once.sets[i]).name == once.by_selector[s] by {
            if s == selector {
                assert(once.sets[known.sets.len() as int].name == once.by_selector[s]);
            } else {
                assert(known.by_selector.dom().contains(s));
                let i = choose|i: int|
                    0 <= i < known.sets.len() && (#[trigger] known.sets[i]).name
                        == known.by_selector[s];
                assert(once.sets[i].name == once.by_selector[s]);
            }
        }
        assert forall|i: int| 0 <= i < once.sets.len() implies (#[trigger] once.sets[i]).name
            == set_name(i as nat) by {
            if i < known.sets.len() {
                assert(once.sets[i] == known.sets[i]);
            }
        }
    }
}

/// Every policy's chain ends in a drop, with named sets and without.
pub proof fn law_policies_end_in_drop(
    family: Seq<char>,
    table: Seq<char>,
    policies: Seq<(Seq<char>, NetworkPolicySpecView)>,
    endpoints: Seq<Endpoint>,
    evaluations: Map<Seq<char>, Option<Vec<bool>>>,
    i: int,
)
    requires
        0 <= i < policies.len(),
    ensures
        ingress_table(family, table, policies).chains[i + 1].rules.last() == default_deny(),
        resolved_table(family, table, policies, endpoints, evaluations).chains[i + 1].rules.last()
            == default_deny(),
{
}

/// Whether a packet has the protocol and one of the destination ports that a rule names, as
/// far as it names any.
pub open spec fn has_protocol_and_port(packet: spec_fn(NftMatchView) -> bool, rule: RuleView) -> bool {
    let ports = rule.destination.ports;
    &&& match rule.protocol {
        Some(ProtocolView::Named(s)) => packet(NftMatchView::L4Proto(lowercase(s))),
        Some(ProtocolView::Number(n)) => packet(NftMatchView::L4Proto(decimal(n as nat))),
        None => true,
    }
    &&& ports.len() == 0 || exists|i: int|
        0 <= i < ports.len() && packet(NftMatchView::DestPort(#[trigger] ports[i]))
}

/// Whether a packet comes from one of the blocks that a rule names. Where it names none, a
/// rule without a selector is about every source, and one with a selector about none.
pub open spec fn is_from_nets(packet: spec_fn(NftMatchView) -> bool, rule: RuleView) -> bool {
    let nets = rule.source.nets;
    if nets.len() == 0 {
        rule.source.selector is None
    } else {
        exists|i: int| 0 <= i < nets.len() && packet(NftMatchView::SrcAddr(#[trigger] nets[i]))
    }
}

/// What a policy says of a packet: the action of the first of its rules that is about the
/// packet and does not merely log, where `about` says which rules are.
pub open spec fn first_action(about: spec_fn(RuleView) -> bool, rules: Seq<RuleView>) -> Option<Action>
    decreases rules.len(),
{
    if rules.len() == 0 {
        None
    } else if about(rules[0]) && rules[0].action != Action::Log {
        Some(rules[0].action)
    } else {
        first_action(about, rules.skip(1))
    }
}

/// What the way through a policy's chain comes to: it accepts what the policy allows, goes
/// back with what it passes on, and drops everything else.
pub open spec fn way_of(action: Option<Action>, mark: bool) -> Walk {
    match action {
        Some(Action::Allow) => Walk { end: End::Accepted, mark },
        Some(Action::Pass) => Walk { end: End::Passed, mark },
        _ => Walk { end: End::Dropped, mark },
    }
}

/// Rules for one source apply where the source does and the rest of the rule does.
proof fn lemma_source_rules(
    packet: spec_fn(NftMatchView) -> bool,
    mark: bool,
    rule: RuleView,
    verdict: VerdictView,
    source: Option<NftMatchView>,
)
    requires
        source != Some(NftMatchView::AcceptMarkSet),
    ensures
        ({
            let matches = match source {
                Some(m) => seq![m],
                None => Seq::empty(),
            };
            any_applies(packet, mark, source_rules(rule, verdict, matches)) <==> (source is Some
                ==> packet(source->0)) && has_protocol_and_port(packet, rule)
        }),
{
    let matches = match source {
        Some(m) => seq![m],
        None => Seq::empty(),
    };
    let rules = source_rules(rule, verdict, matches);
    let ports = rule.destination.ports;
    let choices = port_choices(rule);
    let proto = match rule.protocol {
        Some(ProtocolView::Named(s)) => packet(NftMatchView::L4Proto(lowercase(s))),
        Some(ProtocolView::Number(n)) => packet(NftMatchView::L4Proto(decimal(n as nat))),
        None => true,
    };
    assert forall|j: int| 0 <= j < rules.len() implies (applies(packet, mark, #[trigger] rules[j])
        <==> proto && (source is Some ==> packet(source->0)) && (choices[j] is Some ==> packet(
        NftMatchView::DestPort(choices[j]->0),
    ))) by {
        let a = protocol_match(rule);
        let c = port_match(choices[j]);
        let all = rules[j].matches;
        assert(all == a + matches + c);
        if applies(packet, mark, rules[j]) {
            if a.len() > 0 {
                assert(all[0] == a[0]);
                assert(holds(packet, mark, all[0]));
            }
            if matches.len() > 0 {
                assert(all[a.len() as int] == matches[0]);
                assert(holds(packet, mark, all[a.len() as int]));
            }
            if c.len() > 0 {
                assert(all[(a.len() + matches.len()) as int] == c[0]);
                assert(holds(packet, mark, all[(a.len() + matches.len()) as int]));
            }
        }
    }
    if any_applies(packet, mark, rules) {
        let j = choose|j: int| 0 <= j < rules.len() && applies(packet, mark, #[trigger] rules[j]);
        if ports.len() > 0 {
            assert(choices[j] == Some(ports[j]));
        }
    }
    if (source is Some ==> packet(source->0)) && has_protocol_and_port(packet, rule) {
        if ports.len() == 0 {
            assert(applies(packet, mark, rules[0]));
        } else {
            let j = choose|j: int|
                0 <= j < ports.len() && packet(NftMatchView::DestPort(#[trigger] ports[j]));
            assert(choices[j] == Some(ports[j]));
            assert(applies(packet, mark, rules[j]));
        }
    }
}

/// The rules that an ingress rule becomes apply to exactly the packets that it is about, and
/// each of them does what the rule says: accept what is allowed, drop what is denied, go back
/// with what is passed on. A rule that only logs becomes nothing.
pub proof fn law_ingress_rule_covers_its_packets(
    packet: spec_fn(NftMatchView) -> bool,
    mark: bool,
    rule: RuleView,
)
    ensures
        rule.action != Action::Log ==> (any_applies(packet, mark, ingress_rules(rule))
            <==> is_from_nets(packet, rule) && has_protocol_and_port(packet, rule)),
        rule.action == Action::Log ==> ingress_rules(rule).len() == 0,
        forall|i: int|
            0 <= i < ingress_rules(rule).len() ==> (#[trigger] ingress_rules(rule)[i]).verdict == (
            match rule.action {
                Action::Allow => VerdictView::Accept,
                Action::Deny => VerdictView::Drop,
                _ => VerdictView::Return,
            }),
{
    if rule.action != Action::Log && !(rule.source.selector is Some && rule.source.nets.len()
        == 0) {
        let verdict = verdict_of(rule.action)->0;
        let nets = rule.source.nets;
        let choices = net_choices(rule);
        let blocks = Seq::new(
            choices.len(),
            |i: int| source_rules(rule, verdict, net_match(choices[i])),
        );
        lemma_any_concat(packet, mark, blocks, blocks.len());
        assert forall|i: int| 0 <= i < blocks.len() implies (any_applies(
            packet,
            mark,
            #[trigger] blocks[i],
        ) <==> (choices[i] is Some ==> packet(NftMatchView::SrcAddr(choices[i]->0)))
            && has_protocol_and_port(packet, rule)) by {
            let source = match choices[i] {
                Some(n) => Some(NftMatchView::SrcAddr(n)),
                None => None,
            };
            lemma_source_rules(packet, mark, rule, verdict, source);
        }
        if any_applies(packet, mark, ingress_rules(rule)) {
            let i = choose|i: int|
                0 <= i < blocks.len() && any_applies(packet, mark, #[trigger] blocks[i]);
            if nets.len() > 0 {
                assert(choices[i] == Some(nets[i]));
            }
        }
        if is_from_nets(packet, rule) && has_protocol_and_port(packet, rule) {
            if nets.len() == 0 {
                assert(any_applies(packet, mark, blocks[0]));
            } else {
                let i = choose|i: int|
                    0 <= i < nets.len() && packet(NftMatchView::SrcAddr(#[trigger] nets[i]));
                assert(choices[i] == Some(nets[i]));
                assert(any_applies(packet, mark, blocks[i]));
            }
        }
        let p = |r: NftRuleView| r.verdict == verdict;
        assert forall|i: int, j: int| 0 <= i < blocks.len() && 0 <= j < blocks[i].len() implies p(
            #[trigger] blocks[i][j],
        ) by {}
        lemma_concat_all(blocks, blocks.len(), p);
        assert forall|i: int| 0 <= i < ingress_rules(rule).len() implies (
        #[trigger] ingress_rules(rule)[i]).verdict == verdict by {
            assert(p(concat_first(blocks, blocks.len())[i]));
        }
    }
}

/// The way through blocks of rules, one for each rule of a policy, and the drop behind them.
proof fn lemma_walk_policy(
    chains: Map<Seq<char>, NftChainView>,
    packet: spec_fn(NftMatchView) -> bool,
    mark: bool,
    depth: nat,
    about: spec_fn(RuleView) -> bool,
    rules: Seq<RuleView>,
    blocks: Seq<Seq<NftRuleView>>,
)
    requires
        rules.len() == blocks.len(),
        forall|i: int|
            0 <= i < rules.len() && (#[trigger] rules[i]).action != Action::Log ==> (any_applies(
                packet,
                mark,
                blocks[i],
            ) <==> about(rules[i])),
        forall|i: int|
            0 <= i < rules.len() && (#[trigger] rules[i]).action == Action::Log ==> blocks[i].len()
                == 0,
        forall|i: int, j: int|
            0 <= i < blocks.len() && 0 <= j < blocks[i].len() ==> (
            #[trigger] blocks[i][j]).verdict == (match rules[i].action {
                Action::Allow => VerdictView::Accept,
                Action::Deny => VerdictView::Drop,
                _ => VerdictView::Return,
            }),
    ensures
        walk(chains, concat_all(blocks).push(default_deny()), packet, mark, depth) == way_of(
            first_action(about, rules),
            mark,
        ),
    decreases rules.len(),
{
    let all = concat_all(blocks).push(default_deny());
    if rules.len() == 0 {
        assert(all =~= seq![default_deny()]);
        assert(applies(packet, mark, all[0]));
    } else {
        let more = blocks.skip(1);
        let rest = rules.skip(1);
        assert forall|i: int| 0 <= i < more.len() implies #[trigger] more[i] == blocks[i + 1] by {}
        assert forall|i: int| 0 <= i < rest.len() implies #[trigger] rest[i] == rules[i + 1] by {}
        lemma_concat_shift(blocks, more, blocks.len());
        let tail = concat_all(more).push(default_deny());
        assert(all =~= blocks[0] + tail);
        lemma_walk_policy(chains, packet, mark, depth, about, rest, more);
        let verdict = match rules[0].action {
            Action::Allow => VerdictView::Accept,
            Action::Deny => VerdictView::Drop,
            _ => VerdictView::Return,
        };
        assert forall|j: int| 0 <= j < blocks[0].len() implies (#[trigger] blocks[0][j]).verdict
            == verdict by {}
        lemma_walk_block(chains, blocks[0], tail, packet, mark, depth, verdict);
        if rules[0].action == Action::Log {
            assert(!any_applies(packet, mark, blocks[0]));
        }
    }
}

/// A policy's chain decides as its ingress rules do: the first of them that is about a packet
/// decides, and what none is about is dropped.
pub proof fn law_ingress_chain_decides(
    family: Seq<char>,
    table: Seq<char>,
    policies: Seq<(Seq<char>, NetworkPolicySpecView)>,
    i: int,
    chains: Map<Seq<char>, NftChainView>,
    packet: spec_fn(NftMatchView) -> bool,
    mark: bool,
    depth: nat,
)
    requires
        0 <= i < policies.len(),
    ensures
        ({
            let chain = ingress_table(family, table, policies).chains[i + 1];
            let about = |r: RuleView| is_from_nets(packet, r) && has_protocol_and_port(packet, r);
            walk(chains, chain.rules, packet, mark, depth) == way_of(
                first_action(about, policies[i].1.ingress),
                mark,
            )
        }),
{
    let rules = policies[i].1.ingress;
    let blocks = Seq::new(rules.len(), |j: int| ingress_rules(rules[j]));
    let about = |r: RuleView| is_from_nets(packet, r) && has_protocol_and_port(packet, r);
    assert forall|j: int| 0 <= j < rules.len() && (#[trigger] rules[j]).action
        == Action::Log implies blocks[j].len() == 0 by {
        law_ingress_rule_covers_its_packets(packet, mark, rules[j]);
    }
    assert forall|j: int| 0 <= j < rules.len() && (#[trigger] rules[j]).action
        != Action::Log implies (any_applies(packet, mark, blocks[j]) <==> about(rules[j])) by {
        law_ingress_rule_covers_its_packets(packet, mark, rules[j]);
    }
    assert forall|j: int, k: int| 0 <= j < blocks.len() && 0 <= k < blocks[j].len() implies (
    #[trigger] blocks[j][k]).verdict == (match rules[j].action {
        Action::Allow => VerdictView::Accept,
        Action::Deny => VerdictView::Drop,
        _ => VerdictView::Return,
    }) by {
        law_ingress_rule_covers_its_packets(packet, mark, rules[j]);
        assert(blocks[j] == ingress_rules(rules[j]));
    }
    lemma_walk_policy(chains, packet, mark, depth, about, rules, blocks);
}

/// The table has one base chain, which hooks what comes in and goes through the policies in
/// their order, and a chain for each policy that bears its name.
pub proof fn law_ingress_table_goes_through_the_policies(
    family: Seq<char>,
    table: Seq<char>,
    policies: Seq<(Seq<char>, NetworkPolicySpecView)>,
    endpoints: Seq<Endpoint>,
    evaluations: Map<Seq<char>, Option<Vec<bool>>>,
)
    ensures
        ({
            let plain = ingress_table(family, table, policies);
            let full = resolved_table(family, table, policies, endpoints, evaluations);
            &&& plain.family == family && plain.name == table
            &&& full.family == family && full.name == table
            &&& plain.sets.len() == 0
            &&& plain.chains.len() == policies.len() + 1
            &&& full.chains.len() == policies.len() + 1
            &&& full.chains[0] == plain.chains[0]
            &&& plain.chains[0].base is Some
            &&& plain.chains[0].base->0.hook == "input"@
            &&& plain.chains[0].base->0.chain_type == ChainType::Filter
            &&& plain.chains[0].base->0.priority == 0
            &&& plain.chains[0].base->0.policy_accept
            &&& plain.chains[0].rules.len() == policies.len()
            &&& forall|i: int|
                0 <= i < policies.len() ==> {
                    let rule = #[trigger] plain.chains[0].rules[i];
                    &&& rule.matches.len() == 0
                    &&& rule.verdict == VerdictView::Jump(plain.chains[i + 1].name)
                    &&& plain.chains[i + 1].name == full.chains[i + 1].name
                    &&& plain.chains[i + 1].base is None
                    &&& full.chains[i + 1].base is None
                }
        }),
{
}

/// Whether what is known holds a set for every selector in it, with the addresses of exactly
/// the endpoints that the selector picks, and the sets have the names of their numbers.
pub open spec fn sets_are_right(
    known: ResolverView,
    endpoints: Seq<Endpoint>,
    evaluations: Map<Seq<char>, Option<Vec<bool>>>,
) -> bool {
    &&& forall|i: int| 0 <= i < known.sets.len() ==> (#[trigger] known.sets[i]).name == set_name(
        i as nat,
    )
    &&& forall|s: Seq<char>| #[trigger]
        known.by_selector.dom().contains(s) ==> hits_of(evaluations, s) is Some && exists|i: int|
            0 <= i < known.sets.len() && (#[trigger] known.sets[i]).name == known.by_selector[s]
                && known.sets[i].elements == in_order::<String>(
                selected(endpoints, hits_of(evaluations, s)->0),
            )
}

/// Whether `later` holds what `known` holds, and more at most.
pub open spec fn grows(known: ResolverView, later: ResolverView) -> bool {
    &&& known.sets.len() <= later.sets.len()
    &&& forall|i: int| 0 <= i < known.sets.len() ==> later.sets[i] == #[trigger] known.sets[i]
    &&& forall|s: Seq<char>| #[trigger]
        known.by_selector.dom().contains(s) ==> later.by_selector.dom().contains(s)
            && later.by_selector[s] == known.by_selector[s]
}

/// A rule keeps the sets right, and takes none away.
proof fn lemma_rule_keeps_sets(
    known: ResolverView,
    endpoints: Seq<Endpoint>,
    evaluations: Map<Seq<char>, Option<Vec<bool>>>,
    rule: RuleView,
)
    requires
        sets_are_right(known, endpoints, evaluations),
    ensures
        sets_are_right(known_after(known, endpoints, evaluations, rule), endpoints, evaluations),
        grows(known, known_after(known, endpoints, evaluations, rule)),
{
    let later = known_after(known, endpoints, evaluations, rule);
    assert forall|s: Seq<char>| #[trigger] later.by_selector.dom().contains(s) implies hits_of(
        evaluations,
        s,
    ) is Some && exists|i: int|
        0 <= i < later.sets.len() && (#[trigger] later.sets[i]).name == later.by_selector[s]
            && later.sets[i].elements == in_order::<String>(
            selected(endpoints, hits_of(evaluations, s)->0),
        ) by {
        if known.by_selector.dom().contains(s) {
            let i = choose|i: int|
                0 <= i < known.sets.len() && (#[trigger] known.sets[i]).name
                    == known.by_selector[s] && known.sets[i].elements == in_order::<String>(
                    selected(endpoints, hits_of(evaluations, s)->0),
                );
            assert(later.sets[i] == known.sets[i]);
        } else {
            let i = known.sets.len() as int;
            assert(later.sets[i].name == later.by_selector[s]);
        }
    }
}

/// The rules of a policy keep the sets right, and take none away.
proof fn lemma_rules_keep_sets(
    known: ResolverView,
    endpoints: Seq<Endpoint>,
    evaluations: Map<Seq<char>, Option<Vec<bool>>>,
    rules: Seq<RuleView>,
    m: nat,
    n: nat,
)
    requires
        m <= n <= rules.len(),
        sets_are_right(known, endpoints, evaluations),
    ensures
        sets_are_right(
            known_rules(known, endpoints, evaluations, rules, n),
            endpoints,
            evaluations,
        ),
        grows(
            known_rules(known, endpoints, evaluations, rules, m),
            known_rules(known, endpoints, evaluations, rules, n),
        ),
    decreases n,
{
    if n > 0 {
        if m == n {
            lemma_rules_keep_sets(known, endpoints, evaluations, rules, (n - 1) as nat, (n - 1) as nat);
        } else {
            lemma_rules_keep_sets(known, endpoints, evaluations, rules, m, (n - 1) as nat);
        }
        lemma_rule_keeps_sets(
            known_rules(known, endpoints, evaluations, rules, (n - 1) as nat),
            endpoints,
            evaluations,
            rules[n - 1],
        );
    }
}

/// The policies keep the sets right, and take none away.
proof fn lemma_policies_keep_sets(
    endpoints: Seq<Endpoint>,
    evaluations: Map<Seq<char>, Option<Vec<bool>>>,
    policies: Seq<(Seq<char>, NetworkPolicySpecView)>,
    m: nat,
    n: nat,
)
    requires
        m <= n <= policies.len(),
    ensures
        sets_are_right(
            known_policies(endpoints, evaluations, policies, n),
            endpoints,
            evaluations,
        ),
        grows(
            known_policies(endpoints, evaluations, policies, m),
            known_policies(endpoints, evaluations, policies, n),
        ),
    decreases n,
{
    if n > 0 {
        let k = (n - 1) as nat;
        if m == n {
            lemma_policies_keep_sets(endpoints, evaluations, policies, k, k);
        } else {
            lemma_policies_keep_sets(endpoints, evaluations, policies, m, k);
        }
        let rules = policies[k as int].1.ingress;
        let known = known_policies(endpoints, evaluations, policies, k);
        lemma_rules_keep_sets(known, endpoints, evaluations, rules, 0, rules.len());
    }
}

/// The addresses that a selector picks can be listed.
proof fn lemma_selected_listed(endpoints: Seq<Endpoint>, hits: Seq<bool>, n: nat)
    requires
        n <= endpoints.len(),
    ensures
        enumerates::<String>(
            in_order::<String>(selected(endpoints.take(n as int), hits)),
            selected(endpoints.take(n as int), hits),
        ),
    decreases n,
{
    let s = selected(endpoints.take(n as int), hits);
    if n == 0 {
        assert(enumerates::<String>(Seq::empty(), s));
    } else {
        let m = (n - 1) as nat;
        lemma_selected_listed(endpoints, hits, m);
        let fewer = selected(endpoints.take(m as int), hits);
        let ip = endpoints[m as int].ip@;
        let now = endpoints.take(n as int);
        let earlier = endpoints.take(m as int);
        if m < hits.len() && hits[m as int] {
            assert(s =~= fewer.insert(ip)) by {
                assert forall|x: Seq<char>| s.contains(x) == fewer.insert(ip).contains(x) by {
                    if s.contains(x) {
                        let i = choose|i: int|
                            0 <= i < now.len() && i < hits.len() && hits[i] && (
                            #[trigger] now[i]).ip@ == x;
                        if i < m {
                            assert(earlier[i] == now[i]);
                        }
                    }
                    if fewer.contains(x) {
                        let i = choose|i: int|
                            0 <= i < earlier.len() && i < hits.len() && hits[i] && (
                            #[trigger] earlier[i]).ip@ == x;
                        assert(now[i] == earlier[i]);
                    }
                    if x == ip {
                        assert(now[m as int].ip@ == x);
                    }
                }
            }
            if fewer.contains(ip) {
                assert(fewer.insert(ip) =~= fewer);
            } else {
                lemma_order_with::<String>(fewer, ip);
            }
        } else {
            assert(s =~= fewer) by {
                assert forall|x: Seq<char>| s.contains(x) == fewer.contains(x) by {
                    if s.contains(x) {
                        let i = choose|i: int|
                            0 <= i < now.len() && i < hits.len() && hits[i] && (
                            #[trigger] now[i]).ip@ == x;
                        assert(earlier[i] == now[i]);
                    }
                    if fewer.contains(x) {
                        let i = choose|i: int|
                            0 <= i < earlier.len() && i < hits.len() && hits[i] && (
                            #[trigger] earlier[i]).ip@ == x;
                        assert(now[i] == earlier[i]);
                    }
                }
            }
        }
    }
}

/// Whether an address is that of an endpoint that a selector picks. A selector that could
/// not be read picks none.
pub open spec fn is_picked(
    endpoints: Seq<Endpoint>,
    evaluations: Map<Seq<char>, Option<Vec<bool>>>,
    selector: Seq<char>,
    src: Seq<char>,
) -> bool {
    evaluations.dom().contains(selector) && evaluations[selector] is Some && exists|i: int|
        0 <= i < endpoints.len() && i < evaluations[selector]->0@.len()
            && evaluations[selector]->0@[i] && (#[trigger] endpoints[i]).ip@ == src
}

/// Whether a packet with the given source address comes from whom a rule is about: from one
/// of its blocks, where it names any; from an endpoint that its selector picks, where it has
/// one; from anywhere otherwise.
pub open spec fn is_from(
    packet: spec_fn(NftMatchView) -> bool,
    src: Seq<char>,
    endpoints: Seq<Endpoint>,
    evaluations: Map<Seq<char>, Option<Vec<bool>>>,
    rule: RuleView,
) -> bool {
    let nets = rule.source.nets;
    if nets.len() > 0 {
        exists|i: int| 0 <= i < nets.len() && packet(NftMatchView::SrcAddr(#[trigger] nets[i]))
    } else {
        match rule.source.selector {
            None => true,
            Some(s) => trim_spec(s).len() > 0 && is_picked(endpoints, evaluations, s, src),
        }
    }
}

/// What a resolved rule is about, where the sets are right.
proof fn lemma_resolved_rule(
    packet: spec_fn(NftMatchView) -> bool,
    mark: bool,
    src: Seq<char>,
    endpoints: Seq<Endpoint>,
    evaluations: Map<Seq<char>, Option<Vec<bool>>>,
    before: ResolverView,
    last: ResolverView,
    rule: RuleView,
)
    requires
        sets_are_right(before, endpoints, evaluations),
        grows(known_after(before, endpoints, evaluations, rule), last),
        forall|i: int|
            0 <= i < last.sets.len() ==> (packet(NftMatchView::SrcSet((#[trigger] last.sets[i]).name))
                <==> last.sets[i].elements.contains(src)),
    ensures
        ({
            let rules = resolved_rules(known_after(before, endpoints, evaluations, rule), rule);
            &&& rule.action != Action::Log ==> (any_applies(packet, mark, rules) <==> is_from(
                packet,
                src,
                endpoints,
                evaluations,
                rule,
            ) && has_protocol_and_port(packet, rule))
            &&& rule.action == Action::Log ==> rules.len() == 0
            &&& forall|i: int|
                0 <= i < rules.len() ==> (#[trigger] rules[i]).verdict == (match rule.action {
                    Action::Allow => VerdictView::Accept,
                    Action::Deny => VerdictView::Drop,
                    _ => VerdictView::Return,
                })
        }),
{
    let known = known_after(before, endpoints, evaluations, rule);
    lemma_rule_keeps_sets(before, endpoints, evaluations, rule);
    if uses_set(rule) {
        let s = rule.source.selector->0;
        if rule.action != Action::Log {
            match known.name_of(s) {
                Some(name) => {
                    let verdict = verdict_of(rule.action)->0;
                    lemma_source_rules(
                        packet,
                        mark,
                        rule,
                        verdict,
                        Some(NftMatchView::SrcSet(name)),
                    );
                    let hits = hits_of(evaluations, s)->0;
                    let i = choose|i: int|
                        0 <= i < known.sets.len() && (#[trigger] known.sets[i]).name
                            == known.by_selector[s] && known.sets[i].elements == in_order::<String>(
                            selected(endpoints, hits),
                        );
                    assert(last.sets[i] == known.sets[i]);
                    lemma_selected_listed(endpoints, hits, endpoints.len());
                    assert(endpoints.take(endpoints.len() as int) =~= endpoints);
                    assert(selected(endpoints, hits).contains(src) <==> is_picked(
                        endpoints,
                        evaluations,
                        s,
                        src,
                    ));
                    assert(packet(NftMatchView::SrcSet(name)) <==> is_picked(
                        endpoints,
                        evaluations,
                        s,
                        src,
                    ));
                },
                None => {
                    assert(hits_of(evaluations, s) is None);
                    assert(!any_applies(packet, mark, resolved_rules(known, rule)));
                },
            }
        }
    } else {
        law_ingress_rule_covers_its_packets(packet, mark, rule);
    }
}

/// The blocks of the rules that were rendered.
proof fn lemma_rendered_blocks(
    known: ResolverView,
    endpoints: Seq<Endpoint>,
    evaluations: Map<Seq<char>, Option<Vec<bool>>>,
    rules: Seq<RuleView>,
    n: nat,
)
    requires
        n <= rules.len(),
    ensures
        rendered_rules(known, endpoints, evaluations, rules, n) == concat_first(
            Seq::new(
                rules.len(),
                |i: int|
                    resolved_rules(
                        known_rules(known, endpoints, evaluations, rules, (i + 1) as nat),
                        rules[i],
                    ),
            ),
            n,
        ),
    decreases n,
{
    if n > 0 {
        lemma_rendered_blocks(known, endpoints, evaluations, rules, (n - 1) as nat);
    }
}

/// With endpoints known, a policy's chain decides as its ingress rules do: a rule that selects
/// its sources is about the packets of exactly the endpoints that the selector picks, since
/// the set that stands for the selector holds their addresses and no others. The first rule
/// that is about a packet decides, and what none is about is dropped.
pub proof fn law_resolved_chain_decides(
    family: Seq<char>,
    table: Seq<char>,
    policies: Seq<(Seq<char>, NetworkPolicySpecView)>,
    endpoints: Seq<Endpoint>,
    evaluations: Map<Seq<char>, Option<Vec<bool>>>,
    i: int,
    chains: Map<Seq<char>, NftChainView>,
    packet: spec_fn(NftMatchView) -> bool,
    src: Seq<char>,
    mark: bool,
    depth: nat,
)
    requires
        0 <= i < policies.len(),
        ({
            let sets = resolved_table(family, table, policies, endpoints, evaluations).sets;
            forall|k: int|
                0 <= k < sets.len() ==> (packet(NftMatchView::SrcSet((#[trigger] sets[k]).name))
                    <==> sets[k].elements.contains(src))
        }),
    ensures
        ({
            let chain = resolved_table(family, table, policies, endpoints, evaluations).chains[i
                + 1];
            let about = |r: RuleView|
                is_from(packet, src, endpoints, evaluations, r) && has_protocol_and_port(packet, r);
            walk(chains, chain.rules, packet, mark, depth) == way_of(
                first_action(about, policies[i].1.ingress),
                mark,
            )
        }),
{
    let rules = policies[i].1.ingress;
    let start = known_policies(endpoints, evaluations, policies, i as nat);
    let last = known_policies(endpoints, evaluations, policies, policies.len());
    let blocks = Seq::new(
        rules.len(),
        |j: int|
            resolved_rules(
                known_rules(start, endpoints, evaluations, rules, (j + 1) as nat),
                rules[j],
            ),
    );
    let about = |r: RuleView|
        is_from(packet, src, endpoints, evaluations, r) && has_protocol_and_port(packet, r);
    lemma_policies_keep_sets(endpoints, evaluations, policies, i as nat, i as nat);
    lemma_policies_keep_sets(endpoints, evaluations, policies, (i + 1) as nat, policies.len());
    lemma_rendered_blocks(start, endpoints, evaluations, rules, rules.len());
    assert(resolved_table(family, table, policies, endpoints, evaluations).sets == last.sets);
    assert forall|j: int| 0 <= j < rules.len() implies ({
        &&& (#[trigger] rules[j]).action != Action::Log ==> (any_applies(packet, mark, blocks[j])
            <==> about(rules[j]))
        &&& rules[j].action == Action::Log ==> blocks[j].len() == 0
        &&& forall|k: int|
            0 <= k < blocks[j].len() ==> (#[trigger] blocks[j][k]).verdict == (
            match rules[j].action {
                Action::Allow => VerdictView::Accept,
                Action::Deny => VerdictView::Drop,
                _ => VerdictView::Return,
            })
    }) by {
        let before = known_rules(start, endpoints, evaluations, rules, j as nat);
        lemma_rules_keep_sets(start, endpoints, evaluations, rules, j as nat, j as nat);
        lemma_rules_keep_sets(
            start,
            endpoints,
            evaluations,
            rules,
            (j + 1) as nat,
            rules.len(),
        );
        assert(known_rules(start, endpoints, evaluations, rules, (j + 1) as nat) == known_after(
            before,
            endpoints,
            evaluations,
            rules[j],
        ));
        assert(known_rules(start, endpoints, evaluations, rules, rules.len()) == known_policies(
            endpoints,
            evaluations,
            policies,
            (i + 1) as nat,
        ));
        lemma_resolved_rule(
            packet,
            mark,
            src,
            endpoints,
            evaluations,
            before,
            last,
            rules[j],
        );
    }
    assert forall|j: int, k: int| 0 <= j < blocks.len() && 0 <= k < blocks[j].len() implies (
    #[trigger] blocks[j][k]).verdict == (match rules[j].action {
        Action::Allow => VerdictView::Accept,
        Action::Deny => VerdictView::Drop,
        _ => VerdictView::Return,
    }) by {}
    lemma_walk_policy(chains, packet, mark, depth, about, rules, blocks);
}

/// Policies are read in their order, each under its own name, and one that cannot be read
/// fails the whole with what is wrong with the first such one.
pub proof fn law_first_unreadable_policy_fails(
    items: Seq<(String, Result<NetworkPolicySpec, String>)>,
)
    ensures
        match read_first(items, items.len()) {
            Ok(policies) => {
                &&& policies.len() == items.len()
                &&& forall|i: int|
                    0 <= i < items.len() ==> items[i].1 is Ok && (#[trigger] policies[i]).0
                        == items[i].0@ && policies[i].1 == items[i].1->Ok_0.deep_view()
            },
            Err(e) => exists|i: int|
                {
                    &&& 0 <= i < items.len()
                    &&& (#[trigger] items[i]).1 is Err
                    &&& e == "bad NetworkPolicy spec: "@ + items[i].1->Err_0@
                    &&& forall|j: int| 0 <= j < i ==> (#[trigger] items[j]).1 is Ok
                },
        },
{
    lemma_read_first(items, items.len());
}

/// What reading the first `n` policies comes to.
proof fn lemma_read_first(items: Seq<(String, Result<NetworkPolicySpec, String>)>, n: nat)
    requires
        n <= items.len(),
    ensures
        match read_first(items, n) {
            Ok(policies) => {
                &&& policies.len() == n
                &&& forall|i: int|
                    0 <= i < n ==> items[i].1 is Ok && (#[trigger] policies[i]).0 == items[i].0@
                        && policies[i].1 == items[i].1->Ok_0.deep_view()
                &&& forall|i: int| 0 <= i < n ==> (#[trigger] items[i]).1 is Ok
            },
            Err(e) => exists|i: int|
                {
                    &&& 0 <= i < n
                    &&& (#[trigger] items[i]).1 is Err
                    &&& e == "bad NetworkPolicy spec: "@ + items[i].1->Err_0@
                    &&& forall|j: int| 0 <= j < i ==> (#[trigger] items[j]).1 is Ok
                },
        },
    decreases n,
{
    if n > 0 {
        let m = (n - 1) as nat;
        lemma_read_first(items, m);
        if let Ok(head) = read_first(items, m) {
            if let Ok(policies) = read_first(items, n) {
                assert forall|i: int| 0 <= i < n implies items[i].1 is Ok && (
                #[trigger] policies[i]).0 == items[i].0@ && policies[i].1
                    == items[i].1->Ok_0.deep_view() by {
                    if i < m {
                        assert(policies[i] == head[i]);
                    }
                }
            } else {
                assert(items[m as int].1 is Err);
            }
        } else {
            let i = choose|i: int|
                {
                    &&& 0 <= i < m
                    &&& (#[trigger] items[i]).1 is Err
                    &&& read_first(items, m)->Err_0 == "bad NetworkPolicy spec: "@
                        + items[i].1->Err_0@
                    &&& forall|j: int| 0 <= j < i ==> (#[trigger] items[j]).1 is Ok
                };
            assert(items[i].1 is Err);
        }
    }
}

} // verus!
