//! How policies are confined to namespaces.
//!
//! A policy of a namespace applies to that namespace alone, whatever its own selectors
//! say, and so do the peers of its rules that do not select namespaces themselves. A policy
//! for all namespaces applies where its namespace selector says. An endpoint carries the
//! labels of its namespace under a prefix, so a namespace selector is asked of prefixed
//! labels; selectors in that form are handed in.
//!
//! How a confined selector is worded is this library's own choice. Selectors are put
//! together as texts and are not taken apart: where `all()` or `global()` is replaced, it is
//! replaced wherever it stands, also inside a quoted label value.

use crate::resources::{
    EntityRule, EntityRuleView, NetworkPolicySpec, NetworkPolicySpecView, Rule, RuleView,
};
use crate::seqs::{concat_first, push_item};
use crate::text::{replace, replace_all, str_eq, views};
use crate::updateprocessors::{
    augment_policy_selector, concerns, confined, in_namespace, lemma_side_selector,
    rule_endpoint_selector, side_selector, Flow, Party,
};
use vstd::prelude::*;

verus! {

broadcast use crate::text::lemma_views_push;

/// The form of a namespace selector that asks for prefixed labels: the first that is handed
/// in for it, from position `i` on. A selector for which none is handed in cannot be read
/// and stays as it is.
pub open spec fn form_from(
    forms: Seq<(Seq<char>, Seq<char>)>,
    selector: Seq<char>,
    i: int,
) -> Seq<char>
    decreases forms.len() - i,
{
    if i < 0 || i >= forms.len() {
        selector
    } else if forms[i].0 == selector {
        forms[i].1
    } else {
        form_from(forms, selector, i + 1)
    }
}

/// The form of a namespace selector that asks for prefixed labels.
fn prefixed_form(forms: &Vec<(String, String)>, selector: &str) -> (r: String)
    ensures
        r@ == form_from(forms.deep_view(), selector@, 0),
{
    let mut i: usize = 0;
    while i < forms.len()
        invariant
            i <= forms@.len(),
            form_from(forms.deep_view(), selector@, 0) == form_from(
                forms.deep_view(),
                selector@,
                i as int,
            ),
        decreases forms.len() - i,
    {
        assert(forms.deep_view()[i as int] == (forms@[i as int].0@, forms@[i as int].1@));
        if str_eq(forms[i].0.as_str(), selector) {
            return forms[i].1.clone();
        }
        i = i + 1;
    }
    selector.to_owned()
}

/// One side of a rule confined to namespaces: its selector says all, and none where it
/// selects neither endpoints nor namespaces.
pub open spec fn confined_side(
    er: EntityRuleView,
    namespace: Option<Seq<char>>,
    forms: Seq<(Seq<char>, Seq<char>)>,
) -> EntityRuleView {
    let asked = EntityRuleView {
        namespace_selector: match er.namespace_selector {
            Some(s) => Some(form_from(forms, s, 0)),
            None => None,
        },
        ..er
    };
    let selector = side_selector(asked, namespace);
    EntityRuleView {
        selector: if selector.len() > 0 {
            Some(selector)
        } else {
            None
        },
        namespace_selector: None,
        ..er
    }
}

/// One side of a rule confined to namespaces.
fn confine_side(er: EntityRule, namespace: &Option<String>, forms: &Vec<(String, String)>) -> (r:
    EntityRule)
    ensures
        r.deep_view() == confined_side(er.deep_view(), namespace.deep_view(), forms.deep_view()),
{
    let ghost before = er.deep_view();
    let mut asked = er;
    asked.namespace_selector = match asked.namespace_selector {
        Some(s) => Some(prefixed_form(forms, s.as_str())),
        None => None,
    };
    let selector = rule_endpoint_selector(&asked, namespace);
    asked.namespace_selector = None;
    asked.selector = if selector.as_str().is_empty() {
        None
    } else {
        Some(selector)
    };
    assert(asked.deep_view() =~= confined_side(before, namespace.deep_view(), forms.deep_view()));
    asked
}

/// A rule with both sides confined to namespaces.
pub open spec fn confined_rule(
    rule: RuleView,
    namespace: Option<Seq<char>>,
    forms: Seq<(Seq<char>, Seq<char>)>,
) -> RuleView {
    RuleView {
        source: confined_side(rule.source, namespace, forms),
        destination: confined_side(rule.destination, namespace, forms),
        ..rule
    }
}

/// Rules with both sides confined to namespaces.
pub open spec fn confined_rules(
    rules: Seq<RuleView>,
    namespace: Option<Seq<char>>,
    forms: Seq<(Seq<char>, Seq<char>)>,
) -> Seq<RuleView> {
    rules.map_values(|r: RuleView| confined_rule(r, namespace, forms))
}

/// Rules with both sides confined to namespaces.
fn confine_rules(rules: Vec<Rule>, namespace: &Option<String>, forms: &Vec<(String, String)>) -> (r:
    Vec<Rule>)
    ensures
        r.deep_view() == confined_rules(
            rules.deep_view(),
            namespace.deep_view(),
            forms.deep_view(),
        ),
{
    let ghost all = rules@;
    let ghost want = confined_rules(rules.deep_view(), namespace.deep_view(), forms.deep_view());
    let mut out: Vec<Rule> = Vec::new();
    assert(out.deep_view() =~= want.take(0));
    for rule in it: rules
        invariant
            it.seq() == all,
            want == confined_rules(
                all.map_values(|r: Rule| r.deep_view()),
                namespace.deep_view(),
                forms.deep_view(),
            ),
            out.deep_view() == want.take(it.index() as int),
    {
        let ghost k = it.index();
        let ghost before = rule.deep_view();
        let source = confine_side(rule.source, namespace, forms);
        let destination = confine_side(rule.destination, namespace, forms);
        let done = Rule { action: rule.action, protocol: rule.protocol, source, destination };
        assert(done.deep_view() =~= confined_rule(
            before,
            namespace.deep_view(),
            forms.deep_view(),
        ));
        push_item(&mut out, done);
        assert(want[k as int] == done.deep_view());
        assert(out.deep_view() =~= want.take(k + 1));
    }
    assert(want.take(want.len() as int) =~= want);
    out
}

/// A policy of a namespace, confined to it.
pub open spec fn own_namespace_only(
    spec: NetworkPolicySpecView,
    namespace: Seq<char>,
    forms: Seq<(Seq<char>, Seq<char>)>,
) -> NetworkPolicySpecView {
    NetworkPolicySpecView {
        selector: confined(spec.selector, namespace),
        ingress: confined_rules(spec.ingress, Some(namespace), forms),
        egress: confined_rules(spec.egress, Some(namespace), forms),
        ..spec
    }
}

/// Confines a policy of a namespace to it. The form of the selectors is this library's own.
pub fn scope_network_policy(
    spec: NetworkPolicySpec,
    namespace: &str,
    forms: &Vec<(String, String)>,
) -> (r: NetworkPolicySpec)
    ensures
        r.deep_view() == own_namespace_only(spec.deep_view(), namespace@, forms.deep_view()),
{
    let ghost before = spec.deep_view();
    let own = Some(namespace.to_owned());
    let selector = augment_policy_selector(spec.selector.as_str(), namespace);
    let ingress = confine_rules(spec.ingress, &own, forms);
    let egress = confine_rules(spec.egress, &own, forms);
    let r = NetworkPolicySpec {
        tier: spec.tier,
        order: spec.order,
        selector,
        types: spec.types,
        ingress,
        egress,
    };
    assert(r.deep_view() =~= own_namespace_only(before, namespace@, forms.deep_view()));
    r
}

/// The selector of a policy for all namespaces whose namespace selector is not empty: what
/// it selects, in the namespaces that it selects. A policy that selects all endpoints means
/// all that are in a namespace.
pub open spec fn in_selected_namespaces(selector: Seq<char>, form: Seq<char>) -> Seq<char> {
    replace_all(
        if selector.len() == 0 {
            form
        } else {
            "("@ + selector + ") && "@ + form
        },
        "all()"@,
        "has(projectcalico.org/namespace)"@,
    )
}

/// A policy for all namespaces, confined to those that it selects.
pub open spec fn selected_namespaces_only(
    spec: NetworkPolicySpecView,
    namespace_selector: Seq<char>,
    forms: Seq<(Seq<char>, Seq<char>)>,
) -> NetworkPolicySpecView {
    NetworkPolicySpecView {
        selector: if namespace_selector.len() == 0 {
            spec.selector
        } else {
            in_selected_namespaces(spec.selector, form_from(forms, namespace_selector, 0))
        },
        ingress: confined_rules(spec.ingress, None, forms),
        egress: confined_rules(spec.egress, None, forms),
        ..spec
    }
}

/// Confines a policy for all namespaces to those that it selects. The form of the selectors
/// is this library's own.
pub fn scope_global_network_policy(
    spec: NetworkPolicySpec,
    namespace_selector: &str,
    forms: &Vec<(String, String)>,
) -> (r: NetworkPolicySpec)
    ensures
        r.deep_view() == selected_namespaces_only(
            spec.deep_view(),
            namespace_selector@,
            forms.deep_view(),
        ),
{
    let ghost before = spec.deep_view();
    proof {
        reveal_strlit("all()");
    }
    let selector = if namespace_selector.is_empty() {
        spec.selector
    } else {
        let form = prefixed_form(forms, namespace_selector);
        let both = if spec.selector.as_str().is_empty() {
            form
        } else {
            let mut s = "(".to_owned();
            s.push_str(spec.selector.as_str());
            s.push_str(") && ");
            s.push_str(form.as_str());
            s
        };
        replace(both.as_str(), "all()", "has(projectcalico.org/namespace)")
    };
    let ingress = confine_rules(spec.ingress, &None, forms);
    let egress = confine_rules(spec.egress, &None, forms);
    let r = NetworkPolicySpec {
        tier: spec.tier,
        order: spec.order,
        selector,
        types: spec.types,
        ingress,
        egress,
    };
    assert(r.deep_view() =~= selected_namespaces_only(
        before,
        namespace_selector@,
        forms.deep_view(),
    ));
    r
}

/// A namespace selector that has to be brought into prefixed form, where there is one.
pub open spec fn asked_of_namespaces(s: Option<Seq<char>>) -> Seq<Seq<char>> {
    match s {
        Some(t) => if t.len() > 0 {
            seq![t]
        } else {
            Seq::empty()
        },
        None => Seq::empty(),
    }
}

/// The namespace selectors of a rule.
pub open spec fn rule_namespace_selectors(rule: RuleView) -> Seq<Seq<char>> {
    asked_of_namespaces(rule.source.namespace_selector) + asked_of_namespaces(
        rule.destination.namespace_selector,
    )
}

/// Adds a namespace selector, where there is one.
fn add_selector(out: &mut Vec<String>, s: &Option<String>)
    ensures
        views(final(out)@) == views(old(out)@) + asked_of_namespaces(s.deep_view()),
{
    if let Some(t) = s {
        if !t.as_str().is_empty() {
            let ghost before = views(out@);
            out.push(t.clone());
            assert(views(out@) =~= before + asked_of_namespaces(s.deep_view()));
            return;
        }
    }
    assert(views(out@) =~= views(old(out)@) + asked_of_namespaces(s.deep_view()));
}

/// The namespace selectors of rules, which have to be brought into prefixed form.
pub fn namespace_selectors(rules: &Vec<Rule>) -> (r: Vec<String>)
    ensures
        views(r@) == concat_first(
            rules.deep_view().map_values(|x: RuleView| rule_namespace_selectors(x)),
            rules@.len(),
        ),
{
    let ghost parts = rules.deep_view().map_values(|x: RuleView| rule_namespace_selectors(x));
    let mut out: Vec<String> = Vec::new();
    assert(views(out@) =~= Seq::<Seq<char>>::empty());
    for i in 0..rules.len()
        invariant
            parts == rules.deep_view().map_values(|x: RuleView| rule_namespace_selectors(x)),
            views(out@) == concat_first(parts, i as nat),
    {
        let ghost head = views(out@);
        assert(rules.deep_view()[i as int] == rules@[i as int].deep_view());
        assert(parts[i as int] == rule_namespace_selectors(rules@[i as int].deep_view()));
        add_selector(&mut out, &rules[i].source.namespace_selector);
        add_selector(&mut out, &rules[i].destination.namespace_selector);
        assert(views(out@) =~= head + parts[i as int]);
    }
    out
}

/// A policy of a namespace selects nothing outside of it: its selector demands the label of
/// that namespace, besides what it demanded before.
pub proof fn law_own_namespace_is_demanded(
    spec: NetworkPolicySpecView,
    namespace: Seq<char>,
    forms: Seq<(Seq<char>, Seq<char>)>,
)
    ensures
        ({
            let s = own_namespace_only(spec, namespace, forms).selector;
            let n = in_namespace(namespace);
            &&& s.len() >= n.len()
            &&& s.skip(s.len() - n.len()) == n
            &&& spec.selector.len() > 0 ==> s == "("@ + spec.selector + ") && "@ + n
            &&& spec.selector.len() == 0 ==> s == n
        }),
{
    let s = own_namespace_only(spec, namespace, forms).selector;
    let n = in_namespace(namespace);
    assert(s.skip(s.len() - n.len()) =~= n);
}

/// A peer of a rule that selects endpoints but no namespaces means, in a policy of a
/// namespace, endpoints of that namespace.
pub proof fn law_plain_peers_stay_in_the_namespace(
    er: EntityRuleView,
    namespace: Seq<char>,
    forms: Seq<(Seq<char>, Seq<char>)>,
)
    requires
        er.namespace_selector is None,
        er.selector matches Some(s) && s.len() > 0,
        namespace.len() > 0,
    ensures
        confined_side(er, Some(namespace), forms).selector == Some(
            "("@ + in_namespace(namespace) + ") && ("@ + er.selector->0 + ")"@,
        ),
{
    reveal_strlit("projectcalico.org/namespace");
    let n = in_namespace(namespace);
    assert(n.len() > 0);
    let r = "("@ + n + ") && ("@ + er.selector->0 + ")"@;
    assert(r.len() > 0);
}

/// A policy for all namespaces that selects none is left as it is, but for the namespaces
/// that its rules select.
pub proof fn law_unselective_policies_stay_global(
    spec: NetworkPolicySpecView,
    forms: Seq<(Seq<char>, Seq<char>)>,
)
    ensures
        selected_namespaces_only(spec, Seq::empty(), forms).selector == spec.selector,
        selected_namespaces_only(spec, Seq::empty(), forms).types == spec.types,
        forall|er: EntityRuleView|
            er.namespace_selector is None ==> (#[trigger] confined_side(er, None, forms)).selector
                == (match er.selector {
                Some(s) => if s.len() > 0 {
                    Some(s)
                } else {
                    None
                },
                None => None,
            }),
{
}

/// A selector of namespaces is read in the form that is listed first for it, and as it stands
/// where none is.
pub proof fn law_first_listed_form_is_taken(
    forms: Seq<(Seq<char>, Seq<char>)>,
    selector: Seq<char>,
    i: int,
)
    requires
        0 <= i <= forms.len(),
        forall|j: int| 0 <= j < i ==> (#[trigger] forms[j]).0 != selector,
        i < forms.len() ==> forms[i].0 == selector,
    ensures
        i < forms.len() ==> form_from(forms, selector, 0) == forms[i].1,
        i == forms.len() ==> form_from(forms, selector, 0) == selector,
{
    lemma_form_from(forms, selector, 0, i);
}

/// The lookup from a position on.
proof fn lemma_form_from(
    forms: Seq<(Seq<char>, Seq<char>)>,
    selector: Seq<char>,
    k: int,
    i: int,
)
    requires
        0 <= k <= i <= forms.len(),
        forall|j: int| k <= j < i ==> (#[trigger] forms[j]).0 != selector,
        i < forms.len() ==> forms[i].0 == selector,
    ensures
        i < forms.len() ==> form_from(forms, selector, k) == forms[i].1,
        i == forms.len() ==> form_from(forms, selector, k) == selector,
    decreases i - k,
{
    if k < i {
        lemma_form_from(forms, selector, k + 1, i);
    }
}

/// A side of a rule, with its selector of namespaces in the form that is listed for it.
pub open spec fn read_side(er: EntityRuleView, forms: Seq<(Seq<char>, Seq<char>)>) -> EntityRuleView {
    EntityRuleView {
        namespace_selector: match er.namespace_selector {
            Some(s) => Some(form_from(forms, s, 0)),
            None => None,
        },
        ..er
    }
}

/// A scoped rule speaks of endpoints alone, and of the same flows as the rule that it came
/// from in a policy of that namespace: the sender is who the source side is about, the
/// receiver who the destination side is about. It does the same with them.
pub proof fn law_scoped_rule_concerns_the_same_flows(
    r: RuleView,
    namespace: Option<Seq<char>>,
    forms: Seq<(Seq<char>, Seq<char>)>,
    flow: Flow,
)
    requires
        flow.source.reads_conjunctions(),
        flow.destination.reads_conjunctions(),
    ensures
        ({
            let s = confined_rule(r, namespace, forms);
            let read = RuleView {
                source: read_side(r.source, forms),
                destination: read_side(r.destination, forms),
                ..r
            };
            &&& s.source.namespace_selector is None
            &&& s.destination.namespace_selector is None
            &&& s.action == r.action
            &&& concerns(flow, s, None) <==> concerns(flow, read, namespace)
        }),
{
    lemma_side_selector(flow.source, read_side(r.source, forms), namespace);
    lemma_side_selector(flow.destination, read_side(r.destination, forms), namespace);
}

/// A policy that is kept to its own namespace applies to the endpoints of that namespace that
/// its selector picks. Its ingress rules come from its ingress rules and its egress rules from
/// its egress rules, one for one, and are about the same flows. Nothing else of it changes.
pub proof fn law_own_namespace_keeps_the_rest(
    spec: NetworkPolicySpecView,
    namespace: Seq<char>,
    forms: Seq<(Seq<char>, Seq<char>)>,
    target: Party,
    flow: Flow,
)
    requires
        target.reads_conjunctions(),
        flow.source.reads_conjunctions(),
        flow.destination.reads_conjunctions(),
    ensures
        ({
            let s = own_namespace_only(spec, namespace, forms);
            let own = "projectcalico.org/namespace"@ + " == '"@ + namespace + "'"@;
            &&& s.tier == spec.tier
            &&& s.order == spec.order
            &&& s.types == spec.types
            &&& (target.picked_by)(s.selector) <==> (spec.selector.len() > 0 ==> (
            target.picked_by)(spec.selector)) && (target.picked_by)(own)
            &&& same_flows(flow, spec.ingress, s.ingress, Some(namespace), forms)
            &&& same_flows(flow, spec.egress, s.egress, Some(namespace), forms)
        }),
{
    lemma_same_flows(flow, spec.ingress, Some(namespace), forms);
    lemma_same_flows(flow, spec.egress, Some(namespace), forms);
    let own = in_namespace(namespace);
    assert((target.picked_by)("("@ + spec.selector + ") && "@ + own) <==> (target.picked_by)(
        spec.selector,
    ) && (target.picked_by)(own));
}

/// Whether scoped rules are about the same flows as the rules of a policy of the namespace,
/// one for one, and do the same with them.
pub open spec fn same_flows(
    flow: Flow,
    rules: Seq<RuleView>,
    scoped: Seq<RuleView>,
    namespace: Option<Seq<char>>,
    forms: Seq<(Seq<char>, Seq<char>)>,
) -> bool {
    &&& scoped.len() == rules.len()
    &&& forall|i: int|
        0 <= i < rules.len() ==> (concerns(flow, #[trigger] scoped[i], None) <==> concerns(
            flow,
            RuleView {
                source: read_side(rules[i].source, forms),
                destination: read_side(rules[i].destination, forms),
                ..rules[i]
            },
            namespace,
        )) && scoped[i].action == rules[i].action
}

/// Scoping keeps what rules are about.
proof fn lemma_same_flows(
    flow: Flow,
    rules: Seq<RuleView>,
    namespace: Option<Seq<char>>,
    forms: Seq<(Seq<char>, Seq<char>)>,
)
    requires
        flow.source.reads_conjunctions(),
        flow.destination.reads_conjunctions(),
    ensures
        same_flows(flow, rules, confined_rules(rules, namespace, forms), namespace, forms),
{
    let scoped = confined_rules(rules, namespace, forms);
    assert forall|i: int| 0 <= i < rules.len() implies (concerns(flow, #[trigger] scoped[i], None)
        <==> concerns(
        flow,
        RuleView {
            source: read_side(rules[i].source, forms),
            destination: read_side(rules[i].destination, forms),
            ..rules[i]
        },
        namespace,
    )) && scoped[i].action == rules[i].action by {
        law_scoped_rule_concerns_the_same_flows(rules[i], namespace, forms, flow);
    }
}

/// Whether an endpoint is in a namespace, so that `all()` says the same of it as that it has
/// one.
pub open spec fn has_namespace(target: Party) -> bool {
    forall|s: Seq<char>|
        #[trigger] (target.picked_by)(
            replace_all(s, "all()"@, "has(projectcalico.org/namespace)"@),
        ) <==> (target.picked_by)(s)
}

/// A policy that is kept to selected namespaces applies, of the endpoints that are in a
/// namespace, to those that its selector picks and whose namespace is selected; without a
/// selector of namespaces it applies to all that its selector picks. Its rules are about the
/// same flows, direction by direction, and nothing else of it changes.
pub proof fn law_selected_namespaces_keep_the_rest(
    spec: NetworkPolicySpecView,
    namespace_selector: Seq<char>,
    forms: Seq<(Seq<char>, Seq<char>)>,
    target: Party,
    flow: Flow,
)
    requires
        target.reads_conjunctions(),
        has_namespace(target),
        flow.source.reads_conjunctions(),
        flow.destination.reads_conjunctions(),
    ensures
        ({
            let s = selected_namespaces_only(spec, namespace_selector, forms);
            let form = form_from(forms, namespace_selector, 0);
            &&& s.tier == spec.tier
            &&& s.order == spec.order
            &&& s.types == spec.types
            &&& namespace_selector.len() == 0 ==> s.selector == spec.selector
            &&& namespace_selector.len() > 0 ==> ((target.picked_by)(s.selector) <==> (
            spec.selector.len() > 0 ==> (target.picked_by)(spec.selector)) && (target.picked_by)(
                form,
            ))
            &&& same_flows(flow, spec.ingress, s.ingress, None, forms)
            &&& same_flows(flow, spec.egress, s.egress, None, forms)
        }),
{
    lemma_same_flows(flow, spec.ingress, None, forms);
    lemma_same_flows(flow, spec.egress, None, forms);
    let form = form_from(forms, namespace_selector, 0);
    assert((target.picked_by)("("@ + spec.selector + ") && "@ + form) <==> (target.picked_by)(
        spec.selector,
    ) && (target.picked_by)(form));
}

/// The selectors of namespaces that are to be read are those that the rules' sides hold, of
/// either side, and no others.
pub proof fn law_every_namespace_selector_is_listed(rules: Seq<RuleView>, s: Seq<char>)
    ensures
        concat_first(
            rules.map_values(|x: RuleView| rule_namespace_selectors(x)),
            rules.len(),
        ).contains(s) <==> s.len() > 0 && exists|i: int|
            0 <= i < rules.len() && ((#[trigger] rules[i]).source.namespace_selector == Some(s)
                || rules[i].destination.namespace_selector == Some(s)),
{
    lemma_listed_selectors(rules, rules.len(), s);
}

/// The selectors of namespaces of the first `n` rules.
proof fn lemma_listed_selectors(rules: Seq<RuleView>, n: nat, s: Seq<char>)
    requires
        n <= rules.len(),
    ensures
        concat_first(
            rules.map_values(|x: RuleView| rule_namespace_selectors(x)),
            n,
        ).contains(s) <==> s.len() > 0 && exists|i: int|
            0 <= i < n && ((#[trigger] rules[i]).source.namespace_selector == Some(s)
                || rules[i].destination.namespace_selector == Some(s)),
    decreases n,
{
    if n > 0 {
        let m = (n - 1) as nat;
        lemma_listed_selectors(rules, m, s);
        let blocks = rules.map_values(|x: RuleView| rule_namespace_selectors(x));
        let head = concat_first(blocks, m);
        let last = blocks[m as int];
        let all = concat_first(blocks, n);
        let r = rules[m as int];
        let src = asked_of_namespaces(r.source.namespace_selector);
        let dst = asked_of_namespaces(r.destination.namespace_selector);
        assert(last == src + dst);
        assert(all == head + last);
        if all.contains(s) {
            let i = all.index_of(s);
            if i < head.len() {
                assert(head[i] == s);
                assert(head.contains(s));
            } else {
                assert(last[i - head.len()] == s);
            }
        }
        if s.len() > 0 && exists|i: int|
            0 <= i < n && ((#[trigger] rules[i]).source.namespace_selector == Some(s)
                || rules[i].destination.namespace_selector == Some(s)) {
            let i = choose|i: int|
                0 <= i < n && ((#[trigger] rules[i]).source.namespace_selector == Some(s)
                    || rules[i].destination.namespace_selector == Some(s));
            if i < m {
                assert(head.contains(s));
                assert(all[head.index_of(s)] == s);
            } else if r.source.namespace_selector == Some(s) {
                assert(src[0] == s);
                assert(all[head.len() as int] == s);
            } else {
                assert(dst[0] == s);
                assert(all[(head.len() + src.len()) as int] == s);
            }
        }
    }
}

} // verus!
