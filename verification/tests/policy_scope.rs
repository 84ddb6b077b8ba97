use calico::policy_scope::{
    namespace_selectors, scope_global_network_policy, scope_network_policy,
};
use calico::resources::{Action, EntityRule, NetworkPolicySpec, Rule};

fn rule(source: EntityRule, destination: EntityRule) -> Rule {
    Rule {
        action: Action::Allow,
        protocol: None,
        source,
        destination,
    }
}

fn side(selector: Option<&str>, namespaces: Option<&str>) -> EntityRule {
    EntityRule {
        selector: selector.map(str::to_string),
        namespace_selector: namespaces.map(str::to_string),
        nets: vec!["10.0.0.0/8".to_string()],
        ..Default::default()
    }
}

fn forms() -> Vec<(String, String)> {
    vec![("a == 'b'".to_string(), "pcns.a == \"b\"".to_string())]
}

fn policy(selector: &str, rules: Vec<Rule>) -> NetworkPolicySpec {
    NetworkPolicySpec {
        selector: selector.to_string(),
        egress: rules,
        ..Default::default()
    }
}

#[test]
fn peers_of_a_namespaced_policy_are_confined() {
    let spec = scope_network_policy(
        policy(
            "",
            vec![
                rule(side(None, None), side(Some("x == 'y'"), None)),
                rule(side(None, Some("a == 'b'")), side(Some("x == 'y'"), Some("a == 'b'"))),
                rule(side(None, Some("all()")), side(None, Some("global()"))),
            ],
        ),
        "prod",
        &forms(),
    );
    assert_eq!(spec.selector, "projectcalico.org/namespace == 'prod'");
    let got = |i: usize| {
        let r = &spec.egress[i];
        (r.source.selector.as_deref(), r.destination.selector.as_deref())
    };
    assert_eq!(
        got(0),
        (
            None,
            Some("(projectcalico.org/namespace == 'prod') && (x == 'y')")
        )
    );
    assert_eq!(
        got(1),
        (
            Some("pcns.a == \"b\""),
            Some("(pcns.a == \"b\") && (x == 'y')")
        )
    );
    assert_eq!(
        got(2),
        (
            Some("has(projectcalico.org/namespace)"),
            Some("!has(projectcalico.org/namespace)")
        )
    );
    for r in &spec.egress {
        assert_eq!(r.source.namespace_selector, None);
        assert_eq!(r.source.nets, vec!["10.0.0.0/8".to_string()]);
    }
}

#[test]
fn global_policies_are_confined_where_they_select_namespaces() {
    let rules = || vec![rule(side(Some("x"), None), side(None, None))];
    let plain = scope_global_network_policy(policy("all()", rules()), "", &forms());
    assert_eq!(plain.selector, "all()");
    assert_eq!(plain.egress[0].source.selector.as_deref(), Some("x"));
    let bare = scope_global_network_policy(policy("", rules()), "a == 'b'", &forms());
    assert_eq!(bare.selector, "pcns.a == \"b\"");
    let both = scope_global_network_policy(policy("r == 's'", rules()), "a == 'b'", &forms());
    assert_eq!(both.selector, "(r == 's') && pcns.a == \"b\"");
    let unread = scope_global_network_policy(policy("r == 's'", rules()), "? ?", &forms());
    assert_eq!(unread.selector, "(r == 's') && ? ?");
}

#[test]
fn namespace_selectors_are_gathered() {
    let rules = vec![
        rule(side(None, Some("one")), side(None, Some(""))),
        rule(side(Some("x"), None), side(None, Some("two"))),
    ];
    assert_eq!(
        namespace_selectors(&rules),
        vec!["one".to_string(), "two".to_string()]
    );
}
