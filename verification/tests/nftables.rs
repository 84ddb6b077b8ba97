use calico::nftables::{
    drift_between, drifted_positions, token, Action, Chain, Match, Rule, HASH_LENGTH,
};

fn chain(name: &str, rules: Vec<Rule>) -> Chain {
    Chain::new(name, rules)
}

fn allow_from(ipset: &str, port: u16) -> Rule {
    Rule::new(Action::Accept)
        .with_match(Match::Protocol("tcp".into()))
        .with_match(Match::SrcIpSet(ipset.into()))
        .with_match(Match::DestPort(port))
}

#[test]
fn hashes_are_deterministic_and_right_length() {
    let c = chain(
        "cali-fw-cali123",
        vec![allow_from("s:web", 443), Rule::new(Action::Drop)],
    );
    let h1 = c.rule_hashes();
    let h2 = c.rule_hashes();
    assert_eq!(h1, h2);
    assert_eq!(h1.len(), 2);
    assert!(h1.iter().all(|h| h.len() == HASH_LENGTH));
    assert_ne!(h1[0], h1[1]);
}

#[test]
fn tokens_are_url_safe() {
    let rules: Vec<Rule> = (0..40).map(|p| allow_from("s:web", p)).collect();
    let hashes = chain("cali-fw-cali123", rules).rule_hashes();
    assert_eq!(hashes.len(), 40);
    for h in hashes {
        assert_eq!(h.chars().count(), 16);
        assert!(h
            .chars()
            .all(|c| c.is_ascii_alphanumeric() || c == '-' || c == '_'));
    }
}

#[test]
fn chain_name_salts_the_hashes() {
    let rules = vec![allow_from("s:web", 443)];
    let a = chain("cali-A", rules.clone()).rule_hashes();
    let b = chain("cali-B", rules).rule_hashes();
    assert_ne!(
        a[0], b[0],
        "identical rule in different chains must hash differently"
    );
}

#[test]
fn position_affects_hash() {
    let r = allow_from("s:web", 443);
    let drop = Rule::new(Action::Drop);
    let first = chain("c", vec![r.clone(), drop.clone()]).rule_hashes();
    let second = chain("c", vec![drop, r]).rule_hashes();
    assert_ne!(first[0], second[1]);
}

#[test]
fn changing_a_rule_changes_it_and_all_following() {
    let base = chain(
        "c",
        vec![
            allow_from("s:web", 443),
            allow_from("s:api", 8080),
            Rule::new(Action::Drop),
        ],
    );
    let changed = chain(
        "c",
        vec![
            allow_from("s:web", 8443),
            allow_from("s:api", 8080),
            Rule::new(Action::Drop),
        ],
    );
    let hb = base.rule_hashes();
    let hc = changed.rule_hashes();
    assert_ne!(hb[0], hc[0]);
    assert_ne!(hb[1], hc[1]);
    assert_ne!(hb[2], hc[2]);
}

#[test]
fn drift_detection() {
    let c = chain("c", vec![allow_from("s:web", 443), Rule::new(Action::Drop)]);
    let current = c.rule_hashes();
    // In sync.
    assert!(drifted_positions(&c, &current).is_empty());
    // Changed at position 1.
    let mut tampered = current.clone();
    tampered[1] = "XXXXXXXXXXXXXXXX".to_string();
    assert_eq!(drifted_positions(&c, &tampered), vec![1]);
    // The last rule is missing.
    assert_eq!(drifted_positions(&c, &current[..1]), vec![1]);
    // There is one rule too many.
    let mut extra = current.clone();
    extra.push("stale-hash-000000".to_string());
    assert_eq!(drifted_positions(&c, &extra), vec![2]);
}

#[test]
fn tokens_are_the_first_characters_of_the_digest() {
    let digest: Vec<u8> = (0u8..28).collect();
    assert_eq!(token(&digest), "AAECAwQFBgcICQoL");
    assert_eq!(
        drift_between(&vec!["a".into(), "b".into()], &["b".to_string()]),
        vec![0, 1]
    );
}

#[test]
fn rules_render_for_their_hash() {
    let text = allow_from("s", 1).render_for_hash();
    assert!(text.contains("tcp") && text.contains('s') && text.contains('1'));
    assert_ne!(
        Rule::new(Action::Jump("a".into())).render_for_hash(),
        Rule::new(Action::Goto("a".into())).render_for_hash()
    );
}
