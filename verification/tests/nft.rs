use calico::nft::{
    hex_text, render_chain_updates, BaseHook, ChainType, NftChain, NftMatch, NftRule, NftSet,
    NftTable, Verdict,
};

#[test]
fn renders_valid_nft_document() {
    let t = NftTable::new(
        "inet",
        "calico",
        vec![NftChain::base(
            "input",
            BaseHook {
                chain_type: ChainType::Filter,
                hook: "input".into(),
                priority: 0,
                policy_accept: true,
            },
            vec![
                NftRule::new(Verdict::Accept)
                    .with(NftMatch::L4Proto("tcp".into()))
                    .with(NftMatch::DestPort(443))
                    .with(NftMatch::SrcAddr("10.0.0.0/24".into()))
                    .comment("allow-web"),
                NftRule::new(Verdict::Drop),
            ],
        )],
    );
    let doc = t.render();
    assert!(doc.contains("flush table inet calico"));
    assert!(doc.contains("type filter hook input priority 0; policy accept;"));
    assert!(doc.contains("th dport 443 ip saddr 10.0.0.0/24 accept comment \"allow-web\""));
    assert!(doc.trim_end().ends_with('}'));
}

#[test]
fn chain_updates_are_non_destructive_and_ordered() {
    let base = NftChain::base(
        "cali-forward",
        BaseHook {
            chain_type: ChainType::Filter,
            hook: "forward".into(),
            priority: 0,
            policy_accept: true,
        },
        vec![NftRule::new(Verdict::Jump("cali-tw-cali123".into()))
            .with(NftMatch::OutInterface("cali123".into()))],
    );
    let tw = NftChain::regular(
        "cali-tw-cali123",
        vec![
            NftRule::new(Verdict::Jump("cali-pi-default-allow".into())),
            NftRule::new(Verdict::Drop).comment("default deny"),
        ],
    );
    let pol = NftChain::regular(
        "cali-pi-default-allow",
        vec![NftRule::new(Verdict::Accept).with(NftMatch::SrcSet("cali40abc".into()))],
    );
    let doc = render_chain_updates(
        "inet",
        "calico",
        &[base, tw, pol],
        &["cali-pi-default-stale".to_string()],
    );

    // Neither the table nor the ruleset is flushed: that would take the sets along.
    assert!(!doc.contains("flush table"), "must not flush the table");
    assert!(!doc.contains("flush ruleset"), "must not flush the ruleset");
    assert!(doc.contains("add table inet calico"));
    assert!(doc.contains(
        "add chain inet calico cali-forward { type filter hook forward priority 0; policy accept; }"
    ));
    assert!(doc.contains("add chain inet calico cali-tw-cali123"));
    assert!(doc.contains("flush chain inet calico cali-tw-cali123"));
    assert!(doc.contains("add rule inet calico cali-tw-cali123 jump cali-pi-default-allow"));
    assert!(doc.contains("add rule inet calico cali-pi-default-allow ip saddr @cali40abc accept"));
    assert!(doc
        .contains("add rule inet calico cali-forward oifname \"cali123\" jump cali-tw-cali123"));
    assert!(doc.contains("flush chain inet calico cali-pi-default-stale"));
    assert!(doc.contains("delete chain inet calico cali-pi-default-stale"));

    // Every chain is there before the first rule, and chains go last.
    let first_add_rule = doc.find("add rule").unwrap();
    let last_add_chain = doc.rfind("add chain").unwrap();
    assert!(
        last_add_chain < first_add_rule,
        "all chains created before rules"
    );
    let delete_pos = doc.find("delete chain").unwrap();
    assert!(
        delete_pos > first_add_rule,
        "chains deleted after rules re-added"
    );
}

#[test]
fn verdicts_and_matches_render() {
    assert_eq!(Verdict::Jump("cali-fw".into()).render(), "jump cali-fw");
    assert_eq!(
        NftMatch::InInterface("cali123".into()).render(),
        "iifname \"cali123\""
    );
    assert_eq!(
        NftMatch::SrcAddr("1.2.3.0/24".into()).render(),
        "ip saddr 1.2.3.0/24"
    );
}

#[test]
fn accept_mark_verdicts_and_match_render() {
    assert_eq!(
        Verdict::SetAcceptMarkReturn.render(),
        "meta mark set meta mark or 0x01000000 return"
    );
    assert_eq!(
        Verdict::ClearAcceptMark.render(),
        "meta mark set meta mark and 0xfeffffff"
    );
    assert_eq!(
        NftMatch::AcceptMarkSet.render(),
        "meta mark & 0x01000000 == 0x01000000"
    );
    let rule = NftRule::new(Verdict::Return).with(NftMatch::AcceptMarkSet);
    assert_eq!(rule.render(), "meta mark & 0x01000000 == 0x01000000 return");
}

#[test]
fn the_other_verdicts_and_matches_render() {
    assert_eq!(Verdict::Accept.render(), "accept");
    assert_eq!(Verdict::Drop.render(), "drop");
    assert_eq!(Verdict::Return.render(), "return");
    assert_eq!(Verdict::Goto("x".into()).render(), "goto x");
    assert_eq!(Verdict::Masquerade.render(), "masquerade");
    assert_eq!(
        NftMatch::L4Proto("udp".into()).render(),
        "meta l4proto udp"
    );
    assert_eq!(NftMatch::DestPort(53).render(), "th dport 53");
    assert_eq!(NftMatch::SrcPort(1024).render(), "th sport 1024");
    assert_eq!(
        NftMatch::DestAddr("10.0.0.1".into()).render(),
        "ip daddr 10.0.0.1"
    );
    assert_eq!(
        NftMatch::OutInterface("eth0".into()).render(),
        "oifname \"eth0\""
    );
    assert_eq!(NftMatch::SrcSet("s".into()).render(), "ip saddr @s");
    assert_eq!(NftMatch::DestSet("s".into()).render(), "ip daddr @s");
}

#[test]
fn a_whole_table_renders() {
    let t = NftTable::new(
        "ip",
        "t",
        vec![NftChain::base(
            "post",
            BaseHook {
                chain_type: ChainType::Nat,
                hook: "postrouting".into(),
                priority: -100,
                policy_accept: false,
            },
            vec![NftRule::new(Verdict::Masquerade)],
        )],
    )
    .with_sets(vec![NftSet {
        name: "s".into(),
        elements: vec!["10.0.0.1".into(), "10.0.0.2".into()],
    }]);
    let doc = t.render();
    assert!(doc.contains("type nat hook postrouting priority -100; policy drop;"));
    assert!(doc.contains("10.0.0.1, 10.0.0.2"));
    let set_at = doc.find("set s").unwrap();
    let chain_at = doc.find("chain post").unwrap();
    assert!(set_at < chain_at);
    assert_eq!(t.clone(), t);
    assert_eq!(hex_text(0x0100_0000, 8), "01000000");
}
