use calico::model::{cidr_to_token, KVPair, Key, ResourceKind};

#[test]
fn cluster_scoped_resource_path() {
    let k = Key::Resource {
        kind: ResourceKind::IpPool,
        namespace: None,
        name: "default-pool".into(),
    };
    assert_eq!(k.path(), "/ippools/default-pool");
}

#[test]
fn namespaced_resource_path() {
    let k = Key::Resource {
        kind: ResourceKind::NetworkPolicy,
        namespace: Some("prod".into()),
        name: "deny-all".into(),
    };
    assert_eq!(k.path(), "/networkpolicies/prod/deny-all");
}

#[test]
fn resource_path_roundtrips() {
    for k in [
        Key::Resource {
            kind: ResourceKind::IpPool,
            namespace: None,
            name: "p".into(),
        },
        Key::Resource {
            kind: ResourceKind::WorkloadEndpoint,
            namespace: Some("ns".into()),
            name: "wep".into(),
        },
    ] {
        assert_eq!(Key::parse_resource(&k.path()), Some(k));
    }
}

#[test]
fn unknown_kind_does_not_parse() {
    assert_eq!(Key::parse_resource("/widgets/foo"), None);
}

#[test]
fn parse_cli_accepts_plural_singular_kind() {
    assert_eq!(
        ResourceKind::parse_cli("ippools"),
        Some(ResourceKind::IpPool)
    );
    assert_eq!(
        ResourceKind::parse_cli("ippool"),
        Some(ResourceKind::IpPool)
    );
    assert_eq!(
        ResourceKind::parse_cli("IPPool"),
        Some(ResourceKind::IpPool)
    );
    assert_eq!(
        ResourceKind::parse_cli("networkpolicy"),
        Some(ResourceKind::NetworkPolicy)
    );
    assert_eq!(
        ResourceKind::parse_cli("blockaffinities"),
        Some(ResourceKind::BlockAffinity)
    );
    assert_eq!(ResourceKind::parse_cli("nope"), None);
    assert!(ResourceKind::NetworkPolicy.is_namespaced());
    assert!(!ResourceKind::IpPool.is_namespaced());
}

#[test]
fn ipam_key_paths_are_token_safe() {
    assert_eq!(
        Key::Block {
            cidr: "10.0.0.0/26".into()
        }
        .path(),
        "/ipam/block/10-0-0-0-26"
    );
    assert_eq!(
        Key::BlockAffinity {
            host: "node-1".into(),
            cidr: "fd00::/122".into()
        }
        .path(),
        "/ipam/affinity/node-1/fd00---122"
    );
    assert_eq!(
        Key::IpamHandle {
            id: "net.abc".into()
        }
        .path(),
        "/ipam/handle/net.abc"
    );
}

#[test]
fn kvpair_revision_semantics() {
    let create = KVPair::new(Key::IpamHandle { id: "h".into() }, 42u32);
    assert_eq!(create.revision, None);
    let upd = KVPair::with_revision(Key::IpamHandle { id: "h".into() }, 43u32, 7);
    assert_eq!(upd.revision, Some(7));
}

#[test]
fn every_kind_reads_back_from_its_plural() {
    for kind in ResourceKind::ALL {
        assert_eq!(ResourceKind::from_str(kind.as_str()), Some(kind));
        assert_eq!(ResourceKind::parse_cli(kind.as_str()), Some(kind));
        assert_eq!(ResourceKind::parse_cli(kind.kind_name()), Some(kind));
    }
    assert_eq!(ResourceKind::from_str("IPPools"), None);
    // The Kelvin sign is a letter whose lower-case form is the plain k.
    assert_eq!(
        ResourceKind::parse_cli("bloc\u{212a}affinities"),
        Some(ResourceKind::BlockAffinity)
    );
}

#[test]
fn every_token_finds_its_kind_in_any_case() {
    for kind in ResourceKind::ALL {
        let plural = kind.as_str();
        let singular = match plural.strip_suffix("ies") {
            Some(stem) => format!("{stem}y"),
            None => plural[..plural.len() - 1].to_string(),
        };
        for token in [plural, singular.as_str(), kind.kind_name()] {
            assert_eq!(ResourceKind::parse_cli(token), Some(kind));
            assert_eq!(ResourceKind::parse_cli(&token.to_uppercase()), Some(kind));
            assert_eq!(ResourceKind::parse_cli(&token.to_lowercase()), Some(kind));
        }
        // Nothing else denotes it.
        assert_eq!(ResourceKind::parse_cli(&format!("{plural}s")), None);
        assert_eq!(ResourceKind::parse_cli(&format!("{plural}y")), None);
        assert_eq!(ResourceKind::parse_cli(&format!(" {plural}")), None);
    }
    assert_eq!(ResourceKind::parse_cli("ippoolsy"), None);
    assert_eq!(ResourceKind::parse_cli("networkpolicie"), None);
    assert_eq!(ResourceKind::parse_cli("blockaffinitie"), None);
    assert_eq!(ResourceKind::parse_cli(""), None);
    assert_eq!(ResourceKind::parse_cli("s"), None);
}

#[test]
fn paths_of_other_shapes_do_not_parse() {
    // Slashes at the beginning do not matter.
    assert_eq!(
        Key::parse_resource("ippools/p"),
        Key::parse_resource("//ippools/p")
    );
    assert_eq!(Key::parse_resource("/ippools"), None);
    assert_eq!(Key::parse_resource("/networkpolicies/a/b/c"), None);
    assert_eq!(Key::parse_resource(""), None);
    assert_eq!(cidr_to_token("fd00::1/64"), "fd00--1-64");
}
