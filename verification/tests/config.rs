use calico::config::{
    parse_bool, parse_e2h, parse_iptables_backend, parse_log_level, parse_nftables_mode,
    parse_port_list, parse_u16, parse_u64, EndpointToHostAction, FelixConfig, IptablesBackend,
    LogLevel, NftablesMode,
};
use calico::ordmap::{Labels, OrdMap};

fn map(pairs: &[(&str, &str)]) -> Labels {
    let mut m: Labels = OrdMap::new();
    for (k, v) in pairs {
        m.insert(k.to_string(), v.to_string());
    }
    m
}

#[test]
fn defaults_are_sane() {
    let c = FelixConfig::default();
    assert_eq!(c.interface_prefix, "cali");
    assert_eq!(c.nftables_mode, NftablesMode::Disabled);
    assert!(!c.bpf_enabled);
    assert!(c.failsafe_inbound_host_ports.contains(&179)); // BGP
    c.validate().unwrap();
}

#[test]
fn env_layer_overrides_datastore_layer() {
    let datastore = map(&[("LogSeverityScreen", "Warning"), ("BPFEnabled", "false")]);
    let env = map(&[("FELIX_BPFENABLED", "true")]);
    let c = FelixConfig::from_layers(&[&datastore, &env]).unwrap();
    assert!(c.bpf_enabled);
    assert_eq!(c.log_severity_screen, LogLevel::Warning);
}

#[test]
fn parses_enums_bool_and_port_list() {
    let c = FelixConfig::from_layers(&[&map(&[
        ("IptablesBackend", "nft"),
        ("NFTablesMode", "Enabled"),
        ("DefaultEndpointToHostAction", "Return"),
        ("PrometheusMetricsEnabled", "yes"),
        ("FailsafeInboundHostPorts", "22,179,6443"),
    ])])
    .unwrap();
    assert_eq!(c.iptables_backend, IptablesBackend::Nft);
    assert_eq!(c.nftables_mode, NftablesMode::Enabled);
    assert_eq!(
        c.default_endpoint_to_host_action,
        EndpointToHostAction::Return
    );
    assert!(c.prometheus_metrics_enabled);
    assert_eq!(c.failsafe_inbound_host_ports, vec![22, 179, 6443]);
}

#[test]
fn unknown_keys_ignored() {
    let c = FelixConfig::from_layers(&[&map(&[("SomeFutureParam", "x")])]).unwrap();
    assert_eq!(c, FelixConfig::default());
}

#[test]
fn invalid_values_error() {
    assert!(FelixConfig::from_layers(&[&map(&[("BPFEnabled", "maybe")])]).is_err());
    assert!(FelixConfig::from_layers(&[&map(&[("HealthPort", "not-a-port")])]).is_err());
    assert!(FelixConfig::from_layers(&[&map(&[("LogSeverityScreen", "loud")])]).is_err());
}

#[test]
fn conflicting_dataplanes_rejected() {
    let err = FelixConfig::from_layers(&[&map(&[
        ("BPFEnabled", "true"),
        ("NFTablesMode", "Enabled"),
    ])])
    .unwrap_err();
    assert!(err.0.contains("mutually exclusive"));
}

#[test]
fn restart_required_only_for_restart_fields() {
    let base = FelixConfig::default();

    // Live change: log level only.
    let mut live = base.clone();
    live.log_severity_screen = LogLevel::Debug;
    live.iptables_refresh_interval_secs = 30;
    assert!(!base.requires_restart(&live));

    // Restart change: switching on the eBPF dataplane.
    let mut restart = base.clone();
    restart.bpf_enabled = true;
    assert!(base.requires_restart(&restart));

    // Restart change: metrics port.
    let mut port = base.clone();
    port.prometheus_metrics_port = 9200;
    assert!(base.requires_restart(&port));
}

#[test]
fn every_parameter_can_be_set() {
    let c = FelixConfig::from_layers(&[&map(&[
        ("InterfacePrefix", "tap"),
        ("FelixHostname", "node-1"),
        ("PrometheusMetricsPort", "9300"),
        ("HealthPort", "9400"),
        ("IptablesRefreshInterval", "5"),
        ("RouteRefreshInterval", "6"),
        ("FailsafeOutboundHostPorts", " 53 , 67"),
        ("LogSeverityScreen", "DEBUG"),
    ])])
    .unwrap();
    assert_eq!(c.interface_prefix, "tap");
    assert_eq!(c.felix_hostname, "node-1");
    assert_eq!(c.prometheus_metrics_port, 9300);
    assert_eq!(c.health_port, 9400);
    assert_eq!(c.iptables_refresh_interval_secs, 5);
    assert_eq!(c.route_refresh_interval_secs, 6);
    assert_eq!(c.failsafe_outbound_host_ports, vec![53, 67]);
    assert_eq!(c.log_severity_screen, LogLevel::Debug);
}

#[test]
fn values_are_read() {
    assert_eq!(parse_bool(" Yes "), Ok(true));
    assert_eq!(parse_bool("0"), Ok(false));
    assert!(parse_bool("").is_err());
    assert_eq!(parse_u16(" 65535 "), Ok(65535));
    assert!(parse_u16("65536").is_err());
    assert_eq!(parse_u64("18446744073709551615"), Ok(u64::MAX));
    assert!(parse_u64("-1").is_err());
    assert_eq!(parse_log_level("warn"), Ok(LogLevel::Warning));
    assert_eq!(parse_iptables_backend("AUTO"), Ok(IptablesBackend::Auto));
    assert!(parse_iptables_backend("x").is_err());
    assert_eq!(parse_nftables_mode("disabled"), Ok(NftablesMode::Disabled));
    assert!(parse_nftables_mode("x").is_err());
    assert_eq!(parse_e2h("accept"), Ok(EndpointToHostAction::Accept));
    assert!(parse_e2h("x").is_err());
    assert_eq!(parse_port_list(""), Ok(vec![]));
    assert!(parse_port_list("22,x").is_err());
}

#[test]
fn errors_name_the_value() {
    let e = parse_bool(" Maybe ").unwrap_err();
    assert_eq!(e.0, "invalid bool: maybe");
    assert_eq!(parse_u16(" x ").unwrap_err().0, "invalid u16:  x ");
    assert_eq!(parse_port_list("22,").unwrap_err().0, "invalid u16: ");
    assert_eq!(parse_log_level("Loud").unwrap_err().0, "invalid log level: loud");
    assert_eq!(
        parse_e2h("x").unwrap_err().0,
        "invalid defaultEndpointToHostAction: X"
    );
    assert!(e.text().ends_with(&e.0));
    assert_eq!(e.clone(), e);
}

#[test]
fn later_layers_prevail_over_earlier_ones() {
    let a = map(&[("HealthPort", "1"), ("InterfacePrefix", "a")]);
    let b = map(&[("HealthPort", "2")]);
    let c = FelixConfig::from_layers(&[&a, &b]).unwrap();
    assert_eq!((c.health_port, c.interface_prefix.as_str()), (2, "a"));
    let d = FelixConfig::from_layers(&[&b, &a]).unwrap();
    assert_eq!(d.health_port, 1);
    let mut e = FelixConfig::default();
    e.apply_overrides(&b).unwrap();
    assert_eq!(e.health_port, 2);
}

#[test]
fn overrides_touch_only_what_they_name() {
    let mut c = FelixConfig::default();
    // The keys apply in ascending order, and the second cannot be read.
    let layer = map(&[
        ("FELIX_HealthPort", "1"),
        ("bpfenabled", "maybe"),
        ("routerefreshinterval", "5"),
    ]);
    assert!(c.apply_overrides(&layer).is_err());
    let expected = FelixConfig {
        health_port: 1,
        ..FelixConfig::default()
    };
    assert_eq!(c, expected);
}

#[test]
fn overrides_succeed_only_where_all_are_readable() {
    for start in [
        FelixConfig::default(),
        FelixConfig {
            health_port: 7,
            bpf_enabled: true,
            ..FelixConfig::default()
        },
    ] {
        let mut c = start.clone();
        assert!(c
            .apply_overrides(&map(&[("healthport", "70000"), ("zzz", "?")]))
            .is_err());
        let mut c = start.clone();
        assert!(c
            .apply_overrides(&map(&[("healthport", "7000"), ("zzz", "?")]))
            .is_ok());
    }
}

#[test]
fn overrides_applied_again_change_nothing() {
    // Two keys of one parameter: the later one prevails, each time.
    let layer = map(&[
        ("FELIX_HEALTHPORT", "1"),
        ("HealthPort", "2"),
        ("FailsafeInboundHostPorts", ""),
        ("unknown", "x"),
    ]);
    let mut c = FelixConfig::default();
    c.apply_overrides(&layer).unwrap();
    assert_eq!(c.health_port, 2);
    assert_eq!(c.failsafe_inbound_host_ports, Vec::<u16>::new());
    let once = c.clone();
    c.apply_overrides(&layer).unwrap();
    assert_eq!(c, once);
}

#[test]
fn the_last_layer_that_names_a_parameter_prevails() {
    let file = map(&[("HealthPort", "1"), ("LogSeverityScreen", "debug"), ("BPFEnabled", "yes")]);
    let datastore = map(&[("felix_healthport", "2"), ("bpfenabled", "no")]);
    // Two keys of one parameter in one layer: the later key counts.
    let env = map(&[("FELIX_ROUTEREFRESHINTERVAL", "7"), ("RouteRefreshInterval", "8")]);
    let c = FelixConfig::from_layers(&[&file, &datastore, &env]).unwrap();
    let expected = FelixConfig {
        health_port: 2,
        bpf_enabled: false,
        log_severity_screen: LogLevel::Debug,
        route_refresh_interval_secs: 8,
        ..FelixConfig::default()
    };
    assert_eq!(c, expected);
    assert_eq!(FelixConfig::from_layers(&[]), Ok(FelixConfig::default()));
}
