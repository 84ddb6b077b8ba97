//! The configuration of the node agent.
//!
//! Layers of overrides are applied over the defaults, the later ones prevailing. Some
//! parameters can only change with a restart; the others change in place.

use crate::ordmap::Labels;
use crate::text::{
    has_prefix, lowercase, parse_unsigned, split, split_on, starts_with, str_eq, trim, trim_spec,
    unsigned_value, uppercase, views,
};
use vstd::prelude::*;
use vstd::string::*;

verus! {

broadcast use crate::text::lemma_views_push;

/// The least severity that is logged.
#[derive(Debug, Clone, Copy, PartialEq, Eq, Structural)]
pub enum LogLevel {
    /// Everything.
    Debug,
    /// What is normal.
    Info,
    /// What may be wrong.
    Warning,
    /// What is wrong.
    Error,
    /// What ends the agent.
    Fatal,
}

impl DeepView for LogLevel {
    type V = LogLevel;

    open spec fn deep_view(&self) -> LogLevel {
        *self
    }
}

/// How rules attach to the firewall of the host.
#[derive(Debug, Clone, Copy, PartialEq, Eq, Structural)]
pub enum IptablesBackend {
    /// The old tables.
    Legacy,
    /// nftables.
    Nft,
    /// Whichever is there.
    Auto,
}

impl DeepView for IptablesBackend {
    type V = IptablesBackend;

    open spec fn deep_view(&self) -> IptablesBackend {
        *self
    }
}

/// Whether the nftables dataplane is used.
#[derive(Debug, Clone, Copy, PartialEq, Eq, Structural)]
pub enum NftablesMode {
    /// It is.
    Enabled,
    /// It is not.
    Disabled,
    /// Where it can be.
    Auto,
}

impl DeepView for NftablesMode {
    type V = NftablesMode;

    open spec fn deep_view(&self) -> NftablesMode {
        *self
    }
}

/// What is done with traffic from workloads to the host.
#[derive(Debug, Clone, Copy, PartialEq, Eq, Structural)]
pub enum EndpointToHostAction {
    /// It is dropped.
    Drop,
    /// It goes on to the rules of the host.
    Return,
    /// It is accepted.
    Accept,
}

impl DeepView for EndpointToHostAction {
    type V = EndpointToHostAction;

    open spec fn deep_view(&self) -> EndpointToHostAction {
        *self
    }
}

/// Why a configuration is refused.
#[derive(Debug, PartialEq, Eq)]
pub struct ConfigError(pub String);

impl Clone for ConfigError {
    fn clone(&self) -> (r: Self)
        ensures
            r == *self,
    {
        ConfigError(self.0.clone())
    }
}

impl ConfigError {
    /// The refusal in words.
    pub fn text(&self) -> (r: String)
        ensures
            r@ == "felix config error: "@ + self.0@,
    {
        let mut s = "felix config error: ".to_owned();
        s.push_str(self.0.as_str());
        s
    }
}

/// The configuration of the node agent.
#[derive(Debug, PartialEq, Eq)]
pub struct FelixConfig {
    /// The prefix of workload interfaces. Needs a restart.
    pub interface_prefix: String,
    /// How rules attach to the firewall of the host. Needs a restart.
    pub iptables_backend: IptablesBackend,
    /// Whether the nftables dataplane is used. Needs a restart.
    pub nftables_mode: NftablesMode,
    /// Whether the eBPF dataplane is used. Needs a restart.
    pub bpf_enabled: bool,
    /// Whether metrics are served. Needs a restart.
    pub prometheus_metrics_enabled: bool,
    /// The port of the metrics. Needs a restart.
    pub prometheus_metrics_port: u16,
    /// The port of the health check. Needs a restart.
    pub health_port: u16,
    /// The name of the host.
    pub felix_hostname: String,
    /// The least severity that is logged.
    pub log_severity_screen: LogLevel,
    /// What is done with traffic from workloads to the host.
    pub default_endpoint_to_host_action: EndpointToHostAction,
    /// How often rules are programmed anew, in seconds.
    pub iptables_refresh_interval_secs: u64,
    /// How often routes are programmed anew, in seconds.
    pub route_refresh_interval_secs: u64,
    /// Ports of the host that stay reachable.
    pub failsafe_inbound_host_ports: Vec<u16>,
    /// Ports that the host can always reach.
    pub failsafe_outbound_host_ports: Vec<u16>,
}

/// The mathematical content of a [`FelixConfig`].
#[verifier::ext_equal]
pub struct FelixConfigView {
    pub interface_prefix: Seq<char>,
    pub iptables_backend: IptablesBackend,
    pub nftables_mode: NftablesMode,
    pub bpf_enabled: bool,
    pub prometheus_metrics_enabled: bool,
    pub prometheus_metrics_port: u16,
    pub health_port: u16,
    pub felix_hostname: Seq<char>,
    pub log_severity_screen: LogLevel,
    pub default_endpoint_to_host_action: EndpointToHostAction,
    pub iptables_refresh_interval_secs: u64,
    pub route_refresh_interval_secs: u64,
    pub failsafe_inbound_host_ports: Seq<u16>,
    pub failsafe_outbound_host_ports: Seq<u16>,
}

impl DeepView for FelixConfig {
    type V = FelixConfigView;

    open spec fn deep_view(&self) -> FelixConfigView {
        FelixConfigView {
            interface_prefix: self.interface_prefix.deep_view(),
            iptables_backend: self.iptables_backend,
            nftables_mode: self.nftables_mode,
            bpf_enabled: self.bpf_enabled,
            prometheus_metrics_enabled: self.prometheus_metrics_enabled,
            prometheus_metrics_port: self.prometheus_metrics_port,
            health_port: self.health_port,
            felix_hostname: self.felix_hostname.deep_view(),
            log_severity_screen: self.log_severity_screen,
            default_endpoint_to_host_action: self.default_endpoint_to_host_action,
            iptables_refresh_interval_secs: self.iptables_refresh_interval_secs,
            route_refresh_interval_secs: self.route_refresh_interval_secs,
            failsafe_inbound_host_ports: self.failsafe_inbound_host_ports.deep_view(),
            failsafe_outbound_host_ports: self.failsafe_outbound_host_ports.deep_view(),
        }
    }
}

impl Clone for FelixConfig {
    fn clone(&self) -> (r: Self)
        ensures
            r.deep_view() == self.deep_view(),
    {
        let r = FelixConfig {
            interface_prefix: self.interface_prefix.clone(),
            iptables_backend: self.iptables_backend,
            nftables_mode: self.nftables_mode,
            bpf_enabled: self.bpf_enabled,
            prometheus_metrics_enabled: self.prometheus_metrics_enabled,
            prometheus_metrics_port: self.prometheus_metrics_port,
            health_port: self.health_port,
            felix_hostname: self.felix_hostname.clone(),
            log_severity_screen: self.log_severity_screen,
            default_endpoint_to_host_action: self.default_endpoint_to_host_action,
            iptables_refresh_interval_secs: self.iptables_refresh_interval_secs,
            route_refresh_interval_secs: self.route_refresh_interval_secs,
            failsafe_inbound_host_ports: self.failsafe_inbound_host_ports.clone(),
            failsafe_outbound_host_ports: self.failsafe_outbound_host_ports.clone(),
        };
        assert(r.deep_view() =~= self.deep_view());
        r
    }
}

/// The configuration without overrides.
pub open spec fn defaults() -> FelixConfigView {
    FelixConfigView {
        interface_prefix: "cali"@,
        iptables_backend: IptablesBackend::Auto,
        nftables_mode: NftablesMode::Disabled,
        bpf_enabled: false,
        prometheus_metrics_enabled: false,
        prometheus_metrics_port: 9091,
        health_port: 9099,
        felix_hostname: Seq::empty(),
        log_severity_screen: LogLevel::Info,
        default_endpoint_to_host_action: EndpointToHostAction::Drop,
        iptables_refresh_interval_secs: 90,
        route_refresh_interval_secs: 90,
        failsafe_inbound_host_ports: seq![22u16, 68, 179, 2379, 2380, 5473, 6443, 6666, 6667],
        failsafe_outbound_host_ports: seq![53u16, 67, 179, 2379, 2380, 5473, 6443, 6666, 6667],
    }
}

impl Default for FelixConfig {
    fn default() -> (r: Self)
        ensures
            r.deep_view() == defaults(),
    {
        let inbound: Vec<u16> = vec![22, 68, 179, 2379, 2380, 5473, 6443, 6666, 6667];
        let outbound: Vec<u16> = vec![53, 67, 179, 2379, 2380, 5473, 6443, 6666, 6667];
        let r = FelixConfig {
            interface_prefix: "cali".to_owned(),
            iptables_backend: IptablesBackend::Auto,
            nftables_mode: NftablesMode::Disabled,
            bpf_enabled: false,
            prometheus_metrics_enabled: false,
            prometheus_metrics_port: 9091,
            health_port: 9099,
            felix_hostname: String::new(),
            log_severity_screen: LogLevel::Info,
            default_endpoint_to_host_action: EndpointToHostAction::Drop,
            iptables_refresh_interval_secs: 90,
            route_refresh_interval_secs: 90,
            failsafe_inbound_host_ports: inbound,
            failsafe_outbound_host_ports: outbound,
        };
        assert(r.deep_view() =~= defaults());
        r
    }
}

/// `words` followed by the offending text.
fn refuse(words: &str, text: &str) -> (r: ConfigError)
    ensures
        r.0@ == words@ + text@,
{
    let mut s = words.to_owned();
    s.push_str(text);
    ConfigError(s)
}

/// The text without surrounding white space, in lower case.
pub open spec fn folded(v: Seq<char>) -> Seq<char> {
    lowercase(trim_spec(v))
}

/// The text without surrounding white space, in lower case.
fn fold(v: &str) -> (r: String)
    ensures
        r@ == folded(v@),
{
    trim(v).as_str().to_lowercase()
}

/// The truth value of a folded text.
pub open spec fn bool_of(l: Seq<char>) -> Option<bool> {
    if l == "true"@ || l == "1"@ || l == "yes"@ {
        Some(true)
    } else if l == "false"@ || l == "0"@ || l == "no"@ {
        Some(false)
    } else {
        None
    }
}

/// Reads a truth value.
pub fn parse_bool(v: &str) -> (r: Result<bool, ConfigError>)
    ensures
        match bool_of(folded(v@)) {
            Some(b) => r == Ok::<bool, ConfigError>(b),
            None => r matches Err(e) && e.0@ == "invalid bool: "@ + folded(v@),
        },
{
    let l = fold(v);
    let s = l.as_str();
    if str_eq(s, "true") || str_eq(s, "1") || str_eq(s, "yes") {
        Ok(true)
    } else if str_eq(s, "false") || str_eq(s, "0") || str_eq(s, "no") {
        Ok(false)
    } else {
        Err(refuse("invalid bool: ", s))
    }
}

/// Reads a number of sixteen bits.
pub fn parse_u16(v: &str) -> (r: Result<u16, ConfigError>)
    ensures
        match unsigned_value(trim_spec(v@), 65535) {
            Some(n) => r == Ok::<u16, ConfigError>(n as u16),
            None => r matches Err(e) && e.0@ == "invalid u16: "@ + v@,
        },
{
    match parse_unsigned(trim(v).as_str(), 65535) {
        Some(n) => Ok(n as u16),
        None => Err(refuse("invalid u16: ", v)),
    }
}

/// Reads a number of sixty-four bits.
pub fn parse_u64(v: &str) -> (r: Result<u64, ConfigError>)
    ensures
        match unsigned_value(trim_spec(v@), u64::MAX as nat) {
            Some(n) => r == Ok::<u64, ConfigError>(n as u64),
            None => r matches Err(e) && e.0@ == "invalid u64: "@ + v@,
        },
{
    match parse_unsigned(trim(v).as_str(), u64::MAX) {
        Some(n) => Ok(n),
        None => Err(refuse("invalid u64: ", v)),
    }
}

/// The log level of a folded text.
pub open spec fn log_level_of(l: Seq<char>) -> Option<LogLevel> {
    if l == "debug"@ {
        Some(LogLevel::Debug)
    } else if l == "info"@ {
        Some(LogLevel::Info)
    } else if l == "warning"@ || l == "warn"@ {
        Some(LogLevel::Warning)
    } else if l == "error"@ {
        Some(LogLevel::Error)
    } else if l == "fatal"@ {
        Some(LogLevel::Fatal)
    } else {
        None
    }
}

/// Reads a log level.
pub fn parse_log_level(v: &str) -> (r: Result<LogLevel, ConfigError>)
    ensures
        match log_level_of(folded(v@)) {
            Some(x) => r == Ok::<LogLevel, ConfigError>(x),
            None => r matches Err(e) && e.0@ == "invalid log level: "@ + folded(v@),
        },
{
    let l = fold(v);
    let s = l.as_str();
    if str_eq(s, "debug") {
        Ok(LogLevel::Debug)
    } else if str_eq(s, "info") {
        Ok(LogLevel::Info)
    } else if str_eq(s, "warning") || str_eq(s, "warn") {
        Ok(LogLevel::Warning)
    } else if str_eq(s, "error") {
        Ok(LogLevel::Error)
    } else if str_eq(s, "fatal") {
        Ok(LogLevel::Fatal)
    } else {
        Err(refuse("invalid log level: ", s))
    }
}

/// The firewall backend of a folded text.
pub open spec fn iptables_backend_of(l: Seq<char>) -> Option<IptablesBackend> {
    if l == "legacy"@ {
        Some(IptablesBackend::Legacy)
    } else if l == "nft"@ || l == "nftables"@ {
        Some(IptablesBackend::Nft)
    } else if l == "auto"@ {
        Some(IptablesBackend::Auto)
    } else {
        None
    }
}

/// Reads a firewall backend.
pub fn parse_iptables_backend(v: &str) -> (r: Result<IptablesBackend, ConfigError>)
    ensures
        match iptables_backend_of(folded(v@)) {
            Some(x) => r == Ok::<IptablesBackend, ConfigError>(x),
            None => r matches Err(e) && e.0@ == "invalid iptablesBackend: "@ + folded(v@),
        },
{
    let l = fold(v);
    let s = l.as_str();
    if str_eq(s, "legacy") {
        Ok(IptablesBackend::Legacy)
    } else if str_eq(s, "nft") || str_eq(s, "nftables") {
        Ok(IptablesBackend::Nft)
    } else if str_eq(s, "auto") {
        Ok(IptablesBackend::Auto)
    } else {
        Err(refuse("invalid iptablesBackend: ", s))
    }
}

/// The nftables mode of a folded text.
pub open spec fn nftables_mode_of(l: Seq<char>) -> Option<NftablesMode> {
    if l == "enabled"@ {
        Some(NftablesMode::Enabled)
    } else if l == "disabled"@ {
        Some(NftablesMode::Disabled)
    } else if l == "auto"@ {
        Some(NftablesMode::Auto)
    } else {
        None
    }
}

/// Reads an nftables mode.
pub fn parse_nftables_mode(v: &str) -> (r: Result<NftablesMode, ConfigError>)
    ensures
        match nftables_mode_of(folded(v@)) {
            Some(x) => r == Ok::<NftablesMode, ConfigError>(x),
            None => r matches Err(e) && e.0@ == "invalid nftablesMode: "@ + folded(v@),
        },
{
    let l = fold(v);
    let s = l.as_str();
    if str_eq(s, "enabled") {
        Ok(NftablesMode::Enabled)
    } else if str_eq(s, "disabled") {
        Ok(NftablesMode::Disabled)
    } else if str_eq(s, "auto") {
        Ok(NftablesMode::Auto)
    } else {
        Err(refuse("invalid nftablesMode: ", s))
    }
}

/// The action of a text in upper case.
pub open spec fn e2h_of(u: Seq<char>) -> Option<EndpointToHostAction> {
    if u == "DROP"@ {
        Some(EndpointToHostAction::Drop)
    } else if u == "RETURN"@ {
        Some(EndpointToHostAction::Return)
    } else if u == "ACCEPT"@ {
        Some(EndpointToHostAction::Accept)
    } else {
        None
    }
}

/// Reads what is done with traffic from workloads to the host.
pub fn parse_e2h(v: &str) -> (r: Result<EndpointToHostAction, ConfigError>)
    ensures
        match e2h_of(uppercase(trim_spec(v@))) {
            Some(x) => r == Ok::<EndpointToHostAction, ConfigError>(x),
            None => r matches Err(e) && e.0@ == "invalid defaultEndpointToHostAction: "@
                + uppercase(trim_spec(v@)),
        },
{
    let u = trim(v).as_str().to_uppercase();
    let s = u.as_str();
    if str_eq(s, "DROP") {
        Ok(EndpointToHostAction::Drop)
    } else if str_eq(s, "RETURN") {
        Ok(EndpointToHostAction::Return)
    } else if str_eq(s, "ACCEPT") {
        Ok(EndpointToHostAction::Accept)
    } else {
        Err(refuse("invalid defaultEndpointToHostAction: ", s))
    }
}

/// The ports of the first `n` parts; an error is the first part that is no port.
pub open spec fn ports_first(parts: Seq<Seq<char>>, n: nat) -> Result<Seq<u16>, Seq<char>>
    decreases n,
{
    if n == 0 {
        Ok(Seq::empty())
    } else {
        match ports_first(parts, (n - 1) as nat) {
            Err(p) => Err(p),
            Ok(ports) => match unsigned_value(trim_spec(parts[n - 1]), 65535) {
                Some(v) => Ok(ports.push(v as u16)),
                None => Err(parts[n - 1]),
            },
        }
    }
}

/// The ports of a list separated by commas; a blank text is an empty list. An error is the
/// first part that is no port.
pub open spec fn port_list(v: Seq<char>) -> Result<Seq<u16>, Seq<char>> {
    if trim_spec(v).len() == 0 {
        Ok(Seq::empty())
    } else {
        ports_first(split_on(v, ','), split_on(v, ',').len())
    }
}

/// Once a part is refused, the whole is.
proof fn lemma_ports_error(parts: Seq<Seq<char>>, n: nat, m: nat)
    requires
        n <= m,
        ports_first(parts, n) is Err,
    ensures
        ports_first(parts, m) == ports_first(parts, n),
    decreases m,
{
    if n < m {
        lemma_ports_error(parts, n, (m - 1) as nat);
    }
}

/// Reads a list of ports separated by commas.
pub fn parse_port_list(v: &str) -> (r: Result<Vec<u16>, ConfigError>)
    ensures
        match port_list(v@) {
            Ok(ports) => r matches Ok(x) && x@ == ports,
            Err(p) => r matches Err(e) && e.0@ == "invalid u16: "@ + p,
        },
{
    let mut out: Vec<u16> = Vec::new();
    assert(out@ =~= Seq::<u16>::empty());
    if trim(v).as_str().is_empty() {
        return Ok(out);
    }
    let parts = split(v, ',');
    let ghost pv = split_on(v@, ',');
    assert(views(parts@).len() == parts@.len());
    for i in 0..parts.len()
        invariant
            views(parts@) == pv,
            pv.len() == parts@.len(),
            ports_first(pv, i as nat) == Ok::<Seq<u16>, Seq<char>>(out@),
            trim_spec(v@).len() != 0,
            pv == split_on(v@, ','),
    {
        assert(pv[i as int] == parts@[i as int]@);
        match parse_u16(parts[i].as_str()) {
            Ok(n) => {
                out.push(n);
            },
            Err(e) => {
                proof {
                    lemma_ports_error(pv, (i + 1) as nat, pv.len());
                }
                return Err(e);
            },
        }
    }
    Ok(out)
}

/// The parameter that a key names: without surrounding white space, in lower case, and
/// without the prefix that environment variables have.
pub open spec fn parameter_of(key: Seq<char>) -> Seq<char> {
    let l = folded(key);
    if has_prefix(l, "felix_"@) {
        l.skip(6)
    } else {
        l
    }
}

/// The configuration with one parameter overridden, or the words of the refusal. A
/// parameter that is not known is ignored.
pub open spec fn overridden(c: FelixConfigView, p: Seq<char>, v: Seq<char>) -> Result<
    FelixConfigView,
    Seq<char>,
> {
    if p == "interfaceprefix"@ {
        Ok(FelixConfigView { interface_prefix: v, ..c })
    } else if p == "iptablesbackend"@ {
        match iptables_backend_of(folded(v)) {
            Some(x) => Ok(FelixConfigView { iptables_backend: x, ..c }),
            None => Err("invalid iptablesBackend: "@ + folded(v)),
        }
    } else if p == "nftablesmode"@ {
        match nftables_mode_of(folded(v)) {
            Some(x) => Ok(FelixConfigView { nftables_mode: x, ..c }),
            None => Err("invalid nftablesMode: "@ + folded(v)),
        }
    } else if p == "bpfenabled"@ {
        match bool_of(folded(v)) {
            Some(x) => Ok(FelixConfigView { bpf_enabled: x, ..c }),
            None => Err("invalid bool: "@ + folded(v)),
        }
    } else if p == "prometheusmetricsenabled"@ {
        match bool_of(folded(v)) {
            Some(x) => Ok(FelixConfigView { prometheus_metrics_enabled: x, ..c }),
            None => Err("invalid bool: "@ + folded(v)),
        }
    } else if p == "prometheusmetricsport"@ {
        match unsigned_value(trim_spec(v), 65535) {
            Some(x) => Ok(FelixConfigView { prometheus_metrics_port: x as u16, ..c }),
            None => Err("invalid u16: "@ + v),
        }
    } else if p == "healthport"@ {
        match unsigned_value(trim_spec(v), 65535) {
            Some(x) => Ok(FelixConfigView { health_port: x as u16, ..c }),
            None => Err("invalid u16: "@ + v),
        }
    } else if p == "felixhostname"@ {
        Ok(FelixConfigView { felix_hostname: v, ..c })
    } else if p == "logseverityscreen"@ {
        match log_level_of(folded(v)) {
            Some(x) => Ok(FelixConfigView { log_severity_screen: x, ..c }),
            None => Err("invalid log level: "@ + folded(v)),
        }
    } else if p == "defaultendpointtohostaction"@ {
        match e2h_of(uppercase(trim_spec(v))) {
            Some(x) => Ok(FelixConfigView { default_endpoint_to_host_action: x, ..c }),
            None => Err("invalid defaultEndpointToHostAction: "@ + uppercase(trim_spec(v))),
        }
    } else if p == "iptablesrefreshinterval"@ {
        match unsigned_value(trim_spec(v), u64::MAX as nat) {
            Some(x) => Ok(FelixConfigView { iptables_refresh_interval_secs: x as u64, ..c }),
            None => Err("invalid u64: "@ + v),
        }
    } else if p == "routerefreshinterval"@ {
        match unsigned_value(trim_spec(v), u64::MAX as nat) {
            Some(x) => Ok(FelixConfigView { route_refresh_interval_secs: x as u64, ..c }),
            None => Err("invalid u64: "@ + v),
        }
    } else if p == "failsafeinboundhostports"@ {
        match port_list(v) {
            Ok(x) => Ok(FelixConfigView { failsafe_inbound_host_ports: x, ..c }),
            Err(part) => Err("invalid u16: "@ + part),
        }
    } else if p == "failsafeoutboundhostports"@ {
        match port_list(v) {
            Ok(x) => Ok(FelixConfigView { failsafe_outbound_host_ports: x, ..c }),
            Err(part) => Err("invalid u16: "@ + part),
        }
    } else {
        Ok(c)
    }
}

/// The configuration after the first `n` overrides, and the words of the first refusal, at
/// which it stops.
pub open spec fn overridden_first(
    c: FelixConfigView,
    entries: Seq<(Seq<char>, Seq<char>)>,
    n: nat,
) -> (FelixConfigView, Option<Seq<char>>)
    decreases n,
{
    if n == 0 {
        (c, None)
    } else {
        let (prev, refused) = overridden_first(c, entries, (n - 1) as nat);
        if refused is Some {
            (prev, refused)
        } else {
            match overridden(prev, parameter_of(entries[n - 1].0), entries[n - 1].1) {
                Ok(next) => (next, None),
                Err(e) => (prev, Some(e)),
            }
        }
    }
}

/// After a refusal nothing more is applied.
proof fn lemma_refused_stays(
    c: FelixConfigView,
    entries: Seq<(Seq<char>, Seq<char>)>,
    n: nat,
    m: nat,
)
    requires
        n <= m,
        overridden_first(c, entries, n).1 is Some,
    ensures
        overridden_first(c, entries, m) == overridden_first(c, entries, n),
    decreases m,
{
    if n < m {
        lemma_refused_stays(c, entries, n, (m - 1) as nat);
    }
}

/// Why a configuration as a whole is refused, if it is.
pub open spec fn invalidity(c: FelixConfigView) -> Option<Seq<char>> {
    if c.interface_prefix.len() == 0 {
        Some("interfacePrefix must not be empty"@)
    } else if c.bpf_enabled && c.nftables_mode == NftablesMode::Enabled {
        Some("bpfEnabled and nftablesMode=Enabled are mutually exclusive dataplanes"@)
    } else {
        None
    }
}

/// The configuration after the first `n` layers, or the words of the first refusal.
pub open spec fn layered_first(layers: Seq<&Labels>, n: nat) -> Result<FelixConfigView, Seq<char>>
    decreases n,
{
    if n == 0 {
        Ok(defaults())
    } else {
        match layered_first(layers, (n - 1) as nat) {
            Err(e) => Err(e),
            Ok(c) => {
                let entries = layers[n - 1].deep_view();
                let (next, refused) = overridden_first(c, entries, entries.len());
                match refused {
                    Some(e) => Err(e),
                    None => Ok(next),
                }
            },
        }
    }
}

/// The configuration of all layers, or the words of the first refusal.
pub open spec fn layered(layers: Seq<&Labels>) -> Result<FelixConfigView, Seq<char>> {
    match layered_first(layers, layers.len()) {
        Err(e) => Err(e),
        Ok(c) => match invalidity(c) {
            Some(e) => Err(e),
            None => Ok(c),
        },
    }
}

/// After a refusal no further layer is applied.
proof fn lemma_layers_error(layers: Seq<&Labels>, n: nat, m: nat)
    requires
        n <= m,
        layered_first(layers, n) is Err,
    ensures
        layered_first(layers, m) == layered_first(layers, n),
    decreases m,
{
    if n < m {
        lemma_layers_error(layers, n, (m - 1) as nat);
    }
}

impl FelixConfig {
    /// The defaults with the layers applied over them, in order, so that later layers
    /// prevail.
    pub fn from_layers(layers: &[&Labels]) -> (r: Result<FelixConfig, ConfigError>)
        ensures
            match layered(layers@) {
                Ok(c) => r matches Ok(x) && x.deep_view() == c,
                Err(w) => r matches Err(e) && e.0@ == w,
            },
    {
        let mut cfg = FelixConfig::default();
        for i in 0..layers.len()
            invariant
                layered_first(layers@, i as nat) == Ok::<FelixConfigView, Seq<char>>(
                    cfg.deep_view(),
                ),
        {
            match cfg.apply_overrides(layers[i]) {
                Ok(_) => {},
                Err(e) => {
                    proof {
                        lemma_layers_error(layers@, (i + 1) as nat, layers@.len());
                    }
                    return Err(e);
                },
            }
        }
        match cfg.validate() {
            Ok(_) => Ok(cfg),
            Err(e) => Err(e),
        }
    }

    /// Overrides one parameter, if it is known.
    fn override_one(&mut self, p: &str, v: &str) -> (r: Result<(), ConfigError>)
        ensures
            match overridden(old(self).deep_view(), p@, v@) {
                Ok(c) => r is Ok && final(self).deep_view() == c,
                Err(w) => (r matches Err(e) && e.0@ == w) && *final(self) == *old(self),
            },
    {
        if str_eq(p, "interfaceprefix") {
            self.interface_prefix = v.to_owned();
        } else if str_eq(p, "iptablesbackend") {
            match parse_iptables_backend(v) {
                Ok(x) => self.iptables_backend = x,
                Err(e) => return Err(e),
            }
        } else if str_eq(p, "nftablesmode") {
            match parse_nftables_mode(v) {
                Ok(x) => self.nftables_mode = x,
                Err(e) => return Err(e),
            }
        } else if str_eq(p, "bpfenabled") {
            match parse_bool(v) {
                Ok(x) => self.bpf_enabled = x,
                Err(e) => return Err(e),
            }
        } else if str_eq(p, "prometheusmetricsenabled") {
            match parse_bool(v) {
                Ok(x) => self.prometheus_metrics_enabled = x,
                Err(e) => return Err(e),
            }
        } else if str_eq(p, "prometheusmetricsport") {
            match parse_u16(v) {
                Ok(x) => self.prometheus_metrics_port = x,
                Err(e) => return Err(e),
            }
        } else if str_eq(p, "healthport") {
            match parse_u16(v) {
                Ok(x) => self.health_port = x,
                Err(e) => return Err(e),
            }
        } else if str_eq(p, "felixhostname") {
            self.felix_hostname = v.to_owned();
        } else if str_eq(p, "logseverityscreen") {
            match parse_log_level(v) {
                Ok(x) => self.log_severity_screen = x,
                Err(e) => return Err(e),
            }
        } else if str_eq(p, "defaultendpointtohostaction") {
            match parse_e2h(v) {
                Ok(x) => self.default_endpoint_to_host_action = x,
                Err(e) => return Err(e),
            }
        } else if str_eq(p, "iptablesrefreshinterval") {
            match parse_u64(v) {
                Ok(x) => self.iptables_refresh_interval_secs = x,
                Err(e) => return Err(e),
            }
        } else if str_eq(p, "routerefreshinterval") {
            match parse_u64(v) {
                Ok(x) => self.route_refresh_interval_secs = x,
                Err(e) => return Err(e),
            }
        } else if str_eq(p, "failsafeinboundhostports") {
            match parse_port_list(v) {
                Ok(x) => {
                    assert(x.deep_view() =~= x@);
                    self.failsafe_inbound_host_ports = x
                },
                Err(e) => return Err(e),
            }
        } else if str_eq(p, "failsafeoutboundhostports") {
            match parse_port_list(v) {
                Ok(x) => {
                    assert(x.deep_view() =~= x@);
                    self.failsafe_outbound_host_ports = x
                },
                Err(e) => return Err(e),
            }
        }
        Ok(())
    }

    /// Applies overrides, in ascending order of their keys. Keys are matched without regard
    /// to case and with or without their prefix; those that are not known are ignored. It
    /// stops at the first value that cannot be read; what was applied before stays.
    pub fn apply_overrides(&mut self, map: &Labels) -> (r: Result<(), ConfigError>)
        ensures
            ({
                let entries = map.deep_view();
                let (c, refused) = overridden_first(old(self).deep_view(), entries, entries.len());
                &&& final(self).deep_view() == c
                &&& match refused {
                    Some(w) => r matches Err(e) && e.0@ == w,
                    None => r is Ok,
                }
            }),
    {
        let ghost start = self.deep_view();
        let ghost entries = map.deep_view();
        for i in 0..map.entries.len()
            invariant
                start == old(self).deep_view(),
                entries == map.deep_view(),
                overridden_first(start, entries, i as nat) == (
                    self.deep_view(),
                    None::<Seq<char>>,
                ),
        {
            let (k, v) = &map.entries[i];
            assert(entries[i as int] == (k@, v@));
            let l = fold(k.as_str());
            let p = if starts_with(l.as_str(), "felix_") {
                proof {
                    reveal_strlit("felix_");
                }
                let n = l.as_str().unicode_len();
                assert(l@.subrange(6, l@.len() as int) =~= l@.skip(6));
                l.as_str().substring_char(6, n).to_owned()
            } else {
                l
            };
            match self.override_one(p.as_str(), v.as_str()) {
                Ok(_) => {},
                Err(e) => {
                    proof {
                        lemma_refused_stays(start, entries, (i + 1) as nat, entries.len());
                    }
                    return Err(e);
                },
            }
        }
        Ok(())
    }

    /// Checks the configuration as a whole.
    pub fn validate(&self) -> (r: Result<(), ConfigError>)
        ensures
            match invalidity(self.deep_view()) {
                Some(w) => r matches Err(e) && e.0@ == w,
                None => r is Ok,
            },
    {
        if self.interface_prefix.as_str().is_empty() {
            return Err(ConfigError("interfacePrefix must not be empty".to_owned()));
        }
        if self.bpf_enabled && self.nftables_mode == NftablesMode::Enabled {
            return Err(
                ConfigError(
                    "bpfEnabled and nftablesMode=Enabled are mutually exclusive dataplanes".to_owned(),
                ),
            );
        }
        Ok(())
    }

    /// Whether the change to `new` needs a restart: a parameter differs that selects the
    /// dataplane or a port to listen on.
    pub fn requires_restart(&self, new: &FelixConfig) -> (r: bool)
        ensures
            r == needs_restart(self.deep_view(), new.deep_view()),
    {
        !str_eq(self.interface_prefix.as_str(), new.interface_prefix.as_str())
            || self.iptables_backend != new.iptables_backend || self.nftables_mode
            != new.nftables_mode || self.bpf_enabled != new.bpf_enabled
            || self.prometheus_metrics_enabled != new.prometheus_metrics_enabled
            || self.prometheus_metrics_port != new.prometheus_metrics_port || self.health_port
            != new.health_port
    }
}

/// Whether the change from `a` to `b` needs a restart.
pub open spec fn needs_restart(a: FelixConfigView, b: FelixConfigView) -> bool {
    ||| a.interface_prefix != b.interface_prefix
    ||| a.iptables_backend != b.iptables_backend
    ||| a.nftables_mode != b.nftables_mode
    ||| a.bpf_enabled != b.bpf_enabled
    ||| a.prometheus_metrics_enabled != b.prometheus_metrics_enabled
    ||| a.prometheus_metrics_port != b.prometheus_metrics_port
    ||| a.health_port != b.health_port
}

/// Whether two configurations agree in one parameter. In one that is not known they do.
pub open spec fn agree_in(a: FelixConfigView, b: FelixConfigView, p: Seq<char>) -> bool {
    if p == "interfaceprefix"@ {
        a.interface_prefix == b.interface_prefix
    } else if p == "iptablesbackend"@ {
        a.iptables_backend == b.iptables_backend
    } else if p == "nftablesmode"@ {
        a.nftables_mode == b.nftables_mode
    } else if p == "bpfenabled"@ {
        a.bpf_enabled == b.bpf_enabled
    } else if p == "prometheusmetricsenabled"@ {
        a.prometheus_metrics_enabled == b.prometheus_metrics_enabled
    } else if p == "prometheusmetricsport"@ {
        a.prometheus_metrics_port == b.prometheus_metrics_port
    } else if p == "healthport"@ {
        a.health_port == b.health_port
    } else if p == "felixhostname"@ {
        a.felix_hostname == b.felix_hostname
    } else if p == "logseverityscreen"@ {
        a.log_severity_screen == b.log_severity_screen
    } else if p == "defaultendpointtohostaction"@ {
        a.default_endpoint_to_host_action == b.default_endpoint_to_host_action
    } else if p == "iptablesrefreshinterval"@ {
        a.iptables_refresh_interval_secs == b.iptables_refresh_interval_secs
    } else if p == "routerefreshinterval"@ {
        a.route_refresh_interval_secs == b.route_refresh_interval_secs
    } else if p == "failsafeinboundhostports"@ {
        a.failsafe_inbound_host_ports == b.failsafe_inbound_host_ports
    } else if p == "failsafeoutboundhostports"@ {
        a.failsafe_outbound_host_ports == b.failsafe_outbound_host_ports
    } else {
        true
    }
}

/// Whether the value of an override can be read.
pub open spec fn readable(p: Seq<char>, v: Seq<char>) -> bool {
    overridden(defaults(), p, v) is Ok
}

/// Whether one of the first `n` overrides is of the parameter.
pub open spec fn names_first(entries: Seq<(Seq<char>, Seq<char>)>, n: nat, p: Seq<char>) -> bool {
    exists|i: int| 0 <= i < n && #[trigger] parameter_of(entries[i].0) == p
}

/// An override changes no other parameter.
#[verifier::rlimit(50)]
proof fn lemma_override_is_local(c: FelixConfigView, p: Seq<char>, v: Seq<char>, q: Seq<char>)
    requires
        p != q,
        overridden(c, p, v) is Ok,
    ensures
        agree_in(c, overridden(c, p, v)->Ok_0, q),
{
}

/// What an override does to its own parameter does not depend on the configuration.
#[verifier::rlimit(50)]
proof fn lemma_override_is_absolute(
    a: FelixConfigView,
    b: FelixConfigView,
    p: Seq<char>,
    v: Seq<char>,
)
    ensures
        overridden(a, p, v) is Ok <==> overridden(b, p, v) is Ok,
        overridden(a, p, v) is Ok ==> agree_in(
            overridden(a, p, v)->Ok_0,
            overridden(b, p, v)->Ok_0,
            p,
        ),
{
}

/// Agreement carries over.
proof fn lemma_agree_transitive(
    a: FelixConfigView,
    b: FelixConfigView,
    c: FelixConfigView,
    p: Seq<char>,
)
    requires
        agree_in(a, b, p),
        agree_in(b, c, p),
    ensures
        agree_in(a, c, p),
{
}

/// What it means to agree in a parameter that is known.
#[verifier::rlimit(50)]
proof fn lemma_agree_means(a: FelixConfigView, b: FelixConfigView, p: Seq<char>)
    requires
        agree_in(a, b, p),
    ensures
        p == "interfaceprefix"@ ==> a.interface_prefix == b.interface_prefix,
        p == "iptablesbackend"@ ==> a.iptables_backend == b.iptables_backend,
        p == "nftablesmode"@ ==> a.nftables_mode == b.nftables_mode,
        p == "bpfenabled"@ ==> a.bpf_enabled == b.bpf_enabled,
        p == "prometheusmetricsenabled"@ ==> a.prometheus_metrics_enabled
            == b.prometheus_metrics_enabled,
        p == "prometheusmetricsport"@ ==> a.prometheus_metrics_port == b.prometheus_metrics_port,
        p == "healthport"@ ==> a.health_port == b.health_port,
        p == "felixhostname"@ ==> a.felix_hostname == b.felix_hostname,
        p == "logseverityscreen"@ ==> a.log_severity_screen == b.log_severity_screen,
        p == "defaultendpointtohostaction"@ ==> a.default_endpoint_to_host_action
            == b.default_endpoint_to_host_action,
        p == "iptablesrefreshinterval"@ ==> a.iptables_refresh_interval_secs
            == b.iptables_refresh_interval_secs,
        p == "routerefreshinterval"@ ==> a.route_refresh_interval_secs
            == b.route_refresh_interval_secs,
        p == "failsafeinboundhostports"@ ==> a.failsafe_inbound_host_ports
            == b.failsafe_inbound_host_ports,
        p == "failsafeoutboundhostports"@ ==> a.failsafe_outbound_host_ports
            == b.failsafe_outbound_host_ports,
{
    reveal_strlit("interfaceprefix");
    reveal_strlit("iptablesbackend");
    reveal_strlit("nftablesmode");
    reveal_strlit("bpfenabled");
    reveal_strlit("prometheusmetricsenabled");
    reveal_strlit("prometheusmetricsport");
    reveal_strlit("healthport");
    reveal_strlit("felixhostname");
    reveal_strlit("logseverityscreen");
    reveal_strlit("defaultendpointtohostaction");
    reveal_strlit("iptablesrefreshinterval");
    reveal_strlit("routerefreshinterval");
    reveal_strlit("failsafeinboundhostports");
    reveal_strlit("failsafeoutboundhostports");
    assert("interfaceprefix"@.len() == 15);
    assert("iptablesbackend"@.len() == 15);
    assert("nftablesmode"@.len() == 12);
    assert("bpfenabled"@.len() == 10);
    assert("prometheusmetricsenabled"@.len() == 24);
    assert("prometheusmetricsport"@.len() == 21);
    assert("healthport"@.len() == 10);
    assert("felixhostname"@.len() == 13);
    assert("logseverityscreen"@.len() == 17);
    assert("defaultendpointtohostaction"@.len() == 27);
    assert("iptablesrefreshinterval"@.len() == 23);
    assert("routerefreshinterval"@.len() == 20);
    assert("failsafeinboundhostports"@.len() == 24);
    assert("failsafeoutboundhostports"@.len() == 25);
    assert("interfaceprefix"@[1] != "iptablesbackend"@[1]);
    assert("bpfenabled"@[0] != "healthport"@[0]);
    assert("prometheusmetricsenabled"@[0] != "failsafeinboundhostports"@[0]);
}

/// Configurations that agree in every parameter are equal.
proof fn lemma_agree_everywhere(a: FelixConfigView, b: FelixConfigView)
    requires
        forall|p: Seq<char>| #[trigger] agree_in(a, b, p),
    ensures
        a == b,
{
    lemma_agree_means(a, b, "interfaceprefix"@);
    lemma_agree_means(a, b, "iptablesbackend"@);
    lemma_agree_means(a, b, "nftablesmode"@);
    lemma_agree_means(a, b, "bpfenabled"@);
    lemma_agree_means(a, b, "prometheusmetricsenabled"@);
    lemma_agree_means(a, b, "prometheusmetricsport"@);
    lemma_agree_means(a, b, "healthport"@);
    lemma_agree_means(a, b, "felixhostname"@);
    lemma_agree_means(a, b, "logseverityscreen"@);
    lemma_agree_means(a, b, "defaultendpointtohostaction"@);
    lemma_agree_means(a, b, "iptablesrefreshinterval"@);
    lemma_agree_means(a, b, "routerefreshinterval"@);
    lemma_agree_means(a, b, "failsafeinboundhostports"@);
    lemma_agree_means(a, b, "failsafeoutboundhostports"@);
    assert(a =~= b);
}

/// The first `n` overrides leave alone what they do not name.
proof fn lemma_unnamed_stay(
    c: FelixConfigView,
    entries: Seq<(Seq<char>, Seq<char>)>,
    n: nat,
    q: Seq<char>,
)
    requires
        !names_first(entries, n, q),
    ensures
        agree_in(c, overridden_first(c, entries, n).0, q),
    decreases n,
{
    if n > 0 {
        let m = (n - 1) as nat;
        let prev = overridden_first(c, entries, m).0;
        assert(!names_first(entries, m, q)) by {
            if names_first(entries, m, q) {
                let i = choose|i: int| 0 <= i < m && #[trigger] parameter_of(entries[i].0) == q;
                assert(0 <= i < n && parameter_of(entries[i].0) == q);
            }
        }
        lemma_unnamed_stay(c, entries, m, q);
        let p = parameter_of(entries[n - 1].0);
        assert(p != q);
        if overridden_first(c, entries, m).1 is None && overridden(prev, p, entries[n - 1].1) is Ok {
            lemma_override_is_local(prev, p, entries[n - 1].1, q);
            lemma_agree_transitive(c, prev, overridden_first(c, entries, n).0, q);
        }
    }
}

/// The first `n` overrides are applied exactly where each of them can be read.
proof fn lemma_applied_if_readable(
    c: FelixConfigView,
    entries: Seq<(Seq<char>, Seq<char>)>,
    n: nat,
)
    ensures
        overridden_first(c, entries, n).1 is None <==> forall|i: int|
            0 <= i < n ==> readable(parameter_of((#[trigger] entries[i]).0), entries[i].1),
    decreases n,
{
    if n > 0 {
        let m = (n - 1) as nat;
        lemma_applied_if_readable(c, entries, m);
        lemma_override_is_absolute(
            overridden_first(c, entries, m).0,
            defaults(),
            parameter_of(entries[n - 1].0),
            entries[n - 1].1,
        );
        if overridden_first(c, entries, n).1 is None {
            assert forall|i: int| 0 <= i < n implies readable(
                parameter_of((#[trigger] entries[i]).0),
                entries[i].1,
            ) by {
                if i < m {
                    assert(readable(parameter_of(entries[i].0), entries[i].1));
                }
            }
        }
    }
}

/// What the first `n` overrides name does not depend on the configuration before.
proof fn lemma_named_agree(
    a: FelixConfigView,
    b: FelixConfigView,
    entries: Seq<(Seq<char>, Seq<char>)>,
    n: nat,
    q: Seq<char>,
)
    requires
        names_first(entries, n, q),
        overridden_first(a, entries, n).1 is None,
        overridden_first(b, entries, n).1 is None,
    ensures
        agree_in(overridden_first(a, entries, n).0, overridden_first(b, entries, n).0, q),
    decreases n,
{
    let m = (n - 1) as nat;
    let pa = overridden_first(a, entries, m).0;
    let pb = overridden_first(b, entries, m).0;
    let p = parameter_of(entries[n - 1].0);
    let v = entries[n - 1].1;
    let na = overridden_first(a, entries, n).0;
    let nb = overridden_first(b, entries, n).0;
    if p == q {
        lemma_override_is_absolute(pa, pb, p, v);
    } else {
        let i = choose|i: int| 0 <= i < n && #[trigger] parameter_of(entries[i].0) == q;
        assert(0 <= i < m && parameter_of(entries[i].0) == q);
        lemma_named_agree(a, b, entries, m, q);
        lemma_override_is_local(pa, p, v, q);
        lemma_override_is_local(pb, p, v, q);
        assert(agree_in(na, pa, q));
        lemma_agree_transitive(na, pa, pb, q);
        lemma_agree_transitive(na, pb, nb, q);
    }
}

/// A parameter that no key names keeps its value, also where a value is refused.
pub proof fn law_other_parameters_stay(
    c: FelixConfigView,
    entries: Seq<(Seq<char>, Seq<char>)>,
    p: Seq<char>,
)
    requires
        forall|i: int| 0 <= i < entries.len() ==> parameter_of((#[trigger] entries[i]).0) != p,
    ensures
        agree_in(c, overridden_first(c, entries, entries.len()).0, p),
{
    assert(!names_first(entries, entries.len(), p)) by {
        if names_first(entries, entries.len(), p) {
            let i = choose|i: int|
                0 <= i < entries.len() && #[trigger] parameter_of(entries[i].0) == p;
            assert(parameter_of(entries[i].0) != p);
        }
    }
    lemma_unnamed_stay(c, entries, entries.len(), p);
}

/// Whether a parameter is known.
pub open spec fn is_parameter(p: Seq<char>) -> bool {
    ||| p == "interfaceprefix"@
    ||| p == "iptablesbackend"@
    ||| p == "nftablesmode"@
    ||| p == "bpfenabled"@
    ||| p == "prometheusmetricsenabled"@
    ||| p == "prometheusmetricsport"@
    ||| p == "healthport"@
    ||| p == "felixhostname"@
    ||| p == "logseverityscreen"@
    ||| p == "defaultendpointtohostaction"@
    ||| p == "iptablesrefreshinterval"@
    ||| p == "routerefreshinterval"@
    ||| p == "failsafeinboundhostports"@
    ||| p == "failsafeoutboundhostports"@
}

/// An override of a parameter that is not known never fails and changes nothing.
pub proof fn law_unknown_parameters_are_ignored(c: FelixConfigView, p: Seq<char>, v: Seq<char>)
    requires
        !is_parameter(p),
    ensures
        readable(p, v),
        overridden(c, p, v) == Ok::<FelixConfigView, Seq<char>>(c),
{
}

/// Overrides succeed exactly where every value can be read, whatever the configuration was.
pub proof fn law_overrides_succeed_if_readable(
    c: FelixConfigView,
    entries: Seq<(Seq<char>, Seq<char>)>,
)
    ensures
        overridden_first(c, entries, entries.len()).1 is None <==> forall|i: int|
            0 <= i < entries.len() ==> readable(
                parameter_of((#[trigger] entries[i]).0),
                entries[i].1,
            ),
{
    lemma_applied_if_readable(c, entries, entries.len());
}

/// Overrides that were applied can be applied again, and then change nothing.
pub proof fn law_overriding_again_changes_nothing(
    c: FelixConfigView,
    entries: Seq<(Seq<char>, Seq<char>)>,
)
    requires
        overridden_first(c, entries, entries.len()).1 is None,
    ensures
        ({
            let once = overridden_first(c, entries, entries.len()).0;
            overridden_first(once, entries, entries.len()) == (once, None::<Seq<char>>)
        }),
{
    let n = entries.len();
    let once = overridden_first(c, entries, n).0;
    lemma_applied_if_readable(c, entries, n);
    lemma_applied_if_readable(once, entries, n);
    let twice = overridden_first(once, entries, n).0;
    assert forall|p: Seq<char>| #[trigger] agree_in(once, twice, p) by {
        if names_first(entries, n, p) {
            lemma_named_agree(c, once, entries, n, p);
        } else {
            lemma_unnamed_stay(once, entries, n, p);
        }
    }
    lemma_agree_everywhere(once, twice);
}

/// Whether a layer has an override of the parameter.
pub open spec fn layer_names(layer: &Labels, p: Seq<char>) -> bool {
    names_first(layer.deep_view(), layer.deep_view().len(), p)
}

/// A parameter has the value of the last override of it.
proof fn lemma_last_override(
    c: FelixConfigView,
    entries: Seq<(Seq<char>, Seq<char>)>,
    n: nat,
    j: int,
)
    requires
        0 <= j < n,
        overridden_first(c, entries, n).1 is None,
        forall|i: int|
            j < i < n ==> #[trigger] parameter_of(entries[i].0) != parameter_of(entries[j].0),
    ensures
        readable(parameter_of(entries[j].0), entries[j].1),
        agree_in(
            overridden_first(c, entries, n).0,
            overridden(defaults(), parameter_of(entries[j].0), entries[j].1)->Ok_0,
            parameter_of(entries[j].0),
        ),
    decreases n,
{
    let p = parameter_of(entries[j].0);
    let m = (n - 1) as nat;
    let prev = overridden_first(c, entries, m).0;
    let next = overridden_first(c, entries, n).0;
    let v = entries[n - 1].1;
    if j == n - 1 {
        lemma_override_is_absolute(prev, defaults(), p, v);
    } else {
        let q = parameter_of(entries[n - 1].0);
        assert(q != p);
        lemma_last_override(c, entries, m, j);
        lemma_override_is_local(prev, q, v, p);
        assert(agree_in(next, prev, p));
        lemma_agree_transitive(
            next,
            prev,
            overridden(defaults(), p, entries[j].1)->Ok_0,
            p,
        );
    }
}

/// Layers that do not name a parameter leave it as it was.
proof fn lemma_later_layers_leave(layers: Seq<&Labels>, m: nat, n: nat, p: Seq<char>)
    requires
        m <= n <= layers.len(),
        layered_first(layers, n) is Ok,
        forall|k: int| m <= k < n ==> !layer_names(#[trigger] layers[k], p),
    ensures
        layered_first(layers, m) is Ok,
        agree_in(layered_first(layers, n)->Ok_0, layered_first(layers, m)->Ok_0, p),
    decreases n,
{
    if m < n {
        let k = (n - 1) as nat;
        lemma_later_layers_leave(layers, m, k, p);
        let prev = layered_first(layers, k)->Ok_0;
        let next = layered_first(layers, n)->Ok_0;
        let entries = layers[k as int].deep_view();
        assert(!layer_names(layers[k as int], p));
        lemma_unnamed_stay(prev, entries, entries.len(), p);
        assert(agree_in(next, prev, p));
        lemma_agree_transitive(next, prev, layered_first(layers, m)->Ok_0, p);
    }
}

/// Of several layers the last one that names a parameter prevails: the parameter has the
/// value that this layer gives it, whatever the layers before say. Where a layer names it by
/// several keys, the last of them counts.
pub proof fn law_last_layer_prevails(layers: Seq<&Labels>, k: int, j: int)
    requires
        layered(layers) is Ok,
        0 <= k < layers.len(),
        0 <= j < layers[k].deep_view().len(),
        forall|i: int|
            j < i < layers[k].deep_view().len() ==> #[trigger] parameter_of(
                layers[k].deep_view()[i].0,
            ) != parameter_of(layers[k].deep_view()[j].0),
        forall|l: int|
            k < l < layers.len() ==> !layer_names(
                #[trigger] layers[l],
                parameter_of(layers[k].deep_view()[j].0),
            ),
    ensures
        ({
            let (key, v) = layers[k].deep_view()[j];
            &&& readable(parameter_of(key), v)
            &&& agree_in(
                layered(layers)->Ok_0,
                overridden(defaults(), parameter_of(key), v)->Ok_0,
                parameter_of(key),
            )
        }),
{
    let entries = layers[k].deep_view();
    let p = parameter_of(entries[j].0);
    let v = entries[j].1;
    lemma_later_layers_leave(layers, (k + 1) as nat, layers.len(), p);
    let before = layered_first(layers, k as nat)->Ok_0;
    lemma_last_override(before, entries, entries.len(), j);
    lemma_agree_transitive(
        layered(layers)->Ok_0,
        layered_first(layers, (k + 1) as nat)->Ok_0,
        overridden(defaults(), p, v)->Ok_0,
        p,
    );
}

/// A parameter that no layer names has its default.
pub proof fn law_unnamed_parameter_has_its_default(layers: Seq<&Labels>, p: Seq<char>)
    requires
        layered(layers) is Ok,
        forall|k: int| 0 <= k < layers.len() ==> !layer_names(#[trigger] layers[k], p),
    ensures
        agree_in(layered(layers)->Ok_0, defaults(), p),
{
    lemma_later_layers_leave(layers, 0, layers.len(), p);
}

/// What it means for a configuration to agree with another one in each parameter: the
/// fields that belong to it are equal.
pub proof fn law_agreement_is_by_field(a: FelixConfigView, b: FelixConfigView)
    ensures
        (forall|p: Seq<char>| #[trigger] agree_in(a, b, p)) <==> a == b,
{
    if forall|p: Seq<char>| #[trigger] agree_in(a, b, p) {
        lemma_agree_everywhere(a, b);
    }
}

/// What a parameter is set to does not depend on what it was set to before: of two layers
/// that set it, the later one prevails.
#[verifier::rlimit(50)]
pub proof fn law_later_override_prevails(
    c: FelixConfigView,
    p: Seq<char>,
    first: Seq<char>,
    second: Seq<char>,
)
    requires
        overridden(c, p, first) is Ok,
        overridden(c, p, second) is Ok,
    ensures
        overridden(overridden(c, p, first)->Ok_0, p, second) == overridden(c, p, second),
{
    let once = overridden(c, p, first)->Ok_0;
    let direct = overridden(c, p, second)->Ok_0;
    let twice = overridden(once, p, second);
    if p == "interfaceprefix"@ {
        assert(twice->Ok_0 =~= direct);
    } else if p == "iptablesbackend"@ {
        assert(twice->Ok_0 =~= direct);
    } else if p == "nftablesmode"@ {
        assert(twice->Ok_0 =~= direct);
    } else if p == "bpfenabled"@ {
        assert(twice->Ok_0 =~= direct);
    } else if p == "prometheusmetricsenabled"@ {
        assert(twice->Ok_0 =~= direct);
    } else if p == "prometheusmetricsport"@ {
        assert(twice->Ok_0 =~= direct);
    } else if p == "healthport"@ {
        assert(twice->Ok_0 =~= direct);
    } else if p == "felixhostname"@ {
        assert(twice->Ok_0 =~= direct);
    } else if p == "logseverityscreen"@ {
        assert(twice->Ok_0 =~= direct);
    } else if p == "defaultendpointtohostaction"@ {
        assert(twice->Ok_0 =~= direct);
    } else if p == "iptablesrefreshinterval"@ {
        assert(twice->Ok_0 =~= direct);
    } else if p == "routerefreshinterval"@ {
        assert(twice->Ok_0 =~= direct);
    } else if p == "failsafeinboundhostports"@ {
        assert(twice->Ok_0 =~= direct);
    } else if p == "failsafeoutboundhostports"@ {
        assert(twice->Ok_0 =~= direct);
    }
}

/// A configuration that comes out of layers is valid.
pub proof fn law_loaded_configuration_is_valid(layers: Seq<&Labels>)
    requires
        layered(layers) is Ok,
    ensures
        invalidity(layered(layers)->Ok_0) is None,
{
}

/// Changes of logging, of intervals, of the host's name, of failsafe ports and of the
/// action on traffic to the host need no restart.
pub proof fn law_live_changes_need_no_restart(
    c: FelixConfigView,
    hostname: Seq<char>,
    level: LogLevel,
    action: EndpointToHostAction,
    rules: u64,
    routes: u64,
    inbound: Seq<u16>,
    outbound: Seq<u16>,
)
    ensures
        !needs_restart(
            c,
            FelixConfigView {
                felix_hostname: hostname,
                log_severity_screen: level,
                default_endpoint_to_host_action: action,
                iptables_refresh_interval_secs: rules,
                route_refresh_interval_secs: routes,
                failsafe_inbound_host_ports: inbound,
                failsafe_outbound_host_ports: outbound,
                ..c
            },
        ),
{
}

/// The defaults are valid.
pub proof fn law_defaults_are_valid()
    ensures
        invalidity(defaults()) is None,
{
    reveal_strlit("cali");
}

/// Whether a change of the parameter makes a restart necessary.
pub open spec fn is_restart_parameter(p: Seq<char>) -> bool {
    ||| p == "interfaceprefix"@
    ||| p == "iptablesbackend"@
    ||| p == "nftablesmode"@
    ||| p == "bpfenabled"@
    ||| p == "prometheusmetricsenabled"@
    ||| p == "prometheusmetricsport"@
    ||| p == "healthport"@
}

/// Giving a parameter another value makes a restart necessary exactly where it is one of
/// those that are read at the start only. Giving it the value that it has never does.
pub proof fn law_restart_is_for_parameters_read_at_the_start(
    c: FelixConfigView,
    p: Seq<char>,
    v: Seq<char>,
)
    requires
        overridden(c, p, v) is Ok,
    ensures
        needs_restart(c, overridden(c, p, v)->Ok_0) <==> is_restart_parameter(p)
            && overridden(c, p, v)->Ok_0 != c,
        needs_restart(c, overridden(c, p, v)->Ok_0) == needs_restart(overridden(c, p, v)->Ok_0, c),
{
    let d = overridden(c, p, v)->Ok_0;
    if p == "interfaceprefix"@ {
        assert(c.interface_prefix == d.interface_prefix ==> c =~= d);
    }
    lemma_parameters_differ(p);
}

/// The names of parameters differ.
proof fn lemma_parameters_differ(p: Seq<char>)
    ensures
        is_restart_parameter(p) ==> p != "felixhostname"@ && p != "logseverityscreen"@ && p
            != "defaultendpointtohostaction"@ && p != "iptablesrefreshinterval"@ && p
            != "routerefreshinterval"@ && p != "failsafeinboundhostports"@ && p
            != "failsafeoutboundhostports"@,
{
    reveal_strlit("interfaceprefix");
    reveal_strlit("iptablesbackend");
    reveal_strlit("nftablesmode");
    reveal_strlit("bpfenabled");
    reveal_strlit("prometheusmetricsenabled");
    reveal_strlit("prometheusmetricsport");
    reveal_strlit("healthport");
    reveal_strlit("felixhostname");
    reveal_strlit("logseverityscreen");
    reveal_strlit("defaultendpointtohostaction");
    reveal_strlit("iptablesrefreshinterval");
    reveal_strlit("routerefreshinterval");
    reveal_strlit("failsafeinboundhostports");
    reveal_strlit("failsafeoutboundhostports");
    if is_restart_parameter(p) {
        assert(p[0] != 'f' && p[0] != 'l' && p[0] != 'd' && p[0] != 'r');
        assert("felixhostname"@[0] == 'f');
        assert("logseverityscreen"@[0] == 'l');
        assert("defaultendpointtohostaction"@[0] == 'd');
        assert("routerefreshinterval"@[0] == 'r');
        assert("failsafeinboundhostports"@[0] == 'f');
        assert("failsafeoutboundhostports"@[0] == 'f');
        assert("iptablesrefreshinterval"@.len() == 23);
        assert(p.len() != 23) by {
            assert("interfaceprefix"@.len() == 15);
            assert("iptablesbackend"@.len() == 15);
            assert("nftablesmode"@.len() == 12);
            assert("bpfenabled"@.len() == 10);
            assert("prometheusmetricsenabled"@.len() == 24);
            assert("prometheusmetricsport"@.len() == 21);
            assert("healthport"@.len() == 10);
        }
    }
}

/// A number written out is read back.
proof fn lemma_number_is_read(n: nat, max: nat)
    requires
        n <= max,
    ensures
        unsigned_value(trim_spec(crate::text::decimal(n)), max) == Some(n),
{
    let s = crate::text::decimal(n);
    crate::text::lemma_decimal_reads_back(n);
    assert(crate::text::is_digit(s[0]));
    assert(crate::text::is_digit(s.last()));
    assert(trim_spec(s) == s);
    assert(crate::text::unsign(s) == s);
}

/// A port or an interval that is written out in digits is read as that number, into the
/// parameter that it was given for.
pub proof fn law_numbers_are_read_back(c: FelixConfigView, port: u16, secs: u64)
    ensures
        ({
            let p = crate::text::decimal(port as nat);
            let s = crate::text::decimal(secs as nat);
            &&& overridden(c, "prometheusmetricsport"@, p) == Ok::<FelixConfigView, Seq<char>>(
                FelixConfigView { prometheus_metrics_port: port, ..c },
            )
            &&& overridden(c, "healthport"@, p) == Ok::<FelixConfigView, Seq<char>>(
                FelixConfigView { health_port: port, ..c },
            )
            &&& overridden(c, "iptablesrefreshinterval"@, s) == Ok::<FelixConfigView, Seq<char>>(
                FelixConfigView { iptables_refresh_interval_secs: secs, ..c },
            )
            &&& overridden(c, "routerefreshinterval"@, s) == Ok::<FelixConfigView, Seq<char>>(
                FelixConfigView { route_refresh_interval_secs: secs, ..c },
            )
        }),
{
    lemma_number_is_read(port as nat, 65535);
    lemma_number_is_read(secs as nat, u64::MAX as nat);
    lemma_parameters_differ("prometheusmetricsport"@);
    reveal_strlit("interfaceprefix");
    reveal_strlit("iptablesbackend");
    reveal_strlit("nftablesmode");
    reveal_strlit("bpfenabled");
    reveal_strlit("prometheusmetricsenabled");
    reveal_strlit("prometheusmetricsport");
    reveal_strlit("healthport");
    reveal_strlit("felixhostname");
    reveal_strlit("logseverityscreen");
    reveal_strlit("defaultendpointtohostaction");
    reveal_strlit("iptablesrefreshinterval");
    reveal_strlit("routerefreshinterval");
    assert("interfaceprefix"@.len() == 15);
    assert("iptablesbackend"@.len() == 15);
    assert("nftablesmode"@.len() == 12);
    assert("bpfenabled"@.len() == 10);
    assert("bpfenabled"@[0] == 'b' && "healthport"@[0] == 'h');
    assert("prometheusmetricsenabled"@.len() == 24);
    assert("prometheusmetricsport"@.len() == 21);
    assert("healthport"@.len() == 10);
    assert("felixhostname"@.len() == 13);
    assert("logseverityscreen"@.len() == 17);
    assert("defaultendpointtohostaction"@.len() == 27);
    assert("iptablesrefreshinterval"@.len() == 23);
    assert("routerefreshinterval"@.len() == 20);
}

/// A configuration is refused exactly where it names no interfaces, or asks for both
/// dataplanes at once.
pub proof fn law_one_dataplane_at_a_time(c: FelixConfigView)
    ensures
        invalidity(c) is None <==> c.interface_prefix.len() > 0 && !(c.bpf_enabled
            && c.nftables_mode == NftablesMode::Enabled),
{
}

/// A list of ports is read where each of its parts is, and gives their numbers in their order;
/// otherwise the first part that cannot be read is named. A blank list is empty.
pub proof fn law_port_lists_are_read_part_by_part(v: Seq<char>)
    ensures
        ({
            let parts = split_on(v, ',');
            &&& trim_spec(v).len() == 0 ==> port_list(v) == Ok::<Seq<u16>, Seq<char>>(Seq::empty())
            &&& trim_spec(v).len() > 0 ==> match port_list(v) {
                Ok(ports) => {
                    &&& ports.len() == parts.len()
                    &&& forall|i: int|
                        0 <= i < parts.len() ==> unsigned_value(trim_spec(#[trigger] parts[i]), 65535)
                            == Some(ports[i] as nat)
                },
                Err(p) => exists|i: int|
                    {
                        &&& 0 <= i < parts.len()
                        &&& #[trigger] parts[i] == p
                        &&& unsigned_value(trim_spec(p), 65535) is None
                        &&& forall|j: int|
                            0 <= j < i ==> unsigned_value(trim_spec(#[trigger] parts[j]), 65535)
                                is Some
                    },
            }
        }),
{
    lemma_ports_first(split_on(v, ','), split_on(v, ',').len());
}

/// The same of the first `n` parts.
proof fn lemma_ports_first(parts: Seq<Seq<char>>, n: nat)
    requires
        n <= parts.len(),
    ensures
        match ports_first(parts, n) {
            Ok(ports) => {
                &&& ports.len() == n
                &&& forall|i: int|
                    0 <= i < n ==> unsigned_value(trim_spec(#[trigger] parts[i]), 65535) == Some(
                        ports[i] as nat,
                    )
            },
            Err(p) => exists|i: int|
                {
                    &&& 0 <= i < n
                    &&& #[trigger] parts[i] == p
                    &&& unsigned_value(trim_spec(p), 65535) is None
                    &&& forall|j: int|
                        0 <= j < i ==> unsigned_value(trim_spec(#[trigger] parts[j]), 65535) is Some
                },
        },
    decreases n,
{
    if n > 0 {
        let m = (n - 1) as nat;
        lemma_ports_first(parts, m);
        match ports_first(parts, m) {
            Ok(head) => {
                if unsigned_value(trim_spec(parts[m as int]), 65535) is None {
                    assert(parts[m as int] == ports_first(parts, n)->Err_0);
                }
            },
            Err(p) => {
                let i = choose|i: int|
                    {
                        &&& 0 <= i < m
                        &&& #[trigger] parts[i] == p
                        &&& unsigned_value(trim_spec(p), 65535) is None
                        &&& forall|j: int|
                            0 <= j < i ==> unsigned_value(trim_spec(#[trigger] parts[j]), 65535)
                                is Some
                    };
                assert(parts[i] == p);
            },
        }
    }
}

/// A parameter may be named with or without the prefix of the environment, in any case and
/// with blanks around it: such names denote the same parameter.
pub proof fn law_prefix_of_a_parameter_is_optional(short: Seq<char>, long: Seq<char>)
    requires
        folded(long) == "felix_"@ + folded(short),
        !has_prefix(folded(short), "felix_"@),
    ensures
        parameter_of(long) == parameter_of(short),
        parameter_of(short) == folded(short),
{
    reveal_strlit("felix_");
    crate::text::lemma_prefix_of_sum("felix_"@, folded(short));
    assert(("felix_"@ + folded(short)).skip(6) =~= folded(short));
}

/// Each value of a parameter has its words, in any case and with blanks around them; a text
/// that is none of them is refused.
pub proof fn law_values_have_their_words(v: Seq<char>)
    ensures
        ({
            let l = folded(v);
            let u = uppercase(trim_spec(v));
            &&& bool_of(l) == Some(true) <==> l == "true"@ || l == "1"@ || l == "yes"@
            &&& bool_of(l) == Some(false) <==> l == "false"@ || l == "0"@ || l == "no"@
            &&& log_level_of(l) == Some(LogLevel::Debug) <==> l == "debug"@
            &&& log_level_of(l) == Some(LogLevel::Info) <==> l == "info"@
            &&& log_level_of(l) == Some(LogLevel::Warning) <==> l == "warning"@ || l == "warn"@
            &&& log_level_of(l) == Some(LogLevel::Error) <==> l == "error"@
            &&& log_level_of(l) == Some(LogLevel::Fatal) <==> l == "fatal"@
            &&& iptables_backend_of(l) == Some(IptablesBackend::Legacy) <==> l == "legacy"@
            &&& iptables_backend_of(l) == Some(IptablesBackend::Nft) <==> l == "nft"@ || l
                == "nftables"@
            &&& iptables_backend_of(l) == Some(IptablesBackend::Auto) <==> l == "auto"@
            &&& nftables_mode_of(l) == Some(NftablesMode::Enabled) <==> l == "enabled"@
            &&& nftables_mode_of(l) == Some(NftablesMode::Disabled) <==> l == "disabled"@
            &&& nftables_mode_of(l) == Some(NftablesMode::Auto) <==> l == "auto"@
            &&& e2h_of(u) == Some(EndpointToHostAction::Drop) <==> u == "DROP"@
            &&& e2h_of(u) == Some(EndpointToHostAction::Return) <==> u == "RETURN"@
            &&& e2h_of(u) == Some(EndpointToHostAction::Accept) <==> u == "ACCEPT"@
        }),
{
    reveal_strlit("true");
    reveal_strlit("1");
    reveal_strlit("yes");
    reveal_strlit("false");
    reveal_strlit("0");
    reveal_strlit("no");
    reveal_strlit("debug");
    reveal_strlit("info");
    reveal_strlit("warning");
    reveal_strlit("warn");
    reveal_strlit("error");
    reveal_strlit("fatal");
    reveal_strlit("legacy");
    reveal_strlit("nft");
    reveal_strlit("nftables");
    reveal_strlit("auto");
    reveal_strlit("enabled");
    reveal_strlit("disabled");
    reveal_strlit("DROP");
    reveal_strlit("RETURN");
    reveal_strlit("ACCEPT");
    assert("true"@[0] == 't' && "1"@[0] == '1' && "yes"@[0] == 'y');
    assert("false"@[0] == 'f' && "0"@[0] == '0' && "no"@[0] == 'n');
    assert("debug"@[0] == 'd' && "info"@[0] == 'i' && "warning"@[0] == 'w' && "warn"@[0] == 'w');
    assert("error"@[0] == 'e' && "fatal"@[0] == 'f');
    assert("legacy"@[0] == 'l' && "nft"@[0] == 'n' && "nftables"@[0] == 'n' && "auto"@[0] == 'a');
    assert("enabled"@[0] == 'e' && "disabled"@[0] == 'd');
    assert("DROP"@[0] == 'D' && "RETURN"@[0] == 'R' && "ACCEPT"@[0] == 'A');
}

} // verus!
