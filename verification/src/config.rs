//! Settings of a sweep.
use vstd::prelude::*;

verus! {

/// What is written at the end.
#[derive(Clone, Copy, Debug, PartialEq, Eq, Structural)]
pub enum Output {
    Plain,
    Fping,
    Zabbix,
    Json,
}

/// What names a host in Zabbix: its address or its display name.
#[derive(Clone, Copy, Debug, PartialEq, Eq, Structural)]
pub enum HostMode {
    Ip,
    Resolved,
}

/// Settings of a sweep.
pub struct Config {
    /// Wait after each round, in milliseconds.
    pub timeout_ms: u64,
    /// Extra rounds for silent hosts.
    pub retries: u32,
    /// Packets per second within a round; 0 is unbounded.
    pub rate: u64,
    /// Payload bytes of a probe.
    pub payload: usize,
    pub output: Output,
    /// Probes per host where their number is fixed.
    pub count: u32,
    /// Prefix of the Zabbix item keys.
    pub zbx_key: String,
    pub zbx_host_mode: HostMode,
    pub zbx_server: Option<String>,
    /// Values per Zabbix sender connection; 0 is all in one.
    pub zbx_batch: usize,
    /// Whether the Zabbix and JSON outputs use adaptive retry.
    pub discover: bool,
    /// Egress interface of the link-layer transport.
    pub iface: Option<String>,
}

/// The contents of a [`Config`].
pub struct Settings {
    pub timeout_ms: u64,
    pub retries: u32,
    pub rate: u64,
    pub payload: usize,
    pub output: Output,
    pub count: u32,
    pub zbx_key: Seq<char>,
    pub zbx_host_mode: HostMode,
    pub zbx_server: Option<Seq<char>>,
    pub zbx_batch: usize,
    pub discover: bool,
    pub iface: Option<Seq<char>>,
}

/// The contents of an optional string.
pub open spec fn contents(s: Option<String>) -> Option<Seq<char>> {
    match s {
        Some(t) => Some(t@),
        None => None,
    }
}

impl View for Config {
    type V = Settings;

    open spec fn view(&self) -> Settings {
        Settings {
            timeout_ms: self.timeout_ms,
            retries: self.retries,
            rate: self.rate,
            payload: self.payload,
            output: self.output,
            count: self.count,
            zbx_key: self.zbx_key@,
            zbx_host_mode: self.zbx_host_mode,
            zbx_server: contents(self.zbx_server),
            zbx_batch: self.zbx_batch,
            discover: self.discover,
            iface: contents(self.iface),
        }
    }
}

/// The settings when no option is given.
pub open spec fn default_settings() -> Settings {
    Settings {
        timeout_ms: 1500,
        retries: 2,
        rate: 0,
        payload: 20,
        output: Output::Plain,
        count: 3,
        zbx_key: "icmp"@,
        zbx_host_mode: HostMode::Ip,
        zbx_server: None,
        zbx_batch: 1000,
        discover: false,
        iface: None,
    }
}

impl Default for Config {
    /// The settings when no option is given.
    fn default() -> (cfg: Config)
        ensures
            cfg@ == default_settings(),
            cfg.timeout_ms == 1500 && cfg.retries == 2 && cfg.count == 3 && cfg.rate == 0,
            cfg.payload == 20 && cfg.output is Plain && !cfg.discover && cfg.iface is None,
            cfg.zbx_key@ == "icmp"@ && cfg.zbx_host_mode is Ip && cfg.zbx_server is None,
            cfg.zbx_batch == 1000,
    {
        Config {
            timeout_ms: 1500,
            retries: 2,
            rate: 0,
            payload: 20,
            output: Output::Plain,
            count: 3,
            zbx_key: "icmp".to_owned(),
            zbx_host_mode: HostMode::Ip,
            zbx_server: None,
            zbx_batch: 1000,
            discover: false,
            iface: None,
        }
    }
}

/// Whether hosts are probed until they answer: always for plain output, never for fping
/// output, on request for the others.
pub open spec fn adaptive(cfg: Settings) -> bool {
    match cfg.output {
        Output::Plain => true,
        Output::Fping => false,
        Output::Zabbix => cfg.discover,
        Output::Json => cfg.discover,
    }
}

/// The probing strategy: adaptive (send once, retry only the silent ones) or a fixed number
/// of probes to every host.
pub fn is_adaptive(cfg: &Config) -> (r: bool)
    ensures
        r == adaptive(cfg@),
{
    match cfg.output {
        Output::Plain => true,
        Output::Fping => false,
        Output::Zabbix => cfg.discover,
        Output::Json => cfg.discover,
    }
}

/// The number of rounds: one and the retries, or the count of probes, at least one.
pub open spec fn rounds_spec(cfg: Settings) -> nat {
    if adaptive(cfg) {
        cfg.retries as nat + 1
    } else if cfg.count == 0 {
        1
    } else {
        cfg.count as nat
    }
}

/// The number of rounds of a sweep.
pub fn round_count(cfg: &Config) -> (r: usize)
    requires
        adaptive(cfg@) ==> cfg.retries < u32::MAX,
    ensures
        r == rounds_spec(cfg@),
        r >= 1,
        adaptive(cfg@) ==> r == cfg.retries + 1,
        !adaptive(cfg@) && cfg.count >= 1 ==> r == cfg.count,
        !adaptive(cfg@) && cfg.count == 0 ==> r == 1,
{
    if is_adaptive(cfg) {
        (cfg.retries + 1) as usize
    } else if cfg.count == 0 {
        1
    } else {
        cfg.count as usize
    }
}

/// The number of rounds is that which was asked for: one and the retries under adaptive retry,
/// else the count of probes, but at least one.
pub proof fn law_rounds_are_those_asked_for(cfg: Settings)
    ensures
        adaptive(cfg) ==> rounds_spec(cfg) == cfg.retries + 1,
        !adaptive(cfg) && cfg.count >= 1 ==> rounds_spec(cfg) == cfg.count,
        !adaptive(cfg) && cfg.count == 0 ==> rounds_spec(cfg) == 1,
{
}

/// Plain output is always adaptive and fping output never; the others are so exactly on request.
pub proof fn law_strategy_follows_the_output(cfg: Settings)
    ensures
        cfg.output is Plain ==> adaptive(cfg),
        cfg.output is Fping ==> !adaptive(cfg),
        cfg.output is Zabbix || cfg.output is Json ==> adaptive(cfg) == cfg.discover,
{
}

} // verus!
