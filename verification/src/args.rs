//! The command line.
use crate::addr::IpAddr;
use crate::config;
use crate::config::{Config, Output};
use crate::literal;
use crate::targets;
use crate::text;
use vstd::prelude::*;

verus! {

/// What `--help` prints.
pub const USAGE: &'static str = "\
fastping — stateless mass ICMP-echo sweeper

USAGE:
    fastping [OPTIONS] [IP...]
    fastping -c 10.0.0.0/24 -o zabbix --key icmp
    cat hosts.txt | fastping -o fping -C 3

TARGETS (combine freely; stdin used if none given):
    IP...                 IPv4/IPv6 literals or hostnames (resolved to A/AAAA)
    -f, --file <path>     file with one \"ip|host\" or \"ip|host name\" per line
    -c, --cidr <cidr>     expand an IPv4 CIDR (repeatable; IPv6 not supported)

OPTIONS:
    -t, --timeout <ms>    per-round wait before retry        [default 1500]
    -r, --retries <n>     extra rounds for silent hosts       [default 2]
        --rate <pps>      send rate across the batch, 0=max   [default 0]
        --payload <n>     ICMP payload bytes (min 20)         [default 20]
    -o, --output <mode>   plain | fping | zabbix | json      [default plain]
    -C, --count <n>       probes per host (fixed-probe modes)  [default 3]
        --discover        zabbix/json: adaptive retry (alive-only, retries just
                          the silent ones) instead of -C probes; loss is 0/1
        --key <prefix>    item key prefix in zabbix mode      [default icmp]
        --server <addr>   Zabbix server/proxy host[:10051]
        --batch <n>       values per Zabbix sender connection, 0=all [default 1000]
    -i, --iface <name>    egress interface (afpacket backend only)
    -h, --help

ZABBIX MODE emits per host: <key>.alive (0/1), <key>.loss (0..1), <key>.rtt (s).
Requires CAP_NET_RAW (run as root or: setcap cap_net_raw+ep ./fastping).
";

/// An option that takes a value.
#[derive(Clone, Copy, Debug, PartialEq, Eq, Structural)]
pub enum Opt {
    Timeout,
    Retries,
    Rate,
    Payload,
    Count,
    Output,
    Key,
    Server,
    Batch,
    Iface,
    File,
    Cidr,
}

/// The option with a value that `a` names.
pub open spec fn option(a: Seq<char>) -> Option<Opt> {
    if a == "-t"@ || a == "--timeout"@ {
        Some(Opt::Timeout)
    } else if a == "-r"@ || a == "--retries"@ {
        Some(Opt::Retries)
    } else if a == "--rate"@ {
        Some(Opt::Rate)
    } else if a == "--payload"@ {
        Some(Opt::Payload)
    } else if a == "-C"@ || a == "--count"@ {
        Some(Opt::Count)
    } else if a == "-o"@ || a == "--output"@ {
        Some(Opt::Output)
    } else if a == "--key"@ {
        Some(Opt::Key)
    } else if a == "--server"@ {
        Some(Opt::Server)
    } else if a == "--batch"@ {
        Some(Opt::Batch)
    } else if a == "-i"@ || a == "--iface"@ {
        Some(Opt::Iface)
    } else if a == "-f"@ || a == "--file"@ {
        Some(Opt::File)
    } else if a == "-c"@ || a == "--cidr"@ {
        Some(Opt::Cidr)
    } else {
        None
    }
}

fn option_of(a: &[char]) -> (r: Option<Opt>)
    ensures
        r == option(a@),
{
    if text::spells(a, "-t") || text::spells(a, "--timeout") {
        Some(Opt::Timeout)
    } else if text::spells(a, "-r") || text::spells(a, "--retries") {
        Some(Opt::Retries)
    } else if text::spells(a, "--rate") {
        Some(Opt::Rate)
    } else if text::spells(a, "--payload") {
        Some(Opt::Payload)
    } else if text::spells(a, "-C") || text::spells(a, "--count") {
        Some(Opt::Count)
    } else if text::spells(a, "-o") || text::spells(a, "--output") {
        Some(Opt::Output)
    } else if text::spells(a, "--key") {
        Some(Opt::Key)
    } else if text::spells(a, "--server") {
        Some(Opt::Server)
    } else if text::spells(a, "--batch") {
        Some(Opt::Batch)
    } else if text::spells(a, "-i") || text::spells(a, "--iface") {
        Some(Opt::Iface)
    } else if text::spells(a, "-f") || text::spells(a, "--file") {
        Some(Opt::File)
    } else if text::spells(a, "-c") || text::spells(a, "--cidr") {
        Some(Opt::Cidr)
    } else {
        None
    }
}

/// What has been read of the command line so far.
pub struct ArgState {
    pub cfg: Config,
    /// Targets with their display names.
    pub targets: Vec<(IpAddr, String)>,
    /// The host file.
    pub file: Option<String>,
    /// Networks to be listed.
    pub cidrs: Vec<String>,
    /// The argument to be read next.
    pub pos: usize,
}

/// The contents of an [`ArgState`].
pub struct Read {
    pub cfg: config::Settings,
    pub targets: Seq<(IpAddr, Seq<char>)>,
    pub file: Option<Seq<char>>,
    pub cidrs: Seq<Seq<char>>,
    pub pos: nat,
}

impl View for ArgState {
    type V = Read;

    open spec fn view(&self) -> Read {
        Read {
            cfg: self.cfg@,
            targets: targets::named(self.targets@),
            file: config::contents(self.file),
            cidrs: text::contents(self.cidrs@),
            pos: self.pos as nat,
        }
    }
}

/// The output that `v` names.
pub open spec fn output_named(v: Seq<char>) -> Option<Output> {
    if v == "plain"@ {
        Some(Output::Plain)
    } else if v == "fping"@ {
        Some(Output::Fping)
    } else if v == "zabbix"@ {
        Some(Output::Zabbix)
    } else if v == "json"@ {
        Some(Output::Json)
    } else {
        None
    }
}

/// The settings with the option set to `v`, or why `v` is no value for it. The host file and
/// the networks are no settings.
pub open spec fn set_option(c: config::Settings, opt: Opt, v: Seq<char>) -> Result<
    config::Settings,
    Seq<char>,
> {
    match opt {
        Opt::Timeout => match text::number(v, 10, u64::MAX as nat) {
            Some(n) => Ok(config::Settings { timeout_ms: n as u64, ..c }),
            None => Err("bad timeout"@),
        },
        Opt::Retries => match text::number(v, 10, u32::MAX as nat) {
            Some(n) => Ok(config::Settings { retries: n as u32, ..c }),
            None => Err("bad retries"@),
        },
        Opt::Rate => match text::number(v, 10, u64::MAX as nat) {
            Some(n) => Ok(config::Settings { rate: n as u64, ..c }),
            None => Err("bad rate"@),
        },
        Opt::Payload => match text::number(v, 10, usize::MAX as nat) {
            Some(n) => Ok(config::Settings { payload: n as usize, ..c }),
            None => Err("bad payload"@),
        },
        Opt::Count => match text::number(v, 10, u32::MAX as nat) {
            Some(n) => Ok(config::Settings { count: n as u32, ..c }),
            None => Err("bad count"@),
        },
        Opt::Output => match output_named(v) {
            Some(o) => Ok(config::Settings { output: o, ..c }),
            None => Err("unknown output: "@ + v),
        },
        Opt::Key => Ok(config::Settings { zbx_key: v, ..c }),
        Opt::Server => Ok(config::Settings { zbx_server: Some(v), ..c }),
        Opt::Batch => match text::number(v, 10, usize::MAX as nat) {
            Some(n) => Ok(config::Settings { zbx_batch: n as usize, ..c }),
            None => Err("bad batch"@),
        },
        Opt::Iface => Ok(config::Settings { iface: Some(v), ..c }),
        Opt::File => Ok(c),
        Opt::Cidr => Ok(c),
    }
}

/// What reading on comes to.
pub enum Scan {
    /// All arguments are read.
    End(Read),
    /// The argument just read is a host to be resolved: no address literal.
    Host(Read, Seq<char>),
    /// An argument is refused, with a message; it is the one to be read next.
    Fail(Read, Seq<char>),
}

/// What reading one argument comes to: another state, or the end of reading on.
pub open spec fn step(st: Read, args: Seq<Seq<char>>) -> Result<Read, Scan> {
    let a = args[st.pos as int];
    match option(a) {
        Some(opt) => if st.pos + 1 >= args.len() {
            Err(Scan::Fail(st, a + " needs a value"@))
        } else {
            let v = args[(st.pos + 1) as int];
            match set_option(st.cfg, opt, v) {
                Ok(cfg) => Ok(
                    Read {
                        cfg,
                        file: if opt is File {
                            Some(v)
                        } else {
                            st.file
                        },
                        cidrs: if opt is Cidr {
                            st.cidrs.push(v)
                        } else {
                            st.cidrs
                        },
                        pos: st.pos + 2,
                        ..st
                    },
                ),
                Err(e) => Err(Scan::Fail(st, e)),
            }
        },
        None => if a == "--discover"@ || a == "--alive"@ {
            Ok(
                Read {
                    cfg: config::Settings { discover: true, ..st.cfg },
                    pos: st.pos + 1,
                    ..st
                },
            )
        } else if a == "-h"@ || a == "--help"@ {
            Err(Scan::Fail(st, "help"@))
        } else if a.len() == 0 || a[0] != '-' {
            let next = Read { pos: st.pos + 1, ..st };
            match literal::ip_of(a) {
                Some(ip) => Ok(Read { targets: next.targets.push((ip, a)), ..next }),
                None => Err(Scan::Host(next, a)),
            }
        } else {
            Err(Scan::Fail(st, "unknown flag: "@ + a))
        },
    }
}

/// What reading on from `st` comes to.
pub open spec fn scan(st: Read, args: Seq<Seq<char>>) -> Scan
    decreases args.len() - st.pos,
{
    if st.pos >= args.len() {
        Scan::End(st)
    } else {
        match step(st, args) {
            Ok(next) => scan(next, args),
            Err(s) => s,
        }
    }
}

impl ArgState {
    /// The state before the first argument.
    pub fn new() -> (s: ArgState)
        ensures
            s@ == (Read {
                cfg: config::default_settings(),
                targets: Seq::empty(),
                file: None,
                cidrs: Seq::empty(),
                pos: 0,
            }),
    {
        let s = ArgState {
            cfg: Config::default(),
            targets: Vec::new(),
            file: None,
            cidrs: Vec::new(),
            pos: 0,
        };
        assert(s@.targets =~= Seq::empty());
        assert(s@.cidrs =~= Seq::empty());
        s
    }

    /// Adds a target under a display name.
    pub fn add_target(&mut self, ip: IpAddr, name: String)
        ensures
            final(self)@ == (Read {
                targets: old(self)@.targets.push((ip, name@)),
                ..old(self)@
            }),
    {
        self.targets.push((ip, name));
        assert(self@.targets =~= old(self)@.targets.push((ip, name@)));
    }
}

/// A string of two parts.
fn concat(head: &str, tail: &str) -> (r: String)
    ensures
        r@ == head@ + tail@,
{
    let mut r = head.to_owned();
    r.append(tail);
    r
}

/// The value after the option at `pos`.
pub fn next_val(args: &[String], pos: usize, flag: &str) -> (r: Result<String, String>)
    requires
        pos < args.len(),
    ensures
        match r {
            Ok(v) => pos + 1 < args.len() && v@ == args@[pos + 1]@,
            Err(e) => pos + 1 >= args.len() && e@ == flag@ + " needs a value"@,
        },
{
    if pos + 1 < args.len() {
        Ok(args[pos + 1].clone())
    } else {
        Err(concat(flag, " needs a value"))
    }
}

fn parse_or(v: &[char], max: u64, message: &str) -> (r: Result<u64, String>)
    ensures
        match (r, text::number(v@, 10, max as nat)) {
            (Ok(n), Some(m)) => n == m && n <= max,
            (Err(e), None) => e@ == message@,
            _ => false,
        },
{
    match text::parse_number(v, 10, max) {
        Some(n) => Ok(n),
        None => Err(message.to_owned()),
    }
}

fn parse_output(v: &str) -> (r: Result<Output, String>)
    ensures
        match (r, output_named(v@)) {
            (Ok(o), Some(p)) => o == p,
            (Err(e), None) => e@ == "unknown output: "@ + v@,
            _ => false,
        },
{
    let c = text::chars_of(v);
    if text::spells(c.as_slice(), "plain") {
        Ok(Output::Plain)
    } else if text::spells(c.as_slice(), "fping") {
        Ok(Output::Fping)
    } else if text::spells(c.as_slice(), "zabbix") {
        Ok(Output::Zabbix)
    } else if text::spells(c.as_slice(), "json") {
        Ok(Output::Json)
    } else {
        Err(concat("unknown output: ", v))
    }
}

/// Sets an option, see [`set_option`]. A refused value changes nothing.
pub fn apply_option(cfg: &mut Config, opt: Opt, value: &str) -> (r: Result<(), String>)
    ensures
        match (r, set_option(old(cfg)@, opt, value@)) {
            (Ok(()), Ok(s)) => final(cfg)@ == s,
            (Err(e), Err(m)) => e@ == m && final(cfg)@ == old(cfg)@,
            _ => false,
        },
{
    let chars = text::chars_of(value);
    let v = chars.as_slice();
    match opt {
        Opt::Timeout => {
            match parse_or(v, u64::MAX, "bad timeout") {
                Ok(n) => {
                    cfg.timeout_ms = n;
                },
                Err(e) => {
                    return Err(e);
                },
            }
        },
        Opt::Retries => {
            match parse_or(v, u32::MAX as u64, "bad retries") {
                Ok(n) => {
                    cfg.retries = n as u32;
                },
                Err(e) => {
                    return Err(e);
                },
            }
        },
        Opt::Rate => {
            match parse_or(v, u64::MAX, "bad rate") {
                Ok(n) => {
                    cfg.rate = n;
                },
                Err(e) => {
                    return Err(e);
                },
            }
        },
        Opt::Payload => {
            match parse_or(v, usize::MAX as u64, "bad payload") {
                Ok(n) => {
                    cfg.payload = n as usize;
                },
                Err(e) => {
                    return Err(e);
                },
            }
        },
        Opt::Count => {
            match parse_or(v, u32::MAX as u64, "bad count") {
                Ok(n) => {
                    cfg.count = n as u32;
                },
                Err(e) => {
                    return Err(e);
                },
            }
        },
        Opt::Output => {
            match parse_output(value) {
                Ok(o) => {
                    cfg.output = o;
                },
                Err(e) => {
                    return Err(e);
                },
            }
        },
        Opt::Key => {
            cfg.zbx_key = value.to_owned();
        },
        Opt::Server => {
            cfg.zbx_server = Some(value.to_owned());
        },
        Opt::Batch => {
            match parse_or(v, usize::MAX as u64, "bad batch") {
                Ok(n) => {
                    cfg.zbx_batch = n as usize;
                },
                Err(e) => {
                    return Err(e);
                },
            }
        },
        Opt::Iface => {
            cfg.iface = Some(value.to_owned());
        },
        Opt::File => {},
        Opt::Cidr => {},
    }
    Ok(())
}

/// Reads on until a host has to be resolved (`Some`) or all arguments are read (`None`). Address
/// literals become targets right away.
pub fn parse_args(state: &mut ArgState, args: &[String]) -> (r: Result<Option<String>, String>)
    ensures
        match scan(old(state)@, text::contents(args@)) {
            Scan::End(st) => r matches Ok(None) && final(state)@ == st,
            Scan::Host(st, host) => r matches Ok(Some(h)) && h@ == host && final(state)@ == st,
            Scan::Fail(st, message) => r matches Err(e) && e@ == message && final(state)@ == st,
        },
{
    let ghost all = text::contents(args@);
    let ghost want = scan(state@, all);
    while state.pos < args.len()
        invariant
            all == text::contents(args@),
            want == scan(old(state)@, all),
            scan(state@, all) == want,
        decreases args.len() - state.pos,
    {
        let pos: usize = state.pos;
        let ghost st = state@;
        let a = args[pos].as_str();
        assert(all[pos as int] == a@);
        let chars = text::chars_of(a);
        let c = chars.as_slice();
        match option_of(c) {
            Some(opt) => {
                match next_val(args, pos, a) {
                    Err(e) => {
                        return Err(e);
                    },
                    Ok(v) => {
                        assert(all[pos + 1] == v@);
                        match apply_option(&mut state.cfg, opt, v.as_str()) {
                            Err(e) => {
                                return Err(e);
                            },
                            Ok(()) => {},
                        }
                        state.pos = pos + 2;
                        match opt {
                            Opt::File => {
                                state.file = Some(v);
                            },
                            Opt::Cidr => {
                                state.cidrs.push(v);
                                assert(state@.cidrs =~= st.cidrs.push(v@));
                            },
                            _ => {},
                        }
                    },
                }
            },
            None => {
                if text::spells(c, "--discover") || text::spells(c, "--alive") {
                    state.cfg.discover = true;
                    state.pos = pos + 1;
                } else if text::spells(c, "-h") || text::spells(c, "--help") {
                    return Err("help".to_owned());
                } else if c.len() == 0 || c[0] != '-' {
                    state.pos = pos + 1;
                    match literal::parse_ip(a) {
                        Some(ip) => {
                            state.add_target(ip, a.to_owned());
                        },
                        None => {
                            return Ok(Some(a.to_owned()));
                        },
                    }
                } else {
                    return Err(concat("unknown flag: ", a));
                }
            },
        }
        assert(step(st, all) == Ok::<Read, Scan>(state@));
    }
    Ok(None)
}

/// Reads a line of a host file. An address literal becomes a target right away; any other host is
/// handed out with its display name, to be resolved.
pub fn read_line(state: &mut ArgState, line: &str) -> (r: Option<(String, String)>)
    ensures
        match targets::host_line(line@) {
            None => r is None && final(state)@ == old(state)@,
            Some((host, name)) => match literal::ip_of(host) {
                Some(ip) => r is None && final(state)@ == (Read {
                    targets: old(state)@.targets.push((ip, name)),
                    ..old(state)@
                }),
                None => r matches Some(t) && t.0@ == host && t.1@ == name && final(state)@ == old(
                    state,
                )@,
            },
        },
{
    match targets::parse_host_line(line) {
        None => None,
        Some((host, name)) => match literal::parse_ip(host.as_str()) {
            Some(ip) => {
                state.add_target(ip, name);
                None
            },
            None => Some((host, name)),
        },
    }
}

/// What a resolver said of a host.
pub enum Lookup {
    /// The addresses of the host, in order.
    Found(Vec<IpAddr>),
    /// Why there are none.
    Failed(String),
}

/// The address of a host: the one that it writes, or else the first one that the resolver
/// gave.
pub fn resolve_ip(host: &str, lookup: Lookup) -> (r: Result<IpAddr, String>)
    ensures
        match (literal::ip_of(host@), lookup) {
            (Some(ip), _) => r == Ok::<IpAddr, String>(ip),
            (None, Lookup::Found(v)) => if v@.len() > 0 {
                r == Ok::<IpAddr, String>(v@[0])
            } else {
                r matches Err(e) && e@ == "no address for "@ + host@
            },
            (None, Lookup::Failed(m)) => r matches Err(e) && e@ == "cannot resolve "@ + host@
                + ": "@ + m@,
        },
{
    match literal::parse_ip(host) {
        Some(ip) => Ok(ip),
        None => match lookup {
            Lookup::Found(v) => if v.len() > 0 {
                Ok(v[0])
            } else {
                Err(concat("no address for ", host))
            },
            Lookup::Failed(m) => {
                let mut e = concat("cannot resolve ", host);
                e.append(": ");
                e.append(m.as_str());
                Err(e)
            },
        },
    }
}

/// The targets of the networks in order, each under the text of its address, or the message
/// about the first one that is refused.
pub open spec fn network_targets(cidrs: Seq<Seq<char>>) -> Result<
    Seq<(IpAddr, Seq<char>)>,
    Seq<char>,
>
    decreases cidrs.len(),
{
    if cidrs.len() == 0 {
        Ok(Seq::empty())
    } else {
        match (network_targets(cidrs.drop_last()), targets::cidr(cidrs.last())) {
            (Err(e), _) => Err(e),
            (Ok(front), Ok((ip, p))) => Ok(
                front + targets::network_hosts(ip, p).map_values(
                    |a: IpAddr| (a, a.text_spec()),
                ),
            ),
            (Ok(front), Err(e)) => Err(e),
        }
    }
}

/// A refused network is refused in every longer list.
proof fn lemma_refused(cidrs: Seq<Seq<char>>, k: int)
    requires
        0 <= k <= cidrs.len(),
    ensures
        network_targets(cidrs.take(k)) is Err ==> network_targets(cidrs) == network_targets(
            cidrs.take(k),
        ),
    decreases cidrs.len() - k,
{
    if k < cidrs.len() {
        lemma_refused(cidrs, k + 1);
        assert(cidrs.take(k + 1).drop_last() =~= cidrs.take(k));
    } else {
        assert(cidrs.take(k) =~= cidrs);
    }
}

/// Adds the addresses of the networks to the targets. If one is refused, none is added.
pub fn add_networks(state: &mut ArgState) -> (r: Result<(), String>)
    ensures
        match (r, network_targets(old(state)@.cidrs)) {
            (Ok(()), Ok(more)) => final(state)@ == (Read {
                targets: old(state)@.targets + more,
                ..old(state)@
            }),
            (Err(e), Err(m)) => e@ == m && final(state)@ == old(state)@,
            _ => false,
        },
{
    let mut more: Vec<(IpAddr, String)> = Vec::new();
    let ghost cidrs = state@.cidrs;
    assert(targets::named(more@) =~= Seq::<(IpAddr, Seq<char>)>::empty());
    for i in 0..state.cidrs.len()
        invariant
            *state == *old(state),
            cidrs == text::contents(state.cidrs@),
            network_targets(cidrs.take(i as int)) == Ok::<Seq<(IpAddr, Seq<char>)>, Seq<char>>(
                targets::named(more@),
            ),
    {
        assert(cidrs.take(i + 1).drop_last() =~= cidrs.take(i as int));
        assert(cidrs.take(i + 1).last() == state.cidrs@[i as int]@);
        match targets::expand_cidr(state.cidrs[i].as_str()) {
            Err(e) => {
                proof {
                    lemma_refused(cidrs, i + 1);
                }
                return Err(e);
            },
            Ok(ips) => {
                push_named(&mut more, ips.as_slice());
            },
        }
    }
    assert(cidrs.take(cidrs.len() as int) =~= cidrs);
    let ghost before = state.targets@;
    let ghost added = more@;
    state.targets.append(&mut more);
    proof {
        assert(state.targets@ =~= before + added);
        assert(targets::named(state.targets@) =~= targets::named(before) + targets::named(added));
    }
    Ok(())
}

fn push_named(out: &mut Vec<(IpAddr, String)>, ips: &[IpAddr])
    ensures
        targets::named(final(out)@) == targets::named(old(out)@) + ips@.map_values(
            |a: IpAddr| (a, a.text_spec()),
        ),
{
    let ghost before = targets::named(out@);
    let ghost all = ips@.map_values(|a: IpAddr| (a, a.text_spec()));
    assert(before + all.take(0) =~= before);
    for i in 0..ips.len()
        invariant
            all == ips@.map_values(|a: IpAddr| (a, a.text_spec())),
            targets::named(out@) == before + all.take(i as int),
    {
        let ghost had = targets::named(out@);
        let shown = ips[i].text();
        out.push((ips[i], shown));
        assert(targets::named(out@) =~= had.push((ips@[i as int], ips@[i as int].text_spec())));
        assert(targets::named(out@) =~= before + all.take(i + 1));
    }
    assert(all.take(all.len() as int) =~= all);
}

/// Where targets are read from.
pub enum Source {
    /// The host file.
    File(String),
    /// Standard input.
    Input,
    /// Nowhere: there are targets.
    Nothing,
}

/// Where to read targets from after the arguments and the networks: the host file, unless it
/// is read already, and standard input where there is no target yet.
pub fn next_source(state: &ArgState, file_is_read: bool) -> (r: Source)
    ensures
        match (state@.file, r) {
            (Some(path), Source::File(p)) => !file_is_read && p@ == path,
            (file, Source::Input) => (file_is_read || file is None) && state@.targets.len() == 0,
            (file, Source::Nothing) => (file_is_read || file is None) && state@.targets.len() > 0,
            _ => false,
        },
{
    if !file_is_read {
        match &state.file {
            Some(path) => {
                return Source::File(path.clone());
            },
            None => {},
        }
    }
    if state.targets.len() == 0 {
        Source::Input
    } else {
        Source::Nothing
    }
}

/// The settings and the targets, if there are any.
pub fn finish(state: ArgState) -> (r: Result<(Config, Vec<(IpAddr, String)>), String>)
    ensures
        match r {
            Ok((cfg, raw)) => state@.targets.len() > 0 && cfg@ == state@.cfg && targets::named(raw@)
                == state@.targets,
            Err(e) => state@.targets.len() == 0 && e@ == "no targets"@,
        },
{
    if state.targets.len() == 0 {
        Err("no targets".to_owned())
    } else {
        Ok((state.cfg, state.targets))
    }
}

/// An address literal never reaches the resolver: a host that is handed out is none.
pub proof fn law_literals_are_not_resolved(st: Read, args: Seq<Seq<char>>)
    ensures
        scan(st, args) matches Scan::Host(_, host) ==> literal::ip_of(host) is None,
    decreases args.len() - st.pos,
{
    if st.pos < args.len() {
        if let Ok(next) = step(st, args) {
            law_literals_are_not_resolved(next, args);
        }
    }
}

/// The last value of an option is the one that counts.
pub proof fn law_last_value_wins(c: config::Settings, opt: Opt, v: Seq<char>, w: Seq<char>)
    requires
        set_option(c, opt, v) is Ok,
    ensures
        set_option(set_option(c, opt, v)->Ok_0, opt, w) == set_option(c, opt, w),
{
}

/// Different options can be given in any order.
pub proof fn law_options_commute(
    c: config::Settings,
    a: Opt,
    v: Seq<char>,
    b: Opt,
    w: Seq<char>,
)
    requires
        a != b,
        set_option(c, a, v) is Ok,
        set_option(c, b, w) is Ok,
    ensures
        set_option(set_option(c, a, v)->Ok_0, b, w) is Ok,
        set_option(set_option(c, a, v)->Ok_0, b, w) == set_option(
            set_option(c, b, w)->Ok_0,
            a,
            v,
        ),
{
}

/// An option that takes a number is set to it as it stands, whatever its size, up to the greatest
/// one that it can hold; a greater one is refused. Nothing else changes.
pub proof fn law_numbers_are_set_as_given(c: config::Settings, n: nat)
    ensures
        ({
            let v = text::decimal(n);
            &&& n <= u64::MAX ==> set_option(c, Opt::Timeout, v) == Ok::<
                config::Settings,
                Seq<char>,
            >(config::Settings { timeout_ms: n as u64, ..c })
            &&& n > u64::MAX ==> set_option(c, Opt::Timeout, v) is Err
            &&& n <= u32::MAX ==> set_option(c, Opt::Retries, v) == Ok::<
                config::Settings,
                Seq<char>,
            >(config::Settings { retries: n as u32, ..c })
            &&& n > u32::MAX ==> set_option(c, Opt::Retries, v) is Err
            &&& n <= u64::MAX ==> set_option(c, Opt::Rate, v) == Ok::<
                config::Settings,
                Seq<char>,
            >(config::Settings { rate: n as u64, ..c })
            &&& n > u64::MAX ==> set_option(c, Opt::Rate, v) is Err
            &&& n <= usize::MAX ==> set_option(c, Opt::Payload, v) == Ok::<
                config::Settings,
                Seq<char>,
            >(config::Settings { payload: n as usize, ..c })
            &&& n > usize::MAX ==> set_option(c, Opt::Payload, v) is Err
            &&& n <= u32::MAX ==> set_option(c, Opt::Count, v) == Ok::<
                config::Settings,
                Seq<char>,
            >(config::Settings { count: n as u32, ..c })
            &&& n > u32::MAX ==> set_option(c, Opt::Count, v) is Err
            &&& n <= usize::MAX ==> set_option(c, Opt::Batch, v) == Ok::<
                config::Settings,
                Seq<char>,
            >(config::Settings { zbx_batch: n as usize, ..c })
            &&& n > usize::MAX ==> set_option(c, Opt::Batch, v) is Err
        }),
{
    text::law_numbers_are_read_up_to_the_limit(n, u64::MAX as nat);
    text::law_numbers_are_read_up_to_the_limit(n, u32::MAX as nat);
    text::law_numbers_are_read_up_to_the_limit(n, usize::MAX as nat);
}

/// An option that takes a text is set to it as it stands; a host file and a network are no
/// settings. Nothing else changes.
pub proof fn law_texts_are_set_as_given(c: config::Settings, v: Seq<char>)
    ensures
        set_option(c, Opt::Key, v) == Ok::<config::Settings, Seq<char>>(
            config::Settings { zbx_key: v, ..c },
        ),
        set_option(c, Opt::Server, v) == Ok::<config::Settings, Seq<char>>(
            config::Settings { zbx_server: Some(v), ..c },
        ),
        set_option(c, Opt::Iface, v) == Ok::<config::Settings, Seq<char>>(
            config::Settings { iface: Some(v), ..c },
        ),
        set_option(c, Opt::File, v) == Ok::<config::Settings, Seq<char>>(c),
        set_option(c, Opt::Cidr, v) == Ok::<config::Settings, Seq<char>>(c),
        match set_option(c, Opt::Output, v) {
            Ok(s) => s == (config::Settings { output: s.output, ..c }) && output_named(v) == Some(
                s.output,
            ),
            Err(e) => output_named(v) is None && e == "unknown output: "@ + v,
        },
{
}

/// An option and its value are read together: the settings take the value, the host file is that
/// of its option, networks come in order, and no target is added.
pub proof fn law_an_option_is_read_with_its_value(
    st: Read,
    args: Seq<Seq<char>>,
    opt: Opt,
    s: config::Settings,
)
    requires
        st.pos + 1 < args.len(),
        option(args[st.pos as int]) == Some(opt),
        set_option(st.cfg, opt, args[(st.pos + 1) as int]) == Ok::<config::Settings, Seq<char>>(s),
    ensures
        ({
            let v = args[(st.pos + 1) as int];
            let next = Read {
                cfg: s,
                targets: st.targets,
                file: if opt is File {
                    Some(v)
                } else {
                    st.file
                },
                cidrs: if opt is Cidr {
                    st.cidrs.push(v)
                } else {
                    st.cidrs
                },
                pos: st.pos + 2,
            };
            scan(st, args) == scan(next, args)
        }),
{
}

/// Reading fails exactly where an argument is refused, and all before it has been read; at the end
/// of the arguments it ends.
pub proof fn law_arguments_are_read_in_order(st: Read, args: Seq<Seq<char>>)
    requires
        st.pos <= args.len(),
    ensures
        match scan(st, args) {
            Scan::End(s) => s.pos >= args.len(),
            Scan::Host(s, host) => st.pos < s.pos <= args.len() && host == args[s.pos - 1],
            Scan::Fail(s, _) => st.pos <= s.pos < args.len(),
        },
    decreases args.len() - st.pos,
{
    if st.pos < args.len() {
        if let Ok(next) = step(st, args) {
            law_arguments_are_read_in_order(next, args);
        }
    }
}

/// A literal becomes a target under its own text.
pub proof fn law_a_literal_becomes_a_target(st: Read, args: Seq<Seq<char>>, ip: IpAddr)
    requires
        st.pos < args.len(),
        args[st.pos as int] == ip.text_spec(),
    ensures
        scan(st, args) == scan(
            Read {
                targets: st.targets.push((ip, ip.text_spec())),
                pos: st.pos + 1,
                ..st
            },
            args,
        ),
{
    let a = ip.text_spec();
    literal::law_text_reads_back(ip);
    literal::law_text_begins(ip);
    lemma_flags_spelled();
    assert(a[0] != '-');
}

/// Networks add their addresses in order, each under its own text; the first one that is refused
/// refuses them all.
pub proof fn law_networks_add_their_addresses(cidrs: Seq<Seq<char>>, c: Seq<char>)
    ensures
        network_targets(Seq::empty()) == Ok::<Seq<(IpAddr, Seq<char>)>, Seq<char>>(Seq::empty()),
        match (network_targets(cidrs), targets::cidr(c), network_targets(cidrs.push(c))) {
            (Ok(front), Ok((ip, p)), Ok(all)) => {
                let hosts = targets::network_hosts(ip, p);
                &&& all.len() == front.len() + hosts.len()
                &&& all.take(front.len() as int) == front
                &&& forall|i: int|
                    0 <= i < hosts.len() ==> #[trigger] all[front.len() + i] == (
                        hosts[i],
                        hosts[i].text_spec(),
                    )
            },
            (Ok(_), Err(e), Err(m)) => m == e,
            (Err(e), _, Err(m)) => m == e,
            _ => false,
        },
{
    assert(cidrs.push(c).drop_last() =~= cidrs);
    if let (Ok(front), Ok((ip, p)), Ok(all)) = (
        network_targets(cidrs),
        targets::cidr(c),
        network_targets(cidrs.push(c)),
    ) {
        assert(all.take(front.len() as int) =~= front);
    }
}

/// How the flags are spelled.
proof fn lemma_flags_spelled()
    ensures
        "-t"@ == seq!['-', 't'],
        "--timeout"@ == seq!['-', '-', 't', 'i', 'm', 'e', 'o', 'u', 't'],
        "-r"@ == seq!['-', 'r'],
        "--retries"@ == seq!['-', '-', 'r', 'e', 't', 'r', 'i', 'e', 's'],
        "--rate"@ == seq!['-', '-', 'r', 'a', 't', 'e'],
        "--payload"@ == seq!['-', '-', 'p', 'a', 'y', 'l', 'o', 'a', 'd'],
        "-C"@ == seq!['-', 'C'],
        "--count"@ == seq!['-', '-', 'c', 'o', 'u', 'n', 't'],
        "-o"@ == seq!['-', 'o'],
        "--output"@ == seq!['-', '-', 'o', 'u', 't', 'p', 'u', 't'],
        "--key"@ == seq!['-', '-', 'k', 'e', 'y'],
        "--server"@ == seq!['-', '-', 's', 'e', 'r', 'v', 'e', 'r'],
        "--batch"@ == seq!['-', '-', 'b', 'a', 't', 'c', 'h'],
        "-i"@ == seq!['-', 'i'],
        "--iface"@ == seq!['-', '-', 'i', 'f', 'a', 'c', 'e'],
        "-f"@ == seq!['-', 'f'],
        "--file"@ == seq!['-', '-', 'f', 'i', 'l', 'e'],
        "-c"@ == seq!['-', 'c'],
        "--cidr"@ == seq!['-', '-', 'c', 'i', 'd', 'r'],
        "--discover"@ == seq!['-', '-', 'd', 'i', 's', 'c', 'o', 'v', 'e', 'r'],
        "--alive"@ == seq!['-', '-', 'a', 'l', 'i', 'v', 'e'],
        "-h"@ == seq!['-', 'h'],
        "--help"@ == seq!['-', '-', 'h', 'e', 'l', 'p'],
{
    reveal_strlit("-t");
    reveal_strlit("--timeout");
    reveal_strlit("-r");
    reveal_strlit("--retries");
    reveal_strlit("--rate");
    reveal_strlit("--payload");
    reveal_strlit("-C");
    reveal_strlit("--count");
    reveal_strlit("-o");
    reveal_strlit("--output");
    reveal_strlit("--key");
    reveal_strlit("--server");
    reveal_strlit("--batch");
    reveal_strlit("-i");
    reveal_strlit("--iface");
    reveal_strlit("-f");
    reveal_strlit("--file");
    reveal_strlit("-c");
    reveal_strlit("--cidr");
    reveal_strlit("--discover");
    reveal_strlit("--alive");
    reveal_strlit("-h");
    reveal_strlit("--help");
    assert("-t"@ =~= seq!['-', 't']);
    assert("--timeout"@ =~= seq!['-', '-', 't', 'i', 'm', 'e', 'o', 'u', 't']);
    assert("-r"@ =~= seq!['-', 'r']);
    assert("--retries"@ =~= seq!['-', '-', 'r', 'e', 't', 'r', 'i', 'e', 's']);
    assert("--rate"@ =~= seq!['-', '-', 'r', 'a', 't', 'e']);
    assert("--payload"@ =~= seq!['-', '-', 'p', 'a', 'y', 'l', 'o', 'a', 'd']);
    assert("-C"@ =~= seq!['-', 'C']);
    assert("--count"@ =~= seq!['-', '-', 'c', 'o', 'u', 'n', 't']);
    assert("-o"@ =~= seq!['-', 'o']);
    assert("--output"@ =~= seq!['-', '-', 'o', 'u', 't', 'p', 'u', 't']);
    assert("--key"@ =~= seq!['-', '-', 'k', 'e', 'y']);
    assert("--server"@ =~= seq!['-', '-', 's', 'e', 'r', 'v', 'e', 'r']);
    assert("--batch"@ =~= seq!['-', '-', 'b', 'a', 't', 'c', 'h']);
    assert("-i"@ =~= seq!['-', 'i']);
    assert("--iface"@ =~= seq!['-', '-', 'i', 'f', 'a', 'c', 'e']);
    assert("-f"@ =~= seq!['-', 'f']);
    assert("--file"@ =~= seq!['-', '-', 'f', 'i', 'l', 'e']);
    assert("-c"@ =~= seq!['-', 'c']);
    assert("--cidr"@ =~= seq!['-', '-', 'c', 'i', 'd', 'r']);
    assert("--discover"@ =~= seq!['-', '-', 'd', 'i', 's', 'c', 'o', 'v', 'e', 'r']);
    assert("--alive"@ =~= seq!['-', '-', 'a', 'l', 'i', 'v', 'e']);
    assert("-h"@ =~= seq!['-', 'h']);
    assert("--help"@ =~= seq!['-', '-', 'h', 'e', 'l', 'p']);
}

/// The options are those of the usage text, each in its short and its long form, and no other
/// argument is one.
pub proof fn law_options_are_those_of_the_usage_text(a: Seq<char>)
    ensures
        option(a) == Some(Opt::Timeout) <==> a == "-t"@ || a == "--timeout"@,
        option(a) == Some(Opt::Retries) <==> a == "-r"@ || a == "--retries"@,
        option(a) == Some(Opt::Rate) <==> a == "--rate"@,
        option(a) == Some(Opt::Payload) <==> a == "--payload"@,
        option(a) == Some(Opt::Count) <==> a == "-C"@ || a == "--count"@,
        option(a) == Some(Opt::Output) <==> a == "-o"@ || a == "--output"@,
        option(a) == Some(Opt::Key) <==> a == "--key"@,
        option(a) == Some(Opt::Server) <==> a == "--server"@,
        option(a) == Some(Opt::Batch) <==> a == "--batch"@,
        option(a) == Some(Opt::Iface) <==> a == "-i"@ || a == "--iface"@,
        option(a) == Some(Opt::File) <==> a == "-f"@ || a == "--file"@,
        option(a) == Some(Opt::Cidr) <==> a == "-c"@ || a == "--cidr"@,
{
    lemma_flags_spelled();
}

/// An output is named by its own word, and by no other.
pub proof fn law_outputs_are_named_by_their_words(v: Seq<char>)
    ensures
        output_named(v) == Some(Output::Plain) <==> v == "plain"@,
        output_named(v) == Some(Output::Fping) <==> v == "fping"@,
        output_named(v) == Some(Output::Zabbix) <==> v == "zabbix"@,
        output_named(v) == Some(Output::Json) <==> v == "json"@,
{
    reveal_strlit("plain");
    reveal_strlit("fping");
    reveal_strlit("zabbix");
    reveal_strlit("json");
    assert("plain"@[0] == 'p' && "fping"@[0] == 'f' && "zabbix"@[0] == 'z' && "json"@[0] == 'j');
}

/// A number is refused where its text is none, and the message names the option.
pub proof fn law_other_numbers_are_refused(c: config::Settings, opt: Opt, v: Seq<char>)
    requires
        opt is Timeout || opt is Retries || opt is Rate || opt is Payload || opt is Count
            || opt is Batch,
        forall|max: nat| text::number(v, 10, max) is None,
    ensures
        set_option(c, opt, v) == Err::<config::Settings, Seq<char>>(
            "bad "@ + (match opt {
                Opt::Timeout => "timeout"@,
                Opt::Retries => "retries"@,
                Opt::Rate => "rate"@,
                Opt::Payload => "payload"@,
                Opt::Count => "count"@,
                _ => "batch"@,
            }),
        ),
{
    reveal_strlit("bad ");
    reveal_strlit("timeout");
    reveal_strlit("bad timeout");
    reveal_strlit("retries");
    reveal_strlit("bad retries");
    reveal_strlit("rate");
    reveal_strlit("bad rate");
    reveal_strlit("payload");
    reveal_strlit("bad payload");
    reveal_strlit("count");
    reveal_strlit("bad count");
    reveal_strlit("batch");
    reveal_strlit("bad batch");
    assert("bad "@ + "timeout"@ =~= "bad timeout"@);
    assert("bad "@ + "retries"@ =~= "bad retries"@);
    assert("bad "@ + "rate"@ =~= "bad rate"@);
    assert("bad "@ + "payload"@ =~= "bad payload"@);
    assert("bad "@ + "count"@ =~= "bad count"@);
    assert("bad "@ + "batch"@ =~= "bad batch"@);
}

/// What stands after a flag that takes no value, or is none, is not read with it: a switch is
/// set, help ends the reading, an unknown flag is refused, and what begins with no dash is a
/// host.
pub proof fn law_an_argument_is_read_by_itself(st: Read, args: Seq<Seq<char>>, a: Seq<char>)
    requires
        st.pos < args.len(),
        args[st.pos as int] == a,
        option(a) is None,
    ensures
        a == "--discover"@ || a == "--alive"@ ==> scan(st, args) == scan(
            Read {
                cfg: config::Settings { discover: true, ..st.cfg },
                pos: st.pos + 1,
                ..st
            },
            args,
        ),
        a == "-h"@ || a == "--help"@ ==> scan(st, args) == Scan::Fail(st, "help"@),
        a.len() > 0 && a[0] == '-' && a != "--discover"@ && a != "--alive"@ && a != "-h"@ && a
            != "--help"@ ==> scan(st, args) == Scan::Fail(st, "unknown flag: "@ + a),
        (a.len() == 0 || a[0] != '-') && literal::ip_of(a) is None ==> scan(st, args)
            == Scan::Host(Read { pos: st.pos + 1, ..st }, a),
{
    lemma_flags_spelled();
}

/// An option at the end of the arguments lacks its value.
pub proof fn law_an_option_needs_its_value(st: Read, args: Seq<Seq<char>>)
    requires
        st.pos + 1 == args.len(),
        option(args[st.pos as int]) is Some,
    ensures
        scan(st, args) == Scan::Fail(st, args[st.pos as int] + " needs a value"@),
{
}

} // verus!
