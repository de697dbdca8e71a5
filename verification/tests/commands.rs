use fastping::args::{
    add_networks, apply_option, finish, next_source, next_val, read_line, resolve_ip, ArgState, Lookup, Opt, Source,
};
use fastping::cli::{batch, refused_arguments, refused_transport};
use fastping::route::{arp_lookup, discover_route, egress, parse_mac};
use fastping::targets::{expand_cidr, families, hosts_of_network, parse_host_line};
use fastping::{dedupe, parse_args, Config, Families, HostMode, IpAddr, Output, USAGE};

fn strings(list: &[&str]) -> Vec<String> {
    list.iter().map(|s| s.to_string()).collect()
}

fn pair(ip: IpAddr, name: &str) -> (IpAddr, String) {
    (ip, name.to_string())
}

const ONE: IpAddr = IpAddr::V4(0x0a00_0001);
const TWO: IpAddr = IpAddr::V4(0x0a00_0002);
const SIX: IpAddr = IpAddr::V6(1);

#[test]
fn options_set_the_configuration() {
    let args = strings(&[
        "-t", "250", "-r", "4", "--rate", "50000", "--payload", "56", "-C", "7", "-o", "json", "--key", "net", "--server",
        "zbx", "--batch", "0", "--discover", "-i", "eth1", "-f", "hosts.txt", "-c", "10.0.0.0/30", "--cidr", "10.1.0.0/31",
    ]);
    let mut st = ArgState::new();
    assert_eq!(parse_args(&mut st, &args), Ok(None));
    let cfg = &st.cfg;
    assert_eq!((cfg.timeout_ms, cfg.retries, cfg.rate, cfg.payload, cfg.count), (250, 4, 50000, 56, 7));
    assert_eq!((cfg.output, cfg.discover, cfg.zbx_batch), (Output::Json, true, 0));
    assert_eq!((cfg.zbx_key.as_str(), cfg.zbx_server.as_deref(), cfg.iface.as_deref()), ("net", Some("zbx"), Some("eth1")));
    assert_eq!(st.file.as_deref(), Some("hosts.txt"));
    assert_eq!(st.cidrs, strings(&["10.0.0.0/30", "10.1.0.0/31"]));
}

#[test]
fn long_options_are_the_short_ones() {
    let args = strings(&[
        "--timeout", "1", "--retries", "2", "--count", "3", "--output", "fping", "--iface", "x", "--file", "f", "--alive",
    ]);
    let mut st = ArgState::new();
    assert_eq!(parse_args(&mut st, &args), Ok(None));
    assert_eq!((st.cfg.timeout_ms, st.cfg.retries, st.cfg.count), (1, 2, 3));
    assert_eq!((st.cfg.output, st.cfg.discover), (Output::Fping, true));
    assert_eq!((st.cfg.iface.as_deref(), st.file.as_deref()), (Some("x"), Some("f")));
}

#[test]
fn hosts_are_handed_out_in_order() {
    let args = strings(&["host", "10.0.0.1", "-o", "zabbix", "gw", "::1", "", "-r", "9"]);
    let mut st = ArgState::new();
    assert_eq!(parse_args(&mut st, &args), Ok(Some("host".to_string())));
    assert_eq!(st.cfg.output, Output::Plain);
    st.add_target(TWO, "host".to_string());
    assert_eq!(parse_args(&mut st, &args), Ok(Some("gw".to_string())));
    assert_eq!(st.cfg.output, Output::Zabbix);
    assert_eq!(parse_args(&mut st, &args), Ok(Some(String::new())));
    assert_eq!(parse_args(&mut st, &args), Ok(None));
    assert_eq!(st.cfg.retries, 9);
    assert_eq!(st.targets, vec![pair(TWO, "host"), pair(ONE, "10.0.0.1"), pair(SIX, "::1")]);
}

#[test]
fn arguments_are_refused_with_a_message() {
    for (args, message) in [
        (vec!["-h"], "help"),
        (vec!["-r", "1", "--help"], "help"),
        (vec!["-x"], "unknown flag: -x"),
        (vec!["-"], "unknown flag: -"),
        (vec!["-t"], "-t needs a value"),
        (vec!["--cidr"], "--cidr needs a value"),
        (vec!["-t", "x"], "bad timeout"),
        (vec!["-r", "-1"], "bad retries"),
        (vec!["-r", "4294967296"], "bad retries"),
        (vec!["--rate", ""], "bad rate"),
        (vec!["--payload", "1.5"], "bad payload"),
        (vec!["-C", "many"], "bad count"),
        (vec!["--batch", "-"], "bad batch"),
        (vec!["-o", "xml"], "unknown output: xml"),
    ] {
        let mut st = ArgState::new();
        assert_eq!(parse_args(&mut st, &strings(&args)), Err(message.to_string()));
    }
}

#[test]
fn a_value_may_look_like_a_flag() {
    let mut st = ArgState::new();
    assert_eq!(parse_args(&mut st, &strings(&["--key", "-h", "-t", "+5"])), Ok(None));
    assert_eq!((st.cfg.zbx_key.as_str(), st.cfg.timeout_ms), ("-h", 5));
}

#[test]
fn last_value_of_an_option_counts() {
    let mut st = ArgState::new();
    assert_eq!(parse_args(&mut st, &strings(&["-r", "1", "-o", "json", "-r", "5", "-o", "plain"])), Ok(None));
    assert_eq!((st.cfg.retries, st.cfg.output), (5, Output::Plain));
}

#[test]
fn options_commute() {
    let mut a = Config::default();
    let mut b = Config::default();
    apply_option(&mut a, Opt::Rate, "10").unwrap();
    apply_option(&mut a, Opt::Count, "9").unwrap();
    apply_option(&mut b, Opt::Count, "9").unwrap();
    apply_option(&mut b, Opt::Rate, "10").unwrap();
    assert_eq!((a.rate, a.count), (b.rate, b.count));
    assert_eq!(apply_option(&mut a, Opt::Rate, "ten"), Err("bad rate".to_string()));
    assert_eq!(a.rate, 10);
}

#[test]
fn values_follow_their_flags() {
    let args = strings(&["-t", "5"]);
    assert_eq!(next_val(&args, 0, "-t"), Ok("5".to_string()));
    assert_eq!(next_val(&args, 1, "5"), Err("5 needs a value".to_string()));
}

#[test]
fn literals_need_no_resolver() {
    let fail = || Lookup::Failed("no network".to_string());
    assert_eq!(resolve_ip("10.0.0.1", fail()), Ok(ONE));
    assert_eq!(resolve_ip("::1", Lookup::Found(vec![TWO])), Ok(SIX));
    assert_eq!(resolve_ip("gw", Lookup::Found(vec![TWO, ONE])), Ok(TWO));
    assert_eq!(resolve_ip("gw", Lookup::Found(vec![])), Err("no address for gw".to_string()));
    assert_eq!(resolve_ip("gw", fail()), Err("cannot resolve gw: no network".to_string()));
}

#[test]
fn networks_join_the_targets() {
    let mut st = ArgState::new();
    st.add_target(SIX, "six".to_string());
    assert_eq!(parse_args(&mut st, &strings(&["-c", "10.0.0.0/30", "-c", "10.0.0.2/32"])), Ok(None));
    assert_eq!(add_networks(&mut st), Ok(()));
    assert_eq!(
        st.targets,
        vec![pair(SIX, "six"), pair(ONE, "10.0.0.1"), pair(TWO, "10.0.0.2"), pair(TWO, "10.0.0.2")]
    );
}

#[test]
fn a_refused_network_adds_nothing() {
    let mut st = ArgState::new();
    assert_eq!(parse_args(&mut st, &strings(&["-c", "10.0.0.0/30", "-c", "oops"])), Ok(None));
    assert_eq!(add_networks(&mut st), Err("not a CIDR: oops".to_string()));
    assert!(st.targets.is_empty());
}

#[test]
fn sources_of_targets() {
    let mut st = ArgState::new();
    assert!(matches!(next_source(&st, false), Source::Input));
    st.file = Some("f".to_string());
    assert!(matches!(next_source(&st, false), Source::File(p) if p == "f"));
    assert!(matches!(next_source(&st, true), Source::Input));
    st.add_target(ONE, "a".to_string());
    assert!(matches!(next_source(&st, false), Source::File(_)));
    assert!(matches!(next_source(&st, true), Source::Nothing));
}

#[test]
fn a_command_needs_targets() {
    let st = ArgState::new();
    assert_eq!(finish(st).err(), Some("no targets".to_string()));
    let mut st = ArgState::new();
    st.add_target(ONE, "a".to_string());
    let (cfg, raw) = finish(st).ok().unwrap();
    assert_eq!((cfg.retries, raw), (2, vec![pair(ONE, "a")]));
}

#[test]
fn lines_of_a_host_file() {
    let read = |s: &str| parse_host_line(s);
    assert_eq!(read(""), None);
    assert_eq!(read(" \t "), None);
    assert_eq!(read("# comment"), None);
    assert_eq!(read("  #10.0.0.1"), None);
    assert_eq!(read("10.0.0.1"), Some(("10.0.0.1".to_string(), "10.0.0.1".to_string())));
    assert_eq!(read(" 10.0.0.1\tgw  more "), Some(("10.0.0.1".to_string(), "gw".to_string())));
    assert_eq!(read("10.0.0.1 #x"), Some(("10.0.0.1".to_string(), "#x".to_string())));
}

#[test]
fn networks_are_expanded() {
    assert_eq!(expand_cidr("10.0.0.0/30"), Ok(vec![ONE, TWO]));
    assert_eq!(expand_cidr("10.0.0.3/30"), Ok(vec![ONE, TWO]));
    assert_eq!(expand_cidr("10.0.0.1/31"), Ok(vec![IpAddr::V4(0x0a00_0000), ONE]));
    assert_eq!(expand_cidr("10.0.0.1/32"), Ok(vec![ONE]));
    assert_eq!(expand_cidr("10.0.0.1/+32"), Ok(vec![ONE]));
    let net = expand_cidr("10.0.255.7/16").unwrap();
    assert_eq!(net.len(), 65534);
    assert_eq!((net[0], net[65533]), (ONE, IpAddr::V4(0x0a00_fffe)));
    assert_eq!(expand_cidr("255.255.255.255/31").unwrap().len(), 2);
    assert_eq!(hosts_of_network(0xffff_ffff, 24).len(), 254);
}

#[test]
fn networks_are_refused() {
    for (s, message) in [
        ("10.0.0.1", "not a CIDR: 10.0.0.1"),
        ("2001:db8::/64", "IPv6 CIDR expansion is not supported — list explicit addresses"),
        ("10.0.0/8", "bad IP: 10.0.0"),
        ("10.0.0.0/33", "bad prefix: 33"),
        ("10.0.0.0/x", "bad prefix: x"),
        ("10.0.0.0/8/8", "bad prefix: 8/8"),
        ("/", "bad IP: "),
    ] {
        assert_eq!(expand_cidr(s), Err(message.to_string()));
    }
}

#[test]
fn repeats_are_dropped_and_first_names_kept() {
    let raw = vec![pair(TWO, "b"), pair(ONE, "10.0.0.1"), pair(TWO, "c"), pair(SIX, "::1"), pair(ONE, "x")];
    let (ips, names, resolved) = dedupe(raw);
    assert_eq!(ips, vec![TWO, ONE, SIX]);
    assert_eq!(names, strings(&["b", "10.0.0.1", "::1"]));
    assert!(resolved);
    let again: Vec<_> = ips.iter().cloned().zip(names.iter().cloned()).collect();
    let (ips2, names2, _) = dedupe(again);
    assert_eq!((ips2, names2), (ips, names));
    let (_, _, plain) = dedupe(vec![pair(ONE, "10.0.0.1"), pair(ONE, "name")]);
    assert!(!plain);
}

#[test]
fn an_address_and_its_number_in_the_other_family_differ() {
    let (ips, _, _) = dedupe(vec![pair(IpAddr::V4(1), "a"), pair(IpAddr::V6(1), "b")]);
    assert_eq!(ips.len(), 2);
}

#[test]
fn only_present_families_are_opened() {
    assert_eq!(families(&[]), Families { v4: false, v6: false });
    assert_eq!(families(&[ONE, TWO]), Families { v4: true, v6: false });
    assert_eq!(families(&[SIX]), Families { v4: false, v6: true });
    assert_eq!(families(&[ONE, SIX]), Families { v4: true, v6: true });
}

#[test]
fn a_display_name_switches_the_host_mode() {
    let (cfg, ips, names) = batch(Config::default(), vec![pair(ONE, "gw"), pair(ONE, "again")]);
    assert_eq!((cfg.zbx_host_mode, ips, names), (HostMode::Resolved, vec![ONE], strings(&["gw"])));
    let (cfg, _, _) = batch(Config::default(), vec![pair(ONE, "10.0.0.1")]);
    assert_eq!(cfg.zbx_host_mode, HostMode::Ip);
}

#[test]
fn commands_end_without_a_sweep() {
    let help = refused_arguments("help");
    assert_eq!((help.out.as_str(), help.err.as_str(), help.code), (USAGE, "", 0));
    let bad = refused_arguments("no targets");
    assert_eq!((bad.out.as_str(), bad.code), ("", 2));
    assert_eq!(bad.err, format!("fastping: no targets\n\n{}", USAGE));
    let denied = refused_transport("denied", true);
    assert_eq!(
        (denied.out.as_str(), denied.err.as_str(), denied.code),
        ("", "fastping: denied\nhint: raw sockets need CAP_NET_RAW — run as root or setcap.\n", 1)
    );
    assert_eq!(refused_transport("broken", false).err, "fastping: broken\n");
}

#[test]
fn usage_text() {
    assert!(USAGE.starts_with("fastping — stateless mass ICMP-echo sweeper\n\nUSAGE:\n"));
    assert!(USAGE.ends_with("Requires CAP_NET_RAW (run as root or: setcap cap_net_raw+ep ./fastping).\n"));
    assert!(USAGE.contains("    -f, --file <path>     file with one \"ip|host\" or \"ip|host name\" per line\n"));
}

#[test]
fn default_route_is_found() {
    let table = "Iface\tDestination\tGateway \tFlags\n\
                 eth1\t0000A8C0\t00000000\t0001\n\
                 eth0\t00000000\t0100A8C0\t0003\n\
                 eth2\t00000000\t0200A8C0\t0003\n";
    assert_eq!(discover_route(table), Ok(("eth0".to_string(), 0xc0a8_0001)));
    assert_eq!(discover_route("eth0 00000000 0100A8C0\n"), Err("no default route found".to_string()));
    assert_eq!(discover_route(""), Err("no default route found".to_string()));
    assert_eq!(discover_route("head\neth0 00000000\n"), Err("no default route found".to_string()));
    assert_eq!(discover_route("head\neth0 00000000 gw\n"), Err("bad gw".to_string()));
}

#[test]
fn hardware_addresses() {
    assert_eq!(parse_mac("52:54:00:ab:CD:0f\n"), Some([0x52, 0x54, 0, 0xab, 0xcd, 0x0f]));
    assert_eq!(parse_mac("1:2:3:4:5:6:7"), Some([1, 2, 3, 4, 5, 6]));
    assert_eq!(parse_mac("52:54:00:ab:cd"), None);
    assert_eq!(parse_mac("52:54:00:ab:cd:100"), None);
    assert_eq!(parse_mac(""), None);
    assert_eq!(parse_mac(" \t0A:b:00:FF:9:c3\u{3000}\n"), Some([0x0a, 0x0b, 0, 0xff, 9, 0xc3]));
    assert_eq!(parse_mac("52::00:ab:cd:0f"), None);
    assert_eq!(parse_mac("52:zz:00:ab:cd:0f"), None);
}

#[test]
fn gateway_is_looked_up() {
    let table = "IP address       HW type     Flags       HW address            Mask     Device\n\
                 192.168.0.1      0x1         0x0         00:00:00:00:00:00     *        eth0\n\
                 192.168.0.1      0x1         0x2         11:22:33:44:55:66     *        eth1\n\
                 192.168.0.1      0x1         0x2         aa:bb:cc:dd:ee:ff     *        eth0\n\
                 192.168.0.9      0x1         0x2         junk                  *        eth0\n";
    let gw = IpAddr::V4(0xc0a8_0001);
    assert_eq!(arp_lookup(table, gw, "eth0"), Ok([0xaa, 0xbb, 0xcc, 0xdd, 0xee, 0xff]));
    assert_eq!(arp_lookup(table, gw, "eth1"), Ok([0x11, 0x22, 0x33, 0x44, 0x55, 0x66]));
    assert_eq!(arp_lookup(table, IpAddr::V4(0xc0a8_0009), "eth0"), Err("bad ARP MAC".to_string()));
    assert_eq!(
        arp_lookup(table, gw, "eth2"),
        Err("no ARP entry for gateway 192.168.0.1 on eth2; ping the gateway once to populate it".to_string())
    );
}

#[test]
fn a_line_gives_a_target_or_a_host_to_resolve() {
    let mut st = ArgState::new();
    assert_eq!(read_line(&mut st, "# 10.0.0.9"), None);
    assert_eq!(read_line(&mut st, "10.0.0.1 gw"), None);
    assert_eq!(read_line(&mut st, "::1"), None);
    assert_eq!(read_line(&mut st, "router r1"), Some(("router".to_string(), "r1".to_string())));
    assert_eq!(st.targets, vec![pair(ONE, "gw"), pair(SIX, "::1")]);
}

#[test]
fn an_interface_can_be_asked_for() {
    let table = "head\neth0 00000000 0100A8C0\n";
    assert_eq!(egress(table, &None), Ok(("eth0".to_string(), 0xc0a8_0001)));
    assert_eq!(egress(table, &Some("wlan0".to_string())), Ok(("wlan0".to_string(), 0xc0a8_0001)));
    assert_eq!(egress("head\n", &Some("wlan0".to_string())), Err("no default route found".to_string()));
}
