//! The hosts to probe: lines of host files, networks, and the batch without repeats.
use crate::addr;
use crate::addr::IpAddr;
use crate::text;
use crate::words;
use std::collections::HashSet;
use vstd::prelude::*;

verus! {

broadcast use vstd::std_specs::hash::group_hash_axioms;

/// The host and the display name on a line of a host file: its first two words, or the
/// first one twice. An empty line and one whose first word begins with `#` name none.
pub open spec fn host_line(line: Seq<char>) -> Option<(Seq<char>, Seq<char>)> {
    let w = words::words(line);
    if w.len() == 0 || w[0][0] == '#' {
        None
    } else if w.len() == 1 {
        Some((w[0], w[0]))
    } else {
        Some((w[0], w[1]))
    }
}

/// Reads a line of a host file.
pub fn parse_host_line(line: &str) -> (r: Option<(String, String)>)
    ensures
        match (r, host_line(line@)) {
            (Some(a), Some(b)) => a.0@ == b.0 && a.1@ == b.1,
            (None, None) => true,
            _ => false,
        },
{
    let chars = text::chars_of(line);
    let w = words::split_words(chars.as_slice());
    let ghost all = words::words(line@);
    assert(all.len() == w@.len());
    assert(forall|i: int| 0 <= i < w@.len() ==> #[trigger] w@[i]@ == all[i]);
    if w.len() == 0 {
        return None;
    }
    proof {
        words::lemma_first_word(line@);
    }
    if w[0][0] == '#' {
        return None;
    }
    let host = text::string_of(w[0].as_slice());
    let name = if w.len() == 1 {
        text::string_of(w[0].as_slice())
    } else {
        text::string_of(w[1].as_slice())
    };
    Some((host, name))
}

/// The number of addresses in an IPv4 network with a prefix of `p` bits.
pub open spec fn network_size(p: nat) -> nat
    decreases 32 - p,
{
    if p >= 32 {
        1
    } else {
        2 * network_size(p + 1)
    }
}

/// The addresses to probe in the network of `ip` with a prefix of `p` bits: all of it, but
/// without the network and the broadcast address where it holds four or more.
pub open spec fn network_hosts(ip: u32, p: nat) -> Seq<IpAddr> {
    let size = network_size(p);
    let base = (ip as nat - ip as nat % size) as nat;
    if p <= 30 {
        Seq::new((size - 2) as nat, |i: int| IpAddr::V4((base + 1 + i) as u32))
    } else {
        Seq::new(size, |i: int| IpAddr::V4((base + i) as u32))
    }
}

/// The address and the prefix length that a CIDR writes, or why it writes none.
pub open spec fn cidr(s: Seq<char>) -> Result<(u32, nat), Seq<char>> {
    let k = words::up_to(s, '/') as int;
    let base = s.take(k);
    let prefix = s.skip(k + 1);
    if k >= s.len() {
        Err("not a CIDR: "@ + s)
    } else if base.contains(':') {
        Err("IPv6 CIDR expansion is not supported — list explicit addresses"@)
    } else {
        match (addr::ipv4_of(base), text::number(prefix, 10, u32::MAX as nat)) {
            (None, _) => Err("bad IP: "@ + base),
            (Some(ip), Some(p)) => if p <= 32 {
                Ok((ip, p))
            } else {
                Err("bad prefix: "@ + prefix)
            },
            (Some(ip), None) => Err("bad prefix: "@ + prefix),
        }
    }
}

proof fn lemma_network_size(p: nat)
    requires
        p <= 32,
    ensures
        1 <= network_size(p) <= 0x1_0000_0000,
        exists|m: nat| #[trigger] (network_size(p) * m) == 0x1_0000_0000,
        p <= 30 ==> network_size(p) >= 4,
    decreases p,
{
    reveal_with_fuel(network_size, 33);
    if p == 0 {
        assert(network_size(0) * 1 == 0x1_0000_0000);
    } else {
        lemma_network_size((p - 1) as nat);
        let m = choose|m: nat| #[trigger] (network_size((p - 1) as nat) * m) == 0x1_0000_0000;
        let s = network_size(p);
        assert(network_size((p - 1) as nat) == 2 * s);
        assert(s * (2 * m) == 0x1_0000_0000) by (nonlinear_arith)
            requires
                (2 * s) * m == 0x1_0000_0000,
        ;
    }
}

/// A network ends within the address space.
proof fn lemma_network_fits(ip: u32, p: nat)
    requires
        p <= 32,
    ensures
        ip as nat - ip as nat % network_size(p) + network_size(p) <= 0x1_0000_0000,
        ip as nat % network_size(p) <= ip,
{
    lemma_network_size(p);
    let s = network_size(p) as int;
    let m = (choose|m: nat| #[trigger] (network_size(p) * m) == 0x1_0000_0000) as int;
    assert(s * m == 0x1_0000_0000);
    let q = ip as int / s;
    vstd::arithmetic::div_mod::lemma_fundamental_div_mod(ip as int, s);
    assert(ip as int % s >= 0) by (nonlinear_arith)
        requires
            s > 0,
    ;
    assert(ip as int == s * q + ip as int % s);
    assert(q >= 0) by (nonlinear_arith)
        requires
            q == ip as int / s,
            s > 0,
            ip as int >= 0,
    ;
    assert(s * q >= 0) by (nonlinear_arith)
        requires
            s > 0,
            q >= 0,
    ;
    assert(q < m) by (nonlinear_arith)
        requires
            s * q < s * m,
            s > 0,
    ;
    assert(s * (q + 1) <= s * m) by (nonlinear_arith)
        requires
            q + 1 <= m,
            s > 0,
    ;
    assert(s * (q + 1) == s * q + s) by (nonlinear_arith);
}

fn size_of_network(p: u32) -> (r: u64)
    requires
        p <= 32,
    ensures
        r == network_size(p as nat),
{
    let mut size: u64 = 1;
    let mut k: u32 = 32;
    while k > p
        invariant
            p <= k <= 32,
            size == network_size(k as nat),
        decreases k,
    {
        k -= 1;
        proof {
            lemma_network_size(k as nat);
        }
        size = size * 2;
    }
    size
}

/// Lists the addresses of an IPv4 network, see [`network_hosts`].
pub fn hosts_of_network(ip: u32, p: u32) -> (r: Vec<IpAddr>)
    requires
        p <= 32,
    ensures
        r@ == network_hosts(ip, p as nat),
{
    let size: u64 = size_of_network(p);
    proof {
        lemma_network_size(p as nat);
        lemma_network_fits(ip, p as nat);
    }
    let base: u64 = ip as u64 - ip as u64 % size;
    let lo: u64 = if p <= 30 {
        base + 1
    } else {
        base
    };
    let hi: u64 = if p <= 30 {
        base + size - 1
    } else {
        base + size
    };
    let mut r: Vec<IpAddr> = Vec::new();
    for a in lo..hi
        invariant
            lo <= hi <= 0x1_0000_0000,
            r@ == Seq::new((a - lo) as nat, |i: int| IpAddr::V4((lo + i) as u32)),
    {
        r.push(IpAddr::V4(a as u32));
        assert(r@ =~= Seq::new((a + 1 - lo) as nat, |i: int| IpAddr::V4((lo + i) as u32)));
    }
    assert(r@ =~= network_hosts(ip, p as nat));
    r
}

fn message(head: &str, tail: &[char]) -> (r: String)
    ensures
        r@ == head@ + tail@,
{
    let mut r = head.to_owned();
    let t = text::string_of(tail);
    r.append(t.as_str());
    r
}

/// Lists the addresses of a network in CIDR notation. Only IPv4 networks are listed.
pub fn expand_cidr(s: &str) -> (r: Result<Vec<IpAddr>, String>)
    ensures
        match (r, cidr(s@)) {
            (Ok(v), Ok((ip, p))) => v@ == network_hosts(ip, p),
            (Err(e), Err(m)) => e@ == m,
            _ => false,
        },
{
    let chars = text::chars_of(s);
    assert(chars@.skip(0) =~= chars@);
    let k: usize = words::find(chars.as_slice(), 0, '/');
    if k == chars.len() {
        return Err(message("not a CIDR: ", chars.as_slice()));
    }
    let base = words::copy_range(chars.as_slice(), 0, k);
    let prefix = words::copy_range(chars.as_slice(), k + 1, chars.len());
    assert(base@ =~= chars@.take(k as int));
    assert(prefix@ =~= chars@.skip(k + 1));
    assert(base@.skip(0) =~= base@);
    proof {
        words::lemma_up_to(base@, ':');
    }
    if words::find(base.as_slice(), 0, ':') < base.len() {
        return Err(
            "IPv6 CIDR expansion is not supported — list explicit addresses".to_owned(),
        );
    }
    match addr::parse_ipv4(base.as_slice()) {
        None => Err(message("bad IP: ", base.as_slice())),
        Some(ip) => match text::parse_number(prefix.as_slice(), 10, u32::MAX as u64) {
            Some(p) => if p <= 32 {
                Ok(hosts_of_network(ip, p as u32))
            } else {
                Err(message("bad prefix: ", prefix.as_slice()))
            },
            None => Err(message("bad prefix: ", prefix.as_slice())),
        },
    }
}

/// A listed address lies in the network: it shares the first `p` bits with `ip`. Of a
/// network of four or more addresses the first and the last are left out.
pub proof fn law_listed_hosts_share_the_prefix(ip: u32, p: nat, i: int)
    requires
        p <= 32,
        0 <= i < network_hosts(ip, p).len(),
    ensures
        ({
            let size = network_size(p);
            &&& network_hosts(ip, p)[i] matches IpAddr::V4(a)
            &&& a as nat / size == ip as nat / size
            &&& p <= 30 ==> 0 < a as nat % size < size - 1
        }),
{
    lemma_network_size(p);
    lemma_network_fits(ip, p);
    let s = network_size(p) as int;
    let q = ip as int / s;
    let off = if p <= 30 {
        i + 1
    } else {
        i
    };
    vstd::arithmetic::div_mod::lemma_fundamental_div_mod(ip as int, s);
    let a = s * q + off;
    assert(ip as int - ip as int % s == s * q);
    assert(a == q * s + off) by (nonlinear_arith)
        requires
            a == s * q + off,
    ;
    vstd::arithmetic::div_mod::lemma_fundamental_div_mod_converse(a, s, q, off);
}

/// The number of listed addresses is the size of the network, less two where it holds four
/// or more, and they come in ascending order.
pub proof fn law_listed_hosts_ascend(ip: u32, p: nat, i: int, j: int)
    requires
        p <= 32,
        0 <= i < j < network_hosts(ip, p).len(),
    ensures
        network_hosts(ip, p).len() == if p <= 30 {
            network_size(p) - 2
        } else {
            network_size(p) as int
        },
        ({
            &&& network_hosts(ip, p)[i] matches IpAddr::V4(a)
            &&& network_hosts(ip, p)[j] matches IpAddr::V4(b)
            &&& a < b
        }),
{
    lemma_network_size(p);
    lemma_network_fits(ip, p);
}

/// Which families occur among the targets.
#[derive(Clone, Copy, Debug, PartialEq, Eq, Structural)]
pub struct Families {
    pub v4: bool,
    pub v6: bool,
}

/// The families present in the target set: only those need a socket.
pub fn families(targets: &[IpAddr]) -> (f: Families)
    ensures
        f.v4 == (exists|i: int| 0 <= i < targets@.len() && (#[trigger] targets@[i]) is V4),
        f.v6 == (exists|i: int| 0 <= i < targets@.len() && (#[trigger] targets@[i]) is V6),
{
    let mut f = Families { v4: false, v6: false };
    for k in 0..targets.len()
        invariant
            f.v4 == (exists|i: int| 0 <= i < k && (#[trigger] targets@[i]) is V4),
            f.v6 == (exists|i: int| 0 <= i < k && (#[trigger] targets@[i]) is V6),
    {
        assert(targets@[k as int] is V4 || targets@[k as int] is V6);
        if targets[k].is_ipv6() {
            f.v6 = true;
        } else {
            f.v4 = true;
        }
    }
    f
}

/// Whether a list of addresses and names holds `ip`.
pub open spec fn lists(s: Seq<(IpAddr, Seq<char>)>, ip: IpAddr) -> bool {
    exists|k: int| 0 <= k < s.len() && (#[trigger] s[k]).0 == ip
}

/// The list without the entries whose address stands further ahead.
pub open spec fn without_repeats(s: Seq<(IpAddr, Seq<char>)>) -> Seq<(IpAddr, Seq<char>)>
    decreases s.len(),
{
    if s.len() == 0 {
        Seq::empty()
    } else {
        let front = without_repeats(s.drop_last());
        if lists(front, s.last().0) {
            front
        } else {
            front.push(s.last())
        }
    }
}

/// The contents of a list of addresses and names.
pub open spec fn named(v: Seq<(IpAddr, String)>) -> Seq<(IpAddr, Seq<char>)> {
    v.map_values(|t: (IpAddr, String)| (t.0, t.1@))
}

/// Whether some name differs from the text of its address.
pub open spec fn has_display_name(s: Seq<(IpAddr, Seq<char>)>) -> bool {
    exists|k: int| 0 <= k < s.len() && (#[trigger] s[k]).1 != s[k].0.text_spec()
}

/// The targets without repeats: their addresses in order, the name that each came with
/// first, and whether any name differs from its address.
pub fn dedupe(raw: Vec<(IpAddr, String)>) -> (r: (Vec<IpAddr>, Vec<String>, bool))
    ensures
        r.0@ == without_repeats(named(raw@)).map_values(|t: (IpAddr, Seq<char>)| t.0),
        text::contents(r.1@) == without_repeats(named(raw@)).map_values(
            |t: (IpAddr, Seq<char>)| t.1,
        ),
        r.2 == has_display_name(without_repeats(named(raw@))),
{
    let mut seen4: HashSet<u32> = HashSet::new();
    let mut seen6: HashSet<u128> = HashSet::new();
    let mut targets: Vec<IpAddr> = Vec::new();
    let mut names: Vec<String> = Vec::new();
    let mut resolved: bool = false;
    let ghost all = named(raw@);
    let ghost kept = without_repeats(all.take(0));
    for i in 0..raw.len()
        invariant
            all == named(raw@),
            kept == without_repeats(all.take(i as int)),
            forall|a: u32| seen4@.contains(a) <==> lists(kept, IpAddr::V4(a)),
            forall|a: u128| seen6@.contains(a) <==> lists(kept, IpAddr::V6(a)),
            targets@ == kept.map_values(|t: (IpAddr, Seq<char>)| t.0),
            text::contents(names@) == kept.map_values(|t: (IpAddr, Seq<char>)| t.1),
            resolved == has_display_name(kept),
    {
        let ip = raw[i].0;
        let ghost before = kept;
        proof {
            assert(all.take(i + 1).drop_last() =~= all.take(i as int));
            assert(all.take(i + 1).last() == (ip, raw@[i as int].1@));
            kept = without_repeats(all.take(i + 1));
        }
        let fresh: bool = match ip {
            IpAddr::V4(a) => seen4.insert(a),
            IpAddr::V6(a) => seen6.insert(a),
        };
        assert(fresh == !lists(before, ip));
        if fresh {
            let name = raw[i].1.clone();
            let shown = ip.text();
            if !(name == shown) {
                resolved = true;
            }
            let ghost had = names@;
            targets.push(ip);
            names.push(name);
            proof {
                let last = (ip, raw@[i as int].1@);
                assert(kept == before.push(last));
                assert(targets@ =~= kept.map_values(|t: (IpAddr, Seq<char>)| t.0));
                assert(text::contents(names@) =~= text::contents(had).push(last.1));
                assert(text::contents(names@) =~= kept.map_values(|t: (IpAddr, Seq<char>)| t.1));
                assert(kept[before.len() as int] == last);
                assert forall|x: IpAddr| lists(kept, x) == (lists(before, x) || x == ip) by {
                    if lists(before, x) {
                        let k = choose|k: int| 0 <= k < before.len() && (#[trigger] before[k]).0
                            == x;
                        assert(kept[k].0 == x);
                    }
                    if lists(kept, x) && x != ip {
                        let k = choose|k: int| 0 <= k < kept.len() && (#[trigger] kept[k]).0 == x;
                        assert(before[k].0 == x);
                    }
                    if x == ip {
                        assert(kept[before.len() as int].0 == x);
                    }
                }
                assert(resolved == has_display_name(kept)) by {
                    if has_display_name(before) {
                        let k = choose|k: int|
                            0 <= k < before.len() && (#[trigger] before[k]).1
                                != before[k].0.text_spec();
                        assert(kept[k].1 != kept[k].0.text_spec());
                    } else if last.1 == ip.text_spec() {
                        assert forall|k: int| 0 <= k < kept.len() implies (#[trigger] kept[k]).1
                            == kept[k].0.text_spec() by {
                            if k < before.len() {
                                assert(before[k].1 == before[k].0.text_spec());
                            }
                        }
                    }
                }
            }
        }
    }
    assert(all.take(all.len() as int) =~= all);
    (targets, names, resolved)
}

/// Where `ip` stands first in the list.
pub open spec fn first_place(s: Seq<(IpAddr, Seq<char>)>, ip: IpAddr) -> int
    decreases s.len(),
{
    if s.len() == 0 || s[0].0 == ip {
        0
    } else {
        1 + first_place(s.skip(1), ip)
    }
}

proof fn lemma_first_place(s: Seq<(IpAddr, Seq<char>)>, ip: IpAddr)
    requires
        lists(s, ip),
    ensures
        0 <= first_place(s, ip) < s.len(),
        s[first_place(s, ip)].0 == ip,
        forall|k: int| 0 <= k < first_place(s, ip) ==> (#[trigger] s[k]).0 != ip,
    decreases s.len(),
{
    if s[0].0 != ip {
        let t = s.skip(1);
        let k = choose|k: int| 0 <= k < s.len() && (#[trigger] s[k]).0 == ip;
        assert(t[k - 1].0 == ip);
        lemma_first_place(t, ip);
        assert forall|k: int| 0 <= k < first_place(s, ip) implies (#[trigger] s[k]).0 != ip by {
            if k > 0 {
                assert(t[k - 1].0 != ip);
            }
        }
    }
}

/// The entries kept are those that stand first with their address, in the order of the
/// list; so the name of an address is the one that it came with first.
pub proof fn law_first_entries_are_kept_in_order(s: Seq<(IpAddr, Seq<char>)>, k: int, l: int)
    requires
        0 <= k <= l < without_repeats(s).len(),
    ensures
        lists(s, without_repeats(s)[k].0),
        without_repeats(s)[k] == s[first_place(s, without_repeats(s)[k].0)],
        k < l ==> first_place(s, without_repeats(s)[k].0) < first_place(
            s,
            without_repeats(s)[l].0,
        ),
        k < l ==> without_repeats(s)[k].0 != without_repeats(s)[l].0,
    decreases s.len(),
{
    let t = s.drop_last();
    let d = without_repeats(s);
    let f = without_repeats(t);
    lemma_same_addresses(t, s.last().0);
    if k < f.len() {
        let m = if l < f.len() {
            l
        } else {
            k
        };
        law_first_entries_are_kept_in_order(t, k, m);
        law_first_entries_are_kept_in_order(t, m, m);
        lemma_place_in_prefix(s, d[k].0);
        lemma_place_in_prefix(s, d[m].0);
        lemma_first_place(t, d[k].0);
        assert(d[k] == f[k]);
    }
    if l == f.len() {
        let ip = d[l].0;
        assert(s[s.len() - 1].0 == ip);
        assert(lists(s, ip));
        lemma_first_place(s, ip);
        assert(!lists(t, ip));
        if first_place(s, ip) < s.len() - 1 {
            assert(t[first_place(s, ip)].0 == ip);
        }
    }
}

/// A prefix that lists an address lists it first at the same place.
proof fn lemma_place_in_prefix(s: Seq<(IpAddr, Seq<char>)>, ip: IpAddr)
    requires
        s.len() > 0,
        lists(s.drop_last(), ip),
    ensures
        lists(s, ip),
        first_place(s, ip) == first_place(s.drop_last(), ip),
{
    let t = s.drop_last();
    lemma_first_place(t, ip);
    assert(s[first_place(t, ip)].0 == ip);
    lemma_first_place(s, ip);
    if first_place(s, ip) < first_place(t, ip) {
        assert(t[first_place(s, ip)].0 == ip);
    }
}

proof fn lemma_same_addresses(s: Seq<(IpAddr, Seq<char>)>, ip: IpAddr)
    ensures
        lists(without_repeats(s), ip) == lists(s, ip),
    decreases s.len(),
{
    if s.len() > 0 {
        let t = s.drop_last();
        let f = without_repeats(t);
        let d = without_repeats(s);
        lemma_same_addresses(t, ip);
        if lists(s, ip) {
            let k = choose|k: int| 0 <= k < s.len() && (#[trigger] s[k]).0 == ip;
            if k < t.len() {
                assert(t[k].0 == ip);
                let j = choose|j: int| 0 <= j < f.len() && (#[trigger] f[j]).0 == ip;
                assert(d[j].0 == ip);
            } else if !lists(f, ip) {
                assert(d[f.len() as int].0 == ip);
            }
        }
        if lists(d, ip) {
            let j = choose|j: int| 0 <= j < d.len() && (#[trigger] d[j]).0 == ip;
            if j < f.len() {
                assert(f[j].0 == ip);
                let k = choose|k: int| 0 <= k < t.len() && (#[trigger] t[k]).0 == ip;
                assert(s[k].0 == ip);
            } else {
                assert(s[s.len() - 1].0 == ip);
            }
        }
    }
}

/// No address is lost.
pub proof fn law_every_address_is_kept(s: Seq<(IpAddr, Seq<char>)>, ip: IpAddr)
    ensures
        lists(without_repeats(s), ip) == lists(s, ip),
{
    lemma_same_addresses(s, ip);
}

proof fn lemma_distinct_unchanged(s: Seq<(IpAddr, Seq<char>)>)
    requires
        forall|k: int, l: int|
            0 <= k < l < s.len() ==> (#[trigger] s[k]).0 != (#[trigger] s[l]).0,
    ensures
        without_repeats(s) == s,
    decreases s.len(),
{
    if s.len() > 0 {
        let t = s.drop_last();
        assert forall|k: int, l: int| 0 <= k < l < t.len() implies (#[trigger] t[k]).0 != (
        #[trigger] t[l]).0 by {
            assert(s[k].0 != s[l].0);
        }
        lemma_distinct_unchanged(t);
        if lists(t, s.last().0) {
            let k = choose|k: int| 0 <= k < t.len() && (#[trigger] t[k]).0 == s.last().0;
            assert(s[k].0 != s[s.len() - 1].0);
        }
        assert(t.push(s.last()) =~= s);
    } else {
        assert(without_repeats(s) =~= s);
    }
}

/// A list without repeats stays as it is.
pub proof fn law_dedupe_twice_is_dedupe_once(s: Seq<(IpAddr, Seq<char>)>)
    ensures
        without_repeats(without_repeats(s)) == without_repeats(s),
{
    let d = without_repeats(s);
    assert forall|k: int, l: int| 0 <= k < l < d.len() implies (#[trigger] d[k]).0 != (
    #[trigger] d[l]).0 by {
        law_first_entries_are_kept_in_order(s, k, l);
    }
    lemma_distinct_unchanged(d);
}

/// A network holds two to the power of the bits that its prefix leaves open.
pub proof fn law_network_size_is_a_power_of_two(p: nat)
    requires
        p <= 32,
    ensures
        network_size(p) == vstd::arithmetic::power2::pow2((32 - p) as nat),
    decreases 32 - p,
{
    vstd::arithmetic::power2::lemma2_to64();
    if p < 32 {
        law_network_size_is_a_power_of_two(p + 1);
        vstd::arithmetic::power2::lemma_pow2_unfold((32 - p) as nat);
    }
}

/// A network that is written as an address, a slash and a prefix length of at most 32 is read as
/// these; a longer prefix is refused.
pub proof fn law_network_is_read_from_its_text(ip: u32, p: nat)
    requires
        p <= u32::MAX,
    ensures
        p <= 32 ==> cidr(addr::ipv4_text(ip) + seq!['/'] + text::decimal(p)) == Ok::<
            (u32, nat),
            Seq<char>,
        >((ip, p)),
        p > 32 ==> cidr(addr::ipv4_text(ip) + seq!['/'] + text::decimal(p)) is Err,
{
    let base = addr::ipv4_text(ip);
    let prefix = text::decimal(p);
    let s = base + seq!['/'] + prefix;
    addr::law_ipv4_text_reads_back(ip);
    addr::lemma_ipv4_text(ip);
    text::law_numbers_are_read_up_to_the_limit(p, u32::MAX as nat);
    words::lemma_up_to(s, '/');
    let k = words::up_to(s, '/') as int;
    assert(s[base.len() as int] == '/');
    addr::lemma_ipv4_text_chars(ip, '/');
    if k < base.len() {
        assert(s[k] == base[k]);
        assert(base.contains(base[k]));
    }
    assert(s.take(k) =~= base);
    assert(s.skip(k + 1) =~= prefix);
}

/// What is no network is refused, and the message says why: text without a slash, a base with a
/// colon, a base that is no IPv4 address, and a prefix that is no number up to 32.
pub proof fn law_other_text_is_no_network(s: Seq<char>, base: Seq<char>, prefix: Seq<char>)
    ensures
        !s.contains('/') ==> cidr(s) == Err::<(u32, nat), Seq<char>>("not a CIDR: "@ + s),
        !base.contains('/') && base.contains(':') ==> cidr(base + seq!['/'] + prefix) == Err::<
            (u32, nat),
            Seq<char>,
        >("IPv6 CIDR expansion is not supported — list explicit addresses"@),
        !base.contains('/') && !base.contains(':') && addr::ipv4_of(base) is None ==> cidr(
            base + seq!['/'] + prefix,
        ) == Err::<(u32, nat), Seq<char>>("bad IP: "@ + base),
        !base.contains('/') && !base.contains(':') && addr::ipv4_of(base) is Some && text::number(
            prefix,
            10,
            32,
        ) is None ==> cidr(base + seq!['/'] + prefix) == Err::<(u32, nat), Seq<char>>(
            "bad prefix: "@ + prefix,
        ),
{
    words::lemma_up_to(s, '/');
    let t = base + seq!['/'] + prefix;
    words::lemma_up_to(t, '/');
    let k = words::up_to(t, '/') as int;
    assert(t[base.len() as int] == '/');
    if !base.contains('/') {
        if k < base.len() {
            assert(t[k] == base[k]);
            assert(base.contains(base[k]));
        }
        assert(t.take(k) =~= base);
        assert(t.skip(k + 1) =~= prefix);
    }
}

/// A line names a host by its first word, and the host is called by the second one where there is
/// one, whatever follows it.
pub proof fn law_line_names_host_and_name(
    before: Seq<char>,
    host: Seq<char>,
    c: char,
    rest: Seq<char>,
)
    requires
        words::all_space(before),
        words::is_space(c),
        host.len() > 0,
        host[0] != '#',
        forall|i: int| 0 <= i < host.len() ==> !words::is_space(#[trigger] host[i]),
    ensures
        host_line(before + host) == Some((host, host)),
        words::words(rest).len() == 0 ==> host_line(before + host + seq![c] + rest) == Some(
            (host, host),
        ),
        words::words(rest).len() > 0 ==> host_line(before + host + seq![c] + rest) == Some(
            (host, words::words(rest)[0]),
        ),
{
    lemma_words_after_space(before, host);
    words::law_a_word_is_its_word(before, host);
    let first = before + host;
    words::law_white_space_separates_words(first, c, rest);
    assert(words::words(first) == seq![host]);
}

/// White space in front adds no word.
proof fn lemma_words_after_space(before: Seq<char>, s: Seq<char>)
    requires
        words::all_space(before),
    ensures
        words::words(before + s) == words::words(s),
    decreases before.len(),
{
    if before.len() == 0 {
        assert(before + s =~= s);
    } else {
        let rest = before.skip(1);
        let none = Seq::<char>::empty();
        assert forall|i: int| 0 <= i < rest.len() implies words::is_space(#[trigger] rest[i]) by {
            assert(rest[i] == before[i + 1]);
        }
        lemma_words_after_space(rest, s);
        words::law_white_space_separates_words(none, before[0], rest + s);
        assert(none + seq![before[0]] + (rest + s) =~= before + s);
        words::law_a_word_is_its_word(none, none);
        assert(Seq::<Seq<char>>::empty() + words::words(rest + s) =~= words::words(rest + s));
    }
}

/// An empty line and a comment name no host.
pub proof fn law_empty_lines_and_comments_name_no_host(before: Seq<char>, rest: Seq<char>)
    requires
        words::all_space(before),
    ensures
        host_line(before) is None,
        host_line(before + seq!['#'] + rest) is None,
{
    words::law_a_word_is_its_word(before, Seq::empty());
    let s = seq!['#'] + rest;
    lemma_words_after_space(before, s);
    assert(before + s =~= before + seq!['#'] + rest);
    words::lemma_first_word_begins(s);
}

/// Names count as display names exactly if one of them differs from the text of its address.
pub proof fn law_display_names_differ_from_addresses(s: Seq<(IpAddr, Seq<char>)>, k: int)
    requires
        0 <= k < s.len(),
    ensures
        s[k].1 != s[k].0.text_spec() ==> has_display_name(s),
        (forall|j: int| 0 <= j < s.len() ==> (#[trigger] s[j]).1 == s[j].0.text_spec())
            ==> !has_display_name(s),
{
}

/// The addresses of a network come one after the other: all of it in a network of one or two, and
/// in a larger one all between the first, which names the network, and the last, which is the
/// broadcast address.
pub proof fn law_network_is_listed_without_gaps(ip: u32, p: nat, i: int)
    requires
        p <= 32,
    ensures
        ({
            let size = vstd::arithmetic::power2::pow2((32 - p) as nat);
            let first = ip as int - ip as int % size as int;
            let hosts = network_hosts(ip, p);
            &&& size >= 4 ==> hosts.len() == size - 2 && (0 <= i < size - 2 ==> (hosts[
                i
            ] matches IpAddr::V4(a) && a == first + 1 + i))
            &&& size < 4 ==> hosts.len() == size && (0 <= i < size ==> (hosts[
                i
            ] matches IpAddr::V4(a) && a == first + i))
        }),
{
    law_network_size_is_a_power_of_two(p);
    lemma_network_size(p);
    lemma_network_fits(ip, p);
    vstd::arithmetic::power2::lemma2_to64();
    if p < 30 {
        vstd::arithmetic::power2::lemma_pow2_strictly_increases(2, (32 - p) as nat);
    }
}

} // verus!
