//! What the kernel's tables say about the default route.
use crate::addr::IpAddr;
use crate::bytes;
use crate::text;
use crate::words;
use vstd::prelude::*;

verus! {

/// The address whose octets are the little-endian bytes of `v`.
pub open spec fn swapped(v: nat) -> u32 {
    bytes::be_value(bytes::le(v, 4)) as u32
}

/// Whether the words of a line of the routing table are those of a default route.
pub open spec fn is_default(w: Seq<Seq<char>>) -> bool {
    w.len() >= 3 && w[1] == "00000000"@
}

/// The interface and the gateway of the first default route among the lines from `k` on.
pub open spec fn route_from(lines: Seq<Seq<char>>, k: int) -> Result<
    (Seq<char>, u32),
    Seq<char>,
>
    decreases lines.len() - k,
{
    if k >= lines.len() {
        Err("no default route found"@)
    } else {
        let w = words::words(lines[k]);
        if is_default(w) {
            match text::number(w[2], 16, u32::MAX as nat) {
                Some(v) => Ok((w[0], swapped(v))),
                None => Err("bad gw"@),
            }
        } else {
            route_from(lines, k + 1)
        }
    }
}

/// The default route of a routing table, whose first line is a heading.
pub open spec fn default_route_spec(table: Seq<char>) -> Result<(Seq<char>, u32), Seq<char>> {
    route_from(words::lines(table), 1)
}

fn swap(v: u64) -> (r: u32)
    ensures
        r == swapped(v as nat),
{
    let mut b: Vec<u8> = Vec::new();
    bytes::push_le(&mut b, v as u128, 4);
    proof {
        bytes::lemma_le(v as nat, 4);
        assert(b@ =~= bytes::le(v as nat, 4));
        assert(b@.subrange(0, 4) =~= b@);
        bytes::lemma_value_bound(b@);
        bytes::lemma_capacities();
    }
    bytes::read_be(b.as_slice(), 0, 4) as u32
}

/// Finds the default route in the text of the kernel's IPv4 routing table.
pub fn discover_route(table: &str) -> (r: Result<(String, u32), String>)
    ensures
        match (r, default_route_spec(table@)) {
            (Ok((name, gw)), Ok((n, g))) => name@ == n && gw == g,
            (Err(e), Err(m)) => e@ == m,
            _ => false,
        },
{
    let chars = text::chars_of(table);
    let lines = words::split_lines(chars.as_slice());
    let ghost all = words::lines(table@);
    assert(all.len() == lines@.len());
    if lines.len() == 0 {
        return Err("no default route found".to_owned());
    }
    for k in 1..lines.len()
        invariant
            all == words::rows(lines@),
            all == words::lines(table@),
            route_from(all, k as int) == default_route_spec(table@),
    {
        let w = words::split_words(lines[k].as_slice());
        let ghost v = words::words(all[k as int]);
        assert(all[k as int] == lines@[k as int]@);
        assert(v == words::rows(w@));
        assert(forall|i: int| 0 <= i < w@.len() ==> #[trigger] w@[i]@ == v[i]);
        if w.len() >= 3 && text::spells(w[1].as_slice(), "00000000") {
            return match text::parse_number(w[2].as_slice(), 16, u32::MAX as u64) {
                Some(gw) => Ok((text::string_of(w[0].as_slice()), swap(gw))),
                None => Err("bad gw".to_owned()),
            };
        }
    }
    Err("no default route found".to_owned())
}

/// The interface to send from and the gateway: those of the default route, but for an interface
/// that was asked for. Without a default route there is no gateway, and so no answer.
pub fn egress(table: &str, iface: &Option<String>) -> (r: Result<(String, u32), String>)
    ensures
        match (r, default_route_spec(table@)) {
            (Ok((name, gw)), Ok((n, g))) => gw == g && name@ == match *iface {
                Some(asked) => asked@,
                None => n,
            },
            (Err(e), Err(m)) => e@ == m,
            _ => false,
        },
{
    match discover_route(table) {
        Err(e) => Err(e),
        Ok((name, gw)) => match iface {
            Some(asked) => Ok((asked.clone(), gw)),
            None => Ok((name, gw)),
        },
    }
}

/// The hardware address that `s` writes: six hexadecimal bytes with colons between; what
/// follows a further colon is not looked at.
pub open spec fn mac(s: Seq<char>) -> Option<Seq<u8>> {
    let p = words::parts(words::trim(s), ':');
    if p.len() >= 6 && (forall|i: int|
        0 <= i < 6 ==> text::number(#[trigger] p[i], 16, 255) is Some) {
        Some(Seq::new(6, |i: int| text::number(p[i], 16, 255)->0 as u8))
    } else {
        None
    }
}

/// Reads a hardware address.
pub fn parse_mac(s: &str) -> (r: Option<[u8; 6]>)
    ensures
        match (r, mac(s@)) {
            (Some(a), Some(b)) => a@ == b,
            (None, None) => true,
            _ => false,
        },
{
    let chars = text::chars_of(s);
    read_mac(chars.as_slice())
}

fn read_mac(s: &[char]) -> (r: Option<[u8; 6]>)
    ensures
        match (r, mac(s@)) {
            (Some(a), Some(b)) => a@ == b,
            (None, None) => true,
            _ => false,
        },
{
    let t = words::trimmed(s);
    let p = words::split_parts(t.as_slice(), ':');
    let ghost v = words::parts(words::trim(s@), ':');
    assert(v == words::rows(p@));
    assert(forall|i: int| 0 <= i < p@.len() ==> v[i] == #[trigger] p@[i]@);
    if p.len() < 6 {
        return None;
    }
    let mut m: [u8; 6] = [0, 0, 0, 0, 0, 0];
    for i in 0..6
        invariant
            6 <= p@.len(),
            v == words::rows(p@),
            v == words::parts(words::trim(s@), ':'),
            m@.len() == 6,
            forall|j: int|
                0 <= j < i ==> text::number(#[trigger] v[j], 16, 255) == Some(m@[j] as nat),
    {
        assert(v[i as int] == p@[i as int]@);
        match text::parse_number(p[i].as_slice(), 16, 255) {
            Some(b) => {
                m[i] = b as u8;
            },
            None => {
                return None;
            },
        }
    }
    assert(forall|j: int| 0 <= j < 6 ==> text::number(#[trigger] v[j], 16, 255) is Some);
    assert(m@ =~= mac(s@)->0) by {
        assert forall|j: int| 0 <= j < 6 implies m@[j] == mac(s@)->0[j] by {
            assert(text::number(v[j], 16, 255) == Some(m@[j] as nat));
        }
    }
    Some(m)
}

/// Whether the words of a line of the ARP table give the hardware address of `ip` on
/// `iface`: the first and the sixth name them, and the third says that the entry is
/// complete.
pub open spec fn is_entry(w: Seq<Seq<char>>, ip: Seq<char>, iface: Seq<char>) -> bool {
    w.len() >= 6 && w[0] == ip && w[5] == iface && w[2] != "0x0"@
}

/// The hardware address of `ip` on `iface` among the lines from `k` on.
pub open spec fn entry_from(
    lines: Seq<Seq<char>>,
    k: int,
    ip: Seq<char>,
    iface: Seq<char>,
) -> Result<Seq<u8>, Seq<char>>
    decreases lines.len() - k,
{
    if k >= lines.len() {
        Err(
            "no ARP entry for gateway "@ + ip + " on "@ + iface
                + "; ping the gateway once to populate it"@,
        )
    } else {
        let w = words::words(lines[k]);
        if is_entry(w, ip, iface) {
            match mac(w[3]) {
                Some(m) => Ok(m),
                None => Err("bad ARP MAC"@),
            }
        } else {
            entry_from(lines, k + 1, ip, iface)
        }
    }
}

/// The hardware address of `ip` on `iface` in an ARP table, whose first line is a heading.
pub open spec fn arp_entry(table: Seq<char>, ip: IpAddr, iface: Seq<char>) -> Result<
    Seq<u8>,
    Seq<char>,
> {
    entry_from(words::lines(table), 1, ip.text_spec(), iface)
}

fn missing_entry(ip: &str, iface: &str) -> (r: String)
    ensures
        r@ == "no ARP entry for gateway "@ + ip@ + " on "@ + iface@
            + "; ping the gateway once to populate it"@,
{
    let mut r = "no ARP entry for gateway ".to_owned();
    r.append(ip);
    r.append(" on ");
    r.append(iface);
    r.append("; ping the gateway once to populate it");
    r
}

/// Finds the hardware address of `ip` on `iface` in the text of the kernel's ARP table.
pub fn arp_lookup(table: &str, ip: IpAddr, iface: &str) -> (r: Result<[u8; 6], String>)
    ensures
        match (r, arp_entry(table@, ip, iface@)) {
            (Ok(a), Ok(b)) => a@ == b,
            (Err(e), Err(m)) => e@ == m,
            _ => false,
        },
{
    let want = ip.text();
    let chars = text::chars_of(table);
    let lines = words::split_lines(chars.as_slice());
    let ghost all = words::lines(table@);
    assert(all.len() == lines@.len());
    if lines.len() == 0 {
        return Err(missing_entry(want.as_str(), iface));
    }
    for k in 1..lines.len()
        invariant
            want@ == ip.text_spec(),
            all == words::rows(lines@),
            all == words::lines(table@),
            entry_from(all, k as int, want@, iface@) == arp_entry(table@, ip, iface@),
    {
        let w = words::split_words(lines[k].as_slice());
        let ghost v = words::words(all[k as int]);
        assert(all[k as int] == lines@[k as int]@);
        assert(v == words::rows(w@));
        assert(forall|i: int| 0 <= i < w@.len() ==> #[trigger] w@[i]@ == v[i]);
        if w.len() >= 6 && text::spells(w[0].as_slice(), want.as_str()) && text::spells(
            w[5].as_slice(),
            iface,
        ) && !text::spells(w[2].as_slice(), "0x0") {
            return match read_mac(w[3].as_slice()) {
                Some(m) => Ok(m),
                None => Err("bad ARP MAC".to_owned()),
            };
        }
    }
    Err(missing_entry(want.as_str(), iface))
}

/// Texts that can stand between colons: without colons and white space.
pub open spec fn are_parts(p: Seq<Seq<char>>) -> bool {
    forall|i: int, j: int|
        0 <= i < p.len() && 0 <= j < p[i].len() ==> (#[trigger] p[i][j]) != ':'
            && !words::is_space(p[i][j])
}

/// The parts with colons between, and white space around.
pub open spec fn colon_text(before: Seq<char>, p: Seq<Seq<char>>, after: Seq<char>) -> Seq<char> {
    before + text::joined(p, seq![':']) + after
}

/// Colons cut joined parts into the parts.
proof fn lemma_joined_parts(p: Seq<Seq<char>>)
    requires
        p.len() > 0,
        are_parts(p),
    ensures
        words::parts(text::joined(p, seq![':']), ':') == p,
        ({
            let s = text::joined(p, seq![':']);
            forall|i: int| 0 <= i < s.len() ==> !words::is_space(#[trigger] s[i])
        }),
    decreases p.len(),
{
    let front = p.drop_last();
    let end = p.last();
    let s = text::joined(p, seq![':']);
    assert(end == p[p.len() - 1]);
    assert forall|j: int| 0 <= j < end.len() implies (#[trigger] end[j]) != ':'
        && !words::is_space(end[j]) by {
        assert(p[p.len() - 1][j] != ':');
    }
    words::lemma_parts_one(end, ':');
    if p.len() > 1 {
        let t = text::joined(front, seq![':']);
        assert forall|i: int, j: int| 0 <= i < front.len() && 0 <= j < front[i].len() implies (
        #[trigger] front[i][j]) != ':' && !words::is_space(front[i][j]) by {
            assert(p[i][j] == front[i][j]);
        }
        lemma_joined_parts(front);
        words::lemma_parts_join(t, end, ':');
        assert(s =~= t + seq![':'] + end);
        assert forall|i: int| 0 <= i < s.len() implies !words::is_space(#[trigger] s[i]) by {
            if i < t.len() {
                assert(s[i] == t[i]);
            } else if i > t.len() {
                assert(s[i] == end[i - t.len() - 1]);
            }
        }
    } else {
        assert(text::joined(front, seq![':']) =~= Seq::empty());
        assert(s =~= end);
    }
    assert(words::parts(s, ':') =~= p);
}

/// A hardware address is read from its parts: it is there exactly if there are six or more and
/// each of the first six is a hexadecimal number of at most 255; those are its bytes. White space
/// around does not matter.
pub proof fn law_hardware_address_is_its_parts(
    before: Seq<char>,
    p: Seq<Seq<char>>,
    after: Seq<char>,
)
    requires
        words::all_space(before),
        words::all_space(after),
        p.len() > 0,
        are_parts(p),
    ensures
        match mac(colon_text(before, p, after)) {
            Some(m) => p.len() >= 6 && m.len() == 6 && forall|i: int|
                0 <= i < 6 ==> text::number(#[trigger] p[i], 16, 255) == Some(m[i] as nat),
            None => p.len() < 6 || exists|i: int|
                0 <= i < 6 && text::number(#[trigger] p[i], 16, 255) is None,
        },
{
    lemma_joined_parts(p);
    words::lemma_trim(before, text::joined(p, seq![':']), after);
    if let Some(m) = mac(colon_text(before, p, after)) {
        assert(forall|i: int|
            0 <= i < 6 ==> text::number(#[trigger] p[i], 16, 255) == Some(m[i] as nat));
    }
}

/// A hardware address that is written as six bytes of one or two hexadecimal digits each, in
/// either case, reads back as these bytes, with any white space around.
pub proof fn law_hardware_address_reads_back(
    before: Seq<char>,
    p: Seq<Seq<char>>,
    after: Seq<char>,
    m: Seq<u8>,
)
    requires
        words::all_space(before),
        words::all_space(after),
        m.len() == 6,
        p.len() == 6,
        forall|i: int|
            0 <= i < 6 ==> 1 <= (#[trigger] p[i]).len() <= 2 && text::digits_value(p[i], 16)
                == Some(m[i] as nat),
    ensures
        mac(colon_text(before, p, after)) == Some(m),
{
    assert forall|i: int, j: int| 0 <= i < p.len() && 0 <= j < p[i].len() implies (
    #[trigger] p[i][j]) != ':' && !words::is_space(p[i][j]) by {
        assert(text::digits_value(p[i], 16) == Some(m[i] as nat));
        text::lemma_digits_all(p[i], 16, j);
    }
    law_hardware_address_is_its_parts(before, p, after);
    assert forall|i: int| 0 <= i < 6 implies text::number(#[trigger] p[i], 16, 255) == Some(
        m[i] as nat,
    ) by {
        assert(text::digits_value(p[i], 16) == Some(m[i] as nat));
        text::lemma_digits_all(p[i], 16, 0);
    }
    assert(mac(colon_text(before, p, after))->0 =~= m) by {
        let got = mac(colon_text(before, p, after))->0;
        assert forall|i: int| 0 <= i < 6 implies got[i] == m[i] by {
            assert(text::number(p[i], 16, 255) == Some(m[i] as nat));
        }
    }
}

/// A hardware address is refused if parts are missing, or if one of six is empty, no hexadecimal
/// number, or more than a byte holds.
pub proof fn law_damaged_hardware_address_is_refused(
    before: Seq<char>,
    p: Seq<Seq<char>>,
    after: Seq<char>,
)
    requires
        words::all_space(before),
        words::all_space(after),
        p.len() > 0,
        are_parts(p),
        p.len() < 6 || exists|i: int|
            0 <= i < 6 && text::number(#[trigger] p[i], 16, 255) is None,
    ensures
        mac(colon_text(before, p, after)) is None,
{
    law_hardware_address_is_its_parts(before, p, after);
}

/// The gateway of the kernel's table is written backwards: its last hexadecimal byte is the first
/// octet of the address.
pub proof fn law_gateway_is_written_backwards(a: u8, b: u8, c: u8, d: u8)
    ensures
        swapped(a as nat + 256 * b as nat + 65536 * c as nat + 16777216 * d as nat) == 16777216
            * a as nat + 65536 * b as nat + 256 * c as nat + d as nat,
{
    let v = a as nat + 256 * b as nat + 65536 * c as nat + 16777216 * d as nat;
    reveal_with_fuel(bytes::le, 5);
    let s = bytes::le(v, 4);
    assert(v / 256 == b as nat + 256 * c as nat + 65536 * d as nat);
    assert(v / 256 / 256 == c as nat + 256 * d as nat);
    assert(v / 256 / 256 / 256 == d as nat);
    assert(s =~= seq![a, b, c, d]);
    reveal_with_fuel(bytes::be_value, 5);
    assert(s.drop_last() =~= seq![a, b, c]);
    assert(seq![a, b, c].drop_last() =~= seq![a, b]);
    assert(seq![a, b].drop_last() =~= seq![a]);
    assert(seq![a].drop_last() =~= Seq::<u8>::empty());
}

/// The first line after the heading whose second word is eight zeros gives the route: the
/// interface is its first word and the gateway its third. Lines before it do not matter.
pub proof fn law_first_default_route_counts(lines: Seq<Seq<char>>, k: int)
    requires
        1 <= k < lines.len(),
        words::words(lines[k]).len() >= 3,
        words::words(lines[k])[1] == seq!['0', '0', '0', '0', '0', '0', '0', '0'],
        forall|j: int|
            1 <= j < k ==> words::words(#[trigger] lines[j]).len() < 3 || words::words(lines[j])[1]
                != seq!['0', '0', '0', '0', '0', '0', '0', '0'],
    ensures
        ({
            let w = words::words(lines[k]);
            match text::number(w[2], 16, u32::MAX as nat) {
                Some(v) => route_from(lines, 1) == Ok::<(Seq<char>, u32), Seq<char>>(
                    (w[0], swapped(v)),
                ),
                None => route_from(lines, 1) == Err::<(Seq<char>, u32), Seq<char>>("bad gw"@),
            }
        }),
{
    lemma_route_from(lines, 1, k);
}

proof fn lemma_route_from(lines: Seq<Seq<char>>, j: int, k: int)
    requires
        1 <= j <= k < lines.len(),
        words::words(lines[k]).len() >= 3,
        words::words(lines[k])[1] == seq!['0', '0', '0', '0', '0', '0', '0', '0'],
        forall|i: int|
            1 <= i < k ==> words::words(#[trigger] lines[i]).len() < 3 || words::words(lines[i])[1]
                != seq!['0', '0', '0', '0', '0', '0', '0', '0'],
    ensures
        route_from(lines, j) == route_from(lines, k),
        is_default(words::words(lines[k])),
    decreases k - j,
{
    reveal_strlit("00000000");
    assert("00000000"@ =~= seq!['0', '0', '0', '0', '0', '0', '0', '0']);
    if j < k {
        lemma_route_from(lines, j + 1, k);
        assert(!is_default(words::words(lines[j])));
    }
}

/// The first complete line after the heading with the address in front and the interface as its
/// sixth word gives the hardware address, which is its fourth word.
pub proof fn law_first_complete_entry_counts(
    lines: Seq<Seq<char>>,
    k: int,
    ip: Seq<char>,
    iface: Seq<char>,
)
    requires
        1 <= k < lines.len(),
        ({
            let w = words::words(lines[k]);
            w.len() >= 6 && w[0] == ip && w[5] == iface && w[2] != seq!['0', 'x', '0']
        }),
        forall|j: int|
            1 <= j < k ==> {
                let w = words::words(#[trigger] lines[j]);
                w.len() < 6 || w[0] != ip || w[5] != iface || w[2] == seq!['0', 'x', '0']
            },
    ensures
        match mac(words::words(lines[k])[3]) {
            Some(m) => entry_from(lines, 1, ip, iface) == Ok::<Seq<u8>, Seq<char>>(m),
            None => entry_from(lines, 1, ip, iface) == Err::<Seq<u8>, Seq<char>>("bad ARP MAC"@),
        },
{
    lemma_entry_from(lines, 1, k, ip, iface);
}

proof fn lemma_entry_from(
    lines: Seq<Seq<char>>,
    j: int,
    k: int,
    ip: Seq<char>,
    iface: Seq<char>,
)
    requires
        1 <= j <= k < lines.len(),
        ({
            let w = words::words(lines[k]);
            w.len() >= 6 && w[0] == ip && w[5] == iface && w[2] != seq!['0', 'x', '0']
        }),
        forall|i: int|
            1 <= i < k ==> {
                let w = words::words(#[trigger] lines[i]);
                w.len() < 6 || w[0] != ip || w[5] != iface || w[2] == seq!['0', 'x', '0']
            },
    ensures
        entry_from(lines, j, ip, iface) == entry_from(lines, k, ip, iface),
        is_entry(words::words(lines[k]), ip, iface),
    decreases k - j,
{
    reveal_strlit("0x0");
    assert("0x0"@ =~= seq!['0', 'x', '0']);
    if j < k {
        lemma_entry_from(lines, j + 1, k, ip, iface);
        assert(!is_entry(words::words(lines[j]), ip, iface));
    }
}

/// The tables are read line by line after the heading.
pub proof fn law_tables_are_read_after_the_heading(
    table: Seq<char>,
    ip: IpAddr,
    iface: Seq<char>,
)
    ensures
        default_route_spec(table) == route_from(words::lines(table), 1),
        arp_entry(table, ip, iface) == entry_from(words::lines(table), 1, ip.text_spec(), iface),
{
}

/// Without a default route there is an error that says so.
pub proof fn law_missing_routes_are_errors(lines: Seq<Seq<char>>, k: int)
    requires
        1 <= k,
        forall|j: int|
            k <= j < lines.len() ==> words::words(#[trigger] lines[j]).len() < 3 || words::words(
                lines[j],
            )[1] != seq!['0', '0', '0', '0', '0', '0', '0', '0'],
    ensures
        route_from(lines, k) == Err::<(Seq<char>, u32), Seq<char>>("no default route found"@),
    decreases lines.len() - k,
{
    reveal_strlit("00000000");
    assert("00000000"@ =~= seq!['0', '0', '0', '0', '0', '0', '0', '0']);
    if k < lines.len() {
        assert(!is_default(words::words(lines[k])));
        law_missing_routes_are_errors(lines, k + 1);
    }
}

/// Without a complete entry for the address on the interface there is an error.
pub proof fn law_missing_entries_are_errors(
    lines: Seq<Seq<char>>,
    k: int,
    ip: Seq<char>,
    iface: Seq<char>,
)
    requires
        1 <= k,
        forall|j: int|
            k <= j < lines.len() ==> {
                let w = words::words(#[trigger] lines[j]);
                w.len() < 6 || w[0] != ip || w[5] != iface || w[2] == seq!['0', 'x', '0']
            },
    ensures
        entry_from(lines, k, ip, iface) == Err::<Seq<u8>, Seq<char>>(
            "no ARP entry for gateway "@ + ip + " on "@ + iface
                + "; ping the gateway once to populate it"@,
        ),
    decreases lines.len() - k,
{
    reveal_strlit("0x0");
    assert("0x0"@ =~= seq!['0', 'x', '0']);
    if k < lines.len() {
        assert(!is_entry(words::words(lines[k]), ip, iface));
        law_missing_entries_are_errors(lines, k + 1, ip, iface);
    }
}

} // verus!
