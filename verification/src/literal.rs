//! Address literals.
use crate::addr;
use crate::addr::IpAddr;
use crate::bytes;
use crate::text;
use crate::words;
use vstd::prelude::*;

verus! {

/// The group that `p` writes: one to four hexadecimal digits.
pub open spec fn group(p: Seq<char>) -> Option<nat> {
    if 1 <= p.len() <= 4 {
        text::digits_value(p, 16)
    } else {
        None
    }
}

/// The groups that end a run of groups: one group or, where `embed` allows it, the two of
/// an embedded IPv4 address.
pub open spec fn last_groups(p: Seq<char>, embed: bool) -> Option<Seq<nat>> {
    match (group(p), addr::ipv4_of(p)) {
        (Some(g), _) => Some(seq![g]),
        (None, Some(a)) => if embed {
            Some(addr::groups(a as nat, 2))
        } else {
            None
        },
        (None, None) => None,
    }
}

/// The values of texts that are groups.
pub open spec fn group_values(p: Seq<Seq<char>>) -> Seq<nat> {
    p.map_values(|x: Seq<char>| group(x)->0)
}

/// The groups that `s` writes with colons between; none where `s` is empty.
pub open spec fn groups_of_text(s: Seq<char>, embed: bool) -> Option<Seq<nat>> {
    let p = words::parts(s, ':');
    let front = p.drop_last();
    if s.len() == 0 {
        Some(Seq::empty())
    } else if forall|i: int| 0 <= i < front.len() ==> group(#[trigger] front[i]) is Some {
        match last_groups(p.last(), embed) {
            Some(end) => Some(group_values(front) + end),
            None => None,
        }
    } else {
        None
    }
}

/// The number that the groups write, most significant group first.
pub open spec fn groups_value(g: Seq<nat>) -> nat
    decreases g.len(),
{
    if g.len() == 0 {
        0
    } else {
        groups_value(g.drop_last()) * 0x1_0000 + g.last()
    }
}

/// `n` groups of zero.
pub open spec fn zero_groups(n: int) -> Seq<nat> {
    Seq::new(n as nat, |i: int| 0nat)
}

/// The IPv6 address that `s` writes: eight groups, or fewer round a double colon that
/// stands for one or more groups of zero. An IPv4 address may stand for the last two.
pub open spec fn ipv6_of(s: Seq<char>) -> Option<u128> {
    match words::first_at(s, seq![':', ':']) {
        None => match groups_of_text(s, true) {
            Some(g) => if g.len() == 8 {
                Some(groups_value(g) as u128)
            } else {
                None
            },
            None => None,
        },
        Some(k) => match (
            groups_of_text(s.take(k as int), false),
            groups_of_text(s.skip(k as int + 2), true),
        ) {
            (Some(head), Some(tail)) => if head.len() + tail.len() <= 7 {
                Some(
                    groups_value(head + zero_groups(8 - head.len() - tail.len()) + tail) as u128,
                )
            } else {
                None
            },
            _ => None,
        },
    }
}

/// The address that `s` writes.
pub open spec fn ip_of(s: Seq<char>) -> Option<IpAddr> {
    match (addr::ipv4_of(s), ipv6_of(s)) {
        (Some(a), _) => Some(IpAddr::V4(a)),
        (None, Some(a)) => Some(IpAddr::V6(a)),
        (None, None) => None,
    }
}

/// A group has sixteen bits.
proof fn lemma_group_bound(p: Seq<char>)
    ensures
        group(p) matches Some(g) ==> g <= 0xffff,
{
    reveal_with_fuel(text::digits_value, 5);
}

fn parse_group(p: &[char]) -> (r: Option<u16>)
    ensures
        match (r, group(p@)) {
            (Some(g), Some(h)) => g == h,
            (None, None) => true,
            _ => false,
        },
{
    if p.len() < 1 || p.len() > 4 {
        return None;
    }
    proof {
        lemma_group_bound(p@);
        text::lemma_digits_all(p@, 16, 0);
    }
    if p[0] == '+' {
        return None;
    }
    match text::parse_number(p, 16, 0xffff) {
        Some(g) => Some(g as u16),
        None => None,
    }
}

fn parse_last(p: &[char], embed: bool, out: &mut Vec<u16>) -> (r: bool)
    ensures
        r == (last_groups(p@, embed) is Some),
        last_groups(p@, embed) matches Some(g) ==> addr::widened(final(out)@) == addr::widened(
            old(out)@,
        ) + g,
{
    match parse_group(p) {
        Some(g) => {
            out.push(g);
            assert(addr::widened(out@) =~= addr::widened(old(out)@) + seq![g as nat]);
            true
        },
        None => match addr::parse_ipv4(p) {
            Some(a) => if embed {
                out.push((a / 0x1_0000) as u16);
                out.push((a % 0x1_0000) as u16);
                proof {
                    reveal_with_fuel(addr::groups, 3);
                    assert(addr::groups(a as nat, 2) =~= seq![
                        (a / 0x1_0000) as nat,
                        (a % 0x1_0000) as nat,
                    ]);
                    assert(addr::widened(out@) =~= addr::widened(old(out)@) + addr::groups(
                        a as nat,
                        2,
                    ));
                }
                true
            } else {
                false
            },
            None => false,
        },
    }
}

/// Reads groups with colons between, see [`groups_of_text`].
fn parse_groups(s: &[char], embed: bool) -> (r: Option<Vec<u16>>)
    ensures
        match (r, groups_of_text(s@, embed)) {
            (Some(v), Some(g)) => addr::widened(v@) == g,
            (None, None) => true,
            _ => false,
        },
{
    let mut out: Vec<u16> = Vec::new();
    if s.len() == 0 {
        assert(addr::widened(out@) =~= Seq::<nat>::empty());
        return Some(out);
    }
    let p = words::split_parts(s, ':');
    let ghost all = words::parts(s@, ':');
    let ghost front = all.drop_last();
    assert(all.len() == p@.len());
    assert(forall|i: int| 0 <= i < p@.len() ==> all[i] == #[trigger] p@[i]@);
    assert(all.len() > 0);
    let last: usize = p.len() - 1;
    for i in 0..last
        invariant
            last + 1 == p@.len() == all.len(),
            s@.len() > 0,
            all == words::parts(s@, ':'),
            front == all.drop_last(),
            forall|j: int| 0 <= j < p@.len() ==> all[j] == #[trigger] p@[j]@,
            forall|j: int| 0 <= j < i ==> group(#[trigger] front[j]) is Some,
            addr::widened(out@) == group_values(front.take(i as int)),
    {
        assert(front[i as int] == p@[i as int]@);
        match parse_group(p[i].as_slice()) {
            None => {
                return None;
            },
            Some(g) => {
                let ghost had = out@;
                out.push(g);
                proof {
                    let next = front.take(i + 1);
                    assert(next.drop_last() =~= front.take(i as int));
                    assert(addr::widened(out@) =~= addr::widened(had).push(g as nat));
                    assert(group_values(next) =~= group_values(next.drop_last()).push(g as nat));
                }
            },
        }
    }
    assert(front.take(last as int) =~= front);
    assert(all.last() == p@[last as int]@);
    if parse_last(p[last].as_slice(), embed, &mut out) {
        Some(out)
    } else {
        None
    }
}

/// What groups write fits their number.
proof fn lemma_groups_bound(g: Seq<u16>)
    ensures
        groups_value(addr::widened(g)) < bytes::capacity(2 * g.len()),
    decreases g.len(),
{
    if g.len() > 0 {
        lemma_groups_bound(g.drop_last());
        assert(addr::widened(g).drop_last() =~= addr::widened(g.drop_last()));
        reveal_with_fuel(bytes::capacity, 3);
    }
}

/// The number that the groups write, see [`groups_value`].
fn value_of(g: &[u16]) -> (r: u128)
    requires
        g@.len() <= 8,
    ensures
        r == groups_value(addr::widened(g@)),
{
    let mut v: u128 = 0;
    for i in 0..g.len()
        invariant
            g@.len() <= 8,
            v == groups_value(addr::widened(g@.take(i as int))),
    {
        proof {
            let next = g@.take(i + 1);
            assert(next.drop_last() =~= g@.take(i as int));
            assert(addr::widened(next).drop_last() =~= addr::widened(g@.take(i as int)));
            lemma_groups_bound(next);
            bytes::lemma_capacity_monotone(2 * next.len(), 16);
            bytes::lemma_capacities();
        }
        v = v * 0x1_0000 + g[i] as u128;
    }
    assert(g@.take(g@.len() as int) =~= g@);
    v
}

/// Reads an IPv6 address.
pub fn parse_ipv6(s: &[char]) -> (r: Option<u128>)
    ensures
        r == ipv6_of(s@),
{
    let mark: Vec<char> = vec![':', ':'];
    assert(mark@ =~= seq![':', ':']);
    match words::find_pattern(s, mark.as_slice()) {
        None => match parse_groups(s, true) {
            Some(g) => if g.len() == 8 {
                Some(value_of(g.as_slice()))
            } else {
                None
            },
            None => None,
        },
        Some(k) => {
            let end: usize = s.len();
            let before = words::copy_range(s, 0, k);
            let after = words::copy_range(s, k + 2, end);
            assert(before@ =~= s@.take(k as int));
            assert(after@ =~= s@.skip(k + 2));
            match (parse_groups(before.as_slice(), false), parse_groups(after.as_slice(), true)) {
                (Some(head), Some(tail)) => {
                    if head.len() > 7 || tail.len() > 7 || head.len() + tail.len() > 7 {
                        return None;
                    }
                    let fill: usize = 8 - head.len() - tail.len();
                    let ghost h = addr::widened(head@);
                    let ghost t = addr::widened(tail@);
                    let mut g = head;
                    assert(h + zero_groups(0) =~= h);
                    for i in 0..fill
                        invariant
                            g@.len() == h.len() + i,
                            addr::widened(g@) == h + zero_groups(i as int),
                    {
                        let ghost had = g@;
                        g.push(0);
                        assert(addr::widened(g@) =~= addr::widened(had).push(0));
                        assert(addr::widened(g@) =~= h + zero_groups(i + 1));
                    }
                    let ghost full = h + zero_groups(fill as int);
                    let ghost had = g@;
                    let mut rest = tail;
                    g.append(&mut rest);
                    assert(addr::widened(g@) =~= addr::widened(had) + t);
                    assert(addr::widened(g@) == full + t);
                    Some(value_of(g.as_slice()))
                },
                _ => None,
            }
        },
    }
}

/// Reads an address of either family.
pub fn parse_ip(s: &str) -> (r: Option<IpAddr>)
    ensures
        r == ip_of(s@),
{
    let chars = text::chars_of(s);
    match addr::parse_ipv4(chars.as_slice()) {
        Some(a) => Some(IpAddr::V4(a)),
        None => match parse_ipv6(chars.as_slice()) {
            Some(a) => Some(IpAddr::V6(a)),
            None => None,
        },
    }
}

/// The numeral of a group reads back as that group.
proof fn lemma_group_text(g: nat)
    requires
        g <= 0xffff,
    ensures
        group(text::numeral(g, 16)) == Some(g),
        text::numeral(g, 16).len() > 0,
        !text::numeral(g, 16).contains(':'),
{
    let d = text::numeral(g, 16);
    let c0 = text::digit_char(g % 16);
    let c1 = text::digit_char(g / 16 % 16);
    let c2 = text::digit_char(g / 256 % 16);
    let c3 = text::digit_char(g / 4096);
    reveal_with_fuel(text::numeral, 4);
    reveal_with_fuel(text::digits_value, 5);
    if g < 16 {
        assert(d =~= seq![c0]);
        assert(d.drop_last() =~= Seq::<char>::empty());
    } else if g < 256 {
        assert(d =~= seq![c1, c0]);
        assert(d.drop_last() =~= seq![c1]);
        assert(seq![c1].drop_last() =~= Seq::<char>::empty());
    } else if g < 4096 {
        assert(g / 16 / 16 == g / 256);
        assert(d =~= seq![c2, c1, c0]);
        assert(d.drop_last() =~= seq![c2, c1]);
        assert(seq![c2, c1].drop_last() =~= seq![c2]);
        assert(seq![c2].drop_last() =~= Seq::<char>::empty());
    } else {
        assert(g / 16 / 16 == g / 256);
        assert(g / 16 / 16 / 16 == g / 4096);
        assert(d =~= seq![c3, c2, c1, c0]);
        assert(d.drop_last() =~= seq![c3, c2, c1]);
        assert(seq![c3, c2, c1].drop_last() =~= seq![c3, c2]);
        assert(seq![c3, c2].drop_last() =~= seq![c3]);
        assert(seq![c3].drop_last() =~= Seq::<char>::empty());
    }
}

/// Groups are numbers of sixteen bits.
spec fn all_groups(g: Seq<nat>) -> bool {
    forall|i: int| 0 <= i < g.len() ==> #[trigger] g[i] <= 0xffff
}

/// The texts of the groups.
spec fn group_texts(g: Seq<nat>) -> Seq<Seq<char>> {
    g.map_values(|x: nat| text::numeral(x, 16))
}

/// The colons cut the text of groups into the texts of the groups.
proof fn lemma_colons_parts(g: Seq<nat>)
    requires
        all_groups(g),
        g.len() > 0,
    ensures
        words::parts(addr::colons(g), ':') == group_texts(g),
        addr::colons(g).len() > 0,
    decreases g.len(),
{
    let front = g.drop_last();
    let end = text::numeral(g.last(), 16);
    lemma_group_text(g.last());
    words::lemma_parts_one(end, ':');
    if g.len() > 1 {
        lemma_colons_parts(front);
        words::lemma_parts_join(addr::colons(front), end, ':');
    }
    assert(words::parts(addr::colons(g), ':') =~= group_texts(g));
}

/// The text of groups reads back as those groups.
proof fn lemma_colons_read_back(g: Seq<nat>, embed: bool)
    requires
        all_groups(g),
    ensures
        groups_of_text(addr::colons(g), embed) == Some(g),
{
    if g.len() > 0 {
        let p = words::parts(addr::colons(g), ':');
        lemma_colons_parts(g);
        let front = p.drop_last();
        lemma_group_text(g.last());
        assert forall|i: int| 0 <= i < front.len() implies group(#[trigger] front[i]) == Some(
            g[i],
        ) by {
            lemma_group_text(g[i]);
        }
        assert(group_values(front) =~= g.drop_last());
        assert(group_values(front) + seq![g.last()] =~= g);
    }
}

/// The text of groups holds no two colons in a row, and neither begins nor ends with one.
proof fn lemma_colons_apart(g: Seq<nat>)
    requires
        all_groups(g),
    ensures
        ({
            let s = addr::colons(g);
            &&& s.len() > 0 ==> s[0] != ':' && s.last() != ':'
            &&& forall|i: int| 0 < i < s.len() ==> s[i - 1] != ':' || #[trigger] s[i] != ':'
        }),
    decreases g.len(),
{
    if g.len() > 0 {
        let s = addr::colons(g);
        let front = addr::colons(g.drop_last());
        let end = text::numeral(g.last(), 16);
        lemma_group_text(g.last());
        assert(forall|i: int| 0 <= i < end.len() ==> end.contains(#[trigger] end[i]));
        if g.len() > 1 {
            lemma_colons_apart(g.drop_last());
            lemma_colons_parts(g.drop_last());
            let k = front.len() as int;
            assert(s == front + seq![':'] + end);
            assert(s[0] == front[0]);
            assert(s.last() == end.last());
            assert forall|i: int| 0 < i < s.len() implies s[i - 1] != ':' || #[trigger] s[i]
                != ':' by {
                if i < k {
                    assert(s[i - 1] == front[i - 1] && s[i] == front[i]);
                } else if i == k {
                    assert(s[i - 1] == front.last());
                } else {
                    assert(s[i] == end[i - k - 1]);
                }
            }
        }
    }
}

/// The groups of a number, put together, give the number back.
proof fn lemma_groups_value(v: nat, k: nat)
    ensures
        addr::groups(v, k).len() == k,
        all_groups(addr::groups(v, k)),
        v < bytes::capacity(2 * k) ==> groups_value(addr::groups(v, k)) == v,
    decreases k,
{
    if k > 0 {
        let rest = addr::groups(v / 0x1_0000, (k - 1) as nat);
        lemma_groups_value(v / 0x1_0000, (k - 1) as nat);
        assert(addr::groups(v, k).drop_last() =~= rest);
        reveal_with_fuel(bytes::capacity, 3);
    }
}

/// A run of zeros is made of zeros and ends within the groups.
proof fn lemma_zeros(g: Seq<nat>, at: int)
    requires
        0 <= at <= g.len(),
    ensures
        at + addr::zeros_from(g, at) <= g.len(),
        forall|i: int| at <= i < at + addr::zeros_from(g, at) ==> #[trigger] g[i] == 0,
    decreases g.len() - at,
{
    if at < g.len() && g[at] == 0 {
        lemma_zeros(g, at + 1);
    }
}

/// The longest run of zeros begins before `k`, or at the start.
proof fn lemma_longest(g: Seq<nat>, k: nat)
    ensures
        0 <= addr::longest_zeros(g, k) <= k,
    decreases k,
{
    if k > 0 {
        lemma_longest(g, (k - 1) as nat);
    }
}

/// Groups of zero write zero.
proof fn lemma_zero_groups(n: nat)
    ensures
        groups_value(zero_groups(n as int)) == 0,
    decreases n,
{
    if n > 0 {
        lemma_zero_groups((n - 1) as nat);
        assert(zero_groups(n as int).drop_last() =~= zero_groups(n - 1));
    }
}

/// The groups of an IPv4-mapped address.
spec fn mapped_groups(low: u32) -> Seq<nat> {
    seq![0xffffnat] + addr::groups(low as nat, 2)
}

proof fn lemma_mapped_value(low: u32)
    ensures
        groups_value(zero_groups(5) + mapped_groups(low)) == 0xffff * 0x1_0000_0000 + low,
{
    reveal_with_fuel(addr::groups, 3);
    let p = (low / 0x1_0000) as nat;
    let q = (low % 0x1_0000) as nat;
    let g = zero_groups(5) + mapped_groups(low);
    let g2 = zero_groups(5).push(0xffff);
    let g1 = g2.push(p);
    assert(g =~= g1.push(q));
    assert(g.drop_last() =~= g1);
    assert(g1.drop_last() =~= g2);
    assert(g2.drop_last() =~= zero_groups(5));
    lemma_zero_groups(5);
    assert(groups_value(g2) == 0xffff);
    assert(groups_value(g1) == 0xffff * 0x1_0000 + p);
}

/// The group of sixteen ones.
proof fn lemma_ones()
    ensures
        group(seq!['f', 'f', 'f', 'f']) == Some(0xffffnat),
{
    reveal_with_fuel(text::digits_value, 5);
    assert(seq!['f', 'f', 'f', 'f'].drop_last() =~= seq!['f', 'f', 'f']);
    assert(seq!['f', 'f', 'f'].drop_last() =~= seq!['f', 'f']);
    assert(seq!['f', 'f'].drop_last() =~= seq!['f']);
    assert(seq!['f'].drop_last() =~= Seq::<char>::empty());
}

/// The groups that the end of the text of an IPv4-mapped address writes.
proof fn lemma_mapped_text(low: u32)
    ensures
        groups_of_text(seq!['f', 'f', 'f', 'f'] + seq![':'] + addr::ipv4_text(low), true) == Some(
            mapped_groups(low),
        ),
{
    let ones = seq!['f', 'f', 'f', 'f'];
    let dots = addr::ipv4_text(low);
    let t = ones + seq![':'] + dots;
    addr::law_ipv4_text_reads_back(low);
    addr::lemma_ipv4_text(low);
    words::lemma_parts_cons(ones, dots, ':');
    words::lemma_parts_one(dots, ':');
    lemma_ones();
    let p = words::parts(t, ':');
    assert(p =~= seq![ones, dots]);
    assert(p.drop_last() =~= seq![ones]);
    assert(group_values(seq![ones]) =~= seq![0xffffnat]);
}

/// The text of an IPv4-mapped address reads back as that address.
proof fn lemma_mapped_reads_back(a: u128)
    requires
        a / 0x1_0000_0000 == 0xffff,
    ensures
        ipv6_of(addr::ipv6_text(a)) == Some(a),
{
    let s = addr::ipv6_text(a);
    let mark = seq![':', ':'];
    let low = (a % 0x1_0000_0000) as u32;
    assert(s.subrange(0, 2) =~= mark);
    words::lemma_first_at(s, mark, 0);
    assert(s.take(0) =~= Seq::<char>::empty());
    assert(s.skip(2) =~= seq!['f', 'f', 'f', 'f'] + seq![':'] + addr::ipv4_text(low));
    lemma_mapped_text(low);
    lemma_mapped_value(low);
    lemma_groups_value(low as nat, 2);
    assert(Seq::<nat>::empty() + zero_groups(5) + mapped_groups(low) =~= zero_groups(5)
        + mapped_groups(low));
}

/// The first double colon after a text without one, which does not end with a colon, is the one
/// that follows.
proof fn lemma_first_double_colon(h: Seq<char>, t: Seq<char>)
    requires
        h.len() > 0 ==> h.last() != ':',
        forall|i: int| 0 < i < h.len() ==> h[i - 1] != ':' || #[trigger] h[i] != ':',
    ensures
        ({
            let s = h + seq![':', ':'] + t;
            &&& words::first_at(s, seq![':', ':']) == Some(h.len())
            &&& s.take(h.len() as int) == h
            &&& s.skip(h.len() as int + 2) == t
        }),
{
    let mark = seq![':', ':'];
    let s = h + mark + t;
    let k = h.len() as int;
    assert forall|i: int| 0 <= i < k implies #[trigger] s.subrange(i, i + 2) != mark by {
        assert(s.subrange(i, i + 2)[0] == h[i]);
        if i + 1 < k {
            assert(s.subrange(i, i + 2)[1] == h[i + 1]);
        }
    }
    assert(s.subrange(k, k + 2) =~= mark);
    words::lemma_first_at(s, mark, k);
    assert(s.take(k) =~= h);
    assert(s.skip(k + 2) =~= t);
}

/// The text of an IPv6 address reads back as that address.
pub proof fn law_ipv6_text_reads_back(a: u128)
    ensures
        ipv6_of(addr::ipv6_text(a)) == Some(a),
{
    let s = addr::ipv6_text(a);
    let mark = seq![':', ':'];
    let g = addr::groups(a as nat, 8);
    lemma_groups_value(a as nat, 8);
    bytes::lemma_capacities();
    let at = addr::longest_zeros(g, 8);
    let n = addr::zeros_from(g, at) as int;
    if a / 0x1_0000_0000 == 0xffff {
        lemma_mapped_reads_back(a);
    } else if n > 1 {
        let head = g.take(at);
        let tail = g.skip(at + n);
        let h = addr::colons(head);
        let t = addr::colons(tail);
        lemma_longest(g, 8);
        lemma_zeros(g, at);
        lemma_colons_read_back(head, false);
        lemma_colons_read_back(tail, true);
        lemma_colons_apart(head);
        lemma_first_double_colon(h, t);
        assert(s == h + mark + t);
        assert(head + zero_groups(n) + tail =~= g);
    } else {
        lemma_colons_read_back(g, true);
        lemma_colons_apart(g);
        assert forall|i: int| 0 <= i <= s.len() - 2 implies #[trigger] s.subrange(i, i + 2)
            != mark by {
            assert(s.subrange(i, i + 2)[0] == s[i]);
            assert(s.subrange(i, i + 2)[1] == s[i + 1]);
        }
        words::lemma_not_at(s, mark);
    }
}

/// No IPv4 address is written with a colon.
proof fn lemma_colon_is_not_ipv4(s: Seq<char>)
    requires
        s.contains(':'),
    ensures
        addr::ipv4_of(s) is None,
{
    let p = words::parts(s, '.');
    words::lemma_parts_hold(s, '.', ':');
    let i = choose|i: int| 0 <= i < p.len() && (#[trigger] p[i]).contains(':');
    let at = choose|k: int| 0 <= k < p[i].len() && p[i][k] == ':';
    text::lemma_digits_all(p[i], 10, at);
    assert(addr::octet(p[i]) is None);
}

/// The text of an address reads back as that address.
pub proof fn law_text_reads_back(ip: IpAddr)
    ensures
        ip_of(ip.text_spec()) == Some(ip),
{
    match ip {
        IpAddr::V4(a) => addr::law_ipv4_text_reads_back(a),
        IpAddr::V6(a) => {
            let s = addr::ipv6_text(a);
            law_ipv6_text_reads_back(a);
            let g = addr::groups(a as nat, 8);
            lemma_groups_value(a as nat, 8);
            let at = addr::longest_zeros(g, 8);
            if a / 0x1_0000_0000 == 0xffff {
                assert(s[0] == ':');
            } else if addr::zeros_from(g, at) > 1 {
                assert(s[addr::colons(g.take(at)).len() as int] == ':');
            } else {
                assert(s[addr::colons(g.drop_last()).len() as int] == ':');
            }
            lemma_colon_is_not_ipv4(s);
        },
    }
}

/// Whether `p` are texts of one to four hexadecimal digits.
pub open spec fn hex_groups(p: Seq<Seq<char>>) -> bool {
    forall|i: int|
        0 <= i < p.len() ==> 1 <= (#[trigger] p[i]).len() <= 4 && text::digits_value(p[i], 16)
            is Some
}

/// The numbers that the texts write.
pub open spec fn hex_values(p: Seq<Seq<char>>) -> Seq<nat> {
    p.map_values(|x: Seq<char>| text::digits_value(x, 16)->0)
}

proof fn lemma_no_colon(p: Seq<char>)
    requires
        text::digits_value(p, 16) is Some,
    ensures
        !p.contains(':'),
{
    if p.contains(':') {
        let i = choose|i: int| 0 <= i < p.len() && p[i] == ':';
        text::lemma_digits_all(p, 16, i);
    }
}

/// Whether the texts of `p` can stand between colons: none is empty or holds one.
spec fn between_colons(p: Seq<Seq<char>>) -> bool {
    forall|i: int| 0 <= i < p.len() ==> (#[trigger] p[i]).len() > 0 && !p[i].contains(':')
}

proof fn lemma_hex_between_colons(p: Seq<Seq<char>>)
    requires
        hex_groups(p),
    ensures
        between_colons(p),
{
    assert forall|i: int| 0 <= i < p.len() implies (#[trigger] p[i]).len() > 0 && !p[i].contains(
        ':',
    ) by {
        lemma_no_colon(p[i]);
    }
}

/// Texts without colons, joined by colons, are the parts of the result.
proof fn lemma_parts_of_joined(p: Seq<Seq<char>>)
    requires
        p.len() > 0,
        between_colons(p),
    ensures
        words::parts(text::joined(p, seq![':']), ':') == p,
        ({
            let s = text::joined(p, seq![':']);
            &&& s.len() > 0 && s[0] != ':' && s.last() != ':'
            &&& forall|i: int| 0 < i < s.len() ==> s[i - 1] != ':' || #[trigger] s[i] != ':'
        }),
    decreases p.len(),
{
    let front = p.drop_last();
    let end = p.last();
    let s = text::joined(p, seq![':']);
    assert(end == p[p.len() - 1]);
    words::lemma_parts_one(end, ':');
    assert(forall|i: int| 0 <= i < end.len() ==> end.contains(#[trigger] end[i]));
    if p.len() > 1 {
        let t = text::joined(front, seq![':']);
        assert forall|i: int| 0 <= i < front.len() implies (#[trigger] front[i]).len() > 0
            && !front[i].contains(':') by {
            assert(front[i] == p[i]);
        }
        lemma_parts_of_joined(front);
        words::lemma_parts_join(t, end, ':');
        assert(s =~= t + seq![':'] + end);
        let k = t.len() as int;
        assert(s[0] == t[0] && s.last() == end.last());
        assert forall|i: int| 0 < i < s.len() implies s[i - 1] != ':' || #[trigger] s[i] != ':' by {
            if i < k {
                assert(s[i - 1] == t[i - 1] && s[i] == t[i]);
            } else if i == k {
                assert(s[i - 1] == t.last());
            } else {
                assert(s[i] == end[i - k - 1]);
            }
        }
    } else {
        assert(text::joined(front, seq![':']) =~= Seq::<char>::empty());
        assert(s =~= end);
    }
    assert(words::parts(s, ':') =~= p);
}

proof fn lemma_groups_of_joined(p: Seq<Seq<char>>, embed: bool)
    requires
        hex_groups(p),
    ensures
        groups_of_text(text::joined(p, seq![':']), embed) == Some(hex_values(p)),
{
    if p.len() > 0 {
        lemma_hex_between_colons(p);
        lemma_parts_of_joined(p);
        let front = p.drop_last();
        assert forall|i: int| 0 <= i < front.len() implies group(#[trigger] front[i]) is Some by {
            assert(front[i] == p[i]);
        }
        assert(p.last() == p[p.len() - 1]);
        assert(group_values(front) + seq![group(p.last())->0] =~= hex_values(p));
    } else {
        assert(text::joined(p, seq![':']) =~= Seq::<char>::empty());
        assert(hex_values(p) =~= Seq::<nat>::empty());
    }
}

/// Eight groups of hexadecimal digits with colons between, of either case and with leading zeros
/// or without, are the address of which they are the groups.
pub proof fn law_eight_groups_are_an_address(p: Seq<Seq<char>>)
    requires
        hex_groups(p),
    ensures
        p.len() == 8 ==> ipv6_of(text::joined(p, seq![':'])) == Some(
            groups_value(hex_values(p)) as u128,
        ),
        p.len() != 8 ==> ipv6_of(text::joined(p, seq![':'])) is None,
{
    let s = text::joined(p, seq![':']);
    let mark = seq![':', ':'];
    lemma_groups_of_joined(p, true);
    if p.len() > 0 {
        lemma_hex_between_colons(p);
        lemma_parts_of_joined(p);
    } else {
        assert(s =~= Seq::<char>::empty());
    }
    assert forall|i: int| 0 <= i <= s.len() - 2 implies #[trigger] s.subrange(i, i + 2)
        != mark by {
        assert(s.subrange(i, i + 2)[0] == s[i]);
        assert(s.subrange(i, i + 2)[1] == s[i + 1]);
    }
    words::lemma_not_at(s, mark);
}

/// A double colon stands for the groups of zero that are missing to eight, at least one; with
/// eight groups or more beside it there is no address.
pub proof fn law_double_colon_fills_up_with_zeros(head: Seq<Seq<char>>, tail: Seq<Seq<char>>)
    requires
        hex_groups(head),
        hex_groups(tail),
    ensures
        ({
            let s = text::joined(head, seq![':']) + seq![':', ':'] + text::joined(tail, seq![':']);
            let n = head.len() + tail.len();
            &&& n <= 7 ==> ipv6_of(s) == Some(
                (groups_value(hex_values(head)) * vstd::arithmetic::power::pow(
                    65536,
                    (8 - head.len()) as nat,
                ) + groups_value(hex_values(tail))) as u128,
            )
            &&& n > 7 ==> ipv6_of(s) is None
        }),
{
    let h = text::joined(head, seq![':']);
    let t = text::joined(tail, seq![':']);
    lemma_hex_between_colons(head);
    lemma_double_colon_at(head, t);
    lemma_groups_of_joined(head, false);
    lemma_groups_of_joined(tail, true);
    if head.len() + tail.len() <= 7 {
        let b = hex_values(tail);
        let z = zero_groups(8 - head.len() - b.len());
        assert(hex_values(head) + z + b =~= hex_values(head) + (z + b));
        law_groups_add_up(hex_values(head), z + b);
        law_groups_add_up(z, b);
        lemma_zero_groups(z.len());
        assert((z + b).len() == 8 - head.len());
        assert(groups_value(z + b) == groups_value(b));
    }
}

/// Groups go by their places: those in front count 65536 to the power of the number of those
/// behind, and one group alone is its number.
pub proof fn law_groups_add_up(a: Seq<nat>, b: Seq<nat>)
    ensures
        groups_value(a + b) == groups_value(a) * vstd::arithmetic::power::pow(65536, b.len())
            + groups_value(b),
        b.len() == 1 ==> groups_value(b) == b[0],
    decreases b.len(),
{
    reveal(vstd::arithmetic::power::pow);
    let t = a + b;
    if b.len() == 0 {
        assert(t =~= a);
    } else {
        law_groups_add_up(a, b.drop_last());
        assert(t.drop_last() =~= a + b.drop_last());
        let p = vstd::arithmetic::power::pow(65536, (b.len() - 1) as nat);
        let g = groups_value(a);
        assert(groups_value(b.drop_last()) == 0 || b.len() > 1);
        assert((g * p) * 65536 == g * (65536 * p)) by (nonlinear_arith);
    }
}

/// Text without a colon is no IPv6 address, and text with one is no IPv4 address.
pub proof fn law_colons_tell_the_families_apart(s: Seq<char>)
    ensures
        s.contains(':') ==> addr::ipv4_of(s) is None,
        !s.contains(':') ==> ipv6_of(s) is None,
{
    if s.contains(':') {
        lemma_colon_is_not_ipv4(s);
    } else {
        let mark = seq![':', ':'];
        assert forall|i: int| 0 <= i <= s.len() - 2 implies #[trigger] s.subrange(i, i + 2)
            != mark by {
            assert(s.subrange(i, i + 2)[0] == s[i]);
            assert(s.contains(s[i]));
        }
        words::lemma_not_at(s, mark);
        words::lemma_parts_one(s, ':');
        assert(seq![s].drop_last().len() == 0);
        reveal_with_fuel(addr::groups, 3);
    }
}

/// The text of an address begins with a digit or a colon.
pub proof fn law_text_begins(ip: IpAddr)
    ensures
        ip.text_spec().len() > 0,
        ip.text_spec()[0] == ':' || text::digit_value(ip.text_spec()[0], 16) is Some,
{
    match ip {
        IpAddr::V4(a) => {
            let o = bytes::be(a as nat, 4);
            bytes::lemma_be(a as nat, 4);
            let d = text::decimal(o[0] as nat);
            text::law_numeral_reads_back(o[0] as nat, 10);
            text::lemma_digits_all(d, 10, 0);
            assert(addr::ipv4_text(a)[0] == d[0]);
        },
        IpAddr::V6(a) => {
            let g = addr::groups(a as nat, 8);
            lemma_groups_value(a as nat, 8);
            let at = addr::longest_zeros(g, 8);
            lemma_longest(g, 8);
            let s = addr::ipv6_text(a);
            if a / 0x1_0000_0000 == 0xffff {
                assert(s[0] == ':');
            } else if addr::zeros_from(g, at) > 1 {
                let head = g.take(at);
                if at > 0 {
                    lemma_colons_begin(head);
                    assert(s[0] == addr::colons(head)[0]);
                } else {
                    assert(addr::colons(head) =~= Seq::<char>::empty());
                    assert(s[0] == ':');
                }
            } else {
                lemma_colons_begin(g);
            }
        },
    }
}

proof fn lemma_colons_begin(g: Seq<nat>)
    requires
        g.len() > 0,
    ensures
        addr::colons(g).len() > 0,
        text::digit_value(addr::colons(g)[0], 16) is Some,
    decreases g.len(),
{
    if g.len() == 1 {
        text::law_numeral_reads_back(g[0], 16);
        text::lemma_digits_all(text::numeral(g[0], 16), 16, 0);
    } else {
        lemma_colons_begin(g.drop_last());
        assert(addr::colons(g)[0] == addr::colons(g.drop_last())[0]);
    }
}

/// Groups with an IPv4 address behind them are read where one may be embedded.
proof fn lemma_groups_with_ipv4(p: Seq<Seq<char>>, a: u32, embed: bool)
    requires
        hex_groups(p),
    ensures
        between_colons(p.push(addr::ipv4_text(a))),
        groups_of_text(text::joined(p.push(addr::ipv4_text(a)), seq![':']), embed) == if embed {
            Some(hex_values(p) + addr::groups(a as nat, 2))
        } else {
            None
        },
{
    let x = addr::ipv4_text(a);
    let q = p.push(x);
    addr::law_ipv4_text_reads_back(a);
    if x.contains(':') {
        lemma_colon_is_not_ipv4(x);
    }
    lemma_ipv4_is_no_group(a);
    lemma_hex_between_colons(p);
    assert forall|i: int| 0 <= i < q.len() implies (#[trigger] q[i]).len() > 0 && !q[i].contains(
        ':',
    ) by {
        if i < p.len() {
            assert(q[i] == p[i]);
        }
    }
    lemma_parts_of_joined(q);
    assert(q.drop_last() =~= p);
    assert(group_values(p) =~= hex_values(p));
}

/// The text of an IPv4 address is no group.
proof fn lemma_ipv4_is_no_group(a: u32)
    ensures
        addr::ipv4_text(a).len() > 4,
        group(addr::ipv4_text(a)) is None,
{
    let o = bytes::be(a as nat, 4);
    bytes::lemma_be(a as nat, 4);
    text::law_numeral_reads_back(o[0] as nat, 10);
    text::law_numeral_reads_back(o[1] as nat, 10);
    text::law_numeral_reads_back(o[2] as nat, 10);
    text::law_numeral_reads_back(o[3] as nat, 10);
}

/// An IPv4 address may stand for the last two of the eight groups, and only there.
pub proof fn law_ipv4_may_end_an_address(p: Seq<Seq<char>>, a: u32)
    requires
        hex_groups(p),
    ensures
        ({
            let s = text::joined(p.push(addr::ipv4_text(a)), seq![':']);
            &&& p.len() == 6 ==> ipv6_of(s) == Some(
                (groups_value(hex_values(p)) * 4294967296 + a) as u128,
            )
            &&& p.len() != 6 ==> ipv6_of(s) is None
        }),
{
    let q = p.push(addr::ipv4_text(a));
    let s = text::joined(q, seq![':']);
    let mark = seq![':', ':'];
    lemma_groups_with_ipv4(p, a, true);
    lemma_parts_of_joined(q);
    assert forall|i: int| 0 <= i <= s.len() - 2 implies #[trigger] s.subrange(i, i + 2)
        != mark by {
        assert(s.subrange(i, i + 2)[0] == s[i]);
        assert(s.subrange(i, i + 2)[1] == s[i + 1]);
    }
    words::lemma_not_at(s, mark);
    lemma_two_groups(a);
    law_groups_add_up(hex_values(p), addr::groups(a as nat, 2));
}

proof fn lemma_two_groups(a: u32)
    ensures
        addr::groups(a as nat, 2).len() == 2,
        groups_value(addr::groups(a as nat, 2)) == a,
        vstd::arithmetic::power::pow(65536, 2) == 4294967296,
{
    lemma_groups_value(a as nat, 2);
    bytes::lemma_capacities();
    reveal_with_fuel(vstd::arithmetic::power::pow, 3);
}

/// An IPv4 address may also end what follows a double colon, but not what stands before it.
pub proof fn law_ipv4_may_end_after_a_double_colon(
    head: Seq<Seq<char>>,
    tail: Seq<Seq<char>>,
    a: u32,
)
    requires
        hex_groups(head),
        hex_groups(tail),
    ensures
        ({
            let h = text::joined(head, seq![':']);
            let t = text::joined(tail.push(addr::ipv4_text(a)), seq![':']);
            let n = head.len() + tail.len() + 2;
            &&& n <= 7 ==> ipv6_of(h + seq![':', ':'] + t) == Some(
                (groups_value(hex_values(head)) * vstd::arithmetic::power::pow(
                    65536,
                    (8 - head.len()) as nat,
                ) + groups_value(hex_values(tail)) * 4294967296 + a) as u128,
            )
            &&& n > 7 ==> ipv6_of(h + seq![':', ':'] + t) is None
            &&& ipv6_of(
                text::joined(head.push(addr::ipv4_text(a)), seq![':']) + seq![':', ':']
                    + text::joined(tail, seq![':']),
            ) is None
        }),
{
    let h = text::joined(head, seq![':']);
    let t = text::joined(tail.push(addr::ipv4_text(a)), seq![':']);
    lemma_hex_between_colons(head);
    lemma_double_colon_at(head, t);
    lemma_groups_of_joined(head, false);
    lemma_groups_with_ipv4(tail, a, true);
    lemma_two_groups(a);
    let b = hex_values(tail) + addr::groups(a as nat, 2);
    if head.len() + tail.len() + 2 <= 7 {
        let z = zero_groups(8 - head.len() - b.len());
        assert(hex_values(head) + z + b =~= hex_values(head) + (z + b));
        law_groups_add_up(hex_values(head), z + b);
        law_groups_add_up(z, b);
        law_groups_add_up(hex_values(tail), addr::groups(a as nat, 2));
        lemma_zero_groups(z.len());
        assert((z + b).len() == 8 - head.len());
        assert(groups_value(z + b) == groups_value(b));
    }
    lemma_groups_with_ipv4(head, a, false);
    lemma_double_colon_at(head.push(addr::ipv4_text(a)), text::joined(tail, seq![':']));
}

/// The first double colon after texts with single colons between them is the one that follows.
proof fn lemma_double_colon_at(p: Seq<Seq<char>>, t: Seq<char>)
    requires
        between_colons(p),
    ensures
        ({
            let h = text::joined(p, seq![':']);
            let s = h + seq![':', ':'] + t;
            &&& words::first_at(s, seq![':', ':']) == Some(h.len())
            &&& s.take(h.len() as int) == h
            &&& s.skip(h.len() as int + 2) == t
        }),
{
    let h = text::joined(p, seq![':']);
    if p.len() > 0 {
        lemma_parts_of_joined(p);
    } else {
        assert(h =~= Seq::<char>::empty());
    }
    lemma_first_double_colon(h, t);
}

} // verus!
