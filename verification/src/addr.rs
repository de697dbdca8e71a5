//! Internet addresses and their texts.
use crate::bytes;
use crate::text;
use crate::words;
use vstd::prelude::*;

verus! {

/// An address of either family, as the number that its octets write in network order.
#[derive(Clone, Copy, Debug, PartialEq, Eq, Structural)]
pub enum IpAddr {
    V4(u32),
    V6(u128),
}

/// The text of four octets: decimal numerals with dots between.
pub open spec fn dotted(o: Seq<u8>) -> Seq<char> {
    text::decimal(o[0] as nat) + seq!['.'] + text::decimal(o[1] as nat) + seq!['.'] + text::decimal(
        o[2] as nat,
    ) + seq!['.'] + text::decimal(o[3] as nat)
}

/// The text of an IPv4 address.
pub open spec fn ipv4_text(a: u32) -> Seq<char> {
    dotted(bytes::be(a as nat, 4))
}

/// `v` as `k` groups of sixteen bits, most significant group first.
pub open spec fn groups(v: nat, k: nat) -> Seq<nat>
    decreases k,
{
    if k == 0 {
        Seq::empty()
    } else {
        groups(v / 0x1_0000, (k - 1) as nat).push(v % 0x1_0000)
    }
}

/// Groups as numbers.
pub open spec fn widened(g: Seq<u16>) -> Seq<nat> {
    g.map_values(|x: u16| x as nat)
}

/// The hexadecimal numerals of the groups, with colons between.
pub open spec fn colons(g: Seq<nat>) -> Seq<char>
    decreases g.len(),
{
    if g.len() == 0 {
        Seq::empty()
    } else if g.len() == 1 {
        text::numeral(g[0], 16)
    } else {
        colons(g.drop_last()) + seq![':'] + text::numeral(g.last(), 16)
    }
}

/// How many groups in a row are zero from the `i`-th on.
pub open spec fn zeros_from(g: Seq<nat>, i: int) -> nat
    decreases g.len() - i,
{
    if 0 <= i < g.len() && g[i] == 0 {
        1 + zeros_from(g, i + 1)
    } else {
        0
    }
}

/// Where the longest run of zeros among those that begin before `k` begins; the first
/// such place.
pub open spec fn longest_zeros(g: Seq<nat>, k: nat) -> int
    decreases k,
{
    if k == 0 {
        0
    } else {
        let best = longest_zeros(g, (k - 1) as nat);
        if zeros_from(g, k - 1) > zeros_from(g, best) {
            k - 1
        } else {
            best
        }
    }
}

/// The text of an IPv6 address: the first longest run of two or more zero groups is
/// shortened to a double colon, and an embedded IPv4 address keeps its own text.
pub open spec fn ipv6_text(a: u128) -> Seq<char> {
    let g = groups(a as nat, 8);
    let at = longest_zeros(g, 8);
    let n = zeros_from(g, at) as int;
    if a / 0x1_0000_0000 == 0xffff {
        seq![':', ':', 'f', 'f', 'f', 'f', ':'] + ipv4_text((a % 0x1_0000_0000) as u32)
    } else if n > 1 {
        colons(g.take(at)) + seq![':', ':'] + colons(g.skip(at + n))
    } else {
        colons(g)
    }
}

impl IpAddr {
    /// The octets in network order.
    pub open spec fn octets_spec(self) -> Seq<u8> {
        match self {
            IpAddr::V4(a) => bytes::be(a as nat, 4),
            IpAddr::V6(a) => bytes::be(a as nat, 16),
        }
    }

    /// The text of the address.
    pub open spec fn text_spec(self) -> Seq<char> {
        match self {
            IpAddr::V4(a) => ipv4_text(a),
            IpAddr::V6(a) => ipv6_text(a),
        }
    }

    /// Whether this is an IPv6 address.
    pub fn is_ipv6(&self) -> (r: bool)
        ensures
            r == (*self is V6),
    {
        match self {
            IpAddr::V4(_) => false,
            IpAddr::V6(_) => true,
        }
    }

    /// The octets of the address: four or sixteen.
    pub fn octets(&self) -> (r: Vec<u8>)
        ensures
            r@ == self.octets_spec(),
    {
        let mut r: Vec<u8> = Vec::new();
        match self {
            IpAddr::V4(a) => bytes::push_be(&mut r, *a as u128, 4),
            IpAddr::V6(a) => bytes::push_be(&mut r, *a, 16),
        }
        assert(r@ =~= self.octets_spec());
        r
    }

    /// The text of the address.
    pub fn text(&self) -> (r: String)
        ensures
            r@ == self.text_spec(),
    {
        let mut r = String::new();
        match self {
            IpAddr::V4(a) => push_ipv4(&mut r, *a),
            IpAddr::V6(a) => push_ipv6(&mut r, *a),
        }
        assert(r@ =~= self.text_spec());
        r
    }
}

fn push_ipv4(out: &mut String, a: u32)
    ensures
        final(out)@ == old(out)@ + ipv4_text(a),
{
    let mut o: Vec<u8> = Vec::new();
    bytes::push_be(&mut o, a as u128, 4);
    proof {
        bytes::lemma_be(a as nat, 4);
        assert(o@ =~= bytes::be(a as nat, 4));
    }
    text::push_numeral(out, o[0] as u64, 10);
    out.push('.');
    text::push_numeral(out, o[1] as u64, 10);
    out.push('.');
    text::push_numeral(out, o[2] as u64, 10);
    out.push('.');
    text::push_numeral(out, o[3] as u64, 10);
    assert(out@ =~= old(out)@ + ipv4_text(a));
}

/// The groups of `v`, see [`groups`].
fn groups_of(v: u128, k: usize) -> (r: Vec<u16>)
    ensures
        r@.len() == k,
        groups(v as nat, k as nat) == widened(r@),
    decreases k,
{
    if k == 0 {
        let r: Vec<u16> = Vec::new();
        assert(groups(v as nat, k as nat) =~= widened(r@));
        r
    } else {
        let mut r = groups_of(v / 0x1_0000, k - 1);
        r.push((v % 0x1_0000) as u16);
        assert(groups(v as nat, k as nat) =~= widened(r@));
        r
    }
}

fn push_colons(out: &mut String, g: &[u16], from: usize, to: usize)
    requires
        from <= to <= g@.len(),
    ensures
        final(out)@ == old(out)@ + colons(
            widened(g@.subrange(from as int, to as int)),
        ),
{
    let ghost before = out@;
    assert(before =~= before + colons(
        widened(g@.subrange(from as int, from as int)),
    ));
    for i in from..to
        invariant
            from <= to <= g@.len(),
            out@ == before + colons(
                widened(g@.subrange(from as int, i as int)),
            ),
    {
        let ghost part = widened(g@.subrange(from as int, i as int));
        let ghost next = widened(g@.subrange(from as int, i + 1));
        assert(next.drop_last() =~= part);
        if i > from {
            out.push(':');
        }
        text::push_numeral(out, g[i] as u64, 16);
        assert(next.last() == g@[i as int] as nat);
        assert(out@ =~= before + colons(next));
    }
}

fn count_zeros(g: &[u16], at: usize) -> (r: usize)
    requires
        at <= g@.len(),
    ensures
        r == zeros_from(widened(g@), at as int),
        at + r <= g@.len(),
{
    let ghost v = widened(g@);
    let mut i: usize = at;
    while i < g.len() && g[i] == 0
        invariant
            at <= i <= g@.len(),
            v == widened(g@),
            i - at + zeros_from(v, i as int) == zeros_from(v, at as int),
        decreases g@.len() - i,
    {
        i += 1;
    }
    i - at
}

fn push_ipv6(out: &mut String, a: u128)
    ensures
        final(out)@ == old(out)@ + ipv6_text(a),
{
    if a / 0x1_0000_0000 == 0xffff {
        out.append("::ffff:");
        proof {
            reveal_strlit("::ffff:");
            assert("::ffff:"@ =~= seq![':', ':', 'f', 'f', 'f', 'f', ':']);
        }
        push_ipv4(out, (a % 0x1_0000_0000) as u32);
        assert(out@ =~= old(out)@ + ipv6_text(a));
        return;
    }
    let g = groups_of(a, 8);
    let ghost v = groups(a as nat, 8);
    let mut at: usize = 0;
    let mut n: usize = count_zeros(g.as_slice(), 0);
    for k in 0..8
        invariant
            g@.len() == 8,
            v == widened(g@),
            at == longest_zeros(v, k as nat),
            n == zeros_from(v, at as int),
            at + n <= 8,
    {
        let m: usize = count_zeros(g.as_slice(), k);
        if m > n {
            at = k;
            n = m;
        }
    }
    if n > 1 {
        push_colons(out, g.as_slice(), 0, at);
        out.push(':');
        out.push(':');
        push_colons(out, g.as_slice(), at + n, 8);
        assert(widened(g@.subrange(0, at as int)) =~= v.take(at as int));
        assert(widened(g@.subrange(at + n, 8)) =~= v.skip(at + n));
    } else {
        push_colons(out, g.as_slice(), 0, 8);
        assert(widened(g@.subrange(0, 8)) =~= v);
    }
    assert(out@ =~= old(out)@ + ipv6_text(a));
}

/// The octet that `p` writes: a decimal numeral of at most three digits, below 256 and
/// without leading zeros.
pub open spec fn octet(p: Seq<char>) -> Option<u8> {
    if 1 <= p.len() <= 3 && (p.len() == 1 || p[0] != '0') {
        match text::digits_value(p, 10) {
            Some(v) => if v <= 255 {
                Some(v as u8)
            } else {
                None
            },
            None => None,
        }
    } else {
        None
    }
}

/// The IPv4 address that `s` writes: four octets with dots between.
pub open spec fn ipv4_of(s: Seq<char>) -> Option<u32> {
    let p = words::parts(s, '.');
    if p.len() == 4 {
        match (octet(p[0]), octet(p[1]), octet(p[2]), octet(p[3])) {
            (Some(a), Some(b), Some(c), Some(d)) => Some(bytes::be_value(seq![a, b, c, d]) as u32),
            _ => None,
        }
    } else {
        None
    }
}

fn parse_octet(p: &[char]) -> (r: Option<u8>)
    ensures
        r == octet(p@),
{
    if p.len() < 1 || p.len() > 3 || (p.len() > 1 && p[0] == '0') {
        return None;
    }
    if p[0] == '+' {
        proof {
            text::lemma_digits_all(p@, 10, 0);
        }
        return None;
    }
    match text::parse_number(p, 10, 255) {
        Some(v) => Some(v as u8),
        None => None,
    }
}

/// Reads an IPv4 address.
pub fn parse_ipv4(chars: &[char]) -> (r: Option<u32>)
    ensures
        r == ipv4_of(chars@),
{
    let p = words::split_parts(chars, '.');
    let ghost v = words::parts(chars@, '.');
    assert(v.len() == p@.len());
    assert(forall|i: int| 0 <= i < p@.len() ==> v[i] == #[trigger] p@[i]@);
    if p.len() != 4 {
        return None;
    }
    match (
        parse_octet(p[0].as_slice()),
        parse_octet(p[1].as_slice()),
        parse_octet(p[2].as_slice()),
        parse_octet(p[3].as_slice()),
    ) {
        (Some(a), Some(b), Some(c), Some(d)) => {
            let mut o: Vec<u8> = Vec::new();
            o.push(a);
            o.push(b);
            o.push(c);
            o.push(d);
            assert(o@ =~= seq![a, b, c, d]);
            let r: u64 = bytes::read_be(o.as_slice(), 0, 4);
            proof {
                assert(o@.subrange(0, 4) =~= o@);
                bytes::lemma_value_bound(o@);
                bytes::lemma_capacities();
            }
            Some(r as u32)
        },
        _ => None,
    }
}

/// The decimal numeral of an octet reads back as that octet.
proof fn lemma_octet_text(n: u8)
    ensures
        octet(text::decimal(n as nat)) == Some(n),
        text::decimal(n as nat).len() > 0,
        !text::decimal(n as nat).contains('.'),
        !text::decimal(n as nat).contains(':'),
{
    let d = text::decimal(n as nat);
    let v = n as nat;
    reveal_with_fuel(text::numeral, 3);
    reveal_with_fuel(text::digits_value, 4);
    if v < 10 {
        assert(d =~= seq![text::digit_char(v)]);
        assert(d.drop_last() =~= Seq::<char>::empty());
    } else if v < 100 {
        assert(d =~= seq![text::digit_char(v / 10), text::digit_char(v % 10)]);
        assert(d.drop_last() =~= seq![text::digit_char(v / 10)]);
        assert(d.drop_last().drop_last() =~= Seq::<char>::empty());
    } else {
        assert(v / 10 / 10 < 10);
        assert(d =~= seq![
            text::digit_char(v / 10 / 10),
            text::digit_char(v / 10 % 10),
            text::digit_char(v % 10),
        ]);
        assert(d.drop_last() =~= seq![
            text::digit_char(v / 10 / 10),
            text::digit_char(v / 10 % 10),
        ]);
        assert(d.drop_last().drop_last() =~= seq![text::digit_char(v / 10 / 10)]);
        assert(d.drop_last().drop_last().drop_last() =~= Seq::<char>::empty());
    }
}

/// The text of an IPv4 address has at least seven characters, none of them a colon.
pub proof fn lemma_ipv4_text(a: u32)
    ensures
        ipv4_text(a).len() >= 7,
        !ipv4_text(a).contains(':'),
{
    let o = bytes::be(a as nat, 4);
    bytes::lemma_be(a as nat, 4);
    lemma_octet_text(o[0]);
    lemma_octet_text(o[1]);
    lemma_octet_text(o[2]);
    lemma_octet_text(o[3]);
}

/// The text of an IPv4 address reads back as that address.
pub proof fn law_ipv4_text_reads_back(a: u32)
    ensures
        ipv4_of(ipv4_text(a)) == Some(a),
{
    let o = bytes::be(a as nat, 4);
    bytes::lemma_be(a as nat, 4);
    bytes::lemma_capacities();
    let d0 = text::decimal(o[0] as nat);
    let d1 = text::decimal(o[1] as nat);
    let d2 = text::decimal(o[2] as nat);
    let d3 = text::decimal(o[3] as nat);
    lemma_octet_text(o[0]);
    lemma_octet_text(o[1]);
    lemma_octet_text(o[2]);
    lemma_octet_text(o[3]);
    let r2 = d2 + seq!['.'] + d3;
    let r1 = d1 + seq!['.'] + r2;
    assert(ipv4_text(a) =~= d0 + seq!['.'] + r1);
    words::lemma_parts_cons(d0, r1, '.');
    words::lemma_parts_cons(d1, r2, '.');
    words::lemma_parts_cons(d2, d3, '.');
    words::lemma_parts_one(d3, '.');
    assert(words::parts(ipv4_text(a), '.') =~= seq![d0, d1, d2, d3]);
    assert(seq![o[0], o[1], o[2], o[3]] =~= o);
}

/// The text of an IPv4 address holds digits and dots alone.
pub proof fn lemma_ipv4_text_chars(a: u32, c: char)
    requires
        c != '.',
        text::digit_value(c, 10) is None,
    ensures
        !ipv4_text(a).contains(c),
{
    let o = bytes::be(a as nat, 4);
    bytes::lemma_be(a as nat, 4);
    lemma_numeral_chars(o[0] as nat, c);
    lemma_numeral_chars(o[1] as nat, c);
    lemma_numeral_chars(o[2] as nat, c);
    lemma_numeral_chars(o[3] as nat, c);
}

proof fn lemma_numeral_chars(n: nat, c: char)
    requires
        text::digit_value(c, 10) is None,
    ensures
        !text::decimal(n).contains(c),
{
    let s = text::decimal(n);
    text::law_numeral_reads_back(n, 10);
    if s.contains(c) {
        let i = choose|i: int| 0 <= i < s.len() && s[i] == c;
        text::lemma_digits_all(s, 10, i);
    }
}

/// The octets are those of the number in network order: four of them or sixteen.
pub proof fn law_octets_are_the_number(ip: IpAddr)
    ensures
        match ip {
            IpAddr::V4(a) => ip.octets_spec().len() == 4 && bytes::be_value(ip.octets_spec()) == a,
            IpAddr::V6(a) => ip.octets_spec().len() == 16 && bytes::be_value(ip.octets_spec())
                == a,
        },
{
    bytes::lemma_capacities();
    match ip {
        IpAddr::V4(a) => bytes::lemma_be(a as nat, 4),
        IpAddr::V6(a) => bytes::lemma_be(a as nat, 16),
    }
}

/// The text of an IPv4 address is the numerals of its four bytes, the most significant first, with
/// dots between.
pub proof fn law_ipv4_text_is_four_numerals(a: u32)
    ensures
        ipv4_text(a) == text::joined(
            seq![
                text::decimal(a as nat / 16777216),
                text::decimal(a as nat / 65536 % 256),
                text::decimal(a as nat / 256 % 256),
                text::decimal(a as nat % 256),
            ],
            seq!['.'],
        ),
{
    reveal_with_fuel(bytes::be, 5);
    let o = bytes::be(a as nat, 4);
    let n = a as nat;
    assert(n / 256 / 256 == n / 65536);
    assert(n / 256 / 256 / 256 == n / 16777216);
    assert(o[0] == n / 16777216 && o[1] == n / 65536 % 256 && o[2] == n / 256 % 256 && o[3] == n
        % 256);
    let w = text::decimal(o[0] as nat);
    let x = text::decimal(o[1] as nat);
    let y = text::decimal(o[2] as nat);
    let z = text::decimal(o[3] as nat);
    let dot = seq!['.'];
    text::law_joining_goes_piece_by_piece(seq![w], seq![x], dot);
    text::law_joining_goes_piece_by_piece(seq![x], seq![y], dot);
    text::law_joining_goes_piece_by_piece(seq![y], seq![z], dot);
    text::law_joining_goes_piece_by_piece(seq![z], seq![z], dot);
    assert(seq![w] + seq![x] =~= seq![w, x]);
    text::law_joining_goes_piece_by_piece(seq![w, x], seq![y], dot);
    assert(seq![w, x] + seq![y] =~= seq![w, x, y]);
    text::law_joining_goes_piece_by_piece(seq![w, x, y], seq![z], dot);
    assert(seq![w, x, y] + seq![z] =~= seq![w, x, y, z]);
    assert(ipv4_text(a) =~= text::joined(seq![w, x, y, z], dot));
}

proof fn lemma_octet_is_numeral(p: Seq<char>)
    ensures
        octet(p) matches Some(v) ==> p == text::decimal(v as nat),
{
    if let Some(v) = octet(p) {
        text::law_only_the_numeral_is_read(p, v as nat);
    }
}

/// An IPv4 address is read from its own text and from no other.
pub proof fn law_ipv4_is_read_from_its_text_alone(s: Seq<char>, a: u32)
    ensures
        ipv4_of(s) == Some(a) <==> s == ipv4_text(a),
{
    law_ipv4_text_reads_back(a);
    if ipv4_of(s) == Some(a) {
        let p = words::parts(s, '.');
        words::law_parts_join_again(s, '.');
        lemma_octet_is_numeral(p[0]);
        lemma_octet_is_numeral(p[1]);
        lemma_octet_is_numeral(p[2]);
        lemma_octet_is_numeral(p[3]);
        let o = seq![octet(p[0])->0, octet(p[1])->0, octet(p[2])->0, octet(p[3])->0];
        bytes::lemma_value_bound(o);
        bytes::lemma_capacities();
        bytes::lemma_be_unique(o);
        assert(bytes::be(a as nat, 4) == o);
        let dot = seq!['.'];
        text::law_joining_goes_piece_by_piece(seq![p[0]], seq![p[1]], dot);
        text::law_joining_goes_piece_by_piece(seq![p[1]], seq![p[2]], dot);
        text::law_joining_goes_piece_by_piece(seq![p[2]], seq![p[3]], dot);
        text::law_joining_goes_piece_by_piece(seq![p[3]], seq![p[3]], dot);
        assert(seq![p[0]] + seq![p[1]] =~= seq![p[0], p[1]]);
        text::law_joining_goes_piece_by_piece(seq![p[0], p[1]], seq![p[2]], dot);
        assert(seq![p[0], p[1]] + seq![p[2]] =~= seq![p[0], p[1], p[2]]);
        text::law_joining_goes_piece_by_piece(seq![p[0], p[1], p[2]], seq![p[3]], dot);
        assert(seq![p[0], p[1], p[2]] + seq![p[3]] =~= p);
        assert(s =~= ipv4_text(a));
    }
}

/// The groups of a number go by places: the last one is its remainder modulo 65536, and the others
/// are the groups of what is left.
pub proof fn law_groups_go_by_places(v: nat, k: nat, i: int)
    requires
        0 <= i < k,
    ensures
        groups(v, k).len() == k,
        groups(v, k)[i] == v / (vstd::arithmetic::power::pow(65536, (k - 1 - i) as nat) as nat)
            % 65536,
    decreases k,
{
    vstd::arithmetic::power::lemma_pow0(65536);
    vstd::arithmetic::power::lemma_pow_positive(65536, (k - 1 - i) as nat);
    lemma_groups_len(v, k);
    if i < k - 1 {
        let p = vstd::arithmetic::power::pow(65536, (k - 2 - i) as nat);
        law_groups_go_by_places(v / 65536, (k - 1) as nat, i);
        lemma_groups_len(v / 65536, (k - 1) as nat);
        reveal(vstd::arithmetic::power::pow);
        vstd::arithmetic::power::lemma_pow_positive(65536, (k - 2 - i) as nat);
        assert(vstd::arithmetic::power::pow(65536, (k - 1 - i) as nat) == 65536 * p);
        vstd::arithmetic::div_mod::lemma_div_denominator(v as int, 65536, p);
        assert(v as int / (65536 * p) == (v / 65536) as int / p);
        assert(groups(v, k)[i] == groups(v / 65536, (k - 1) as nat)[i]);
    } else {
        assert(v / 1 == v);
    }
}

proof fn lemma_groups_len(v: nat, k: nat)
    ensures
        groups(v, k).len() == k,
    decreases k,
{
    if k > 0 {
        lemma_groups_len(v / 65536, (k - 1) as nat);
    }
}

/// Whether the groups from `at` on are zero, `n` of them.
pub open spec fn zero_run(g: Seq<nat>, at: int, n: int) -> bool {
    0 <= at && 0 <= n && at + n <= g.len() && forall|i: int|
        at <= i < at + n ==> #[trigger] g[i] == 0
}

proof fn lemma_zeros_from(g: Seq<nat>, at: int, n: int)
    requires
        0 <= at <= g.len(),
        0 <= n,
    ensures
        zero_run(g, at, zeros_from(g, at) as int),
        zero_run(g, at, n) ==> n <= zeros_from(g, at),
    decreases g.len() - at,
{
    if at < g.len() && g[at] == 0 {
        lemma_zeros_from(
            g,
            at + 1,
            if n > 0 {
                n - 1
            } else {
                0
            },
        );
        if zero_run(g, at, n) && n > 0 {
            assert(zero_run(g, at + 1, n - 1));
        }
        let m = zeros_from(g, at + 1) as int;
        assert forall|i: int| at <= i < at + 1 + m implies #[trigger] g[i] == 0 by {
            if i > at {
                assert(g[i] == 0);
            }
        }
    } else if zero_run(g, at, n) && n > 0 {
        assert(g[at] == 0);
    }
}

proof fn lemma_longest_zeros(g: Seq<nat>, k: nat, j: int)
    requires
        k <= g.len(),
        0 <= j < k,
    ensures
        0 <= longest_zeros(g, k) < k,
        zeros_from(g, j) <= zeros_from(g, longest_zeros(g, k)),
        j < longest_zeros(g, k) ==> zeros_from(g, j) < zeros_from(g, longest_zeros(g, k)),
    decreases k,
{
    if k > 1 {
        lemma_longest_zeros(
            g,
            (k - 1) as nat,
            if j < k - 1 {
                j
            } else {
                0
            },
        );
        let best = longest_zeros(g, (k - 1) as nat);
        lemma_longest_zeros(g, (k - 1) as nat, best);
    } else {
        reveal_with_fuel(longest_zeros, 2);
    }
}

/// The double colon of an IPv6 text stands for the longest run of zero groups, the first one of
/// that length, and for at least two; the groups before and after it are written out. It stands
/// `at` that place for `n` groups; `n` is zero where the text has none.
pub proof fn law_double_colon_stands_for_the_longest_run(a: u128) -> (r: (int, int))
    requires
        a / 0x1_0000_0000 != 0xffff,
    ensures
        ({
            let g = groups(a as nat, 8);
            let (at, n) = r;
            &&& n != 1
            &&& zero_run(g, at, n)
            &&& n > 0 ==> ipv6_text(a) == colons(g.take(at)) + seq![':', ':'] + colons(
                g.skip(at + n),
            )
            &&& n == 0 ==> ipv6_text(a) == colons(g)
            &&& forall|j: int, m: int|
                m >= 2 && #[trigger] zero_run(g, j, m) ==> m <= n && (j < at ==> m < n)
        }),
{
    let g = groups(a as nat, 8);
    lemma_groups_len(a as nat, 8);
    let at = longest_zeros(g, 8);
    lemma_longest_zeros(g, 8, 0);
    lemma_zeros_from(g, at, 0);
    let best = zeros_from(g, at) as int;
    assert forall|j: int, m: int| m >= 2 && #[trigger] zero_run(g, j, m) implies m <= best && (j
        < at ==> m < best) by {
        lemma_zeros_from(g, j, m);
        lemma_longest_zeros(g, 8, j);
    }
    if best > 1 {
        (at, best)
    } else {
        (at, 0)
    }
}

/// The text of an IPv4-mapped address is its prefix and the text of the IPv4 address.
pub proof fn law_mapped_text(a: u32)
    ensures
        ipv6_text((0xffff_0000_0000 + a) as u128) == seq![':', ':', 'f', 'f', 'f', 'f', ':']
            + ipv4_text(a),
{
    let m = (0xffff_0000_0000 + a) as u128;
    assert(m / 0x1_0000_0000 == 0xffff);
    assert(m % 0x1_0000_0000 == a);
}

/// Written out, groups are their hexadecimal numerals with colons between.
pub proof fn law_groups_are_written_with_colons(g: Seq<nat>)
    ensures
        colons(g) == text::joined(g.map_values(|x: nat| text::numeral(x, 16)), seq![':']),
    decreases g.len(),
{
    let p = g.map_values(|x: nat| text::numeral(x, 16));
    if g.len() > 0 {
        let q = g.drop_last().map_values(|x: nat| text::numeral(x, 16));
        law_groups_are_written_with_colons(g.drop_last());
        assert(p.drop_last() =~= q);
        if g.len() == 1 {
            assert(q =~= Seq::<Seq<char>>::empty());
            assert(text::joined(q, seq![':']) =~= Seq::<char>::empty());
        }
    }
    assert(colons(g) =~= text::joined(p, seq![':']));
}

} // verus!
