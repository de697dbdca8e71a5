//! Echo messages: building probes, checking replies.
use crate::addr::IpAddr;
use crate::bytes;
use crate::results;
use crate::results::Results;
use vstd::prelude::*;

verus! {

/// Marks the payload of a probe.
pub const MAGIC: u32 = 0x5046_5031;

/// Length of the echo header.
pub const HDR: usize = 8;

pub const ICMP4_ECHO: u8 = 8;

pub const ICMP4_REPLY: u8 = 0;

pub const ICMP6_ECHO: u8 = 128;

pub const ICMP6_REPLY: u8 = 129;

/// The least payload: magic, index, cookie (four bytes each) and the time stamp (eight).
pub const PAYLOAD_MIN: usize = 20;

/// The 32-bit FNV-1a hash of `s`.
pub open spec fn fnv(s: Seq<u8>) -> u32
    decreases s.len(),
{
    if s.len() == 0 {
        0x811c_9dc5
    } else {
        (((fnv(s.drop_last()) ^ s.last() as u32) * 0x0100_0193) % 0x1_0000_0000) as u32
    }
}

/// The 32-bit FNV-1a hash of `bytes`.
pub fn fnv1a32(bytes: &[u8]) -> (h: u32)
    ensures
        h == fnv(bytes@),
{
    let mut h: u32 = 0x811c_9dc5;
    for i in 0..bytes.len()
        invariant
            h == fnv(bytes@.take(i as int)),
    {
        assert(bytes@.take(i + 1).drop_last() =~= bytes@.take(i as int));
        h = (h ^ bytes[i] as u32).wrapping_mul(0x0100_0193);
    }
    assert(bytes@.take(bytes@.len() as int) =~= bytes@);
    h
}

/// What a cookie is the hash of.
pub open spec fn cookie_bytes(ip: IpAddr, secret: u32) -> Seq<u8> {
    ip.octets_spec() + bytes::le(secret as nat, 4)
}

/// The cookie of `ip`: the hash of its octets and the secret of the run.
pub open spec fn cookie(ip: IpAddr, secret: u32) -> u32 {
    fnv(cookie_bytes(ip, secret))
}

/// The cookie that a reply from `ip` must carry.
pub fn cookie_for(ip: IpAddr, secret: u32) -> (c: u32)
    ensures
        c == cookie(ip, secret),
{
    let mut buf = ip.octets();
    bytes::push_le(&mut buf, secret as u128, 4);
    fnv1a32(buf.as_slice())
}

/// The sum of the 16-bit words of `data` in network order; an odd byte at the end is the
/// upper half of a word.
pub open spec fn word_sum(data: Seq<u8>) -> nat
    decreases data.len(),
{
    if data.len() == 0 {
        0
    } else if data.len() == 1 {
        data[0] as nat * 256
    } else {
        data[0] as nat * 256 + data[1] as nat + word_sum(data.skip(2))
    }
}

/// `n` folded to 16 bits with end-around carry: zero stays zero, any other number becomes
/// the one from 1 to 65535 that leaves the same remainder modulo 65535.
pub open spec fn fold(n: nat) -> nat {
    if n == 0 {
        0
    } else {
        ((n - 1) % 0xffff + 1) as nat
    }
}

/// The Internet checksum: the complement of the folded sum.
pub open spec fn internet_checksum(data: Seq<u8>) -> u16 {
    (0xffff - fold(word_sum(data))) as u16
}

/// The Internet checksum (RFC 1071) of `data`.
pub fn checksum(data: &[u8]) -> (c: u16)
    ensures
        c == internet_checksum(data@),
{
    let mut sum: u32 = 0;
    let mut i: usize = 0;
    assert(data@.skip(0) =~= data@);
    while i < data.len()
        invariant
            i <= data.len(),
            sum <= 0xffff,
            fold(sum as nat + word_sum(data@.skip(i as int))) == fold(word_sum(data@)),
        decreases data.len() - i,
    {
        let ghost rest = data@.skip(i as int);
        if data.len() - i >= 2 {
            sum = sum + data[i] as u32 * 256 + data[i + 1] as u32;
            i += 2;
            assert(rest.skip(2) =~= data@.skip(i as int));
        } else {
            sum = sum + data[i] as u32 * 256;
            i += 1;
            assert(data@.skip(i as int) =~= Seq::<u8>::empty());
        }
        let ghost left = word_sum(data@.skip(i as int));
        if sum > 0xffff {
            assert(fold((sum - 0xffff) as nat + left) == fold(sum as nat + left));
            sum = sum - 0xffff;
        }
    }
    assert(data@.skip(i as int) =~= Seq::<u8>::empty());
    (0xffff - sum) as u16
}

/// What follows the checksum in a probe: run, round, magic, index, cookie, time stamp and
/// the padding to the payload length.
pub open spec fn echo_tail(
    run_id: u16,
    round: u16,
    idx: u32,
    cookie: u32,
    ts: u64,
    payload: usize,
) -> Seq<u8> {
    bytes::be(run_id as nat, 2) + bytes::be(round as nat, 2) + bytes::be(MAGIC as nat, 4)
        + bytes::be(idx as nat, 4) + bytes::be(cookie as nat, 4) + bytes::be(ts as nat, 8)
        + Seq::new(
        if payload > 20 {
            (payload - 20) as nat
        } else {
            0
        },
        |i: int| 0u8,
    )
}

/// An echo message of the given type with code zero.
pub open spec fn echo_message(kind: u8, check: u16, tail: Seq<u8>) -> Seq<u8> {
    seq![kind, 0u8] + bytes::be(check as nat, 2) + tail
}

/// The probe: an echo request whose checksum is the Internet checksum for IPv4 and is left
/// zero for IPv6.
pub open spec fn echo_request(
    v6: bool,
    run_id: u16,
    round: u16,
    idx: u32,
    cookie: u32,
    ts: u64,
    payload: usize,
) -> Seq<u8> {
    let tail = echo_tail(run_id, round, idx, cookie, ts, payload);
    if v6 {
        echo_message(ICMP6_ECHO, 0, tail)
    } else {
        echo_message(ICMP4_ECHO, internet_checksum(echo_message(ICMP4_ECHO, 0, tail)), tail)
    }
}

fn echo_request_bytes(
    v6: bool,
    run_id: u16,
    round: u16,
    idx: u32,
    cookie: u32,
    ts: u64,
    payload: usize,
) -> (pkt: Vec<u8>)
    requires
        payload + HDR <= isize::MAX,
    ensures
        pkt@ == echo_request(v6, run_id, round, idx, cookie, ts, payload),
        pkt@.len() == HDR + if payload > PAYLOAD_MIN {
            payload
        } else {
            PAYLOAD_MIN
        },
{
    let kind: u8 = if v6 {
        ICMP6_ECHO
    } else {
        ICMP4_ECHO
    };
    let ghost tail = echo_tail(run_id, round, idx, cookie, ts, payload);
    let mut pkt: Vec<u8> = Vec::new();
    pkt.push(kind);
    pkt.push(0);
    bytes::push_be(&mut pkt, 0, 2);
    bytes::push_be(&mut pkt, run_id as u128, 2);
    bytes::push_be(&mut pkt, round as u128, 2);
    bytes::push_be(&mut pkt, MAGIC as u128, 4);
    bytes::push_be(&mut pkt, idx as u128, 4);
    bytes::push_be(&mut pkt, cookie as u128, 4);
    bytes::push_be(&mut pkt, ts as u128, 8);
    let pad: usize = if payload > PAYLOAD_MIN {
        payload - PAYLOAD_MIN
    } else {
        0
    };
    let ghost head = pkt@;
    assert(head + Seq::new(0, |i: int| 0u8) =~= head);
    for p in 0..pad
        invariant
            pkt@ == head + Seq::new(p as nat, |i: int| 0u8),
    {
        pkt.push(0);
        assert(pkt@ =~= head + Seq::new((p + 1) as nat, |i: int| 0u8));
    }
    proof {
        lemma_echo_tail_len(run_id, round, idx, cookie, ts, payload);
        bytes::lemma_be(0, 2);
        assert(pkt@ =~= echo_message(kind, 0, tail));
    }
    if !v6 {
        let check: u16 = checksum(pkt.as_slice());
        pkt.set(2, (check / 256) as u8);
        pkt.set(3, (check % 256) as u8);
        proof {
            reveal_with_fuel(bytes::be, 3);
            assert(bytes::be(check as nat, 2) =~= seq![(check / 256) as u8, (check % 256) as u8]);
            assert(pkt@ =~= echo_message(kind, check, tail));
        }
    }
    pkt
}

/// Builds the ICMP(v6) echo request, header and payload. The checksum of an ICMPv6 message
/// covers a pseudo-header that the kernel knows, so the kernel fills it in.
pub fn build_icmp(
    v6: bool,
    run_id: u16,
    round: u16,
    idx: u32,
    cookie: u32,
    ts: u64,
    payload: usize,
) -> (pkt: Vec<u8>)
    requires
        payload + HDR <= isize::MAX,
    ensures
        pkt@ == echo_request(v6, run_id, round, idx, cookie, ts, payload),
        pkt@.len() == HDR + if payload > PAYLOAD_MIN {
            payload
        } else {
            PAYLOAD_MIN
        },
{
    echo_request_bytes(v6, run_id, round, idx, cookie, ts, payload)
}

proof fn lemma_echo_tail_len(
    run_id: u16,
    round: u16,
    idx: u32,
    cookie: u32,
    ts: u64,
    payload: usize,
)
    ensures
        echo_tail(run_id, round, idx, cookie, ts, payload).len() == 4 + if payload > 20 {
            payload
        } else {
            20
        },
{
    bytes::lemma_be(run_id as nat, 2);
    bytes::lemma_be(round as nat, 2);
    bytes::lemma_be(MAGIC as nat, 4);
    bytes::lemma_be(idx as nat, 4);
    bytes::lemma_be(cookie as nat, 4);
    bytes::lemma_be(ts as nat, 8);
}

/// What a reply says, if it answers a probe of this run: the round, the index of the
/// target and the round-trip time in microseconds.
///
/// It must be an echo reply of either family with room for the payload, carry the run and
/// the magic, name a target of the batch, come from that target and carry its cookie.
pub open spec fn reply_score(
    msg: Seq<u8>,
    src: IpAddr,
    targets: Seq<IpAddr>,
    run_id: u16,
    secret: u32,
    now_ns: u64,
) -> Option<(usize, usize, i64)> {
    let round = bytes::be_value(msg.subrange(6, 8));
    let idx = bytes::be_value(msg.subrange(12, 16));
    let ts = bytes::be_value(msg.subrange(20, 28));
    if msg.len() >= HDR + PAYLOAD_MIN && (msg[0] == ICMP4_REPLY || msg[0] == ICMP6_REPLY)
        && bytes::be_value(msg.subrange(4, 6)) == run_id && bytes::be_value(msg.subrange(8, 12))
        == MAGIC && idx < targets.len() && src == targets[idx as int] && bytes::be_value(
        msg.subrange(16, 20),
    ) == cookie(targets[idx as int], secret) {
        Some((round as usize, idx as usize, rtt_us(ts, now_ns as nat) as i64))
    } else {
        None
    }
}

/// Whole microseconds from `ts` to `now`, in nanoseconds both; zero if `ts` is later.
pub open spec fn rtt_us(ts: nat, now: nat) -> nat {
    if now >= ts {
        ((now - ts) / 1000) as nat
    } else {
        0
    }
}

/// Checks one received ICMP message against the run, see [`reply_score`].
pub fn validate(
    msg: &[u8],
    src: IpAddr,
    targets: &[IpAddr],
    run_id: u16,
    secret: u32,
    now_ns: u64,
) -> (r: Option<(usize, usize, i64)>)
    ensures
        r == reply_score(msg@, src, targets@, run_id, secret, now_ns),
        r matches Some((round, idx, rtt)) ==> round <= u16::MAX && idx < targets@.len() && 0 <= rtt
            && rtt <= now_ns / 1000,
        r matches Some((round, idx, rtt)) ==> {
            let ts = bytes::be_value(msg@.subrange(20, 28));
            &&& ts <= now_ns ==> 1000 * rtt <= now_ns - ts < 1000 * rtt + 1000
            &&& ts > now_ns ==> rtt == 0
        },
{
    if msg.len() < HDR + PAYLOAD_MIN {
        return None;
    }
    proof {
        bytes::lemma_capacities();
        bytes::lemma_value_bound(msg@.subrange(6, 8));
        bytes::lemma_value_bound(msg@.subrange(12, 16));
    }
    if msg[0] != ICMP4_REPLY && msg[0] != ICMP6_REPLY {
        return None;
    }
    if bytes::read_be(msg, 4, 2) != run_id as u64 {
        return None;
    }
    let round: u64 = bytes::read_be(msg, 6, 2);
    if bytes::read_be(msg, 8, 4) != MAGIC as u64 {
        return None;
    }
    let idx: u64 = bytes::read_be(msg, 12, 4);
    let cookie: u64 = bytes::read_be(msg, 16, 4);
    let ts: u64 = bytes::read_be(msg, 20, 8);
    if idx >= targets.len() as u64 {
        return None;
    }
    let target = targets[idx as usize];
    if src != target || cookie != cookie_for(target, secret) as u64 {
        return None;
    }
    let rtt: u64 = now_ns.saturating_sub(ts) / 1000;
    Some((round as usize, idx as usize, rtt as i64))
}

/// Checks one received ICMP message against the run and notes its round-trip time.
pub fn validate_and_record(
    msg: &[u8],
    src: IpAddr,
    targets: &[IpAddr],
    run_id: u16,
    secret: u32,
    now_ns: u64,
    results: &mut Results,
)
    requires
        old(results).wf(),
    ensures
        final(results).wf(),
        final(results).n == old(results).n,
        final(results).rounds == old(results).rounds,
        final(results)@ == match reply_score(msg@, src, targets@, run_id, secret, now_ns) {
            Some((round, idx, rtt)) => results::recorded(
                old(results)@,
                old(results).n as nat,
                round as int,
                idx as int,
                rtt,
            ),
            None => old(results)@,
        },
{
    if let Some((round, idx, rtt)) = validate(msg, src, targets, run_id, secret, now_ns) {
        results.record(round, idx, rtt);
    }
}

/// Words add up over an even split.
proof fn lemma_word_sum_concat(a: Seq<u8>, b: Seq<u8>)
    requires
        a.len() % 2 == 0,
    ensures
        word_sum(a + b) == word_sum(a) + word_sum(b),
    decreases a.len(),
{
    if a.len() == 0 {
        assert(a + b =~= b);
    } else {
        lemma_word_sum_concat(a.skip(2), b);
        assert((a + b).skip(2) =~= a.skip(2) + b);
    }
}

/// A word on two bytes adds itself.
proof fn lemma_word_sum_word(w: u16)
    ensures
        word_sum(bytes::be(w as nat, 2)) == w,
        bytes::be(w as nat, 2).len() == 2,
{
    reveal_with_fuel(bytes::be, 3);
    let b = bytes::be(w as nat, 2);
    assert(b =~= seq![(w / 256) as u8, (w % 256) as u8]);
    assert(b.skip(2) =~= Seq::<u8>::empty());
    assert(word_sum(b.skip(2)) == 0);
    assert(b[0] == w / 256 && b[1] == w % 256);
}

/// Data verifies: with its checksum in place of a zero word, the checksum of the whole is
/// zero.
pub proof fn law_checksum_verifies(head: Seq<u8>, tail: Seq<u8>)
    requires
        head.len() % 2 == 0,
    ensures
        internet_checksum(
            head + bytes::be(internet_checksum(head + bytes::be(0, 2) + tail) as nat, 2) + tail,
        ) == 0,
{
    let blank = head + bytes::be(0, 2) + tail;
    let c = internet_checksum(blank);
    let full = head + bytes::be(c as nat, 2) + tail;
    lemma_word_sum_word(0);
    lemma_word_sum_word(c);
    lemma_word_sum_concat(head, bytes::be(0, 2));
    lemma_word_sum_concat(head, bytes::be(c as nat, 2));
    lemma_word_sum_concat(head + bytes::be(0, 2), tail);
    lemma_word_sum_concat(head + bytes::be(c as nat, 2), tail);
    assert(word_sum(full) == word_sum(blank) + c);
}

/// An IPv4 probe carries a checksum that verifies.
pub proof fn law_request_checksum_verifies(
    run_id: u16,
    round: u16,
    idx: u32,
    cookie: u32,
    ts: u64,
    payload: usize,
)
    ensures
        internet_checksum(echo_request(false, run_id, round, idx, cookie, ts, payload)) == 0,
{
    law_checksum_verifies(
        seq![ICMP4_ECHO, 0u8],
        echo_tail(run_id, round, idx, cookie, ts, payload),
    );
}

/// A reply alone is enough to score the host: whatever its code and checksum, a reply of
/// either family that carries back the payload of a probe, from the target of that probe,
/// gives the round, the index and the time since the probe.
pub proof fn law_reply_scores_its_probe(
    kind: u8,
    code: u8,
    check: u16,
    targets: Seq<IpAddr>,
    run_id: u16,
    round: u16,
    idx: u32,
    secret: u32,
    ts: u64,
    payload: usize,
    now_ns: u64,
)
    requires
        kind == ICMP4_REPLY || kind == ICMP6_REPLY,
        idx < targets.len(),
    ensures
        reply_score(
            seq![kind, code] + bytes::be(check as nat, 2) + echo_tail(
                run_id,
                round,
                idx,
                cookie(targets[idx as int], secret),
                ts,
                payload,
            ),
            targets[idx as int],
            targets,
            run_id,
            secret,
            now_ns,
        ) == Some((round as usize, idx as usize, rtt_us(ts as nat, now_ns as nat) as i64)),
{
    let c = cookie(targets[idx as int], secret);
    let tail = echo_tail(run_id, round, idx, c, ts, payload);
    let msg = seq![kind, code] + bytes::be(check as nat, 2) + tail;
    lemma_echo_tail_len(run_id, round, idx, c, ts, payload);
    bytes::lemma_capacities();
    bytes::lemma_be(check as nat, 2);
    bytes::lemma_be(run_id as nat, 2);
    bytes::lemma_be(round as nat, 2);
    bytes::lemma_be(MAGIC as nat, 4);
    bytes::lemma_be(idx as nat, 4);
    bytes::lemma_be(c as nat, 4);
    bytes::lemma_be(ts as nat, 8);
    assert(msg.subrange(4, 6) =~= bytes::be(run_id as nat, 2));
    assert(msg.subrange(6, 8) =~= bytes::be(round as nat, 2));
    assert(msg.subrange(8, 12) =~= bytes::be(MAGIC as nat, 4));
    assert(msg.subrange(12, 16) =~= bytes::be(idx as nat, 4));
    assert(msg.subrange(16, 20) =~= bytes::be(c as nat, 4));
    assert(msg.subrange(20, 28) =~= bytes::be(ts as nat, 8));
}

/// A message of another run, without the magic, of another type, from another source or
/// with a cookie of another secret is not scored.
pub proof fn law_foreign_message_is_dropped(
    msg: Seq<u8>,
    src: IpAddr,
    targets: Seq<IpAddr>,
    run_id: u16,
    secret: u32,
    now_ns: u64,
)
    requires
        ({
            let idx = bytes::be_value(msg.subrange(12, 16)) as int;
            ||| msg.len() < HDR + PAYLOAD_MIN
            ||| msg[0] != ICMP4_REPLY && msg[0] != ICMP6_REPLY
            ||| bytes::be_value(msg.subrange(4, 6)) != run_id
            ||| bytes::be_value(msg.subrange(8, 12)) != MAGIC
            ||| idx >= targets.len()
            ||| src != targets[idx]
            ||| bytes::be_value(msg.subrange(16, 20)) != cookie(src, secret)
        }),
    ensures
        reply_score(msg, src, targets, run_id, secret, now_ns) is None,
{
}

/// Bytes of zero add nothing.
proof fn lemma_word_sum_zeros(n: nat)
    ensures
        word_sum(Seq::new(n, |i: int| 0u8)) == 0,
    decreases n,
{
    let z = Seq::new(n, |i: int| 0u8);
    if n >= 2 {
        lemma_word_sum_zeros((n - 2) as nat);
        assert(z.skip(2) =~= Seq::new((n - 2) as nat, |i: int| 0u8));
    }
}

/// Padding changes nothing else: a probe with a longer payload is the shortest probe, checksum
/// and all, followed by zeros.
pub proof fn law_padding_only_appends_zeros(
    v6: bool,
    run_id: u16,
    round: u16,
    idx: u32,
    cookie: u32,
    ts: u64,
    payload: usize,
)
    requires
        payload >= PAYLOAD_MIN,
    ensures
        echo_request(v6, run_id, round, idx, cookie, ts, payload) == echo_request(
            v6,
            run_id,
            round,
            idx,
            cookie,
            ts,
            PAYLOAD_MIN,
        ) + Seq::new((payload - PAYLOAD_MIN) as nat, |i: int| 0u8),
{
    let zeros = Seq::new((payload - PAYLOAD_MIN) as nat, |i: int| 0u8);
    let short = echo_tail(run_id, round, idx, cookie, ts, PAYLOAD_MIN);
    let long = echo_tail(run_id, round, idx, cookie, ts, payload);
    lemma_echo_tail_len(run_id, round, idx, cookie, ts, PAYLOAD_MIN);
    bytes::lemma_be(0, 2);
    assert(long =~= short + zeros);
    let blank = echo_message(ICMP4_ECHO, 0, short);
    assert(echo_message(ICMP4_ECHO, 0, long) =~= blank + zeros);
    lemma_word_sum_concat(blank, zeros);
    lemma_word_sum_zeros(zeros.len());
    assert(echo_request(v6, run_id, round, idx, cookie, ts, payload) =~= echo_request(
        v6,
        run_id,
        round,
        idx,
        cookie,
        ts,
        PAYLOAD_MIN,
    ) + zeros);
}

/// One step of the hash.
spec fn fnv_step(h: u32, b: u8) -> u32 {
    (((h ^ b as u32) * 0x0100_0193) % 0x1_0000_0000) as u32
}

/// The multiplier of the hash has an inverse, so it keeps different numbers different.
proof fn lemma_multiplier(x: u32)
    ensures
        (((x * 0x0100_0193) % 0x1_0000_0000) * 0x359c_449b) % 0x1_0000_0000 == x,
{
    let m = 0x1_0000_0000int;
    let y = x * 0x0100_0193;
    vstd::arithmetic::div_mod::lemma_mul_mod_noop_left(y, 0x359c_449b, m);
    assert(y * 0x359c_449b == x + m * (x * 0x0035_9c99)) by {
        assert(0x0100_0193 * 0x359c_449b == 1 + 0x1_0000_0000 * 0x0035_9c99);
    }
    vstd::arithmetic::div_mod::lemma_mod_multiples_vanish((x * 0x0035_9c99) as int, x as int, m);
    vstd::arithmetic::div_mod::lemma_small_mod(x as nat, 0x1_0000_0000);
}

proof fn lemma_fnv_step(h: u32, g: u32, b: u8, c: u8)
    requires
        fnv_step(h, b) == fnv_step(g, c),
    ensures
        h == g <==> b == c,
{
    let x = h ^ b as u32;
    let y = g ^ c as u32;
    lemma_multiplier(x);
    lemma_multiplier(y);
    assert(x == y);
    if h == g {
        assert(h ^ b as u32 == h ^ c as u32 ==> b as u32 == c as u32) by (bit_vector);
    }
    if b == c {
        assert(h ^ b as u32 == g ^ b as u32 ==> h == g) by (bit_vector);
    }
}

/// Data of one length that differ in one byte have different hashes.
pub proof fn law_hash_tells_one_byte_apart(a: Seq<u8>, b: Seq<u8>, k: int)
    requires
        a.len() == b.len(),
        0 <= k < a.len(),
        a[k] != b[k],
        forall|i: int| 0 <= i < a.len() && i != k ==> #[trigger] a[i] == b[i],
    ensures
        fnv(a) != fnv(b),
    decreases a.len(),
{
    let x = a.drop_last();
    let y = b.drop_last();
    if k == a.len() - 1 {
        assert(x =~= y);
    } else {
        assert forall|i: int| 0 <= i < x.len() && i != k implies #[trigger] x[i] == y[i] by {
            assert(a[i] == b[i]);
        }
        law_hash_tells_one_byte_apart(x, y, k);
        assert(a[a.len() - 1] == b[b.len() - 1]);
    }
    if fnv(a) == fnv(b) {
        assert(fnv(a) == fnv_step(fnv(x), a.last()));
        assert(fnv(b) == fnv_step(fnv(y), b.last()));
        lemma_fnv_step(fnv(x), fnv(y), a.last(), b.last());
    }
}

/// Cookies differ where one byte differs of the address or of the secret, the family being the
/// same.
pub proof fn law_cookies_tell_one_byte_apart(
    ip: IpAddr,
    secret: u32,
    other_ip: IpAddr,
    other_secret: u32,
    k: int,
)
    requires
        ip is V6 == other_ip is V6,
        0 <= k < cookie_bytes(ip, secret).len(),
        cookie_bytes(ip, secret)[k] != cookie_bytes(other_ip, other_secret)[k],
        forall|i: int|
            0 <= i < cookie_bytes(ip, secret).len() && i != k ==> #[trigger] cookie_bytes(
                ip,
                secret,
            )[i] == cookie_bytes(other_ip, other_secret)[i],
    ensures
        cookie(ip, secret) != cookie(other_ip, other_secret),
{
    let a = cookie_bytes(ip, secret);
    let b = cookie_bytes(other_ip, other_secret);
    bytes::lemma_le(secret as nat, 4);
    bytes::lemma_le(other_secret as nat, 4);
    match ip {
        IpAddr::V4(x) => bytes::lemma_be(x as nat, 4),
        IpAddr::V6(x) => bytes::lemma_be(x as nat, 16),
    }
    match other_ip {
        IpAddr::V4(x) => bytes::lemma_be(x as nat, 4),
        IpAddr::V6(x) => bytes::lemma_be(x as nat, 16),
    }
    law_hash_tells_one_byte_apart(a, b, k);
}

/// The round trip of an accepted reply is the time from the sending that the message tells to its
/// receipt, in whole microseconds; it is zero where the clock went back. The round and the target
/// are those that the message tells.
pub proof fn law_accepted_reply_is_timed_exactly(
    msg: Seq<u8>,
    src: IpAddr,
    targets: Seq<IpAddr>,
    run_id: u16,
    secret: u32,
    now_ns: u64,
)
    ensures
        reply_score(msg, src, targets, run_id, secret, now_ns) matches Some((round, idx, rtt)) ==> {
            let ts = bytes::be_value(msg.subrange(20, 28));
            &&& ts <= now_ns ==> 1000 * rtt <= now_ns - ts < 1000 * rtt + 1000
            &&& ts > now_ns ==> rtt == 0
            &&& round == bytes::be_value(msg.subrange(6, 8))
            &&& idx == bytes::be_value(msg.subrange(12, 16))
            &&& src == targets[idx as int]
        },
{
    if msg.len() >= 28 {
        bytes::lemma_capacities();
        bytes::lemma_value_bound(msg.subrange(6, 8));
        bytes::lemma_value_bound(msg.subrange(12, 16));
    }
}

/// A message is scored exactly if it is long enough, an echo reply of either family, of this run,
/// carries the mark, names a target, comes from it and carries its cookie.
pub proof fn law_what_is_scored(
    msg: Seq<u8>,
    src: IpAddr,
    targets: Seq<IpAddr>,
    run_id: u16,
    secret: u32,
    now_ns: u64,
)
    ensures
        reply_score(msg, src, targets, run_id, secret, now_ns) is Some <==> {
            let idx = bytes::be_value(msg.subrange(12, 16)) as int;
            &&& msg.len() >= 28
            &&& msg[0] == 0 || msg[0] == 129
            &&& bytes::be_value(msg.subrange(4, 6)) == run_id
            &&& bytes::be_value(msg.subrange(8, 12)) == 0x5046_5031
            &&& idx < targets.len()
            &&& targets[idx] == src
            &&& bytes::be_value(msg.subrange(16, 20)) == cookie(src, secret)
        },
{
}

/// A later receipt means a longer round trip, by the time between: two receipts of one message
/// that are whole milliseconds apart differ by just these.
pub proof fn law_round_trips_grow_with_the_clock(
    msg: Seq<u8>,
    src: IpAddr,
    targets: Seq<IpAddr>,
    run_id: u16,
    secret: u32,
    now_ns: u64,
    ms: nat,
)
    requires
        reply_score(msg, src, targets, run_id, secret, now_ns) is Some,
        bytes::be_value(msg.subrange(20, 28)) <= now_ns,
        now_ns + ms * 1_000_000 <= u64::MAX,
    ensures
        ({
            let later = (now_ns + ms * 1_000_000) as u64;
            &&& reply_score(msg, src, targets, run_id, secret, now_ns) matches Some((_, _, a))
            &&& reply_score(msg, src, targets, run_id, secret, later) matches Some((_, _, b))
            &&& b == a + 1000 * ms
        }),
{
    let later = (now_ns + ms * 1_000_000) as u64;
    law_accepted_reply_is_timed_exactly(msg, src, targets, run_id, secret, now_ns);
    law_accepted_reply_is_timed_exactly(msg, src, targets, run_id, secret, later);
}

/// The fields of a probe stand at their places: type, code, run, round, mark, index, cookie and
/// time of sending, each in network order; the length is that of the payload, at least 20, and
/// the header.
pub proof fn law_request_layout(
    v6: bool,
    run_id: u16,
    round: u16,
    idx: u32,
    cookie: u32,
    ts: u64,
    payload: usize,
)
    ensures
        ({
            let m = echo_request(v6, run_id, round, idx, cookie, ts, payload);
            &&& m.len() == 8 + if payload > 20 {
                payload as int
            } else {
                20
            }
            &&& m[0] == if v6 {
                128u8
            } else {
                8
            }
            &&& m[1] == 0
            &&& v6 ==> m[2] == 0 && m[3] == 0
            &&& bytes::be_value(m.subrange(4, 6)) == run_id
            &&& bytes::be_value(m.subrange(6, 8)) == round
            &&& bytes::be_value(m.subrange(8, 12)) == 0x5046_5031
            &&& bytes::be_value(m.subrange(12, 16)) == idx
            &&& bytes::be_value(m.subrange(16, 20)) == cookie
            &&& bytes::be_value(m.subrange(20, 28)) == ts
            &&& forall|i: int| 28 <= i < m.len() ==> #[trigger] m[i] == 0
        }),
{
    let m = echo_request(v6, run_id, round, idx, cookie, ts, payload);
    let tail = echo_tail(run_id, round, idx, cookie, ts, payload);
    lemma_echo_tail_len(run_id, round, idx, cookie, ts, payload);
    bytes::lemma_capacities();
    let check = internet_checksum(echo_message(ICMP4_ECHO, 0, tail));
    bytes::lemma_be(check as nat, 2);
    bytes::lemma_be(0, 2);
    bytes::lemma_be(run_id as nat, 2);
    bytes::lemma_be(round as nat, 2);
    bytes::lemma_be(MAGIC as nat, 4);
    bytes::lemma_be(idx as nat, 4);
    bytes::lemma_be(cookie as nat, 4);
    bytes::lemma_be(ts as nat, 8);
    if v6 {
        reveal_with_fuel(bytes::be, 3);
    }
    assert(m.subrange(4, 6) =~= bytes::be(run_id as nat, 2));
    assert(m.subrange(6, 8) =~= bytes::be(round as nat, 2));
    assert(m.subrange(8, 12) =~= bytes::be(MAGIC as nat, 4));
    assert(m.subrange(12, 16) =~= bytes::be(idx as nat, 4));
    assert(m.subrange(16, 20) =~= bytes::be(cookie as nat, 4));
    assert(m.subrange(20, 28) =~= bytes::be(ts as nat, 8));
}

/// The bytes at even places count 256 times, those at odd places once; `k` bytes are summed up.
pub open spec fn weighted_sum(data: Seq<u8>, k: nat) -> nat
    decreases k,
{
    if k == 0 {
        0
    } else {
        weighted_sum(data, (k - 1) as nat) + data[k - 1] as nat * if k % 2 == 1 {
            256nat
        } else {
            1
        }
    }
}

proof fn lemma_weighted_sum(data: Seq<u8>, k: nat)
    requires
        2 <= k <= data.len(),
    ensures
        weighted_sum(data, k) == data[0] as nat * 256 + data[1] as nat + weighted_sum(
            data.skip(2),
            (k - 2) as nat,
        ),
    decreases k,
{
    if k == 2 {
        reveal_with_fuel(weighted_sum, 3);
    } else {
        lemma_weighted_sum(data, (k - 1) as nat);
        assert(data.skip(2)[k - 3] == data[k - 1]);
    }
}

proof fn lemma_word_sum_is_weighted(data: Seq<u8>)
    ensures
        word_sum(data) == weighted_sum(data, data.len()),
    decreases data.len(),
{
    if data.len() >= 2 {
        lemma_word_sum_is_weighted(data.skip(2));
        lemma_weighted_sum(data, data.len());
    } else {
        reveal_with_fuel(weighted_sum, 2);
    }
}

/// The checksum makes up what the words lack to a multiple of 65535: every byte of the data
/// counts, at even places 256 times. It is 65535 only for data of zeros.
pub proof fn law_checksum_completes_the_sum(data: Seq<u8>)
    ensures
        (internet_checksum(data) + weighted_sum(data, data.len())) % 0xffff == 0,
        internet_checksum(data) == 0xffff <==> weighted_sum(data, data.len()) == 0,
{
    lemma_word_sum_is_weighted(data);
}

/// The hash of no bytes is the offset, and a further byte is mixed in by exclusive or and then
/// multiplied with the prime, modulo 2^32.
pub proof fn law_hash_mixes_byte_by_byte(s: Seq<u8>, b: u8)
    ensures
        fnv(Seq::empty()) == 0x811c_9dc5,
        fnv(s.push(b)) == ((fnv(s) ^ b as u32) * 0x0100_0193) % 0x1_0000_0000,
{
    assert(s.push(b).drop_last() =~= s);
}

/// A cookie is the hash of the octets of the address, the most significant first, and of the four
/// bytes of the secret, the least significant first.
pub proof fn law_cookie_covers_address_and_secret(ip: IpAddr, secret: u32, data: Seq<u8>)
    requires
        ({
            let k = if ip is V4 {
                4int
            } else {
                16
            };
            &&& data.len() == k + 4
            &&& match ip {
                IpAddr::V4(a) => bytes::be_value(data.take(k)) == a,
                IpAddr::V6(a) => bytes::be_value(data.take(k)) == a,
            }
            &&& data[k] == secret % 256
            &&& data[k + 1] == secret / 256 % 256
            &&& data[k + 2] == secret / 65536 % 256
            &&& data[k + 3] == secret / 16777216
        }),
    ensures
        cookie(ip, secret) == fnv(data),
{
    let k = if ip is V4 {
        4int
    } else {
        16
    };
    bytes::lemma_be_unique(data.take(k));
    reveal_with_fuel(bytes::le, 5);
    let s = bytes::le(secret as nat, 4);
    assert(s =~= data.skip(k)) by {
        assert(secret / 256 / 256 == secret / 65536);
        assert(secret / 256 / 256 / 256 == secret / 16777216);
    }
    assert(cookie_bytes(ip, secret) =~= data);
}

} // verus!
