//! The course of a sweep: who is probed in which round, and when.
use crate::addr::IpAddr;
use crate::bytes;
use crate::echo;
use crate::results;
use crate::results::Results;
use vstd::prelude::*;

verus! {

/// The run identifier of a process: the low half of its number.
pub fn run_id(pid: u32) -> (r: u16)
    ensures
        r == pid % 0x1_0000,
{
    (pid % 0x1_0000) as u16
}

/// The secret of a run: the hash of the clock, with the run identifier over its upper half.
pub open spec fn secret_spec(clock: u32, run_id: u16) -> u32 {
    echo::fnv(bytes::le(clock as nat, 4)) ^ (run_id as u32 * 0x1_0000) as u32
}

/// The secret of a run.
pub fn run_secret(clock: u32, run_id: u16) -> (r: u32)
    ensures
        r == secret_spec(clock, run_id),
{
    let mut t: Vec<u8> = Vec::new();
    bytes::push_le(&mut t, clock as u128, 4);
    assert(t@ =~= bytes::le(clock as nat, 4));
    echo::fnv1a32(t.as_slice()) ^ (run_id as u32 * 0x1_0000)
}

/// Spaces the packets of a round.
pub struct Pacer {
    /// Nanoseconds between packets, or none where the rate is unbounded.
    pub gap_ns: Option<u64>,
    /// When the next packet is due, in nanoseconds.
    pub next_ns: u64,
}

/// The time between packets at `rate` packets per second.
pub open spec fn gap_spec(rate: u64) -> Option<u64> {
    if rate > 0 {
        Some(1_000_000_000u64 / rate)
    } else {
        None
    }
}

/// How long to wait at `now` for what is due at `due`.
pub open spec fn wait_spec(due: int, now: int) -> Option<u64> {
    if due > now {
        Some((due - now) as u64)
    } else {
        None
    }
}

impl Pacer {
    /// Starts a round at `now_ns`.
    pub fn new(rate: u64, now_ns: u64) -> (p: Pacer)
        ensures
            p.gap_ns == gap_spec(rate),
            p.next_ns == now_ns,
    {
        let gap_ns: Option<u64> = if rate > 0 {
            Some(1_000_000_000 / rate)
        } else {
            None
        };
        Pacer { gap_ns, next_ns: now_ns }
    }

    /// After a packet: how long to wait at `now_ns` before the next one.
    pub fn pause(&mut self, now_ns: u64) -> (r: Option<u64>)
        requires
            old(self).gap_ns matches Some(g) ==> old(self).next_ns + g <= u64::MAX,
        ensures
            final(self).gap_ns == old(self).gap_ns,
            match old(self).gap_ns {
                Some(g) => final(self).next_ns == old(self).next_ns + g && r == wait_spec(
                    old(self).next_ns + g,
                    now_ns as int,
                ),
                None => final(self).next_ns == old(self).next_ns && r is None,
            },
    {
        match self.gap_ns {
            Some(g) => {
                self.next_ns = self.next_ns + g;
                if self.next_ns > now_ns {
                    Some(self.next_ns - now_ns)
                } else {
                    None
                }
            },
            None => None,
        }
    }
}

/// In a round that starts at `start`, the `k`-th packet leaves no earlier than `k` gaps
/// later. `sent[j]` is when packet `j` leaves and `asked[j]` when the pause after it is
/// taken, which lasts as long as the pacer says.
pub proof fn law_pace_spaces_packets(
    start: nat,
    gap: nat,
    sent: Seq<nat>,
    asked: Seq<nat>,
    k: int,
)
    requires
        0 <= k < sent.len() <= asked.len(),
        sent[0] >= start,
        forall|j: int|
            0 <= j < sent.len() - 1 && start + (j + 1) * gap <= u64::MAX ==> #[trigger] sent[j + 1]
                >= asked[j] + (match wait_spec(start + (j + 1) * gap, asked[j] as int) {
                Some(w) => w as nat,
                None => 0,
            }),
        start + k * gap <= u64::MAX,
    ensures
        sent[k] >= start + k * gap,
{
    if k > 0 {
        let j = k - 1;
        assert(sent[j + 1] >= asked[j] + (match wait_spec(
            start + (j + 1) * gap,
            asked[j] as int,
        ) {
            Some(w) => w as nat,
            None => 0,
        }));
    }
}

/// The index of a host as a probe carries it.
pub open spec fn index_word(i: usize) -> u32 {
    (i as nat % 0x1_0000_0000) as u32
}

fn index_word_of(i: usize) -> (r: u32)
    ensures
        r == index_word(i),
{
    (i as u64 % 0x1_0000_0000) as u32
}

/// The probe of target `i` in `round`.
pub open spec fn probe_spec(
    targets: Seq<IpAddr>,
    i: usize,
    round: u16,
    run_id: u16,
    secret: u32,
    ts: u64,
    payload: usize,
) -> Seq<u8> {
    let ip = targets[i as int];
    echo::echo_request(
        ip is V6,
        run_id,
        round,
        index_word(i),
        echo::cookie(ip, secret),
        ts,
        payload,
    )
}

/// Builds the probe of target `i` in `round`, sent at `ts`.
pub fn probe(
    targets: &[IpAddr],
    i: usize,
    round: u16,
    run_id: u16,
    secret: u32,
    ts: u64,
    payload: usize,
) -> (pkt: Vec<u8>)
    requires
        i < targets.len(),
        payload + echo::HDR <= isize::MAX,
    ensures
        pkt@ == probe_spec(targets@, i, round, run_id, secret, ts, payload),
{
    let ip = targets[i];
    echo::build_icmp(
        ip.is_ipv6(),
        run_id,
        round,
        index_word_of(i),
        echo::cookie_for(ip, secret),
        ts,
        payload,
    )
}

/// The rounds of a sweep and the hosts that are still to be probed.
pub struct Sweep {
    pub adaptive: bool,
    pub rounds: usize,
    /// The round to come.
    pub round: usize,
    /// The hosts of that round, by index.
    pub pending: Vec<usize>,
}

/// The contents of a [`Sweep`].
pub struct Rounds {
    pub adaptive: bool,
    pub rounds: usize,
    pub round: usize,
    pub pending: Seq<usize>,
}

impl View for Sweep {
    type V = Rounds;

    open spec fn view(&self) -> Rounds {
        Rounds {
            adaptive: self.adaptive,
            rounds: self.rounds,
            round: self.round,
            pending: self.pending@,
        }
    }
}

/// Whether there is a round to send: not after the last one, nor, if adaptive, where no host
/// is silent.
pub open spec fn goes_on(s: Rounds) -> bool {
    s.round < s.rounds && (!s.adaptive || s.pending.len() > 0)
}

/// What is left after a round that ended with table `t`: if adaptive, only the silent hosts
/// stay pending.
pub open spec fn ended(s: Rounds, t: Seq<Seq<i64>>) -> Rounds {
    Rounds {
        round: (s.round + 1) as usize,
        pending: if s.adaptive {
            still_silent(s.pending, t)
        } else {
            s.pending
        },
        ..s
    }
}

/// All hosts.
pub open spec fn everyone(n: nat) -> Seq<usize> {
    Seq::new(n, |i: int| i as usize)
}

/// The hosts of `p` that have not answered, in order.
pub open spec fn still_silent(p: Seq<usize>, t: Seq<Seq<i64>>) -> Seq<usize>
    decreases p.len(),
{
    if p.len() == 0 {
        Seq::empty()
    } else if results::answered(t, p.last() as int) {
        still_silent(p.drop_last(), t)
    } else {
        still_silent(p.drop_last(), t).push(p.last())
    }
}

/// The number of a round as a probe carries it.
pub open spec fn round_word(round: usize) -> u16 {
    (round as nat % 0x1_0000) as u16
}

impl Sweep {
    /// Starts a sweep over `n` hosts: all are pending.
    pub fn new(n: usize, adaptive: bool, rounds: usize) -> (s: Sweep)
        ensures
            s@ == (Rounds { adaptive, rounds, round: 0, pending: everyone(n as nat) }),
    {
        let mut pending: Vec<usize> = Vec::new();
        for i in 0..n
            invariant
                pending@ == everyone(i as nat),
        {
            pending.push(i);
            assert(pending@ =~= everyone((i + 1) as nat));
        }
        Sweep { adaptive, rounds, round: 0, pending }
    }

    /// The round to send to the pending hosts, or none when the sweep is over: after its
    /// last round, or earlier if adaptive and no host is silent.
    pub fn next(&self) -> (r: Option<u16>)
        ensures
            r == if goes_on(self@) {
                Some(round_word(self.round))
            } else {
                None
            },
    {
        if self.round < self.rounds && (!self.adaptive || self.pending.len() > 0) {
            Some((self.round % 0x1_0000) as u16)
        } else {
            None
        }
    }

    /// Ends a round after its wait: if adaptive, only the silent hosts stay pending.
    pub fn finish_round(&mut self, results: &Results)
        requires
            results.wf(),
            old(self).round < old(self).rounds,
            forall|k: int|
                0 <= k < old(self).pending@.len() ==> #[trigger] old(self).pending@[k] < results.n,
        ensures
            final(self)@ == ended(old(self)@, results@),
            forall|k: int|
                0 <= k < final(self).pending@.len() ==> #[trigger] final(self).pending@[k]
                    < results.n,
    {
        self.round = self.round + 1;
        if self.adaptive {
            let mut kept: Vec<usize> = Vec::new();
            let n: usize = self.pending.len();
            let ghost all = self.pending@;
            for k in 0..n
                invariant
                    results.wf(),
                    n == self.pending@.len(),
                    self.pending@ == all,
                    forall|j: int| 0 <= j < n ==> #[trigger] all[j] < results.n,
                    kept@ == still_silent(all.take(k as int), results@),
                    forall|j: int| 0 <= j < kept@.len() ==> #[trigger] kept@[j] < results.n,
            {
                let i: usize = self.pending[k];
                assert(all[k as int] < results.n);
                assert(all.take(k + 1).drop_last() =~= all.take(k as int));
                if !results.responded_any(i) {
                    kept.push(i);
                }
            }
            assert(all.take(n as int) =~= all);
            self.pending = kept;
        }
    }
}

/// Who is probed in round `r`, where `tables[q]` is what was known when round `q` ended.
pub open spec fn plan(n: nat, adaptive: bool, tables: Seq<Seq<Seq<i64>>>, r: nat) -> Seq<usize>
    decreases r,
{
    if r == 0 || !adaptive {
        everyone(n)
    } else {
        still_silent(plan(n, adaptive, tables, (r - 1) as nat), tables[r - 1])
    }
}

proof fn lemma_still_silent_contains(p: Seq<usize>, t: Seq<Seq<i64>>, i: usize)
    ensures
        still_silent(p, t).contains(i) <==> p.contains(i) && !results::answered(t, i as int),
        still_silent(p, t).len() <= p.len(),
    decreases p.len(),
{
    if p.len() > 0 {
        let q = p.drop_last();
        lemma_still_silent_contains(q, t, i);
        assert(p =~= q.push(p.last()));
        let s = still_silent(q, t);
        if p.contains(i) && i != p.last() {
            let k = choose|k: int| 0 <= k < p.len() && p[k] == i;
            assert(q[k] == i);
            assert(q.contains(i));
        }
        if q.contains(i) {
            let k = choose|k: int| 0 <= k < q.len() && q[k] == i;
            assert(p[k] == i);
        }
        assert(p[p.len() - 1] == p.last());
        assert(p.contains(p.last()));
        let u = s.push(p.last());
        if s.contains(i) {
            let k = choose|k: int| 0 <= k < s.len() && s[k] == i;
            assert(u[k] == i);
        }
        if u.contains(i) && i != p.last() {
            let k = choose|k: int| 0 <= k < u.len() && u[k] == i;
            assert(s[k] == i);
        }
        assert(u[u.len() - 1] == p.last());
    }
}

/// The silent hosts are among the pending ones, and no more than those.
pub proof fn lemma_still_silent_len(p: Seq<usize>, t: Seq<Seq<i64>>)
    ensures
        still_silent(p, t).len() <= p.len(),
        forall|k: int|
            0 <= k < still_silent(p, t).len() ==> p.contains(#[trigger] still_silent(p, t)[k]),
{
    lemma_still_silent_contains(p, t, 0);
    assert forall|k: int| 0 <= k < still_silent(p, t).len() implies p.contains(
        #[trigger] still_silent(p, t)[k],
    ) by {
        lemma_still_silent_contains(p, t, still_silent(p, t)[k]);
    }
}

/// Adaptive retry probes a host in a round exactly if no earlier round ended with an answer
/// from it: every host is probed once, and only the silent ones again.
pub proof fn law_only_silent_hosts_are_retried(
    n: nat,
    tables: Seq<Seq<Seq<i64>>>,
    r: nat,
    i: usize,
)
    requires
        n <= usize::MAX,
        r <= tables.len(),
    ensures
        plan(n, true, tables, r).contains(i) <==> i < n && (forall|q: int|
            0 <= q < r ==> !results::answered(#[trigger] tables[q], i as int)),
    decreases r,
{
    if r == 0 {
        if i < n {
            assert(everyone(n)[i as int] == i);
        }
    } else {
        law_only_silent_hosts_are_retried(n, tables, (r - 1) as nat, i);
        lemma_still_silent_contains(
            plan(n, true, tables, (r - 1) as nat),
            tables[r - 1],
            i,
        );
    }
}

/// A round is never sent to more hosts than the one before it.
pub proof fn law_pending_hosts_never_grow(
    n: nat,
    adaptive: bool,
    tables: Seq<Seq<Seq<i64>>>,
    r: nat,
)
    requires
        r < tables.len(),
    ensures
        plan(n, adaptive, tables, r + 1).len() <= plan(n, adaptive, tables, r).len(),
{
    if adaptive {
        lemma_still_silent_contains(plan(n, true, tables, r), tables[r as int], 0);
    }
}

/// Whether the hosts stand in ascending order.
pub open spec fn ascending(p: Seq<usize>) -> bool {
    forall|i: int, j: int| 0 <= i < j < p.len() ==> #[trigger] p[i] < #[trigger] p[j]
}

proof fn lemma_still_silent_ascending(p: Seq<usize>, t: Seq<Seq<i64>>)
    requires
        ascending(p),
    ensures
        ascending(still_silent(p, t)),
    decreases p.len(),
{
    if p.len() > 0 {
        let q = p.drop_last();
        let s = still_silent(q, t);
        assert forall|i: int, j: int| 0 <= i < j < q.len() implies #[trigger] q[i]
            < #[trigger] q[j] by {
            assert(p[i] < p[j]);
        }
        lemma_still_silent_ascending(q, t);
        lemma_still_silent_len(q, t);
        assert forall|k: int| 0 <= k < s.len() implies #[trigger] s[k] < p.last() by {
            assert(q.contains(s[k]));
            let i = choose|i: int| 0 <= i < q.len() && q[i] == s[k];
            assert(p[i] < p[p.len() - 1]);
        }
    }
}

/// A round goes to its hosts in ascending order, so to none of them twice.
pub proof fn law_a_round_goes_in_order(
    n: nat,
    adaptive: bool,
    tables: Seq<Seq<Seq<i64>>>,
    r: nat,
)
    requires
        n <= usize::MAX,
    ensures
        ascending(plan(n, adaptive, tables, r)),
    decreases r,
{
    if r > 0 && adaptive {
        law_a_round_goes_in_order(n, adaptive, tables, (r - 1) as nat);
        lemma_still_silent_ascending(plan(n, adaptive, tables, (r - 1) as nat), tables[r - 1]);
    }
}

/// With a fixed number of probes every round goes to every host.
pub proof fn law_fixed_probes_reach_everyone(n: nat, tables: Seq<Seq<Seq<i64>>>, r: nat)
    ensures
        plan(n, false, tables, r) == everyone(n),
{
}

/// The reply to a probe marks its host as answered, in the round of the probe and with the
/// time since it was sent.
pub proof fn law_answered_probe_marks_its_host(
    targets: Seq<IpAddr>,
    i: usize,
    round: u16,
    run_id: u16,
    secret: u32,
    ts: u64,
    payload: usize,
    kind: u8,
    now_ns: u64,
    t: Seq<Seq<i64>>,
)
    requires
        i < targets.len() <= 0x1_0000_0000,
        round < t.len(),
        forall|r: int| 0 <= r < t.len() ==> (#[trigger] t[r]).len() == targets.len(),
        kind == echo::ICMP4_REPLY || kind == echo::ICMP6_REPLY,
        t[round as int][i as int] == -1,
    ensures
        ({
            let request = probe_spec(targets, i, round, run_id, secret, ts, payload);
            let reply = request.update(0, kind);
            let rtt = echo::rtt_us(ts as nat, now_ns as nat) as i64;
            let after = results::recorded(t, targets.len(), round as int, i as int, rtt);
            &&& echo::reply_score(reply, targets[i as int], targets, run_id, secret, now_ns)
                == Some((round as usize, i, rtt))
            &&& after[round as int][i as int] == rtt
            &&& results::answered(after, i as int)
        }),
{
    let ip = targets[i as int];
    let request = probe_spec(targets, i, round, run_id, secret, ts, payload);
    let tail = echo::echo_tail(run_id, round, i as u32, echo::cookie(ip, secret), ts, payload);
    let check = if ip is V6 {
        0u16
    } else {
        echo::internet_checksum(echo::echo_message(echo::ICMP4_ECHO, 0, tail))
    };
    bytes::lemma_be(check as nat, 2);
    assert(request.update(0, kind) =~= seq![kind, 0u8] + bytes::be(check as nat, 2) + tail);
    echo::law_reply_scores_its_probe(
        kind,
        0,
        check,
        targets,
        run_id,
        round,
        i as u32,
        secret,
        ts,
        payload,
        now_ns,
    );
    let rtt = echo::rtt_us(ts as nat, now_ns as nat) as i64;
    let after = results::recorded(t, targets.len(), round as int, i as int, rtt);
    assert(after[round as int][i as int] == rtt);
}

/// Packets of a round are as far apart as the rate says: as many gaps as packets a second fit
/// into a second, and no longer gap would do; without a rate there is no gap.
pub proof fn law_gap_is_that_of_the_rate(rate: u64)
    ensures
        match gap_spec(rate) {
            Some(gap) => rate > 0 && gap * rate <= 1_000_000_000 < (gap + 1) * rate,
            None => rate == 0,
        },
{
    if rate > 0 {
        let gap = 1_000_000_000u64 / rate;
        vstd::arithmetic::div_mod::lemma_fundamental_div_mod(1_000_000_000, rate as int);
        let m = 1_000_000_000int % (rate as int);
        assert(0 <= m < rate) by (nonlinear_arith)
            requires
                m == 1_000_000_000int % (rate as int),
                rate > 0,
        ;
        assert(gap * rate == rate * gap) by (nonlinear_arith);
        assert((gap + 1) * rate == rate * gap + rate) by (nonlinear_arith);
    }
}

/// A wait lasts until what is due, to the nanosecond; what is due already is not waited for.
pub proof fn law_waits_last_until_due(due: u64, now: u64)
    ensures
        match wait_spec(due as int, now as int) {
            Some(ns) => ns > 0 && now + ns == due,
            None => due <= now,
        },
{
}

/// Indexes of up to 32 bits and rounds of up to 16 bits travel as they are; of larger ones the low
/// bits travel.
pub proof fn law_indexes_and_rounds_travel_unchanged(i: usize, round: usize)
    ensures
        i < 0x1_0000_0000 ==> index_word(i) == i,
        round < 0x1_0000 ==> round_word(round) == round,
        i >= 0x1_0000_0000 ==> index_word((i - 0x1_0000_0000) as usize) == index_word(i),
        round >= 0x1_0000 ==> round_word((round - 0x1_0000) as usize) == round_word(round),
{
}

/// The first round goes to every host, in order.
pub proof fn law_first_round_goes_to_everyone(
    n: nat,
    adaptive: bool,
    tables: Seq<Seq<Seq<i64>>>,
    i: int,
)
    requires
        0 <= i < n <= usize::MAX,
    ensures
        plan(n, adaptive, tables, 0).len() == n,
        plan(n, adaptive, tables, 0)[i] == i,
        everyone(n).len() == n,
        everyone(n)[i] == i,
{
}

/// Runs at different clocks or of different processes have different secrets: they differ where
/// one byte of the clock differs, and where the run identifier does.
pub proof fn law_secrets_differ(clock: u32, other_clock: u32, run_id: u16, other_id: u16, k: int)
    ensures
        run_id != other_id ==> secret_spec(clock, run_id) != secret_spec(clock, other_id),
        0 <= k < 4 && bytes::le(clock as nat, 4)[k] != bytes::le(other_clock as nat, 4)[k] && (
        forall|i: int|
            0 <= i < 4 && i != k ==> #[trigger] bytes::le(clock as nat, 4)[i] == bytes::le(
                other_clock as nat,
                4,
            )[i]) ==> secret_spec(clock, run_id) != secret_spec(other_clock, run_id),
{
    let h = echo::fnv(bytes::le(clock as nat, 4));
    let g = echo::fnv(bytes::le(other_clock as nat, 4));
    let a = (run_id as u32 * 0x1_0000) as u32;
    let b = (other_id as u32 * 0x1_0000) as u32;
    if run_id != other_id {
        assert(a != b);
        assert(h ^ a == h ^ b ==> a == b) by (bit_vector);
    }
    bytes::lemma_le(clock as nat, 4);
    bytes::lemma_le(other_clock as nat, 4);
    if 0 <= k < 4 && bytes::le(clock as nat, 4)[k] != bytes::le(other_clock as nat, 4)[k] && (
    forall|i: int|
        0 <= i < 4 && i != k ==> #[trigger] bytes::le(clock as nat, 4)[i] == bytes::le(
            other_clock as nat,
            4,
        )[i]) {
        echo::law_hash_tells_one_byte_apart(
            bytes::le(clock as nat, 4),
            bytes::le(other_clock as nat, 4),
            k,
        );
        assert(h ^ a == g ^ a ==> h == g) by (bit_vector);
    }
}

/// The secret is the hash of the four bytes of the clock, the least significant first, with the
/// run identifier over its upper half; the lower half is that of the hash.
pub proof fn law_secret_covers_the_clock(clock: u32, run_id: u16)
    ensures
        secret_spec(clock, run_id) % 0x1_0000 == echo::fnv(bytes::le(clock as nat, 4)) % 0x1_0000,
        secret_spec(clock, run_id) / 0x1_0000 == echo::fnv(bytes::le(clock as nat, 4)) / 0x1_0000
            ^ run_id as u32,
{
    let h = echo::fnv(bytes::le(clock as nat, 4));
    let r = run_id as u32;
    assert(r < 0x1_0000 ==> (h ^ ((r * 0x1_0000) as u32)) % 0x1_0000 == h % 0x1_0000
        && (h ^ ((r * 0x1_0000) as u32)) / 0x1_0000 == (h / 0x1_0000) ^ r) by (bit_vector);
}

/// A sweep goes on to a further round exactly if one is left and, under adaptive retry, some host
/// is pending; a round that ended leaves one round fewer, and all else as it was.
pub proof fn law_rounds_go_on(s: Rounds, t: Seq<Seq<i64>>)
    requires
        s.round < s.rounds,
    ensures
        goes_on(s) <==> !s.adaptive || s.pending.len() > 0,
        ended(s, t).round == s.round + 1,
        ended(s, t).rounds == s.rounds,
        ended(s, t).adaptive == s.adaptive,
        !s.adaptive ==> ended(s, t).pending == s.pending,
        s.round + 1 == s.rounds ==> !goes_on(ended(s, t)),
        forall|i: usize|
            s.adaptive ==> (#[trigger] ended(s, t).pending.contains(i) <==> s.pending.contains(i)
                && !results::answered(t, i as int)),
{
    assert forall|i: usize| s.adaptive implies (#[trigger] ended(s, t).pending.contains(i)
        <==> s.pending.contains(i) && !results::answered(t, i as int)) by {
        lemma_still_silent_contains(s.pending, t, i);
    }
}

/// The probe of a host is addressed in its family, tells its round, its index and the time of
/// sending, and carries the cookie of its address.
pub proof fn law_probe_tells_its_host(
    targets: Seq<IpAddr>,
    i: usize,
    round: u16,
    run_id: u16,
    secret: u32,
    ts: u64,
    payload: usize,
)
    requires
        i < targets.len(),
    ensures
        ({
            let m = probe_spec(targets, i, round, run_id, secret, ts, payload);
            &&& m[0] == if targets[i as int] is V6 {
                128u8
            } else {
                8
            }
            &&& bytes::be_value(m.subrange(4, 6)) == run_id
            &&& bytes::be_value(m.subrange(6, 8)) == round
            &&& bytes::be_value(m.subrange(12, 16)) == i as nat % 4294967296
            &&& bytes::be_value(m.subrange(16, 20)) == echo::cookie(targets[i as int], secret)
            &&& bytes::be_value(m.subrange(20, 28)) == ts
            &&& m.len() == 8 + if payload > 20 {
                payload as int
            } else {
                20
            }
        }),
{
    let ip = targets[i as int];
    echo::law_request_layout(
        ip is V6,
        run_id,
        round,
        index_word(i),
        echo::cookie(ip, secret),
        ts,
        payload,
    );
}

} // verus!
