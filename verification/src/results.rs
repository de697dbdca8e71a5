//! The table of round-trip times that a sweep fills.
use vstd::prelude::*;

verus! {

/// Round-trip times in microseconds, by round and host; -1 where no reply came.
pub struct Results {
    /// Number of hosts.
    pub n: usize,
    /// Number of rounds.
    pub rounds: usize,
    /// The cell of `round` and `host` is `rtt[round * n + host]`.
    pub rtt: Vec<i64>,
}

/// The replies of one host as exact numbers.
#[derive(Clone, Copy, Debug, PartialEq, Eq, Structural)]
pub struct Score {
    /// 1 if the host answered, else 0.
    pub alive: u8,
    /// The loss is `lost / probes`.
    pub lost: usize,
    pub probes: usize,
    /// The mean round trip is `rtt_sum_us / replies` microseconds, or zero without replies.
    pub rtt_sum_us: u128,
    pub replies: usize,
}

/// The table as rounds of hosts.
impl View for Results {
    type V = Seq<Seq<i64>>;

    open spec fn view(&self) -> Seq<Seq<i64>> {
        Seq::new(
            self.rounds as nat,
            |r: int| Seq::new(self.n as nat, |i: int| self.rtt@[r * self.n + i]),
        )
    }
}

/// Whether host `i` answered in some round of the table.
pub open spec fn answered(t: Seq<Seq<i64>>, i: int) -> bool {
    exists|r: int| 0 <= r < t.len() && #[trigger] t[r][i] >= 0
}

/// The round trips of host `i` in the rounds before `k`, in order.
pub open spec fn replies_of(t: Seq<Seq<i64>>, i: int, k: nat) -> Seq<i64>
    decreases k,
{
    if k == 0 {
        Seq::empty()
    } else if t[k - 1][i] >= 0 {
        replies_of(t, i, (k - 1) as nat).push(t[k - 1][i])
    } else {
        replies_of(t, i, (k - 1) as nat)
    }
}

/// The sum of `s`.
pub open spec fn total(s: Seq<i64>) -> int
    decreases s.len(),
{
    if s.len() == 0 {
        0
    } else {
        total(s.drop_last()) + s.last()
    }
}

/// The round trip of the first round in which host `i` answered.
pub open spec fn first_reply(t: Seq<Seq<i64>>, i: int) -> Option<i64> {
    let s = replies_of(t, i, t.len());
    if s.len() == 0 {
        None
    } else {
        Some(s[0])
    }
}

/// The score over a fixed number of probes: loss counts the rounds without a reply.
pub open spec fn fixed_score(t: Seq<Seq<i64>>, i: int) -> Score {
    let s = replies_of(t, i, t.len());
    Score {
        alive: if s.len() > 0 {
            1
        } else {
            0
        },
        lost: (t.len() - s.len()) as usize,
        probes: t.len() as usize,
        rtt_sum_us: total(s) as u128,
        replies: s.len() as usize,
    }
}

/// The score of a host that is probed until it answers: its loss is nothing or all.
pub open spec fn adaptive_score(t: Seq<Seq<i64>>, i: int) -> Score {
    match first_reply(t, i) {
        Some(us) => Score { alive: 1, lost: 0, probes: 1, rtt_sum_us: us as u128, replies: 1 },
        None => Score { alive: 0, lost: 1, probes: 1, rtt_sum_us: 0, replies: 0 },
    }
}

/// The score under either strategy.
pub open spec fn score_spec(t: Seq<Seq<i64>>, i: int, adaptive: bool) -> Score {
    if adaptive {
        adaptive_score(t, i)
    } else {
        fixed_score(t, i)
    }
}

/// The table after a reply to `round` of host `idx`: the first reply stays, and one
/// outside the table is dropped.
pub open spec fn recorded(t: Seq<Seq<i64>>, n: nat, round: int, idx: int, rtt_us: i64) -> Seq<
    Seq<i64>,
> {
    if 0 <= round < t.len() && 0 <= idx < n && t[round][idx] == -1 {
        t.update(round, t[round].update(idx, rtt_us))
    } else {
        t
    }
}

/// The place of a cell lies inside the table.
proof fn lemma_place(r: int, i: int, n: int, rounds: int)
    requires
        0 <= r < rounds,
        0 <= i < n,
    ensures
        0 <= r * n + i < n * rounds,
{
    assert(r * n + i < n * rounds) by (nonlinear_arith)
        requires
            0 <= r < rounds,
            0 <= i < n,
    ;
    assert(0 <= r * n) by (nonlinear_arith)
        requires
            0 <= r,
            0 <= n,
    ;
}

/// Different cells have different places.
proof fn lemma_places_differ(r: int, i: int, q: int, j: int, n: int)
    requires
        0 <= i < n,
        0 <= j < n,
        r * n + i == q * n + j,
    ensures
        r == q,
        i == j,
{
    if r < q {
        assert(q * n >= r * n + n) by (nonlinear_arith)
            requires
                r + 1 <= q,
                0 < n,
        ;
    }
    if q < r {
        assert(r * n >= q * n + n) by (nonlinear_arith)
            requires
                q + 1 <= r,
                0 < n,
        ;
    }
}

/// A host has at most one reply a round.
pub proof fn lemma_replies_len(t: Seq<Seq<i64>>, i: int, k: nat)
    ensures
        replies_of(t, i, k).len() <= k,
        forall|j: int| 0 <= j < replies_of(t, i, k).len() ==> replies_of(t, i, k)[j] >= 0,
    decreases k,
{
    if k > 0 {
        lemma_replies_len(t, i, (k - 1) as nat);
    }
}

/// There are replies exactly if some round has one.
proof fn lemma_replies_answered(t: Seq<Seq<i64>>, i: int, k: nat)
    requires
        k <= t.len(),
    ensures
        replies_of(t, i, k).len() > 0 <==> exists|r: int| 0 <= r < k && #[trigger] t[r][i] >= 0,
    decreases k,
{
    if k > 0 {
        lemma_replies_answered(t, i, (k - 1) as nat);
        if t[k - 1][i] >= 0 {
            assert(0 <= k - 1 < k && t[k - 1][i] >= 0);
        } else if replies_of(t, i, k).len() > 0 {
            let r = choose|r: int| 0 <= r < k - 1 && #[trigger] t[r][i] >= 0;
            assert(0 <= r < k && t[r][i] >= 0);
        }
    }
}

/// Later rounds only append to the replies.
proof fn lemma_replies_prefix(t: Seq<Seq<i64>>, i: int, k: nat, m: nat)
    requires
        k <= m,
    ensures
        replies_of(t, i, k).len() <= replies_of(t, i, m).len(),
        replies_of(t, i, k) == replies_of(t, i, m).take(replies_of(t, i, k).len() as int),
    decreases m,
{
    if k < m {
        lemma_replies_prefix(t, i, k, (m - 1) as nat);
        let a = replies_of(t, i, k);
        let c = replies_of(t, i, m);
        assert(a =~= c.take(a.len() as int));
    } else {
        assert(replies_of(t, i, k) =~= replies_of(t, i, m).take(
            replies_of(t, i, k).len() as int,
        ));
    }
}

impl Results {
    /// The table holds one cell for each round and host.
    pub open spec fn wf(&self) -> bool {
        self.rtt@.len() == self.n * self.rounds
    }

    /// An empty table for `n` hosts and the given number of rounds, if memory can address
    /// its cells of eight bytes.
    pub fn new(n: usize, rounds: usize) -> (res: Self)
        requires
            n * rounds * 8 <= isize::MAX,
        ensures
            res.wf(),
            res.n == n,
            res.rounds == rounds,
            res@ == Seq::new(rounds as nat, |r: int| Seq::new(n as nat, |i: int| -1i64)),
    {
        let cells: usize = n * rounds;
        let mut rtt: Vec<i64> = Vec::new();
        for c in 0..cells
            invariant
                rtt@ == Seq::new(c as nat, |i: int| -1i64),
        {
            rtt.push(-1);
            assert(rtt@ =~= Seq::new((c + 1) as nat, |i: int| -1i64));
        }
        let res = Results { n, rounds, rtt };
        proof {
            assert forall|r: int| 0 <= r < rounds implies #[trigger] res@[r] == Seq::new(
                n as nat,
                |i: int| -1i64,
            ) by {
                assert forall|i: int| 0 <= i < n implies #[trigger] res@[r][i] == -1i64 by {
                    lemma_place(r, i, n as int, rounds as int);
                }
                assert(res@[r] =~= Seq::new(n as nat, |i: int| -1i64));
            }
            assert(res@ =~= Seq::new(rounds as nat, |r: int| Seq::new(n as nat, |i: int| -1i64)));
        }
        res
    }

    /// Notes a reply, unless the round or the host is out of range or the cell already
    /// holds a reply.
    pub fn record(&mut self, round: usize, idx: usize, rtt_us: i64)
        requires
            old(self).wf(),
        ensures
            final(self).wf(),
            final(self).n == old(self).n,
            final(self).rounds == old(self).rounds,
            final(self)@ == recorded(
                old(self)@,
                old(self).n as nat,
                round as int,
                idx as int,
                rtt_us,
            ),
    {
        if round < self.rounds && idx < self.n {
            proof {
                lemma_place(round as int, idx as int, self.n as int, self.rounds as int);
                assert(round * self.n + idx < self.rtt.len());
            }
            let at: usize = round * self.n + idx;
            if self.rtt[at] == -1 {
                let ghost before = *self;
                self.rtt.set(at, rtt_us);
                proof {
                    let want = recorded(
                        before@,
                        before.n as nat,
                        round as int,
                        idx as int,
                        rtt_us,
                    );
                    assert forall|r: int| 0 <= r < self.rounds implies #[trigger] self@[r]
                        == want[r] by {
                        assert forall|i: int| 0 <= i < self.n implies #[trigger] self@[r][i]
                            == want[r][i] by {
                            lemma_place(r, i, self.n as int, self.rounds as int);
                            if r * self.n + i == at {
                                lemma_places_differ(r, i, round as int, idx as int, self.n as int);
                            }
                        }
                        assert(self@[r] =~= want[r]);
                    }
                    assert(self@ =~= want);
                }
            }
        }
    }

    /// The round trip of host `idx` in `round`, or -1.
    pub fn round(&self, round: usize, idx: usize) -> (r: i64)
        requires
            self.wf(),
            round < self.rounds,
            idx < self.n,
        ensures
            r == self@[round as int][idx as int],
    {
        proof {
            lemma_place(round as int, idx as int, self.n as int, self.rounds as int);
            assert(round * self.n + idx < self.rtt.len());
        }
        self.rtt[round * self.n + idx]
    }

    /// Whether host `idx` answered in any round.
    pub fn responded_any(&self, idx: usize) -> (r: bool)
        requires
            self.wf(),
            idx < self.n,
        ensures
            r == answered(self@, idx as int),
    {
        for k in 0..self.rounds
            invariant
                self.wf(),
                idx < self.n,
                forall|q: int| 0 <= q < k ==> #[trigger] self@[q][idx as int] < 0,
        {
            if self.round(k, idx) >= 0 {
                assert(self@[k as int][idx as int] >= 0);
                return true;
            }
        }
        false
    }

    /// The round trip of the first round in which host `idx` answered.
    pub fn first_rtt(&self, idx: usize) -> (r: Option<i64>)
        requires
            self.wf(),
            idx < self.n,
        ensures
            r == first_reply(self@, idx as int),
    {
        for k in 0..self.rounds
            invariant
                self.wf(),
                idx < self.n,
                replies_of(self@, idx as int, k as nat).len() == 0,
        {
            let v: i64 = self.round(k, idx);
            if v >= 0 {
                proof {
                    lemma_replies_prefix(self@, idx as int, (k + 1) as nat, self.rounds as nat);
                    let s = replies_of(self@, idx as int, (k + 1) as nat);
                    assert(s =~= seq![v]);
                    assert(replies_of(self@, idx as int, self.rounds as nat).take(1)[0] == v);
                }
                return Some(v);
            }
        }
        None
    }

    /// The score over a fixed number of probes.
    pub fn stats(&self, idx: usize) -> (r: Score)
        requires
            self.wf(),
            idx < self.n,
        ensures
            r == fixed_score(self@, idx as int),
    {
        let mut got: usize = 0;
        let mut sum: u128 = 0;
        for k in 0..self.rounds
            invariant
                self.wf(),
                idx < self.n,
                got <= k,
                got == replies_of(self@, idx as int, k as nat).len(),
                sum == total(replies_of(self@, idx as int, k as nat)),
                sum <= k * 0x7fff_ffff_ffff_ffff,
        {
            let v: i64 = self.round(k, idx);
            let ghost s = replies_of(self@, idx as int, k as nat);
            if v >= 0 {
                got += 1;
                sum += v as u128;
                assert(s.push(v).drop_last() =~= s);
            }
        }
        Score {
            alive: if got > 0 {
                1
            } else {
                0
            },
            lost: self.rounds - got,
            probes: self.rounds,
            rtt_sum_us: sum,
            replies: got,
        }
    }

    /// The score of a host that is probed until it answers.
    pub fn liveness(&self, idx: usize) -> (r: Score)
        requires
            self.wf(),
            idx < self.n,
        ensures
            r == adaptive_score(self@, idx as int),
    {
        proof {
            lemma_replies_len(self@, idx as int, self.rounds as nat);
        }
        match self.first_rtt(idx) {
            Some(us) => Score {
                alive: 1,
                lost: 0,
                probes: 1,
                rtt_sum_us: us as u128,
                replies: 1,
            },
            None => Score { alive: 0, lost: 1, probes: 1, rtt_sum_us: 0, replies: 0 },
        }
    }

    /// The score under the probing strategy.
    pub fn score(&self, idx: usize, adaptive: bool) -> (r: Score)
        requires
            self.wf(),
            idx < self.n,
        ensures
            r == score_spec(self@, idx as int, adaptive),
    {
        if adaptive {
            self.liveness(idx)
        } else {
            self.stats(idx)
        }
    }
}

/// A host is alive exactly if it answered in some round, under either strategy.
pub proof fn law_alive_means_answered(t: Seq<Seq<i64>>, i: int, adaptive: bool)
    ensures
        score_spec(t, i, adaptive).alive == if answered(t, i) {
            1u8
        } else {
            0u8
        },
{
    lemma_replies_answered(t, i, t.len());
    if answered(t, i) {
        let r = choose|r: int| 0 <= r < t.len() && #[trigger] t[r][i] >= 0;
        assert(0 <= r < t.len() && t[r][i] >= 0);
    }
}

/// The loss lies between nothing and all, it is all exactly for a host that is not
/// alive, and every probe is either lost or answered.
pub proof fn law_loss_is_a_share(t: Seq<Seq<i64>>, i: int, adaptive: bool)
    requires
        0 < t.len() <= usize::MAX,
    ensures
        score_spec(t, i, adaptive).lost <= score_spec(t, i, adaptive).probes,
        score_spec(t, i, adaptive).probes > 0,
        score_spec(t, i, adaptive).lost + score_spec(t, i, adaptive).replies == score_spec(
            t,
            i,
            adaptive,
        ).probes,
        score_spec(t, i, adaptive).lost == score_spec(t, i, adaptive).probes <==> score_spec(
            t,
            i,
            adaptive,
        ).alive == 0,
{
    lemma_replies_len(t, i, t.len());
}

/// Under adaptive retry the loss is 0 for a live host and 1 for a silent one.
pub proof fn law_adaptive_loss_is_binary(t: Seq<Seq<i64>>, i: int)
    ensures
        adaptive_score(t, i).probes == 1,
        adaptive_score(t, i).lost + adaptive_score(t, i).alive == 1,
{
}

/// With a fixed number of probes nothing is lost exactly if every round was answered.
pub proof fn law_no_loss_means_every_round_answered(t: Seq<Seq<i64>>, i: int)
    requires
        t.len() <= usize::MAX,
    ensures
        fixed_score(t, i).lost == 0 <==> forall|r: int|
            0 <= r < t.len() ==> #[trigger] t[r][i] >= 0,
{
    lemma_replies_len(t, i, t.len());
    lemma_all_rounds(t, i, t.len());
}

proof fn lemma_all_rounds(t: Seq<Seq<i64>>, i: int, k: nat)
    requires
        k <= t.len(),
    ensures
        replies_of(t, i, k).len() == k <==> forall|r: int| 0 <= r < k ==> #[trigger] t[r][i] >= 0,
    decreases k,
{
    if k > 0 {
        lemma_all_rounds(t, i, (k - 1) as nat);
        lemma_replies_len(t, i, (k - 1) as nat);
        if replies_of(t, i, k).len() == k {
            assert forall|r: int| 0 <= r < k implies #[trigger] t[r][i] >= 0 by {
                if r < k - 1 {
                    assert(t[r][i] >= 0);
                }
            }
        } else if t[k - 1][i] >= 0 {
            let r = choose|r: int| 0 <= r < k - 1 && !(#[trigger] t[r][i] >= 0);
            assert(0 <= r < k && !(t[r][i] >= 0));
        } else {
            assert(!(t[k - 1][i] >= 0));
        }
    }
}

/// The loss under adaptive retry is at most that over a fixed number of probes, as shares.
pub proof fn law_adaptive_loss_is_at_most_fixed_loss(t: Seq<Seq<i64>>, i: int)
    requires
        0 < t.len() <= usize::MAX,
    ensures
        adaptive_score(t, i).lost * fixed_score(t, i).probes <= fixed_score(t, i).lost
            * adaptive_score(t, i).probes,
{
    let a = adaptive_score(t, i);
    let f = fixed_score(t, i);
    lemma_replies_len(t, i, t.len());
    assert(a.lost == 0 || f.lost == f.probes);
    assert(a.lost * f.probes <= f.lost * a.probes) by (nonlinear_arith)
        requires
            a.probes == 1,
            a.lost == 0 || (a.lost == 1 && f.lost == f.probes),
    ;
}

/// A host that has answered stays answered, and a recorded reply is never changed.
pub proof fn law_first_reply_stays(
    t: Seq<Seq<i64>>,
    n: nat,
    round: int,
    idx: int,
    rtt_us: i64,
    q: int,
    i: int,
)
    requires
        forall|r: int| 0 <= r < t.len() ==> (#[trigger] t[r]).len() == n,
        0 <= q < t.len(),
        0 <= i < n,
    ensures
        t[q][i] != -1 ==> recorded(t, n, round, idx, rtt_us)[q][i] == t[q][i],
        answered(t, i) ==> answered(recorded(t, n, round, idx, rtt_us), i),
        recorded(t, n, round, idx, rtt_us).len() == t.len(),
{
    let u = recorded(t, n, round, idx, rtt_us);
    if answered(t, i) {
        let r = choose|r: int| 0 <= r < t.len() && #[trigger] t[r][i] >= 0;
        assert(u[r][i] == t[r][i]);
    }
}

/// Replies to different probes can be noted in any order.
pub proof fn law_records_commute(
    t: Seq<Seq<i64>>,
    n: nat,
    a: (int, int, i64),
    b: (int, int, i64),
)
    requires
        forall|r: int| 0 <= r < t.len() ==> (#[trigger] t[r]).len() == n,
        (a.0, a.1) != (b.0, b.1),
    ensures
        recorded(recorded(t, n, a.0, a.1, a.2), n, b.0, b.1, b.2) == recorded(
            recorded(t, n, b.0, b.1, b.2),
            n,
            a.0,
            a.1,
            a.2,
        ),
{
    let x = recorded(recorded(t, n, a.0, a.1, a.2), n, b.0, b.1, b.2);
    let y = recorded(recorded(t, n, b.0, b.1, b.2), n, a.0, a.1, a.2);
    assert forall|r: int| 0 <= r < t.len() implies #[trigger] x[r] == y[r] by {
        assert(x[r] =~= y[r]);
    }
    assert(x =~= y);
}

/// A reply is noted in its own cell and nowhere else: the cell of its round and host takes its
/// round trip as it is, if it was empty, and every other cell keeps what it had.
pub proof fn law_a_reply_fills_its_cell_alone(
    t: Seq<Seq<i64>>,
    n: nat,
    round: int,
    idx: int,
    rtt_us: i64,
    q: int,
    i: int,
)
    requires
        forall|r: int| 0 <= r < t.len() ==> (#[trigger] t[r]).len() == n,
        0 <= q < t.len(),
        0 <= i < n,
    ensures
        recorded(t, n, round, idx, rtt_us).len() == t.len(),
        recorded(t, n, round, idx, rtt_us)[q].len() == n,
        recorded(t, n, round, idx, rtt_us)[q][i] == if q == round && i == idx && t[q][i] == -1 {
            rtt_us
        } else {
            t[q][i]
        },
{
}

/// The first reply of a host is that of the first round that was answered.
pub proof fn law_first_reply_is_the_first(t: Seq<Seq<i64>>, i: int)
    ensures
        match first_reply(t, i) {
            Some(us) => exists|r: int|
                0 <= r < t.len() && us == #[trigger] t[r][i] && us >= 0 && (forall|q: int|
                    0 <= q < r ==> #[trigger] t[q][i] < 0),
            None => forall|r: int| 0 <= r < t.len() ==> #[trigger] t[r][i] < 0,
        },
{
    lemma_first_of(t, i, t.len());
}

proof fn lemma_first_of(t: Seq<Seq<i64>>, i: int, k: nat)
    requires
        k <= t.len(),
    ensures
        replies_of(t, i, k).len() > 0 ==> exists|r: int|
            0 <= r < k && replies_of(t, i, k)[0] == #[trigger] t[r][i] && t[r][i] >= 0 && (forall|
                q: int,
            |
                0 <= q < r ==> #[trigger] t[q][i] < 0),
        replies_of(t, i, k).len() == 0 ==> forall|r: int|
            0 <= r < k ==> #[trigger] t[r][i] < 0,
    decreases k,
{
    if k > 0 {
        lemma_first_of(t, i, (k - 1) as nat);
        let s = replies_of(t, i, (k - 1) as nat);
        if s.len() > 0 {
            let r = choose|r: int|
                0 <= r < k - 1 && s[0] == #[trigger] t[r][i] && t[r][i] >= 0 && (forall|q: int|
                    0 <= q < r ==> #[trigger] t[q][i] < 0);
            assert(replies_of(t, i, k)[0] == t[r][i]);
        } else if t[k - 1][i] >= 0 {
            assert(replies_of(t, i, k)[0] == t[k - 1][i]);
        }
    }
}

/// One round more adds its probe to the score: a loss where it was not answered, and else a reply
/// with its round trip. Without a round nothing is counted.
pub proof fn law_one_round_more(t: Seq<Seq<i64>>, row: Seq<i64>, i: int)
    requires
        (t.len() + 1) * 0x7fff_ffff_ffff_ffff <= u128::MAX,
        t.len() < usize::MAX,
    ensures
        ({
            let a = fixed_score(t, i);
            let b = fixed_score(t.push(row), i);
            &&& b.probes == a.probes + 1
            &&& row[i] < 0 ==> b.lost == a.lost + 1 && b.replies == a.replies && b.rtt_sum_us
                == a.rtt_sum_us
            &&& row[i] >= 0 ==> b.lost == a.lost && b.replies == a.replies + 1 && b.rtt_sum_us
                == a.rtt_sum_us + row[i]
        }),
        ({
            let z = fixed_score(Seq::empty(), i);
            z.probes == 0 && z.lost == 0 && z.replies == 0 && z.rtt_sum_us == 0
        }),
{
    let u = t.push(row);
    lemma_same_replies(t, row, i, t.len());
    lemma_replies_len(t, i, t.len());
    lemma_total_bound(replies_of(t, i, t.len()), t.len());
    let s = replies_of(t, i, t.len());
    if row[i] >= 0 {
        assert(s.push(row[i]).drop_last() =~= s);
        assert(total(s.push(row[i])) == total(s) + row[i]);
    }
}

proof fn lemma_same_replies(t: Seq<Seq<i64>>, row: Seq<i64>, i: int, k: nat)
    requires
        k <= t.len(),
    ensures
        replies_of(t.push(row), i, k) == replies_of(t, i, k),
    decreases k,
{
    if k > 0 {
        lemma_same_replies(t, row, i, (k - 1) as nat);
        assert(t.push(row)[k - 1] == t[k - 1]);
    }
}

proof fn lemma_total_bound(s: Seq<i64>, k: nat)
    requires
        s.len() <= k,
        forall|j: int| 0 <= j < s.len() ==> s[j] >= 0,
    ensures
        0 <= total(s) <= k * 0x7fff_ffff_ffff_ffff,
    decreases s.len(),
{
    if s.len() > 0 {
        lemma_total_bound(s.drop_last(), (k - 1) as nat);
    }
}

/// Under adaptive retry the round trip of a live host is that of its first reply, counted once.
pub proof fn law_adaptive_round_trip_is_the_first(t: Seq<Seq<i64>>, i: int)
    ensures
        match first_reply(t, i) {
            Some(us) => adaptive_score(t, i).rtt_sum_us == us && adaptive_score(t, i).replies == 1,
            None => adaptive_score(t, i).rtt_sum_us == 0 && adaptive_score(t, i).replies == 0,
        },
        score_spec(t, i, true) == adaptive_score(t, i),
        score_spec(t, i, false) == fixed_score(t, i),
{
    law_first_reply_is_the_first(t, i);
}

} // verus!
