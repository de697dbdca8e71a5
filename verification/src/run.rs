//! A sweep as a machine: what to do next, given the clock and the replies so far.
use crate::addr::IpAddr;
use crate::bytes;
use crate::config;
use crate::config::Config;
use crate::echo;
use crate::results::Results;
use crate::sweep;
use crate::sweep::{Pacer, Sweep};
use vstd::prelude::*;

verus! {

/// How long stragglers are waited for after the last round, in milliseconds.
pub const DRAIN_MS: u64 = 200;

/// Where a sweep stands.
#[derive(Clone, Copy, Debug, PartialEq, Eq, Structural)]
pub enum Stage {
    /// Before the first round.
    Start,
    /// That many packets of the round are sent, and the last one was just now.
    Sent(usize),
    /// That many packets of the round are sent, and the next one is due.
    Due(usize),
    /// The wait after a round is over.
    Waited,
    /// Nothing is left to do.
    Over,
}

/// What to do next.
pub enum Action {
    /// Send a message.
    Send { msg: Vec<u8>, dst: IpAddr },
    /// Wait for that many nanoseconds.
    Pause(u64),
    /// Wait for that many milliseconds.
    Wait(u64),
    /// The sweep is over.
    Stop,
}

/// The contents of an [`Action`].
pub enum Act {
    Send(Seq<u8>, IpAddr),
    Pause(u64),
    Wait(u64),
    Stop,
}

impl View for Action {
    type V = Act;

    open spec fn view(&self) -> Act {
        match *self {
            Action::Send { msg, dst } => Act::Send(msg@, dst),
            Action::Pause(ns) => Act::Pause(ns),
            Action::Wait(ms) => Act::Wait(ms),
            Action::Stop => Act::Stop,
        }
    }
}

/// A sweep over the targets.
pub struct Run {
    pub targets: Vec<IpAddr>,
    /// Marks the messages of this run.
    pub run_id: u16,
    /// Makes its cookies.
    pub secret: u32,
    pub payload: usize,
    pub timeout_ms: u64,
    pub rate: u64,
    pub sweep: Sweep,
    pub pacer: Pacer,
    pub stage: Stage,
}

/// The contents of a [`Run`].
pub struct Course {
    pub targets: Seq<IpAddr>,
    pub run_id: u16,
    pub secret: u32,
    pub payload: usize,
    pub timeout_ms: u64,
    pub rate: u64,
    pub rounds: sweep::Rounds,
    pub gap_ns: Option<u64>,
    pub next_ns: u64,
    pub stage: Stage,
}

impl View for Run {
    type V = Course;

    open spec fn view(&self) -> Course {
        Course {
            targets: self.targets@,
            run_id: self.run_id,
            secret: self.secret,
            payload: self.payload,
            timeout_ms: self.timeout_ms,
            rate: self.rate,
            rounds: self.sweep@,
            gap_ns: self.pacer.gap_ns,
            next_ns: self.pacer.next_ns,
            stage: self.stage,
        }
    }
}

/// Pending hosts are targets, and no more packets of a round are sent than it has hosts.
pub open spec fn sound(c: Course) -> bool {
    &&& c.payload + echo::HDR <= isize::MAX
    &&& forall|k: int|
        0 <= k < c.rounds.pending.len() ==> #[trigger] c.rounds.pending[k] < c.targets.len()
    &&& match c.stage {
        Stage::Start => true,
        Stage::Sent(k) => k <= c.rounds.pending.len() && c.rounds.round < c.rounds.rounds,
        Stage::Due(k) => k <= c.rounds.pending.len() && c.rounds.round < c.rounds.rounds,
        Stage::Waited => c.rounds.round < c.rounds.rounds,
        Stage::Over => true,
    }
}

/// With `k` packets of the round sent: the next one, or the wait after the round.
pub open spec fn resume(c: Course, k: usize, now_ns: u64) -> (Course, Act) {
    if k < c.rounds.pending.len() {
        let i = c.rounds.pending[k as int];
        let msg = sweep::probe_spec(
            c.targets,
            i,
            sweep::round_word(c.rounds.round),
            c.run_id,
            c.secret,
            now_ns,
            c.payload,
        );
        (Course { stage: Stage::Sent((k + 1) as usize), ..c }, Act::Send(msg, c.targets[i as int]))
    } else {
        (Course { stage: Stage::Waited, ..c }, Act::Wait(c.timeout_ms))
    }
}

/// The start of the next round, or the wait for stragglers where there is none.
pub open spec fn begin(c: Course, now_ns: u64) -> (Course, Act) {
    if sweep::goes_on(c.rounds) {
        resume(Course { gap_ns: sweep::gap_spec(c.rate), next_ns: now_ns, ..c }, 0, now_ns)
    } else {
        (Course { stage: Stage::Over, ..c }, Act::Wait(DRAIN_MS))
    }
}

/// What happens next at `now_ns`, where the replies so far make up the table `t`.
pub open spec fn next(c: Course, now_ns: u64, t: Seq<Seq<i64>>) -> (Course, Act) {
    match c.stage {
        Stage::Start => begin(c, now_ns),
        Stage::Sent(k) => match c.gap_ns {
            Some(gap) => {
                let due = c.next_ns + gap;
                let d = Course { next_ns: due as u64, ..c };
                match sweep::wait_spec(due, now_ns as int) {
                    Some(ns) => (Course { stage: Stage::Due(k), ..d }, Act::Pause(ns)),
                    None => resume(d, k, now_ns),
                }
            },
            None => resume(c, k, now_ns),
        },
        Stage::Due(k) => resume(c, k, now_ns),
        Stage::Waited => begin(Course { rounds: sweep::ended(c.rounds, t), ..c }, now_ns),
        Stage::Over => (c, Act::Stop),
    }
}

impl Run {
    /// A sweep over `targets` by the process `pid`, with the clock for a secret.
    pub fn new(cfg: &Config, targets: Vec<IpAddr>, pid: u32, clock: u32) -> (run: Run)
        requires
            config::adaptive(cfg@) ==> cfg.retries < u32::MAX,
            cfg.payload + echo::HDR <= isize::MAX,
        ensures
            sound(run@),
            run@ == (Course {
                targets: targets@,
                run_id: (pid % 0x1_0000) as u16,
                secret: sweep::secret_spec(clock, (pid % 0x1_0000) as u16),
                payload: cfg.payload,
                timeout_ms: cfg.timeout_ms,
                rate: cfg.rate,
                rounds: sweep::Rounds {
                    adaptive: config::adaptive(cfg@),
                    rounds: config::rounds_spec(cfg@) as usize,
                    round: 0,
                    pending: sweep::everyone(targets@.len()),
                },
                gap_ns: sweep::gap_spec(cfg.rate),
                next_ns: 0,
                stage: Stage::Start,
            }),
            config::adaptive(cfg@) ==> run@.rounds.rounds == cfg.retries + 1,
            !config::adaptive(cfg@) && cfg.count >= 1 ==> run@.rounds.rounds == cfg.count,
            !config::adaptive(cfg@) && cfg.count == 0 ==> run@.rounds.rounds == 1,
    {
        let adaptive = config::is_adaptive(cfg);
        let rounds: usize = config::round_count(cfg);
        let id: u16 = sweep::run_id(pid);
        let n: usize = targets.len();
        Run {
            targets,
            run_id: id,
            secret: sweep::run_secret(clock, id),
            payload: cfg.payload,
            timeout_ms: cfg.timeout_ms,
            rate: cfg.rate,
            sweep: Sweep::new(n, adaptive, rounds),
            pacer: Pacer::new(cfg.rate, 0),
            stage: Stage::Start,
        }
    }

    fn resume(&mut self, k: usize, now_ns: u64) -> (r: Action)
        requires
            sound(old(self)@),
            old(self).sweep.round < old(self).sweep.rounds,
            k <= old(self).sweep.pending@.len(),
        ensures
            (final(self)@, r@) == resume(old(self)@, k, now_ns),
            sound(final(self)@),
    {
        if k < self.sweep.pending.len() {
            let i: usize = self.sweep.pending[k];
            let round: u16 = (self.sweep.round % 0x1_0000) as u16;
            assert(self@.rounds.pending[k as int] < self@.targets.len());
            let msg = sweep::probe(
                self.targets.as_slice(),
                i,
                round,
                self.run_id,
                self.secret,
                now_ns,
                self.payload,
            );
            self.stage = Stage::Sent(k + 1);
            Action::Send { msg, dst: self.targets[i] }
        } else {
            self.stage = Stage::Waited;
            Action::Wait(self.timeout_ms)
        }
    }

    fn begin(&mut self, now_ns: u64) -> (r: Action)
        requires
            sound(old(self)@),
        ensures
            (final(self)@, r@) == begin(old(self)@, now_ns),
            sound(final(self)@),
    {
        match self.sweep.next() {
            Some(_) => {
                self.pacer = Pacer::new(self.rate, now_ns);
                self.stage = Stage::Start;
                self.resume(0, now_ns)
            },
            None => {
                self.stage = Stage::Over;
                Action::Wait(DRAIN_MS)
            },
        }
    }

    /// The next action at `now_ns`, given the replies so far. The time at which the packet
    /// after the next is due must still be countable.
    pub fn step(&mut self, now_ns: u64, results: &Results) -> (r: Action)
        requires
            sound(old(self)@),
            results.wf(),
            results.n == old(self)@.targets.len(),
            old(self)@.stage is Sent ==> (old(self)@.gap_ns matches Some(gap) ==> old(
                self,
            )@.next_ns + gap <= u64::MAX),
        ensures
            (final(self)@, r@) == next(old(self)@, now_ns, results@),
            sound(final(self)@),
    {
        match self.stage {
            Stage::Start => self.begin(now_ns),
            Stage::Sent(k) => match self.pacer.pause(now_ns) {
                Some(ns) => {
                    self.stage = Stage::Due(k);
                    Action::Pause(ns)
                },
                None => self.resume(k, now_ns),
            },
            Stage::Due(k) => self.resume(k, now_ns),
            Stage::Waited => {
                assert(forall|k: int|
                    0 <= k < self.sweep.pending@.len() ==> #[trigger] self.sweep.pending@[k]
                        == self@.rounds.pending[k]);
                self.sweep.finish_round(results);
                self.stage = Stage::Start;
                self.begin(now_ns)
            },
            Stage::Over => Action::Stop,
        }
    }
}

/// The probes of the rounds before `r`, as pairs of round and host.
pub open spec fn probes_before(
    n: nat,
    adaptive: bool,
    tables: Seq<Seq<Seq<i64>>>,
    r: nat,
) -> Seq<(nat, usize)>
    decreases r,
{
    if r == 0 {
        Seq::empty()
    } else {
        let q = (r - 1) as nat;
        probes_before(n, adaptive, tables, q) + probes_of(n, adaptive, tables, q)
    }
}

/// The probes of round `r`.
pub open spec fn probes_of(
    n: nat,
    adaptive: bool,
    tables: Seq<Seq<Seq<i64>>>,
    r: nat,
) -> Seq<(nat, usize)> {
    sweep::plan(n, adaptive, tables, r).map_values(|i: usize| (r, i))
}

/// A sweep keeps to its plan: `tables[q]` is the table with which round `q` ended, and `log`
/// are the probes sent so far.
pub open spec fn on_plan(
    c: Course,
    tables: Seq<Seq<Seq<i64>>>,
    log: Seq<(nat, usize)>,
) -> bool {
    let n = c.targets.len();
    let r = c.rounds.round as nat;
    let adaptive = c.rounds.adaptive;
    &&& tables.len() == r
    &&& c.rounds.pending == sweep::plan(n, adaptive, tables, r)
    &&& match c.stage {
        Stage::Start => r == 0 && log.len() == 0,
        Stage::Sent(k) => log == probes_before(n, adaptive, tables, r) + probes_of(
            n,
            adaptive,
            tables,
            r,
        ).take(k as int),
        Stage::Due(k) => log == probes_before(n, adaptive, tables, r) + probes_of(
            n,
            adaptive,
            tables,
            r,
        ).take(k as int),
        Stage::Waited => log == probes_before(n, adaptive, tables, r + 1),
        Stage::Over => log == probes_before(n, adaptive, tables, r) && !sweep::goes_on(c.rounds),
    }
}

/// The tables with which rounds ended, after a step with table `t`.
pub open spec fn tables_after(c: Course, tables: Seq<Seq<Seq<i64>>>, t: Seq<Seq<i64>>) -> Seq<
    Seq<Seq<i64>>,
> {
    if c.stage is Waited {
        tables.push(t)
    } else {
        tables
    }
}

/// The probes sent after a step: a message is the probe of a round to a host.
pub open spec fn log_after(c: Course, now_ns: u64, t: Seq<Seq<i64>>, log: Seq<(nat, usize)>) -> Seq<
    (nat, usize),
> {
    let (d, act) = next(c, now_ns, t);
    match (act, d.stage) {
        (Act::Send(_, _), Stage::Sent(k)) => log.push(
            (d.rounds.round as nat, d.rounds.pending[k - 1]),
        ),
        _ => log,
    }
}

/// Plans of rounds that have ended do not depend on how later rounds end.
proof fn lemma_plan_prefix(
    n: nat,
    adaptive: bool,
    tables: Seq<Seq<Seq<i64>>>,
    t: Seq<Seq<i64>>,
    r: nat,
)
    requires
        r <= tables.len(),
    ensures
        sweep::plan(n, adaptive, tables.push(t), r) == sweep::plan(n, adaptive, tables, r),
        probes_before(n, adaptive, tables.push(t), r) == probes_before(n, adaptive, tables, r),
    decreases r,
{
    if r > 0 {
        lemma_plan_prefix(n, adaptive, tables, t, (r - 1) as nat);
        assert(probes_of(n, adaptive, tables.push(t), (r - 1) as nat) =~= probes_of(
            n,
            adaptive,
            tables,
            (r - 1) as nat,
        ));
    }
}

proof fn lemma_resume_on_plan(
    c: Course,
    tables: Seq<Seq<Seq<i64>>>,
    log: Seq<(nat, usize)>,
    k: usize,
    now_ns: u64,
)
    requires
        sound(c),
        c.rounds.round < c.rounds.rounds,
        k <= c.rounds.pending.len(),
        tables.len() == c.rounds.round,
        c.rounds.pending == sweep::plan(
            c.targets.len(),
            c.rounds.adaptive,
            tables,
            c.rounds.round as nat,
        ),
        log == probes_before(
            c.targets.len(),
            c.rounds.adaptive,
            tables,
            c.rounds.round as nat,
        ) + probes_of(
            c.targets.len(),
            c.rounds.adaptive,
            tables,
            c.rounds.round as nat,
        ).take(k as int),
        c.rounds.pending.len() <= usize::MAX,
    ensures
        ({
            let (d, act) = resume(c, k, now_ns);
            let more = if act is Send {
                log.push((c.rounds.round as nat, c.rounds.pending[k as int]))
            } else {
                log
            };
            on_plan(d, tables, more)
        }),
{
    let n = c.targets.len();
    let r = c.rounds.round as nat;
    let all = probes_of(n, c.rounds.adaptive, tables, r);
    if k < c.rounds.pending.len() {
        assert(all.take(k + 1) =~= all.take(k as int).push(all[k as int]));
        assert(log.push(all[k as int]) =~= probes_before(n, c.rounds.adaptive, tables, r)
            + all.take(k + 1));
    } else {
        assert(all.take(k as int) =~= all);
        assert(log =~= probes_before(n, c.rounds.adaptive, tables, r + 1));
    }
}

/// A sweep starts on plan, with nothing sent.
pub proof fn law_a_sweep_starts_on_plan(c: Course)
    requires
        c.stage is Start,
        c.rounds.round == 0,
        c.rounds.pending == sweep::everyone(c.targets.len()),
    ensures
        on_plan(c, Seq::empty(), Seq::empty()),
{
}

/// Every step stays on plan: the probes sent are those of the plan, round by round and host by
/// host, and the sweep stops only when no round is left to send.
pub proof fn law_every_step_stays_on_plan(
    c: Course,
    tables: Seq<Seq<Seq<i64>>>,
    log: Seq<(nat, usize)>,
    now_ns: u64,
    t: Seq<Seq<i64>>,
)
    requires
        sound(c),
        c.rounds.pending.len() <= usize::MAX,
        on_plan(c, tables, log),
    ensures
        on_plan(next(c, now_ns, t).0, tables_after(c, tables, t), log_after(c, now_ns, t, log)),
{
    let n = c.targets.len();
    let adaptive = c.rounds.adaptive;
    let r = c.rounds.round as nat;
    match c.stage {
        Stage::Start => {
            if sweep::goes_on(c.rounds) {
                let b = Course { gap_ns: sweep::gap_spec(c.rate), next_ns: now_ns, ..c };
                assert(log =~= probes_before(n, adaptive, tables, r) + probes_of(
                    n,
                    adaptive,
                    tables,
                    r,
                ).take(0));
                lemma_resume_on_plan(b, tables, log, 0, now_ns);
            } else {
                assert(log =~= Seq::empty());
            }
        },
        Stage::Sent(k) => {
            match c.gap_ns {
                Some(gap) => {
                    let d = Course { next_ns: (c.next_ns + gap) as u64, ..c };
                    lemma_resume_on_plan(d, tables, log, k, now_ns);
                },
                None => {
                    lemma_resume_on_plan(c, tables, log, k, now_ns);
                },
            }
        },
        Stage::Due(k) => {
            lemma_resume_on_plan(c, tables, log, k, now_ns);
        },
        Stage::Waited => {
            let more = tables.push(t);
            let e = Course { rounds: sweep::ended(c.rounds, t), ..c };
            sweep::lemma_still_silent_len(c.rounds.pending, t);
            lemma_plan_prefix(n, adaptive, tables, t, r);
            assert(probes_of(n, adaptive, more, r) =~= probes_of(n, adaptive, tables, r));
            assert(probes_before(n, adaptive, more, r + 1) == probes_before(
                n,
                adaptive,
                tables,
                r + 1,
            ));
            assert(e.rounds.pending == sweep::plan(n, adaptive, more, r + 1));
            if sweep::goes_on(e.rounds) {
                let b = Course {
                    gap_ns: sweep::gap_spec(c.rate),
                    next_ns: now_ns,
                    stage: Stage::Start,
                    ..e
                };
                assert(log =~= probes_before(n, adaptive, more, r + 1) + probes_of(
                    n,
                    adaptive,
                    more,
                    r + 1,
                ).take(0));
                lemma_resume_on_plan(b, more, log, 0, now_ns);
            }
        },
        Stage::Over => {},
    }
}

/// A bound on the steps that are left: two for each packet of a round, and four more.
pub open spec fn steps_left(c: Course) -> int {
    let each = 2 * c.targets.len() + 4;
    let pending = c.rounds.pending.len();
    let later = (c.rounds.rounds - c.rounds.round - 1) * each;
    match c.stage {
        Stage::Start => if c.rounds.round < c.rounds.rounds {
            later + each + 3
        } else {
            3
        },
        Stage::Sent(k) => later + 2 * (pending - k) + 5,
        Stage::Due(k) => later + 2 * (pending - k) + 4,
        Stage::Waited => later + 3,
        Stage::Over => 1,
    }
}

/// A sweep ends: until it is over, every step leaves fewer to do, and some are always left.
pub proof fn law_a_sweep_ends(c: Course, now_ns: u64, t: Seq<Seq<i64>>)
    requires
        sound(c),
        c.rounds.pending.len() <= c.targets.len() <= usize::MAX,
        !(c.stage is Over),
    ensures
        0 < steps_left(next(c, now_ns, t).0) < steps_left(c),
        next(c, now_ns, t).0.rounds.pending.len() <= c.targets.len(),
{
    let each = 2 * c.targets.len() + 4;
    let rest = c.rounds.rounds - c.rounds.round - 1;
    sweep::lemma_still_silent_len(c.rounds.pending, t);
    if rest >= 0 {
        assert(rest * each >= 0) by (nonlinear_arith)
            requires
                rest >= 0,
                each >= 0,
        ;
    }
    if rest >= 1 {
        assert((rest - 1) * each == rest * each - each) by (nonlinear_arith);
        assert((rest - 1) * each >= 0) by (nonlinear_arith)
            requires
                rest >= 1,
                each >= 0,
        ;
    }
}

/// Whether `m` is the probe of host `i` in a round, sent at `ts`: an echo request in the family of
/// the host that tells the run, the round, the index, the cookie and the time, each at its place,
/// and has as many bytes of payload as were asked for, at least 20.
pub open spec fn tells(m: Seq<u8>, c: Course, i: usize, round: usize, ts: u64) -> bool {
    &&& m.len() == 8 + if c.payload > 20 {
        c.payload as int
    } else {
        20
    }
    &&& m[0] == if c.targets[i as int] is V6 {
        128u8
    } else {
        8
    }
    &&& bytes::be_value(m.subrange(4, 6)) == c.run_id
    &&& bytes::be_value(m.subrange(6, 8)) == round as nat % 65536
    &&& bytes::be_value(m.subrange(12, 16)) == i as nat % 4294967296
    &&& bytes::be_value(m.subrange(16, 20)) == echo::cookie(c.targets[i as int], c.secret)
    &&& bytes::be_value(m.subrange(20, 28)) == ts
}

/// What a sweep does next goes by where it stands. In a round it sends to the pending hosts in
/// order, each message with the time of its sending; with a rate it first waits until one gap
/// after the time that was due; after the last host it waits as long as it was told.
pub proof fn law_what_comes_next_in_a_round(c: Course, now_ns: u64, t: Seq<Seq<i64>>, k: usize)
    requires
        sound(c),
        c.stage == Stage::Sent(k) || c.stage == Stage::Due(k),
        c.gap_ns matches Some(gap) ==> c.next_ns + gap <= u64::MAX,
    ensures
        ({
            let (d, act) = next(c, now_ns, t);
            let gap = match c.gap_ns {
                Some(g) => g as int,
                None => 0,
            };
            let due = c.next_ns + gap;
            let waits = c.stage is Sent && c.gap_ns is Some && due > now_ns;
            &&& d.rounds == c.rounds && d.targets == c.targets
            &&& waits ==> (act matches Act::Pause(ns) && now_ns + ns == due && d.stage
                == Stage::Due(k) && d.next_ns == due)
            &&& !waits && k < c.rounds.pending.len() ==> (act matches Act::Send(m, dst) && {
                let i = c.rounds.pending[k as int];
                &&& dst == c.targets[i as int]
                &&& tells(m, c, i, c.rounds.round, now_ns)
                &&& d.stage == Stage::Sent((k + 1) as usize)
            })
            &&& !waits && k >= c.rounds.pending.len() ==> act == Act::Wait(c.timeout_ms)
                && d.stage is Waited
        }),
{
    if k < c.rounds.pending.len() {
        assert(c.rounds.pending[k as int] < c.targets.len());
        sweep::law_probe_tells_its_host(
            c.targets,
            c.rounds.pending[k as int],
            sweep::round_word(c.rounds.round),
            c.run_id,
            c.secret,
            now_ns,
            c.payload,
        );
    }
}

/// Between rounds: while a round is left and, under adaptive retry, a host is silent, the next
/// round begins with its first host and a fresh clock; else stragglers are waited for, 200
/// milliseconds, and then the sweep stops.
pub proof fn law_what_comes_next_between_rounds(c: Course, now_ns: u64, t: Seq<Seq<i64>>)
    requires
        sound(c),
        c.stage is Start || c.stage is Waited || c.stage is Over,
    ensures
        ({
            let (d, act) = next(c, now_ns, t);
            let s = if c.stage is Waited {
                sweep::ended(c.rounds, t)
            } else {
                c.rounds
            };
            let more = s.round < s.rounds && (!s.adaptive || s.pending.len() > 0);
            &&& c.stage is Over ==> act is Stop && d == c
            &&& !(c.stage is Over) ==> d.rounds == s
            &&& !(c.stage is Over) && more && s.pending.len() > 0 ==> (act matches Act::Send(m, dst)
                && dst == c.targets[s.pending[0] as int] && tells(
                m,
                c,
                s.pending[0],
                s.round,
                now_ns,
            ) && d.stage == Stage::Sent(1) && d.next_ns == now_ns)
            &&& !(c.stage is Over) && more && s.pending.len() == 0 ==> act == Act::Wait(
                c.timeout_ms,
            ) && d.stage is Waited
            &&& !(c.stage is Over) && !more ==> act == Act::Wait(200) && d.stage is Over
        }),
{
    let s = if c.stage is Waited {
        sweep::ended(c.rounds, t)
    } else {
        c.rounds
    };
    if s.pending.len() > 0 {
        sweep::lemma_still_silent_len(c.rounds.pending, t);
        assert(s.pending[0] < c.targets.len());
        sweep::law_probe_tells_its_host(
            c.targets,
            s.pending[0],
            sweep::round_word(s.round),
            c.run_id,
            c.secret,
            now_ns,
            c.payload,
        );
    }
}

/// With a fixed number of probes a sweep that is over has sent every host one probe in every round:
/// all hosts in order, round after round, and nothing else.
pub proof fn law_fixed_sweep_probes_everyone_every_round(
    c: Course,
    tables: Seq<Seq<Seq<i64>>>,
    log: Seq<(nat, usize)>,
    q: int,
    i: int,
)
    requires
        on_plan(c, tables, log),
        c.stage is Over,
        !c.rounds.adaptive,
        c.rounds.round <= c.rounds.rounds,
        0 <= q < c.rounds.rounds,
        0 <= i < c.targets.len() <= usize::MAX,
    ensures
        c.rounds.round == c.rounds.rounds,
        log.len() == c.rounds.rounds * c.targets.len(),
        log[q * c.targets.len() + i] == (q as nat, i as usize),
{
    lemma_fixed_log(c.targets.len(), tables, c.rounds.round as nat, q, i);
}

proof fn lemma_fixed_log(n: nat, tables: Seq<Seq<Seq<i64>>>, r: nat, q: int, i: int)
    requires
        0 <= q < r,
        0 <= i < n <= usize::MAX,
    ensures
        probes_before(n, false, tables, r).len() == r * n,
        probes_before(n, false, tables, r)[q * n + i] == (q as nat, i as usize),
        q * n + i < r * n,
    decreases r,
{
    let p = (r - 1) as nat;
    let front = probes_before(n, false, tables, p);
    let last = probes_of(n, false, tables, p);
    assert(last.len() == n);
    assert(r * n == p * n + n) by (nonlinear_arith)
        requires
            r == p + 1,
    ;
    if p == 0 {
        assert(front.len() == 0);
        assert(0 * n == 0);
    } else {
        lemma_fixed_log(
            n,
            tables,
            p,
            if q < p {
                q
            } else {
                0
            },
            i,
        );
    }
    if q < p {
        assert(q * n + i < p * n);
        assert(q * n + i >= 0) by (nonlinear_arith)
            requires
                q >= 0,
                i >= 0,
                n >= 0,
        ;
    } else {
        assert(q == p);
        assert(last[i] == (p, i as usize));
    }
}

/// A sweep never counts more rounds than it has, and what it was started with stays: targets,
/// identity, payload, timeout, rate and strategy.
pub proof fn law_a_sweep_keeps_what_it_was_started_with(c: Course, now_ns: u64, t: Seq<Seq<i64>>)
    requires
        sound(c),
        c.rounds.round <= c.rounds.rounds,
    ensures
        ({
            let d = next(c, now_ns, t).0;
            &&& d.rounds.round <= d.rounds.rounds == c.rounds.rounds
            &&& d.rounds.adaptive == c.rounds.adaptive
            &&& d.targets == c.targets
            &&& d.run_id == c.run_id && d.secret == c.secret
            &&& d.payload == c.payload && d.timeout_ms == c.timeout_ms && d.rate == c.rate
        }),
{
}

} // verus!
