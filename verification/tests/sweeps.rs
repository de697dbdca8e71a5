use fastping::config::round_count;
use fastping::results::Score;
use fastping::ring::{captured, is_ready, next_step, recv_deadline, slot, Step, BLOCK_NR, FRAMES_PER_BLOCK, FRAME_NR, FRAME_SIZE, RING_SIZE};
use fastping::run::{Action, Run, Stage};
use fastping::sweep::{Pacer, Sweep};
use fastping::{is_adaptive, Config, IpAddr, Output, Results};

fn hosts(n: u32) -> Vec<IpAddr> {
    (0..n).map(|i| IpAddr::V4(0x0a00_0001 + i)).collect()
}

fn settings(output: Output, discover: bool) -> Config {
    let mut cfg = Config::default();
    cfg.output = output;
    cfg.discover = discover;
    cfg
}

#[test]
fn default_settings_are_those_of_the_usage_text() {
    let cfg = Config::default();
    assert_eq!((cfg.timeout_ms, cfg.retries, cfg.rate, cfg.payload), (1500, 2, 0, 20));
    assert_eq!((cfg.output, cfg.count, cfg.zbx_batch, cfg.discover), (Output::Plain, 3, 1000, false));
    assert_eq!(cfg.zbx_key, "icmp");
    assert_eq!((cfg.zbx_server, cfg.iface), (None, None));
}

#[test]
fn strategy_follows_the_output() {
    for discover in [false, true] {
        assert!(is_adaptive(&settings(Output::Plain, discover)));
        assert!(!is_adaptive(&settings(Output::Fping, discover)));
        assert_eq!(is_adaptive(&settings(Output::Zabbix, discover)), discover);
        assert_eq!(is_adaptive(&settings(Output::Json, discover)), discover);
    }
}

#[test]
fn rounds_are_retries_or_probes() {
    let mut cfg = settings(Output::Plain, false);
    assert_eq!(round_count(&cfg), 3);
    cfg.retries = 0;
    assert_eq!(round_count(&cfg), 1);
    cfg.output = Output::Fping;
    assert_eq!(round_count(&cfg), 3);
    cfg.count = 0;
    assert_eq!(round_count(&cfg), 1);
}

#[test]
fn table_starts_empty_and_keeps_first_replies() {
    let mut res = Results::new(3, 2);
    for r in 0..2 {
        for i in 0..3 {
            assert_eq!(res.round(r, i), -1);
        }
    }
    res.record(1, 2, 500);
    res.record(1, 2, 300);
    res.record(2, 0, 1);
    res.record(0, 3, 1);
    assert_eq!(res.round(1, 2), 500);
    assert_eq!((0..3).map(|i| res.responded_any(i)).collect::<Vec<_>>(), vec![false, false, true]);
    res.record(0, 2, 0);
    assert_eq!(res.first_rtt(2), Some(0));
    assert_eq!(res.first_rtt(0), None);
}

#[test]
fn order_of_replies_to_different_probes_does_not_matter() {
    let mut a = Results::new(2, 2);
    let mut b = Results::new(2, 2);
    a.record(0, 1, 5);
    a.record(1, 1, 6);
    b.record(1, 1, 6);
    b.record(0, 1, 5);
    assert_eq!(a.rtt, b.rtt);
    assert_eq!(a.rtt, vec![-1, 5, -1, 6]);
}

#[test]
fn fixed_score_counts_losses() {
    let mut res = Results::new(2, 4);
    res.record(0, 0, 1000);
    res.record(2, 0, 2001);
    res.record(3, 0, 0);
    assert_eq!(
        res.score(0, false),
        Score { alive: 1, lost: 1, probes: 4, rtt_sum_us: 3001, replies: 3 }
    );
    assert_eq!(res.stats(1), Score { alive: 0, lost: 4, probes: 4, rtt_sum_us: 0, replies: 0 });
}

#[test]
fn adaptive_score_is_all_or_nothing() {
    let mut res = Results::new(2, 3);
    res.record(1, 0, 700);
    res.record(2, 0, 10);
    assert_eq!(
        res.score(0, true),
        Score { alive: 1, lost: 0, probes: 1, rtt_sum_us: 700, replies: 1 }
    );
    assert_eq!(res.liveness(1), Score { alive: 0, lost: 1, probes: 1, rtt_sum_us: 0, replies: 0 });
}

#[test]
fn large_round_trips_do_not_overflow_the_sum() {
    let mut res = Results::new(1, 2);
    res.record(0, 0, i64::MAX);
    res.record(1, 0, i64::MAX);
    assert_eq!(res.stats(0).rtt_sum_us, 2 * (i64::MAX as u128));
}

#[test]
fn adaptive_sweep_retries_only_the_silent() {
    let mut res = Results::new(4, 3);
    let mut s = Sweep::new(4, true, 3);
    assert_eq!((s.next(), s.pending.clone()), (Some(0), vec![0, 1, 2, 3]));
    res.record(0, 1, 10);
    res.record(0, 3, 10);
    s.finish_round(&res);
    assert_eq!((s.next(), s.pending.clone()), (Some(1), vec![0, 2]));
    res.record(0, 0, 10);
    s.finish_round(&res);
    assert_eq!((s.next(), s.pending.clone()), (Some(2), vec![2]));
    res.record(2, 2, 10);
    s.finish_round(&res);
    assert_eq!(s.next(), None);
}

#[test]
fn adaptive_sweep_stops_when_all_have_answered() {
    let mut res = Results::new(2, 3);
    let mut s = Sweep::new(2, true, 3);
    res.record(0, 0, 1);
    res.record(0, 1, 1);
    s.finish_round(&res);
    assert_eq!(s.round, 1);
    assert_eq!(s.next(), None);
    assert_eq!(Sweep::new(0, true, 3).next(), None);
}

#[test]
fn fixed_sweep_probes_everyone_every_round() {
    let mut res = Results::new(2, 2);
    let mut s = Sweep::new(2, false, 2);
    res.record(0, 0, 1);
    res.record(0, 1, 1);
    s.finish_round(&res);
    assert_eq!((s.next(), s.pending.clone()), (Some(1), vec![0, 1]));
    s.finish_round(&res);
    assert_eq!(s.next(), None);
}

#[test]
fn round_numbers_wrap_at_sixteen_bits() {
    let mut s = Sweep::new(1, false, 70000);
    s.round = 65537;
    assert_eq!(s.next(), Some(1));
}

#[test]
fn pacer_spaces_packets() {
    let mut p = Pacer::new(1000, 50);
    assert_eq!(p.gap_ns, Some(1_000_000));
    assert_eq!(p.pause(60), Some(999_990));
    assert_eq!(p.pause(2_000_049), Some(1));
    assert_eq!(p.pause(9_000_000), None);
    assert_eq!(p.next_ns, 3_000_050);
    let mut free = Pacer::new(0, 50);
    assert_eq!((free.gap_ns, free.pause(60)), (None, None));
}

fn kind(a: &Action) -> String {
    match a {
        Action::Send { msg, dst } => format!("send {} round {} host {}", dst.text(), msg[7], msg[15]),
        Action::Pause(ns) => format!("pause {}", ns),
        Action::Wait(ms) => format!("wait {}", ms),
        Action::Stop => "stop".to_string(),
    }
}

#[test]
fn an_adaptive_run_step_by_step() {
    let mut cfg = Config::default();
    cfg.retries = 1;
    cfg.timeout_ms = 700;
    let mut run = Run::new(&cfg, hosts(2), 0x1_0007, 5);
    assert_eq!((run.run_id, run.stage), (7, Stage::Start));
    let mut res = Results::new(2, run.sweep.rounds);
    assert_eq!(kind(&run.step(10, &res)), "send 10.0.0.1 round 0 host 0");
    assert_eq!(kind(&run.step(20, &res)), "send 10.0.0.2 round 0 host 1");
    assert_eq!(kind(&run.step(30, &res)), "wait 700");
    res.record(0, 0, 9);
    assert_eq!(kind(&run.step(40, &res)), "send 10.0.0.2 round 1 host 1");
    assert_eq!(kind(&run.step(50, &res)), "wait 700");
    assert_eq!(kind(&run.step(60, &res)), "wait 200");
    assert_eq!(kind(&run.step(70, &res)), "stop");
    assert_eq!(run.stage, Stage::Over);
}

#[test]
fn a_paced_run_pauses_after_every_packet() {
    let mut cfg = Config::default();
    cfg.output = Output::Fping;
    cfg.count = 1;
    cfg.rate = 10;
    let mut run = Run::new(&cfg, hosts(2), 1, 5);
    let res = Results::new(2, 1);
    assert_eq!(kind(&run.step(1000, &res)), "send 10.0.0.1 round 0 host 0");
    assert_eq!(kind(&run.step(2000, &res)), "pause 99999000");
    assert_eq!(kind(&run.step(100_001_000, &res)), "send 10.0.0.2 round 0 host 1");
    assert_eq!(kind(&run.step(300_000_000, &res)), "wait 1500");
    assert_eq!(kind(&run.step(0, &res)), "wait 200");
    assert_eq!(kind(&run.step(0, &res)), "stop");
}

#[test]
fn probes_of_a_run_carry_the_time_and_validate() {
    let cfg = Config::default();
    let mut run = Run::new(&cfg, hosts(3), 99, 1234);
    let res = Results::new(3, 3);
    for i in 0..3usize {
        let now = 1_000_000 * (i as u64 + 1);
        match run.step(now, &res) {
            Action::Send { mut msg, dst } => {
                msg[0] = 0;
                let got = fastping::echo::validate(&msg, dst, &run.targets, run.run_id, run.secret, now + 42_000);
                assert_eq!(got, Some((0, i, 42)));
            }
            other => panic!("{}", kind(&other)),
        }
    }
}

#[test]
fn a_run_without_targets() {
    let mut run = Run::new(&Config::default(), hosts(0), 1, 1);
    let res = Results::new(0, 3);
    assert_eq!(kind(&run.step(0, &res)), "wait 200");
    assert_eq!(kind(&run.step(0, &res)), "stop");
}

#[test]
fn ring_slots_go_round() {
    assert_eq!(FRAMES_PER_BLOCK * BLOCK_NR, FRAME_NR);
    assert_eq!(FRAME_NR * FRAME_SIZE, RING_SIZE);
    assert_eq!((slot(0), slot(1), slot(4095), slot(4096)), (0, 2048, 8386560, 0));
    assert_eq!(slot(usize::MAX), 8386560);
    assert!(is_ready(1) && is_ready(5) && !is_ready(0) && !is_ready(4));
}

#[test]
fn captured_bytes_are_as_many_as_on_the_wire() {
    assert_eq!(captured(0, 66, 100), (66, 166));
    assert_eq!(captured(0, 66, 9000), (66, 9066));
    assert_eq!(captured(4097, 66, 9000), (2114, 11114));
    assert_eq!(captured(3, 5000, 10), (11144, 11154));
    assert_eq!(captured(4095, 66, 1982), (8386626, 8388608));
    assert_eq!(captured(4095, 66, 9000), (8386626, RING_SIZE));
    assert_eq!(captured(4095, 3000, 1), (RING_SIZE, RING_SIZE));
    assert_eq!(captured(0, 10, usize::MAX), (10, RING_SIZE));
}

#[test]
fn a_receive_call_ends_at_its_deadline() {
    let deadline = recv_deadline(1000);
    assert_eq!(deadline, 1200);
    assert_eq!(next_step(false, 1000, deadline), Step::Poll(200));
    assert_eq!(next_step(true, 1050, deadline), Step::Parse);
    assert_eq!(next_step(false, 1199, deadline), Step::Poll(1));
    assert_eq!(next_step(false, 1200, deadline), Step::GiveUp);
    assert_eq!(next_step(true, 1201, deadline), Step::GiveUp);
    assert_eq!(recv_deadline(u64::MAX), u64::MAX);
}

#[test]
fn frames_without_a_message_do_not_prolong_a_call() {
    let deadline = recv_deadline(0);
    let mut now = 0;
    let mut waited = 0;
    for k in 0.. {
        match next_step(k % 2 == 1, now, deadline) {
            Step::Parse => {}
            Step::Poll(ms) => {
                let took = ms.min(30);
                waited += took;
                now += took;
            }
            Step::GiveUp => break,
        }
    }
    assert_eq!((now, waited), (200, 200));
}

#[test]
fn nothing_is_lost_when_every_round_is_answered() {
    let mut res = Results::new(2, 2);
    for (round, idx) in [(0usize, 0usize), (1, 0), (1, 1)] {
        res.record(round, idx, 5);
    }
    assert_eq!((res.stats(0).lost, res.stats(1).lost), (0, 1));
    assert_eq!((res.liveness(0).lost, res.liveness(1).lost), (0, 0));
}
