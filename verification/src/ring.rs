//! The receive ring that the kernel and the link-layer transport share.
use vstd::prelude::*;

verus! {

/// Bytes of a slot.
pub const FRAME_SIZE: usize = 2048;

/// Slots of a block.
pub const FRAMES_PER_BLOCK: usize = 64;

/// Blocks of the ring.
pub const BLOCK_NR: usize = 64;

/// Slots of the ring.
pub const FRAME_NR: usize = 4096;

/// Bytes of the ring.
pub const RING_SIZE: usize = 8388608;

/// Where the slot that is read next begins, if `cursor` slots were read.
pub open spec fn slot_spec(cursor: usize) -> usize {
    ((cursor as int % FRAME_NR as int) * FRAME_SIZE) as usize
}

/// Where the slot that is read next begins. The slot lies within the ring.
pub fn slot(cursor: usize) -> (r: usize)
    ensures
        r == slot_spec(cursor),
        r + FRAME_SIZE <= RING_SIZE,
{
    (cursor % FRAME_NR) * FRAME_SIZE
}

/// Whether the kernel has handed a slot with this status over.
pub fn is_ready(status: u64) -> (r: bool)
    ensures
        r == (status % 2 == 1),
{
    status % 2 == 1
}

/// `n`, or the end of the ring where that comes first.
pub open spec fn in_ring(n: int) -> usize {
    if n < RING_SIZE {
        n as usize
    } else {
        RING_SIZE
    }
}

/// The bytes of the ring that hold a captured frame, given the slots read before it, where in its
/// slot it begins and its length on the wire: as many as that length, also past its slot, up to
/// the end of the ring.
pub open spec fn captured_spec(cursor: usize, start: usize, len: usize) -> (usize, usize) {
    (in_ring(slot_spec(cursor) + start), in_ring(slot_spec(cursor) + start + len))
}

/// The bytes of the ring that hold a captured frame, see [`captured_spec`].
pub fn captured(cursor: usize, start: usize, len: usize) -> (r: (usize, usize))
    ensures
        r == captured_spec(cursor, start, len),
        r.0 <= r.1 <= RING_SIZE,
{
    let base: usize = slot(cursor);
    let from: usize = if start < RING_SIZE - base {
        base + start
    } else {
        RING_SIZE
    };
    let to: usize = if len < RING_SIZE - from {
        from + len
    } else {
        RING_SIZE
    };
    (from, to)
}

/// How long one call waits for a message, in milliseconds.
pub const RECV_MS: u64 = 200;

/// When a call that begins at `start_ms` ends without a message.
pub fn recv_deadline(start_ms: u64) -> (r: u64)
    ensures
        r == if start_ms + RECV_MS <= u64::MAX {
            (start_ms + RECV_MS) as u64
        } else {
            u64::MAX
        },
        start_ms + 200 <= u64::MAX ==> r == start_ms + 200,
{
    start_ms.saturating_add(RECV_MS)
}

/// What a call that waits for a message does next.
#[derive(Clone, Copy, Debug, PartialEq, Eq, Structural)]
pub enum Step {
    /// Read the slot, and return if it holds a message.
    Parse,
    /// Wait for the kernel, at most that many milliseconds, and look at the slot again.
    Poll(u64),
    /// Return without a message, so that a shutdown is seen.
    GiveUp,
}

/// What a call does next, given whether its slot is ready, the time and its deadline.
pub open spec fn step_spec(ready: bool, now_ms: u64, deadline_ms: u64) -> Step {
    if now_ms >= deadline_ms {
        Step::GiveUp
    } else if ready {
        Step::Parse
    } else {
        Step::Poll((deadline_ms - now_ms) as u64)
    }
}

/// What a call does next, see [`step_spec`].
pub fn next_step(ready: bool, now_ms: u64, deadline_ms: u64) -> (r: Step)
    ensures
        now_ms >= deadline_ms ==> r is GiveUp,
        now_ms < deadline_ms && ready ==> r is Parse,
        now_ms < deadline_ms && !ready ==> r == Step::Poll((deadline_ms - now_ms) as u64),
        r == step_spec(ready, now_ms, deadline_ms),
{
    if now_ms >= deadline_ms {
        Step::GiveUp
    } else if ready {
        Step::Parse
    } else {
        Step::Poll(deadline_ms - now_ms)
    }
}

/// No call polls past its deadline, whatever it has read before: a poll at `now_ms` ends by the
/// deadline, and from the deadline on the call gives up.
pub proof fn law_no_call_polls_past_its_deadline(ready: bool, now_ms: u64, deadline_ms: u64)
    ensures
        match step_spec(ready, now_ms, deadline_ms) {
            Step::Parse => now_ms < deadline_ms,
            Step::Poll(ms) => 0 < ms && now_ms + ms <= deadline_ms,
            Step::GiveUp => now_ms >= deadline_ms,
        },
{
}

/// The polls of one call last no longer than it may take, all together, however many frames
/// without a message come between. `now[j]` is the time of step `j` and `ready[j]` whether its
/// slot was ready; a poll has taken some of its time when the next step comes.
pub proof fn law_polls_of_a_call_fit_its_wait(
    start_ms: u64,
    now: Seq<u64>,
    ready: Seq<bool>,
    waited: Seq<nat>,
    k: int,
)
    requires
        start_ms + RECV_MS <= u64::MAX,
        0 <= k < now.len(),
        ready.len() == now.len(),
        waited.len() == now.len(),
        now[0] >= start_ms,
        forall|j: int| 0 <= j < now.len() ==> #[trigger] waited[j] <= poll_time(
            step_spec(ready[j], now[j], (start_ms + RECV_MS) as u64),
        ),
        forall|j: int| 0 < j < now.len() ==> #[trigger] now[j] >= now[j - 1] + waited[j - 1],
    ensures
        waited_until(waited, k + 1) <= RECV_MS,
        step_spec(ready[k], now[k], (start_ms + RECV_MS) as u64) is GiveUp || now[k] < start_ms
            + RECV_MS,
{
    lemma_waited_in_all(start_ms, now, ready, waited, k);
}

/// How long a step waits at most.
pub open spec fn poll_time(s: Step) -> nat {
    match s {
        Step::Poll(ms) => ms as nat,
        _ => 0,
    }
}

/// The time waited in the steps before `k`.
pub open spec fn waited_until(waited: Seq<nat>, k: int) -> nat
    decreases k,
{
    if k <= 0 {
        0
    } else {
        waited_until(waited, k - 1) + waited[k - 1]
    }
}

proof fn lemma_clock_passes(start_ms: u64, now: Seq<u64>, waited: Seq<nat>, k: int)
    requires
        0 <= k < now.len(),
        waited.len() == now.len(),
        now[0] >= start_ms,
        forall|j: int| 0 < j < now.len() ==> #[trigger] now[j] >= now[j - 1] + waited[j - 1],
    ensures
        now[k] >= start_ms + waited_until(waited, k),
    decreases k,
{
    if k > 0 {
        lemma_clock_passes(start_ms, now, waited, k - 1);
        assert(now[k] >= now[k - 1] + waited[k - 1]);
    }
}

proof fn lemma_waited_in_all(
    start_ms: u64,
    now: Seq<u64>,
    ready: Seq<bool>,
    waited: Seq<nat>,
    k: int,
)
    requires
        start_ms + RECV_MS <= u64::MAX,
        0 <= k < now.len(),
        ready.len() == now.len(),
        waited.len() == now.len(),
        now[0] >= start_ms,
        forall|j: int| 0 <= j < now.len() ==> #[trigger] waited[j] <= poll_time(
            step_spec(ready[j], now[j], (start_ms + RECV_MS) as u64),
        ),
        forall|j: int| 0 < j < now.len() ==> #[trigger] now[j] >= now[j - 1] + waited[j - 1],
    ensures
        waited_until(waited, k + 1) <= RECV_MS,
    decreases k,
{
    let d = (start_ms + RECV_MS) as u64;
    assert(waited[k] <= poll_time(step_spec(ready[k], now[k], d)));
    assert(waited_until(waited, k + 1) == waited_until(waited, k) + waited[k]);
    if now[k] < d {
        assert(waited[k] <= d - now[k]);
        lemma_clock_passes(start_ms, now, waited, k);
    } else if k > 0 {
        lemma_waited_in_all(start_ms, now, ready, waited, k - 1);
        assert(waited[k] == 0);
    }
}

/// Reading goes round: the slot after the last one is the first, and until then no slot comes
/// twice.
pub proof fn law_slots_go_round(cursor: usize, ahead: nat)
    requires
        0 < ahead,
        cursor + ahead <= usize::MAX,
    ensures
        slot_spec((cursor + ahead) as usize) == slot_spec(cursor) <==> ahead % (FRAME_NR as nat)
            == 0,
{
}

/// The slots lie one after the other from the start of the ring, each of 2048 bytes; a frame takes
/// up as many bytes as it had on the wire, from where its slot says, cut off at the end of the
/// ring.
pub proof fn law_frames_lie_in_their_slots(cursor: usize, start: usize, len: usize)
    ensures
        cursor < 4096 ==> slot_spec(cursor) == 2048 * cursor,
        ({
            let at = slot_spec(cursor) + start;
            let (from, to) = captured_spec(cursor, start, len);
            &&& at <= 8388608 ==> from == at
            &&& at > 8388608 ==> from == 8388608
            &&& at + len <= 8388608 ==> to == at + len
            &&& at + len > 8388608 ==> to == 8388608
        }),
{
}

} // verus!
