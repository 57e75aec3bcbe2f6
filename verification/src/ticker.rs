//! The rhythm of the server: when a tick is due, which ticks are given up, and which of the two
//! staging buffers is whose turn. Times are nanoseconds since the server started.
use vstd::prelude::*;

verus! {

/// The number of ticks that the server aims at in a second.
pub const TARGET_TPS: u64 = 30;

/// How long the server runs, in seconds.
pub const TEST_DURATION_SECS: u64 = 3600;

/// A second.
pub const SECOND: u64 = 1_000_000_000;

/// The slots of the schedule are `interval` apart, the first one at zero. Each slot ends up as a
/// completed tick or as a dropped one.
#[derive(Clone, Copy, PartialEq, Eq, Structural, Debug)]
pub struct Ticker {
    pub interval: u64,
    pub duration: u64,
    pub next_tick: u64,
    pub completed: u32,
    pub dropped: u32,
    pub total_work: u64,
    pub last_print: u64,
    pub ticks_this_sec: u32,
    pub drops_this_sec: u32,
}

/// What a second brought.
#[derive(Clone, Copy, PartialEq, Eq, Structural, Debug)]
pub struct Report {
    pub ticks: u32,
    pub drops: u32,
}

impl Ticker {
    /// Every slot before the next one has been completed or dropped.
    pub open spec fn on_schedule(self) -> bool {
        self.next_tick == self.interval * (self.completed + self.dropped)
    }

    /// There is room in the counters for one more tick of `work`, and in the clock for the slot
    /// after it.
    pub open spec fn can_complete(self, work: u64) -> bool {
        &&& self.completed < u32::MAX
        &&& self.ticks_this_sec < u32::MAX
        &&& self.total_work + work <= u64::MAX
        &&& self.next_tick + self.interval <= u64::MAX
    }

    /// There is room in the counters for one more drop, and in the clock for the slot after it.
    pub open spec fn can_drop(self) -> bool {
        &&& self.dropped < u32::MAX
        &&& self.drops_this_sec < u32::MAX
        &&& self.next_tick + self.interval <= u64::MAX
    }

    /// A schedule at its start.
    pub fn new(interval: u64, duration: u64) -> (t: Self)
        ensures
            t == (Ticker {
                interval,
                duration,
                next_tick: 0,
                completed: 0,
                dropped: 0,
                total_work: 0,
                last_print: 0,
                ticks_this_sec: 0,
                drops_this_sec: 0,
            }),
            t.on_schedule(),
    {
        assert(interval * 0 == 0);
        Ticker {
            interval,
            duration,
            next_tick: 0,
            completed: 0,
            dropped: 0,
            total_work: 0,
            last_print: 0,
            ticks_this_sec: 0,
            drops_this_sec: 0,
        }
    }

    /// Whether the server still runs.
    pub fn running(&self, elapsed: u64) -> (r: bool)
        ensures
            r == (elapsed < self.duration),
    {
        elapsed < self.duration
    }

    /// Whether the next slot has come.
    pub fn due(&self, now: u64) -> (r: bool)
        ensures
            r == (now >= self.next_tick),
    {
        now >= self.next_tick
    }

    /// Counts the slot that has come as completed, after `work` of time.
    pub fn complete(&mut self, work: u64)
        requires
            old(self).can_complete(work),
        ensures
            *final(self) == (Ticker {
                next_tick: (old(self).next_tick + old(self).interval) as u64,
                completed: (old(self).completed + 1) as u32,
                ticks_this_sec: (old(self).ticks_this_sec + 1) as u32,
                total_work: (old(self).total_work + work) as u64,
                ..*old(self)
            }),
            old(self).on_schedule() ==> final(self).on_schedule(),
    {
        proof {
            lemma_next_slot(self.interval as int, self.completed + self.dropped);
        }
        self.total_work = self.total_work + work;
        self.completed = self.completed + 1;
        self.ticks_this_sec = self.ticks_this_sec + 1;
        self.next_tick = self.next_tick + self.interval;
    }

    /// Drops the next slot if it has passed too, and says whether it did.
    pub fn drop_late(&mut self, now: u64) -> (late: bool)
        requires
            old(self).next_tick <= now ==> old(self).can_drop(),
        ensures
            late == (old(self).next_tick <= now),
            late ==> *final(self) == (Ticker {
                next_tick: (old(self).next_tick + old(self).interval) as u64,
                dropped: (old(self).dropped + 1) as u32,
                drops_this_sec: (old(self).drops_this_sec + 1) as u32,
                ..*old(self)
            }),
            !late ==> *final(self) == *old(self),
            old(self).on_schedule() ==> final(self).on_schedule(),
    {
        if self.next_tick <= now {
            proof {
                lemma_next_slot(self.interval as int, self.completed + self.dropped);
            }
            self.next_tick = self.next_tick + self.interval;
            self.dropped = self.dropped + 1;
            self.drops_this_sec = self.drops_this_sec + 1;
            true
        } else {
            false
        }
    }

    /// What the last second brought, once it is over.
    pub fn report(&self, now: u64) -> (r: Option<Report>)
        ensures
            r == (if now - self.last_print >= SECOND {
                Some(Report { ticks: self.ticks_this_sec, drops: self.drops_this_sec })
            } else {
                None
            }),
    {
        if now.saturating_sub(self.last_print) >= SECOND {
            Some(Report { ticks: self.ticks_this_sec, drops: self.drops_this_sec })
        } else {
            None
        }
    }

    /// Starts counting the next second.
    pub fn reported(&mut self, now: u64)
        ensures
            *final(self) == (Ticker {
                last_print: now,
                ticks_this_sec: 0,
                drops_this_sec: 0,
                ..*old(self)
            }),
            old(self).on_schedule() ==> final(self).on_schedule(),
    {
        self.ticks_this_sec = 0;
        self.drops_this_sec = 0;
        self.last_print = now;
    }
}

proof fn lemma_next_slot(interval: int, n: int)
    ensures
        interval * (n + 1) == interval * n + interval,
{
    assert(interval * (n + 1) == interval * n + interval) by (nonlinear_arith);
}

/// The number of ticks in the whole run, if none is dropped.
pub fn expected_ticks() -> (n: u32)
    ensures
        n == TARGET_TPS * TEST_DURATION_SECS,
{
    (TARGET_TPS * TEST_DURATION_SECS) as u32
}

/// A schedule after its next `n` slots have been dropped.
pub open spec fn dropping(t: Ticker, n: nat) -> Ticker
    decreases n,
{
    if n == 0 {
        t
    } else {
        let s = dropping(t, (n - 1) as nat);
        Ticker {
            next_tick: (s.next_tick + s.interval) as u64,
            dropped: (s.dropped + 1) as u32,
            drops_this_sec: (s.drops_this_sec + 1) as u32,
            ..s
        }
    }
}

/// Dropping late slots until none is late drops exactly those up to `now`, and none where none is
/// late: the slot that comes next is the first one after `now`.
pub proof fn law_catch_up(t: Ticker, now: u64, n: nat)
    requires
        t.on_schedule(),
        t.interval > 0,
        t.next_tick + n * t.interval <= u64::MAX,
        t.dropped + n <= u32::MAX,
        t.drops_this_sec + n <= u32::MAX,
        n > 0 ==> dropping(t, (n - 1) as nat).next_tick <= now,
        dropping(t, n).next_tick > now,
    ensures
        dropping(t, n).on_schedule(),
        dropping(t, n).dropped == t.dropped + n,
        dropping(t, n).next_tick == t.next_tick + n * t.interval,
        now < dropping(t, n).next_tick,
        n > 0 ==> dropping(t, n).next_tick <= now + t.interval,
        n == if t.next_tick <= now {
            (now - t.next_tick) / t.interval as int + 1
        } else {
            0
        },
{
    let i = t.interval as int;
    let gone = now - t.next_tick;
    lemma_dropping(t, n);
    if n > 0 {
        assert(n * i == (n - 1) * i + i && 0 <= (n - 1) * i) by (nonlinear_arith)
            requires
                n >= 1,
                i >= 0,
        ;
        lemma_dropping(t, (n - 1) as nat);
        vstd::arithmetic::div_mod::lemma_fundamental_div_mod_converse(
            gone,
            i,
            n - 1,
            gone - (n - 1) * i,
        );
    }
}

proof fn lemma_dropping(t: Ticker, n: nat)
    requires
        t.on_schedule(),
        t.next_tick + n * t.interval <= u64::MAX,
        t.dropped + n <= u32::MAX,
        t.drops_this_sec + n <= u32::MAX,
    ensures
        dropping(t, n) == (Ticker {
            next_tick: (t.next_tick + n * t.interval) as u64,
            dropped: (t.dropped + n) as u32,
            drops_this_sec: (t.drops_this_sec + n) as u32,
            ..t
        }),
        dropping(t, n).on_schedule(),
    decreases n,
{
    let i = t.interval as int;
    if n > 0 {
        assert(n * i == (n - 1) * i + i && 0 <= (n - 1) * i) by (nonlinear_arith)
            requires
                n >= 1,
                i >= 0,
        ;
        lemma_dropping(t, (n - 1) as nat);
        lemma_next_slot(i, t.completed + t.dropped + n - 1);
    } else {
        assert(0 * i == 0);
    }
}

/// Two staging buffers that take turns: while one receives the players of a frame, the other holds
/// those of the frame before.
#[derive(Clone, Copy, PartialEq, Eq, Structural, Debug)]
pub struct Pipeline {
    pub frame_idx: usize,
    pub pending_even: bool,
    pub pending_odd: bool,
}

impl Pipeline {
    /// The buffer is waiting for its players.
    pub open spec fn pending(self, slot: int) -> bool {
        if slot == 0 {
            self.pending_even
        } else {
            self.pending_odd
        }
    }

    /// Only the frame before this one is still on its way.
    pub open spec fn in_step(self) -> bool {
        &&& !self.pending(self.frame_idx as int % 2)
        &&& self.pending((self.frame_idx + 1) % 2) == (self.frame_idx > 0)
    }

    /// Before the first frame.
    pub fn new() -> (p: Self)
        ensures
            p == (Pipeline { frame_idx: 0, pending_even: false, pending_odd: false }),
            p.in_step(),
    {
        Pipeline { frame_idx: 0, pending_even: false, pending_odd: false }
    }

    /// The buffer that this frame's players go to.
    pub fn current(&self) -> (slot: usize)
        ensures
            slot == self.frame_idx as int % 2,
    {
        self.frame_idx % 2
    }

    /// Takes note that this frame has been handed to the device. Gives the buffer whose players are
    /// to be waited for: that of the frame before, from the second frame on.
    pub fn submit(&mut self) -> (read: Option<usize>)
        requires
            old(self).in_step(),
            old(self).frame_idx < usize::MAX,
        ensures
            read == (if old(self).frame_idx > 0 {
                Some(((old(self).frame_idx + 1) % 2) as usize)
            } else {
                None
            }),
            final(self).frame_idx == old(self).frame_idx + 1,
            final(self).in_step(),
    {
        let curr: usize = self.frame_idx % 2;
        let prev: usize = (self.frame_idx + 1) % 2;
        if curr == 0 {
            self.pending_even = true;
        } else {
            self.pending_odd = true;
        }
        let mut read: Option<usize> = None;
        if self.frame_idx > 0 {
            if prev == 0 {
                if self.pending_even {
                    self.pending_even = false;
                    read = Some(prev);
                }
            } else {
                if self.pending_odd {
                    self.pending_odd = false;
                    read = Some(prev);
                }
            }
        }
        self.frame_idx = self.frame_idx + 1;
        read
    }
}

/// The buffer that is read after a frame has been handed over is the one that the frame before went
/// to, and not the one that this frame goes to.
pub proof fn law_turns(frame: int)
    requires
        0 < frame,
    ensures
        (frame + 1) % 2 == (frame - 1) % 2,
        (frame + 1) % 2 != frame % 2,
{
}

/// Between two frames exactly the buffer of the frame before is waited for: before the first frame
/// none, after an even frame the even one, after an odd frame the odd one.
pub proof fn law_pending(p: Pipeline)
    requires
        p.in_step(),
    ensures
        p.frame_idx == 0 ==> !p.pending_even && !p.pending_odd,
        p.frame_idx > 0 && (p.frame_idx - 1) % 2 == 0 ==> p.pending_even && !p.pending_odd,
        p.frame_idx > 0 && (p.frame_idx - 1) % 2 == 1 ==> p.pending_odd && !p.pending_even,
{
}

/// The slots of a schedule: as many as ticks were completed and dropped lie before the next one.
pub proof fn law_slots(t: Ticker)
    requires
        t.on_schedule(),
        t.interval > 0,
    ensures
        t.next_tick % t.interval == 0,
        t.next_tick / t.interval == t.completed + t.dropped,
{
    let n = t.completed + t.dropped;
    let i = t.interval as int;
    vstd::arithmetic::div_mod::lemma_fundamental_div_mod_converse(t.next_tick as int, i, n, 0);
}

/// Which of a frame's two transfers have arrived.
#[derive(Clone, Copy, PartialEq, Eq, Structural, Debug)]
pub struct Arrival {
    pub players: bool,
    pub outputs: bool,
}

impl Arrival {
    /// Neither has.
    pub fn new() -> (a: Self)
        ensures
            a == (Arrival { players: false, outputs: false }),
    {
        Arrival { players: false, outputs: false }
    }

    /// Whether both have.
    pub fn done(&self) -> (r: bool)
        ensures
            r == (self.players && self.outputs),
    {
        self.players && self.outputs
    }

    /// Takes note of what has arrived now.
    pub fn note(&mut self, players: bool, outputs: bool)
        ensures
            *final(self) == (Arrival {
                players: old(self).players || players,
                outputs: old(self).outputs || outputs,
            }),
    {
        if !self.players && players {
            self.players = true;
        }
        if !self.outputs && outputs {
            self.outputs = true;
        }
    }
}

} // verus!
