//! Request execution deadlines, enforced from outside the interpreter.
//!
//! One thread owns the clock: a rendering thread publishes a deadline into its
//! [`Slot`], the watchdog marks it expired and interrupts the thread, and the
//! interpreter asks its own slot whether to abort. Times are microseconds since
//! one epoch.

use vstd::prelude::*;

verus! {

/// Bounds the overshoot on a budget measured in seconds.
pub const TICK_US: u64 = 10_000;

/// One rendering thread's deadline.
#[derive(Clone, Copy, PartialEq, Eq, Debug, Structural)]
pub struct Slot {
    /// The interpreter serving the current request, 0 when idle.
    pub state: usize,
    /// When the request has to be over, 0 when none is running.
    pub deadline: u64,
    /// Bumped on every claim and release: the watchdog must not act on a deadline
    /// whose request has finished.
    pub generation: u64,
    /// The thread to interrupt, 0 before the first request.
    pub thread: usize,
    pub expired: bool,
    /// Set when the interpreter actually raised, which is what fails the request.
    /// Expiry alone does not: discarding finished work helps nobody.
    pub interrupted: bool,
}

/// When a request that starts now has to be over; never 0, which means idle.
pub open spec fn deadline_at(now: u64, timeout: u64) -> u64 {
    let sum = now + timeout;
    if sum == 0 {
        1
    } else if sum > u64::MAX {
        u64::MAX
    } else {
        sum as u64
    }
}

/// What the watchdog saw of a slot when it looked.
#[derive(Clone, Copy, PartialEq, Eq, Debug, Structural)]
pub struct Sighting {
    /// Whose deadline had passed.
    pub generation: u64,
    /// The thread to interrupt, if it is known.
    pub thread: Option<usize>,
}

impl Slot {
    pub fn new() -> (slot: Slot)
        ensures
            slot.idle(),
            !slot.expired,
            !slot.interrupted,
            slot.generation == 0,
            slot.thread == 0,
    {
        Slot {
            state: 0,
            deadline: 0,
            generation: 0,
            thread: 0,
            expired: false,
            interrupted: false,
        }
    }

    pub open spec fn idle(self) -> bool {
        self.deadline == 0 && self.state == 0
    }

    /// Claimed for a request.
    pub open spec fn claimed(self, now: u64, timeout: u64, state: usize, thread: usize) -> Slot {
        Slot {
            state,
            deadline: deadline_at(now, timeout),
            generation: (self.generation + 1) as u64,
            thread,
            expired: false,
            interrupted: false,
        }
    }

    pub open spec fn released(self) -> Slot {
        Slot {
            state: 0,
            deadline: 0,
            generation: (self.generation + 1) as u64,
            ..self
        }
    }

    /// A request starts on this slot's thread: flags of the one before are gone,
    /// and its deadline is live.
    pub fn claim(&mut self, now: u64, timeout: u64, state: usize, thread: usize)
        requires
            old(self).generation < u64::MAX,
        ensures
            *final(self) == old(self).claimed(now, timeout, state, thread),
            final(self).deadline > 0,
    {
        self.generation = self.generation + 1;
        self.expired = false;
        self.interrupted = false;
        self.state = state;
        self.thread = thread;
        let mut at: u64 = if timeout > u64::MAX - now {
            u64::MAX
        } else {
            now + timeout
        };
        if at == 0 {
            at = 1;
        }
        self.deadline = at;
    }

    /// The request is over.
    pub fn release(&mut self)
        requires
            old(self).generation < u64::MAX,
        ensures
            *final(self) == old(self).released(),
            final(self).idle(),
    {
        self.deadline = 0;
        self.generation = self.generation + 1;
        self.state = 0;
    }

    /// The watchdog looks: a live deadline that has passed marks the slot expired.
    /// Repeated each tick while the deadline stands, so a script that catches the
    /// interruption cannot escape it.
    pub fn tick(&mut self, now: u64) -> (r: Option<Sighting>)
        ensures
            if old(self).deadline == 0 || now < old(self).deadline {
                r is None && *final(self) == *old(self)
            } else {
                &&& *final(self) == (Slot { expired: true, ..*old(self) })
                &&& r is Some
                &&& r->0.generation == old(self).generation
                &&& r->0.thread == (if old(self).thread == 0 {
                    None
                } else {
                    Some(old(self).thread)
                })
            },
    {
        if self.deadline == 0 || now < self.deadline {
            return None;
        }
        self.expired = true;
        let thread = if self.thread == 0 {
            None
        } else {
            Some(self.thread)
        };
        Some(Sighting { generation: self.generation, thread })
    }

    /// After interrupting: if the request ended while the watchdog decided, the
    /// flag belongs to nobody and is cleared rather than inherited.
    pub fn settle(&mut self, seen: Sighting)
        ensures
            *final(self) == (if old(self).generation != seen.generation {
                Slot { expired: false, ..*old(self) }
            } else {
                *old(self)
            }),
    {
        if self.generation != seen.generation {
            self.expired = false;
        }
    }

    /// Whether the interpreter should abort, recording that it did. It stays true
    /// once set, so a script can delay the abort but not swallow it.
    pub fn should_abort(&mut self) -> (r: bool)
        ensures
            r == old(self).expired,
            *final(self) == (if old(self).expired {
                Slot { interrupted: true, ..*old(self) }
            } else {
                *old(self)
            }),
    {
        if !self.expired {
            return false;
        }
        self.interrupted = true;
        true
    }
}

/// A request is never blamed for the one before: whatever the slot went through,
/// claiming it clears both flags, and a sighting of an earlier request settles to
/// nothing.
pub proof fn law_deadlines_do_not_carry_over(
    slot: Slot,
    now: u64,
    timeout: u64,
    state: usize,
    thread: usize,
)
    requires
        slot.generation < u64::MAX - 1,
    ensures
        !slot.claimed(now, timeout, state, thread).expired,
        !slot.claimed(now, timeout, state, thread).interrupted,
        slot.claimed(now, timeout, state, thread).generation != slot.generation,
        slot.released().generation != slot.generation,
        slot.released().claimed(now, timeout, state, thread).generation != slot.generation,
{
}

/// A request has its whole time: its deadline is that much after its start, as far as
/// the clock reaches, and never the 0 that means none. It is looked at every hundredth
/// of a second.
pub proof fn law_requests_have_their_whole_time(now: u64, timeout: u64)
    ensures
        0 < now + timeout <= u64::MAX ==> deadline_at(now, timeout) == now + timeout,
        now + timeout > u64::MAX ==> deadline_at(now, timeout) == u64::MAX,
        now + timeout == 0 ==> deadline_at(now, timeout) == 1,
        TICK_US == 10_000,
{
}

/// Claiming a slot puts the request's interpreter, thread and deadline there and counts
/// one further; releasing it takes interpreter and deadline out, counts one further and
/// leaves the rest.
pub proof fn law_slots_hold_one_request(
    slot: Slot,
    now: u64,
    timeout: u64,
    state: usize,
    thread: usize,
)
    requires
        slot.generation < u64::MAX,
        0 < now + timeout <= u64::MAX,
    ensures
        ({
            let c = slot.claimed(now, timeout, state, thread);
            &&& c.state == state
            &&& c.thread == thread
            &&& c.deadline == now + timeout
            &&& c.generation == slot.generation + 1
            &&& !c.idle()
        }),
        ({
            let r = slot.released();
            &&& r.state == 0
            &&& r.deadline == 0
            &&& r.idle()
            &&& r.generation == slot.generation + 1
            &&& r.thread == slot.thread
            &&& r.expired == slot.expired
            &&& r.interrupted == slot.interrupted
        }),
{
}

} // verus!
