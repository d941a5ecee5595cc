//! The standby signal and the fan-out of outbound messages.
//!
//! A standby instance listens for the heartbeat of the primary. A check runs
//! at a fixed interval; when two checks in a row see no heartbeat between
//! them, the standby declares the primary dead and takes over.

use vstd::prelude::*;
use vstd::string::*;

verus! {

/// Number of checks without a heartbeat after which the primary counts as dead.
pub const MISSED_LIMIT: u8 = 2;

/// Number of publisher connections unless configured otherwise.
pub const DEFAULT_PUBLISHERS: usize = 8;

/// Capacity of each queue between the components unless configured otherwise.
pub const DEFAULT_QUEUE_CAPACITY: usize = 10000;

/// Milliseconds between two matchmaking ticks unless configured otherwise.
pub const DEFAULT_TICK_MS: u64 = 500;

/// Milliseconds between two liveness checks.
pub const CHECK_INTERVAL_MS: u64 = 1000;

/// What the supervisor knows of the primary instance.
#[derive(Clone, Copy, Debug, PartialEq, Eq, Structural)]
pub struct Supervisor {
    /// Whether this instance is still standing by.
    pub backup: bool,
    /// Checks since the last heartbeat, never more than [`MISSED_LIMIT`].
    pub missed: u8,
}

/// What a liveness check asks the caller to do.
#[derive(Clone, Copy, Debug, PartialEq, Eq, Structural)]
pub enum Verdict {
    /// Nothing to do.
    Quiet,
    /// The primary is dead: hand `ServerDead` to the engine and start serving.
    ServerDead,
}

impl Supervisor {
    pub open spec fn wf(self) -> bool {
        self.missed < MISSED_LIMIT
    }

    /// The state after a heartbeat: the count of missed checks starts over.
    pub open spec fn after_heartbeat(self) -> Supervisor {
        Supervisor { backup: self.backup, missed: 0 }
    }

    /// Whether the check that comes now finds the primary dead.
    pub open spec fn gives_up(self) -> bool {
        self.backup && self.missed + 1 >= MISSED_LIMIT
    }

    /// The state after a liveness check.
    pub open spec fn after_check(self) -> Supervisor {
        if !self.backup {
            self
        } else if self.gives_up() {
            Supervisor { backup: false, missed: 0 }
        } else {
            Supervisor { backup: true, missed: (self.missed + 1) as u8 }
        }
    }

    /// The supervisor of an instance started as primary or as standby.
    pub fn new(backup: bool) -> (s: Supervisor)
        ensures
            s == (Supervisor { backup, missed: 0 }),
            s.wf(),
    {
        Supervisor { backup, missed: 0 }
    }

    /// Whether this instance serves requests.
    pub fn is_active(&self) -> (b: bool)
        ensures
            b == !self.backup,
    {
        !self.backup
    }

    /// Records a heartbeat of the primary.
    pub fn on_heartbeat(&mut self)
        requires
            old(self).wf(),
        ensures
            *final(self) == old(self).after_heartbeat(),
            final(self).wf(),
    {
        self.missed = 0;
    }

    /// Runs one liveness check.
    pub fn on_check(&mut self) -> (v: Verdict)
        requires
            old(self).wf(),
        ensures
            *final(self) == old(self).after_check(),
            final(self).wf(),
            v == (if old(self).gives_up() {
                Verdict::ServerDead
            } else {
                Verdict::Quiet
            }),
    {
        if !self.backup {
            return Verdict::Quiet;
        }
        if self.missed + 1 >= MISSED_LIMIT {
            self.backup = false;
            self.missed = 0;
            Verdict::ServerDead
        } else {
            self.missed = self.missed + 1;
            Verdict::Quiet
        }
    }
}

/// The state after `n` checks in a row with no heartbeat between them.
pub open spec fn after_checks(s: Supervisor, n: nat) -> Supervisor
    decreases n,
{
    if n == 0 {
        s
    } else {
        after_checks(s, (n - 1) as nat).after_check()
    }
}

/// A standby that has just heard the primary stays quiet at the first check
/// and takes over at the second.
pub proof fn takeover_after_two_silent_checks(s: Supervisor)
    requires
        s.wf(),
        s.backup,
    ensures
        !s.after_heartbeat().gives_up(),
        s.after_heartbeat().after_check().gives_up(),
        !after_checks(s.after_heartbeat(), 2).backup,
{
    reveal_with_fuel(after_checks, 3);
}

/// An active instance never goes back to standing by, and never declares the
/// primary dead.
pub proof fn active_stays_active(s: Supervisor)
    requires
        !s.backup,
    ensures
        !s.gives_up(),
        !s.after_check().backup,
        !s.after_heartbeat().backup,
{
}

/// The running sum that places a topic on a publisher: each byte adds its
/// value to 31 times the sum so far, within 32 bits.
pub open spec fn bytes_hash(t: Seq<u8>) -> int
    decreases t.len(),
{
    if t.len() == 0 {
        0
    } else {
        (bytes_hash(t.drop_last()) * 31 + (t.last() as int)) % 0x1_0000_0000
    }
}

/// The publisher that sends every message of one topic, decided by the UTF-8
/// bytes of the topic: messages of one topic leave in the order they were
/// queued because one connection carries them all.
pub fn publisher_index(topic: &str, publishers: usize) -> (i: usize)
    requires
        publishers > 0,
    ensures
        i == bytes_hash(topic.spec_bytes()) % (publishers as int),
        i < publishers,
{
    let bytes = topic.as_bytes();
    let n = bytes.len();
    let mut h: u64 = 0;
    let mut k: usize = 0;
    while k < n
        invariant
            n == bytes@.len(),
            k <= n,
            h == bytes_hash(bytes@.take(k as int)),
            h < 0x1_0000_0000,
        decreases n - k,
    {
        proof {
            let cur = bytes@.take(k + 1);
            assert(cur.drop_last() =~= bytes@.take(k as int));
            assert(cur.last() == bytes@[k as int]);
        }
        h = (h * 31 + (bytes[k] as u64)) % 0x1_0000_0000;
        k = k + 1;
    }
    proof {
        assert(bytes@.take(n as int) =~= bytes@);
    }
    (h % (publishers as u64)) as usize
}

} // verus!
