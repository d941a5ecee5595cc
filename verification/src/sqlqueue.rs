//! What the engine asks the database worker to write, and the buffer the
//! worker keeps while the database is away.
//!
//! The engine never waits for the database. Writes leave in the order they
//! came. While the connection is down the worker buffers; when the buffer
//! is full, the oldest score update makes room, because a later update or
//! the next game will set the score right again, whereas writes about
//! accounts and states are never dropped.

use crate::topic::{is_valid_id, valid_id};
use vstd::prelude::*;
use vstd::string::*;

verus! {

/// Milliseconds before the first retry of a failed connection.
pub const BACKOFF_BASE_MS: u64 = 1000;

/// The wait between retries never exceeds this.
pub const BACKOFF_CAP_MS: u64 = 30000;

/// One write.
pub enum SqlOp {
    /// Insert the user, or update it if it is there.
    UpsertUser { user: String, hero: String, honor: i64 },
    /// Set the status of the user to online or offline.
    SetStatus { user: String, online: bool },
    /// Set the standing of the user in a mode.
    UpdateScore { user: String, mode: String, score: u32, wins: u32, losses: u32 },
    /// Record a finished game.
    InsertGame { game: u64, mode: String, team_a_won: bool, started_at: u64, ended_at: u64 },
    /// A write to the catalogs of equipment and options, or about a replay,
    /// passed on as it came.
    Relay { topic: String, payload: String },
}

/// What became of a write handed to the buffer.
#[derive(Clone, Copy, Debug, PartialEq, Eq, Structural)]
pub enum Pushed {
    /// The write is in the buffer.
    Stored,
    /// The write is in the buffer, and the oldest score update was dropped
    /// to make room.
    Replaced,
    /// The buffer is full of writes that may not be dropped, and the write
    /// is a score update: it was dropped.
    Dropped,
    /// The buffer is full of writes that may not be dropped, and neither may
    /// this one: the caller has to wait. The write is not in the buffer.
    Blocked,
}

/// The writes waiting for the database, oldest first.
pub struct SqlBuffer {
    pub pending: Vec<SqlOp>,
    pub capacity: usize,
}

impl SqlOp {
    /// Whether the write may not be dropped: everything but a score update.
    pub open spec fn critical(self) -> bool {
        !(self is UpdateScore)
    }

    pub fn is_critical(&self) -> (b: bool)
        ensures
            b == self.critical(),
    {
        match self {
            SqlOp::UpdateScore { .. } => false,
            _ => true,
        }
    }
}

/// The position of the oldest write that may be dropped, or the number of
/// writes if there is none.
pub open spec fn first_droppable(pending: Seq<SqlOp>) -> int
    decreases pending.len(),
{
    if pending.len() == 0 {
        0
    } else if !pending[0].critical() {
        0
    } else {
        1 + first_droppable(pending.drop_first())
    }
}

/// What `first_droppable` finds.
pub proof fn lemma_first_droppable(pending: Seq<SqlOp>)
    ensures
        0 <= first_droppable(pending) <= pending.len(),
        first_droppable(pending) < pending.len() ==> !pending[first_droppable(pending)].critical(),
        forall|i: int| 0 <= i < first_droppable(pending) ==> (#[trigger] pending[i]).critical(),
    decreases pending.len(),
{
    if pending.len() > 0 && pending[0].critical() {
        let rest = pending.drop_first();
        lemma_first_droppable(rest);
        assert forall|i: int| 0 <= i < first_droppable(pending) implies (
        #[trigger] pending[i]).critical() by {
            if i > 0 {
                assert(pending[i] == rest[i - 1]);
            }
        }
    }
}

/// The wait before the retry that follows `failures` failures in a row:
/// the base doubled for each failure after the first, up to the cap.
pub open spec fn backoff_of(failures: nat) -> int
    decreases failures,
{
    if failures <= 1 {
        BACKOFF_BASE_MS as int
    } else if 2 * backoff_of((failures - 1) as nat) >= BACKOFF_CAP_MS {
        BACKOFF_CAP_MS as int
    } else {
        2 * backoff_of((failures - 1) as nat)
    }
}

/// The wait before the retry that follows `failures` failures in a row.
pub fn backoff_ms(failures: u32) -> (ms: u64)
    ensures
        ms == backoff_of(failures as nat),
        BACKOFF_BASE_MS <= ms <= BACKOFF_CAP_MS,
{
    let mut ms: u64 = BACKOFF_BASE_MS;
    let mut k: u32 = 1;
    while k < failures
        invariant
            1 <= k,
            k <= failures || (failures == 0 && k == 1),
            ms == backoff_of(k as nat),
            BACKOFF_BASE_MS <= ms <= BACKOFF_CAP_MS,
        decreases failures - k,
    {
        ms = if 2 * ms >= BACKOFF_CAP_MS {
            BACKOFF_CAP_MS
        } else {
            2 * ms
        };
        k = k + 1;
    }
    proof {
        assert(ms == backoff_of(k as nat));
        if failures == 0 {
            assert(k == 1);
            assert(backoff_of(0) == BACKOFF_BASE_MS);
            assert(backoff_of(1) == BACKOFF_BASE_MS);
        } else {
            assert(k == failures);
        }
    }
    ms
}

impl SqlBuffer {
    /// An empty buffer for `capacity` writes.
    pub fn new(capacity: usize) -> (b: SqlBuffer)
        ensures
            b.pending@.len() == 0,
            b.capacity == capacity,
    {
        SqlBuffer { pending: Vec::new(), capacity }
    }

    /// Number of writes waiting.
    pub fn len(&self) -> (n: usize)
        ensures
            n == self.pending@.len(),
    {
        self.pending.len()
    }

    /// What becomes of a write handed to the buffer as it stands.
    pub open spec fn verdict(&self, op: SqlOp) -> Pushed {
        if self.pending@.len() < self.capacity {
            Pushed::Stored
        } else if first_droppable(self.pending@) < self.pending@.len() {
            Pushed::Replaced
        } else if op.critical() {
            Pushed::Blocked
        } else {
            Pushed::Dropped
        }
    }

    /// The writes waiting after `op` was handed to the buffer.
    pub open spec fn after_push(&self, op: SqlOp) -> Seq<SqlOp> {
        match self.verdict(op) {
            Pushed::Stored => self.pending@.push(op),
            Pushed::Replaced => self.pending@.remove(first_droppable(self.pending@)).push(op),
            Pushed::Dropped => self.pending@,
            Pushed::Blocked => self.pending@,
        }
    }

    /// Hands a write to the buffer. A write that is blocked is handed back.
    pub fn push(&mut self, op: SqlOp) -> (r: (Pushed, Option<SqlOp>))
        ensures
            r.0 == old(self).verdict(op),
            final(self).pending@ == old(self).after_push(op),
            final(self).capacity == old(self).capacity,
            r.1 == (if r.0 == Pushed::Blocked {
                Some(op)
            } else {
                None
            }),
    {
        if self.pending.len() < self.capacity {
            self.pending.push(op);
            return (Pushed::Stored, None);
        }
        let n = self.pending.len();
        let mut i: usize = 0;
        assert(self.pending@.skip(0) =~= self.pending@);
        while i < n && self.pending[i].is_critical()
            invariant
                *self == *old(self),
                n == self.pending@.len(),
                i <= n,
                first_droppable(self.pending@) == i + first_droppable(self.pending@.skip(i as int)),
            decreases n - i,
        {
            proof {
                let rest = self.pending@.skip(i as int);
                assert(rest[0] == self.pending@[i as int]);
                assert(rest.drop_first() =~= self.pending@.skip(i + 1));
            }
            i = i + 1;
        }
        proof {
            let rest = self.pending@.skip(i as int);
            if i < n {
                assert(rest[0] == self.pending@[i as int]);
            }
        }
        if i < n {
            self.pending.remove(i);
            self.pending.push(op);
            (Pushed::Replaced, None)
        } else if op.is_critical() {
            (Pushed::Blocked, Some(op))
        } else {
            (Pushed::Dropped, None)
        }
    }

    /// Takes the oldest write out of the buffer.
    pub fn pop(&mut self) -> (r: Option<SqlOp>)
        ensures
            final(self).capacity == old(self).capacity,
            match r {
                Some(op) => {
                    &&& old(self).pending@.len() > 0
                    &&& op == old(self).pending@[0]
                    &&& final(self).pending@ == old(self).pending@.drop_first()
                },
                None => old(self).pending@.len() == 0 && final(self).pending@ == old(self).pending@,
            },
    {
        if self.pending.len() == 0 {
            None
        } else {
            let op = self.pending.remove(0);
            assert(self.pending@ =~= old(self).pending@.drop_first());
            Some(op)
        }
    }
}

/// The text of the statement that sets the status of the user `user`.
pub open spec fn status_text(user: Seq<char>, online: bool) -> Seq<char> {
    "update user set status='"@ + (if online {
        "online"@
    } else {
        "offline"@
    }) + "' where userid='"@ + user + "';"@
}

/// The statement that sets the status of a user. There is one only for a
/// user whose identifier is made of letters, digits and single hyphens:
/// such an identifier holds nothing that could end the quoted value it
/// stands in, so it reaches the database as a value. For any other text
/// there is no statement.
pub fn status_statement(user: &str, online: bool) -> (sql: Option<String>)
    ensures
        match sql {
            Some(text) => valid_id(user@) && text@ == status_text(user@, online),
            None => !valid_id(user@),
        },
{
    if !is_valid_id(user) {
        return None;
    }
    let status = if online {
        "online"
    } else {
        "offline"
    };
    Some(
        String::from_str("update user set status='").concat(status).concat(
            "' where userid='",
        ).concat(user).concat("';"),
    )
}

/// Writes leave the buffer in the order they came: of two writes that are
/// both in the buffer after a push, the one that was first before is first
/// after.
pub proof fn push_keeps_order(b: SqlBuffer, op: SqlOp, i: int, j: int)
    requires
        0 <= i < j < b.pending@.len(),
        b.verdict(op) == Pushed::Replaced ==> i != first_droppable(b.pending@) && j
            != first_droppable(b.pending@),
    ensures
        ({
            let after = b.after_push(op);
            let d = first_droppable(b.pending@);
            let shift = |k: int|
                if b.verdict(op) == Pushed::Replaced && k > d {
                    k - 1
                } else {
                    k
                };
            &&& 0 <= shift(i) < shift(j) < after.len()
            &&& after[shift(i)] == b.pending@[i]
            &&& after[shift(j)] == b.pending@[j]
        }),
{
    lemma_first_droppable(b.pending@);
}

/// A write that may not be dropped is never dropped: whatever is pushed,
/// every such write that was in the buffer is still there.
pub proof fn critical_writes_stay(b: SqlBuffer, op: SqlOp, i: int)
    requires
        0 <= i < b.pending@.len(),
        b.pending@[i].critical(),
    ensures
        b.after_push(op).contains(b.pending@[i]),
{
    lemma_first_droppable(b.pending@);
    let d = first_droppable(b.pending@);
    let after = b.after_push(op);
    if b.verdict(op) == Pushed::Replaced {
        let k = if i < d {
            i
        } else {
            i - 1
        };
        assert(after[k] == b.pending@[i]);
    } else {
        assert(after[i] == b.pending@[i]);
    }
}

} // verus!
