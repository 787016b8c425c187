use vstd::prelude::*;

verus! {

/// How many times a busy coordinator is asked again for a turn before the
/// attempt is given up as a conflict.
pub const MAX_BUSY_RETRIES: u32 = 5;

/// The pause before asking a busy coordinator again grows by this many
/// milliseconds per retry.
pub const BUSY_BACKOFF_MS: u64 = 20;

/// What a coordinator answered a request for a commit turn with.
#[derive(Clone, Copy, Debug, PartialEq, Eq, Structural)]
pub enum TurnReply {
    Granted,
    Conflict,
    Busy,
    Failed,
}

/// What a coordinated transaction does next with its attempt.
#[derive(Clone, Copy, Debug, PartialEq, Eq, Structural)]
pub enum TurnAction {
    /// The turn is granted: apply and commit the buffered writes.
    Commit,
    /// The write set conflicts (or the coordinator stayed busy): drop the
    /// attempt and run the transaction again.
    Retry,
    /// The coordinator is busy: wait this many milliseconds and ask again.
    Wait(u64),
    /// The coordinator failed: reconnect and report an I/O error.
    Fail,
}

/// The waiting of one attempt for its commit turn: how many times the
/// coordinator answered busy.
pub struct TurnWait {
    pub busy_retries: u32,
}

impl TurnWait {
    pub fn new() -> (w: TurnWait)
        ensures
            w.busy_retries == 0,
    {
        TurnWait { busy_retries: 0 }
    }

    /// The next step after the coordinator's `reply`: commit on a grant,
    /// retry the transaction on a conflict, fail on an error; when busy,
    /// wait `20 × n` ms before the `n`-th renewed request, and retry the
    /// transaction once five renewed requests found it busy.
    pub fn on_reply(&mut self, reply: TurnReply) -> (a: TurnAction)
        requires
            old(self).busy_retries <= MAX_BUSY_RETRIES,
        ensures
            final(self).busy_retries <= MAX_BUSY_RETRIES,
            a == (match reply {
                TurnReply::Granted => TurnAction::Commit,
                TurnReply::Conflict => TurnAction::Retry,
                TurnReply::Failed => TurnAction::Fail,
                TurnReply::Busy => if old(self).busy_retries >= MAX_BUSY_RETRIES {
                    TurnAction::Retry
                } else {
                    TurnAction::Wait((BUSY_BACKOFF_MS * (old(self).busy_retries + 1)) as u64)
                },
            }),
            final(self).busy_retries == (if reply == TurnReply::Busy && old(self).busy_retries < MAX_BUSY_RETRIES {
                old(self).busy_retries + 1
            } else {
                old(self).busy_retries as int
            }),
    {
        match reply {
            TurnReply::Granted => TurnAction::Commit,
            TurnReply::Conflict => TurnAction::Retry,
            TurnReply::Failed => TurnAction::Fail,
            TurnReply::Busy => {
                if self.busy_retries >= MAX_BUSY_RETRIES {
                    TurnAction::Retry
                } else {
                    self.busy_retries = self.busy_retries + 1;
                    TurnAction::Wait(BUSY_BACKOFF_MS * self.busy_retries as u64)
                }
            },
        }
    }
}

/// Whether the database must first catch up on what peers committed: the
/// coordinator has seen commits past the last one it caught up to.
pub fn needs_refresh(coordinator_lsn: u64, refreshed_lsn: u64) -> (b: bool)
    ensures
        b == (coordinator_lsn > refreshed_lsn),
{
    coordinator_lsn > refreshed_lsn
}

} // verus!
