use vstd::prelude::*;

verus! {

/// Writes between WAL checkpoints.
pub const WAL_CHECKPOINT_INTERVAL: u64 = 1000;

/// Dead versions after which compaction becomes due.
pub const COMPACTION_DEAD_THRESHOLD: u64 = 1000;

/// Multiple of the threshold at which compaction runs inline.
pub const COMPACTION_DEAD_CEILING_FACTOR: u64 = 4;

/// What a write asks of the storage once its rows are written.
#[derive(Debug, Clone, Copy, PartialEq, Eq)]
pub struct MaintenanceAction {
    pub checkpoint: bool,
    pub compact: bool,
}

/// The checkpoint and compaction bookkeeping of one model.
#[derive(Debug, Clone, Copy, PartialEq, Eq)]
pub struct Maintenance {
    pub writes_since_checkpoint: u64,
    pub dead_since_compaction: u64,
    pub in_transaction: bool,
    pub checkpoint_deferred: bool,
    pub compact_deferred: bool,
    pub compaction_due: bool,
}

pub open spec fn bump(x: u64) -> u64 {
    if x < u64::MAX { (x + 1) as u64 } else { x }
}

/// The counters after one more write.
pub open spec fn noted_write(m: Maintenance) -> Maintenance {
    let w = bump(m.writes_since_checkpoint);
    Maintenance {
        writes_since_checkpoint: w,
        checkpoint_deferred: m.checkpoint_deferred || (w >= WAL_CHECKPOINT_INTERVAL && m.in_transaction),
        ..m
    }
}

/// The counters after one more superseded version.
pub open spec fn noted_dead(m: Maintenance) -> Maintenance {
    let d = bump(m.dead_since_compaction);
    if d < COMPACTION_DEAD_THRESHOLD {
        Maintenance { dead_since_compaction: d, ..m }
    } else if m.in_transaction {
        Maintenance { dead_since_compaction: d, compact_deferred: true, ..m }
    } else if d >= COMPACTION_DEAD_THRESHOLD * COMPACTION_DEAD_CEILING_FACTOR {
        Maintenance { dead_since_compaction: d, compaction_due: false, ..m }
    } else {
        Maintenance { dead_since_compaction: d, compaction_due: true, ..m }
    }
}

impl Maintenance {
    pub fn new() -> (m: Self)
        ensures
            m == (Maintenance {
                writes_since_checkpoint: 0,
                dead_since_compaction: 0,
                in_transaction: false,
                checkpoint_deferred: false,
                compact_deferred: false,
                compaction_due: false,
            }),
    {
        Maintenance {
            writes_since_checkpoint: 0,
            dead_since_compaction: 0,
            in_transaction: false,
            checkpoint_deferred: false,
            compact_deferred: false,
            compaction_due: false,
        }
    }

    /// Counts one write: a checkpoint is asked for every
    /// `WAL_CHECKPOINT_INTERVAL` writes, deferred while a transaction is open.
    pub fn note_write(&mut self) -> (checkpoint: bool)
        ensures
            final(self).writes_since_checkpoint == bump(old(self).writes_since_checkpoint),
            checkpoint == (final(self).writes_since_checkpoint >= WAL_CHECKPOINT_INTERVAL && !old(self).in_transaction),
            final(self).checkpoint_deferred == (old(self).checkpoint_deferred
                || (final(self).writes_since_checkpoint >= WAL_CHECKPOINT_INTERVAL && old(self).in_transaction)),
            final(self).dead_since_compaction == old(self).dead_since_compaction,
            final(self).in_transaction == old(self).in_transaction,
            final(self).compact_deferred == old(self).compact_deferred,
            final(self).compaction_due == old(self).compaction_due,
            *final(self) == noted_write(*old(self)),
    {
        if self.writes_since_checkpoint < u64::MAX {
            self.writes_since_checkpoint = self.writes_since_checkpoint + 1;
        }
        if self.writes_since_checkpoint >= WAL_CHECKPOINT_INTERVAL {
            if self.in_transaction {
                self.checkpoint_deferred = true;
                false
            } else {
                true
            }
        } else {
            false
        }
    }

    /// Counts one superseded version: past the threshold compaction is
    /// deferred inside a transaction, run inline past four times the
    /// threshold, and otherwise marked due for `maintain`.
    pub fn note_dead(&mut self) -> (compact: bool)
        ensures
            final(self).dead_since_compaction == bump(old(self).dead_since_compaction),
            final(self).writes_since_checkpoint == old(self).writes_since_checkpoint,
            final(self).in_transaction == old(self).in_transaction,
            final(self).checkpoint_deferred == old(self).checkpoint_deferred,
            ({
                let d = final(self).dead_since_compaction;
                if d < COMPACTION_DEAD_THRESHOLD {
                    !compact && final(self).compact_deferred == old(self).compact_deferred
                        && final(self).compaction_due == old(self).compaction_due
                } else if old(self).in_transaction {
                    !compact && final(self).compact_deferred && final(self).compaction_due == old(self).compaction_due
                } else if d >= COMPACTION_DEAD_THRESHOLD * COMPACTION_DEAD_CEILING_FACTOR {
                    compact && !final(self).compaction_due && final(self).compact_deferred == old(self).compact_deferred
                } else {
                    !compact && final(self).compaction_due && final(self).compact_deferred == old(self).compact_deferred
                }
            }),
            *final(self) == noted_dead(*old(self)),
    {
        if self.dead_since_compaction < u64::MAX {
            self.dead_since_compaction = self.dead_since_compaction + 1;
        }
        if self.dead_since_compaction >= COMPACTION_DEAD_THRESHOLD {
            if self.in_transaction {
                self.compact_deferred = true;
                false
            } else if self.dead_since_compaction >= COMPACTION_DEAD_THRESHOLD * COMPACTION_DEAD_CEILING_FACTOR {
                self.compaction_due = false;
                true
            } else {
                self.compaction_due = true;
                false
            }
        } else {
            false
        }
    }

    /// An insert was written.
    pub fn after_insert(&mut self) -> (a: MaintenanceAction)
        ensures
            a.checkpoint == (bump(old(self).writes_since_checkpoint) >= WAL_CHECKPOINT_INTERVAL && !old(self).in_transaction),
            !a.compact,
            final(self).writes_since_checkpoint == bump(old(self).writes_since_checkpoint),
            final(self).dead_since_compaction == old(self).dead_since_compaction,
            final(self).in_transaction == old(self).in_transaction,
            *final(self) == noted_write(*old(self)),
    {
        let c = self.note_write();
        MaintenanceAction { checkpoint: c, compact: false }
    }

    /// An update or delete was written: it supersedes one version.
    pub fn after_replace(&mut self) -> (a: MaintenanceAction)
        ensures
            a.checkpoint == (bump(old(self).writes_since_checkpoint) >= WAL_CHECKPOINT_INTERVAL && !old(self).in_transaction),
            a.compact == (!old(self).in_transaction
                && bump(old(self).dead_since_compaction) >= COMPACTION_DEAD_THRESHOLD * COMPACTION_DEAD_CEILING_FACTOR),
            final(self).writes_since_checkpoint == bump(old(self).writes_since_checkpoint),
            final(self).dead_since_compaction == bump(old(self).dead_since_compaction),
            final(self).in_transaction == old(self).in_transaction,
            *final(self) == noted_dead(noted_write(*old(self))),
    {
        let c = self.note_write();
        let k = self.note_dead();
        MaintenanceAction { checkpoint: c, compact: k }
    }

    /// A checkpoint finished: the WAL is empty again.
    pub fn checkpoint_done(&mut self)
        ensures
            *final(self) == (Maintenance { writes_since_checkpoint: 0, ..*old(self) }),
    {
        self.writes_since_checkpoint = 0;
    }

    /// A compaction was asked for: it runs unless a transaction is open, in
    /// which case it is deferred to the transaction's end.
    pub fn request_compaction(&mut self) -> (run: bool)
        ensures
            run == !old(self).in_transaction,
            *final(self) == (if old(self).in_transaction { Maintenance { compact_deferred: true, ..*old(self) } } else { *old(self) }),
    {
        if self.in_transaction {
            self.compact_deferred = true;
            false
        } else {
            true
        }
    }

    /// A compaction ran (whether or not the compactor succeeded): the dead
    /// count restarts and nothing is due.
    pub fn compaction_done(&mut self)
        ensures
            *final(self) == (Maintenance { dead_since_compaction: 0, compaction_due: false, ..*old(self) }),
    {
        self.dead_since_compaction = 0;
        self.compaction_due = false;
    }

    /// Runs a due compaction when no transaction is open.
    pub fn maintain(&mut self) -> (compact: bool)
        ensures
            compact == (old(self).compaction_due && !old(self).in_transaction),
            *final(self) == (if compact { Maintenance { compaction_due: false, ..*old(self) } } else { *old(self) }),
    {
        if self.compaction_due && !self.in_transaction {
            self.compaction_due = false;
            true
        } else {
            false
        }
    }

    /// After a transaction: a deferred compaction (which checkpoints too)
    /// takes precedence over a deferred checkpoint.
    pub fn run_deferred(&mut self) -> (a: MaintenanceAction)
        ensures
            a.compact == old(self).compact_deferred,
            a.checkpoint == (!old(self).compact_deferred && old(self).checkpoint_deferred),
            *final(self) == (if old(self).compact_deferred {
                Maintenance { compact_deferred: false, checkpoint_deferred: false, ..*old(self) }
            } else if old(self).checkpoint_deferred {
                Maintenance { checkpoint_deferred: false, ..*old(self) }
            } else {
                *old(self)
            }),
    {
        if self.compact_deferred {
            self.compact_deferred = false;
            self.checkpoint_deferred = false;
            MaintenanceAction { checkpoint: false, compact: true }
        } else if self.checkpoint_deferred {
            self.checkpoint_deferred = false;
            MaintenanceAction { checkpoint: true, compact: false }
        } else {
            MaintenanceAction { checkpoint: false, compact: false }
        }
    }
}

} // verus!
