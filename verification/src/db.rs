use vstd::prelude::*;
use crate::errors::{ValidationError, ApplyError};
use crate::ids::id_from_bytes;
use crate::links::link_of_body;
use crate::keys::{id_key, id_key_spec};
use crate::links::{LinkTable, linked};
use crate::model::{appended, lemma_appended};
use crate::records::{Record, User, Post, Tag, Metric, Doc};
use crate::table::{Table, Written};
use crate::txn::str_eq;
use crate::maintenance::{Maintenance, MaintenanceAction, bump, noted_write, noted_dead, WAL_CHECKPOINT_INTERVAL, COMPACTION_DEAD_THRESHOLD,
    COMPACTION_DEAD_CEILING_FACTOR};
use crate::timestamps::{floor_to_quantum, floored, WRITE_QUANTUM_US};

verus! {

/// How deep a chain of cascading deletes may go before it is refused.
pub const MAX_CASCADE_DEPTH: u32 = 64;

/// A table that takes writes: well formed, every row indexed (no transaction
/// staging), and room for one more row.
pub open spec fn ready<R: Record>(t: &Table<R>) -> bool {
    &&& t.wf()
    &&& t.state().log.indexed == t.state().log.ids.len()
    &&& t.state().log.ids.len() < usize::MAX
}

/// A fresh random id (version 4).
///
/// Calls `uuid::Uuid::new_v4`; its source sets the version and variant bits,
/// so the id is never nil. Nothing else is stated: the rest is random.
#[verifier::external_body]
pub(crate) fn fresh_id() -> (id: u128)
    ensures
        id != 0,
{
    uuid::Uuid::new_v4().as_u128()
}

/// The current time in microseconds since the epoch.
///
/// Calls `forgedb_types::Timestamp::now`; its source saturates at zero for a
/// clock set before the epoch, so the value is never negative. Which instant
/// it is depends on the clock and is not stated.
#[verifier::external_body]
pub(crate) fn now_micros() -> (t: i64)
    ensures
        t >= 0,
{
    forgedb_types::Timestamp::now().as_micros()
}

/// The id a create gives a record: its own, or `fresh` when it has none.
pub open spec fn given_id(id: u128, fresh: u128) -> u128 {
    if id == 0 { fresh } else { id }
}

/// The timestamp a create gives a record: its own, or the time of the write
/// floored to the write quantum when it has none.
pub open spec fn given_time(t: i64, now: i64) -> i64 {
    if t == 0 { floored(now, WRITE_QUANTUM_US) as i64 } else { t }
}

/// Fills what a create leaves to the database: the id and the timestamp.
pub fn fill_id_and_time(id: u128, t: i64, fresh: u128, now: i64) -> (r: (u128, i64))
    requires
        now >= 0,
    ensures
        r == (given_id(id, fresh), given_time(t, now)),
{
    let id = if id == 0 { fresh } else { id };
    let t = if t == 0 {
        proof {
            assert(floored(now, WRITE_QUANTUM_US) >= 0) by (nonlinear_arith)
                requires
                    now >= 0,
            ;
        }
        floor_to_quantum(now, WRITE_QUANTUM_US)
    } else {
        t
    };
    (id, t)
}

/// The dangling-author refusal of a post.
pub open spec fn is_dangling_author(e: ValidationError) -> bool {
    e matches ValidationError::DanglingReference { model, field, target } && model@ == "Post"@ && field@
        == "author"@ && target@ == "User"@
}

/// The refusal to delete a user whom posts still name as author.
pub open spec fn is_referenced_by_posts(e: ValidationError) -> bool {
    e matches ValidationError::ReferencedByChildren { model, field } && model@ == "Post"@ && field@ == "author"@
}

/// The refusal of a cascade that went too deep, for `model`.
pub open spec fn is_too_deep(e: ValidationError, model: Seq<char>) -> bool {
    e matches ValidationError::ReferencedByChildren { model: m, field } && m@ == model && field@
        == "on_delete cascade depth exceeded"@
}

/// What an insert into `old` of `rec` leaves (`new`) and returns (`r`).
pub open spec fn inserted<R: Record>(old: Table<R>, new: Table<R>, rec: R, r: Result<Written<R>, ValidationError>) -> bool {
    let n = rec.spec_normalized();
    &&& new.wf()
    &&& match r {
        Err(e) => {
            &&& new == old
            &&& (!n.spec_valid() && n.spec_rejects(e)) || (n.spec_valid() && exists|f: int|
                    old.violates(n, None, f) && R::spec_unique_error(f, e))
        },
        Ok(w) => {
            &&& w.record == n
            &&& n.spec_valid()
            &&& !old.violates_any(n, None)
            &&& w.row == old.state().log.ids.len()
            &&& new.state() == appended(old.state(), n.spec_id(), false, n.spec_keys(), n.spec_ord())
            &&& old.consistent() && !old.state().log.is_live(n.spec_id()) ==> new.consistent()
            &&& w.action.checkpoint == (bump(old.counters().writes_since_checkpoint) >= WAL_CHECKPOINT_INTERVAL
                    && !old.counters().in_transaction)
            &&& !w.action.compact
            &&& new.counters() == noted_write(old.counters())
        },
    }
}

/// What an update of `id` in `old` with `rec` leaves and returns.
pub open spec fn updated<R: Record>(old: Table<R>, new: Table<R>, id: u128, rec: R, r: Result<Option<Written<R>>, ValidationError>) -> bool {
    let n = rec.spec_normalized();
    &&& new.wf()
    &&& match r {
        Ok(None) => new == old && old.state().log.latest_row(id) is None,
        Err(e) => {
            &&& new == old
            &&& old.state().log.latest_row(id) is Some
            &&& (!n.spec_valid() && n.spec_rejects(e)) || (n.spec_valid() && exists|f: int|
                    old.violates(n, Some(id), f) && R::spec_unique_error(f, e))
        },
        Ok(Some(w)) => {
            &&& old.state().log.latest_row(id) is Some
            &&& w.record == n
            &&& n.spec_valid()
            &&& !old.violates_any(n, Some(id))
            &&& w.row == old.state().log.ids.len()
            &&& new.state() == appended(old.state(), id, false, n.spec_keys(), n.spec_ord())
            &&& old.consistent() ==> new.consistent()
            &&& new.counters() == noted_dead(noted_write(old.counters()))
            &&& w.action.compact == (!old.counters().in_transaction
                    && bump(old.counters().dead_since_compaction) >= COMPACTION_DEAD_THRESHOLD * COMPACTION_DEAD_CEILING_FACTOR)
            &&& w.action.checkpoint == (bump(old.counters().writes_since_checkpoint) >= WAL_CHECKPOINT_INTERVAL
                    && !old.counters().in_transaction)
        },
    }
}

/// What a delete of `id` from `old` leaves and returns.
pub open spec fn removed<R: Record>(old: Table<R>, new: Table<R>, id: u128, r: Option<(usize, MaintenanceAction)>) -> bool {
    &&& new.wf()
    &&& match r {
        None => new == old && !old.state().log.is_live(id),
        Some((row, action)) => {
            let l = old.state().log.latest_row(id)->0 as int;
            &&& old.state().log.is_live(id)
            &&& row == old.state().log.ids.len()
            &&& new.state() == appended(old.state(), id, true, old.state().keys[l], old.state().ords[l])
            &&& old.consistent() ==> new.consistent()
            &&& new.counters() == noted_dead(noted_write(old.counters()))
            &&& action.compact == (!old.counters().in_transaction
                    && bump(old.counters().dead_since_compaction) >= COMPACTION_DEAD_THRESHOLD * COMPACTION_DEAD_CEILING_FACTOR)
            &&& action.checkpoint == (bump(old.counters().writes_since_checkpoint) >= WAL_CHECKPOINT_INTERVAL
                    && !old.counters().in_transaction)
        },
    }
}

/// Some live post is filed under author `id` in the author index.
pub open spec fn has_posts_by(post: Table<Post>, id: u128) -> bool {
    exists|x: u128| post.index_has(1, id_key_spec(id), x) && #[trigger] post.state().log.is_live(x)
}

/// A post with its id and creation time filled in by the database.
pub open spec fn filled_post(rec: Post, fresh: u128, now: i64) -> Post {
    Post { id: given_id(rec.id, fresh), created_at: given_time(rec.created_at, now), ..rec }
}

/// A user with its id and creation time filled in by the database.
pub open spec fn filled_user(rec: User, fresh: u128, now: i64) -> User {
    User { id: given_id(rec.id, fresh), created_at: given_time(rec.created_at, now), ..rec }
}

/// A metric with its id and recording time filled in by the database.
pub open spec fn filled_metric(rec: Metric, fresh: u128, now: i64) -> Metric {
    Metric { id: given_id(rec.id, fresh), recorded_at: given_time(rec.recorded_at, now), ..rec }
}

/// What creating a post leaves and returns, once its id and time are filled:
/// refused as dangling when its author is not a live user, else inserted.
pub open spec fn post_created(old: Database, new: Database, rec: Post, r: Result<Written<Post>, ValidationError>) -> bool {
    &&& new.user == old.user && new.tag == old.tag && new.metric == old.metric && new.doc == old.doc
    &&& new.post_tag_link == old.post_tag_link
    &&& if old.user.state().log.is_live(rec.author) {
        inserted(old.post, new.post, rec, r)
    } else {
        new.post == old.post && (r matches Err(e) && is_dangling_author(e))
    }
}

/// A write is possible: the timestamp can be floored without overflow.
pub open spec fn time_writable(t: i64) -> bool {
    i64::MIN <= floored(t, WRITE_QUANTUM_US)
}

pub(crate) proof fn lemma_given_time_writable(t: i64, now: i64)
    requires
        time_writable(t),
        now >= 0,
    ensures
        time_writable(given_time(t, now)),
        given_time(t, now) == 0 ==> t == 0 && now < WRITE_QUANTUM_US,
{
    let q = floored(now, WRITE_QUANTUM_US);
    assert(q >= 0 && q <= now) by (nonlinear_arith)
        requires
            now >= 0,
            q == (now as int / 1000) * 1000,
    ;
    let g = given_time(t, now);
    if t == 0 {
        assert(floored(g, WRITE_QUANTUM_US) >= 0) by (nonlinear_arith)
            requires
                g >= 0,
                floored(g, WRITE_QUANTUM_US) == (g as int / 1000) * 1000,
        ;
    }
}

/// The write-path floor never moves a live author: creating or updating a
/// post whose author is live keeps every live post's author live.
pub proof fn lemma_post_write_keeps_authors(old: Database, new: Database, p: Post)
    requires
        authors_live(&old),
        old.post.wf(),
        old.post.state().log.indexed == old.post.state().log.ids.len(),
        new.user == old.user,
        old.user.state().log.is_live(p.author),
        new.post.state() == appended(old.post.state(), p.id, false, p.spec_keys(), p.spec_ord()),
    ensures
        authors_live(&new),
{
    old.post.lemma_wf();
    assert forall|q: u128| #[trigger] new.post.state().log.is_live(q) implies exists|u: u128|
        new.user.state().log.is_live(u) && new.post.state().key_of(q, 1) == id_key_spec(u) by {
        lemma_appended(old.post.state(), p.id, false, p.spec_keys(), p.spec_ord(), q);
        if q == p.id {
            assert(new.post.state().key_of(q, 1) == id_key_spec(p.author));
        } else {
            assert(old.post.state().log.is_live(q));
            let u = choose|u: u128| old.user.state().log.is_live(u) && old.post.state().key_of(q, 1) == id_key_spec(u);
            assert(new.post.state().key_of(q, 1) == id_key_spec(u));
        }
    }
}

/// What recovering a table to its first `len` committed rows leaves.
pub open spec fn recovered<R: Record>(old: Table<R>, new: Table<R>, len: usize) -> bool {
    &&& new.wf()
    &&& new.counters() == old.counters()
    &&& len >= old.state().log.ids.len() ==> new == old
    &&& len < old.state().log.ids.len() ==> {
        &&& new.state().log.ids == old.state().log.ids.take(len as int)
        &&& new.state().log.deleted == old.state().log.deleted.take(len as int)
        &&& new.state().log.indexed == len
        &&& new.consistent()
    }
}

/// Writing a new live user keeps every live user live.
proof fn lemma_user_write_keeps_authors(old: Database, new: Database, u: User)
    requires
        authors_live(&old),
        old.user.wf(),
        old.user.state().log.indexed == old.user.state().log.ids.len(),
        new.post == old.post,
        new.user.state() == appended(old.user.state(), u.id, false, u.spec_keys(), u.spec_ord()),
    ensures
        authors_live(&new),
{
    old.user.lemma_wf();
    assert forall|q: u128| #[trigger] new.post.state().log.is_live(q) implies exists|v: u128|
        new.user.state().log.is_live(v) && new.post.state().key_of(q, 1) == id_key_spec(v) by {
        let v = choose|v: u128| old.user.state().log.is_live(v) && old.post.state().key_of(q, 1) == id_key_spec(v);
        lemma_appended(old.user.state(), u.id, false, u.spec_keys(), u.spec_ord(), v);
    }
}

/// The schema version this build reads.
pub const EXPECTED_SCHEMA_VERSION: u32 = 1;

/// The on-disk format generation this build reads.
pub const EXPECTED_ENGINE_VERSION: u32 = 2;

/// How a data directory's manifest compares with this build.
#[derive(Debug)]
pub enum ManifestCheck {
    Compatible,
    SchemaMismatch,
    EngineMismatch,
}

/// Compares a manifest's schema and engine versions with this build's: a
/// schema mismatch is reported first, then an engine mismatch.
pub fn check_manifest(schema_version: u32, engine_version: u32) -> (c: ManifestCheck)
    ensures
        c == (if schema_version != EXPECTED_SCHEMA_VERSION {
            ManifestCheck::SchemaMismatch
        } else if engine_version != EXPECTED_ENGINE_VERSION {
            ManifestCheck::EngineMismatch
        } else {
            ManifestCheck::Compatible
        }),
{
    if schema_version != EXPECTED_SCHEMA_VERSION {
        ManifestCheck::SchemaMismatch
    } else if engine_version != EXPECTED_ENGINE_VERSION {
        ManifestCheck::EngineMismatch
    } else {
        ManifestCheck::Compatible
    }
}

/// How many times an optimistic transaction is retried by default.
pub const DEFAULT_TXN_RETRIES: u32 = 3;

/// The attempts of a retrying transaction: numbered from zero, at most
/// `retries + 1` of them.
pub struct Retry {
    pub next: u64,
    pub retries: u32,
}

impl Retry {
    pub fn new(retries: u32) -> (r: Retry)
        ensures
            r.next == 0,
            r.retries == retries,
    {
        Retry { next: 0, retries }
    }

    /// Whether another attempt may run; if so it is counted.
    pub fn next_attempt(&mut self) -> (go: bool)
        ensures
            go == (old(self).next <= old(self).retries),
            final(self).retries == old(self).retries,
            final(self).next == (if go { old(self).next + 1 } else { old(self).next as int }),
    {
        if self.next <= self.retries as u64 {
            self.next = self.next + 1;
            true
        } else {
            false
        }
    }
}

/// How an attempt of a retrying transaction ended: its body returned an
/// error of its own, its writes committed, or they conflicted with writes
/// committed since its snapshot.
pub enum AttemptOutcome {
    BodyFailed,
    Committed,
    Conflicted,
}

/// What follows an attempt: the transaction ends with the attempt's
/// result, or runs again while attempts remain.
pub enum AttemptNext {
    Finish,
    TryAgain,
}

/// Only a conflict is retried: an error of the transaction's own body, like
/// a commit, ends the transaction with that result.
pub fn after_attempt(o: AttemptOutcome) -> (n: AttemptNext)
    ensures
        (n is TryAgain) == (o is Conflicted),
{
    match o {
        AttemptOutcome::Conflicted => AttemptNext::TryAgain,
        _ => AttemptNext::Finish,
    }
}

/// The kind of a replicated change event.
#[derive(Debug)]
pub enum ChangeKind {
    Inserted,
    Updated,
    Deleted,
    Linked,
}

/// What applying a replicated change wrote.
#[derive(Debug)]
pub enum Applied<R> {
    Wrote(Written<R>),
    Removed(usize, MaintenanceAction),
    Nothing,
}

/// Applies a replicated change to a model's table: an insert or an update
/// of the record (by its id), or a delete of its id; a link event does
/// nothing here. A refusal is reported as a validation error.
pub fn apply_change<R: Record>(t: &mut Table<R>, kind: ChangeKind, rec: R) -> (r: Result<Applied<R>, ApplyError>)
    requires
        ready(&*old(t)),
        rec.spec_writable(),
    ensures
        final(t).wf(),
        match kind {
            ChangeKind::Inserted => exists|ir: Result<Written<R>, ValidationError>| #[trigger] inserted(*old(t), *final(t), rec, ir)
                && match ir {
                    Ok(w) => r == Ok::<Applied<R>, ApplyError>(Applied::Wrote(w)),
                    Err(e) => r == Err::<Applied<R>, ApplyError>(ApplyError::Validation(e)),
                },
            ChangeKind::Updated => exists|ur: Result<Option<Written<R>>, ValidationError>|
                #[trigger] updated(*old(t), *final(t), rec.spec_id(), rec, ur) && match ur {
                    Ok(Some(w)) => r == Ok::<Applied<R>, ApplyError>(Applied::Wrote(w)),
                    Ok(None) => r == Ok::<Applied<R>, ApplyError>(Applied::Nothing),
                    Err(e) => r == Err::<Applied<R>, ApplyError>(ApplyError::Validation(e)),
                },
            ChangeKind::Deleted => exists|dr: Option<(usize, MaintenanceAction)>| #[trigger] removed(*old(t), *final(t),
                rec.spec_id(), dr) && match dr {
                    Some((row, a)) => r == Ok::<Applied<R>, ApplyError>(Applied::Removed(row, a)),
                    None => r == Ok::<Applied<R>, ApplyError>(Applied::Nothing),
                },
            ChangeKind::Linked => *final(t) == *old(t) && r == Ok::<Applied<R>, ApplyError>(Applied::Nothing),
        },
{
    let ghost t0 = *t;
    match kind {
        ChangeKind::Inserted => {
            let ir = t.insert(rec);
            proof {
                assert(inserted(t0, *t, rec, ir));
            }
            match ir {
                Ok(w) => Ok(Applied::Wrote(w)),
                Err(e) => Err(ApplyError::Validation(e)),
            }
        },
        ChangeKind::Updated => {
            let id = rec.record_id();
            let ur = t.update(id, rec);
            proof {
                assert(updated(t0, *t, rec.spec_id(), rec, ur));
            }
            match ur {
                Ok(Some(w)) => Ok(Applied::Wrote(w)),
                Ok(None) => Ok(Applied::Nothing),
                Err(e) => Err(ApplyError::Validation(e)),
            }
        },
        ChangeKind::Deleted => {
            let id = rec.record_id();
            let dr = t.delete(id);
            proof {
                assert(removed(t0, *t, rec.spec_id(), dr));
            }
            match dr {
                Some((row, a)) => Ok(Applied::Removed(row, a)),
                None => Ok(Applied::Nothing),
            }
        },
        ChangeKind::Linked => Ok(Applied::Nothing),
    }
}

/// How many replicated events a catch-up reads per batch.
pub const CATCHUP_BATCH: usize = 512;

/// Replaying replicated events from `base` up to `target`: events are read
/// in batches after the last one read; each event at or below the target is
/// applied, and the first one past it ends the replay.
pub struct Catchup {
    pub after: u64,
    pub applied: u64,
    pub target: u64,
}

/// What to do with the next replicated event.
#[derive(Debug)]
pub enum CatchupStep {
    Apply,
    Stop,
}

impl Catchup {
    pub fn new(base: u64, target: u64) -> (c: Catchup)
        ensures
            c.after == base,
            c.applied == base,
            c.target == target,
    {
        Catchup { after: base, applied: base, target }
    }

    /// An event at `offset` is applied unless it lies past the target.
    pub fn step(&self, offset: u64) -> (s: CatchupStep)
        ensures
            s == (if offset > self.target { CatchupStep::Stop } else { CatchupStep::Apply }),
    {
        if offset > self.target {
            CatchupStep::Stop
        } else {
            CatchupStep::Apply
        }
    }

    /// Records that the event at `offset` was applied: reading resumes after
    /// it.
    pub fn applied(&mut self, offset: u64)
        ensures
            final(self).after == offset,
            final(self).applied == offset,
            final(self).target == old(self).target,
    {
        self.after = offset;
        self.applied = offset;
    }
}

/// The whole database: one table per model and the post-tag junction.
pub struct Database {
    pub user: Table<User>,
    pub post: Table<Post>,
    pub tag: Table<Tag>,
    pub metric: Table<Metric>,
    pub doc: Table<Doc>,
    pub post_tag_link: LinkTable,
}

/// Every live post names a live user as its author.
pub open spec fn authors_live(db: &Database) -> bool {
    forall|p: u128| #[trigger] db.post.state().log.is_live(p) ==> exists|u: u128|
        db.user.state().log.is_live(u) && db.post.state().key_of(p, 1) == id_key_spec(u)
}

/// Maintenance counters with nothing counted, deferred or due, and no
/// transaction open.
pub open spec fn idle(m: Maintenance) -> bool {
    m == (Maintenance {
        writes_since_checkpoint: 0,
        dead_since_compaction: 0,
        in_transaction: false,
        checkpoint_deferred: false,
        compact_deferred: false,
        compaction_due: false,
    })
}

impl Database {
    /// An empty database.
    pub fn new() -> (db: Database)
        ensures
            db.user.wf() && db.post.wf() && db.tag.wf() && db.metric.wf() && db.doc.wf(),
            db.user.consistent() && db.post.consistent() && db.tag.consistent() && db.metric.consistent()
                && db.doc.consistent(),
            db.user.state().log.ids.len() == 0,
            db.post.state().log.ids.len() == 0,
            db.tag.state().log.ids.len() == 0,
            db.metric.state().log.ids.len() == 0,
            db.doc.state().log.ids.len() == 0,
            db.post_tag_link.wf(),
            db.post_tag_link.rows().len() == 0,
            idle(db.user.counters()) && idle(db.post.counters()) && idle(db.tag.counters())
                && idle(db.metric.counters()) && idle(db.doc.counters()),
            authors_live(&db),
    {
        Database {
            user: Table::new(),
            post: Table::new(),
            tag: Table::new(),
            metric: Table::new(),
            doc: Table::new(),
            post_tag_link: LinkTable::new(),
        }
    }

    /// Creates a post whose id and time (when unset) are `fresh` and `now`:
    /// refused when its author is no live user, else inserted.
    pub fn create_post_with(&mut self, rec: Post, fresh: u128, now: i64) -> (r: Result<Written<Post>, ValidationError>)
        requires
            ready(&old(self).post),
            old(self).user.wf(),
            time_writable(rec.created_at),
            now >= 0,
        ensures
            post_created(*old(self), *final(self), filled_post(rec, fresh, now), r),
            authors_live(&*old(self)) ==> authors_live(&*final(self)),
    {
        let ghost before = *self;
        let (id, t) = fill_id_and_time(rec.id, rec.created_at, fresh, now);
        proof {
            lemma_given_time_writable(rec.created_at, now);
        }
        let rec = Post { id, created_at: t, ..rec };
        if !self.user_is_live(rec.author) {
            return Err(ValidationError::DanglingReference { model: "Post", field: "author", target: "User" });
        }
        let r = self.post.insert(rec);
        proof {
            if authors_live(&before) {
                if r is Ok {
                    lemma_post_write_keeps_authors(before, *self, r->Ok_0.record);
                }
            }
        }
        r
    }

    /// Creates a post: a nil id gets a fresh random one and
    /// an unset time the current time; then as `create_post_with`.
    pub fn create_post(&mut self, rec: Post) -> (r: Result<Written<Post>, ValidationError>)
        requires
            ready(&old(self).post),
            old(self).user.wf(),
            time_writable(rec.created_at),
        ensures
            exists|fresh: u128, now: i64| (rec.id == 0 ==> fresh != 0) && now >= 0 && post_created(
                *old(self), *final(self), filled_post(rec, fresh, now), r),
            authors_live(&*old(self)) ==> authors_live(&*final(self)),
    {
        let fresh = if rec.id == 0 { fresh_id() } else { 0 };
        let now = if rec.created_at == 0 { now_micros() } else { 0 };
        self.create_post_with(rec, fresh, now)
    }

    /// Writes a new version of post `id`: refused when the new author is no
    /// live user, else updated as the post table does.
    pub fn update_post(&mut self, id: u128, rec: Post) -> (r: Result<Option<Written<Post>>, ValidationError>)
        requires
            ready(&old(self).post),
            old(self).user.wf(),
            time_writable(rec.created_at),
        ensures
            final(self).user == old(self).user && final(self).tag == old(self).tag
                && final(self).metric == old(self).metric && final(self).doc == old(self).doc
                && final(self).post_tag_link == old(self).post_tag_link,
            if old(self).user.state().log.is_live(rec.author) {
                updated(old(self).post, final(self).post, id, rec, r)
            } else {
                final(self).post == old(self).post && (r matches Err(e) && is_dangling_author(e))
            },
            authors_live(&*old(self)) ==> authors_live(&*final(self)),
    {
        let ghost before = *self;
        if !self.user_is_live(rec.author) {
            return Err(ValidationError::DanglingReference { model: "Post", field: "author", target: "User" });
        }
        let r = self.post.update(id, rec);
        proof {
            if authors_live(&before) {
                if r matches Ok(Some(_)) {
                    let n = rec.spec_normalized();
                    lemma_post_write_keeps_authors(before, *self, Post { id, ..n });
                }
            }
        }
        r
    }

    /// Deletes user `id` at cascade depth `depth`: refused past the depth
    /// limit; `None` when no live user has the id; refused while a live post
    /// names the user as author; else the user's tombstone is written.
    pub fn delete_user_cascade(&mut self, id: u128, depth: u32) -> (r: Result<Option<(usize, MaintenanceAction)>, ValidationError>)
        requires
            ready(&old(self).user),
            old(self).post.wf(),
        ensures
            final(self).post == old(self).post && final(self).tag == old(self).tag
                && final(self).metric == old(self).metric && final(self).doc == old(self).doc
                && final(self).post_tag_link == old(self).post_tag_link,
            depth > MAX_CASCADE_DEPTH ==> final(self).user == old(self).user && (r matches Err(e) && is_too_deep(e, "User"@)),
            depth <= MAX_CASCADE_DEPTH && !old(self).user.state().log.is_live(id) ==> final(self).user == old(self).user
                && r matches Ok(None),
            depth <= MAX_CASCADE_DEPTH && old(self).user.state().log.is_live(id) && has_posts_by(old(self).post, id) ==>
                final(self).user == old(self).user && (r matches Err(e) && is_referenced_by_posts(e)),
            depth <= MAX_CASCADE_DEPTH && old(self).user.state().log.is_live(id) && !has_posts_by(old(self).post, id) ==>
                (r matches Ok(Some(x)) && removed(old(self).user, final(self).user, id, Some(x))),
            authors_live(&*old(self)) && old(self).post.consistent() ==> authors_live(&*final(self)),
    {
        let ghost before = *self;
        if depth > MAX_CASCADE_DEPTH {
            return Err(ValidationError::ReferencedByChildren { model: "User", field: "on_delete cascade depth exceeded" });
        }
        if !self.user_is_live(id) {
            return Ok(None);
        }
        let key = id_key(id);
        let children = self.post.rows_for_key(1, key.as_str());
        proof {
            let st = self.post.state();
            if children@.len() > 0 {
                self.post.lemma_wf();
                let r0 = children@[0] as int;
                let x = st.log.ids[r0];
                assert(r0 < st.log.indexed);
                assert(st.log.is_live_row(r0));
                assert(st.log.committed()[r0] == x);
                assert(st.log.is_live(x));
                assert(has_posts_by(self.post, id));
            } else {
                assert forall|x: u128| !(self.post.index_has(1, id_key_spec(id), x) && #[trigger] st.log.is_live(x)) by {
                    if self.post.index_has(1, id_key_spec(id), x) && st.log.is_live(x) {
                        assert(children@.contains(st.log.latest_row(x)->0 as usize));
                    }
                }
            }
        }
        if children.len() > 0 {
            return Err(ValidationError::ReferencedByChildren { model: "Post", field: "author" });
        }
        let d = self.user.delete(id);
        proof {
            if authors_live(&before) && before.post.consistent() {
                before.user.lemma_wf();
                before.post.lemma_consistent();
                let ls = before.user.state().log.latest_row(id)->0 as int;
                assert forall|p: u128| #[trigger] self.post.state().log.is_live(p) implies exists|u: u128|
                    self.user.state().log.is_live(u) && self.post.state().key_of(p, 1) == id_key_spec(u) by {
                    let u = choose|u: u128| before.user.state().log.is_live(u) && before.post.state().key_of(p, 1)
                        == id_key_spec(u);
                    lemma_appended(before.user.state(), id, true, before.user.state().keys[ls],
                        before.user.state().ords[ls], u);
                    if u == id {
                        assert(before.post.state().indexed_under(1, id_key_spec(id), p));
                        assert(before.post.index_has(1, id_key_spec(id), p));
                        assert(has_posts_by(before.post, id));
                    }
                }
            }
        }
        Ok(d)
    }

    /// Deletes user `id`: the cascade at depth zero.
    pub fn delete_user(&mut self, id: u128) -> (r: Result<Option<(usize, MaintenanceAction)>, ValidationError>)
        requires
            ready(&old(self).user),
            old(self).post.wf(),
        ensures
            final(self).post == old(self).post && final(self).tag == old(self).tag
                && final(self).metric == old(self).metric && final(self).doc == old(self).doc
                && final(self).post_tag_link == old(self).post_tag_link,
            !old(self).user.state().log.is_live(id) ==> final(self).user == old(self).user && r matches Ok(None),
            old(self).user.state().log.is_live(id) && has_posts_by(old(self).post, id) ==>
                final(self).user == old(self).user && (r matches Err(e) && is_referenced_by_posts(e)),
            old(self).user.state().log.is_live(id) && !has_posts_by(old(self).post, id) ==>
                (r matches Ok(Some(x)) && removed(old(self).user, final(self).user, id, Some(x))),
            authors_live(&*old(self)) && old(self).post.consistent() ==> authors_live(&*final(self)),
    {
        self.delete_user_cascade(id, 0)
    }

    /// Deletes post `id` at cascade depth `depth`: refused past the depth
    /// limit; `None` when no live post has the id; else the post is unlinked
    /// from every tag and its tombstone written.
    pub fn delete_post_cascade(&mut self, id: u128, depth: u32) -> (r: Result<Option<(usize, MaintenanceAction)>, ValidationError>)
        requires
            ready(&old(self).post),
            old(self).post_tag_link.wf(),
        ensures
            final(self).user == old(self).user && final(self).tag == old(self).tag
                && final(self).metric == old(self).metric && final(self).doc == old(self).doc,
            final(self).post_tag_link.wf(),
            depth > MAX_CASCADE_DEPTH ==> final(self).post == old(self).post && final(self).post_tag_link
                == old(self).post_tag_link && (r matches Err(e) && is_too_deep(e, "Post"@)),
            depth <= MAX_CASCADE_DEPTH && !old(self).post.state().log.is_live(id) ==> final(self).post
                == old(self).post && final(self).post_tag_link == old(self).post_tag_link && r matches Ok(None),
            depth <= MAX_CASCADE_DEPTH && old(self).post.state().log.is_live(id) ==> {
                &&& r matches Ok(Some(x)) && removed(old(self).post, final(self).post, id, Some(x))
                &&& final(self).post_tag_link.rows() == old(self).post_tag_link.rows() + Seq::new(
                    old(self).post_tag_link.rights_list(id).len(),
                    |k: int| (id, old(self).post_tag_link.rights_list(id)[k], true),
                )
                &&& forall|t: u128| !linked(#[trigger] final(self).post_tag_link.rows(), id, t)
                &&& forall|x: u128, y: u128| x != id ==> linked(final(self).post_tag_link.rows(), x, y)
                        == linked(old(self).post_tag_link.rows(), x, y)
            },
            authors_live(&*old(self)) ==> authors_live(&*final(self)),
    {
        let ghost before = *self;
        if depth > MAX_CASCADE_DEPTH {
            return Err(ValidationError::ReferencedByChildren { model: "Post", field: "on_delete cascade depth exceeded" });
        }
        if self.post.live_row(id).is_none() {
            return Ok(None);
        }
        self.post_tag_link.unlink_all_left(id);
        let d = self.post.delete(id);
        proof {
            if authors_live(&before) {
                before.post.lemma_wf();
                let ls = before.post.state().log.latest_row(id)->0 as int;
                assert forall|p: u128| #[trigger] self.post.state().log.is_live(p) implies exists|u: u128|
                    self.user.state().log.is_live(u) && self.post.state().key_of(p, 1) == id_key_spec(u) by {
                    lemma_appended(before.post.state(), id, true, before.post.state().keys[ls],
                        before.post.state().ords[ls], p);
                    let u = choose|u: u128| before.user.state().log.is_live(u) && before.post.state().key_of(p, 1)
                        == id_key_spec(u);
                }
            }
        }
        Ok(d)
    }

    /// Deletes post `id`: the cascade at depth zero.
    pub fn delete_post(&mut self, id: u128) -> (r: Result<Option<(usize, MaintenanceAction)>, ValidationError>)
        requires
            ready(&old(self).post),
            old(self).post_tag_link.wf(),
        ensures
            final(self).user == old(self).user && final(self).tag == old(self).tag
                && final(self).metric == old(self).metric && final(self).doc == old(self).doc,
            final(self).post_tag_link.wf(),
            !old(self).post.state().log.is_live(id) ==> final(self).post == old(self).post
                && final(self).post_tag_link == old(self).post_tag_link && r matches Ok(None),
            old(self).post.state().log.is_live(id) ==> {
                &&& r matches Ok(Some(x)) && removed(old(self).post, final(self).post, id, Some(x))
                &&& final(self).post_tag_link.rows() == old(self).post_tag_link.rows() + Seq::new(
                    old(self).post_tag_link.rights_list(id).len(),
                    |k: int| (id, old(self).post_tag_link.rights_list(id)[k], true),
                )
                &&& forall|t: u128| !linked(#[trigger] final(self).post_tag_link.rows(), id, t)
                &&& forall|x: u128, y: u128| x != id ==> linked(final(self).post_tag_link.rows(), x, y)
                        == linked(old(self).post_tag_link.rows(), x, y)
            },
            authors_live(&*old(self)) ==> authors_live(&*final(self)),
    {
        self.delete_post_cascade(id, 0)
    }

    /// Creates a user whose id and time (when unset) are `fresh` and `now`.
    pub fn create_user_with(&mut self, rec: User, fresh: u128, now: i64) -> (r: Result<Written<User>, ValidationError>)
        requires
            ready(&old(self).user),
            time_writable(rec.created_at),
            now >= 0,
        ensures
            final(self).post == old(self).post && final(self).tag == old(self).tag
                && final(self).metric == old(self).metric && final(self).doc == old(self).doc
                && final(self).post_tag_link == old(self).post_tag_link,
            inserted(old(self).user, final(self).user, filled_user(rec, fresh, now), r),
            authors_live(&*old(self)) ==> authors_live(&*final(self)),
    {
        let ghost before = *self;
        let (id, t) = fill_id_and_time(rec.id, rec.created_at, fresh, now);
        proof {
            lemma_given_time_writable(rec.created_at, now);
        }
        let rec = User { id, created_at: t, ..rec };
        let r = self.user.insert(rec);
        proof {
            if authors_live(&before) && r is Ok {
                lemma_user_write_keeps_authors(before, *self, r->Ok_0.record);
            }
        }
        r
    }

    /// Creates a user: a nil id gets a fresh random one and
    /// an unset time the current time; then as `create_user_with`.
    pub fn create_user(&mut self, rec: User) -> (r: Result<Written<User>, ValidationError>)
        requires
            ready(&old(self).user),
            time_writable(rec.created_at),
        ensures
            final(self).post == old(self).post && final(self).tag == old(self).tag
                && final(self).metric == old(self).metric && final(self).doc == old(self).doc
                && final(self).post_tag_link == old(self).post_tag_link,
            exists|fresh: u128, now: i64| (rec.id == 0 ==> fresh != 0) && now >= 0 && inserted(
                old(self).user, final(self).user, filled_user(rec, fresh, now), r),
            authors_live(&*old(self)) ==> authors_live(&*final(self)),
    {
        let fresh = if rec.id == 0 { fresh_id() } else { 0 };
        let now = if rec.created_at == 0 { now_micros() } else { 0 };
        self.create_user_with(rec, fresh, now)
    }

    /// Writes a new version of user `id`, as the user table does.
    pub fn update_user(&mut self, id: u128, rec: User) -> (r: Result<Option<Written<User>>, ValidationError>)
        requires
            ready(&old(self).user),
            time_writable(rec.created_at),
        ensures
            final(self).post == old(self).post && final(self).tag == old(self).tag
                && final(self).metric == old(self).metric && final(self).doc == old(self).doc
                && final(self).post_tag_link == old(self).post_tag_link,
            updated(old(self).user, final(self).user, id, rec, r),
            authors_live(&*old(self)) ==> authors_live(&*final(self)),
    {
        let ghost before = *self;
        let r = self.user.update(id, rec);
        proof {
            if authors_live(&before) && r matches Ok(Some(_)) {
                let n = rec.spec_normalized();
                lemma_user_write_keeps_authors(before, *self, User { id, ..n });
            }
        }
        r
    }

    /// Creates a tag whose id (when unset) is `fresh`.
    pub fn create_tag_with(&mut self, rec: Tag, fresh: u128) -> (r: Result<Written<Tag>, ValidationError>)
        requires
            ready(&old(self).tag),
        ensures
            final(self).post == old(self).post && final(self).user == old(self).user
                && final(self).metric == old(self).metric && final(self).doc == old(self).doc
                && final(self).post_tag_link == old(self).post_tag_link,
            inserted(old(self).tag, final(self).tag, Tag { id: given_id(rec.id, fresh), ..rec }, r),
    {
        let id = if rec.id == 0 { fresh } else { rec.id };
        let rec = Tag { id, ..rec };
        self.tag.insert(rec)
    }

    /// Creates a tag: a nil id gets a fresh random one.
    pub fn create_tag(&mut self, rec: Tag) -> (r: Result<Written<Tag>, ValidationError>)
        requires
            ready(&old(self).tag),
        ensures
            final(self).post == old(self).post && final(self).user == old(self).user
                && final(self).metric == old(self).metric && final(self).doc == old(self).doc
                && final(self).post_tag_link == old(self).post_tag_link,
            exists|fresh: u128| (rec.id == 0 ==> fresh != 0) && inserted(old(self).tag, final(self).tag,
                Tag { id: given_id(rec.id, fresh), ..rec }, r),
    {
        let fresh = if rec.id == 0 { fresh_id() } else { 0 };
        self.create_tag_with(rec, fresh)
    }

    /// Writes a new version of tag `id`, as the tag table does.
    pub fn update_tag(&mut self, id: u128, rec: Tag) -> (r: Result<Option<Written<Tag>>, ValidationError>)
        requires
            ready(&old(self).tag),
        ensures
            final(self).post == old(self).post && final(self).user == old(self).user
                && final(self).metric == old(self).metric && final(self).doc == old(self).doc
                && final(self).post_tag_link == old(self).post_tag_link,
            updated(old(self).tag, final(self).tag, id, rec, r),
    {
        self.tag.update(id, rec)
    }

    /// Creates a metric whose id and time (when unset) are `fresh` and `now`.
    pub fn create_metric_with(&mut self, rec: Metric, fresh: u128, now: i64) -> (r: Result<Written<Metric>, ValidationError>)
        requires
            ready(&old(self).metric),
            time_writable(rec.recorded_at),
            now >= 0,
        ensures
            final(self).post == old(self).post && final(self).user == old(self).user
                && final(self).tag == old(self).tag && final(self).doc == old(self).doc
                && final(self).post_tag_link == old(self).post_tag_link,
            inserted(old(self).metric, final(self).metric, filled_metric(rec, fresh, now), r),
    {
        let (id, t) = fill_id_and_time(rec.id, rec.recorded_at, fresh, now);
        proof {
            lemma_given_time_writable(rec.recorded_at, now);
        }
        let rec = Metric { id, recorded_at: t, ..rec };
        self.metric.insert(rec)
    }

    /// Creates a metric: a nil id gets a fresh random one
    /// and an unset time the current time.
    pub fn create_metric(&mut self, rec: Metric) -> (r: Result<Written<Metric>, ValidationError>)
        requires
            ready(&old(self).metric),
            time_writable(rec.recorded_at),
        ensures
            final(self).post == old(self).post && final(self).user == old(self).user
                && final(self).tag == old(self).tag && final(self).doc == old(self).doc
                && final(self).post_tag_link == old(self).post_tag_link,
            exists|fresh: u128, now: i64| (rec.id == 0 ==> fresh != 0) && now >= 0 && inserted(
                old(self).metric, final(self).metric, filled_metric(rec, fresh, now), r),
    {
        let fresh = if rec.id == 0 { fresh_id() } else { 0 };
        let now = if rec.recorded_at == 0 { now_micros() } else { 0 };
        self.create_metric_with(rec, fresh, now)
    }

    /// Writes a new version of metric `id`, as the metric table does.
    pub fn update_metric(&mut self, id: u128, rec: Metric) -> (r: Result<Option<Written<Metric>>, ValidationError>)
        requires
            ready(&old(self).metric),
            time_writable(rec.recorded_at),
        ensures
            final(self).post == old(self).post && final(self).user == old(self).user
                && final(self).tag == old(self).tag && final(self).doc == old(self).doc
                && final(self).post_tag_link == old(self).post_tag_link,
            updated(old(self).metric, final(self).metric, id, rec, r),
    {
        self.metric.update(id, rec)
    }

    /// Creates a document whose id (when unset) is `fresh`.
    pub fn create_doc_with(&mut self, rec: Doc, fresh: u128) -> (r: Result<Written<Doc>, ValidationError>)
        requires
            ready(&old(self).doc),
        ensures
            final(self).post == old(self).post && final(self).user == old(self).user
                && final(self).tag == old(self).tag && final(self).metric == old(self).metric
                && final(self).post_tag_link == old(self).post_tag_link,
            inserted(old(self).doc, final(self).doc, Doc { id: given_id(rec.id, fresh), ..rec }, r),
    {
        let id = if rec.id == 0 { fresh } else { rec.id };
        let rec = Doc { id, ..rec };
        self.doc.insert(rec)
    }

    /// Creates a document: a nil id gets a fresh random one.
    pub fn create_doc(&mut self, rec: Doc) -> (r: Result<Written<Doc>, ValidationError>)
        requires
            ready(&old(self).doc),
        ensures
            final(self).post == old(self).post && final(self).user == old(self).user
                && final(self).tag == old(self).tag && final(self).metric == old(self).metric
                && final(self).post_tag_link == old(self).post_tag_link,
            exists|fresh: u128| (rec.id == 0 ==> fresh != 0) && inserted(old(self).doc, final(self).doc,
                Doc { id: given_id(rec.id, fresh), ..rec }, r),
    {
        let fresh = if rec.id == 0 { fresh_id() } else { 0 };
        self.create_doc_with(rec, fresh)
    }

    /// Writes a new version of document `id`, as the document table does.
    pub fn update_doc(&mut self, id: u128, rec: Doc) -> (r: Result<Option<Written<Doc>>, ValidationError>)
        requires
            ready(&old(self).doc),
        ensures
            final(self).post == old(self).post && final(self).user == old(self).user
                && final(self).tag == old(self).tag && final(self).metric == old(self).metric
                && final(self).post_tag_link == old(self).post_tag_link,
            updated(old(self).doc, final(self).doc, id, rec, r),
    {
        self.doc.update(id, rec)
    }

    /// Deletes tag `id` at cascade depth `depth`: refused past the depth
    /// limit; `None` when no live tag has the id; else the tag is unlinked
    /// from every post and its tombstone written.
    pub fn delete_tag_cascade(&mut self, id: u128, depth: u32) -> (r: Result<Option<(usize, MaintenanceAction)>, ValidationError>)
        requires
            ready(&old(self).tag),
            old(self).post_tag_link.wf(),
        ensures
            final(self).user == old(self).user && final(self).post == old(self).post
                && final(self).metric == old(self).metric && final(self).doc == old(self).doc,
            final(self).post_tag_link.wf(),
            depth > MAX_CASCADE_DEPTH ==> final(self).tag == old(self).tag && final(self).post_tag_link
                == old(self).post_tag_link && (r matches Err(e) && is_too_deep(e, "Tag"@)),
            depth <= MAX_CASCADE_DEPTH && !old(self).tag.state().log.is_live(id) ==> final(self).tag
                == old(self).tag && final(self).post_tag_link == old(self).post_tag_link && r matches Ok(None),
            depth <= MAX_CASCADE_DEPTH && old(self).tag.state().log.is_live(id) ==> {
                &&& r matches Ok(Some(x)) && removed(old(self).tag, final(self).tag, id, Some(x))
                &&& final(self).post_tag_link.rows() == old(self).post_tag_link.rows() + Seq::new(
                    old(self).post_tag_link.lefts_list(id).len(),
                    |k: int| (old(self).post_tag_link.lefts_list(id)[k], id, true),
                )
                &&& forall|p: u128| !linked(#[trigger] final(self).post_tag_link.rows(), p, id)
                &&& forall|x: u128, y: u128| y != id ==> linked(final(self).post_tag_link.rows(), x, y)
                        == linked(old(self).post_tag_link.rows(), x, y)
            },
    {
        if depth > MAX_CASCADE_DEPTH {
            return Err(ValidationError::ReferencedByChildren { model: "Tag", field: "on_delete cascade depth exceeded" });
        }
        if self.tag.live_row(id).is_none() {
            return Ok(None);
        }
        self.post_tag_link.unlink_all_right(id);
        Ok(self.tag.delete(id))
    }

    /// Deletes tag `id`: the cascade at depth zero.
    pub fn delete_tag(&mut self, id: u128) -> (r: Result<Option<(usize, MaintenanceAction)>, ValidationError>)
        requires
            ready(&old(self).tag),
            old(self).post_tag_link.wf(),
        ensures
            final(self).user == old(self).user && final(self).post == old(self).post
                && final(self).metric == old(self).metric && final(self).doc == old(self).doc,
            final(self).post_tag_link.wf(),
            !old(self).tag.state().log.is_live(id) ==> final(self).tag == old(self).tag
                && final(self).post_tag_link == old(self).post_tag_link && r matches Ok(None),
            old(self).tag.state().log.is_live(id) ==> {
                &&& r matches Ok(Some(x)) && removed(old(self).tag, final(self).tag, id, Some(x))
                &&& final(self).post_tag_link.rows() == old(self).post_tag_link.rows() + Seq::new(
                    old(self).post_tag_link.lefts_list(id).len(),
                    |k: int| (old(self).post_tag_link.lefts_list(id)[k], id, true),
                )
                &&& forall|p: u128| !linked(#[trigger] final(self).post_tag_link.rows(), p, id)
                &&& forall|x: u128, y: u128| y != id ==> linked(final(self).post_tag_link.rows(), x, y)
                        == linked(old(self).post_tag_link.rows(), x, y)
            },
    {
        self.delete_tag_cascade(id, 0)
    }

    /// Deletes metric `id` at cascade depth `depth`: refused past the depth
    /// limit; `None` when no live metric has the id; else its tombstone is
    /// written.
    pub fn delete_metric_cascade(&mut self, id: u128, depth: u32) -> (r: Result<Option<(usize, MaintenanceAction)>, ValidationError>)
        requires
            ready(&old(self).metric),
        ensures
            final(self).user == old(self).user && final(self).post == old(self).post
                && final(self).tag == old(self).tag && final(self).doc == old(self).doc
                && final(self).post_tag_link == old(self).post_tag_link,
            depth > MAX_CASCADE_DEPTH ==> final(self).metric == old(self).metric && (r matches Err(e) && is_too_deep(e, "Metric"@)),
            depth <= MAX_CASCADE_DEPTH ==> (r matches Ok(d) && removed(old(self).metric, final(self).metric, id, d)),
    {
        if depth > MAX_CASCADE_DEPTH {
            return Err(ValidationError::ReferencedByChildren { model: "Metric", field: "on_delete cascade depth exceeded" });
        }
        if self.metric.live_row(id).is_none() {
            return Ok(None);
        }
        Ok(self.metric.delete(id))
    }

    /// Deletes metric `id`: the cascade at depth zero.
    pub fn delete_metric(&mut self, id: u128) -> (r: Result<Option<(usize, MaintenanceAction)>, ValidationError>)
        requires
            ready(&old(self).metric),
        ensures
            final(self).user == old(self).user && final(self).post == old(self).post
                && final(self).tag == old(self).tag && final(self).doc == old(self).doc
                && final(self).post_tag_link == old(self).post_tag_link,
            r matches Ok(d) && removed(old(self).metric, final(self).metric, id, d),
    {
        self.delete_metric_cascade(id, 0)
    }

    /// Deletes document `id` at cascade depth `depth`: refused past the depth
    /// limit; `None` when no live document has the id; else its tombstone is
    /// written.
    pub fn delete_doc_cascade(&mut self, id: u128, depth: u32) -> (r: Result<Option<(usize, MaintenanceAction)>, ValidationError>)
        requires
            ready(&old(self).doc),
        ensures
            final(self).user == old(self).user && final(self).post == old(self).post
                && final(self).tag == old(self).tag && final(self).metric == old(self).metric
                && final(self).post_tag_link == old(self).post_tag_link,
            depth > MAX_CASCADE_DEPTH ==> final(self).doc == old(self).doc && (r matches Err(e) && is_too_deep(e, "Doc"@)),
            depth <= MAX_CASCADE_DEPTH ==> (r matches Ok(d) && removed(old(self).doc, final(self).doc, id, d)),
    {
        if depth > MAX_CASCADE_DEPTH {
            return Err(ValidationError::ReferencedByChildren { model: "Doc", field: "on_delete cascade depth exceeded" });
        }
        if self.doc.live_row(id).is_none() {
            return Ok(None);
        }
        Ok(self.doc.delete(id))
    }

    /// Deletes document `id`: the cascade at depth zero.
    pub fn delete_doc(&mut self, id: u128) -> (r: Result<Option<(usize, MaintenanceAction)>, ValidationError>)
        requires
            ready(&old(self).doc),
        ensures
            final(self).user == old(self).user && final(self).post == old(self).post
                && final(self).tag == old(self).tag && final(self).metric == old(self).metric
                && final(self).post_tag_link == old(self).post_tag_link,
            r matches Ok(d) && removed(old(self).doc, final(self).doc, id, d),
    {
        self.delete_doc_cascade(id, 0)
    }

    /// Applies a replicated junction event: a 32-byte payload links the post
    /// of its first sixteen bytes to the tag of its last sixteen; any other
    /// length is ignored.
    pub fn apply_link_event(&mut self, bytes: &Vec<u8>)
        requires
            old(self).post_tag_link.wf(),
        ensures
            final(self).user == old(self).user && final(self).post == old(self).post
                && final(self).tag == old(self).tag && final(self).metric == old(self).metric
                && final(self).doc == old(self).doc,
            final(self).post_tag_link.wf(),
            bytes@.len() != 32 ==> final(self).post_tag_link == old(self).post_tag_link,
            bytes@.len() == 32 ==> final(self).post_tag_link.rows() == old(self).post_tag_link.rows().push((
                id_from_bytes(bytes@.take(16)) as u128,
                id_from_bytes(bytes@.skip(16)) as u128,
                false,
            )),
    {
        match link_of_body(bytes) {
            Some((l, r)) => {
                self.post_tag_link.link(l, r);
            },
            None => {},
        }
    }

    /// Cuts a model back to the row count the transaction journal last
    /// committed for it; an unknown model name is ignored.
    pub fn recover_model(&mut self, model: &str, len: usize)
        requires
            old(self).user.wf() && old(self).post.wf() && old(self).tag.wf() && old(self).metric.wf()
                && old(self).doc.wf(),
        ensures
            final(self).post_tag_link == old(self).post_tag_link,
            if model@ == "User"@ { recovered(old(self).user, final(self).user, len) } else { final(self).user == old(self).user },
            if model@ == "Post"@ { recovered(old(self).post, final(self).post, len) } else { final(self).post == old(self).post },
            if model@ == "Tag"@ { recovered(old(self).tag, final(self).tag, len) } else { final(self).tag == old(self).tag },
            if model@ == "Metric"@ { recovered(old(self).metric, final(self).metric, len) } else { final(self).metric == old(self).metric },
            if model@ == "Doc"@ { recovered(old(self).doc, final(self).doc, len) } else { final(self).doc == old(self).doc },
    {
        proof {
            reveal_strlit("User");
            reveal_strlit("Post");
            reveal_strlit("Tag");
            reveal_strlit("Metric");
            reveal_strlit("Doc");
            let names = seq!["User"@, "Post"@, "Tag"@, "Metric"@, "Doc"@];
            assert forall|i: int, j: int| 0 <= i < j < 5 implies names[i] != names[j] by {
                assert(names[i][0] != names[j][0]);
            }
            assert(names[0] == "User"@ && names[1] == "Post"@ && names[2] == "Tag"@ && names[3] == "Metric"@
                && names[4] == "Doc"@);
        }
        if str_eq(model, "User") {
            self.user.recover_to_committed(len);
        } else if str_eq(model, "Post") {
            self.post.recover_to_committed(len);
        } else if str_eq(model, "Tag") {
            self.tag.recover_to_committed(len);
        } else if str_eq(model, "Metric") {
            self.metric.recover_to_committed(len);
        } else if str_eq(model, "Doc") {
            self.doc.recover_to_committed(len);
        }
    }

    /// The user `id` exists and is not deleted.
    pub fn user_is_live(&self, id: u128) -> (b: bool)
        requires
            self.user.wf(),
        ensures
            b == self.user.state().log.is_live(id),
    {
        self.user.live_row(id).is_some()
    }
}

} // verus!
