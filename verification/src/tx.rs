use vstd::prelude::*;
use crate::db::{Database, ready, given_id, given_time, is_dangling_author, time_writable, fresh_id, now_micros,
    fill_id_and_time, lemma_given_time_writable, filled_post, filled_user, filled_metric};
use crate::timestamps::{floored, WRITE_QUANTUM_US};
use crate::errors::{TxError, ValidationError};
use crate::ids::{hyphenated, uuid_hyphenated};
use crate::keys::{ws_key, ws_key_spec};
use crate::maintenance::{Maintenance, MaintenanceAction};
use crate::records::{Record, User, Post, Tag, Metric, Doc};
use crate::table::{Table, Written, claims, clash};
use crate::txn::{StagedKeys, str_bytes};
use crate::versions::LogView;
use vstd::utf8::encode_utf8;

verus! {

/// The model names in the order a transaction visits them (by name).
pub open spec fn model_name(m: int) -> Seq<char> {
    if m == 0 { "Doc"@ } else if m == 1 { "Metric"@ } else if m == 2 { "Post"@ } else if m == 3 { "Tag"@ } else { "User"@ }
}

pub(crate) fn model_str(m: usize) -> (s: &'static str)
    requires
        m < 5,
    ensures
        s@ == model_name(m as int),
{
    if m == 0 { "Doc" } else if m == 1 { "Metric" } else if m == 2 { "Post" } else if m == 3 { "Tag" } else { "User" }
}

/// The JSON form of an id: its hyphenated rendering in double quotes, as
/// bytes.
pub open spec fn id_json(id: u128) -> Seq<u8> {
    seq![34u8] + hyphenated(id).map_values(|c: char| c as u8) + seq![34u8]
}

/// Serialises an id to JSON.
///
/// Calls `serde_json::to_vec` on `uuid::Uuid::from_u128(id)`; the uuid
/// source serialises a human-readable id as its lower-case hyphenated string,
/// which serde_json writes quoted and, holding only hex digits and hyphens,
/// unescaped.
#[verifier::external_body]
pub(crate) fn id_to_json(id: u128) -> (out: Vec<u8>)
    ensures
        out@ == id_json(id),
{
    serde_json::to_vec(&uuid::Uuid::from_u128(id)).unwrap_or_default()
}

/// The unique keys claimed after a staged write of `n`: on success the
/// earlier ones and those of `n`; on failure at least the earlier ones.
pub open spec fn claimed_after<R: Record>(before: StagedKeys, after: StagedKeys, n: R, ok: bool) -> bool {
    if ok {
        forall|m: Seq<char>, g: Seq<char>, k: Seq<char>| #[trigger] after.has(m, g, k) <==> before.has(m, g, k)
            || claims(n, m, g, k)
    } else {
        forall|m: Seq<char>, g: Seq<char>, k: Seq<char>| before.has(m, g, k) ==> #[trigger] after.has(m, g, k)
    }
}

/// What staging a new record `rec` into a table in state `old` leaves
/// (`new`) and returns, given the unique keys claimed before (`staged`).
pub open spec fn tx_inserted<R: Record>(old: Table<R>, new: Table<R>, staged: StagedKeys, staged_after: StagedKeys,
    rec: R, r: Result<Written<R>, ValidationError>) -> bool {
    let n = rec.spec_normalized();
    &&& new.wf()
    &&& claimed_after(staged, staged_after, n, r is Ok)
    &&& match r {
        Err(e) => {
            &&& new.state() == old.state()
            &&& (!n.spec_valid() && n.spec_rejects(e)) || (n.spec_valid() && exists|f: int|
                    clash(old, staged, n, None, f) && R::spec_unique_error(f, e))
        },
        Ok(w) => {
            &&& w.record == n
            &&& n.spec_valid()
            &&& forall|f: int| 0 <= f < R::spec_n_keys() && R::spec_unique(f) ==>
                    !old.taken_in_tx(f, n.spec_keys()[f], None)
                    && !staged.has(R::spec_model(), R::spec_field(f), n.spec_keys()[f])
            &&& w.row == old.state().log.ids.len()
            &&& new.state().log.ids == old.state().log.ids.push(n.spec_id())
            &&& new.state().log.deleted == old.state().log.deleted.push(false)
            &&& new.state().log.indexed == old.state().log.indexed
            &&& new.state().keys == old.state().keys.push(n.spec_keys())
            &&& new.state().ords == old.state().ords.push(n.spec_ord())
            &&& old.consistent() ==> new.consistent()
        },
    }
}

/// What staging a new version of `id` leaves and returns.
pub open spec fn tx_updated<R: Record>(old: Table<R>, new: Table<R>, staged: StagedKeys, staged_after: StagedKeys,
    id: u128, rec: R, r: Result<Written<R>, ValidationError>) -> bool {
    let n = rec.spec_normalized();
    &&& new.wf()
    &&& claimed_after(staged, staged_after, n, r is Ok)
    &&& match r {
        Err(e) => {
            &&& new.state() == old.state()
            &&& (!n.spec_valid() && n.spec_rejects(e)) || (n.spec_valid() && exists|f: int|
                    clash(old, staged, n, Some(id), f) && R::spec_unique_error(f, e))
        },
        Ok(w) => {
            &&& w.record == n
            &&& n.spec_valid()
            &&& forall|f: int| 0 <= f < R::spec_n_keys() && R::spec_unique(f) ==>
                    !old.taken_in_tx(f, n.spec_keys()[f], Some(id))
            &&& w.row == old.state().log.ids.len()
            &&& new.state().log.ids == old.state().log.ids.push(id)
            &&& new.state().log.deleted == old.state().log.deleted.push(false)
            &&& new.state().log.indexed == old.state().log.indexed
            &&& new.state().keys == old.state().keys.push(n.spec_keys())
            &&& new.state().ords == old.state().ords.push(n.spec_ord())
            &&& old.consistent() ==> new.consistent()
        },
    }
}

/// Model `m` as a transaction holding `mark` and `origin` for it expects:
/// if marked at `k`, its first `k` rows are those it had when first
/// written, all of them indexed, and it is in a transaction; else it is
/// fully indexed.
pub open spec fn marked_ok(db: &Database, mark: Option<usize>, origin: LogView, m: int) -> bool {
    match mark {
        Some(k) => {
            &&& log_of(db, m).indexed == k
            &&& k <= log_of(db, m).ids.len()
            &&& counters_of(db, m).in_transaction
            &&& log_of(db, m).ids.take(k as int) == origin.ids
            &&& log_of(db, m).deleted.take(k as int) == origin.deleted
            &&& origin.ids.len() == k
            &&& origin.indexed == k
        },
        None => log_of(db, m).indexed == log_of(db, m).ids.len(),
    }
}

/// A model's mark once the transaction writes it: kept if set, else the
/// model's row count.
pub open spec fn mark_after(prev: Option<usize>, len: nat) -> Option<usize> {
    match prev {
        Some(k) => Some(k),
        None => Some(len as usize),
    }
}

/// Tables with the same hash indexes agree on which keys are taken.
pub proof fn lemma_taken_same<R: Record>(a: Table<R>, b: Table<R>, f: int, k: Seq<char>, except: Option<u128>)
    requires
        forall|g: int, kk: Seq<char>, x: u128| #[trigger] a.index_has(g, kk, x) == b.index_has(g, kk, x),
    ensures
        a.taken_in_tx(f, k, except) == b.taken_in_tx(f, k, except),
{
    if a.taken_in_tx(f, k, except) {
        let x = choose|x: u128| a.index_has(f, k, x) && (except matches Some(id) ==> x != id);
        assert(b.index_has(f, k, x));
    }
    if b.taken_in_tx(f, k, except) {
        let x = choose|x: u128| b.index_has(f, k, x) && (except matches Some(id) ==> x != id);
        assert(a.index_has(f, k, x));
    }
}

/// The counters once a table is part of a transaction.
pub open spec fn marked(c: Maintenance) -> Maintenance {
    Maintenance { in_transaction: true, ..c }
}

/// The write path's normalisation of a post is idempotent.
pub(crate) proof fn lemma_post_normalize_idempotent(p: Post)
    requires
        p.spec_writable(),
    ensures
        p.spec_normalized().spec_writable(),
        p.spec_normalized().spec_normalized() == p.spec_normalized(),
{
    let x = p.created_at;
    let y = floored(x, WRITE_QUANTUM_US);
    assert(y <= x) by (nonlinear_arith)
        requires
            y == (x as int / 1000) * 1000,
    ;
    let k = x as int / 1000;
    assert((k * 1000) / 1000 == k) by (nonlinear_arith);
    assert(floored(y as i64, WRITE_QUANTUM_US) == y);
}

/// A multi-model transaction in progress: per model (by name order) the row
/// count to roll back to, once the transaction first writes it; the unique
/// keys it claimed; and the `(model, id)` of each staged write, in order.
pub struct TxHandle {
    marks: Vec<Option<usize>>,
    origin: Ghost<Seq<LogView>>,
    staged: StagedKeys,
    pending: Vec<(&'static str, u128)>,
}

/// Table `m` (by name order) of a database: its log and counters.
pub open spec fn log_of(db: &Database, m: int) -> crate::versions::LogView {
    if m == 0 { db.doc.state().log } else if m == 1 { db.metric.state().log } else if m == 2 { db.post.state().log }
    else if m == 3 { db.tag.state().log } else { db.user.state().log }
}

/// The rows, keys and ordered values of table `m` (by name order).
pub open spec fn state_of(db: &Database, m: int) -> crate::model::CoreView {
    if m == 0 { db.doc.state() } else if m == 1 { db.metric.state() } else if m == 2 { db.post.state() }
    else if m == 3 { db.tag.state() } else { db.user.state() }
}

pub open spec fn counters_of(db: &Database, m: int) -> Maintenance {
    if m == 0 { db.doc.counters() } else if m == 1 { db.metric.counters() } else if m == 2 { db.post.counters() }
    else if m == 3 { db.tag.counters() } else { db.user.counters() }
}

pub open spec fn all_wf(db: &Database) -> bool {
    db.user.wf() && db.post.wf() && db.tag.wf() && db.metric.wf() && db.doc.wf()
}

impl TxHandle {
    /// The rollback mark of model `m`, once the transaction wrote it.
    pub closed spec fn mark(&self, m: int) -> Option<usize> {
        self.marks@[m]
    }

    /// The log of model `m` when the transaction first wrote it.
    pub closed spec fn origin(&self, m: int) -> LogView {
        self.origin@[m]
    }

    /// The unique keys claimed.
    pub closed spec fn claimed(&self) -> StagedKeys {
        self.staged
    }

    /// The staged writes: model name and id, in order.
    pub closed spec fn writes(&self) -> Seq<(Seq<char>, u128)> {
        Seq::new(self.pending@.len(), |i: int| (self.pending@[i].0@, self.pending@[i].1))
    }

    /// The transaction's view of the database: every model it marked has
    /// its committed rows indexed up to the mark and rows staged after it,
    /// and is flagged as in a transaction.
    pub closed spec fn inv(&self, db: &Database) -> bool {
        &&& self.marks@.len() == 5
        &&& self.origin@.len() == 5
        &&& all_wf(db)
        &&& forall|m: int| 0 <= m < 5 ==> marked_ok(db, #[trigger] self.marks@[m], self.origin@[m], m)
    }

    /// A transaction that has marked nothing fits any database whose tables
    /// are well formed and fully indexed.
    pub proof fn lemma_inv_at_begin(&self, db: &Database)
        requires
            self.sized(),
            self.origin_sized(),
            forall|m: int| 0 <= m < 5 ==> #[trigger] self.mark(m) is None,
            all_wf(db),
            forall|m: int| 0 <= m < 5 ==> #[trigger] log_of(db, m).indexed == log_of(db, m).ids.len(),
        ensures
            self.inv(db),
    {
        assert forall|m: int| 0 <= m < 5 implies marked_ok(db, #[trigger] self.marks@[m], self.origin@[m], m) by {
            assert(self.mark(m) is None);
        }
    }

    /// Staging rows into model `m` after its mark, and touching nothing
    /// else, keeps the transaction's view valid.
    proof fn lemma_inv_after_stage(&self, before: &Database, after: &Database, m: int)
        requires
            self.inv(before),
            0 <= m < 5,
            self.mark(m) is Some,
            all_wf(after),
            forall|n: int| 0 <= n < 5 && n != m ==> log_of(after, n) == log_of(before, n)
                && counters_of(after, n) == counters_of(before, n),
            log_of(after, m).indexed == log_of(before, m).indexed,
            log_of(after, m).ids.len() >= log_of(before, m).ids.len(),
            counters_of(after, m).in_transaction == counters_of(before, m).in_transaction,
            log_of(after, m).ids.take(log_of(before, m).ids.len() as int) == log_of(before, m).ids,
            log_of(after, m).deleted.take(log_of(before, m).ids.len() as int) == log_of(before, m).deleted,
            log_of(before, m).ids.len() == log_of(before, m).deleted.len(),
            log_of(after, m).ids.len() == log_of(after, m).deleted.len(),
        ensures
            self.inv(after),
    {
        assert forall|n: int| 0 <= n < 5 implies marked_ok(after, #[trigger] self.marks@[n], self.origin@[n], n) by {
            assert(self.marks@[m] == self.mark(m));
            assert(marked_ok(before, self.marks@[n], self.origin@[n], n));
            if n == m {
                let k = self.marks@[m]->0;
                let a = log_of(after, m);
                let b = log_of(before, m);
                assert(a.ids.take(k as int) =~= a.ids.take(b.ids.len() as int).take(k as int));
                assert(a.deleted.take(k as int) =~= a.deleted.take(b.ids.len() as int).take(k as int));
                assert(b.ids.take(k as int) =~= a.ids.take(k as int));
                assert(b.deleted.take(k as int) =~= a.deleted.take(k as int));
            }
        }
    }

    /// The handle has a mark slot per model.
    pub closed spec fn sized(&self) -> bool {
        self.marks@.len() == 5
    }

    /// The handle has an origin slot per model.
    pub closed spec fn origin_sized(&self) -> bool {
        self.origin@.len() == 5
    }

    /// Starts a transaction that has written nothing.
    pub fn begin() -> (t: TxHandle)
        ensures
            forall|m: int| 0 <= m < 5 ==> #[trigger] t.mark(m) is None,
            t.writes().len() == 0,
            t.claimed().len_spec() == 0,
            t.sized(),
            t.origin_sized(),
    {
        let mut marks: Vec<Option<usize>> = Vec::new();
        let mut i: usize = 0;
        while i < 5
            invariant
                i <= 5,
                marks@.len() == i,
                forall|m: int| 0 <= m < i ==> marks@[m] is None,
            decreases 5 - i,
        {
            marks.push(None);
            i = i + 1;
        }
        let t = TxHandle {
            marks,
            origin: Ghost(Seq::new(5, |i: int| LogView { ids: Seq::empty(), deleted: Seq::empty(), indexed: 0 })),
            staged: StagedKeys::new(),
            pending: Vec::new(),
        };
        assert(t.writes() =~= Seq::<(Seq<char>, u128)>::empty());
        t
    }

    /// The write-set keys of the transaction: one `["r", model, id]` key per
    /// staged write (the id in its JSON form), then one
    /// `["u", model, field, key]` key per claimed unique key.
    pub fn write_set(&self) -> (out: Vec<Vec<u8>>)
        ensures
            out@.len() == self.writes().len() + self.claimed().len_spec(),
            forall|i: int| 0 <= i < self.writes().len() ==> (#[trigger] out@[i])@ == ws_key_spec(seq![
                seq![114u8], encode_utf8(self.writes()[i].0), id_json(self.writes()[i].1)]),
            forall|i: int| 0 <= i < self.claimed().len_spec() ==> (#[trigger] out@[self.writes().len() + i])@
                == self.claimed().entry_key(i),
    {
        let mut out: Vec<Vec<u8>> = Vec::new();
        let mut i: usize = 0;
        while i < self.pending.len()
            invariant
                i <= self.pending@.len(),
                out@.len() == i,
                forall|j: int| 0 <= j < i ==> (#[trigger] out@[j])@ == ws_key_spec(seq![
                    seq![114u8], encode_utf8(self.pending@[j].0@), id_json(self.pending@[j].1)]),
            decreases self.pending@.len() - i,
        {
            let (model, id) = self.pending[i];
            let mut parts: Vec<Vec<u8>> = Vec::new();
            let mut r: Vec<u8> = Vec::new();
            r.push(114u8);
            parts.push(r);
            parts.push(str_bytes(model));
            parts.push(id_to_json(id));
            let k = ws_key(&parts);
            proof {
                assert(Seq::new(parts@.len(), |j: int| parts@[j]@) =~= seq![
                    seq![114u8], encode_utf8(model@), id_json(id)]);
            }
            out.push(k);
            i = i + 1;
        }
        let u = self.staged.write_set_keys();
        let ghost base = out@;
        let mut j: usize = 0;
        while j < u.len()
            invariant
                j <= u@.len(),
                out@.len() == base.len() + j,
                forall|a: int| 0 <= a < base.len() ==> #[trigger] out@[a] == base[a],
                forall|a: int| 0 <= a < j ==> (#[trigger] out@[base.len() + a])@ == u@[a]@,
            decreases u@.len() - j,
        {
            out.push(u[j].clone());
            j = j + 1;
        }
        proof {
            assert forall|i: int| 0 <= i < self.writes().len() implies (#[trigger] out@[i])@ == ws_key_spec(seq![
                seq![114u8], encode_utf8(self.writes()[i].0), id_json(self.writes()[i].1)]) by {
                assert(out@[i] == base[i]);
            }
        }
        out
    }

    fn mark_doc(&mut self, db: &mut Database)
        requires
            old(self).inv(&*old(db)),
        ensures
            final(self).inv(&*final(db)),
            final(self).mark(0) == mark_after(old(self).mark(0), old(db).doc.state().log.ids.len()),
            forall|n: int| 0 <= n < 5 && n != 0 ==> #[trigger] final(self).mark(n) == old(self).mark(n),
            final(self).claimed() == old(self).claimed(),
            forall|n: int| 0 <= n < 5 && n != 0 ==> #[trigger] final(self).origin(n) == old(self).origin(n),
            old(self).mark(0) is Some ==> final(self).origin(0) == old(self).origin(0),
            old(self).mark(0) is None ==> final(self).origin(0) == log_of(&*old(db), 0),
            final(self).writes() == old(self).writes(),
            final(db).doc.state() == old(db).doc.state(),
            final(db).doc.consistent() == old(db).doc.consistent(),
            forall|f: int, k: Seq<char>, x: u128| #[trigger] final(db).doc.index_has(f, k, x) == old(db).doc.index_has(f, k, x),
            final(db).doc.counters() == marked(old(db).doc.counters()),
            final(db).metric == old(db).metric
                && final(db).post == old(db).post
                && final(db).tag == old(db).tag
                && final(db).user == old(db).user
                && final(db).post_tag_link == old(db).post_tag_link,
    {
        proof {
            assert(self.marks@[0] == self.mark(0));
        }
        if self.marks[0].is_none() {
            proof {
                db.doc.lemma_wf();
                self.origin@ = self.origin@.update(0, log_of(db, 0));
                assert(log_of(db, 0).ids.take(log_of(db, 0).ids.len() as int) =~= log_of(db, 0).ids);
                assert(log_of(db, 0).deleted.take(log_of(db, 0).ids.len() as int) =~= log_of(db, 0).deleted);
            }
            let k = db.doc.begin_transaction();
            self.marks.set(0, Some(k));
        }
        proof {
            assert forall|n: int| 0 <= n < 5 && n != 0 implies #[trigger] self.mark(n) == old(self).mark(n) by {}
            assert forall|n: int| 0 <= n < 5 implies marked_ok(db, #[trigger] self.marks@[n], self.origin@[n], n) by {
                assert(old(self).marks@[n] == old(self).mark(n));
            }
        }
    }

    fn mark_metric(&mut self, db: &mut Database)
        requires
            old(self).inv(&*old(db)),
        ensures
            final(self).inv(&*final(db)),
            final(self).mark(1) == mark_after(old(self).mark(1), old(db).metric.state().log.ids.len()),
            forall|n: int| 0 <= n < 5 && n != 1 ==> #[trigger] final(self).mark(n) == old(self).mark(n),
            final(self).claimed() == old(self).claimed(),
            forall|n: int| 0 <= n < 5 && n != 1 ==> #[trigger] final(self).origin(n) == old(self).origin(n),
            old(self).mark(1) is Some ==> final(self).origin(1) == old(self).origin(1),
            old(self).mark(1) is None ==> final(self).origin(1) == log_of(&*old(db), 1),
            final(self).writes() == old(self).writes(),
            final(db).metric.state() == old(db).metric.state(),
            final(db).metric.consistent() == old(db).metric.consistent(),
            forall|f: int, k: Seq<char>, x: u128| #[trigger] final(db).metric.index_has(f, k, x) == old(db).metric.index_has(f, k, x),
            final(db).metric.counters() == marked(old(db).metric.counters()),
            final(db).doc == old(db).doc
                && final(db).post == old(db).post
                && final(db).tag == old(db).tag
                && final(db).user == old(db).user
                && final(db).post_tag_link == old(db).post_tag_link,
    {
        proof {
            assert(self.marks@[1] == self.mark(1));
        }
        if self.marks[1].is_none() {
            proof {
                db.metric.lemma_wf();
                self.origin@ = self.origin@.update(1, log_of(db, 1));
                assert(log_of(db, 1).ids.take(log_of(db, 1).ids.len() as int) =~= log_of(db, 1).ids);
                assert(log_of(db, 1).deleted.take(log_of(db, 1).ids.len() as int) =~= log_of(db, 1).deleted);
            }
            let k = db.metric.begin_transaction();
            self.marks.set(1, Some(k));
        }
        proof {
            assert forall|n: int| 0 <= n < 5 && n != 1 implies #[trigger] self.mark(n) == old(self).mark(n) by {}
            assert forall|n: int| 0 <= n < 5 implies marked_ok(db, #[trigger] self.marks@[n], self.origin@[n], n) by {
                assert(old(self).marks@[n] == old(self).mark(n));
            }
        }
    }

    fn mark_post(&mut self, db: &mut Database)
        requires
            old(self).inv(&*old(db)),
        ensures
            final(self).inv(&*final(db)),
            final(self).mark(2) == mark_after(old(self).mark(2), old(db).post.state().log.ids.len()),
            forall|n: int| 0 <= n < 5 && n != 2 ==> #[trigger] final(self).mark(n) == old(self).mark(n),
            final(self).claimed() == old(self).claimed(),
            forall|n: int| 0 <= n < 5 && n != 2 ==> #[trigger] final(self).origin(n) == old(self).origin(n),
            old(self).mark(2) is Some ==> final(self).origin(2) == old(self).origin(2),
            old(self).mark(2) is None ==> final(self).origin(2) == log_of(&*old(db), 2),
            final(self).writes() == old(self).writes(),
            final(db).post.state() == old(db).post.state(),
            final(db).post.consistent() == old(db).post.consistent(),
            forall|f: int, k: Seq<char>, x: u128| #[trigger] final(db).post.index_has(f, k, x) == old(db).post.index_has(f, k, x),
            final(db).post.counters() == marked(old(db).post.counters()),
            final(db).doc == old(db).doc
                && final(db).metric == old(db).metric
                && final(db).tag == old(db).tag
                && final(db).user == old(db).user
                && final(db).post_tag_link == old(db).post_tag_link,
    {
        proof {
            assert(self.marks@[2] == self.mark(2));
        }
        if self.marks[2].is_none() {
            proof {
                db.post.lemma_wf();
                self.origin@ = self.origin@.update(2, log_of(db, 2));
                assert(log_of(db, 2).ids.take(log_of(db, 2).ids.len() as int) =~= log_of(db, 2).ids);
                assert(log_of(db, 2).deleted.take(log_of(db, 2).ids.len() as int) =~= log_of(db, 2).deleted);
            }
            let k = db.post.begin_transaction();
            self.marks.set(2, Some(k));
        }
        proof {
            assert forall|n: int| 0 <= n < 5 && n != 2 implies #[trigger] self.mark(n) == old(self).mark(n) by {}
            assert forall|n: int| 0 <= n < 5 implies marked_ok(db, #[trigger] self.marks@[n], self.origin@[n], n) by {
                assert(old(self).marks@[n] == old(self).mark(n));
            }
        }
    }

    fn mark_tag(&mut self, db: &mut Database)
        requires
            old(self).inv(&*old(db)),
        ensures
            final(self).inv(&*final(db)),
            final(self).mark(3) == mark_after(old(self).mark(3), old(db).tag.state().log.ids.len()),
            forall|n: int| 0 <= n < 5 && n != 3 ==> #[trigger] final(self).mark(n) == old(self).mark(n),
            final(self).claimed() == old(self).claimed(),
            forall|n: int| 0 <= n < 5 && n != 3 ==> #[trigger] final(self).origin(n) == old(self).origin(n),
            old(self).mark(3) is Some ==> final(self).origin(3) == old(self).origin(3),
            old(self).mark(3) is None ==> final(self).origin(3) == log_of(&*old(db), 3),
            final(self).writes() == old(self).writes(),
            final(db).tag.state() == old(db).tag.state(),
            final(db).tag.consistent() == old(db).tag.consistent(),
            forall|f: int, k: Seq<char>, x: u128| #[trigger] final(db).tag.index_has(f, k, x) == old(db).tag.index_has(f, k, x),
            final(db).tag.counters() == marked(old(db).tag.counters()),
            final(db).doc == old(db).doc
                && final(db).metric == old(db).metric
                && final(db).post == old(db).post
                && final(db).user == old(db).user
                && final(db).post_tag_link == old(db).post_tag_link,
    {
        proof {
            assert(self.marks@[3] == self.mark(3));
        }
        if self.marks[3].is_none() {
            proof {
                db.tag.lemma_wf();
                self.origin@ = self.origin@.update(3, log_of(db, 3));
                assert(log_of(db, 3).ids.take(log_of(db, 3).ids.len() as int) =~= log_of(db, 3).ids);
                assert(log_of(db, 3).deleted.take(log_of(db, 3).ids.len() as int) =~= log_of(db, 3).deleted);
            }
            let k = db.tag.begin_transaction();
            self.marks.set(3, Some(k));
        }
        proof {
            assert forall|n: int| 0 <= n < 5 && n != 3 implies #[trigger] self.mark(n) == old(self).mark(n) by {}
            assert forall|n: int| 0 <= n < 5 implies marked_ok(db, #[trigger] self.marks@[n], self.origin@[n], n) by {
                assert(old(self).marks@[n] == old(self).mark(n));
            }
        }
    }

    fn mark_user(&mut self, db: &mut Database)
        requires
            old(self).inv(&*old(db)),
        ensures
            final(self).inv(&*final(db)),
            final(self).mark(4) == mark_after(old(self).mark(4), old(db).user.state().log.ids.len()),
            forall|n: int| 0 <= n < 5 && n != 4 ==> #[trigger] final(self).mark(n) == old(self).mark(n),
            final(self).claimed() == old(self).claimed(),
            forall|n: int| 0 <= n < 5 && n != 4 ==> #[trigger] final(self).origin(n) == old(self).origin(n),
            old(self).mark(4) is Some ==> final(self).origin(4) == old(self).origin(4),
            old(self).mark(4) is None ==> final(self).origin(4) == log_of(&*old(db), 4),
            final(self).writes() == old(self).writes(),
            final(db).user.state() == old(db).user.state(),
            final(db).user.consistent() == old(db).user.consistent(),
            forall|f: int, k: Seq<char>, x: u128| #[trigger] final(db).user.index_has(f, k, x) == old(db).user.index_has(f, k, x),
            final(db).user.counters() == marked(old(db).user.counters()),
            final(db).doc == old(db).doc
                && final(db).metric == old(db).metric
                && final(db).post == old(db).post
                && final(db).tag == old(db).tag
                && final(db).post_tag_link == old(db).post_tag_link,
    {
        proof {
            assert(self.marks@[4] == self.mark(4));
        }
        if self.marks[4].is_none() {
            proof {
                db.user.lemma_wf();
                self.origin@ = self.origin@.update(4, log_of(db, 4));
                assert(log_of(db, 4).ids.take(log_of(db, 4).ids.len() as int) =~= log_of(db, 4).ids);
                assert(log_of(db, 4).deleted.take(log_of(db, 4).ids.len() as int) =~= log_of(db, 4).deleted);
            }
            let k = db.user.begin_transaction();
            self.marks.set(4, Some(k));
        }
        proof {
            assert forall|n: int| 0 <= n < 5 && n != 4 implies #[trigger] self.mark(n) == old(self).mark(n) by {}
            assert forall|n: int| 0 <= n < 5 implies marked_ok(db, #[trigger] self.marks@[n], self.origin@[n], n) by {
                assert(old(self).marks@[n] == old(self).mark(n));
            }
        }
    }

    /// Stages a new doc record in the transaction, whose id (when
    /// unset) is `fresh`: the model is marked first;
    /// then the record is normalised, checked, its unique
    /// keys claimed, and its row staged.
    pub fn create_doc_with(&mut self, db: &mut Database, rec: Doc, fresh: u128) -> (r: Result<Written<Doc>, TxError>)
        requires
            old(self).inv(&*old(db)),
            old(db).doc.state().log.ids.len() < usize::MAX,
        ensures
            final(self).inv(&*final(db)),
            final(self).mark(0) == mark_after(old(self).mark(0), old(db).doc.state().log.ids.len()),
            forall|n: int| 0 <= n < 5 && n != 0 ==> #[trigger] final(self).mark(n) == old(self).mark(n),
            final(db).doc.counters() == marked(old(db).doc.counters()),
            final(db).metric == old(db).metric
                && final(db).post == old(db).post
                && final(db).tag == old(db).tag
                && final(db).user == old(db).user
                && final(db).post_tag_link == old(db).post_tag_link,
            ({
                let g = Doc { id: given_id(rec.id, fresh), ..rec };
                match r {
                    Ok(w) => tx_inserted(old(db).doc, final(db).doc, old(self).claimed(), final(self).claimed(), g, Ok(w))
                        && final(self).writes() == old(self).writes().push((model_name(0), w.record.id)),
                    Err(TxError::Validation(e)) => tx_inserted(old(db).doc, final(db).doc, old(self).claimed(), final(self).claimed(), g, Err(e))
                        && final(self).writes() == old(self).writes(),
                    Err(_) => false,
                }
            }),
    {
        let ghost s0 = *self;
        let ghost d0 = *db;
        let ghost rec0 = rec;
        self.mark_doc(db);
        let ghost s1 = *self;
        let ghost d1 = *db;
        let id = if rec.id == 0 { fresh } else { rec.id };
        let rec = Doc { id, ..rec };
        let ghost g = rec;
        let r = db.doc.tx_insert(rec, &mut self.staged);
        let ghost staged0 = s1.staged;
        let out = match r {
            Ok(w) => {
                self.pending.push(("Doc", w.record.id));
                Ok(w)
            },
            Err(e) => Err(TxError::Validation(e)),
        };
        proof {
            assert(self.writes() =~= (match out {
                Ok(w) => s0.writes().push((model_name(0), w.record.id)),
                Err(_) => s0.writes(),
            }));
            assert(self.marks == s1.marks);
            assert(s1.staged == s0.claimed());
            assert forall|f: int, k: Seq<char>| #[trigger] d0.doc.taken_in_tx(f, k, None) == d1.doc.taken_in_tx(f, k, None) by {
                lemma_taken_same(d0.doc, d1.doc, f, k, None);
            }
            assert forall|n: int| 0 <= n < 5 && n != 0 implies #[trigger] self.mark(n) == s0.mark(n) by {
                assert(s1.mark(n) == s0.mark(n));
            }
            d1.doc.lemma_wf();
            db.doc.lemma_wf();
            assert(log_of(&*db, 0).ids.take(log_of(&d1, 0).ids.len() as int) =~= log_of(&d1, 0).ids);
            assert(log_of(&*db, 0).deleted.take(log_of(&d1, 0).ids.len() as int) =~= log_of(&d1, 0).deleted);
            s1.lemma_inv_after_stage(&d1, &*db, 0);
            assert(given_id(rec0.id, fresh) == g.id);
        }
        out
    }

    /// Stages a new doc record in the transaction: a nil id gets a
    /// fresh random one.
    pub fn create_doc(&mut self, db: &mut Database, rec: Doc) -> (r: Result<Written<Doc>, TxError>)
        requires
            old(self).inv(&*old(db)),
            old(db).doc.state().log.ids.len() < usize::MAX,
        ensures
            final(self).inv(&*final(db)),
            final(self).mark(0) == mark_after(old(self).mark(0), old(db).doc.state().log.ids.len()),
            forall|n: int| 0 <= n < 5 && n != 0 ==> #[trigger] final(self).mark(n) == old(self).mark(n),
            final(db).doc.counters() == marked(old(db).doc.counters()),
            final(db).metric == old(db).metric
                && final(db).post == old(db).post
                && final(db).tag == old(db).tag
                && final(db).user == old(db).user
                && final(db).post_tag_link == old(db).post_tag_link,
            exists|fresh: u128| #![trigger given_id(rec.id, fresh)] (rec.id == 0 ==> fresh != 0) && ({
                let g = Doc { id: given_id(rec.id, fresh), ..rec };
                match r {
                    Ok(w) => tx_inserted(old(db).doc, final(db).doc, old(self).claimed(), final(self).claimed(), g, Ok(w))
                        && final(self).writes() == old(self).writes().push((model_name(0), w.record.id)),
                    Err(TxError::Validation(e)) => tx_inserted(old(db).doc, final(db).doc, old(self).claimed(), final(self).claimed(), g, Err(e))
                        && final(self).writes() == old(self).writes(),
                    Err(_) => false,
                }
            }),
    {
        let fresh = if rec.id == 0 { fresh_id() } else { 0 };
        self.create_doc_with(db, rec, fresh)
    }

    /// Stages a new metric record in the transaction, whose id (when
    /// unset) is `fresh` and time (when unset) `now`: the model is marked first;
    /// then the record is normalised, checked, its unique
    /// keys claimed, and its row staged.
    pub fn create_metric_with(&mut self, db: &mut Database, rec: Metric, fresh: u128, now: i64) -> (r: Result<Written<Metric>, TxError>)
        requires
            old(self).inv(&*old(db)),
            old(db).metric.state().log.ids.len() < usize::MAX,
            time_writable(rec.recorded_at),
            now >= 0,
        ensures
            final(self).inv(&*final(db)),
            final(self).mark(1) == mark_after(old(self).mark(1), old(db).metric.state().log.ids.len()),
            forall|n: int| 0 <= n < 5 && n != 1 ==> #[trigger] final(self).mark(n) == old(self).mark(n),
            final(db).metric.counters() == marked(old(db).metric.counters()),
            final(db).doc == old(db).doc
                && final(db).post == old(db).post
                && final(db).tag == old(db).tag
                && final(db).user == old(db).user
                && final(db).post_tag_link == old(db).post_tag_link,
            ({
                let g = filled_metric(rec, fresh, now);
                match r {
                    Ok(w) => tx_inserted(old(db).metric, final(db).metric, old(self).claimed(), final(self).claimed(), g, Ok(w))
                        && final(self).writes() == old(self).writes().push((model_name(1), w.record.id)),
                    Err(TxError::Validation(e)) => tx_inserted(old(db).metric, final(db).metric, old(self).claimed(), final(self).claimed(), g, Err(e))
                        && final(self).writes() == old(self).writes(),
                    Err(_) => false,
                }
            }),
    {
        let ghost s0 = *self;
        let ghost d0 = *db;
        let ghost rec0 = rec;
        self.mark_metric(db);
        let ghost s1 = *self;
        let ghost d1 = *db;
        let (id, t) = fill_id_and_time(rec.id, rec.recorded_at, fresh, now);
        proof {
            lemma_given_time_writable(rec.recorded_at, now);
        }
        let rec = Metric { id, recorded_at: t, ..rec };
        let ghost g = rec;
        let r = db.metric.tx_insert(rec, &mut self.staged);
        let ghost staged0 = s1.staged;
        let out = match r {
            Ok(w) => {
                self.pending.push(("Metric", w.record.id));
                Ok(w)
            },
            Err(e) => Err(TxError::Validation(e)),
        };
        proof {
            assert(self.writes() =~= (match out {
                Ok(w) => s0.writes().push((model_name(1), w.record.id)),
                Err(_) => s0.writes(),
            }));
            assert(self.marks == s1.marks);
            assert(s1.staged == s0.claimed());
            assert forall|f: int, k: Seq<char>| #[trigger] d0.metric.taken_in_tx(f, k, None) == d1.metric.taken_in_tx(f, k, None) by {
                lemma_taken_same(d0.metric, d1.metric, f, k, None);
            }
            assert forall|n: int| 0 <= n < 5 && n != 1 implies #[trigger] self.mark(n) == s0.mark(n) by {
                assert(s1.mark(n) == s0.mark(n));
            }
            d1.metric.lemma_wf();
            db.metric.lemma_wf();
            assert(log_of(&*db, 1).ids.take(log_of(&d1, 1).ids.len() as int) =~= log_of(&d1, 1).ids);
            assert(log_of(&*db, 1).deleted.take(log_of(&d1, 1).ids.len() as int) =~= log_of(&d1, 1).deleted);
            s1.lemma_inv_after_stage(&d1, &*db, 1);
            assert(filled_metric(rec0, fresh, now) == g);
        }
        out
    }

    /// Stages a new metric record in the transaction: a nil id gets a
    /// fresh random one and an unset time the current time.
    pub fn create_metric(&mut self, db: &mut Database, rec: Metric) -> (r: Result<Written<Metric>, TxError>)
        requires
            old(self).inv(&*old(db)),
            old(db).metric.state().log.ids.len() < usize::MAX,
            time_writable(rec.recorded_at),
        ensures
            final(self).inv(&*final(db)),
            final(self).mark(1) == mark_after(old(self).mark(1), old(db).metric.state().log.ids.len()),
            forall|n: int| 0 <= n < 5 && n != 1 ==> #[trigger] final(self).mark(n) == old(self).mark(n),
            final(db).metric.counters() == marked(old(db).metric.counters()),
            final(db).doc == old(db).doc
                && final(db).post == old(db).post
                && final(db).tag == old(db).tag
                && final(db).user == old(db).user
                && final(db).post_tag_link == old(db).post_tag_link,
            exists|fresh: u128, now: i64| #![trigger filled_metric(rec, fresh, now)] (rec.id == 0 ==> fresh != 0) && now >= 0 && ({
                let g = filled_metric(rec, fresh, now);
                match r {
                    Ok(w) => tx_inserted(old(db).metric, final(db).metric, old(self).claimed(), final(self).claimed(), g, Ok(w))
                        && final(self).writes() == old(self).writes().push((model_name(1), w.record.id)),
                    Err(TxError::Validation(e)) => tx_inserted(old(db).metric, final(db).metric, old(self).claimed(), final(self).claimed(), g, Err(e))
                        && final(self).writes() == old(self).writes(),
                    Err(_) => false,
                }
            }),
    {
        let fresh = if rec.id == 0 { fresh_id() } else { 0 };
        let now = if rec.recorded_at == 0 { now_micros() } else { 0 };
        self.create_metric_with(db, rec, fresh, now)
    }

    /// Stages a new post record in the transaction, whose id (when
    /// unset) is `fresh` and time (when unset) `now`: the model is marked first;
    /// then the record is normalised, checked (its author must be live), its unique
    /// keys claimed, and its row staged.
    pub fn create_post_with(&mut self, db: &mut Database, rec: Post, fresh: u128, now: i64) -> (r: Result<Written<Post>, TxError>)
        requires
            old(self).inv(&*old(db)),
            old(db).post.state().log.ids.len() < usize::MAX,
            time_writable(rec.created_at),
            now >= 0,
        ensures
            final(self).inv(&*final(db)),
            final(self).mark(2) == mark_after(old(self).mark(2), old(db).post.state().log.ids.len()),
            forall|n: int| 0 <= n < 5 && n != 2 ==> #[trigger] final(self).mark(n) == old(self).mark(n),
            final(db).post.counters() == marked(old(db).post.counters()),
            final(db).doc == old(db).doc
                && final(db).metric == old(db).metric
                && final(db).tag == old(db).tag
                && final(db).user == old(db).user
                && final(db).post_tag_link == old(db).post_tag_link,
            ({
                let g = filled_post(rec, fresh, now);
                if g.spec_normalized().spec_valid() && !old(db).user.state().log.is_live(g.author) {
                    &&& r matches Err(TxError::Validation(e)) && is_dangling_author(e)
                    &&& final(db).post.state() == old(db).post.state()
                    &&& final(self).writes() == old(self).writes()
                    &&& final(self).claimed() == old(self).claimed()
                } else {
                    match r {
                    Ok(w) => tx_inserted(old(db).post, final(db).post, old(self).claimed(), final(self).claimed(), g, Ok(w))
                        && final(self).writes() == old(self).writes().push((model_name(2), w.record.id)),
                    Err(TxError::Validation(e)) => tx_inserted(old(db).post, final(db).post, old(self).claimed(), final(self).claimed(), g, Err(e))
                        && final(self).writes() == old(self).writes(),
                    Err(_) => false,
                }
                }
            }),
    {
        let ghost s0 = *self;
        let ghost d0 = *db;
        let ghost rec0 = rec;
        self.mark_post(db);
        let ghost s1 = *self;
        let ghost d1 = *db;
        let (id, t) = fill_id_and_time(rec.id, rec.created_at, fresh, now);
        proof {
            lemma_given_time_writable(rec.created_at, now);
        }
        let rec = Post { id, created_at: t, ..rec };
        let ghost g = rec;
        let n = rec.normalize();
        match n.check() {
            Err(e) => {
                proof {
                    lemma_post_normalize_idempotent(g);
                    assert(filled_post(rec0, fresh, now) == g);
                    assert forall|n: int| 0 <= n < 5 && n != 2 implies #[trigger] self.mark(n) == s0.mark(n) by {
                        assert(s1.mark(n) == s0.mark(n));
                    }
                }
                return Err(TxError::Validation(e));
            },
            Ok(()) => {},
        }
        if db.user.live_row(n.author).is_none() {
            proof {
                lemma_post_normalize_idempotent(g);
                assert(filled_post(rec0, fresh, now) == g);
                assert forall|n: int| 0 <= n < 5 && n != 2 implies #[trigger] self.mark(n) == s0.mark(n) by {
                    assert(s1.mark(n) == s0.mark(n));
                }
            }
            return Err(TxError::Validation(ValidationError::DanglingReference { model: "Post", field: "author", target: "User" }));
        }
        proof {
            lemma_post_normalize_idempotent(g);
        }
        let r = db.post.tx_insert(n, &mut self.staged);
        let ghost staged0 = s1.staged;
        let out = match r {
            Ok(w) => {
                self.pending.push(("Post", w.record.id));
                Ok(w)
            },
            Err(e) => Err(TxError::Validation(e)),
        };
        proof {
            assert(self.writes() =~= (match out {
                Ok(w) => s0.writes().push((model_name(2), w.record.id)),
                Err(_) => s0.writes(),
            }));
            assert(self.marks == s1.marks);
            assert(s1.staged == s0.claimed());
            assert forall|f: int, k: Seq<char>| #[trigger] d0.post.taken_in_tx(f, k, None) == d1.post.taken_in_tx(f, k, None) by {
                lemma_taken_same(d0.post, d1.post, f, k, None);
            }
            assert forall|n: int| 0 <= n < 5 && n != 2 implies #[trigger] self.mark(n) == s0.mark(n) by {
                assert(s1.mark(n) == s0.mark(n));
            }
            d1.post.lemma_wf();
            db.post.lemma_wf();
            assert(log_of(&*db, 2).ids.take(log_of(&d1, 2).ids.len() as int) =~= log_of(&d1, 2).ids);
            assert(log_of(&*db, 2).deleted.take(log_of(&d1, 2).ids.len() as int) =~= log_of(&d1, 2).deleted);
            s1.lemma_inv_after_stage(&d1, &*db, 2);
            assert(filled_post(rec0, fresh, now) == g);
        }
        out
    }

    /// Stages a new post record in the transaction: a nil id gets a
    /// fresh random one and an unset time the current time.
    pub fn create_post(&mut self, db: &mut Database, rec: Post) -> (r: Result<Written<Post>, TxError>)
        requires
            old(self).inv(&*old(db)),
            old(db).post.state().log.ids.len() < usize::MAX,
            time_writable(rec.created_at),
        ensures
            final(self).inv(&*final(db)),
            final(self).mark(2) == mark_after(old(self).mark(2), old(db).post.state().log.ids.len()),
            forall|n: int| 0 <= n < 5 && n != 2 ==> #[trigger] final(self).mark(n) == old(self).mark(n),
            final(db).post.counters() == marked(old(db).post.counters()),
            final(db).doc == old(db).doc
                && final(db).metric == old(db).metric
                && final(db).tag == old(db).tag
                && final(db).user == old(db).user
                && final(db).post_tag_link == old(db).post_tag_link,
            exists|fresh: u128, now: i64| #![trigger filled_post(rec, fresh, now)] (rec.id == 0 ==> fresh != 0) && now >= 0 && ({
                let g = filled_post(rec, fresh, now);
                if g.spec_normalized().spec_valid() && !old(db).user.state().log.is_live(g.author) {
                    &&& r matches Err(TxError::Validation(e)) && is_dangling_author(e)
                    &&& final(db).post.state() == old(db).post.state()
                    &&& final(self).writes() == old(self).writes()
                    &&& final(self).claimed() == old(self).claimed()
                } else {
                    match r {
                    Ok(w) => tx_inserted(old(db).post, final(db).post, old(self).claimed(), final(self).claimed(), g, Ok(w))
                        && final(self).writes() == old(self).writes().push((model_name(2), w.record.id)),
                    Err(TxError::Validation(e)) => tx_inserted(old(db).post, final(db).post, old(self).claimed(), final(self).claimed(), g, Err(e))
                        && final(self).writes() == old(self).writes(),
                    Err(_) => false,
                }
                }
            }),
    {
        let fresh = if rec.id == 0 { fresh_id() } else { 0 };
        let now = if rec.created_at == 0 { now_micros() } else { 0 };
        self.create_post_with(db, rec, fresh, now)
    }

    /// Stages a new tag record in the transaction, whose id (when
    /// unset) is `fresh`: the model is marked first;
    /// then the record is normalised, checked, its unique
    /// keys claimed, and its row staged.
    pub fn create_tag_with(&mut self, db: &mut Database, rec: Tag, fresh: u128) -> (r: Result<Written<Tag>, TxError>)
        requires
            old(self).inv(&*old(db)),
            old(db).tag.state().log.ids.len() < usize::MAX,
        ensures
            final(self).inv(&*final(db)),
            final(self).mark(3) == mark_after(old(self).mark(3), old(db).tag.state().log.ids.len()),
            forall|n: int| 0 <= n < 5 && n != 3 ==> #[trigger] final(self).mark(n) == old(self).mark(n),
            final(db).tag.counters() == marked(old(db).tag.counters()),
            final(db).doc == old(db).doc
                && final(db).metric == old(db).metric
                && final(db).post == old(db).post
                && final(db).user == old(db).user
                && final(db).post_tag_link == old(db).post_tag_link,
            ({
                let g = Tag { id: given_id(rec.id, fresh), ..rec };
                match r {
                    Ok(w) => tx_inserted(old(db).tag, final(db).tag, old(self).claimed(), final(self).claimed(), g, Ok(w))
                        && final(self).writes() == old(self).writes().push((model_name(3), w.record.id)),
                    Err(TxError::Validation(e)) => tx_inserted(old(db).tag, final(db).tag, old(self).claimed(), final(self).claimed(), g, Err(e))
                        && final(self).writes() == old(self).writes(),
                    Err(_) => false,
                }
            }),
    {
        let ghost s0 = *self;
        let ghost d0 = *db;
        let ghost rec0 = rec;
        self.mark_tag(db);
        let ghost s1 = *self;
        let ghost d1 = *db;
        let id = if rec.id == 0 { fresh } else { rec.id };
        let rec = Tag { id, ..rec };
        let ghost g = rec;
        let r = db.tag.tx_insert(rec, &mut self.staged);
        let ghost staged0 = s1.staged;
        let out = match r {
            Ok(w) => {
                self.pending.push(("Tag", w.record.id));
                Ok(w)
            },
            Err(e) => Err(TxError::Validation(e)),
        };
        proof {
            assert(self.writes() =~= (match out {
                Ok(w) => s0.writes().push((model_name(3), w.record.id)),
                Err(_) => s0.writes(),
            }));
            assert(self.marks == s1.marks);
            assert(s1.staged == s0.claimed());
            assert forall|f: int, k: Seq<char>| #[trigger] d0.tag.taken_in_tx(f, k, None) == d1.tag.taken_in_tx(f, k, None) by {
                lemma_taken_same(d0.tag, d1.tag, f, k, None);
            }
            assert forall|n: int| 0 <= n < 5 && n != 3 implies #[trigger] self.mark(n) == s0.mark(n) by {
                assert(s1.mark(n) == s0.mark(n));
            }
            d1.tag.lemma_wf();
            db.tag.lemma_wf();
            assert(log_of(&*db, 3).ids.take(log_of(&d1, 3).ids.len() as int) =~= log_of(&d1, 3).ids);
            assert(log_of(&*db, 3).deleted.take(log_of(&d1, 3).ids.len() as int) =~= log_of(&d1, 3).deleted);
            s1.lemma_inv_after_stage(&d1, &*db, 3);
            assert(given_id(rec0.id, fresh) == g.id);
        }
        out
    }

    /// Stages a new tag record in the transaction: a nil id gets a
    /// fresh random one.
    pub fn create_tag(&mut self, db: &mut Database, rec: Tag) -> (r: Result<Written<Tag>, TxError>)
        requires
            old(self).inv(&*old(db)),
            old(db).tag.state().log.ids.len() < usize::MAX,
        ensures
            final(self).inv(&*final(db)),
            final(self).mark(3) == mark_after(old(self).mark(3), old(db).tag.state().log.ids.len()),
            forall|n: int| 0 <= n < 5 && n != 3 ==> #[trigger] final(self).mark(n) == old(self).mark(n),
            final(db).tag.counters() == marked(old(db).tag.counters()),
            final(db).doc == old(db).doc
                && final(db).metric == old(db).metric
                && final(db).post == old(db).post
                && final(db).user == old(db).user
                && final(db).post_tag_link == old(db).post_tag_link,
            exists|fresh: u128| #![trigger given_id(rec.id, fresh)] (rec.id == 0 ==> fresh != 0) && ({
                let g = Tag { id: given_id(rec.id, fresh), ..rec };
                match r {
                    Ok(w) => tx_inserted(old(db).tag, final(db).tag, old(self).claimed(), final(self).claimed(), g, Ok(w))
                        && final(self).writes() == old(self).writes().push((model_name(3), w.record.id)),
                    Err(TxError::Validation(e)) => tx_inserted(old(db).tag, final(db).tag, old(self).claimed(), final(self).claimed(), g, Err(e))
                        && final(self).writes() == old(self).writes(),
                    Err(_) => false,
                }
            }),
    {
        let fresh = if rec.id == 0 { fresh_id() } else { 0 };
        self.create_tag_with(db, rec, fresh)
    }

    /// Stages a new user record in the transaction, whose id (when
    /// unset) is `fresh` and time (when unset) `now`: the model is marked first;
    /// then the record is normalised, checked, its unique
    /// keys claimed, and its row staged.
    pub fn create_user_with(&mut self, db: &mut Database, rec: User, fresh: u128, now: i64) -> (r: Result<Written<User>, TxError>)
        requires
            old(self).inv(&*old(db)),
            old(db).user.state().log.ids.len() < usize::MAX,
            time_writable(rec.created_at),
            now >= 0,
        ensures
            final(self).inv(&*final(db)),
            final(self).mark(4) == mark_after(old(self).mark(4), old(db).user.state().log.ids.len()),
            forall|n: int| 0 <= n < 5 && n != 4 ==> #[trigger] final(self).mark(n) == old(self).mark(n),
            final(db).user.counters() == marked(old(db).user.counters()),
            final(db).doc == old(db).doc
                && final(db).metric == old(db).metric
                && final(db).post == old(db).post
                && final(db).tag == old(db).tag
                && final(db).post_tag_link == old(db).post_tag_link,
            ({
                let g = filled_user(rec, fresh, now);
                match r {
                    Ok(w) => tx_inserted(old(db).user, final(db).user, old(self).claimed(), final(self).claimed(), g, Ok(w))
                        && final(self).writes() == old(self).writes().push((model_name(4), w.record.id)),
                    Err(TxError::Validation(e)) => tx_inserted(old(db).user, final(db).user, old(self).claimed(), final(self).claimed(), g, Err(e))
                        && final(self).writes() == old(self).writes(),
                    Err(_) => false,
                }
            }),
    {
        let ghost s0 = *self;
        let ghost d0 = *db;
        let ghost rec0 = rec;
        self.mark_user(db);
        let ghost s1 = *self;
        let ghost d1 = *db;
        let (id, t) = fill_id_and_time(rec.id, rec.created_at, fresh, now);
        proof {
            lemma_given_time_writable(rec.created_at, now);
        }
        let rec = User { id, created_at: t, ..rec };
        let ghost g = rec;
        let r = db.user.tx_insert(rec, &mut self.staged);
        let ghost staged0 = s1.staged;
        let out = match r {
            Ok(w) => {
                self.pending.push(("User", w.record.id));
                Ok(w)
            },
            Err(e) => Err(TxError::Validation(e)),
        };
        proof {
            assert(self.writes() =~= (match out {
                Ok(w) => s0.writes().push((model_name(4), w.record.id)),
                Err(_) => s0.writes(),
            }));
            assert(self.marks == s1.marks);
            assert(s1.staged == s0.claimed());
            assert forall|f: int, k: Seq<char>| #[trigger] d0.user.taken_in_tx(f, k, None) == d1.user.taken_in_tx(f, k, None) by {
                lemma_taken_same(d0.user, d1.user, f, k, None);
            }
            assert forall|n: int| 0 <= n < 5 && n != 4 implies #[trigger] self.mark(n) == s0.mark(n) by {
                assert(s1.mark(n) == s0.mark(n));
            }
            d1.user.lemma_wf();
            db.user.lemma_wf();
            assert(log_of(&*db, 4).ids.take(log_of(&d1, 4).ids.len() as int) =~= log_of(&d1, 4).ids);
            assert(log_of(&*db, 4).deleted.take(log_of(&d1, 4).ids.len() as int) =~= log_of(&d1, 4).deleted);
            s1.lemma_inv_after_stage(&d1, &*db, 4);
            assert(filled_user(rec0, fresh, now) == g);
        }
        out
    }

    /// Stages a new user record in the transaction: a nil id gets a
    /// fresh random one and an unset time the current time.
    pub fn create_user(&mut self, db: &mut Database, rec: User) -> (r: Result<Written<User>, TxError>)
        requires
            old(self).inv(&*old(db)),
            old(db).user.state().log.ids.len() < usize::MAX,
            time_writable(rec.created_at),
        ensures
            final(self).inv(&*final(db)),
            final(self).mark(4) == mark_after(old(self).mark(4), old(db).user.state().log.ids.len()),
            forall|n: int| 0 <= n < 5 && n != 4 ==> #[trigger] final(self).mark(n) == old(self).mark(n),
            final(db).user.counters() == marked(old(db).user.counters()),
            final(db).doc == old(db).doc
                && final(db).metric == old(db).metric
                && final(db).post == old(db).post
                && final(db).tag == old(db).tag
                && final(db).post_tag_link == old(db).post_tag_link,
            exists|fresh: u128, now: i64| #![trigger filled_user(rec, fresh, now)] (rec.id == 0 ==> fresh != 0) && now >= 0 && ({
                let g = filled_user(rec, fresh, now);
                match r {
                    Ok(w) => tx_inserted(old(db).user, final(db).user, old(self).claimed(), final(self).claimed(), g, Ok(w))
                        && final(self).writes() == old(self).writes().push((model_name(4), w.record.id)),
                    Err(TxError::Validation(e)) => tx_inserted(old(db).user, final(db).user, old(self).claimed(), final(self).claimed(), g, Err(e))
                        && final(self).writes() == old(self).writes(),
                    Err(_) => false,
                }
            }),
    {
        let fresh = if rec.id == 0 { fresh_id() } else { 0 };
        let now = if rec.created_at == 0 { now_micros() } else { 0 };
        self.create_user_with(db, rec, fresh, now)
    }

    /// Stages a new version of the doc record `id`, when the transaction
    /// sees it live (else `None` and nothing changes): the model is marked,
    /// the record normalised and checked, its unique
    /// keys claimed (its own excepted), and its row staged.
    pub fn update_doc(&mut self, db: &mut Database, id: u128, rec: Doc) -> (r: Result<Option<Written<Doc>>, TxError>)
        requires
            old(self).inv(&*old(db)),
            old(db).doc.state().log.ids.len() < usize::MAX,
        ensures
            final(self).inv(&*final(db)),
            !old(db).doc.state().log.is_live(id) ==> (r matches Ok(None) && *final(self) == *old(self) && *final(db) == *old(db)),
            old(db).doc.state().log.is_live(id) ==> {
                &&& final(self).mark(0) == mark_after(old(self).mark(0), old(db).doc.state().log.ids.len())
                &&& forall|n: int| 0 <= n < 5 && n != 0 ==> #[trigger] final(self).mark(n) == old(self).mark(n)
                &&& final(db).doc.counters() == marked(old(db).doc.counters())
                &&& final(db).metric == old(db).metric
                    && final(db).post == old(db).post
                    && final(db).tag == old(db).tag
                    && final(db).user == old(db).user
                    && final(db).post_tag_link == old(db).post_tag_link
                &&& match r {
                    Ok(Some(w)) => tx_updated(old(db).doc, final(db).doc, old(self).claimed(), final(self).claimed(), id, rec, Ok(w))
                        && final(self).writes() == old(self).writes().push((model_name(0), id)),
                    Err(TxError::Validation(e)) => tx_updated(old(db).doc, final(db).doc, old(self).claimed(), final(self).claimed(), id, rec, Err(e))
                        && final(self).writes() == old(self).writes(),
                    _ => false,
                }
            },
    {
        if db.doc.live_row(id).is_none() {
            return Ok(None);
        }
        let ghost s0 = *self;
        let ghost d0 = *db;
        let ghost rec0 = rec;
        self.mark_doc(db);
        let ghost s1 = *self;
        let ghost d1 = *db;
        let r = db.doc.tx_update(id, rec, &mut self.staged);
        let out = match r {
            Ok(w) => {
                self.pending.push(("Doc", id));
                Ok(Some(w))
            },
            Err(e) => Err(TxError::Validation(e)),
        };
        proof {
            assert(self.writes() =~= (match out {
                Ok(_) => s0.writes().push((model_name(0), id)),
                Err(_) => s0.writes(),
            }));
            assert(self.marks == s1.marks);
            assert forall|f: int, k: Seq<char>| #[trigger] d0.doc.taken_in_tx(f, k, Some(id)) == d1.doc.taken_in_tx(f, k, Some(id)) by {
                lemma_taken_same(d0.doc, d1.doc, f, k, Some(id));
            }
            assert forall|n: int| 0 <= n < 5 && n != 0 implies #[trigger] self.mark(n) == s0.mark(n) by {
                assert(s1.mark(n) == s0.mark(n));
            }
            d1.doc.lemma_wf();
            db.doc.lemma_wf();
            assert(log_of(&*db, 0).ids.take(log_of(&d1, 0).ids.len() as int) =~= log_of(&d1, 0).ids);
            assert(log_of(&*db, 0).deleted.take(log_of(&d1, 0).ids.len() as int) =~= log_of(&d1, 0).deleted);
            s1.lemma_inv_after_stage(&d1, &*db, 0);
        }
        out
    }

    /// Stages a tombstone for the doc record `id`, when the
    /// transaction sees it live; returns its row, or `None` (and nothing
    /// changes) when it does not.
    pub fn delete_doc(&mut self, db: &mut Database, id: u128) -> (row: Option<usize>)
        requires
            old(self).inv(&*old(db)),
            old(db).doc.state().log.ids.len() < usize::MAX,
        ensures
            final(self).inv(&*final(db)),
            !old(db).doc.state().log.is_live(id) ==> row is None && *final(self) == *old(self) && *final(db) == *old(db),
            old(db).doc.state().log.is_live(id) ==> {
                &&& row == Some(old(db).doc.state().log.ids.len() as usize)
                &&& final(self).mark(0) == mark_after(old(self).mark(0), old(db).doc.state().log.ids.len())
                &&& forall|n: int| 0 <= n < 5 && n != 0 ==> #[trigger] final(self).mark(n) == old(self).mark(n)
                &&& final(db).doc.counters() == marked(old(db).doc.counters())
                &&& final(db).metric == old(db).metric
                    && final(db).post == old(db).post
                    && final(db).tag == old(db).tag
                    && final(db).user == old(db).user
                    && final(db).post_tag_link == old(db).post_tag_link
                &&& final(db).doc.state().log.ids == old(db).doc.state().log.ids.push(id)
                &&& final(db).doc.state().log.deleted == old(db).doc.state().log.deleted.push(true)
                &&& final(db).doc.state().log.indexed == old(db).doc.state().log.indexed
                &&& final(db).doc.state().keys == old(db).doc.state().keys.push(old(db).doc.state().key_row(id))
                &&& final(db).doc.state().ords == old(db).doc.state().ords.push(old(db).doc.state().ord_of(id))
                &&& old(db).doc.consistent() ==> final(db).doc.consistent()
                &&& final(self).writes() == old(self).writes().push((model_name(0), id))
                &&& final(self).claimed() == old(self).claimed()
            },
    {
        if db.doc.live_row(id).is_none() {
            return None;
        }
        let ghost s0 = *self;
        self.mark_doc(db);
        let ghost s1 = *self;
        let ghost d1 = *db;
        let row = db.doc.tx_delete_latest(id);
        self.pending.push(("Doc", id));
        proof {
            assert(self.writes() =~= s0.writes().push((model_name(0), id)));
            assert(self.marks == s1.marks);
            assert forall|n: int| 0 <= n < 5 && n != 0 implies #[trigger] self.mark(n) == s0.mark(n) by {
                assert(s1.mark(n) == s0.mark(n));
            }
            d1.doc.lemma_wf();
            db.doc.lemma_wf();
            assert(log_of(&*db, 0).ids.take(log_of(&d1, 0).ids.len() as int) =~= log_of(&d1, 0).ids);
            assert(log_of(&*db, 0).deleted.take(log_of(&d1, 0).ids.len() as int) =~= log_of(&d1, 0).deleted);
            s1.lemma_inv_after_stage(&d1, &*db, 0);
        }
        Some(row)
    }

    /// Stages a new version of the metric record `id`, when the transaction
    /// sees it live (else `None` and nothing changes): the model is marked,
    /// the record normalised and checked, its unique
    /// keys claimed (its own excepted), and its row staged.
    pub fn update_metric(&mut self, db: &mut Database, id: u128, rec: Metric) -> (r: Result<Option<Written<Metric>>, TxError>)
        requires
            old(self).inv(&*old(db)),
            old(db).metric.state().log.ids.len() < usize::MAX,
            time_writable(rec.recorded_at),
        ensures
            final(self).inv(&*final(db)),
            !old(db).metric.state().log.is_live(id) ==> (r matches Ok(None) && *final(self) == *old(self) && *final(db) == *old(db)),
            old(db).metric.state().log.is_live(id) ==> {
                &&& final(self).mark(1) == mark_after(old(self).mark(1), old(db).metric.state().log.ids.len())
                &&& forall|n: int| 0 <= n < 5 && n != 1 ==> #[trigger] final(self).mark(n) == old(self).mark(n)
                &&& final(db).metric.counters() == marked(old(db).metric.counters())
                &&& final(db).doc == old(db).doc
                    && final(db).post == old(db).post
                    && final(db).tag == old(db).tag
                    && final(db).user == old(db).user
                    && final(db).post_tag_link == old(db).post_tag_link
                &&& match r {
                    Ok(Some(w)) => tx_updated(old(db).metric, final(db).metric, old(self).claimed(), final(self).claimed(), id, rec, Ok(w))
                        && final(self).writes() == old(self).writes().push((model_name(1), id)),
                    Err(TxError::Validation(e)) => tx_updated(old(db).metric, final(db).metric, old(self).claimed(), final(self).claimed(), id, rec, Err(e))
                        && final(self).writes() == old(self).writes(),
                    _ => false,
                }
            },
    {
        if db.metric.live_row(id).is_none() {
            return Ok(None);
        }
        let ghost s0 = *self;
        let ghost d0 = *db;
        let ghost rec0 = rec;
        self.mark_metric(db);
        let ghost s1 = *self;
        let ghost d1 = *db;
        let r = db.metric.tx_update(id, rec, &mut self.staged);
        let out = match r {
            Ok(w) => {
                self.pending.push(("Metric", id));
                Ok(Some(w))
            },
            Err(e) => Err(TxError::Validation(e)),
        };
        proof {
            assert(self.writes() =~= (match out {
                Ok(_) => s0.writes().push((model_name(1), id)),
                Err(_) => s0.writes(),
            }));
            assert(self.marks == s1.marks);
            assert forall|f: int, k: Seq<char>| #[trigger] d0.metric.taken_in_tx(f, k, Some(id)) == d1.metric.taken_in_tx(f, k, Some(id)) by {
                lemma_taken_same(d0.metric, d1.metric, f, k, Some(id));
            }
            assert forall|n: int| 0 <= n < 5 && n != 1 implies #[trigger] self.mark(n) == s0.mark(n) by {
                assert(s1.mark(n) == s0.mark(n));
            }
            d1.metric.lemma_wf();
            db.metric.lemma_wf();
            assert(log_of(&*db, 1).ids.take(log_of(&d1, 1).ids.len() as int) =~= log_of(&d1, 1).ids);
            assert(log_of(&*db, 1).deleted.take(log_of(&d1, 1).ids.len() as int) =~= log_of(&d1, 1).deleted);
            s1.lemma_inv_after_stage(&d1, &*db, 1);
        }
        out
    }

    /// Stages a tombstone for the metric record `id`, when the
    /// transaction sees it live; returns its row, or `None` (and nothing
    /// changes) when it does not.
    pub fn delete_metric(&mut self, db: &mut Database, id: u128) -> (row: Option<usize>)
        requires
            old(self).inv(&*old(db)),
            old(db).metric.state().log.ids.len() < usize::MAX,
        ensures
            final(self).inv(&*final(db)),
            !old(db).metric.state().log.is_live(id) ==> row is None && *final(self) == *old(self) && *final(db) == *old(db),
            old(db).metric.state().log.is_live(id) ==> {
                &&& row == Some(old(db).metric.state().log.ids.len() as usize)
                &&& final(self).mark(1) == mark_after(old(self).mark(1), old(db).metric.state().log.ids.len())
                &&& forall|n: int| 0 <= n < 5 && n != 1 ==> #[trigger] final(self).mark(n) == old(self).mark(n)
                &&& final(db).metric.counters() == marked(old(db).metric.counters())
                &&& final(db).doc == old(db).doc
                    && final(db).post == old(db).post
                    && final(db).tag == old(db).tag
                    && final(db).user == old(db).user
                    && final(db).post_tag_link == old(db).post_tag_link
                &&& final(db).metric.state().log.ids == old(db).metric.state().log.ids.push(id)
                &&& final(db).metric.state().log.deleted == old(db).metric.state().log.deleted.push(true)
                &&& final(db).metric.state().log.indexed == old(db).metric.state().log.indexed
                &&& final(db).metric.state().keys == old(db).metric.state().keys.push(old(db).metric.state().key_row(id))
                &&& final(db).metric.state().ords == old(db).metric.state().ords.push(old(db).metric.state().ord_of(id))
                &&& old(db).metric.consistent() ==> final(db).metric.consistent()
                &&& final(self).writes() == old(self).writes().push((model_name(1), id))
                &&& final(self).claimed() == old(self).claimed()
            },
    {
        if db.metric.live_row(id).is_none() {
            return None;
        }
        let ghost s0 = *self;
        self.mark_metric(db);
        let ghost s1 = *self;
        let ghost d1 = *db;
        let row = db.metric.tx_delete_latest(id);
        self.pending.push(("Metric", id));
        proof {
            assert(self.writes() =~= s0.writes().push((model_name(1), id)));
            assert(self.marks == s1.marks);
            assert forall|n: int| 0 <= n < 5 && n != 1 implies #[trigger] self.mark(n) == s0.mark(n) by {
                assert(s1.mark(n) == s0.mark(n));
            }
            d1.metric.lemma_wf();
            db.metric.lemma_wf();
            assert(log_of(&*db, 1).ids.take(log_of(&d1, 1).ids.len() as int) =~= log_of(&d1, 1).ids);
            assert(log_of(&*db, 1).deleted.take(log_of(&d1, 1).ids.len() as int) =~= log_of(&d1, 1).deleted);
            s1.lemma_inv_after_stage(&d1, &*db, 1);
        }
        Some(row)
    }

    /// Stages a new version of the post record `id`, when the transaction
    /// sees it live (else `None` and nothing changes): the model is marked,
    /// the record normalised and checked (its author must be live), its unique
    /// keys claimed (its own excepted), and its row staged.
    pub fn update_post(&mut self, db: &mut Database, id: u128, rec: Post) -> (r: Result<Option<Written<Post>>, TxError>)
        requires
            old(self).inv(&*old(db)),
            old(db).post.state().log.ids.len() < usize::MAX,
            time_writable(rec.created_at),
        ensures
            final(self).inv(&*final(db)),
            !old(db).post.state().log.is_live(id) ==> (r matches Ok(None) && *final(self) == *old(self) && *final(db) == *old(db)),
            old(db).post.state().log.is_live(id) ==> {
                &&& final(self).mark(2) == mark_after(old(self).mark(2), old(db).post.state().log.ids.len())
                &&& forall|n: int| 0 <= n < 5 && n != 2 ==> #[trigger] final(self).mark(n) == old(self).mark(n)
                &&& final(db).post.counters() == marked(old(db).post.counters())
                &&& final(db).doc == old(db).doc
                    && final(db).metric == old(db).metric
                    && final(db).tag == old(db).tag
                    && final(db).user == old(db).user
                    && final(db).post_tag_link == old(db).post_tag_link
                &&& if rec.spec_normalized().spec_valid() && !old(db).user.state().log.is_live(rec.spec_normalized().author) {
                    &&& r matches Err(TxError::Validation(e)) && is_dangling_author(e)
                    &&& final(db).post.state() == old(db).post.state()
                    &&& final(self).writes() == old(self).writes()
                    &&& final(self).claimed() == old(self).claimed()
                } else {
                    match r {
                    Ok(Some(w)) => tx_updated(old(db).post, final(db).post, old(self).claimed(), final(self).claimed(), id, rec, Ok(w))
                        && final(self).writes() == old(self).writes().push((model_name(2), id)),
                    Err(TxError::Validation(e)) => tx_updated(old(db).post, final(db).post, old(self).claimed(), final(self).claimed(), id, rec, Err(e))
                        && final(self).writes() == old(self).writes(),
                    _ => false,
                }
                }
            },
    {
        if db.post.live_row(id).is_none() {
            return Ok(None);
        }
        let ghost s0 = *self;
        let ghost d0 = *db;
        let ghost rec0 = rec;
        self.mark_post(db);
        let ghost s1 = *self;
        let ghost d1 = *db;
        let n = rec.normalize();
        match n.check() {
            Err(e) => {
                proof {
                    lemma_post_normalize_idempotent(rec0);
                    assert forall|n: int| 0 <= n < 5 && n != 2 implies #[trigger] self.mark(n) == s0.mark(n) by {
                        assert(s1.mark(n) == s0.mark(n));
                    }
                }
                return Err(TxError::Validation(e));
            },
            Ok(()) => {},
        }
        if db.user.live_row(n.author).is_none() {
            proof {
                lemma_post_normalize_idempotent(rec0);
                assert forall|n: int| 0 <= n < 5 && n != 2 implies #[trigger] self.mark(n) == s0.mark(n) by {
                    assert(s1.mark(n) == s0.mark(n));
                }
            }
            return Err(TxError::Validation(ValidationError::DanglingReference { model: "Post", field: "author", target: "User" }));
        }
        proof {
            lemma_post_normalize_idempotent(rec0);
        }
        let r = db.post.tx_update(id, n, &mut self.staged);
        let out = match r {
            Ok(w) => {
                self.pending.push(("Post", id));
                Ok(Some(w))
            },
            Err(e) => Err(TxError::Validation(e)),
        };
        proof {
            assert(self.writes() =~= (match out {
                Ok(_) => s0.writes().push((model_name(2), id)),
                Err(_) => s0.writes(),
            }));
            assert(self.marks == s1.marks);
            assert forall|f: int, k: Seq<char>| #[trigger] d0.post.taken_in_tx(f, k, Some(id)) == d1.post.taken_in_tx(f, k, Some(id)) by {
                lemma_taken_same(d0.post, d1.post, f, k, Some(id));
            }
            assert forall|n: int| 0 <= n < 5 && n != 2 implies #[trigger] self.mark(n) == s0.mark(n) by {
                assert(s1.mark(n) == s0.mark(n));
            }
            d1.post.lemma_wf();
            db.post.lemma_wf();
            assert(log_of(&*db, 2).ids.take(log_of(&d1, 2).ids.len() as int) =~= log_of(&d1, 2).ids);
            assert(log_of(&*db, 2).deleted.take(log_of(&d1, 2).ids.len() as int) =~= log_of(&d1, 2).deleted);
            s1.lemma_inv_after_stage(&d1, &*db, 2);
        }
        out
    }

    /// Stages a tombstone for the post record `id`, when the
    /// transaction sees it live; returns its row, or `None` (and nothing
    /// changes) when it does not.
    pub fn delete_post(&mut self, db: &mut Database, id: u128) -> (row: Option<usize>)
        requires
            old(self).inv(&*old(db)),
            old(db).post.state().log.ids.len() < usize::MAX,
        ensures
            final(self).inv(&*final(db)),
            !old(db).post.state().log.is_live(id) ==> row is None && *final(self) == *old(self) && *final(db) == *old(db),
            old(db).post.state().log.is_live(id) ==> {
                &&& row == Some(old(db).post.state().log.ids.len() as usize)
                &&& final(self).mark(2) == mark_after(old(self).mark(2), old(db).post.state().log.ids.len())
                &&& forall|n: int| 0 <= n < 5 && n != 2 ==> #[trigger] final(self).mark(n) == old(self).mark(n)
                &&& final(db).post.counters() == marked(old(db).post.counters())
                &&& final(db).doc == old(db).doc
                    && final(db).metric == old(db).metric
                    && final(db).tag == old(db).tag
                    && final(db).user == old(db).user
                    && final(db).post_tag_link == old(db).post_tag_link
                &&& final(db).post.state().log.ids == old(db).post.state().log.ids.push(id)
                &&& final(db).post.state().log.deleted == old(db).post.state().log.deleted.push(true)
                &&& final(db).post.state().log.indexed == old(db).post.state().log.indexed
                &&& final(db).post.state().keys == old(db).post.state().keys.push(old(db).post.state().key_row(id))
                &&& final(db).post.state().ords == old(db).post.state().ords.push(old(db).post.state().ord_of(id))
                &&& old(db).post.consistent() ==> final(db).post.consistent()
                &&& final(self).writes() == old(self).writes().push((model_name(2), id))
                &&& final(self).claimed() == old(self).claimed()
            },
    {
        if db.post.live_row(id).is_none() {
            return None;
        }
        let ghost s0 = *self;
        self.mark_post(db);
        let ghost s1 = *self;
        let ghost d1 = *db;
        let row = db.post.tx_delete_latest(id);
        self.pending.push(("Post", id));
        proof {
            assert(self.writes() =~= s0.writes().push((model_name(2), id)));
            assert(self.marks == s1.marks);
            assert forall|n: int| 0 <= n < 5 && n != 2 implies #[trigger] self.mark(n) == s0.mark(n) by {
                assert(s1.mark(n) == s0.mark(n));
            }
            d1.post.lemma_wf();
            db.post.lemma_wf();
            assert(log_of(&*db, 2).ids.take(log_of(&d1, 2).ids.len() as int) =~= log_of(&d1, 2).ids);
            assert(log_of(&*db, 2).deleted.take(log_of(&d1, 2).ids.len() as int) =~= log_of(&d1, 2).deleted);
            s1.lemma_inv_after_stage(&d1, &*db, 2);
        }
        Some(row)
    }

    /// Stages a new version of the tag record `id`, when the transaction
    /// sees it live (else `None` and nothing changes): the model is marked,
    /// the record normalised and checked, its unique
    /// keys claimed (its own excepted), and its row staged.
    pub fn update_tag(&mut self, db: &mut Database, id: u128, rec: Tag) -> (r: Result<Option<Written<Tag>>, TxError>)
        requires
            old(self).inv(&*old(db)),
            old(db).tag.state().log.ids.len() < usize::MAX,
        ensures
            final(self).inv(&*final(db)),
            !old(db).tag.state().log.is_live(id) ==> (r matches Ok(None) && *final(self) == *old(self) && *final(db) == *old(db)),
            old(db).tag.state().log.is_live(id) ==> {
                &&& final(self).mark(3) == mark_after(old(self).mark(3), old(db).tag.state().log.ids.len())
                &&& forall|n: int| 0 <= n < 5 && n != 3 ==> #[trigger] final(self).mark(n) == old(self).mark(n)
                &&& final(db).tag.counters() == marked(old(db).tag.counters())
                &&& final(db).doc == old(db).doc
                    && final(db).metric == old(db).metric
                    && final(db).post == old(db).post
                    && final(db).user == old(db).user
                    && final(db).post_tag_link == old(db).post_tag_link
                &&& match r {
                    Ok(Some(w)) => tx_updated(old(db).tag, final(db).tag, old(self).claimed(), final(self).claimed(), id, rec, Ok(w))
                        && final(self).writes() == old(self).writes().push((model_name(3), id)),
                    Err(TxError::Validation(e)) => tx_updated(old(db).tag, final(db).tag, old(self).claimed(), final(self).claimed(), id, rec, Err(e))
                        && final(self).writes() == old(self).writes(),
                    _ => false,
                }
            },
    {
        if db.tag.live_row(id).is_none() {
            return Ok(None);
        }
        let ghost s0 = *self;
        let ghost d0 = *db;
        let ghost rec0 = rec;
        self.mark_tag(db);
        let ghost s1 = *self;
        let ghost d1 = *db;
        let r = db.tag.tx_update(id, rec, &mut self.staged);
        let out = match r {
            Ok(w) => {
                self.pending.push(("Tag", id));
                Ok(Some(w))
            },
            Err(e) => Err(TxError::Validation(e)),
        };
        proof {
            assert(self.writes() =~= (match out {
                Ok(_) => s0.writes().push((model_name(3), id)),
                Err(_) => s0.writes(),
            }));
            assert(self.marks == s1.marks);
            assert forall|f: int, k: Seq<char>| #[trigger] d0.tag.taken_in_tx(f, k, Some(id)) == d1.tag.taken_in_tx(f, k, Some(id)) by {
                lemma_taken_same(d0.tag, d1.tag, f, k, Some(id));
            }
            assert forall|n: int| 0 <= n < 5 && n != 3 implies #[trigger] self.mark(n) == s0.mark(n) by {
                assert(s1.mark(n) == s0.mark(n));
            }
            d1.tag.lemma_wf();
            db.tag.lemma_wf();
            assert(log_of(&*db, 3).ids.take(log_of(&d1, 3).ids.len() as int) =~= log_of(&d1, 3).ids);
            assert(log_of(&*db, 3).deleted.take(log_of(&d1, 3).ids.len() as int) =~= log_of(&d1, 3).deleted);
            s1.lemma_inv_after_stage(&d1, &*db, 3);
        }
        out
    }

    /// Stages a tombstone for the tag record `id`, when the
    /// transaction sees it live; returns its row, or `None` (and nothing
    /// changes) when it does not.
    pub fn delete_tag(&mut self, db: &mut Database, id: u128) -> (row: Option<usize>)
        requires
            old(self).inv(&*old(db)),
            old(db).tag.state().log.ids.len() < usize::MAX,
        ensures
            final(self).inv(&*final(db)),
            !old(db).tag.state().log.is_live(id) ==> row is None && *final(self) == *old(self) && *final(db) == *old(db),
            old(db).tag.state().log.is_live(id) ==> {
                &&& row == Some(old(db).tag.state().log.ids.len() as usize)
                &&& final(self).mark(3) == mark_after(old(self).mark(3), old(db).tag.state().log.ids.len())
                &&& forall|n: int| 0 <= n < 5 && n != 3 ==> #[trigger] final(self).mark(n) == old(self).mark(n)
                &&& final(db).tag.counters() == marked(old(db).tag.counters())
                &&& final(db).doc == old(db).doc
                    && final(db).metric == old(db).metric
                    && final(db).post == old(db).post
                    && final(db).user == old(db).user
                    && final(db).post_tag_link == old(db).post_tag_link
                &&& final(db).tag.state().log.ids == old(db).tag.state().log.ids.push(id)
                &&& final(db).tag.state().log.deleted == old(db).tag.state().log.deleted.push(true)
                &&& final(db).tag.state().log.indexed == old(db).tag.state().log.indexed
                &&& final(db).tag.state().keys == old(db).tag.state().keys.push(old(db).tag.state().key_row(id))
                &&& final(db).tag.state().ords == old(db).tag.state().ords.push(old(db).tag.state().ord_of(id))
                &&& old(db).tag.consistent() ==> final(db).tag.consistent()
                &&& final(self).writes() == old(self).writes().push((model_name(3), id))
                &&& final(self).claimed() == old(self).claimed()
            },
    {
        if db.tag.live_row(id).is_none() {
            return None;
        }
        let ghost s0 = *self;
        self.mark_tag(db);
        let ghost s1 = *self;
        let ghost d1 = *db;
        let row = db.tag.tx_delete_latest(id);
        self.pending.push(("Tag", id));
        proof {
            assert(self.writes() =~= s0.writes().push((model_name(3), id)));
            assert(self.marks == s1.marks);
            assert forall|n: int| 0 <= n < 5 && n != 3 implies #[trigger] self.mark(n) == s0.mark(n) by {
                assert(s1.mark(n) == s0.mark(n));
            }
            d1.tag.lemma_wf();
            db.tag.lemma_wf();
            assert(log_of(&*db, 3).ids.take(log_of(&d1, 3).ids.len() as int) =~= log_of(&d1, 3).ids);
            assert(log_of(&*db, 3).deleted.take(log_of(&d1, 3).ids.len() as int) =~= log_of(&d1, 3).deleted);
            s1.lemma_inv_after_stage(&d1, &*db, 3);
        }
        Some(row)
    }

    /// Stages a new version of the user record `id`, when the transaction
    /// sees it live (else `None` and nothing changes): the model is marked,
    /// the record normalised and checked, its unique
    /// keys claimed (its own excepted), and its row staged.
    pub fn update_user(&mut self, db: &mut Database, id: u128, rec: User) -> (r: Result<Option<Written<User>>, TxError>)
        requires
            old(self).inv(&*old(db)),
            old(db).user.state().log.ids.len() < usize::MAX,
            time_writable(rec.created_at),
        ensures
            final(self).inv(&*final(db)),
            !old(db).user.state().log.is_live(id) ==> (r matches Ok(None) && *final(self) == *old(self) && *final(db) == *old(db)),
            old(db).user.state().log.is_live(id) ==> {
                &&& final(self).mark(4) == mark_after(old(self).mark(4), old(db).user.state().log.ids.len())
                &&& forall|n: int| 0 <= n < 5 && n != 4 ==> #[trigger] final(self).mark(n) == old(self).mark(n)
                &&& final(db).user.counters() == marked(old(db).user.counters())
                &&& final(db).doc == old(db).doc
                    && final(db).metric == old(db).metric
                    && final(db).post == old(db).post
                    && final(db).tag == old(db).tag
                    && final(db).post_tag_link == old(db).post_tag_link
                &&& match r {
                    Ok(Some(w)) => tx_updated(old(db).user, final(db).user, old(self).claimed(), final(self).claimed(), id, rec, Ok(w))
                        && final(self).writes() == old(self).writes().push((model_name(4), id)),
                    Err(TxError::Validation(e)) => tx_updated(old(db).user, final(db).user, old(self).claimed(), final(self).claimed(), id, rec, Err(e))
                        && final(self).writes() == old(self).writes(),
                    _ => false,
                }
            },
    {
        if db.user.live_row(id).is_none() {
            return Ok(None);
        }
        let ghost s0 = *self;
        let ghost d0 = *db;
        let ghost rec0 = rec;
        self.mark_user(db);
        let ghost s1 = *self;
        let ghost d1 = *db;
        let r = db.user.tx_update(id, rec, &mut self.staged);
        let out = match r {
            Ok(w) => {
                self.pending.push(("User", id));
                Ok(Some(w))
            },
            Err(e) => Err(TxError::Validation(e)),
        };
        proof {
            assert(self.writes() =~= (match out {
                Ok(_) => s0.writes().push((model_name(4), id)),
                Err(_) => s0.writes(),
            }));
            assert(self.marks == s1.marks);
            assert forall|f: int, k: Seq<char>| #[trigger] d0.user.taken_in_tx(f, k, Some(id)) == d1.user.taken_in_tx(f, k, Some(id)) by {
                lemma_taken_same(d0.user, d1.user, f, k, Some(id));
            }
            assert forall|n: int| 0 <= n < 5 && n != 4 implies #[trigger] self.mark(n) == s0.mark(n) by {
                assert(s1.mark(n) == s0.mark(n));
            }
            d1.user.lemma_wf();
            db.user.lemma_wf();
            assert(log_of(&*db, 4).ids.take(log_of(&d1, 4).ids.len() as int) =~= log_of(&d1, 4).ids);
            assert(log_of(&*db, 4).deleted.take(log_of(&d1, 4).ids.len() as int) =~= log_of(&d1, 4).deleted);
            s1.lemma_inv_after_stage(&d1, &*db, 4);
        }
        out
    }

    /// Stages a tombstone for the user record `id`, when the
    /// transaction sees it live; returns its row, or `None` (and nothing
    /// changes) when it does not.
    pub fn delete_user(&mut self, db: &mut Database, id: u128) -> (row: Option<usize>)
        requires
            old(self).inv(&*old(db)),
            old(db).user.state().log.ids.len() < usize::MAX,
        ensures
            final(self).inv(&*final(db)),
            !old(db).user.state().log.is_live(id) ==> row is None && *final(self) == *old(self) && *final(db) == *old(db),
            old(db).user.state().log.is_live(id) ==> {
                &&& row == Some(old(db).user.state().log.ids.len() as usize)
                &&& final(self).mark(4) == mark_after(old(self).mark(4), old(db).user.state().log.ids.len())
                &&& forall|n: int| 0 <= n < 5 && n != 4 ==> #[trigger] final(self).mark(n) == old(self).mark(n)
                &&& final(db).user.counters() == marked(old(db).user.counters())
                &&& final(db).doc == old(db).doc
                    && final(db).metric == old(db).metric
                    && final(db).post == old(db).post
                    && final(db).tag == old(db).tag
                    && final(db).post_tag_link == old(db).post_tag_link
                &&& final(db).user.state().log.ids == old(db).user.state().log.ids.push(id)
                &&& final(db).user.state().log.deleted == old(db).user.state().log.deleted.push(true)
                &&& final(db).user.state().log.indexed == old(db).user.state().log.indexed
                &&& final(db).user.state().keys == old(db).user.state().keys.push(old(db).user.state().key_row(id))
                &&& final(db).user.state().ords == old(db).user.state().ords.push(old(db).user.state().ord_of(id))
                &&& old(db).user.consistent() ==> final(db).user.consistent()
                &&& final(self).writes() == old(self).writes().push((model_name(4), id))
                &&& final(self).claimed() == old(self).claimed()
            },
    {
        if db.user.live_row(id).is_none() {
            return None;
        }
        let ghost s0 = *self;
        self.mark_user(db);
        let ghost s1 = *self;
        let ghost d1 = *db;
        let row = db.user.tx_delete_latest(id);
        self.pending.push(("User", id));
        proof {
            assert(self.writes() =~= s0.writes().push((model_name(4), id)));
            assert(self.marks == s1.marks);
            assert forall|n: int| 0 <= n < 5 && n != 4 implies #[trigger] self.mark(n) == s0.mark(n) by {
                assert(s1.mark(n) == s0.mark(n));
            }
            d1.user.lemma_wf();
            db.user.lemma_wf();
            assert(log_of(&*db, 4).ids.take(log_of(&d1, 4).ids.len() as int) =~= log_of(&d1, 4).ids);
            assert(log_of(&*db, 4).deleted.take(log_of(&d1, 4).ids.len() as int) =~= log_of(&d1, 4).deleted);
            s1.lemma_inv_after_stage(&d1, &*db, 4);
        }
        Some(row)
    }

    /// The journal of a committing transaction: for each model it wrote, by
    /// name order, the model's name and its row count.
    pub fn journal(&self, db: &Database) -> (out: Vec<(&'static str, usize)>)
        requires
            self.inv(db),
        ensures
            Seq::new(out@.len(), |i: int| (out@[i].0@, out@[i].1 as nat)) == journal_upto(self, db, 5),
    {
        let mut out: Vec<(&'static str, usize)> = Vec::new();
        let mut m: usize = 0;
        while m < 5
            invariant
                m <= 5,
                self.inv(db),
                Seq::new(out@.len(), |i: int| (out@[i].0@, out@[i].1 as nat)) == journal_upto(self, db, m as nat),
            decreases 5 - m,
        {
            let ghost before = out@;
            proof {
                assert(self.marks@[m as int] == self.mark(m as int));
            }
            if self.marks[m].is_some() {
                out.push((model_str(m), rows_of(db, m)));
            }
            proof {
                assert(Seq::new(out@.len(), |i: int| (out@[i].0@, out@[i].1 as nat)) =~= journal_upto(self, db, (m + 1) as nat));
            }
            m = m + 1;
        }
        out
    }

    /// Commits the transaction's models, by name order: each marked model's
    /// staged rows become committed and indexed and it leaves the
    /// transaction; returns, per marked model, the maintenance it deferred.
    pub fn commit(self, db: &mut Database) -> (out: Vec<(&'static str, MaintenanceAction)>)
        requires
            self.inv(&*old(db)),
        ensures
            all_wf(&*final(db)),
            final(db).post_tag_link == old(db).post_tag_link,
            forall|m: int| 0 <= m < 5 ==> committed_model(&*final(db), &*old(db), #[trigger] self.mark(m), m),
            Seq::new(out@.len(), |i: int| (out@[i].0@, out@[i].1)) == actions_upto(&self, &*old(db), 5),
    {
        let ghost d0 = *db;
        let mut out: Vec<(&'static str, MaintenanceAction)> = Vec::new();
        let mut m: usize = 0;
        while m < 5
            invariant
                m <= 5,
                self.marks@.len() == 5,
                all_wf(&*db),
                self.inv(&d0),
                db.post_tag_link == d0.post_tag_link,
                forall|n: int| m <= n < 5 ==> #[trigger] same_table(&*db, &d0, n),
                forall|n: int| 0 <= n < m ==> committed_model(&*db, &d0, #[trigger] self.mark(n), n),
                Seq::new(out@.len(), |i: int| (out@[i].0@, out@[i].1)) == actions_upto(&self, &d0, m as nat),
            decreases 5 - m,
        {
            proof {
                assert(self.marks@[m as int] == self.mark(m as int));
                assert(same_table(&*db, &d0, m as int));
            }
            let ghost di = *db;
            if self.marks[m].is_some() {
                let a = commit_one(db, m);
                out.push((model_str(m), a));
            }
            proof {
                assert forall|n: int| m + 1 <= n < 5 implies #[trigger] same_table(&*db, &d0, n) by {
                    assert(same_table(&*db, &di, n));
                    assert(same_table(&di, &d0, n));
                }
                assert forall|n: int| 0 <= n < m + 1 implies committed_model(&*db, &d0, #[trigger] self.mark(n), n) by {
                    assert(same_table(&*db, &di, n) || n == m);
                    if n < m {
                        assert(committed_model(&di, &d0, self.mark(n), n));
                    }
                }
                assert(Seq::new(out@.len(), |i: int| (out@[i].0@, out@[i].1)) =~= actions_upto(&self, &d0, (m + 1) as nat));
            }
            m = m + 1;
        }
        out
    }

    /// Rolls the transaction back, by name order: each marked model drops the
    /// rows staged after its mark and leaves the transaction; returns, per
    /// marked model, the maintenance it deferred.
    pub fn rollback(self, db: &mut Database) -> (out: Vec<(&'static str, MaintenanceAction)>)
        requires
            self.inv(&*old(db)),
        ensures
            all_wf(&*final(db)),
            final(db).post_tag_link == old(db).post_tag_link,
            forall|m: int| 0 <= m < 5 ==> rolled_back_model(&*final(db), &*old(db), #[trigger] self.mark(m), m),
            forall|m: int| 0 <= m < 5 && #[trigger] self.mark(m) is Some ==> {
                &&& log_of(&*final(db), m).ids == self.origin(m).ids
                &&& log_of(&*final(db), m).deleted == self.origin(m).deleted
                &&& log_of(&*final(db), m).indexed == self.origin(m).indexed
            },
            Seq::new(out@.len(), |i: int| (out@[i].0@, out@[i].1)) == actions_upto(&self, &*old(db), 5),
    {
        let ghost d0 = *db;
        let mut out: Vec<(&'static str, MaintenanceAction)> = Vec::new();
        let mut m: usize = 0;
        while m < 5
            invariant
                m <= 5,
                self.marks@.len() == 5,
                all_wf(&*db),
                self.inv(&d0),
                db.post_tag_link == d0.post_tag_link,
                forall|n: int| m <= n < 5 ==> #[trigger] same_table(&*db, &d0, n),
                forall|n: int| 0 <= n < m ==> rolled_back_model(&*db, &d0, #[trigger] self.mark(n), n),
                Seq::new(out@.len(), |i: int| (out@[i].0@, out@[i].1)) == actions_upto(&self, &d0, m as nat),
            decreases 5 - m,
        {
            proof {
                assert(self.marks@[m as int] == self.mark(m as int));
                assert(same_table(&*db, &d0, m as int));
            }
            let ghost di = *db;
            match self.marks[m] {
                Some(k) => {
                    let a = rollback_one(db, m, k);
                    out.push((model_str(m), a));
                },
                None => {},
            }
            proof {
                assert forall|n: int| m + 1 <= n < 5 implies #[trigger] same_table(&*db, &d0, n) by {
                    assert(same_table(&*db, &di, n));
                    assert(same_table(&di, &d0, n));
                }
                assert forall|n: int| 0 <= n < m + 1 implies rolled_back_model(&*db, &d0, #[trigger] self.mark(n), n) by {
                    assert(same_table(&*db, &di, n) || n == m);
                    if n < m {
                        assert(rolled_back_model(&di, &d0, self.mark(n), n));
                    }
                }
                assert(Seq::new(out@.len(), |i: int| (out@[i].0@, out@[i].1)) =~= actions_upto(&self, &d0, (m + 1) as nat));
            }
            m = m + 1;
        }
        proof {
            assert forall|m: int| 0 <= m < 5 && #[trigger] self.mark(m) is Some implies {
                &&& log_of(&*db, m).ids == self.origin(m).ids
                &&& log_of(&*db, m).deleted == self.origin(m).deleted
                &&& log_of(&*db, m).indexed == self.origin(m).indexed
            } by {
                assert(marked_ok(&d0, self.marks@[m], self.origin@[m], m));
                assert(rolled_back_model(&*db, &d0, self.mark(m), m));
            }
        }
        out
    }
}

/// The maintenance a model deferred while in a transaction: a compaction
/// (which includes a checkpoint) if one was asked for, else a checkpoint if
/// one was.
pub open spec fn deferred(c: Maintenance) -> MaintenanceAction {
    MaintenanceAction { compact: c.compact_deferred, checkpoint: !c.compact_deferred && c.checkpoint_deferred }
}

/// Per marked model among the first `k`, by name order: its name and row
/// count.
pub open spec fn journal_upto(t: &TxHandle, db: &Database, k: nat) -> Seq<(Seq<char>, nat)>
    decreases k,
{
    if k == 0 {
        Seq::empty()
    } else {
        let m = k - 1;
        let rest = journal_upto(t, db, (k - 1) as nat);
        if t.mark(m) is Some { rest.push((model_name(m), log_of(db, m).ids.len())) } else { rest }
    }
}

/// Per marked model among the first `k`, by name order: its name and the
/// maintenance it deferred.
pub open spec fn actions_upto(t: &TxHandle, db: &Database, k: nat) -> Seq<(Seq<char>, MaintenanceAction)>
    decreases k,
{
    if k == 0 {
        Seq::empty()
    } else {
        let m = k - 1;
        let rest = actions_upto(t, db, (k - 1) as nat);
        if t.mark(m) is Some { rest.push((model_name(m), deferred(counters_of(db, m)))) } else { rest }
    }
}

/// Model `m` after a commit (`new`) relative to before (`old`): if marked,
/// its rows are all committed and indexed and it left the transaction; else
/// untouched.
pub open spec fn committed_model(new: &Database, old: &Database, mark: Option<usize>, m: int) -> bool {
    match mark {
        Some(_) => {
            &&& log_of(new, m).ids == log_of(old, m).ids
            &&& log_of(new, m).deleted == log_of(old, m).deleted
            &&& log_of(new, m).indexed == log_of(new, m).ids.len()
            &&& state_of(new, m).keys == state_of(old, m).keys
            &&& state_of(new, m).ords == state_of(old, m).ords
            &&& consistent_of(new, m)
            &&& !counters_of(new, m).in_transaction
        },
        None => same_table(new, old, m),
    }
}

/// Model `m` after a rollback relative to before: if marked at `k`, its
/// rows past `k` are gone and it left the transaction; else untouched.
pub open spec fn rolled_back_model(new: &Database, old: &Database, mark: Option<usize>, m: int) -> bool {
    match mark {
        Some(k) => {
            &&& log_of(new, m).ids == log_of(old, m).ids.take(k as int)
            &&& log_of(new, m).deleted == log_of(old, m).deleted.take(k as int)
            &&& log_of(new, m).indexed == k
            &&& state_of(new, m).keys == state_of(old, m).keys.take(k as int)
            &&& state_of(new, m).ords == state_of(old, m).ords.take(k as int)
            &&& consistent_of(old, m) ==> consistent_of(new, m)
            &&& !counters_of(new, m).in_transaction
        },
        None => same_table(new, old, m),
    }
}

/// Table `m` (by name order) is the same in both databases.
pub open spec fn same_table(a: &Database, b: &Database, m: int) -> bool {
    if m == 0 { a.doc == b.doc } else if m == 1 { a.metric == b.metric } else if m == 2 { a.post == b.post }
    else if m == 3 { a.tag == b.tag } else { a.user == b.user }
}

/// Table `m` (by name order) has indexes that match its records.
pub open spec fn consistent_of(db: &Database, m: int) -> bool {
    if m == 0 { db.doc.consistent() } else if m == 1 { db.metric.consistent() } else if m == 2 { db.post.consistent() }
    else if m == 3 { db.tag.consistent() } else { db.user.consistent() }
}

fn rows_of(db: &Database, m: usize) -> (n: usize)
    requires
        all_wf(db),
        m < 5,
    ensures
        n == log_of(db, m as int).ids.len(),
{
    if m == 0 { db.doc.row_count() } else if m == 1 { db.metric.row_count() } else if m == 2 { db.post.row_count() }
    else if m == 3 { db.tag.row_count() } else { db.user.row_count() }
}

fn commit_one(db: &mut Database, m: usize) -> (a: MaintenanceAction)
    requires
        all_wf(&*old(db)),
        m < 5,
    ensures
        all_wf(&*final(db)),
        final(db).post_tag_link == old(db).post_tag_link,
        forall|n: int| 0 <= n < 5 && n != m ==> #[trigger] same_table(&*final(db), &*old(db), n),
        log_of(&*final(db), m as int).ids == log_of(&*old(db), m as int).ids,
        log_of(&*final(db), m as int).deleted == log_of(&*old(db), m as int).deleted,
        log_of(&*final(db), m as int).indexed == log_of(&*final(db), m as int).ids.len(),
        state_of(&*final(db), m as int).keys == state_of(&*old(db), m as int).keys,
        state_of(&*final(db), m as int).ords == state_of(&*old(db), m as int).ords,
        consistent_of(&*final(db), m as int),
        !counters_of(&*final(db), m as int).in_transaction,
        a == deferred(counters_of(&*old(db), m as int)),
{
    if m == 0 {
        db.doc.commit_transaction()
    } else if m == 1 {
        db.metric.commit_transaction()
    } else if m == 2 {
        db.post.commit_transaction()
    } else if m == 3 {
        db.tag.commit_transaction()
    } else {
        db.user.commit_transaction()
    }
}

fn rollback_one(db: &mut Database, m: usize, k: usize) -> (a: MaintenanceAction)
    requires
        all_wf(&*old(db)),
        m < 5,
        log_of(&*old(db), m as int).indexed <= k <= log_of(&*old(db), m as int).ids.len(),
    ensures
        all_wf(&*final(db)),
        final(db).post_tag_link == old(db).post_tag_link,
        forall|n: int| 0 <= n < 5 && n != m ==> #[trigger] same_table(&*final(db), &*old(db), n),
        log_of(&*final(db), m as int).ids == log_of(&*old(db), m as int).ids.take(k as int),
        log_of(&*final(db), m as int).deleted == log_of(&*old(db), m as int).deleted.take(k as int),
        log_of(&*final(db), m as int).indexed == log_of(&*old(db), m as int).indexed,
        state_of(&*final(db), m as int).keys == state_of(&*old(db), m as int).keys.take(k as int),
        state_of(&*final(db), m as int).ords == state_of(&*old(db), m as int).ords.take(k as int),
        consistent_of(&*old(db), m as int) ==> consistent_of(&*final(db), m as int),
        !counters_of(&*final(db), m as int).in_transaction,
        a == deferred(counters_of(&*old(db), m as int)),
{
    if m == 0 {
        db.doc.rollback_transaction(k)
    } else if m == 1 {
        db.metric.rollback_transaction(k)
    } else if m == 2 {
        db.post.rollback_transaction(k)
    } else if m == 3 {
        db.tag.rollback_transaction(k)
    } else {
        db.user.rollback_transaction(k)
    }
}


impl TxHandle {
    /// Stages a doc write checked before (a buffered one): the model is
    /// marked and a row for `id` carrying `rec`'s keys is staged, a tombstone
    /// when `deleted`.
    pub fn stage_doc(&mut self, db: &mut Database, id: u128, deleted: bool, rec: &Doc) -> (row: usize)
        requires
            old(self).inv(&*old(db)),
            old(db).doc.state().log.ids.len() < usize::MAX,
        ensures
            final(self).inv(&*final(db)),
            row == old(db).doc.state().log.ids.len(),
            final(self).mark(0) == mark_after(old(self).mark(0), old(db).doc.state().log.ids.len()),
            forall|n: int| 0 <= n < 5 && n != 0 ==> #[trigger] final(self).mark(n) == old(self).mark(n),
            final(db).doc.counters() == marked(old(db).doc.counters()),
            final(db).metric == old(db).metric
                && final(db).post == old(db).post
                && final(db).tag == old(db).tag
                && final(db).user == old(db).user
                && final(db).post_tag_link == old(db).post_tag_link,
            final(db).doc.state().log.ids == old(db).doc.state().log.ids.push(id),
            final(db).doc.state().log.deleted == old(db).doc.state().log.deleted.push(deleted),
            final(db).doc.state().log.indexed == old(db).doc.state().log.indexed,
            final(db).doc.state().keys == old(db).doc.state().keys.push(rec.spec_keys()),
            final(db).doc.state().ords == old(db).doc.state().ords.push(rec.spec_ord()),
            old(db).doc.consistent() ==> final(db).doc.consistent(),
            final(self).writes() == old(self).writes().push((model_name(0), id)),
            final(self).claimed() == old(self).claimed(),
    {
        let ghost s0 = *self;
        self.mark_doc(db);
        let ghost s1 = *self;
        let ghost d1 = *db;
        let row = db.doc.load_row(id, deleted, rec);
        self.pending.push(("Doc", id));
        proof {
            assert(self.writes() =~= s0.writes().push((model_name(0), id)));
            assert(self.marks == s1.marks);
            assert forall|n: int| 0 <= n < 5 && n != 0 implies #[trigger] self.mark(n) == s0.mark(n) by {
                assert(s1.mark(n) == s0.mark(n));
            }
            d1.doc.lemma_wf();
            db.doc.lemma_wf();
            assert(log_of(&*db, 0).ids.take(log_of(&d1, 0).ids.len() as int) =~= log_of(&d1, 0).ids);
            assert(log_of(&*db, 0).deleted.take(log_of(&d1, 0).ids.len() as int) =~= log_of(&d1, 0).deleted);
            s1.lemma_inv_after_stage(&d1, &*db, 0);
        }
        row
    }

    /// Stages a metric write checked before (a buffered one): the model is
    /// marked and a row for `id` carrying `rec`'s keys is staged, a tombstone
    /// when `deleted`.
    pub fn stage_metric(&mut self, db: &mut Database, id: u128, deleted: bool, rec: &Metric) -> (row: usize)
        requires
            old(self).inv(&*old(db)),
            old(db).metric.state().log.ids.len() < usize::MAX,
        ensures
            final(self).inv(&*final(db)),
            row == old(db).metric.state().log.ids.len(),
            final(self).mark(1) == mark_after(old(self).mark(1), old(db).metric.state().log.ids.len()),
            forall|n: int| 0 <= n < 5 && n != 1 ==> #[trigger] final(self).mark(n) == old(self).mark(n),
            final(db).metric.counters() == marked(old(db).metric.counters()),
            final(db).doc == old(db).doc
                && final(db).post == old(db).post
                && final(db).tag == old(db).tag
                && final(db).user == old(db).user
                && final(db).post_tag_link == old(db).post_tag_link,
            final(db).metric.state().log.ids == old(db).metric.state().log.ids.push(id),
            final(db).metric.state().log.deleted == old(db).metric.state().log.deleted.push(deleted),
            final(db).metric.state().log.indexed == old(db).metric.state().log.indexed,
            final(db).metric.state().keys == old(db).metric.state().keys.push(rec.spec_keys()),
            final(db).metric.state().ords == old(db).metric.state().ords.push(rec.spec_ord()),
            old(db).metric.consistent() ==> final(db).metric.consistent(),
            final(self).writes() == old(self).writes().push((model_name(1), id)),
            final(self).claimed() == old(self).claimed(),
    {
        let ghost s0 = *self;
        self.mark_metric(db);
        let ghost s1 = *self;
        let ghost d1 = *db;
        let row = db.metric.load_row(id, deleted, rec);
        self.pending.push(("Metric", id));
        proof {
            assert(self.writes() =~= s0.writes().push((model_name(1), id)));
            assert(self.marks == s1.marks);
            assert forall|n: int| 0 <= n < 5 && n != 1 implies #[trigger] self.mark(n) == s0.mark(n) by {
                assert(s1.mark(n) == s0.mark(n));
            }
            d1.metric.lemma_wf();
            db.metric.lemma_wf();
            assert(log_of(&*db, 1).ids.take(log_of(&d1, 1).ids.len() as int) =~= log_of(&d1, 1).ids);
            assert(log_of(&*db, 1).deleted.take(log_of(&d1, 1).ids.len() as int) =~= log_of(&d1, 1).deleted);
            s1.lemma_inv_after_stage(&d1, &*db, 1);
        }
        row
    }

    /// Stages a post write checked before (a buffered one): the model is
    /// marked and a row for `id` carrying `rec`'s keys is staged, a tombstone
    /// when `deleted`.
    pub fn stage_post(&mut self, db: &mut Database, id: u128, deleted: bool, rec: &Post) -> (row: usize)
        requires
            old(self).inv(&*old(db)),
            old(db).post.state().log.ids.len() < usize::MAX,
        ensures
            final(self).inv(&*final(db)),
            row == old(db).post.state().log.ids.len(),
            final(self).mark(2) == mark_after(old(self).mark(2), old(db).post.state().log.ids.len()),
            forall|n: int| 0 <= n < 5 && n != 2 ==> #[trigger] final(self).mark(n) == old(self).mark(n),
            final(db).post.counters() == marked(old(db).post.counters()),
            final(db).doc == old(db).doc
                && final(db).metric == old(db).metric
                && final(db).tag == old(db).tag
                && final(db).user == old(db).user
                && final(db).post_tag_link == old(db).post_tag_link,
            final(db).post.state().log.ids == old(db).post.state().log.ids.push(id),
            final(db).post.state().log.deleted == old(db).post.state().log.deleted.push(deleted),
            final(db).post.state().log.indexed == old(db).post.state().log.indexed,
            final(db).post.state().keys == old(db).post.state().keys.push(rec.spec_keys()),
            final(db).post.state().ords == old(db).post.state().ords.push(rec.spec_ord()),
            old(db).post.consistent() ==> final(db).post.consistent(),
            final(self).writes() == old(self).writes().push((model_name(2), id)),
            final(self).claimed() == old(self).claimed(),
    {
        let ghost s0 = *self;
        self.mark_post(db);
        let ghost s1 = *self;
        let ghost d1 = *db;
        let row = db.post.load_row(id, deleted, rec);
        self.pending.push(("Post", id));
        proof {
            assert(self.writes() =~= s0.writes().push((model_name(2), id)));
            assert(self.marks == s1.marks);
            assert forall|n: int| 0 <= n < 5 && n != 2 implies #[trigger] self.mark(n) == s0.mark(n) by {
                assert(s1.mark(n) == s0.mark(n));
            }
            d1.post.lemma_wf();
            db.post.lemma_wf();
            assert(log_of(&*db, 2).ids.take(log_of(&d1, 2).ids.len() as int) =~= log_of(&d1, 2).ids);
            assert(log_of(&*db, 2).deleted.take(log_of(&d1, 2).ids.len() as int) =~= log_of(&d1, 2).deleted);
            s1.lemma_inv_after_stage(&d1, &*db, 2);
        }
        row
    }

    /// Stages a tag write checked before (a buffered one): the model is
    /// marked and a row for `id` carrying `rec`'s keys is staged, a tombstone
    /// when `deleted`.
    pub fn stage_tag(&mut self, db: &mut Database, id: u128, deleted: bool, rec: &Tag) -> (row: usize)
        requires
            old(self).inv(&*old(db)),
            old(db).tag.state().log.ids.len() < usize::MAX,
        ensures
            final(self).inv(&*final(db)),
            row == old(db).tag.state().log.ids.len(),
            final(self).mark(3) == mark_after(old(self).mark(3), old(db).tag.state().log.ids.len()),
            forall|n: int| 0 <= n < 5 && n != 3 ==> #[trigger] final(self).mark(n) == old(self).mark(n),
            final(db).tag.counters() == marked(old(db).tag.counters()),
            final(db).doc == old(db).doc
                && final(db).metric == old(db).metric
                && final(db).post == old(db).post
                && final(db).user == old(db).user
                && final(db).post_tag_link == old(db).post_tag_link,
            final(db).tag.state().log.ids == old(db).tag.state().log.ids.push(id),
            final(db).tag.state().log.deleted == old(db).tag.state().log.deleted.push(deleted),
            final(db).tag.state().log.indexed == old(db).tag.state().log.indexed,
            final(db).tag.state().keys == old(db).tag.state().keys.push(rec.spec_keys()),
            final(db).tag.state().ords == old(db).tag.state().ords.push(rec.spec_ord()),
            old(db).tag.consistent() ==> final(db).tag.consistent(),
            final(self).writes() == old(self).writes().push((model_name(3), id)),
            final(self).claimed() == old(self).claimed(),
    {
        let ghost s0 = *self;
        self.mark_tag(db);
        let ghost s1 = *self;
        let ghost d1 = *db;
        let row = db.tag.load_row(id, deleted, rec);
        self.pending.push(("Tag", id));
        proof {
            assert(self.writes() =~= s0.writes().push((model_name(3), id)));
            assert(self.marks == s1.marks);
            assert forall|n: int| 0 <= n < 5 && n != 3 implies #[trigger] self.mark(n) == s0.mark(n) by {
                assert(s1.mark(n) == s0.mark(n));
            }
            d1.tag.lemma_wf();
            db.tag.lemma_wf();
            assert(log_of(&*db, 3).ids.take(log_of(&d1, 3).ids.len() as int) =~= log_of(&d1, 3).ids);
            assert(log_of(&*db, 3).deleted.take(log_of(&d1, 3).ids.len() as int) =~= log_of(&d1, 3).deleted);
            s1.lemma_inv_after_stage(&d1, &*db, 3);
        }
        row
    }

    /// Stages a user write checked before (a buffered one): the model is
    /// marked and a row for `id` carrying `rec`'s keys is staged, a tombstone
    /// when `deleted`.
    pub fn stage_user(&mut self, db: &mut Database, id: u128, deleted: bool, rec: &User) -> (row: usize)
        requires
            old(self).inv(&*old(db)),
            old(db).user.state().log.ids.len() < usize::MAX,
        ensures
            final(self).inv(&*final(db)),
            row == old(db).user.state().log.ids.len(),
            final(self).mark(4) == mark_after(old(self).mark(4), old(db).user.state().log.ids.len()),
            forall|n: int| 0 <= n < 5 && n != 4 ==> #[trigger] final(self).mark(n) == old(self).mark(n),
            final(db).user.counters() == marked(old(db).user.counters()),
            final(db).doc == old(db).doc
                && final(db).metric == old(db).metric
                && final(db).post == old(db).post
                && final(db).tag == old(db).tag
                && final(db).post_tag_link == old(db).post_tag_link,
            final(db).user.state().log.ids == old(db).user.state().log.ids.push(id),
            final(db).user.state().log.deleted == old(db).user.state().log.deleted.push(deleted),
            final(db).user.state().log.indexed == old(db).user.state().log.indexed,
            final(db).user.state().keys == old(db).user.state().keys.push(rec.spec_keys()),
            final(db).user.state().ords == old(db).user.state().ords.push(rec.spec_ord()),
            old(db).user.consistent() ==> final(db).user.consistent(),
            final(self).writes() == old(self).writes().push((model_name(4), id)),
            final(self).claimed() == old(self).claimed(),
    {
        let ghost s0 = *self;
        self.mark_user(db);
        let ghost s1 = *self;
        let ghost d1 = *db;
        let row = db.user.load_row(id, deleted, rec);
        self.pending.push(("User", id));
        proof {
            assert(self.writes() =~= s0.writes().push((model_name(4), id)));
            assert(self.marks == s1.marks);
            assert forall|n: int| 0 <= n < 5 && n != 4 implies #[trigger] self.mark(n) == s0.mark(n) by {
                assert(s1.mark(n) == s0.mark(n));
            }
            d1.user.lemma_wf();
            db.user.lemma_wf();
            assert(log_of(&*db, 4).ids.take(log_of(&d1, 4).ids.len() as int) =~= log_of(&d1, 4).ids);
            assert(log_of(&*db, 4).deleted.take(log_of(&d1, 4).ids.len() as int) =~= log_of(&d1, 4).deleted);
            s1.lemma_inv_after_stage(&d1, &*db, 4);
        }
        row
    }
}


/// Transaction `t`, begun on `start` (every model fully indexed), has since
/// only staged rows after the marks it took at each model's row count, and
/// left the models it did not mark as they were.
pub open spec fn began_at(t: TxHandle, db: &Database, start: &Database) -> bool {
    &&& forall|m: int| 0 <= m < 5 ==> #[trigger] log_of(start, m).indexed == log_of(start, m).ids.len()
    &&& forall|m: int| 0 <= m < 5 && #[trigger] t.mark(m) is None ==> same_table(db, start, m)
    &&& forall|m: int| 0 <= m < 5 && #[trigger] t.mark(m) is Some ==> {
        let k = t.mark(m)->0 as int;
        &&& k == log_of(start, m).ids.len()
        &&& k <= log_of(db, m).ids.len()
        &&& log_of(db, m).ids.take(k) == log_of(start, m).ids
        &&& log_of(db, m).deleted.take(k) == log_of(start, m).deleted
        &&& state_of(db, m).keys.take(k) == state_of(start, m).keys
        &&& state_of(db, m).ords.take(k) == state_of(start, m).ords
    }
}

/// A transaction that has marked nothing was begun on the database as it is.
pub proof fn lemma_began_at_begin(t: TxHandle, start: Database)
    requires
        forall|m: int| 0 <= m < 5 ==> #[trigger] t.mark(m) is None,
        forall|m: int| 0 <= m < 5 ==> #[trigger] log_of(&start, m).indexed == log_of(&start, m).ids.len(),
    ensures
        began_at(t, &start, &start),
{
}

/// A staging step keeps the history: a write that marks model `m` at its row
/// count (unless already marked) and only appends rows to it, touching no
/// other model, leaves the transaction begun on the same database.
pub proof fn lemma_began_at_step(t1: TxHandle, t2: TxHandle, d1: Database, d2: Database, start: Database, m: int)
    requires
        began_at(t1, &d1, &start),
        0 <= m < 5,
        t2.mark(m) == mark_after(t1.mark(m), log_of(&d1, m).ids.len()),
        log_of(&d1, m).ids.len() <= log_of(&d2, m).ids.len(),
        log_of(&d2, m).ids.len() <= usize::MAX,
        log_of(&d2, m).deleted.len() == log_of(&d2, m).ids.len(),
        state_of(&d2, m).keys.len() == log_of(&d2, m).ids.len(),
        state_of(&d2, m).ords.len() == log_of(&d2, m).ids.len(),
        log_of(&d2, m).ids.take(log_of(&d1, m).ids.len() as int) == log_of(&d1, m).ids,
        log_of(&d2, m).deleted.take(log_of(&d1, m).ids.len() as int) == log_of(&d1, m).deleted,
        state_of(&d2, m).keys.take(log_of(&d1, m).ids.len() as int) == state_of(&d1, m).keys,
        state_of(&d2, m).ords.take(log_of(&d1, m).ids.len() as int) == state_of(&d1, m).ords,
        forall|n: int| 0 <= n < 5 && n != m ==> #[trigger] t2.mark(n) == t1.mark(n) && same_table(&d2, &d1, n),
    ensures
        began_at(t2, &d2, &start),
{
    let n1 = log_of(&d1, m).ids.len() as int;
    assert forall|n: int| 0 <= n < 5 && #[trigger] t2.mark(n) is None implies same_table(&d2, &start, n) by {
        assert(n != m);
        assert(t1.mark(n) is None);
    }
    assert forall|n: int| 0 <= n < 5 && #[trigger] t2.mark(n) is Some implies {
        let k = t2.mark(n)->0 as int;
        &&& k == log_of(&start, n).ids.len()
        &&& k <= log_of(&d2, n).ids.len()
        &&& log_of(&d2, n).ids.take(k) == log_of(&start, n).ids
        &&& log_of(&d2, n).deleted.take(k) == log_of(&start, n).deleted
        &&& state_of(&d2, n).keys.take(k) == state_of(&start, n).keys
        &&& state_of(&d2, n).ords.take(k) == state_of(&start, n).ords
    } by {
        if n == m {
            match t1.mark(m) {
                Some(k) => {
                    assert(k <= n1);
                    assert(log_of(&d2, m).ids.take(k as int) =~= log_of(&d2, m).ids.take(n1).take(k as int));
                    assert(log_of(&d2, m).deleted.take(k as int) =~= log_of(&d2, m).deleted.take(n1).take(k as int));
                    assert(state_of(&d2, m).keys.take(k as int) =~= state_of(&d2, m).keys.take(n1).take(k as int));
                    assert(state_of(&d2, m).ords.take(k as int) =~= state_of(&d2, m).ords.take(n1).take(k as int));
                },
                None => {
                    assert(same_table(&d1, &start, m));
                    assert(log_of(&d1, m) == log_of(&start, m));
                    assert(state_of(&d1, m) == state_of(&start, m));
                },
            }
        } else {
            assert(t1.mark(n) is Some);
            assert(same_table(&d2, &d1, n));
            assert(log_of(&d2, n) == log_of(&d1, n));
            assert(state_of(&d2, n) == state_of(&d1, n));
        }
    }
}

/// A transaction that fails leaves the database as it found it: begun on
/// `start` and having only staged rows after its marks since, its rollback
/// gives back every model's rows, tombstones, committed count, keys and
/// ordered values as they were at `start`, so row counts, `all()` and every
/// `get(id)` read as before.
pub proof fn lemma_rollback_restores(start: Database, before: Database, after: Database, t: TxHandle)
    requires
        began_at(t, &before, &start),
        forall|m: int| 0 <= m < 5 ==> rolled_back_model(&after, &before, #[trigger] t.mark(m), m),
    ensures
        forall|m: int| 0 <= m < 5 ==> #[trigger] state_of(&after, m) == state_of(&start, m),
{
    assert forall|m: int| 0 <= m < 5 implies #[trigger] state_of(&after, m) == state_of(&start, m) by {
        assert(rolled_back_model(&after, &before, t.mark(m), m));
        match t.mark(m) {
            Some(k) => {
                assert(k == log_of(&start, m).ids.len());
                assert(log_of(&after, m).ids =~= log_of(&start, m).ids);
                assert(log_of(&after, m).deleted =~= log_of(&start, m).deleted);
                assert(log_of(&after, m).indexed == log_of(&start, m).indexed);
                assert(state_of(&after, m).keys =~= state_of(&start, m).keys);
                assert(state_of(&after, m).ords =~= state_of(&start, m).ords);
                assert(state_of(&after, m).log == state_of(&start, m).log);
            },
            None => {
                assert(same_table(&before, &start, m));
            },
        }
    }
}

} // verus!
