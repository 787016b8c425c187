use vstd::prelude::*;
use crate::paging::{ascending, sort_rows};
use crate::errors::ValidationError;
use crate::maintenance::{Maintenance, MaintenanceAction, bump, noted_write, noted_dead, WAL_CHECKPOINT_INTERVAL,
    COMPACTION_DEAD_THRESHOLD, COMPACTION_DEAD_CEILING_FACTOR};
use crate::model::{ModelCore, CoreView, appended, range_scan, lemma_appended};
use crate::versions::{is_live_row_list, compacted, strictly_sorted};
use crate::ordered::{in_range, sorted_by_pair, sorted_by_pair_desc};
use crate::records::Record;
use crate::txn::StagedKeys;

verus! {

/// What a write did: the row it appended, the record as stored, and the
/// maintenance it asks for.
#[derive(Debug)]
pub struct Written<R> {
    pub row: usize,
    pub record: R,
    pub action: MaintenanceAction,
}

/// The in-memory state of one model's storage: its row log, indexes and
/// maintenance counters, specialised to the model's record type.
pub struct Table<R> {
    core: ModelCore,
    maint: Maintenance,
    _record: std::marker::PhantomData<R>,
}

impl<R: Record> Table<R> {
    pub closed spec fn wf(&self) -> bool {
        &&& self.core.wf()
        &&& self.core.n_indexes() == R::spec_n_keys()
        &&& forall|f: int| 0 <= f < R::spec_n_keys() ==> #[trigger] self.core.is_unique(f) == R::spec_unique(f)
        &&& self.core.ordered_enabled() == R::spec_has_ordered()
    }

    /// The rows, keys and ordered values.
    pub closed spec fn state(&self) -> CoreView {
        self.core@
    }

    /// The checkpoint and compaction counters.
    pub closed spec fn counters(&self) -> Maintenance {
        self.maint
    }

    /// The indexes agree with the live records.
    pub closed spec fn consistent(&self) -> bool {
        self.core.consistent()
    }

    /// Hash index `f` maps `key` to `id`.
    pub closed spec fn index_has(&self, f: int, key: Seq<char>, id: u128) -> bool {
        self.core.index_has(f, key, id)
    }

    /// Some record other than `except` (when given) is stored under `key` in
    /// a unique index `f`.
    pub open spec fn taken(&self, f: int, key: Seq<char>, except: Option<u128>) -> bool {
        exists|x: u128| self.index_has(f, key, x) && except != Some(x)
    }

    /// The first unique index under which the record's key is taken.
    pub open spec fn violates(&self, rec: R, except: Option<u128>, f: int) -> bool {
        &&& 0 <= f < R::spec_n_keys()
        &&& R::spec_unique(f)
        &&& self.taken(f, rec.spec_keys()[f], except)
        &&& forall|g: int| 0 <= g < f && R::spec_unique(g) ==> !self.taken(g, rec.spec_keys()[g], except)
    }

    pub open spec fn violates_any(&self, rec: R, except: Option<u128>) -> bool {
        exists|f: int| self.violates(rec, except, f)
    }

    pub proof fn lemma_wf(&self)
        requires
            self.wf(),
        ensures
            self.state().log.ids.len() == self.state().log.deleted.len(),
            self.state().log.ids.len() <= usize::MAX,
            self.state().log.indexed <= self.state().log.ids.len(),
            self.state().keys.len() == self.state().log.ids.len(),
            self.state().ords.len() == self.state().log.ids.len(),
            forall|r: int| 0 <= r < self.state().keys.len() ==> (#[trigger] self.state().keys[r]).len() == R::spec_n_keys(),
            R::spec_n_keys() <= 2,
    {
        self.core.lemma_wf();
    }

    /// In a consistent table, hash index `f` holds exactly each live record
    /// under its key, and the ordered index each live record under its value.
    pub proof fn lemma_consistent(&self)
        requires
            self.wf(),
            self.consistent(),
        ensures
            forall|f: int, key: Seq<char>, id: u128| 0 <= f < 2 ==> (#[trigger] self.index_has(f, key, id) <==> f
                < R::spec_n_keys() && self.state().indexed_under(f, key, id)),
            forall|value: u64, id: u128| #[trigger] self.ordered_has(value, id) <==> R::spec_has_ordered()
                && self.state().log.is_live(id) && self.state().ord_of(id) == value,
    {
        self.core.lemma_consistent();
    }

    /// An empty table.
    pub fn new() -> (t: Self)
        ensures
            t.wf(),
            t.consistent(),
            t.state().log.ids.len() == 0,
            t.state().log.indexed == 0,
            t.counters() == (Maintenance {
                writes_since_checkpoint: 0,
                dead_since_compaction: 0,
                in_transaction: false,
                checkpoint_deferred: false,
                compact_deferred: false,
                compaction_due: false,
            }),
    {
        let n = R::n_keys();
        let u0 = R::unique_index(0);
        let u1 = R::unique_index(1);
        let o = R::has_ordered();
        Table { core: ModelCore::new(n, u0, u1, o), maint: Maintenance::new(), _record: std::marker::PhantomData }
    }

    /// The model's core state.
    pub fn model(&self) -> (c: &ModelCore)
        ensures
            c@ == self.state(),
            self.wf() ==> c.wf(),
            self.consistent() == c.consistent(),
            forall|f: int, k: Seq<char>, x: u128| #[trigger] c.index_has(f, k, x) == self.index_has(f, k, x),
    {
        &self.core
    }

    /// The checkpoint and compaction counters.
    pub fn counters_now(&self) -> (m: Maintenance)
        ensures
            m == self.counters(),
    {
        self.maint
    }

    fn unique_violation(&self, keys: &Vec<String>, except: Option<u128>, rec: Ghost<R>) -> (r: Option<usize>)
        requires
            self.wf(),
            keys@.len() == R::spec_n_keys(),
            rec@.spec_keys().len() == R::spec_n_keys(),
            forall|i: int| 0 <= i < keys@.len() ==> (#[trigger] keys@[i])@ == rec@.spec_keys()[i],
        ensures
            match r {
                Some(f) => self.violates(rec@, except, f as int),
                None => !self.violates_any(rec@, except),
            },
    {
        let r = match except {
            None => self.core.unique_violation_insert(keys),
            Some(id) => self.core.unique_violation_update(id, keys),
        };
        proof {
            self.core.lemma_wf();
            let n = R::spec_n_keys();
            let ks = rec@.spec_keys();
            match r {
                Some(f) => {
                    assert(self.core.is_unique(f as int) == R::spec_unique(f as int));
                    assert(keys@[f as int]@ == ks[f as int]);
                    match except {
                        None => {
                            let x = choose|x: u128| self.core.index_has(f as int, keys@[f as int]@, x);
                            assert(self.index_has(f as int, ks[f as int], x) && except != Some(x));
                        },
                        Some(id) => {
                            let x = choose|x: u128| self.core.index_has(f as int, keys@[f as int]@, x) && x != id;
                            assert(self.index_has(f as int, ks[f as int], x) && except != Some(x));
                        },
                    }
                    assert(self.taken(f as int, ks[f as int], except));
                    if f == 1 {
                        assert(self.core.is_unique(0) == R::spec_unique(0));
                        assert(keys@[0]@ == ks[0]);
                        assert forall|g: int| 0 <= g < f && R::spec_unique(g) implies !self.taken(g, ks[g], except) by {
                            assert(g == 0);
                            if self.taken(0, ks[0], except) {
                                let x = choose|x: u128| self.index_has(0, ks[0], x) && except != Some(x);
                                assert(self.core.index_has(0, keys@[0]@, x));
                            }
                        }
                    }
                    assert forall|g: int| 0 <= g < f && R::spec_unique(g) implies !self.taken(g, ks[g], except) by {
                        assert(f == 1 && g == 0);
                    }
                    assert(self.violates(rec@, except, f as int));
                },
                None => {
                    assert forall|f: int| !self.violates(rec@, except, f) by {
                        if 0 <= f < n && R::spec_unique(f) {
                            assert(self.core.is_unique(f) == R::spec_unique(f));
                            assert(keys@[f]@ == ks[f]);
                        }
                    }
                },
            }
        }
        r
    }

    /// Writes a new record: normalises its timestamps, checks its
    /// constraints and unique fields, then appends it and indexes it.
    pub fn insert(&mut self, rec: R) -> (r: Result<Written<R>, ValidationError>)
        requires
            old(self).wf(),
            rec.spec_writable(),
            old(self).state().log.indexed == old(self).state().log.ids.len(),
            old(self).state().log.ids.len() < usize::MAX,
        ensures
            final(self).wf(),
            ({
                let n = rec.spec_normalized();
                match r {
                    Err(e) => {
                        &&& *final(self) == *old(self)
                        &&& (!n.spec_valid() && n.spec_rejects(e)) || (n.spec_valid() && exists|f: int|
                                old(self).violates(n, None, f) && R::spec_unique_error(f, e))
                    },
                    Ok(w) => {
                        &&& w.record == n
                        &&& n.spec_valid()
                        &&& !old(self).violates_any(n, None)
                        &&& w.row == old(self).state().log.ids.len()
                        &&& final(self).state() == appended(old(self).state(), n.spec_id(), false, n.spec_keys(), n.spec_ord())
                        &&& old(self).consistent() && !old(self).state().log.is_live(n.spec_id()) ==> final(self).consistent()
                        &&& w.action.checkpoint == (bump(old(self).counters().writes_since_checkpoint) >= WAL_CHECKPOINT_INTERVAL
                                && !old(self).counters().in_transaction)
                        &&& !w.action.compact
                        &&& final(self).counters().writes_since_checkpoint == bump(old(self).counters().writes_since_checkpoint)
                        &&& final(self).counters() == noted_write(old(self).counters())
                    },
                }
            }),
    {
        let rec = rec.normalize();
        match rec.check() {
            Err(e) => return Err(e),
            Ok(()) => {},
        }
        let keys = rec.index_keys();
        match self.unique_violation(&keys, None, Ghost(rec)) {
            Some(f) => {
                return Err(R::unique_error(f));
            },
            None => {},
        }
        let id = rec.record_id();
        let ord = rec.ord_value();
        proof {
            assert(Seq::new(keys@.len(), |f: int| keys@[f]@) =~= rec.spec_keys());
        }
        let row = self.core.apply_insert(id, keys, ord);
        let action = self.maint.after_insert();
        Ok(Written { row, record: rec, action })
    }

    /// Writes a new version of record `id`: `None` when `id` was
    /// never written; otherwise normalises, checks constraints and unique
    /// fields (ignoring `id`'s own keys), then appends and re-indexes.
    pub fn update(&mut self, id: u128, rec: R) -> (r: Result<Option<Written<R>>, ValidationError>)
        requires
            old(self).wf(),
            rec.spec_writable(),
            old(self).state().log.indexed == old(self).state().log.ids.len(),
            old(self).state().log.ids.len() < usize::MAX,
        ensures
            final(self).wf(),
            ({
                let n = rec.spec_normalized();
                match r {
                    Ok(None) => *final(self) == *old(self) && old(self).state().log.latest_row(id) is None,
                    Err(e) => {
                        &&& *final(self) == *old(self)
                        &&& old(self).state().log.latest_row(id) is Some
                        &&& (!n.spec_valid() && n.spec_rejects(e)) || (n.spec_valid() && exists|f: int|
                                old(self).violates(n, Some(id), f) && R::spec_unique_error(f, e))
                    },
                    Ok(Some(w)) => {
                        &&& old(self).state().log.latest_row(id) is Some
                        &&& w.record == n
                        &&& n.spec_valid()
                        &&& !old(self).violates_any(n, Some(id))
                        &&& w.row == old(self).state().log.ids.len()
                        &&& final(self).state() == appended(old(self).state(), id, false, n.spec_keys(), n.spec_ord())
                        &&& old(self).consistent() ==> final(self).consistent()
                        &&& final(self).counters().writes_since_checkpoint == bump(old(self).counters().writes_since_checkpoint)
                        &&& final(self).counters().dead_since_compaction == bump(old(self).counters().dead_since_compaction)
                        &&& w.action.compact == (!old(self).counters().in_transaction
                                && bump(old(self).counters().dead_since_compaction) >= COMPACTION_DEAD_THRESHOLD * COMPACTION_DEAD_CEILING_FACTOR)
                        &&& w.action.checkpoint == (bump(old(self).counters().writes_since_checkpoint) >= WAL_CHECKPOINT_INTERVAL
                                && !old(self).counters().in_transaction)
                        &&& final(self).counters() == noted_dead(noted_write(old(self).counters()))
                    },
                }
            }),
    {
        if self.core.log().latest_row(id).is_none() {
            return Ok(None);
        }
        let rec = rec.normalize();
        match rec.check() {
            Err(e) => return Err(e),
            Ok(()) => {},
        }
        let keys = rec.index_keys();
        match self.unique_violation(&keys, Some(id), Ghost(rec)) {
            Some(f) => {
                return Err(R::unique_error(f));
            },
            None => {},
        }
        let ord = rec.ord_value();
        proof {
            assert(Seq::new(keys@.len(), |f: int| keys@[f]@) =~= rec.spec_keys());
        }
        let row = self.core.apply_update(id, keys, ord);
        let action = self.maint.after_replace();
        Ok(Some(Written { row, record: rec, action }))
    }

    /// Deletes the live record `id`: appends a tombstone version
    /// and drops it from the indexes. `None` when `id` has no live record.
    pub fn delete(&mut self, id: u128) -> (r: Option<(usize, MaintenanceAction)>)
        requires
            old(self).wf(),
            old(self).state().log.indexed == old(self).state().log.ids.len(),
            old(self).state().log.ids.len() < usize::MAX,
        ensures
            final(self).wf(),
            match r {
                None => *final(self) == *old(self) && !old(self).state().log.is_live(id),
                Some((row, action)) => {
                    let l = old(self).state().log.latest_row(id)->0 as int;
                    &&& old(self).state().log.is_live(id)
                    &&& row == old(self).state().log.ids.len()
                    &&& final(self).state() == appended(old(self).state(), id, true, old(self).state().keys[l], old(self).state().ords[l])
                    &&& old(self).consistent() ==> final(self).consistent()
                    &&& final(self).counters().dead_since_compaction == bump(old(self).counters().dead_since_compaction)
                    &&& action.compact == (!old(self).counters().in_transaction
                            && bump(old(self).counters().dead_since_compaction) >= COMPACTION_DEAD_THRESHOLD * COMPACTION_DEAD_CEILING_FACTOR)
                    &&& action.checkpoint == (bump(old(self).counters().writes_since_checkpoint) >= WAL_CHECKPOINT_INTERVAL
                            && !old(self).counters().in_transaction)
                    &&& final(self).counters() == noted_dead(noted_write(old(self).counters()))
                },
            },
    {
        match self.core.apply_delete(id) {
            None => None,
            Some(row) => {
                let action = self.maint.after_replace();
                Some((row, action))
            },
        }
    }
}

/// Unique index `f` refuses the transactional write of `n`: its key is
/// taken by another committed record, or already claimed in the
/// transaction (and not `except`'s own committed key), or claimed by an
/// earlier index of the same field.
pub open spec fn clash<R: Record>(t: Table<R>, staged: StagedKeys, n: R, except: Option<u128>, f: int) -> bool {
    &&& 0 <= f < R::spec_n_keys()
    &&& R::spec_unique(f)
    &&& (t.taken_in_tx(f, n.spec_keys()[f], except)
        || (staged.has(R::spec_model(), R::spec_field(f), n.spec_keys()[f]) && !t.owns(f, n.spec_keys()[f], except))
        || exists|h: int| 0 <= h < f && R::spec_unique(h) && R::spec_field(h) == R::spec_field(f)
            && n.spec_keys()[h] == n.spec_keys()[f])
}

/// A transactional write of the normalised record `n` passes its checks:
/// it is valid, and none of its unique keys is taken by another committed
/// record or already claimed in the transaction (unless `except` holds it
/// committed).
pub open spec fn admits<R: Record>(t: Table<R>, staged: StagedKeys, n: R, except: Option<u128>) -> bool {
    &&& n.spec_valid()
    &&& forall|f: int| 0 <= f < R::spec_n_keys() && R::spec_unique(f) ==>
            !t.taken_in_tx(f, n.spec_keys()[f], except)
            && (!staged.has(R::spec_model(), R::spec_field(f), n.spec_keys()[f]) || t.owns(f, n.spec_keys()[f], except))
}

/// `e` is what refuses a transactional write of the normalised record
/// `n`: its validation error, or the uniqueness error of a clashing index.
pub open spec fn refuses<R: Record>(t: Table<R>, staged: StagedKeys, n: R, except: Option<u128>, e: ValidationError) -> bool {
    ||| !n.spec_valid() && n.spec_rejects(e)
    ||| n.spec_valid() && exists|f: int| clash(t, staged, n, except, f) && R::spec_unique_error(f, e)
}

/// `(m, g, k)` is one of the unique keys `rec` claims: its model, the field
/// of a unique index and its key there.
pub open spec fn claims<R: Record>(rec: R, m: Seq<char>, g: Seq<char>, k: Seq<char>) -> bool {
    exists|f: int| 0 <= f < R::spec_n_keys() && R::spec_unique(f) && m == R::spec_model() && g == R::spec_field(f)
        && k == rec.spec_keys()[f]
}

impl<R: Record> Table<R> {
    /// The record a transaction sees for `id`: the latest committed
    /// version, unless a tombstone.
    pub open spec fn tx_visible(&self, id: u128) -> bool {
        self.state().log.is_live(id)
    }

    /// Opens this model in a transaction: returns the row count
    /// to roll back to and defers maintenance until the transaction ends.
    pub fn begin_transaction(&mut self) -> (mark: usize)
        requires
            old(self).wf(),
        ensures
            final(self).wf(),
            mark == old(self).state().log.ids.len(),
            final(self).state() == old(self).state(),
            final(self).consistent() == old(self).consistent(),
            final(self).counters() == (Maintenance { in_transaction: true, ..old(self).counters() }),
            forall|f: int, k: Seq<char>, x: u128| #[trigger] final(self).index_has(f, k, x) == old(self).index_has(f, k, x),
    {
        self.maint.in_transaction = true;
        self.core.log().len()
    }

    /// The unique keys a transactional write claims must be free both in the
    /// committed index (other than `except`'s own) and among the keys the
    /// transaction already claimed; they are claimed in field order.
    fn claim_unique_keys(&self, keys: &Vec<String>, except: Option<u128>, staged: &mut StagedKeys, rec: Ghost<R>)
        -> (r: Option<usize>)
        requires
            self.wf(),
            keys@.len() == R::spec_n_keys(),
            rec@.spec_keys().len() == R::spec_n_keys(),
            forall|i: int| 0 <= i < keys@.len() ==> (#[trigger] keys@[i])@ == rec@.spec_keys()[i],
        ensures
            match r {
                Some(f) => {
                    &&& 0 <= f < R::spec_n_keys()
                    &&& R::spec_unique(f as int)
                    &&& (self.taken_in_tx(f as int, rec@.spec_keys()[f as int], except)
                        || (old(staged).has(R::spec_model(), R::spec_field(f as int), rec@.spec_keys()[f as int])
                            && !self.owns(f as int, rec@.spec_keys()[f as int], except))
                        || exists|h: int| 0 <= h < f && R::spec_unique(h) && R::spec_field(h) == R::spec_field(f as int)
                            && rec@.spec_keys()[h] == rec@.spec_keys()[f as int])
                    &&& forall|m: Seq<char>, g: Seq<char>, k: Seq<char>| old(staged).has(m, g, k) ==> #[trigger] final(staged).has(m, g, k)
                },
                None => {
                    &&& forall|f: int| 0 <= f < R::spec_n_keys() && R::spec_unique(f) ==>
                        !self.taken_in_tx(f, rec@.spec_keys()[f], except)
                        && (!old(staged).has(R::spec_model(), R::spec_field(f), rec@.spec_keys()[f])
                            || self.owns(f, rec@.spec_keys()[f], except))
                    &&& forall|m: Seq<char>, g: Seq<char>, k: Seq<char>| #[trigger] final(staged).has(m, g, k) <==>
                        old(staged).has(m, g, k) || exists|f: int| 0 <= f < R::spec_n_keys() && R::spec_unique(f)
                            && m == R::spec_model() && g == R::spec_field(f) && k == rec@.spec_keys()[f]
                },
            },
    {
        proof {
            self.core.lemma_wf();
        }
        let n = R::n_keys();
        let model = R::model_name();
        let mut f: usize = 0;
        while f < n
            invariant
                self.wf(),
                n == R::spec_n_keys(),
                n <= 2,
                f <= n,
                model@ == R::spec_model(),
                keys@.len() == n,
                rec@.spec_keys().len() == n,
                forall|i: int| 0 <= i < keys@.len() ==> (#[trigger] keys@[i])@ == rec@.spec_keys()[i],
                forall|g: int| 0 <= g < f && R::spec_unique(g) ==>
                    !self.taken_in_tx(g, rec@.spec_keys()[g], except)
                    && (!old(staged).has(R::spec_model(), R::spec_field(g), rec@.spec_keys()[g])
                        || self.owns(g, rec@.spec_keys()[g], except)),
                forall|m: Seq<char>, g: Seq<char>, k: Seq<char>| #[trigger] staged.has(m, g, k) <==>
                    old(staged).has(m, g, k) || exists|h: int| 0 <= h < f && R::spec_unique(h)
                        && m == R::spec_model() && g == R::spec_field(h) && k == rec@.spec_keys()[h],
            decreases n - f,
        {
            if R::unique_index(f) {
                let field = R::index_field(f);
                let taken = self.key_taken(f, keys[f].as_str(), except);
                if taken {
                    proof {
                        assert(keys@[f as int]@ == rec@.spec_keys()[f as int]);
                    }
                    return Some(f);
                }
                let owned = match except {
                    Some(id) => self.model().index_contains(f, keys[f].as_str(), id),
                    None => false,
                };
                if !owned && staged.contains(model, field, keys[f].as_str()) {
                    proof {
                        assert(keys@[f as int]@ == rec@.spec_keys()[f as int]);
                        assert(staged.has(model@, field@, keys@[f as int]@));
                    }
                    return Some(f);
                }
                let ghost before = *staged;
                let k = keys[f].clone();
                staged.insert(model, field, k);
                proof {
                    assert(keys@[f as int]@ == rec@.spec_keys()[f as int]);
                    assert forall|m: Seq<char>, g: Seq<char>, kk: Seq<char>| #[trigger] staged.has(m, g, kk) <==>
                        old(staged).has(m, g, kk) || exists|h: int| 0 <= h < f + 1 && R::spec_unique(h)
                            && m == R::spec_model() && g == R::spec_field(h) && kk == rec@.spec_keys()[h] by {
                        assert(before.has(m, g, kk) <==> old(staged).has(m, g, kk) || exists|h: int| 0 <= h < f && R::spec_unique(h)
                            && m == R::spec_model() && g == R::spec_field(h) && kk == rec@.spec_keys()[h]);
                        if m == model@ && g == field@ && kk == keys@[f as int]@ {
                            assert(0 <= f < f + 1 && R::spec_unique(f as int));
                        }
                    }
                }
            } else {
                proof {
                    assert forall|m: Seq<char>, g: Seq<char>, kk: Seq<char>| #[trigger] staged.has(m, g, kk) <==>
                        old(staged).has(m, g, kk) || exists|h: int| 0 <= h < f + 1 && R::spec_unique(h)
                            && m == R::spec_model() && g == R::spec_field(h) && kk == rec@.spec_keys()[h] by {
                        if exists|h: int| 0 <= h < f + 1 && R::spec_unique(h)
                            && m == R::spec_model() && g == R::spec_field(h) && kk == rec@.spec_keys()[h] {
                            let h = choose|h: int| 0 <= h < f + 1 && R::spec_unique(h)
                                && m == R::spec_model() && g == R::spec_field(h) && kk == rec@.spec_keys()[h];
                            assert(h != f);
                        }
                    }
                }
            }
            f = f + 1;
        }
        None
    }

    /// `except` itself holds `key` under index `f` in the committed index.
    pub open spec fn owns(&self, f: int, key: Seq<char>, except: Option<u128>) -> bool {
        except matches Some(id) && self.index_has(f, key, id)
    }

    /// Under unique index `f`, `key` belongs to a committed record other
    /// than `except` (for an update: one that `except` does not also hold).
    pub open spec fn taken_in_tx(&self, f: int, key: Seq<char>, except: Option<u128>) -> bool {
        match except {
            None => exists|x: u128| self.index_has(f, key, x),
            Some(id) => exists|x: u128| self.index_has(f, key, x) && x != id,
        }
    }

    fn key_taken(&self, f: usize, key: &str, except: Option<u128>) -> (b: bool)
        requires
            self.wf(),
            f < 2,
        ensures
            b == self.taken_in_tx(f as int, key@, except),
    {
        let ids = self.core.ids_for_key(f, key);
        match except {
            None => {
                proof {
                    if ids@.len() > 0 {
                        assert(ids@.contains(ids@[0]));
                        assert(self.index_has(f as int, key@, ids@[0]));
                    }
                    if self.taken_in_tx(f as int, key@, except) {
                        let x = choose|x: u128| self.index_has(f as int, key@, x);
                        assert(ids@.contains(x));
                    }
                }
                ids.len() > 0
            },
            Some(id) => {
                let mut i: usize = 0;
                while i < ids.len()
                    invariant
                        i <= ids@.len(),
                        except == Some(id),
                        forall|x: u128| #[trigger] ids@.contains(x) <==> self.index_has(f as int, key@, x),
                        forall|j: int| 0 <= j < i ==> ids@[j] == id,
                    decreases ids@.len() - i,
                {
                    if ids[i] != id {
                        assert(ids@.contains(ids@[i as int]));
                        assert(self.index_has(f as int, key@, ids@[i as int]) && ids@[i as int] != id);
                        return true;
                    }
                    i = i + 1;
                }
                proof {
                    if self.taken_in_tx(f as int, key@, except) {
                        let x = choose|x: u128| self.index_has(f as int, key@, x) && x != id;
                        assert(ids@.contains(x));
                    }
                }
                false
            },
        }
    }
}

impl<R: Record> Table<R> {
    /// The row `get(id)` reads, if `id` has a live committed record.
    pub fn live_row(&self, id: u128) -> (r: Option<usize>)
        requires
            self.wf(),
        ensures
            match r {
                Some(r) => self.state().log.is_live(id) && self.state().log.latest_row(id) == Some(r as nat),
                None => !self.state().log.is_live(id),
            },
    {
        self.core.log().live_row(id)
    }

    /// Stages a new record in a transaction, once the model is marked:
    /// normalises and checks it, claims its unique keys, and
    /// appends its row without indexing it.
    pub fn tx_insert(&mut self, rec: R, staged: &mut StagedKeys) -> (r: Result<Written<R>, ValidationError>)
        requires
            old(self).wf(),
            rec.spec_writable(),
            old(self).state().log.ids.len() < usize::MAX,
        ensures
            final(self).wf(),
            final(self).counters() == old(self).counters(),
            r is Ok ==> forall|m: Seq<char>, g: Seq<char>, k: Seq<char>| #[trigger] final(staged).has(m, g, k) <==>
                old(staged).has(m, g, k) || claims(rec.spec_normalized(), m, g, k),
            r is Err ==> forall|m: Seq<char>, g: Seq<char>, k: Seq<char>| old(staged).has(m, g, k) ==> #[trigger] final(staged).has(m, g, k),
            ({
                let n = rec.spec_normalized();
                match r {
                    Err(e) => {
                        &&& final(self).state() == old(self).state()
                        &&& (!n.spec_valid() && n.spec_rejects(e)) || (n.spec_valid() && exists|f: int|
                                clash(*old(self), *old(staged), n, None, f) && R::spec_unique_error(f, e))
                    },
                    Ok(w) => {
                        &&& w.record == n
                        &&& n.spec_valid()
                        &&& forall|f: int| 0 <= f < R::spec_n_keys() && R::spec_unique(f) ==>
                                !old(self).taken_in_tx(f, n.spec_keys()[f], None)
                                && !old(staged).has(R::spec_model(), R::spec_field(f), n.spec_keys()[f])
                        &&& w.row == old(self).state().log.ids.len()
                        &&& final(self).state().log.ids == old(self).state().log.ids.push(n.spec_id())
                        &&& final(self).state().log.deleted == old(self).state().log.deleted.push(false)
                        &&& final(self).state().log.indexed == old(self).state().log.indexed
                        &&& final(self).state().keys == old(self).state().keys.push(n.spec_keys())
                        &&& final(self).state().ords == old(self).state().ords.push(n.spec_ord())
                        &&& old(self).consistent() ==> final(self).consistent()
                    },
                }
            }),
    {
        let rec = rec.normalize();
        match rec.check() {
            Err(e) => return Err(e),
            Ok(()) => {},
        }
        let keys = rec.index_keys();
        match self.claim_unique_keys(&keys, None, staged, Ghost(rec)) {
            Some(f) => {
                return Err(R::unique_error(f));
            },
            None => {},
        }
        let id = rec.record_id();
        let ord = rec.ord_value();
        let row = self.core.stage(id, false, keys, ord);
        assert(self.state().keys.last() =~= rec.spec_keys());
        assert(self.state().keys =~= old(self).state().keys.push(rec.spec_keys()));
        Ok(Written { row, record: rec, action: MaintenanceAction { checkpoint: false, compact: false } })
    }

    /// Stages a new version of a record visible to the transaction, once
    /// the model is marked.
    pub fn tx_update(&mut self, id: u128, rec: R, staged: &mut StagedKeys) -> (r: Result<Written<R>, ValidationError>)
        requires
            old(self).wf(),
            rec.spec_writable(),
            old(self).state().log.ids.len() < usize::MAX,
        ensures
            final(self).wf(),
            final(self).counters() == old(self).counters(),
            r is Ok ==> forall|m: Seq<char>, g: Seq<char>, k: Seq<char>| #[trigger] final(staged).has(m, g, k) <==>
                old(staged).has(m, g, k) || claims(rec.spec_normalized(), m, g, k),
            r is Err ==> forall|m: Seq<char>, g: Seq<char>, k: Seq<char>| old(staged).has(m, g, k) ==> #[trigger] final(staged).has(m, g, k),
            ({
                let n = rec.spec_normalized();
                match r {
                    Err(e) => {
                        &&& final(self).state() == old(self).state()
                        &&& (!n.spec_valid() && n.spec_rejects(e)) || (n.spec_valid() && exists|f: int|
                                clash(*old(self), *old(staged), n, Some(id), f) && R::spec_unique_error(f, e))
                    },
                    Ok(w) => {
                        &&& w.record == n
                        &&& n.spec_valid()
                        &&& forall|f: int| 0 <= f < R::spec_n_keys() && R::spec_unique(f) ==>
                                !old(self).taken_in_tx(f, n.spec_keys()[f], Some(id))
                        &&& w.row == old(self).state().log.ids.len()
                        &&& final(self).state().log.ids == old(self).state().log.ids.push(id)
                        &&& final(self).state().log.deleted == old(self).state().log.deleted.push(false)
                        &&& final(self).state().log.indexed == old(self).state().log.indexed
                        &&& final(self).state().keys == old(self).state().keys.push(n.spec_keys())
                        &&& final(self).state().ords == old(self).state().ords.push(n.spec_ord())
                        &&& old(self).consistent() ==> final(self).consistent()
                    },
                }
            }),
    {
        let rec = rec.normalize();
        match rec.check() {
            Err(e) => return Err(e),
            Ok(()) => {},
        }
        let keys = rec.index_keys();
        match self.claim_unique_keys(&keys, Some(id), staged, Ghost(rec)) {
            Some(f) => {
                return Err(R::unique_error(f));
            },
            None => {},
        }
        let ord = rec.ord_value();
        let row = self.core.stage(id, false, keys, ord);
        assert(self.state().keys.last() =~= rec.spec_keys());
        assert(self.state().keys =~= old(self).state().keys.push(rec.spec_keys()));
        Ok(Written { row, record: rec, action: MaintenanceAction { checkpoint: false, compact: false } })
    }

    /// Stages a tombstone for `record`, carrying the
    /// record's keys.
    pub fn tx_delete(&mut self, id: u128, record: &R) -> (row: usize)
        requires
            old(self).wf(),
            old(self).state().log.ids.len() < usize::MAX,
        ensures
            final(self).wf(),
            final(self).counters() == old(self).counters(),
            row == old(self).state().log.ids.len(),
            final(self).state().log.ids == old(self).state().log.ids.push(id),
            final(self).state().log.deleted == old(self).state().log.deleted.push(true),
            final(self).state().log.indexed == old(self).state().log.indexed,
            final(self).state().keys == old(self).state().keys.push(record.spec_keys()),
            final(self).state().ords == old(self).state().ords.push(record.spec_ord()),
            old(self).consistent() ==> final(self).consistent(),
    {
        let keys = record.index_keys();
        let ord = record.ord_value();
        let row = self.core.stage(id, true, keys, ord);
        assert(self.state().keys.last() =~= record.spec_keys());
        assert(self.state().keys =~= old(self).state().keys.push(record.spec_keys()));
        row
    }

    /// Stages a tombstone for `id` carrying its latest committed record's
    /// keys (a transactional delete of a record the transaction sees).
    pub fn tx_delete_latest(&mut self, id: u128) -> (row: usize)
        requires
            old(self).wf(),
            old(self).state().log.ids.len() < usize::MAX,
            old(self).state().log.latest_row(id) is Some,
        ensures
            final(self).wf(),
            final(self).counters() == old(self).counters(),
            row == old(self).state().log.ids.len(),
            final(self).state().log.ids == old(self).state().log.ids.push(id),
            final(self).state().log.deleted == old(self).state().log.deleted.push(true),
            final(self).state().log.indexed == old(self).state().log.indexed,
            final(self).state().keys == old(self).state().keys.push(old(self).state().key_row(id)),
            final(self).state().ords == old(self).state().ords.push(old(self).state().ord_of(id)),
            forall|x: u128| #[trigger] final(self).state().log.is_live(x) == old(self).state().log.is_live(x),
            old(self).consistent() ==> final(self).consistent(),
    {
        let ghost before = self.core;
        let row = self.core.stage_tombstone(id);
        proof {
            self.core.lemma_same_config(&before);
        }
        row
    }

    /// Stages a row for `id` that carries the keys of row `r` (a buffered
    /// delete of a record read from row `r`).
    pub fn stage_copy(&mut self, id: u128, deleted: bool, r: usize) -> (row: usize)
        requires
            old(self).wf(),
            old(self).state().log.ids.len() < usize::MAX,
            r < old(self).state().log.ids.len(),
        ensures
            final(self).wf(),
            final(self).counters() == old(self).counters(),
            row == old(self).state().log.ids.len(),
            final(self).state().log.ids == old(self).state().log.ids.push(id),
            final(self).state().log.deleted == old(self).state().log.deleted.push(deleted),
            final(self).state().log.indexed == old(self).state().log.indexed,
            final(self).state().keys == old(self).state().keys.push(old(self).state().keys[r as int]),
            final(self).state().ords == old(self).state().ords.push(old(self).state().ords[r as int]),
            old(self).consistent() ==> final(self).consistent(),
    {
        let ghost before = self.core;
        let row = self.core.stage_copy(id, deleted, r);
        proof {
            self.core.lemma_same_config(&before);
        }
        row
    }

    /// Checks a record a buffered transaction writes, without staging it:
    /// normalises it, checks its constraints and claims its unique keys
    /// (`except`'s own excepted); returns the record as it would be stored.
    pub fn tx_check(&self, rec: R, except: Option<u128>, staged: &mut StagedKeys) -> (r: Result<R, ValidationError>)
        requires
            self.wf(),
            rec.spec_writable(),
        ensures
            ({
                let n = rec.spec_normalized();
                match r {
                    Err(e) => {
                        &&& refuses(*self, *old(staged), n, except, e)
                        &&& forall|m: Seq<char>, g: Seq<char>, k: Seq<char>| old(staged).has(m, g, k) ==> #[trigger] final(staged).has(m, g, k)
                    },
                    Ok(x) => {
                        &&& x == n
                        &&& admits(*self, *old(staged), n, except)
                        &&& forall|m: Seq<char>, g: Seq<char>, k: Seq<char>| #[trigger] final(staged).has(m, g, k) <==>
                                old(staged).has(m, g, k) || claims(n, m, g, k)
                    },
                }
            }),
    {
        let rec = rec.normalize();
        match rec.check() {
            Err(e) => return Err(e),
            Ok(()) => {},
        }
        let keys = rec.index_keys();
        match self.claim_unique_keys(&keys, except, staged, Ghost(rec)) {
            Some(f) => Err(R::unique_error(f)),
            None => Ok(rec),
        }
    }

    /// Ends this model's part of a committed transaction: its staged rows
    /// become committed and indexed, and deferred maintenance is returned.
    pub fn commit_transaction(&mut self) -> (a: MaintenanceAction)
        requires
            old(self).wf(),
        ensures
            final(self).wf(),
            final(self).consistent(),
            final(self).state().log.ids == old(self).state().log.ids,
            final(self).state().log.deleted == old(self).state().log.deleted,
            final(self).state().log.indexed == final(self).state().log.ids.len(),
            final(self).state().keys == old(self).state().keys,
            final(self).state().ords == old(self).state().ords,
            !final(self).counters().in_transaction,
            a.compact == old(self).counters().compact_deferred,
            a.checkpoint == (!old(self).counters().compact_deferred && old(self).counters().checkpoint_deferred),
    {
        let ghost before = self.core;
        self.core.reindex_committed();
        proof {
            self.core.lemma_same_config(&before);
        }
        self.maint.in_transaction = false;
        self.maint.run_deferred()
    }

    /// Ends this model's part of a rolled-back transaction: rows past `mark`
    /// are dropped, and deferred maintenance is returned.
    pub fn rollback_transaction(&mut self, mark: usize) -> (a: MaintenanceAction)
        requires
            old(self).wf(),
            old(self).state().log.indexed <= mark <= old(self).state().log.ids.len(),
        ensures
            final(self).wf(),
            final(self).state().log.ids == old(self).state().log.ids.take(mark as int),
            final(self).state().log.deleted == old(self).state().log.deleted.take(mark as int),
            final(self).state().log.indexed == old(self).state().log.indexed,
            final(self).state().keys == old(self).state().keys.take(mark as int),
            final(self).state().ords == old(self).state().ords.take(mark as int),
            old(self).consistent() ==> final(self).consistent(),
            !final(self).counters().in_transaction,
            a.compact == old(self).counters().compact_deferred,
            a.checkpoint == (!old(self).counters().compact_deferred && old(self).counters().checkpoint_deferred),
    {
        let ghost before = self.core;
        self.core.truncate_to(mark);
        proof {
            self.core.lemma_same_config(&before);
        }
        self.maint.in_transaction = false;
        self.maint.run_deferred()
    }
}

impl<R: Record> Table<R> {
    /// The ordered index holds `(value, id)`.
    pub closed spec fn ordered_has(&self, value: u64, id: u128) -> bool {
        self.core.ordered_has(value, id)
    }

    /// The version of `id` visible at row count `w`.
    pub fn row_at(&self, w: usize, id: u128) -> (r: Option<usize>)
        requires
            self.wf(),
        ensures
            match r {
                Some(r) => self.state().log.row_at(w as nat, id) == Some(r as nat),
                None => self.state().log.row_at(w as nat, id) is None,
            },
    {
        self.core.log().row_at(w, id)
    }

    /// Whether row `r` is a tombstone (rows past the end count as deleted).
    pub fn is_deleted(&self, r: usize) -> (d: bool)
        requires
            self.wf(),
        ensures
            d == (r >= self.state().log.ids.len() || self.state().log.deleted[r as int]),
    {
        self.core.log().is_deleted(r)
    }

    /// The id stored at row `r`.
    pub fn id_at(&self, r: usize) -> (id: u128)
        requires
            self.wf(),
            r < self.state().log.ids.len(),
        ensures
            id == self.state().log.ids[r as int],
    {
        self.core.log().id_at(r)
    }

    /// Number of rows.
    pub fn row_count(&self) -> (n: usize)
        requires
            self.wf(),
        ensures
            n == self.state().log.ids.len(),
    {
        self.core.log().len()
    }

    /// The ordered value stored with row `r` (a post's views, a metric's
    /// device).
    pub fn ord_at(&self, r: usize) -> (v: u64)
        requires
            self.wf(),
            r < self.state().log.ids.len(),
        ensures
            v == self.state().ords[r as int],
    {
        self.core.ord_at(r)
    }

    /// Every live row, ascending: what compaction keeps, and the rows of
    /// unfiltered scans and pages.
    pub fn live_rows(&self) -> (out: Vec<usize>)
        requires
            self.wf(),
        ensures
            is_live_row_list(self.state().log, out@),
    {
        self.core.live_rows()
    }

    /// The rows a scan or a page reads: the selection given, ascending, or
    /// else every live row.
    pub fn scan_rows(&self, sel: Option<Vec<usize>>) -> (out: Vec<usize>)
        requires
            self.wf(),
        ensures
            match sel {
                Some(c) => ascending(out@) && out@.to_multiset() == c@.to_multiset(),
                None => is_live_row_list(self.state().log, out@),
            },
    {
        match sel {
            Some(c) => sort_rows(c),
            None => self.core.live_rows(),
        }
    }

    /// The rows live at a snapshot taken at row count `w`, ascending.
    pub fn live_rows_at(&self, w: usize) -> (out: Vec<usize>)
        requires
            self.wf(),
        ensures
            strictly_sorted(out@),
            forall|x: usize| #[trigger] out@.contains(x) <==> {
                &&& x < self.state().log.indexed
                &&& x < w
                &&& self.state().log.row_at(w as nat, self.state().log.ids[x as int]) == Some(x as nat)
                &&& !self.state().log.deleted[x as int]
            },
    {
        self.core.log().live_rows_at(w)
    }

    /// The live rows under `key` in hash index `f`.
    pub fn rows_for_key(&self, f: usize, key: &str) -> (out: Vec<usize>)
        requires
            self.wf(),
            f < R::spec_n_keys(),
        ensures
            forall|i: int| 0 <= i < out@.len() ==> {
                let r = #[trigger] out@[i] as int;
                &&& r < self.state().log.indexed
                &&& self.state().log.is_live_row(r)
                &&& self.index_has(f as int, key@, self.state().log.ids[r])
            },
            forall|x: u128| self.index_has(f as int, key@, x) && self.state().log.is_live(x) ==>
                #[trigger] out@.contains(self.state().log.latest_row(x)->0 as usize),
            self.consistent() ==> forall|x: u128| #[trigger] self.state().indexed_under(f as int, key@, x) ==>
                out@.contains(self.state().log.latest_row(x)->0 as usize),
            self.consistent() ==> forall|i: int| 0 <= i < out@.len() ==>
                self.state().indexed_under(f as int, key@, self.state().log.ids[#[trigger] out@[i] as int]),
            forall|i: int, j: int| 0 <= i < j < out@.len() ==> #[trigger] out@[i] != #[trigger] out@[j],
    {
        proof {
            self.core.lemma_wf();
        }
        self.core.rows_for_key(f, key)
    }

    /// The rows a snapshot at row count `w` sees under `key` in hash index
    /// `f`.
    pub fn rows_for_key_at(&self, f: usize, key: &str, w: usize) -> (out: Vec<usize>)
        requires
            self.wf(),
            f < R::spec_n_keys(),
        ensures
            forall|i: int| 0 <= i < out@.len() ==> {
                let r = #[trigger] out@[i] as int;
                &&& r < self.state().log.ids.len()
                &&& self.state().log.row_at(w as nat, self.state().log.ids[r]) == Some(r as nat)
                &&& self.index_has(f as int, key@, self.state().log.ids[r])
                &&& !self.state().log.deleted[r]
                &&& self.state().keys[r][f as int] == key@
            },
            forall|x: u128| self.index_has(f as int, key@, x) && (self.state().log.row_at(w as nat, x) matches Some(r)
                && !self.state().log.deleted[r as int] && self.state().keys[r as int][f as int] == key@) ==>
                #[trigger] out@.contains(self.state().log.row_at(w as nat, x)->0 as usize),
            forall|i: int, j: int| 0 <= i < j < out@.len() ==> #[trigger] out@[i] != #[trigger] out@[j],
    {
        self.core.rows_for_key_at(f, key, w)
    }

    /// The rows of a range scan over the ordered index.
    pub fn range_rows(&self, lo: Option<u64>, hi: Option<u64>, descending: bool, limit: Option<usize>) -> (out: Vec<usize>)
        requires
            self.wf(),
        ensures
            exists|p: Seq<(u64, u128)>| {
                &&& (if descending { sorted_by_pair_desc(p) } else { sorted_by_pair(p) })
                &&& (forall|q: (u64, u128)| #[trigger] p.contains(q) <==> self.ordered_has(q.0, q.1) && in_range(q.0, lo, hi))
                &&& out@ == range_scan(self.state().log, p, p.len(), limit)
            },
    {
        self.core.range_rows(lo, hi, descending, limit)
    }

    /// Appends a row read back from disk, unindexed (the first step of
    /// opening a model: every stored row is loaded, then indexed).
    pub fn load_row(&mut self, id: u128, deleted: bool, record: &R) -> (row: usize)
        requires
            old(self).wf(),
            old(self).state().log.ids.len() < usize::MAX,
        ensures
            final(self).wf(),
            final(self).counters() == old(self).counters(),
            row == old(self).state().log.ids.len(),
            final(self).state().log.ids == old(self).state().log.ids.push(id),
            final(self).state().log.deleted == old(self).state().log.deleted.push(deleted),
            final(self).state().log.indexed == old(self).state().log.indexed,
            final(self).state().keys == old(self).state().keys.push(record.spec_keys()),
            final(self).state().ords == old(self).state().ords.push(record.spec_ord()),
            old(self).consistent() ==> final(self).consistent(),
    {
        let keys = record.index_keys();
        let ord = record.ord_value();
        let row = self.core.stage(id, deleted, keys, ord);
        assert(self.state().keys.last() =~= record.spec_keys());
        assert(self.state().keys =~= old(self).state().keys.push(record.spec_keys()));
        row
    }

    /// Rebuilds the lookups and indexes over every row.
    pub fn reindex_committed(&mut self)
        requires
            old(self).wf(),
        ensures
            final(self).wf(),
            final(self).consistent(),
            final(self).counters() == old(self).counters(),
            final(self).state().log.ids == old(self).state().log.ids,
            final(self).state().log.deleted == old(self).state().log.deleted,
            final(self).state().log.indexed == final(self).state().log.ids.len(),
            final(self).state().keys == old(self).state().keys,
            final(self).state().ords == old(self).state().ords,
    {
        let ghost before = self.core;
        self.core.reindex_committed();
        proof {
            self.core.lemma_same_config(&before);
        }
    }

    /// Folds rows appended by another writer into the lookups and indexes.
    pub fn index_pending(&mut self)
        requires
            old(self).wf(),
        ensures
            final(self).wf(),
            final(self).counters() == old(self).counters(),
            final(self).state().log.ids == old(self).state().log.ids,
            final(self).state().log.deleted == old(self).state().log.deleted,
            final(self).state().log.indexed == final(self).state().log.ids.len(),
            final(self).state().keys == old(self).state().keys,
            final(self).state().ords == old(self).state().ords,
            old(self).consistent() ==> final(self).consistent(),
    {
        let ghost before = self.core;
        self.core.index_pending();
        proof {
            self.core.lemma_same_config(&before);
        }
    }

    /// Recovery to a transaction journal's committed row count: rows past it are dropped and everything
    /// is re-indexed; nothing happens when no row lies past it.
    pub fn recover_to_committed(&mut self, committed_len: usize)
        requires
            old(self).wf(),
        ensures
            final(self).wf(),
            final(self).counters() == old(self).counters(),
            committed_len >= old(self).state().log.ids.len() ==> *final(self) == *old(self),
            committed_len < old(self).state().log.ids.len() ==> {
                &&& final(self).state().log.ids == old(self).state().log.ids.take(committed_len as int)
                &&& final(self).state().log.deleted == old(self).state().log.deleted.take(committed_len as int)
                &&& final(self).state().log.indexed == committed_len
                &&& final(self).state().keys == old(self).state().keys.take(committed_len as int)
                &&& final(self).state().ords == old(self).state().ords.take(committed_len as int)
                &&& final(self).consistent()
            },
    {
        if committed_len >= self.core.log().len() {
            return;
        }
        let ghost before = self.core;
        self.core.truncate_to(committed_len);
        let ghost mid = self.core;
        self.core.reindex_committed();
        proof {
            self.core.lemma_same_config(&mid);
            mid.lemma_same_config(&before);
        }
    }

    /// Asks for a compaction; it runs only outside a
    /// transaction (inside one it is deferred).
    pub fn request_compaction(&mut self) -> (run: bool)
        requires
            old(self).wf(),
        ensures
            final(self).wf(),
            final(self).state() == old(self).state(),
            final(self).consistent() == old(self).consistent(),
            run == !old(self).counters().in_transaction,
            final(self).counters() == (if old(self).counters().in_transaction {
                Maintenance { compact_deferred: true, ..old(self).counters() }
            } else {
                old(self).counters()
            }),
    {
        self.maint.request_compaction()
    }

    /// After the compactor rewrote the model's files to keep exactly `keep`
    /// (the live rows, ascending), the rows become those and the indexes
    /// stay.
    pub fn compact_to(&mut self, keep: &Vec<usize>)
        requires
            old(self).wf(),
            old(self).state().log.indexed == old(self).state().log.ids.len(),
            is_live_row_list(old(self).state().log, keep@),
        ensures
            final(self).wf(),
            final(self).counters() == old(self).counters(),
            final(self).state().log == compacted(old(self).state().log, keep@),
            final(self).state().keys == Seq::new(keep@.len(), |k: int| old(self).state().keys[keep@[k] as int]),
            final(self).state().ords == Seq::new(keep@.len(), |k: int| old(self).state().ords[keep@[k] as int]),
            old(self).consistent() ==> final(self).consistent(),
    {
        let ghost before = self.core;
        self.core.compact_to(keep);
        proof {
            self.core.lemma_same_config(&before);
        }
    }

    /// Compacts the model when it may: inside a transaction the compaction
    /// is deferred and nothing else happens; otherwise, with every row
    /// committed, the rows become the live rows (returned, ascending, for the
    /// stored rows to be rewritten to them) and the compaction counters
    /// restart.
    pub fn compact(&mut self) -> (keep: Option<Vec<usize>>)
        requires
            old(self).wf(),
        ensures
            final(self).wf(),
            old(self).counters().in_transaction ==> keep is None && final(self).state() == old(self).state()
                && final(self).counters() == (Maintenance { compact_deferred: true, ..old(self).counters() }),
            !old(self).counters().in_transaction ==> final(self).counters() == (Maintenance {
                dead_since_compaction: 0,
                compaction_due: false,
                ..old(self).counters()
            }),
            !old(self).counters().in_transaction && old(self).state().log.indexed == old(self).state().log.ids.len()
                ==> (keep matches Some(k) && is_live_row_list(old(self).state().log, k@)
                && final(self).state().log == compacted(old(self).state().log, k@)
                && final(self).state().keys == Seq::new(k@.len(), |i: int| old(self).state().keys[k@[i] as int])
                && final(self).state().ords == Seq::new(k@.len(), |i: int| old(self).state().ords[k@[i] as int])),
            !old(self).counters().in_transaction && old(self).state().log.indexed != old(self).state().log.ids.len()
                ==> keep is None && final(self).state() == old(self).state(),
            old(self).consistent() ==> final(self).consistent(),
    {
        if !self.request_compaction() {
            return None;
        }
        if self.core.log().indexed_len() != self.core.log().len() {
            self.compaction_done();
            return None;
        }
        let keep = self.live_rows();
        self.compact_to(&keep);
        self.compaction_done();
        Some(keep)
    }

    /// A compaction attempt ended (whether or not the compactor succeeded).
    pub fn compaction_done(&mut self)
        ensures
            final(self).state() == old(self).state(),
            old(self).wf() ==> final(self).wf(),
            final(self).consistent() == old(self).consistent(),
            final(self).counters() == (Maintenance { dead_since_compaction: 0, compaction_due: false, ..old(self).counters() }),
    {
        self.maint.compaction_done();
    }

    /// A checkpoint finished.
    pub fn checkpoint_done(&mut self)
        ensures
            final(self).state() == old(self).state(),
            old(self).wf() ==> final(self).wf(),
            final(self).consistent() == old(self).consistent(),
            final(self).counters() == (Maintenance { writes_since_checkpoint: 0, ..old(self).counters() }),
    {
        self.maint.checkpoint_done();
    }

    /// Whether a due compaction should run now.
    pub fn maintain(&mut self) -> (compact: bool)
        ensures
            final(self).state() == old(self).state(),
            old(self).wf() ==> final(self).wf(),
            final(self).consistent() == old(self).consistent(),
            compact == (old(self).counters().compaction_due && !old(self).counters().in_transaction),
    {
        self.maint.maintain()
    }
}

/// No two live records of `t` share a key under a unique index.
pub open spec fn unique_holds<R: Record>(t: Table<R>) -> bool {
    forall|f: int, x: u128, y: u128|
        0 <= f < R::spec_n_keys() && R::spec_unique(f) && t.state().log.is_live(x)
            && t.state().log.is_live(y) && #[trigger] t.state().key_of(x, f) == #[trigger] t.state().key_of(y, f) ==> x == y
}

/// A key taken under a unique index means a violation at that index or an
/// earlier one.
proof fn lemma_taken_violates<R: Record>(t: Table<R>, rec: R, except: Option<u128>, f: int)
    requires
        t.wf(),
        0 <= f < R::spec_n_keys(),
        R::spec_unique(f),
        t.taken(f, rec.spec_keys()[f], except),
    ensures
        t.violates_any(rec, except),
{
    t.lemma_wf();
    if f == 0 || !(R::spec_unique(0) && t.taken(0, rec.spec_keys()[0], except)) {
        assert forall|g: int| 0 <= g < f && R::spec_unique(g) implies !t.taken(g, rec.spec_keys()[g], except) by {
            assert(g == 0);
        }
        assert(t.violates(rec, except, f));
    } else {
        assert(t.violates(rec, except, 0));
    }
}

/// Writing a record that passed the unique checks keeps unique keys unique:
/// a write of `rec` (a new record when `except` is `None`, else a new
/// version of `except`) that no unique index refused leaves no two live
/// records sharing a unique key.
pub proof fn lemma_write_keeps_unique<R: Record>(old: Table<R>, new: Table<R>, rec: R, except: Option<u128>)
    requires
        old.wf(),
        old.consistent(),
        unique_holds(old),
        old.state().log.indexed == old.state().log.ids.len(),
        rec.spec_keys().len() == R::spec_n_keys(),
        !old.violates_any(rec, except),
        except is None ==> !old.state().log.is_live(rec.spec_id()),
        except matches Some(id) ==> id == rec.spec_id(),
        new.state() == appended(old.state(), rec.spec_id(), false, rec.spec_keys(), rec.spec_ord()),
    ensures
        unique_holds(new),
{
    old.lemma_wf();
    old.lemma_consistent();
    let id = rec.spec_id();
    assert forall|f: int, x: u128, y: u128|
        0 <= f < R::spec_n_keys() && R::spec_unique(f) && new.state().log.is_live(x)
            && new.state().log.is_live(y) && #[trigger] new.state().key_of(x, f) == #[trigger] new.state().key_of(y, f) implies x == y by {
        lemma_appended(old.state(), id, false, rec.spec_keys(), rec.spec_ord(), x);
        lemma_appended(old.state(), id, false, rec.spec_keys(), rec.spec_ord(), y);
        if x != id && y != id {
            assert(old.state().log.is_live(x) && old.state().log.is_live(y));
        } else if x == id && y != id {
            assert(old.state().indexed_under(f, rec.spec_keys()[f], y));
            assert(old.index_has(f, rec.spec_keys()[f], y));
            assert(except != Some(y));
            assert(old.taken(f, rec.spec_keys()[f], except));
            lemma_taken_violates(old, rec, except, f);
        } else if x != id && y == id {
            assert(old.state().indexed_under(f, rec.spec_keys()[f], x));
            assert(old.index_has(f, rec.spec_keys()[f], x));
            assert(except != Some(x));
            assert(old.taken(f, rec.spec_keys()[f], except));
            lemma_taken_violates(old, rec, except, f);
        }
    }
}

/// A written record is read back: after a write of `id`, its latest row is
/// the new one, live unless the write was a delete; every other id reads as
/// before.
pub proof fn lemma_read_your_write(old: CoreView, id: u128, deleted: bool, keys: Seq<Seq<char>>, ord: u64, x: u128)
    requires
        old.log.indexed == old.log.ids.len(),
        old.log.ids.len() == old.log.deleted.len(),
        old.keys.len() == old.log.ids.len(),
        old.ords.len() == old.log.ids.len(),
    ensures
        x == id ==> appended(old, id, deleted, keys, ord).log.latest_row(x) == Some(old.log.ids.len())
            && appended(old, id, deleted, keys, ord).log.is_live(x) == !deleted,
        x != id ==> appended(old, id, deleted, keys, ord).log.latest_row(x) == old.log.latest_row(x)
            && appended(old, id, deleted, keys, ord).log.is_live(x) == old.log.is_live(x),
{
    lemma_appended(old, id, deleted, keys, ord, x);
}

/// A snapshot taken at row count `w` keeps reading the same version of
/// every id however many rows are written after it.
pub proof fn lemma_snapshot_stable(old: CoreView, id: u128, deleted: bool, keys: Seq<Seq<char>>, ord: u64, w: nat, x: u128)
    requires
        old.log.indexed == old.log.ids.len(),
        w <= old.log.ids.len(),
    ensures
        appended(old, id, deleted, keys, ord).log.row_at(w, x) == old.log.row_at(w, x),
{
    let new = appended(old, id, deleted, keys, ord);
    assert(new.log.ids.take(w as int) =~= old.log.ids.take(w as int));
}

/// Compaction keeps every read: after the rows are compacted to the live
/// rows, a record is live exactly when it was, and a live record keeps its
/// index keys and ordered value.
pub proof fn lemma_compaction_keeps_reads(old: CoreView, new: CoreView, keep: Seq<usize>, x: u128)
    requires
        old.log.indexed == old.log.ids.len(),
        old.log.ids.len() == old.log.deleted.len(),
        old.log.ids.len() <= usize::MAX,
        old.keys.len() == old.log.ids.len(),
        old.ords.len() == old.log.ids.len(),
        is_live_row_list(old.log, keep),
        new.log == compacted(old.log, keep),
        new.keys == Seq::new(keep.len(), |k: int| old.keys[keep[k] as int]),
        new.ords == Seq::new(keep.len(), |k: int| old.ords[keep[k] as int]),
    ensures
        new.log.is_live(x) == old.log.is_live(x),
        old.log.is_live(x) ==> new.key_row(x) == old.key_row(x) && new.ord_of(x) == old.ord_of(x),
{
    crate::versions::lemma_compaction_keeps_live(old.log, keep, x);
    if old.log.is_live(x) {
        let n = new.log;
        crate::versions::lemma_latest_char(n.committed(), x);
        assert(n.committed().len() == keep.len());
    }
}

/// The ids of the records whose latest committed version is live.
pub open spec fn live_ids(t: CoreView) -> Set<u128> {
    Set::new(|x: u128| t.log.is_live(x))
}

/// A full scan reads exactly what listing every record reads: any two lists
/// of the live rows (what `scan_rows(None)` and `live_rows()` return) are
/// the same list; it holds each live record once, by the row of its latest
/// version, and no other, so its length is the number of live records.
pub proof fn lemma_full_scan_is_all<R: Record>(t: Table<R>, scanned: Seq<usize>, all: Seq<usize>)
    requires
        t.wf(),
        is_live_row_list(t.state().log, scanned),
        is_live_row_list(t.state().log, all),
    ensures
        scanned == all,
        scanned.map_values(|r: usize| t.state().log.ids[r as int]).to_set() == live_ids(t.state()),
        scanned.len() == live_ids(t.state()).len(),
{
    t.lemma_wf();
    let log = t.state().log;
    crate::versions::lemma_live_rows_listing(log, scanned, all);
    let ids = scanned.map_values(|r: usize| log.ids[r as int]);
    assert(ids.no_duplicates()) by {
        assert forall|i: int, j: int| 0 <= i < ids.len() && 0 <= j < ids.len() && i != j implies ids[i] != ids[j] by {
            if i < j {
                assert(log.ids[scanned[i] as int] != log.ids[scanned[j] as int]);
            } else {
                assert(log.ids[scanned[j] as int] != log.ids[scanned[i] as int]);
            }
        }
    }
    assert forall|x: u128| #[trigger] ids.to_set().contains(x) <==> live_ids(t.state()).contains(x) by {
        if ids.to_set().contains(x) {
            assert(ids.contains(x));
            let i = choose|i: int| 0 <= i < ids.len() && ids[i] == x;
            assert(log.is_live(log.ids[scanned[i] as int]));
        }
        if log.is_live(x) {
            assert(scanned.contains(log.latest_row(x)->0 as usize));
            let i = choose|i: int| 0 <= i < scanned.len() && scanned[i] == log.latest_row(x)->0 as usize;
            crate::versions::lemma_latest_char(log.committed(), x);
            let r = log.latest_row(x)->0;
            assert(log.committed()[r as int] == log.ids[r as int]);
            assert(ids[i] == x);
            assert(ids.contains(x));
        }
    }
    assert(ids.to_set() =~= live_ids(t.state()));
    ids.unique_seq_to_set();
}

/// Indexing is determined by the rows: two consistent tables holding the
/// same rows answer every index probe alike, so folding in only the rows
/// appended since the last indexing gives what re-indexing every row gives.
pub proof fn lemma_index_determined<R: Record>(a: Table<R>, b: Table<R>)
    requires
        a.wf(),
        b.wf(),
        a.consistent(),
        b.consistent(),
        a.state() == b.state(),
    ensures
        forall|f: int, k: Seq<char>, x: u128| 0 <= f < 2 ==> #[trigger] a.index_has(f, k, x) == b.index_has(f, k, x),
        forall|v: u64, x: u128| #[trigger] a.ordered_has(v, x) == b.ordered_has(v, x),
{
    a.lemma_consistent();
    b.lemma_consistent();
}

} // verus!
