use vstd::prelude::*;
use crate::versions::{VersionLog, LogView, latest, lemma_latest_push, lemma_latest_char, is_live_row_list, compacted, lemma_compaction_keeps_live, strictly_sorted};
use crate::keyindex::KeyIndex;
use crate::ordered::{OrderedIndex, in_range, sorted_by_pair, sorted_by_pair_desc};

verus! {

/// Per-row key columns as plain values: for each row, its key under each
/// hash index.
pub open spec fn keys_view(v: Seq<Vec<String>>) -> Seq<Seq<Seq<char>>> {
    Seq::new(v.len(), |r: int| Seq::new(v[r]@.len(), |f: int| v[r]@[f]@))
}

/// The abstract state of a model: its row log, and for every row the index
/// keys and the ordered value of the record stored there.
pub struct CoreView {
    pub log: LogView,
    pub keys: Seq<Seq<Seq<char>>>,
    pub ords: Seq<u64>,
}

impl CoreView {
    /// The key under index `f` of `id`'s latest committed record.
    pub open spec fn key_of(self, id: u128, f: int) -> Seq<char> {
        self.keys[self.log.latest_row(id)->0 as int][f]
    }

    /// The keys of `id`'s latest committed record.
    pub open spec fn key_row(self, id: u128) -> Seq<Seq<char>> {
        self.keys[self.log.latest_row(id)->0 as int]
    }

    /// The ordered value of `id`'s latest committed record.
    pub open spec fn ord_of(self, id: u128) -> u64 {
        self.ords[self.log.latest_row(id)->0 as int]
    }

    /// What index `f` must hold: every live id under its record's key.
    pub open spec fn indexed_under(self, f: int, key: Seq<char>, id: u128) -> bool {
        self.log.is_live(id) && self.key_of(id, f) == key
    }
}

/// The in-memory part of a model's storage: its row log with the id lookups,
/// the index keys of every row, up to two hash indexes (optionally enforcing
/// uniqueness) and an optional ordered index.
pub struct ModelCore {
    log: VersionLog,
    row_keys: Vec<Vec<String>>,
    row_ords: Vec<u64>,
    n_idx: usize,
    unique0: bool,
    unique1: bool,
    idx0: KeyIndex,
    idx1: KeyIndex,
    has_ordered: bool,
    ordered: OrderedIndex,
}

impl View for ModelCore {
    type V = CoreView;

    closed spec fn view(&self) -> CoreView {
        CoreView { log: self.log@, keys: keys_view(self.row_keys@), ords: self.row_ords@ }
    }
}

impl ModelCore {
    pub closed spec fn n_indexes(&self) -> nat {
        self.n_idx as nat
    }

    pub closed spec fn is_unique(&self, f: int) -> bool {
        if f == 0 { self.unique0 } else if f == 1 { self.unique1 } else { false }
    }

    pub closed spec fn ordered_enabled(&self) -> bool {
        self.has_ordered
    }

    /// Index `f` maps `key` to `id`.
    pub closed spec fn index_has(&self, f: int, key: Seq<char>, id: u128) -> bool {
        if f == 0 { self.idx0.has(key, id) } else if f == 1 { self.idx1.has(key, id) } else { false }
    }

    /// The ordered index holds `(value, id)`.
    pub closed spec fn ordered_has(&self, value: u64, id: u128) -> bool {
        self.ordered.has(value, id)
    }

    pub closed spec fn wf(&self) -> bool {
        &&& self.log.wf()
        &&& self.row_keys@.len() == self.log@.ids.len()
        &&& self.row_ords@.len() == self.log@.ids.len()
        &&& forall|r: int| 0 <= r < self.row_keys@.len() ==> (#[trigger] self.row_keys@[r])@.len() == self.n_idx
        &&& self.n_idx <= 2
        &&& self.idx0.wf()
        &&& self.idx1.wf()
        &&& self.ordered.wf()
    }

    /// Every index holds exactly what the live records say.
    pub closed spec fn consistent(&self) -> bool {
        &&& forall|f: int, key: Seq<char>, id: u128| 0 <= f < 2 ==>
                (#[trigger] self.index_has(f, key, id) <==> f < self.n_idx && self@.indexed_under(f, key, id))
        &&& forall|value: u64, id: u128| #[trigger] self.ordered.has(value, id) <==>
                self.has_ordered && self@.log.is_live(id) && self@.ord_of(id) == value
    }

    /// What consistency says of the two kinds of index.
    pub proof fn lemma_consistent(&self)
        requires
            self.consistent(),
        ensures
            forall|f: int, key: Seq<char>, id: u128| 0 <= f < 2 ==> (#[trigger] self.index_has(f, key, id) <==> f
                < self.n_indexes() && self@.indexed_under(f, key, id)),
            forall|value: u64, id: u128| #[trigger] self.ordered_has(value, id) <==> self.ordered_enabled()
                && self@.log.is_live(id) && self@.ord_of(id) == value,
    {
    }

    pub proof fn lemma_wf(&self)
        requires
            self.wf(),
        ensures
            self@.log.ids.len() == self@.log.deleted.len(),
            self@.log.ids.len() <= usize::MAX,
            self@.log.indexed <= self@.log.ids.len(),
            self@.keys.len() == self@.log.ids.len(),
            self@.ords.len() == self@.log.ids.len(),
            forall|r: int| 0 <= r < self@.keys.len() ==> (#[trigger] self@.keys[r]).len() == self.n_indexes(),
            self.n_indexes() <= 2,
    {
        self.log.lemma_wf_view();
    }

    /// An empty model with `n_idx` hash indexes (uniqueness per index as
    /// given) and, when `has_ordered`, an ordered index.
    pub fn new(n_idx: usize, unique0: bool, unique1: bool, has_ordered: bool) -> (r: Self)
        requires
            n_idx <= 2,
        ensures
            r.wf(),
            r.consistent(),
            r@.log.ids.len() == 0,
            r@.log.indexed == 0,
            r.n_indexes() == n_idx,
            r.is_unique(0) == unique0,
            r.is_unique(1) == unique1,
            r.ordered_enabled() == has_ordered,
    {
        let r = ModelCore {
            log: VersionLog::new(),
            row_keys: Vec::new(),
            row_ords: Vec::new(),
            n_idx,
            unique0,
            unique1,
            idx0: KeyIndex::new(),
            idx1: KeyIndex::new(),
            has_ordered,
            ordered: OrderedIndex::new(),
        };
        proof {
            assert forall|id: u128| !r@.log.is_live(id) by {}
        }
        r
    }

    /// The row log.
    pub fn log(&self) -> (l: &VersionLog)
        ensures
            l@ == self@.log,
            self.wf() ==> l.wf(),
    {
        &self.log
    }

    /// The ordered value stored with row `r`.
    pub fn ord_at(&self, r: usize) -> (v: u64)
        requires
            self.wf(),
            r < self@.log.ids.len(),
        ensures
            v == self@.ords[r as int],
    {
        proof {
            self.lemma_wf();
        }
        self.row_ords[r]
    }
}

/// The state after appending one row to a fully indexed model.
pub open spec fn appended(old: CoreView, id: u128, deleted: bool, keys: Seq<Seq<char>>, ord: u64) -> CoreView {
    CoreView {
        log: LogView {
            ids: old.log.ids.push(id),
            deleted: old.log.deleted.push(deleted),
            indexed: old.log.indexed + 1,
        },
        keys: old.keys.push(keys),
        ords: old.ords.push(ord),
    }
}

/// Appending a row makes it the latest version of its id and leaves every
/// other id's latest version, liveness and keys unchanged.
pub proof fn lemma_appended(old: CoreView, id: u128, deleted: bool, keys: Seq<Seq<char>>, ord: u64, x: u128)
    requires
        old.log.indexed == old.log.ids.len(),
        old.log.ids.len() == old.log.deleted.len(),
        old.keys.len() == old.log.ids.len(),
        old.ords.len() == old.log.ids.len(),
    ensures
        ({
            let new = appended(old, id, deleted, keys, ord);
            if x == id {
                &&& new.log.latest_row(x) == Some(old.log.ids.len())
                &&& new.log.is_live(x) == !deleted
                &&& forall|f: int| #[trigger] new.key_of(x, f) == keys[f]
                &&& new.ord_of(x) == ord
            } else {
                &&& new.log.latest_row(x) == old.log.latest_row(x)
                &&& new.log.is_live(x) == old.log.is_live(x)
                &&& old.log.latest_row(x) is Some ==> forall|f: int| #[trigger] new.key_of(x, f) == old.key_of(x, f)
                &&& old.log.latest_row(x) is Some ==> new.ord_of(x) == old.ord_of(x)
            }
        }),
{
    let new = appended(old, id, deleted, keys, ord);
    let c = old.log.committed();
    assert(c =~= old.log.ids);
    assert(new.log.committed() =~= c.push(id));
    lemma_latest_push(c, id, x);
    lemma_latest_char(c, x);
}

fn clone_keys(v: &Vec<String>) -> (out: Vec<String>)
    ensures
        out@.len() == v@.len(),
        forall|i: int| 0 <= i < v@.len() ==> (#[trigger] out@[i])@ == v@[i]@,
{
    let mut out: Vec<String> = Vec::new();
    let mut i: usize = 0;
    while i < v.len()
        invariant
            i <= v@.len(),
            out@.len() == i,
            forall|j: int| 0 <= j < i ==> (#[trigger] out@[j])@ == v@[j]@,
        decreases v@.len() - i,
    {
        out.push(v[i].clone());
        i = i + 1;
    }
    out
}

impl ModelCore {
    fn index_add(&mut self, f: usize, key: &str, id: u128)
        requires
            old(self).wf(),
            f < 2,
        ensures
            final(self).same_config(old(self)),
            final(self).wf(),
            final(self)@ == old(self)@,
            final(self).n_indexes() == old(self).n_indexes(),
            final(self).ordered_enabled() == old(self).ordered_enabled(),
            forall|g: int| #[trigger] final(self).is_unique(g) == old(self).is_unique(g),
            forall|v: u64, x: u128| #[trigger] final(self).ordered_has(v, x) == old(self).ordered_has(v, x),
            forall|g: int, k: Seq<char>, x: u128| #[trigger] final(self).index_has(g, k, x) <==>
                old(self).index_has(g, k, x) || (g == f && k == key@ && x == id),
    {
        if f == 0 {
            self.idx0.add(key, id);
            assert(self.idx1 == old(self).idx1);
            assert forall|g: int, k: Seq<char>, x: u128| #[trigger] self.index_has(g, k, x) <==>
                old(self).index_has(g, k, x) || (g == f && k == key@ && x == id) by {
                if g == 0 {
                    assert(self.idx0.has(k, x) <==> old(self).idx0.has(k, x) || (k == key@ && x == id));
                } else {
                    assert(self.idx1.has(k, x) == old(self).idx1.has(k, x));
                }
            }
        } else {
            self.idx1.add(key, id);
            assert(self.idx0 == old(self).idx0);
            assert forall|g: int, k: Seq<char>, x: u128| #[trigger] self.index_has(g, k, x) <==>
                old(self).index_has(g, k, x) || (g == f && k == key@ && x == id) by {
                if g == 0 {
                    assert(self.idx0.has(k, x) == old(self).idx0.has(k, x));
                } else {
                    assert(self.idx1.has(k, x) <==> old(self).idx1.has(k, x) || (k == key@ && x == id));
                }
            }
        }
    }

    fn index_remove(&mut self, f: usize, key: &str, id: u128)
        requires
            old(self).wf(),
            f < 2,
        ensures
            final(self).same_config(old(self)),
            final(self).wf(),
            final(self)@ == old(self)@,
            final(self).n_indexes() == old(self).n_indexes(),
            final(self).ordered_enabled() == old(self).ordered_enabled(),
            forall|g: int| #[trigger] final(self).is_unique(g) == old(self).is_unique(g),
            forall|v: u64, x: u128| #[trigger] final(self).ordered_has(v, x) == old(self).ordered_has(v, x),
            forall|g: int, k: Seq<char>, x: u128| #[trigger] final(self).index_has(g, k, x) <==>
                old(self).index_has(g, k, x) && !(g == f && k == key@ && x == id),
    {
        if f == 0 {
            self.idx0.remove(key, id);
            assert forall|g: int, k: Seq<char>, x: u128| #[trigger] self.index_has(g, k, x) <==>
                old(self).index_has(g, k, x) && !(g == f && k == key@ && x == id) by {
                if g == 0 {
                    assert(self.idx0.has(k, x) <==> old(self).idx0.has(k, x) && !(k == key@ && x == id));
                } else {
                    assert(self.idx1.has(k, x) == old(self).idx1.has(k, x));
                }
            }
        } else {
            self.idx1.remove(key, id);
            assert forall|g: int, k: Seq<char>, x: u128| #[trigger] self.index_has(g, k, x) <==>
                old(self).index_has(g, k, x) && !(g == f && k == key@ && x == id) by {
                if g == 0 {
                    assert(self.idx0.has(k, x) == old(self).idx0.has(k, x));
                } else {
                    assert(self.idx1.has(k, x) <==> old(self).idx1.has(k, x) && !(k == key@ && x == id));
                }
            }
        }
    }

    /// Adds `id` under each of `keys` and, when the model has one, under `ord`
    /// in the ordered index.
    fn index_record(&mut self, id: u128, keys: &Vec<String>, ord: u64)
        requires
            old(self).wf(),
            keys@.len() == old(self).n_indexes(),
        ensures
            final(self).same_config(old(self)),
            final(self).wf(),
            final(self)@ == old(self)@,
            final(self).n_indexes() == old(self).n_indexes(),
            final(self).ordered_enabled() == old(self).ordered_enabled(),
            forall|g: int| #[trigger] final(self).is_unique(g) == old(self).is_unique(g),
            forall|g: int, k: Seq<char>, x: u128| #[trigger] final(self).index_has(g, k, x) <==>
                old(self).index_has(g, k, x) || (0 <= g < old(self).n_indexes() && k == keys@[g]@ && x == id),
            forall|v: u64, x: u128| #[trigger] final(self).ordered_has(v, x) <==>
                old(self).ordered_has(v, x) || (old(self).ordered_enabled() && v == ord && x == id),
    {
        let mut f: usize = 0;
        while f < self.n_idx
            invariant
                self.wf(),
                self@ == old(self)@,
                self.same_config(old(self)),
                self.n_indexes() == old(self).n_indexes(),
                self.ordered_enabled() == old(self).ordered_enabled(),
                forall|g: int| #[trigger] self.is_unique(g) == old(self).is_unique(g),
                keys@.len() == self.n_indexes(),
                f <= self.n_idx,
                forall|v: u64, x: u128| #[trigger] self.ordered_has(v, x) == old(self).ordered_has(v, x),
                forall|g: int, k: Seq<char>, x: u128| #[trigger] self.index_has(g, k, x) <==>
                    old(self).index_has(g, k, x) || (0 <= g < f && k == keys@[g]@ && x == id),
            decreases self.n_idx - f,
        {
            self.index_add(f, keys[f].as_str(), id);
            f = f + 1;
        }
        let ghost before = *self;
        if self.has_ordered {
            self.ordered.insert(ord, id);
        }
        proof {
            assert forall|g: int| #[trigger] self.is_unique(g) == old(self).is_unique(g) by {
                assert(before.is_unique(g) == old(self).is_unique(g));
            }
            assert forall|g: int, k: Seq<char>, x: u128| #[trigger] self.index_has(g, k, x) <==>
                old(self).index_has(g, k, x) || (0 <= g < old(self).n_indexes() && k == keys@[g]@ && x == id) by {
                assert(before.index_has(g, k, x) == self.index_has(g, k, x));
            }
            assert forall|v: u64, x: u128| #[trigger] self.ordered_has(v, x) <==>
                old(self).ordered_has(v, x) || (old(self).ordered_enabled() && v == ord && x == id) by {
                assert(before.ordered_has(v, x) == old(self).ordered_has(v, x));
            }
        }
    }

    /// Removes `id` from under each of `keys` and, when the model has one,
    /// from under `ord` in the ordered index.
    fn unindex_record(&mut self, id: u128, keys: &Vec<String>, ord: u64)
        requires
            old(self).wf(),
            keys@.len() == old(self).n_indexes(),
        ensures
            final(self).same_config(old(self)),
            final(self).wf(),
            final(self)@ == old(self)@,
            final(self).n_indexes() == old(self).n_indexes(),
            final(self).ordered_enabled() == old(self).ordered_enabled(),
            forall|g: int| #[trigger] final(self).is_unique(g) == old(self).is_unique(g),
            forall|g: int, k: Seq<char>, x: u128| #[trigger] final(self).index_has(g, k, x) <==>
                old(self).index_has(g, k, x) && !(0 <= g < old(self).n_indexes() && k == keys@[g]@ && x == id),
            forall|v: u64, x: u128| #[trigger] final(self).ordered_has(v, x) <==>
                old(self).ordered_has(v, x) && !(old(self).ordered_enabled() && v == ord && x == id),
    {
        let mut f: usize = 0;
        while f < self.n_idx
            invariant
                self.wf(),
                self@ == old(self)@,
                self.same_config(old(self)),
                self.n_indexes() == old(self).n_indexes(),
                self.ordered_enabled() == old(self).ordered_enabled(),
                forall|g: int| #[trigger] self.is_unique(g) == old(self).is_unique(g),
                keys@.len() == self.n_indexes(),
                f <= self.n_idx,
                forall|v: u64, x: u128| #[trigger] self.ordered_has(v, x) == old(self).ordered_has(v, x),
                forall|g: int, k: Seq<char>, x: u128| #[trigger] self.index_has(g, k, x) <==>
                    old(self).index_has(g, k, x) && !(0 <= g < f && k == keys@[g]@ && x == id),
            decreases self.n_idx - f,
        {
            self.index_remove(f, keys[f].as_str(), id);
            f = f + 1;
        }
        let ghost before = *self;
        if self.has_ordered {
            self.ordered.remove(ord, id);
        }
        proof {
            assert forall|g: int| #[trigger] self.is_unique(g) == old(self).is_unique(g) by {
                assert(before.is_unique(g) == old(self).is_unique(g));
            }
            assert forall|g: int, k: Seq<char>, x: u128| #[trigger] self.index_has(g, k, x) <==>
                old(self).index_has(g, k, x) && !(0 <= g < old(self).n_indexes() && k == keys@[g]@ && x == id) by {
                assert(before.index_has(g, k, x) == self.index_has(g, k, x));
            }
            assert forall|v: u64, x: u128| #[trigger] self.ordered_has(v, x) <==>
                old(self).ordered_has(v, x) && !(old(self).ordered_enabled() && v == ord && x == id) by {
                assert(before.ordered_has(v, x) == old(self).ordered_has(v, x));
            }
        }
    }

    /// Appends a row to the log and its keys to the key columns.
    fn push_row(&mut self, id: u128, deleted: bool, keys: Vec<String>, ord: u64, index: bool) -> (row: usize)
        requires
            old(self).wf(),
            old(self)@.log.ids.len() < usize::MAX,
            index ==> old(self)@.log.indexed == old(self)@.log.ids.len(),
            keys@.len() == old(self).n_indexes(),
        ensures
            final(self).same_config(old(self)),
            final(self).wf(),
            row == old(self)@.log.ids.len(),
            final(self)@.log.ids == old(self)@.log.ids.push(id),
            final(self)@.log.deleted == old(self)@.log.deleted.push(deleted),
            final(self)@.log.indexed == (if index { old(self)@.log.indexed + 1 } else { old(self)@.log.indexed }),
            final(self)@.keys == old(self)@.keys.push(Seq::new(keys@.len(), |f: int| keys@[f]@)),
            final(self)@.ords == old(self)@.ords.push(ord),
            final(self).n_indexes() == old(self).n_indexes(),
            final(self).ordered_enabled() == old(self).ordered_enabled(),
            forall|g: int| #[trigger] final(self).is_unique(g) == old(self).is_unique(g),
            forall|g: int, k: Seq<char>, x: u128| #[trigger] final(self).index_has(g, k, x) == old(self).index_has(g, k, x),
            forall|v: u64, x: u128| #[trigger] final(self).ordered_has(v, x) == old(self).ordered_has(v, x),
    {
        let row = if index {
            self.log.append(id, deleted)
        } else {
            self.log.stage(id, deleted)
        };
        let ghost kv = Seq::new(keys@.len(), |f: int| keys@[f]@);
        let ghost old_rows = self.row_keys@;
        self.row_keys.push(keys);
        self.row_ords.push(ord);
        proof {
            assert(keys_view(self.row_keys@) =~= keys_view(old_rows).push(kv)) by {
                assert forall|r: int| 0 <= r < self.row_keys@.len() implies
                    #[trigger] keys_view(self.row_keys@)[r] =~= keys_view(old_rows).push(kv)[r] by {
                    if r < old_rows.len() {
                        assert(self.row_keys@[r] == old_rows[r]);
                    }
                }
            }
        }
        row
    }

    /// The first hash index that enforces uniqueness and already holds a
    /// record under the new record's key (the uniqueness test of an insert).
    pub fn unique_violation_insert(&self, keys: &Vec<String>) -> (r: Option<usize>)
        requires
            self.wf(),
            keys@.len() == self.n_indexes(),
        ensures
            match r {
                Some(f) => f < self.n_indexes() && self.is_unique(f as int)
                    && (exists|x: u128| self.index_has(f as int, keys@[f as int]@, x))
                    && (f == 1 ==> !(self.is_unique(0) && exists|x: u128| self.index_has(0, keys@[0]@, x))),
                None => forall|g: int| 0 <= g < self.n_indexes() && self.is_unique(g) ==>
                    !exists|x: u128| self.index_has(g, keys@[g]@, x),
            },
    {
        if self.n_idx > 0 && self.unique0 && self.idx0.any(keys[0].as_str()) {
            proof {
                let x = choose|x: u128| self.idx0.has(keys@[0]@, x);
                assert(self.index_has(0, keys@[0]@, x));
            }
            return Some(0);
        }
        if self.n_idx > 1 && self.unique1 && self.idx1.any(keys[1].as_str()) {
            proof {
                let x = choose|x: u128| self.idx1.has(keys@[1]@, x);
                assert(self.index_has(1, keys@[1]@, x));
                if self.is_unique(0) && exists|x: u128| self.index_has(0, keys@[0]@, x) {
                    let x = choose|x: u128| self.index_has(0, keys@[0]@, x);
                    assert(self.idx0.has(keys@[0]@, x));
                }
            }
            return Some(1);
        }
        proof {
            assert forall|g: int| 0 <= g < self.n_indexes() && self.is_unique(g) implies !exists|x: u128| self.index_has(g, keys@[g]@, x) by {
                if exists|x: u128| self.index_has(g, keys@[g]@, x) {
                    let x = choose|x: u128| self.index_has(g, keys@[g]@, x);
                    if g == 0 {
                        assert(self.idx0.has(keys@[0]@, x));
                    } else {
                        assert(self.idx1.has(keys@[1]@, x));
                    }
                }
            }
        }
        None
    }

    /// The first hash index that enforces uniqueness and holds a record
    /// other than `id` under the new key (the uniqueness test of an update).
    pub fn unique_violation_update(&self, id: u128, keys: &Vec<String>) -> (r: Option<usize>)
        requires
            self.wf(),
            keys@.len() == self.n_indexes(),
        ensures
            match r {
                Some(f) => f < self.n_indexes() && self.is_unique(f as int)
                    && (exists|x: u128| self.index_has(f as int, keys@[f as int]@, x) && x != id)
                    && (f == 1 ==> !(self.is_unique(0) && exists|x: u128| self.index_has(0, keys@[0]@, x) && x != id)),
                None => forall|g: int| 0 <= g < self.n_indexes() && self.is_unique(g) ==>
                    !exists|x: u128| self.index_has(g, keys@[g]@, x) && x != id,
            },
    {
        if self.n_idx > 0 && self.unique0 && self.idx0.any_other(keys[0].as_str(), id) {
            proof {
                let x = choose|x: u128| self.idx0.has(keys@[0]@, x) && x != id;
                assert(self.index_has(0, keys@[0]@, x));
            }
            return Some(0);
        }
        if self.n_idx > 1 && self.unique1 && self.idx1.any_other(keys[1].as_str(), id) {
            proof {
                let x = choose|x: u128| self.idx1.has(keys@[1]@, x) && x != id;
                assert(self.index_has(1, keys@[1]@, x));
                if self.is_unique(0) && exists|x: u128| self.index_has(0, keys@[0]@, x) && x != id {
                    let x = choose|x: u128| self.index_has(0, keys@[0]@, x) && x != id;
                    assert(self.idx0.has(keys@[0]@, x));
                }
            }
            return Some(1);
        }
        proof {
            assert forall|g: int| 0 <= g < self.n_indexes() && self.is_unique(g) implies !exists|x: u128| self.index_has(g, keys@[g]@, x) && x != id by {
                if exists|x: u128| self.index_has(g, keys@[g]@, x) && x != id {
                    let x = choose|x: u128| self.index_has(g, keys@[g]@, x) && x != id;
                    if g == 0 {
                        assert(self.idx0.has(keys@[0]@, x));
                    } else {
                        assert(self.idx1.has(keys@[1]@, x));
                    }
                }
            }
        }
        None
    }

    /// Writes a new record (`insert` after its checks): appends its row and
    /// indexes it under its keys.
    pub fn apply_insert(&mut self, id: u128, keys: Vec<String>, ord: u64) -> (row: usize)
        requires
            old(self).wf(),
            old(self)@.log.indexed == old(self)@.log.ids.len(),
            old(self)@.log.ids.len() < usize::MAX,
            keys@.len() == old(self).n_indexes(),
        ensures
            final(self).wf(),
            row == old(self)@.log.ids.len(),
            final(self)@ == appended(old(self)@, id, false, Seq::new(keys@.len(), |f: int| keys@[f]@), ord),
            final(self).n_indexes() == old(self).n_indexes(),
            final(self).ordered_enabled() == old(self).ordered_enabled(),
            forall|g: int| #[trigger] final(self).is_unique(g) == old(self).is_unique(g),
            forall|g: int, k: Seq<char>, x: u128| #[trigger] final(self).index_has(g, k, x) <==>
                old(self).index_has(g, k, x) || (0 <= g < old(self).n_indexes() && k == keys@[g]@ && x == id),
            old(self).consistent() && !old(self)@.log.is_live(id) ==> final(self).consistent(),
    {
        self.index_record(id, &keys, ord);
        let ghost kv = Seq::new(keys@.len(), |f: int| keys@[f]@);
        let ghost mid = *self;
        let row = self.push_row(id, false, keys, ord, true);
        proof {
            assert(self@ =~= appended(old(self)@, id, false, kv, ord));
            if old(self).consistent() && !old(self)@.log.is_live(id) {
                old(self).lemma_wf();
                assert forall|f: int, key: Seq<char>, x: u128| 0 <= f < 2 implies
                    (#[trigger] self.index_has(f, key, x) <==> f < self.n_indexes() && self@.indexed_under(f, key, x)) by {
                    lemma_appended(old(self)@, id, false, kv, ord, x);
                    assert(old(self).index_has(f, key, x) <==> f < old(self).n_indexes() && old(self)@.indexed_under(f, key, x));
                }
                assert forall|value: u64, x: u128| #[trigger] self.ordered.has(value, x) <==>
                    self.has_ordered && self@.log.is_live(x) && self@.ord_of(x) == value by {
                    lemma_appended(old(self)@, id, false, kv, ord, x);
                    assert(self.ordered_has(value, x) == mid.ordered_has(value, x));
                    assert(old(self).ordered_has(value, x) <==> old(self).has_ordered && old(self)@.log.is_live(x) && old(self)@.ord_of(x) == value);
                }
            }
        }
        row
    }
}

/// Staging a row (appending without indexing it) leaves every committed
/// lookup unchanged.
pub proof fn lemma_staged(old: CoreView, new: CoreView, x: u128)
    requires
        old.log.indexed <= old.log.ids.len(),
        old.log.ids.len() == old.log.deleted.len(),
        old.keys.len() == old.log.ids.len(),
        old.ords.len() == old.log.ids.len(),
        new.log.indexed == old.log.indexed,
        new.log.ids.len() == old.log.ids.len() + 1,
        new.log.deleted.len() == new.log.ids.len(),
        new.keys.len() == new.log.ids.len(),
        new.ords.len() == new.log.ids.len(),
        new.log.ids.take(old.log.ids.len() as int) == old.log.ids,
        new.log.deleted.take(old.log.ids.len() as int) == old.log.deleted,
        new.keys.take(old.log.ids.len() as int) == old.keys,
        new.ords.take(old.log.ids.len() as int) == old.ords,
    ensures
        new.log.latest_row(x) == old.log.latest_row(x),
        new.log.is_live(x) == old.log.is_live(x),
        old.log.latest_row(x) is Some ==> forall|f: int| #[trigger] new.key_of(x, f) == old.key_of(x, f),
        old.log.latest_row(x) is Some ==> new.ord_of(x) == old.ord_of(x),
{
    let n = old.log.ids.len() as int;
    assert(new.log.committed() =~= old.log.committed()) by {
        assert forall|i: int| 0 <= i < old.log.indexed implies new.log.ids[i] == old.log.ids[i] by {
            assert(new.log.ids.take(n)[i] == new.log.ids[i]);
        }
    }
    lemma_latest_char(old.log.committed(), x);
    if let Some(r) = old.log.latest_row(x) {
        assert(new.log.deleted.take(n)[r as int] == new.log.deleted[r as int]);
        assert(new.keys.take(n)[r as int] == new.keys[r as int]);
        assert(new.ords.take(n)[r as int] == new.ords[r as int]);
    }
}

impl ModelCore {
    /// Writes a new version of an existing record (`update` after its
    /// checks): moves the id from its old keys to the new ones.
    pub fn apply_update(&mut self, id: u128, keys: Vec<String>, ord: u64) -> (row: usize)
        requires
            old(self).wf(),
            old(self)@.log.indexed == old(self)@.log.ids.len(),
            old(self)@.log.ids.len() < usize::MAX,
            old(self)@.log.latest_row(id) is Some,
            keys@.len() == old(self).n_indexes(),
        ensures
            final(self).wf(),
            row == old(self)@.log.ids.len(),
            final(self)@ == appended(old(self)@, id, false, Seq::new(keys@.len(), |f: int| keys@[f]@), ord),
            final(self).n_indexes() == old(self).n_indexes(),
            final(self).ordered_enabled() == old(self).ordered_enabled(),
            forall|g: int| #[trigger] final(self).is_unique(g) == old(self).is_unique(g),
            old(self).consistent() ==> final(self).consistent(),
    {
        proof {
            old(self).lemma_wf();
        }
        let ghost kv = Seq::new(keys@.len(), |f: int| keys@[f]@);
        let prev = self.log.live_row(id);
        let ghost mut okv: Seq<Seq<char>> = Seq::empty();
        match prev {
            Some(r) => {
                proof {
                    lemma_latest_char(self@.log.committed(), id);
                }
                let ok = clone_keys(&self.row_keys[r]);
                let oo = self.row_ords[r];
                proof {
                    okv = Seq::new(ok@.len(), |f: int| ok@[f]@);
                    assert(okv =~= old(self)@.keys[r as int]);
                }
                self.unindex_record(id, &ok, oo);
            },
            None => {},
        }
        let ghost mid = *self;
        self.index_record(id, &keys, ord);
        let ghost mid2 = *self;
        let row = self.push_row(id, false, keys, ord, true);
        proof {
            assert(self@ =~= appended(old(self)@, id, false, kv, ord));
            if old(self).consistent() {
                assert forall|f: int, key: Seq<char>, x: u128| 0 <= f < 2 implies
                    (#[trigger] self.index_has(f, key, x) <==> f < self.n_indexes() && self@.indexed_under(f, key, x)) by {
                    lemma_appended(old(self)@, id, false, kv, ord, x);
                    assert(old(self).index_has(f, key, x) <==> f < old(self).n_indexes() && old(self)@.indexed_under(f, key, x));
                    assert(self.index_has(f, key, x) == mid2.index_has(f, key, x));
                    assert(mid2.index_has(f, key, x) <==> mid.index_has(f, key, x) || (0 <= f < old(self).n_indexes() && key == keys@[f]@ && x == id));
                    if x == id && old(self)@.log.is_live(id) {
                        assert(okv == old(self)@.keys[old(self)@.log.latest_row(id)->0 as int]);
                    }
                }
                assert forall|value: u64, x: u128| #[trigger] self.ordered.has(value, x) <==>
                    self.has_ordered && self@.log.is_live(x) && self@.ord_of(x) == value by {
                    lemma_appended(old(self)@, id, false, kv, ord, x);
                    assert(self.ordered_has(value, x) == mid2.ordered_has(value, x));
                    assert(old(self).ordered_has(value, x) <==> old(self).has_ordered && old(self)@.log.is_live(x) && old(self)@.ord_of(x) == value);
                }
            }
        }
        row
    }

    /// Deletes the live record `id`: appends a tombstone version
    /// carrying the record's keys and drops the id from the indexes. `None`
    /// when `id` has no live record.
    pub fn apply_delete(&mut self, id: u128) -> (row: Option<usize>)
        requires
            old(self).wf(),
            old(self)@.log.indexed == old(self)@.log.ids.len(),
            old(self)@.log.ids.len() < usize::MAX,
        ensures
            final(self).wf(),
            final(self).n_indexes() == old(self).n_indexes(),
            final(self).ordered_enabled() == old(self).ordered_enabled(),
            forall|g: int| #[trigger] final(self).is_unique(g) == old(self).is_unique(g),
            match row {
                None => !old(self)@.log.is_live(id) && *final(self) == *old(self),
                Some(row) => {
                    let r = old(self)@.log.latest_row(id)->0 as int;
                    &&& old(self)@.log.is_live(id)
                    &&& row == old(self)@.log.ids.len()
                    &&& final(self)@ == appended(old(self)@, id, true, old(self)@.keys[r], old(self)@.ords[r])
                }
            },
            old(self).consistent() ==> final(self).consistent(),
    {
        proof {
            old(self).lemma_wf();
        }
        match self.log.live_row(id) {
            None => None,
            Some(r) => {
                proof {
                    lemma_latest_char(self@.log.committed(), id);
                }
                let ok = clone_keys(&self.row_keys[r]);
                let oo = self.row_ords[r];
                let ghost kv = Seq::new(ok@.len(), |f: int| ok@[f]@);
                proof {
                    assert(kv =~= old(self)@.keys[r as int]);
                }
                self.unindex_record(id, &ok, oo);
                let ghost mid = *self;
                let row = self.push_row(id, true, ok, oo, true);
                proof {
                    assert(self@ =~= appended(old(self)@, id, true, kv, oo));
                    if old(self).consistent() {
                        assert forall|f: int, key: Seq<char>, x: u128| 0 <= f < 2 implies
                            (#[trigger] self.index_has(f, key, x) <==> f < self.n_indexes() && self@.indexed_under(f, key, x)) by {
                            lemma_appended(old(self)@, id, true, kv, oo, x);
                            assert(old(self).index_has(f, key, x) <==> f < old(self).n_indexes() && old(self)@.indexed_under(f, key, x));
                            assert(self.index_has(f, key, x) == mid.index_has(f, key, x));
                        }
                        assert forall|value: u64, x: u128| #[trigger] self.ordered.has(value, x) <==>
                            self.has_ordered && self@.log.is_live(x) && self@.ord_of(x) == value by {
                            lemma_appended(old(self)@, id, true, kv, oo, x);
                            assert(self.ordered_has(value, x) == mid.ordered_has(value, x));
                            assert(old(self).ordered_has(value, x) <==> old(self).has_ordered && old(self)@.log.is_live(x) && old(self)@.ord_of(x) == value);
                        }
                    }
                }
                Some(row)
            },
        }
    }

    /// Appends a row staged by a transaction: the indexes keep reflecting the
    /// committed rows only.
    pub fn stage(&mut self, id: u128, deleted: bool, keys: Vec<String>, ord: u64) -> (row: usize)
        requires
            old(self).wf(),
            old(self)@.log.ids.len() < usize::MAX,
            keys@.len() == old(self).n_indexes(),
        ensures
            final(self).wf(),
            row == old(self)@.log.ids.len(),
            final(self)@.log.ids == old(self)@.log.ids.push(id),
            final(self)@.log.deleted == old(self)@.log.deleted.push(deleted),
            final(self)@.log.indexed == old(self)@.log.indexed,
            final(self)@.keys == old(self)@.keys.push(Seq::new(keys@.len(), |f: int| keys@[f]@)),
            final(self)@.ords == old(self)@.ords.push(ord),
            final(self).n_indexes() == old(self).n_indexes(),
            final(self).ordered_enabled() == old(self).ordered_enabled(),
            forall|g: int| #[trigger] final(self).is_unique(g) == old(self).is_unique(g),
            forall|x: u128| #[trigger] final(self)@.log.latest_row(x) == old(self)@.log.latest_row(x),
            forall|x: u128| #[trigger] final(self)@.log.is_live(x) == old(self)@.log.is_live(x),
            old(self).consistent() ==> final(self).consistent(),
    {
        proof {
            old(self).lemma_wf();
        }
        let row = self.push_row(id, deleted, keys, ord, false);
        proof {
            let n = old(self)@.log.ids.len() as int;
            assert(self@.log.ids.take(n) =~= old(self)@.log.ids);
            assert(self@.log.deleted.take(n) =~= old(self)@.log.deleted);
            assert(self@.keys.take(n) =~= old(self)@.keys);
            assert(self@.ords.take(n) =~= old(self)@.ords);
            assert forall|x: u128| #[trigger] self@.log.latest_row(x) == old(self)@.log.latest_row(x)
                && self@.log.is_live(x) == old(self)@.log.is_live(x) by {
                lemma_staged(old(self)@, self@, x);
            }
            if old(self).consistent() {
                assert forall|f: int, key: Seq<char>, x: u128| 0 <= f < 2 implies
                    (#[trigger] self.index_has(f, key, x) <==> f < self.n_indexes() && self@.indexed_under(f, key, x)) by {
                    lemma_staged(old(self)@, self@, x);
                    assert(old(self).index_has(f, key, x) <==> f < old(self).n_indexes() && old(self)@.indexed_under(f, key, x));
                }
                assert forall|value: u64, x: u128| #[trigger] self.ordered.has(value, x) <==>
                    self.has_ordered && self@.log.is_live(x) && self@.ord_of(x) == value by {
                    lemma_staged(old(self)@, self@, x);
                    assert(self.ordered_has(value, x) == old(self).ordered_has(value, x));
                    assert(old(self).ordered_has(value, x) <==> old(self).has_ordered && old(self)@.log.is_live(x) && old(self)@.ord_of(x) == value);
                }
            }
        }
        row
    }
}

impl ModelCore {
    /// Stages a row for `id` carrying the keys and ordered value of row `r`.
    pub fn stage_copy(&mut self, id: u128, deleted: bool, r: usize) -> (row: usize)
        requires
            old(self).wf(),
            old(self)@.log.ids.len() < usize::MAX,
            r < old(self)@.log.ids.len(),
        ensures
            final(self).wf(),
            row == old(self)@.log.ids.len(),
            final(self)@.log.ids == old(self)@.log.ids.push(id),
            final(self)@.log.deleted == old(self)@.log.deleted.push(deleted),
            final(self)@.log.indexed == old(self)@.log.indexed,
            final(self)@.keys == old(self)@.keys.push(old(self)@.keys[r as int]),
            final(self)@.ords == old(self)@.ords.push(old(self)@.ords[r as int]),
            final(self).same_config(&*old(self)),
            forall|x: u128| #[trigger] final(self)@.log.latest_row(x) == old(self)@.log.latest_row(x),
            forall|x: u128| #[trigger] final(self)@.log.is_live(x) == old(self)@.log.is_live(x),
            old(self).consistent() ==> final(self).consistent(),
    {
        proof {
            self.lemma_wf();
        }
        let keys = clone_keys(&self.row_keys[r]);
        let ord = self.row_ords[r];
        proof {
            assert(Seq::new(keys@.len(), |f: int| keys@[f]@) =~= self@.keys[r as int]);
        }
        let row = self.stage(id, deleted, keys, ord);
        proof {
            assert(self.is_unique(0) == old(self).is_unique(0));
            assert(self.is_unique(1) == old(self).is_unique(1));
        }
        row
    }
}

impl ModelCore {
    /// Stages a tombstone for `id` carrying the keys and ordered value of its
    /// latest committed row.
    pub fn stage_tombstone(&mut self, id: u128) -> (row: usize)
        requires
            old(self).wf(),
            old(self)@.log.ids.len() < usize::MAX,
            old(self)@.log.latest_row(id) is Some,
        ensures
            final(self).wf(),
            row == old(self)@.log.ids.len(),
            final(self)@.log.ids == old(self)@.log.ids.push(id),
            final(self)@.log.deleted == old(self)@.log.deleted.push(true),
            final(self)@.log.indexed == old(self)@.log.indexed,
            final(self)@.keys == old(self)@.keys.push(old(self)@.key_row(id)),
            final(self)@.ords == old(self)@.ords.push(old(self)@.ord_of(id)),
            final(self).same_config(&*old(self)),
            forall|x: u128| #[trigger] final(self)@.log.latest_row(x) == old(self)@.log.latest_row(x),
            forall|x: u128| #[trigger] final(self)@.log.is_live(x) == old(self)@.log.is_live(x),
            old(self).consistent() ==> final(self).consistent(),
    {
        proof {
            self.lemma_wf();
        }
        let l = match self.log.latest_row(id) {
            Some(l) => l,
            None => 0,
        };
        proof {
            lemma_latest_char(self@.log.committed(), id);
        }
        let keys = clone_keys(&self.row_keys[l]);
        let ord = self.row_ords[l];
        proof {
            assert(Seq::new(keys@.len(), |f: int| keys@[f]@) =~= self@.keys[l as int]);
        }
        let row = self.stage(id, true, keys, ord);
        proof {
            assert(self.is_unique(0) == old(self).is_unique(0));
            assert(self.is_unique(1) == old(self).is_unique(1));
        }
        row
    }
}

impl ModelCore {
    /// Same indexes and settings.
    pub closed spec fn same_config(&self, other: &ModelCore) -> bool {
        &&& self.n_idx == other.n_idx
        &&& self.unique0 == other.unique0
        &&& self.unique1 == other.unique1
        &&& self.has_ordered == other.has_ordered
    }

    /// Rebuilds every index from the live committed rows.
    fn rebuild_indexes(&mut self)
        requires
            old(self).wf(),
        ensures
            final(self).wf(),
            final(self)@ == old(self)@,
            final(self).same_config(old(self)),
            final(self).consistent(),
    {
        self.idx0.clear();
        self.idx1.clear();
        self.ordered.clear();
        proof {
            self.lemma_wf();
        }
        let n = self.log.indexed_len();
        let mut r: usize = 0;
        while r < n
            invariant
                self.wf(),
                self@ == old(self)@,
                self.same_config(old(self)),
                n == self@.log.indexed,
                r <= n,
                forall|f: int, key: Seq<char>, x: u128| 0 <= f < 2 ==>
                    (#[trigger] self.index_has(f, key, x) <==> f < self.n_idx && self@.log.is_live(x)
                        && self@.log.latest_row(x)->0 < r && self@.key_of(x, f) == key),
                forall|v: u64, x: u128| #[trigger] self.ordered_has(v, x) <==>
                    self.has_ordered && self@.log.is_live(x) && self@.log.latest_row(x)->0 < r && self@.ord_of(x) == v,
            decreases n - r,
        {
            proof {
                self.lemma_wf();
            }
            let live = self.log.is_live_row(r);
            let ghost before = *self;
            if live {
                let id = self.log.id_at(r);
                let ks = clone_keys(&self.row_keys[r]);
                let o = self.row_ords[r];
                self.index_record(id, &ks, o);
                proof {
                    let c = self@.log.committed();
                    assert(c[r as int] == id);
                    assert forall|f: int, key: Seq<char>, x: u128| 0 <= f < 2 implies
                        (#[trigger] self.index_has(f, key, x) <==> f < self.n_idx && self@.log.is_live(x)
                            && self@.log.latest_row(x)->0 < r + 1 && self@.key_of(x, f) == key) by {
                        lemma_latest_char(c, x);
                        assert(before.index_has(f, key, x) <==> f < self.n_idx && self@.log.is_live(x)
                            && self@.log.latest_row(x)->0 < r && self@.key_of(x, f) == key);
                        if x == id && 0 <= f < self.n_idx {
                            assert(ks@[f]@ == self@.keys[r as int][f]);
                        }
                    }
                    assert forall|v: u64, x: u128| #[trigger] self.ordered_has(v, x) <==>
                        self.has_ordered && self@.log.is_live(x) && self@.log.latest_row(x)->0 < r + 1 && self@.ord_of(x) == v by {
                        lemma_latest_char(c, x);
                        assert(before.ordered_has(v, x) <==> self.has_ordered && self@.log.is_live(x)
                            && self@.log.latest_row(x)->0 < r && self@.ord_of(x) == v);
                    }
                }
            } else {
                proof {
                    let c = self@.log.committed();
                    assert forall|f: int, key: Seq<char>, x: u128| 0 <= f < 2 implies
                        (#[trigger] self.index_has(f, key, x) <==> f < self.n_idx && self@.log.is_live(x)
                            && self@.log.latest_row(x)->0 < r + 1 && self@.key_of(x, f) == key) by {
                        lemma_latest_char(c, x);
                    }
                    assert forall|v: u64, x: u128| #[trigger] self.ordered_has(v, x) <==>
                        self.has_ordered && self@.log.is_live(x) && self@.log.latest_row(x)->0 < r + 1 && self@.ord_of(x) == v by {
                        lemma_latest_char(c, x);
                    }
                }
            }
            r = r + 1;
        }
        proof {
            let c = self@.log.committed();
            assert forall|f: int, key: Seq<char>, x: u128| 0 <= f < 2 implies
                (#[trigger] self.index_has(f, key, x) <==> f < self.n_indexes() && self@.indexed_under(f, key, x)) by {
                lemma_latest_char(c, x);
            }
            assert forall|v: u64, x: u128| #[trigger] self.ordered.has(v, x) <==>
                self.has_ordered && self@.log.is_live(x) && self@.ord_of(x) == v by {
                lemma_latest_char(c, x);
                assert(self.ordered_has(v, x) == self.ordered.has(v, x));
            }
        }
    }

    /// Rebuilds the lookups and indexes over every row: a transaction's
    /// staged rows become committed.
    pub fn reindex_committed(&mut self)
        requires
            old(self).wf(),
        ensures
            final(self).wf(),
            final(self).consistent(),
            final(self).same_config(old(self)),
            final(self)@.log.ids == old(self)@.log.ids,
            final(self)@.log.deleted == old(self)@.log.deleted,
            final(self)@.keys == old(self)@.keys,
            final(self)@.ords == old(self)@.ords,
            final(self)@.log.indexed == final(self)@.log.ids.len(),
    {
        self.log.reindex_all();
        self.rebuild_indexes();
    }
}

/// Two model states with the same committed rows have the same committed
/// lookups.
pub proof fn lemma_same_committed(a: CoreView, b: CoreView, x: u128)
    requires
        a.log.indexed <= a.log.ids.len(),
        b.log.indexed <= b.log.ids.len(),
        a.log.ids.len() == a.log.deleted.len(),
        b.log.ids.len() == b.log.deleted.len(),
        a.keys.len() == a.log.ids.len(),
        b.keys.len() == b.log.ids.len(),
        a.ords.len() == a.log.ids.len(),
        b.ords.len() == b.log.ids.len(),
        a.log.indexed == b.log.indexed,
        forall|i: int| 0 <= i < a.log.indexed ==> #[trigger] a.log.ids[i] == b.log.ids[i],
        forall|i: int| 0 <= i < a.log.indexed ==> #[trigger] a.log.deleted[i] == b.log.deleted[i],
        forall|i: int| 0 <= i < a.log.indexed ==> #[trigger] a.keys[i] == b.keys[i],
        forall|i: int| 0 <= i < a.log.indexed ==> #[trigger] a.ords[i] == b.ords[i],
    ensures
        b.log.latest_row(x) == a.log.latest_row(x),
        b.log.is_live(x) == a.log.is_live(x),
        a.log.latest_row(x) is Some ==> forall|f: int| #[trigger] b.key_of(x, f) == a.key_of(x, f),
        a.log.latest_row(x) is Some ==> b.ord_of(x) == a.ord_of(x),
{
    assert forall|i: int| 0 <= i < a.log.indexed implies a.log.committed()[i] == b.log.committed()[i] by {
        assert(a.log.ids[i] == b.log.ids[i]);
    }
    assert(a.log.committed() =~= b.log.committed());
    lemma_latest_char(a.log.committed(), x);
    if let Some(r) = a.log.latest_row(x) {
        assert(a.log.deleted[r as int] == b.log.deleted[r as int]);
        assert(a.keys[r as int] == b.keys[r as int]);
        assert(a.ords[r as int] == b.ords[r as int]);
    }
}

/// Folding the next staged row into the lookups makes it the latest version
/// of its id.
pub proof fn lemma_index_step(old: CoreView, x: u128)
    requires
        old.log.indexed < old.log.ids.len(),
        old.log.ids.len() == old.log.deleted.len(),
        old.keys.len() == old.log.ids.len(),
        old.ords.len() == old.log.ids.len(),
    ensures
        ({
            let r = old.log.indexed;
            let new = CoreView { log: LogView { indexed: r + 1, ..old.log }, ..old };
            if x == old.log.ids[r as int] {
                &&& new.log.latest_row(x) == Some(r)
                &&& new.log.is_live(x) == !old.log.deleted[r as int]
                &&& forall|f: int| #[trigger] new.key_of(x, f) == old.keys[r as int][f]
                &&& new.ord_of(x) == old.ords[r as int]
            } else {
                &&& new.log.latest_row(x) == old.log.latest_row(x)
                &&& new.log.is_live(x) == old.log.is_live(x)
                &&& old.log.latest_row(x) is Some ==> forall|f: int| #[trigger] new.key_of(x, f) == old.key_of(x, f)
                &&& old.log.latest_row(x) is Some ==> new.ord_of(x) == old.ord_of(x)
            }
        }),
{
    let r = old.log.indexed;
    let new = CoreView { log: LogView { indexed: r + 1, ..old.log }, ..old };
    let c = old.log.committed();
    assert(new.log.committed() =~= c.push(old.log.ids[r as int]));
    lemma_latest_push(c, old.log.ids[r as int], x);
}

impl ModelCore {
    /// Folds every staged row into the lookups and indexes, in row order:
    /// rows another writer appended become visible.
    pub fn index_pending(&mut self)
        requires
            old(self).wf(),
        ensures
            final(self).wf(),
            final(self).same_config(old(self)),
            final(self)@.log.ids == old(self)@.log.ids,
            final(self)@.log.deleted == old(self)@.log.deleted,
            final(self)@.keys == old(self)@.keys,
            final(self)@.ords == old(self)@.ords,
            final(self)@.log.indexed == final(self)@.log.ids.len(),
            old(self).consistent() ==> final(self).consistent(),
    {
        while self.log.indexed_len() < self.log.len()
            invariant
                self.wf(),
                self.same_config(old(self)),
                self@.log.ids == old(self)@.log.ids,
                self@.log.deleted == old(self)@.log.deleted,
                self@.keys == old(self)@.keys,
                self@.ords == old(self)@.ords,
                old(self).consistent() ==> self.consistent(),
            decreases self@.log.ids.len() - self@.log.indexed,
        {
            proof {
                self.lemma_wf();
            }
            let r = self.log.indexed_len();
            let id = self.log.id_at(r);
            let ghost before = *self;
            let prev = self.log.live_row(id);
            let ghost mut okv: Seq<Seq<char>> = Seq::empty();
            match prev {
                Some(p) => {
                    proof {
                        lemma_latest_char(self@.log.committed(), id);
                    }
                    let ok = clone_keys(&self.row_keys[p]);
                    let oo = self.row_ords[p];
                    proof {
                        okv = Seq::new(ok@.len(), |f: int| ok@[f]@);
                        assert(okv =~= before@.keys[p as int]);
                    }
                    self.unindex_record(id, &ok, oo);
                },
                None => {},
            }
            let ghost mid = *self;
            self.log.index_next();
            let ghost mid2 = *self;
            if !self.log.is_deleted(r) {
                let ks = clone_keys(&self.row_keys[r]);
                let o = self.row_ords[r];
                self.index_record(id, &ks, o);
                proof {
                    assert(Seq::new(ks@.len(), |f: int| ks@[f]@) =~= before@.keys[r as int]);
                }
            }
            proof {
                assert(mid2@ == CoreView { log: LogView { indexed: r as nat + 1, ..before@.log }, ..before@ });
                if before.consistent() {
                    assert forall|f: int, key: Seq<char>, x: u128| 0 <= f < 2 implies
                        (#[trigger] self.index_has(f, key, x) <==> f < self.n_indexes() && self@.indexed_under(f, key, x)) by {
                        lemma_index_step(before@, x);
                        assert(before.index_has(f, key, x) <==> f < before.n_indexes() && before@.indexed_under(f, key, x));
                        assert(mid2.index_has(f, key, x) == mid.index_has(f, key, x));
                        if x == id && before@.log.is_live(id) {
                            assert(okv == before@.keys[before@.log.latest_row(id)->0 as int]);
                        }
                        if x == id && 0 <= f < self.n_indexes() {
                            assert(self@.keys[r as int][f] == before@.keys[r as int][f]);
                        }
                    }
                    assert forall|value: u64, x: u128| #[trigger] self.ordered.has(value, x) <==>
                        self.has_ordered && self@.log.is_live(x) && self@.ord_of(x) == value by {
                        lemma_index_step(before@, x);
                        assert(self.ordered_has(value, x) == self.ordered.has(value, x));
                        assert(mid2.ordered_has(value, x) == mid.ordered_has(value, x));
                        assert(before.ordered_has(value, x) <==> before.has_ordered && before@.log.is_live(x) && before@.ord_of(x) == value);
                    }
                }
            }
        }
        proof {
            self.lemma_wf();
        }
    }

    /// Drops every row at or past `n` (a rollback to a transaction's mark, or
    /// recovery to the journal's committed length); indexes that reflected
    /// dropped rows are rebuilt.
    pub fn truncate_to(&mut self, n: usize)
        requires
            old(self).wf(),
            n <= old(self)@.log.ids.len(),
        ensures
            final(self).wf(),
            final(self).same_config(old(self)),
            final(self)@.log.ids == old(self)@.log.ids.take(n as int),
            final(self)@.log.deleted == old(self)@.log.deleted.take(n as int),
            final(self)@.keys == old(self)@.keys.take(n as int),
            final(self)@.ords == old(self)@.ords.take(n as int),
            final(self)@.log.indexed == (if n < old(self)@.log.indexed { n as nat } else { old(self)@.log.indexed }),
            n < old(self)@.log.indexed || old(self).consistent() ==> final(self).consistent(),
    {
        proof {
            self.lemma_wf();
        }
        let ghost rk = self.row_keys@;
        let shrink = n < self.log.indexed_len();
        self.log.truncate_to(n);
        self.row_keys.truncate(n);
        self.row_ords.truncate(n);
        proof {
            assert(keys_view(self.row_keys@) =~= keys_view(rk).take(n as int));
        }
        if shrink {
            self.rebuild_indexes();
        } else {
            proof {
                if old(self).consistent() {
                    assert forall|f: int, key: Seq<char>, x: u128| 0 <= f < 2 implies
                        (#[trigger] self.index_has(f, key, x) <==> f < self.n_indexes() && self@.indexed_under(f, key, x)) by {
                        lemma_same_committed(old(self)@, self@, x);
                        assert(old(self).index_has(f, key, x) <==> f < old(self).n_indexes() && old(self)@.indexed_under(f, key, x));
                    }
                    assert forall|value: u64, x: u128| #[trigger] self.ordered.has(value, x) <==>
                        self.has_ordered && self@.log.is_live(x) && self@.ord_of(x) == value by {
                        lemma_same_committed(old(self)@, self@, x);
                        assert(old(self).ordered_has(value, x) <==> old(self).has_ordered && old(self)@.log.is_live(x) && old(self)@.ord_of(x) == value);
                    }
                }
            }
        }
    }

    /// The rows compaction keeps: every live row, ascending.
    pub fn live_rows(&self) -> (out: Vec<usize>)
        requires
            self.wf(),
        ensures
            is_live_row_list(self@.log, out@),
    {
        self.log.live_rows()
    }

    /// Replaces the rows by the live rows `keep` (what the compactor leaves on
    /// disk); the indexes stay as they are.
    pub fn compact_to(&mut self, keep: &Vec<usize>)
        requires
            old(self).wf(),
            old(self)@.log.indexed == old(self)@.log.ids.len(),
            is_live_row_list(old(self)@.log, keep@),
        ensures
            final(self).wf(),
            final(self).same_config(old(self)),
            final(self)@.log == compacted(old(self)@.log, keep@),
            final(self)@.keys == Seq::new(keep@.len(), |k: int| old(self)@.keys[keep@[k] as int]),
            final(self)@.ords == Seq::new(keep@.len(), |k: int| old(self)@.ords[keep@[k] as int]),
            old(self).consistent() ==> final(self).consistent(),
    {
        proof {
            self.lemma_wf();
        }
        let mut rk: Vec<Vec<String>> = Vec::new();
        let mut ro: Vec<u64> = Vec::new();
        let mut k: usize = 0;
        while k < keep.len()
            invariant
                self.wf(),
                *self == *old(self),
                is_live_row_list(self@.log, keep@),
                k <= keep@.len(),
                rk@.len() == k,
                forall|j: int| 0 <= j < k ==> (#[trigger] rk@[j])@.len() == self.n_idx,
                keys_view(rk@) == Seq::new(k as nat, |j: int| self@.keys[keep@[j] as int]),
                ro@ == Seq::new(k as nat, |j: int| self@.ords[keep@[j] as int]),
            decreases keep@.len() - k,
        {
            proof {
                self.lemma_wf();
            }
            let r = keep[k];
            assert(keep@.contains(r));
            let ghost before = rk@;
            let ks = clone_keys(&self.row_keys[r]);
            rk.push(ks);
            ro.push(self.row_ords[r]);
            k = k + 1;
            proof {
                assert(keys_view(rk@) =~= Seq::new(k as nat, |j: int| self@.keys[keep@[j] as int])) by {
                    assert forall|j: int| 0 <= j < k implies #[trigger] keys_view(rk@)[j] =~= self@.keys[keep@[j] as int] by {
                        if j < k - 1 {
                            assert(rk@[j] == before[j]);
                            assert(keys_view(before)[j] == self@.keys[keep@[j] as int]);
                        }
                    }
                }
                assert(ro@ =~= Seq::new(k as nat, |j: int| self@.ords[keep@[j] as int]));
            }
        }
        self.log.compact_to(keep);
        self.row_keys = rk;
        self.row_ords = ro;
        proof {
            if old(self).consistent() {
                assert forall|f: int, key: Seq<char>, x: u128| 0 <= f < 2 implies
                    (#[trigger] self.index_has(f, key, x) <==> f < self.n_indexes() && self@.indexed_under(f, key, x)) by {
                    lemma_compaction_keeps_live(old(self)@.log, keep@, x);
                    assert(old(self).index_has(f, key, x) <==> f < old(self).n_indexes() && old(self)@.indexed_under(f, key, x));
                    assert(self.index_has(f, key, x) == old(self).index_has(f, key, x));
                    if old(self)@.log.is_live(x) {
                        let k = self@.log.latest_row(x)->0 as int;
                        lemma_latest_char(self@.log.committed(), x);
                        assert(self@.keys[k] == old(self)@.keys[keep@[k] as int]);
                    }
                }
                assert forall|value: u64, x: u128| #[trigger] self.ordered.has(value, x) <==>
                    self.has_ordered && self@.log.is_live(x) && self@.ord_of(x) == value by {
                    lemma_compaction_keeps_live(old(self)@.log, keep@, x);
                    assert(old(self).ordered_has(value, x) <==> old(self).has_ordered && old(self)@.log.is_live(x) && old(self)@.ord_of(x) == value);
                    assert(self.ordered.has(value, x) == old(self).ordered_has(value, x));
                    if old(self)@.log.is_live(x) {
                        let k = self@.log.latest_row(x)->0 as int;
                        lemma_latest_char(self@.log.committed(), x);
                        assert(self@.ords[k] == old(self)@.ords[keep@[k] as int]);
                    }
                }
            }
        }
    }
}

/// The scan of a range query stops once the limit is reached: a limit of
/// `n` keeps the first `n` rows (none for zero).
pub open spec fn limit_reached(len: nat, limit: Option<usize>) -> bool {
    limit matches Some(m) && len >= m
}

/// The rows a range query collects from the first `n` index pairs of `p`:
/// each pair's live row in turn, until the limit is reached.
pub open spec fn range_scan(log: LogView, p: Seq<(u64, u128)>, n: nat, limit: Option<usize>) -> Seq<usize>
    decreases n,
{
    if n == 0 {
        Seq::empty()
    } else {
        let prev = range_scan(log, p, (n - 1) as nat, limit);
        if limit_reached(prev.len(), limit) {
            prev
        } else if log.is_live(p[n - 1].1) {
            prev.push(log.latest_row(p[n - 1].1)->0 as usize)
        } else {
            prev
        }
    }
}

impl ModelCore {
    /// The ids stored under `key` in hash index `f`.
    pub fn ids_for_key(&self, f: usize, key: &str) -> (out: Vec<u128>)
        requires
            self.wf(),
            f < 2,
        ensures
            forall|x: u128| #[trigger] out@.contains(x) <==> self.index_has(f as int, key@, x),
            forall|i: int, j: int| 0 <= i < j < out@.len() ==> out@[i] != out@[j],
    {
        if f == 0 {
            self.idx0.ids(key)
        } else {
            self.idx1.ids(key)
        }
    }

    /// The live rows of the records stored under `key` in hash index `f`:
    /// with consistent indexes, exactly the live records whose
    /// key is `key`.
    pub fn rows_for_key(&self, f: usize, key: &str) -> (out: Vec<usize>)
        requires
            self.wf(),
            f < 2,
        ensures
            forall|x: u128| self.index_has(f as int, key@, x) && self@.log.is_live(x) ==>
                #[trigger] out@.contains(self@.log.latest_row(x)->0 as usize),
            forall|i: int| 0 <= i < out@.len() ==> {
                let r = #[trigger] out@[i] as int;
                &&& r < self@.log.indexed
                &&& self@.log.is_live_row(r)
                &&& self.index_has(f as int, key@, self@.log.ids[r])
            },
            self.consistent() && f < self.n_indexes() ==> forall|x: u128| #[trigger] self@.indexed_under(f as int, key@, x) ==>
                out@.contains(self@.log.latest_row(x)->0 as usize),
            self.consistent() ==> forall|i: int| 0 <= i < out@.len() ==>
                self@.indexed_under(f as int, key@, self@.log.ids[#[trigger] out@[i] as int]),
            forall|i: int, j: int| 0 <= i < j < out@.len() ==> #[trigger] out@[i] != #[trigger] out@[j],
    {
        proof {
            self.lemma_wf();
        }
        let ids = self.ids_for_key(f, key);
        let mut out: Vec<usize> = Vec::new();
        let mut i: usize = 0;
        while i < ids.len()
            invariant
                self.wf(),
                f < 2,
                i <= ids@.len(),
                self@.log.indexed <= usize::MAX,
                forall|x: u128| #[trigger] ids@.contains(x) <==> self.index_has(f as int, key@, x),
                forall|j: int| 0 <= j < i && self@.log.is_live(ids@[j]) ==>
                    out@.contains(self@.log.latest_row(#[trigger] ids@[j])->0 as usize),
                forall|k: int| 0 <= k < out@.len() ==> {
                    let r = #[trigger] out@[k] as int;
                    &&& r < self@.log.indexed
                    &&& self@.log.is_live_row(r)
                    &&& self.index_has(f as int, key@, self@.log.ids[r])
                    &&& ids@.take(i as int).contains(self@.log.ids[r])
                },
                forall|a: int, b: int| 0 <= a < b < ids@.len() ==> ids@[a] != ids@[b],
                forall|a: int, b: int| 0 <= a < b < out@.len() ==> #[trigger] out@[a] != #[trigger] out@[b],
            decreases ids@.len() - i,
        {
            proof {
                self.lemma_wf();
            }
            let id = ids[i];
            assert(ids@.contains(id));
            let ghost before = out@;
            match self.log.live_row(id) {
                Some(r) => {
                    proof {
                        let c = self@.log.committed();
                        lemma_latest_char(c, id);
                        assert(c[r as int] == id);
                    }
                    out.push(r);
                    proof {
                        assert forall|j: int| 0 <= j < i + 1 && self@.log.is_live(ids@[j]) implies
                            out@.contains(self@.log.latest_row(#[trigger] ids@[j])->0 as usize) by {
                            if j < i {
                                let k = choose|k: int| 0 <= k < before.len() && before[k] == self@.log.latest_row(ids@[j])->0 as usize;
                                assert(out@[k] == before[k]);
                            } else {
                                assert(out@[before.len() as int] == r);
                            }
                        }
                        assert forall|k: int| 0 <= k < out@.len() implies {
                            let r = #[trigger] out@[k] as int;
                            &&& r < self@.log.indexed
                            &&& self@.log.is_live_row(r)
                            &&& self.index_has(f as int, key@, self@.log.ids[r])
                            &&& ids@.take(i + 1).contains(self@.log.ids[r])
                        } by {
                            if k < before.len() {
                                assert(out@[k] == before[k]);
                                let q = self@.log.ids[out@[k] as int];
                                let j = choose|j: int| 0 <= j < i && ids@.take(i as int)[j] == q;
                                assert(ids@.take(i + 1)[j] == q);
                            } else {
                                assert(self@.log.committed()[r as int] == self@.log.ids[r as int]);
                                assert(self@.log.is_live_row(r as int));
                                assert(ids@.take(i + 1)[i as int] == id);
                            }
                        }
                        assert forall|a: int, b: int| 0 <= a < b < out@.len() implies #[trigger] out@[a] != #[trigger] out@[b] by {
                            if b == before.len() {
                                assert(out@[a] == before[a]);
                                let q = self@.log.ids[before[a] as int];
                                assert(ids@.take(i as int).contains(q));
                                let j = choose|j: int| 0 <= j < i && ids@.take(i as int)[j] == q;
                                assert(self@.log.committed()[r as int] == self@.log.ids[r as int]);
                                assert(ids@[j] != ids@[i as int]);
                            } else {
                                assert(out@[a] == before[a] && out@[b] == before[b]);
                            }
                        }
                    }
                },
                None => {},
            }
            i = i + 1;
        }
        proof {
            assert forall|x: u128| self.index_has(f as int, key@, x) && self@.log.is_live(x) implies
                #[trigger] out@.contains(self@.log.latest_row(x)->0 as usize) by {
                assert(ids@.contains(x));
                let j = choose|j: int| 0 <= j < ids@.len() && ids@[j] == x;
            }
            if self.consistent() {
                assert forall|i: int| 0 <= i < out@.len() implies
                    self@.indexed_under(f as int, key@, self@.log.ids[#[trigger] out@[i] as int]) by {
                    let r = out@[i] as int;
                    let x = self@.log.ids[r];
                    assert(self.index_has(f as int, key@, x));
                }
                if f < self.n_indexes() {
                    assert forall|x: u128| #[trigger] self@.indexed_under(f as int, key@, x) implies
                        out@.contains(self@.log.latest_row(x)->0 as usize) by {
                        assert(self.index_has(f as int, key@, x));
                    }
                }
            }
        }
        out
    }

    /// The rows of a range scan over the ordered index:
    /// the live rows of the in-range pairs in the requested order, stopping
    /// once `limit` rows were collected.
    pub fn range_rows(&self, lo: Option<u64>, hi: Option<u64>, descending: bool, limit: Option<usize>) -> (out: Vec<usize>)
        requires
            self.wf(),
        ensures
            exists|p: Seq<(u64, u128)>| {
                &&& (if descending { sorted_by_pair_desc(p) } else { sorted_by_pair(p) })
                &&& (forall|q: (u64, u128)| #[trigger] p.contains(q) <==> self.ordered_has(q.0, q.1) && in_range(q.0, lo, hi))
                &&& out@ == range_scan(self@.log, p, p.len(), limit)
            },
    {
        if let (Some(l), Some(h)) = (lo, hi) {
            if l > h {
                let ghost p: Seq<(u64, u128)> = Seq::empty();
                let out: Vec<usize> = Vec::new();
                proof {
                    assert forall|q: (u64, u128)| #[trigger] p.contains(q) <==> self.ordered_has(q.0, q.1) && in_range(q.0, lo, hi) by {}
                    assert(range_scan(self@.log, p, 0, limit) =~= Seq::<usize>::empty());
                    assert(sorted_by_pair(p) && sorted_by_pair_desc(p));
                    assert({
                        &&& (if descending { sorted_by_pair_desc(p) } else { sorted_by_pair(p) })
                        &&& (forall|q: (u64, u128)| #[trigger] p.contains(q) <==> self.ordered_has(q.0, q.1) && in_range(q.0, lo, hi))
                        &&& out@ == range_scan(self@.log, p, p.len(), limit)
                    });
                }
                return out;
            }
        }
        let pairs = self.ordered.range(lo, hi, descending);
        let mut out: Vec<usize> = Vec::new();
        let mut i: usize = 0;
        let mut done = match limit {
            Some(n) => n == 0,
            None => false,
        };
        while i < pairs.len() && !done
            invariant
                self.wf(),
                i <= pairs@.len(),
                out@ == range_scan(self@.log, pairs@, i as nat, limit),
                done == limit_reached(out@.len(), limit),
            decreases pairs@.len() - i,
        {
            let id = pairs[i].1;
            match self.log.live_row(id) {
                Some(r) => {
                    out.push(r);
                },
                None => {},
            }
            i = i + 1;
            assert(out@ =~= range_scan(self@.log, pairs@, i as nat, limit));
            done = match limit {
                Some(n) => out.len() >= n,
                None => false,
            };
        }
        proof {
            lemma_range_scan_stops(self@.log, pairs@, i as nat, limit);
        }
        out
    }
}

/// Once the limit is reached the scan collects nothing more.
pub proof fn lemma_range_scan_stops(log: LogView, p: Seq<(u64, u128)>, n: nat, limit: Option<usize>)
    requires
        n <= p.len(),
        limit_reached(range_scan(log, p, n, limit).len(), limit) || n == p.len(),
    ensures
        range_scan(log, p, p.len(), limit) == range_scan(log, p, n, limit),
    decreases p.len() - n,
{
    if n < p.len() {
        lemma_range_scan_stops(log, p, n + 1, limit);
    }
}

impl ModelCore {
    /// Hash index `f` stores `id` under `key`.
    pub fn index_contains(&self, f: usize, key: &str, id: u128) -> (b: bool)
        requires
            self.wf(),
            f < 2,
        ensures
            b == self.index_has(f as int, key@, id),
    {
        if f == 0 {
            self.idx0.contains(key, id)
        } else {
            self.idx1.contains(key, id)
        }
    }
}

impl ModelCore {
    /// Same settings means the same number of indexes, uniqueness and
    /// ordered index.
    pub proof fn lemma_same_config(&self, other: &ModelCore)
        requires
            self.same_config(other),
        ensures
            self.n_indexes() == other.n_indexes(),
            self.ordered_enabled() == other.ordered_enabled(),
            forall|f: int| #[trigger] self.is_unique(f) == other.is_unique(f),
    {
    }
}

impl ModelCore {
    /// The rows a snapshot at row count `w` sees under `key` in hash index
    /// `f`: for each id the index holds now, its version at
    /// the snapshot, when that version is no tombstone and carries `key`.
    pub fn rows_for_key_at(&self, f: usize, key: &str, w: usize) -> (out: Vec<usize>)
        requires
            self.wf(),
            f < self.n_indexes(),
        ensures
            forall|i: int| 0 <= i < out@.len() ==> {
                let r = #[trigger] out@[i] as int;
                &&& r < self@.log.ids.len()
                &&& self@.log.row_at(w as nat, self@.log.ids[r]) == Some(r as nat)
                &&& self.index_has(f as int, key@, self@.log.ids[r])
                &&& !self@.log.deleted[r]
                &&& self@.keys[r][f as int] == key@
            },
            forall|x: u128| self.index_has(f as int, key@, x) && (self@.log.row_at(w as nat, x) matches Some(r)
                && !self@.log.deleted[r as int] && self@.keys[r as int][f as int] == key@) ==>
                #[trigger] out@.contains(self@.log.row_at(w as nat, x)->0 as usize),
            forall|i: int, j: int| 0 <= i < j < out@.len() ==> #[trigger] out@[i] != #[trigger] out@[j],
    {
        proof {
            self.lemma_wf();
        }
        let ids = self.ids_for_key(f, key);
        let k = String::from_str(key);
        let mut out: Vec<usize> = Vec::new();
        let mut i: usize = 0;
        while i < ids.len()
            invariant
                self.wf(),
                f < self.n_indexes(),
                i <= ids@.len(),
                k@ == key@,
                forall|x: u128| #[trigger] ids@.contains(x) <==> self.index_has(f as int, key@, x),
                forall|q: int| 0 <= q < out@.len() ==> {
                    let r = #[trigger] out@[q] as int;
                    &&& r < self@.log.ids.len()
                    &&& self@.log.row_at(w as nat, self@.log.ids[r]) == Some(r as nat)
                    &&& self.index_has(f as int, key@, self@.log.ids[r])
                    &&& !self@.log.deleted[r]
                    &&& self@.keys[r][f as int] == key@
                    &&& ids@.take(i as int).contains(self@.log.ids[r])
                },
                forall|a: int, b: int| 0 <= a < b < ids@.len() ==> ids@[a] != ids@[b],
                forall|a: int, b: int| 0 <= a < b < out@.len() ==> #[trigger] out@[a] != #[trigger] out@[b],
                forall|j: int| 0 <= j < i && (self@.log.row_at(w as nat, ids@[j]) matches Some(r)
                    && !self@.log.deleted[r as int] && self@.keys[r as int][f as int] == key@) ==>
                    out@.contains(self@.log.row_at(w as nat, #[trigger] ids@[j])->0 as usize),
            decreases ids@.len() - i,
        {
            proof {
                self.lemma_wf();
            }
            let id = ids[i];
            assert(ids@.contains(id));
            let ghost before = out@;
            match self.log.row_at(w, id) {
                Some(r) => {
                    proof {
                        let m: int = if w < self@.log.indexed { w as int } else { self@.log.indexed as int };
                        lemma_latest_char(self@.log.ids.take(m), id);
                        assert(self@.log.ids.take(m)[r as int] == self@.log.ids[r as int]);
                    }
                    proof {
                        assert(self@.keys[r as int][f as int] == self.row_keys@[r as int]@[f as int]@);
                    }
                    if !self.log.is_deleted(r) && self.row_keys[r][f] == k {
                        out.push(r);
                        proof {
                            assert forall|q: int| 0 <= q < out@.len() implies {
                                let rr = #[trigger] out@[q] as int;
                                &&& rr < self@.log.ids.len()
                                &&& self@.log.row_at(w as nat, self@.log.ids[rr]) == Some(rr as nat)
                                &&& self.index_has(f as int, key@, self@.log.ids[rr])
                                &&& !self@.log.deleted[rr]
                                &&& self@.keys[rr][f as int] == key@
                                &&& ids@.take(i + 1).contains(self@.log.ids[rr])
                            } by {
                                if q < before.len() {
                                    assert(out@[q] == before[q]);
                                    let v = self@.log.ids[out@[q] as int];
                                    let j = choose|j: int| 0 <= j < i && ids@.take(i as int)[j] == v;
                                    assert(ids@.take(i + 1)[j] == v);
                                } else {
                                    assert(ids@.take(i + 1)[i as int] == id);
                                }
                            }
                            assert forall|a: int, b: int| 0 <= a < b < out@.len() implies #[trigger] out@[a] != #[trigger] out@[b] by {
                                if b == before.len() {
                                    assert(out@[a] == before[a]);
                                    let v = self@.log.ids[before[a] as int];
                                    assert(ids@.take(i as int).contains(v));
                                    let j = choose|j: int| 0 <= j < i && ids@.take(i as int)[j] == v;
                                    assert(ids@[j] != ids@[i as int]);
                                } else {
                                    assert(out@[a] == before[a] && out@[b] == before[b]);
                                }
                            }
                            assert forall|j: int| 0 <= j < i + 1 && (self@.log.row_at(w as nat, ids@[j]) matches Some(r)
                                && !self@.log.deleted[r as int] && self@.keys[r as int][f as int] == key@) implies
                                out@.contains(self@.log.row_at(w as nat, #[trigger] ids@[j])->0 as usize) by {
                                if j < i {
                                    let q = choose|q: int| 0 <= q < before.len() && before[q] == self@.log.row_at(w as nat, ids@[j])->0 as usize;
                                    assert(out@[q] == before[q]);
                                } else {
                                    assert(out@[before.len() as int] == r);
                                }
                            }
                        }
                    } else {
                        proof {
                            assert forall|j: int| 0 <= j < i + 1 && (self@.log.row_at(w as nat, ids@[j]) matches Some(r)
                                && !self@.log.deleted[r as int] && self@.keys[r as int][f as int] == key@) implies
                                out@.contains(self@.log.row_at(w as nat, #[trigger] ids@[j])->0 as usize) by {
                            }
                        }
                    }
                },
                None => {
                    proof {
                        assert forall|j: int| 0 <= j < i + 1 && (self@.log.row_at(w as nat, ids@[j]) matches Some(r)
                            && !self@.log.deleted[r as int] && self@.keys[r as int][f as int] == key@) implies
                            out@.contains(self@.log.row_at(w as nat, #[trigger] ids@[j])->0 as usize) by {
                        }
                    }
                },
            }
            i = i + 1;
        }
        proof {
            assert forall|x: u128| self.index_has(f as int, key@, x) && (self@.log.row_at(w as nat, x) matches Some(r)
                && !self@.log.deleted[r as int] && self@.keys[r as int][f as int] == key@) implies
                #[trigger] out@.contains(self@.log.row_at(w as nat, x)->0 as usize) by {
                assert(ids@.contains(x));
                let j = choose|j: int| 0 <= j < ids@.len() && ids@[j] == x;
            }
        }
        out
    }
}

} // verus!
