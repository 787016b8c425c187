use vstd::prelude::*;
use std::collections::HashMap;

verus! {

broadcast use vstd::std_specs::hash::group_hash_axioms;

/// The last row of `s` that holds `id`, if any.
pub open spec fn latest(s: Seq<u128>, id: u128) -> Option<nat>
    decreases s.len(),
{
    if s.len() == 0 {
        None
    } else if s.last() == id {
        Some((s.len() - 1) as nat)
    } else {
        latest(s.drop_last(), id)
    }
}

/// Every row of `s` that holds `id`, in ascending order.
pub open spec fn versions(s: Seq<u128>, id: u128) -> Seq<usize>
    decreases s.len(),
{
    if s.len() == 0 {
        Seq::empty()
    } else if s.last() == id {
        versions(s.drop_last(), id).push((s.len() - 1) as usize)
    } else {
        versions(s.drop_last(), id)
    }
}

/// `r` is the last row of `s` holding `s[r]`'s id.
pub open spec fn is_latest(s: Seq<u128>, r: int) -> bool {
    0 <= r < s.len() && latest(s, s[r]) == Some(r as nat)
}

/// What `latest` returns, stated without recursion.
pub proof fn lemma_latest_char(s: Seq<u128>, id: u128)
    ensures
        match latest(s, id) {
            Some(r) => r < s.len() && s[r as int] == id && forall|j: int| r < j < s.len() ==> s[j] != id,
            None => forall|j: int| 0 <= j < s.len() ==> s[j] != id,
        },
    decreases s.len(),
{
    if s.len() > 0 {
        let t = s.drop_last();
        lemma_latest_char(t, id);
        assert(forall|j: int| 0 <= j < t.len() ==> t[j] == s[j]);
    }
}

/// `latest` is determined by the characterisation of `lemma_latest_char`.
pub proof fn lemma_latest_from_char(s: Seq<u128>, id: u128, r: Option<nat>)
    requires
        match r {
            Some(r) => r < s.len() && s[r as int] == id && forall|j: int| r < j < s.len() ==> s[j] != id,
            None => forall|j: int| 0 <= j < s.len() ==> s[j] != id,
        },
    ensures
        latest(s, id) == r,
{
    lemma_latest_char(s, id);
    match (latest(s, id), r) {
        (Some(a), Some(b)) => {
            if a < b {
                assert(s[b as int] != id);
            } else if b < a {
                assert(s[a as int] != id);
            }
        },
        (Some(a), None) => {
            assert(s[a as int] != id);
        },
        (None, Some(b)) => {
            assert(s[b as int] != id);
        },
        (None, None) => {},
    }
}

/// What `versions` returns, stated without recursion.
pub proof fn lemma_versions_char(s: Seq<u128>, id: u128)
    requires
        s.len() <= usize::MAX,
    ensures
        forall|i: int| 0 <= i < versions(s, id).len() ==> {
            let v = #[trigger] versions(s, id)[i];
            v < s.len() && s[v as int] == id
        },
        forall|i: int, k: int| 0 <= i < k < versions(s, id).len() ==> versions(s, id)[i] < versions(s, id)[k],
        forall|j: int| 0 <= j < s.len() && s[j] == id ==> versions(s, id).contains(j as usize),
    decreases s.len(),
{
    if s.len() > 0 {
        let t = s.drop_last();
        lemma_versions_char(t, id);
        let vt = versions(t, id);
        if s.last() == id {
            let vs = vt.push((s.len() - 1) as usize);
            assert forall|j: int| 0 <= j < s.len() && s[j] == id implies vs.contains(j as usize) by {
                if j < s.len() - 1 {
                    assert(t[j] == id);
                    let k = choose|k: int| 0 <= k < vt.len() && vt[k] == j as usize;
                    assert(vs[k] == j as usize);
                } else {
                    assert(vs[vt.len() as int] == j as usize);
                }
            }
        } else {
            assert forall|j: int| 0 <= j < s.len() && s[j] == id implies vt.contains(j as usize) by {
                assert(j < s.len() - 1);
                assert(t[j] == id);
            }
        }
    }
}

/// Appending a row changes `latest` only for the appended id.
pub proof fn lemma_latest_push(s: Seq<u128>, x: u128, id: u128)
    ensures
        latest(s.push(x), id) == (if x == id { Some(s.len()) } else { latest(s, id) }),
{
    assert(s.push(x).drop_last() =~= s);
}

/// Appending a row extends `versions` only for the appended id.
pub proof fn lemma_versions_push(s: Seq<u128>, x: u128, id: u128)
    ensures
        versions(s.push(x), id) == (if x == id { versions(s, id).push(s.len() as usize) } else { versions(s, id) }),
{
    assert(s.push(x).drop_last() =~= s);
}

/// The abstract state of a model's append-only row log: the id and tombstone
/// of every row, and how many leading rows the id lookups reflect (fewer than
/// all while a transaction has staged rows).
pub struct LogView {
    pub ids: Seq<u128>,
    pub deleted: Seq<bool>,
    pub indexed: nat,
}

impl LogView {
    /// The ids of the rows the lookups reflect.
    pub open spec fn committed(self) -> Seq<u128> {
        self.ids.take(self.indexed as int)
    }

    /// The row that `get(id)` reads: the latest committed version.
    pub open spec fn latest_row(self, id: u128) -> Option<nat> {
        latest(self.committed(), id)
    }

    /// `id` has a committed version that is not a tombstone.
    pub open spec fn is_live(self, id: u128) -> bool {
        match self.latest_row(id) {
            Some(r) => !self.deleted[r as int],
            None => false,
        }
    }

    /// The version of `id` visible at snapshot watermark `w`.
    pub open spec fn row_at(self, w: nat, id: u128) -> Option<nat> {
        latest(self.ids.take(if w < self.indexed { w as int } else { self.indexed as int }), id)
    }

    /// Row `r` is the latest committed version of its id and not a tombstone.
    pub open spec fn is_live_row(self, r: int) -> bool {
        &&& is_latest(self.committed(), r)
        &&& !self.deleted[r]
    }
}

/// A model's append-only row log with its id lookups: `id → latest row` and
/// `id → every row`, both reflecting the committed prefix of the log.
pub struct VersionLog {
    ids: Vec<u128>,
    deleted: Vec<bool>,
    indexed: usize,
    id_to_row: HashMap<u128, usize>,
    id_versions: HashMap<u128, Vec<usize>>,
}

impl View for VersionLog {
    type V = LogView;

    closed spec fn view(&self) -> LogView {
        LogView { ids: self.ids@, deleted: self.deleted@, indexed: self.indexed as nat }
    }
}

impl VersionLog {
    /// The lookups agree with the committed prefix of the log.
    pub closed spec fn wf(&self) -> bool {
        &&& self.ids@.len() == self.deleted@.len()
        &&& self.ids@.len() <= usize::MAX
        &&& self.indexed <= self.ids@.len()
        &&& forall|id: u128| #[trigger] self.id_to_row@.contains_key(id) <==> latest(self@.committed(), id) is Some
        &&& forall|id: u128| self.id_to_row@.contains_key(id) ==>
                latest(self@.committed(), id) == Some(#[trigger] self.id_to_row@[id] as nat)
        &&& forall|id: u128| #[trigger] self.id_versions@.contains_key(id) <==> latest(self@.committed(), id) is Some
        &&& forall|id: u128| self.id_versions@.contains_key(id) ==>
                (#[trigger] self.id_versions@[id])@ == versions(self@.committed(), id)
    }

    pub proof fn lemma_wf_view(&self)
        requires
            self.wf(),
        ensures
            self@.ids.len() == self@.deleted.len(),
            self@.ids.len() <= usize::MAX,
            self@.indexed <= self@.ids.len(),
    {
    }

    /// An empty log.
    pub fn new() -> (r: Self)
        ensures
            r.wf(),
            r@.ids.len() == 0,
            r@.deleted.len() == 0,
            r@.indexed == 0,
    {
        let r = VersionLog {
            ids: Vec::new(),
            deleted: Vec::new(),
            indexed: 0,
            id_to_row: HashMap::new(),
            id_versions: HashMap::new(),
        };
        assert(r@.committed() =~= Seq::<u128>::empty());
        r
    }

    /// Number of rows in the log.
    pub fn len(&self) -> (n: usize)
        requires
            self.wf(),
        ensures
            n == self@.ids.len(),
    {
        self.ids.len()
    }

    /// Number of rows the lookups reflect.
    pub fn indexed_len(&self) -> (n: usize)
        requires
            self.wf(),
        ensures
            n == self@.indexed,
    {
        self.indexed
    }

    /// The id stored at row `r`.
    pub fn id_at(&self, r: usize) -> (id: u128)
        requires
            self.wf(),
            r < self@.ids.len(),
        ensures
            id == self@.ids[r as int],
    {
        self.ids[r]
    }

    /// Whether row `r` is a tombstone; rows past the end count as deleted.
    pub fn is_deleted(&self, r: usize) -> (d: bool)
        requires
            self.wf(),
        ensures
            d == (r >= self@.ids.len() || self@.deleted[r as int]),
    {
        if r < self.deleted.len() {
            self.deleted[r]
        } else {
            true
        }
    }

    /// The latest committed row of `id`.
    pub fn latest_row(&self, id: u128) -> (r: Option<usize>)
        requires
            self.wf(),
        ensures
            match r {
                Some(r) => self@.latest_row(id) == Some(r as nat),
                None => self@.latest_row(id) is None,
            },
    {
        match self.id_to_row.get(&id) {
            Some(r) => Some(*r),
            None => None,
        }
    }

    /// The row `get(id)` reads: the latest committed version, unless it is a
    /// tombstone.
    pub fn live_row(&self, id: u128) -> (r: Option<usize>)
        requires
            self.wf(),
        ensures
            match r {
                Some(r) => self@.is_live(id) && self@.latest_row(id) == Some(r as nat),
                None => !self@.is_live(id),
            },
    {
        match self.latest_row(id) {
            Some(r) => {
                proof {
                    lemma_latest_char(self@.committed(), id);
                }
                if self.is_deleted(r) {
                    None
                } else {
                    Some(r)
                }
            },
            None => None,
        }
    }
}

impl VersionLog {
    proof fn lemma_committed_step(&self)
        requires
            self.wf(),
            self.indexed < self.ids@.len(),
        ensures
            self.ids@.take(self.indexed + 1) == self@.committed().push(self.ids@[self.indexed as int]),
    {
        assert(self.ids@.take(self.indexed + 1) =~= self@.committed().push(self.ids@[self.indexed as int]));
    }

    /// Folds the next unindexed row into the lookups (it becomes the latest
    /// version of its id).
    pub fn index_next(&mut self)
        requires
            old(self).wf(),
            old(self)@.indexed < old(self)@.ids.len(),
        ensures
            final(self).wf(),
            final(self)@.ids == old(self)@.ids,
            final(self)@.deleted == old(self)@.deleted,
            final(self)@.indexed == old(self)@.indexed + 1,
    {
        let r = self.indexed;
        let n = self.ids.len();
        let id = self.ids[r];
        let ghost c = self@.committed();
        proof {
            self.lemma_committed_step();
            lemma_versions_char(c, id);
            lemma_latest_char(c, id);
            lemma_versions_push(c, id, id);
        }
        self.id_to_row.insert(id, r);
        let mut vs: Vec<usize> = match self.id_versions.remove(&id) {
            Some(v) => v,
            None => {
                proof {
                    if versions(c, id).len() > 0 {
                        let v0 = versions(c, id)[0];
                        assert(c[v0 as int] == id);
                    }
                }
                Vec::new()
            },
        };
        assert(vs@ =~= versions(c, id));
        vs.push(r);
        self.id_versions.insert(id, vs);
        self.indexed = r + 1;
        proof {
            let c2 = self@.committed();
            assert(c2 == c.push(id));
            assert forall|k: u128| #[trigger] self.id_to_row@.contains_key(k) <==> latest(c2, k) is Some by {
                lemma_latest_push(c, id, k);
            }
            assert forall|k: u128| self.id_to_row@.contains_key(k) implies
                latest(c2, k) == Some(#[trigger] self.id_to_row@[k] as nat) by {
                lemma_latest_push(c, id, k);
            }
            assert forall|k: u128| #[trigger] self.id_versions@.contains_key(k) <==> latest(c2, k) is Some by {
                lemma_latest_push(c, id, k);
            }
            assert forall|k: u128| self.id_versions@.contains_key(k) implies
                (#[trigger] self.id_versions@[k])@ == versions(c2, k) by {
                lemma_versions_push(c, id, k);
            }
        }
    }

    /// Appends a row and folds it into the lookups (a write outside a
    /// transaction). Returns the new row's index.
    pub fn append(&mut self, id: u128, deleted: bool) -> (row: usize)
        requires
            old(self).wf(),
            old(self)@.indexed == old(self)@.ids.len(),
            old(self)@.ids.len() < usize::MAX,
        ensures
            final(self).wf(),
            row == old(self)@.ids.len(),
            final(self)@.ids == old(self)@.ids.push(id),
            final(self)@.deleted == old(self)@.deleted.push(deleted),
            final(self)@.indexed == final(self)@.ids.len(),
    {
        let row = self.stage(id, deleted);
        self.index_next();
        row
    }

    /// Appends a row without touching the lookups (a write staged by a
    /// transaction). Returns the new row's index.
    pub fn stage(&mut self, id: u128, deleted: bool) -> (row: usize)
        requires
            old(self).wf(),
            old(self)@.ids.len() < usize::MAX,
        ensures
            final(self).wf(),
            row == old(self)@.ids.len(),
            final(self)@.ids == old(self)@.ids.push(id),
            final(self)@.deleted == old(self)@.deleted.push(deleted),
            final(self)@.indexed == old(self)@.indexed,
    {
        let row = self.ids.len();
        let ghost c = self@.committed();
        self.ids.push(id);
        self.deleted.push(deleted);
        assert(self@.committed() =~= c);
        row
    }

    /// Folds every unindexed row into the lookups, in row order.
    pub fn index_pending(&mut self)
        requires
            old(self).wf(),
        ensures
            final(self).wf(),
            final(self)@.ids == old(self)@.ids,
            final(self)@.deleted == old(self)@.deleted,
            final(self)@.indexed == final(self)@.ids.len(),
    {
        while self.indexed < self.ids.len()
            invariant
                self.wf(),
                self@.ids == old(self)@.ids,
                self@.deleted == old(self)@.deleted,
            decreases self@.ids.len() - self@.indexed,
        {
            self.index_next();
        }
    }

    /// Rebuilds the lookups from scratch over every row.
    pub fn reindex_all(&mut self)
        requires
            old(self).wf(),
        ensures
            final(self).wf(),
            final(self)@.ids == old(self)@.ids,
            final(self)@.deleted == old(self)@.deleted,
            final(self)@.indexed == final(self)@.ids.len(),
    {
        self.id_to_row.clear();
        self.id_versions.clear();
        self.indexed = 0;
        assert(self@.committed() =~= Seq::<u128>::empty());
        self.index_pending();
    }

    /// Drops every row at or past `n`; lookups that reflected dropped rows are
    /// rebuilt over what remains.
    pub fn truncate_to(&mut self, n: usize)
        requires
            old(self).wf(),
            n <= old(self)@.ids.len(),
        ensures
            final(self).wf(),
            final(self)@.ids == old(self)@.ids.take(n as int),
            final(self)@.deleted == old(self)@.deleted.take(n as int),
            final(self)@.indexed == (if n < old(self)@.indexed { n as nat } else { old(self)@.indexed }),
    {
        let ghost c = self@.committed();
        self.ids.truncate(n);
        self.deleted.truncate(n);
        if n < self.indexed {
            self.id_to_row.clear();
            self.id_versions.clear();
            self.indexed = 0;
            assert(self@.committed() =~= Seq::<u128>::empty());
            self.index_pending();
        } else {
            assert(self@.committed() =~= c);
        }
    }
}


/// `v` is strictly increasing.
pub open spec fn strictly_sorted(v: Seq<usize>) -> bool {
    forall|i: int, k: int| 0 <= i < k < v.len() ==> v[i] < v[k]
}

/// The number of leading entries of a sorted list that are below `w`.
fn partition_below(v: &Vec<usize>, w: usize) -> (pos: usize)
    requires
        strictly_sorted(v@),
    ensures
        pos <= v@.len(),
        forall|i: int| 0 <= i < pos ==> v@[i] < w,
        forall|i: int| pos <= i < v@.len() ==> v@[i] >= w,
{
    let mut lo: usize = 0;
    let mut hi: usize = v.len();
    while lo < hi
        invariant
            lo <= hi <= v@.len(),
            strictly_sorted(v@),
            forall|i: int| 0 <= i < lo ==> v@[i] < w,
            forall|i: int| hi <= i < v@.len() ==> v@[i] >= w,
        decreases hi - lo,
    {
        let mid = lo + (hi - lo) / 2;
        if v[mid] < w {
            lo = mid + 1;
        } else {
            hi = mid;
        }
    }
    lo
}

impl VersionLog {
    /// The version of `id` visible to a snapshot taken at row count `w`:
    /// the last committed row of `id` below `w`.
    pub fn row_at(&self, w: usize, id: u128) -> (r: Option<usize>)
        requires
            self.wf(),
        ensures
            match r {
                Some(r) => self@.row_at(w as nat, id) == Some(r as nat),
                None => self@.row_at(w as nat, id) is None,
            },
    {
        let ghost c = self@.committed();
        let ghost m: int = if w < self.indexed { w as int } else { self.indexed as int };
        let ghost t = self.ids@.take(m);
        proof {
            lemma_versions_char(c, id);
            lemma_latest_char(c, id);
        }
        match self.id_versions.get(&id) {
            None => {
                proof {
                    lemma_latest_from_char(t, id, None);
                }
                None
            },
            Some(vs) => {
                let pos = partition_below(vs, w);
                if pos == 0 {
                    proof {
                        assert forall|j: int| 0 <= j < t.len() implies t[j] != id by {
                            if t[j] == id {
                                assert(c[j] == id);
                                assert(vs@.contains(j as usize));
                            }
                        }
                        lemma_latest_from_char(t, id, None);
                    }
                    None
                } else {
                    let r = vs[pos - 1];
                    proof {
                        let vv = versions(c, id);
                        assert(vv[pos - 1] == r);
                        assert forall|j: int| r < j < t.len() implies t[j] != id by {
                            if t[j] == id {
                                assert(c[j] == id);
                                assert(vs@.contains(j as usize));
                                let k = choose|k: int| 0 <= k < vv.len() && vv[k] == j as usize;
                                if k < pos - 1 {
                                    assert(vv[k] < vv[pos - 1]);
                                } else if k >= pos {
                                    assert(vv[k] >= w);
                                }
                            }
                        }
                        lemma_latest_from_char(t, id, Some(r as nat));
                    }
                    Some(r)
                }
            },
        }
    }

    /// Whether committed row `r` is the latest version of its id and not a
    /// tombstone.
    pub fn is_live_row(&self, r: usize) -> (b: bool)
        requires
            self.wf(),
            r < self@.indexed,
        ensures
            b == self@.is_live_row(r as int),
    {
        let id = self.ids[r];
        proof {
            assert(self@.committed()[r as int] == id);
        }
        match self.id_to_row.get(&id) {
            Some(x) => *x == r && !self.deleted[r],
            None => false,
        }
    }

    /// Every live row, ascending: the row set of unfiltered scans and
    /// pages.
    pub fn live_rows(&self) -> (out: Vec<usize>)
        requires
            self.wf(),
        ensures
            strictly_sorted(out@),
            forall|x: usize| #[trigger] out@.contains(x) <==> x < self@.indexed && self@.is_live_row(x as int),
    {
        let mut out: Vec<usize> = Vec::new();
        let mut r: usize = 0;
        while r < self.indexed
            invariant
                self.wf(),
                r <= self@.indexed,
                strictly_sorted(out@),
                forall|i: int| 0 <= i < out@.len() ==> (#[trigger] out@[i]) < r,
                forall|x: usize| #[trigger] out@.contains(x) <==> x < r && self@.is_live_row(x as int),
            decreases self@.indexed - r,
        {
            let ghost before = out@;
            if self.is_live_row(r) {
                out.push(r);
                proof {
                    assert forall|x: usize| #[trigger] out@.contains(x) <==> before.contains(x) || x == r by {
                        if out@.contains(x) {
                            let k = choose|k: int| 0 <= k < out@.len() && out@[k] == x;
                            if k < before.len() {
                                assert(before[k] == x);
                            }
                        }
                        if before.contains(x) {
                            let k = choose|k: int| 0 <= k < before.len() && before[k] == x;
                            assert(out@[k] == x);
                        }
                        if x == r {
                            assert(out@[before.len() as int] == x);
                        }
                    }
                }
            }
            r = r + 1;
        }
        out
    }
}

proof fn lemma_push_contains(s: Seq<usize>, v: usize)
    ensures
        forall|x: usize| #[trigger] s.push(v).contains(x) <==> s.contains(x) || x == v,
{
    assert forall|x: usize| #[trigger] s.push(v).contains(x) <==> s.contains(x) || x == v by {
        if s.push(v).contains(x) {
            let k = choose|k: int| 0 <= k < s.push(v).len() && s.push(v)[k] == x;
            if k < s.len() {
                assert(s[k] == x);
            }
        }
        if s.contains(x) {
            let k = choose|k: int| 0 <= k < s.len() && s[k] == x;
            assert(s.push(v)[k] == x);
        }
        if x == v {
            assert(s.push(v)[s.len() as int] == x);
        }
    }
}

/// The log that compaction leaves: the kept rows, in order, none deleted.
pub open spec fn compacted(old: LogView, keep: Seq<usize>) -> LogView {
    LogView {
        ids: Seq::new(keep.len(), |k: int| old.ids[keep[k] as int]),
        deleted: Seq::new(keep.len(), |k: int| false),
        indexed: keep.len(),
    }
}

/// `keep` lists exactly the live rows of `v`, ascending.
pub open spec fn is_live_row_list(v: LogView, keep: Seq<usize>) -> bool {
    &&& strictly_sorted(keep)
    &&& forall|x: usize| #[trigger] keep.contains(x) <==> x < v.indexed && v.is_live_row(x as int)
}

/// Two ascending lists without repeats that hold the same rows are equal.
proof fn lemma_sorted_same_rows(a: Seq<usize>, b: Seq<usize>)
    requires
        strictly_sorted(a),
        strictly_sorted(b),
        forall|x: usize| #[trigger] a.contains(x) <==> b.contains(x),
    ensures
        a == b,
    decreases a.len(),
{
    if a.len() == 0 {
        if b.len() > 0 {
            assert(b.contains(b[0]));
            assert(a.contains(b[0]));
        }
        assert(a =~= b);
    } else {
        assert(a.contains(a[0]));
        let la = a.last();
        let lb = b.last();
        assert(a.contains(la));
        assert(b.contains(lb));
        assert(a.contains(lb));
        let i = choose|i: int| 0 <= i < b.len() && b[i] == la;
        let j = choose|j: int| 0 <= j < a.len() && a[j] == lb;
        assert(la <= lb) by {
            if i < b.len() - 1 {
                assert(b[i] < b[b.len() - 1]);
            }
        }
        assert(lb <= la) by {
            if j < a.len() - 1 {
                assert(a[j] < a[a.len() - 1]);
            }
        }
        let a2 = a.drop_last();
        let b2 = b.drop_last();
        assert forall|x: usize| #[trigger] a2.contains(x) <==> b2.contains(x) by {
            if a2.contains(x) {
                let k = choose|k: int| 0 <= k < a2.len() && a2[k] == x;
                assert(a[k] == x && a[k] < a[a.len() - 1]);
                assert(a.contains(x));
                assert(b.contains(x));
                let m = choose|m: int| 0 <= m < b.len() && b[m] == x;
                assert(m != b.len() - 1);
                assert(b2[m] == x);
            }
            if b2.contains(x) {
                let k = choose|k: int| 0 <= k < b2.len() && b2[k] == x;
                assert(b[k] == x && b[k] < b[b.len() - 1]);
                assert(b.contains(x));
                assert(a.contains(x));
                let m = choose|m: int| 0 <= m < a.len() && a[m] == x;
                assert(m != a.len() - 1);
                assert(a2[m] == x);
            }
        }
        lemma_sorted_same_rows(a2, b2);
        assert(a =~= a2.push(la));
        assert(b =~= b2.push(lb));
    }
}

/// A full scan reads what listing every record reads: two lists of the live
/// rows are the same list, and it holds each live record once, by the row
/// of its latest version, and no other record.
pub proof fn lemma_live_rows_listing(v: LogView, scanned: Seq<usize>, all: Seq<usize>)
    requires
        v.indexed <= v.ids.len(),
        v.ids.len() <= usize::MAX,
        is_live_row_list(v, scanned),
        is_live_row_list(v, all),
    ensures
        scanned == all,
        forall|i: int, j: int| 0 <= i < j < scanned.len() ==> v.ids[#[trigger] scanned[i] as int] != v.ids[#[trigger] scanned[j] as int],
        forall|x: u128| #[trigger] v.is_live(x) ==> scanned.contains(v.latest_row(x)->0 as usize),
        forall|i: int| 0 <= i < scanned.len() ==> v.is_live(v.ids[#[trigger] scanned[i] as int]),
{
    lemma_sorted_same_rows(scanned, all);
    assert forall|i: int| 0 <= i < scanned.len() implies v.is_live(v.ids[#[trigger] scanned[i] as int])
        && v.latest_row(v.ids[scanned[i] as int]) == Some(scanned[i] as nat) by {
        assert(scanned.contains(scanned[i]));
        assert(v.committed()[scanned[i] as int] == v.ids[scanned[i] as int]);
    }
    assert forall|i: int, j: int| 0 <= i < j < scanned.len() implies v.ids[#[trigger] scanned[i] as int]
        != v.ids[#[trigger] scanned[j] as int] by {
        assert(scanned[i] < scanned[j]);
    }
    assert forall|x: u128| #[trigger] v.is_live(x) implies scanned.contains(v.latest_row(x)->0 as usize) by {
        lemma_latest_char(v.committed(), x);
        let r = v.latest_row(x)->0;
        assert(v.committed()[r as int] == v.ids[r as int]);
        assert(v.is_live_row(r as int));
    }
}

impl VersionLog {
    /// The rows a snapshot at row count `w` sees as live, ascending: the
    /// row set of projections at a snapshot.
    pub fn live_rows_at(&self, w: usize) -> (out: Vec<usize>)
        requires
            self.wf(),
        ensures
            strictly_sorted(out@),
            forall|x: usize| #[trigger] out@.contains(x) <==> {
                &&& x < self@.indexed
                &&& x < w
                &&& self@.row_at(w as nat, self@.ids[x as int]) == Some(x as nat)
                &&& !self@.deleted[x as int]
            },
    {
        let mut out: Vec<usize> = Vec::new();
        let end: usize = if w < self.indexed { w } else { self.indexed };
        let mut r: usize = 0;
        while r < end
            invariant
                self.wf(),
                end <= self@.indexed,
                end <= w,
                r <= end,
                end == (if w < self@.indexed { w as nat } else { self@.indexed }),
                strictly_sorted(out@),
                forall|i: int| 0 <= i < out@.len() ==> (#[trigger] out@[i]) < r,
                forall|x: usize| #[trigger] out@.contains(x) <==> {
                    &&& x < r
                    &&& self@.row_at(w as nat, self@.ids[x as int]) == Some(x as nat)
                    &&& !self@.deleted[x as int]
                },
            decreases end - r,
        {
            let ghost before = out@;
            let id = self.ids[r];
            let vis = self.row_at(w, id);
            let keep = match vis {
                Some(x) => x == r && !self.deleted[r],
                None => false,
            };
            if keep {
                out.push(r);
                proof {
                    lemma_push_contains(before, r);
                }
            }
            r = r + 1;
        }
        proof {
            assert forall|x: usize| #[trigger] out@.contains(x) implies x < self@.indexed && x < w by {}
            assert forall|x: usize|
                x < self@.indexed && x < w && self@.row_at(w as nat, self@.ids[x as int]) == Some(x as nat)
                && !self@.deleted[x as int] implies #[trigger] out@.contains(x) by {}
        }
        out
    }

    /// Replaces the log by its live rows `keep` (ascending), the shape the
    /// compactor leaves on disk, and rebuilds the lookups over it.
    pub fn compact_to(&mut self, keep: &Vec<usize>)
        requires
            old(self).wf(),
            old(self)@.indexed == old(self)@.ids.len(),
            is_live_row_list(old(self)@, keep@),
        ensures
            final(self).wf(),
            final(self)@ == compacted(old(self)@, keep@),
    {
        let mut ids: Vec<u128> = Vec::new();
        let mut deleted: Vec<bool> = Vec::new();
        let mut k: usize = 0;
        while k < keep.len()
            invariant
                self.wf(),
                self == old(self),
                is_live_row_list(old(self)@, keep@),
                k <= keep@.len(),
                ids@ == Seq::new(k as nat, |j: int| self@.ids[keep@[j] as int]),
                deleted@ == Seq::new(k as nat, |j: int| false),
            decreases keep@.len() - k,
        {
            let r = keep[k];
            assert(keep@.contains(r));
            ids.push(self.ids[r]);
            deleted.push(false);
            k = k + 1;
            assert(ids@ =~= Seq::new(k as nat, |j: int| self@.ids[keep@[j] as int]));
            assert(deleted@ =~= Seq::new(k as nat, |j: int| false));
        }
        self.ids = ids;
        self.deleted = deleted;
        self.id_to_row.clear();
        self.id_versions.clear();
        self.indexed = 0;
        assert(self@.committed() =~= Seq::<u128>::empty());
        self.index_pending();
        assert(self@ =~= compacted(old(self)@, keep@));
    }
}

/// Compaction keeps exactly the live records: an id is live after compacting
/// to the live rows iff it was live before, and its new row is the position
/// of its old row among the kept rows.
pub proof fn lemma_compaction_keeps_live(old: LogView, keep: Seq<usize>, id: u128)
    requires
        old.indexed == old.ids.len(),
        old.ids.len() == old.deleted.len(),
        old.ids.len() <= usize::MAX,
        is_live_row_list(old, keep),
    ensures
        old.is_live(id) <==> compacted(old, keep).is_live(id),
        old.is_live(id) ==> keep[compacted(old, keep).latest_row(id)->0 as int] == old.latest_row(id)->0,
{
    let c = old.committed();
    let n = compacted(old, keep);
    let nc = n.committed();
    assert(c =~= old.ids);
    assert(nc =~= n.ids);
    lemma_latest_char(c, id);
    assert forall|k: int| 0 <= k < keep.len() implies #[trigger] keep[k] < old.ids.len()
        && is_latest(c, keep[k] as int) && !old.deleted[keep[k] as int] by {
        assert(keep.contains(keep[k]));
    }
    if old.is_live(id) {
        let r = latest(c, id)->0;
        assert(c[r as int] == id);
        assert(old.is_live_row(r as int));
        assert(keep.contains(r as usize));
        let k = choose|k: int| 0 <= k < keep.len() && keep[k] == r as usize;
        assert forall|j: int| k < j < nc.len() implies nc[j] != id by {
            assert(keep[k] < keep[j]);
            let rj = keep[j] as int;
            assert(is_latest(c, rj));
            if nc[j] == id {
                assert(c[rj] == id);
            }
        }
        lemma_latest_from_char(nc, id, Some(k as nat));
    } else {
        assert forall|j: int| 0 <= j < nc.len() implies nc[j] != id by {
            let rj = keep[j] as int;
            assert(is_latest(c, rj));
            if nc[j] == id {
                assert(c[rj] == id);
                assert(latest(c, id) == Some(rj as nat));
            }
        }
        lemma_latest_from_char(nc, id, None);
    }
}

} // verus!
